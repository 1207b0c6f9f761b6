use friends_random_bot_rust::application::{Episode, Error};

#[test]
fn episode_from_fn_works_as_expected() {
    let code = "s01e03".to_string();

    let episode = Episode::from(&code).unwrap();

    assert_eq!(episode.code(), code);
    assert_eq!(episode.season(), 1);
    assert_eq!(episode.episode(), 3);
}

#[test]
fn parse_rejects_malformed_codes() {
    assert_eq!(Episode::from("bad"), Err(Error::MalformedCode));
    assert_eq!(Episode::from("x01e02"), Err(Error::MalformedCode));
    assert_eq!(Episode::from("s01x02"), Err(Error::MalformedCode));
    assert_eq!(Episode::from("s1e02"), Err(Error::MalformedCode));
    assert_eq!(Episode::from("s01e023"), Err(Error::MalformedCode));
    assert_eq!(Episode::from("s+1e02"), Err(Error::MalformedCode));
    assert_eq!(Episode::from("s00e01"), Err(Error::MalformedCode));
    assert_eq!(Episode::from("s01e00"), Err(Error::MalformedCode));
    assert_eq!(Episode::from(""), Err(Error::MalformedCode));
    assert_eq!(Episode::from("sé1e02"), Err(Error::MalformedCode));
}

#[test]
fn parse_reads_both_numbers() {
    let e = Episode::from("s10e24").unwrap();
    assert_eq!((e.season(), e.episode()), (10, 24));
    let e = Episode::from("s99e99").unwrap();
    assert_eq!((e.season(), e.episode()), (99, 99));
}

#[test]
fn render_then_parse_round_trips() {
    for code in ["s01e01", "s09e10", "s10e09", "s99e99"] {
        let e = Episode::from(code).unwrap();
        assert_eq!(e.code(), code);
        assert_eq!(Episode::from(e.code()).unwrap(), e);
    }
}

#[test]
fn episodes_are_equal_by_code() {
    assert_eq!(Episode::from("s02e03").unwrap(), Episode::from("s02e03").unwrap());
    assert_ne!(Episode::from("s02e03").unwrap(), Episode::from("s03e02").unwrap());
    let e = Episode::from("s02e03").unwrap();
    assert_eq!(e.clone(), e);
}

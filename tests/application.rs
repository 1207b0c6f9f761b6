use friends_random_bot_rust::application::{self, Application, Catalog, Episode, Error, UserID};
use std::path::PathBuf;

const EPISODES: [&str; 6] = ["s01e01", "s01e02", "s01e03", "s02e01", "s02e02", "s10e24"];

fn catalog_of(codes: &[&str]) -> Catalog {
    Catalog::new(codes.iter().map(|c| Episode::from(c).unwrap()).collect()).unwrap()
}

fn build_application() -> Application {
    application::new("seen_episodes".to_string(), catalog_of(&EPISODES))
}

#[test]
fn application_build_user_storage_path_fn_works_as_expected() {
    let a = build_application();

    let user_id = UserID::new(317);

    let result = a.build_user_storage_path(user_id);

    assert_eq!(PathBuf::from(result), PathBuf::from("seen_episodes/317.txt"));
}

#[test]
fn storage_path_text_is_exact() {
    let a = build_application();
    assert_eq!(a.build_user_storage_path(UserID::new(317)), "seen_episodes/317.txt");
    assert_eq!(a.build_user_storage_path(UserID::new(0)), "seen_episodes/0.txt");
    assert_eq!(
        a.build_user_storage_path(UserID::new(u64::MAX)),
        "seen_episodes/18446744073709551615.txt"
    );
}

#[test]
fn storage_path_with_trailing_separator_or_empty_root() {
    let a = application::new("data/".to_string(), catalog_of(&EPISODES));
    assert_eq!(a.build_user_storage_path(UserID::new(42)), "data/42.txt");
    let b = application::new(String::new(), catalog_of(&EPISODES));
    assert_eq!(b.build_user_storage_path(UserID::new(42)), "42.txt");
}

#[test]
fn user_id_renders_in_decimal() {
    assert_eq!(UserID::new(317).to_string(), "317");
    assert_eq!(UserID::new(0).to_string(), "0");
    assert_eq!(UserID::new(1000).to_string(), "1000");
}

#[test]
fn application_read_db_from_file_fn_works_with_non_existing_file() {
    let a = build_application();

    // A record that does not exist is read as the empty text.
    let result = a.list_seen_episodes("");

    assert!(!result.is_err(), "result is error: {result:#?}");
    assert_eq!(result.unwrap(), Vec::<Episode>::new());
}

#[test]
fn application_read_db_from_file_fn_handles_empty_file() {
    let a = build_application();

    let result = a.list_seen_episodes("");
    assert!(!result.is_err(), "result is error: {result:#?}");
    assert_eq!(result.unwrap(), Vec::<Episode>::new());
}

#[test]
fn application_read_db_from_file_fn_reads_data_from_file() {
    let a = build_application();
    // What `writeln!(file, "s01e02\ns01e01\n")` leaves in a file.
    let content = format!("{}\n", "s01e02\ns01e01\n");

    let result = a.list_seen_episodes(&content);
    assert!(!result.is_err(), "result is error: {result:#?}");
    assert_eq!(
        result.unwrap(),
        vec!(Episode::from("s01e01").unwrap(), Episode::from("s01e02").unwrap(),)
    );
}

#[test]
fn reading_tolerates_carriage_returns_and_a_missing_last_break() {
    let a = build_application();
    let result = a.list_seen_episodes("s01e02\r\ns01e01").unwrap();
    assert_eq!(
        result,
        vec![Episode::from("s01e01").unwrap(), Episode::from("s01e02").unwrap()]
    );
}

#[test]
fn reading_a_malformed_record_fails() {
    let a = build_application();
    assert_eq!(a.list_seen_episodes("s01e02\nbad\n"), Err(Error::MalformedCode));
    assert_eq!(a.list_seen_episodes("s01e02s01e01\n"), Err(Error::MalformedCode));
    assert_eq!(a.get_next_episode("x01e02\n"), Err(Error::MalformedCode));
    assert_eq!(
        a.mark_seen("s01e0\n", Episode::from("s01e01").unwrap()),
        Err(Error::MalformedCode)
    );
}

#[test]
fn reading_ignores_white_space_around_the_text() {
    let a = build_application();
    assert_eq!(
        a.list_seen_episodes(" s01e02\n").unwrap(),
        vec![Episode::from("s01e02").unwrap()]
    );
    assert_eq!(
        a.list_seen_episodes("\t\n s01e02\ns01e01 \n\n").unwrap(),
        vec![Episode::from("s01e01").unwrap(), Episode::from("s01e02").unwrap()]
    );
    assert_eq!(a.list_seen_episodes(" ").unwrap(), Vec::<Episode>::new());
    assert_eq!(a.list_seen_episodes("\u{a0}\u{3000}\r\n").unwrap(), Vec::<Episode>::new());
}

#[test]
fn a_blank_record_still_gets_a_recommendation_and_can_grow() {
    let a = build_application();
    let e = a.get_next_episode(" \n ").unwrap();
    assert!(EPISODES.contains(&e.code()));
    assert_eq!(a.mark_seen(" ", Episode::from("s01e01").unwrap()).unwrap(), "s01e01\n");
}

#[test]
fn a_blank_line_between_codes_is_malformed() {
    let a = build_application();
    assert_eq!(a.list_seen_episodes("s01e01\n\ns01e02"), Err(Error::MalformedCode));
    assert_eq!(a.get_next_episode("s01e01\n\ns01e02\n"), Err(Error::MalformedCode));
    assert_eq!(a.list_seen_episodes("s01e01\n \ns01e02"), Err(Error::MalformedCode));
    assert_eq!(a.list_seen_episodes("s01e01\r\n\r\ns01e02"), Err(Error::MalformedCode));
}

#[test]
fn a_lone_carriage_return_is_not_a_line_break() {
    let a = build_application();
    assert_eq!(a.list_seen_episodes("s01e02\rs01e01"), Err(Error::MalformedCode));
    assert_eq!(a.list_seen_episodes("s01e02\r\r\ns01e01"), Err(Error::MalformedCode));
}

#[test]
fn first_unseen_follows_the_given_order() {
    let a = build_application();
    let seen = vec![Episode::from("s02e02").unwrap(), Episode::from("s01e03").unwrap()];
    // Catalog positions: s01e01, s01e02, s01e03, s02e01, s02e02, s10e24.
    let order = vec![4, 2, 5, 0, 1, 3];
    assert_eq!(a.first_unseen(&order, &seen).unwrap().code(), "s10e24");
    let order = vec![2, 4, 1, 5, 0, 3];
    assert_eq!(a.first_unseen(&order, &seen).unwrap().code(), "s01e02");
    let all: Vec<Episode> = EPISODES.iter().map(|s| Episode::from(s).unwrap()).collect();
    assert_eq!(a.first_unseen(&order, &all), Err(Error::NoUnseenEpisodes));
}

#[test]
fn first_unseen_depends_only_on_the_seen_set() {
    let a = build_application();
    let order = vec![3, 0, 5, 1, 2, 4];
    let seen1 = vec![Episode::from("s02e01").unwrap(), Episode::from("s01e01").unwrap()];
    let seen2 = vec![
        Episode::from("s01e01").unwrap(),
        Episode::from("s02e01").unwrap(),
        Episode::from("s01e01").unwrap(),
    ];
    assert_eq!(a.first_unseen(&order, &seen1), a.first_unseen(&order, &seen2));
    assert_eq!(a.first_unseen(&order, &seen1).unwrap().code(), "s10e24");
}

#[test]
fn application_select_next_episode_fn_returns_any_episode_at_all() {
    let a = build_application();

    let result = a.select_next_episode(&Vec::new());
    assert!(!result.is_err(), "result is error: {result:#?}");
    assert!(EPISODES.contains(&result.unwrap().code()))
}

#[test]
fn application_select_next_episode_fn_returns_error_if_there_is_no_unseen_episodes() {
    let a = build_application();

    let all_episodes: Vec<Episode> = EPISODES.iter().map(|s| Episode::from(s).unwrap()).collect();

    let result = a.select_next_episode(&all_episodes);

    assert!(matches!(result, Err(Error::NoUnseenEpisodes)));
}

#[test]
fn select_returns_the_only_unseen_episode() {
    let a = build_application();
    let seen: Vec<Episode> = EPISODES[1..].iter().map(|s| Episode::from(s).unwrap()).collect();
    for _ in 0..20 {
        assert_eq!(a.select_next_episode(&seen).unwrap().code(), "s01e01");
    }
}

#[test]
fn select_does_not_always_follow_catalog_order() {
    let a = build_application();
    let mut firsts = std::collections::HashSet::new();
    for _ in 0..200 {
        firsts.insert(a.select_next_episode(&Vec::new()).unwrap().code().to_string());
    }
    assert!(firsts.len() > 1, "always picked {firsts:?}");
}

#[test]
fn select_on_an_empty_catalog_reports_exhaustion() {
    let a = application::new("seen_episodes".to_string(), Catalog::new(Vec::new()).unwrap());
    assert_eq!(a.select_next_episode(&Vec::new()), Err(Error::NoUnseenEpisodes));
    assert_eq!(a.get_next_episode(""), Err(Error::NoUnseenEpisodes));
}

#[test]
fn application_save_db_to_file_fn_saves_empty_list_to_file() {
    let text = application::record::encode_record(&Vec::new());
    assert_eq!(text, "");
}

#[test]
fn application_save_db_to_file_fn_saves_non_empty_list_to_file_in_reverse_order() {
    let seen_episodes = vec![Episode::from("s01e01").unwrap(), Episode::from("s01e02").unwrap()];

    let text = application::record::encode_record(&seen_episodes);

    assert_eq!(text, "s01e02\ns01e01\n");
}

#[test]
fn get_next_on_an_empty_record_is_in_the_catalog() {
    let a = build_application();
    for _ in 0..20 {
        let e = a.get_next_episode("").unwrap();
        assert!(EPISODES.contains(&e.code()));
    }
}

#[test]
fn get_next_never_returns_a_seen_episode() {
    let a = build_application();
    let record = "s10e24\ns01e01\ns02e02\n";
    for _ in 0..50 {
        let e = a.get_next_episode(record).unwrap();
        assert!(!record.contains(e.code()), "returned seen {}", e.code());
    }
}

#[test]
fn marking_every_episode_exhausts_the_catalog() {
    let a = build_application();
    let mut record = String::new();
    let mut picked = Vec::new();
    for _ in 0..EPISODES.len() {
        let e = a.get_next_episode(&record).unwrap();
        assert!(!picked.contains(&e.code().to_string()));
        picked.push(e.code().to_string());
        record = a.mark_seen(&record, e).unwrap();
    }
    assert_eq!(a.get_next_episode(&record), Err(Error::NoUnseenEpisodes));
    assert_eq!(a.list_seen_episodes(&record).unwrap().len(), EPISODES.len());
}

#[test]
fn two_appends_then_load_are_oldest_first() {
    let a = build_application();
    let r1 = a.mark_seen("", Episode::from("s01e01").unwrap()).unwrap();
    let r2 = a.mark_seen(&r1, Episode::from("s01e02").unwrap()).unwrap();
    let loaded = a.list_seen_episodes(&r2).unwrap();
    let codes: Vec<&str> = loaded.iter().map(|e| e.code()).collect();
    assert_eq!(codes, vec!["s01e01", "s01e02"]);
}

#[test]
fn two_appends_store_newest_first() {
    let a = build_application();
    let r1 = a.mark_seen("", Episode::from("s01e01").unwrap()).unwrap();
    assert_eq!(r1, "s01e01\n");
    let r2 = a.mark_seen(&r1, Episode::from("s01e02").unwrap()).unwrap();
    assert_eq!(r2, "s01e02\ns01e01\n");
}

#[test]
fn marking_the_same_episode_twice_keeps_both() {
    let a = build_application();
    let r1 = a.mark_seen("", Episode::from("s02e01").unwrap()).unwrap();
    let r2 = a.mark_seen(&r1, Episode::from("s02e01").unwrap()).unwrap();
    assert_eq!(r2, "s02e01\ns02e01\n");
    assert_eq!(a.list_seen_episodes(&r2).unwrap().len(), 2);
}

#[test]
fn load_of_a_missing_record_is_empty() {
    let a = build_application();
    assert_eq!(a.list_seen_episodes("").unwrap(), Vec::<Episode>::new());
    assert_eq!(a.list_seen_episodes("\n\n").unwrap(), Vec::<Episode>::new());
}

#[test]
fn catalog_rejects_duplicates_and_keeps_order() {
    let dup = vec![
        Episode::from("s01e01").unwrap(),
        Episode::from("s01e02").unwrap(),
        Episode::from("s01e01").unwrap(),
    ];
    assert!(Catalog::new(dup).is_none());
    let c = catalog_of(&EPISODES);
    assert_eq!(c.len(), EPISODES.len());
    let codes: Vec<&str> = c.all().iter().map(|e| e.code()).collect();
    assert_eq!(codes, EPISODES.to_vec());
}

use auxbookmark::backup::{
    backup_file, backup_note, maybe_backup, need_backup, note_file, prune_old_backups,
};
use auxbookmark::config::{
    browser_place, detect_firefox_profile, load_config, log_line, log_msg, read_settings,
    set_debug_mode, ProfileBackend, Session, UserDir, KNOWN_BROWSERS,
};

fn lines(s: &[&str]) -> Vec<String> {
    s.iter().map(|x| x.to_string()).collect()
}

#[test]
fn settings_are_read_line_by_line() {
    let st = read_settings(&lines(&[
        "; comment = 1",
        "# other",
        "",
        "[General]",
        " BACKUP_interval_minutes = \"45\" ",
        "backup_keep_generations=7",
        "debug = TRUE",
        "nothing here",
        "[ PROFILES ]",
        "Work = \"C:\\x\\Bookmarks\"",
        "Fox = D:/p/places.sqlite-backup",
        "debug = 0",
        "[other]",
        "backup_interval_minutes = x",
    ]));
    assert_eq!(st.backup_interval_minutes, 45);
    assert_eq!(st.backup_keep_generations, 7);
    assert!(st.debug);
    assert_eq!(st.candidates.len(), 3);
    assert_eq!(st.candidates[0].name, "Work");
    assert_eq!(st.candidates[0].bookmark_path, "C:\\x\\Bookmarks");
    assert_eq!(st.candidates[0].backend, ProfileBackend::ChromiumJson);
    assert_eq!(st.candidates[1].backend, ProfileBackend::FirefoxSqlite);
    assert_eq!(st.candidates[2].name, "debug");
}

#[test]
fn settings_have_defaults() {
    let st = read_settings(&[]);
    assert_eq!((st.backup_interval_minutes, st.backup_keep_generations, st.debug), (30, 3, false));
    let st = read_settings(&lines(&["[", "]", "debug=yes", "debug=1"]));
    assert!(st.debug);
}

#[test]
fn existing_candidates_go_before_detected_browsers() {
    let text = lines(&["[profiles]", "A=a", "B=b.sqlite"]);
    let found = vec![Some("brave".to_string()), None, None, Some("fox".to_string())];
    let c = load_config(read_settings(&text), &[false, true], &found).unwrap();
    assert_eq!(c.profiles.len(), 1);
    assert_eq!(c.profiles[0].name, "B");
    let c = load_config(read_settings(&text), &[false], &found).unwrap();
    assert_eq!(c.profiles.len(), 2);
    assert_eq!((c.profiles[0].name.as_str(), c.profiles[0].bookmark_path.as_str()), ("Brave", "brave"));
    assert_eq!(c.profiles[0].backend, ProfileBackend::ChromiumJson);
    assert_eq!((c.profiles[1].name.as_str(), c.profiles[1].bookmark_path.as_str()), ("Firefox", "fox"));
    assert_eq!(c.profiles[1].backend, ProfileBackend::FirefoxSqlite);
    assert_eq!((c.backup_interval_minutes, c.backup_keep_generations), (30, 3));
    let e = load_config(read_settings(&text), &[false, false], &[]).unwrap_err();
    assert_eq!(
        e.message(),
        "No browser bookmarks found (Brave, Chrome, Edge). Please specify your path in auxbookmark.ini."
    );
}

#[test]
fn browsers_are_looked_for_in_a_fixed_order() {
    let mut places = Vec::new();
    let mut i = 0;
    while i < KNOWN_BROWSERS {
        places.push(browser_place(i));
        i += 1;
    }
    assert_eq!(
        places,
        vec![
            (UserDir::Local, r"BraveSoftware\Brave-Browser\User Data\Default\Bookmarks"),
            (UserDir::Local, r"Google\Chrome\User Data\Default\Bookmarks"),
            (UserDir::Local, r"Microsoft\Edge\User Data\Default\Bookmarks"),
            (UserDir::Roaming, r"Mozilla\Firefox"),
            (UserDir::Roaming, "mercury"),
        ]
    );
}

#[test]
fn the_default_firefox_profile_goes_first() {
    let text = lines(&[
        "Path=elsewhere",
        "Path=Profiles/one",
        " Path=Profiles\\two",
        "Default=1",
        "Default=Profiles/three ",
    ]);
    assert_eq!(detect_firefox_profile(&text), Some("Profiles/three".to_string()));
    assert_eq!(detect_firefox_profile(&text[..3]), Some("Profiles/one".to_string()));
    assert_eq!(detect_firefox_profile(&text[..1]), None);
}

#[test]
fn messages_are_logged_only_in_debug_mode() {
    let mut session = Session { debug: false };
    assert_eq!(log_line(&session, "now", "m"), None);
    assert_eq!(log_msg(&session, "m"), None);
    set_debug_mode(&mut session, true);
    assert_eq!(log_line(&session, "now", "m"), Some("[now] m\n".to_string()));
    let line = log_msg(&session, "m").unwrap();
    assert_eq!(line.len(), 24);
    assert!(line.starts_with("[2") && line.ends_with("] m\n"));
}

#[test]
fn a_copy_is_due_after_the_interval() {
    assert!(need_backup(1000, None, 30));
    assert!(need_backup(1000, Some("x"), 30));
    assert!(!need_backup(1799, Some(" 0\n"), 30));
    assert!(need_backup(1800, Some("0"), 30));
    assert!(need_backup(5, Some("5"), 0));
    assert!(!need_backup(5, Some("6"), 0));
    assert!(need_backup(5, Some("5"), u64::MAX));
    assert_eq!(backup_note(1800), "1800");
    assert_eq!(note_file("BRAVE Ω"), ".last_backup_brave ω");
    assert_eq!(backup_file("Brave", "20240102_030405"), "Brave_Bookmarks_20240102_030405.bak");
}

#[test]
fn a_due_copy_is_named_after_the_clock() {
    let copy = maybe_backup("Brave", None, 30).unwrap();
    assert!(copy.file.starts_with("Brave_Bookmarks_2") && copy.file.ends_with(".bak"));
    assert_eq!(copy.file.len(), "Brave_Bookmarks_20240102_030405.bak".len());
    assert!(maybe_backup("Brave", Some(copy.note.as_str()), 30).is_none());
    assert!(maybe_backup("Brave", Some("0"), 30).is_some());
}

#[test]
fn the_oldest_copies_are_pruned() {
    let files = lines(&[
        "Brave_Bookmarks_3.bak",
        "Brave_Bookmarks_1.bak",
        "Edge_Bookmarks_0.bak",
        "Brave_Bookmarks_2.bak",
        "Brave_Bookmarks_0.txt",
        ".last_backup_brave",
        "Brave_Bookmarks_10.bak",
    ]);
    assert_eq!(
        prune_old_backups(&files, "Brave", 2),
        vec!["Brave_Bookmarks_1.bak", "Brave_Bookmarks_10.bak"]
    );
    assert_eq!(prune_old_backups(&files, "Brave", 4), Vec::<String>::new());
    assert_eq!(prune_old_backups(&files, "Brave", 0), Vec::<String>::new());
    assert_eq!(prune_old_backups(&files, "Edge", 1), Vec::<String>::new());
}

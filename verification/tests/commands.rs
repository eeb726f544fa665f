use auxbookmark::command::{cmd_copy, cmd_deldir, cmd_delete, cmd_makedir, cmd_move, cmd_rename, plan_delete, Task};
use auxbookmark::config::{find_profile, Config, Profile, ProfileBackend};
use auxbookmark::fault::Reason;
use auxbookmark::guid::{guid_from, Mint};
use auxbookmark::store::{read_bookmarks, write_bookmarks};
use auxbookmark::tree::navigate_node_ref;
use auxbookmark::value::Doc;
use auxbookmark::work::Step;

fn config() -> Config {
    let mut profiles = Vec::new();
    for name in ["Brave", "Firefox", "brave"] {
        profiles.push(Profile {
            name: name.to_string(),
            bookmark_path: format!("{}.json", name),
            backend: ProfileBackend::ChromiumJson,
        });
    }
    Config { profiles, backup_interval_minutes: 30, backup_keep_generations: 3 }
}

fn refusal(r: Result<Task, auxbookmark::fault::CommandError>) -> String {
    r.unwrap_err().message()
}

fn words(s: &[&str]) -> Vec<String> {
    s.iter().map(|x| x.to_string()).collect()
}

#[test]
fn profiles_are_found_by_name_in_any_case() {
    let c = config();
    assert_eq!(find_profile(&c, "BRAVE").unwrap().bookmark_path, "Brave.json");
    assert_eq!(find_profile(&c, "firefox").unwrap().name, "Firefox");
    assert!(find_profile(&c, "Edge").is_none());
}

#[test]
fn delete_names_a_folder_and_items() {
    let c = config();
    match cmd_delete(&c, "aux://S_auxbookmark/FIREFOX/bar", &words(&["a", " "])).unwrap() {
        Task::Delete { profile, folder, items } => {
            assert_eq!((profile, folder, items), (1, words(&["bar"]), words(&["a", " "])));
        }
        _ => panic!("another task"),
    }
    assert_eq!(refusal(cmd_delete(&c, "/", &[])), "Cannot delete from root: /");
    assert_eq!(refusal(cmd_delete(&c, "Edge/x", &[])), "Browser profile 'Edge' not found");
    assert_eq!(
        plan_delete(&c, "p", None, &[]).unwrap_err().reason,
        Reason::UnreadablePath
    );
}

#[test]
fn deldir_names_a_folder() {
    let c = config();
    match cmd_deldir(&c, "Brave/bar/", Some(" /F ")).unwrap() {
        Task::RemoveFolder { profile, path } => {
            assert_eq!((profile, path), (0, words(&["bar", "F"])));
        }
        _ => panic!("another task"),
    }
    assert_eq!(
        refusal(cmd_deldir(&c, "Brave/bar", Some(" "))),
        "Cannot delete browser root folder: Brave/bar"
    );
    assert_eq!(
        refusal(cmd_deldir(&c, "Brave/履歴/x", None)),
        "Cannot delete History folder: Brave/履歴/x"
    );
    assert_eq!(refusal(cmd_deldir(&c, "Edge/a/b", None)), "Browser profile 'Edge' not found");
}

#[test]
fn makedir_names_a_parent_and_a_folder() {
    let c = config();
    match cmd_makedir(&c, "Brave/bar", Some("N")).unwrap() {
        Task::MakeFolder { profile, parents, name, written } => {
            assert_eq!((profile, parents), (0, words(&["bar"])));
            assert_eq!((name.as_str(), written.as_str()), ("N", "Brave/bar/N"));
        }
        _ => panic!("another task"),
    }
    assert_eq!(
        refusal(cmd_makedir(&c, "Brave", None)),
        "Cannot create folder at root or browser root directly: Brave"
    );
    assert_eq!(refusal(cmd_makedir(&c, "Edge/a", Some(""))), "Browser profile 'Edge' not found");
}

#[test]
fn move_names_two_places() {
    let c = config();
    match cmd_move(&c, "Brave/bar/A.url", "Firefox/other").unwrap() {
        Task::Move { source, target, from, to, to_table } => {
            assert_eq!((source, target, to_table), (0, 1, false));
            assert_eq!((from, to), (words(&["bar", "A.url"]), words(&["other"])));
        }
        _ => panic!("another task"),
    }
    for (src, dest, message) in [
        ("Brave/bar", "Firefox/other", "Cannot move browser root items: Brave/bar"),
        ("Brave/bar/x", "/", "Destination cannot be root: /"),
        ("Brave/history/x", "Firefox/other", "History items cannot be moved. Use copy ('C') instead: Brave/history/x"),
        ("Brave/bar/x", "Firefox/履歴", "Cannot move into History folder (History is read-only): Firefox/履歴"),
        ("Edge/bar/x", "Firefox/other", "Source browser profile 'Edge' not found"),
        ("Brave/bar/x", "Edge/other", "Destination browser profile 'Edge' not found"),
    ] {
        assert_eq!(refusal(cmd_move(&c, src, dest)), message);
    }
}

#[test]
fn copy_may_take_from_the_history() {
    let c = config();
    match cmd_copy(&c, "Brave/history/x.url", "brave/other").unwrap() {
        Task::Copy { source, target, from, to, written, to_table } => {
            assert_eq!((source, target, to_table), (0, 0, false));
            assert_eq!((from, to), (words(&["history", "x.url"]), words(&["other"])));
            assert_eq!(written, "Brave/history/x.url");
        }
        _ => panic!("another task"),
    }
    for (src, dest, message) in [
        ("Brave/bar", "Firefox/other", "Cannot copy browser root items: Brave/bar"),
        ("Brave/bar/x", "", "Destination cannot be root: "),
        ("Brave/bar/x", "Firefox/history", "Cannot copy into History folder (History is read-only): Firefox/history"),
        ("Edge/bar/x", "Firefox/other", "Source browser profile 'Edge' not found"),
        ("Brave/bar/x", "Edge/other", "Destination browser profile 'Edge' not found"),
    ] {
        assert_eq!(refusal(cmd_copy(&c, src, dest)), message);
    }
}

#[test]
fn rename_takes_the_last_segment_for_the_name() {
    let c = config();
    match cmd_rename(&c, "Brave/bar/x.url", "Brave/bar/y.url").unwrap() {
        Task::Rename { profile, path, name } => {
            assert_eq!((profile, path, name.as_str()), (0, words(&["bar", "x.url"]), "y.url"));
        }
        _ => panic!("another task"),
    }
    for (src, dest, message) in [
        ("Brave/bar", "y", "Cannot rename browser root or root category folders: Brave/bar"),
        ("Brave/bar/x", "", "Destination cannot be empty: "),
        ("Brave/history/x", "y", "History items cannot be renamed (History is read-only): Brave/history/x"),
        ("Edge/bar/x", "y", "Browser profile 'Edge' not found"),
    ] {
        assert_eq!(refusal(cmd_rename(&c, src, dest)), message);
    }
}

struct Disk {
    files: Vec<Doc>,
    backed: Vec<usize>,
}

fn run(task: &Task, disk: &mut Disk) -> Result<(), String> {
    let mut mint = Mint { now: "9".to_string(), nanos: 5, pid: 1, count: 0, firefox_count: 0 };
    let mut held: Option<Doc> = None;
    let mut hand = Doc::Null;
    for step in task.steps() {
        match step {
            Step::Backup(p) => disk.backed.push(p),
            Step::Load(p) => hand = disk.files[p].clone(),
            Step::Save(p) => {
                assert!(disk.backed.contains(&p));
                disk.files[p] = hand.clone();
            }
            other => task.perform(other, &mut hand, &mut held, &mut mint).map_err(|e| e.message())?,
        }
    }
    Ok(())
}

fn disk() -> Disk {
    let a = r#"{"roots":{"bookmark_bar":{"id":"1","type":"folder","children":[
        {"id":"4","type":"url","name":"A","url":"http://a/"},{"id":"5","type":"folder","name":"F","children":[]}]},
        "other":{"id":"2","type":"folder","children":[]}}}"#;
    let b = r#"{"roots":{"bookmark_bar":{"id":"10","type":"folder","children":[]},
        "other":{"id":"20","type":"folder","children":[]}}}"#;
    Disk { files: vec![read_bookmarks(a).unwrap(), read_bookmarks(b).unwrap()], backed: Vec::new() }
}

fn there(disk: &Disk, p: usize, path: &[&str]) -> bool {
    navigate_node_ref(&disk.files[p], &words(path)).is_some()
}

#[test]
fn a_move_to_another_browser_changes_both_files() {
    let mut d = disk();
    let task = cmd_move(&config(), "Brave/bookmark_bar/A.url", "Firefox/other").unwrap();
    assert_eq!(run(&task, &mut d), Ok(()));
    assert!(!there(&d, 0, &["bookmark_bar", "A.url"]));
    assert!(there(&d, 1, &["other", "A.url"]));
    assert_eq!(d.backed, vec![0, 1]);
}

#[test]
fn row_numbers_stay_behind_only_on_the_way_to_a_table() {
    let numbered = r#"{"roots":{"bookmark_bar":{"id":"1","type":"folder","children":[
        {"id":"4","_firefox_id":4,"guid":"g","type":"folder","name":"F","x":1,"children":[
          {"id":"5","_firefox_id":5,"type":"url","name":"A","url":"http://a/"}]}]},
        "other":{"id":"2","type":"folder","children":[]}}}"#;
    let guid = guid_from(5, 1, 1);
    for (backend, head, below) in [
        (ProfileBackend::ChromiumJson, r#""_firefox_id":4,"#, r#""_firefox_id":5,"#),
        (ProfileBackend::FirefoxSqlite, "", ""),
    ] {
        let mut c = config();
        c.profiles[1].backend = backend;
        for copied in [false, true] {
            let mut d = disk();
            d.files[0] = read_bookmarks(numbered).unwrap();
            let (task, dates) = if copied {
                let task = cmd_copy(&c, "Brave/bookmark_bar/F", "Firefox/other").unwrap();
                (task, r#""date_added":"9","date_modified":"9","#)
            } else {
                (cmd_move(&c, "Brave/bookmark_bar/F", "Firefox/other").unwrap(), "")
            };
            assert_eq!(run(&task, &mut d), Ok(()));
            assert_eq!(there(&d, 0, &["bookmark_bar", "F"]), copied);
            let expected = format!(
                r#"{{"roots":{{"bookmark_bar":{{"id":"10","type":"folder","children":[]}},
                "other":{{"id":"20","type":"folder","children":[
                  {{"id":"21",{}{}"guid":"{}","type":"folder","name":"F","x":1,"children":[
                    {{"id":"5",{}"type":"url","name":"A","url":"http://a/"}}]}}]}}}}}}"#,
                head, dates, guid, below
            );
            assert_eq!(write_bookmarks(&d.files[1]), write_bookmarks(&read_bookmarks(&expected).unwrap()));
        }
    }
}

#[test]
fn a_failed_move_keeps_the_target() {
    let mut d = disk();
    let before = write_bookmarks(&d.files[1]);
    let task = cmd_move(&config(), "Brave/bookmark_bar/A.url", "Firefox/nowhere").unwrap();
    assert_eq!(run(&task, &mut d), Err("Destination root not found: nowhere".to_string()));
    assert_eq!(write_bookmarks(&d.files[1]), before);
}

#[test]
fn a_copy_leaves_its_source() {
    let mut d = disk();
    let task = cmd_copy(&config(), "Brave/bookmark_bar/A.url", "Firefox/bookmark_bar").unwrap();
    assert_eq!(run(&task, &mut d), Ok(()));
    assert!(there(&d, 0, &["bookmark_bar", "A.url"]));
    assert!(there(&d, 1, &["bookmark_bar", "A.url"]));
    assert_eq!(d.backed, vec![1]);
    let task = cmd_copy(&config(), "Brave/bookmark_bar/A.url", "Brave/bookmark_bar/F").unwrap();
    assert_eq!(run(&task, &mut d), Ok(()));
    assert!(there(&d, 0, &["bookmark_bar", "F", "A.url"]));
    let task = cmd_copy(&config(), "Brave/bookmark_bar/none", "Firefox/other").unwrap();
    assert_eq!(run(&task, &mut d), Err("Source node not found: Brave/bookmark_bar/none".to_string()));
}

#[test]
fn a_failed_task_changes_no_file() {
    let c = config();
    for task in [
        cmd_move(&c, "Brave/bookmark_bar/A.url", "Brave/nowhere").unwrap(),
        cmd_makedir(&c, "Brave/nowhere", Some("N")).unwrap(),
        cmd_makedir(&c, "Brave/N", None).unwrap(),
        cmd_deldir(&c, "Brave/bookmark_bar/none", None).unwrap(),
        cmd_rename(&c, "Brave/bookmark_bar/none", "x").unwrap(),
        cmd_delete(&c, "Brave/history", &words(&["x"])).unwrap(),
    ] {
        let mut d = disk();
        let before = write_bookmarks(&d.files[0]);
        assert!(run(&task, &mut d).is_err());
        assert_eq!(write_bookmarks(&d.files[0]), before);
    }
}

#[test]
fn tasks_on_one_browser_are_saved() {
    let c = config();
    let mut d = disk();
    assert_eq!(run(&cmd_makedir(&c, "Brave/other", Some("N")).unwrap(), &mut d), Ok(()));
    assert!(there(&d, 0, &["other", "N"]));
    assert_eq!(run(&cmd_rename(&c, "Brave/other/N", "M").unwrap(), &mut d), Ok(()));
    assert!(there(&d, 0, &["other", "M"]));
    assert_eq!(run(&cmd_move(&c, "Brave/bookmark_bar/A.url", "Brave/other/M").unwrap(), &mut d), Ok(()));
    assert!(there(&d, 0, &["other", "M", "A.url"]));
    assert_eq!(run(&cmd_deldir(&c, "Brave/other/M", None).unwrap(), &mut d), Ok(()));
    assert!(there(&d, 0, &["trash", "M", "A.url"]));
    assert_eq!(run(&cmd_delete(&c, "Brave/bookmark_bar", &words(&["F"])).unwrap(), &mut d), Ok(()));
    assert!(there(&d, 0, &["trash", "F"]));
}

#[test]
fn a_visited_page_is_copied_to_the_bookmarks() {
    let mut d = disk();
    let visited = r#"{"id":"hist_1","type":"url","name":"V","url":"http://v/"}"#;
    auxbookmark::store::add_history(&mut d.files[0], vec![read_bookmarks(visited).unwrap()]);
    let task = cmd_copy(&config(), "Brave/履歴/V.url", "Brave/bookmark_bar/F").unwrap();
    assert_eq!(run(&task, &mut d), Ok(()));
    let copy = navigate_node_ref(&d.files[0], &words(&["bookmark_bar", "F", "V.url"])).unwrap();
    assert_eq!(copy.get_str("id"), Some("6"));
    assert_eq!(copy.get_str("url"), Some("http://v/"));
    assert!(there(&d, 0, &["history", "V.url"]));
}

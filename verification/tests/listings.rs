use auxbookmark::config::{Config, Profile, ProfileBackend};
use auxbookmark::listing::{
    cmd_check, cmd_dump, cmd_export, cmd_get, cmd_list, list_path, list_profiles, listing,
    listing_with, shortcut, Place,
};
use auxbookmark::export::{dump_tsv, export_file_name, export_file_now, export_html, export_message};
use auxbookmark::store::{add_history, read_bookmarks};
use auxbookmark::time::Moment;
use auxbookmark::value::Doc;

fn path(s: &str) -> Vec<String> {
    s.split('/').filter(|x| !x.is_empty()).map(|x| x.to_string()).collect()
}

fn config(names: &[&str]) -> Config {
    let mut profiles = Vec::new();
    for name in names {
        profiles.push(Profile {
            name: name.to_string(),
            bookmark_path: String::new(),
            backend: ProfileBackend::ChromiumJson,
        });
    }
    Config { profiles, backup_interval_minutes: 30, backup_keep_generations: 3 }
}

fn sample() -> Doc {
    read_bookmarks(
        r#"{"roots":{
      "bookmark_bar":{"type":"folder","name":"Bar","date_added":"1","date_modified":"1700000000","children":[
        {"type":"url","name":"A/\"B\"","url":"http://é/","date_added":"13344473600000000"},
        {"type":"folder","name":"F","date_added":"3","date_modified":"4","children":[{"type":"url","name":"x\ty","url":"http://\tz "}]},
        {"type":"separator","name":"S"}]},
      "other":{"type":"folder","name":"Other","children":[
        {"type":"folder","name":"ゴミ箱","date_modified":"7","children":[{"type":"url","name":"T","url":"http://t/"}]},
        {"type":"folder","name":"Trash","children":[{"type":"url","name":"U","url":"http://u/"}]},
        {"type":"url","name":"&","url":"","date_modified":5,"date_added":"6"}]}}}"#,
    )
    .unwrap()
}

fn shown(d: &Doc, p: &str) -> Vec<(String, Option<u128>, Moment)> {
    list_path(d, &path(p), p)
        .unwrap()
        .into_iter()
        .map(|e| (e.name, e.size, e.moment))
        .collect()
}

fn at(secs: i64) -> Moment {
    Moment::At { secs, nanos: 0 }
}

#[test]
fn browsers_are_listed() {
    let entries = list_profiles(&config(&["Brave", "Edge"]), &[at(5)]);
    assert_eq!((entries[0].name.as_str(), entries[0].size, entries[0].moment), ("Brave", None, at(5)));
    assert_eq!((entries[1].name.as_str(), entries[1].moment), ("Edge", Moment::Now));
    assert_eq!(
        listing_with(&entries, &["d1".to_string(), "d2".to_string()]),
        ";ListFile\r\n\"Brave\",A:H10,W:d1\r\n\"Edge\",A:H10,W:d2\r\n"
    );
}

#[test]
fn the_roots_of_a_browser_are_listed() {
    let mut d = sample();
    assert_eq!(
        shown(&d, ""),
        vec![
            ("ブックマーク バー".to_string(), None, at(1700000000)),
            ("その他のブックマーク".to_string(), None, Moment::Now),
            ("ゴミ箱".to_string(), None, at(7)),
        ]
    );
    add_history(&mut d, vec![read_bookmarks(r#"{"date_added":"8"}"#).unwrap()]);
    d.get_mut("roots").unwrap().set("menu", Doc::new_object());
    let all = shown(&d, "");
    assert_eq!(all[2], ("ブックマーク メニュー".to_string(), None, Moment::Now));
    assert_eq!(all[4], ("履歴".to_string(), None, at(8)));
}

#[test]
fn folders_are_listed_without_the_trash() {
    let d = sample();
    assert_eq!(
        shown(&d, "bookmark_bar"),
        vec![
            ("A／”B”.url".to_string(), Some(10), at(1700000000)),
            ("F".to_string(), None, at(4)),
        ]
    );
    assert_eq!(
        shown(&d, "other"),
        vec![
            ("Trash".to_string(), None, Moment::Now),
            ("&.url".to_string(), Some(0), Moment::Now),
        ]
    );
    assert_eq!(shown(&d, "trash").len(), 1);
    assert_eq!(shown(&d, "bookmark_bar/F/x y.url"), vec![]);
    let e = list_path(&d, &path("bookmark_bar/G"), "Brave/bookmark_bar/G").unwrap_err();
    assert_eq!(e.message(), "Path not found: Brave/bookmark_bar/G");
}

#[test]
fn entries_are_written_in_the_list_format() {
    let entries = list_path(&sample(), &path("bookmark_bar"), "p").unwrap();
    assert_eq!(
        listing_with(&entries, &["d1".to_string(), "d2".to_string()]),
        ";ListFile\r\n\"A／”B”.url\",A:H20,S:10,W:d1\r\n\"F\",A:H10,W:d2\r\n"
    );
    let text = listing(&entries);
    assert_eq!(text.len(), listing_with(&entries, &["1234-67-90 23:56:89".to_string(), "1234-67-90 23:56:89".to_string()]).len());
}

#[test]
fn shortcuts_hold_the_address() {
    let d = sample();
    assert_eq!(
        shortcut(&d, &path("bookmark_bar/A／”B”.url"), "p").unwrap(),
        "[InternetShortcut]\r\nURL=http://é/\r\n"
    );
    assert_eq!(shortcut(&d, &path("bookmark_bar/none"), "p").unwrap_err().message(), "Target bookmark not found: p");
    assert_eq!(shortcut(&d, &path("bookmark_bar/F"), "p").unwrap_err().message(), "Node is not a URL item: p");
}

fn place(p: Place) -> Option<(usize, Vec<String>)> {
    match p {
        Place::Browsers => None,
        Place::Inside { profile, path } => Some((profile, path)),
    }
}

#[test]
fn paths_name_places() {
    let c = config(&["Brave", "Edge"]);
    assert_eq!(place(cmd_list(&c, "aux://S_auxbookmark/").unwrap()), None);
    assert_eq!(place(cmd_list(&c, "edge/a").unwrap()), Some((1, path("a"))));
    assert_eq!(cmd_list(&c, "Chrome").unwrap_err().message(), "Browser profile 'Chrome' not found");
    assert_eq!(place(cmd_get(&c, "Brave/a/b").unwrap()), Some((0, path("a/b"))));
    assert_eq!(cmd_get(&c, "Brave").unwrap_err().message(), "Cannot get root or browser node: Brave");
}

#[test]
fn whole_browsers_are_named_or_stand_first() {
    let c = config(&["Brave", "Edge"]);
    assert_eq!(place(cmd_export(&c, "Edge/x").unwrap()), Some((1, path("x"))));
    assert_eq!(place(cmd_export(&c, " ").unwrap()), Some((0, vec![])));
    assert_eq!(cmd_export(&c, " / ").unwrap_err().message(), "Browser profile '/' not found");
    assert_eq!(
        cmd_export(&config(&[]), "").unwrap_err().message(),
        "No browser profile specified or found for export."
    );
    assert_eq!(
        cmd_check(&config(&[]), "").unwrap_err().message(),
        "No browser profile specified for link check."
    );
    assert_eq!(place(cmd_check(&c, "brave/a").unwrap()), Some((0, path("a"))));
    assert_eq!(cmd_dump(&c, None).unwrap(), vec![0, 1]);
    assert_eq!(cmd_dump(&c, Some("EDGE")).unwrap(), vec![1]);
    assert_eq!(cmd_dump(&c, Some("x")).unwrap_err().message(), "Browser profile 'x' not found");
}

const HEAD: &str = "<!DOCTYPE NETSCAPE-Bookmark-file-1>\n<!-- This is an automatically generated file.\n     It will be read and overwritten.\n     DO NOT EDIT! -->\n<META HTTP-EQUIV=\"Content-Type\" CONTENT=\"text/html; charset=UTF-8\">\n<TITLE>Bookmarks</TITLE>\n<H1>Bookmarks</H1>\n<DL><p>\n";

#[test]
fn a_clean_export_leaves_out_the_trash() {
    let expected = format!(
        "{}{}",
        HEAD,
        "    <DT><H3 ADD_DATE=\"1\" LAST_MODIFIED=\"1700000000\">Bar</H3>\n    <DL><p>\n        <DT><A HREF=\"http://é/\" ADD_DATE=\"1700000000\">A/&quot;B&quot;</A>\n        <DT><H3 ADD_DATE=\"3\" LAST_MODIFIED=\"4\">F</H3>\n        <DL><p>\n            <DT><A HREF=\"http://\tz \">x\ty</A>\n        </DL><p>\n    </DL><p>\n    <DT><H3>Other</H3>\n    <DL><p>\n        <DT><A HREF=\"\" ADD_DATE=\"6\">&amp;</A>\n    </DL><p>\n</DL><p>\n"
    );
    assert_eq!(export_html(&sample(), false).unwrap(), expected);
    let all = export_html(&sample(), true).unwrap();
    assert!(all.contains("        <DT><H3 LAST_MODIFIED=\"7\">ゴミ箱</H3>\n        <DL><p>\n            <DT><A HREF=\"http://t/\">T</A>\n"));
    assert!(all.contains("<H3>Trash</H3>"));
    let e = export_html(&read_bookmarks("{}").unwrap(), false).unwrap_err();
    assert_eq!(e.message(), "Invalid Bookmarks: missing 'roots'");
}

#[test]
fn exports_are_named_after_the_browser() {
    assert_eq!(export_file_name("Brave", "N", true), "Brave_bookmarks_N_all.html");
    assert_eq!(export_file_name("Brave", "N", false), "Brave_bookmarks_N_clean.html");
    let now = export_file_now("Brave", false);
    assert_eq!(now.len(), "Brave_bookmarks_20240102_030405_clean.html".len());
    assert_eq!(
        export_message("Brave", true, "\"f\""),
        "Exported [Brave] bookmarks (all (including trash)) successfully to \"f\"\n"
    );
    assert_eq!(
        export_message("Brave", false, "f"),
        "Exported [Brave] bookmarks (clean (trash excluded)) successfully to f\n"
    );
}

#[test]
fn lines_have_four_fields() {
    let mut d = sample();
    add_history(&mut d, vec![read_bookmarks(r#"{"type":"url","name":"H","url":"http://h/"}"#).unwrap()]);
    assert_eq!(
        dump_tsv(&d, "Brave"),
        "A/\"B\"\thttp://é/\tBrave\tBar\nx y\thttp://z\tBrave\tBar/F\nH\thttp://h/\tBrave\t履歴\n"
    );
}

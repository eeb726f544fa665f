use auxbookmark::check::{
    classify, code_of_head, get_args, head_args, judge, links_to_check, wants_get, worker_count,
    CheckResult, LinkItem, USER_AGENT,
};
use auxbookmark::guid::{guid_from, Mint};
use auxbookmark::place::{find_node, Place};
use auxbookmark::report::{
    check_foot, check_head, check_line, check_lines, dead_links, dispose, disposal_message,
    disposal_of, sort_by_name, writes_back, Checked, Disposal, RULE,
};
use auxbookmark::store::{read_bookmarks, write_bookmarks};
use auxbookmark::tree::navigate_node_ref;
use auxbookmark::value::Doc;

fn path(s: &str) -> Vec<String> {
    s.split('/').filter(|x| !x.is_empty()).map(|x| x.to_string()).collect()
}

fn sample() -> Doc {
    read_bookmarks(
        r#"{"roots":{
      "bookmark_bar":{"type":"folder","children":[
        {"type":"url","name":"A","url":" http://a/ "},
        {"type":"url","name":"J","url":"javascript:void(0)"},
        {"type":"url","name":"N"},
        {"type":"folder","name":"F","children":[{"type":"url","name":"B","url":"https://b/"}]},
        {"type":"folder","name":"リンク切れ","children":[{"type":"url","name":"D","url":"http://d/"}]}]},
      "other":{"type":"folder","children":[
        {"type":"folder","name":"ゴミ箱","children":[{"type":"url","name":"T","url":"http://t/"}]},
        {"type":"url","name":"C","url":"http://c/"}]},
      "history":{"type":"folder","children":[{"type":"url","name":"H","url":"http://h/"}]}}}"#,
    )
    .unwrap()
}

#[test]
fn web_links_outside_the_trash_are_checked() {
    let links = links_to_check(&sample(), &vec![], "Brave").unwrap();
    let shown: Vec<(String, &str, &str)> = links
        .iter()
        .map(|l| (l.path_segments.join("/"), l.name.as_str(), l.url.as_str()))
        .collect();
    assert_eq!(
        shown,
        vec![
            ("ブックマーク バー/A.url".to_string(), "A", "http://a/"),
            ("ブックマーク バー/F/B.url".to_string(), "B", "https://b/"),
            ("その他のブックマーク/C.url".to_string(), "C", "http://c/"),
        ]
    );
    let links = links_to_check(&sample(), &path("bookmark_bar/F"), "p").unwrap();
    assert_eq!(links[0].path_segments, path("bookmark_bar/F/B.url"));
    assert_eq!((links[0].place.root.as_str(), &links[0].place.at), ("bookmark_bar", &vec![3, 0]));
    let nested = read_bookmarks(
        r#"{"roots":{"other":{"type":"folder","children":[{"type":"url","name":"Z"},
          {"type":"folder","name":"ゴミ箱","children":[
            {"type":"folder","name":"S","children":[{"type":"url","name":"T","url":"http://t/"}]}]}]}}}"#,
    )
    .unwrap();
    let links = links_to_check(&nested, &path("trash/S"), "p").unwrap();
    assert_eq!((links[0].place.root.as_str(), &links[0].place.at), ("other", &vec![1, 0, 0]));
    assert!(links_to_check(&sample(), &path("trash"), "p").unwrap().is_empty());
    let e = links_to_check(&sample(), &path("bookmark_bar/x"), "Brave/bookmark_bar/x").unwrap_err();
    assert_eq!(e.message(), "Target path not found: Brave/bookmark_bar/x");
}

fn state(r: &CheckResult) -> (char, u16, &str) {
    match r {
        CheckResult::Alive(code) => ('a', *code, ""),
        CheckResult::Warn(code, why) => ('w', *code, why.as_str()),
        CheckResult::Dead(code, why) => ('d', *code, why.as_str()),
    }
}

#[test]
fn codes_are_classified() {
    for (code, expected) in [
        (0, ('d', 0, "Connection Failed / Timeout")),
        (200, ('a', 200, "")),
        (399, ('a', 399, "")),
        (401, ('w', 401, "Access Restricted / Bot Blocked")),
        (403, ('w', 403, "Access Restricted / Bot Blocked")),
        (429, ('w', 429, "Access Restricted / Bot Blocked")),
        (404, ('d', 404, "Not Found")),
        (410, ('d', 410, "Gone")),
        (500, ('d', 500, "Server Error")),
        (599, ('d', 599, "Server Error")),
        (400, ('d', 400, "HTTP 400")),
        (199, ('d', 199, "HTTP 199")),
        (600, ('d', 600, "HTTP 600")),
    ] {
        assert_eq!(state(&classify(code)), expected);
    }
}

#[test]
fn a_refused_head_is_asked_again() {
    assert_eq!(state(&judge(true, "200\n", None)), ('a', 200, ""));
    assert_eq!(state(&judge(true, "404", Some("200"))), ('d', 404, "Not Found"));
    assert_eq!(state(&judge(true, "405", Some("200"))), ('a', 200, ""));
    assert_eq!(state(&judge(true, "405", Some("000"))), ('d', 405, "HTTP 405"));
    assert_eq!(state(&judge(true, "403", None)), ('w', 403, "Access Restricted / Bot Blocked"));
    assert_eq!(state(&judge(false, "200", Some(" 301 "))), ('a', 301, ""));
    assert_eq!(state(&judge(false, "200", None)), ('d', 0, "Connection Failed / Timeout"));
    assert_eq!(code_of_head(true, "x"), 0);
    assert!(wants_get(0) && wants_get(403) && wants_get(405) && !wants_get(404));
}

#[test]
fn requests_have_their_arguments() {
    assert_eq!(
        head_args("http://a/", 5),
        vec!["-I", "-s", "-L", "-k", "--max-time", "5", "-A", USER_AGENT, "-o", "NUL", "-w", "%{http_code}", "http://a/"]
    );
    assert_eq!(
        get_args("http://a/", 10),
        vec!["-s", "-L", "-k", "-r", "0-1024", "--max-time", "10", "-A", USER_AGENT, "-o", "NUL", "-w", "%{http_code}", "http://a/"]
    );
    assert_eq!((worker_count(8, 3), worker_count(2, 9), worker_count(0, 9), worker_count(4, 0)), (3, 2, 1, 1));
}

fn checked(name: &str, url: &str, result: CheckResult) -> Checked {
    Checked {
        item: LinkItem {
            path_segments: path(&format!("bookmark_bar/{}.url", name)),
            place: Place { root: "bookmark_bar".to_string(), at: vec![0] },
            name: name.to_string(),
            url: url.to_string(),
        },
        result,
    }
}

#[test]
fn the_report_is_in_the_order_of_names() {
    let sorted = sort_by_name(vec![
        checked("b", "1", CheckResult::Alive(200)),
        checked("a", "2", CheckResult::Dead(0, "w".to_string())),
        checked("b", "3", CheckResult::Warn(403, "w".to_string())),
        checked("B", "4", CheckResult::Dead(404, "w".to_string())),
    ]);
    let order: Vec<&str> = sorted.iter().map(|c| c.item.url.as_str()).collect();
    assert_eq!(order, vec!["4", "2", "1", "3"]);
    let dead: Vec<String> = dead_links(&sorted).into_iter().map(|l| l.url).collect();
    assert_eq!(dead, vec!["4", "2"]);
    assert_eq!(
        check_lines(&sorted),
        "[DEAD] 404 | B (4 - w)\n[DEAD] --- | a (2 - w)\n[ OK ] 200 | b (1)\n[WARN] 403 | b (3 - w)\n"
    );
    assert_eq!(
        check_foot(9, &sorted),
        format!("{}Link Check Summary: 9 checked\n  - OK   : 1\n  - WARN : 1 (Maintained)\n  - DEAD : 2\n{}", RULE, RULE)
    );
}

#[test]
fn codes_take_up_three_places() {
    assert_eq!(check_line(&checked("n", "u", CheckResult::Alive(7))), "[ OK ]   7 | n (u)\n");
    assert_eq!(
        check_line(&checked("n", "u", CheckResult::Warn(42, "w".to_string()))),
        "[WARN]  42 | n (u - w)\n"
    );
    assert_eq!(
        check_line(&checked("n", "u", CheckResult::Dead(42, "w".to_string()))),
        "[DEAD] 42  | n (u - w)\n"
    );
    assert_eq!(
        check_line(&checked("n", "u", CheckResult::Dead(4200, "w".to_string()))),
        "[DEAD] 4200 | n (u - w)\n"
    );
}

#[test]
fn the_head_says_what_is_done() {
    assert_eq!(RULE.len(), 52);
    assert_eq!(
        check_head("Brave", 12, 5, 8, Disposal::Isolate),
        format!("{}  auxbookmark Link Check: [Brave] (12 items)\n  Timeout: 5s | Concurrency: 8 threads\n  Mode   : Move broken links to 'リンク切れ' folder\n{}", RULE, RULE)
    );
    assert!(check_head("B", 1, 1, 1, Disposal::Trash).contains("Mode   : Move broken links to Trash\n"));
    assert!(check_head("B", 1, 1, 1, Disposal::Report).contains("Mode   : Report only (dry-run)\n"));
    assert_eq!(disposal_of(true, true), Disposal::Trash);
    assert_eq!(disposal_of(false, true), Disposal::Isolate);
    assert_eq!(disposal_of(false, false), Disposal::Report);
    assert!(writes_back(Disposal::Trash, 1) && !writes_back(Disposal::Trash, 0));
    assert!(!writes_back(Disposal::Report, 9));
    assert_eq!(disposal_message(2, Disposal::Trash), "Successfully moved 2 dead bookmark(s) to 'ゴミ箱'.\n");
    assert_eq!(disposal_message(0, Disposal::Isolate), "Successfully moved 0 dead bookmark(s) to 'リンク切れ'.\n");
}

fn mint() -> Mint {
    Mint { now: "9".to_string(), nanos: 5, pid: 1, count: 0, firefox_count: 0 }
}

fn same(a: &Doc, json: &str) -> bool {
    write_bookmarks(a) == write_bookmarks(&read_bookmarks(json).unwrap())
}

/// The links of a document whose addresses are among those given.
fn links_with(d: &Doc, urls: &[&str]) -> Vec<LinkItem> {
    let mut links = links_to_check(d, &vec![], "Brave").unwrap();
    links.retain(|l| urls.contains(&l.url.as_str()));
    links
}

#[test]
fn dead_links_go_where_they_are_told() {
    let mut d = sample();
    let mut dead = links_with(&d, &["http://a/", "http://c/"]);
    dead.insert(
        1,
        LinkItem {
            path_segments: path("bookmark_bar/none.url"),
            place: Place { root: "bookmark_bar".to_string(), at: vec![9] },
            name: "none".to_string(),
            url: "http://none/".to_string(),
        },
    );
    let before = write_bookmarks(&d);
    assert_eq!(dispose(&mut d, &dead, Disposal::Report, &mut mint()), 0);
    assert_eq!(write_bookmarks(&d), before);
    assert_eq!(dispose(&mut d, &dead[1..2], Disposal::Trash, &mut mint()), 0);
    assert_eq!(write_bookmarks(&d), before);
    assert_eq!(dispose(&mut d, &dead, Disposal::Trash, &mut mint()), 2);
    assert!(same(&d, r#"{"roots":{
      "bookmark_bar":{"type":"folder","children":[
        {"type":"url","name":"J","url":"javascript:void(0)"},
        {"type":"url","name":"N"},
        {"type":"folder","name":"F","children":[{"type":"url","name":"B","url":"https://b/"}]},
        {"type":"folder","name":"リンク切れ","children":[{"type":"url","name":"D","url":"http://d/"}]}]},
      "other":{"type":"folder","children":[
        {"type":"folder","name":"ゴミ箱","children":[{"type":"url","name":"T","url":"http://t/"},
          {"type":"url","name":"A","url":" http://a/ "},{"type":"url","name":"C","url":"http://c/"}]}]},
      "history":{"type":"folder","children":[{"type":"url","name":"H","url":"http://h/"}]}}}"#));
    let mut d = sample();
    assert_eq!(dispose(&mut d, &dead, Disposal::Isolate, &mut mint()), 2);
    let folder = navigate_node_ref(&d, &path("isolate")).unwrap();
    let names: Vec<&str> = folder
        .get_array("children")
        .unwrap()
        .iter()
        .map(|n| n.get_str("name").unwrap())
        .collect();
    assert_eq!(names, vec!["A", "C"]);
    assert_eq!(folder.get_str("guid"), Some(guid_from(5, 1, 1).as_str()));
    assert!(navigate_node_ref(&d, &path("bookmark_bar/A.url")).is_none());
}

#[test]
fn a_new_folder_gets_the_next_identifier() {
    for (disposal, name, id) in [(Disposal::Trash, "ゴミ箱", "4"), (Disposal::Isolate, "リンク切れ", "6")] {
        let mut d = read_bookmarks(
            r#"{"roots":{"bookmark_bar":{"id":"1","type":"folder","children":[
              {"id":"5","type":"url","name":"A","url":"http://dead/"},
              {"id":"3","type":"url","name":"B","url":"http://dead/"}]},"other":{"id":"2","children":[]}}}"#,
        )
        .unwrap();
        let dead = links_with(&d, &["http://dead/"]);
        assert_eq!(dispose(&mut d, &dead, disposal, &mut mint()), 2);
        let folder = navigate_node_ref(&d, &path(&format!("other/{}", name))).unwrap();
        assert_eq!(folder.get_str("id"), Some(id));
        assert_eq!(folder.get_array("children").unwrap().len(), 2);
    }
}

#[test]
fn no_link_is_lost_without_a_folder_for_it() {
    let rootless = r#"{"roots":{"bookmark_bar":{"type":"folder","children":[
      {"type":"url","name":"x","url":"http://x/"}]}}}"#;
    let listless = r#"{"roots":{"bookmark_bar":{"type":"folder","children":[
      {"type":"url","name":"x","url":"http://x/"}]},
      "other":{"children":[{"type":"folder","name":"ゴミ箱"},{"type":"folder","name":"リンク切れ"}]}}}"#;
    for text in [rootless, listless] {
        for disposal in [Disposal::Trash, Disposal::Isolate] {
            let mut d = read_bookmarks(text).unwrap();
            let dead = links_with(&d, &["http://x/"]);
            assert_eq!(dead.len(), 1);
            assert_eq!(dispose(&mut d, &dead, disposal, &mut mint()), 0);
            assert!(same(&d, text));
        }
    }
}

#[test]
fn a_live_link_of_the_same_name_stays() {
    let text = r#"{"roots":{"bookmark_bar":{"type":"folder","children":[
        {"id":"4","type":"url","name":"X","url":"http://alive/"},
        {"id":"5","type":"url","name":"X","url":"http://dead/"},
        {"id":"6","type":"folder","name":"X","children":[
          {"id":"7","type":"url","name":"X","url":"http://dead/"},
          {"id":"8","type":"url","name":"X","url":"http://alive/"}]},
        {"id":"9","type":"url","name":"X","url":"http://dead/"}]},
      "other":{"type":"folder","children":[
        {"id":"10","type":"folder","name":"リンク切れ","children":[]}]}}}"#;
    let mut d = read_bookmarks(text).unwrap();
    let checked: Vec<Checked> = links_to_check(&d, &vec![], "Brave")
        .unwrap()
        .into_iter()
        .map(|item| {
            let result = classify(if item.url == "http://dead/" { 404 } else { 403 });
            Checked { item, result }
        })
        .collect();
    let dead = dead_links(&sort_by_name(checked));
    assert_eq!(dispose(&mut d, &dead, Disposal::Isolate, &mut mint()), 3);
    assert!(same(&d, r#"{"roots":{"bookmark_bar":{"type":"folder","children":[
        {"id":"4","type":"url","name":"X","url":"http://alive/"},
        {"id":"6","type":"folder","name":"X","children":[
          {"id":"8","type":"url","name":"X","url":"http://alive/"}]}]},
      "other":{"type":"folder","children":[
        {"id":"10","type":"folder","name":"リンク切れ","children":[
          {"id":"5","type":"url","name":"X","url":"http://dead/"},
          {"id":"7","type":"url","name":"X","url":"http://dead/"},
          {"id":"9","type":"url","name":"X","url":"http://dead/"}]}]}}}"#));
}

/// Checks one document and disposes of what is dead in another.
fn disposed_later(before: &str, now: &str, disposal: Disposal) -> (usize, Doc) {
    let dead = links_with(&read_bookmarks(before).unwrap(), &["http://dead/"]);
    let mut d = read_bookmarks(now).unwrap();
    let moved = dispose(&mut d, &dead, disposal, &mut mint());
    (moved, d)
}

#[test]
fn a_dead_link_is_found_where_it_is_now() {
    let (moved, d) = disposed_later(
        r#"{"roots":{"bookmark_bar":{"type":"folder","children":[
          {"type":"url","name":"X","url":"http://dead/"}]},"other":{"children":[]}}}"#,
        r#"{"roots":{"bookmark_bar":{"type":"folder","children":[
          {"type":"url","name":"X","url":"http://new/"},
          {"id":"5","type":"url","name":"X","url":"http://dead/"}]},
          "other":{"children":[{"type":"folder","name":"リンク切れ","children":[]}]}}}"#,
        Disposal::Isolate,
    );
    assert_eq!(moved, 1);
    assert!(same(&d, r#"{"roots":{"bookmark_bar":{"type":"folder","children":[
          {"type":"url","name":"X","url":"http://new/"}]},
          "other":{"children":[{"type":"folder","name":"リンク切れ","children":[
            {"id":"5","type":"url","name":"X","url":"http://dead/"}]}]}}}"#));
}

#[test]
fn each_dead_link_is_found_once() {
    let (moved, d) = disposed_later(
        r#"{"roots":{"other":{"type":"folder","children":[{"type":"folder","name":"F","children":[
          {"id":"4","type":"url","name":"X","url":"http://dead/"},
          {"id":"5","type":"url","name":"X","url":"http://dead/"}]}]}}}"#,
        r#"{"roots":{"other":{"type":"folder","children":[{"type":"url","name":"N"},
          {"type":"folder","name":"F","children":[{"type":"url","name":"Y","url":"http://new/"},
            {"id":"4","type":"url","name":"X","url":"http://dead/"},
            {"id":"5","type":"url","name":"X","url":"http://dead/"},
            {"id":"6","type":"url","name":"X","url":"http://dead/"}]},
          {"type":"folder","name":"ゴミ箱","children":[]}]}}}"#,
        Disposal::Trash,
    );
    assert_eq!(moved, 2);
    assert!(same(&d, r#"{"roots":{"other":{"type":"folder","children":[{"type":"url","name":"N"},
          {"type":"folder","name":"F","children":[{"type":"url","name":"Y","url":"http://new/"},
            {"id":"6","type":"url","name":"X","url":"http://dead/"}]},
          {"type":"folder","name":"ゴミ箱","children":[
            {"id":"4","type":"url","name":"X","url":"http://dead/"},
            {"id":"5","type":"url","name":"X","url":"http://dead/"}]}]}}}"#));
}

#[test]
fn links_that_changed_since_are_left_alone() {
    let before = r#"{"roots":{"bookmark_bar":{"type":"folder","children":[
      {"type":"url","name":"X","url":"http://dead/"}]},"other":{"children":[]}}}"#;
    for now in [
        r#"{"roots":{"bookmark_bar":{"type":"folder","children":[
          {"type":"url","name":"X","url":"http://mended/"}]},"other":{"children":[]}}}"#,
        r#"{"roots":{"bookmark_bar":{"type":"folder","children":[
          {"type":"url","name":"Y","url":"http://dead/"}]},"other":{"children":[]}}}"#,
        r#"{"roots":{"bookmark_bar":{"type":"folder"},"other":{"children":[]}}}"#,
    ] {
        let (moved, d) = disposed_later(before, now, Disposal::Trash);
        assert_eq!(moved, 0);
        assert!(same(&d, now));
    }
}

#[test]
fn visited_pages_are_not_moved() {
    let mut d = sample();
    let dead = links_to_check(&d, &path("history"), "p").unwrap();
    assert_eq!(dead.len(), 1);
    let before = write_bookmarks(&d);
    assert_eq!(dispose(&mut d, &dead, Disposal::Trash, &mut mint()), 0);
    assert_eq!(write_bookmarks(&d), before);
}

#[test]
fn checked_links_are_found_again() {
    let d = sample();
    for l in links_to_check(&d, &vec![], "Brave").unwrap() {
        let n = navigate_node_ref(&d, &l.path_segments).unwrap();
        assert_eq!(n.get_str("url").unwrap().trim(), l.url);
        assert_eq!(find_node(&d, &l.place).unwrap(), n);
    }
}

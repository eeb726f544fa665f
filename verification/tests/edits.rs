use auxbookmark::edit::{
    copy_in, delete_all, delete_single_node, make_directory, move_in, move_within, rename_node,
    take_node,
};
use auxbookmark::fault::Reason;
use auxbookmark::guid::{guid_from, Mint};
use auxbookmark::store::{read_bookmarks, write_bookmarks};
use auxbookmark::tree::navigate_node_ref;
use auxbookmark::value::Doc;

fn doc(json: &str) -> Doc {
    read_bookmarks(json).unwrap()
}

fn same(a: &Doc, json: &str) -> bool {
    write_bookmarks(a) == write_bookmarks(&doc(json))
}

fn mint() -> Mint {
    Mint { now: "999".to_string(), nanos: 1000, pid: 1, count: 0, firefox_count: 0 }
}

fn path(s: &str) -> Vec<String> {
    s.split('/').filter(|x| !x.is_empty()).map(|x| x.to_string()).collect()
}

const SMALL: &str = r#"{"roots":{
  "bookmark_bar":{"id":"1","type":"folder","children":[
    {"id":"4","type":"url","name":"A","url":"http://a/"},
    {"id":"5","type":"folder","name":"F","children":[{"id":"6","type":"url","name":"B","url":"http://b/"}]}]},
  "other":{"id":"2","type":"folder","children":[
    {"id":"7","type":"folder","name":"ゴミ箱","children":[{"id":"8","type":"url","name":"T"}]}]}}}"#;

#[test]
fn what_is_deleted_lies_in_the_trash() {
    let mut d = doc(SMALL);
    let mut m = mint();
    assert!(delete_single_node(&mut d, &path("bookmark_bar/F"), &mut m).is_ok());
    assert!(same(&d, r#"{"roots":{
      "bookmark_bar":{"id":"1","type":"folder","children":[
        {"id":"4","type":"url","name":"A","url":"http://a/"}]},
      "other":{"id":"2","type":"folder","children":[
        {"id":"7","type":"folder","name":"ゴミ箱","children":[{"id":"8","type":"url","name":"T"},
          {"id":"5","type":"folder","name":"F","children":[{"id":"6","type":"url","name":"B","url":"http://b/"}]}]}]}}}"#));
    assert_eq!(m.count, 0);
}

#[test]
fn what_is_deleted_from_the_trash_is_gone() {
    let mut d = doc(SMALL);
    assert!(delete_single_node(&mut d, &path("ゴミ箱/T.url"), &mut mint()).is_ok());
    assert!(navigate_node_ref(&d, &path("trash/T.url")).is_none());
    assert!(navigate_node_ref(&d, &path("trash")).unwrap().get_array("children").unwrap().is_empty());
}

#[test]
fn the_trash_is_the_trash_whichever_way_it_is_reached() {
    for way in ["trash/T.url", "ゴミ箱/T.url", "other/ゴミ箱/T.url", "その他のブックマーク/ゴミ箱/T.url"] {
        let mut d = doc(SMALL);
        assert!(delete_single_node(&mut d, &path(way), &mut mint()).is_ok());
        assert!(same(&d, r#"{"roots":{
          "bookmark_bar":{"id":"1","type":"folder","children":[
            {"id":"4","type":"url","name":"A","url":"http://a/"},
            {"id":"5","type":"folder","name":"F","children":[{"id":"6","type":"url","name":"B","url":"http://b/"}]}]},
          "other":{"id":"2","type":"folder","children":[
            {"id":"7","type":"folder","name":"ゴミ箱","children":[]}]}}}"#));
    }
    let mut d = doc(r#"{"roots":{"other":{"children":[{"type":"folder","name":"ゴミ箱","children":[
      {"type":"folder","name":"S","children":[{"type":"url","name":"T"}]}]}]}}}"#);
    assert!(delete_single_node(&mut d, &path("other/ゴミ箱/S/T.url"), &mut mint()).is_ok());
    assert!(same(&d, r#"{"roots":{"other":{"children":[{"type":"folder","name":"ゴミ箱","children":[
      {"type":"folder","name":"S","children":[]}]}]}}}"#));
}

#[test]
fn the_trash_is_made_when_it_is_missing() {
    let mut d = doc(r#"{"roots":{"bookmark_bar":{"id":"1","children":[{"id":"9","type":"url","name":"A"}]},
      "other":{"id":"2","children":[]}}}"#);
    let mut m = mint();
    assert!(delete_single_node(&mut d, &path("bookmark_bar/A.url"), &mut m).is_ok());
    let guid = guid_from(1000, 1, 1);
    let expected = format!(
        r#"{{"roots":{{"bookmark_bar":{{"id":"1","children":[]}},"other":{{"id":"2","children":[
        {{"date_added":"999","date_last_used":"0","date_modified":"999","guid":"{}","id":"3","name":"ゴミ箱","type":"folder",
          "children":[{{"id":"9","type":"url","name":"A"}}]}}]}}}}}}"#,
        guid
    );
    assert!(same(&d, &expected));
    assert_eq!(m.count, 1);
}

#[test]
fn deleting_fails_where_nothing_is_found() {
    let mut d = doc(SMALL);
    let mut m = mint();
    let e = delete_single_node(&mut d, &path("bookmark_bar"), &mut m).unwrap_err();
    assert_eq!(e.reason, Reason::DeleteRootCategory);
    assert_eq!(e.message(), "Cannot delete root bookmark categories: [\"bookmark_bar\"]");
    let e = delete_single_node(&mut d, &path("nowhere/x"), &mut m).unwrap_err();
    assert_eq!(e.message(), "Root segment not found: nowhere");
    let e = delete_single_node(&mut d, &path("bookmark_bar/x"), &mut m).unwrap_err();
    assert_eq!(e.message(), "Target item not found: x");
    let e = delete_single_node(&mut d, &path("bookmark_bar/G/x"), &mut m).unwrap_err();
    assert_eq!(e.message(), "Child folder not found: G");
    let e = delete_single_node(&mut d, &path("bookmark_bar/A.url/x/y"), &mut m).unwrap_err();
    assert_eq!(e.message(), "Path segment is not a folder: x");
    let e = delete_single_node(&mut d, &path("bookmark_bar/A.url/x"), &mut m).unwrap_err();
    assert_eq!(e.message(), "Parent node has no children array");
    let e = delete_single_node(&mut d, &path("履歴/x"), &mut m).unwrap_err();
    assert_eq!(e.reason, Reason::RootNotFound);
    assert!(same(&d, SMALL));
}

#[test]
fn deleting_fails_without_a_place_for_the_trash() {
    let without_other = r#"{"roots":{"bookmark_bar":{"children":[{"name":"A"}]}}}"#;
    let mut d = doc(without_other);
    let e = delete_single_node(&mut d, &path("bookmark_bar/A"), &mut mint()).unwrap_err();
    assert_eq!(e.message(), "Failed to locate Trash folder");
    assert!(same(&d, without_other));
    let without_list = r#"{"roots":{"other":{"children":[{"name":"A"},{"name":"ゴミ箱","type":"folder"}]}}}"#;
    let mut d = doc(without_list);
    let e = delete_single_node(&mut d, &path("other/A"), &mut mint()).unwrap_err();
    assert_eq!(e.message(), "Trash node has no children");
    assert!(same(&d, without_list));
}

#[test]
fn a_trash_that_is_looked_into_is_made() {
    let mut d = doc(r#"{"roots":{"other":{"id":"2","children":[{"name":"A"}]}}}"#);
    let e = delete_single_node(&mut d, &path("ゴミ箱/x"), &mut mint()).unwrap_err();
    assert_eq!(e.message(), "Target item not found: x");
    let c = navigate_node_ref(&d, &path("other")).unwrap().get_array("children").unwrap();
    assert_eq!((c.len(), c[0].get_str("name"), c[1].get_str("name")), (2, Some("A"), Some("ゴミ箱")));
    assert!(c[1].get_array("children").unwrap().is_empty());
}

#[test]
fn many_items_are_deleted_and_blank_names_passed_over() {
    let mut d = doc(SMALL);
    let items = vec![" ".to_string(), "A.url".to_string(), "none".to_string(), "F".to_string()];
    assert!(delete_all(&mut d, &path("bookmark_bar"), &items, &mut mint()).is_ok());
    assert!(navigate_node_ref(&d, &path("bookmark_bar")).unwrap().get_array("children").unwrap().is_empty());
    assert_eq!(navigate_node_ref(&d, &path("trash")).unwrap().get_array("children").unwrap().len(), 3);
}

#[test]
fn without_items_the_folder_itself_is_deleted() {
    let mut d = doc(SMALL);
    assert!(delete_all(&mut d, &path("bookmark_bar/F"), &[" ".to_string()], &mut mint()).is_ok());
    assert!(navigate_node_ref(&d, &path("trash/F/B.url")).is_some());
    let e = delete_all(&mut d, &path("history"), &["x".to_string()], &mut mint()).unwrap_err();
    assert_eq!(e.message(), "History folder is read-only. Use copy ('C') to save to bookmarks.");
}

#[test]
fn folders_are_made_at_the_end_of_their_parent() {
    let mut d = doc(SMALL);
    let mut m = mint();
    assert!(make_directory(&mut d, &path("bookmark_bar/F"), "N", "p", &mut m).is_ok());
    let n = navigate_node_ref(&d, &path("bookmark_bar/F/N")).unwrap();
    assert_eq!(n.get_str("id"), Some("9"));
    assert_eq!(n.get_str("guid"), Some(guid_from(1000, 1, 1).as_str()));
    assert_eq!(n.get_str("date_added"), Some("999"));
    assert_eq!(n.get_str("date_last_used"), Some("0"));
    assert_eq!(n.get_str("type"), Some("folder"));
    assert!(n.get_array("children").unwrap().is_empty());
    for (parents, message) in [
        ("", "Cannot create folder directly under browser root: p"),
        ("history/x", "Cannot create folder inside History folder: p"),
        ("nowhere", "Root segment not found: nowhere"),
        ("bookmark_bar/G", "Parent folder not found: G"),
        ("bookmark_bar/A.url", "Target parent is not a folder"),
        ("bookmark_bar/A.url/x", "Path segment is not a folder: x"),
    ] {
        let e = make_directory(&mut d, &path(parents), "N", "p", &mut m).unwrap_err();
        assert_eq!(e.message(), message);
    }
}

#[test]
fn a_node_moves_as_it_is() {
    let mut d = doc(SMALL);
    assert!(move_within(&mut d, &path("bookmark_bar/A.url"), &path("bookmark_bar/F"), &mut mint()).is_ok());
    let f = navigate_node_ref(&d, &path("bookmark_bar/F")).unwrap().get_array("children").unwrap();
    assert_eq!(f.len(), 2);
    assert_eq!(f[1].get_str("id"), Some("4"));
    assert_eq!(f[1].get_str("url"), Some("http://a/"));
}

#[test]
fn a_destination_that_is_no_folder_means_its_parent() {
    let mut d = doc(SMALL);
    assert!(move_within(&mut d, &path("bookmark_bar/F/B.url"), &path("other/B.url"), &mut mint()).is_ok());
    assert!(navigate_node_ref(&d, &path("other/B.url")).is_some());
    let e = move_within(&mut d, &path("bookmark_bar/F"), &path("bookmark_bar/F/x/y"), &mut mint())
        .unwrap_err();
    assert_eq!(e.message(), "Destination child not found: F");
    let e = move_within(&mut d, &path("bookmark_bar/A.url"), &path("history"), &mut mint())
        .unwrap_err();
    assert_eq!(e.message(), "Destination root not found: history");
    let mut d = doc(SMALL);
    let e = move_within(&mut d, &path("bookmark_bar/F"), &path("bookmark_bar/A.url/x/y"), &mut mint())
        .unwrap_err();
    assert_eq!(e.message(), "Destination segment is not a folder: x");
    let mut d = doc(SMALL);
    let e = move_within(&mut d, &path("bookmark_bar/F"), &path("bookmark_bar/A.url/x"), &mut mint())
        .unwrap_err();
    assert_eq!(e.message(), "Destination node is not a folder");
    let mut d = doc(SMALL);
    let e = move_within(&mut d, &path("bookmark_bar/F"), &[], &mut mint()).unwrap_err();
    assert_eq!(e.reason, Reason::NoDestination);
}

#[test]
fn a_node_from_another_browser_gets_new_identifiers() {
    let mut src = doc(SMALL);
    let mut m = mint();
    let n = take_node(&mut src, &path("bookmark_bar/A.url"), &mut m).unwrap();
    assert!(navigate_node_ref(&src, &path("bookmark_bar/A.url")).is_none());
    let mut dest = doc(r#"{"roots":{"other":{"id":"2","type":"folder","children":[]}}}"#);
    assert!(move_in(&mut dest, &path("other"), n, &mut m, false).is_ok());
    let expected = format!(
        r#"{{"roots":{{"other":{{"id":"2","type":"folder","children":[
        {{"id":"3","guid":"{}","type":"url","name":"A","url":"http://a/"}}]}}}}}}"#,
        guid_from(1000, 1, 1)
    );
    assert!(same(&dest, &expected));
    let e = take_node(&mut src, &[], &mut m).unwrap_err();
    assert_eq!(e.message(), "Target path cannot be empty");
    let e = take_node(&mut src, &path("other"), &mut m).unwrap_err();
    assert_eq!(e.message(), "Cannot modify root folder directly: other");
}

#[test]
fn a_copy_is_new_and_dated_now() {
    let mut d = doc(SMALL);
    let mut m = mint();
    let n = navigate_node_ref(&d, &path("bookmark_bar/A.url")).unwrap().clone();
    assert!(copy_in(&mut d, &path("bookmark_bar/F"), n, &mut m, false).is_ok());
    let c = navigate_node_ref(&d, &path("bookmark_bar/F/A.url")).unwrap();
    assert_eq!(c.get_str("id"), Some("9"));
    assert_eq!(c.get_str("guid"), Some(guid_from(1000, 1, 1).as_str()));
    assert_eq!(c.get_str("date_added"), Some("999"));
    assert_eq!(c.get_str("date_modified"), Some("999"));
    assert_eq!(c.get_str("url"), Some("http://a/"));
    assert!(navigate_node_ref(&d, &path("bookmark_bar/A.url")).is_some());
}

#[test]
fn what_enters_a_table_comes_from_no_row() {
    let source = r#"{"roots":{"bookmark_bar":{"children":[
      {"id":"7","_firefox_id":7,"type":"folder","name":"F","children":[
        {"id":"8","_firefox_id":8,"type":"url","name":"B","url":"http://b/"},
        {"id":"9","_firefox_id":9,"type":"folder","name":"G","children":[
          {"id":"10","_firefox_id":10,"type":"url","name":"C","url":"http://c/"}]}]}]},
      "other":{"children":[]}}}"#;
    let below = r#"[{"id":"8","type":"url","name":"B","url":"http://b/"},
      {"id":"9","type":"folder","name":"G","children":[
        {"id":"10","type":"url","name":"C","url":"http://c/"}]}]"#;
    let mut d = doc(source);
    let mut m = mint();
    let n = navigate_node_ref(&d, &path("bookmark_bar/F")).unwrap().clone();
    assert!(copy_in(&mut d, &path("other"), n, &mut m, true).is_ok());
    let copy = navigate_node_ref(&d, &path("other/F")).unwrap();
    assert!(copy.get("_firefox_id").is_none());
    assert!(same(copy.get("children").unwrap(), below));
    let kept = navigate_node_ref(&d, &path("bookmark_bar/F/G/C.url")).unwrap();
    assert_eq!(kept.get("_firefox_id").unwrap().as_i64(), Some(10));

    let mut src = doc(source);
    let n = take_node(&mut src, &path("bookmark_bar/F"), &mut m).unwrap();
    let mut dest = doc(r#"{"roots":{"other":{"children":[]}}}"#);
    assert!(move_in(&mut dest, &path("other"), n, &mut m, true).is_ok());
    let moved = navigate_node_ref(&dest, &path("other/F")).unwrap();
    assert!(moved.get("_firefox_id").is_none());
    assert!(same(moved.get("children").unwrap(), below));

    let mut d = doc(source);
    assert!(move_within(&mut d, &path("bookmark_bar/F/G"), &path("other"), &mut m).is_ok());
    let same_row = navigate_node_ref(&d, &path("other/G/C.url")).unwrap();
    assert_eq!(same_row.get("_firefox_id").unwrap().as_i64(), Some(10));
}

#[test]
fn what_enters_a_file_keeps_all_its_members() {
    let source = r#"{"roots":{"bookmark_bar":{"children":[
      {"id":"7","_firefox_id":7,"guid":"g","type":"folder","name":"F","meta":{"a":[1]},"children":[
        {"id":"8","_firefox_id":8,"type":"url","name":"B","url":"http://b/"}]}]},
      "other":{"children":[]}}}"#;
    let mut m = mint();
    let mut src = doc(source);
    let copied = navigate_node_ref(&src, &path("bookmark_bar/F")).unwrap().clone();
    let moved = take_node(&mut src, &path("bookmark_bar/F"), &mut m).unwrap();
    let mut dest = doc(r#"{"roots":{"other":{"id":"2","children":[]}}}"#);
    assert!(move_in(&mut dest, &path("other"), moved, &mut m, false).is_ok());
    assert!(copy_in(&mut dest, &path("other"), copied, &mut m, false).is_ok());
    let expected = format!(
        r#"{{"roots":{{"other":{{"id":"2","children":[
        {{"id":"3","_firefox_id":7,"guid":"{}","type":"folder","name":"F","meta":{{"a":[1]}},"children":[
          {{"id":"8","_firefox_id":8,"type":"url","name":"B","url":"http://b/"}}]}},
        {{"id":"9","_firefox_id":7,"guid":"{}","type":"folder","name":"F","meta":{{"a":[1]}},
          "date_added":"999","date_modified":"999","children":[
          {{"id":"8","_firefox_id":8,"type":"url","name":"B","url":"http://b/"}}]}}]}}}}}}"#,
        guid_from(1000, 1, 1),
        guid_from(1001, 1, 2)
    );
    assert!(same(&dest, &expected), "{}", String::from_utf8(write_bookmarks(&dest)).unwrap());
}

#[test]
fn a_renamed_link_loses_its_extension() {
    let mut d = doc(r#"{"roots":{"other":{"children":[
      {"type":"url","name":"A","date_modified":"1"},{"type":"folder","name":"F"},null,5]}}}"#);
    let mut m = mint();
    assert!(rename_node(&mut d, &path("other/A.url"), "N.url", &mut m).is_ok());
    assert!(rename_node(&mut d, &path("other/F"), "G.url", &mut m).is_ok());
    assert!(rename_node(&mut d, &path("other/(empty)"), "X", &mut m).is_ok());
    assert!(same(&d, r#"{"roots":{"other":{"children":[
      {"type":"url","name":"N","date_modified":"999"},{"type":"folder","name":"G.url"},{"name":"X"},5]}}}"#));
    let e = rename_node(&mut d, &path("other/(empty)"), "X", &mut m).unwrap_err();
    assert_eq!(e.reason, Reason::NotAnObject);
    let e = rename_node(&mut d, &path("other/none"), "X", &mut m).unwrap_err();
    assert_eq!(e.reason, Reason::TargetNotFound);
}

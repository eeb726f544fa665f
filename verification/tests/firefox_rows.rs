use auxbookmark::edit::copy_in;
use auxbookmark::fault::Reason;
use auxbookmark::firefox::{build_tree, fill_rows, read_firefox_bookmarks, RawRow};
use auxbookmark::guid::{firefox_guid_from, Mint};
use auxbookmark::store::{read_bookmarks, write_bookmarks};
use auxbookmark::sync::{rows_to_delete, write_firefox_bookmarks, Change, Owner};
use auxbookmark::tree::navigate_node_ref;

fn row(id: i64, b_type: i64, parent: i64, title: Option<&str>, url: Option<&str>) -> RawRow {
    RawRow {
        id,
        b_type,
        title: title.map(|s| s.to_string()),
        url: url.map(|s| s.to_string()),
        parent,
        date_added: 100 + id,
        last_modified: 200 + id,
        guid: if id == 8 { None } else { Some(format!("g{}", id)) },
    }
}

fn mint() -> Mint {
    Mint { now: "9".to_string(), nanos: 50, pid: 3, count: 0, firefox_count: 0 }
}

fn rows() -> Vec<RawRow> {
    vec![
        row(2, 2, 1, Some("menu"), None),
        row(3, 2, 1, Some("toolbar"), None),
        row(7, 2, 3, Some("F"), None),
        row(9, 1, 3, Some("A"), Some("http://a/")),
        row(10, 3, 3, None, None),
        row(8, 1, 7, None, None),
    ]
}

#[test]
fn rows_become_a_tree() {
    let mut m = mint();
    let d = read_firefox_bookmarks(&rows(), &mut m).unwrap();
    let guid = firefox_guid_from(50, 3, 1);
    let expected = format!(
        r#"{{"roots":{{
        "bookmark_bar":{{"id":"3","_firefox_id":3,"name":"ブックマーク バー","type":"folder","children":[
          {{"id":"7","_firefox_id":7,"guid":"g7","name":"F","date_added":"107","date_modified":"207","type":"folder","children":[
            {{"id":"8","_firefox_id":8,"guid":"{}","name":"","date_added":"108","date_modified":"208","type":"url","url":""}}]}},
          {{"id":"9","_firefox_id":9,"guid":"g9","name":"A","date_added":"109","date_modified":"209","type":"url","url":"http://a/"}}]}},
        "other":{{"id":"5","_firefox_id":5,"name":"その他のブックマーク","type":"folder","children":[]}},
        "menu":{{"id":"2","_firefox_id":2,"name":"ブックマーク メニュー","type":"folder","children":[]}}}},
        "version":1}}"#,
        guid
    );
    assert_eq!(write_bookmarks(&d), write_bookmarks(&read_bookmarks(&expected).unwrap()));
    assert_eq!((m.count, m.firefox_count), (0, 1));
}

#[test]
fn folders_that_contain_one_another_have_no_tree() {
    let cyclic = vec![row(3, 2, 7, None, None), row(7, 2, 3, None, None)];
    let e = read_firefox_bookmarks(&cyclic, &mut mint()).unwrap_err();
    assert_eq!(e.reason, Reason::CyclicFolders);
    let filled = fill_rows(&cyclic, &mut mint());
    assert!(build_tree(3, &filled).is_none());
    assert_eq!(build_tree(99, &filled).unwrap().len(), 0);
}

#[test]
fn deep_folders_have_a_tree() {
    let mut chain = Vec::new();
    let mut id = 10;
    while id < 60 {
        chain.push(row(id, 2, if id == 10 { 5 } else { id - 1 }, None, None));
        id += 1;
    }
    let filled = fill_rows(&chain, &mut mint());
    let mut nodes = build_tree(5, &filled).unwrap();
    let mut levels = 0;
    while let Some(first) = nodes.first() {
        let below = first.get_array("children").unwrap().clone();
        nodes = below;
        levels += 1;
    }
    assert_eq!(levels, 50);
}

#[test]
fn unchanged_bookmarks_are_updated_in_place() {
    let mut m = mint();
    let d = read_firefox_bookmarks(&rows(), &mut m).unwrap();
    let changes = write_firefox_bookmarks(&d, &mut m);
    assert_eq!(changes.len(), 3);
    match &changes[0] {
        Change::UpdateFolder { id, owner, position, title } => {
            assert_eq!((*id, *owner, *position, title.as_str()), (7, Owner::Known(3), 0, "F"));
        }
        _ => panic!("another change"),
    }
    match &changes[1] {
        Change::UpdateLink { id, owner, position, title, url, page_guid } => {
            assert_eq!((*id, *owner, *position), (8, Owner::Known(7), 0));
            assert_eq!((title.as_str(), url.as_str()), ("", ""));
            assert_eq!(page_guid, &firefox_guid_from(51, 3, 2));
        }
        _ => panic!("another change"),
    }
    match &changes[2] {
        Change::UpdateLink { id, owner, position, .. } => {
            assert_eq!((*id, *owner, *position), (9, Owner::Known(3), 1));
        }
        _ => panic!("another change"),
    }
    let made = vec![None, None, None];
    assert_eq!(rows_to_delete(&[7, 8, 9, 11], &changes, &made), vec![11]);
}

#[test]
fn new_nodes_are_inserted_under_their_folders() {
    let d = read_bookmarks(
        r#"{"roots":{"other":{"children":[
        {"type":"folder","name":"N","children":[{"type":"url","name":"a\u0000b","url":"http://x/"}]},
        {"type":"separator"},
        {"type":"url","name":"K","_firefox_id":30,"url":"http://k/\u0000"}]},
        "menu":{"children":[{"type":"folder","name":"M"}]}}}"#,
    )
    .unwrap();
    let mut m = mint();
    let changes = write_firefox_bookmarks(&d, &mut m);
    assert_eq!(changes.len(), 4);
    match &changes[0] {
        Change::InsertFolder { owner, position, title, guid } => {
            assert_eq!((*owner, *position, title.as_str()), (Owner::Known(5), 0, "N"));
            assert_eq!(guid, &firefox_guid_from(50, 3, 1));
        }
        _ => panic!("another change"),
    }
    match &changes[1] {
        Change::InsertLink { owner, position, title, url, page_guid, guid } => {
            assert_eq!((*owner, *position), (Owner::Made(0), 0));
            assert_eq!((title.as_str(), url.as_str()), ("", "http://x/"));
            assert_eq!(page_guid, &firefox_guid_from(51, 3, 2));
            assert_eq!(guid, &firefox_guid_from(52, 3, 3));
            assert_eq!(owner.row(&[Some(41)]), 41);
            assert_eq!(owner.row(&[None]), 0);
            assert_eq!(owner.row(&[]), 0);
        }
        _ => panic!("another change"),
    }
    match &changes[2] {
        Change::UpdateLink { id, position, url, .. } => {
            assert_eq!((*id, *position, url.as_str()), (30, 2, ""));
        }
        _ => panic!("another change"),
    }
    match &changes[3] {
        Change::InsertFolder { owner, position, .. } => {
            assert_eq!((*owner, *position), (Owner::Known(2), 0));
        }
        _ => panic!("another change"),
    }
    assert_eq!(m.firefox_count, 5);
    let made = vec![Some(41), Some(42), None, None];
    assert_eq!(rows_to_delete(&[30, 41, 42, 43, 0], &changes, &made), vec![43]);
    let failed = vec![Some(41), None, None, Some(44)];
    assert_eq!(rows_to_delete(&[30, 41, 42, 44, 0], &changes, &failed), vec![42, 0]);
}

/// The rows that a table has after changes, in the order of parents and positions.
fn table_after(changes: &[Change]) -> (Vec<RawRow>, Vec<Option<i64>>) {
    let mut made: Vec<Option<i64>> = Vec::new();
    let mut rows: Vec<(u64, RawRow)> = Vec::new();
    for change in changes {
        let new = 100 + made.len() as i64;
        let (id, b_type, owner, position, title, url, inserted) = match change {
            Change::UpdateFolder { id, owner, position, title } => {
                (*id, 2, owner, *position, title, None, None)
            }
            Change::InsertFolder { owner, position, title, .. } => {
                (new, 2, owner, *position, title, None, Some(new))
            }
            Change::UpdateLink { id, owner, position, title, url, .. } => {
                (*id, 1, owner, *position, title, Some(url.clone()), None)
            }
            Change::InsertLink { owner, position, title, url, .. } => {
                (new, 1, owner, *position, title, Some(url.clone()), Some(new))
            }
        };
        rows.push((
            position,
            RawRow {
                id,
                b_type,
                title: Some(title.clone()),
                url,
                parent: owner.row(&made),
                date_added: 0,
                last_modified: 0,
                guid: Some(String::new()),
            },
        ));
        made.push(inserted);
    }
    rows.sort_by_key(|(position, row)| (row.parent, *position));
    (rows.into_iter().map(|(_, row)| row).collect(), made)
}

fn outline(nodes: &Vec<auxbookmark::value::Doc>) -> String {
    let mut out = String::new();
    for n in nodes {
        if n.get_str("type") == Some("folder") {
            let empty = Vec::new();
            let below = n.get_array("children").unwrap_or(&empty);
            out += &format!("{}[{}]", n.get_str("name").unwrap_or(""), outline(below));
        } else if n.get_str("type") == Some("url") {
            out += &format!("{}={};", n.get_str("name").unwrap_or(""), n.get_str("url").unwrap_or(""));
        }
    }
    out
}

#[test]
fn a_copy_is_inserted_beside_its_source() {
    let mut m = mint();
    let mut d = read_firefox_bookmarks(&rows(), &mut m).unwrap();
    let source = vec!["bookmark_bar".to_string(), "F".to_string()];
    let n = navigate_node_ref(&d, &source).unwrap().clone();
    assert!(copy_in(&mut d, &["other".to_string()], n, &mut m, true).is_ok());
    let changes = write_firefox_bookmarks(&d, &mut m);
    let mut updated: Vec<i64> = Vec::new();
    let mut inserted = 0;
    for change in &changes {
        match change {
            Change::UpdateFolder { id, .. } => updated.push(*id),
            Change::UpdateLink { id, .. } => updated.push(*id),
            _ => inserted += 1,
        }
    }
    assert_eq!((updated, inserted), (vec![7, 8, 9], 2));
    let (table, made) = table_after(&changes);
    let again = read_firefox_bookmarks(&table, &mut m).unwrap();
    for (key, expected) in [("bookmark_bar", "F[=;]A=http://a/;"), ("other", "F[=;]")] {
        let root = again.get("roots").unwrap().get(key).unwrap();
        assert_eq!(outline(root.get_array("children").unwrap()), expected);
    }
    assert!(rows_to_delete(&[7, 8, 9], &changes, &made).is_empty());
}

#[test]
fn a_written_table_reads_back() {
    let d = read_bookmarks(
        r#"{"roots":{
        "bookmark_bar":{"children":[
          {"type":"url","name":"A","url":"http://a/","_firefox_id":30},
          {"type":"separator"},
          {"type":"folder","name":"F","children":[
            {"type":"folder","name":"G","_firefox_id":31,"children":[{"type":"url","name":"B","url":"http://b/"}]},
            {"type":"url","name":"C","url":"http://c/","_firefox_id":32}]},
          {"type":"folder","name":"H"}]},
        "other":{"children":[{"type":"url","name":"D","url":"http://d/"}]}}}"#,
    )
    .unwrap();
    let mut m = mint();
    let changes = write_firefox_bookmarks(&d, &mut m);
    let (rows, made) = table_after(&changes);
    let again = read_firefox_bookmarks(&rows, &mut m).unwrap();
    for (key, expected) in [
        ("bookmark_bar", "A=http://a/;F[G[B=http://b/;]C=http://c/;]H[]"),
        ("other", "D=http://d/;"),
        ("menu", ""),
    ] {
        let root = again.get("roots").unwrap().get(key).unwrap();
        assert_eq!(outline(root.get_array("children").unwrap()), expected);
        assert!(root.get_array("children").unwrap().iter().all(|n| n.get("_firefox_id").is_some()));
    }
    assert_eq!(rows_to_delete(&[30, 31, 32, 33], &changes, &made), vec![33]);
}

use auxbookmark::config::ProfileBackend;
use auxbookmark::fault::Reason;
use auxbookmark::guid::{guid_from, Mint};
use auxbookmark::store::{
    add_history, history_query, read_bookmarks, read_history_items, reads_back, stored_bytes,
    write_bookmarks, Visit, HISTORY_LIMIT,
};
use auxbookmark::value::Doc;

const TEXT: &str = "{\n  \"a\": [\n    1,\n    -2,\n    1.5,\n    18446744073709551615,\n    true,\n    null,\n    \"q\\\"\\n箱\"\n  ],\n  \"roots\": {\n    \"other\": {}\n  }\n}";

#[test]
fn a_document_is_read_and_written() {
    let d = read_bookmarks(TEXT).unwrap();
    assert_eq!(String::from_utf8(write_bookmarks(&d)).unwrap(), TEXT);
    assert_eq!(d.get_array("a").unwrap()[0].as_i64(), Some(1));
    assert_eq!(d.get_array("a").unwrap()[1].as_i64(), Some(-2));
    assert_eq!(d.get_array("a").unwrap()[2].as_i64(), None);
    assert_eq!(d.get_array("a").unwrap()[3].as_i64(), None);
    assert_eq!(d.get_array("a").unwrap()[6].as_str(), Some("q\"\n箱"));
}

#[test]
fn keys_are_written_in_order_and_the_last_of_two_is_read() {
    let d = read_bookmarks(r#"{"b":1,"a":2,"b":3}"#).unwrap();
    assert_eq!(String::from_utf8(write_bookmarks(&d)).unwrap(), "{\n  \"a\": 2,\n  \"b\": 3\n}");
}

#[test]
fn what_is_written_is_read_back() {
    let mut d = Doc::new_object();
    d.set("z", Doc::new_int(i64::MIN));
    d.set("y", Doc::new_int(i64::MAX));
    d.set("x", Doc::new_str("\u{0}\u{7f}𠮷"));
    let mut nested = Doc::Array(vec![Doc::Bool(false)]);
    let mut depth = 2;
    while depth < 127 {
        nested = Doc::Array(vec![nested]);
        depth += 1;
    }
    d.set("deep", nested);
    let bytes = write_bookmarks(&d);
    let again = read_bookmarks(std::str::from_utf8(&bytes).unwrap()).unwrap();
    assert_eq!(write_bookmarks(&again), bytes);
    assert_eq!(again.get("z").unwrap().as_i64(), Some(i64::MIN));
    assert_eq!(again.get_str("x"), Some("\u{0}\u{7f}𠮷"));
    let deeper = Doc::Array(vec![d]);
    let bytes = write_bookmarks(&deeper);
    assert!(read_bookmarks(std::str::from_utf8(&bytes).unwrap()).is_err());
}

#[test]
fn whole_numbers_of_every_size_are_read_back() {
    let d = read_bookmarks(r#"[18446744073709551615,9223372036854775808,-9223372036854775808,0]"#).unwrap();
    assert!(reads_back(&d));
    let bytes = write_bookmarks(&d);
    let again = read_bookmarks(std::str::from_utf8(&bytes).unwrap()).unwrap();
    assert_eq!(again, d);
    assert_eq!(
        std::str::from_utf8(&bytes).unwrap(),
        "[\n  18446744073709551615,\n  9223372036854775808,\n  -9223372036854775808,\n  0\n]"
    );
    for fraction in ["1.5", "18446744073709551616", "[{\"a\":1e3}]"] {
        assert!(!reads_back(&read_bookmarks(fraction).unwrap()));
    }
    let mut nested = Doc::Null;
    for _ in 0..127 {
        nested = Doc::Array(vec![nested]);
    }
    assert!(reads_back(&nested));
    assert!(!reads_back(&Doc::Array(vec![nested])));
}

#[test]
fn a_text_that_is_no_json_is_refused() {
    let e = read_bookmarks("{").unwrap_err();
    assert_eq!(e.reason, Reason::BadJson);
    assert_eq!(
        e.message(),
        "Failed to parse Bookmarks JSON: EOF while parsing an object at line 1 column 1"
    );
}

#[test]
fn the_first_member_of_a_key_counts() {
    let mut d = Doc::new_object();
    d.set("k", Doc::new_int(1));
    d.set("k", Doc::new_int(2));
    assert_eq!(d.get("k").unwrap().as_i64(), Some(2));
    d.unset("k");
    assert!(d.get("k").is_none());
    let mut n = Doc::Null;
    n.set("k", Doc::Null);
    assert!(n.get("k").is_none());
}

fn visit(title: Option<&str>, url: Option<&str>, time: i64) -> Visit {
    Visit { title: title.map(|s| s.to_string()), url: url.map(|s| s.to_string()), time }
}

#[test]
fn visits_become_numbered_links() {
    let mut mint = Mint { now: "9".to_string(), nanos: 5, pid: 1, count: 0, firefox_count: 0 };
    let nodes = read_history_items(
        &[
            visit(Some(" T "), Some("http://t/"), 7),
            visit(Some("no address"), None, 8),
            visit(Some("no address"), Some(""), 8),
            visit(Some("  "), Some("http://u/"), -1),
            visit(None, Some("http://v/"), 0),
        ],
        &mut mint,
    );
    assert_eq!(nodes.len(), 3);
    assert_eq!(nodes[0].get_str("id"), Some("hist_1"));
    assert_eq!(nodes[0].get_str("name"), Some("T"));
    assert_eq!(nodes[0].get_str("type"), Some("url"));
    assert_eq!(nodes[0].get_str("date_added"), Some("7"));
    assert_eq!(nodes[0].get_str("date_modified"), Some("7"));
    assert_eq!(nodes[0].get_str("guid"), Some(guid_from(5, 1, 1).as_str()));
    assert_eq!(nodes[1].get_str("id"), Some("hist_2"));
    assert_eq!(nodes[1].get_str("name"), Some("http://u/"));
    assert_eq!(nodes[1].get_str("date_added"), Some("-1"));
    assert_eq!(nodes[1].get_str("guid"), Some(guid_from(6, 1, 2).as_str()));
    assert_eq!(nodes[2].get_str("url"), Some("http://v/"));
    assert_eq!(mint.count, 3);
}

#[test]
fn history_is_shown_but_not_stored() {
    let text = "{\n  \"roots\": {\n    \"other\": {}\n  }\n}";
    let mut d = read_bookmarks(text).unwrap();
    add_history(&mut d, vec![Doc::new_str("x")]);
    let shown = d.get("roots").unwrap().get("history").unwrap();
    assert_eq!(shown.get_str("id"), Some("history_root"));
    assert_eq!(shown.get_str("name"), Some("履歴"));
    assert_eq!(shown.get_str("type"), Some("folder"));
    assert_eq!(shown.get_array("children").unwrap().len(), 1);
    assert_eq!(String::from_utf8(stored_bytes(&d)).unwrap(), text);
    let mut none = read_bookmarks("{}").unwrap();
    add_history(&mut none, Vec::new());
    assert_eq!(stored_bytes(&none), b"{}");
}

#[test]
fn the_stores_are_asked_for_the_last_visits() {
    assert_eq!(HISTORY_LIMIT, 500);
    assert_eq!(
        history_query(ProfileBackend::ChromiumJson, 500),
        "SELECT title, url, last_visit_time FROM urls WHERE url NOT LIKE 'file://%' ORDER BY last_visit_time DESC LIMIT 500"
    );
    assert_eq!(
        history_query(ProfileBackend::FirefoxSqlite, 7),
        "SELECT title, url, last_visit_date FROM moz_places WHERE visit_count > 0 AND url NOT LIKE 'file://%' AND url NOT LIKE 'about:%' ORDER BY last_visit_date DESC LIMIT 7"
    );
}

use auxbookmark::guid::{firefox_guid_from, guid_from, Mint};
use auxbookmark::node::{escape_html, get_node_display_name, sanitize_title};
use auxbookmark::store::read_bookmarks;
use auxbookmark::tree::{find_max_id, next_id};
use auxbookmark::value::Doc;

fn doc(json: &str) -> Doc {
    read_bookmarks(json).unwrap()
}

#[test]
fn titles_become_file_names() {
    assert_eq!(sanitize_title("a\\b/c:d*e?f\"g<h>i|j"), "a￥b／c：d＊e？f”g＜h＞i｜j");
    assert_eq!(sanitize_title(" \tx\r\ny "), "x  y");
    assert_eq!(sanitize_title(" \u{3000}"), "(empty)");
    assert_eq!(sanitize_title(sanitize_title("a/b ").as_str()), sanitize_title("a/b "));
}

#[test]
fn markup_is_escaped() {
    assert_eq!(escape_html("<a href=\"x\">'&'</a>"), "&lt;a href=&quot;x&quot;&gt;&#39;&amp;&#39;&lt;/a&gt;");
    assert_eq!(escape_html("ゴミ箱"), "ゴミ箱");
}

#[test]
fn escaped_text_is_given_back() {
    for s in ["<a href=\"x\">'&'</a>", "&amp;lt;", "&&lt;&", "ゴミ箱", "", "&#39;'&quot;"] {
        let back = escape_html(s)
            .replace("&lt;", "<")
            .replace("&gt;", ">")
            .replace("&quot;", "\"")
            .replace("&#39;", "'")
            .replace("&amp;", "&");
        assert_eq!(back, s);
    }
    let joined = escape_html("<&") + &escape_html("amp;>");
    assert_eq!(escape_html("<&amp;>"), joined);
}

#[test]
fn links_are_shown_with_an_extension() {
    assert_eq!(get_node_display_name(&doc(r#"{"type":"url","name":"a/b"}"#)), "a／b.url");
    assert_eq!(get_node_display_name(&doc(r#"{"type":"folder","name":"F"}"#)), "F");
    assert_eq!(get_node_display_name(&doc(r#"{"type":"url"}"#)), "(empty).url");
    assert_eq!(get_node_display_name(&doc("7")), "(empty)");
}

#[test]
fn the_largest_identifier_is_found() {
    let d = doc(r#"{"id":"x","roots":{"a":{"id":"12","children":[{"id":"41"},{"id":"+40"}]},"b":[{"id":50}]}}"#);
    assert_eq!(find_max_id(&d), 41);
    assert_eq!(next_id(&d), "42");
    assert_eq!(next_id(&doc("[]")), "1");
    assert_eq!(next_id(&doc(r#"{"id":"18446744073709551615"}"#)), "0");
}

#[test]
fn identifiers_are_mixed_from_time_process_and_count() {
    assert_eq!(guid_from(1700000000123456789, 4242, 1), "b9dcd2d9-7537-4f3b-af65-fd9fac60c738");
    assert_eq!(guid_from(0, 0, 1), "141a9a66-628f-445b-bb72-a25d0c18e932");
    assert_eq!(firefox_guid_from(1700000000123456789, 4242, 1), "S_HPUWhR1ORu");
    assert_eq!(firefox_guid_from(1700000000123456789, 4242, 2), "Z-R8TIpb88GU");
}

#[test]
fn a_mint_moves_on_at_each_draw() {
    let mut mint = Mint {
        now: "0".to_string(),
        nanos: 1700000000123456789,
        pid: 4242,
        count: 0,
        firefox_count: 1,
    };
    assert_eq!(mint.generate_guid(), "b9dcd2d9-7537-4f3b-af65-fd9fac60c738");
    assert_eq!((mint.nanos, mint.count, mint.firefox_count), (1700000000123456790, 1, 1));
    let second = mint.generate_guid();
    assert_eq!(second, guid_from(1700000000123456790, 4242, 2));
    assert_ne!(second, "b9dcd2d9-7537-4f3b-af65-fd9fac60c738");
    assert_eq!(mint.generate_firefox_guid(), firefox_guid_from(1700000000123456791, 4242, 2));
}

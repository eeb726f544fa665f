use auxbookmark::path::{
    checked_segments, join_path, normalize, parse_virtual_segments, segments_with,
};

fn segs(raw: &str) -> Vec<String> {
    parse_virtual_segments(raw)
}

#[test]
fn scheme_is_dropped_in_any_case() {
    assert_eq!(segs("aux://S_auxbookmark/Brave/bar"), vec!["Brave", "bar"]);
    assert_eq!(segs("AUX:\\S_AuxBookmark\\Brave\\ x "), vec!["Brave", "x"]);
    assert_eq!(segs("aux:/s_auxbookmark/a/b"), vec!["a", "b"]);
    assert_eq!(segs("aux://s_bookmark/Edge"), vec!["Edge"]);
    assert_eq!(segs("aux:s_bookmark/Edge"), vec!["Edge"]);
    assert_eq!(segs("aux://S_auxbookmark/"), Vec::<String>::new());
}

#[test]
fn joined_names_are_read_back() {
    for names in [vec!["Brave"], vec!["Brave", "ゴミ箱", "a b.url"], vec!["\"x", "y'z", "aux:"]] {
        let raw = format!("aux://S_auxbookmark/{}", names.join("/"));
        assert_eq!(segs(&raw), names);
        assert_eq!(normalize(&raw), raw);
    }
}

#[test]
fn other_schemes_lose_their_first_part() {
    assert_eq!(segs("aux://S_other/Brave/bar"), vec!["Brave", "bar"]);
    assert_eq!(segs("aux:other/Brave"), vec!["Brave"]);
    assert_eq!(segs("aux:other"), Vec::<String>::new());
    assert_eq!(segs("aux://other"), Vec::<String>::new());
}

#[test]
fn plain_paths_are_kept() {
    assert_eq!(segs(" \"Brave\\ブックマーク バー/ a //b/\" "), vec!["Brave", "ブックマーク バー", "a", "b"]);
    assert_eq!(segs("'Brave/x'"), vec!["Brave", "x"]);
    assert_eq!(segs("/"), Vec::<String>::new());
    assert_eq!(segs(""), Vec::<String>::new());
}

#[test]
fn a_scheme_may_end_inside_a_character() {
    assert_eq!(checked_segments("\u{130}aux://S_auxbookmark/あ"), None);
    assert_eq!(
        checked_segments("\u{130}aux://S_auxbookmark/ab"),
        Some(vec!["b".to_string()])
    );
    assert_eq!(checked_segments("Brave/x"), Some(vec!["Brave".to_string(), "x".to_string()]));
}

#[test]
fn segments_follow_the_lower_case_they_are_given() {
    assert_eq!(normalize(" 'A\\B' "), "A/B");
    assert_eq!(
        segments_with("AUX://S_AUXBOOKMARK/X", "aux://s_auxbookmark/x"),
        Some(vec!["X".to_string()])
    );
    assert_eq!(
        segments_with("AUX://S_AUXBOOKMARK/X", "no scheme"),
        Some(vec!["AUX:".to_string(), "S_AUXBOOKMARK".to_string(), "X".to_string()])
    );
}

#[test]
fn items_are_joined_with_one_slash() {
    assert_eq!(join_path("Brave/bar//", "\\/x"), "Brave/bar/x");
    assert_eq!(join_path("", "x"), "/x");
    assert_eq!(join_path("a\\", "b/"), "a/b/");
}

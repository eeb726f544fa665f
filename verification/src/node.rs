//! Bookmark nodes: their folder names, display names and escaped texts.
use crate::text;
use crate::text::{chars_of, text_eq, trim};
use crate::value;
use crate::value::{Doc, Json};
use vstd::prelude::*;
use vstd::string::*;

verus! {

/// The folder that deleted bookmarks go to.
pub const TRASH_FOLDER_NAME: &'static str = "ゴミ箱";

/// The folder that dead links can be moved to.
pub const ISOLATE_FOLDER_NAME: &'static str = "リンク切れ";

/// The virtual folder of visited pages.
pub const HISTORY_FOLDER_NAME: &'static str = "履歴";

/// The root folder of the bookmark bar.
pub const BOOKMARK_BAR_JP: &'static str = "ブックマーク バー";

/// The root folder of other bookmarks.
pub const OTHER_BOOKMARKS_JP: &'static str = "その他のブックマーク";

/// The root folder of the bookmark menu.
pub const BOOKMARK_MENU_JP: &'static str = "ブックマーク メニュー";

// ---------------------------------------------------------------------------
// File names
// ---------------------------------------------------------------------------

/// The character that stands for `c` in a file name.
pub open spec fn file_name_char(c: char) -> char {
    if c == '\\' {
        '￥'
    } else if c == '/' {
        '／'
    } else if c == ':' {
        '：'
    } else if c == '*' {
        '＊'
    } else if c == '?' {
        '？'
    } else if c == '"' {
        '”'
    } else if c == '<' {
        '＜'
    } else if c == '>' {
        '＞'
    } else if c == '|' {
        '｜'
    } else if c == '\r' || c == '\n' || c == '\t' {
        ' '
    } else {
        c
    }
}

/// A text with every character that a file name cannot hold replaced.
pub open spec fn file_name_chars(s: Seq<char>) -> Seq<char> {
    Seq::new(s.len(), |i: int| file_name_char(s[i]))
}

/// The file name of a title: forbidden characters replaced, white space stripped at both ends,
/// and never empty.
pub open spec fn sanitized(title: Seq<char>) -> Seq<char> {
    let t = text::trimmed(file_name_chars(title));
    if t.len() == 0 {
        "(empty)"@
    } else {
        t
    }
}

/// The character that stands for `c` in a file name.
fn safe_char(c: char) -> (r: char)
    ensures
        r == file_name_char(c),
{
    match c {
        '\\' => '￥',
        '/' => '／',
        ':' => '：',
        '*' => '＊',
        '?' => '？',
        '"' => '”',
        '<' => '＜',
        '>' => '＞',
        '|' => '｜',
        '\r' | '\n' | '\t' => ' ',
        _ => c,
    }
}

/// Turns a title into a file name.
pub fn sanitize_title(title: &str) -> (r: String)
    ensures
        r@ == sanitized(title@),
{
    let chars: Vec<char> = chars_of(title);
    let mut res: String = String::new();
    let mut i: usize = 0;
    while i < chars.len()
        invariant
            i <= chars@.len(),
            chars@ == title@,
            res@ =~= file_name_chars(title@).take(i as int),
        decreases chars.len() - i,
    {
        res.push(safe_char(chars[i]));
        i += 1;
    }
    assert(res@ =~= file_name_chars(title@));
    let kept: &str = trim(res.as_str());
    if kept.is_empty() {
        "(empty)".to_owned()
    } else {
        kept.to_owned()
    }
}

// ---------------------------------------------------------------------------
// HTML
// ---------------------------------------------------------------------------

/// What stands for a character in HTML text.
pub open spec fn html_entity(c: char) -> Seq<char> {
    if c == '&' {
        "&amp;"@
    } else if c == '<' {
        "&lt;"@
    } else if c == '>' {
        "&gt;"@
    } else if c == '"' {
        "&quot;"@
    } else if c == '\'' {
        "&#39;"@
    } else {
        seq![c]
    }
}

/// A text with the characters that mean something in HTML replaced by entities.
pub open spec fn html_escaped(s: Seq<char>) -> Seq<char>
    decreases s.len(),
{
    if s.len() == 0 {
        Seq::empty()
    } else {
        html_entity(s[0]) + html_escaped(s.drop_first())
    }
}

/// Escapes a text for HTML.
pub fn escape_html(s: &str) -> (r: String)
    ensures
        r@ == html_escaped(s@),
{
    let chars: Vec<char> = chars_of(s);
    let mut out: String = String::new();
    let mut i: usize = 0;
    assert(s@.skip(0) =~= s@);
    assert(out@ + html_escaped(s@) =~= html_escaped(s@));
    while i < chars.len()
        invariant
            i <= chars@.len(),
            chars@ == s@,
            out@ + html_escaped(s@.skip(i as int)) == html_escaped(s@),
        decreases chars.len() - i,
    {
        let ghost before = out@;
        let ghost rest = s@.skip(i as int);
        let c: char = chars[i];
        match c {
            '&' => out.append("&amp;"),
            '<' => out.append("&lt;"),
            '>' => out.append("&gt;"),
            '"' => out.append("&quot;"),
            '\'' => out.append("&#39;"),
            _ => out.push(c),
        }
        proof {
            assert(out@ =~= before + html_entity(c));
            assert(rest.drop_first() =~= s@.skip(i + 1));
            assert(out@ + html_escaped(s@.skip(i + 1)) =~= before + (html_entity(c) + html_escaped(
                rest.drop_first(),
            )));
        }
        i += 1;
    }
    assert(s@.skip(i as int) =~= Seq::empty());
    assert(out@ + html_escaped(s@.skip(i as int)) =~= out@);
    out
}

// ---------------------------------------------------------------------------
// Nodes
// ---------------------------------------------------------------------------

/// The text of a member, or a default where the node has none.
pub open spec fn text_or(node: Json, key: Seq<char>, default: Seq<char>) -> Seq<char> {
    match node.text_member(key) {
        Some(s) => s,
        None => default,
    }
}

/// The type of a node, empty where it has none.
pub open spec fn type_of(node: Json) -> Seq<char> {
    text_or(node, "type"@, ""@)
}

/// The name of a node, empty where it has none.
pub open spec fn name_of(node: Json) -> Seq<char> {
    text_or(node, "name"@, ""@)
}

/// The children of a node, where it has a list of them.
pub open spec fn children_of(node: Json) -> Option<Seq<Json>> {
    node.array_member("children"@)
}

/// The node is a folder.
pub open spec fn is_folder(node: Json) -> bool {
    type_of(node) == "folder"@
}

/// The node is a link.
pub open spec fn is_link(node: Json) -> bool {
    type_of(node) == "url"@
}

/// The name under which a node is listed.
pub open spec fn display_name(node: Json) -> Seq<char> {
    let s = sanitized(text_or(node, "name"@, "(empty)"@));
    if is_link(node) {
        s + ".url"@
    } else {
        s
    }
}

/// The type of a node, empty where it has none.
pub fn node_type<'a>(node: &'a Doc) -> (r: &'a str)
    ensures
        r@ == type_of(node@),
{
    match node.get_str("type") {
        Some(s) => s,
        None => "",
    }
}

/// The name of a node, empty where it has none.
pub fn node_name<'a>(node: &'a Doc) -> (r: &'a str)
    ensures
        r@ == name_of(node@),
{
    match node.get_str("name") {
        Some(s) => s,
        None => "",
    }
}

/// Tells whether a node is a folder.
pub fn node_is_folder(node: &Doc) -> (r: bool)
    ensures
        r == is_folder(node@),
{
    text_eq(node_type(node), "folder")
}

/// Tells whether a node is a link.
pub fn node_is_link(node: &Doc) -> (r: bool)
    ensures
        r == is_link(node@),
{
    text_eq(node_type(node), "url")
}

/// The name under which a node is listed.
pub fn get_node_display_name(node: &Doc) -> (r: String)
    ensures
        r@ == display_name(node@),
{
    let raw_name: &str = match node.get_str("name") {
        Some(s) => s,
        None => "(empty)",
    };
    let mut shown: String = sanitize_title(raw_name);
    if node_is_link(node) {
        shown.append(".url");
    }
    shown
}

// ---------------------------------------------------------------------------
// Laws
// ---------------------------------------------------------------------------

/// A character that no file name can hold.
pub open spec fn forbidden(c: char) -> bool {
    ||| c == '\\' || c == '/' || c == ':' || c == '*' || c == '?' || c == '"' || c == '<' || c
        == '>' || c == '|'
    ||| c == '\r' || c == '\n' || c == '\t'
}

/// A file name is not empty, holds no forbidden character, and neither begins nor ends with
/// white space.
pub proof fn law_sanitized_is_a_file_name(title: Seq<char>)
    ensures
        sanitized(title).len() > 0,
        forall|i: int| 0 <= i < sanitized(title).len() ==> !forbidden(#[trigger] sanitized(title)[i]),
        !text::is_space(sanitized(title)[0]),
        !text::is_space(sanitized(title).last()),
{
    reveal_strlit("(empty)");
    let m = file_name_chars(title);
    let t = text::trimmed(m);
    text::lemma_strip(m, text::CharSet::Space);
    if t.len() > 0 {
        let (a, b) = choose|a: int, b: int|
            0 <= a <= b <= m.len() && #[trigger] m.subrange(a, b) == t;
        assert forall|i: int| 0 <= i < t.len() implies !forbidden(#[trigger] t[i]) by {
            assert(t[i] == m[a + i]);
            assert(m[a + i] == file_name_char(title[a + i]));
        }
    }
}

/// Turning a file name into a file name changes nothing.
pub proof fn law_sanitize_twice(title: Seq<char>)
    ensures
        sanitized(sanitized(title)) == sanitized(title),
{
    law_sanitized_is_a_file_name(title);
    let s = sanitized(title);
    assert forall|i: int| 0 <= i < s.len() implies file_name_char(#[trigger] s[i]) == s[i] by {
        assert(!forbidden(s[i]));
    }
    assert(file_name_chars(s) =~= s);
    text::lemma_strip_keeps(s, text::CharSet::Space);
}

/// An escaped text holds no character that opens a tag or closes an attribute.
pub proof fn law_escaped_has_no_markup(s: Seq<char>)
    ensures
        forall|i: int|
            0 <= i < html_escaped(s).len() ==> {
                let c = #[trigger] html_escaped(s)[i];
                c != '<' && c != '>' && c != '"' && c != '\''
            },
    decreases s.len(),
{
    if s.len() > 0 {
        reveal_strlit("&amp;");
        reveal_strlit("&lt;");
        reveal_strlit("&gt;");
        reveal_strlit("&quot;");
        reveal_strlit("&#39;");
        law_escaped_has_no_markup(s.drop_first());
        let e = html_entity(s[0]);
        let r = html_escaped(s.drop_first());
        assert forall|i: int| 0 <= i < html_escaped(s).len() implies ({
            let c = #[trigger] html_escaped(s)[i];
            c != '<' && c != '>' && c != '"' && c != '\''
        }) by {
            if i < e.len() {
                assert(html_escaped(s)[i] == e[i]);
            } else {
                assert(html_escaped(s)[i] == r[i - e.len()]);
            }
        }
    }
}

/// Different texts have different escaped texts: escaping loses nothing.
pub proof fn law_escape_loses_nothing(a: Seq<char>, b: Seq<char>)
    requires
        html_escaped(a) == html_escaped(b),
    ensures
        a == b,
    decreases a.len(),
{
    reveal_strlit("&amp;");
    reveal_strlit("&lt;");
    reveal_strlit("&gt;");
    reveal_strlit("&quot;");
    reveal_strlit("&#39;");
    if a.len() == 0 {
        if b.len() > 0 {
            assert(html_escaped(b).len() >= html_entity(b[0]).len());
        }
        assert(a =~= b);
    } else if b.len() == 0 {
        assert(html_escaped(a).len() >= html_entity(a[0]).len());
    } else {
        let ea = html_entity(a[0]);
        let eb = html_entity(b[0]);
        let ra = html_escaped(a.drop_first());
        let rb = html_escaped(b.drop_first());
        assert((ea + ra)[0] == (eb + rb)[0]);
        assert((ea + ra)[0] == ea[0] && (eb + rb)[0] == eb[0]);
        if ea.len() > 1 && eb.len() > 1 {
            assert((ea + ra)[1] == ea[1] && (eb + rb)[1] == eb[1]);
        }
        assert(a[0] == b[0]);
        assert(ra =~= (ea + ra).skip(ea.len() as int));
        assert(rb =~= (eb + rb).skip(eb.len() as int));
        law_escape_loses_nothing(a.drop_first(), b.drop_first());
        assert(a =~= seq![a[0]] + a.drop_first());
        assert(b =~= seq![b[0]] + b.drop_first());
    }
}

/// Escaping goes piece by piece: the escape of two texts in a row is the escape of the one behind
/// the escape of the other.
pub proof fn law_escape_of_a_join(a: Seq<char>, b: Seq<char>)
    ensures
        html_escaped(a + b) == html_escaped(a) + html_escaped(b),
    decreases a.len(),
{
    if a.len() == 0 {
        assert(a + b =~= b);
        assert(html_escaped(a) + html_escaped(b) =~= html_escaped(b));
    } else {
        assert((a + b).drop_first() =~= a.drop_first() + b);
        law_escape_of_a_join(a.drop_first(), b);
        assert(html_escaped(a + b) =~= html_escaped(a) + html_escaped(b));
    }
}

/// A text with every occurrence of `p`, from the front, replaced by a character.
pub open spec fn each_replaced(s: Seq<char>, p: Seq<char>, by: char) -> Seq<char>
    decreases s.len(),
{
    if s.len() == 0 {
        s
    } else if p.len() > 0 && text::begins_with(s, p) {
        seq![by] + each_replaced(s.skip(p.len() as int), p, by)
    } else {
        seq![s[0]] + each_replaced(s.drop_first(), p, by)
    }
}

/// A text with the entities replaced by the characters they stand for, the ampersand last.
pub open spec fn html_unescaped(s: Seq<char>) -> Seq<char> {
    each_replaced(
        each_replaced(
            each_replaced(
                each_replaced(each_replaced(s, "&lt;"@, '<'), "&gt;"@, '>'),
                "&quot;"@,
                '"',
            ),
            "&#39;"@,
            '\'',
        ),
        "&amp;"@,
        '&',
    )
}

/// The characters that have entities, in the order in which the entities are replaced.
spec fn rank(c: char) -> int {
    if c == '<' {
        0
    } else if c == '>' {
        1
    } else if c == '"' {
        2
    } else if c == '\'' {
        3
    } else if c == '&' {
        4
    } else {
        -1
    }
}

/// A text with only those characters escaped whose entities have not been replaced yet.
spec fn escaped_from(s: Seq<char>, k: int) -> Seq<char>
    decreases s.len(),
{
    if s.len() == 0 {
        Seq::empty()
    } else {
        (if rank(s[0]) >= k {
            html_entity(s[0])
        } else {
            seq![s[0]]
        }) + escaped_from(s.drop_first(), k)
    }
}

/// Before the first replacement all are escaped, after the last none is.
proof fn lemma_escaped_from_ends(s: Seq<char>)
    ensures
        escaped_from(s, 0) == html_escaped(s),
        escaped_from(s, 5) == s,
    decreases s.len(),
{
    if s.len() > 0 {
        lemma_escaped_from_ends(s.drop_first());
        assert(seq![s[0]] + s.drop_first() =~= s);
    } else {
        assert(escaped_from(s, 5) =~= s);
    }
}

/// What holds no ampersand is passed over.
proof fn lemma_passed_over(u: Seq<char>, t: Seq<char>, p: Seq<char>, by: char)
    requires
        p.len() > 0,
        p[0] == '&',
        forall|i: int| 0 <= i < u.len() ==> #[trigger] u[i] != '&',
    ensures
        each_replaced(u + t, p, by) == u + each_replaced(t, p, by),
    decreases u.len(),
{
    if u.len() == 0 {
        assert(u + t =~= t);
        assert(u + each_replaced(t, p, by) =~= each_replaced(t, p, by));
    } else {
        let s = u + t;
        if text::begins_with(s, p) {
            assert(s.take(p.len() as int)[0] == p[0]);
            assert(s[0] == u[0]);
        }
        assert(s.drop_first() =~= u.drop_first() + t);
        assert forall|i: int| 0 <= i < u.drop_first().len() implies #[trigger] u.drop_first()[i]
            != '&' by {
            assert(u.drop_first()[i] == u[i + 1]);
        }
        lemma_passed_over(u.drop_first(), t, p, by);
        assert(seq![s[0]] + (u.drop_first() + each_replaced(t, p, by)) =~= u + each_replaced(
            t,
            p,
            by,
        ));
    }
}

/// Another entity is passed over.
proof fn lemma_entity_passed_over(e: Seq<char>, t: Seq<char>, p: Seq<char>, by: char)
    requires
        p.len() > 1,
        p[0] == '&',
        e.len() > 1,
        e[0] == '&',
        e[1] != p[1],
        forall|i: int| 1 <= i < e.len() ==> #[trigger] e[i] != '&',
    ensures
        each_replaced(e + t, p, by) == e + each_replaced(t, p, by),
{
    let s = e + t;
    if text::begins_with(s, p) {
        assert(s.take(p.len() as int)[1] == p[1]);
        assert(s[1] == e[1]);
    }
    let u = e.drop_first();
    assert(s.drop_first() =~= u + t);
    assert forall|i: int| 0 <= i < u.len() implies #[trigger] u[i] != '&' by {
        assert(u[i] == e[i + 1]);
    }
    lemma_passed_over(u, t, p, by);
    assert(seq![s[0]] + (u + each_replaced(t, p, by)) =~= e + each_replaced(t, p, by));
}

/// One replacement gives back one of the characters.
proof fn lemma_one_given_back(s: Seq<char>, k: int, c: char)
    requires
        0 <= k < 5,
        rank(c) == k,
    ensures
        each_replaced(escaped_from(s, k), html_entity(c), c) == escaped_from(s, k + 1),
    decreases s.len(),
{
    reveal_strlit("&amp;");
    reveal_strlit("&lt;");
    reveal_strlit("&gt;");
    reveal_strlit("&quot;");
    reveal_strlit("&#39;");
    if s.len() > 0 {
        let p = html_entity(c);
        let t = escaped_from(s.drop_first(), k);
        let x = s[0];
        lemma_one_given_back(s.drop_first(), k, c);
        if rank(x) == k {
            assert(x == c);
            let whole = p + t;
            assert(whole.take(p.len() as int) =~= p);
            assert(whole.skip(p.len() as int) =~= t);
            assert(text::begins_with(whole, p));
        } else if rank(x) > k {
            lemma_entity_passed_over(html_entity(x), t, p, c);
        } else {
            assert(x != '&');
            lemma_passed_over(seq![x], t, p, c);
        }
    }
}

/// Replacing the entities of an escaped text gives the text back.
pub proof fn law_escaped_is_given_back(s: Seq<char>)
    ensures
        html_unescaped(html_escaped(s)) == s,
{
    lemma_escaped_from_ends(s);
    lemma_one_given_back(s, 0, '<');
    lemma_one_given_back(s, 1, '>');
    lemma_one_given_back(s, 2, '"');
    lemma_one_given_back(s, 3, '\'');
    lemma_one_given_back(s, 4, '&');
}

/// A title that is a file name already is left as it is: one that is not empty, holds no forbidden
/// character, and neither begins nor ends with white space.
pub proof fn law_clean_title_stays(title: Seq<char>)
    requires
        title.len() > 0,
        forall|i: int| 0 <= i < title.len() ==> !forbidden(#[trigger] title[i]),
        !text::is_space(title[0]),
        !text::is_space(title.last()),
    ensures
        sanitized(title) == title,
{
    assert forall|i: int| 0 <= i < title.len() implies file_name_char(#[trigger] title[i])
        == title[i] by {
        assert(!forbidden(title[i]));
    }
    assert(file_name_chars(title) =~= title);
    text::lemma_strip_keeps(title, text::CharSet::Space);
}

/// Forbidden characters are replaced one for one, and all others stay: where a title neither
/// begins nor ends with white space, its file name has the same length and the same characters,
/// but for the forbidden ones; different ones, line breaks and tabs aside, are replaced by
/// different ones.
pub proof fn law_only_forbidden_characters_change(title: Seq<char>)
    requires
        title.len() > 0,
        !text::is_space(title[0]),
        !text::is_space(title.last()),
    ensures
        sanitized(title).len() == title.len(),
        forall|i: int|
            0 <= i < title.len() && !forbidden(title[i]) ==> #[trigger] sanitized(title)[i]
                == title[i],
        forall|i: int, j: int|
            0 <= i < title.len() && 0 <= j < title.len() && forbidden(title[i]) && forbidden(
                title[j],
            ) && !text::is_space(title[i]) && !text::is_space(title[j]) ==> (
            #[trigger] sanitized(title)[i] == #[trigger] sanitized(title)[j] <==> title[i]
                == title[j]),
{
    let m = file_name_chars(title);
    assert(m[0] == file_name_char(title[0]));
    assert(m.last() == file_name_char(title.last()));
    assert(!text::is_space(m[0]) && !text::is_space(m.last()));
    text::lemma_strip_keeps(m, text::CharSet::Space);
}

/// A node is shown under the file name of its name; a link with the extension `.url` behind it,
/// and a node without a name as empty.
pub proof fn law_node_is_shown_under_its_name(n: Json)
    ensures
        n.text_member("name"@) matches Some(name) && n.type_is("url"@) ==> display_name(n)
            == sanitized(n.text_member("name"@)->0) + ".url"@,
        n.text_member("name"@) is Some && !n.type_is("url"@) ==> display_name(n) == sanitized(
            n.text_member("name"@)->0,
        ),
        n.text_member("name"@) is None ==> text::begins_with(display_name(n), "(empty)"@),
{
    reveal_strlit("url");
    reveal_strlit("");
    reveal_strlit("(empty)");
    assert("url"@.len() == 3 && ""@.len() == 0);
    if n.text_member("name"@) is None {
        let e = "(empty)"@;
        assert(file_name_chars(e) =~= e);
        text::lemma_strip_keeps(e, text::CharSet::Space);
        assert(sanitized(e) == e);
        assert((e + ".url"@).take(e.len() as int) =~= e);
        assert(e.take(e.len() as int) =~= e);
    }
}

/// A child is below its parent.
pub proof fn lemma_child_below(n: Doc, i: int)
    requires
        children_of(n@) is Some,
        0 <= i < children_of(n@)->0.len(),
    ensures
        decreases_to!(n@ => children_of(n@)->0[i]),
{
    let c = children_of(n@)->0;
    let m = n@->Object_0;
    if let Doc::Object(members) = n {
        value::lemma_members_finite(members@);
    }
    assert(decreases_to!(n@ => m));
    assert(decreases_to!(m => m["children"@]));
    let a = m["children"@];
    assert(a == Json::Array(c));
    assert(decreases_to!(a => a->Array_0));
    assert(decreases_to!(c => c[i]));
}

} // verus!

//! Bookmarks as HTML in the Netscape format, and as lines of tab-separated texts.
use vstd::prelude::*;
use vstd::string::*;
use crate::fault::{CommandError, Fault, Reason};
use crate::node;
use crate::node::{
    escape_html, node_is_folder, node_is_link, node_name, ISOLATE_FOLDER_NAME, TRASH_FOLDER_NAME,
};
use crate::number;
use crate::number::signed_text;
use crate::place;
use crate::place::PlaceView;
use crate::text;
use crate::text::{eq_ignore_ascii_case, replace_set, text_eq, trim, CharSet};
use crate::time;
use crate::time::{chromium_time_to_unix_secs, local_now, FILE_PATTERN};
use crate::tree;
use crate::tree::root_folder_ref;
use crate::value;
use crate::value::{Doc, Json};

verus! {

// ---------------------------------------------------------------------------
// HTML
// ---------------------------------------------------------------------------

/// One step of indentation.
pub const INDENT: &'static str = "    ";

/// The folder is a trash folder.
pub open spec fn is_trash(n: Json) -> bool {
    node::is_folder(n) && (node::name_of(n) == TRASH_FOLDER_NAME@ || text::same_ignoring_case(
        node::name_of(n),
        "trash"@,
    ))
}

/// An attribute with the seconds of a stamp, where the stamp has any.
pub open spec fn date_attribute(label: Seq<char>, stamp: Option<Seq<char>>) -> Seq<char> {
    match time::unix_secs_of(stamp) {
        Some(secs) => label + number::signed_decimal(secs) + "\""@,
        None => ""@,
    }
}

/// The lines that open a folder.
pub open spec fn folder_head(n: Json, indent: Seq<char>) -> Seq<char> {
    indent + "<DT><H3"@ + date_attribute(" ADD_DATE=\""@, n.text_member("date_added"@))
        + date_attribute(" LAST_MODIFIED=\""@, n.text_member("date_modified"@)) + ">"@
        + node::html_escaped(node::name_of(n)) + "</H3>\n"@ + indent + "<DL><p>\n"@
}

/// The line of a link.
pub open spec fn link_line(n: Json, indent: Seq<char>) -> Seq<char> {
    indent + "<DT><A HREF=\""@ + node::html_escaped(node::text_or(n, "url"@, ""@)) + "\""@
        + date_attribute(" ADD_DATE=\""@, n.text_member("date_added"@)) + ">"@
        + node::html_escaped(node::name_of(n)) + "</A>\n"@
}

/// A node and all below it as HTML. A clean export leaves out trash folders.
pub open spec fn node_html(n: Json, indent: Seq<char>, with_trash: bool) -> Seq<char>
    decreases n, 0int,
{
    if !with_trash && is_trash(n) {
        ""@
    } else if node::is_folder(n) {
        let inner = match n {
            Json::Object(o) => if o.dom().contains("children"@) {
                match o["children"@] {
                    Json::Array(c) => nodes_html(c, c.len() as int, indent + INDENT@, with_trash),
                    _ => ""@,
                }
            } else {
                ""@
            },
            _ => ""@,
        };
        folder_head(n, indent) + inner + indent + "</DL><p>\n"@
    } else if node::is_link(n) {
        link_line(n, indent)
    } else {
        ""@
    }
}

/// The first `k` nodes of a list and all below them as HTML.
pub open spec fn nodes_html(nodes: Seq<Json>, k: int, indent: Seq<char>, with_trash: bool) -> Seq<
    char,
>
    decreases nodes, k,
{
    if k <= 0 || k > nodes.len() {
        ""@
    } else {
        nodes_html(nodes, k - 1, indent, with_trash) + node_html(nodes[k - 1], indent, with_trash)
    }
}

/// Adds an attribute with the seconds of a stamp, where the stamp has any.
fn push_date(out: &mut String, label: &str, stamp: Option<&str>)
    ensures
        final(out)@ == old(out)@ + date_attribute(
            label@,
            text::maybe(stamp),
        ),
{
    proof {
        reveal_strlit("");
        assert(out@ + ""@ =~= out@);
    }
    if let Some(secs) = chromium_time_to_unix_secs(stamp) {
        let ghost before = out@;
        out.append(label);
        out.append(signed_text(secs).as_str());
        out.append("\"");
        assert(out@ =~= before + (label@ + number::signed_decimal(secs as int) + "\""@));
    }
}

/// Adds the lines that open a folder.
fn push_folder_head(out: &mut String, n: &Doc, indent: &str)
    ensures
        final(out)@ == old(out)@ + folder_head(n@, indent@),
{
    let ghost start = out@;
    out.append(indent);
    out.append("<DT><H3");
    push_date(out, " ADD_DATE=\"", n.get_str("date_added"));
    push_date(out, " LAST_MODIFIED=\"", n.get_str("date_modified"));
    out.append(">");
    out.append(escape_html(node_name(n)).as_str());
    out.append("</H3>\n");
    out.append(indent);
    out.append("<DL><p>\n");
    assert(out@ =~= start + folder_head(n@, indent@));
}

/// Adds the line of a link.
fn push_link(out: &mut String, n: &Doc, indent: &str)
    ensures
        final(out)@ == old(out)@ + link_line(n@, indent@),
{
    let ghost start = out@;
    out.append(indent);
    out.append("<DT><A HREF=\"");
    let url: &str = match n.get_str("url") {
        Some(u) => u,
        None => "",
    };
    out.append(escape_html(url).as_str());
    out.append("\"");
    push_date(out, " ADD_DATE=\"", n.get_str("date_added"));
    out.append(">");
    out.append(escape_html(node_name(n)).as_str());
    out.append("</A>\n");
    assert(out@ =~= start + link_line(n@, indent@));
}

/// Adds a node and all below it as HTML.
pub fn export_node_html(out: &mut String, n: &Doc, indent: &str, include_trash: bool)
    ensures
        final(out)@ == old(out)@ + node_html(n@, indent@, include_trash),
    decreases n@,
{
    let ghost start = out@;
    proof {
        reveal_strlit("");
        assert(start + ""@ =~= start);
    }
    let folder: bool = node_is_folder(n);
    let name: &str = node_name(n);
    if !include_trash && folder && (text_eq(name, TRASH_FOLDER_NAME) || eq_ignore_ascii_case(
        name,
        "trash",
    )) {
        return;
    }
    if folder {
        push_folder_head(out, n, indent);
        let ghost opened = out@;
        let ghost inner: Seq<char> = ""@;
        assert(opened + inner =~= opened);
        if let Some(children) = n.get_array("children") {
            let mut deeper: String = indent.to_owned();
            deeper.append(INDENT);
            let ghost c = value::items_of(children@);
            let mut i: usize = 0;
            while i < children.len()
                invariant
                    i <= children@.len(),
                    c == value::items_of(children@),
                    node::children_of(n@) == Some(c),
                    deeper@ == indent@ + INDENT@,
                    out@ == opened + nodes_html(c, i as int, deeper@, include_trash),
                decreases children.len() - i,
            {
                let child: &Doc = &children[i];
                assert(c[i as int] == child@);
                proof {
                    node::lemma_child_below(*n, i as int);
                }
                export_node_html(out, child, deeper.as_str(), include_trash);
                assert(out@ =~= opened + nodes_html(c, i + 1, deeper@, include_trash));
                i += 1;
            }
            proof {
                inner = nodes_html(c, c.len() as int, deeper@, include_trash);
            }
        }
        assert(out@ == opened + inner);
        out.append(indent);
        out.append("</DL><p>\n");
        assert(out@ =~= start + (folder_head(n@, indent@) + inner + indent@ + "</DL><p>\n"@));
    } else if node_is_link(n) {
        push_link(out, n, indent);
    }
}

/// How the HTML file begins.
pub const HTML_HEAD: &'static str = "<!DOCTYPE NETSCAPE-Bookmark-file-1>\n<!-- This is an automatically generated file.\n     It will be read and overwritten.\n     DO NOT EDIT! -->\n<META HTTP-EQUIV=\"Content-Type\" CONTENT=\"text/html; charset=UTF-8\">\n<TITLE>Bookmarks</TITLE>\n<H1>Bookmarks</H1>\n<DL><p>\n";

/// A root folder as HTML.
pub open spec fn root_html(doc: Json, key: Seq<char>, with_trash: bool) -> Seq<char> {
    match tree::root_folder(doc, key) {
        Some(root) => node_html(root, INDENT@, with_trash),
        None => ""@,
    }
}

/// The HTML file of a document; the history is not part of it.
pub open spec fn html_file(doc: Json, with_trash: bool) -> Result<Seq<char>, Fault> {
    if doc.member("roots"@) is None {
        Err(Fault { reason: Reason::NoRoots, detail: ""@ })
    } else {
        Ok(
            HTML_HEAD@ + root_html(doc, "bookmark_bar"@, with_trash) + root_html(
                doc,
                "other"@,
                with_trash,
            ) + root_html(doc, "menu"@, with_trash) + "</DL><p>\n"@,
        )
    }
}

/// Adds a root folder as HTML.
fn export_root(out: &mut String, val: &Doc, key: &str, include_trash: bool)
    ensures
        final(out)@ == old(out)@ + root_html(val@, key@, include_trash),
{
    proof {
        reveal_strlit("");
        assert(out@ + ""@ =~= out@);
    }
    if let Some(root) = root_folder_ref(val, key) {
        export_node_html(out, root, INDENT, include_trash);
    }
}

/// The HTML file of a document.
pub fn export_html(val: &Doc, include_trash: bool) -> (r: Result<String, CommandError>)
    ensures
        match r {
            Ok(s) => html_file(val@, include_trash) == Ok::<Seq<char>, Fault>(s@),
            Err(e) => html_file(val@, include_trash) == Err::<Seq<char>, Fault>(e@),
        },
{
    if val.get("roots").is_none() {
        return Err(CommandError::new(Reason::NoRoots, ""));
    }
    let mut out: String = HTML_HEAD.to_owned();
    export_root(&mut out, val, "bookmark_bar", include_trash);
    export_root(&mut out, val, "other", include_trash);
    export_root(&mut out, val, "menu", include_trash);
    out.append("</DL><p>\n");
    Ok(out)
}

/// The name of the HTML file where none is given.
pub open spec fn default_file(profile_name: Seq<char>, now: Seq<char>, with_trash: bool) -> Seq<
    char,
> {
    profile_name + "_bookmarks_"@ + now + "_"@ + (if with_trash {
        "all"@
    } else {
        "clean"@
    }) + ".html"@
}

/// The name of the HTML file where none is given.
pub fn export_file_name(profile_name: &str, now: &str, include_trash: bool) -> (r: String)
    ensures
        r@ == default_file(profile_name@, now@, include_trash),
{
    let mut out: String = profile_name.to_owned();
    out.append("_bookmarks_");
    out.append(now);
    out.append("_");
    out.append(
        if include_trash {
            "all"
        } else {
            "clean"
        },
    );
    out.append(".html");
    out
}

/// The name of the HTML file where none is given, at the time of the clock.
pub fn export_file_now(profile_name: &str, include_trash: bool) -> (r: String)
    ensures
        exists|now: Seq<char>|
            time::is_clock_text(now, FILE_PATTERN@) && r@ == #[trigger] default_file(
                profile_name@,
                now,
                include_trash,
            ),
{
    let now: String = local_now(FILE_PATTERN);
    let out: String = export_file_name(profile_name, now.as_str(), include_trash);
    assert(out@ == default_file(profile_name@, now@, include_trash));
    out
}

/// The message on a finished export; `file` is the name of the file as it is shown.
pub open spec fn done_message(profile_name: Seq<char>, with_trash: bool, file: Seq<char>) -> Seq<
    char,
> {
    "Exported ["@ + profile_name + "] bookmarks ("@ + (if with_trash {
        "all (including trash)"@
    } else {
        "clean (trash excluded)"@
    }) + ") successfully to "@ + file + "\n"@
}

/// The message on a finished export; `file` is the name of the file as it is shown.
pub fn export_message(profile_name: &str, include_trash: bool, file: &str) -> (r: String)
    ensures
        r@ == done_message(profile_name@, include_trash, file@),
{
    let mut out: String = "Exported [".to_owned();
    out.append(profile_name);
    out.append("] bookmarks (");
    out.append(
        if include_trash {
            "all (including trash)"
        } else {
            "clean (trash excluded)"
        },
    );
    out.append(") successfully to ");
    out.append(file);
    out.append("\n");
    out
}

// ---------------------------------------------------------------------------
// Tab-separated lines
// ---------------------------------------------------------------------------

/// The folder is left out of the lines.
pub open spec fn is_left_out(n: Json) -> bool {
    node::is_folder(n) && (node::name_of(n) == TRASH_FOLDER_NAME@ || node::name_of(n)
        == ISOLATE_FOLDER_NAME@ || text::same_ignoring_case(node::name_of(n), "trash"@))
}

/// The characters that a field cannot hold.
pub open spec fn breaks() -> CharSet {
    CharSet::Three('\t', '\r', '\n')
}

/// The line of a link: its name, its address, the browser and the path of its folder. Links
/// without an address have none.
pub open spec fn link_fields(n: Json, profile_name: Seq<char>, folder: Seq<char>) -> Seq<char> {
    match n.text_member("url"@) {
        Some(url) => if text::trimmed(url).len() > 0 {
            text::replaced(node::name_of(n), breaks(), " "@) + "\t"@ + text::replaced(
                text::trimmed(url),
                breaks(),
                ""@,
            ) + "\t"@ + profile_name + "\t"@ + text::replaced(folder, breaks(), " "@) + "\n"@
        } else {
            ""@
        },
        None => ""@,
    }
}

/// The path of a folder in the folder at another path.
pub open spec fn folder_below(folder: Seq<char>, name: Seq<char>) -> Seq<char> {
    if folder.len() == 0 {
        name
    } else {
        folder + "/"@ + name
    }
}

/// The lines of a node and all below it.
pub open spec fn node_lines(n: Json, profile_name: Seq<char>, folder: Seq<char>) -> Seq<char>
    decreases n, 0int,
{
    if is_left_out(n) {
        ""@
    } else if node::is_link(n) {
        link_fields(n, profile_name, folder)
    } else if node::is_folder(n) {
        match n {
            Json::Object(o) => if o.dom().contains("children"@) {
                match o["children"@] {
                    Json::Array(c) => nodes_lines(
                        c,
                        c.len() as int,
                        profile_name,
                        folder_below(folder, node::name_of(n)),
                    ),
                    _ => ""@,
                }
            } else {
                ""@
            },
            _ => ""@,
        }
    } else {
        ""@
    }
}

/// The lines of the first `k` nodes of a list and all below them.
pub open spec fn nodes_lines(nodes: Seq<Json>, k: int, profile_name: Seq<char>, folder: Seq<char>) -> Seq<
    char,
>
    decreases nodes, k,
{
    if k <= 0 || k > nodes.len() {
        ""@
    } else {
        nodes_lines(nodes, k - 1, profile_name, folder) + node_lines(
            nodes[k - 1],
            profile_name,
            folder,
        )
    }
}

/// Adds the lines of a node and all below it.
pub fn dump_node_tsv(out: &mut String, profile_name: &str, folder: &str, n: &Doc)
    ensures
        final(out)@ == old(out)@ + node_lines(n@, profile_name@, folder@),
    decreases n@,
{
    let ghost start = out@;
    proof {
        reveal_strlit("");
        assert(start + ""@ =~= start);
    }
    let is_folder: bool = node_is_folder(n);
    let name: &str = node_name(n);
    if is_folder && (text_eq(name, TRASH_FOLDER_NAME) || text_eq(name, ISOLATE_FOLDER_NAME)
        || eq_ignore_ascii_case(name, "trash")) {
        return;
    }
    if node_is_link(n) {
        if let Some(url) = n.get_str("url") {
            let trimmed: &str = trim(url);
            if !trimmed.is_empty() {
                out.append(replace_set(name, CharSet::Three('\t', '\r', '\n'), " ").as_str());
                out.append("\t");
                out.append(replace_set(trimmed, CharSet::Three('\t', '\r', '\n'), "").as_str());
                out.append("\t");
                out.append(profile_name);
                out.append("\t");
                out.append(replace_set(folder, CharSet::Three('\t', '\r', '\n'), " ").as_str());
                out.append("\n");
                assert(out@ =~= start + link_fields(n@, profile_name@, folder@));
            }
        }
    } else if is_folder {
        let below: String = if folder.is_empty() {
            name.to_owned()
        } else {
            let mut b: String = folder.to_owned();
            b.append("/");
            b.append(name);
            b
        };
        if let Some(children) = n.get_array("children") {
            let ghost c = value::items_of(children@);
            let mut i: usize = 0;
            while i < children.len()
                invariant
                    i <= children@.len(),
                    c == value::items_of(children@),
                    node::children_of(n@) == Some(c),
                    below@ == folder_below(folder@, node::name_of(n@)),
                    out@ == start + nodes_lines(c, i as int, profile_name@, below@),
                decreases children.len() - i,
            {
                let child: &Doc = &children[i];
                assert(c[i as int] == child@);
                proof {
                    node::lemma_child_below(*n, i as int);
                }
                dump_node_tsv(out, profile_name, below.as_str(), child);
                assert(out@ =~= start + nodes_lines(c, i + 1, profile_name@, below@));
                i += 1;
            }
        }
    }
}

/// The lines of a root folder.
pub open spec fn root_lines(doc: Json, key: Seq<char>, profile_name: Seq<char>) -> Seq<char> {
    match tree::root_folder(doc, key) {
        Some(root) => node_lines(root, profile_name, ""@),
        None => ""@,
    }
}

/// The lines of a document, the history after the bookmarks.
pub open spec fn doc_lines(doc: Json, profile_name: Seq<char>) -> Seq<char> {
    root_lines(doc, "bookmark_bar"@, profile_name) + root_lines(doc, "other"@, profile_name)
        + root_lines(doc, "menu"@, profile_name) + root_lines(doc, "history"@, profile_name)
}

/// Adds the lines of a root folder.
fn dump_root(out: &mut String, val: &Doc, key: &str, profile_name: &str)
    ensures
        final(out)@ == old(out)@ + root_lines(val@, key@, profile_name@),
{
    proof {
        reveal_strlit("");
        assert(out@ + ""@ =~= out@);
    }
    if let Some(root) = root_folder_ref(val, key) {
        dump_node_tsv(out, profile_name, "", root);
    }
}

/// The lines of a document.
pub fn dump_tsv(val: &Doc, profile_name: &str) -> (r: String)
    ensures
        r@ == doc_lines(val@, profile_name@),
{
    let mut out: String = "".to_owned();
    proof {
        reveal_strlit("");
        let a = root_lines(val@, "bookmark_bar"@, profile_name@);
        assert(""@ + a =~= a);
    }
    dump_root(&mut out, val, "bookmark_bar", profile_name);
    dump_root(&mut out, val, "other", profile_name);
    dump_root(&mut out, val, "menu", profile_name);
    dump_root(&mut out, val, "history", profile_name);
    out
}

// ---------------------------------------------------------------------------
// Laws
// ---------------------------------------------------------------------------

/// A node without the trash folders below it.
pub open spec fn cleaned(n: Json) -> Json
    decreases n, 0int,
{
    match n {
        Json::Object(o) => if o.dom().contains("children"@) {
            match o["children"@] {
                Json::Array(c) => Json::Object(
                    o.insert("children"@, Json::Array(cleaned_list(c, c.len() as int))),
                ),
                _ => n,
            }
        } else {
            n
        },
        _ => n,
    }
}

/// The first `k` nodes of a list without trash folders in and below them.
pub open spec fn cleaned_list(nodes: Seq<Json>, k: int) -> Seq<Json>
    decreases nodes, k,
{
    if k <= 0 || k > nodes.len() {
        Seq::empty()
    } else if is_trash(nodes[k - 1]) {
        cleaned_list(nodes, k - 1)
    } else {
        cleaned_list(nodes, k - 1).push(cleaned(nodes[k - 1]))
    }
}

/// The first nodes give the same text in a longer list.
proof fn lemma_nodes_prefix(nodes: Seq<Json>, x: Json, k: int, indent: Seq<char>, with_trash: bool)
    requires
        k <= nodes.len(),
    ensures
        nodes_html(nodes.push(x), k, indent, with_trash) == nodes_html(
            nodes,
            k,
            indent,
            with_trash,
        ),
    decreases k,
{
    if k > 0 {
        lemma_nodes_prefix(nodes, x, k - 1, indent, with_trash);
    }
}

/// A clean export is the full export of what is left when all trash folders are taken out.
pub proof fn law_clean_export_leaves_out_the_trash(n: Json, indent: Seq<char>)
    ensures
        is_trash(n) ==> node_html(n, indent, false) == ""@,
        !is_trash(n) ==> node_html(n, indent, false) == node_html(cleaned(n), indent, true),
    decreases n, 0int,
{
    reveal_strlit("children");
    reveal_strlit("type");
    reveal_strlit("name");
    reveal_strlit("url");
    reveal_strlit("date_added");
    reveal_strlit("date_modified");
    assert("children"@.len() == 8 && "type"@.len() == 4 && "name"@.len() == 4);
    assert("url"@.len() == 3 && "date_added"@.len() == 10 && "date_modified"@.len() == 13);
    let t = cleaned(n);
    assert(t.text_member("type"@) == n.text_member("type"@));
    assert(t.text_member("name"@) == n.text_member("name"@));
    assert(t.text_member("url"@) == n.text_member("url"@));
    assert(t.text_member("date_added"@) == n.text_member("date_added"@));
    assert(t.text_member("date_modified"@) == n.text_member("date_modified"@));
    if let Json::Object(o) = n {
        if o.dom().contains("children"@) {
            if let Json::Array(c) = o["children"@] {
                lemma_clean_nodes(c, c.len() as int, indent + INDENT@);
            }
        }
    }
}

/// The clean export of a list of nodes is the full export of the cleaned list.
proof fn lemma_clean_nodes(nodes: Seq<Json>, k: int, indent: Seq<char>)
    requires
        0 <= k <= nodes.len(),
    ensures
        nodes_html(nodes, k, indent, false) == nodes_html(
            cleaned_list(nodes, k),
            cleaned_list(nodes, k).len() as int,
            indent,
            true,
        ),
    decreases nodes, k,
{
    if k > 0 {
        let n = nodes[k - 1];
        let before = cleaned_list(nodes, k - 1);
        lemma_clean_nodes(nodes, k - 1, indent);
        law_clean_export_leaves_out_the_trash(n, indent);
        if is_trash(n) {
            reveal_strlit("");
            let s = nodes_html(nodes, k - 1, indent, false);
            assert(s + ""@ =~= s);
        } else {
            lemma_nodes_prefix(before, cleaned(n), before.len() as int, indent, true);
        }
    }
}

/// A text holds no tab and no line break.
pub open spec fn is_one_field(s: Seq<char>) -> bool {
    forall|i: int| 0 <= i < s.len() ==> !breaks().has(#[trigger] s[i])
}

/// Replacing tabs and line breaks leaves none.
proof fn lemma_replaced_is_one_field(s: Seq<char>, by: Seq<char>)
    requires
        is_one_field(by),
    ensures
        is_one_field(text::replaced(s, breaks(), by)),
    decreases s.len(),
{
    if s.len() > 0 {
        lemma_replaced_is_one_field(s.drop_last(), by);
    }
}

/// Every line has four fields: the tabs in it are the three between them, and the line break is
/// the one at its end. The name of the browser must hold neither.
pub proof fn law_line_has_four_fields(n: Json, profile_name: Seq<char>, folder: Seq<char>)
    requires
        is_one_field(profile_name),
        link_fields(n, profile_name, folder) != ""@,
    ensures
        exists|name: Seq<char>, url: Seq<char>, at: Seq<char>|
            is_one_field(name) && is_one_field(url) && is_one_field(at) && link_fields(
                n,
                profile_name,
                folder,
            ) == #[trigger] four_fields(name, url, profile_name, at),
{
    reveal_strlit(" ");
    reveal_strlit("");
    assert(!breaks().has(' '));
    assert(is_one_field(" "@));
    assert(is_one_field(""@));
    let url = n.text_member("url"@)->0;
    let a = text::replaced(node::name_of(n), breaks(), " "@);
    let b = text::replaced(text::trimmed(url), breaks(), ""@);
    let d = text::replaced(folder, breaks(), " "@);
    lemma_replaced_is_one_field(node::name_of(n), " "@);
    lemma_replaced_is_one_field(text::trimmed(url), ""@);
    lemma_replaced_is_one_field(folder, " "@);
    assert(link_fields(n, profile_name, folder) == four_fields(a, b, profile_name, d));
}

/// Four fields in a line.
pub open spec fn four_fields(a: Seq<char>, b: Seq<char>, c: Seq<char>, d: Seq<char>) -> Seq<char> {
    a + "\t"@ + b + "\t"@ + c + "\t"@ + d + "\n"@
}

/// Links in the trash or among the dead links have no line.
pub proof fn law_discarded_links_have_no_line(
    n: Json,
    profile_name: Seq<char>,
    folder: Seq<char>,
)
    requires
        is_left_out(n),
    ensures
        node_lines(n, profile_name, folder) == ""@,
{
}

/// The text holds a part.
#[verifier::opaque]
pub open spec fn has_part(t: Seq<char>, part: Seq<char>) -> bool {
    exists|a: Seq<char>, b: Seq<char>| t == #[trigger] (a + part + b)
}

/// What stands in a text is part of it.
pub proof fn lemma_is_part(t: Seq<char>, a: Seq<char>, part: Seq<char>, b: Seq<char>)
    requires
        t =~= a + part + b,
    ensures
        has_part(t, part),
{
    reveal(has_part);
    assert(t == a + part + b);
}

/// What a part holds, the whole holds.
proof fn lemma_part_of_part(t: Seq<char>, u: Seq<char>, part: Seq<char>)
    requires
        has_part(t, u),
        has_part(u, part),
    ensures
        has_part(t, part),
{
    reveal(has_part);
    let (a, b) = choose|a: Seq<char>, b: Seq<char>| t == #[trigger] (a + u + b);
    let (x, y) = choose|x: Seq<char>, y: Seq<char>| u == #[trigger] (x + part + y);
    assert(t =~= (a + x) + part + (y + b));
}

/// The attribute of a date: the seconds of its stamp, and nothing where the stamp has none.
pub open spec fn expected_date(label: Seq<char>, stamp: Option<Seq<char>>) -> Seq<char> {
    match time::unix_secs_of(stamp) {
        Some(secs) => " "@ + label + "=\""@ + number::signed_decimal(secs) + "\""@,
        None => Seq::empty(),
    }
}

/// The element of a link: its address, the date of its addition and its name.
pub open spec fn link_element(n: Json) -> Seq<char> {
    let url = match n.text_member("url"@) {
        Some(url) => url,
        None => Seq::empty(),
    };
    let name = match n.text_member("name"@) {
        Some(name) => name,
        None => Seq::empty(),
    };
    "<A HREF=\""@ + node::html_escaped(url) + "\""@ + expected_date(
        "ADD_DATE"@,
        n.text_member("date_added"@),
    ) + ">"@ + node::html_escaped(name) + "</A>"@
}

/// The element of a folder: the dates of its addition and of its last change, and its name.
pub open spec fn folder_element(n: Json) -> Seq<char> {
    let name = match n.text_member("name"@) {
        Some(name) => name,
        None => Seq::empty(),
    };
    "<H3"@ + expected_date("ADD_DATE"@, n.text_member("date_added"@)) + expected_date(
        "LAST_MODIFIED"@,
        n.text_member("date_modified"@),
    ) + ">"@ + node::html_escaped(name) + "</H3>"@
}

/// The labels of dates.
proof fn lemma_dates(stamp: Option<Seq<char>>)
    ensures
        date_attribute(" ADD_DATE=\""@, stamp) == expected_date("ADD_DATE"@, stamp),
        date_attribute(" LAST_MODIFIED=\""@, stamp) == expected_date("LAST_MODIFIED"@, stamp),
{
    reveal_strlit("");
    reveal_strlit(" ");
    reveal_strlit("=\"");
    reveal_strlit("ADD_DATE");
    reveal_strlit("LAST_MODIFIED");
    reveal_strlit(" ADD_DATE=\"");
    reveal_strlit(" LAST_MODIFIED=\"");
    assert(" ADD_DATE=\""@ =~= " "@ + "ADD_DATE"@ + "=\""@);
    assert(" LAST_MODIFIED=\""@ =~= " "@ + "LAST_MODIFIED"@ + "=\""@);
    assert(""@ =~= Seq::<char>::empty());
}

/// A link is exported as one line with its element.
#[verifier::rlimit(40)]
pub proof fn law_link_is_one_line(n: Json, indent: Seq<char>, with_trash: bool)
    requires
        n.type_is("url"@),
    ensures
        node_html(n, indent, with_trash) == indent + "<DT>"@ + link_element(n) + "\n"@,
{
    reveal_strlit("");
    reveal_strlit("url");
    reveal_strlit("folder");
    reveal_strlit("<DT>");
    reveal_strlit("<A HREF=\"");
    reveal_strlit("<DT><A HREF=\"");
    reveal_strlit("</A>");
    reveal_strlit("</A>\n");
    reveal_strlit("\n");
    assert("url"@.len() == 3 && "folder"@.len() == 6);
    lemma_dates(n.text_member("date_added"@));
    assert("<DT><A HREF=\""@ =~= "<DT>"@ + "<A HREF=\""@);
    assert("</A>\n"@ =~= "</A>"@ + "\n"@);
    assert(""@ =~= Seq::<char>::empty());
    assert(link_line(n, indent) =~= indent + "<DT>"@ + link_element(n) + "\n"@);
}

/// A folder is exported as the line of its element and a list with what its children are exported
/// as, four blanks further in. Only trash folders are left out, of a clean export.
#[verifier::rlimit(40)]
pub proof fn law_folder_holds_its_children(n: Json, indent: Seq<char>, with_trash: bool)
    requires
        n.type_is("folder"@),
        !with_trash ==> (n.text_member("name"@) matches Some(name) ==> name != TRASH_FOLDER_NAME@
            && !text::same_ignoring_case(name, "trash"@)),
    ensures
        node_html(n, indent, with_trash) == indent + "<DT>"@ + folder_element(n) + "\n"@ + indent
            + "<DL><p>\n"@ + (match n.array_member("children"@) {
            Some(c) => nodes_html(c, c.len() as int, indent + "    "@, with_trash),
            None => Seq::empty(),
        }) + indent + "</DL><p>\n"@,
{
    reveal_strlit("");
    reveal_strlit("url");
    reveal_strlit("folder");
    reveal_strlit("<DT>");
    reveal_strlit("<H3");
    reveal_strlit("<DT><H3");
    reveal_strlit("</H3>");
    reveal_strlit("</H3>\n");
    reveal_strlit("\n");
    reveal_strlit("trash");
    reveal_strlit("ゴミ箱");
    assert("url"@.len() == 3 && "folder"@.len() == 6);
    lemma_dates(n.text_member("date_added"@));
    lemma_dates(n.text_member("date_modified"@));
    assert("<DT><H3"@ =~= "<DT>"@ + "<H3"@);
    assert("</H3>\n"@ =~= "</H3>"@ + "\n"@);
    assert(""@ =~= Seq::<char>::empty());
    assert(folder_head(n, indent) =~= indent + "<DT>"@ + folder_element(n) + "\n"@ + indent
        + "<DL><p>\n"@);
    if n.text_member("name"@) is None {
        assert(text::ascii_lower(""@).len() == 0);
        assert(text::ascii_lower("trash"@).len() == 5);
        assert(TRASH_FOLDER_NAME@.len() == 3);
    }
    assert(!(!with_trash && is_trash(n)));
}

/// Nodes are exported one by one, each behind the one before it.
pub proof fn law_nodes_are_exported_one_by_one(
    nodes: Seq<Json>,
    n: Json,
    indent: Seq<char>,
    with_trash: bool,
)
    ensures
        nodes_html(nodes.push(n), nodes.len() as int + 1, indent, with_trash) == nodes_html(
            nodes,
            nodes.len() as int,
            indent,
            with_trash,
        ) + node_html(n, indent, with_trash),
        nodes_html(Seq::empty(), 0, indent, with_trash).len() == 0,
{
    reveal_strlit("");
    lemma_nodes_prefix(nodes, n, nodes.len() as int, indent, with_trash);
}

/// What a child is exported as is part of what its list is exported as.
proof fn lemma_child_is_part(
    nodes: Seq<Json>,
    k: int,
    i: int,
    indent: Seq<char>,
    with_trash: bool,
)
    requires
        0 <= i < k <= nodes.len(),
    ensures
        has_part(nodes_html(nodes, k, indent, with_trash), node_html(nodes[i], indent, with_trash)),
    decreases k,
{
    let t = nodes_html(nodes, k, indent, with_trash);
    let before = nodes_html(nodes, k - 1, indent, with_trash);
    let last = node_html(nodes[k - 1], indent, with_trash);
    if i == k - 1 {
        lemma_is_part(t, before, last, Seq::empty());
    } else {
        lemma_child_is_part(nodes, k - 1, i, indent, with_trash);
        lemma_is_part(t, Seq::empty(), before, last);
        lemma_part_of_part(t, before, node_html(nodes[i], indent, with_trash));
    }
}

/// Every node from a node down along some steps, but for the last, is a folder, and none is a
/// trash folder where these are left out.
pub open spec fn is_exported_at(n: Json, at: Seq<int>, with_trash: bool) -> bool
    decreases at.len(),
{
    &&& !with_trash && n.type_is("folder"@) ==> (n.text_member("name"@) matches Some(name) ==> name
        != TRASH_FOLDER_NAME@ && !text::same_ignoring_case(name, "trash"@))
    &&& at.len() > 0 ==> n.type_is("folder"@) && (n.array_member("children"@) matches Some(c) && 0
        <= at[0] < c.len() && is_exported_at(c[at[0]], at.drop_first(), with_trash))
}

/// The line of a folder or link, but for its indentation.
pub open spec fn element_line(n: Json) -> Seq<char> {
    "<DT>"@ + (if n.type_is("url"@) {
        link_element(n)
    } else {
        folder_element(n)
    }) + "\n"@
}

/// Texts in a row, with those in the middle put together.
proof fn lemma_regrouped(
    a: Seq<char>,
    b: Seq<char>,
    c: Seq<char>,
    d: Seq<char>,
    e: Seq<char>,
    f: Seq<char>,
    g: Seq<char>,
)
    ensures
        a + b + c + d == a + (b + c + d) + Seq::<char>::empty(),
        a + b + c + d + a + e + f + a + g == a + (b + c + d) + (a + e + f + a + g),
        a + b + c + d + a + e + f + a + g == (a + b + c + d + a + e) + f + (a + g),
{
    assert(a + b + c + d =~= a + (b + c + d) + Seq::<char>::empty());
    assert(a + b + c + d + a + e + f + a + g =~= a + (b + c + d) + (a + e + f + a + g));
    assert(a + b + c + d + a + e + f + a + g =~= (a + b + c + d + a + e) + f + (a + g));
}

/// A node has its own line in its export.
#[verifier::rlimit(40)]
proof fn lemma_own_line(n: Json, indent: Seq<char>, with_trash: bool)
    requires
        is_exported_at(n, Seq::empty(), with_trash),
        n.type_is("url"@) || n.type_is("folder"@),
    ensures
        has_part(node_html(n, indent, with_trash), element_line(n)),
{
    let t = node_html(n, indent, with_trash);
    let none = Seq::<char>::empty();
    if n.type_is("url"@) {
        law_link_is_one_line(n, indent, with_trash);
        lemma_regrouped(indent, "<DT>"@, link_element(n), "\n"@, none, none, none);
        lemma_is_part(t, indent, element_line(n), none);
    } else {
        law_folder_holds_its_children(n, indent, with_trash);
        let inner = match n.array_member("children"@) {
            Some(c) => nodes_html(c, c.len() as int, indent + "    "@, with_trash),
            None => Seq::empty(),
        };
        lemma_regrouped(
            indent,
            "<DT>"@,
            folder_element(n),
            "\n"@,
            "<DL><p>\n"@,
            inner,
            "</DL><p>\n"@,
        );
        let rest = indent + "<DL><p>\n"@ + inner + indent + "</DL><p>\n"@;
        lemma_is_part(t, indent, element_line(n), rest);
    }
}

/// What a child is exported as is part of what its folder is exported as.
#[verifier::rlimit(40)]
proof fn lemma_child_in_folder(n: Json, i: int, indent: Seq<char>, with_trash: bool)
    requires
        is_exported_at(n, Seq::empty(), with_trash),
        n.type_is("folder"@),
        n.array_member("children"@) matches Some(c) && 0 <= i < c.len(),
    ensures
        has_part(
            node_html(n, indent, with_trash),
            node_html(n.array_member("children"@)->0[i], indent + "    "@, with_trash),
        ),
{
    law_folder_holds_its_children(n, indent, with_trash);
    let c = n.array_member("children"@)->0;
    let deeper = indent + "    "@;
    let list = nodes_html(c, c.len() as int, deeper, with_trash);
    let head = indent + "<DT>"@ + folder_element(n) + "\n"@ + indent + "<DL><p>\n"@;
    lemma_regrouped(
        indent,
        "<DT>"@,
        folder_element(n),
        "\n"@,
        "<DL><p>\n"@,
        list,
        "</DL><p>\n"@,
    );
    lemma_is_part(node_html(n, indent, with_trash), head, list, indent + "</DL><p>\n"@);
    lemma_child_is_part(c, c.len() as int, i, deeper, with_trash);
    lemma_part_of_part(
        node_html(n, indent, with_trash),
        list,
        node_html(c[i], deeper, with_trash),
    );
}

/// Every folder and link at or below a node, if it is in no trash folder or these are exported too,
/// has its line in the export of the node.
pub proof fn law_every_node_is_exported(
    n: Json,
    at: Seq<int>,
    indent: Seq<char>,
    with_trash: bool,
)
    requires
        place::below(n, at) matches Some(x) && (x.type_is("url"@) || x.type_is("folder"@)),
        is_exported_at(n, at, with_trash),
    ensures
        has_part(node_html(n, indent, with_trash), element_line(place::below(n, at)->0)),
    decreases at.len(),
{
    let x = place::below(n, at)->0;
    let t = node_html(n, indent, with_trash);
    assert(is_exported_at(n, Seq::empty(), with_trash));
    if at.len() == 0 {
        lemma_own_line(n, indent, with_trash);
    } else {
        let c = n.array_member("children"@)->0;
        let deeper = indent + "    "@;
        law_every_node_is_exported(c[at[0]], at.drop_first(), deeper, with_trash);
        lemma_child_in_folder(n, at[0], indent, with_trash);
        lemma_part_of_part(t, node_html(c[at[0]], deeper, with_trash), element_line(x));
    }
}

/// An export holds the bookmark bar, the other bookmarks and the menu, one after the other.
#[verifier::rlimit(40)]
proof fn lemma_root_is_exported(doc: Json, key: Seq<char>, with_trash: bool)
    requires
        key == "bookmark_bar"@ || key == "other"@ || key == "menu"@,
        tree::root_folder(doc, key) is Some,
    ensures
        html_file(doc, with_trash) is Ok,
        has_part(
            html_file(doc, with_trash)->Ok_0,
            node_html(tree::root_folder(doc, key)->0, "    "@, with_trash),
        ),
{
    tree::lemma_root(doc, key);
    place::lemma_root_keys();
    let t = html_file(doc, with_trash)->Ok_0;
    let one = node_html(tree::root_folder(doc, key)->0, INDENT@, with_trash);
    let a = root_html(doc, "bookmark_bar"@, with_trash);
    let b = root_html(doc, "other"@, with_trash);
    let c = root_html(doc, "menu"@, with_trash);
    let end = "</DL><p>\n"@;
    if key == "bookmark_bar"@ {
        lemma_is_part(t, HTML_HEAD@, one, b + c + end);
    } else if key == "other"@ {
        lemma_is_part(t, HTML_HEAD@ + a, one, c + end);
    } else {
        lemma_is_part(t, HTML_HEAD@ + a + b, one, end);
    }
}

/// An export holds all bookmarks: every folder and link below the bookmark bar, the other bookmarks
/// and the menu has its line in the file, but for what is in trash folders where these are left
/// out.
pub proof fn law_every_bookmark_is_exported(doc: Json, p: PlaceView, with_trash: bool)
    requires
        p.root == "bookmark_bar"@ || p.root == "other"@ || p.root == "menu"@,
        place::node_at(doc, p) matches Some(x) && (x.type_is("url"@) || x.type_is("folder"@)),
        is_exported_at(tree::root_folder(doc, p.root)->0, p.at, with_trash),
    ensures
        html_file(doc, with_trash) matches Ok(t) && has_part(
            t,
            element_line(place::node_at(doc, p)->0),
        ),
{
    let root = tree::root_folder(doc, p.root)->0;
    lemma_root_is_exported(doc, p.root, with_trash);
    law_every_node_is_exported(root, p.at, "    "@, with_trash);
    lemma_part_of_part(
        html_file(doc, with_trash)->Ok_0,
        node_html(root, "    "@, with_trash),
        element_line(place::node_at(doc, p)->0),
    );
}

/// There is an export exactly where the document has roots. It is a file in the Netscape format
/// that holds what the bar, the other bookmarks and the menu are exported as, in this order, and
/// nothing else.
#[verifier::rlimit(40)]
pub proof fn law_export_holds_the_three_roots(doc: Json, with_trash: bool)
    ensures
        html_file(doc, with_trash) is Ok <==> doc.member("roots"@) is Some,
        html_file(doc, with_trash) matches Ok(t) ==> exists|head: Seq<char>|
            text::begins_with(head, "<!DOCTYPE NETSCAPE-Bookmark-file-1>\n"@)
                && text::finishes_with(head, "<DL><p>\n"@) && t == #[trigger] (head + exported_root(
                doc,
                "bookmark_bar"@,
                with_trash,
            ) + exported_root(doc, "other"@, with_trash) + exported_root(
                doc,
                "menu"@,
                with_trash,
            )) + "</DL><p>\n"@ && !has_part(head, "<DT>"@),
{
    if html_file(doc, with_trash) is Ok {
        lemma_html_head();
        reveal_strlit("");
        assert(""@ =~= Seq::<char>::empty());
        let t = html_file(doc, with_trash)->Ok_0;
        assert(t =~= (HTML_HEAD@ + exported_root(doc, "bookmark_bar"@, with_trash) + exported_root(
            doc,
            "other"@,
            with_trash,
        ) + exported_root(doc, "menu"@, with_trash)) + "</DL><p>\n"@);
    }
}

/// What a root folder is exported as, if there is one.
pub open spec fn exported_root(doc: Json, key: Seq<char>, with_trash: bool) -> Seq<char> {
    match tree::root_folder(doc, key) {
        Some(root) => node_html(root, "    "@, with_trash),
        None => Seq::empty(),
    }
}

/// The head of the file is that of the format, and holds no entry.
#[verifier::rlimit(40)]
proof fn lemma_html_head()
    ensures
        text::begins_with(HTML_HEAD@, "<!DOCTYPE NETSCAPE-Bookmark-file-1>\n"@),
        text::finishes_with(HTML_HEAD@, "<DL><p>\n"@),
        !has_part(HTML_HEAD@, "<DT>"@),
{
    reveal_strlit(
        "<!DOCTYPE NETSCAPE-Bookmark-file-1>\n<!-- This is an automatically generated file.\n     It will be read and overwritten.\n     DO NOT EDIT! -->\n<META HTTP-EQUIV=\"Content-Type\" CONTENT=\"text/html; charset=UTF-8\">\n<TITLE>Bookmarks</TITLE>\n<H1>Bookmarks</H1>\n<DL><p>\n",
    );
    reveal_strlit("<!DOCTYPE NETSCAPE-Bookmark-file-1>\n");
    reveal_strlit("<DL><p>\n");
    reveal_strlit("<DT>");
    let h = HTML_HEAD@;
    assert(h.take(36) =~= "<!DOCTYPE NETSCAPE-Bookmark-file-1>\n"@);
    assert(h.skip(h.len() - 8) =~= "<DL><p>\n"@);
    reveal(has_part);
    if has_part(h, "<DT>"@) {
        let (a, b) = choose|a: Seq<char>, b: Seq<char>| h == #[trigger] (a + "<DT>"@ + b);
        let k = a.len() as int;
        assert(h[k] == '<' && h[k + 1] == 'D' && h[k + 2] == 'T');
    }
}

/// The fields of a link: its name, its address without white space around it, the browser and the
/// path of its folder; a tab or line break in a name or path is shown as a blank, in an address it
/// is dropped.
pub open spec fn link_record(n: Json, profile_name: Seq<char>, folder: Seq<char>) -> Seq<char> {
    let name = match n.text_member("name"@) {
        Some(name) => name,
        None => Seq::empty(),
    };
    let url = text::trimmed(n.text_member("url"@)->0);
    four_fields(
        text::replaced(name, CharSet::Three('\t', '\r', '\n'), " "@),
        text::replaced(url, CharSet::Three('\t', '\r', '\n'), Seq::empty()),
        profile_name,
        text::replaced(folder, CharSet::Three('\t', '\r', '\n'), " "@),
    )
}

/// The node is a link with an address that is not blank.
pub open spec fn has_address(n: Json) -> bool {
    n.type_is("url"@) && (n.text_member("url"@) matches Some(url) && text::trimmed(url).len() > 0)
}

/// A link with an address has its line, and one without has none.
pub proof fn law_link_has_one_line(n: Json, profile_name: Seq<char>, folder: Seq<char>)
    requires
        n.type_is("url"@),
    ensures
        has_address(n) ==> node_lines(n, profile_name, folder) == link_record(
            n,
            profile_name,
            folder,
        ),
        !has_address(n) ==> node_lines(n, profile_name, folder).len() == 0,
{
    reveal_strlit("");
    reveal_strlit("url");
    reveal_strlit("folder");
    assert("url"@.len() == 3 && "folder"@.len() == 6);
    assert(""@ =~= Seq::<char>::empty());
}

/// The names of the folders from a node down along some steps, the last node left out, behind a
/// path.
pub open spec fn folder_path(n: Json, at: Seq<int>, folder: Seq<char>) -> Seq<char>
    decreases at.len(),
{
    if at.len() == 0 {
        folder
    } else {
        let name = match n.text_member("name"@) {
            Some(name) => name,
            None => Seq::empty(),
        };
        let path = if folder.len() == 0 {
            name
        } else {
            folder + "/"@ + name
        };
        folder_path(n.array_member("children"@)->0[at[0]], at.drop_first(), path)
    }
}

/// Every node from a node down along some steps, but for the last, is a folder, and none is a
/// folder of dead or discarded links.
pub open spec fn is_dumped_at(n: Json, at: Seq<int>) -> bool
    decreases at.len(),
{
    &&& n.type_is("folder"@) ==> (n.text_member("name"@) matches Some(name) ==> name
        != TRASH_FOLDER_NAME@ && name != ISOLATE_FOLDER_NAME@ && !text::same_ignoring_case(
        name,
        "trash"@,
    ))
    &&& at.len() > 0 ==> n.type_is("folder"@) && (n.array_member("children"@) matches Some(c) && 0
        <= at[0] < c.len() && is_dumped_at(c[at[0]], at.drop_first()))
}

/// The lines of a child are part of those of its list.
proof fn lemma_child_lines_are_part(
    nodes: Seq<Json>,
    k: int,
    i: int,
    profile_name: Seq<char>,
    folder: Seq<char>,
)
    requires
        0 <= i < k <= nodes.len(),
    ensures
        has_part(
            nodes_lines(nodes, k, profile_name, folder),
            node_lines(nodes[i], profile_name, folder),
        ),
    decreases k,
{
    let t = nodes_lines(nodes, k, profile_name, folder);
    let before = nodes_lines(nodes, k - 1, profile_name, folder);
    let last = node_lines(nodes[k - 1], profile_name, folder);
    if i == k - 1 {
        lemma_is_part(t, before, last, Seq::empty());
    } else {
        lemma_child_lines_are_part(nodes, k - 1, i, profile_name, folder);
        lemma_is_part(t, Seq::empty(), before, last);
        lemma_part_of_part(t, before, node_lines(nodes[i], profile_name, folder));
    }
}

/// Every link with an address at or below a node, that is in no folder of dead or discarded links,
/// has its line among those of the node, with the names of its folders for its path.
#[verifier::rlimit(40)]
pub proof fn law_every_link_has_a_line(
    n: Json,
    at: Seq<int>,
    profile_name: Seq<char>,
    folder: Seq<char>,
)
    requires
        place::below(n, at) is Some,
        has_address(place::below(n, at)->0),
        is_dumped_at(n, at),
    ensures
        has_part(
            node_lines(n, profile_name, folder),
            link_record(place::below(n, at)->0, profile_name, folder_path(n, at, folder)),
        ),
    decreases at.len(),
{
    let x = place::below(n, at)->0;
    let t = node_lines(n, profile_name, folder);
    reveal_strlit("");
    if at.len() == 0 {
        law_link_has_one_line(n, profile_name, folder);
        lemma_is_part(t, Seq::empty(), t, Seq::empty());
    } else {
        reveal_strlit("url");
        reveal_strlit("folder");
        reveal_strlit("trash");
        reveal_strlit("ゴミ箱");
        reveal_strlit("リンク切れ");
        assert("url"@.len() == 3 && "folder"@.len() == 6);
        if n.text_member("name"@) is None {
            assert(text::ascii_lower(""@).len() == 0);
            assert(text::ascii_lower("trash"@).len() == 5);
            assert(TRASH_FOLDER_NAME@.len() == 3 && ISOLATE_FOLDER_NAME@.len() == 5);
        }
        assert(!is_left_out(n));
        assert(""@ =~= Seq::<char>::empty());
        let c = n.array_member("children"@)->0;
        let path = folder_below(folder, node::name_of(n));
        law_every_link_has_a_line(c[at[0]], at.drop_first(), profile_name, path);
        lemma_child_lines_are_part(c, c.len() as int, at[0], profile_name, path);
        let one = node_lines(c[at[0]], profile_name, path);
        assert(t == nodes_lines(c, c.len() as int, profile_name, path));
        lemma_part_of_part(
            t,
            one,
            link_record(x, profile_name, folder_path(n, at, folder)),
        );
    }
}

/// A dump holds all links: every link with an address below the bookmark bar, the other bookmarks,
/// the menu and the history, that is in no folder of dead or discarded links, has its line.
#[verifier::rlimit(40)]
pub proof fn law_every_link_is_dumped(doc: Json, p: PlaceView, profile_name: Seq<char>)
    requires
        p.root == "bookmark_bar"@ || p.root == "other"@ || p.root == "menu"@ || p.root
            == "history"@,
        place::node_at(doc, p) is Some,
        has_address(place::node_at(doc, p)->0),
        is_dumped_at(tree::root_folder(doc, p.root)->0, p.at),
    ensures
        has_part(
            doc_lines(doc, profile_name),
            link_record(
                place::node_at(doc, p)->0,
                profile_name,
                folder_path(tree::root_folder(doc, p.root)->0, p.at, Seq::empty()),
            ),
        ),
{
    reveal_strlit("");
    assert(""@ =~= Seq::<char>::empty());
    reveal_strlit("history");
    reveal_strlit("bookmark_bar");
    reveal_strlit("other");
    reveal_strlit("menu");
    assert("history"@.len() == 7 && "bookmark_bar"@.len() == 12 && "other"@.len() == 5
        && "menu"@.len() == 4);
    let root = tree::root_folder(doc, p.root)->0;
    law_every_link_has_a_line(root, p.at, profile_name, ""@);
    let t = doc_lines(doc, profile_name);
    let one = node_lines(root, profile_name, ""@);
    let a = root_lines(doc, "bookmark_bar"@, profile_name);
    let b = root_lines(doc, "other"@, profile_name);
    let c = root_lines(doc, "menu"@, profile_name);
    let d = root_lines(doc, "history"@, profile_name);
    let none = Seq::<char>::empty();
    let (head, tail) = if p.root == "bookmark_bar"@ {
        (none, b + c + d)
    } else if p.root == "other"@ {
        (a, c + d)
    } else if p.root == "menu"@ {
        (a + b, d)
    } else {
        (a + b + c, none)
    };
    lemma_is_part(t, head, one, tail);
    lemma_part_of_part(
        t,
        one,
        link_record(
            place::node_at(doc, p)->0,
            profile_name,
            folder_path(root, p.at, Seq::empty()),
        ),
    );
}

/// The name of an export file begins with the browser, holds the time, tells a clean export from a
/// full one, and ends in `.html`.
pub proof fn law_export_file_tells_its_contents(
    profile_name: Seq<char>,
    now: Seq<char>,
    with_trash: bool,
)
    ensures
        text::begins_with(default_file(profile_name, now, with_trash), profile_name),
        has_part(default_file(profile_name, now, with_trash), "_bookmarks_"@ + now + "_"@),
        with_trash ==> text::finishes_with(
            default_file(profile_name, now, with_trash),
            "_all.html"@,
        ),
        !with_trash ==> text::finishes_with(
            default_file(profile_name, now, with_trash),
            "_clean.html"@,
        ),
{
    reveal_strlit("_");
    reveal_strlit("all");
    reveal_strlit("clean");
    reveal_strlit(".html");
    reveal_strlit("_all.html");
    reveal_strlit("_clean.html");
    let f = default_file(profile_name, now, with_trash);
    assert(f.take(profile_name.len() as int) =~= profile_name);
    let rest = (if with_trash {
        "all"@
    } else {
        "clean"@
    }) + ".html"@;
    lemma_is_part(f, profile_name, "_bookmarks_"@ + now + "_"@, rest);
    if with_trash {
        assert(f.skip(f.len() - 9) =~= "_all.html"@);
    } else {
        assert(f.skip(f.len() - 11) =~= "_clean.html"@);
    }
}

/// The name is one of the trash: its own, or `trash` in any case.
pub open spec fn is_trash_title(name: Seq<char>) -> bool {
    name == "ゴミ箱"@ || text::same_ignoring_case(name, "trash"@)
}

/// A clean export holds nothing of a trash folder, nor does any export of what is neither folder
/// nor link.
pub proof fn law_trash_is_not_in_a_clean_export(n: Json, indent: Seq<char>, with_trash: bool)
    ensures
        n.type_is("folder"@) && (n.text_member("name"@) matches Some(name) && is_trash_title(name))
            ==> node_html(n, indent, false).len() == 0,
        !n.type_is("folder"@) && !n.type_is("url"@) ==> node_html(n, indent, with_trash).len() == 0,
{
    reveal_strlit("");
    reveal_strlit("folder");
    reveal_strlit("url");
    assert("folder"@.len() == 6 && "url"@.len() == 3 && ""@.len() == 0);
}

/// A dump holds nothing of a folder of dead or discarded links, nor of what is neither folder nor
/// link; any other folder has the lines of its children, one after the other, with its name behind
/// the path.
pub proof fn law_lines_of_a_folder(n: Json, profile_name: Seq<char>, folder: Seq<char>)
    ensures
        n.type_is("folder"@) && (n.text_member("name"@) matches Some(name) && (is_trash_title(name)
            || name == "リンク切れ"@)) ==> node_lines(n, profile_name, folder).len() == 0,
        !n.type_is("folder"@) && !n.type_is("url"@) ==> node_lines(n, profile_name, folder).len()
            == 0,
        n.type_is("folder"@) ==> (n.text_member("name"@) matches Some(name) ==> (!is_trash_title(
            name,
        ) && name != "リンク切れ"@ ==> (n.array_member("children"@) matches Some(c) ==> node_lines(
            n,
            profile_name,
            folder,
        ) == nodes_lines(
            c,
            c.len() as int,
            profile_name,
            if folder.len() == 0 {
                name
            } else {
                folder + "/"@ + name
            },
        )))),
{
    reveal_strlit("");
    reveal_strlit("folder");
    reveal_strlit("url");
    assert("folder"@.len() == 6 && "url"@.len() == 3 && ""@.len() == 0);
}

/// The lines of nodes are those of each of them, one after the other.
pub proof fn law_nodes_have_their_lines_one_by_one(
    nodes: Seq<Json>,
    n: Json,
    profile_name: Seq<char>,
    folder: Seq<char>,
)
    ensures
        nodes_lines(nodes.push(n), nodes.len() as int + 1, profile_name, folder) == nodes_lines(
            nodes,
            nodes.len() as int,
            profile_name,
            folder,
        ) + node_lines(n, profile_name, folder),
        nodes_lines(Seq::empty(), 0, profile_name, folder).len() == 0,
{
    reveal_strlit("");
    lemma_lines_prefix(nodes, n, nodes.len() as int, profile_name, folder);
}

/// The first nodes give the same lines in a longer list.
proof fn lemma_lines_prefix(
    nodes: Seq<Json>,
    x: Json,
    k: int,
    profile_name: Seq<char>,
    folder: Seq<char>,
)
    requires
        k <= nodes.len(),
    ensures
        nodes_lines(nodes.push(x), k, profile_name, folder) == nodes_lines(
            nodes,
            k,
            profile_name,
            folder,
        ),
    decreases k,
{
    if k > 0 {
        lemma_lines_prefix(nodes, x, k - 1, profile_name, folder);
    }
}

/// A dump is the lines of the bookmark bar, of the other bookmarks, of the menu and of the history,
/// one after the other, and nothing else.
pub proof fn law_dump_holds_the_four_roots(doc: Json, profile_name: Seq<char>)
    ensures
        doc_lines(doc, profile_name) == dumped_root(doc, "bookmark_bar"@, profile_name)
            + dumped_root(doc, "other"@, profile_name) + dumped_root(doc, "menu"@, profile_name)
            + dumped_root(doc, "history"@, profile_name),
{
    reveal_strlit("");
    assert(""@ =~= Seq::<char>::empty());
}

/// The lines of a root folder, if there is one.
pub open spec fn dumped_root(doc: Json, key: Seq<char>, profile_name: Seq<char>) -> Seq<char> {
    match tree::root_folder(doc, key) {
        Some(root) => node_lines(root, profile_name, Seq::empty()),
        None => Seq::empty(),
    }
}

/// The message on an export names the browser and the file.
pub proof fn law_message_names_the_file(profile_name: Seq<char>, with_trash: bool, file: Seq<char>)
    ensures
        text::begins_with(
            done_message(profile_name, with_trash, file),
            "Exported ["@ + profile_name + "]"@,
        ),
        text::finishes_with(
            done_message(profile_name, with_trash, file),
            " successfully to "@ + file + "\n"@,
        ),
{
    reveal_strlit("]");
    reveal_strlit("] bookmarks (");
    reveal_strlit(" successfully to ");
    reveal_strlit(") successfully to ");
    let m = done_message(profile_name, with_trash, file);
    let head = "Exported ["@ + profile_name + "]"@;
    let tail = " successfully to "@ + file + "\n"@;
    assert(m.take(head.len() as int) =~= head);
    assert(m.skip(m.len() - tail.len()) =~= tail);
}

} // verus!

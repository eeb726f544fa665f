//! The bookmarks of Firefox: the tree that its table of rows stands for, and the changes to the
//! table that bring it in line with a tree.
use vstd::prelude::*;
use crate::fault::{CommandError, Fault, Reason};
use crate::guid::{Mint, MintState};
use crate::node::{BOOKMARK_BAR_JP, BOOKMARK_MENU_JP, OTHER_BOOKMARKS_JP};
use crate::number;
use crate::number::signed_text;
use crate::value;
use crate::value::{Doc, Json};

verus! {

// ---------------------------------------------------------------------------
// Rows
// ---------------------------------------------------------------------------

/// A row of the table as it is stored.
#[derive(Debug)]
pub struct RawRow {
    pub id: i64,
    pub b_type: i64,
    pub title: Option<String>,
    pub url: Option<String>,
    pub parent: i64,
    pub date_added: i64,
    pub last_modified: i64,
    pub guid: Option<String>,
}

/// A row of the table with every field filled in.
#[derive(Debug)]
pub struct FxRow {
    pub id: i64,
    pub b_type: i64,
    pub title: String,
    pub url: String,
    pub parent: i64,
    pub date_added: i64,
    pub last_modified: i64,
    pub guid: String,
}

/// The model of a row.
pub struct RowView {
    pub id: i64,
    pub b_type: i64,
    pub title: Seq<char>,
    pub url: Seq<char>,
    pub parent: i64,
    pub date_added: i64,
    pub last_modified: i64,
    pub guid: Seq<char>,
}

impl View for FxRow {
    type V = RowView;

    open spec fn view(&self) -> RowView {
        RowView {
            id: self.id,
            b_type: self.b_type,
            title: self.title@,
            url: self.url@,
            parent: self.parent,
            date_added: self.date_added,
            last_modified: self.last_modified,
            guid: self.guid@,
        }
    }
}

/// The models of a list of rows.
pub open spec fn rows_of(s: Seq<FxRow>) -> Seq<RowView> {
    s.map_values(|r: FxRow| r@)
}

/// The text of a field, or nothing where there is none.
pub open spec fn or_empty(field: Option<String>) -> Seq<char> {
    match field {
        Some(s) => s@,
        None => ""@,
    }
}

/// A row with its missing fields filled in: texts are empty, the identifier is a new one.
pub open spec fn filled_row(raw: RawRow, mint: MintState) -> (RowView, MintState) {
    (
        RowView {
            id: raw.id,
            b_type: raw.b_type,
            title: or_empty(raw.title),
            url: or_empty(raw.url),
            parent: raw.parent,
            date_added: raw.date_added,
            last_modified: raw.last_modified,
            guid: match raw.guid {
                Some(g) => g@,
                None => mint.next_firefox_guid(),
            },
        },
        if raw.guid is Some {
            mint
        } else {
            mint.firefox_drawn()
        },
    )
}

/// Rows with their missing fields filled in, one after the other.
pub open spec fn filled_rows(raw: Seq<RawRow>, mint: MintState) -> (Seq<RowView>, MintState)
    decreases raw.len(),
{
    if raw.len() == 0 {
        (Seq::empty(), mint)
    } else {
        let (rows, m) = filled_rows(raw.drop_last(), mint);
        let (row, m2) = filled_row(raw.last(), m);
        (rows.push(row), m2)
    }
}

/// A copy of a field's text.
fn field_or_empty(field: &Option<String>) -> (r: String)
    ensures
        r@ == or_empty(*field),
{
    match field {
        Some(s) => s.clone(),
        None => "".to_owned(),
    }
}

/// Fills in the missing fields of rows.
pub fn fill_rows(raw: &[RawRow], mint: &mut Mint) -> (r: Vec<FxRow>)
    ensures
        (rows_of(r@), final(mint)@) == filled_rows(raw@, old(mint)@),
{
    let mut out: Vec<FxRow> = Vec::new();
    assert(rows_of(out@) =~= Seq::empty());
    assert(raw@.take(0) =~= Seq::empty());
    let mut i: usize = 0;
    while i < raw.len()
        invariant
            i <= raw@.len(),
            (rows_of(out@), mint@) == filled_rows(raw@.take(i as int), old(mint)@),
        decreases raw.len() - i,
    {
        assert(raw@.take(i + 1).drop_last() =~= raw@.take(i as int));
        let guid: String = match &raw[i].guid {
            Some(g) => g.clone(),
            None => mint.generate_firefox_guid(),
        };
        let row: FxRow = FxRow {
            id: raw[i].id,
            b_type: raw[i].b_type,
            title: field_or_empty(&raw[i].title),
            url: field_or_empty(&raw[i].url),
            parent: raw[i].parent,
            date_added: raw[i].date_added,
            last_modified: raw[i].last_modified,
            guid,
        };
        let ghost before = rows_of(out@);
        let ghost rv = row@;
        out.push(row);
        assert(rows_of(out@) =~= before.push(rv));
        i += 1;
    }
    assert(raw@.take(i as int) =~= raw@);
    out
}

// ---------------------------------------------------------------------------
// From rows to a tree
// ---------------------------------------------------------------------------

/// What folders and links have in common.
pub open spec fn row_base(r: RowView) -> Json {
    value::empty_object().with("id"@, Json::Str(number::signed_decimal(r.id as int))).with(
        "_firefox_id"@,
        value::int_json(r.id),
    ).with("guid"@, Json::Str(r.guid)).with("name"@, Json::Str(r.title)).with(
        "date_added"@,
        Json::Str(number::signed_decimal(r.date_added as int)),
    ).with("date_modified"@, Json::Str(number::signed_decimal(r.last_modified as int)))
}

/// The node of a folder row.
pub open spec fn folder_node(r: RowView, children: Seq<Json>) -> Json {
    row_base(r).with("type"@, Json::Str("folder"@)).with("children"@, Json::Array(children))
}

/// The node of a link row.
pub open spec fn link_node(r: RowView) -> Json {
    row_base(r).with("type"@, Json::Str("url"@)).with("url"@, Json::Str(r.url))
}

/// The nodes under a parent among the first `n` rows, with at most `depth` levels of folders
/// below them; nothing where there are more levels. Rows that are neither folder nor link are
/// left out.
pub open spec fn nested(parent: i64, rows: Seq<RowView>, n: int, depth: nat) -> Option<Seq<Json>>
    decreases depth, n,
{
    if n <= 0 || n > rows.len() {
        Some(Seq::empty())
    } else {
        match nested(parent, rows, n - 1, depth) {
            None => None,
            Some(s) => {
                let r = rows[n - 1];
                if r.parent != parent {
                    Some(s)
                } else if r.b_type == 2 {
                    if depth == 0 {
                        None
                    } else {
                        match nested(r.id, rows, rows.len() as int, (depth - 1) as nat) {
                            None => None,
                            Some(c) => Some(s.push(folder_node(r, c))),
                        }
                    }
                } else if r.b_type == 1 {
                    Some(s.push(link_node(r)))
                } else {
                    Some(s)
                }
            },
        }
    }
}

/// The nodes under a parent. There are at most as many levels of folders as rows, unless folders
/// contain one another; there is no tree then.
pub open spec fn tree_under(parent: i64, rows: Seq<RowView>) -> Option<Seq<Json>> {
    nested(parent, rows, rows.len() as int, rows.len())
}

/// The number of a row is read back from a node and all below it as it was written there.
pub open spec fn is_marked(n: Json) -> bool
    decreases n,
{
    &&& forall|id: i64|
        n.member("_firefox_id"@) == Some(#[trigger] value::int_json(id)) ==> value::int_json(
            id,
        ).int64() == Some(id)
    &&& match n {
        Json::Object(o) => o.dom().contains("children"@) ==> match o["children"@] {
            Json::Array(c) => forall|i: int| 0 <= i < c.len() ==> is_marked(#[trigger] c[i]),
            _ => true,
        },
        _ => true,
    }
}

/// The numbers of rows are read back from all nodes as they were written there.
pub open spec fn all_marked(nodes: Seq<Json>) -> bool {
    forall|i: int| 0 <= i < nodes.len() ==> is_marked(#[trigger] nodes[i])
}

/// The node of a row whose number is read back as it is written is marked.
proof fn lemma_marked(r: RowView, c: Seq<Json>)
    requires
        value::int_json(r.id).int64() == Some(r.id),
        forall|j: i64| #[trigger] value::int_json(j) == value::int_json(r.id) ==> j == r.id,
    ensures
        all_marked(c) ==> is_marked(folder_node(r, c)),
        is_marked(link_node(r)),
{
    reveal_strlit("id");
    reveal_strlit("_firefox_id");
    reveal_strlit("guid");
    reveal_strlit("name");
    reveal_strlit("type");
    reveal_strlit("url");
    reveal_strlit("children");
    reveal_strlit("date_added");
    reveal_strlit("date_modified");
    assert("_firefox_id"@.len() == 11 && "children"@.len() == 8 && "guid"@.len() == 4
        && "name"@.len() == 4 && "type"@.len() == 4 && "url"@.len() == 3 && "id"@.len() == 2
        && "date_added"@.len() == 10 && "date_modified"@.len() == 13);
    let f = folder_node(r, c);
    let l = link_node(r);
    assert(f.member("_firefox_id"@) == Some(value::int_json(r.id)));
    assert(l.member("_firefox_id"@) == Some(value::int_json(r.id)));
    assert(f->Object_0["children"@] == Json::Array(c));
    assert(!l->Object_0.dom().contains("children"@));
}

/// What folders and links have in common.
fn base_node(r: &FxRow) -> (v: Doc)
    ensures
        v@ == row_base(r@),
        value::int_json(r.id).int64() == Some(r.id),
        forall|j: i64| #[trigger] value::int_json(j) == value::int_json(r.id) ==> j == r.id,
{
    let mut v: Doc = Doc::new_object();
    v.set("id", Doc::Str(signed_text(r.id)));
    v.set("_firefox_id", Doc::new_int(r.id));
    v.set("guid", Doc::new_str(r.guid.as_str()));
    v.set("name", Doc::new_str(r.title.as_str()));
    v.set("date_added", Doc::Str(signed_text(r.date_added)));
    v.set("date_modified", Doc::Str(signed_text(r.last_modified)));
    v
}

/// The nodes under a parent, with at most `depth` levels of folders below them.
fn build_nested(parent: i64, rows: &Vec<FxRow>, depth: usize) -> (r: Option<Vec<Doc>>)
    ensures
        match r {
            Some(nodes) => {
                &&& nested(parent, rows_of(rows@), rows@.len() as int, depth as nat) == Some(
                    value::items_of(nodes@),
                )
                &&& all_marked(value::items_of(nodes@))
            },
            None => nested(parent, rows_of(rows@), rows@.len() as int, depth as nat) is None,
        },
    decreases depth,
{
    let ghost all = rows_of(rows@);
    let mut out: Vec<Doc> = Vec::new();
    assert(value::items_of(out@) =~= Seq::empty());
    let mut i: usize = 0;
    while i < rows.len()
        invariant
            i <= rows@.len(),
            all == rows_of(rows@),
            nested(parent, all, i as int, depth as nat) == Some(value::items_of(out@)),
            all_marked(value::items_of(out@)),
        decreases rows.len() - i,
    {
        assert(all[i as int] == rows@[i as int]@);
        let r: &FxRow = &rows[i];
        if r.parent == parent {
            let ghost before = value::items_of(out@);
            if r.b_type == 2 {
                let found: Option<Vec<Doc>> = if depth == 0 {
                    None
                } else {
                    build_nested(r.id, rows, depth - 1)
                };
                match found {
                    None => {
                        proof {
                            lemma_nested_stays(parent, all, i + 1, all.len() as int, depth as nat);
                        }
                        return None;
                    },
                    Some(children) => {
                        let mut v: Doc = base_node(r);
                        v.set("type", Doc::new_str("folder"));
                        let ghost c = value::items_of(children@);
                        v.set("children", Doc::Array(children));
                        let ghost n = v@;
                        proof {
                            lemma_marked(r@, c);
                        }
                        out.push(v);
                        assert(value::items_of(out@) =~= before.push(n));
                    },
                }
            } else if r.b_type == 1 {
                let mut v: Doc = base_node(r);
                v.set("type", Doc::new_str("url"));
                v.set("url", Doc::new_str(r.url.as_str()));
                let ghost n = v@;
                proof {
                    lemma_marked(r@, Seq::empty());
                }
                out.push(v);
                assert(value::items_of(out@) =~= before.push(n));
            }
        }
        i += 1;
    }
    Some(out)
}

/// Where the first rows give no tree, all rows give none.
proof fn lemma_nested_stays(parent: i64, rows: Seq<RowView>, n: int, m: int, depth: nat)
    requires
        0 <= n <= m <= rows.len(),
        nested(parent, rows, n, depth) is None,
    ensures
        nested(parent, rows, m, depth) is None,
    decreases m,
{
    if n < m {
        lemma_nested_stays(parent, rows, n, m - 1, depth);
    }
}

/// The nodes under a parent.
pub fn build_tree(parent: i64, rows: &Vec<FxRow>) -> (r: Option<Vec<Doc>>)
    ensures
        match r {
            Some(nodes) => {
                &&& tree_under(parent, rows_of(rows@)) == Some(value::items_of(nodes@))
                &&& all_marked(value::items_of(nodes@))
            },
            None => tree_under(parent, rows_of(rows@)) is None,
        },
{
    build_nested(parent, rows, rows.len())
}

/// The row of the bookmark bar.
pub const BAR_ROW: i64 = 3;

/// The row of the other bookmarks.
pub const OTHER_ROW: i64 = 5;

/// The row of the bookmark menu.
pub const MENU_ROW: i64 = 2;

/// A root folder.
pub open spec fn root_node(id: i64, name: Seq<char>, children: Seq<Json>) -> Json {
    value::empty_object().with("id"@, Json::Str(number::signed_decimal(id as int))).with(
        "_firefox_id"@,
        value::int_json(id),
    ).with("name"@, Json::Str(name)).with("type"@, Json::Str("folder"@)).with(
        "children"@,
        Json::Array(children),
    )
}

/// The document of the three root folders.
pub open spec fn firefox_doc(bar: Seq<Json>, other: Seq<Json>, menu: Seq<Json>) -> Json {
    let roots = value::empty_object().with(
        "bookmark_bar"@,
        root_node(BAR_ROW, BOOKMARK_BAR_JP@, bar),
    ).with("other"@, root_node(OTHER_ROW, OTHER_BOOKMARKS_JP@, other)).with(
        "menu"@,
        root_node(MENU_ROW, BOOKMARK_MENU_JP@, menu),
    );
    value::empty_object().with("roots"@, roots).with("version"@, value::int_json(1))
}

/// The document that rows stand for; none where folders contain one another.
pub open spec fn firefox_tree(rows: Seq<RowView>) -> Option<Json> {
    match (
        tree_under(BAR_ROW, rows),
        tree_under(OTHER_ROW, rows),
        tree_under(MENU_ROW, rows),
    ) {
        (Some(bar), Some(other), Some(menu)) => Some(firefox_doc(bar, other, menu)),
        _ => None,
    }
}

/// The numbers of the rows under the three roots are read back as they are written.
pub open spec fn rows_marked(rows: Seq<RowView>) -> bool {
    &&& tree_under(BAR_ROW, rows) matches Some(bar) && all_marked(bar)
    &&& tree_under(OTHER_ROW, rows) matches Some(other) && all_marked(other)
    &&& tree_under(MENU_ROW, rows) matches Some(menu) && all_marked(menu)
}

/// A root folder.
fn make_root(id: i64, name: &str, children: Vec<Doc>) -> (r: Doc)
    ensures
        r@ == root_node(id, name@, value::items_of(children@)),
{
    let mut v: Doc = Doc::new_object();
    v.set("id", Doc::Str(signed_text(id)));
    v.set("_firefox_id", Doc::new_int(id));
    v.set("name", Doc::new_str(name));
    v.set("type", Doc::new_str("folder"));
    v.set("children", Doc::Array(children));
    v
}

/// The document that rows stand for.
pub fn read_firefox_bookmarks(raw: &[RawRow], mint: &mut Mint) -> (r: Result<Doc, CommandError>)
    ensures
        ({
            let (rows, m) = filled_rows(raw@, old(mint)@);
            &&& final(mint)@ == m
            &&& match r {
                Ok(v) => firefox_tree(rows) == Some(v@) && rows_marked(rows),
                Err(e) => {
                    &&& firefox_tree(rows) is None
                    &&& e@ == (Fault { reason: Reason::CyclicFolders, detail: ""@ })
                },
            }
        }),
{
    let rows: Vec<FxRow> = fill_rows(raw, mint);
    match (
        build_tree(BAR_ROW, &rows),
        build_tree(OTHER_ROW, &rows),
        build_tree(MENU_ROW, &rows),
    ) {
        (Some(bar), Some(other), Some(menu)) => {
            let mut roots: Doc = Doc::new_object();
            roots.set("bookmark_bar", make_root(BAR_ROW, BOOKMARK_BAR_JP, bar));
            roots.set("other", make_root(OTHER_ROW, OTHER_BOOKMARKS_JP, other));
            roots.set("menu", make_root(MENU_ROW, BOOKMARK_MENU_JP, menu));
            let mut v: Doc = Doc::new_object();
            v.set("roots", roots);
            v.set("version", Doc::new_int(1));
            Ok(v)
        },
        _ => Err(CommandError::new(Reason::CyclicFolders, "")),
    }
}

// ---------------------------------------------------------------------------
// The depth of a tree
// ---------------------------------------------------------------------------

/// All nodes under a parent, with at most `depth` levels of folders below them.
pub open spec fn nested_all(parent: i64, rows: Seq<RowView>, depth: nat) -> Option<Seq<Json>> {
    nested(parent, rows, rows.len() as int, depth)
}

/// More levels than needed change nothing.
proof fn lemma_deeper(parent: i64, rows: Seq<RowView>, n: int, depth: nat, more: nat)
    requires
        depth <= more,
        nested(parent, rows, n, depth) is Some,
    ensures
        nested(parent, rows, n, more) == nested(parent, rows, n, depth),
    decreases depth, n,
{
    if 0 < n <= rows.len() {
        lemma_deeper(parent, rows, n - 1, depth, more);
        let r = rows[n - 1];
        if r.parent == parent && r.b_type == 2 {
            lemma_deeper(r.id, rows, rows.len() as int, (depth - 1) as nat, (more - 1) as nat);
        }
    }
}

/// The parent needs exactly `rank` levels of folders.
spec fn has_rank(parent: i64, rows: Seq<RowView>, rank: nat) -> bool {
    &&& nested_all(parent, rows, rank) is Some
    &&& rank > 0 ==> nested_all(parent, rows, (rank - 1) as nat) is None
}

/// A parent with a tree needs some number of levels.
proof fn lemma_rank_exists(parent: i64, rows: Seq<RowView>, depth: nat)
    requires
        nested_all(parent, rows, depth) is Some,
    ensures
        exists|rank: nat| has_rank(parent, rows, rank),
    decreases depth,
{
    if depth == 0 || nested_all(parent, rows, (depth - 1) as nat) is None {
        assert(has_rank(parent, rows, depth));
    } else {
        lemma_rank_exists(parent, rows, (depth - 1) as nat);
    }
}

/// A parent needs only one number of levels.
proof fn lemma_rank_unique(parent: i64, rows: Seq<RowView>, a: nat, b: nat)
    requires
        has_rank(parent, rows, a),
        has_rank(parent, rows, b),
    ensures
        a == b,
{
    if a < b {
        lemma_deeper(parent, rows, rows.len() as int, a, (b - 1) as nat);
    } else if b < a {
        lemma_deeper(parent, rows, rows.len() as int, b, (a - 1) as nat);
    }
}

/// Where one level less is too few, a folder row is to blame.
proof fn lemma_too_shallow(parent: i64, rows: Seq<RowView>, n: int, depth: nat) -> (i: int)
    requires
        0 <= n <= rows.len(),
        nested(parent, rows, n, depth) is None,
        nested(parent, rows, n, depth + 1) is Some,
    ensures
        0 <= i < n,
        rows[i].parent == parent,
        nested_all(rows[i].id, rows, depth) is Some,
        depth > 0 ==> nested_all(rows[i].id, rows, (depth - 1) as nat) is None,
    decreases n,
{
    if nested(parent, rows, n - 1, depth) is None {
        lemma_too_shallow(parent, rows, n - 1, depth)
    } else {
        n - 1
    }
}

/// A parent that needs `rank` levels has below it, for every smaller number, a folder row whose
/// parent needs that many.
proof fn lemma_ranks_below(parent: i64, rows: Seq<RowView>, rank: nat, k: nat)
    requires
        has_rank(parent, rows, rank),
        1 <= k <= rank,
    ensures
        exists|i: int|
            0 <= i < rows.len() && has_rank((#[trigger] rows[i]).parent, rows, k),
    decreases rank,
{
    let i = lemma_too_shallow(parent, rows, rows.len() as int, (rank - 1) as nat);
    if k == rank {
        assert(has_rank(rows[i].parent, rows, k));
    } else {
        lemma_ranks_below(rows[i].id, rows, (rank - 1) as nat, k);
    }
}

/// A parent needs no more levels of folders than there are rows.
proof fn lemma_rank_bound(parent: i64, rows: Seq<RowView>, rank: nat)
    requires
        has_rank(parent, rows, rank),
    ensures
        rank <= rows.len(),
{
    let at = |k: int|
        choose|i: int|
            0 <= i < rows.len() && has_rank((#[trigger] rows[i]).parent, rows, (k + 1) as nat);
    let used = Seq::new(rank, at);
    assert forall|k: int| 0 <= k < rank implies 0 <= #[trigger] used[k] < rows.len() && has_rank(
        rows[used[k]].parent,
        rows,
        (k + 1) as nat,
    ) by {
        lemma_ranks_below(parent, rows, rank, (k + 1) as nat);
    }
    assert(used.no_duplicates()) by {
        assert forall|a: int, b: int|
            0 <= a < used.len() && 0 <= b < used.len() && a != b implies used[a] != used[b] by {
            if used[a] == used[b] {
                lemma_rank_unique(rows[used[a]].parent, rows, (a + 1) as nat, (b + 1) as nat);
            }
        }
    }
    used.unique_seq_to_set();
    let all = vstd::set_lib::set_int_range(0, rows.len() as int);
    vstd::set_lib::lemma_int_range(0, rows.len() as int);
    assert(used.to_set().subset_of(all));
    vstd::set_lib::lemma_len_subset(used.to_set(), all);
}

/// The tree is complete: where some number of levels suffices, the number of rows does, and the
/// tree is the same. There is no tree only where no number suffices, since folders contain one
/// another.
pub proof fn law_tree_is_complete(parent: i64, rows: Seq<RowView>, depth: nat)
    requires
        nested_all(parent, rows, depth) is Some,
    ensures
        tree_under(parent, rows) == nested_all(parent, rows, depth),
{
    lemma_rank_exists(parent, rows, depth);
    let rank = choose|rank: nat| has_rank(parent, rows, rank);
    lemma_rank_bound(parent, rows, rank);
    lemma_deeper(parent, rows, rows.len() as int, rank, rows.len());
    if rank <= depth {
        lemma_deeper(parent, rows, rows.len() as int, rank, depth);
    } else {
        lemma_deeper(parent, rows, rows.len() as int, depth, rank);
    }
}

// ---------------------------------------------------------------------------
// Laws
// ---------------------------------------------------------------------------

/// The node is that of a row: it has its number, identifier, title and dates; a link has its
/// address, and a folder the nodes under the row.
pub open spec fn is_node_of_row(n: Json, r: RowView, rows: Seq<RowView>) -> bool {
    &&& n.text_member("id"@) == Some(number::signed_decimal(r.id as int))
    &&& n.member("_firefox_id"@) == Some(value::int_json(r.id))
    &&& n.text_member("guid"@) == Some(r.guid)
    &&& n.text_member("name"@) == Some(r.title)
    &&& n.text_member("date_added"@) == Some(number::signed_decimal(r.date_added as int))
    &&& n.text_member("date_modified"@) == Some(number::signed_decimal(r.last_modified as int))
    &&& r.b_type == 1 ==> n.type_is("url"@) && n.text_member("url"@) == Some(r.url)
    &&& r.b_type == 2 ==> n.type_is("folder"@) && tree_under(r.id, rows)
        == n.array_member("children"@)
}

/// The members of the node of a row.
proof fn lemma_row_members(r: RowView, c: Seq<Json>, rows: Seq<RowView>)
    ensures
        r.b_type == 2 && tree_under(r.id, rows) == Some(c) ==> is_node_of_row(
            folder_node(r, c),
            r,
            rows,
        ),
        r.b_type == 1 ==> is_node_of_row(link_node(r), r, rows),
{
    reveal_strlit("id");
    reveal_strlit("_firefox_id");
    reveal_strlit("guid");
    reveal_strlit("name");
    reveal_strlit("type");
    reveal_strlit("url");
    reveal_strlit("children");
    reveal_strlit("date_added");
    reveal_strlit("date_modified");
    assert("_firefox_id"@.len() == 11 && "children"@.len() == 8 && "guid"@.len() == 4
        && "name"@.len() == 4 && "type"@.len() == 4 && "url"@.len() == 3 && "id"@.len() == 2
        && "date_added"@.len() == 10 && "date_modified"@.len() == 13);
    assert("guid"@[0] == 'g' && "name"@[0] == 'n' && "type"@[0] == 't');
}

/// The nodes are those of some of the rows, in their order: `at` gives the row of each node.
pub open spec fn are_nodes_of_rows(s: Seq<Json>, rows: Seq<RowView>, at: Seq<int>) -> bool {
    &&& at.len() == s.len()
    &&& forall|i: int, j: int| 0 <= i < j < at.len() ==> #[trigger] at[i] < #[trigger] at[j]
    &&& forall|i: int|
        0 <= i < at.len() ==> 0 <= #[trigger] at[i] < rows.len() && is_node_of_row(
            s[i],
            rows[at[i]],
            rows,
        )
}

/// The nodes among the first rows.
#[verifier::rlimit(40)]
proof fn lemma_nodes_of_rows(parent: i64, rows: Seq<RowView>, n: int, depth: nat) -> (at: Seq<int>)
    requires
        0 <= n <= rows.len(),
        nested(parent, rows, n, depth) is Some,
    ensures
        are_nodes_of_rows(nested(parent, rows, n, depth)->0, rows, at),
        forall|k: int| #[trigger]
            at.contains(k) <==> 0 <= k < n && rows[k].parent == parent && (rows[k].b_type == 1
                || rows[k].b_type == 2),
    decreases n,
{
    if n == 0 {
        Seq::empty()
    } else {
        let before = lemma_nodes_of_rows(parent, rows, n - 1, depth);
        let r = rows[n - 1];
        if r.parent == parent && (r.b_type == 1 || r.b_type == 2) {
            let at = before.push(n - 1);
            let s = nested(parent, rows, n - 1, depth)->0;
            if r.b_type == 2 {
                let c = nested_all(r.id, rows, (depth - 1) as nat)->0;
                law_tree_is_complete(r.id, rows, (depth - 1) as nat);
                lemma_row_members(r, c, rows);
            } else {
                lemma_row_members(r, Seq::empty(), rows);
            }
            let all = nested(parent, rows, n, depth)->0;
            assert forall|i: int, j: int| 0 <= i < j < at.len() implies #[trigger] at[i]
                < #[trigger] at[j] by {
                if j == before.len() {
                    assert(before.contains(before[i]));
                }
            }
            assert forall|i: int| 0 <= i < at.len() implies 0 <= #[trigger] at[i] < rows.len()
                && is_node_of_row(all[i], rows[at[i]], rows) by {
                if i < before.len() {
                    assert(at[i] == before[i] && all[i] == s[i]);
                }
            }
            assert forall|k: int| #[trigger] at.contains(k) <==> 0 <= k < n && rows[k].parent == parent
                && (rows[k].b_type == 1 || rows[k].b_type == 2) by {
                if at.contains(k) {
                    let i = choose|i: int| 0 <= i < at.len() && at[i] == k;
                    if i < before.len() {
                        assert(before[i] == k);
                        assert(before.contains(k));
                    }
                }
                if 0 <= k < n && rows[k].parent == parent && (rows[k].b_type == 1 || rows[k].b_type
                    == 2) {
                    if k < n - 1 {
                        assert(before.contains(k));
                        let i = choose|i: int| 0 <= i < before.len() && before[i] == k;
                        assert(at[i] == k);
                    } else {
                        assert(at[before.len() as int] == k);
                    }
                }
            }
            at
        } else {
            before
        }
    }
}

/// The nodes under a parent are those of its rows: each folder and each link row under the parent
/// has its node, in the order of the rows, and no other row has one.
pub proof fn law_each_row_becomes_its_node(parent: i64, rows: Seq<RowView>) -> (at: Seq<int>)
    requires
        tree_under(parent, rows) is Some,
    ensures
        are_nodes_of_rows(tree_under(parent, rows)->0, rows, at),
        forall|k: int| #[trigger]
            at.contains(k) <==> 0 <= k < rows.len() && rows[k].parent == parent && (rows[k].b_type
                == 1 || rows[k].b_type == 2),
{
    lemma_nodes_of_rows(parent, rows, rows.len() as int, rows.len())
}

/// The document that rows stand for has the nodes under the rows of the bar, of the other bookmarks
/// and of the menu in its three roots.
pub proof fn law_document_has_the_three_roots(rows: Seq<RowView>, doc: Json)
    requires
        firefox_tree(rows) == Some(doc),
    ensures
        doc.member("roots"@) matches Some(roots) && ({
            &&& roots.member("bookmark_bar"@) matches Some(bar) && bar.type_is("folder"@)
                && bar.array_member("children"@) == tree_under(3, rows)
            &&& roots.member("other"@) matches Some(other) && other.type_is("folder"@)
                && other.array_member("children"@) == tree_under(5, rows)
            &&& roots.member("menu"@) matches Some(menu) && menu.type_is("folder"@)
                && menu.array_member("children"@) == tree_under(2, rows)
        }),
{
    reveal_strlit("id");
    reveal_strlit("_firefox_id");
    reveal_strlit("name");
    reveal_strlit("type");
    reveal_strlit("children");
    reveal_strlit("roots");
    reveal_strlit("version");
    reveal_strlit("other");
    reveal_strlit("menu");
    reveal_strlit("bookmark_bar");
    assert("_firefox_id"@.len() == 11 && "children"@.len() == 8 && "name"@.len() == 4
        && "type"@.len() == 4 && "id"@.len() == 2 && "roots"@.len() == 5 && "version"@.len() == 7
        && "other"@.len() == 5 && "menu"@.len() == 4 && "bookmark_bar"@.len() == 12);
    assert("name"@[0] == 'n' && "type"@[0] == 't');
}

/// A row as it is read keeps what the table says of it; a missing title or address is empty, and
/// only a missing identifier is made up.
pub proof fn law_row_is_read_as_it_is(raw: Seq<RawRow>, r: RawRow, mint: MintState)
    ensures
        filled_rows(Seq::empty(), mint).0.len() == 0,
        ({
            let before = filled_rows(raw, mint).0;
            let after = filled_rows(raw.push(r), mint).0;
            let x = after.last();
            &&& after.len() == before.len() + 1
            &&& after.drop_last() == before
            &&& x.id == r.id && x.b_type == r.b_type && x.parent == r.parent
            &&& x.date_added == r.date_added && x.last_modified == r.last_modified
            &&& r.title matches Some(t) ==> x.title == t@
            &&& r.title is None ==> x.title.len() == 0
            &&& r.url matches Some(u) ==> x.url == u@
            &&& r.url is None ==> x.url.len() == 0
            &&& r.guid matches Some(g) ==> x.guid == g@
        }),
{
    reveal_strlit("");
    assert(raw.push(r).drop_last() =~= raw);
    let before = filled_rows(raw, mint).0;
    assert(filled_rows(raw.push(r), mint).0.drop_last() =~= before);
}

} // verus!

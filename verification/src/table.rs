//! What the bookmark table of Firefox holds after the listed changes: read again, it gives the
//! folders and links of the document that was written.
use vstd::prelude::*;
use crate::firefox;
use crate::firefox::{RowView, BAR_ROW, MENU_ROW, OTHER_ROW};
use crate::guid::MintState;
use crate::node;
use crate::sync;
use crate::sync::{ChangeView, OwnerView};
use crate::tree;
use crate::value::Json;

verus! {

// ---------------------------------------------------------------------------
// The model
// ---------------------------------------------------------------------------

/// The folder row that the row of a change belongs to.
pub open spec fn owner_of(c: ChangeView) -> OwnerView {
    match c {
        ChangeView::UpdateFolder { owner, .. } => owner,
        ChangeView::InsertFolder { owner, .. } => owner,
        ChangeView::UpdateLink { owner, .. } => owner,
        ChangeView::InsertLink { owner, .. } => owner,
    }
}

/// The position that a change gives its row.
pub open spec fn position_of(c: ChangeView) -> int {
    match c {
        ChangeView::UpdateFolder { position, .. } => position,
        ChangeView::InsertFolder { position, .. } => position,
        ChangeView::UpdateLink { position, .. } => position,
        ChangeView::InsertLink { position, .. } => position,
    }
}

/// The title that a change gives its row.
pub open spec fn title_of(c: ChangeView) -> Seq<char> {
    match c {
        ChangeView::UpdateFolder { title, .. } => title,
        ChangeView::InsertFolder { title, .. } => title,
        ChangeView::UpdateLink { title, .. } => title,
        ChangeView::InsertLink { title, .. } => title,
    }
}

/// The address of the page that a change gives its row.
pub open spec fn url_of(c: ChangeView) -> Seq<char> {
    match c {
        ChangeView::UpdateLink { url, .. } => url,
        ChangeView::InsertLink { url, .. } => url,
        _ => ""@,
    }
}

/// The change inserts a row.
pub open spec fn is_insertion(c: ChangeView) -> bool {
    c is InsertFolder || c is InsertLink
}

/// The row of a change after all changes. Its stamps and its identifier do not matter here.
pub open spec fn row_after(changes: Seq<ChangeView>, made: Seq<Option<i64>>, k: int) -> RowView {
    let c = changes[k];
    RowView {
        id: sync::kept_row(c, made[k])->0,
        b_type: if c is UpdateFolder || c is InsertFolder {
            2
        } else {
            1
        },
        title: title_of(c),
        url: url_of(c),
        parent: sync::owner_row(owner_of(c), made),
        date_added: 0,
        last_modified: 0,
        guid: ""@,
    }
}

/// The rows of all changes after all changes, in the order of the changes.
pub open spec fn table_after(changes: Seq<ChangeView>, made: Seq<Option<i64>>) -> Seq<RowView> {
    Seq::new(changes.len(), |k: int| row_after(changes, made, k))
}

/// All changes were made: every insertion made a row, and every row is the row of one change.
pub open spec fn all_made(changes: Seq<ChangeView>, made: Seq<Option<i64>>) -> bool {
    let rows = table_after(changes, made);
    &&& made.len() == changes.len()
    &&& forall|k: int|
        0 <= k < changes.len() ==> (is_insertion(#[trigger] changes[k]) ==> made[k] is Some)
    &&& forall|i: int, j: int|
        0 <= i < j < rows.len() ==> #[trigger] rows[i].id != #[trigger] rows[j].id
}

/// A row is none of the three roots.
pub open spec fn spares_roots(rows: Seq<RowView>) -> bool {
    forall|k: int|
        0 <= k < rows.len() ==> (#[trigger] rows[k]).id != BAR_ROW && rows[k].id != OTHER_ROW
            && rows[k].id != MENU_ROW
}

/// What the table can hold of a folder or a link.
pub enum Shape {
    Folder { title: Seq<char>, children: Seq<Shape> },
    Link { title: Seq<char>, url: Seq<char> },
}

/// What the table can hold of a node: nothing of one that is neither folder nor link.
pub open spec fn shape_of(n: Json) -> Seq<Shape>
    decreases n, 0int,
{
    let title = sync::table_text(node::name_of(n));
    if node::is_folder(n) {
        seq![
            Shape::Folder {
                title,
                children: match n {
                    Json::Object(o) => if o.dom().contains("children"@) {
                        match o["children"@] {
                            Json::Array(c) => shapes(c, c.len() as int),
                            _ => Seq::empty(),
                        }
                    } else {
                        Seq::empty()
                    },
                    _ => Seq::empty(),
                },
            },
        ]
    } else if node::is_link(n) {
        seq![Shape::Link { title, url: sync::table_text(node::text_or(n, "url"@, ""@)) }]
    } else {
        Seq::empty()
    }
}

/// What the table can hold of the first `k` nodes of a list.
pub open spec fn shapes(nodes: Seq<Json>, k: int) -> Seq<Shape>
    decreases nodes, k,
{
    if k <= 0 || k > nodes.len() {
        Seq::empty()
    } else {
        shapes(nodes, k - 1) + shape_of(nodes[k - 1])
    }
}

// ---------------------------------------------------------------------------
// Shapes
// ---------------------------------------------------------------------------

/// The first nodes have the same shapes in a longer list.
proof fn lemma_shapes_prefix(nodes: Seq<Json>, x: Json, k: int)
    requires
        k <= nodes.len(),
    ensures
        shapes(nodes.push(x), k) == shapes(nodes, k),
    decreases k,
{
    if k > 0 {
        lemma_shapes_prefix(nodes, x, k - 1);
    }
}

/// The shapes of a list with one more node.
proof fn lemma_shapes_push(nodes: Seq<Json>, x: Json)
    ensures
        shapes(nodes.push(x), nodes.len() as int + 1) == shapes(nodes, nodes.len() as int) + shape_of(x),
{
    lemma_shapes_prefix(nodes, x, nodes.len() as int);
}

/// The shape of the node of a folder row.
proof fn lemma_folder_shape(r: RowView, c: Seq<Json>)
    ensures
        shape_of(firefox::folder_node(r, c)) == seq![
            Shape::Folder {
                title: sync::table_text(r.title),
                children: shapes(c, c.len() as int),
            },
        ],
{
    sync::lemma_keys();
    let n = firefox::folder_node(r, c);
    assert(n.text_member("type"@) == Some("folder"@));
    assert(n.text_member("name"@) == Some(r.title));
    assert(n->Object_0["children"@] == Json::Array(c));
}

/// The shape of the node of a link row.
proof fn lemma_link_shape(r: RowView)
    ensures
        shape_of(firefox::link_node(r)) == seq![
            Shape::Link { title: sync::table_text(r.title), url: sync::table_text(r.url) },
        ],
{
    sync::lemma_keys();
    let n = firefox::link_node(r);
    assert(n.text_member("type"@) == Some("url"@));
    assert(n.text_member("name"@) == Some(r.title));
    assert(n.text_member("url"@) == Some(r.url));
    assert("url"@.len() == 3 && "folder"@.len() == 6);
}

/// A text that the table has taken is taken as it is.
proof fn lemma_taken_text(s: Seq<char>)
    ensures
        sync::table_text(sync::table_text(s)) == sync::table_text(s),
{
}

// ---------------------------------------------------------------------------
// Where changes stand
// ---------------------------------------------------------------------------

/// The changes stand in the list from a position on.
spec fn stands(changes: Seq<ChangeView>, base: int, s: Seq<ChangeView>) -> bool {
    &&& 0 <= base
    &&& base + s.len() <= changes.len()
    &&& forall|x: int| 0 <= x < s.len() ==> changes[base + x] == #[trigger] s[x]
}

/// The position behind changes that stand in the list.
spec fn end(base: nat, s: Seq<ChangeView>) -> int {
    base as int + s.len()
}

/// The parts of what stands in the list stand in it.
proof fn lemma_stands_parts(
    changes: Seq<ChangeView>,
    base: int,
    a: Seq<ChangeView>,
    b: Seq<ChangeView>,
)
    requires
        stands(changes, base, a + b),
    ensures
        stands(changes, base, a),
        stands(changes, base + a.len(), b),
{
    assert forall|x: int| 0 <= x < a.len() implies changes[base + x] == #[trigger] a[x] by {
        assert((a + b)[x] == a[x]);
    }
    assert forall|x: int| 0 <= x < b.len() implies changes[base + a.len() + x] == #[trigger] b[x] by {
        assert((a + b)[a.len() + x] == b[x]);
    }
}

/// The changes of a shorter list of nodes.
spec fn upto(owner: OwnerView, nodes: Seq<Json>, n: int, base: nat, mint: MintState) -> Seq<
    ChangeView,
> {
    sync::list_changes(owner, nodes, n, base, mint).0
}

/// The changes of a node in a list.
spec fn part(owner: OwnerView, nodes: Seq<Json>, i: int, base: nat, mint: MintState) -> Seq<
    ChangeView,
> {
    let (s, m) = sync::list_changes(owner, nodes, i, base, mint);
    sync::node_changes(owner, i, nodes[i], base + s.len(), m).0
}

/// The changes of one more node come behind those of the nodes before it.
proof fn lemma_upto(owner: OwnerView, nodes: Seq<Json>, i: int, base: nat, mint: MintState)
    requires
        0 <= i < nodes.len(),
    ensures
        upto(owner, nodes, i + 1, base, mint) == upto(owner, nodes, i, base, mint) + part(
            owner,
            nodes,
            i,
            base,
            mint,
        ),
{
}

/// The children of a folder node, or none.
spec fn kids(n: Json) -> Seq<Json> {
    match node::children_of(n) {
        Some(c) => c,
        None => Seq::empty(),
    }
}

/// The changes of a folder node: its own, and those of its children behind it.
proof fn lemma_folder_part(owner: OwnerView, position: int, n: Json, base: nat, mint: MintState) -> (r:
    (OwnerView, MintState))
    requires
        node::is_folder(n),
    ensures
        ({
            let s = sync::node_changes(owner, position, n, base, mint).0;
            let c = kids(n);
            &&& s == seq![s[0]] + upto(r.0, c, c.len() as int, base + 1, r.1)
            &&& s.len() > 0
            &&& s[0] is UpdateFolder || s[0] is InsertFolder
            &&& owner_of(s[0]) == owner
            &&& title_of(s[0]) == sync::table_text(node::name_of(n))
            &&& s[0] matches ChangeView::UpdateFolder { id, .. } ==> r.0 == OwnerView::Known(id)
            &&& s[0] is InsertFolder ==> r.0 == OwnerView::Made(base as int)
            &&& shape_of(n) == seq![
                Shape::Folder { title: title_of(s[0]), children: shapes(c, c.len() as int) },
            ]
        }),
        n is Object,
{
    sync::lemma_keys();
    reveal_strlit("");
    let s = sync::node_changes(owner, position, n, base, mint).0;
    let (below, m) = match sync::row_of(n) {
        Some(id) => (OwnerView::Known(id), mint),
        None => (OwnerView::Made(base as int), mint.firefox_drawn()),
    };
    let c = kids(n);
    assert(n is Object);
    let o = n->Object_0;
    if o.dom().contains("children"@) && o["children"@] is Array {
        assert(s =~= seq![s[0]] + upto(below, c, c.len() as int, base + 1, m));
    } else {
        assert(upto(below, c, 0, base + 1, m) =~= Seq::empty());
        assert(s =~= seq![s[0]] + Seq::empty());
    }
    (below, m)
}

// ---------------------------------------------------------------------------
// Whose rows are where
// ---------------------------------------------------------------------------

/// Every row in a stretch belongs to the owner, or to a row in the stretch.
spec fn closed(rows: Seq<RowView>, lo: int, hi: int, p: i64) -> bool {
    forall|j: int|
        lo <= j < hi ==> (#[trigger] rows[j]).parent == p || has_row(rows, lo, hi, rows[j].parent)
}

/// A row in a stretch has the number.
spec fn has_row(rows: Seq<RowView>, lo: int, hi: int, id: i64) -> bool {
    exists|i: int| lo <= i < hi && (#[trigger] rows[i]).id == id
}

/// A row in a stretch is in a wider one.
proof fn lemma_wider(rows: Seq<RowView>, lo: int, hi: int, lo2: int, hi2: int, id: i64)
    requires
        lo2 <= lo,
        hi <= hi2,
        has_row(rows, lo, hi, id),
    ensures
        has_row(rows, lo2, hi2, id),
{
    let i = choose|i: int| lo <= i < hi && (#[trigger] rows[i]).id == id;
    assert(rows[i].id == id);
}

/// Two closed stretches one behind the other are closed.
proof fn lemma_closed_joined(rows: Seq<RowView>, lo: int, mid: int, hi: int, p: i64)
    requires
        lo <= mid <= hi,
        closed(rows, lo, mid, p),
        closed(rows, mid, hi, p),
    ensures
        closed(rows, lo, hi, p),
{
    assert forall|j: int| lo <= j < hi implies (#[trigger] rows[j]).parent == p || has_row(
        rows,
        lo,
        hi,
        rows[j].parent,
    ) by {
        if rows[j].parent != p {
            if j < mid {
                lemma_wider(rows, lo, mid, lo, hi, rows[j].parent);
            } else {
                lemma_wider(rows, mid, hi, lo, hi, rows[j].parent);
            }
        }
    }
}

/// The row of the owner that a folder's change stands for.
proof fn lemma_owner_row(changes: Seq<ChangeView>, made: Seq<Option<i64>>, k: int, below: OwnerView)
    requires
        all_made(changes, made),
        0 <= k < changes.len(),
        changes[k] matches ChangeView::UpdateFolder { id, .. } ==> below == OwnerView::Known(id),
        changes[k] is InsertFolder ==> below == OwnerView::Made(k),
        changes[k] is UpdateFolder || changes[k] is InsertFolder,
    ensures
        sync::owner_row(below, made) == table_after(changes, made)[k].id,
{
    assert(is_insertion(changes[k]) ==> made[k] is Some);
}

/// A folder's row and the rows below it belong to the owner or to one another.
proof fn lemma_closed_folder(rows: Seq<RowView>, lo: int, hi: int, p: i64)
    requires
        lo < hi,
        rows[lo].parent == p,
        closed(rows, lo + 1, hi, rows[lo].id),
    ensures
        closed(rows, lo, hi, p),
{
    assert forall|j: int| lo <= j < hi implies (#[trigger] rows[j]).parent == p || has_row(
        rows,
        lo,
        hi,
        rows[j].parent,
    ) by {
        if j > lo {
            if rows[j].parent != rows[lo].id {
                lemma_wider(rows, lo + 1, hi, lo, hi, rows[j].parent);
            }
        }
    }
}

/// The rows of a node's changes belong to the owner or to one another.
proof fn lemma_closed_node(
    changes: Seq<ChangeView>,
    made: Seq<Option<i64>>,
    owner: OwnerView,
    position: int,
    n: Json,
    base: nat,
    mint: MintState,
)
    requires
        all_made(changes, made),
        stands(changes, base as int, sync::node_changes(owner, position, n, base, mint).0),
    ensures
        closed(
            table_after(changes, made),
            base as int,
            end(base, sync::node_changes(owner, position, n, base, mint).0),
            sync::owner_row(owner, made),
        ),
    decreases n, 0int,
{
    let s = sync::node_changes(owner, position, n, base, mint).0;
    let rows = table_after(changes, made);
    let p = sync::owner_row(owner, made);
    if node::is_folder(n) {
        let (below, m) = lemma_folder_part(owner, position, n, base, mint);
        let rest = upto(below, kids(n), kids(n).len() as int, base + 1, m);
        lemma_stands_parts(changes, base as int, seq![s[0]], rest);
        assert(changes[base as int + 0] == s[0]);
        lemma_owner_row(changes, made, base as int, below);
        let o = n->Object_0;
        if o.dom().contains("children"@) && o["children"@] is Array {
            let c = o["children"@]->Array_0;
            assert(kids(n) == c);
            lemma_closed_tail(changes, made, below, c, 0, c.len() as int, base + 1, m);
        }
        lemma_closed_folder(rows, base as int, end(base, s), p);
    } else if node::is_link(n) {
        assert(changes[base as int + 0] == s[0]);
        assert(s.len() == 1);
    }
}

/// The rows of the changes of the nodes from number `i` on belong to the owner or to one another.
proof fn lemma_closed_tail(
    changes: Seq<ChangeView>,
    made: Seq<Option<i64>>,
    owner: OwnerView,
    nodes: Seq<Json>,
    i: int,
    n: int,
    base: nat,
    mint: MintState,
)
    requires
        all_made(changes, made),
        0 <= i <= n <= nodes.len(),
        stands(changes, base as int, upto(owner, nodes, n, base, mint)),
    ensures
        upto(owner, nodes, i, base, mint).len() <= upto(owner, nodes, n, base, mint).len(),
        closed(
            table_after(changes, made),
            end(base, upto(owner, nodes, i, base, mint)),
            end(base, upto(owner, nodes, n, base, mint)),
            sync::owner_row(owner, made),
        ),
    decreases nodes, n - i,
{
    if i < n {
        let a = upto(owner, nodes, n - 1, base, mint);
        let b = part(owner, nodes, n - 1, base, mint);
        lemma_upto(owner, nodes, n - 1, base, mint);
        lemma_stands_parts(changes, base as int, a, b);
        lemma_closed_tail(changes, made, owner, nodes, i, n - 1, base, mint);
        let (s, m) = sync::list_changes(owner, nodes, n - 1, base, mint);
        lemma_closed_node(changes, made, owner, n - 1, nodes[n - 1], base + s.len(), m);
        lemma_closed_joined(
            table_after(changes, made),
            end(base, upto(owner, nodes, i, base, mint)),
            end(base, a),
            end(base, a + b),
            sync::owner_row(owner, made),
        );
    }
}

// ---------------------------------------------------------------------------
// Reading the table
// ---------------------------------------------------------------------------

/// No row outside a stretch belongs to the owner or to a row in the stretch.
spec fn apart(rows: Seq<RowView>, lo: int, hi: int, p: i64) -> bool {
    forall|j: int|
        0 <= j < rows.len() && !(lo <= j < hi) ==> (#[trigger] rows[j]).parent != p && !has_row(
            rows,
            lo,
            hi,
            rows[j].parent,
        )
}

/// All rows have different numbers.
spec fn distinct(rows: Seq<RowView>) -> bool {
    forall|i: int, j: int|
        0 <= i < j < rows.len() ==> #[trigger] rows[i].id != #[trigger] rows[j].id
}

/// Rows of other folders add nothing to a folder.
proof fn lemma_skip(rows: Seq<RowView>, p: i64, a: int, b: int, depth: nat)
    requires
        0 <= a <= b <= rows.len(),
        forall|j: int| a <= j < b ==> (#[trigger] rows[j]).parent != p,
    ensures
        firefox::nested(p, rows, b, depth) == firefox::nested(p, rows, a, depth),
    decreases b,
{
    if a < b {
        lemma_skip(rows, p, a, b - 1, depth);
    }
}

/// The rows below a folder in a stretch are apart from all others.
proof fn lemma_below_is_apart(rows: Seq<RowView>, lo: int, a: int, b: int, hi: int, p: i64)
    requires
        0 <= lo <= a < b <= hi <= rows.len(),
        distinct(rows),
        apart(rows, lo, hi, p),
        closed(rows, lo, a, p),
        closed(rows, b, hi, p),
        !has_row(rows, lo, hi, p),
        rows[a].parent == p,
    ensures
        apart(rows, a + 1, b, rows[a].id),
        !has_row(rows, a + 1, b, rows[a].id),
        p != rows[a].id,
        !has_row(rows, a + 1, b, p),
{
    let id = rows[a].id;
    assert(has_row(rows, lo, hi, id));
    if has_row(rows, a + 1, b, p) {
        lemma_wider(rows, a + 1, b, lo, hi, p);
    }
    if has_row(rows, a + 1, b, id) {
        let y = choose|y: int| a + 1 <= y < b && (#[trigger] rows[y]).id == id;
        assert(rows[a].id != rows[y].id);
    }
    assert forall|j: int| 0 <= j < rows.len() && !(a + 1 <= j < b) implies (
    #[trigger] rows[j]).parent != id && !has_row(rows, a + 1, b, rows[j].parent) by {
        let q = rows[j].parent;
        if !(lo <= j < hi) {
            if has_row(rows, a + 1, b, q) {
                lemma_wider(rows, a + 1, b, lo, hi, q);
            }
        } else if q != p {
            let (from, to) = if j < a {
                (lo, a)
            } else {
                (b, hi)
            };
            assert(has_row(rows, from, to, q));
            let x = choose|x: int| from <= x < to && (#[trigger] rows[x]).id == q;
            if q == id {
                assert(rows[x].id == rows[a].id);
            }
            if has_row(rows, a + 1, b, q) {
                let y = choose|y: int| a + 1 <= y < b && (#[trigger] rows[y]).id == q;
                assert(rows[x].id == rows[y].id);
            }
        }
    }
}

/// What is known of a list of nodes whose changes stand in the list of changes.
spec fn is_set(
    changes: Seq<ChangeView>,
    made: Seq<Option<i64>>,
    owner: OwnerView,
    nodes: Seq<Json>,
    base: nat,
    mint: MintState,
    depth: nat,
) -> bool {
    let full = upto(owner, nodes, nodes.len() as int, base, mint);
    let rows = table_after(changes, made);
    let p = sync::owner_row(owner, made);
    &&& all_made(changes, made)
    &&& stands(changes, base as int, full)
    &&& apart(rows, base as int, end(base, full), p)
    &&& !has_row(rows, base as int, end(base, full), p)
    &&& depth >= full.len()
}

/// What a folder reads as, its first nodes being those of a list.
spec fn reads_as(read: Option<Seq<Json>>, nodes: Seq<Json>, i: int) -> bool {
    read matches Some(r) && shapes(r, r.len() as int) == shapes(nodes, i)
}

/// One more node that reads as it was written.
proof fn lemma_reads_one_more(read: Seq<Json>, x: Json, nodes: Seq<Json>, i: int)
    requires
        0 <= i < nodes.len(),
        shapes(read, read.len() as int) == shapes(nodes, i),
        shape_of(x) == shape_of(nodes[i]),
    ensures
        reads_as(Some(read.push(x)), nodes, i + 1),
{
    lemma_shapes_push(read, x);
}

/// A folder row and the rows below it read as the folder that was written.
proof fn lemma_folder_reads(
    rows: Seq<RowView>,
    p: i64,
    a: int,
    b: int,
    depth: nat,
    nodes: Seq<Json>,
    k: int,
    kids: Seq<Json>,
)
    requires
        0 <= a < b <= rows.len(),
        0 <= k < nodes.len(),
        depth > 0,
        rows[a].parent == p,
        rows[a].b_type == 2,
        p != rows[a].id,
        !has_row(rows, a + 1, b, p),
        closed(rows, a + 1, b, rows[a].id),
        reads_as(firefox::nested(p, rows, a, depth), nodes, k),
        reads_as(
            firefox::nested_all(rows[a].id, rows, (depth - 1) as nat),
            kids,
            kids.len() as int,
        ),
        shape_of(nodes[k]) == seq![
            Shape::Folder {
                title: sync::table_text(rows[a].title),
                children: shapes(kids, kids.len() as int),
            },
        ],
    ensures
        reads_as(firefox::nested(p, rows, b, depth), nodes, k + 1),
{
    let read = firefox::nested(p, rows, a, depth)->0;
    let inner = firefox::nested_all(rows[a].id, rows, (depth - 1) as nat)->0;
    let x = firefox::folder_node(rows[a], inner);
    assert(firefox::nested(p, rows, a + 1, depth) == Some(read.push(x)));
    lemma_folder_shape(rows[a], inner);
    lemma_reads_one_more(read, x, nodes, k);
    lemma_skip(rows, p, a + 1, b, depth);
}

/// A link row reads as the link that was written.
proof fn lemma_link_reads(
    rows: Seq<RowView>,
    p: i64,
    a: int,
    depth: nat,
    nodes: Seq<Json>,
    k: int,
)
    requires
        0 <= a < rows.len(),
        0 <= k < nodes.len(),
        rows[a].parent == p,
        rows[a].b_type == 1,
        reads_as(firefox::nested(p, rows, a, depth), nodes, k),
        shape_of(nodes[k]) == seq![
            Shape::Link {
                title: sync::table_text(rows[a].title),
                url: sync::table_text(rows[a].url),
            },
        ],
    ensures
        reads_as(firefox::nested(p, rows, a + 1, depth), nodes, k + 1),
{
    let read = firefox::nested(p, rows, a, depth)->0;
    let x = firefox::link_node(rows[a]);
    assert(firefox::nested(p, rows, a + 1, depth) == Some(read.push(x)));
    lemma_link_shape(rows[a]);
    lemma_reads_one_more(read, x, nodes, k);
}

/// The change of a link node.
proof fn lemma_link_part(owner: OwnerView, position: int, n: Json, base: nat, mint: MintState)
    requires
        !node::is_folder(n),
    ensures
        ({
            let s = sync::node_changes(owner, position, n, base, mint).0;
            if node::is_link(n) {
                &&& s.len() == 1
                &&& s[0] is UpdateLink || s[0] is InsertLink
                &&& owner_of(s[0]) == owner
                &&& shape_of(n) == seq![Shape::Link { title: title_of(s[0]), url: url_of(s[0]) }]
                &&& title_of(s[0]) == sync::table_text(node::name_of(n))
                &&& url_of(s[0]) == sync::table_text(node::text_or(n, "url"@, ""@))
            } else {
                s.len() == 0 && shape_of(n) == Seq::<Shape>::empty()
            }
        }),
{
}

/// A folder reads as it was written.
proof fn lemma_list_reads(
    changes: Seq<ChangeView>,
    made: Seq<Option<i64>>,
    owner: OwnerView,
    nodes: Seq<Json>,
    base: nat,
    mint: MintState,
    depth: nat,
)
    requires
        is_set(changes, made, owner, nodes, base, mint, depth),
    ensures
        reads_as(
            firefox::nested_all(
                sync::owner_row(owner, made),
                table_after(changes, made),
                depth,
            ),
            nodes,
            nodes.len() as int,
        ),
    decreases nodes, nodes.len() + 1,
{
    let full = upto(owner, nodes, nodes.len() as int, base, mint);
    let rows = table_after(changes, made);
    let p = sync::owner_row(owner, made);
    lemma_prefix_reads(changes, made, owner, nodes, nodes.len() as int, base, mint, depth);
    lemma_skip(rows, p, end(base, full), rows.len() as int, depth);
}

/// The first nodes of a folder read as they were written.
proof fn lemma_prefix_reads(
    changes: Seq<ChangeView>,
    made: Seq<Option<i64>>,
    owner: OwnerView,
    nodes: Seq<Json>,
    i: int,
    base: nat,
    mint: MintState,
    depth: nat,
)
    requires
        is_set(changes, made, owner, nodes, base, mint, depth),
        0 <= i <= nodes.len(),
    ensures
        reads_as(
            firefox::nested(
                sync::owner_row(owner, made),
                table_after(changes, made),
                end(base, upto(owner, nodes, i, base, mint)),
                depth,
            ),
            nodes,
            i,
        ),
    decreases nodes, i,
{
    let rows = table_after(changes, made);
    let p = sync::owner_row(owner, made);
    if i == 0 {
        assert(upto(owner, nodes, 0, base, mint) =~= Seq::empty());
        lemma_skip(rows, p, 0, base as int, depth);
        assert(firefox::nested(p, rows, 0, depth) == Some(Seq::<Json>::empty()));
    } else {
        lemma_prefix_reads(changes, made, owner, nodes, i - 1, base, mint, depth);
        lemma_node_reads(changes, made, owner, nodes, i - 1, base, mint, depth);
    }
}

/// A node of a folder reads as it was written, behind nodes that do.
proof fn lemma_node_reads(
    changes: Seq<ChangeView>,
    made: Seq<Option<i64>>,
    owner: OwnerView,
    nodes: Seq<Json>,
    k: int,
    base: nat,
    mint: MintState,
    depth: nat,
)
    requires
        is_set(changes, made, owner, nodes, base, mint, depth),
        0 <= k < nodes.len(),
        reads_as(
            firefox::nested(
                sync::owner_row(owner, made),
                table_after(changes, made),
                end(base, upto(owner, nodes, k, base, mint)),
                depth,
            ),
            nodes,
            k,
        ),
    ensures
        reads_as(
            firefox::nested(
                sync::owner_row(owner, made),
                table_after(changes, made),
                end(base, upto(owner, nodes, k + 1, base, mint)),
                depth,
            ),
            nodes,
            k + 1,
        ),
    decreases nodes, 0int,
{
    let rows = table_after(changes, made);
    let p = sync::owner_row(owner, made);
    let full = upto(owner, nodes, nodes.len() as int, base, mint);
    let before = upto(owner, nodes, k, base, mint);
    let s = part(owner, nodes, k, base, mint);
    let at: nat = base + before.len();
    let a = at as int;
    let b = a + s.len();
    let hi = end(base, full);
    let m = sync::list_changes(owner, nodes, k, base, mint).1;
    lemma_upto(owner, nodes, k, base, mint);
    lemma_closed_tail(changes, made, owner, nodes, k + 1, nodes.len() as int, base, mint);
    lemma_prefix_stands(changes, made, owner, nodes, k + 1, base, mint, depth);
    lemma_stands_parts(changes, base as int, before, s);
    lemma_closed_tail(changes, made, owner, nodes, 0, k, base, mint);
    assert(upto(owner, nodes, 0, base, mint).len() == 0);
    let n = nodes[k];
    lemma_taken_text(node::name_of(n));
    lemma_taken_text(node::text_or(n, "url"@, ""@));
    if node::is_folder(n) {
        let (below, m2) = lemma_folder_part(owner, k, n, at, m);
        let c = kids(n);
        let rest = upto(below, c, c.len() as int, at + 1, m2);
        lemma_stands_parts(changes, a, seq![s[0]], rest);
        assert(changes[a + 0] == s[0]);
        lemma_owner_row(changes, made, a, below);
        lemma_below_is_apart(rows, base as int, a, b, hi, p);
        let less = (depth - 1) as nat;
        let o = n->Object_0;
        if o.dom().contains("children"@) && o["children"@] is Array {
            let list = o["children"@]->Array_0;
            assert(c == list);
            lemma_list_reads(changes, made, below, list, at + 1, m2, less);
            lemma_closed_tail(changes, made, below, list, 0, list.len() as int, at + 1, m2);
            assert(upto(below, list, 0, at + 1, m2).len() == 0);
        } else {
            assert(rest =~= Seq::empty());
            lemma_skip(rows, rows[a].id, 0, rows.len() as int, less);
            assert(firefox::nested(rows[a].id, rows, 0, less) == Some(Seq::<Json>::empty()));
        }
        lemma_folder_reads(rows, p, a, b, depth, nodes, k, c);
    } else {
        lemma_link_part(owner, k, n, at, m);
        if node::is_link(n) {
            assert(changes[a + 0] == s[0]);
            lemma_link_reads(rows, p, a, depth, nodes, k);
        } else {
            assert(shapes(nodes, k + 1) =~= shapes(nodes, k));
        }
    }
}

/// The changes of the first nodes of a list stand where those of the list stand.
proof fn lemma_prefix_stands(
    changes: Seq<ChangeView>,
    made: Seq<Option<i64>>,
    owner: OwnerView,
    nodes: Seq<Json>,
    i: int,
    base: nat,
    mint: MintState,
    depth: nat,
)
    requires
        is_set(changes, made, owner, nodes, base, mint, depth),
        0 <= i <= nodes.len(),
    ensures
        stands(changes, base as int, upto(owner, nodes, i, base, mint)),
    decreases nodes.len() - i,
{
    if i < nodes.len() {
        lemma_prefix_stands(changes, made, owner, nodes, i + 1, base, mint, depth);
        lemma_upto(owner, nodes, i, base, mint);
        lemma_stands_parts(
            changes,
            base as int,
            upto(owner, nodes, i, base, mint),
            part(owner, nodes, i, base, mint),
        );
    }
}

// ---------------------------------------------------------------------------
// Positions
// ---------------------------------------------------------------------------

/// The position of a row in a list of nodes is that of its node.
proof fn lemma_direct_position(
    changes: Seq<ChangeView>,
    made: Seq<Option<i64>>,
    owner: OwnerView,
    nodes: Seq<Json>,
    n: int,
    base: nat,
    mint: MintState,
    i: int,
)
    requires
        all_made(changes, made),
        0 <= n <= nodes.len(),
        stands(changes, base as int, upto(owner, nodes, n, base, mint)),
        base <= i < end(base, upto(owner, nodes, n, base, mint)),
        !has_row(
            table_after(changes, made),
            base as int,
            end(base, upto(owner, nodes, n, base, mint)),
            sync::owner_row(owner, made),
        ),
        table_after(changes, made)[i].parent == sync::owner_row(owner, made),
    ensures
        0 <= position_of(changes[i]) < n,
    decreases n,
{
    let rows = table_after(changes, made);
    let p = sync::owner_row(owner, made);
    if n > 0 {
        let before = upto(owner, nodes, n - 1, base, mint);
        let s = part(owner, nodes, n - 1, base, mint);
        lemma_upto(owner, nodes, n - 1, base, mint);
        lemma_stands_parts(changes, base as int, before, s);
        let e = end(base, before);
        let hi = end(base, upto(owner, nodes, n, base, mint));
        if i < e {
            if has_row(rows, base as int, e, p) {
                lemma_wider(rows, base as int, e, base as int, hi, p);
            }
            lemma_direct_position(changes, made, owner, nodes, n - 1, base, mint, i);
        } else {
            let at: nat = base + before.len();
            let m = sync::list_changes(owner, nodes, n - 1, base, mint).1;
            lemma_own_row(changes, made, owner, n - 1, nodes[n - 1], at, m, hi, i);
        }
    }
}

/// Of the rows of a node, only its own belongs to the owner.
proof fn lemma_own_row(
    changes: Seq<ChangeView>,
    made: Seq<Option<i64>>,
    owner: OwnerView,
    position: int,
    n: Json,
    base: nat,
    mint: MintState,
    hi: int,
    i: int,
)
    requires
        all_made(changes, made),
        stands(changes, base as int, sync::node_changes(owner, position, n, base, mint).0),
        hi == end(base, sync::node_changes(owner, position, n, base, mint).0),
        base <= i < hi,
        !has_row(table_after(changes, made), base as int, hi, sync::owner_row(owner, made)),
        table_after(changes, made)[i].parent == sync::owner_row(owner, made),
    ensures
        i == base,
        position_of(changes[i]) == position,
{
    let s = sync::node_changes(owner, position, n, base, mint).0;
    let rows = table_after(changes, made);
    let p = sync::owner_row(owner, made);
    assert(changes[base as int + 0] == s[0]);
    if node::is_folder(n) {
        let (below, m) = lemma_folder_part(owner, position, n, base, mint);
        let c = kids(n);
        let rest = upto(below, c, c.len() as int, base + 1, m);
        lemma_stands_parts(changes, base as int, seq![s[0]], rest);
        lemma_owner_row(changes, made, base as int, below);
        if i > base {
            lemma_closed_tail(changes, made, below, c, 0, c.len() as int, base + 1, m);
            assert(upto(below, c, 0, base + 1, m).len() == 0);
            if p == rows[base as int].id {
                assert(has_row(rows, base as int, hi, p));
            } else {
                lemma_wider(rows, base as int + 1, hi, base as int, hi, p);
            }
        }
    } else {
        lemma_link_part(owner, position, n, base, mint);
    }
}

/// In the rows of a node, those of one folder are in the order of their positions.
proof fn lemma_node_positions(
    changes: Seq<ChangeView>,
    made: Seq<Option<i64>>,
    owner: OwnerView,
    position: int,
    n: Json,
    base: nat,
    mint: MintState,
    i: int,
    j: int,
)
    requires
        all_made(changes, made),
        stands(changes, base as int, sync::node_changes(owner, position, n, base, mint).0),
        base <= i < j < end(base, sync::node_changes(owner, position, n, base, mint).0),
        !has_row(
            table_after(changes, made),
            base as int,
            end(base, sync::node_changes(owner, position, n, base, mint).0),
            sync::owner_row(owner, made),
        ),
        table_after(changes, made)[i].parent == table_after(changes, made)[j].parent,
    ensures
        position_of(changes[i]) < position_of(changes[j]),
    decreases n, 0int,
{
    let s = sync::node_changes(owner, position, n, base, mint).0;
    let rows = table_after(changes, made);
    let p = sync::owner_row(owner, made);
    let hi = end(base, s);
    assert(changes[base as int + 0] == s[0]);
    if node::is_folder(n) {
        let (below, m) = lemma_folder_part(owner, position, n, base, mint);
        let c = kids(n);
        let rest = upto(below, c, c.len() as int, base + 1, m);
        lemma_stands_parts(changes, base as int, seq![s[0]], rest);
        lemma_owner_row(changes, made, base as int, below);
        if i == base {
            lemma_own_row(changes, made, owner, position, n, base, mint, hi, j);
        } else {
            let id = rows[base as int].id;
            if has_row(rows, base as int + 1, hi, id) {
                let y = choose|y: int| base + 1 <= y < hi && (#[trigger] rows[y]).id == id;
                assert(rows[base as int].id != rows[y].id);
            }
            let o = n->Object_0;
            if o.dom().contains("children"@) && o["children"@] is Array {
                let list = o["children"@]->Array_0;
                assert(c == list);
                lemma_list_positions(
                    changes,
                    made,
                    below,
                    list,
                    list.len() as int,
                    base + 1,
                    m,
                    i,
                    j,
                );
            }
        }
    } else {
        lemma_link_part(owner, position, n, base, mint);
    }
}

/// In the rows of a list of nodes, those of one folder are in the order of their positions.
proof fn lemma_list_positions(
    changes: Seq<ChangeView>,
    made: Seq<Option<i64>>,
    owner: OwnerView,
    nodes: Seq<Json>,
    n: int,
    base: nat,
    mint: MintState,
    i: int,
    j: int,
)
    requires
        all_made(changes, made),
        0 <= n <= nodes.len(),
        stands(changes, base as int, upto(owner, nodes, n, base, mint)),
        base <= i < j < end(base, upto(owner, nodes, n, base, mint)),
        !has_row(
            table_after(changes, made),
            base as int,
            end(base, upto(owner, nodes, n, base, mint)),
            sync::owner_row(owner, made),
        ),
        table_after(changes, made)[i].parent == table_after(changes, made)[j].parent,
    ensures
        position_of(changes[i]) < position_of(changes[j]),
    decreases nodes, n,
{
    let rows = table_after(changes, made);
    let p = sync::owner_row(owner, made);
    if n > 0 {
        let before = upto(owner, nodes, n - 1, base, mint);
        let s = part(owner, nodes, n - 1, base, mint);
        lemma_upto(owner, nodes, n - 1, base, mint);
        lemma_stands_parts(changes, base as int, before, s);
        let e = end(base, before);
        let hi = end(base, upto(owner, nodes, n, base, mint));
        let at: nat = base + before.len();
        let m = sync::list_changes(owner, nodes, n - 1, base, mint).1;
        if has_row(rows, base as int, e, p) {
            lemma_wider(rows, base as int, e, base as int, hi, p);
        }
        if has_row(rows, e, hi, p) {
            lemma_wider(rows, e, hi, base as int, hi, p);
        }
        if j < e {
            lemma_list_positions(changes, made, owner, nodes, n - 1, base, mint, i, j);
        } else if i >= e {
            lemma_node_positions(changes, made, owner, n - 1, nodes[n - 1], at, m, i, j);
        } else {
            lemma_closed_tail(changes, made, owner, nodes, 0, n - 1, base, mint);
            assert(upto(owner, nodes, 0, base, mint).len() == 0);
            lemma_closed_node(changes, made, owner, n - 1, nodes[n - 1], at, m);
            let q = rows[i].parent;
            if q == p {
                lemma_direct_position(changes, made, owner, nodes, n - 1, base, mint, i);
                lemma_own_row(changes, made, owner, n - 1, nodes[n - 1], at, m, hi, j);
            } else {
                assert(has_row(rows, base as int, e, q));
                assert(has_row(rows, e, hi, q));
                let x = choose|x: int| base <= x < e && (#[trigger] rows[x]).id == q;
                let y = choose|y: int| e <= y < hi && (#[trigger] rows[y]).id == q;
                assert(rows[x].id == rows[y].id);
            }
        }
    }
}

// ---------------------------------------------------------------------------
// The whole table
// ---------------------------------------------------------------------------

/// The nodes of a root folder, or none.
pub open spec fn nodes_under(doc: Json, key: Seq<char>) -> Seq<Json> {
    match tree::root_folder(doc, key) {
        Some(root) => match node::children_of(root) {
            Some(c) => c,
            None => Seq::empty(),
        },
        None => Seq::empty(),
    }
}

/// The changes of a root folder are those of its nodes.
proof fn lemma_root_changes(doc: Json, key: Seq<char>, row: i64, base: nat, mint: MintState)
    ensures
        sync::root_changes(doc, key, row, base, mint) == sync::list_changes(
            OwnerView::Known(row),
            nodes_under(doc, key),
            nodes_under(doc, key).len() as int,
            base,
            mint,
        ),
{
}

/// Closed stretches of two different roots are apart from one another.
proof fn lemma_stretches_apart(rows: Seq<RowView>, lo: int, hi: int, lo2: int, hi2: int, p: i64, q:
    i64, j: int)
    requires
        0 <= lo <= hi <= rows.len(),
        0 <= lo2 <= j < hi2 <= rows.len(),
        hi <= lo2 || hi2 <= lo,
        distinct(rows),
        closed(rows, lo2, hi2, q),
        p != q,
        !has_row(rows, 0, rows.len() as int, p),
        !has_row(rows, 0, rows.len() as int, q),
    ensures
        rows[j].parent != p,
        !has_row(rows, lo, hi, rows[j].parent),
{
    let r = rows[j].parent;
    if has_row(rows, lo, hi, r) {
        let x = choose|x: int| lo <= x < hi && (#[trigger] rows[x]).id == r;
        if r == q {
            lemma_wider(rows, lo, hi, 0, rows.len() as int, q);
        } else {
            let y = choose|y: int| lo2 <= y < hi2 && (#[trigger] rows[y]).id == r;
            assert(rows[x].id == rows[y].id);
        }
    }
    if r == p {
        lemma_wider(rows, lo2, hi2, 0, rows.len() as int, p);
    }
}

/// What the three roots write, and where it stands.
proof fn lemma_three_roots(doc: Json, mint: MintState, made: Seq<Option<i64>>) -> (r: (
    nat,
    nat,
    MintState,
    MintState,
))
    requires
        all_made(sync::doc_changes(doc, mint).0, made),
        spares_roots(table_after(sync::doc_changes(doc, mint).0, made)),
    ensures
        ({
            let changes = sync::doc_changes(doc, mint).0;
            let rows = table_after(changes, made);
            let bar = nodes_under(doc, "bookmark_bar"@);
            let other = nodes_under(doc, "other"@);
            let menu = nodes_under(doc, "menu"@);
            let (x, y, m1, m2) = r;
            let a = upto(OwnerView::Known(BAR_ROW), bar, bar.len() as int, 0, mint);
            let b = upto(OwnerView::Known(OTHER_ROW), other, other.len() as int, x, m1);
            let c = upto(OwnerView::Known(MENU_ROW), menu, menu.len() as int, y, m2);
            &&& x == end(0, a) && y == end(x, b) && changes.len() == end(y, c)
            &&& stands(changes, 0, a) && stands(changes, x as int, b) && stands(
                changes,
                y as int,
                c,
            )
            &&& closed(rows, 0, x as int, BAR_ROW)
            &&& closed(rows, x as int, y as int, OTHER_ROW)
            &&& closed(rows, y as int, rows.len() as int, MENU_ROW)
            &&& !has_row(rows, 0, rows.len() as int, BAR_ROW)
            &&& !has_row(rows, 0, rows.len() as int, OTHER_ROW)
            &&& !has_row(rows, 0, rows.len() as int, MENU_ROW)
        }),
{
    let changes = sync::doc_changes(doc, mint).0;
    let bar = nodes_under(doc, "bookmark_bar"@);
    let other = nodes_under(doc, "other"@);
    let menu = nodes_under(doc, "menu"@);
    let (a, m1) = sync::root_changes(doc, "bookmark_bar"@, BAR_ROW, 0, mint);
    let (b, m2) = sync::root_changes(doc, "other"@, OTHER_ROW, a.len(), m1);
    let (c, m3) = sync::root_changes(doc, "menu"@, MENU_ROW, a.len() + b.len(), m2);
    lemma_root_changes(doc, "bookmark_bar"@, BAR_ROW, 0, mint);
    lemma_root_changes(doc, "other"@, OTHER_ROW, a.len(), m1);
    lemma_root_changes(doc, "menu"@, MENU_ROW, a.len() + b.len(), m2);
    assert(stands(changes, 0, (a + b) + c));
    lemma_stands_parts(changes, 0, a + b, c);
    lemma_stands_parts(changes, 0, a, b);
    let x: nat = a.len();
    let y: nat = a.len() + b.len();
    lemma_closed_tail(changes, made, OwnerView::Known(BAR_ROW), bar, 0, bar.len() as int, 0, mint);
    lemma_closed_tail(
        changes,
        made,
        OwnerView::Known(OTHER_ROW),
        other,
        0,
        other.len() as int,
        x,
        m1,
    );
    lemma_closed_tail(changes, made, OwnerView::Known(MENU_ROW), menu, 0, menu.len() as int, y, m2);
    assert(upto(OwnerView::Known(BAR_ROW), bar, 0, 0, mint).len() == 0);
    assert(upto(OwnerView::Known(OTHER_ROW), other, 0, x, m1).len() == 0);
    assert(upto(OwnerView::Known(MENU_ROW), menu, 0, y, m2).len() == 0);
    (x, y, m1, m2)
}

/// A stretch between two others is apart from both.
proof fn lemma_root_apart(
    rows: Seq<RowView>,
    x: int,
    y: int,
    lo: int,
    hi: int,
    p: i64,
)
    requires
        0 <= x <= y <= rows.len(),
        distinct(rows),
        closed(rows, 0, x, BAR_ROW),
        closed(rows, x, y, OTHER_ROW),
        closed(rows, y, rows.len() as int, MENU_ROW),
        !has_row(rows, 0, rows.len() as int, BAR_ROW),
        !has_row(rows, 0, rows.len() as int, OTHER_ROW),
        !has_row(rows, 0, rows.len() as int, MENU_ROW),
        (lo == 0 && hi == x && p == BAR_ROW) || (lo == x && hi == y && p == OTHER_ROW) || (lo == y
            && hi == rows.len() && p == MENU_ROW),
    ensures
        apart(rows, lo, hi, p),
        !has_row(rows, lo, hi, p),
{
    assert forall|j: int| 0 <= j < rows.len() && !(lo <= j < hi) implies (#[trigger] rows[j]).parent
        != p && !has_row(rows, lo, hi, rows[j].parent) by {
        if j < x {
            lemma_stretches_apart(rows, lo, hi, 0, x, p, BAR_ROW, j);
        } else if j < y {
            lemma_stretches_apart(rows, lo, hi, x, y, p, OTHER_ROW, j);
        } else {
            lemma_stretches_apart(rows, lo, hi, y, rows.len() as int, p, MENU_ROW, j);
        }
    }
    if has_row(rows, lo, hi, p) {
        lemma_wider(rows, lo, hi, 0, rows.len() as int, p);
    }
}

/// The table reads as the document that was written: after all changes, the rows under each root
/// give the folders and links of the document, with their titles and addresses, in their order.
/// No two nodes of the document may have come from the same row.
pub proof fn law_table_reads_back(doc: Json, mint: MintState, made: Seq<Option<i64>>)
    requires
        all_made(sync::doc_changes(doc, mint).0, made),
        spares_roots(table_after(sync::doc_changes(doc, mint).0, made)),
    ensures
        ({
            let rows = table_after(sync::doc_changes(doc, mint).0, made);
            &&& firefox::tree_under(BAR_ROW, rows) matches Some(bar)
            &&& firefox::tree_under(OTHER_ROW, rows) matches Some(other)
            &&& firefox::tree_under(MENU_ROW, rows) matches Some(menu)
            &&& shapes(bar, bar.len() as int) == shapes(
                nodes_under(doc, "bookmark_bar"@),
                nodes_under(doc, "bookmark_bar"@).len() as int,
            )
            &&& shapes(other, other.len() as int) == shapes(
                nodes_under(doc, "other"@),
                nodes_under(doc, "other"@).len() as int,
            )
            &&& shapes(menu, menu.len() as int) == shapes(
                nodes_under(doc, "menu"@),
                nodes_under(doc, "menu"@).len() as int,
            )
        }),
{
    let changes = sync::doc_changes(doc, mint).0;
    let rows = table_after(changes, made);
    let (x, y, m1, m2) = lemma_three_roots(doc, mint, made);
    let n = rows.len() as int;
    lemma_root_apart(rows, x as int, y as int, 0, x as int, BAR_ROW);
    lemma_root_apart(rows, x as int, y as int, x as int, y as int, OTHER_ROW);
    lemma_root_apart(rows, x as int, y as int, y as int, n, MENU_ROW);
    lemma_list_reads(
        changes,
        made,
        OwnerView::Known(BAR_ROW),
        nodes_under(doc, "bookmark_bar"@),
        0,
        mint,
        rows.len(),
    );
    lemma_list_reads(
        changes,
        made,
        OwnerView::Known(OTHER_ROW),
        nodes_under(doc, "other"@),
        x,
        m1,
        rows.len(),
    );
    lemma_list_reads(
        changes,
        made,
        OwnerView::Known(MENU_ROW),
        nodes_under(doc, "menu"@),
        y,
        m2,
        rows.len(),
    );
}

/// The order of the changes is the order of the table: of two rows of one folder, the one that is
/// listed first has the smaller position.
pub proof fn law_positions_follow_the_order(
    doc: Json,
    mint: MintState,
    made: Seq<Option<i64>>,
    i: int,
    j: int,
)
    requires
        all_made(sync::doc_changes(doc, mint).0, made),
        spares_roots(table_after(sync::doc_changes(doc, mint).0, made)),
        0 <= i < j < sync::doc_changes(doc, mint).0.len(),
        table_after(sync::doc_changes(doc, mint).0, made)[i].parent == table_after(
            sync::doc_changes(doc, mint).0,
            made,
        )[j].parent,
    ensures
        position_of(sync::doc_changes(doc, mint).0[i]) < position_of(
            sync::doc_changes(doc, mint).0[j],
        ),
{
    let changes = sync::doc_changes(doc, mint).0;
    let rows = table_after(changes, made);
    let (x, y, m1, m2) = lemma_three_roots(doc, mint, made);
    let n = rows.len() as int;
    lemma_root_apart(rows, x as int, y as int, 0, x as int, BAR_ROW);
    lemma_root_apart(rows, x as int, y as int, x as int, y as int, OTHER_ROW);
    lemma_root_apart(rows, x as int, y as int, y as int, n, MENU_ROW);
    let bar = nodes_under(doc, "bookmark_bar"@);
    let other = nodes_under(doc, "other"@);
    let menu = nodes_under(doc, "menu"@);
    if j < x {
        lemma_list_positions(
            changes,
            made,
            OwnerView::Known(BAR_ROW),
            bar,
            bar.len() as int,
            0,
            mint,
            i,
            j,
        );
    } else if x <= i && j < y {
        lemma_list_positions(
            changes,
            made,
            OwnerView::Known(OTHER_ROW),
            other,
            other.len() as int,
            x,
            m1,
            i,
            j,
        );
    } else if y <= i {
        lemma_list_positions(
            changes,
            made,
            OwnerView::Known(MENU_ROW),
            menu,
            menu.len() as int,
            y,
            m2,
            i,
            j,
        );
    } else if i < x {
        assert(rows[i].parent == BAR_ROW || has_row(rows, 0, x as int, rows[i].parent));
    } else {
        assert(rows[i].parent == OTHER_ROW || has_row(rows, x as int, y as int, rows[i].parent));
    }
}

// ---------------------------------------------------------------------------
// The table in the order of the question
// ---------------------------------------------------------------------------

/// A row of the table with its position in its folder.
pub struct Stored {
    pub row: RowView,
    pub position: int,
}

/// The rows without their positions.
pub open spec fn rows_in(q: Seq<Stored>) -> Seq<RowView> {
    q.map_values(|s: Stored| s.row)
}

/// The row is the one that a change left. Its stamps and its identifier are those of the table.
pub open spec fn is_left_by(s: Stored, changes: Seq<ChangeView>, made: Seq<Option<i64>>, k: int) -> bool {
    let r = row_after(changes, made, k);
    &&& 0 <= k < changes.len()
    &&& s.position == position_of(changes[k])
    &&& s.row.id == r.id
    &&& s.row.b_type == r.b_type
    &&& s.row.title == r.title
    &&& s.row.url == r.url
    &&& s.row.parent == r.parent
}

/// The row number is that of one of the three roots, or of the row of a change.
pub open spec fn is_ours(changes: Seq<ChangeView>, made: Seq<Option<i64>>, id: i64) -> bool {
    ||| id == BAR_ROW
    ||| id == OTHER_ROW
    ||| id == MENU_ROW
    ||| exists|k: int| 0 <= k < changes.len() && (#[trigger] row_after(changes, made, k)).id == id
}

/// The rows are what the table holds after all changes: the row of each change, and rows outside
/// the three roots.
pub open spec fn is_table(q: Seq<Stored>, changes: Seq<ChangeView>, made: Seq<Option<i64>>) -> bool {
    &&& forall|i: int, j: int|
        0 <= i < j < q.len() ==> (#[trigger] q[i]).row.id != (#[trigger] q[j]).row.id
    &&& forall|k: int|
        0 <= k < changes.len() ==> exists|i: int|
            0 <= i < q.len() && is_left_by(q[i], changes, made, k) && #[trigger] q[i].row.id
                == #[trigger] row_after(changes, made, k).id
    &&& forall|i: int|
        0 <= i < q.len() ==> !is_ours(changes, made, (#[trigger] q[i]).row.parent) || exists|k: int|
            #[trigger] is_left_by(q[i], changes, made, k)
}

/// The rows are in the order of their parents, and of their positions within one parent.
pub open spec fn in_query_order(q: Seq<Stored>) -> bool {
    forall|i: int, j: int|
        0 <= i < j < q.len() ==> {
            ||| (#[trigger] q[i]).row.parent < (#[trigger] q[j]).row.parent
            ||| q[i].row.parent == q[j].row.parent && q[i].position <= q[j].position
        }
}

/// Each number is larger than the one before it.
spec fn rises(s: Seq<int>) -> bool {
    forall|i: int, j: int| 0 <= i < j < s.len() ==> #[trigger] s[i] < #[trigger] s[j]
}

/// Rising numbers are given by their set.
proof fn lemma_rising(a: Seq<int>, b: Seq<int>)
    requires
        rises(a),
        rises(b),
        forall|x: int| #[trigger] a.contains(x) <==> b.contains(x),
    ensures
        a == b,
    decreases a.len(),
{
    if a.len() == 0 {
        if b.len() > 0 {
            assert(b.contains(b[0]));
            assert(a.contains(b[0]));
        }
        assert(a =~= b);
    } else {
        assert(a.contains(a[a.len() - 1]));
        assert(b.len() > 0);
        assert(b.contains(b[b.len() - 1]));
        assert(a.contains(b[b.len() - 1]));
        let i = choose|i: int| 0 <= i < b.len() && b[i] == a.last();
        let j = choose|j: int| 0 <= j < a.len() && a[j] == b.last();
        assert(a.last() == b.last());
        let c = a.drop_last();
        let d = b.drop_last();
        assert forall|x: int| #[trigger] c.contains(x) <==> d.contains(x) by {
            if c.contains(x) {
                let k = choose|k: int| 0 <= k < c.len() && c[k] == x;
                assert(a[k] == x && a[k] < a[a.len() - 1]);
                assert(a.contains(x));
                let m = choose|m: int| 0 <= m < b.len() && b[m] == x;
                assert(d[m] == x);
            }
            if d.contains(x) {
                let k = choose|k: int| 0 <= k < d.len() && d[k] == x;
                assert(b[k] == x && b[k] < b[b.len() - 1]);
                assert(b.contains(x));
                assert(a.contains(x));
                let m = choose|m: int| 0 <= m < a.len() && a[m] == x;
                assert(c[m] == x);
            }
        }
        lemma_rising(c, d);
        assert(a =~= c.push(a.last()));
        assert(b =~= d.push(b.last()));
    }
}

/// The positions, among the first `n` rows, of those under a parent.
spec fn picked(rows: Seq<RowView>, n: int, p: i64) -> Seq<int>
    decreases n,
{
    if n <= 0 || n > rows.len() {
        Seq::empty()
    } else if rows[n - 1].parent == p {
        picked(rows, n - 1, p).push(n - 1)
    } else {
        picked(rows, n - 1, p)
    }
}

/// The picked rows are just those under the parent, in their order.
proof fn lemma_picked(rows: Seq<RowView>, n: int, p: i64)
    requires
        0 <= n <= rows.len(),
    ensures
        rises(picked(rows, n, p)),
        forall|x: int| #[trigger]
            picked(rows, n, p).contains(x) <==> 0 <= x < n && rows[x].parent == p,
    decreases n,
{
    if n > 0 {
        lemma_picked(rows, n - 1, p);
        let a = picked(rows, n - 1, p);
        let b = picked(rows, n, p);
        assert forall|i: int, j: int| 0 <= i < j < b.len() implies #[trigger] b[i]
            < #[trigger] b[j] by {
            assert(b[i] == a[i]);
            if j < a.len() {
                assert(b[j] == a[j]);
            } else {
                assert(a.contains(a[i]));
            }
        }
        assert forall|x: int| #[trigger] b.contains(x) <==> 0 <= x < n && rows[x].parent == p by {
            if b.contains(x) {
                let i = choose|i: int| 0 <= i < b.len() && b[i] == x;
                if i < a.len() {
                    assert(a[i] == x);
                    assert(a.contains(x));
                }
            }
            if 0 <= x < n && rows[x].parent == p {
                if x < n - 1 {
                    assert(a.contains(x));
                    let i = choose|i: int| 0 <= i < a.len() && a[i] == x;
                    assert(b[i] == x);
                } else {
                    assert(b[b.len() - 1] == x);
                }
            }
        }
    }
}

/// The nodes of picked rows, with at most `depth` levels of folders below them.
spec fn nodes_of(rows: Seq<RowView>, at: Seq<int>, depth: nat) -> Option<Seq<Json>>
    decreases at.len(),
{
    if at.len() == 0 {
        Some(Seq::empty())
    } else {
        match nodes_of(rows, at.drop_last(), depth) {
            None => None,
            Some(s) => {
                let r = rows[at.last()];
                if r.b_type == 2 {
                    if depth == 0 {
                        None
                    } else {
                        match firefox::nested_all(r.id, rows, (depth - 1) as nat) {
                            None => None,
                            Some(c) => Some(s.push(firefox::folder_node(r, c))),
                        }
                    }
                } else if r.b_type == 1 {
                    Some(s.push(firefox::link_node(r)))
                } else {
                    Some(s)
                }
            },
        }
    }
}

/// The nodes under a parent are those of the rows under it.
proof fn lemma_nodes_of(p: i64, rows: Seq<RowView>, n: int, depth: nat)
    requires
        0 <= n <= rows.len(),
    ensures
        firefox::nested(p, rows, n, depth) == nodes_of(rows, picked(rows, n, p), depth),
    decreases n,
{
    if n > 0 {
        lemma_nodes_of(p, rows, n - 1, depth);
        let a = picked(rows, n, p);
        if rows[n - 1].parent == p {
            assert(a.drop_last() =~= picked(rows, n - 1, p));
        }
    }
}

/// Two readings have the same shapes.
spec fn reads_alike(a: Option<Seq<Json>>, b: Option<Seq<Json>>) -> bool {
    match (a, b) {
        (Some(s), Some(t)) => shapes(s, s.len() as int) == shapes(t, t.len() as int),
        (None, None) => true,
        _ => false,
    }
}

/// The change that left a row.
spec fn change_of(s: Stored, changes: Seq<ChangeView>, made: Seq<Option<i64>>) -> int {
    choose|k: int| #[trigger] is_left_by(s, changes, made, k)
}

/// The rows under a parent in the order of the question are those of the changes, in their order.
proof fn lemma_same_rows(
    q: Seq<Stored>,
    changes: Seq<ChangeView>,
    made: Seq<Option<i64>>,
    p: i64,
)
    requires
        is_table(q, changes, made),
        in_query_order(q),
        is_ours(changes, made, p),
        all_made(changes, made),
        forall|i: int, j: int|
            0 <= i < j < changes.len() && (#[trigger] row_after(changes, made, i)).parent == (
            #[trigger] row_after(changes, made, j)).parent ==> position_of(changes[i])
                < position_of(changes[j]),
    ensures
        ({
            let a = picked(rows_in(q), q.len() as int, p);
            let b = picked(table_after(changes, made), changes.len() as int, p);
            &&& a.len() == b.len()
            &&& forall|t: int|
                0 <= t < a.len() ==> 0 <= #[trigger] a[t] < q.len() && is_left_by(
                    q[a[t]],
                    changes,
                    made,
                    b[t],
                )
        }),
{
    let rows = table_after(changes, made);
    let a = picked(rows_in(q), q.len() as int, p);
    let b = picked(rows, changes.len() as int, p);
    lemma_picked(rows_in(q), q.len() as int, p);
    lemma_picked(rows, changes.len() as int, p);
    let ks = Seq::new(a.len(), |t: int| change_of(q[a[t]], changes, made));
    assert forall|t: int| 0 <= t < a.len() implies 0 <= #[trigger] a[t] < q.len() && q[a[t]].row.parent
        == p && is_left_by(q[a[t]], changes, made, ks[t]) by {
        assert(a.contains(a[t]));
        assert(rows_in(q)[a[t]] == q[a[t]].row);
        assert(is_ours(changes, made, q[a[t]].row.parent));
    }
    assert forall|i: int, j: int| 0 <= i < j < ks.len() implies #[trigger] ks[i]
        < #[trigger] ks[j] by {
        let x = a[i];
        let y = a[j];
        assert(x < y);
        assert(q[x].row.parent == q[y].row.parent && q[x].position <= q[y].position);
        assert(q[x].row.id != q[y].row.id);
        let k = ks[i];
        let m = ks[j];
        assert(is_left_by(q[x], changes, made, k) && is_left_by(q[y], changes, made, m));
        if m < k {
            assert(row_after(changes, made, m).parent == row_after(changes, made, k).parent);
        }
    }
    assert forall|k: int| #[trigger] ks.contains(k) <==> b.contains(k) by {
        if ks.contains(k) {
            let t = choose|t: int| 0 <= t < ks.len() && ks[t] == k;
            assert(0 <= a[t] < q.len());
            assert(rows[k] == row_after(changes, made, k));
            assert(rows[k].parent == p);
        }
        if b.contains(k) {
            assert(rows[k] == row_after(changes, made, k));
            let i = choose|i: int|
                0 <= i < q.len() && is_left_by(q[i], changes, made, k) && #[trigger] q[i].row.id
                    == row_after(changes, made, k).id;
            assert(rows_in(q)[i] == q[i].row);
            assert(a.contains(i));
            let t = choose|t: int| 0 <= t < a.len() && a[t] == i;
            assert(0 <= a[t] < q.len());
            let m = ks[t];
            assert(is_left_by(q[i], changes, made, m));
            assert(rows[m].id == rows[k].id);
            if m < k {
                assert(rows[m].id != rows[k].id);
            } else if k < m {
                assert(rows[k].id != rows[m].id);
            }
            assert(ks[t] == k);
        }
    }
    lemma_rising(ks, b);
}

/// Reading the rows in the order of the question gives the shapes that reading them in the order
/// of the changes gives.
proof fn lemma_reads_alike(
    q: Seq<Stored>,
    changes: Seq<ChangeView>,
    made: Seq<Option<i64>>,
    p: i64,
    depth: nat,
)
    requires
        is_table(q, changes, made),
        in_query_order(q),
        is_ours(changes, made, p),
        all_made(changes, made),
        forall|i: int, j: int|
            0 <= i < j < changes.len() && (#[trigger] row_after(changes, made, i)).parent == (
            #[trigger] row_after(changes, made, j)).parent ==> position_of(changes[i])
                < position_of(changes[j]),
    ensures
        reads_alike(
            firefox::nested_all(p, rows_in(q), depth),
            firefox::nested_all(p, table_after(changes, made), depth),
        ),
    decreases depth, 1int, 0int,
{
    let rows = table_after(changes, made);
    let a = picked(rows_in(q), q.len() as int, p);
    let b = picked(rows, changes.len() as int, p);
    lemma_same_rows(q, changes, made, p);
    lemma_prefix_alike(q, changes, made, p, depth, a.len() as int);
    assert(a.take(a.len() as int) =~= a);
    assert(b.take(a.len() as int) =~= b);
    lemma_nodes_of(p, rows_in(q), q.len() as int, depth);
    lemma_nodes_of(p, rows, changes.len() as int, depth);
}

/// Reading the first rows under a parent gives the same shapes in both orders.
proof fn lemma_prefix_alike(
    q: Seq<Stored>,
    changes: Seq<ChangeView>,
    made: Seq<Option<i64>>,
    p: i64,
    depth: nat,
    t: int,
)
    requires
        is_table(q, changes, made),
        in_query_order(q),
        is_ours(changes, made, p),
        all_made(changes, made),
        forall|i: int, j: int|
            0 <= i < j < changes.len() && (#[trigger] row_after(changes, made, i)).parent == (
            #[trigger] row_after(changes, made, j)).parent ==> position_of(changes[i])
                < position_of(changes[j]),
        0 <= t <= picked(rows_in(q), q.len() as int, p).len(),
    ensures
        reads_alike(
            nodes_of(rows_in(q), picked(rows_in(q), q.len() as int, p).take(t), depth),
            nodes_of(
                table_after(changes, made),
                picked(table_after(changes, made), changes.len() as int, p).take(t),
                depth,
            ),
        ),
    decreases depth, 0int, t,
{
    let rows = table_after(changes, made);
    let a = picked(rows_in(q), q.len() as int, p);
    let b = picked(rows, changes.len() as int, p);
    lemma_same_rows(q, changes, made, p);
    if t > 0 {
        lemma_prefix_alike(q, changes, made, p, depth, t - 1);
        assert(a.take(t).drop_last() =~= a.take(t - 1));
        assert(b.take(t).drop_last() =~= b.take(t - 1));
        assert(0 <= a[t - 1] < q.len() && is_left_by(q[a[t - 1]], changes, made, b[t - 1]));
        let r = rows_in(q)[a[t - 1]];
        let o = rows[b[t - 1]];
        assert(a.take(t).last() == a[t - 1] && b.take(t).last() == b[t - 1]);
        assert(r == q[a[t - 1]].row);
        assert(o == row_after(changes, made, b[t - 1]));
        if r.b_type == 2 {
            if depth > 0 {
                let below = (depth - 1) as nat;
                assert(is_ours(changes, made, o.id));
                lemma_reads_alike(q, changes, made, o.id, below);
            }
        }
        lemma_one_more_alike(
            rows_in(q),
            rows,
            a.take(t),
            b.take(t),
            depth,
        );
    } else {
        assert(a.take(0) =~= Seq::empty());
        assert(b.take(0) =~= Seq::empty());
    }
}

/// One more row of the same content keeps two readings alike.
proof fn lemma_one_more_alike(
    u: Seq<RowView>,
    v: Seq<RowView>,
    a: Seq<int>,
    b: Seq<int>,
    depth: nat,
)
    requires
        a.len() > 0,
        b.len() > 0,
        reads_alike(nodes_of(u, a.drop_last(), depth), nodes_of(v, b.drop_last(), depth)),
        u[a.last()].id == v[b.last()].id,
        u[a.last()].b_type == v[b.last()].b_type,
        u[a.last()].title == v[b.last()].title,
        u[a.last()].url == v[b.last()].url,
        u[a.last()].b_type == 2 && depth > 0 ==> reads_alike(
            firefox::nested_all(u[a.last()].id, u, (depth - 1) as nat),
            firefox::nested_all(v[b.last()].id, v, (depth - 1) as nat),
        ),
    ensures
        reads_alike(nodes_of(u, a, depth), nodes_of(v, b, depth)),
{
    let r = u[a.last()];
    let o = v[b.last()];
    let x = nodes_of(u, a.drop_last(), depth);
    let y = nodes_of(v, b.drop_last(), depth);
    if x is Some {
        let s = x->0;
        let t = y->0;
        if r.b_type == 2 && depth > 0 {
            let c = firefox::nested_all(r.id, u, (depth - 1) as nat);
            let d = firefox::nested_all(o.id, v, (depth - 1) as nat);
            if c is Some {
                lemma_folder_shape(r, c->0);
                lemma_folder_shape(o, d->0);
                lemma_shapes_push(s, firefox::folder_node(r, c->0));
                lemma_shapes_push(t, firefox::folder_node(o, d->0));
            }
        } else if r.b_type == 1 {
            lemma_link_shape(r);
            lemma_link_shape(o);
            lemma_shapes_push(s, firefox::link_node(r));
            lemma_shapes_push(t, firefox::link_node(o));
        }
    }
}

/// A reading has the folders and links of a root folder, and each of its nodes comes from a row.
pub open spec fn reads_back(read: Option<Seq<Json>>, nodes: Seq<Json>) -> bool {
    &&& read matches Some(s)
    &&& shapes(s, s.len() as int) == shapes(nodes, nodes.len() as int)
    &&& forall|i: int| 0 <= i < s.len() ==> sync::is_from_rows(#[trigger] s[i])
}

/// The table is read back as the document that was written, in the order in which it is asked
/// for: by parent, and by position within one parent. The rows under each root give the folders
/// and links of the document, with their titles and addresses, in their order, and each node
/// read comes from a row. Rows outside the three roots do not matter.
pub proof fn law_query_reads_back(
    doc: Json,
    mint: MintState,
    made: Seq<Option<i64>>,
    q: Seq<Stored>,
)
    requires
        all_made(sync::doc_changes(doc, mint).0, made),
        spares_roots(table_after(sync::doc_changes(doc, mint).0, made)),
        is_table(q, sync::doc_changes(doc, mint).0, made),
        in_query_order(q),
    ensures
        reads_back(
            firefox::tree_under(BAR_ROW, rows_in(q)),
            nodes_under(doc, "bookmark_bar"@),
        ),
        reads_back(firefox::tree_under(OTHER_ROW, rows_in(q)), nodes_under(doc, "other"@)),
        reads_back(firefox::tree_under(MENU_ROW, rows_in(q)), nodes_under(doc, "menu"@)),
{
    let changes = sync::doc_changes(doc, mint).0;
    assert forall|i: int, j: int|
        0 <= i < j < changes.len() && (#[trigger] row_after(changes, made, i)).parent == (
        #[trigger] row_after(changes, made, j)).parent implies position_of(changes[i])
        < position_of(changes[j]) by {
        law_positions_follow_the_order(doc, mint, made, i, j);
    }
    law_table_reads_back(doc, mint, made);
    lemma_query_root(changes, made, q, BAR_ROW);
    lemma_query_root(changes, made, q, OTHER_ROW);
    lemma_query_root(changes, made, q, MENU_ROW);
}

/// A root reads the same in the order of the question.
proof fn lemma_query_root(
    changes: Seq<ChangeView>,
    made: Seq<Option<i64>>,
    q: Seq<Stored>,
    root: i64,
)
    requires
        root == BAR_ROW || root == OTHER_ROW || root == MENU_ROW,
        is_table(q, changes, made),
        in_query_order(q),
        all_made(changes, made),
        forall|i: int, j: int|
            0 <= i < j < changes.len() && (#[trigger] row_after(changes, made, i)).parent == (
            #[trigger] row_after(changes, made, j)).parent ==> position_of(changes[i])
                < position_of(changes[j]),
        firefox::tree_under(root, table_after(changes, made)) is Some,
    ensures
        reads_alike(
            firefox::tree_under(root, rows_in(q)),
            firefox::tree_under(root, table_after(changes, made)),
        ),
        firefox::tree_under(root, rows_in(q)) matches Some(s) ==> forall|i: int|
            0 <= i < s.len() ==> sync::is_from_rows(#[trigger] s[i]),
{
    let rows = table_after(changes, made);
    lemma_reads_alike(q, changes, made, root, rows.len());
    firefox::law_tree_is_complete(root, rows_in(q), rows.len());
    sync::lemma_nested_from_rows(root, rows_in(q), q.len() as int, q.len());
}

} // verus!

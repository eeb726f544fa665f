//! The changes to the bookmark table of Firefox that bring it in line with a tree.
//!
//! The changes are listed before the first is made. A row that a change inserts is not known by
//! then: later changes name it by the position of that change in the list.
use vstd::prelude::*;
use vstd::string::*;
use crate::firefox;
use crate::firefox::{BAR_ROW, MENU_ROW, OTHER_ROW};
use crate::guid::{Mint, MintState};
use crate::node;
use crate::node::{node_is_folder, node_is_link, node_name};
use crate::tree;
use crate::tree::root_folder_ref;
use crate::value;
use crate::value::{Doc, Json};

verus! {

/// The folder row that a row belongs to.
#[derive(Debug, Clone, Copy, PartialEq, Eq, Structural)]
pub enum Owner {
    /// A row that the table has.
    Known(i64),
    /// The row that a change of the list inserts.
    Made(usize),
}

/// The model of an owner.
pub enum OwnerView {
    Known(i64),
    Made(int),
}

impl View for Owner {
    type V = OwnerView;

    open spec fn view(&self) -> OwnerView {
        match *self {
            Owner::Known(id) => OwnerView::Known(id),
            Owner::Made(k) => OwnerView::Made(k as int),
        }
    }
}

/// A change to the table.
#[derive(Debug)]
pub enum Change {
    UpdateFolder { id: i64, owner: Owner, position: u64, title: String },
    InsertFolder { owner: Owner, position: u64, title: String, guid: String },
    /// The page of the link is noted under its own identifier, unless it is known.
    UpdateLink {
        id: i64,
        owner: Owner,
        position: u64,
        title: String,
        url: String,
        page_guid: String,
    },
    InsertLink {
        owner: Owner,
        position: u64,
        title: String,
        url: String,
        page_guid: String,
        guid: String,
    },
}

/// The model of a change.
pub enum ChangeView {
    UpdateFolder { id: i64, owner: OwnerView, position: int, title: Seq<char> },
    InsertFolder { owner: OwnerView, position: int, title: Seq<char>, guid: Seq<char> },
    UpdateLink {
        id: i64,
        owner: OwnerView,
        position: int,
        title: Seq<char>,
        url: Seq<char>,
        page_guid: Seq<char>,
    },
    InsertLink {
        owner: OwnerView,
        position: int,
        title: Seq<char>,
        url: Seq<char>,
        page_guid: Seq<char>,
        guid: Seq<char>,
    },
}

impl View for Change {
    type V = ChangeView;

    open spec fn view(&self) -> ChangeView {
        match *self {
            Change::UpdateFolder { id, owner, position, title } => ChangeView::UpdateFolder {
                id,
                owner: owner@,
                position: position as int,
                title: title@,
            },
            Change::InsertFolder { owner, position, title, guid } => ChangeView::InsertFolder {
                owner: owner@,
                position: position as int,
                title: title@,
                guid: guid@,
            },
            Change::UpdateLink { id, owner, position, title, url, page_guid } => {
                ChangeView::UpdateLink {
                    id,
                    owner: owner@,
                    position: position as int,
                    title: title@,
                    url: url@,
                    page_guid: page_guid@,
                }
            },
            Change::InsertLink { owner, position, title, url, page_guid, guid } => {
                ChangeView::InsertLink {
                    owner: owner@,
                    position: position as int,
                    title: title@,
                    url: url@,
                    page_guid: page_guid@,
                    guid: guid@,
                }
            },
        }
    }
}

/// The models of a list of changes.
pub open spec fn changes_of(s: Seq<Change>) -> Seq<ChangeView> {
    s.map_values(|c: Change| c@)
}

// ---------------------------------------------------------------------------
// The list of changes
// ---------------------------------------------------------------------------

/// A text as the table takes it: one with a zero character in it is taken as empty.
pub open spec fn table_text(s: Seq<char>) -> Seq<char> {
    if s.contains('\0') {
        ""@
    } else {
        s
    }
}

/// The row of a node, where it came from the table.
pub open spec fn row_of(n: Json) -> Option<i64> {
    match n.member("_firefox_id"@) {
        Some(x) => x.int64(),
        None => None,
    }
}

/// The changes for a node and all below it, where `base` changes come before.
pub open spec fn node_changes(
    owner: OwnerView,
    position: int,
    n: Json,
    base: nat,
    mint: MintState,
) -> (Seq<ChangeView>, MintState)
    decreases n, 0int,
{
    let title = table_text(node::name_of(n));
    if node::is_folder(n) {
        let (own, below, m) = match row_of(n) {
            Some(id) => (
                ChangeView::UpdateFolder { id, owner, position, title },
                OwnerView::Known(id),
                mint,
            ),
            None => (
                ChangeView::InsertFolder { owner, position, title, guid: mint.next_firefox_guid() },
                OwnerView::Made(base as int),
                mint.firefox_drawn(),
            ),
        };
        match n {
            Json::Object(o) => if o.dom().contains("children"@) {
                match o["children"@] {
                    Json::Array(c) => {
                        let (rest, m2) = list_changes(below, c, c.len() as int, base + 1, m);
                        (seq![own] + rest, m2)
                    },
                    _ => (seq![own], m),
                }
            } else {
                (seq![own], m)
            },
            _ => (seq![own], m),
        }
    } else if node::is_link(n) {
        let url = table_text(node::text_or(n, "url"@, ""@));
        let page_guid = mint.next_firefox_guid();
        let m = mint.firefox_drawn();
        match row_of(n) {
            Some(id) => (
                seq![ChangeView::UpdateLink { id, owner, position, title, url, page_guid }],
                m,
            ),
            None => (
                seq![
                    ChangeView::InsertLink {
                        owner,
                        position,
                        title,
                        url,
                        page_guid,
                        guid: m.next_firefox_guid(),
                    },
                ],
                m.firefox_drawn(),
            ),
        }
    } else {
        (Seq::empty(), mint)
    }
}

/// The changes for the first `n` nodes of a list and all below them.
pub open spec fn list_changes(
    owner: OwnerView,
    nodes: Seq<Json>,
    n: int,
    base: nat,
    mint: MintState,
) -> (Seq<ChangeView>, MintState)
    decreases nodes, n,
{
    if n <= 0 || n > nodes.len() {
        (Seq::empty(), mint)
    } else {
        let (s, m) = list_changes(owner, nodes, n - 1, base, mint);
        let (t, m2) = node_changes(owner, n - 1, nodes[n - 1], base + s.len(), m);
        (s + t, m2)
    }
}

/// The changes for the children of a root folder, if the document has it.
pub open spec fn root_changes(
    doc: Json,
    key: Seq<char>,
    row: i64,
    base: nat,
    mint: MintState,
) -> (Seq<ChangeView>, MintState) {
    match tree::root_folder(doc, key) {
        Some(root) => match node::children_of(root) {
            Some(c) => list_changes(OwnerView::Known(row), c, c.len() as int, base, mint),
            None => (Seq::empty(), mint),
        },
        None => (Seq::empty(), mint),
    }
}

/// The changes that bring the table in line with a document.
pub open spec fn doc_changes(doc: Json, mint: MintState) -> (Seq<ChangeView>, MintState) {
    let (a, m1) = root_changes(doc, "bookmark_bar"@, BAR_ROW, 0, mint);
    let (b, m2) = root_changes(doc, "other"@, OTHER_ROW, a.len(), m1);
    let (c, m3) = root_changes(doc, "menu"@, MENU_ROW, a.len() + b.len(), m2);
    (a + b + c, m3)
}

/// A text as the table takes it.
fn as_table_text(s: &str) -> (r: String)
    ensures
        r@ == table_text(s@),
{
    let n: usize = s.unicode_len();
    let mut i: usize = 0;
    while i < n
        invariant
            i <= n,
            n == s@.len(),
            forall|j: int| 0 <= j < i ==> s@[j] != '\0',
        decreases n - i,
    {
        if s.get_char(i) == '\0' {
            assert(s@.contains('\0'));
            return "".to_owned();
        }
        i += 1;
    }
    s.to_owned()
}

/// The children of a node in a list are below the list.
proof fn lemma_below(nodes: Seq<Doc>, i: int, c: Seq<Json>)
    requires
        0 <= i < nodes.len(),
        node::children_of(nodes[i]@) == Some(c),
    ensures
        decreases_to!(value::items_of(nodes) => c),
{
    let s = value::items_of(nodes);
    let n = s[i];
    assert(n == nodes[i]@);
    let m = n->Object_0;
    if let Doc::Object(members) = nodes[i] {
        value::lemma_members_finite(members@);
    }
    assert(m.dom().finite());
    assert(decreases_to!(s => s[i]));
    assert(decreases_to!(n => m));
    assert(decreases_to!(m => m["children"@]));
    let a = m["children"@];
    assert(a == Json::Array(c));
    assert(decreases_to!(a => a->Array_0));
}

/// Lists the changes for the nodes of a list and all below them.
fn sync_children(owner: Owner, nodes: &Vec<Doc>, out: &mut Vec<Change>, mint: &mut Mint)
    ensures
        ({
            let (s, m) = list_changes(
                owner@,
                value::items_of(nodes@),
                nodes@.len() as int,
                old(out)@.len(),
                old(mint)@,
            );
            &&& changes_of(final(out)@) == changes_of(old(out)@) + s
            &&& final(mint)@ == m
        }),
    decreases value::items_of(nodes@),
{
    let ghost all = value::items_of(nodes@);
    let ghost start = changes_of(out@);
    let ghost base = out@.len();
    let mut i: usize = 0;
    assert(changes_of(out@) =~= start + Seq::empty());
    while i < nodes.len()
        invariant
            i <= nodes@.len(),
            all == value::items_of(nodes@),
            start == changes_of(old(out)@),
            base == old(out)@.len(),
            start.len() == base,
            ({
                let (s, m) = list_changes(owner@, all, i as int, base, old(mint)@);
                &&& changes_of(out@) == start + s
                &&& mint@ == m
            }),
        decreases nodes.len() - i,
    {
        let ghost so_far = changes_of(out@);
        let ghost m0 = mint@;
        let ghost s0 = list_changes(owner@, all, i as int, base, old(mint)@).0;
        let ghost here = out@.len();
        let n: &Doc = &nodes[i];
        assert(all[i as int] == n@);
        assert(here == base + s0.len()) by {
            assert(so_far.len() == out@.len());
        }
        let title: String = as_table_text(node_name(n));
        let row: Option<i64> = match n.get("_firefox_id") {
            Some(x) => x.as_i64(),
            None => None,
        };
        let position: u64 = i as u64;
        if node_is_folder(n) {
            let at: usize = out.len();
            let below: Owner = match row {
                Some(id) => {
                    out.push(Change::UpdateFolder { id, owner, position, title });
                    Owner::Known(id)
                },
                None => {
                    let guid: String = mint.generate_firefox_guid();
                    out.push(Change::InsertFolder { owner, position, title, guid });
                    Owner::Made(at)
                },
            };
            let ghost own = out@.last()@;
            assert(changes_of(out@) =~= so_far.push(own));
            let ghost m1 = mint@;
            match n.get_array("children") {
                Some(children) => {
                    proof {
                        lemma_below(nodes@, i as int, value::items_of(children@));
                    }
                    sync_children(below, children, out, mint);
                    proof {
                        let c = value::items_of(children@);
                        let rest = list_changes(below@, c, c.len() as int, here + 1, m1).0;
                        assert(so_far.push(own) + rest =~= so_far + (seq![own] + rest));
                        assert(node_changes(owner@, i as int, n@, here, m0).0 == seq![own] + rest);
                    }
                },
                None => {
                    assert(node_changes(owner@, i as int, n@, here, m0).0 == seq![own]);
                    assert(so_far.push(own) =~= so_far + seq![own]);
                },
            }
        } else if node_is_link(n) {
            let url: String = as_table_text(
                match n.get_str("url") {
                    Some(u) => u,
                    None => "",
                },
            );
            let page_guid: String = mint.generate_firefox_guid();
            match row {
                Some(id) => {
                    out.push(Change::UpdateLink { id, owner, position, title, url, page_guid });
                },
                None => {
                    let guid: String = mint.generate_firefox_guid();
                    out.push(Change::InsertLink { owner, position, title, url, page_guid, guid });
                },
            }
            let ghost own = out@.last()@;
            assert(changes_of(out@) =~= so_far + seq![own]);
        } else {
            assert(changes_of(out@) =~= so_far + Seq::empty());
        }
        proof {
            let t = node_changes(owner@, i as int, n@, here, m0).0;
            assert(changes_of(out@) == so_far + t);
            assert((start + s0) + t =~= start + (s0 + t));
        }
        i += 1;
    }
}

/// Lists the changes for the children of a root folder.
fn sync_root(val: &Doc, key: &str, row: i64, out: &mut Vec<Change>, mint: &mut Mint)
    ensures
        ({
            let (s, m) = root_changes(val@, key@, row, old(out)@.len(), old(mint)@);
            &&& changes_of(final(out)@) == changes_of(old(out)@) + s
            &&& final(mint)@ == m
        }),
{
    assert(changes_of(out@) =~= changes_of(out@) + Seq::empty());
    if let Some(root) = root_folder_ref(val, key) {
        if let Some(children) = root.get_array("children") {
            sync_children(Owner::Known(row), children, out, mint);
        }
    }
}

/// Lists the changes that bring the table in line with a document.
pub fn write_firefox_bookmarks(val: &Doc, mint: &mut Mint) -> (r: Vec<Change>)
    ensures
        (changes_of(r@), final(mint)@) == doc_changes(val@, old(mint)@),
{
    let mut out: Vec<Change> = Vec::new();
    sync_root(val, "bookmark_bar", BAR_ROW, &mut out, mint);
    let ghost a = root_changes(val@, "bookmark_bar"@, BAR_ROW, 0, old(mint)@);
    assert(changes_of(out@) =~= a.0);
    assert(changes_of(out@).len() == out@.len());
    sync_root(val, "other", OTHER_ROW, &mut out, mint);
    let ghost b = root_changes(val@, "other"@, OTHER_ROW, a.0.len(), a.1);
    assert(changes_of(out@) =~= a.0 + b.0);
    assert(changes_of(out@).len() == out@.len());
    sync_root(val, "menu", MENU_ROW, &mut out, mint);
    out
}

// ---------------------------------------------------------------------------
// Rows on the way
// ---------------------------------------------------------------------------

/// The row that a change inserted, where it did; `made` has one entry for each change so far.
pub open spec fn made_row(made: Seq<Option<i64>>, k: int) -> i64 {
    if 0 <= k < made.len() && made[k] is Some {
        made[k]->0
    } else {
        0
    }
}

/// The row of an owner: zero stands for a row that was to be inserted and was not.
pub open spec fn owner_row(owner: OwnerView, made: Seq<Option<i64>>) -> i64 {
    match owner {
        OwnerView::Known(id) => id,
        OwnerView::Made(k) => made_row(made, k),
    }
}

impl Owner {
    /// The row of the owner; `made` has one entry for each change so far.
    pub fn row(&self, made: &[Option<i64>]) -> (r: i64)
        ensures
            r == owner_row(self@, made@),
    {
        match *self {
            Owner::Known(id) => id,
            Owner::Made(k) => if k < made.len() {
                match made[k] {
                    Some(id) => id,
                    None => 0,
                }
            } else {
                0
            },
        }
    }
}

/// The row that a change keeps in the table: the one it updates, or the one it inserted. A folder
/// that could not be inserted counts as row zero; a link that could not be inserted does not
/// count.
pub open spec fn kept_row(c: ChangeView, made: Option<i64>) -> Option<i64> {
    match c {
        ChangeView::UpdateFolder { id, .. } => Some(id),
        ChangeView::UpdateLink { id, .. } => Some(id),
        ChangeView::InsertFolder { .. } => Some(
            match made {
                Some(id) => id,
                None => 0,
            },
        ),
        ChangeView::InsertLink { .. } => made,
    }
}

/// The rows that changes keep in the table.
pub open spec fn kept_rows(changes: Seq<ChangeView>, made: Seq<Option<i64>>) -> Set<i64> {
    Set::new(
        |id: i64|
            exists|k: int|
                0 <= k < changes.len() && k < made.len() && #[trigger] kept_row(
                    changes[k],
                    made[k],
                ) == Some(id),
    )
}

/// Of the rows that the table had, those that no change keeps, in their order.
pub open spec fn stale_rows(
    existing: Seq<i64>,
    changes: Seq<ChangeView>,
    made: Seq<Option<i64>>,
) -> Seq<i64> {
    existing.filter(|id: i64| !kept_rows(changes, made).contains(id))
}

/// Tells whether a change keeps a row in the table.
fn keeps(c: &Change, made: Option<i64>, id: i64) -> (r: bool)
    ensures
        r == (kept_row(c@, made) == Some(id)),
{
    match c {
        Change::UpdateFolder { id: own, .. } => *own == id,
        Change::UpdateLink { id: own, .. } => *own == id,
        Change::InsertFolder { .. } => match made {
            Some(new) => new == id,
            None => id == 0,
        },
        Change::InsertLink { .. } => match made {
            Some(new) => new == id,
            None => false,
        },
    }
}

/// Tells whether some change keeps a row in the table.
fn is_kept(id: i64, changes: &[Change], made: &[Option<i64>]) -> (r: bool)
    ensures
        r == kept_rows(changes_of(changes@), made@).contains(id),
{
    let ghost all = changes_of(changes@);
    let mut k: usize = 0;
    while k < changes.len() && k < made.len()
        invariant
            k <= changes@.len(),
            k <= made@.len(),
            all == changes_of(changes@),
            forall|j: int| 0 <= j < k ==> #[trigger] kept_row(all[j], made@[j]) != Some(id),
        decreases changes.len() - k,
    {
        assert(all[k as int] == changes@[k as int]@);
        if keeps(&changes[k], made[k], id) {
            assert(kept_row(all[k as int], made@[k as int]) == Some(id));
            return true;
        }
        k += 1;
    }
    false
}

/// Of the rows that the table had, those that are to be deleted after all changes; `made` has one
/// entry for each change.
pub fn rows_to_delete(existing: &[i64], changes: &[Change], made: &[Option<i64>]) -> (r: Vec<i64>)
    ensures
        r@ == stale_rows(existing@, changes_of(changes@), made@),
{
    let ghost stale = |id: i64| !kept_rows(changes_of(changes@), made@).contains(id);
    let mut out: Vec<i64> = Vec::new();
    let mut i: usize = 0;
    assert(existing@.take(0).filter(stale) =~= Seq::empty()) by {
        reveal(Seq::filter);
    }
    while i < existing.len()
        invariant
            i <= existing@.len(),
            stale == (|id: i64| !kept_rows(changes_of(changes@), made@).contains(id)),
            out@ == existing@.take(i as int).filter(stale),
        decreases existing.len() - i,
    {
        proof {
            reveal(Seq::filter);
            assert(existing@.take(i + 1).drop_last() =~= existing@.take(i as int));
        }
        if !is_kept(existing[i], changes, made) {
            out.push(existing[i]);
        }
        i += 1;
    }
    assert(existing@.take(i as int) =~= existing@);
    out
}

// ---------------------------------------------------------------------------
// Laws
// ---------------------------------------------------------------------------

/// A node at or below another one came from a row.
pub open spec fn holds_row(n: Json, id: i64) -> bool
    decreases n,
{
    (node::is_folder(n) || node::is_link(n)) && (row_of(n) == Some(id) || match n {
        Json::Object(o) => node::is_folder(n) && o.dom().contains("children"@)
            && match o["children"@] {
            Json::Array(c) => exists|i: int|
                0 <= i < c.len() && holds_row(#[trigger] c[i], id),
            _ => false,
        },
        _ => false,
    })
}

/// Some change updates a row.
pub open spec fn updates(changes: Seq<ChangeView>, id: i64) -> bool {
    exists|k: int| 0 <= k < changes.len() && #[trigger] updated_row(changes[k]) == Some(id)
}

/// The row that a change updates.
pub open spec fn updated_row(c: ChangeView) -> Option<i64> {
    match c {
        ChangeView::UpdateFolder { id, .. } => Some(id),
        ChangeView::UpdateLink { id, .. } => Some(id),
        _ => None,
    }
}

/// An update among some changes is among more.
proof fn lemma_updates_more(a: Seq<ChangeView>, b: Seq<ChangeView>, id: i64)
    requires
        updates(a, id) || updates(b, id),
    ensures
        updates(a + b, id),
{
    if updates(a, id) {
        let k = choose|k: int| 0 <= k < a.len() && #[trigger] updated_row(a[k]) == Some(id);
        assert((a + b)[k] == a[k]);
    } else {
        let k = choose|k: int| 0 <= k < b.len() && #[trigger] updated_row(b[k]) == Some(id);
        assert((a + b)[a.len() + k] == b[k]);
    }
}

/// The changes for a node update the rows of all nodes at and below it.
proof fn lemma_node_updates(
    owner: OwnerView,
    position: int,
    n: Json,
    base: nat,
    mint: MintState,
    id: i64,
)
    requires
        holds_row(n, id),
    ensures
        updates(node_changes(owner, position, n, base, mint).0, id),
    decreases n, 0int,
{
    let s = node_changes(owner, position, n, base, mint).0;
    if row_of(n) == Some(id) {
        assert(updated_row(s[0]) == Some(id));
    } else {
        let o = n->Object_0;
        let c = o["children"@]->Array_0;
        let i = choose|i: int| 0 <= i < c.len() && holds_row(#[trigger] c[i], id);
        let (below, m) = match row_of(n) {
            Some(row) => (OwnerView::Known(row), mint),
            None => (OwnerView::Made(base as int), mint.firefox_drawn()),
        };
        lemma_list_updates(below, c, c.len() as int, base + 1, m, id, i);
        let rest = list_changes(below, c, c.len() as int, base + 1, m).0;
        lemma_updates_more(seq![s[0]], rest, id);
        assert(s =~= seq![s[0]] + rest);
    }
}

/// The changes for a list of nodes update the rows of all nodes in and below it.
proof fn lemma_list_updates(
    owner: OwnerView,
    nodes: Seq<Json>,
    n: int,
    base: nat,
    mint: MintState,
    id: i64,
    i: int,
)
    requires
        0 <= i < n <= nodes.len(),
        holds_row(nodes[i], id),
    ensures
        updates(list_changes(owner, nodes, n, base, mint).0, id),
    decreases nodes, n,
{
    let (s, m) = list_changes(owner, nodes, n - 1, base, mint);
    let t = node_changes(owner, n - 1, nodes[n - 1], base + s.len(), m).0;
    if i < n - 1 {
        lemma_list_updates(owner, nodes, n - 1, base, mint, id, i);
    } else {
        lemma_node_updates(owner, n - 1, nodes[n - 1], base + s.len(), m, id);
    }
    lemma_updates_more(s, t, id);
}

/// No row is lost that the document shows: a row that a folder or link under one of the three
/// roots came from is updated and not deleted.
pub proof fn law_shown_rows_stay(
    doc: Json,
    mint: MintState,
    existing: Seq<i64>,
    made: Seq<Option<i64>>,
    key: Seq<char>,
    i: int,
    id: i64,
)
    requires
        key == "bookmark_bar"@ || key == "other"@ || key == "menu"@,
        tree::root_folder(doc, key) is Some,
        node::children_of(tree::root_folder(doc, key)->0) is Some,
        0 <= i < node::children_of(tree::root_folder(doc, key)->0)->0.len(),
        holds_row(node::children_of(tree::root_folder(doc, key)->0)->0[i], id),
        made.len() == doc_changes(doc, mint).0.len(),
    ensures
        updates(doc_changes(doc, mint).0, id),
        !stale_rows(existing, doc_changes(doc, mint).0, made).contains(id),
{
    let (a, m1) = root_changes(doc, "bookmark_bar"@, BAR_ROW, 0, mint);
    let (b, m2) = root_changes(doc, "other"@, OTHER_ROW, a.len(), m1);
    let (c, m3) = root_changes(doc, "menu"@, MENU_ROW, a.len() + b.len(), m2);
    let nodes = node::children_of(tree::root_folder(doc, key)->0)->0;
    let n = nodes.len() as int;
    if key == "bookmark_bar"@ {
        lemma_list_updates(OwnerView::Known(BAR_ROW), nodes, n, 0, mint, id, i);
        lemma_updates_more(a, b, id);
        lemma_updates_more(a + b, c, id);
    } else if key == "other"@ {
        lemma_list_updates(OwnerView::Known(OTHER_ROW), nodes, n, a.len(), m1, id, i);
        lemma_updates_more(a, b, id);
        lemma_updates_more(a + b, c, id);
    } else {
        lemma_list_updates(OwnerView::Known(MENU_ROW), nodes, n, a.len() + b.len(), m2, id, i);
        lemma_updates_more(a + b, c, id);
    }
    let changes = doc_changes(doc, mint).0;
    let k = choose|k: int| 0 <= k < changes.len() && #[trigger] updated_row(changes[k]) == Some(id);
    assert(kept_row(changes[k], made[k]) == Some(id));
    if stale_rows(existing, changes, made).contains(id) {
        law_only_unkept_rows_go(existing, changes, made, id);
    }
}

/// A row is deleted only if it was there and no change keeps it.
pub proof fn law_only_unkept_rows_go(
    existing: Seq<i64>,
    changes: Seq<ChangeView>,
    made: Seq<Option<i64>>,
    id: i64,
)
    requires
        stale_rows(existing, changes, made).contains(id),
    ensures
        existing.contains(id),
        !kept_rows(changes, made).contains(id),
{
    let stale = |id: i64| !kept_rows(changes, made).contains(id);
    existing.lemma_filter_contains_rev(stale, id);
}

/// The node and all below it came from rows.
pub open spec fn is_from_rows(n: Json) -> bool
    decreases n,
{
    &&& node::is_folder(n) || node::is_link(n)
    &&& row_of(n) is Some
    &&& node::is_folder(n) ==> match n {
        Json::Object(o) => o.dom().contains("children"@) ==> match o["children"@] {
            Json::Array(c) => forall|i: int| 0 <= i < c.len() ==> is_from_rows(#[trigger] c[i]),
            _ => true,
        },
        _ => true,
    }
}

/// All changes are updates.
pub open spec fn inserts_nothing(changes: Seq<ChangeView>) -> bool {
    forall|k: int| 0 <= k < changes.len() ==> updated_row(#[trigger] changes[k]) is Some
}

/// Updates and more updates are updates.
proof fn lemma_updates_only(a: Seq<ChangeView>, b: Seq<ChangeView>)
    requires
        inserts_nothing(a),
        inserts_nothing(b),
    ensures
        inserts_nothing(a + b),
{
    assert forall|k: int| 0 <= k < (a + b).len() implies updated_row(
        #[trigger] (a + b)[k],
    ) is Some by {
        if k < a.len() {
            assert((a + b)[k] == a[k]);
        } else {
            assert((a + b)[k] == b[k - a.len()]);
        }
    }
}

/// The changes for a node that came from rows are updates.
proof fn lemma_node_inserts_nothing(
    owner: OwnerView,
    position: int,
    n: Json,
    base: nat,
    mint: MintState,
)
    requires
        is_from_rows(n),
    ensures
        inserts_nothing(node_changes(owner, position, n, base, mint).0),
    decreases n, 0int,
{
    let s = node_changes(owner, position, n, base, mint).0;
    if node::is_folder(n) {
        let id = row_of(n)->0;
        let own = seq![s[0]];
        assert(inserts_nothing(own));
        if let Json::Object(o) = n {
            if o.dom().contains("children"@) {
                if let Json::Array(c) = o["children"@] {
                    let rest = list_changes(
                        OwnerView::Known(id),
                        c,
                        c.len() as int,
                        base + 1,
                        mint,
                    ).0;
                    lemma_list_inserts_nothing(
                        OwnerView::Known(id),
                        c,
                        c.len() as int,
                        base + 1,
                        mint,
                    );
                    lemma_updates_only(own, rest);
                    assert(s =~= own + rest);
                }
            }
        }
    }
}

/// The changes for nodes that came from rows are updates.
proof fn lemma_list_inserts_nothing(
    owner: OwnerView,
    nodes: Seq<Json>,
    n: int,
    base: nat,
    mint: MintState,
)
    requires
        0 <= n <= nodes.len(),
        forall|i: int| 0 <= i < nodes.len() ==> is_from_rows(#[trigger] nodes[i]),
    ensures
        inserts_nothing(list_changes(owner, nodes, n, base, mint).0),
    decreases nodes, n,
{
    if n > 0 {
        let (s, m) = list_changes(owner, nodes, n - 1, base, mint);
        let t = node_changes(owner, n - 1, nodes[n - 1], base + s.len(), m).0;
        lemma_list_inserts_nothing(owner, nodes, n - 1, base, mint);
        lemma_node_inserts_nothing(owner, n - 1, nodes[n - 1], base + s.len(), m);
        lemma_updates_only(s, t);
    }
}

/// The nodes that rows stand for came from rows.
pub proof fn lemma_nested_from_rows(parent: i64, rows: Seq<firefox::RowView>, n: int, depth: nat)
    ensures
        firefox::nested(parent, rows, n, depth) matches Some(s) ==> forall|i: int|
            0 <= i < s.len() ==> is_from_rows(#[trigger] s[i]),
    decreases depth, n,
{
    if 0 < n <= rows.len() && firefox::nested(parent, rows, n, depth) is Some {
        lemma_nested_from_rows(parent, rows, n - 1, depth);
        let r = rows[n - 1];
        if r.parent == parent && r.b_type == 2 {
            let below = (depth - 1) as nat;
            lemma_nested_from_rows(r.id, rows, rows.len() as int, below);
            let c = firefox::nested(r.id, rows, rows.len() as int, below)->0;
            lemma_folder_from_row(r, c);
        } else if r.parent == parent && r.b_type == 1 {
            lemma_link_from_row(r);
        }
    }
}

/// A folder node with children from rows came from rows.
proof fn lemma_folder_from_row(r: firefox::RowView, c: Seq<Json>)
    requires
        forall|i: int| 0 <= i < c.len() ==> is_from_rows(#[trigger] c[i]),
    ensures
        is_from_rows(firefox::folder_node(r, c)),
{
    lemma_keys();
    let n = firefox::folder_node(r, c);
    assert(n.member("_firefox_id"@) == Some(value::int_json(r.id)));
    assert(value::number_of(r.id) == value::number_of(r.id));
    assert(row_of(n) is Some);
    assert(n.text_member("type"@) == Some("folder"@));
    assert(n->Object_0["children"@] == Json::Array(c));
}

/// A link node came from rows.
proof fn lemma_link_from_row(r: firefox::RowView)
    ensures
        is_from_rows(firefox::link_node(r)),
{
    lemma_keys();
    let n = firefox::link_node(r);
    assert(n.member("_firefox_id"@) == Some(value::int_json(r.id)));
    assert(value::number_of(r.id) == value::number_of(r.id));
    assert(row_of(n) is Some);
    assert(n.text_member("type"@) == Some("url"@));
    assert("url"@.len() == 3 && "folder"@.len() == 6);
}

/// The keys of a node are different.
pub proof fn lemma_keys()
    ensures
        "id"@.len() == 2,
        "_firefox_id"@.len() == 11,
        "guid"@.len() == 4,
        "name"@.len() == 4,
        "type"@.len() == 4,
        "url"@.len() == 3,
        "folder"@.len() == 6,
        "children"@.len() == 8,
        "date_added"@.len() == 10,
        "date_modified"@.len() == 13,
        "roots"@.len() == 5,
        "version"@.len() == 7,
        "other"@.len() == 5,
        "menu"@.len() == 4,
        "bookmark_bar"@.len() == 12,
        "roots"@ != "other"@,
        "guid"@ != "name"@,
        "guid"@ != "type"@,
        "name"@ != "type"@,
{
    reveal_strlit("id");
    reveal_strlit("_firefox_id");
    reveal_strlit("guid");
    reveal_strlit("name");
    reveal_strlit("type");
    reveal_strlit("url");
    reveal_strlit("folder");
    reveal_strlit("children");
    reveal_strlit("date_added");
    reveal_strlit("date_modified");
    reveal_strlit("roots");
    reveal_strlit("version");
    reveal_strlit("other");
    reveal_strlit("menu");
    reveal_strlit("bookmark_bar");
    assert("roots"@[0] != "other"@[0]);
    assert("guid"@[0] != "name"@[0]);
    assert("guid"@[0] != "type"@[0]);
    assert("name"@[0] != "type"@[0]);
}

/// The children of a root of the document that rows stand for.
proof fn lemma_firefox_root(bar: Seq<Json>, other: Seq<Json>, menu: Seq<Json>)
    ensures
        ({
            let doc = firefox::firefox_doc(bar, other, menu);
            &&& tree::root_folder(doc, "bookmark_bar"@) matches Some(r)
            &&& node::children_of(r) == Some(bar)
        }),
        ({
            let doc = firefox::firefox_doc(bar, other, menu);
            &&& tree::root_folder(doc, "other"@) matches Some(r)
            &&& node::children_of(r) == Some(other)
        }),
        ({
            let doc = firefox::firefox_doc(bar, other, menu);
            &&& tree::root_folder(doc, "menu"@) matches Some(r)
            &&& node::children_of(r) == Some(menu)
        }),
{
    lemma_keys();
    let doc = firefox::firefox_doc(bar, other, menu);
    tree::lemma_root(doc, "bookmark_bar"@);
    tree::lemma_root(doc, "other"@);
    tree::lemma_root(doc, "menu"@);
}

/// Writing back what was read inserts no row: every change is the update of a row.
pub proof fn law_written_back_inserts_nothing(rows: Seq<firefox::RowView>, mint: MintState)
    requires
        firefox::firefox_tree(rows) is Some,
    ensures
        inserts_nothing(doc_changes(firefox::firefox_tree(rows)->0, mint).0),
{
    let bar = firefox::tree_under(BAR_ROW, rows)->0;
    let other = firefox::tree_under(OTHER_ROW, rows)->0;
    let menu = firefox::tree_under(MENU_ROW, rows)->0;
    let doc = firefox::firefox_tree(rows)->0;
    let n = rows.len() as int;
    lemma_nested_from_rows(BAR_ROW, rows, n, rows.len());
    lemma_nested_from_rows(OTHER_ROW, rows, n, rows.len());
    lemma_nested_from_rows(MENU_ROW, rows, n, rows.len());
    lemma_firefox_root(bar, other, menu);
    let (a, m1) = root_changes(doc, "bookmark_bar"@, BAR_ROW, 0, mint);
    let (b, m2) = root_changes(doc, "other"@, OTHER_ROW, a.len(), m1);
    let (c, m3) = root_changes(doc, "menu"@, MENU_ROW, a.len() + b.len(), m2);
    lemma_list_inserts_nothing(OwnerView::Known(BAR_ROW), bar, bar.len() as int, 0, mint);
    lemma_list_inserts_nothing(
        OwnerView::Known(OTHER_ROW),
        other,
        other.len() as int,
        a.len(),
        m1,
    );
    lemma_list_inserts_nothing(
        OwnerView::Known(MENU_ROW),
        menu,
        menu.len() as int,
        a.len() + b.len(),
        m2,
    );
    lemma_updates_only(a, b);
    lemma_updates_only(a + b, c);
}

/// A change updates a row as it is: under its parent, with its title and its address.
pub open spec fn updates_as_is(c: ChangeView, r: firefox::RowView) -> bool {
    match c {
        ChangeView::UpdateFolder { id, owner, title, .. } => {
            &&& r.b_type == 2
            &&& id == r.id
            &&& owner == OwnerView::Known(r.parent)
            &&& title == table_text(r.title)
        },
        ChangeView::UpdateLink { id, owner, title, url, .. } => {
            &&& r.b_type == 1
            &&& id == r.id
            &&& owner == OwnerView::Known(r.parent)
            &&& title == table_text(r.title)
            &&& url == table_text(r.url)
        },
        _ => false,
    }
}

/// Some change updates a row as it is.
pub open spec fn is_updated(changes: Seq<ChangeView>, r: firefox::RowView) -> bool {
    exists|k: int| 0 <= k < changes.len() && updates_as_is(#[trigger] changes[k], r)
}

/// A change updates one of the rows as it is.
pub open spec fn updates_one(c: ChangeView, rows: Seq<firefox::RowView>) -> bool {
    exists|i: int| 0 <= i < rows.len() && updates_as_is(c, #[trigger] rows[i])
}

/// Every change updates one of the rows as it is.
pub open spec fn only_updates(changes: Seq<ChangeView>, rows: Seq<firefox::RowView>) -> bool {
    forall|k: int| 0 <= k < changes.len() ==> updates_one(#[trigger] changes[k], rows)
}

/// A row is a folder or a link under one of the three roots, at most so many folders deep.
pub open spec fn is_shown(rows: Seq<firefox::RowView>, t: int, depth: nat) -> bool {
    ||| stands_under(rows, t, BAR_ROW, depth)
    ||| stands_under(rows, t, OTHER_ROW, depth)
    ||| stands_under(rows, t, MENU_ROW, depth)
}

/// A row that is a folder or a link stands under a parent, at most so many folders deep.
pub open spec fn stands_under(rows: Seq<firefox::RowView>, t: int, parent: i64, depth: nat) -> bool
    decreases depth,
{
    exists|j: int|
        0 <= j < rows.len() && (#[trigger] rows[j]).parent == parent && is_at_or_below(
            rows,
            t,
            j,
            depth,
        )
}

/// A row that is a folder or a link is another one or stands under it.
pub open spec fn is_at_or_below(rows: Seq<firefox::RowView>, t: int, j: int, depth: nat) -> bool
    decreases depth, 0int,
{
    ||| t == j && (rows[j].b_type == 1 || rows[j].b_type == 2)
    ||| rows[j].b_type == 2 && depth > 0 && stands_under(rows, t, rows[j].id, (depth - 1) as nat)
}

/// The changes for the first nodes do not depend on the nodes behind them.
proof fn lemma_list_prefix(
    owner: OwnerView,
    nodes: Seq<Json>,
    x: Json,
    n: int,
    base: nat,
    mint: MintState,
)
    requires
        n <= nodes.len(),
    ensures
        list_changes(owner, nodes.push(x), n, base, mint) == list_changes(
            owner,
            nodes,
            n,
            base,
            mint,
        ),
    decreases n,
{
    if n > 0 {
        lemma_list_prefix(owner, nodes, x, n - 1, base, mint);
    }
}

/// The changes for the node of a row: its own, which updates it as it is, and those for the nodes
/// below it.
proof fn lemma_row_changes(
    r: firefox::RowView,
    c: Seq<Json>,
    position: int,
    base: nat,
    mint: MintState,
)
    ensures
        ({
            let n = firefox::folder_node(r, c);
            let s = node_changes(OwnerView::Known(r.parent), position, n, base, mint).0;
            r.b_type == 2 && firefox::is_marked(n) ==> {
                &&& firefox::all_marked(c)
                &&& s == seq![s[0]] + list_changes(
                    OwnerView::Known(r.id),
                    c,
                    c.len() as int,
                    base + 1,
                    mint,
                ).0
                &&& s.len() > 0
                &&& updates_as_is(s[0], r)
            }
        }),
        ({
            let n = firefox::link_node(r);
            let s = node_changes(OwnerView::Known(r.parent), position, n, base, mint).0;
            r.b_type == 1 && firefox::is_marked(n) ==> s.len() == 1 && updates_as_is(s[0], r)
        }),
{
    lemma_keys();
    let f = firefox::folder_node(r, c);
    let l = firefox::link_node(r);
    assert(f.member("_firefox_id"@) == Some(value::int_json(r.id)));
    assert(l.member("_firefox_id"@) == Some(value::int_json(r.id)));
    assert(f.text_member("type"@) == Some("folder"@));
    assert(f.text_member("name"@) == Some(r.title));
    assert(f->Object_0["children"@] == Json::Array(c));
    assert(l.text_member("type"@) == Some("url"@));
    assert(l.text_member("name"@) == Some(r.title));
    assert(l.text_member("url"@) == Some(r.url));
    if firefox::is_marked(f) {
        assert(row_of(f) == Some(r.id));
        let s = node_changes(OwnerView::Known(r.parent), position, f, base, mint).0;
        let rest = list_changes(OwnerView::Known(r.id), c, c.len() as int, base + 1, mint).0;
        assert(s =~= seq![s[0]] + rest);
    }
    if firefox::is_marked(l) {
        assert(row_of(l) == Some(r.id));
    }
}

/// What some changes update is updated by more.
proof fn lemma_is_updated(a: Seq<ChangeView>, b: Seq<ChangeView>, r: firefox::RowView)
    requires
        is_updated(a, r) || is_updated(b, r),
    ensures
        is_updated(a + b, r),
{
    if is_updated(a, r) {
        let k = choose|k: int| 0 <= k < a.len() && updates_as_is(#[trigger] a[k], r);
        assert((a + b)[k] == a[k]);
    } else {
        let k = choose|k: int| 0 <= k < b.len() && updates_as_is(#[trigger] b[k], r);
        assert((a + b)[a.len() + k] == b[k]);
    }
}

/// Updates of rows and more of them are updates of rows.
proof fn lemma_only_updates(
    a: Seq<ChangeView>,
    b: Seq<ChangeView>,
    rows: Seq<firefox::RowView>,
)
    requires
        only_updates(a, rows),
        only_updates(b, rows),
    ensures
        only_updates(a + b, rows),
{
    let s = a + b;
    assert forall|k: int| 0 <= k < s.len() implies updates_one(#[trigger] s[k], rows) by {
        if k < a.len() {
            assert(s[k] == a[k]);
        } else {
            assert(s[k] == b[k - a.len()]);
        }
    }
}

/// The changes for the nodes that rows stand for update those rows as they are, and do nothing
/// else.
proof fn lemma_nested_only_updates(
    parent: i64,
    rows: Seq<firefox::RowView>,
    n: int,
    depth: nat,
    base: nat,
    mint: MintState,
)
    requires
        firefox::nested(parent, rows, n, depth) is Some,
        firefox::all_marked(firefox::nested(parent, rows, n, depth)->0),
    ensures
        ({
            let s = firefox::nested(parent, rows, n, depth)->0;
            only_updates(
                list_changes(OwnerView::Known(parent), s, s.len() as int, base, mint).0,
                rows,
            )
        }),
    decreases depth, n,
{
    let owner = OwnerView::Known(parent);
    let s = firefox::nested(parent, rows, n, depth)->0;
    if 0 < n <= rows.len() {
        let before = firefox::nested(parent, rows, n - 1, depth)->0;
        let r = rows[n - 1];
        if s == before {
            lemma_nested_only_updates(parent, rows, n - 1, depth, base, mint);
        } else {
            let x = s.last();
            let c = if r.b_type == 2 {
                firefox::nested_all(r.id, rows, (depth - 1) as nat)->0
            } else {
                Seq::empty()
            };
            assert(s == before.push(x));
            lemma_marked_parts(before, x);
            lemma_nested_only_updates(parent, rows, n - 1, depth, base, mint);
            lemma_list_prefix(owner, before, x, before.len() as int, base, mint);
            let (a, m) = list_changes(owner, before, before.len() as int, base, mint);
            let at: nat = base + a.len();
            let t = node_changes(owner, before.len() as int, x, at, m).0;
            lemma_row_changes(r, c, before.len() as int, at, m);
            let own = seq![t[0]];
            assert(updates_as_is(own[0], rows[n - 1]));
            assert(updates_one(own[0], rows));
            assert(only_updates(own, rows));
            if r.b_type == 2 {
                let below = (depth - 1) as nat;
                lemma_nested_only_updates(r.id, rows, rows.len() as int, below, at + 1, m);
                lemma_only_updates(
                    own,
                    list_changes(OwnerView::Known(r.id), c, c.len() as int, at + 1, m).0,
                    rows,
                );
            } else {
                assert(t =~= own);
            }
            lemma_only_updates(a, t, rows);
        }
    }
}

/// The first nodes of marked ones are marked, and so is the last.
proof fn lemma_marked_parts(before: Seq<Json>, x: Json)
    requires
        firefox::all_marked(before.push(x)),
    ensures
        firefox::all_marked(before),
        firefox::is_marked(x),
{
    let s = before.push(x);
    assert(s[before.len() as int] == x);
    assert forall|i: int| 0 <= i < before.len() implies firefox::is_marked(#[trigger] before[i]) by {
        assert(s[i] == before[i]);
    }
}

/// The changes for the nodes that rows stand for update every row at or below one of the rows
/// under the parent.
proof fn lemma_nested_updates_each(
    parent: i64,
    rows: Seq<firefox::RowView>,
    n: int,
    depth: nat,
    base: nat,
    mint: MintState,
    j: int,
    t: int,
    steps: nat,
)
    requires
        firefox::nested(parent, rows, n, depth) is Some,
        firefox::all_marked(firefox::nested(parent, rows, n, depth)->0),
        0 <= j < n <= rows.len(),
        rows[j].parent == parent,
        is_at_or_below(rows, t, j, steps),
    ensures
        ({
            let s = firefox::nested(parent, rows, n, depth)->0;
            is_updated(
                list_changes(OwnerView::Known(parent), s, s.len() as int, base, mint).0,
                rows[t],
            )
        }),
    decreases depth, n,
{
    let owner = OwnerView::Known(parent);
    let s = firefox::nested(parent, rows, n, depth)->0;
    let before = firefox::nested(parent, rows, n - 1, depth)->0;
    let r = rows[n - 1];
    if s == before {
        assert(j < n - 1);
        lemma_nested_updates_each(parent, rows, n - 1, depth, base, mint, j, t, steps);
    } else {
        let x = s.last();
        let c = if r.b_type == 2 {
            firefox::nested_all(r.id, rows, (depth - 1) as nat)->0
        } else {
            Seq::empty()
        };
        assert(s == before.push(x));
        lemma_marked_parts(before, x);
        lemma_list_prefix(owner, before, x, before.len() as int, base, mint);
        let (a, m) = list_changes(owner, before, before.len() as int, base, mint);
        let at: nat = base + a.len();
        let u = node_changes(owner, before.len() as int, x, at, m).0;
        if j < n - 1 {
            lemma_nested_updates_each(parent, rows, n - 1, depth, base, mint, j, t, steps);
        } else {
            lemma_row_changes(r, c, before.len() as int, at, m);
            if t == j && (r.b_type == 1 || r.b_type == 2) {
                assert(updates_as_is(u[0], rows[t]));
            } else {
                let below = (depth - 1) as nat;
                let less = (steps - 1) as nat;
                let i = choose|i: int|
                    0 <= i < rows.len() && (#[trigger] rows[i]).parent == r.id && is_at_or_below(
                        rows,
                        t,
                        i,
                        less,
                    );
                lemma_nested_updates_each(
                    r.id,
                    rows,
                    rows.len() as int,
                    below,
                    at + 1,
                    m,
                    i,
                    t,
                    less,
                );
                lemma_is_updated(
                    seq![u[0]],
                    list_changes(OwnerView::Known(r.id), c, c.len() as int, at + 1, m).0,
                    rows[t],
                );
            }
        }
        lemma_is_updated(a, u, rows[t]);
    }
}

/// Writing back what was read leaves every row as it is: each change updates a row that was read,
/// under its parent, with its title and its address; each folder or link under one of the three
/// roots is updated so; and none of them is deleted.
pub proof fn law_written_back_keeps_each_row(
    rows: Seq<firefox::RowView>,
    mint: MintState,
    existing: Seq<i64>,
    made: Seq<Option<i64>>,
)
    requires
        firefox::firefox_tree(rows) is Some,
        firefox::rows_marked(rows),
        made.len() == doc_changes(firefox::firefox_tree(rows)->0, mint).0.len(),
    ensures
        ({
            let changes = doc_changes(firefox::firefox_tree(rows)->0, mint).0;
            &&& only_updates(changes, rows)
            &&& forall|t: int, depth: nat| #[trigger]
                is_shown(rows, t, depth) ==> {
                    &&& is_updated(changes, rows[t])
                    &&& !stale_rows(existing, changes, made).contains(rows[t].id)
                }
        }),
{
    let bar = firefox::tree_under(BAR_ROW, rows)->0;
    let other = firefox::tree_under(OTHER_ROW, rows)->0;
    let menu = firefox::tree_under(MENU_ROW, rows)->0;
    let doc = firefox::firefox_tree(rows)->0;
    let n = rows.len() as int;
    lemma_firefox_root(bar, other, menu);
    let (a, m1) = root_changes(doc, "bookmark_bar"@, BAR_ROW, 0, mint);
    let (b, m2) = root_changes(doc, "other"@, OTHER_ROW, a.len(), m1);
    let (c, m3) = root_changes(doc, "menu"@, MENU_ROW, a.len() + b.len(), m2);
    lemma_nested_only_updates(BAR_ROW, rows, n, rows.len(), 0, mint);
    lemma_nested_only_updates(OTHER_ROW, rows, n, rows.len(), a.len(), m1);
    lemma_nested_only_updates(MENU_ROW, rows, n, rows.len(), a.len() + b.len(), m2);
    lemma_only_updates(a, b, rows);
    lemma_only_updates(a + b, c, rows);
    let changes = doc_changes(doc, mint).0;
    assert forall|t: int, depth: nat| #[trigger]
        is_shown(rows, t, depth) implies is_updated(changes, rows[t]) && !stale_rows(existing, changes, made).contains(rows[t].id) by {
        let r = rows[t];
        if stands_under(rows, t, BAR_ROW, depth) {
            lemma_root_updates_each(rows, BAR_ROW, 0, mint, t, depth);
        } else if stands_under(rows, t, OTHER_ROW, depth) {
            lemma_root_updates_each(rows, OTHER_ROW, a.len(), m1, t, depth);
        } else {
            lemma_root_updates_each(rows, MENU_ROW, a.len() + b.len(), m2, t, depth);
        }
        if is_updated(a, r) || is_updated(b, r) {
            lemma_is_updated(a, b, r);
        }
        lemma_is_updated(a + b, c, r);
        let k = choose|k: int| 0 <= k < changes.len() && updates_as_is(#[trigger] changes[k], r);
        assert(kept_row(changes[k], made[k]) == Some(r.id));
        if stale_rows(existing, changes, made).contains(r.id) {
            law_only_unkept_rows_go(existing, changes, made, r.id);
        }
    }
}

/// The changes for a root update every row under it.
proof fn lemma_root_updates_each(
    rows: Seq<firefox::RowView>,
    root: i64,
    base: nat,
    mint: MintState,
    t: int,
    depth: nat,
)
    requires
        firefox::tree_under(root, rows) is Some,
        firefox::all_marked(firefox::tree_under(root, rows)->0),
        stands_under(rows, t, root, depth),
    ensures
        ({
            let s = firefox::tree_under(root, rows)->0;
            is_updated(
                list_changes(OwnerView::Known(root), s, s.len() as int, base, mint).0,
                rows[t],
            )
        }),
{
    let j = choose|j: int|
        0 <= j < rows.len() && (#[trigger] rows[j]).parent == root && is_at_or_below(
            rows,
            t,
            j,
            depth,
        );
    lemma_nested_updates_each(
        root,
        rows,
        rows.len() as int,
        rows.len(),
        base,
        mint,
        j,
        t,
        depth,
    );
}

/// Some change keeps a row: it updates it, or made it. A folder that could not be made counts as
/// row zero.
pub open spec fn some_change_keeps(
    changes: Seq<ChangeView>,
    made: Seq<Option<i64>>,
    id: i64,
) -> bool {
    exists|k: int|
        0 <= k < changes.len() && k < made.len() && (match #[trigger] changes[k] {
            ChangeView::UpdateFolder { id: own, .. } => own == id,
            ChangeView::UpdateLink { id: own, .. } => own == id,
            ChangeView::InsertFolder { .. } => made[k] == Some(id) || (made[k] is None && id == 0),
            ChangeView::InsertLink { .. } => made[k] == Some(id),
        })
}

/// A row is deleted exactly if the table had it and no change keeps it.
pub proof fn law_unkept_rows_go(
    existing: Seq<i64>,
    changes: Seq<ChangeView>,
    made: Seq<Option<i64>>,
    id: i64,
)
    ensures
        stale_rows(existing, changes, made).contains(id) <==> existing.contains(id)
            && !some_change_keeps(changes, made, id),
{
    let stale = |id: i64| !kept_rows(changes, made).contains(id);
    assert(kept_rows(changes, made).contains(id) <==> some_change_keeps(changes, made, id)) by {
        if kept_rows(changes, made).contains(id) {
            let k = choose|k: int|
                0 <= k < changes.len() && k < made.len() && #[trigger] kept_row(
                    changes[k],
                    made[k],
                ) == Some(id);
            assert(changes[k] == changes[k]);
        }
        if some_change_keeps(changes, made, id) {
            let k = choose|k: int|
                0 <= k < changes.len() && k < made.len() && (match #[trigger] changes[k] {
                    ChangeView::UpdateFolder { id: own, .. } => own == id,
                    ChangeView::UpdateLink { id: own, .. } => own == id,
                    ChangeView::InsertFolder { .. } => made[k] == Some(id) || (made[k] is None && id
                        == 0),
                    ChangeView::InsertLink { .. } => made[k] == Some(id),
                });
            assert(kept_row(changes[k], made[k]) == Some(id));
        }
    }
    if stale_rows(existing, changes, made).contains(id) {
        law_only_unkept_rows_go(existing, changes, made, id);
    } else if existing.contains(id) && !kept_rows(changes, made).contains(id) {
        let i = choose|i: int| 0 <= i < existing.len() && existing[i] == id;
        existing.lemma_filter_contains(stale, i);
    }
}

/// Rows are judged one by one: the rows that go of two lists in a row are those of the one, and
/// behind them those of the other.
pub proof fn law_rows_go_one_by_one(
    a: Seq<i64>,
    b: Seq<i64>,
    changes: Seq<ChangeView>,
    made: Seq<Option<i64>>,
)
    ensures
        stale_rows(a + b, changes, made) == stale_rows(a, changes, made) + stale_rows(
            b,
            changes,
            made,
        ),
{
    let stale = |id: i64| !kept_rows(changes, made).contains(id);
    Seq::filter_distributes_over_add(a, b, stale);
}

/// A folder or link under one of the three roots came from a row.
pub open spec fn shows_row(doc: Json, id: i64) -> bool {
    ||| shows_row_under(doc, "bookmark_bar"@, id)
    ||| shows_row_under(doc, "other"@, id)
    ||| shows_row_under(doc, "menu"@, id)
}

/// A folder or link under a root came from a row.
pub open spec fn shows_row_under(doc: Json, key: Seq<char>, id: i64) -> bool {
    &&& tree::root_folder(doc, key) matches Some(root)
    &&& node::children_of(root) matches Some(c)
    &&& exists|i: int| 0 <= i < c.len() && #[trigger] holds_row(c[i], id)
}

/// Of joined changes one updates a row if one of either part does.
proof fn lemma_updates_either(a: Seq<ChangeView>, b: Seq<ChangeView>, id: i64)
    requires
        updates(a + b, id),
    ensures
        updates(a, id) || updates(b, id),
{
    let s = a + b;
    let k = choose|k: int| 0 <= k < s.len() && #[trigger] updated_row(s[k]) == Some(id);
    if k < a.len() {
        assert(updated_row(a[k]) == Some(id));
    } else {
        assert(updated_row(b[k - a.len()]) == Some(id));
    }
}

/// The changes for a node update only rows that a node at or below it came from.
proof fn lemma_node_updates_only(
    owner: OwnerView,
    position: int,
    n: Json,
    base: nat,
    mint: MintState,
    id: i64,
)
    requires
        updates(node_changes(owner, position, n, base, mint).0, id),
    ensures
        holds_row(n, id),
    decreases n, 0int,
{
    let s = node_changes(owner, position, n, base, mint).0;
    if row_of(n) != Some(id) {
        if node::is_folder(n) {
            let (below, m) = match row_of(n) {
                Some(row) => (OwnerView::Known(row), mint),
                None => (OwnerView::Made(base as int), mint.firefox_drawn()),
            };
            let own = seq![s[0]];
            assert(updated_row(s[0]) != Some(id));
            if n->Object_0.dom().contains("children"@) && n->Object_0["children"@] is Array {
                let c = n->Object_0["children"@]->Array_0;
                let rest = list_changes(below, c, c.len() as int, base + 1, m).0;
                assert(s =~= own + rest);
                lemma_updates_either(own, rest, id);
                lemma_list_updates_only(below, c, c.len() as int, base + 1, m, id);
            } else {
                assert(s =~= own);
            }
        } else {
            let k = choose|k: int| 0 <= k < s.len() && #[trigger] updated_row(s[k]) == Some(id);
            assert(k == 0);
        }
    } else {
        let k = choose|k: int| 0 <= k < s.len() && #[trigger] updated_row(s[k]) == Some(id);
        assert(s.len() > 0);
    }
}

/// The changes for a list of nodes update only rows that a node in or below it came from.
proof fn lemma_list_updates_only(
    owner: OwnerView,
    nodes: Seq<Json>,
    n: int,
    base: nat,
    mint: MintState,
    id: i64,
)
    requires
        0 <= n <= nodes.len(),
        updates(list_changes(owner, nodes, n, base, mint).0, id),
    ensures
        exists|i: int| 0 <= i < n && holds_row(#[trigger] nodes[i], id),
    decreases nodes, n,
{
    if n > 0 {
        let (s, m) = list_changes(owner, nodes, n - 1, base, mint);
        let t = node_changes(owner, n - 1, nodes[n - 1], base + s.len(), m).0;
        lemma_updates_either(s, t, id);
        if updates(s, id) {
            lemma_list_updates_only(owner, nodes, n - 1, base, mint, id);
        } else {
            lemma_node_updates_only(owner, n - 1, nodes[n - 1], base + s.len(), m, id);
        }
    }
}

/// The changes for a root update only rows that a node under it came from.
proof fn lemma_root_updates_only(
    doc: Json,
    key: Seq<char>,
    row: i64,
    base: nat,
    mint: MintState,
    id: i64,
)
    requires
        updates(root_changes(doc, key, row, base, mint).0, id),
    ensures
        shows_row_under(doc, key, id),
{
    let s = root_changes(doc, key, row, base, mint).0;
    let k = choose|k: int| 0 <= k < s.len() && #[trigger] updated_row(s[k]) == Some(id);
    let c = node::children_of(tree::root_folder(doc, key)->0)->0;
    lemma_list_updates_only(OwnerView::Known(row), c, c.len() as int, base, mint, id);
}

/// After a document was written, a row that the table had is still there if and only if a folder
/// or link under one of the three roots came from it. No insertion gives a new row the number of
/// an old one.
#[verifier::rlimit(40)]
pub proof fn law_old_row_stays_exactly_if_shown(
    doc: Json,
    mint: MintState,
    existing: Seq<i64>,
    made: Seq<Option<i64>>,
    id: i64,
)
    requires
        made.len() == doc_changes(doc, mint).0.len(),
        existing.contains(id),
        id != 0,
        forall|k: int| 0 <= k < made.len() ==> #[trigger] made[k] != Some(id),
    ensures
        !stale_rows(existing, doc_changes(doc, mint).0, made).contains(id) <==> shows_row(doc, id),
{
    let changes = doc_changes(doc, mint).0;
    let (a, m1) = root_changes(doc, "bookmark_bar"@, BAR_ROW, 0, mint);
    let (b, m2) = root_changes(doc, "other"@, OTHER_ROW, a.len(), m1);
    let (c, m3) = root_changes(doc, "menu"@, MENU_ROW, a.len() + b.len(), m2);
    law_unkept_rows_go(existing, changes, made, id);
    if some_change_keeps(changes, made, id) {
        let k = choose|k: int|
            0 <= k < changes.len() && k < made.len() && (match #[trigger] changes[k] {
                ChangeView::UpdateFolder { id: own, .. } => own == id,
                ChangeView::UpdateLink { id: own, .. } => own == id,
                ChangeView::InsertFolder { .. } => made[k] == Some(id) || (made[k] is None && id
                    == 0),
                ChangeView::InsertLink { .. } => made[k] == Some(id),
            });
        assert(made[k] != Some(id));
        assert(updated_row(changes[k]) == Some(id));
        assert(updates(a + b + c, id));
        lemma_updates_either(a + b, c, id);
        if updates(a + b, id) {
            lemma_updates_either(a, b, id);
            if updates(a, id) {
                lemma_root_updates_only(doc, "bookmark_bar"@, BAR_ROW, 0, mint, id);
            } else {
                lemma_root_updates_only(doc, "other"@, OTHER_ROW, a.len(), m1, id);
            }
        } else {
            lemma_root_updates_only(doc, "menu"@, MENU_ROW, a.len() + b.len(), m2, id);
        }
    }
    if shows_row(doc, id) {
        let key = if shows_row_under(doc, "bookmark_bar"@, id) {
            "bookmark_bar"@
        } else if shows_row_under(doc, "other"@, id) {
            "other"@
        } else {
            "menu"@
        };
        let nodes = node::children_of(tree::root_folder(doc, key)->0)->0;
        let i = choose|i: int| 0 <= i < nodes.len() && #[trigger] holds_row(nodes[i], id);
        law_shown_rows_stay(doc, mint, existing, made, key, i, id);
    }
}

/// The table takes a text as it is, unless it holds a zero character.
pub proof fn law_text_is_taken_as_it_is(s: Seq<char>)
    ensures
        (forall|i: int| 0 <= i < s.len() ==> #[trigger] s[i] != '\0') ==> table_text(s) == s,
        (exists|i: int| 0 <= i < s.len() && #[trigger] s[i] == '\0') ==> table_text(s).len() == 0,
{
    reveal_strlit("");
}

/// The identifiers that a change gives: that of a new page, and that of a new row.
pub open spec fn given_guids(c: ChangeView) -> Seq<Seq<char>> {
    match c {
        ChangeView::UpdateFolder { .. } => Seq::empty(),
        ChangeView::InsertFolder { guid, .. } => seq![guid],
        ChangeView::UpdateLink { page_guid, .. } => seq![page_guid],
        ChangeView::InsertLink { page_guid, guid, .. } => seq![page_guid, guid],
    }
}

/// The identifiers that changes give, in their order.
pub open spec fn all_guids(s: Seq<ChangeView>) -> Seq<Seq<char>>
    decreases s.len(),
{
    if s.len() == 0 {
        Seq::empty()
    } else {
        all_guids(s.drop_last()) + given_guids(s.last())
    }
}

/// The mint after some draws.
pub open spec fn after_draws(mint: MintState, n: nat) -> MintState
    decreases n,
{
    if n == 0 {
        mint
    } else {
        after_draws(mint, (n - 1) as nat).firefox_drawn()
    }
}

/// The identifiers of the next draws of a mint.
pub open spec fn next_draws(mint: MintState, n: nat) -> Seq<Seq<char>>
    decreases n,
{
    if n == 0 {
        Seq::empty()
    } else {
        next_draws(mint, (n - 1) as nat).push(after_draws(mint, (n - 1) as nat).next_firefox_guid())
    }
}

/// Draws and more draws.
proof fn lemma_draws_joined(mint: MintState, a: nat, b: nat)
    ensures
        after_draws(mint, a + b) == after_draws(after_draws(mint, a), b),
        next_draws(mint, a + b) == next_draws(mint, a) + next_draws(after_draws(mint, a), b),
    decreases b,
{
    if b == 0 {
        assert(next_draws(mint, a) + next_draws(after_draws(mint, a), 0) =~= next_draws(mint, a));
    } else {
        lemma_draws_joined(mint, a, (b - 1) as nat);
        assert(next_draws(mint, a + b) =~= next_draws(mint, a) + next_draws(
            after_draws(mint, a),
            b,
        ));
    }
}

/// The identifiers of changes in a row.
proof fn lemma_guids_joined(a: Seq<ChangeView>, b: Seq<ChangeView>)
    ensures
        all_guids(a + b) == all_guids(a) + all_guids(b),
    decreases b.len(),
{
    if b.len() == 0 {
        assert(a + b =~= a);
        assert(all_guids(a) + all_guids(b) =~= all_guids(a));
    } else {
        lemma_guids_joined(a, b.drop_last());
        assert((a + b).drop_last() =~= a + b.drop_last());
        assert((a + b).last() == b.last());
        assert(all_guids(a + b) =~= all_guids(a) + all_guids(b));
    }
}

/// The changes give just what the mint draws.
spec fn draws_all(s: Seq<ChangeView>, mint: MintState, after: MintState) -> bool {
    let n = all_guids(s).len();
    all_guids(s) == next_draws(mint, n) && after == after_draws(mint, n)
}

/// Changes that give what the mint draws, in a row.
proof fn lemma_draws_all_joined(
    a: Seq<ChangeView>,
    b: Seq<ChangeView>,
    mint: MintState,
    mid: MintState,
    after: MintState,
)
    requires
        draws_all(a, mint, mid),
        draws_all(b, mid, after),
    ensures
        draws_all(a + b, mint, after),
{
    lemma_guids_joined(a, b);
    lemma_draws_joined(mint, all_guids(a).len(), all_guids(b).len());
}

/// One change that gives what the mint draws.
proof fn lemma_draws_one(c: ChangeView, mint: MintState)
    ensures
        all_guids(seq![c]) == given_guids(c),
        next_draws(mint, 1) == seq![mint.next_firefox_guid()],
        next_draws(mint, 2) == seq![
            mint.next_firefox_guid(),
            mint.firefox_drawn().next_firefox_guid(),
        ],
        after_draws(mint, 0) == mint,
        after_draws(mint, 1) == mint.firefox_drawn(),
        after_draws(mint, 2) == mint.firefox_drawn().firefox_drawn(),
        next_draws(mint, 0) == Seq::<Seq<char>>::empty(),
{
    reveal_with_fuel(next_draws, 3);
    reveal_with_fuel(after_draws, 3);
    reveal_with_fuel(all_guids, 2);
    assert(seq![c].drop_last() =~= Seq::<ChangeView>::empty());
    assert(all_guids(seq![c]) =~= given_guids(c));
    assert(next_draws(mint, 1) =~= seq![mint.next_firefox_guid()]);
    assert(next_draws(mint, 2) =~= seq![
        mint.next_firefox_guid(),
        mint.firefox_drawn().next_firefox_guid(),
    ]);
}

/// The changes for a node give what the mint draws.
proof fn lemma_node_draws(owner: OwnerView, position: int, n: Json, base: nat, mint: MintState)
    ensures
        ({
            let (s, m) = node_changes(owner, position, n, base, mint);
            draws_all(s, mint, m)
        }),
    decreases n, 0int,
{
    let (s, m) = node_changes(owner, position, n, base, mint);
    if node::is_folder(n) {
        let own = seq![s[0]];
        let (below, m1) = match row_of(n) {
            Some(id) => (OwnerView::Known(id), mint),
            None => (OwnerView::Made(base as int), mint.firefox_drawn()),
        };
        lemma_draws_one(s[0], mint);
        assert(draws_all(own, mint, m1));
        if n is Object && n->Object_0.dom().contains("children"@) && n->Object_0["children"@]
            is Array {
            let c = n->Object_0["children"@]->Array_0;
            lemma_list_draws(below, c, c.len() as int, base + 1, m1);
            let rest = list_changes(below, c, c.len() as int, base + 1, m1).0;
            lemma_draws_all_joined(own, rest, mint, m1, m);
            assert(s =~= own + rest);
        } else {
            assert(s =~= own);
        }
    } else if node::is_link(n) {
        lemma_draws_one(s[0], mint);
        assert(s =~= seq![s[0]]);
    } else {
        reveal_with_fuel(next_draws, 1);
        assert(all_guids(s).len() == 0);
    }
}

/// The changes for a list of nodes give what the mint draws.
proof fn lemma_list_draws(owner: OwnerView, nodes: Seq<Json>, n: int, base: nat, mint: MintState)
    ensures
        ({
            let (s, m) = list_changes(owner, nodes, n, base, mint);
            draws_all(s, mint, m)
        }),
    decreases nodes, n,
{
    if 0 < n <= nodes.len() {
        let (s, m) = list_changes(owner, nodes, n - 1, base, mint);
        let (t, m2) = node_changes(owner, n - 1, nodes[n - 1], base + s.len(), m);
        lemma_list_draws(owner, nodes, n - 1, base, mint);
        lemma_node_draws(owner, n - 1, nodes[n - 1], base + s.len(), m);
        lemma_draws_all_joined(s, t, mint, m, m2);
    }
}

/// Every new row and every page has an identifier of its own: the identifiers that the changes for
/// a document give are the next draws of the mint, each draw used once, in their order.
pub proof fn law_new_rows_have_identifiers_of_their_own(doc: Json, mint: MintState)
    ensures
        ({
            let (s, m) = doc_changes(doc, mint);
            let n = all_guids(s).len();
            &&& all_guids(s) == next_draws(mint, n)
            &&& m == after_draws(mint, n)
        }),
{
    let (a, m1) = root_changes(doc, "bookmark_bar"@, BAR_ROW, 0, mint);
    let (b, m2) = root_changes(doc, "other"@, OTHER_ROW, a.len(), m1);
    let (c, m3) = root_changes(doc, "menu"@, MENU_ROW, a.len() + b.len(), m2);
    lemma_root_draws(doc, "bookmark_bar"@, BAR_ROW, 0, mint);
    lemma_root_draws(doc, "other"@, OTHER_ROW, a.len(), m1);
    lemma_root_draws(doc, "menu"@, MENU_ROW, a.len() + b.len(), m2);
    lemma_draws_all_joined(a, b, mint, m1, m2);
    lemma_draws_all_joined(a + b, c, mint, m2, m3);
}

/// The changes for a root give what the mint draws.
proof fn lemma_root_draws(doc: Json, key: Seq<char>, row: i64, base: nat, mint: MintState)
    ensures
        ({
            let (s, m) = root_changes(doc, key, row, base, mint);
            draws_all(s, mint, m)
        }),
{
    let (s, m) = root_changes(doc, key, row, base, mint);
    if tree::root_folder(doc, key) matches Some(root) && node::children_of(root) is Some {
        let c = node::children_of(tree::root_folder(doc, key)->0)->0;
        lemma_list_draws(OwnerView::Known(row), c, c.len() as int, base, mint);
    } else {
        assert(s.len() == 0);
        assert(all_guids(s).len() == 0);
        assert(all_guids(s) =~= next_draws(mint, 0));
    }
}

} // verus!

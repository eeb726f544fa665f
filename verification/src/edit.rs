//! Changes to a bookmark document: taking nodes out, putting nodes in, and giving them names.
use vstd::prelude::*;
use crate::fault::{CommandError, Fault, Reason};
use crate::guid::{Mint, MintState};
use crate::node;
use crate::node::{node_is_folder, node_is_link, ISOLATE_FOLDER_NAME, TRASH_FOLDER_NAME};
use crate::place;
use crate::place::PlaceView;
use crate::sync;
use crate::text;
use crate::text::{strip_suffix, trim};
use crate::tree;
use crate::tree::{
    descend, find_parent_and_index_mut, get_root_node_mut, is_history_name, item_mut, make_folder,
    navigate_node_ref, next_id, path_in_trash, Hop,
};
use crate::value;
use crate::value::{Json, Doc};

verus! {

/// What an edit leaves behind: the document, the mint of identifiers, and the failure if there
/// was one.
pub struct Edited {
    pub doc: Json,
    pub mint: MintState,
    pub fault: Option<Fault>,
}

/// An edit that ends in a failure.
pub open spec fn failed(doc: Json, mint: MintState, reason: Reason, detail: Seq<char>) -> Edited {
    Edited { doc, mint, fault: Some(Fault { reason, detail }) }
}

/// A result says that there was no failure, or which one.
pub open spec fn reports(r: Result<(), CommandError>, fault: Option<Fault>) -> bool {
    match r {
        Ok(_) => fault is None,
        Err(e) => fault == Some(e@),
    }
}

// ---------------------------------------------------------------------------
// Putting a node in
// ---------------------------------------------------------------------------

/// The failures of a walk to a folder that is to get a new child.
#[derive(Debug, Clone, Copy, PartialEq, Eq, Structural)]
pub struct Obstacles {
    /// The root folder does not exist.
    pub no_root: Reason,
    /// A folder on the way has no list of children.
    pub not_folder: Reason,
    /// A folder on the way is missing.
    pub missing: Reason,
    /// The folder itself has no list of children.
    pub no_list: Reason,
}

/// The folder that a path leads to, with a node added at the end of its children.
pub open spec fn placed(
    doc: Json,
    segments: Seq<Seq<char>>,
    new: Json,
    mint: MintState,
    o: Obstacles,
) -> Edited {
    let (d, m) = tree::prepared(doc, segments[0], mint);
    match tree::editable_root(d, segments[0]) {
        None => failed(d, m, o.no_root, segments[0]),
        Some(root) => match tree::walk(
            tree::fetch(d, root)->0,
            segments.drop_first(),
            o.not_folder,
            o.missing,
        ) {
            Err(e) => Edited { doc: d, mint: m, fault: Some(e) },
            Ok(rest) => {
                let folder = tree::fetch(d, root + rest)->0;
                match node::children_of(folder) {
                    None => failed(d, m, o.no_list, ""@),
                    Some(c) => Edited {
                        doc: tree::put(d, root + rest, tree::with_children(folder, c.push(new))),
                        mint: m,
                        fault: None,
                    },
                }
            },
        },
    }
}

/// Adds a node at the end of the children of another one, if that has a list of children.
fn append_child(target: &mut Doc, new: Doc) -> (r: bool)
    ensures
        match node::children_of(old(target)@) {
            Some(c) => r && final(target)@ == tree::with_children(old(target)@, c.push(new@)),
            None => !r && final(target)@ == old(target)@,
        },
{
    let ghost n = new@;
    match target.get_array_mut("children") {
        Some(children) => {
            let ghost c = value::items_of(children@);
            children.push(new);
            assert(value::items_of(children@) =~= c.push(n));
            true
        },
        None => false,
    }
}

/// Adds a node at the end of the folder that a path leads to.
pub fn place_node(
    val: &mut Doc,
    segments: &[String],
    new: Doc,
    mint: &mut Mint,
    o: Obstacles,
) -> (r: Result<(), CommandError>)
    requires
        segments@.len() > 0,
    ensures
        ({
            let e = placed(old(val)@, text::texts(segments@), new@, old(mint)@, o);
            &&& final(val)@ == e.doc
            &&& final(mint)@ == e.mint
            &&& reports(r, e.fault)
        }),
{
    let ghost segs = text::texts(segments@);
    let ghost doc = tree::prepared(val@, segs[0], mint@).0;
    assert(segs.skip(1) =~= segs.drop_first());
    let root: &mut Doc = match get_root_node_mut(val, segments[0].as_str(), mint) {
        Some(root) => root,
        None => return Err(CommandError::new(o.no_root, segments[0].as_str())),
    };
    let ghost root_route = tree::editable_root(doc, segs[0])->0;
    proof {
        tree::lemma_put_same(doc, root_route);
    }
    let folder: &mut Doc = match descend(root, segments, 1, o.not_folder, o.missing) {
        Ok(folder) => folder,
        Err(e) => return Err(e),
    };
    proof {
        let rest = tree::walk(
            tree::fetch(doc, root_route)->0,
            segs.drop_first(),
            o.not_folder,
            o.missing,
        )->Ok_0;
        tree::lemma_route_joined(doc, root_route, rest, final(folder)@);
        tree::lemma_put_same(doc, root_route + rest);
    }
    if append_child(folder, new) {
        Ok(())
    } else {
        Err(CommandError::new(o.no_list, ""))
    }
}

// ---------------------------------------------------------------------------
// Taking a node out
// ---------------------------------------------------------------------------

/// The document without the node that a path leads to, and that node.
pub open spec fn taken(doc: Json, segments: Seq<Seq<char>>, mint: MintState) -> (
    Json,
    MintState,
    Result<Json, Fault>,
) {
    let (d, m) = tree::looked_up(doc, segments, mint);
    match tree::parent_place(d, segments) {
        Err(e) => (d, m, Err(e)),
        Ok((route, i)) => {
            let parent = tree::fetch(d, route)->0;
            let c = node::children_of(parent)->0;
            (tree::put(d, route, tree::with_children(parent, c.remove(i))), m, Ok(c[i]))
        },
    }
}

/// Takes the node that a path leads to out of a document.
pub fn take_node(val: &mut Doc, segments: &[String], mint: &mut Mint) -> (r: Result<
    Doc,
    CommandError,
>)
    ensures
        ({
            let t = taken(old(val)@, text::texts(segments@), old(mint)@);
            &&& final(val)@ == t.0
            &&& final(mint)@ == t.1
            &&& match r {
                Ok(v) => t.2 == Ok::<Json, Fault>(v@),
                Err(e) => t.2 == Err::<Json, Fault>(e@),
            }
        }),
{
    match find_parent_and_index_mut(val, segments, mint) {
        Err(e) => Err(e),
        Ok((parent, i)) => match parent.get_array_mut("children") {
            Some(children) => {
                let ghost c = value::items_of(children@);
                let removed: Doc = children.remove(i);
                assert(value::items_of(children@) =~= c.remove(i as int));
                Ok(removed)
            },
            None => Err(CommandError::new(Reason::NoChildren, "")),
        },
    }
}

// ---------------------------------------------------------------------------
// Deleting
// ---------------------------------------------------------------------------

/// What `std` writes for a list of texts in its debugging form.
pub uninterp spec fn debug_text(segments: Seq<Seq<char>>) -> Seq<char>;

/// The debugging form of a list of texts, as the formatter of `std` writes it: the text depends
/// on the list alone.
#[verifier::external_body]
fn debug_of(segments: &[String]) -> (r: String)
    ensures
        r@ == debug_text(text::texts(segments@)),
{
    format!("{:?}", segments)
}

/// The failures of putting a node into the trash.
pub open spec fn trash_obstacles() -> Obstacles {
    Obstacles {
        no_root: Reason::NoTrash,
        not_folder: Reason::SegmentNotFolder,
        missing: Reason::ChildNotFound,
        no_list: Reason::TrashNotFolder,
    }
}

/// The parent of the node that a path leads to is the trash folder or lies below it.
pub open spec fn is_in_trash(doc: Json, segments: Seq<Seq<char>>, mint: MintState) -> bool {
    let d = tree::looked_up(doc, segments, mint).0;
    tree::parent_place(d, segments) matches Ok(place) && tree::lies_in_trash(d, place.0)
}

/// The node that a path leads to is deleted: what lies in the trash is dropped, anything else
/// moves to the end of the trash. Where the node cannot be put there, the document stays as it was;
/// where it is not found, nothing changes but that a trash folder, or a folder of dead links, that
/// the path names is made.
pub open spec fn deleted(doc: Json, segments: Seq<Seq<char>>, mint: MintState) -> Edited {
    if segments.len() <= 1 {
        failed(doc, mint, Reason::DeleteRootCategory, debug_text(segments))
    } else {
        let (d, m, out) = taken(doc, segments, mint);
        match out {
            Err(e) => Edited { doc: d, mint: m, fault: Some(e) },
            Ok(n) => if is_in_trash(doc, segments, mint) {
                Edited { doc: d, mint: m, fault: None }
            } else {
                let e = placed(d, seq!["trash"@], n, m, trash_obstacles());
                if e.fault is None {
                    e
                } else {
                    Edited { doc, ..e }
                }
            },
        }
    }
}

/// Puts a node at the end of the trash.
fn throw_away(val: &mut Doc, n: Doc, mint: &mut Mint) -> (r: Result<(), CommandError>)
    ensures
        ({
            let e = placed(old(val)@, seq!["trash"@], n@, old(mint)@, trash_obstacles());
            &&& final(val)@ == e.doc
            &&& final(mint)@ == e.mint
            &&& reports(r, e.fault)
        }),
{
    let mut path: Vec<String> = Vec::new();
    path.push("trash".to_owned());
    assert(text::texts(path@) =~= seq!["trash"@]);
    let o: Obstacles = Obstacles {
        no_root: Reason::NoTrash,
        not_folder: Reason::SegmentNotFolder,
        missing: Reason::ChildNotFound,
        no_list: Reason::TrashNotFolder,
    };
    place_node(val, path.as_slice(), n, mint, o)
}

/// Deletes the node that a path leads to.
pub fn delete_single_node(val: &mut Doc, sub_segs: &[String], mint: &mut Mint) -> (r: Result<
    (),
    CommandError,
>)
    ensures
        ({
            let e = deleted(old(val)@, text::texts(sub_segs@), old(mint)@);
            &&& final(val)@ == e.doc
            &&& final(mint)@ == e.mint
            &&& reports(r, e.fault)
        }),
{
    if sub_segs.len() <= 1 {
        let shown: String = debug_of(sub_segs);
        return Err(CommandError::new(Reason::DeleteRootCategory, shown.as_str()));
    }
    let before: Doc = val.clone();
    let for_good: bool = path_in_trash(val, sub_segs);
    let ghost doc = val@;
    let ghost m0 = mint@;
    match take_node(val, sub_segs, mint) {
        Err(e) => Err(e),
        Ok(n) => {
            proof {
                tree::lemma_leads_into_trash(doc, text::texts(sub_segs@), m0);
            }
            if for_good {
                return Ok(());
            }
            match throw_away(val, n, mint) {
                Ok(_) => Ok(()),
                Err(e) => {
                    *val = before;
                    Err(e)
                },
            }
        },
    }
}

/// The items of a folder are deleted one after the other; blank names are passed over, and an
/// item that cannot be deleted does not stop the rest.
pub open spec fn deleted_items(
    doc: Json,
    folder: Seq<Seq<char>>,
    items: Seq<Seq<char>>,
    mint: MintState,
) -> (Json, MintState)
    decreases items.len(),
{
    if items.len() == 0 {
        (doc, mint)
    } else {
        let (d, m) = deleted_items(doc, folder, items.drop_last(), mint);
        if text::trimmed(items.last()).len() == 0 {
            (d, m)
        } else {
            let e = deleted(d, folder.push(items.last()), m);
            (e.doc, e.mint)
        }
    }
}

/// There is a name among the items that is not blank.
pub open spec fn names_item(items: Seq<Seq<char>>) -> bool {
    exists|i: int| 0 <= i < items.len() && text::trimmed(#[trigger] items[i]).len() > 0
}

/// A folder's items are deleted, or the folder itself where no item is named. The history is
/// refused.
pub open spec fn deleted_all(
    doc: Json,
    folder: Seq<Seq<char>>,
    items: Seq<Seq<char>>,
    mint: MintState,
) -> Edited {
    if folder.len() > 0 && tree::names_history(folder[0]) {
        failed(doc, mint, Reason::HistoryReadOnly, ""@)
    } else if names_item(items) {
        let (d, m) = deleted_items(doc, folder, items, mint);
        Edited { doc: d, mint: m, fault: None }
    } else {
        deleted(doc, folder, mint)
    }
}

/// Deletes the items of a folder one after the other.
fn delete_items(val: &mut Doc, sub_segs: &Vec<String>, items: &[String], mint: &mut Mint)
    ensures
        (final(val)@, final(mint)@) == deleted_items(
            old(val)@,
            text::texts(sub_segs@),
            text::texts(items@),
            old(mint)@,
        ),
{
    let ghost folder = text::texts(sub_segs@);
    let ghost names = text::texts(items@);
    let mut i: usize = 0;
    assert(names.take(0) =~= Seq::empty());
    while i < items.len()
        invariant
            i <= items@.len(),
            names == text::texts(items@),
            folder == text::texts(sub_segs@),
            (val@, mint@) == deleted_items(old(val)@, folder, names.take(i as int), old(mint)@),
        decreases items.len() - i,
    {
        proof {
            let upto = names.take(i + 1);
            assert(upto.drop_last() =~= names.take(i as int));
            assert(upto.last() == items@[i as int]@);
        }
        let blank: bool = trim(items[i].as_str()).unicode_len() == 0;
        if !blank {
            let mut full_sub: Vec<String> = sub_segs.clone();
            assert(text::texts(full_sub@) =~= folder);
            full_sub.push(items[i].clone());
            assert(text::texts(full_sub@) =~= folder.push(items@[i as int]@));
            let _ = delete_single_node(val, full_sub.as_slice(), mint);
        }
        i += 1;
    }
    assert(names.take(i as int) =~= names);
}

/// Deletes the items of a folder, or the folder itself where no item is named.
pub fn delete_all(val: &mut Doc, sub_segs: &Vec<String>, items: &[String], mint: &mut Mint) -> (r:
    Result<(), CommandError>)
    ensures
        ({
            let e = deleted_all(
                old(val)@,
                text::texts(sub_segs@),
                text::texts(items@),
                old(mint)@,
            );
            &&& final(val)@ == e.doc
            &&& final(mint)@ == e.mint
            &&& reports(r, e.fault)
        }),
{
    let ghost names = text::texts(items@);
    if sub_segs.len() > 0 && is_history_name(sub_segs[0].as_str()) {
        return Err(CommandError::new(Reason::HistoryReadOnly, ""));
    }
    let mut i: usize = 0;
    let mut named: bool = false;
    while i < items.len()
        invariant
            i <= items@.len(),
            names == text::texts(items@),
            named <==> exists|j: int|
                0 <= j < i && text::trimmed(#[trigger] names[j]).len() > 0,
        decreases items.len() - i,
    {
        assert(names[i as int] == items@[i as int]@);
        if trim(items[i].as_str()).unicode_len() > 0 {
            named = true;
        }
        i += 1;
    }
    if named {
        delete_items(val, sub_segs, items, mint);
        Ok(())
    } else {
        delete_single_node(val, sub_segs.as_slice(), mint)
    }
}

// ---------------------------------------------------------------------------
// Making a folder
// ---------------------------------------------------------------------------

/// The failures of a walk to the parent of a new folder.
pub open spec fn parent_obstacles() -> Obstacles {
    Obstacles {
        no_root: Reason::RootNotFound,
        not_folder: Reason::SegmentNotFolder,
        missing: Reason::ParentNotFound,
        no_list: Reason::ParentNotFolder,
    }
}

/// A new folder at the end of a parent folder; nothing is made right under a browser or in the
/// history.
pub open spec fn made(
    doc: Json,
    parents: Seq<Seq<char>>,
    name: Seq<char>,
    path: Seq<char>,
    mint: MintState,
) -> Edited {
    let new = tree::new_folder(mint, tree::fresh_id(doc), name);
    if parents.len() == 0 {
        failed(doc, mint.drawn(), Reason::MakeUnderBrowser, path)
    } else if tree::names_history(parents[0]) {
        failed(doc, mint.drawn(), Reason::MakeInHistory, path)
    } else {
        placed(doc, parents, new, mint.drawn(), parent_obstacles())
    }
}

/// Makes a new folder at the end of a parent folder.
pub fn make_directory(
    val: &mut Doc,
    parents: &[String],
    name: &str,
    path: &str,
    mint: &mut Mint,
) -> (r: Result<(), CommandError>)
    ensures
        ({
            let e = made(old(val)@, text::texts(parents@), name@, path@, old(mint)@);
            &&& final(val)@ == e.doc
            &&& final(mint)@ == e.mint
            &&& reports(r, e.fault)
        }),
{
    let id: String = next_id(val);
    let new: Doc = make_folder(mint, id.as_str(), name);
    if parents.len() == 0 {
        return Err(CommandError::new(Reason::MakeUnderBrowser, path));
    }
    if is_history_name(parents[0].as_str()) {
        return Err(CommandError::new(Reason::MakeInHistory, path));
    }
    let o: Obstacles = Obstacles {
        no_root: Reason::RootNotFound,
        not_folder: Reason::SegmentNotFolder,
        missing: Reason::ParentNotFound,
        no_list: Reason::ParentNotFolder,
    };
    place_node(val, parents, new, mint, o)
}

// ---------------------------------------------------------------------------
// Moving and copying
// ---------------------------------------------------------------------------

/// The failures of a walk to a destination folder.
pub open spec fn destination_obstacles() -> Obstacles {
    Obstacles {
        no_root: Reason::DestRootNotFound,
        not_folder: Reason::DestNotFolder,
        missing: Reason::DestChildNotFound,
        no_list: Reason::DestNoChildren,
    }
}

/// The folder that a destination means: the path itself if a folder is there or it is a root,
/// else the path without its last segment.
pub open spec fn destination(doc: Json, dest: Seq<Seq<char>>) -> Seq<Seq<char>> {
    let there = match tree::navigated(doc, dest) {
        Some(n) => node::is_folder(n),
        None => false,
    };
    if !there && dest.len() > 1 {
        dest.drop_last()
    } else {
        dest
    }
}

/// A node is added at the end of the folder that a destination means.
pub open spec fn inserted(doc: Json, dest: Seq<Seq<char>>, new: Json, mint: MintState) -> Edited {
    if dest.len() == 0 {
        failed(doc, mint, Reason::NoDestination, ""@)
    } else {
        placed(doc, destination(doc, dest), new, mint, destination_obstacles())
    }
}

/// Adds a node at the end of the folder that a destination means.
pub fn insert_node(val: &mut Doc, dest: &[String], new: Doc, mint: &mut Mint) -> (r: Result<
    (),
    CommandError,
>)
    ensures
        ({
            let e = inserted(old(val)@, text::texts(dest@), new@, old(mint)@);
            &&& final(val)@ == e.doc
            &&& final(mint)@ == e.mint
            &&& reports(r, e.fault)
        }),
{
    if dest.len() == 0 {
        return Err(CommandError::new(Reason::NoDestination, ""));
    }
    let there: bool = match navigate_node_ref(val, dest) {
        Some(n) => node_is_folder(n),
        None => false,
    };
    let count: usize = if !there && dest.len() > 1 {
        dest.len() - 1
    } else {
        dest.len()
    };
    let folder: &[String] = vstd::slice::slice_subrange(dest, 0, count);
    assert(text::texts(folder@) =~= destination(val@, text::texts(dest@)));
    let o: Obstacles = Obstacles {
        no_root: Reason::DestRootNotFound,
        not_folder: Reason::DestNotFolder,
        missing: Reason::DestChildNotFound,
        no_list: Reason::DestNoChildren,
    };
    place_node(val, folder, new, mint, o)
}

/// The node that a path leads to moves to the end of the folder that a destination means. The
/// destination is looked up after the node has been taken out.
pub open spec fn moved_within(
    doc: Json,
    src: Seq<Seq<char>>,
    dest: Seq<Seq<char>>,
    mint: MintState,
) -> Edited {
    let (d, m, out) = taken(doc, src, mint);
    match out {
        Err(e) => Edited { doc: d, mint: m, fault: Some(e) },
        Ok(n) => inserted(d, dest, n, m),
    }
}

/// Moves the node that a path leads to within a document.
pub fn move_within(val: &mut Doc, src: &[String], dest: &[String], mint: &mut Mint) -> (r: Result<
    (),
    CommandError,
>)
    ensures
        ({
            let e = moved_within(old(val)@, text::texts(src@), text::texts(dest@), old(mint)@);
            &&& final(val)@ == e.doc
            &&& final(mint)@ == e.mint
            &&& reports(r, e.fault)
        }),
{
    match take_node(val, src, mint) {
        Err(e) => Err(e),
        Ok(n) => insert_node(val, dest, n, mint),
    }
}

/// A node without the row numbers that it and all below it have from a table of Firefox: they
/// name rows of the store that the node came from, and of no other.
pub open spec fn without_rows(n: Json) -> Json
    decreases n, 0int,
{
    match n {
        Json::Object(o) => if o.dom().contains("children"@) {
            match o["children"@] {
                Json::Array(c) => Json::Object(
                    o.remove("_firefox_id"@).insert(
                        "children"@,
                        Json::Array(without_rows_list(c, c.len() as int)),
                    ),
                ),
                _ => Json::Object(o.remove("_firefox_id"@)),
            }
        } else {
            Json::Object(o.remove("_firefox_id"@))
        },
        _ => n,
    }
}

/// The first `k` nodes of a list without their row numbers.
pub open spec fn without_rows_list(nodes: Seq<Json>, k: int) -> Seq<Json>
    decreases nodes, k,
{
    if k <= 0 || k > nodes.len() {
        Seq::empty()
    } else {
        without_rows_list(nodes, k - 1).push(without_rows(nodes[k - 1]))
    }
}

/// The nodes of a list stay in their places.
pub proof fn lemma_without_rows_list(nodes: Seq<Json>, k: int)
    requires
        0 <= k <= nodes.len(),
    ensures
        without_rows_list(nodes, k).len() == k,
        forall|i: int|
            0 <= i < k ==> #[trigger] without_rows_list(nodes, k)[i] == without_rows(nodes[i]),
    decreases k,
{
    if k > 0 {
        lemma_without_rows_list(nodes, k - 1);
    }
}

/// The row number and the children of a node have different keys.
proof fn lemma_row_key()
    ensures
        "_firefox_id"@ != "children"@,
{
    reveal_strlit("_firefox_id");
    reveal_strlit("children");
    assert("_firefox_id"@.len() == 11 && "children"@.len() == 8);
}

/// Takes the row numbers off a node and all below it.
fn drop_rows(n: &mut Doc)
    ensures
        final(n)@ == without_rows(old(n)@),
    decreases old(n)@,
{
    let ghost whole = *n;
    let ghost j = n@;
    proof {
        lemma_row_key();
        tree::lemma_with_same(j.without("_firefox_id"@), "children"@);
    }
    n.unset("_firefox_id");
    if let Some(children) = n.get_array_mut("children") {
        let ghost c = value::items_of(children@);
        assert(node::children_of(j) == Some(c));
        let mut i: usize = 0;
        assert(c =~= without_rows_list(c, 0) + c.skip(0));
        while i < children.len()
            invariant
                i <= children@.len(),
                children@.len() == c.len(),
                node::children_of(whole@) == Some(c),
                whole == *old(n),
                value::items_of(children@) == without_rows_list(c, i as int) + c.skip(i as int),
            decreases children.len() - i,
        {
            let ghost done = without_rows_list(c, i as int);
            proof {
                lemma_without_rows_list(c, i as int);
                node::lemma_child_below(whole, i as int);
                assert(value::items_of(children@)[i as int] == c[i as int]);
            }
            let child: &mut Doc = item_mut(children, i);
            drop_rows(child);
            proof {
                assert((done + c.skip(i as int)).update(i as int, without_rows(c[i as int]))
                    =~= done.push(without_rows(c[i as int])) + c.skip(i + 1));
            }
            i += 1;
        }
        proof {
            assert(c.skip(i as int) =~= Seq::empty());
            assert(value::items_of(children@) =~= without_rows_list(c, c.len() as int));
        }
    }
}

/// What stays of a node when it enters a document: all of it, less the row numbers where the
/// document is kept in a table.
pub open spec fn what_enters(n: Json, to_table: bool) -> Json {
    if to_table {
        without_rows(n)
    } else {
        n
    }
}

/// A node as it enters another document: an object gets an identifier that is new there and a
/// globally unique one. Where the document is kept in a table, it loses its row numbers.
pub open spec fn relabelled(n: Json, doc: Json, mint: MintState, to_table: bool) -> (
    Json,
    MintState,
) {
    if n is Object {
        (
            what_enters(n, to_table).with("id"@, Json::Str(tree::fresh_id(doc))).with(
                "guid"@,
                Json::Str(mint.next_guid()),
            ),
            mint.drawn(),
        )
    } else {
        (n, mint)
    }
}

/// A node as its copy enters a document: it is relabelled, and an object is dated now.
pub open spec fn copy_of(n: Json, doc: Json, mint: MintState, to_table: bool) -> (Json, MintState) {
    let (x, m) = relabelled(n, doc, mint, to_table);
    (
        x.with("date_added"@, Json::Str(mint.now)).with("date_modified"@, Json::Str(mint.now)),
        m,
    )
}

/// Gives a node the identifiers under which it enters another document.
fn relabel(n: &mut Doc, doc: &Doc, mint: &mut Mint, to_table: bool)
    ensures
        (final(n)@, final(mint)@) == relabelled(old(n)@, doc@, old(mint)@, to_table),
{
    let object: bool = match n {
        Doc::Object(_) => true,
        _ => false,
    };
    if object {
        if to_table {
            drop_rows(n);
        }
        let id: String = next_id(doc);
        n.set("id", Doc::Str(id));
        let guid: String = mint.generate_guid();
        n.set("guid", Doc::Str(guid));
    }
}

/// A node from another document enters this one.
pub open spec fn moved_in(
    doc: Json,
    dest: Seq<Seq<char>>,
    n: Json,
    mint: MintState,
    to_table: bool,
) -> Edited {
    let (x, m) = relabelled(n, doc, mint, to_table);
    inserted(doc, dest, x, m)
}

/// Puts a node from another document into this one.
pub fn move_in(val: &mut Doc, dest: &[String], n: Doc, mint: &mut Mint, to_table: bool) -> (r:
    Result<(), CommandError>)
    ensures
        ({
            let e = moved_in(old(val)@, text::texts(dest@), n@, old(mint)@, to_table);
            &&& final(val)@ == e.doc
            &&& final(mint)@ == e.mint
            &&& reports(r, e.fault)
        }),
{
    let mut new: Doc = n;
    relabel(&mut new, val, mint, to_table);
    insert_node(val, dest, new, mint)
}

/// The copy of a node enters a document.
pub open spec fn copied_in(
    doc: Json,
    dest: Seq<Seq<char>>,
    n: Json,
    mint: MintState,
    to_table: bool,
) -> Edited {
    let (x, m) = copy_of(n, doc, mint, to_table);
    inserted(doc, dest, x, m)
}

/// Puts the copy of a node into a document.
pub fn copy_in(val: &mut Doc, dest: &[String], n: Doc, mint: &mut Mint, to_table: bool) -> (r:
    Result<(), CommandError>)
    ensures
        ({
            let e = copied_in(old(val)@, text::texts(dest@), n@, old(mint)@, to_table);
            &&& final(val)@ == e.doc
            &&& final(mint)@ == e.mint
            &&& reports(r, e.fault)
        }),
{
    let mut new: Doc = n;
    relabel(&mut new, val, mint, to_table);
    new.set("date_added", Doc::new_str(mint.now.as_str()));
    new.set("date_modified", Doc::new_str(mint.now.as_str()));
    insert_node(val, dest, new, mint)
}

// ---------------------------------------------------------------------------
// Renaming
// ---------------------------------------------------------------------------

/// The title that a new file name gives a node: a link's loses its extension.
pub open spec fn new_title(n: Json, name: Seq<char>) -> Seq<char> {
    if node::is_link(n) && text::finishes_with(name, ".url"@) {
        name.take(name.len() - ".url"@.len())
    } else {
        name
    }
}

/// A node under a new name, and marked as modified if it has a date of modification. Only an
/// object, or nothing at all, can take a name.
pub open spec fn retitled(n: Json, name: Seq<char>, now: Seq<char>) -> Option<Json> {
    let base = if n is Null {
        value::empty_object()
    } else {
        n
    };
    if base is Object {
        let named = base.with("name"@, Json::Str(new_title(n, name)));
        Some(
            if named.member("date_modified"@) is Some {
                named.with("date_modified"@, Json::Str(now))
            } else {
                named
            },
        )
    } else {
        None
    }
}

/// The node that a path leads to gets a new name.
pub open spec fn renamed(
    doc: Json,
    segments: Seq<Seq<char>>,
    name: Seq<char>,
    mint: MintState,
) -> Edited {
    let (d, m) = tree::looked_up(doc, segments, mint);
    match tree::parent_place(d, segments) {
        Err(e) => Edited { doc: d, mint: m, fault: Some(e) },
        Ok((route, i)) => {
            let parent = tree::fetch(d, route)->0;
            let c = node::children_of(parent)->0;
            match retitled(c[i], name, mint.now) {
                None => failed(d, m, Reason::NotAnObject, segments.last()),
                Some(x) => Edited {
                    doc: tree::put(d, route, tree::with_children(parent, c.update(i, x))),
                    mint: m,
                    fault: None,
                },
            }
        },
    }
}

/// Gives a node a new name, and tells whether it can take one.
fn retitle(n: &mut Doc, name: &str, now: &str) -> (r: bool)
    ensures
        match retitled(old(n)@, name@, now@) {
            Some(x) => r && final(n)@ == x,
            None => !r && final(n)@ == old(n)@,
        },
{
    let title: &str = if node_is_link(n) {
        match strip_suffix(name, ".url") {
            Some(t) => t,
            None => name,
        }
    } else {
        name
    };
    assert(title@ == new_title(n@, name@));
    let empty: bool = match n {
        Doc::Null => true,
        _ => false,
    };
    let object: bool = match n {
        Doc::Object(_) => true,
        _ => false,
    };
    if !empty && !object {
        return false;
    }
    if empty {
        *n = Doc::new_object();
    }
    n.set("name", Doc::new_str(title));
    if n.get("date_modified").is_some() {
        n.set("date_modified", Doc::new_str(now));
    }
    true
}

/// Gives the node that a path leads to a new name.
pub fn rename_node(val: &mut Doc, segments: &[String], name: &str, mint: &mut Mint) -> (r: Result<
    (),
    CommandError,
>)
    ensures
        ({
            let e = renamed(old(val)@, text::texts(segments@), name@, old(mint)@);
            &&& final(val)@ == e.doc
            &&& final(mint)@ == e.mint
            &&& reports(r, e.fault)
        }),
{
    let now: String = mint.now.clone();
    let ghost d = tree::looked_up(val@, text::texts(segments@), mint@).0;
    match find_parent_and_index_mut(val, segments, mint) {
        Err(e) => Err(e),
        Ok((parent, i)) => {
            let ghost p = parent@;
            proof {
                tree::lemma_with_same(p, "children"@);
                tree::lemma_put_same(d, tree::parent_place(d, text::texts(segments@))->Ok_0.0);
            }
            match parent.get_array_mut("children") {
                Some(children) => {
                    let ghost c = value::items_of(children@);
                    let target: &mut Doc = item_mut(children, i);
                    assert(c.update(i as int, c[i as int]) =~= c);
                    if retitle(target, name, now.as_str()) {
                        Ok(())
                    } else {
                        Err(
                            CommandError::new(
                                Reason::NotAnObject,
                                segments[segments.len() - 1].as_str(),
                            ),
                        )
                    }
                },
                None => Err(CommandError::new(Reason::NoChildren, "")),
            }
        },
    }
}

// ---------------------------------------------------------------------------
// Laws
// ---------------------------------------------------------------------------

/// What is put in stands at the end of the children of its folder, and the children that were
/// there stay before it.
pub proof fn law_placed_at_the_end(
    doc: Json,
    segments: Seq<Seq<char>>,
    new: Json,
    mint: MintState,
    o: Obstacles,
)
    requires
        segments.len() > 0,
        placed(doc, segments, new, mint, o).fault is None,
    ensures
        ({
            let d = tree::prepared(doc, segments[0], mint).0;
            let root = tree::editable_root(d, segments[0])->0;
            let rest = tree::walk(
                tree::fetch(d, root)->0,
                segments.drop_first(),
                o.not_folder,
                o.missing,
            )->Ok_0;
            let before = tree::fetch(d, root + rest)->0;
            let after = tree::fetch(placed(doc, segments, new, mint, o).doc, root + rest)->0;
            &&& tree::fetch(d, root + rest) == tree::descendant(
                tree::fetch(d, root)->0,
                segments.drop_first(),
            )
            &&& node::children_of(before) is Some
            &&& node::children_of(after) == Some(node::children_of(before)->0.push(new))
        }),
{
    let d = tree::prepared(doc, segments[0], mint).0;
    tree::lemma_root_there(d, segments[0]);
    let root = tree::editable_root(d, segments[0])->0;
    let folder = tree::fetch(d, root)->0;
    let rest = tree::walk(folder, segments.drop_first(), o.not_folder, o.missing)->Ok_0;
    tree::lemma_walk_there(folder, segments.drop_first(), o.not_folder, o.missing);
    tree::lemma_route_joined(d, root, rest, new);
    let before = tree::fetch(d, root + rest)->0;
    tree::lemma_put_fetch(
        d,
        root + rest,
        tree::with_children(before, node::children_of(before)->0.push(new)),
    );
}

/// What is taken out is a child of its parent that is shown under the last segment of the path,
/// and its parent keeps all other children in their order.
pub proof fn law_taken_is_gone(doc: Json, segments: Seq<Seq<char>>, mint: MintState)
    requires
        taken(doc, segments, mint).2 is Ok,
    ensures
        ({
            let (d, m) = tree::looked_up(doc, segments, mint);
            let (route, i) = tree::parent_place(d, segments)->Ok_0;
            let before = node::children_of(tree::fetch(d, route)->0)->0;
            let (after, _, n) = taken(doc, segments, mint);
            &&& 0 <= i < before.len()
            &&& n == Ok::<Json, Fault>(before[i])
            &&& node::display_name(before[i]) == segments.last()
            &&& node::children_of(tree::fetch(after, route)->0) == Some(before.remove(i))
        }),
{
    let (d, m) = tree::looked_up(doc, segments, mint);
    let (route, i) = tree::parent_place(d, segments)->Ok_0;
    tree::lemma_root_there(d, segments[0]);
    let root = tree::editable_root(d, segments[0])->0;
    let folder = tree::fetch(d, root)->0;
    let on_way = segments.subrange(1, segments.len() - 1);
    let rest = tree::walk(folder, on_way, Reason::SegmentNotFolder, Reason::ChildNotFound)->Ok_0;
    tree::lemma_walk_there(folder, on_way, Reason::SegmentNotFolder, Reason::ChildNotFound);
    tree::lemma_route_joined(d, root, rest, d);
    let parent = tree::fetch(d, route)->0;
    let before = node::children_of(parent)->0;
    text::lemma_first_index(before, tree::shown_as(segments.last()));
    assert(tree::shown_as(segments.last())(before[i]));
    tree::lemma_put_fetch(d, route, tree::with_children(parent, before.remove(i)));
}

/// Deleting a node outside the trash loses nothing: the node lies at the end of the trash.
pub proof fn law_deleted_lies_in_trash(doc: Json, segments: Seq<Seq<char>>, mint: MintState)
    requires
        !is_in_trash(doc, segments, mint),
        deleted(doc, segments, mint).fault is None,
    ensures
        ({
            let n = taken(doc, segments, mint).2->Ok_0;
            let after = deleted(doc, segments, mint).doc;
            &&& taken(doc, segments, mint).2 is Ok
            &&& node::display_name(n) == segments.last()
            &&& tree::special_route(after, TRASH_FOLDER_NAME@) matches Some(route)
            &&& node::children_of(tree::fetch(after, route)->0) matches Some(c)
            &&& c.len() > 0
            &&& c.last() == n
        }),
{
    let (d0, m0, out) = taken(doc, segments, mint);
    let n = out->Ok_0;
    law_taken_is_gone(doc, segments, mint);
    let path = seq!["trash"@];
    let d = tree::prepared(d0, "trash"@, m0).0;
    let root = tree::special_route(d, TRASH_FOLDER_NAME@)->0;
    let rest = Seq::<Hop>::empty();
    assert(path.drop_first() =~= Seq::empty());
    assert(root + rest =~= root);
    let c = node::children_of(tree::fetch(d, root)->0)->0;
    tree::lemma_special_filled(d, TRASH_FOLDER_NAME@, c.push(n));
}

/// A deletion that fails, for whatever reason, loses nothing: every node stays in its place as it
/// is. At most a trash folder, or a folder of dead links, that the path names has been made.
pub proof fn law_failed_delete_loses_nothing(
    doc: Json,
    segments: Seq<Seq<char>>,
    mint: MintState,
    p: PlaceView,
)
    requires
        deleted(doc, segments, mint).fault is Some,
        place::node_at(doc, p) is Some,
        p.at.len() > 0,
    ensures
        deleted(doc, segments, mint).doc == doc || deleted(doc, segments, mint).doc
            == tree::looked_up(doc, segments, mint).0,
        place::node_at(deleted(doc, segments, mint).doc, p) == place::node_at(doc, p),
{
    let id = tree::fresh_id(doc);
    place::law_made_folder_moves_nothing(doc, TRASH_FOLDER_NAME@, id, mint, p);
    place::law_made_folder_moves_nothing(doc, ISOLATE_FOLDER_NAME@, id, mint, p);
}

/// A deletion succeeds where a node is found, where there is a list of other bookmarks for the
/// trash to stand in, and where a trash that is there has a list of children.
pub proof fn law_delete_succeeds(doc: Json, segments: Seq<Seq<char>>, mint: MintState)
    requires
        segments.len() > 1,
        ({
            let d = taken(doc, segments, mint).0;
            &&& tree::other_children(d) is Some
            &&& tree::special_route(d, TRASH_FOLDER_NAME@) matches Some(route)
                ==> node::children_of(tree::fetch(d, route)->0) is Some
        }),
    ensures
        deleted(doc, segments, mint).fault is None <==> taken(doc, segments, mint).2 is Ok,
{
    let (d, m, out) = taken(doc, segments, mint);
    tree::law_missing_folder_is_made(d, TRASH_FOLDER_NAME@, tree::fresh_id(d), m);
    let path = seq!["trash"@];
    assert(path.drop_first() =~= Seq::<Seq<char>>::empty());
    let made = tree::with_folder(d, TRASH_FOLDER_NAME@, m).0;
    let root = tree::special_route(made, TRASH_FOLDER_NAME@)->0;
    assert(root + Seq::<Hop>::empty() =~= root);
}

/// Deleting a node in the trash drops it for good, whether the path names the trash or goes to it
/// through the other bookmarks: the document is what taking the node out leaves.
pub proof fn law_deleted_from_trash_is_gone(doc: Json, segments: Seq<Seq<char>>, mint: MintState)
    requires
        segments.len() > 1,
        tree::leads_into_trash(doc, segments),
        taken(doc, segments, mint).2 is Ok,
    ensures
        is_in_trash(doc, segments, mint),
        deleted(doc, segments, mint).fault is None,
        deleted(doc, segments, mint).doc == taken(doc, segments, mint).0,
{
    tree::lemma_leads_into_trash(doc, segments, mint);
}

/// A node that moves within a document moves as it is: what was taken out under the last segment
/// of the path stands at the end of the destination.
pub proof fn law_move_keeps_the_node(
    doc: Json,
    src: Seq<Seq<char>>,
    dest: Seq<Seq<char>>,
    mint: MintState,
)
    requires
        moved_within(doc, src, dest, mint).fault is None,
    ensures
        ({
            let (d0, m0, out) = taken(doc, src, mint);
            let to = destination(d0, dest);
            let o = destination_obstacles();
            let d = tree::prepared(d0, to[0], m0).0;
            let root = tree::editable_root(d, to[0])->0;
            let rest = tree::walk(
                tree::fetch(d, root)->0,
                to.drop_first(),
                o.not_folder,
                o.missing,
            )->Ok_0;
            let after = moved_within(doc, src, dest, mint).doc;
            &&& out matches Ok(n)
            &&& node::display_name(n) == src.last()
            &&& node::children_of(tree::fetch(after, root + rest)->0) matches Some(c)
            &&& c.len() > 0
            &&& c.last() == n
        }),
{
    let (d0, m0, out) = taken(doc, src, mint);
    law_taken_is_gone(doc, src, mint);
    law_placed_at_the_end(d0, destination(d0, dest), out->Ok_0, m0, destination_obstacles());
}

/// A node that enters a document, as it is moved there or as it is copied, stands at the end of the
/// destination, and nothing else changes.
pub proof fn law_entered_at_the_end(
    doc: Json,
    dest: Seq<Seq<char>>,
    n: Json,
    mint: MintState,
    to_table: bool,
)
    ensures
        moved_in(doc, dest, n, mint, to_table).fault is None ==> is_added_at(
            relabelled(n, doc, mint, to_table).0,
            destination(doc, dest),
            doc,
            relabelled(n, doc, mint, to_table).1,
            moved_in(doc, dest, n, mint, to_table).doc,
        ),
        copied_in(doc, dest, n, mint, to_table).fault is None ==> is_added_at(
            copy_of(n, doc, mint, to_table).0,
            destination(doc, dest),
            doc,
            copy_of(n, doc, mint, to_table).1,
            copied_in(doc, dest, n, mint, to_table).doc,
        ),
{
    let o = destination_obstacles();
    let to = destination(doc, dest);
    let (x, m) = relabelled(n, doc, mint, to_table);
    if moved_in(doc, dest, n, mint, to_table).fault is None {
        law_placed_at_the_end(doc, to, x, m, o);
    }
    let (y, k) = copy_of(n, doc, mint, to_table);
    if copied_in(doc, dest, n, mint, to_table).fault is None {
        law_placed_at_the_end(doc, to, y, k, o);
    }
}

/// A node was added at the end of the folder that a path leads to, and nothing else was changed,
/// but for a trash folder or a folder of dead links that was made since the path names it.
pub open spec fn is_added_at(
    n: Json,
    folder: Seq<Seq<char>>,
    before: Json,
    mint: MintState,
    after: Json,
) -> bool {
    let o = destination_obstacles();
    let d = tree::prepared(before, folder[0], mint).0;
    let root = tree::editable_root(d, folder[0])->0;
    let rest = tree::walk(
        tree::fetch(d, root)->0,
        folder.drop_first(),
        o.not_folder,
        o.missing,
    )->Ok_0;
    let here = tree::fetch(d, root + rest)->0;
    &&& node::children_of(here) matches Some(c)
    &&& after == tree::put(d, root + rest, tree::with_children(here, c.push(n)))
    &&& node::children_of(tree::fetch(after, root + rest)->0) == Some(c.push(n))
}

/// No node at or below the node came from a row of a table.
pub open spec fn is_rowless(n: Json) -> bool
    decreases n,
{
    &&& sync::row_of(n) is None
    &&& match n {
        Json::Object(o) => o.dom().contains("children"@) ==> match o["children"@] {
            Json::Array(c) => forall|i: int| 0 <= i < c.len() ==> is_rowless(#[trigger] c[i]),
            _ => true,
        },
        _ => true,
    }
}

/// A node without row numbers came from no row.
proof fn lemma_rowless(n: Json)
    ensures
        is_rowless(without_rows(n)),
    decreases n,
{
    lemma_row_key();
    let x = without_rows(n);
    if let Json::Object(o) = n {
        assert(x.member("_firefox_id"@) is None);
        if o.dom().contains("children"@) {
            if let Json::Array(c) = o["children"@] {
                lemma_without_rows_list(c, c.len() as int);
                let list = without_rows_list(c, c.len() as int);
                assert(x->Object_0["children"@] == Json::Array(list));
                assert forall|i: int| 0 <= i < list.len() implies is_rowless(#[trigger] list[i]) by {
                    lemma_rowless(c[i]);
                }
            }
        }
    }
}

/// Members other than the row number and the children do not matter.
proof fn lemma_rowless_with(n: Json, key: Seq<char>, v: Json)
    requires
        is_rowless(n),
        key != "_firefox_id"@,
        key != "children"@,
    ensures
        is_rowless(n.with(key, v)),
{
    let x = n.with(key, v);
    assert(sync::row_of(x) == sync::row_of(n));
    if let Json::Object(o) = n {
        if o.dom().contains("children"@) {
            assert(x->Object_0["children"@] == o["children"@]);
        }
    }
}

/// What leaves out row numbers leaves out nothing else of a node itself.
pub proof fn lemma_without_rows_members(n: Json)
    ensures
        forall|key: Seq<char>|
            key != "_firefox_id"@ && key != "children"@ ==> #[trigger] without_rows(n).member(key)
                == n.member(key),
{
    lemma_copy_keys();
}

/// A copy has an identifier that no node of the document has, and today's dates. All else is as
/// in the node that was copied, whatever it is; only where the document is kept in a table,
/// neither the copy nor any node below it came from a row.
pub proof fn law_copy_is_new(n: Json, doc: Json, mint: MintState, to_table: bool)
    requires
        n is Object,
        tree::max_id(doc) < u64::MAX,
    ensures
        ({
            let x = copy_of(n, doc, mint, to_table).0;
            &&& tree::own_id(x) matches Some(id)
            &&& id == tree::max_id(doc) + 1
            &&& !tree::has_id(doc, id)
            &&& x.text_member("guid"@) == Some(mint.next_guid())
            &&& x.text_member("date_added"@) == Some(mint.now)
            &&& x.text_member("date_modified"@) == Some(mint.now)
            &&& forall|key: Seq<char>|
                key != "id"@ && key != "guid"@ && key != "date_added"@ && key != "date_modified"@
                    ==> #[trigger] x.member(key) == (if to_table {
                    without_rows(n)
                } else {
                    n
                }).member(key)
            &&& to_table ==> is_rowless(x)
            &&& to_table ==> forall|key: Seq<char>|
                key != "_firefox_id"@ && key != "children"@ ==> #[trigger] without_rows(n).member(
                    key,
                ) == n.member(key)
        }),
{
    lemma_copy_keys();
    tree::law_fresh_id_is_new(doc);
    lemma_without_rows_members(n);
    if to_table {
        law_entering_node_has_no_row(n, doc, mint);
    }
}

/// A node that moves to another document has an identifier that no node of the document has. All
/// else is as it was, whatever it is; only where the document is kept in a table, neither the
/// node nor any node below it came from a row.
pub proof fn law_moved_node_is_kept(n: Json, doc: Json, mint: MintState, to_table: bool)
    requires
        n is Object,
        tree::max_id(doc) < u64::MAX,
    ensures
        ({
            let x = relabelled(n, doc, mint, to_table).0;
            &&& tree::own_id(x) matches Some(id)
            &&& id == tree::max_id(doc) + 1
            &&& !tree::has_id(doc, id)
            &&& x.text_member("guid"@) == Some(mint.next_guid())
            &&& forall|key: Seq<char>|
                key != "id"@ && key != "guid"@ ==> #[trigger] x.member(key) == (if to_table {
                    without_rows(n)
                } else {
                    n
                }).member(key)
            &&& to_table ==> is_rowless(x)
            &&& to_table ==> forall|key: Seq<char>|
                key != "_firefox_id"@ && key != "children"@ ==> #[trigger] without_rows(n).member(
                    key,
                ) == n.member(key)
        }),
{
    lemma_copy_keys();
    tree::law_fresh_id_is_new(doc);
    lemma_without_rows_members(n);
    if to_table {
        law_entering_node_has_no_row(n, doc, mint);
    }
}

/// The keys that a copy gets anew are different, and different from those it loses.
pub proof fn lemma_copy_keys()
    ensures
        "id"@.len() == 2,
        "guid"@.len() == 4,
        "date_added"@.len() == 10,
        "date_modified"@.len() == 13,
        "_firefox_id"@.len() == 11,
        "children"@.len() == 8,
{
    reveal_strlit("id");
    reveal_strlit("guid");
    reveal_strlit("date_added");
    reveal_strlit("date_modified");
    reveal_strlit("_firefox_id");
    reveal_strlit("children");
}

/// A node that enters a document that is kept in a table came from no row there, and neither did
/// any node below it.
pub proof fn law_entering_node_has_no_row(n: Json, doc: Json, mint: MintState)
    ensures
        is_rowless(relabelled(n, doc, mint, true).0),
        is_rowless(copy_of(n, doc, mint, true).0),
{
    lemma_copy_keys();
    let x = relabelled(n, doc, mint, true).0;
    if n is Object {
        let a = without_rows(n);
        lemma_rowless(n);
        lemma_rowless_with(a, "id"@, Json::Str(tree::fresh_id(doc)));
        lemma_rowless_with(
            a.with("id"@, Json::Str(tree::fresh_id(doc))),
            "guid"@,
            Json::Str(mint.next_guid()),
        );
    }
    lemma_rowless_with(x, "date_added"@, Json::Str(mint.now));
    lemma_rowless_with(
        x.with("date_added"@, Json::Str(mint.now)),
        "date_modified"@,
        Json::Str(mint.now),
    );
}

/// Every change inserts a row.
pub open spec fn updates_nothing(changes: Seq<sync::ChangeView>) -> bool {
    forall|k: int| 0 <= k < changes.len() ==> sync::updated_row(#[trigger] changes[k]) is None
}

/// Insertions and more insertions are insertions.
proof fn lemma_insertions_only(a: Seq<sync::ChangeView>, b: Seq<sync::ChangeView>)
    requires
        updates_nothing(a),
        updates_nothing(b),
    ensures
        updates_nothing(a + b),
{
    assert forall|k: int| 0 <= k < (a + b).len() implies sync::updated_row(
        #[trigger] (a + b)[k],
    ) is None by {
        if k < a.len() {
            assert((a + b)[k] == a[k]);
        } else {
            assert((a + b)[k] == b[k - a.len()]);
        }
    }
}

/// A node that came from no row is stored as a new one: writing it to a table of Firefox only
/// inserts rows, so no row that is there, such as that of the node it was copied from, changes.
pub proof fn law_rowless_node_is_inserted(
    owner: sync::OwnerView,
    position: int,
    n: Json,
    base: nat,
    mint: MintState,
)
    requires
        is_rowless(n),
    ensures
        updates_nothing(sync::node_changes(owner, position, n, base, mint).0),
    decreases n, 0int,
{
    let s = sync::node_changes(owner, position, n, base, mint).0;
    if node::is_folder(n) {
        let own = seq![s[0]];
        assert(updates_nothing(own));
        if let Json::Object(o) = n {
            if o.dom().contains("children"@) {
                if let Json::Array(c) = o["children"@] {
                    let below = sync::OwnerView::Made(base as int);
                    let m = mint.firefox_drawn();
                    let rest = sync::list_changes(below, c, c.len() as int, base + 1, m).0;
                    lemma_rowless_list_is_inserted(below, c, c.len() as int, base + 1, m);
                    lemma_insertions_only(own, rest);
                    assert(s =~= own + rest);
                }
            }
        }
    }
}

/// Nodes that came from no row are stored as new ones.
proof fn lemma_rowless_list_is_inserted(
    owner: sync::OwnerView,
    nodes: Seq<Json>,
    n: int,
    base: nat,
    mint: MintState,
)
    requires
        0 <= n <= nodes.len(),
        forall|i: int| 0 <= i < nodes.len() ==> is_rowless(#[trigger] nodes[i]),
    ensures
        updates_nothing(sync::list_changes(owner, nodes, n, base, mint).0),
    decreases nodes, n,
{
    if n > 0 {
        let (s, m) = sync::list_changes(owner, nodes, n - 1, base, mint);
        let t = sync::node_changes(owner, n - 1, nodes[n - 1], base + s.len(), m).0;
        lemma_rowless_list_is_inserted(owner, nodes, n - 1, base, mint);
        law_rowless_node_is_inserted(owner, n - 1, nodes[n - 1], base + s.len(), m);
        lemma_insertions_only(s, t);
    }
}

/// The names of the history are those of no other root folder.
proof fn lemma_history_names(segment: Seq<char>)
    requires
        tree::names_history(segment),
    ensures
        !tree::names_trash(segment),
        !tree::names_isolate(segment),
        !tree::names_bar(segment),
        !tree::names_other(segment),
        !tree::names_menu(segment),
{
    reveal_strlit("history");
    reveal_strlit("履歴");
    reveal_strlit("trash");
    reveal_strlit("ゴミ箱");
    reveal_strlit("isolate");
    reveal_strlit("リンク切れ");
    reveal_strlit("bookmark_bar");
    reveal_strlit("ブックマーク バー");
    reveal_strlit("other");
    reveal_strlit("その他のブックマーク");
    reveal_strlit("menu");
    reveal_strlit("ブックマーク メニュー");
    assert("history"@[0] != "isolate"@[0]);
    assert(segment.len() == 7 || segment.len() == 2);
}

/// The history is no folder that an edit reaches.
pub proof fn law_history_is_out_of_reach(doc: Json, segment: Seq<char>)
    requires
        tree::names_history(segment),
    ensures
        tree::editable_root(doc, segment) is None,
{
    lemma_history_names(segment);
}

/// Looking for the history makes no folder.
pub proof fn lemma_history_needs_nothing(doc: Json, segment: Seq<char>, mint: MintState)
    requires
        tree::names_history(segment),
    ensures
        tree::prepared(doc, segment, mint) == (doc, mint),
{
    lemma_history_names(segment);
}

} // verus!

//! Places of nodes: the root folder that a node lies under, and the child to take at each step.
use crate::guid::MintState;
use crate::node;
use crate::node::{ISOLATE_FOLDER_NAME, TRASH_FOLDER_NAME};
use crate::text;
use crate::text::text_eq;
use crate::tree;
use crate::tree::{
    child_position, get_root_node_ref, is_bar_name, is_history_name, is_isolate_name, is_menu_name,
    is_other_name, is_trash_name, item_mut, labelled_index, root_folder_mut, root_folder_ref,
};
use crate::value;
use crate::value::{Doc, Json};
use vstd::prelude::*;

verus! {

/// A place: the key of a root folder, and the position of a child for each step down from it.
#[derive(Debug)]
pub struct Place {
    pub root: String,
    pub at: Vec<usize>,
}

/// The model of a place.
pub struct PlaceView {
    pub root: Seq<char>,
    pub at: Seq<int>,
}

impl View for Place {
    type V = PlaceView;

    open spec fn view(&self) -> PlaceView {
        PlaceView { root: self.root@, at: self.at@.map_values(|i: usize| i as int) }
    }
}

/// The models of a list of places.
pub open spec fn places_of(s: Seq<Place>) -> Seq<PlaceView> {
    s.map_values(|p: Place| p@)
}

impl PlaceView {
    /// The place of a child.
    pub open spec fn child(self, i: int) -> PlaceView {
        PlaceView { root: self.root, at: self.at.push(i) }
    }

    /// The place of the parent.
    pub open spec fn parent(self) -> PlaceView {
        PlaceView { root: self.root, at: self.at.drop_last() }
    }

    /// The place lies below another one.
    pub open spec fn lies_below(self, p: PlaceView) -> bool {
        &&& self.root == p.root
        &&& self.at.len() > p.at.len()
        &&& self.at.take(p.at.len() as int) == p.at
    }
}

impl Place {
    /// The place of a root folder.
    pub fn of_root(key: &str) -> (r: Place)
        ensures
            r@ == (PlaceView { root: key@, at: Seq::empty() }),
    {
        let r: Place = Place { root: key.to_owned(), at: Vec::new() };
        assert(r@.at =~= Seq::empty());
        r
    }

    /// A copy of the place.
    pub fn copy(&self) -> (r: Place)
        ensures
            r@ == self@,
    {
        let mut at: Vec<usize> = Vec::new();
        let mut i: usize = 0;
        while i < self.at.len()
            invariant
                i <= self.at@.len(),
                at@ == self.at@.take(i as int),
            decreases self.at.len() - i,
        {
            at.push(self.at[i]);
            assert(self.at@.take(i + 1) =~= self.at@.take(i as int).push(self.at@[i as int]));
            i += 1;
        }
        assert(self.at@.take(i as int) =~= self.at@);
        Place { root: self.root.clone(), at }
    }

    /// The place of a child.
    pub fn child(&self, i: usize) -> (r: Place)
        ensures
            r@ == self@.child(i as int),
    {
        let mut r: Place = self.copy();
        r.at.push(i);
        assert(r@.at =~= self@.at.push(i as int));
        r
    }

    /// Tells whether two places are the same.
    pub fn same(&self, other: &Place) -> (r: bool)
        ensures
            r == (self@ == other@),
    {
        if !text_eq(self.root.as_str(), other.root.as_str()) || self.at.len() != other.at.len() {
            assert(self@.at.len() == self.at@.len() && other@.at.len() == other.at@.len());
            return false;
        }
        let mut i: usize = 0;
        while i < self.at.len()
            invariant
                i <= self.at@.len(),
                self.at@.len() == other.at@.len(),
                self.root@ == other.root@,
                forall|j: int| 0 <= j < i ==> self@.at[j] == other@.at[j],
            decreases self.at.len() - i,
        {
            if self.at[i] != other.at[i] {
                assert(self@.at[i as int] != other@.at[i as int]);
                return false;
            }
            i += 1;
        }
        assert(self@.at =~= other@.at);
        true
    }
}

/// Tells whether a place is in a list.
pub fn holds_place(places: &Vec<Place>, p: &Place) -> (r: bool)
    ensures
        r == places_of(places@).contains(p@),
{
    let ghost s = places_of(places@);
    let mut i: usize = 0;
    while i < places.len()
        invariant
            i <= places@.len(),
            s == places_of(places@),
            forall|j: int| 0 <= j < i ==> #[trigger] s[j] != p@,
        decreases places.len() - i,
    {
        assert(s[i as int] == places@[i as int]@);
        if places[i].same(p) {
            return true;
        }
        i += 1;
    }
    false
}

// ---------------------------------------------------------------------------
// The node at a place
// ---------------------------------------------------------------------------

/// The node that steps lead to from a node.
pub open spec fn below(n: Json, at: Seq<int>) -> Option<Json>
    decreases at.len(),
{
    if at.len() == 0 {
        Some(n)
    } else {
        match node::children_of(n) {
            Some(c) => if 0 <= at[0] < c.len() {
                below(c[at[0]], at.drop_first())
            } else {
                None
            },
            None => None,
        }
    }
}

/// The node at a place.
pub open spec fn node_at(doc: Json, p: PlaceView) -> Option<Json> {
    match tree::root_folder(doc, p.root) {
        Some(root) => below(root, p.at),
        None => None,
    }
}

/// Finds the node at a place.
pub fn find_node<'a>(val: &'a Doc, p: &Place) -> (r: Option<&'a Doc>)
    ensures
        match r {
            Some(n) => node_at(val@, p@) == Some(n@),
            None => node_at(val@, p@) is None,
        },
{
    let ghost at = p@.at;
    let mut current: &Doc = match root_folder_ref(val, p.root.as_str()) {
        Some(root) => root,
        None => return None,
    };
    let mut i: usize = 0;
    assert(at.skip(0) =~= at);
    while i < p.at.len()
        invariant
            i <= p.at@.len(),
            at == p@.at,
            node_at(val@, p@) == below(current@, at.skip(i as int)),
        decreases p.at.len() - i,
    {
        assert(at.skip(i as int).drop_first() =~= at.skip(i + 1));
        assert(at.skip(i as int)[0] == p.at@[i as int]);
        let children: &Vec<Doc> = match current.get_array("children") {
            Some(c) => c,
            None => return None,
        };
        let k: usize = p.at[i];
        if k >= children.len() {
            return None;
        }
        current = &children[k];
        i += 1;
    }
    assert(at.skip(i as int) =~= Seq::empty());
    Some(current)
}

// ---------------------------------------------------------------------------
// The place that a path leads to
// ---------------------------------------------------------------------------

/// The place of the root folder that a segment names, for reading.
pub open spec fn root_place(doc: Json, segment: Seq<char>) -> Option<PlaceView> {
    let none = Seq::<int>::empty();
    if tree::names_bar(segment) {
        Some(PlaceView { root: "bookmark_bar"@, at: none })
    } else if tree::names_other(segment) {
        Some(PlaceView { root: "other"@, at: none })
    } else if tree::names_menu(segment) {
        Some(PlaceView { root: "menu"@, at: none })
    } else if tree::names_trash(segment) {
        labelled_place(doc, TRASH_FOLDER_NAME@)
    } else if tree::names_isolate(segment) {
        labelled_place(doc, ISOLATE_FOLDER_NAME@)
    } else if tree::names_history(segment) {
        Some(PlaceView { root: "history"@, at: none })
    } else {
        None
    }
}

/// The place of the first of the other bookmarks that has a text for the type or for the name.
pub open spec fn labelled_place(doc: Json, name: Seq<char>) -> Option<PlaceView> {
    match tree::other_children(doc) {
        Some(c) => match text::first_index(c, tree::labelled(name)) {
            Some(i) => Some(PlaceView { root: "other"@, at: seq![i] }),
            None => None,
        },
        None => None,
    }
}

/// The steps that a path takes down from a node.
pub open spec fn steps(j: Json, segments: Seq<Seq<char>>) -> Option<Seq<int>>
    decreases segments.len(),
{
    if segments.len() == 0 {
        Some(Seq::empty())
    } else {
        match node::children_of(j) {
            Some(c) => match tree::child_index(c, segments[0]) {
                Some(i) => match steps(c[i], segments.drop_first()) {
                    Some(rest) => Some(seq![i] + rest),
                    None => None,
                },
                None => None,
            },
            None => None,
        }
    }
}

/// The place that a path leads to.
pub open spec fn navigated_place(doc: Json, segments: Seq<Seq<char>>) -> Option<PlaceView> {
    if segments.len() == 0 {
        None
    } else {
        match (root_place(doc, segments[0]), tree::readable_root(doc, segments[0])) {
            (Some(p), Some(root)) => match steps(root, segments.drop_first()) {
                Some(rest) => Some(PlaceView { root: p.root, at: p.at + rest }),
                None => None,
            },
            _ => None,
        }
    }
}

/// Finds the place of the first of the other bookmarks that has a text for the type or the name.
fn find_labelled(val: &Doc, name: &str) -> (r: Option<Place>)
    ensures
        match r {
            Some(p) => labelled_place(val@, name@) == Some(p@),
            None => labelled_place(val@, name@) is None,
        },
{
    match labelled_index(val, name) {
        Some(i) => {
            let p: Place = Place::of_root("other").child(i);
            assert(p@.at =~= seq![i as int]);
            Some(p)
        },
        None => None,
    }
}

/// Finds the place of the root folder that a segment names.
fn find_root(val: &Doc, segment: &str) -> (r: Option<Place>)
    ensures
        match r {
            Some(p) => root_place(val@, segment@) == Some(p@),
            None => root_place(val@, segment@) is None,
        },
{
    if is_bar_name(segment) {
        Some(Place::of_root("bookmark_bar"))
    } else if is_other_name(segment) {
        Some(Place::of_root("other"))
    } else if is_menu_name(segment) {
        Some(Place::of_root("menu"))
    } else if is_trash_name(segment) {
        find_labelled(val, TRASH_FOLDER_NAME)
    } else if is_isolate_name(segment) {
        find_labelled(val, ISOLATE_FOLDER_NAME)
    } else if is_history_name(segment) {
        Some(Place::of_root("history"))
    } else {
        None
    }
}

/// Finds the place that a path leads to.
pub fn find_place(val: &Doc, segments: &[String]) -> (r: Option<Place>)
    ensures
        match r {
            Some(p) => navigated_place(val@, text::texts(segments@)) == Some(p@),
            None => navigated_place(val@, text::texts(segments@)) is None,
        },
{
    let ghost segs = text::texts(segments@);
    if segments.len() == 0 {
        return None;
    }
    let mut p: Place = match find_root(val, segments[0].as_str()) {
        Some(p) => p,
        None => return None,
    };
    let mut current: &Doc = match get_root_node_ref(val, segments[0].as_str()) {
        Some(root) => root,
        None => return None,
    };
    let ghost start = p@;
    let ghost root = current@;
    let ghost mut done = Seq::<int>::empty();
    let mut i: usize = 1;
    assert(segs.skip(1) =~= segs.drop_first());
    assert(start.at + done =~= start.at);
    proof {
        if let Some(rest) = steps(root, segs.skip(1)) {
            assert(done + rest =~= rest);
        }
    }
    while i < segments.len()
        invariant
            1 <= i <= segments@.len(),
            segs == text::texts(segments@),
            p@.root == start.root,
            p@.at == start.at + done,
            steps(root, segs.drop_first()) == (match steps(current@, segs.skip(i as int)) {
                Some(rest) => Some(done + rest),
                None => None,
            }),
            root_place(val@, segs[0]) == Some(start),
            tree::readable_root(val@, segs[0]) == Some(root),
        decreases segments.len() - i,
    {
        assert(segs.skip(i as int).drop_first() =~= segs.skip(i + 1));
        assert(segs.skip(i as int)[0] == segments@[i as int]@);
        let children: &Vec<Doc> = match current.get_array("children") {
            Some(c) => c,
            None => return None,
        };
        match child_position(children, segments[i].as_str()) {
            Some(k) => {
                current = &children[k];
                p = p.child(k);
                proof {
                    assert((start.at + done).push(k as int) =~= start.at + done.push(k as int));
                    if let Some(rest) = steps(current@, segs.skip(i + 1)) {
                        assert(done + (seq![k as int] + rest) =~= done.push(k as int) + rest);
                    }
                    done = done.push(k as int);
                }
            },
            None => return None,
        }
        i += 1;
    }
    assert(segs.skip(i as int) =~= Seq::empty());
    assert(done + Seq::<int>::empty() =~= done);
    Some(p)
}

// ---------------------------------------------------------------------------
// Nodes that leave their places
// ---------------------------------------------------------------------------

/// A node, at a place, with the nodes at the given places taken out from below it.
pub open spec fn pruned(n: Json, p: PlaceView, gone: Seq<PlaceView>) -> Json
    decreases n, 0int,
{
    match n {
        Json::Object(o) => if o.dom().contains("children"@) {
            match o["children"@] {
                Json::Array(c) => tree::with_children(n, kept(c, c.len() as int, p, gone)),
                _ => n,
            }
        } else {
            n
        },
        _ => n,
    }
}

/// What is left of the first `k` children of the node at a place.
pub open spec fn kept(children: Seq<Json>, k: int, p: PlaceView, gone: Seq<PlaceView>) -> Seq<Json>
    decreases children, k,
{
    if k <= 0 || k > children.len() {
        Seq::empty()
    } else if gone.contains(p.child(k - 1)) {
        kept(children, k - 1, p, gone)
    } else {
        kept(children, k - 1, p, gone).push(pruned(children[k - 1], p.child(k - 1), gone))
    }
}

/// The document with the nodes at the given places taken out from below a root folder.
pub open spec fn pruned_root(doc: Json, key: Seq<char>, gone: Seq<PlaceView>) -> Json {
    match tree::root_folder(doc, key) {
        Some(root) => tree::put(
            doc,
            tree::root_route(key),
            pruned(root, PlaceView { root: key, at: Seq::empty() }, gone),
        ),
        None => doc,
    }
}

/// The document with the nodes at the given places taken out of its bookmarks.
pub open spec fn pruned_doc(doc: Json, gone: Seq<PlaceView>) -> Json {
    pruned_root(
        pruned_root(pruned_root(doc, "bookmark_bar"@, gone), "other"@, gone),
        "menu"@,
        gone,
    )
}

/// Takes the nodes at the given places out from below a node.
fn prune(n: &mut Doc, p: &Place, gone: &Vec<Place>)
    ensures
        final(n)@ == pruned(old(n)@, p@, places_of(gone@)),
    decreases old(n)@,
{
    let ghost whole = *n;
    let ghost g = places_of(gone@);
    if let Some(children) = n.get_array_mut("children") {
        let ghost c = value::items_of(children@);
        let total: usize = children.len();
        let mut i: usize = 0;
        let mut k: usize = 0;
        assert(c =~= kept(c, 0, p@, g) + c.skip(0));
        while k < total
            invariant
                k <= total == c.len(),
                i <= k,
                node::children_of(whole@) == Some(c),
                whole == *old(n),
                g == places_of(gone@),
                kept(c, k as int, p@, g).len() == i,
                value::items_of(children@) == kept(c, k as int, p@, g) + c.skip(k as int),
            decreases total - k,
        {
            let ghost done = kept(c, k as int, p@, g);
            let ghost now = children@;
            let here: Place = p.child(k);
            proof {
                assert(value::items_of(now)[i as int] == c[k as int]);
                assert(value::items_of(now).len() == i + c.len() - k);
            }
            if holds_place(gone, &here) {
                let _ = children.remove(i);
                proof {
                    assert(value::items_of(children@) =~= value::items_of(now).remove(i as int));
                    assert((done + c.skip(k as int)).remove(i as int) =~= done + c.skip(k + 1));
                }
            } else {
                proof {
                    node::lemma_child_below(whole, k as int);
                }
                let child: &mut Doc = item_mut(children, i);
                prune(child, &here, gone);
                proof {
                    let x = pruned(c[k as int], here@, g);
                    assert((done + c.skip(k as int)).update(i as int, x) =~= done.push(x)
                        + c.skip(k + 1));
                }
                i += 1;
            }
            k += 1;
        }
        proof {
            assert(c.skip(k as int) =~= Seq::empty());
            assert(value::items_of(children@) =~= kept(c, c.len() as int, p@, g));
        }
    }
}

/// Takes the nodes at the given places out from below a root folder.
fn prune_root(val: &mut Doc, key: &str, gone: &Vec<Place>)
    ensures
        final(val)@ == pruned_root(old(val)@, key@, places_of(gone@)),
{
    let p: Place = Place::of_root(key);
    if let Some(root) = root_folder_mut(val, key) {
        prune(root, &p, gone);
    }
}

/// Takes the nodes at the given places out of the bookmarks.
pub fn prune_doc(val: &mut Doc, gone: &Vec<Place>)
    ensures
        final(val)@ == pruned_doc(old(val)@, places_of(gone@)),
{
    prune_root(val, "bookmark_bar", gone);
    prune_root(val, "other", gone);
    prune_root(val, "menu", gone);
}

// ---------------------------------------------------------------------------
// Laws
// ---------------------------------------------------------------------------

/// Steps and then more steps lead where all of them lead.
pub proof fn lemma_below_joined(n: Json, a: Seq<int>, b: Seq<int>)
    requires
        below(n, a) is Some,
    ensures
        below(n, a + b) == below(below(n, a)->0, b),
    decreases a.len(),
{
    if a.len() == 0 {
        assert(a + b =~= b);
    } else {
        let c = node::children_of(n)->0;
        assert((a + b).drop_first() =~= a.drop_first() + b);
        lemma_below_joined(c[a[0]], a.drop_first(), b);
    }
}

/// The children of the node at a place are at the places of its children.
pub proof fn lemma_child_place(doc: Json, p: PlaceView, i: int)
    requires
        node_at(doc, p) is Some,
        node::children_of(node_at(doc, p)->0) is Some,
        0 <= i < node::children_of(node_at(doc, p)->0)->0.len(),
    ensures
        node_at(doc, p.child(i)) == Some(node::children_of(node_at(doc, p)->0)->0[i]),
{
    let root = tree::root_folder(doc, p.root)->0;
    let b = seq![i];
    assert(p.at.push(i) =~= p.at + b);
    lemma_below_joined(root, p.at, b);
    assert(b.drop_first() =~= Seq::empty());
    reveal_with_fuel(below, 2);
}

/// The node at a place is a child of the node at the place of the parent.
pub proof fn lemma_parent_place(doc: Json, p: PlaceView)
    requires
        node_at(doc, p) is Some,
        p.at.len() > 0,
    ensures
        node_at(doc, p.parent()) is Some,
        node::children_of(node_at(doc, p.parent())->0) matches Some(c) && 0 <= p.at.last() < c.len()
            && node_at(doc, p) == Some(c[p.at.last()]),
{
    lemma_last_step(tree::root_folder(doc, p.root)->0, p.at);
}

/// The last step leads to a child.
proof fn lemma_last_step(n: Json, at: Seq<int>)
    requires
        below(n, at) is Some,
        at.len() > 0,
    ensures
        below(n, at.drop_last()) is Some,
        node::children_of(below(n, at.drop_last())->0) matches Some(c) && 0 <= at.last() < c.len()
            && below(n, at) == Some(c[at.last()]),
    decreases at.len(),
{
    let c = node::children_of(n)->0;
    if at.len() == 1 {
        assert(at.drop_first() =~= Seq::empty());
        assert(at.drop_last() =~= Seq::empty());
    } else {
        lemma_last_step(c[at[0]], at.drop_first());
        assert(at.drop_last().drop_first() =~= at.drop_first().drop_last());
    }
}

/// The steps of a path lead to its node.
proof fn lemma_steps(j: Json, segments: Seq<Seq<char>>)
    ensures
        match steps(j, segments) {
            Some(at) => below(j, at) == tree::descendant(j, segments) && below(j, at) is Some,
            None => tree::descendant(j, segments) is None,
        },
    decreases segments.len(),
{
    if segments.len() > 0 {
        if let Some(c) = node::children_of(j) {
            text::lemma_first_index(c, tree::shown_as(segments[0]));
            if let Some(i) = tree::child_index(c, segments[0]) {
                lemma_steps(c[i], segments.drop_first());
                if let Some(rest) = steps(c[i], segments.drop_first()) {
                    assert((seq![i] + rest).drop_first() =~= rest);
                }
            }
        }
    }
}

/// A path has a place if and only if it leads to a node, and the node is at the place.
pub proof fn law_path_leads_to_its_place(doc: Json, segments: Seq<Seq<char>>)
    ensures
        match navigated_place(doc, segments) {
            Some(p) => node_at(doc, p) == tree::navigated(doc, segments) && node_at(doc, p) is Some,
            None => tree::navigated(doc, segments) is None,
        },
{
    if segments.len() > 0 {
        let s = segments[0];
        if let Some(root) = tree::readable_root(doc, s) {
            lemma_root_place(doc, s);
            let p = root_place(doc, s)->0;
            lemma_steps(root, segments.drop_first());
            if let Some(rest) = steps(root, segments.drop_first()) {
                lemma_below_joined(tree::root_folder(doc, p.root)->0, p.at, rest);
            }
        }
    }
}

/// A root folder that can be read is at its place.
pub proof fn lemma_root_place(doc: Json, segment: Seq<char>)
    requires
        tree::readable_root(doc, segment) is Some,
    ensures
        root_place(doc, segment) is Some,
        node_at(doc, root_place(doc, segment)->0) == tree::readable_root(doc, segment),
{
    if let Some(c) = tree::other_children(doc) {
        text::lemma_first_index(c, tree::labelled(TRASH_FOLDER_NAME@));
        text::lemma_first_index(c, tree::labelled(ISOLATE_FOLDER_NAME@));
    }
    let p = root_place(doc, segment)->0;
    if p.at.len() > 0 {
        assert(p.at.drop_first() =~= Seq::empty());
    }
    reveal_with_fuel(below, 2);
}

/// Just the given nodes leave: a child that is not at a given place stays, less what leaves from
/// below it, and nothing else is there; the node itself keeps all its other members.
pub proof fn law_only_the_given_leave(n: Json, p: PlaceView, gone: Seq<PlaceView>)
    ensures
        forall|key: Seq<char>|
            key != "children"@ ==> #[trigger] pruned(n, p, gone).member(key) == n.member(key),
        match node::children_of(n) {
            Some(c) => {
                &&& node::children_of(pruned(n, p, gone)) matches Some(left)
                &&& forall|i: int|
                    0 <= i < c.len() && !gone.contains(p.child(i)) ==> left.contains(
                        #[trigger] pruned(c[i], p.child(i), gone),
                    )
                &&& forall|x: Json| #[trigger]
                    left.contains(x) ==> exists|i: int|
                        0 <= i < c.len() && !gone.contains(p.child(i)) && x == #[trigger] pruned(
                            c[i],
                            p.child(i),
                            gone,
                        )
            },
            None => pruned(n, p, gone) == n,
        },
{
    if let Some(c) = node::children_of(n) {
        lemma_kept(c, c.len() as int, p, gone);
        assert(node::children_of(pruned(n, p, gone)) == Some(kept(c, c.len() as int, p, gone)));
    } else {
        assert(pruned(n, p, gone) == n);
    }
}

/// Just the children at the given places leave.
proof fn lemma_kept(c: Seq<Json>, k: int, p: PlaceView, gone: Seq<PlaceView>)
    requires
        0 <= k <= c.len(),
    ensures
        forall|i: int|
            0 <= i < k && !gone.contains(p.child(i)) ==> kept(c, k, p, gone).contains(
                #[trigger] pruned(c[i], p.child(i), gone),
            ),
        forall|x: Json| #[trigger]
            kept(c, k, p, gone).contains(x) ==> exists|i: int|
                0 <= i < k && !gone.contains(p.child(i)) && x == #[trigger] pruned(
                    c[i],
                    p.child(i),
                    gone,
                ),
    decreases k,
{
    if k > 0 {
        lemma_kept(c, k - 1, p, gone);
        let before = kept(c, k - 1, p, gone);
        let after = kept(c, k, p, gone);
        let last = pruned(c[k - 1], p.child(k - 1), gone);
        assert forall|i: int| 0 <= i < k && !gone.contains(p.child(i)) implies after.contains(
            #[trigger] pruned(c[i], p.child(i), gone),
        ) by {
            let x = pruned(c[i], p.child(i), gone);
            if i == k - 1 {
                assert(after[after.len() - 1] == x);
            } else {
                let j = choose|j: int| 0 <= j < before.len() && before[j] == x;
                assert(after[j] == x);
            }
        }
        assert forall|x: Json| #[trigger] after.contains(x) implies exists|i: int|
            0 <= i < k && !gone.contains(p.child(i)) && x == #[trigger] pruned(
                c[i],
                p.child(i),
                gone,
            ) by {
            let j = choose|j: int| 0 <= j < after.len() && after[j] == x;
            if j < before.len() {
                assert(before[j] == x);
                assert(before.contains(x));
            }
        }
    }
}

/// Where nothing leaves from below a node, the node stays as it is.
pub proof fn law_nothing_else_changes(n: Json, p: PlaceView, gone: Seq<PlaceView>)
    requires
        forall|g: PlaceView| #[trigger] gone.contains(g) ==> !g.lies_below(p),
    ensures
        pruned(n, p, gone) == n,
    decreases n, 0int,
{
    if let Json::Object(o) = n {
        if o.dom().contains("children"@) {
            if let Json::Array(c) = o["children"@] {
                lemma_all_kept(c, c.len() as int, p, gone);
                assert(c.take(c.len() as int) =~= c);
                tree::lemma_with_same(n, "children"@);
            }
        }
    }
}

/// Where nothing leaves from below a node, its children stay as they are.
proof fn lemma_all_kept(c: Seq<Json>, k: int, p: PlaceView, gone: Seq<PlaceView>)
    requires
        0 <= k <= c.len(),
        forall|g: PlaceView| #[trigger] gone.contains(g) ==> !g.lies_below(p),
    ensures
        kept(c, k, p, gone) == c.take(k),
    decreases c, k,
{
    if k > 0 {
        let q = p.child(k - 1);
        assert(q.at.take(p.at.len() as int) =~= p.at);
        assert(q.lies_below(p));
        assert forall|g: PlaceView| #[trigger] gone.contains(g) implies !g.lies_below(q) by {
            if g.lies_below(q) {
                assert(g.at.take(p.at.len() as int) =~= g.at.take(q.at.len() as int).take(
                    p.at.len() as int,
                ));
                assert(g.lies_below(p));
            }
        }
        lemma_all_kept(c, k - 1, p, gone);
        law_nothing_else_changes(c[k - 1], q, gone);
        assert(c.take(k) =~= c.take(k - 1).push(c[k - 1]));
    } else {
        assert(c.take(0) =~= Seq::empty());
    }
}

/// The position that a child moves up to when the given nodes leave.
spec fn kept_index(c: Seq<Json>, i: int, p: PlaceView, gone: Seq<PlaceView>) -> int {
    kept(c, i, p, gone).len() as int
}

/// A child that stays is found at the position that it moves up to.
proof fn lemma_kept_index(c: Seq<Json>, k: int, i: int, p: PlaceView, gone: Seq<PlaceView>)
    requires
        0 <= i < k <= c.len(),
        !gone.contains(p.child(i)),
    ensures
        0 <= kept_index(c, i, p, gone) < kept(c, k, p, gone).len(),
        kept(c, k, p, gone)[kept_index(c, i, p, gone)] == pruned(c[i], p.child(i), gone),
    decreases k,
{
    if i < k - 1 {
        lemma_kept_index(c, k - 1, i, p, gone);
    }
}

/// A node stays where neither it nor a node above it leaves: it is found, less what leaves from
/// below it, as many steps down as before.
pub proof fn lemma_stays_below(n: Json, p: PlaceView, at: Seq<int>, gone: Seq<PlaceView>) -> (q: Seq<
    int,
>)
    requires
        below(n, at) is Some,
        forall|k: int|
            0 < k <= at.len() ==> !gone.contains(
                PlaceView { root: p.root, at: p.at + #[trigger] at.take(k) },
            ),
    ensures
        q.len() == at.len(),
        below(pruned(n, p, gone), q) == Some(
            pruned(below(n, at)->0, PlaceView { root: p.root, at: p.at + at }, gone),
        ),
    decreases at.len(),
{
    if at.len() == 0 {
        assert(p.at + at =~= p.at);
        at
    } else {
        let c = node::children_of(n)->0;
        let i = at[0];
        let rest = at.drop_first();
        let here = p.child(i);
        assert(p.at + at.take(1) =~= here.at);
        assert(!gone.contains(here));
        assert forall|k: int| 0 < k <= rest.len() implies !gone.contains(
            PlaceView { root: here.root, at: here.at + #[trigger] rest.take(k) },
        ) by {
            assert(here.at + rest.take(k) =~= p.at + at.take(k + 1));
        }
        let tail = lemma_stays_below(c[i], here, rest, gone);
        lemma_kept_index(c, c.len() as int, i, p, gone);
        let q = seq![kept_index(c, i, p, gone)] + tail;
        assert(q.drop_first() =~= tail);
        assert(here.at + rest =~= p.at + at);
        assert(node::children_of(pruned(n, p, gone)) == Some(kept(c, c.len() as int, p, gone)));
        q
    }
}

/// A root folder is not changed by a change of another one.
pub proof fn lemma_other_root(doc: Json, key: Seq<char>, x: Json, other: Seq<char>)
    requires
        key != other,
    ensures
        tree::root_folder(tree::put(doc, tree::root_route(key), x), other) == tree::root_folder(
            doc,
            other,
        ),
{
    let a = tree::root_route(key);
    let b = tree::root_route(other);
    assert(a.take(1) =~= b.take(1));
    tree::law_put_elsewhere(doc, a, b, x, 1);
}

/// The keys of the root folders differ.
pub proof fn lemma_root_keys()
    ensures
        "bookmark_bar"@ != "other"@,
        "bookmark_bar"@ != "menu"@,
        "other"@ != "menu"@,
{
    reveal_strlit("bookmark_bar");
    reveal_strlit("other");
    reveal_strlit("menu");
    assert("bookmark_bar"@.len() == 12 && "other"@.len() == 5 && "menu"@.len() == 4);
}

/// The root folders after nodes were taken out of them.
pub proof fn law_each_root_is_pruned(doc: Json, gone: Seq<PlaceView>, key: Seq<char>)
    requires
        key == "bookmark_bar"@ || key == "other"@ || key == "menu"@,
    ensures
        tree::root_folder(pruned_doc(doc, gone), key) == (match tree::root_folder(doc, key) {
            Some(root) => Some(pruned(root, PlaceView { root: key, at: Seq::empty() }, gone)),
            None => None,
        }),
{
    lemma_root_keys();
    let d1 = pruned_root(doc, "bookmark_bar"@, gone);
    let d2 = pruned_root(d1, "other"@, gone);
    lemma_one_root(doc, "bookmark_bar"@, gone, key);
    lemma_one_root(d1, "other"@, gone, key);
    lemma_one_root(d2, "menu"@, gone, key);
}

/// A root folder after nodes were taken out of one root folder.
proof fn lemma_one_root(doc: Json, key: Seq<char>, gone: Seq<PlaceView>, other: Seq<char>)
    ensures
        key != other ==> tree::root_folder(pruned_root(doc, key, gone), other)
            == tree::root_folder(doc, other),
        tree::root_folder(pruned_root(doc, key, gone), key) == (match tree::root_folder(doc, key) {
            Some(root) => Some(pruned(root, PlaceView { root: key, at: Seq::empty() }, gone)),
            None => None,
        }),
{
    if let Some(root) = tree::root_folder(doc, key) {
        let x = pruned(root, PlaceView { root: key, at: Seq::empty() }, gone);
        tree::lemma_put_fetch(doc, tree::root_route(key), x);
        if key != other {
            lemma_other_root(doc, key, x, other);
        }
    }
}

/// A folder among the other bookmarks is still the first of its name when nodes that are not
/// folders of that name have left, and holds what is left of its list.
pub proof fn law_folder_outlives_pruning(doc: Json, gone: Seq<PlaceView>, name: Seq<char>)
    requires
        tree::special_route(doc, name) is Some,
        forall|g: PlaceView| #[trigger]
            gone.contains(g) ==> (node_at(doc, g) matches Some(n) && !tree::folder_named(name)(n)),
    ensures
        ({
            let c = tree::other_children(doc)->0;
            let i = text::first_index(c, tree::folder_named(name))->0;
            let p = PlaceView { root: "other"@, at: seq![i] };
            let d = pruned_doc(doc, gone);
            &&& tree::fetch(doc, tree::special_route(doc, name)->0) == Some(c[i])
            &&& node_at(doc, p) == Some(c[i])
            &&& tree::special_route(d, name) matches Some(route)
            &&& tree::fetch(d, route) == Some(pruned(c[i], p, gone))
        }),
{
    let f = tree::folder_named(name);
    let c = tree::other_children(doc)->0;
    let top = PlaceView { root: "other"@, at: Seq::empty() };
    let i = text::first_index(c, f)->0;
    text::lemma_first_index(c, f);
    tree::lemma_special_item(doc, c, i, c[i]);
    law_each_root_is_pruned(doc, gone, "other"@);
    let d = pruned_doc(doc, gone);
    let left = kept(c, c.len() as int, top, gone);
    assert(tree::other_children(d) == Some(left));
    lemma_child_place(doc, top, i);
    assert(top.at.push(i) =~= seq![i]);
    assert(top.child(i) == (PlaceView { root: "other"@, at: seq![i] }));
    assert(!gone.contains(top.child(i)));
    lemma_first_kept(c, c.len() as int, top, gone, f, i, name);
    let j = text::first_index(left, f)->0;
    tree::lemma_special_item(d, left, j, left[j]);
}

/// Taking nodes out from below a node leaves its type and name.
proof fn lemma_pruned_label(n: Json, p: PlaceView, gone: Seq<PlaceView>, name: Seq<char>)
    ensures
        tree::folder_named(name)(pruned(n, p, gone)) == tree::folder_named(name)(n),
{
    reveal_strlit("children");
    reveal_strlit("type");
    reveal_strlit("name");
    assert("children"@.len() == 8 && "type"@.len() == 4 && "name"@.len() == 4);
    law_only_the_given_leave(n, p, gone);
    assert(pruned(n, p, gone).member("type"@) == n.member("type"@));
    assert(pruned(n, p, gone).member("name"@) == n.member("name"@));
}

/// The first folder of a name that stays is the first one among those that stay.
proof fn lemma_first_kept(
    c: Seq<Json>,
    k: int,
    p: PlaceView,
    gone: Seq<PlaceView>,
    f: spec_fn(Json) -> bool,
    i: int,
    name: Seq<char>,
)
    requires
        0 <= k <= c.len(),
        0 <= i < c.len(),
        f == tree::folder_named(name),
        f(c[i]),
        forall|j: int| 0 <= j < i ==> !f(#[trigger] c[j]),
        !gone.contains(p.child(i)),
    ensures
        ({
            let s = kept(c, k, p, gone);
            &&& k <= i ==> text::first_index(s, f) is None
            &&& k > i ==> {
                &&& text::first_index(s, f) matches Some(j)
                &&& 0 <= j < s.len()
                &&& s[j] == pruned(c[i], p.child(i), gone)
            }
        }),
    decreases k,
{
    let s = kept(c, k, p, gone);
    if k > 0 {
        lemma_first_kept(c, k - 1, p, gone, f, i, name);
        let before = kept(c, k - 1, p, gone);
        text::lemma_first_index(before, f);
        if !gone.contains(p.child(k - 1)) {
            let x = pruned(c[k - 1], p.child(k - 1), gone);
            lemma_pruned_label(c[k - 1], p.child(k - 1), gone, name);
            assert(s == before.push(x));
            if k - 1 < i {
                assert forall|j: int| 0 <= j < s.len() implies !f(#[trigger] s[j]) by {
                    if j < before.len() {
                        assert(s[j] == before[j]);
                    }
                }
                text::lemma_first_index_missing(s, f);
            } else if k - 1 == i {
                assert forall|j: int| 0 <= j < before.len() implies !f(#[trigger] s[j]) by {
                    assert(s[j] == before[j]);
                }
                text::lemma_first_index_found(s, f, before.len() as int);
            } else {
                let j = text::first_index(before, f)->0;
                assert forall|m: int| 0 <= m < j implies !f(#[trigger] s[m]) by {
                    assert(s[m] == before[m]);
                }
                assert(s[j] == before[j]);
                text::lemma_first_index_found(s, f, j);
            }
        }
    } else {
        text::lemma_first_index_missing(s, f);
    }
}

/// Making a folder among the other bookmarks moves no node from its place.
pub proof fn law_made_folder_moves_nothing(
    doc: Json,
    name: Seq<char>,
    id: Seq<char>,
    mint: MintState,
    p: PlaceView,
)
    requires
        node_at(doc, p) is Some,
        p.at.len() > 0,
    ensures
        node_at(tree::with_folder_as(doc, name, id, mint).0, p) == node_at(doc, p),
{
    let d = tree::with_folder_as(doc, name, id, mint).0;
    if d != doc {
        let c = tree::other_children(doc)->0;
        let more = c.push(tree::new_folder(mint, id, name));
        let other = tree::root_folder(doc, "other"@)->0;
        let x = tree::with_children(other, more);
        tree::lemma_other_list(doc, Json::Array(more));
        if p.root == "other"@ {
            tree::lemma_put_fetch(doc, tree::root_route("other"@), x);
            assert(node::children_of(x) == Some(more));
            assert(more[p.at[0]] == c[p.at[0]]);
        } else {
            lemma_other_root(doc, "other"@, x, p.root);
        }
    }
}

/// Children leave one by one: a folder with one more child is left with what it would be left with
/// without it, and behind that, unless it leaves, that child, less what leaves from below it.
pub proof fn law_children_leave_one_by_one(
    n: Json,
    c: Seq<Json>,
    x: Json,
    p: PlaceView,
    gone: Seq<PlaceView>,
)
    requires
        n is Object,
    ensures
        ({
            let without = node::children_of(pruned(tree::with_children(n, c), p, gone));
            let with = node::children_of(pruned(tree::with_children(n, c.push(x)), p, gone));
            &&& without is Some
            &&& gone.contains(p.child(c.len() as int)) ==> with == without
            &&& !gone.contains(p.child(c.len() as int)) ==> with == Some(
                without->0.push(pruned(x, p.child(c.len() as int), gone)),
            )
        }),
{
    let a = tree::with_children(n, c);
    let b = tree::with_children(n, c.push(x));
    assert(node::children_of(a) == Some(c));
    assert(node::children_of(b) == Some(c.push(x)));
    lemma_kept_prefix(c, x, c.len() as int, p, gone);
    assert(node::children_of(pruned(a, p, gone)) == Some(kept(c, c.len() as int, p, gone)));
    assert(node::children_of(pruned(b, p, gone)) == Some(
        kept(c.push(x), c.push(x).len() as int, p, gone),
    ));
}

/// What is left of the first children does not depend on those behind them.
proof fn lemma_kept_prefix(c: Seq<Json>, x: Json, k: int, p: PlaceView, gone: Seq<PlaceView>)
    requires
        k <= c.len(),
    ensures
        kept(c.push(x), k, p, gone) == kept(c, k, p, gone),
    decreases k,
{
    if k > 0 {
        lemma_kept_prefix(c, x, k - 1, p, gone);
    }
}

} // verus!

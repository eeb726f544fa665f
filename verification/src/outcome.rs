//! What the edits come to: what stands at a path and at every place of a document afterwards.
use vstd::prelude::*;
use crate::check;
use crate::edit;
use crate::guid::MintState;
use crate::node;
use crate::node::{ISOLATE_FOLDER_NAME, TRASH_FOLDER_NAME};
use crate::place;
use crate::place::PlaceView;
use crate::text;
use crate::tree;
use crate::tree::Hop;
use crate::value::Json;

verus! {

// ---------------------------------------------------------------------------
// Changes at places
// ---------------------------------------------------------------------------

/// The node with what steps lead to replaced.
spec fn put_below(n: Json, at: Seq<int>, x: Json) -> Json
    decreases at.len(),
{
    if at.len() == 0 {
        x
    } else {
        match node::children_of(n) {
            Some(c) => if 0 <= at[0] < c.len() {
                tree::with_children(n, c.update(at[0], put_below(c[at[0]], at.drop_first(), x)))
            } else {
                n
            },
            None => n,
        }
    }
}

/// The document with the node at a place replaced.
spec fn put_at(doc: Json, p: PlaceView, x: Json) -> Json {
    tree::put(
        doc,
        tree::root_route(p.root),
        put_below(tree::root_folder(doc, p.root)->0, p.at, x),
    )
}

/// The nodes agree in all but their children.
pub open spec fn same_but_children(a: Json, b: Json) -> bool {
    forall|key: Seq<char>| key != "children"@ ==> #[trigger] a.member(key) == b.member(key)
}

/// The documents agree in all but what their root folders hold: every root folder is still there,
/// the same in all but its children, and no other member has changed.
pub open spec fn same_roots(before: Json, after: Json) -> bool {
    &&& forall|key: Seq<char>| key != "roots"@ ==> #[trigger] after.member(key) == before.member(key)
    &&& forall|key: Seq<char>|
        match #[trigger] tree::root_folder(before, key) {
            Some(b) => tree::root_folder(after, key) matches Some(a) && same_but_children(a, b),
            None => tree::root_folder(after, key) is None,
        }
}

/// Replacing a root folder by one that agrees with it in all but its children.
proof fn lemma_same_roots(doc: Json, key: Seq<char>, x: Json)
    requires
        tree::root_folder(doc, key) matches Some(root) && same_but_children(x, root),
    ensures
        same_roots(doc, tree::put(doc, tree::root_route(key), x)),
{
    let after = tree::put(doc, tree::root_route(key), x);
    let route = tree::root_route(key);
    reveal_with_fuel(tree::put, 4);
    reveal_with_fuel(tree::fetch, 4);
    assert(route.drop_first() =~= seq![Hop::Key(key)]);
    assert(route.drop_first().drop_first() =~= Seq::<Hop>::empty());
    assert forall|k: Seq<char>|
        match #[trigger] tree::root_folder(doc, k) {
            Some(b) => tree::root_folder(after, k) matches Some(a) && same_but_children(a, b),
            None => tree::root_folder(after, k) is None,
        } by {
        if k == key {
            tree::lemma_put_fetch(doc, route, x);
        } else {
            place::lemma_other_root(doc, key, x, k);
        }
    }
}

/// Agreeing in all but what root folders hold goes over.
proof fn lemma_same_roots_goes_over(a: Json, b: Json, c: Json)
    requires
        same_roots(a, b),
        same_roots(b, c),
    ensures
        same_roots(a, c),
{
    assert forall|key: Seq<char>| key != "roots"@ implies #[trigger] c.member(key) == a.member(
        key,
    ) by {
        assert(b.member(key) == a.member(key));
    }
    assert forall|key: Seq<char>|
        match #[trigger] tree::root_folder(a, key) {
            Some(x) => tree::root_folder(c, key) matches Some(z) && same_but_children(z, x),
            None => tree::root_folder(c, key) is None,
        } by {
        if let Some(x) = tree::root_folder(a, key) {
            let y = tree::root_folder(b, key)->0;
            let z = tree::root_folder(c, key)->0;
            assert(same_but_children(y, x) && same_but_children(z, y));
            assert forall|m: Seq<char>| m != "children"@ implies #[trigger] z.member(m) == x.member(
                m,
            ) by {
                assert(y.member(m) == x.member(m));
            }
        } else {
            assert(tree::root_folder(b, key) is None);
        }
    }
}

/// Asking for a root folder by name leaves all root folders the same in all but their children.
proof fn lemma_prepared_roots(doc: Json, segment: Seq<char>, mint: MintState)
    ensures
        same_roots(doc, tree::prepared(doc, segment, mint).0),
{
    let d = tree::prepared(doc, segment, mint).0;
    if d != doc {
        let name = if tree::names_trash(segment) {
            TRASH_FOLDER_NAME@
        } else {
            ISOLATE_FOLDER_NAME@
        };
        let c = tree::other_children(doc)->0;
        let more = c.push(tree::new_folder(mint, tree::fresh_id(doc), name));
        let other = tree::root_folder(doc, "other"@)->0;
        tree::lemma_other_list(doc, Json::Array(more));
        lemma_same_roots(doc, "other"@, tree::with_children(other, more));
    }
}

/// Replacing the node at a place by one that agrees with it in all but its children leaves all
/// root folders the same in all but their children.
proof fn lemma_put_at_roots(doc: Json, p: PlaceView, x: Json)
    requires
        place::node_at(doc, p) is Some,
        same_but_children(x, place::node_at(doc, p)->0),
    ensures
        same_roots(doc, put_at(doc, p, x)),
{
    let root = tree::root_folder(doc, p.root)->0;
    lemma_put_below_shape(root, p.at, x);
    lemma_same_roots(doc, p.root, put_below(root, p.at, x));
}

/// The keys of a node's name, type and children are different.
proof fn lemma_label_keys()
    ensures
        "children"@ != "type"@,
        "children"@ != "name"@,
        "type"@ != "name"@,
{
    reveal_strlit("children");
    reveal_strlit("type");
    reveal_strlit("name");
    assert("children"@.len() == 8 && "type"@.len() == 4 && "name"@.len() == 4);
    assert("type"@[0] != "name"@[0]);
}

/// Nodes that agree in all but their children are shown alike.
proof fn lemma_shown_alike(a: Json, b: Json)
    requires
        same_but_children(a, b),
    ensures
        node::display_name(a) == node::display_name(b),
        node::is_folder(a) == node::is_folder(b),
        node::is_link(a) == node::is_link(b),
        forall|name: Seq<char>| #[trigger]
            tree::folder_named(name)(a) == tree::folder_named(name)(b),
        forall|name: Seq<char>| #[trigger] tree::labelled(name)(a) == tree::labelled(name)(b),
{
    lemma_label_keys();
    assert(a.member("type"@) == b.member("type"@));
    assert(a.member("name"@) == b.member("name"@));
}

/// What changes below a node leaves the node as it is but for its children.
proof fn lemma_put_below_shape(n: Json, at: Seq<int>, x: Json)
    requires
        place::below(n, at) is Some,
        same_but_children(x, place::below(n, at)->0),
    ensures
        same_but_children(put_below(n, at, x), n),
    decreases at.len(),
{
    if at.len() > 0 {
        let c = node::children_of(n)->0;
        lemma_put_below_shape(c[at[0]], at.drop_first(), x);
    }
}

/// What stands somewhere below a node after a change below it.
#[verifier::rlimit(40)]
proof fn lemma_put_below_at(n: Json, at: Seq<int>, x: Json, q: Seq<int>)
    requires
        place::below(n, at) is Some,
    ensures
        at.len() <= q.len() && q.take(at.len() as int) == at ==> place::below(
            put_below(n, at, x),
            q,
        ) == place::below(x, q.skip(at.len() as int)),
        !(at.len() <= q.len() && q.take(at.len() as int) == at) && !(q.len() <= at.len() && at.take(
            q.len() as int,
        ) == q) ==> place::below(put_below(n, at, x), q) == place::below(n, q),
        q.len() <= at.len() && at.take(q.len() as int) == q ==> place::below(
            put_below(n, at, x),
            q,
        ) == Some(put_below(place::below(n, q)->0, at.skip(q.len() as int), x)) && place::below(
            n,
            q,
        ) is Some && place::below(place::below(n, q)->0, at.skip(q.len() as int)) == place::below(
            n,
            at,
        ),
    decreases at.len(),
{
    if at.len() == 0 {
        assert(q.skip(0) =~= q);
        assert(q.take(0) =~= at);
        if q.len() == 0 {
            assert(at.skip(0) =~= at);
        }
    } else if q.len() == 0 {
        assert(at.take(0) =~= q);
        assert(at.skip(0) =~= at);
    } else {
        let c = node::children_of(n)->0;
        let rest = at.drop_first();
        let down = q.drop_first();
        lemma_put_below_at(c[at[0]], rest, x, down);
        let k = at.len() as int;
        let m = q.len() as int;
        if k <= m {
            assert(down.take(k - 1) =~= q.take(k).drop_first());
            assert(down.skip(k - 1) =~= q.skip(k));
            if q[0] == at[0] && down.take(k - 1) == rest {
                assert(q.take(k) =~= seq![q[0]] + down.take(k - 1));
                assert(at =~= seq![at[0]] + rest);
            }
            if q.take(k) == at {
                assert(q[0] == q.take(k)[0]);
            }
        }
        if m <= k {
            assert(rest.take(m - 1) =~= at.take(m).drop_first());
            assert(rest.skip(m - 1) =~= at.skip(m));
            if q[0] == at[0] && rest.take(m - 1) == down {
                assert(at.take(m) =~= seq![at[0]] + rest.take(m - 1));
                assert(q =~= seq![q[0]] + down);
            }
            if at.take(m) == q {
                assert(at[0] == at.take(m)[0]);
            }
        }
    }
}

/// What stands at a place after the node at a place was replaced by one that agrees with it in all
/// but its children.
proof fn lemma_put_at(doc: Json, p: PlaceView, x: Json, q: PlaceView)
    requires
        place::node_at(doc, p) is Some,
        same_but_children(x, place::node_at(doc, p)->0),
    ensures
        check::is_within(q, p) ==> place::node_at(put_at(doc, p, x), q) == place::below(
            x,
            q.at.skip(p.at.len() as int),
        ),
        check::are_apart(p, q) ==> place::node_at(put_at(doc, p, x), q) == place::node_at(doc, q),
        check::is_within(p, q) ==> (place::node_at(put_at(doc, p, x), q) matches Some(a)
            && place::node_at(doc, q) matches Some(b) && same_but_children(a, b)),
{
    let root = tree::root_folder(doc, p.root)->0;
    let y = put_below(root, p.at, x);
    tree::lemma_put_fetch(doc, tree::root_route(p.root), y);
    if q.root == p.root {
        lemma_put_below_at(root, p.at, x, q.at);
        let n = p.at.len() as int;
        let m = q.at.len() as int;
        if q == p {
            assert(q.at.take(n) =~= p.at);
        }
        if n <= m && q.at.take(n) == p.at {
            if n == m {
                assert(q.at.take(n) =~= q.at);
            }
            assert(check::is_within(q, p));
        }
        if m <= n && p.at.take(m) == q.at {
            if n == m {
                assert(p.at.take(m) =~= p.at);
            }
            assert(check::is_within(p, q));
            lemma_put_below_shape(place::below(root, q.at)->0, p.at.skip(m), x);
        }
        if check::is_within(p, q) {
            if p == q {
                assert(p.at.take(m) =~= q.at);
            }
            assert(p.at.take(m) == q.at);
        }
    } else {
        place::lemma_other_root(doc, p.root, y, q.root);
    }
}

/// Following a path along its steps puts what it puts along its route.
proof fn lemma_walk_steps(j: Json, segments: Seq<Seq<char>>, o: edit::Obstacles, x: Json)
    requires
        tree::walk(j, segments, o.not_folder, o.missing) is Ok,
    ensures
        ({
            let route = tree::walk(j, segments, o.not_folder, o.missing)->Ok_0;
            &&& place::steps(j, segments) matches Some(at)
            &&& place::below(j, at) is Some
            &&& place::below(j, at) == tree::fetch(j, route)
            &&& place::below(j, at) == tree::descendant(j, segments)
            &&& tree::put(j, route, x) == put_below(j, at, x)
        }),
    decreases segments.len(),
{
    if segments.len() > 0 {
        let c = node::children_of(j)->0;
        let i = tree::child_index(c, segments[0])->0;
        text::lemma_first_index(c, tree::shown_as(segments[0]));
        lemma_walk_steps(c[i], segments.drop_first(), o, x);
        let rest = tree::walk(c[i], segments.drop_first(), o.not_folder, o.missing)->Ok_0;
        tree::lemma_child_step(j, c, i, rest, x);
        let at = place::steps(c[i], segments.drop_first())->0;
        assert((seq![i] + at).drop_first() =~= at);
    }
}

/// What is named like a special folder that a segment means is a folder.
pub open spec fn is_clear(doc: Json, segment: Seq<char>) -> bool {
    &&& tree::names_trash(segment) ==> (tree::special_node(doc, TRASH_FOLDER_NAME@) matches Some(n)
        ==> node::is_folder(n))
    &&& tree::names_isolate(segment) ==> (tree::special_node(
        doc,
        ISOLATE_FOLDER_NAME@,
    ) matches Some(n) ==> node::is_folder(n))
}

/// The names of the root folders are all different.
proof fn lemma_root_names(segment: Seq<char>)
    ensures
        tree::names_trash(segment) ==> !tree::names_isolate(segment) && !tree::names_bar(segment)
            && !tree::names_other(segment) && !tree::names_menu(segment) && !tree::names_history(
            segment,
        ),
        tree::names_isolate(segment) ==> !tree::names_bar(segment) && !tree::names_other(segment)
            && !tree::names_menu(segment) && !tree::names_history(segment),
        tree::names_bar(segment) ==> !tree::names_other(segment) && !tree::names_menu(segment)
            && !tree::names_history(segment),
        tree::names_other(segment) ==> !tree::names_menu(segment) && !tree::names_history(segment),
        tree::names_menu(segment) ==> !tree::names_history(segment),
{
    reveal_strlit("history");
    reveal_strlit("履歴");
    reveal_strlit("trash");
    reveal_strlit("ゴミ箱");
    reveal_strlit("isolate");
    reveal_strlit("リンク切れ");
    reveal_strlit("bookmark_bar");
    reveal_strlit("ブックマーク バー");
    reveal_strlit("other");
    reveal_strlit("その他のブックマーク");
    reveal_strlit("menu");
    reveal_strlit("ブックマーク メニュー");
    assert("trash"@[0] == 't' && "isolate"@[0] == 'i' && "other"@[0] == 'o' && "history"@[0] == 'h');
    assert("trash"@.len() == 5 && "other"@.len() == 5 && "menu"@.len() == 4 && "isolate"@.len() == 7
        && "history"@.len() == 7 && "bookmark_bar"@.len() == 12);
    assert("ゴミ箱"@.len() == 3 && "リンク切れ"@.len() == 5 && "履歴"@.len() == 2);
    assert("リンク切れ"@[0] == 'リ');
    assert("ブックマーク バー"@.len() == 9 && "その他のブックマーク"@.len() == 10
        && "ブックマーク メニュー"@.len() == 11);
}

/// A special folder is a folder of its name: the first of what is named so is the first folder.
proof fn lemma_special_agrees(doc: Json, name: Seq<char>)
    requires
        name != "folder"@,
        tree::special_node(doc, name) matches Some(n) && node::is_folder(n),
    ensures
        ({
            let c = tree::other_children(doc)->0;
            &&& text::first_index(c, tree::labelled(name)) is Some
            &&& text::first_index(c, tree::folder_named(name)) == text::first_index(
                c,
                tree::labelled(name),
            )
        }),
{
    reveal_strlit("");
    reveal_strlit("folder");
    let c = tree::other_children(doc)->0;
    text::lemma_first_index(c, tree::labelled(name));
    let i = text::first_index(c, tree::labelled(name))->0;
    assert("folder"@.len() == 6 && ""@.len() == 0);
    assert(c[i].text_member("type"@) == Some("folder"@));
    assert(tree::folder_named(name)(c[i]));
    assert forall|j: int| 0 <= j < i implies !tree::folder_named(name)(#[trigger] c[j]) by {
        assert(!tree::labelled(name)(c[j]));
    }
    text::lemma_first_index_found(c, tree::folder_named(name), i);
}

/// A root folder that can be changed is the one that is read, and stands at its place.
proof fn lemma_editable_root(doc: Json, segment: Seq<char>, x: Json)
    requires
        tree::editable_root(doc, segment) is Some,
        is_clear(doc, segment),
    ensures
        ({
            let route = tree::editable_root(doc, segment)->0;
            &&& place::root_place(doc, segment) matches Some(p)
            &&& tree::readable_root(doc, segment) == tree::fetch(doc, route)
            &&& tree::fetch(doc, route) is Some
            &&& place::node_at(doc, p) == tree::fetch(doc, route)
            &&& tree::root_folder(doc, p.root) is Some
            &&& tree::put(doc, route, x) == put_at(doc, p, x)
        }),
{
    lemma_root_names(segment);
    tree::lemma_root_there(doc, segment);
    let route = tree::editable_root(doc, segment)->0;
    if tree::names_trash(segment) || tree::names_isolate(segment) {
        let name = if tree::names_trash(segment) {
            TRASH_FOLDER_NAME@
        } else {
            ISOLATE_FOLDER_NAME@
        };
        let c = tree::other_children(doc)->0;
        let i = text::first_index(c, tree::folder_named(name))->0;
        text::lemma_first_index(c, tree::folder_named(name));
        assert(tree::labelled(name)(c[i]));
        text::lemma_first_index(c, tree::labelled(name));
        assert(text::first_index(c, tree::labelled(name)) is Some);
        reveal_strlit("folder");
        reveal_strlit("ゴミ箱");
        reveal_strlit("リンク切れ");
        assert(name.len() != "folder"@.len());
        lemma_special_agrees(doc, name);
        tree::lemma_special_item(doc, c, i, x);
        let other = tree::root_folder(doc, "other"@)->0;
        tree::lemma_other_list(doc, tree::put(doc, route, x));
        tree::lemma_other_list(doc, Json::Array(c.update(i, x)));
        let at = seq![i];
        assert(at.drop_first() =~= Seq::<int>::empty());
        assert(put_below(c[i], Seq::<int>::empty(), x) == x);
        assert(put_below(other, at, x) == tree::with_children(other, c.update(i, x)));
        assert(place::below(c[i], Seq::<int>::empty()) == Some(c[i]));
        assert(place::below(other, at) == Some(c[i]));
    } else {
        let p = place::root_place(doc, segment)->0;
        assert(p.at =~= Seq::<int>::empty());
        assert(put_below(tree::root_folder(doc, p.root)->0, p.at, x) == x);
    }
}

/// Steps and then more steps put where all of them put.
proof fn lemma_put_below_joined(n: Json, a: Seq<int>, b: Seq<int>, x: Json)
    requires
        place::below(n, a) is Some,
    ensures
        put_below(n, a + b, x) == put_below(n, a, put_below(place::below(n, a)->0, b, x)),
    decreases a.len(),
{
    if a.len() == 0 {
        assert(a + b =~= b);
    } else {
        let c = node::children_of(n)->0;
        assert((a + b).drop_first() =~= a.drop_first() + b);
        lemma_put_below_joined(c[a[0]], a.drop_first(), b, x);
    }
}

/// A folder that an edit reaches stands at the place of its path.
#[verifier::rlimit(40)]
proof fn lemma_reached(doc: Json, path: Seq<Seq<char>>, o: edit::Obstacles, x: Json)
    requires
        path.len() > 0,
        is_clear(doc, path[0]),
        tree::editable_root(doc, path[0]) is Some,
        tree::walk(
            tree::fetch(doc, tree::editable_root(doc, path[0])->0)->0,
            path.drop_first(),
            o.not_folder,
            o.missing,
        ) is Ok,
    ensures
        ({
            let root = tree::editable_root(doc, path[0])->0;
            let rest = tree::walk(
                tree::fetch(doc, root)->0,
                path.drop_first(),
                o.not_folder,
                o.missing,
            )->Ok_0;
            &&& place::navigated_place(doc, path) matches Some(p)
            &&& place::node_at(doc, p) is Some
            &&& place::node_at(doc, p) == tree::navigated(doc, path)
            &&& place::node_at(doc, p) == tree::fetch(doc, root + rest)
            &&& tree::put(doc, root + rest, x) == put_at(doc, p, x)
        }),
{
    let root = tree::editable_root(doc, path[0])->0;
    let top = tree::fetch(doc, root)->0;
    let down = path.drop_first();
    let rest = tree::walk(top, down, o.not_folder, o.missing)->Ok_0;
    lemma_editable_root(doc, path[0], tree::put(top, rest, x));
    lemma_walk_steps(top, down, o, x);
    tree::lemma_route_joined(doc, root, rest, x);
    let p = place::root_place(doc, path[0])->0;
    let at = place::steps(top, down)->0;
    let base = tree::root_folder(doc, p.root)->0;
    place::lemma_below_joined(base, p.at, at);
    lemma_put_below_joined(base, p.at, at, x);
}

/// A path leads to a node that was put there, if that is shown as the one before.
proof fn lemma_descends_again(j: Json, segments: Seq<Seq<char>>, x: Json)
    requires
        place::steps(j, segments) is Some,
        place::below(j, place::steps(j, segments)->0) is Some,
        same_but_children(x, place::below(j, place::steps(j, segments)->0)->0),
    ensures
        tree::descendant(put_below(j, place::steps(j, segments)->0, x), segments) == Some(x),
        place::steps(put_below(j, place::steps(j, segments)->0, x), segments) == place::steps(
            j,
            segments,
        ),
    decreases segments.len(),
{
    if segments.len() > 0 {
        let c = node::children_of(j)->0;
        let i = tree::child_index(c, segments[0])->0;
        let f = tree::shown_as(segments[0]);
        text::lemma_first_index(c, f);
        let at = place::steps(c[i], segments.drop_first())->0;
        assert((seq![i] + at).drop_first() =~= at);
        lemma_descends_again(c[i], segments.drop_first(), x);
        let y = put_below(c[i], at, x);
        lemma_put_below_shape(c[i], at, x);
        lemma_shown_alike(y, c[i]);
        let d = c.update(i, y);
        assert(f(d[i]));
        assert forall|k: int| 0 <= k < i implies !f(#[trigger] d[k]) by {
            assert(d[k] == c[k]);
        }
        text::lemma_first_index_found(d, f, i);
        assert(node::children_of(tree::with_children(j, d)) == Some(d));
    }
}

/// A path leads to a node that was put at its place, if that agrees with the one before in all but
/// its children.
#[verifier::rlimit(40)]
proof fn lemma_navigates_again(doc: Json, path: Seq<Seq<char>>, x: Json)
    requires
        path.len() > 0,
        place::navigated_place(doc, path) is Some,
        same_but_children(x, place::node_at(doc, place::navigated_place(doc, path)->0)->0),
    ensures
        tree::navigated(put_at(doc, place::navigated_place(doc, path)->0, x), path) == Some(x),
        place::navigated_place(put_at(doc, place::navigated_place(doc, path)->0, x), path)
            == place::navigated_place(doc, path),
{
    let s = path[0];
    let down = path.drop_first();
    let p = place::navigated_place(doc, path)->0;
    let r = place::root_place(doc, s)->0;
    let top = tree::readable_root(doc, s)->0;
    let at = place::steps(top, down)->0;
    let base = tree::root_folder(doc, r.root)->0;
    place::law_path_leads_to_its_place(doc, path);
    place::lemma_root_place(doc, s);
    place::lemma_below_joined(base, r.at, at);
    lemma_put_below_joined(base, r.at, at, x);
    let y = put_below(top, at, x);
    lemma_put_below_shape(top, at, x);
    lemma_descends_again(top, down, x);
    let after = put_at(doc, p, x);
    let z = put_below(base, r.at, y);
    assert(after == tree::put(doc, tree::root_route(r.root), z));
    tree::lemma_put_fetch(doc, tree::root_route(r.root), z);
    lemma_root_names(s);
    if r.at.len() == 0 {
        assert(z == y);
    } else {
        let name = if tree::names_trash(s) {
            TRASH_FOLDER_NAME@
        } else {
            ISOLATE_FOLDER_NAME@
        };
        let c = tree::other_children(doc)->0;
        let f = tree::labelled(name);
        let i = text::first_index(c, f)->0;
        text::lemma_first_index(c, f);
        assert(r.at == seq![i]);
        assert(r.at.drop_first() =~= Seq::<int>::empty());
        assert(put_below(c[i], Seq::<int>::empty(), y) == y);
        let d = c.update(i, y);
        assert(z == tree::with_children(base, d));
        assert(node::children_of(z) == Some(d));
        lemma_shown_alike(y, c[i]);
        assert(f(d[i]));
        assert forall|k: int| 0 <= k < i implies !f(#[trigger] d[k]) by {
            assert(d[k] == c[k]);
        }
        text::lemma_first_index_found(d, f, i);
        assert(tree::other_children(after) == Some(d));
    }
    assert(tree::readable_root(after, s) == Some(y));
}

// ---------------------------------------------------------------------------
// Making special folders
// ---------------------------------------------------------------------------

/// After a root folder was asked for by name, what is named like it is a folder, and every node
/// stands where it stood.
proof fn lemma_prepared(doc: Json, segment: Seq<char>, mint: MintState, p: PlaceView)
    requires
        is_clear(doc, segment),
    ensures
        is_clear(tree::prepared(doc, segment, mint).0, segment),
        place::node_at(doc, p) is Some && p.at.len() > 0 ==> place::node_at(
            tree::prepared(doc, segment, mint).0,
            p,
        ) == place::node_at(doc, p),
{
    let d = tree::prepared(doc, segment, mint).0;
    lemma_root_names(segment);
    if tree::names_trash(segment) {
        lemma_folder_made(doc, TRASH_FOLDER_NAME@, tree::fresh_id(doc), mint);
    } else if tree::names_isolate(segment) {
        lemma_folder_made(doc, ISOLATE_FOLDER_NAME@, tree::fresh_id(doc), mint);
    }
    if place::node_at(doc, p) is Some && p.at.len() > 0 {
        let id = tree::fresh_id(doc);
        place::law_made_folder_moves_nothing(doc, TRASH_FOLDER_NAME@, id, mint, p);
        place::law_made_folder_moves_nothing(doc, ISOLATE_FOLDER_NAME@, id, mint, p);
    }
}

/// After a special folder was made, what is named like it is a folder.
proof fn lemma_folder_made(doc: Json, name: Seq<char>, id: Seq<char>, mint: MintState)
    requires
        tree::special_node(doc, name) matches Some(n) ==> node::is_folder(n),
        name == TRASH_FOLDER_NAME@ || name == ISOLATE_FOLDER_NAME@,
    ensures
        tree::special_node(tree::with_folder_as(doc, name, id, mint).0, name) matches Some(n)
            ==> node::is_folder(n),
{
    let d = tree::with_folder_as(doc, name, id, mint).0;
    if d != doc {
        reveal_strlit("folder");
        reveal_strlit("ゴミ箱");
        reveal_strlit("リンク切れ");
        let c = tree::other_children(doc)->0;
        let f = tree::new_folder(mint, id, name);
        let more = c.push(f);
        let other = tree::root_folder(doc, "other"@)->0;
        tree::lemma_other_list(doc, Json::Array(more));
        tree::lemma_put_fetch(doc, tree::root_route("other"@), tree::with_children(other, more));
        assert(tree::other_children(d) == Some(more));
        tree::lemma_new_folder(mint, id, name);
        if tree::special_node(doc, name) is Some {
            assert(name.len() != "folder"@.len());
            lemma_special_agrees(doc, name);
        }
        text::lemma_first_index(c, tree::labelled(name));
        text::lemma_first_index(c, tree::folder_named(name));
        assert(tree::labelled(name)(more[c.len() as int]));
        assert forall|k: int| 0 <= k < c.len() implies !tree::labelled(name)(#[trigger] more[k]) by {
            assert(more[k] == c[k]);
        }
        text::lemma_first_index_found(more, tree::labelled(name), c.len() as int);
    }
}

// ---------------------------------------------------------------------------
// Putting in
// ---------------------------------------------------------------------------

/// The children of a folder, or none.
pub open spec fn children_or_none(n: Option<Json>) -> Seq<Json> {
    match n {
        Some(x) => match node::children_of(x) {
            Some(c) => c,
            None => Seq::empty(),
        },
        None => Seq::empty(),
    }
}

/// A node was added to a document at the end of the folder that a path leads to: the path leads to
/// that folder, whose other members and former children are as they were; every other node stands
/// where it stood, as it was but for what is above the folder, which still is the same in all but
/// its children.
pub open spec fn is_added(before: Json, after: Json, path: Seq<Seq<char>>, n: Json) -> bool {
    &&& tree::navigated(after, path) matches Some(folder)
    &&& node::children_of(folder) == Some(children_or_none(tree::navigated(before, path)).push(n))
    &&& tree::navigated(before, path) matches Some(x) ==> same_but_children(folder, x)
    &&& same_roots(before, after)
    &&& forall|q: PlaceView|
        (#[trigger] place::node_at(before, q)) is Some && q.at.len() > 0 ==> (place::node_at(
            after,
            q,
        ) matches Some(now) && same_but_children(now, place::node_at(before, q)->0) && (
        !check::is_within(place::navigated_place(after, path)->0, q) ==> now == place::node_at(
            before,
            q,
        )->0))
}

/// A node that is put in is the last child of the very folder that the path leads to.
#[verifier::rlimit(40)]
proof fn lemma_placed(
    doc: Json,
    path: Seq<Seq<char>>,
    n: Json,
    mint: MintState,
    o: edit::Obstacles,
)
    requires
        path.len() > 0,
        is_clear(doc, path[0]),
        edit::placed(doc, path, n, mint, o).fault is None,
    ensures
        is_added(doc, edit::placed(doc, path, n, mint, o).doc, path, n),
{
    let d = tree::prepared(doc, path[0], mint).0;
    let after = edit::placed(doc, path, n, mint, o).doc;
    let none = PlaceView { root: ""@, at: Seq::empty() };
    lemma_prepared(doc, path[0], mint, none);
    let root = tree::editable_root(d, path[0])->0;
    let rest = tree::walk(
        tree::fetch(d, root)->0,
        path.drop_first(),
        o.not_folder,
        o.missing,
    )->Ok_0;
    let folder = tree::fetch(d, root + rest)->0;
    let c = node::children_of(folder)->0;
    let x = tree::with_children(folder, c.push(n));
    lemma_reached(d, path, o, x);
    let p = place::navigated_place(d, path)->0;
    assert(same_but_children(x, folder));
    lemma_navigates_again(d, path, x);
    assert(node::children_of(x) == Some(c.push(n)));
    lemma_prepared_path(doc, path, mint);
    lemma_prepared_roots(doc, path[0], mint);
    lemma_put_at_roots(d, p, x);
    lemma_same_roots_goes_over(doc, d, after);
    assert forall|q: PlaceView|
        (#[trigger] place::node_at(doc, q)) is Some && q.at.len() > 0 implies (place::node_at(
        after,
        q,
    ) matches Some(now) && same_but_children(now, place::node_at(doc, q)->0) && (
    !check::is_within(place::navigated_place(after, path)->0, q) ==> now == place::node_at(
        doc,
        q,
    )->0)) by {
        lemma_prepared(doc, path[0], mint, q);
        lemma_put_at(d, p, x, q);
        if check::is_within(q, p) && q != p {
            let k = p.at.len() as int;
            let down = q.at.skip(k);
            let base = tree::root_folder(d, p.root)->0;
            assert(q.at =~= p.at + down);
            place::lemma_below_joined(base, p.at, down);
            assert(c.push(n)[down[0]] == c[down[0]]);
        } else if q == p {
            assert(check::is_within(p, q));
        }
    }
}

/// What a path leads to is there after its root folder was asked for; where it led nowhere, it
/// leads at most to a new, empty folder.
#[verifier::rlimit(40)]
proof fn lemma_prepared_path(doc: Json, path: Seq<Seq<char>>, mint: MintState)
    requires
        path.len() > 0,
        is_clear(doc, path[0]),
        tree::navigated(tree::prepared(doc, path[0], mint).0, path) is Some,
        node::children_of(tree::navigated(tree::prepared(doc, path[0], mint).0, path)->0) is Some,
    ensures
        ({
            let d = tree::prepared(doc, path[0], mint).0;
            &&& children_or_none(tree::navigated(d, path)) == children_or_none(
                tree::navigated(doc, path),
            )
            &&& tree::navigated(doc, path) is Some ==> tree::navigated(d, path) == tree::navigated(
                doc,
                path,
            )
        }),
{
    let d = tree::prepared(doc, path[0], mint).0;
    if d != doc {
        lemma_root_names(path[0]);
        let name = if tree::names_trash(path[0]) {
            TRASH_FOLDER_NAME@
        } else {
            ISOLATE_FOLDER_NAME@
        };
        reveal_strlit("folder");
        reveal_strlit("ゴミ箱");
        reveal_strlit("リンク切れ");
        let c = tree::other_children(doc)->0;
        let id = tree::fresh_id(doc);
        let f = tree::new_folder(mint, id, name);
        let more = c.push(f);
        let other = tree::root_folder(doc, "other"@)->0;
        tree::lemma_other_list(doc, Json::Array(more));
        tree::lemma_put_fetch(doc, tree::root_route("other"@), tree::with_children(other, more));
        assert(tree::other_children(d) == Some(more));
        tree::lemma_new_folder(mint, id, name);
        if tree::special_node(doc, name) is Some {
            assert(name.len() != "folder"@.len());
            lemma_special_agrees(doc, name);
        }
        text::lemma_first_index(c, tree::labelled(name));
        text::lemma_first_index(c, tree::folder_named(name));
        assert(tree::labelled(name)(more[c.len() as int]));
        assert forall|k: int| 0 <= k < c.len() implies !tree::labelled(name)(#[trigger] more[k]) by {
            assert(more[k] == c[k]);
        }
        text::lemma_first_index_found(more, tree::labelled(name), c.len() as int);
        assert(tree::readable_root(d, path[0]) == Some(f));
        assert(tree::readable_root(doc, path[0]) is None);
        let down = path.drop_first();
        if down.len() > 0 {
            text::lemma_first_index(Seq::<Json>::empty(), tree::shown_as(down[0]));
            assert(tree::descendant(f, down) is None);
        }
    }
}

/// A node that is put in stands at the end of the folder that the destination names, if that is a
/// folder; else, or where the destination leads nowhere, at the end of the folder that the
/// destination without its last segment leads to. Nothing else changes.
#[verifier::rlimit(40)]
pub proof fn law_destination_is_the_folder_named(
    doc: Json,
    dest: Seq<Seq<char>>,
    n: Json,
    mint: MintState,
)
    requires
        dest.len() > 0,
        is_clear(doc, dest[0]),
        edit::inserted(doc, dest, n, mint).fault is None,
    ensures
        ({
            let after = edit::inserted(doc, dest, n, mint).doc;
            let is_folder = tree::navigated(doc, dest) matches Some(x) && node::is_folder(x);
            &&& is_folder || dest.len() == 1 ==> is_added(doc, after, dest, n)
            &&& !is_folder && dest.len() > 1 ==> is_added(doc, after, dest.drop_last(), n)
        }),
{
    let to = edit::destination(doc, dest);
    assert(to[0] == dest[0]);
    lemma_placed(doc, to, n, mint, edit::destination_obstacles());
}

/// The folder that a destination means: itself if a folder is there or it has one segment, else what
/// it leads to without its last segment.
pub open spec fn meant_folder(doc: Json, dest: Seq<Seq<char>>) -> Seq<Seq<char>> {
    if dest.len() == 1 || (tree::navigated(doc, dest) matches Some(x) && node::is_folder(x)) {
        dest
    } else {
        dest.drop_last()
    }
}

/// A node that is moved in from another browser, or copied, ends up where the destination says:
/// at the end of the folder that it means, with all its members but its identifiers, and its dates
/// where it is copied. Nothing else changes.
#[verifier::rlimit(40)]
pub proof fn law_entering_node_reaches_its_destination(
    doc: Json,
    dest: Seq<Seq<char>>,
    n: Json,
    mint: MintState,
    to_table: bool,
)
    requires
        dest.len() > 0,
        is_clear(doc, dest[0]),
    ensures
        edit::moved_in(doc, dest, n, mint, to_table).fault is None ==> exists|x: Json|
            same_but_labels(x, n, to_table) && #[trigger] is_added(
                doc,
                edit::moved_in(doc, dest, n, mint, to_table).doc,
                meant_folder(doc, dest),
                x,
            ),
        edit::copied_in(doc, dest, n, mint, to_table).fault is None ==> exists|x: Json|
            same_but_labels_and_dates(x, n, to_table) && #[trigger] is_added(
                doc,
                edit::copied_in(doc, dest, n, mint, to_table).doc,
                meant_folder(doc, dest),
                x,
            ),
{
    let (x, m) = edit::relabelled(n, doc, mint, to_table);
    let (y, k) = edit::copy_of(n, doc, mint, to_table);
    edit::lemma_copy_keys();
    edit::lemma_without_rows_members(n);
    let to = meant_folder(doc, dest);
    if edit::moved_in(doc, dest, n, mint, to_table).fault is None {
        law_destination_is_the_folder_named(doc, dest, x, m);
        assert(same_but_labels(x, n, to_table));
        assert(is_added(doc, edit::moved_in(doc, dest, n, mint, to_table).doc, to, x));
    }
    if edit::copied_in(doc, dest, n, mint, to_table).fault is None {
        law_destination_is_the_folder_named(doc, dest, y, k);
        assert(same_but_labels_and_dates(y, n, to_table));
        assert(is_added(doc, edit::copied_in(doc, dest, n, mint, to_table).doc, to, y));
    }
}

/// The nodes agree in all but their identifiers; on the way into a table also but for the row
/// number, and the children.
pub open spec fn same_but_labels(x: Json, n: Json, to_table: bool) -> bool {
    forall|key: Seq<char>|
        key != "id"@ && key != "guid"@ && (to_table ==> key != "_firefox_id"@ && key != "children"@)
            ==> #[trigger] x.member(key) == n.member(key)
}

/// The nodes agree in all but their identifiers and dates; on the way into a table also but for
/// the row number, and the children.
pub open spec fn same_but_labels_and_dates(x: Json, n: Json, to_table: bool) -> bool {
    forall|key: Seq<char>|
        key != "id"@ && key != "guid"@ && key != "date_added"@ && key != "date_modified"@ && (
        to_table ==> key != "_firefox_id"@ && key != "children"@) ==> #[trigger] x.member(key)
            == n.member(key)
}

// ---------------------------------------------------------------------------
// Taking out
// ---------------------------------------------------------------------------

/// The position among nodes is that of the first one that is shown under a name.
pub open spec fn is_first_shown(c: Seq<Json>, i: int, name: Seq<char>) -> bool {
    &&& 0 <= i < c.len()
    &&& node::display_name(c[i]) == name
    &&& forall|k: int| 0 <= k < i ==> node::display_name(#[trigger] c[k]) != name
}

/// The children of the folder that a path leads to changed, and nothing else: that folder keeps
/// its other members, what is above it is the same in all but its children, and all that is apart
/// from it stands where it stood, as it was.
pub open spec fn only_refilled(before: Json, after: Json, path: Seq<Seq<char>>) -> bool {
    &&& tree::navigated(before, path) matches Some(old_folder)
    &&& tree::navigated(after, path) matches Some(new_folder)
    &&& same_but_children(new_folder, old_folder)
    &&& same_roots(before, after)
    &&& place::navigated_place(before, path) matches Some(p)
    &&& forall|q: PlaceView|
        {
            &&& check::are_apart(p, q) ==> #[trigger] place::node_at(after, q) == place::node_at(
                before,
                q,
            )
            &&& check::is_within(p, q) ==> (place::node_at(after, q) matches Some(a)
                && place::node_at(before, q) matches Some(b) && same_but_children(a, b))
        }
}

/// The node that a path leads to was taken out of a document: its folder keeps all its other
/// children in their order, and nothing else changed.
pub open spec fn is_removed(before: Json, after: Json, path: Seq<Seq<char>>) -> bool {
    &&& only_refilled(before, after, path.drop_last())
    &&& node::children_of(tree::navigated(before, path.drop_last())->0) matches Some(c)
    &&& exists|i: int| #[trigger]
        is_first_shown(c, i, path.last()) && tree::navigated(before, path) == Some(c[i])
            && node::children_of(tree::navigated(after, path.drop_last())->0) == Some(c.remove(i))
}

/// The node that a path leads to was replaced by another one in its place, and nothing else
/// changed.
pub open spec fn is_replaced(before: Json, after: Json, path: Seq<Seq<char>>, x: Json) -> bool {
    &&& only_refilled(before, after, path.drop_last())
    &&& node::children_of(tree::navigated(before, path.drop_last())->0) matches Some(c)
    &&& exists|i: int| #[trigger]
        is_first_shown(c, i, path.last()) && tree::navigated(before, path) == Some(c[i])
            && node::children_of(tree::navigated(after, path.drop_last())->0) == Some(
            c.update(i, x),
        )
}

/// A root folder that is read, and is none of the history, can be changed, and asking for it makes
/// nothing.
proof fn lemma_readable_is_editable(doc: Json, segment: Seq<char>, mint: MintState)
    requires
        is_clear(doc, segment),
        !tree::names_history(segment),
        tree::readable_root(doc, segment) is Some,
    ensures
        tree::editable_root(doc, segment) is Some,
        tree::prepared(doc, segment, mint) == (doc, mint),
{
    lemma_root_names(segment);
    if tree::names_trash(segment) || tree::names_isolate(segment) {
        let name = if tree::names_trash(segment) {
            TRASH_FOLDER_NAME@
        } else {
            ISOLATE_FOLDER_NAME@
        };
        reveal_strlit("folder");
        reveal_strlit("ゴミ箱");
        reveal_strlit("リンク切れ");
        assert(name.len() != "folder"@.len());
        lemma_special_agrees(doc, name);
    }
}

/// A walk succeeds if and only if the path leads somewhere.
proof fn lemma_walk_succeeds(j: Json, segments: Seq<Seq<char>>, o: edit::Obstacles)
    ensures
        tree::walk(j, segments, o.not_folder, o.missing) is Ok <==> tree::descendant(
            j,
            segments,
        ) is Some,
    decreases segments.len(),
{
    if segments.len() > 0 {
        if let Some(c) = node::children_of(j) {
            text::lemma_first_index(c, tree::shown_as(segments[0]));
            if let Some(i) = tree::child_index(c, segments[0]) {
                lemma_walk_succeeds(c[i], segments.drop_first(), o);
            }
        }
    }
}

/// A path to a node leads to its parent first, and then to the first child of its last name.
proof fn lemma_last_segment(j: Json, segments: Seq<Seq<char>>)
    requires
        segments.len() > 0,
    ensures
        tree::descendant(j, segments) == (match tree::descendant(j, segments.drop_last()) {
            Some(parent) => match node::children_of(parent) {
                Some(c) => match tree::child_index(c, segments.last()) {
                    Some(i) => Some(c[i]),
                    None => None,
                },
                None => None,
            },
            None => None,
        }),
    decreases segments.len(),
{
    reveal_with_fuel(tree::descendant, 2);
    if segments.len() == 1 {
        assert(segments.drop_last() =~= Seq::<Seq<char>>::empty());
        assert(segments.drop_first() =~= Seq::<Seq<char>>::empty());
    } else {
        assert(segments.drop_last().drop_first() =~= segments.drop_first().drop_last());
        if let Some(c) = node::children_of(j) {
            if let Some(i) = tree::child_index(c, segments[0]) {
                lemma_last_segment(c[i], segments.drop_first());
            }
        }
    }
}

/// What looking up the parent of a node gives.
#[verifier::rlimit(40)]
proof fn lemma_parent(doc: Json, segments: Seq<Seq<char>>, mint: MintState)
    requires
        segments.len() > 1,
        is_clear(doc, segments[0]),
        !tree::names_history(segments[0]),
    ensures
        ({
            let d = tree::looked_up(doc, segments, mint).0;
            let up = segments.drop_last();
            &&& tree::parent_place(d, segments) is Ok <==> tree::navigated(doc, segments) is Some
            &&& tree::parent_place(d, segments) matches Ok((route, i)) ==> {
                &&& d == doc
                &&& tree::navigated(doc, up) matches Some(parent)
                &&& tree::fetch(doc, route) == Some(parent)
                &&& place::navigated_place(doc, up) matches Some(p)
                &&& place::node_at(doc, p) == Some(parent)
                &&& node::children_of(parent) matches Some(c)
                &&& is_first_shown(c, i, segments.last())
                &&& tree::navigated(doc, segments) == Some(c[i])
                &&& forall|x: Json| #[trigger] tree::put(doc, route, x) == put_at(doc, p, x)
            }
        }),
{
    let (d, m) = tree::looked_up(doc, segments, mint);
    let up = segments.drop_last();
    let o = edit::destination_obstacles();
    let s = segments[0];
    let on_way = segments.subrange(1, segments.len() - 1);
    let walked = edit::Obstacles {
        not_folder: crate::fault::Reason::SegmentNotFolder,
        missing: crate::fault::Reason::ChildNotFound,
        ..o
    };
    assert(up[0] == s);
    assert(on_way =~= up.drop_first());
    let none = PlaceView { root: ""@, at: Seq::empty() };
    lemma_prepared(doc, s, mint, none);
    if tree::readable_root(doc, s) is Some {
        lemma_readable_is_editable(doc, s, mint);
        assert(d == doc);
        let root = tree::editable_root(doc, s)->0;
        lemma_editable_root(doc, s, doc);
        let top = tree::readable_root(doc, s)->0;
        let down = segments.drop_first();
        assert(down.drop_last() =~= on_way);
        lemma_last_segment(top, down);
        lemma_walk_succeeds(top, on_way, walked);
        if tree::descendant(top, on_way) is Some {
            let parent = tree::descendant(top, on_way)->0;
            lemma_reached(doc, up, walked, doc);
            if let Some(c) = node::children_of(parent) {
                text::lemma_first_index(c, tree::shown_as(segments.last()));
                if let Some(i) = tree::child_index(c, segments.last()) {
                    assert(tree::shown_as(segments.last())(c[i]));
                    assert forall|k: int| 0 <= k < i implies node::display_name(#[trigger] c[k])
                        != segments.last() by {
                        assert(!tree::shown_as(segments.last())(c[k]));
                    }
                    let route = tree::parent_place(doc, segments)->Ok_0.0;
                    let p = place::navigated_place(doc, up)->0;
                    assert forall|x: Json| #[trigger] tree::put(doc, route, x) == put_at(
                        doc,
                        p,
                        x,
                    ) by {
                        lemma_reached(doc, up, walked, x);
                    }
                }
            }
        }
    } else {
        assert(tree::navigated(doc, segments) is None);
        if tree::parent_place(d, segments) is Ok {
            let root = tree::editable_root(d, s)->0;
            lemma_reached(d, up, walked, d);
            lemma_prepared_path(doc, up, mint);
            let c = node::children_of(tree::navigated(d, up)->0)->0;
            text::lemma_first_index(c, tree::shown_as(segments.last()));
            assert(tree::navigated(doc, up) is None);
            assert(c.len() == 0);
        }
    }
}

/// The children of the folder that a path leads to were replaced.
proof fn lemma_refilled(doc: Json, path: Seq<Seq<char>>, list: Seq<Json>)
    requires
        path.len() > 0,
        place::navigated_place(doc, path) is Some,
        node::children_of(tree::navigated(doc, path)->0) is Some,
    ensures
        ({
            let folder = tree::navigated(doc, path)->0;
            let p = place::navigated_place(doc, path)->0;
            let after = put_at(doc, p, tree::with_children(folder, list));
            &&& only_refilled(doc, after, path)
            &&& node::children_of(tree::navigated(after, path)->0) == Some(list)
        }),
{
    place::law_path_leads_to_its_place(doc, path);
    let folder = tree::navigated(doc, path)->0;
    let p = place::navigated_place(doc, path)->0;
    let x = tree::with_children(folder, list);
    let after = put_at(doc, p, x);
    assert(same_but_children(x, folder));
    lemma_navigates_again(doc, path, x);
    lemma_put_at_roots(doc, p, x);
    assert forall|q: PlaceView|
        {
            &&& check::are_apart(p, q) ==> #[trigger] place::node_at(after, q) == place::node_at(
                doc,
                q,
            )
            &&& check::is_within(p, q) ==> (place::node_at(after, q) matches Some(a)
                && place::node_at(doc, q) matches Some(b) && same_but_children(a, b))
        } by {
        lemma_put_at(doc, p, x, q);
    }
}

/// Taking out succeeds exactly where the path leads to a node below a root folder other than the
/// history. The node that leaves is the one that the path leads to, and nothing else changes.
pub proof fn law_taken_node_is_the_one_named(doc: Json, segments: Seq<Seq<char>>, mint: MintState)
    requires
        segments.len() > 1,
        is_clear(doc, segments[0]),
        !tree::names_history(segments[0]),
    ensures
        edit::taken(doc, segments, mint).2 is Ok <==> tree::navigated(doc, segments) is Some,
        tree::navigated(doc, segments) matches Some(n) ==> edit::taken(doc, segments, mint).2 == Ok::<
            Json,
            crate::fault::Fault,
        >(n) && is_removed(doc, edit::taken(doc, segments, mint).0, segments),
{
    lemma_parent(doc, segments, mint);
    if tree::navigated(doc, segments) is Some {
        let up = segments.drop_last();
        let (route, i) = tree::parent_place(doc, segments)->Ok_0;
        let c = node::children_of(tree::navigated(doc, up)->0)->0;
        lemma_refilled(doc, up, c.remove(i));
        assert(is_first_shown(c, i, segments.last()));
    }
}

// ---------------------------------------------------------------------------
// Deleting
// ---------------------------------------------------------------------------

/// The trash: the first folder of its name among the other bookmarks.
pub open spec fn is_trash_place(doc: Json, t: PlaceView) -> bool {
    &&& t.root == "other"@
    &&& t.at.len() == 1
    &&& tree::other_children(doc) matches Some(c)
    &&& 0 <= t.at[0] < c.len()
    &&& c[t.at[0]].text_member("type"@) == Some("folder"@)
    &&& c[t.at[0]].text_member("name"@) == Some(TRASH_FOLDER_NAME@)
    &&& forall|k: int|
        0 <= k < t.at[0] ==> !((#[trigger] c[k]).text_member("type"@) == Some("folder"@)
            && c[k].text_member("name"@) == Some(TRASH_FOLDER_NAME@))
}

/// A place lies below the trash.
pub open spec fn is_below_trash(doc: Json, p: PlaceView) -> bool {
    exists|t: PlaceView| #[trigger] is_trash_place(doc, t) && p.lies_below(t)
}

/// A path takes a step for each of its segments.
proof fn lemma_steps_len(j: Json, segments: Seq<Seq<char>>)
    ensures
        place::steps(j, segments) matches Some(at) ==> at.len() == segments.len(),
    decreases segments.len(),
{
    if segments.len() > 0 {
        if let Some(c) = node::children_of(j) {
            if let Some(i) = tree::child_index(c, segments[0]) {
                lemma_steps_len(c[i], segments.drop_first());
            }
        }
    }
}

/// A path leads into the trash if and only if its place lies below the trash.
#[verifier::rlimit(40)]
proof fn lemma_below_trash(doc: Json, segments: Seq<Seq<char>>)
    requires
        segments.len() > 1,
        is_clear(doc, segments[0]),
        !tree::names_history(segments[0]),
        tree::navigated(doc, segments) is Some,
    ensures
        tree::leads_into_trash(doc, segments) <==> is_below_trash(
            doc,
            place::navigated_place(doc, segments)->0,
        ),
{
    let s = segments[0];
    lemma_root_names(s);
    place::law_path_leads_to_its_place(doc, segments);
    place::lemma_root_keys();
    let p = place::navigated_place(doc, segments)->0;
    let top = tree::readable_root(doc, s)->0;
    let down = segments.drop_first();
    let at = place::steps(top, down)->0;
    let r = place::root_place(doc, s)->0;
    let f = tree::folder_named(TRASH_FOLDER_NAME@);
    lemma_steps_len(top, down);
    reveal_strlit("folder");
    reveal_strlit("ゴミ箱");
    reveal_strlit("リンク切れ");
    assert(TRASH_FOLDER_NAME@.len() == 3 && ISOLATE_FOLDER_NAME@.len() == 5 && "folder"@.len() == 6);
    if tree::names_trash(s) {
        lemma_special_agrees(doc, TRASH_FOLDER_NAME@);
    }
    if let Some(c) = tree::other_children(doc) {
        text::lemma_first_index(c, f);
        if let Some(i) = text::first_index(c, f) {
            let t = PlaceView { root: "other"@, at: seq![i] };
            assert(f(c[i]));
            assert forall|k: int| 0 <= k < i implies !((#[trigger] c[k]).text_member("type"@) == Some(
                "folder"@,
            ) && c[k].text_member("name"@) == Some(TRASH_FOLDER_NAME@)) by {
                assert(!f(c[k]));
            }
            assert(is_trash_place(doc, t));
            if tree::names_trash(s) {
                assert(p.at.take(1) =~= t.at);
                assert(p.lies_below(t));
            } else if tree::names_other(s) && !tree::names_isolate(s) && !tree::names_bar(s) {
                assert(r.at + at =~= at);
                let k = tree::child_index(c, segments[1])->0;
                assert(down[0] == segments[1]);
                assert(at[0] == k);
                if tree::leads_into_trash(doc, segments) {
                    assert(p.at.take(1) =~= t.at);
                    assert(p.lies_below(t));
                }
            }
        }
    }
    if is_below_trash(doc, p) {
        let t = choose|t: PlaceView| #[trigger] is_trash_place(doc, t) && p.lies_below(t);
        let c = tree::other_children(doc)->0;
        let i = t.at[0];
        assert(f(c[i]));
        assert forall|k: int| 0 <= k < i implies !f(#[trigger] c[k]) by {}
        text::lemma_first_index_found(c, f, i);
        assert(p.at[0] == p.at.take(1)[0]);
        if tree::names_isolate(s) {
            text::lemma_first_index(c, tree::labelled(ISOLATE_FOLDER_NAME@));
            assert(p.at[0] == r.at[0]);
            assert(tree::labelled(ISOLATE_FOLDER_NAME@)(c[i]));
        } else if tree::names_other(s) {
            assert(r.at + at =~= at);
            assert(down[0] == segments[1]);
            assert(at[0] == tree::child_index(c, segments[1])->0);
        }
    }
}

/// Deleting what lies in the trash, by whichever path, takes it out for good; deleting anything
/// else takes it out of its folder and puts it at the end of the trash. Nothing else changes.
#[verifier::rlimit(40)]
pub proof fn law_deletion(doc: Json, segments: Seq<Seq<char>>, mint: MintState)
    requires
        segments.len() > 1,
        is_clear(doc, segments[0]),
        !tree::names_history(segments[0]),
        is_clear(edit::taken(doc, segments, mint).0, "trash"@),
        edit::deleted(doc, segments, mint).fault is None,
    ensures
        ({
            let after = edit::deleted(doc, segments, mint).doc;
            &&& tree::navigated(doc, segments) matches Some(n)
            &&& place::navigated_place(doc, segments) matches Some(p)
            &&& is_below_trash(doc, p) ==> is_removed(doc, after, segments)
            &&& !is_below_trash(doc, p) ==> exists|mid: Json| #[trigger]
                is_removed(doc, mid, segments) && is_added(mid, after, seq!["trash"@], n)
        }),
{
    let (mid, m, out) = edit::taken(doc, segments, mint);
    law_taken_node_is_the_one_named(doc, segments, mint);
    place::law_path_leads_to_its_place(doc, segments);
    lemma_below_trash(doc, segments);
    tree::lemma_leads_into_trash(doc, segments, mint);
    let n = out->Ok_0;
    if !tree::leads_into_trash(doc, segments) {
        lemma_placed(mid, seq!["trash"@], n, m, edit::trash_obstacles());
        assert(is_removed(doc, mid, segments));
    }
}

/// Deleting one item of a folder is deleting the node at the path of the folder with the item
/// behind it.
pub proof fn law_one_item_is_deleted(
    doc: Json,
    folder: Seq<Seq<char>>,
    item: Seq<char>,
    mint: MintState,
)
    requires
        text::trimmed(item).len() > 0,
        folder.len() > 0 ==> !tree::names_history(folder[0]),
    ensures
        edit::deleted_all(doc, folder, seq![item], mint).doc == edit::deleted(
            doc,
            folder.push(item),
            mint,
        ).doc,
        edit::deleted_all(doc, folder, seq![item], mint).fault is None,
{
    let items = seq![item];
    assert(text::trimmed(items[0]).len() > 0);
    assert(items.drop_last() =~= Seq::<Seq<char>>::empty());
    reveal_with_fuel(edit::deleted_items, 2);
}

/// An item of a folder outside the trash leaves its folder and lies at the end of the trash
/// afterwards, and nothing else changes.
pub proof fn law_deleted_item_lies_in_trash(
    doc: Json,
    folder: Seq<Seq<char>>,
    item: Seq<char>,
    mint: MintState,
)
    requires
        folder.len() > 0,
        text::trimmed(item).len() > 0,
        is_clear(doc, folder[0]),
        !tree::names_history(folder[0]),
        tree::navigated(doc, folder.push(item)) is Some,
        !is_below_trash(doc, place::navigated_place(doc, folder.push(item))->0),
        edit::deleted(doc, folder.push(item), mint).fault is None,
        is_clear(edit::taken(doc, folder.push(item), mint).0, "trash"@),
    ensures
        exists|mid: Json| #[trigger]
            is_removed(doc, mid, folder.push(item)) && is_added(
                mid,
                edit::deleted_all(doc, folder, seq![item], mint).doc,
                seq!["trash"@],
                tree::navigated(doc, folder.push(item))->0,
            ),
{
    law_one_item_is_deleted(doc, folder, item, mint);
    law_deletion(doc, folder.push(item), mint);
}

/// Items are deleted in turn: deleting some and then one more is deleting all of them. A blank
/// name among them changes nothing.
pub proof fn law_items_are_deleted_in_turn(
    doc: Json,
    folder: Seq<Seq<char>>,
    items: Seq<Seq<char>>,
    item: Seq<char>,
    mint: MintState,
)
    requires
        folder.len() > 0 ==> !tree::names_history(folder[0]),
        exists|i: int| 0 <= i < items.len() && text::trimmed(#[trigger] items[i]).len() > 0,
    ensures
        ({
            let some = edit::deleted_all(doc, folder, items, mint);
            let more = edit::deleted_all(doc, folder, items.push(item), mint);
            &&& text::trimmed(item).len() == 0 ==> more == some
            &&& text::trimmed(item).len() > 0 ==> more.doc == edit::deleted(
                some.doc,
                folder.push(item),
                some.mint,
            ).doc
            &&& some.fault is None && more.fault is None
        }),
{
    let more = items.push(item);
    let i = choose|i: int| 0 <= i < items.len() && text::trimmed(#[trigger] items[i]).len() > 0;
    assert(more[i] == items[i]);
    assert(more.drop_last() =~= items);
}

/// Where all names are blank, the folder itself is deleted.
pub proof fn law_blank_items_mean_the_folder(
    doc: Json,
    folder: Seq<Seq<char>>,
    items: Seq<Seq<char>>,
    mint: MintState,
)
    requires
        folder.len() > 0 ==> !tree::names_history(folder[0]),
        forall|i: int| 0 <= i < items.len() ==> text::trimmed(#[trigger] items[i]).len() == 0,
    ensures
        edit::deleted_all(doc, folder, items, mint) == edit::deleted(doc, folder, mint),
{
}

// ---------------------------------------------------------------------------
// Moving, renaming and making folders
// ---------------------------------------------------------------------------

/// Moving within a browser takes out the node that the source names, and puts that very node at
/// the end of the folder that the destination names once it is out, or of the folder above where
/// the destination names none. Nothing else changes.
#[verifier::rlimit(40)]
pub proof fn law_move(doc: Json, src: Seq<Seq<char>>, dest: Seq<Seq<char>>, mint: MintState)
    requires
        src.len() > 1,
        dest.len() > 0,
        is_clear(doc, src[0]),
        !tree::names_history(src[0]),
        is_clear(edit::taken(doc, src, mint).0, dest[0]),
        edit::moved_within(doc, src, dest, mint).fault is None,
    ensures
        tree::navigated(doc, src) matches Some(n) && exists|mid: Json| #[trigger]
            is_removed(doc, mid, src) && ({
                let after = edit::moved_within(doc, src, dest, mint).doc;
                let is_folder = tree::navigated(mid, dest) matches Some(x) && node::is_folder(x);
                &&& is_folder || dest.len() == 1 ==> is_added(mid, after, dest, n)
                &&& !is_folder && dest.len() > 1 ==> is_added(mid, after, dest.drop_last(), n)
            }),
{
    let (mid, m, out) = edit::taken(doc, src, mint);
    law_taken_node_is_the_one_named(doc, src, mint);
    law_destination_is_the_folder_named(mid, dest, out->Ok_0, m);
    assert(is_removed(doc, mid, src));
}

/// Putting in succeeds where the destination names a folder with a list of children, outside the
/// history.
pub proof fn law_folder_takes_nodes(doc: Json, dest: Seq<Seq<char>>, n: Json, mint: MintState)
    requires
        dest.len() > 0,
        is_clear(doc, dest[0]),
        !tree::names_history(dest[0]),
        tree::navigated(doc, dest) matches Some(x) && node::is_folder(x) && node::children_of(x)
            is Some,
    ensures
        edit::inserted(doc, dest, n, mint).fault is None,
{
    lemma_places_in(doc, dest, n, mint, edit::destination_obstacles());
}

/// A node is put in where the path leads to a node with a list of children.
proof fn lemma_places_in(
    doc: Json,
    path: Seq<Seq<char>>,
    n: Json,
    mint: MintState,
    o: edit::Obstacles,
)
    requires
        path.len() > 0,
        is_clear(doc, path[0]),
        !tree::names_history(path[0]),
        tree::navigated(doc, path) matches Some(x) && node::children_of(x) is Some,
    ensures
        edit::placed(doc, path, n, mint, o).fault is None,
{
    lemma_readable_is_editable(doc, path[0], mint);
    lemma_editable_root(doc, path[0], doc);
    lemma_walk_succeeds(tree::readable_root(doc, path[0])->0, path.drop_first(), o);
    lemma_reached(doc, path, o, doc);
}

/// Renaming keeps all else: the node has its new name, without the extension where it is a link,
/// and is dated now where it was dated; every other member is as it was. Only an object can be
/// renamed, or nothing, which becomes an object with a name alone.
pub proof fn law_renamed_node_keeps_all_else(n: Json, name: Seq<char>, now: Seq<char>)
    ensures
        edit::retitled(n, name, now) is Some <==> n is Object || n is Null,
        edit::retitled(n, name, now) matches Some(x) ==> {
            &&& forall|key: Seq<char>|
                key != "name"@ && key != "date_modified"@ ==> #[trigger] x.member(key) == n.member(
                    key,
                )
            &&& node::is_link(n) && text::finishes_with(name, ".url"@) ==> (x.text_member(
                "name"@,
            ) matches Some(t) && t + ".url"@ == name)
            &&& !(node::is_link(n) && text::finishes_with(name, ".url"@)) ==> x.text_member("name"@)
                == Some(name)
            &&& n.member("date_modified"@) is Some ==> x.text_member("date_modified"@) == Some(now)
            &&& n.member("date_modified"@) is None ==> x.member("date_modified"@) is None
        },
{
    reveal_strlit("name");
    reveal_strlit("date_modified");
    assert("name"@.len() == 4 && "date_modified"@.len() == 13);
    if edit::retitled(n, name, now) is Some {
        if node::is_link(n) && text::finishes_with(name, ".url"@) {
            let t = name.take(name.len() - ".url"@.len());
            assert(name =~= t + ".url"@);
            assert(t =~= name.take(name.len() - ".url"@.len()));
        }
    }
}

/// Renaming replaces the node that the path names by the same node under its new name, in its
/// place, and changes nothing else. It succeeds where the path leads to an object.
pub proof fn law_rename(doc: Json, segments: Seq<Seq<char>>, name: Seq<char>, mint: MintState)
    requires
        segments.len() > 1,
        is_clear(doc, segments[0]),
        !tree::names_history(segments[0]),
    ensures
        edit::renamed(doc, segments, name, mint).fault is None <==> (tree::navigated(
            doc,
            segments,
        ) matches Some(n) && (n is Object || n is Null)),
        edit::renamed(doc, segments, name, mint).fault is None ==> is_replaced(
            doc,
            edit::renamed(doc, segments, name, mint).doc,
            segments,
            edit::retitled(tree::navigated(doc, segments)->0, name, mint.now)->0,
        ),
{
    lemma_parent(doc, segments, mint);
    if tree::navigated(doc, segments) is Some {
        let up = segments.drop_last();
        let (route, i) = tree::parent_place(doc, segments)->Ok_0;
        let c = node::children_of(tree::navigated(doc, up)->0)->0;
        if let Some(x) = edit::retitled(c[i], name, mint.now) {
            lemma_refilled(doc, up, c.update(i, x));
            assert(is_first_shown(c, i, segments.last()));
        }
    }
}

/// A new folder stands at the end of the folder that it is made in: it has its name, no children,
/// today's dates, and an identifier that no node has. It is made wherever the path leads to a node
/// with a list of children, outside the history. Nothing else changes.
#[verifier::rlimit(40)]
pub proof fn law_new_folder(
    doc: Json,
    parents: Seq<Seq<char>>,
    name: Seq<char>,
    written: Seq<char>,
    mint: MintState,
)
    requires
        parents.len() > 0,
        is_clear(doc, parents[0]),
        !tree::names_history(parents[0]),
        tree::max_id(doc) < u64::MAX,
    ensures
        (tree::navigated(doc, parents) matches Some(x) && node::children_of(x) is Some)
            ==> edit::made(doc, parents, name, written, mint).fault is None,
        edit::made(doc, parents, name, written, mint).fault is None ==> exists|f: Json|
            is_new_folder(f, doc, name, mint) && #[trigger] is_added(
                doc,
                edit::made(doc, parents, name, written, mint).doc,
                parents,
                f,
            ),
{
    let f = tree::new_folder(mint, tree::fresh_id(doc), name);
    if tree::navigated(doc, parents) matches Some(x) && node::children_of(x) is Some {
        lemma_places_in(doc, parents, f, mint.drawn(), edit::parent_obstacles());
    }
    if edit::made(doc, parents, name, written, mint).fault is None {
        lemma_placed(doc, parents, f, mint.drawn(), edit::parent_obstacles());
        tree::law_fresh_id_is_new(doc);
        lemma_new_folder_members(doc, name, mint);
    }
}

/// The node is a new, empty folder of a name.
pub open spec fn is_new_folder(f: Json, doc: Json, name: Seq<char>, mint: MintState) -> bool {
    &&& f.text_member("type"@) == Some("folder"@)
    &&& f.text_member("name"@) == Some(name)
    &&& f.array_member("children"@) == Some(Seq::<Json>::empty())
    &&& f.text_member("date_added"@) == Some(mint.now)
    &&& f.text_member("date_modified"@) == Some(mint.now)
    &&& f.text_member("guid"@) == Some(mint.next_guid())
    &&& tree::own_id(f) matches Some(id)
    &&& !tree::has_id(doc, id)
}

/// The members of a new folder.
proof fn lemma_new_folder_members(doc: Json, name: Seq<char>, mint: MintState)
    requires
        tree::max_id(doc) < u64::MAX,
    ensures
        is_new_folder(tree::new_folder(mint, tree::fresh_id(doc), name), doc, name, mint),
{
    reveal_strlit("id");
    reveal_strlit("guid");
    reveal_strlit("name");
    reveal_strlit("type");
    reveal_strlit("children");
    reveal_strlit("date_added");
    reveal_strlit("date_modified");
    reveal_strlit("date_last_used");
    assert("id"@.len() == 2 && "guid"@.len() == 4 && "name"@.len() == 4 && "type"@.len() == 4
        && "children"@.len() == 8 && "date_added"@.len() == 10 && "date_modified"@.len() == 13
        && "date_last_used"@.len() == 14);
    assert("guid"@[0] == 'g' && "name"@[0] == 'n' && "type"@[0] == 't');
    tree::law_fresh_id_is_new(doc);
    let f = tree::new_folder(mint, tree::fresh_id(doc), name);
    assert(f.text_member("id"@) == Some(tree::fresh_id(doc)));
}

// ---------------------------------------------------------------------------
// Paths and identifiers
// ---------------------------------------------------------------------------

/// A path leads step by step: with one more name it leads to the first child, of the node that it
/// led to, that is shown under that name, and nowhere if there is none.
pub proof fn law_path_leads_to_the_first_of_its_name(
    doc: Json,
    path: Seq<Seq<char>>,
    name: Seq<char>,
)
    requires
        path.len() > 0,
    ensures
        match tree::navigated(doc, path) {
            Some(n) => match node::children_of(n) {
                Some(c) => match tree::navigated(doc, path.push(name)) {
                    Some(x) => exists|i: int| #[trigger] is_first_shown(c, i, name) && c[i] == x,
                    None => forall|i: int|
                        0 <= i < c.len() ==> node::display_name(#[trigger] c[i]) != name,
                },
                None => tree::navigated(doc, path.push(name)) is None,
            },
            None => tree::navigated(doc, path.push(name)) is None,
        },
{
    let all = path.push(name);
    assert(all[0] == path[0]);
    assert(all.drop_first().drop_last() =~= path.drop_first());
    assert(all.drop_first().last() == name);
    if let Some(root) = tree::readable_root(doc, path[0]) {
        lemma_last_segment(root, all.drop_first());
        if let Some(n) = tree::navigated(doc, path) {
            if let Some(c) = node::children_of(n) {
                text::lemma_first_index(c, tree::shown_as(name));
                if let Some(i) = tree::child_index(c, name) {
                    assert(tree::shown_as(name)(c[i]));
                    assert forall|k: int| 0 <= k < i implies node::display_name(#[trigger] c[k])
                        != name by {
                        assert(!tree::shown_as(name)(c[k]));
                    }
                    assert(is_first_shown(c, i, name));
                } else {
                    assert forall|i: int| 0 <= i < c.len() implies node::display_name(
                        #[trigger] c[i],
                    ) != name by {
                        assert(!tree::shown_as(name)(c[i]));
                    }
                }
            }
        }
    }
}

/// The roots are reached by their keys and by their names.
#[verifier::rlimit(40)]
pub proof fn law_roots_have_two_names(doc: Json)
    ensures
        tree::navigated(doc, seq!["bookmark_bar"@]) == tree::root_folder(doc, "bookmark_bar"@),
        tree::navigated(doc, seq!["ブックマーク バー"@]) == tree::root_folder(doc, "bookmark_bar"@),
        tree::navigated(doc, seq!["other"@]) == tree::root_folder(doc, "other"@),
        tree::navigated(doc, seq!["その他のブックマーク"@]) == tree::root_folder(doc, "other"@),
        tree::navigated(doc, seq!["menu"@]) == tree::root_folder(doc, "menu"@),
        tree::navigated(doc, seq!["ブックマーク メニュー"@]) == tree::root_folder(doc, "menu"@),
        tree::navigated(doc, seq!["history"@]) == tree::root_folder(doc, "history"@),
        tree::navigated(doc, seq!["履歴"@]) == tree::root_folder(doc, "history"@),
        tree::navigated(doc, seq!["trash"@]) == tree::navigated(doc, seq!["ゴミ箱"@]),
        tree::navigated(doc, seq!["isolate"@]) == tree::navigated(doc, seq!["リンク切れ"@]),
{
    lemma_root_names("bookmark_bar"@);
    lemma_root_names("ブックマーク バー"@);
    lemma_root_names("other"@);
    lemma_root_names("その他のブックマーク"@);
    lemma_root_names("menu"@);
    lemma_root_names("ブックマーク メニュー"@);
    lemma_root_names("history"@);
    lemma_root_names("履歴"@);
    lemma_root_names("trash"@);
    lemma_root_names("ゴミ箱"@);
    lemma_root_names("isolate"@);
    lemma_root_names("リンク切れ"@);
    lemma_single("bookmark_bar"@);
    lemma_single("ブックマーク バー"@);
    lemma_single("other"@);
    lemma_single("その他のブックマーク"@);
    lemma_single("menu"@);
    lemma_single("ブックマーク メニュー"@);
    lemma_single("history"@);
    lemma_single("履歴"@);
    lemma_single("trash"@);
    lemma_single("ゴミ箱"@);
    lemma_single("isolate"@);
    lemma_single("リンク切れ"@);
}

/// A path of one segment has none behind it.
proof fn lemma_single(s: Seq<char>)
    ensures
        seq![s].drop_first() == Seq::<Seq<char>>::empty(),
{
    assert(seq![s].drop_first() =~= Seq::<Seq<char>>::empty());
}

/// The trash and the folder of dead links are what is named so among the other bookmarks, the first
/// one if it is a folder.
pub proof fn law_trash_is_the_folder_of_its_name(doc: Json, i: int)
    requires
        tree::other_children(doc) matches Some(c) && 0 <= i < c.len(),
        ({
            let c = tree::other_children(doc)->0;
            &&& c[i].type_is("folder"@)
            &&& forall|k: int|
                0 <= k < i ==> (#[trigger] c[k]).text_member("name"@) != c[i].text_member("name"@)
                    && c[k].text_member("type"@) != c[i].text_member("name"@)
        }),
    ensures
        tree::other_children(doc)->0[i].text_member("name"@) == Some("ゴミ箱"@) ==> tree::navigated(
            doc,
            seq!["trash"@],
        ) == Some(tree::other_children(doc)->0[i]),
        tree::other_children(doc)->0[i].text_member("name"@) == Some("リンク切れ"@)
            ==> tree::navigated(doc, seq!["isolate"@]) == Some(tree::other_children(doc)->0[i]),
{
    let c = tree::other_children(doc)->0;
    lemma_root_names("trash"@);
    lemma_root_names("isolate"@);
    lemma_single("trash"@);
    lemma_single("isolate"@);
    if let Some(name) = c[i].text_member("name"@) {
        assert(tree::labelled(name)(c[i]));
        assert forall|k: int| 0 <= k < i implies !tree::labelled(name)(#[trigger] c[k]) by {}
        text::lemma_first_index_found(c, tree::labelled(name), i);
    }
}

/// Every identifier in a document counts: a new one is above that of any node at any place.
pub proof fn law_new_identifier_is_above_all(doc: Json, p: PlaceView, k: u64)
    requires
        place::node_at(doc, p) matches Some(n) && n.text_member("id"@) == Some(
            crate::number::decimal(k as nat),
        ),
        tree::max_id(doc) < u64::MAX,
    ensures
        k <= tree::max_id(doc),
        tree::fresh_id(doc) == crate::number::decimal(tree::max_id(doc) + 1),
{
    let root = tree::root_folder(doc, p.root)->0;
    crate::number::law_unsigned_read_back(k);
    lemma_id_below(root, p.at, k as nat);
    tree::lemma_root(doc, p.root);
    let roots = doc.member("roots"@)->0;
    assert(doc->Object_0.dom().contains("roots"@) && doc->Object_0["roots"@] == roots);
    assert(roots->Object_0.dom().contains(p.root) && roots->Object_0[p.root] == root);
    assert(tree::has_id(roots, k as nat));
    assert(tree::has_id(doc, k as nat));
    tree::lemma_max_id(doc);
    tree::law_fresh_id_is_new(doc);
}

/// The identifier of a node below another one is one of that one.
proof fn lemma_id_below(n: Json, at: Seq<int>, k: nat)
    requires
        place::below(n, at) matches Some(x) && tree::own_id(x) == Some(k),
    ensures
        tree::has_id(n, k),
    decreases at.len(),
{
    if at.len() > 0 {
        let c = node::children_of(n)->0;
        lemma_id_below(c[at[0]], at.drop_first(), k);
        let list = Json::Array(c);
        assert(n->Object_0["children"@] == list);
        tree::lemma_item_id(c, at[0], k);
    }
}

/// On the way into a table row numbers are all that is lost: at every depth the same nodes are
/// there, each with all its other members.
pub proof fn law_only_row_numbers_are_lost(n: Json, at: Seq<int>)
    ensures
        place::below(edit::without_rows(n), at) is Some <==> place::below(n, at) is Some,
        place::below(n, at) matches Some(x) ==> (place::below(
            edit::without_rows(n),
            at,
        ) matches Some(y) && (forall|key: Seq<char>|
            key != "_firefox_id"@ && key != "children"@ ==> #[trigger] y.member(key) == x.member(
                key,
            )) && y.member("_firefox_id"@) is None && (node::children_of(x) is Some
            <==> node::children_of(y) is Some) && (node::children_of(x) matches Some(c)
            ==> node::children_of(y)->0.len() == c.len())),
    decreases at.len(),
{
    edit::lemma_copy_keys();
    edit::lemma_without_rows_members(n);
    let y = edit::without_rows(n);
    if let Some(c) = node::children_of(n) {
        edit::lemma_without_rows_list(c, c.len() as int);
        assert(node::children_of(y) == Some(edit::without_rows_list(c, c.len() as int)));
        if at.len() > 0 && 0 <= at[0] < c.len() {
            law_only_row_numbers_are_lost(c[at[0]], at.drop_first());
        }
    } else {
        assert(node::children_of(y) is None);
    }
}

} // verus!

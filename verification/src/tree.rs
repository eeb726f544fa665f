//! Finding nodes in a bookmark document: root folders, children and paths.
use crate::fault::{CommandError, Fault, Reason};
use crate::guid::{Mint, MintState};
use crate::node;
use crate::node::{
    get_node_display_name, BOOKMARK_BAR_JP, BOOKMARK_MENU_JP, HISTORY_FOLDER_NAME,
    ISOLATE_FOLDER_NAME, OTHER_BOOKMARKS_JP, TRASH_FOLDER_NAME,
};
use crate::number;
use crate::number::{decimal_text, parse_u64};
use crate::text;
use crate::text::text_eq;
use crate::value;
use crate::value::{Json, Member, Doc};
use vstd::prelude::*;
use vstd::slice::slice_subrange;

verus! {

// ---------------------------------------------------------------------------
// Places in a document
// ---------------------------------------------------------------------------

/// One step down in a document: to a member of an object or to an item of an array.
pub enum Hop {
    Key(Seq<char>),
    Item(int),
}

/// What stands one step down.
pub open spec fn under(j: Json, hop: Hop) -> Option<Json> {
    match hop {
        Hop::Key(k) => j.member(k),
        Hop::Item(i) => match j {
            Json::Array(s) => if 0 <= i < s.len() {
                Some(s[i])
            } else {
                None
            },
            _ => None,
        },
    }
}

/// The document with what stands one step down replaced.
pub open spec fn put_under(j: Json, hop: Hop, x: Json) -> Json {
    match hop {
        Hop::Key(k) => j.with(k, x),
        Hop::Item(i) => match j {
            Json::Array(s) => Json::Array(s.update(i, x)),
            _ => j,
        },
    }
}

/// What stands at the end of a route.
pub open spec fn fetch(j: Json, route: Seq<Hop>) -> Option<Json>
    decreases route.len(),
{
    if route.len() == 0 {
        Some(j)
    } else {
        match under(j, route[0]) {
            Some(next) => fetch(next, route.drop_first()),
            None => None,
        }
    }
}

/// The document with what stands at the end of a route replaced.
pub open spec fn put(j: Json, route: Seq<Hop>, x: Json) -> Json
    decreases route.len(),
{
    if route.len() == 0 {
        x
    } else {
        match under(j, route[0]) {
            Some(next) => put_under(j, route[0], put(next, route.drop_first(), x)),
            None => j,
        }
    }
}

/// Following a route and then another one is following their concatenation.
pub proof fn lemma_route_joined(j: Json, a: Seq<Hop>, b: Seq<Hop>, x: Json)
    requires
        fetch(j, a) is Some,
    ensures
        fetch(j, a + b) == fetch(fetch(j, a)->0, b),
        put(j, a + b, x) == put(j, a, put(fetch(j, a)->0, b, x)),
    decreases a.len(),
{
    if a.len() == 0 {
        assert(a + b =~= b);
    } else {
        let next = under(j, a[0])->0;
        assert((a + b).drop_first() =~= a.drop_first() + b);
        lemma_route_joined(next, a.drop_first(), b, x);
    }
}

/// What is put at the end of a route is found there.
pub proof fn lemma_put_fetch(j: Json, route: Seq<Hop>, x: Json)
    requires
        fetch(j, route) is Some,
    ensures
        fetch(put(j, route, x), route) == Some(x),
    decreases route.len(),
{
    if route.len() > 0 {
        lemma_put_fetch(under(j, route[0])->0, route.drop_first(), x);
    }
}

/// Putting back what stands at the end of a route changes nothing.
pub proof fn lemma_put_same(j: Json, route: Seq<Hop>)
    requires
        fetch(j, route) is Some,
    ensures
        put(j, route, fetch(j, route)->0) == j,
    decreases route.len(),
{
    if route.len() > 0 {
        let next = under(j, route[0])->0;
        lemma_put_same(next, route.drop_first());
        match (j, route[0]) {
            (Json::Object(m), Hop::Key(k)) => {
                assert(m.insert(k, next) =~= m);
            },
            (Json::Array(s), Hop::Item(i)) => {
                assert(s.update(i, next) =~= s);
            },
            _ => {},
        }
    }
}

/// The step to the list of children.
pub open spec fn children_hop() -> Hop {
    Hop::Key("children"@)
}

/// The node with another list of children.
pub open spec fn with_children(n: Json, children: Seq<Json>) -> Json {
    n.with("children"@, Json::Array(children))
}

// ---------------------------------------------------------------------------
// Identifiers
// ---------------------------------------------------------------------------

/// The number that an object has for its identifier, where its member `id` is the text of a
/// 64-bit number.
pub open spec fn own_id(j: Json) -> Option<nat> {
    match j.text_member("id"@) {
        Some(s) => number::parse_unsigned(s, u64::MAX as nat),
        None => None,
    }
}

/// Some object in the document has the identifier `n`.
pub open spec fn has_id(j: Json, n: nat) -> bool
    decreases j,
{
    match j {
        Json::Object(m) => {
            ||| own_id(j) == Some(n)
            ||| exists|k: Seq<char>| m.dom().contains(k) && has_id(#[trigger] m[k], n)
        },
        Json::Array(s) => exists|i: int| 0 <= i < s.len() && has_id(#[trigger] s[i], n),
        _ => false,
    }
}

/// `n` is the largest identifier in the document, or zero where it has none.
pub open spec fn is_max_id(j: Json, n: nat) -> bool {
    &&& forall|k: nat| #[trigger] has_id(j, k) ==> k <= n
    &&& n == 0 || has_id(j, n)
}

/// The largest identifier in the document, or zero where it has none.
pub open spec fn max_id(j: Json) -> nat {
    choose|n: nat| is_max_id(j, n)
}

/// The identifier of a new node: one above the largest, wrapping around after the largest 64-bit
/// number.
pub open spec fn fresh_id(j: Json) -> Seq<char> {
    number::decimal((max_id(j) as u64).wrapping_add(1) as nat)
}

/// An item's identifiers are those of the array.
pub proof fn lemma_item_id(s: Seq<Json>, i: int, n: nat)
    requires
        0 <= i < s.len(),
        has_id(s[i], n),
    ensures
        has_id(Json::Array(s), n),
{
    let j = Json::Array(s);
    assert(j matches Json::Array(t) && t[i] == s[i] && t.len() == s.len());
    assert(has_id(j, n) == (exists|i: int| 0 <= i < s.len() && has_id(#[trigger] s[i], n)));
}

/// The identifiers of an object are its own one and those of its members.
proof fn lemma_id_member(m: Map<Seq<char>, Json>, n: nat)
    requires
        has_id(Json::Object(m), n),
        own_id(Json::Object(m)) != Some(n),
    ensures
        exists|k: Seq<char>| m.dom().contains(k) && has_id(#[trigger] m[k], n),
{
    let j = Json::Object(m);
    assert(j matches Json::Object(t) && t == m);
}

/// The identifiers of an array are those of its items.
proof fn lemma_id_item(s: Seq<Json>, n: nat)
    requires
        has_id(Json::Array(s), n),
    ensures
        exists|i: int| 0 <= i < s.len() && has_id(#[trigger] s[i], n),
{
}

/// Visits a document and raises `max` to the largest identifier in it.
fn raise_max_id(v: &Doc, max: &mut u64)
    ensures
        *final(max) >= *old(max),
        forall|k: nat| #[trigger] has_id(v@, k) ==> k <= *final(max),
        *final(max) == *old(max) || has_id(v@, *final(max) as nat),
    decreases v,
{
    match v {
        Doc::Object(members) => {
            if let Some(s) = v.get_str("id") {
                if let Some(n) = parse_u64(s) {
                    assert(own_id(v@) == Some(n as nat));
                    if n > *max {
                        *max = n;
                    }
                }
            }
            let ghost m = value::members_of(members@);
            assert(v@ == Json::Object(m));
            let mut i: usize = 0;
            while i < members.len()
                invariant
                    i <= members@.len(),
                    *v == Doc::Object(*members),
                    m == value::members_of(members@),
                    v@ == Json::Object(m),
                    *max >= *old(max),
                    own_id(v@) matches Some(n) ==> n <= *max,
                    forall|j: int, k: nat|
                        0 <= j < i && first_with_key(members@, j) && #[trigger] has_id(
                            members@[j].value@,
                            k,
                        ) ==> k <= *max,
                    *max == *old(max) || has_id(v@, *max as nat),
                decreases members.len() - i,
            {
                if is_first_with_key(members, i) {
                    let ghost before = *max;
                    assert(decreases_to!(*v => v->Object_0));
                    assert(decreases_to!(v->Object_0 => v->Object_0@));
                    assert(decreases_to!(members@ => members@[i as int]));
                    assert(decreases_to!(members@[i as int] => members@[i as int].value));
                    raise_max_id(&members[i].value, max);
                    proof {
                        value::lemma_members_at(members@, i as int, members@[i as int]);
                        if *max != before {
                            let k = members@[i as int].key@;
                            assert(m.dom().contains(k) && has_id(m[k], *max as nat));
                        }
                    }
                }
                i += 1;
            }
            proof {
                assert forall|k: nat| #[trigger] has_id(v@, k) implies k <= *max by {
                    if own_id(v@) != Some(k) {
                        lemma_id_member(m, k);
                        let key = choose|key: Seq<char>|
                            m.dom().contains(key) && has_id(#[trigger] m[key], k);
                        lemma_first_member(members@, key);
                        let i = choose|i: int|
                            0 <= i < members@.len() && first_with_key(members@, i)
                                && members@[i].key@ == key && value::members_of(members@)[key] == (
                            #[trigger] members@[i]).value@;
                        assert(has_id(members@[i].value@, k));
                    }
                }
            }
        },
        Doc::Array(items) => {
            let ghost s = value::items_of(items@);
            assert(v@ == Json::Array(s));
            let mut i: usize = 0;
            while i < items.len()
                invariant
                    i <= items@.len(),
                    *v == Doc::Array(*items),
                    s == value::items_of(items@),
                    v@ == Json::Array(s),
                    *max >= *old(max),
                    forall|j: int, k: nat| 0 <= j < i && #[trigger] has_id(s[j], k) ==> k <= *max,
                    *max == *old(max) || has_id(v@, *max as nat),
                decreases items.len() - i,
            {
                let ghost before = *max;
                assert(decreases_to!(*v => v->Array_0));
                assert(decreases_to!(v->Array_0 => v->Array_0@));
                assert(decreases_to!(items@ => items@[i as int]));
                raise_max_id(&items[i], max);
                assert(s[i as int] == items@[i as int]@);
                proof {
                    if *max != before {
                        assert(has_id(s[i as int], *max as nat));
                        lemma_item_id(s, i as int, *max as nat);
                    }
                }
                i += 1;
            }
            proof {
                assert forall|k: nat| #[trigger] has_id(v@, k) implies k <= *max by {
                    lemma_id_item(s, k);
                }
            }
        },
        _ => {},
    }
}

/// No member before this one has its key.
pub open spec fn first_with_key(s: Seq<Member>, i: int) -> bool {
    forall|j: int| 0 <= j < i ==> (#[trigger] s[j]).key@ != s[i].key@
}

/// Tells whether no member before this one has its key.
pub fn is_first_with_key(members: &Vec<Member>, i: usize) -> (r: bool)
    requires
        i < members@.len(),
    ensures
        r == first_with_key(members@, i as int),
{
    let mut j: usize = 0;
    while j < i
        invariant
            j <= i < members@.len(),
            forall|k: int| 0 <= k < j ==> (#[trigger] members@[k]).key@ != members@[i as int].key@,
        decreases i - j,
    {
        if text_eq(members[j].key.as_str(), members[i].key.as_str()) {
            return false;
        }
        j += 1;
    }
    true
}

/// A key of the mapping is the key of a member that no other one with it precedes.
pub proof fn lemma_first_member(s: Seq<Member>, key: Seq<char>)
    requires
        value::members_of(s).dom().contains(key),
    ensures
        exists|i: int|
            0 <= i < s.len() && first_with_key(s, i) && s[i].key@ == key && value::members_of(
                s,
            )[key] == (#[trigger] s[i]).value@,
    decreases s.len(),
{
    if s[0].key@ == key {
        value::lemma_members_at(s, 0, s[0]);
    } else {
        let t = s.drop_first();
        lemma_first_member(t, key);
        let i = choose|i: int|
            0 <= i < t.len() && first_with_key(t, i) && t[i].key@ == key && value::members_of(
                t,
            )[key] == (#[trigger] t[i]).value@;
        assert forall|j: int| 0 <= j < i + 1 implies (#[trigger] s[j]).key@ != s[i + 1].key@ by {
            if j > 0 {
                assert(t[j - 1] == s[j]);
            }
        }
        assert(s[i + 1] == t[i]);
        assert(first_with_key(s, i + 1));
    }
}

/// The largest identifier in the document, or zero where it has none.
pub fn find_max_id(val: &Doc) -> (r: u64)
    ensures
        is_max_id(val@, r as nat),
        r == max_id(val@),
{
    let mut max: u64 = 0;
    raise_max_id(val, &mut max);
    assert(is_max_id(val@, max as nat));
    max
}

/// The identifier of a new node.
pub fn next_id(val: &Doc) -> (r: String)
    ensures
        r@ == fresh_id(val@),
{
    decimal_text(find_max_id(val).wrapping_add(1) as u128)
}

// ---------------------------------------------------------------------------
// Root folders
// ---------------------------------------------------------------------------

/// The segment names the trash folder.
pub open spec fn names_trash(segment: Seq<char>) -> bool {
    segment == "trash"@ || segment == TRASH_FOLDER_NAME@
}

/// The segment names the folder of dead links.
pub open spec fn names_isolate(segment: Seq<char>) -> bool {
    segment == "isolate"@ || segment == ISOLATE_FOLDER_NAME@
}

/// The segment names the bookmark bar.
pub open spec fn names_bar(segment: Seq<char>) -> bool {
    segment == "bookmark_bar"@ || segment == BOOKMARK_BAR_JP@
}

/// The segment names the other bookmarks.
pub open spec fn names_other(segment: Seq<char>) -> bool {
    segment == "other"@ || segment == OTHER_BOOKMARKS_JP@
}

/// The segment names the bookmark menu.
pub open spec fn names_menu(segment: Seq<char>) -> bool {
    segment == "menu"@ || segment == BOOKMARK_MENU_JP@
}

/// The segment names the history.
pub open spec fn names_history(segment: Seq<char>) -> bool {
    segment == "history"@ || segment == HISTORY_FOLDER_NAME@
}

/// Tells whether the segment names the trash folder.
pub fn is_trash_name(segment: &str) -> (r: bool)
    ensures
        r == names_trash(segment@),
{
    text_eq(segment, "trash") || text_eq(segment, TRASH_FOLDER_NAME)
}

/// Tells whether the segment names the folder of dead links.
pub fn is_isolate_name(segment: &str) -> (r: bool)
    ensures
        r == names_isolate(segment@),
{
    text_eq(segment, "isolate") || text_eq(segment, ISOLATE_FOLDER_NAME)
}

/// Tells whether the segment names the bookmark bar.
pub fn is_bar_name(segment: &str) -> (r: bool)
    ensures
        r == names_bar(segment@),
{
    text_eq(segment, "bookmark_bar") || text_eq(segment, BOOKMARK_BAR_JP)
}

/// Tells whether the segment names the other bookmarks.
pub fn is_other_name(segment: &str) -> (r: bool)
    ensures
        r == names_other(segment@),
{
    text_eq(segment, "other") || text_eq(segment, OTHER_BOOKMARKS_JP)
}

/// Tells whether the segment names the bookmark menu.
pub fn is_menu_name(segment: &str) -> (r: bool)
    ensures
        r == names_menu(segment@),
{
    text_eq(segment, "menu") || text_eq(segment, BOOKMARK_MENU_JP)
}

/// Tells whether the segment names the history.
pub fn is_history_name(segment: &str) -> (r: bool)
    ensures
        r == names_history(segment@),
{
    text_eq(segment, "history") || text_eq(segment, HISTORY_FOLDER_NAME)
}

/// The route to a root folder.
pub open spec fn root_route(key: Seq<char>) -> Seq<Hop> {
    seq![Hop::Key("roots"@), Hop::Key(key)]
}

/// The root folder under a key.
pub open spec fn root_folder(doc: Json, key: Seq<char>) -> Option<Json> {
    fetch(doc, root_route(key))
}

/// The route to the list of the other bookmarks.
pub open spec fn other_list_route() -> Seq<Hop> {
    seq![Hop::Key("roots"@), Hop::Key("other"@), children_hop()]
}

/// The other bookmarks, where the document has a list of them.
pub open spec fn other_children(doc: Json) -> Option<Seq<Json>> {
    match root_folder(doc, "other"@) {
        Some(other) => node::children_of(other),
        None => None,
    }
}

/// The predicate of being a folder of a name.
pub open spec fn folder_named(name: Seq<char>) -> spec_fn(Json) -> bool {
    |c: Json| c.text_member("type"@) == Some("folder"@) && c.text_member("name"@) == Some(name)
}

/// The predicate of having a text for the type or for the name.
pub open spec fn labelled(name: Seq<char>) -> spec_fn(Json) -> bool {
    |c: Json| c.text_member("type"@) == Some(name) || c.text_member("name"@) == Some(name)
}

/// The route to the first of the other bookmarks that is a folder of a name.
pub open spec fn special_route(doc: Json, name: Seq<char>) -> Option<Seq<Hop>> {
    match other_children(doc) {
        Some(c) => match text::first_index(c, folder_named(name)) {
            Some(i) => Some(other_list_route().push(Hop::Item(i))),
            None => None,
        },
        None => None,
    }
}

/// The route to a root folder whose contents can be changed.
pub open spec fn editable_root(doc: Json, segment: Seq<char>) -> Option<Seq<Hop>> {
    if names_trash(segment) {
        special_route(doc, TRASH_FOLDER_NAME@)
    } else if names_isolate(segment) {
        special_route(doc, ISOLATE_FOLDER_NAME@)
    } else {
        let key = if names_bar(segment) {
            Some("bookmark_bar"@)
        } else if names_other(segment) {
            Some("other"@)
        } else if names_menu(segment) {
            Some("menu"@)
        } else {
            None
        };
        match key {
            Some(k) => if root_folder(doc, k) is Some {
                Some(root_route(k))
            } else {
                None
            },
            None => None,
        }
    }
}

/// The root folder that a segment names, for reading.
pub open spec fn readable_root(doc: Json, segment: Seq<char>) -> Option<Json> {
    if names_bar(segment) {
        root_folder(doc, "bookmark_bar"@)
    } else if names_other(segment) {
        root_folder(doc, "other"@)
    } else if names_menu(segment) {
        root_folder(doc, "menu"@)
    } else if names_trash(segment) {
        special_node(doc, TRASH_FOLDER_NAME@)
    } else if names_isolate(segment) {
        special_node(doc, ISOLATE_FOLDER_NAME@)
    } else if names_history(segment) {
        root_folder(doc, "history"@)
    } else {
        None
    }
}

/// The first of the other bookmarks that has a text for the type or for the name.
pub open spec fn special_node(doc: Json, name: Seq<char>) -> Option<Json> {
    match other_children(doc) {
        Some(c) => match text::first_index(c, labelled(name)) {
            Some(i) => Some(c[i]),
            None => None,
        },
        None => None,
    }
}

// ---------------------------------------------------------------------------
// Folders made on demand
// ---------------------------------------------------------------------------

/// A new, empty folder.
pub open spec fn new_folder(mint: MintState, id: Seq<char>, name: Seq<char>) -> Json {
    value::empty_object().with("date_added"@, Json::Str(mint.now)).with(
        "date_last_used"@,
        Json::Str("0"@),
    ).with("date_modified"@, Json::Str(mint.now)).with("guid"@, Json::Str(mint.next_guid())).with(
        "id"@,
        Json::Str(id),
    ).with("name"@, Json::Str(name)).with("type"@, Json::Str("folder"@)).with(
        "children"@,
        Json::Array(Seq::empty()),
    )
}

/// The document with a folder of a name among the other bookmarks: as it is where there is one,
/// or where the document has no list of other bookmarks; else with a new folder at the end, under
/// the identifier `id`.
pub open spec fn with_folder_as(doc: Json, name: Seq<char>, id: Seq<char>, mint: MintState) -> (
    Json,
    MintState,
) {
    match other_children(doc) {
        Some(c) => if text::first_index(c, folder_named(name)) is Some {
            (doc, mint)
        } else {
            (
                put(
                    doc,
                    other_list_route(),
                    Json::Array(c.push(new_folder(mint, id, name))),
                ),
                mint.drawn(),
            )
        },
        None => (doc, mint),
    }
}

/// The document with a folder of a name among the other bookmarks; a new one gets an identifier
/// that no node of the document has.
pub open spec fn with_folder(doc: Json, name: Seq<char>, mint: MintState) -> (Json, MintState) {
    with_folder_as(doc, name, fresh_id(doc), mint)
}

/// The document after a root folder has been asked for by name: the trash folder and the folder
/// of dead links are made where they are missing.
pub open spec fn prepared(doc: Json, segment: Seq<char>, mint: MintState) -> (Json, MintState) {
    if names_trash(segment) {
        with_folder(doc, TRASH_FOLDER_NAME@, mint)
    } else if names_isolate(segment) {
        with_folder(doc, ISOLATE_FOLDER_NAME@, mint)
    } else {
        (doc, mint)
    }
}

/// Setting a member to what it is changes nothing.
pub proof fn lemma_with_same(j: Json, key: Seq<char>)
    ensures
        j.member(key) matches Some(x) ==> j.with(key, x) == j,
{
    if let Json::Object(m) = j {
        if m.dom().contains(key) {
            assert(m.insert(key, m[key]) =~= m);
        }
    }
}

/// A root folder, to be changed in place.
pub fn root_folder_mut<'a>(val: &'a mut Doc, key: &str) -> (r: Option<&'a mut Doc>)
    ensures
        match r {
            Some(v) => {
                &&& root_folder(old(val)@, key@) == Some(v@)
                &&& final(val)@ == put(old(val)@, root_route(key@), final(v)@)
            },
            None => root_folder(old(val)@, key@) is None && final(val)@ == old(val)@,
        },
{
    proof {
        reveal_with_fuel(fetch, 4);
        reveal_with_fuel(put, 4);
        lemma_with_same(val@, "roots"@);
        let route = root_route(key@);
        assert(route.drop_first() =~= seq![Hop::Key(key@)]);
        assert(route.drop_first().drop_first() =~= Seq::empty());
    }
    match val.get_mut("roots") {
        Some(roots) => roots.get_mut(key),
        None => None,
    }
}

/// A root folder.
pub fn root_folder_ref<'a>(val: &'a Doc, key: &str) -> (r: Option<&'a Doc>)
    ensures
        match r {
            Some(v) => root_folder(val@, key@) == Some(v@),
            None => root_folder(val@, key@) is None,
        },
{
    proof {
        reveal_with_fuel(fetch, 4);
        let route = root_route(key@);
        assert(route.drop_first() =~= seq![Hop::Key(key@)]);
        assert(route.drop_first().drop_first() =~= Seq::empty());
    }
    match val.get("roots") {
        Some(roots) => roots.get(key),
        None => None,
    }
}

/// The list of the other bookmarks stands under the root folder `other`.
pub proof fn lemma_other_list(doc: Json, x: Json)
    requires
        root_folder(doc, "other"@) is Some,
    ensures
        fetch(doc, other_list_route()) == root_folder(doc, "other"@)->0.member("children"@),
        root_folder(doc, "other"@)->0.member("children"@) is Some ==> put(
            doc,
            other_list_route(),
            x,
        ) == put(
            doc,
            root_route("other"@),
            root_folder(doc, "other"@)->0.with("children"@, x),
        ),
{
    let a = root_route("other"@);
    let b = seq![children_hop()];
    assert(other_list_route() =~= a + b);
    lemma_route_joined(doc, a, b, x);
    assert(b.drop_first() =~= Seq::empty());
    reveal_with_fuel(fetch, 2);
    reveal_with_fuel(put, 2);
}

/// The list of the other bookmarks, to be changed in place.
fn other_children_mut<'a>(val: &'a mut Doc) -> (r: Option<&'a mut Vec<Doc>>)
    ensures
        match r {
            Some(v) => {
                &&& other_children(old(val)@) == Some(value::items_of(v@))
                &&& final(val)@ == put(
                    old(val)@,
                    other_list_route(),
                    Json::Array(value::items_of(final(v)@)),
                )
            },
            None => other_children(old(val)@) is None && final(val)@ == old(val)@,
        },
{
    let ghost doc = val@;
    match root_folder_mut(val, "other") {
        Some(other) => {
            proof {
                lemma_put_same(doc, root_route("other"@));
            }
            match other.get_array_mut("children") {
                Some(v) => {
                    proof {
                        lemma_other_list(doc, Json::Array(value::items_of(final(v)@)));
                    }
                    Some(v)
                },
                None => None,
            }
        },
        None => None,
    }
}

/// The position of the first folder of a name.
fn folder_position(children: &Vec<Doc>, name: &str) -> (r: Option<usize>)
    ensures
        match r {
            Some(i) => text::first_index(value::items_of(children@), folder_named(name@)) == Some(
                i as int,
            ),
            None => text::first_index(value::items_of(children@), folder_named(name@)) is None,
        },
{
    let ghost s = value::items_of(children@);
    let mut i: usize = 0;
    while i < children.len()
        invariant
            i <= children@.len(),
            s == value::items_of(children@),
            forall|j: int| 0 <= j < i ==> !folder_named(name@)(#[trigger] s[j]),
        decreases children.len() - i,
    {
        let child: &Doc = &children[i];
        assert(s[i as int] == child@);
        let folder: bool = match child.get_str("type") {
            Some(t) => text_eq(t, "folder"),
            None => false,
        };
        let named: bool = match child.get_str("name") {
            Some(n) => text_eq(n, name),
            None => false,
        };
        if folder && named {
            proof {
                text::lemma_first_index_found(s, folder_named(name@), i as int);
            }
            return Some(i);
        }
        i += 1;
    }
    proof {
        text::lemma_first_index_missing(s, folder_named(name@));
    }
    None
}

/// Makes a new, empty folder.
pub fn make_folder(mint: &mut Mint, id: &str, name: &str) -> (r: Doc)
    ensures
        r@ == new_folder(old(mint)@, id@, name@),
        final(mint)@ == old(mint)@.drawn(),
{
    let mut v: Doc = Doc::new_object();
    v.set("date_added", Doc::new_str(mint.now.as_str()));
    v.set("date_last_used", Doc::new_str("0"));
    v.set("date_modified", Doc::new_str(mint.now.as_str()));
    let guid: String = mint.generate_guid();
    v.set("guid", Doc::Str(guid));
    v.set("id", Doc::new_str(id));
    v.set("name", Doc::new_str(name));
    v.set("type", Doc::new_str("folder"));
    v.set("children", Doc::Array(Vec::new()));
    assert(value::items_of(Seq::<Doc>::empty()) =~= Seq::<Json>::empty());
    v
}

/// Sees to it that the other bookmarks hold a folder of a name; a new one gets the identifier
/// `id`.
pub fn ensure_folder_as(val: &mut Doc, name: &str, id: &str, mint: &mut Mint)
    ensures
        (final(val)@, final(mint)@) == with_folder_as(old(val)@, name@, id@, old(mint)@),
{
    let present: bool = match root_folder_ref(val, "other") {
        Some(other) => match other.get_array("children") {
            Some(children) => folder_position(children, name).is_some(),
            None => true,
        },
        None => true,
    };
    if !present {
        if let Some(children) = other_children_mut(val) {
            let ghost c = value::items_of(children@);
            let folder: Doc = make_folder(mint, id, name);
            let ghost f = folder@;
            children.push(folder);
            assert(value::items_of(children@) =~= c.push(f));
        }
    }
}

/// Sees to it that the other bookmarks hold a folder of a name.
fn ensure_folder(val: &mut Doc, name: &str, mint: &mut Mint)
    ensures
        (final(val)@, final(mint)@) == with_folder(old(val)@, name@, old(mint)@),
{
    let id: String = next_id(val);
    ensure_folder_as(val, name, id.as_str(), mint)
}

/// Makes the trash folder where it is missing.
pub fn ensure_trash_folder(val: &mut Doc, mint: &mut Mint)
    ensures
        (final(val)@, final(mint)@) == with_folder(old(val)@, TRASH_FOLDER_NAME@, old(mint)@),
{
    ensure_folder(val, TRASH_FOLDER_NAME, mint)
}

/// Makes the folder of dead links where it is missing.
pub fn ensure_isolate_folder(val: &mut Doc, mint: &mut Mint)
    ensures
        (final(val)@, final(mint)@) == with_folder(old(val)@, ISOLATE_FOLDER_NAME@, old(mint)@),
{
    ensure_folder(val, ISOLATE_FOLDER_NAME, mint)
}

// ---------------------------------------------------------------------------
// Access to root folders
// ---------------------------------------------------------------------------

/// An item of a list, to be changed in place.
pub fn item_mut<'a>(items: &'a mut Vec<Doc>, i: usize) -> (r: &'a mut Doc)
    requires
        i < old(items)@.len(),
    ensures
        r@ == value::items_of(old(items)@)[i as int],
        value::items_of(final(items)@) == value::items_of(old(items)@).update(
            i as int,
            final(r)@,
        ),
{
    let ghost s = items@;
    let r: &mut Doc = &mut items[i];
    proof {
        assert(value::items_of(s.update(i as int, *final(r))) =~= value::items_of(s).update(
            i as int,
            final(r)@,
        ));
    }
    r
}

/// The list of the other bookmarks can be followed to one of its items.
pub proof fn lemma_special_item(doc: Json, c: Seq<Json>, i: int, x: Json)
    requires
        other_children(doc) == Some(c),
        0 <= i < c.len(),
    ensures
        fetch(doc, other_list_route().push(Hop::Item(i))) == Some(c[i]),
        put(doc, other_list_route().push(Hop::Item(i)), x) == put(
            doc,
            other_list_route(),
            Json::Array(c.update(i, x)),
        ),
{
    lemma_other_list(doc, x);
    let b = seq![Hop::Item(i)];
    assert(other_list_route().push(Hop::Item(i)) =~= other_list_route() + b);
    lemma_route_joined(doc, other_list_route(), b, x);
    assert(b.drop_first() =~= Seq::empty());
    reveal_with_fuel(fetch, 2);
    reveal_with_fuel(put, 2);
}

/// The first of the other bookmarks that is a folder of a name, to be changed in place.
pub fn special_mut<'a>(val: &'a mut Doc, name: &str) -> (r: Option<&'a mut Doc>)
    ensures
        match r {
            Some(v) => {
                &&& special_route(old(val)@, name@) is Some
                &&& fetch(old(val)@, special_route(old(val)@, name@)->0) == Some(v@)
                &&& final(val)@ == put(
                    old(val)@,
                    special_route(old(val)@, name@)->0,
                    final(v)@,
                )
            },
            None => special_route(old(val)@, name@) is None && final(val)@ == old(val)@,
        },
{
    let ghost doc = val@;
    let at: Option<usize> = match root_folder_ref(val, "other") {
        Some(other) => match other.get_array("children") {
            Some(children) => folder_position(children, name),
            None => None,
        },
        None => None,
    };
    match at {
        None => None,
        Some(i) => {
            proof {
                text::lemma_first_index(other_children(doc)->0, folder_named(name@));
            }
            match other_children_mut(val) {
                Some(children) => {
                    let v: &mut Doc = item_mut(children, i);
                    proof {
                        lemma_special_item(doc, other_children(doc)->0, i as int, final(v)@);
                    }
                    Some(v)
                },
                None => None,
            }
        },
    }
}

/// The root folder that a segment names, to be changed in place. The trash folder and the folder
/// of dead links are made where they are missing.
pub fn get_root_node_mut<'a>(val: &'a mut Doc, segment: &str, mint: &mut Mint) -> (r: Option<
    &'a mut Doc,
>)
    ensures
        ({
            let (doc, m) = prepared(old(val)@, segment@, old(mint)@);
            &&& final(mint)@ == m
            &&& match r {
                Some(v) => {
                    &&& editable_root(doc, segment@) is Some
                    &&& fetch(doc, editable_root(doc, segment@)->0) == Some(v@)
                    &&& final(val)@ == put(doc, editable_root(doc, segment@)->0, final(v)@)
                },
                None => editable_root(doc, segment@) is None && final(val)@ == doc,
            }
        }),
{
    if is_trash_name(segment) {
        ensure_trash_folder(val, mint);
        return special_mut(val, TRASH_FOLDER_NAME);
    }
    if is_isolate_name(segment) {
        ensure_isolate_folder(val, mint);
        return special_mut(val, ISOLATE_FOLDER_NAME);
    }
    if is_bar_name(segment) {
        return root_folder_mut(val, "bookmark_bar");
    }
    if is_other_name(segment) {
        return root_folder_mut(val, "other");
    }
    if is_menu_name(segment) {
        return root_folder_mut(val, "menu");
    }
    None
}

/// The position of the first of the other bookmarks that has a text for the type or for the name.
pub fn labelled_index(val: &Doc, name: &str) -> (r: Option<usize>)
    ensures
        (match other_children(val@) {
            Some(c) => text::first_index(c, labelled(name@)),
            None => None,
        }) == (match r {
            Some(i) => Some(i as int),
            None => None,
        }),
{
    match root_folder_ref(val, "other") {
        None => None,
        Some(other) => match other.get_array("children") {
            None => None,
            Some(children) => {
                let ghost s = value::items_of(children@);
                let mut i: usize = 0;
                while i < children.len()
                    invariant
                        i <= children@.len(),
                        s == value::items_of(children@),
                        other_children(val@) == Some(s),
                        forall|j: int| 0 <= j < i ==> !labelled(name@)(#[trigger] s[j]),
                    decreases children.len() - i,
                {
                    let child: &Doc = &children[i];
                    assert(s[i as int] == child@);
                    let typed: bool = match child.get_str("type") {
                        Some(t) => text_eq(t, name),
                        None => false,
                    };
                    let named: bool = match child.get_str("name") {
                        Some(n) => text_eq(n, name),
                        None => false,
                    };
                    if typed || named {
                        proof {
                            text::lemma_first_index_found(s, labelled(name@), i as int);
                        }
                        return Some(i);
                    }
                    i += 1;
                }
                proof {
                    text::lemma_first_index_missing(s, labelled(name@));
                }
                None
            },
        },
    }
}

/// The first of the other bookmarks that has a text for the type or for the name.
fn special_ref<'a>(val: &'a Doc, name: &str) -> (r: Option<&'a Doc>)
    ensures
        match r {
            Some(v) => special_node(val@, name@) == Some(v@),
            None => special_node(val@, name@) is None,
        },
{
    let i: usize = match labelled_index(val, name) {
        Some(i) => i,
        None => return None,
    };
    proof {
        text::lemma_first_index(other_children(val@)->0, labelled(name@));
    }
    match root_folder_ref(val, "other") {
        None => None,
        Some(other) => match other.get_array("children") {
            None => None,
            Some(children) => Some(&children[i]),
        },
    }
}

/// The root folder that a segment names.
pub fn get_root_node_ref<'a>(val: &'a Doc, segment: &str) -> (r: Option<&'a Doc>)
    ensures
        match r {
            Some(v) => readable_root(val@, segment@) == Some(v@),
            None => readable_root(val@, segment@) is None,
        },
{
    if is_bar_name(segment) {
        root_folder_ref(val, "bookmark_bar")
    } else if is_other_name(segment) {
        root_folder_ref(val, "other")
    } else if is_menu_name(segment) {
        root_folder_ref(val, "menu")
    } else if is_trash_name(segment) {
        special_ref(val, TRASH_FOLDER_NAME)
    } else if is_isolate_name(segment) {
        special_ref(val, ISOLATE_FOLDER_NAME)
    } else if is_history_name(segment) {
        root_folder_ref(val, "history")
    } else {
        None
    }
}

// ---------------------------------------------------------------------------
// Walking down
// ---------------------------------------------------------------------------

/// The predicate of being listed under a name.
pub open spec fn shown_as(name: Seq<char>) -> spec_fn(Json) -> bool {
    |c: Json| node::display_name(c) == name
}

/// The position of the first child that is listed under a name.
pub open spec fn child_index(children: Seq<Json>, name: Seq<char>) -> Option<int> {
    text::first_index(children, shown_as(name))
}

/// The node that a path leads to from a node.
pub open spec fn descendant(j: Json, segments: Seq<Seq<char>>) -> Option<Json>
    decreases segments.len(),
{
    if segments.len() == 0 {
        Some(j)
    } else {
        match node::children_of(j) {
            Some(c) => match child_index(c, segments[0]) {
                Some(i) => descendant(c[i], segments.drop_first()),
                None => None,
            },
            None => None,
        }
    }
}

/// The node that a path leads to from the root folders.
pub open spec fn navigated(doc: Json, segments: Seq<Seq<char>>) -> Option<Json> {
    if segments.len() == 0 {
        None
    } else {
        match readable_root(doc, segments[0]) {
            Some(root) => descendant(root, segments.drop_first()),
            None => None,
        }
    }
}

/// The route that a path leads along from a node, or why it leads nowhere: a segment below a
/// node without children, or one that no child is listed under.
pub open spec fn walk(
    j: Json,
    segments: Seq<Seq<char>>,
    not_folder: Reason,
    missing: Reason,
) -> Result<Seq<Hop>, Fault>
    decreases segments.len(),
{
    if segments.len() == 0 {
        Ok(Seq::empty())
    } else {
        match node::children_of(j) {
            Some(c) => match child_index(c, segments[0]) {
                Some(i) => match walk(c[i], segments.drop_first(), not_folder, missing) {
                    Ok(rest) => Ok(seq![children_hop(), Hop::Item(i)] + rest),
                    Err(e) => Err(e),
                },
                None => Err(Fault { reason: missing, detail: segments[0] }),
            },
            None => Err(Fault { reason: not_folder, detail: segments[0] }),
        }
    }
}

/// The position of the first child that is listed under a name.
pub fn child_position(children: &Vec<Doc>, name: &str) -> (r: Option<usize>)
    ensures
        match r {
            Some(i) => {
                &&& i < children@.len()
                &&& child_index(value::items_of(children@), name@) == Some(i as int)
            },
            None => child_index(value::items_of(children@), name@) is None,
        },
{
    let ghost s = value::items_of(children@);
    let mut i: usize = 0;
    while i < children.len()
        invariant
            i <= children@.len(),
            s == value::items_of(children@),
            forall|j: int| 0 <= j < i ==> !shown_as(name@)(#[trigger] s[j]),
        decreases children.len() - i,
    {
        assert(s[i as int] == children@[i as int]@);
        let shown: String = get_node_display_name(&children[i]);
        if text_eq(shown.as_str(), name) {
            proof {
                text::lemma_first_index_found(s, shown_as(name@), i as int);
            }
            return Some(i);
        }
        i += 1;
    }
    proof {
        text::lemma_first_index_missing(s, shown_as(name@));
    }
    None
}

/// The node that a path leads to.
pub fn navigate_node_ref<'a>(val: &'a Doc, segments: &[String]) -> (r: Option<&'a Doc>)
    ensures
        match r {
            Some(v) => navigated(val@, text::texts(segments@)) == Some(v@),
            None => navigated(val@, text::texts(segments@)) is None,
        },
{
    let ghost segs = text::texts(segments@);
    if segments.len() == 0 {
        return None;
    }
    let mut current: &Doc = match get_root_node_ref(val, segments[0].as_str()) {
        Some(root) => root,
        None => return None,
    };
    let mut i: usize = 1;
    assert(segs.skip(1) =~= segs.drop_first());
    while i < segments.len()
        invariant
            1 <= i <= segments@.len(),
            segs == text::texts(segments@),
            navigated(val@, segs) == descendant(current@, segs.skip(i as int)),
        decreases segments.len() - i,
    {
        assert(segs.skip(i as int).drop_first() =~= segs.skip(i + 1));
        assert(segs.skip(i as int)[0] == segments@[i as int]@);
        let children: &Vec<Doc> = match current.get_array("children") {
            Some(c) => c,
            None => return None,
        };
        match child_position(children, segments[i].as_str()) {
            Some(k) => {
                current = &children[k];
            },
            None => return None,
        }
        i += 1;
    }
    assert(segs.skip(i as int) =~= Seq::empty());
    Some(current)
}

/// A step to a child, on the route to something below it.
pub proof fn lemma_child_step(j: Json, c: Seq<Json>, i: int, rest: Seq<Hop>, x: Json)
    requires
        node::children_of(j) == Some(c),
        0 <= i < c.len(),
    ensures
        fetch(j, seq![children_hop(), Hop::Item(i)] + rest) == fetch(c[i], rest),
        put(j, seq![children_hop(), Hop::Item(i)] + rest, x) == with_children(
            j,
            c.update(i, put(c[i], rest, x)),
        ),
{
    let a = seq![children_hop(), Hop::Item(i)];
    assert(a.drop_first() =~= seq![Hop::Item(i)]);
    assert(a.drop_first().drop_first() =~= Seq::empty());
    reveal_with_fuel(fetch, 3);
    reveal_with_fuel(put, 3);
    assert(fetch(j, a) == Some(c[i]));
    lemma_route_joined(j, a, rest, x);
}

/// The node that a path leads to from a node, to be changed in place.
pub fn descend<'a>(
    j: &'a mut Doc,
    segments: &[String],
    from: usize,
    not_folder: Reason,
    missing: Reason,
) -> (r: Result<&'a mut Doc, CommandError>)
    requires
        from <= segments@.len(),
    ensures
        ({
            let w = walk(
                old(j)@,
                text::texts(segments@).skip(from as int),
                not_folder,
                missing,
            );
            match r {
                Ok(v) => {
                    &&& w is Ok
                    &&& fetch(old(j)@, w->Ok_0) == Some(v@)
                    &&& final(j)@ == put(old(j)@, w->Ok_0, final(v)@)
                },
                Err(e) => w == Err::<Seq<Hop>, Fault>(e@) && final(j)@ == old(j)@,
            }
        }),
    decreases segments@.len() - from,
{
    let ghost doc = j@;
    let ghost segs = text::texts(segments@).skip(from as int);
    if from == segments.len() {
        assert(segs =~= Seq::empty());
        return Ok(j);
    }
    assert(segs[0] == segments@[from as int]@);
    assert(segs.drop_first() =~= text::texts(segments@).skip(from + 1));
    proof {
        lemma_with_same(doc, "children"@);
    }
    match j.get_array_mut("children") {
        None => Err(CommandError::new(not_folder, segments[from].as_str())),
        Some(children) => match child_position(children, segments[from].as_str()) {
            None => Err(CommandError::new(missing, segments[from].as_str())),
            Some(i) => {
                let ghost c = value::items_of(children@);
                let child: &mut Doc = item_mut(children, i);
                proof {
                    assert(c.update(i as int, c[i as int]) =~= c);
                }
                match descend(child, segments, from + 1, not_folder, missing) {
                    Ok(v) => {
                        proof {
                            let rest = walk(c[i as int], segs.drop_first(), not_folder, missing)->Ok_0;
                            lemma_child_step(doc, c, i as int, rest, final(v)@);
                        }
                        Ok(v)
                    },
                    Err(e) => Err(e),
                }
            },
        },
    }
}

/// The route to the parent of the node that a path leads to, and its place among the children.
pub open spec fn parent_place(doc: Json, segments: Seq<Seq<char>>) -> Result<
    (Seq<Hop>, int),
    Fault,
> {
    if segments.len() == 0 {
        Err(Fault { reason: Reason::EmptyTarget, detail: ""@ })
    } else if segments.len() == 1 {
        Err(Fault { reason: Reason::RootTarget, detail: segments[0] })
    } else {
        match editable_root(doc, segments[0]) {
            None => Err(Fault { reason: Reason::RootNotFound, detail: segments[0] }),
            Some(root) => match walk(
                fetch(doc, root)->0,
                segments.subrange(1, segments.len() - 1),
                Reason::SegmentNotFolder,
                Reason::ChildNotFound,
            ) {
                Err(e) => Err(e),
                Ok(rest) => {
                    let route = root + rest;
                    match node::children_of(fetch(doc, route)->0) {
                        None => Err(Fault { reason: Reason::NoChildren, detail: ""@ }),
                        Some(c) => match child_index(c, segments.last()) {
                            None => Err(
                                Fault { reason: Reason::TargetNotFound, detail: segments.last() },
                            ),
                            Some(i) => Ok((route, i)),
                        },
                    }
                },
            },
        }
    }
}

/// The document after the first segment of a path to a node has been looked up.
pub open spec fn looked_up(doc: Json, segments: Seq<Seq<char>>, mint: MintState) -> (
    Json,
    MintState,
) {
    if segments.len() < 2 {
        (doc, mint)
    } else {
        prepared(doc, segments[0], mint)
    }
}

/// The parent of the node that a path leads to, to be changed in place, and the position of the
/// node among its children.
pub fn find_parent_and_index_mut<'a>(
    val: &'a mut Doc,
    segments: &[String],
    mint: &mut Mint,
) -> (r: Result<(&'a mut Doc, usize), CommandError>)
    ensures
        ({
            let segs = text::texts(segments@);
            let (doc, m) = looked_up(old(val)@, segs, old(mint)@);
            let place = parent_place(doc, segs);
            &&& final(mint)@ == m
            &&& match r {
                Ok(found) => {
                    &&& place is Ok
                    &&& place->Ok_0.1 == found.1
                    &&& fetch(doc, place->Ok_0.0) == Some(found.0@)
                    &&& final(val)@ == put(doc, place->Ok_0.0, final(found.0)@)
                    &&& node::children_of(found.0@) is Some
                    &&& found.1 < node::children_of(found.0@)->0.len()
                },
                Err(e) => {
                    &&& place == Err::<(Seq<Hop>, int), Fault>(e@)
                    &&& final(val)@ == doc
                },
            }
        }),
{
    let ghost segs = text::texts(segments@);
    let n: usize = segments.len();
    if n == 0 {
        return Err(CommandError::new(Reason::EmptyTarget, ""));
    }
    if n == 1 {
        return Err(CommandError::new(Reason::RootTarget, segments[0].as_str()));
    }
    let ghost doc = prepared(val@, segs[0], mint@).0;
    let parents: &[String] = slice_subrange(segments, 0, n - 1);
    assert(text::texts(parents@).skip(1) =~= segs.subrange(1, n - 1));
    let root: &mut Doc = match get_root_node_mut(val, segments[0].as_str(), mint) {
        Some(root) => root,
        None => return Err(CommandError::new(Reason::RootNotFound, segments[0].as_str())),
    };
    let ghost root_route = editable_root(doc, segs[0])->0;
    proof {
        lemma_put_same(doc, root_route);
    }
    let parent: &mut Doc = match descend(
        root,
        parents,
        1,
        Reason::SegmentNotFolder,
        Reason::ChildNotFound,
    ) {
        Ok(parent) => parent,
        Err(e) => return Err(e),
    };
    let ghost rest = walk(
        fetch(doc, root_route)->0,
        segs.subrange(1, n - 1),
        Reason::SegmentNotFolder,
        Reason::ChildNotFound,
    )->Ok_0;
    proof {
        lemma_route_joined(doc, root_route, rest, final(parent)@);
        lemma_put_same(doc, root_route + rest);
    }
    let at: Option<Option<usize>> = match parent.get_array("children") {
        Some(children) => Some(child_position(children, segments[n - 1].as_str())),
        None => None,
    };
    match at {
        None => Err(CommandError::new(Reason::NoChildren, "")),
        Some(None) => Err(CommandError::new(Reason::TargetNotFound, segments[n - 1].as_str())),
        Some(Some(i)) => Ok((parent, i)),
    }
}

// ---------------------------------------------------------------------------
// What lies in the trash
// ---------------------------------------------------------------------------

/// The end of a route is the trash folder or lies below it.
pub open spec fn lies_in_trash(doc: Json, route: Seq<Hop>) -> bool {
    match special_route(doc, TRASH_FOLDER_NAME@) {
        Some(trash) => trash.len() <= route.len() && route.take(trash.len() as int) == trash,
        None => false,
    }
}

/// A path leads into the trash: by its name, or through the other bookmarks.
pub open spec fn leads_into_trash(doc: Json, segments: Seq<Seq<char>>) -> bool {
    ||| names_trash(segments[0])
    ||| {
        &&& !names_isolate(segments[0])
        &&& !names_bar(segments[0])
        &&& names_other(segments[0])
        &&& segments.len() > 2
        &&& other_children(doc) matches Some(c)
        &&& child_index(c, segments[1]) is Some
        &&& child_index(c, segments[1]) == text::first_index(c, folder_named(TRASH_FOLDER_NAME@))
    }
}

/// The parent of the node that a path leads to lies in the trash if and only if the path leads
/// into it.
pub proof fn lemma_leads_into_trash(doc: Json, segments: Seq<Seq<char>>, mint: MintState)
    requires
        parent_place(looked_up(doc, segments, mint).0, segments) is Ok,
    ensures
        ({
            let d = looked_up(doc, segments, mint).0;
            leads_into_trash(doc, segments) <==> lies_in_trash(
                d,
                parent_place(d, segments)->Ok_0.0,
            )
        }),
{
    let d = looked_up(doc, segments, mint).0;
    let route = parent_place(d, segments)->Ok_0.0;
    let root = editable_root(d, segments[0])->0;
    let on_way = segments.subrange(1, segments.len() - 1);
    let rest = walk(
        fetch(d, root)->0,
        on_way,
        Reason::SegmentNotFolder,
        Reason::ChildNotFound,
    )->Ok_0;
    let trash = special_route(d, TRASH_FOLDER_NAME@);
    assert(route == root + rest);
    if names_trash(segments[0]) {
        assert(route.take(root.len() as int) =~= root);
    } else if names_isolate(segments[0]) {
        if trash is Some && lies_in_trash(d, route) {
            let c = other_children(d)->0;
            let s = text::first_index(c, folder_named(ISOLATE_FOLDER_NAME@))->0;
            let t = text::first_index(c, folder_named(TRASH_FOLDER_NAME@))->0;
            text::lemma_first_index(c, folder_named(ISOLATE_FOLDER_NAME@));
            text::lemma_first_index(c, folder_named(TRASH_FOLDER_NAME@));
            reveal_strlit("ゴミ箱");
            reveal_strlit("リンク切れ");
            assert(TRASH_FOLDER_NAME@.len() == 3 && ISOLATE_FOLDER_NAME@.len() == 5);
            assert(route[3] == root[3]);
            assert(route.take(4)[3] == trash->0[3]);
            assert(root[3] == Hop::Item(s) && trash->0[3] == Hop::Item(t));
        }
    } else {
        reveal_strlit("other");
        reveal_strlit("bookmark_bar");
        reveal_strlit("menu");
        assert("other"@.len() == 5 && "bookmark_bar"@.len() == 12 && "menu"@.len() == 4);
        assert(d == doc);
        if names_bar(segments[0]) || !names_other(segments[0]) {
            if lies_in_trash(d, route) {
                assert(route[1] == root[1]);
                assert(route.take(4)[1] == trash->0[1]);
            }
        } else {
            let c = other_children(d)->0;
            if segments.len() == 2 {
                assert(on_way =~= Seq::empty());
                assert(route.len() == 2);
            } else {
                assert(on_way[0] == segments[1]);
                let i = child_index(c, segments[1])->0;
                assert(rest[0] == children_hop() && rest[1] == Hop::Item(i));
                assert(route[2] == children_hop() && route[3] == Hop::Item(i));
                if trash is Some {
                    let t = text::first_index(c, folder_named(TRASH_FOLDER_NAME@))->0;
                    assert(trash->0[3] == Hop::Item(t));
                    if i == t {
                        assert(route.take(4) =~= trash->0);
                    } else if lies_in_trash(d, route) {
                        assert(route.take(4)[3] == trash->0[3]);
                    }
                }
            }
        }
    }
}

/// Tells whether a path leads into the trash.
pub fn path_in_trash(val: &Doc, segments: &[String]) -> (r: bool)
    requires
        segments@.len() > 0,
    ensures
        r == leads_into_trash(val@, text::texts(segments@)),
{
    let ghost segs = text::texts(segments@);
    let first: &str = segments[0].as_str();
    if is_trash_name(first) {
        return true;
    }
    if is_isolate_name(first) || is_bar_name(first) || !is_other_name(first) || segments.len() <= 2 {
        return false;
    }
    assert(segs[1] == segments@[1]@);
    match root_folder_ref(val, "other") {
        None => false,
        Some(other) => match other.get_array("children") {
            None => false,
            Some(children) => match (
                child_position(children, segments[1].as_str()),
                folder_position(children, TRASH_FOLDER_NAME),
            ) {
                (Some(i), Some(t)) => i == t,
                _ => false,
            },
        },
    }
}

// ---------------------------------------------------------------------------
// Laws of routes
// ---------------------------------------------------------------------------

/// A change is local: what a route leads to stays as it is when something is put at the end of
/// a route that parts from it.
pub proof fn law_put_elsewhere(j: Json, a: Seq<Hop>, b: Seq<Hop>, x: Json, k: int)
    requires
        0 <= k < a.len(),
        k < b.len(),
        a.take(k) == b.take(k),
        a[k] != b[k],
    ensures
        fetch(put(j, a, x), b) == fetch(j, b),
    decreases k,
{
    if under(j, a[0]) is Some {
        let next = under(j, a[0])->0;
        if k == 0 {
            assert(under(put(j, a, x), b[0]) == under(j, b[0]));
        } else {
            assert(a[0] == a.take(k)[0] && b[0] == b.take(k)[0]);
            assert(a.drop_first().take(k - 1) =~= a.take(k).drop_first());
            assert(b.drop_first().take(k - 1) =~= b.take(k).drop_first());
            law_put_elsewhere(next, a.drop_first(), b.drop_first(), x, k - 1);
        }
    }
}

/// A root folder is the member of the member `roots`.
pub proof fn lemma_root(doc: Json, key: Seq<char>)
    ensures
        root_folder(doc, key) == (match doc.member("roots"@) {
            Some(roots) => roots.member(key),
            None => None,
        }),
{
    reveal_with_fuel(fetch, 4);
    let route = root_route(key);
    assert(route.drop_first() =~= seq![Hop::Key(key)]);
    assert(route.drop_first().drop_first() =~= Seq::empty());
}

/// A root folder that can be changed is there.
pub proof fn lemma_root_there(doc: Json, segment: Seq<char>)
    ensures
        editable_root(doc, segment) matches Some(route) ==> fetch(doc, route) is Some,
{
    if names_trash(segment) {
        lemma_special_there(doc, TRASH_FOLDER_NAME@);
    } else if names_isolate(segment) {
        lemma_special_there(doc, ISOLATE_FOLDER_NAME@);
    }
}

/// A folder among the other bookmarks is there, and is the first of its name.
pub proof fn lemma_special_there(doc: Json, name: Seq<char>)
    ensures
        special_route(doc, name) matches Some(route) ==> {
            &&& fetch(doc, route) is Some
            &&& folder_named(name)(fetch(doc, route)->0)
        },
{
    if special_route(doc, name) is Some {
        let c = other_children(doc)->0;
        let i = text::first_index(c, folder_named(name))->0;
        text::lemma_first_index(c, folder_named(name));
        lemma_special_item(doc, c, i, c[i]);
    }
}

/// A walk leads to a node that is there.
pub proof fn lemma_walk_there(j: Json, segments: Seq<Seq<char>>, not_folder: Reason, missing: Reason)
    ensures
        walk(j, segments, not_folder, missing) matches Ok(route) ==> {
            &&& fetch(j, route) is Some
            &&& fetch(j, route) == descendant(j, segments)
        },
    decreases segments.len(),
{
    if walk(j, segments, not_folder, missing) is Ok && segments.len() > 0 {
        let c = node::children_of(j)->0;
        text::lemma_first_index(c, shown_as(segments[0]));
        let i = child_index(c, segments[0])->0;
        let rest = walk(c[i], segments.drop_first(), not_folder, missing)->Ok_0;
        lemma_walk_there(c[i], segments.drop_first(), not_folder, missing);
        lemma_child_step(j, c, i, rest, j);
    }
}

/// Giving a folder among the other bookmarks another list of children leaves it where it was.
pub proof fn lemma_special_filled(doc: Json, name: Seq<char>, children: Seq<Json>)
    requires
        special_route(doc, name) is Some,
    ensures
        ({
            let route = special_route(doc, name)->0;
            let d = put(doc, route, with_children(fetch(doc, route)->0, children));
            &&& special_route(d, name) == Some(route)
            &&& fetch(d, route) == Some(with_children(fetch(doc, route)->0, children))
            &&& node::children_of(fetch(d, route)->0) == Some(children)
        }),
{
    reveal_strlit("children");
    reveal_strlit("type");
    reveal_strlit("name");
    let p = folder_named(name);
    let other = root_folder(doc, "other"@)->0;
    let c = other_children(doc)->0;
    let i = text::first_index(c, p)->0;
    text::lemma_first_index(c, p);
    let folder = c[i];
    let x = with_children(folder, children);
    lemma_special_item(doc, c, i, x);
    lemma_other_list(doc, Json::Array(c.update(i, x)));
    let route = special_route(doc, name)->0;
    let d = put(doc, route, x);
    lemma_put_fetch(doc, root_route("other"@), other.with("children"@, Json::Array(c.update(i, x))));
    assert(other_children(d) == Some(c.update(i, x)));
    assert("children"@.len() == 8 && "type"@.len() == 4 && "name"@.len() == 4);
    assert(p(x));
    text::lemma_first_index_found(c.update(i, x), p, i);
    lemma_put_fetch(doc, route, x);
}

/// A folder that is looked for among the other bookmarks is there afterwards, if there is a list
/// of other bookmarks; a folder that had to be made is empty.
pub proof fn law_missing_folder_is_made(
    doc: Json,
    name: Seq<char>,
    id: Seq<char>,
    mint: MintState,
)
    requires
        other_children(doc) is Some,
    ensures
        ({
            let d = with_folder_as(doc, name, id, mint).0;
            &&& special_route(d, name) matches Some(route)
            &&& special_route(doc, name) is Some ==> d == doc
            &&& special_route(doc, name) is None ==> node::children_of(fetch(d, route)->0) == Some(
                Seq::<Json>::empty(),
            )
        }),
{
    let c = other_children(doc)->0;
    let p = folder_named(name);
    if text::first_index(c, p) is None {
        let f = new_folder(mint, id, name);
        let other = root_folder(doc, "other"@)->0;
        let list = Json::Array(c.push(f));
        let d = with_folder_as(doc, name, id, mint).0;
        lemma_other_list(doc, list);
        lemma_put_fetch(doc, root_route("other"@), other.with("children"@, list));
        assert(other_children(d) == Some(c.push(f)));
        text::lemma_first_index(c, p);
        lemma_new_folder(mint, id, name);
        assert forall|j: int| 0 <= j < c.len() implies !p(#[trigger] c.push(f)[j]) by {
            assert(c.push(f)[j] == c[j]);
        }
        text::lemma_first_index_found(c.push(f), p, c.len() as int);
        lemma_special_item(d, c.push(f), c.len() as int, f);
    }
}

/// A new folder is an empty folder of its name.
pub proof fn lemma_new_folder(mint: MintState, id: Seq<char>, name: Seq<char>)
    ensures
        folder_named(name)(new_folder(mint, id, name)),
        node::children_of(new_folder(mint, id, name)) == Some(Seq::<Json>::empty()),
{
    reveal_strlit("children");
    reveal_strlit("type");
    reveal_strlit("name");
    assert("children"@.len() == 8 && "type"@.len() == 4 && "name"@.len() == 4);
    assert("type"@[0] != "name"@[0]);
}

/// Identifiers are 64-bit numbers.
proof fn lemma_id_bound(j: Json, n: nat)
    requires
        has_id(j, n),
    ensures
        n <= u64::MAX,
    decreases j,
{
    match j {
        Json::Object(m) => {
            if own_id(j) != Some(n) {
                lemma_id_member(m, n);
                let k = choose|k: Seq<char>| m.dom().contains(k) && has_id(#[trigger] m[k], n);
                lemma_id_bound(m[k], n);
            }
        },
        Json::Array(s) => {
            lemma_id_item(s, n);
            let i = choose|i: int| 0 <= i < s.len() && has_id(#[trigger] s[i], n);
            lemma_id_bound(s[i], n);
        },
        _ => {},
    }
}

/// Bounded identifiers have a largest one.
proof fn lemma_max_below(j: Json, bound: nat)
    requires
        forall|k: nat| #[trigger] has_id(j, k) ==> k <= bound,
    ensures
        exists|n: nat| is_max_id(j, n),
    decreases bound,
{
    if bound == 0 || has_id(j, bound) {
        assert(is_max_id(j, bound));
    } else {
        assert forall|k: nat| #[trigger] has_id(j, k) implies k <= bound - 1 by {}
        lemma_max_below(j, (bound - 1) as nat);
    }
}

/// Every document has a largest identifier.
pub proof fn lemma_max_id(j: Json)
    ensures
        is_max_id(j, max_id(j)),
{
    assert forall|k: nat| #[trigger] has_id(j, k) implies k <= u64::MAX by {
        lemma_id_bound(j, k);
    }
    lemma_max_below(j, u64::MAX as nat);
}

/// A new identifier is in no node of the document, unless the largest 64-bit number is.
pub proof fn law_fresh_id_is_new(doc: Json)
    requires
        max_id(doc) < u64::MAX,
    ensures
        fresh_id(doc) == number::decimal(max_id(doc) + 1),
        number::parse_unsigned(fresh_id(doc), u64::MAX as nat) == Some(max_id(doc) + 1),
        !has_id(doc, max_id(doc) + 1),
{
    let n = (max_id(doc) + 1) as u64;
    lemma_max_id(doc);
    number::law_unsigned_read_back(n);
}

} // verus!

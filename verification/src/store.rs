//! Bookmark files: reading and writing their JSON, and the history that is shown beside the
//! bookmarks but never stored with them.
use vstd::prelude::*;
use vstd::utf8;
use crate::config::ProfileBackend;
use crate::fault::{CommandError, Reason};
use crate::guid::{Mint, MintState};
use crate::node::HISTORY_FOLDER_NAME;
use crate::number;
use crate::number::{decimal_text, signed_text};
use crate::text;
use crate::text::{text_eq, trim};
use crate::tree;
use crate::tree::is_first_with_key;
use crate::value;
use crate::value::{whole, Doc, Json, Member};

verus! {

// ---------------------------------------------------------------------------
// The trees of serde_json
// ---------------------------------------------------------------------------

/// A JSON tree as `serde_json` holds it.
#[verifier::external_type_specification]
#[verifier::external_body]
pub struct ExTree(serde_json::Value);

/// The document that a tree of `serde_json` holds.
pub uninterp spec fn json_tree(v: serde_json::Value) -> Json;

/// The top of a tree of `serde_json`.
pub enum Top<'a> {
    Null,
    Bool(bool),
    Num(&'a serde_json::Number),
    Str(&'a String),
    Array(&'a Vec<serde_json::Value>),
    Object(Vec<(&'a String, &'a serde_json::Value)>),
}

/// The documents that a list of trees holds.
pub open spec fn trees_of(s: Seq<serde_json::Value>) -> Seq<Json> {
    s.map_values(|v: serde_json::Value| json_tree(v))
}

/// The mapping that a list of entries holds.
pub open spec fn entries_of(s: Seq<(&String, &serde_json::Value)>) -> Map<Seq<char>, Json>
    decreases s.len(),
{
    if s.len() == 0 {
        Map::empty()
    } else {
        entries_of(s.drop_last()).insert(s.last().0@, json_tree(*s.last().1))
    }
}

/// The document that the top of a tree stands for.
pub open spec fn top_of(t: Top) -> Json {
    match t {
        Top::Null => Json::Null,
        Top::Bool(b) => Json::Bool(b),
        Top::Num(n) => Json::Num(*n),
        Top::Str(s) => Json::Str(s@),
        Top::Array(items) => Json::Array(trees_of(items@)),
        Top::Object(entries) => Json::Object(entries_of(entries@)),
    }
}

/// The variants of `serde_json::Value`, with what they hold. The entries of a `serde_json::Map`
/// come from its iterator, which gives every key once.
#[verifier::external_body]
fn top(v: &serde_json::Value) -> (r: Top<'_>)
    ensures
        json_tree(*v) == top_of(r),
        r matches Top::Object(entries) ==> forall|i: int, j: int|
            0 <= i < j < entries@.len() ==> #[trigger] entries@[i].0@ != #[trigger] entries@[j].0@,
{
    match v {
        serde_json::Value::Null => Top::Null,
        serde_json::Value::Bool(b) => Top::Bool(*b),
        serde_json::Value::Number(n) => Top::Num(n),
        serde_json::Value::String(s) => Top::Str(s),
        serde_json::Value::Array(items) => Top::Array(items),
        serde_json::Value::Object(map) => Top::Object(map.iter().collect()),
    }
}

/// The top of a tree to be made.
pub enum Part {
    Null,
    Bool(bool),
    Num(serde_json::Number),
    Str(String),
    Array(Vec<serde_json::Value>),
    Object(Vec<(String, serde_json::Value)>),
}

/// The mapping that a list of entries stands for.
pub open spec fn pairs_of(s: Seq<(String, serde_json::Value)>) -> Map<Seq<char>, Json>
    decreases s.len(),
{
    if s.len() == 0 {
        Map::empty()
    } else {
        pairs_of(s.drop_last()).insert(s.last().0@, json_tree(s.last().1))
    }
}

/// The document that a part stands for.
pub open spec fn part_of(p: Part) -> Json {
    match p {
        Part::Null => Json::Null,
        Part::Bool(b) => Json::Bool(b),
        Part::Num(n) => Json::Num(n),
        Part::Str(s) => Json::Str(s@),
        Part::Array(items) => Json::Array(trees_of(items@)),
        Part::Object(pairs) => Json::Object(pairs_of(pairs@)),
    }
}

/// The constructors of `serde_json::Value`. A `serde_json::Map` is collected from its entries:
/// of two entries with one key the last one stays.
#[verifier::external_body]
fn tree_from(p: Part) -> (r: serde_json::Value)
    ensures
        json_tree(r) == part_of(p),
{
    match p {
        Part::Null => serde_json::Value::Null,
        Part::Bool(b) => serde_json::Value::Bool(b),
        Part::Num(n) => serde_json::Value::Number(n),
        Part::Str(s) => serde_json::Value::String(s),
        Part::Array(items) => serde_json::Value::Array(items),
        Part::Object(pairs) => serde_json::Value::Object(pairs.into_iter().collect()),
    }
}

/// An entry's key is in the mapping, and no other.
proof fn lemma_entries_keys(s: Seq<(&String, &serde_json::Value)>, k: Seq<char>)
    ensures
        entries_of(s).dom().contains(k) <==> exists|i: int|
            0 <= i < s.len() && #[trigger] s[i].0@ == k,
    decreases s.len(),
{
    if s.len() > 0 {
        let rest = s.drop_last();
        lemma_entries_keys(rest, k);
        if entries_of(rest).dom().contains(k) {
            let i = choose|i: int| 0 <= i < rest.len() && #[trigger] rest[i].0@ == k;
            assert(s[i].0@ == k);
        } else if s.last().0@ == k {
            assert(s[s.len() - 1].0@ == k);
        } else {
            assert forall|i: int| 0 <= i < s.len() implies #[trigger] s[i].0@ != k by {
                if i < s.len() - 1 {
                    assert(rest[i].0@ == s[i].0@);
                }
            }
        }
    }
}

/// With every key once, an entry's document stands under its key.
proof fn lemma_entry_at(s: Seq<(&String, &serde_json::Value)>, i: int)
    requires
        0 <= i < s.len(),
        forall|i: int, j: int|
            0 <= i < j < s.len() ==> #[trigger] s[i].0@ != #[trigger] s[j].0@,
    ensures
        entries_of(s).dom().contains(s[i].0@),
        entries_of(s)[s[i].0@] == json_tree(*s[i].1),
    decreases s.len(),
{
    if i < s.len() - 1 {
        let rest = s.drop_last();
        assert(rest[i] == s[i]);
        assert forall|a: int, b: int| 0 <= a < b < rest.len() implies #[trigger] rest[a].0@
            != #[trigger] rest[b].0@ by {
            assert(rest[a] == s[a] && rest[b] == s[b]);
        }
        lemma_entry_at(rest, i);
        assert(s[i].0@ != s[s.len() - 1].0@);
    }
}

/// There are finitely many entries.
proof fn lemma_entries_finite(s: Seq<(&String, &serde_json::Value)>)
    ensures
        entries_of(s).dom().finite(),
    decreases s.len(),
{
    if s.len() > 0 {
        lemma_entries_finite(s.drop_last());
    }
}

/// The tree that a tree of `serde_json` holds.
pub fn from_tree(v: &serde_json::Value) -> (r: Doc)
    ensures
        r@ == json_tree(*v),
    decreases json_tree(*v),
{
    match top(v) {
        Top::Null => Doc::Null,
        Top::Bool(b) => Doc::Bool(b),
        Top::Num(n) => Doc::Num(n.clone()),
        Top::Str(s) => Doc::Str(s.clone()),
        Top::Array(items) => {
            let mut out: Vec<Doc> = Vec::new();
            let mut i: usize = 0;
            while i < items.len()
                invariant
                    i <= items@.len(),
                    json_tree(*v) == Json::Array(trees_of(items@)),
                    out@.len() == i,
                    forall|j: int|
                        0 <= j < i ==> (#[trigger] out@[j])@ == json_tree(items@[j]),
                decreases items.len() - i,
            {
                proof {
                    let j = json_tree(*v);
                    assert(decreases_to!(j => j->Array_0));
                    assert(j->Array_0[i as int] == json_tree(items@[i as int]));
                    assert(decreases_to!(j->Array_0 => j->Array_0[i as int]));
                }
                out.push(from_tree(&items[i]));
                i += 1;
            }
            assert(value::items_of(out@) =~= trees_of(items@));
            Doc::Array(out)
        },
        Top::Object(entries) => {
            let mut out: Vec<Member> = Vec::new();
            let mut i: usize = 0;
            assert(entries@.take(0) =~= Seq::empty());
            while i < entries.len()
                invariant
                    i <= entries@.len(),
                    json_tree(*v) == Json::Object(entries_of(entries@)),
                    forall|i: int, j: int|
                        0 <= i < j < entries@.len() ==> #[trigger] entries@[i].0@
                            != #[trigger] entries@[j].0@,
                    value::members_of(out@) == entries_of(entries@.take(i as int)),
                decreases entries.len() - i,
            {
                let ghost upto = entries@.take(i as int);
                let ghost key = entries@[i as int].0@;
                proof {
                    let j = json_tree(*v);
                    lemma_entry_at(entries@, i as int);
                    lemma_entries_finite(entries@);
                    assert(decreases_to!(j => j->Object_0));
                    assert(j->Object_0[key] == json_tree(*entries@[i as int].1));
                    assert(decreases_to!(j->Object_0 => j->Object_0[key]));
                    lemma_entries_keys(upto, key);
                    if entries_of(upto).dom().contains(key) {
                        let k = choose|k: int| 0 <= k < upto.len() && #[trigger] upto[k].0@ == key;
                        assert(entries@[k].0@ == key);
                        assert(false);
                    }
                    assert(entries@.take(i + 1).drop_last() =~= upto);
                }
                let value: Doc = from_tree(entries[i].1);
                let m: Member = Member { key: entries[i].0.clone(), value };
                proof {
                    value::lemma_members_key(out@, key);
                    value::lemma_members_missing(out@, m);
                }
                out.push(m);
                i += 1;
            }
            assert(entries@.take(i as int) =~= entries@);
            Doc::Object(out)
        },
    }
}

/// Tells whether a key is among the first entries.
fn has_key(pairs: &Vec<(String, serde_json::Value)>, key: &str) -> (r: bool)
    ensures
        r == pairs_of(pairs@).dom().contains(key@),
{
    let mut i: usize = 0;
    assert(pairs@.take(0) =~= Seq::empty());
    let mut found: bool = false;
    while i < pairs.len()
        invariant
            i <= pairs@.len(),
            found == pairs_of(pairs@.take(i as int)).dom().contains(key@),
        decreases pairs.len() - i,
    {
        assert(pairs@.take(i + 1).drop_last() =~= pairs@.take(i as int));
        if text_eq(pairs[i].0.as_str(), key) {
            found = true;
        }
        i += 1;
    }
    assert(pairs@.take(i as int) =~= pairs@);
    found
}

/// The tree of `serde_json` that holds a tree.
pub fn to_tree(v: &Doc) -> (r: serde_json::Value)
    ensures
        json_tree(r) == v@,
    decreases v,
{
    match v {
        Doc::Null => tree_from(Part::Null),
        Doc::Bool(b) => tree_from(Part::Bool(*b)),
        Doc::Num(n) => tree_from(Part::Num(n.clone())),
        Doc::Str(s) => tree_from(Part::Str(s.clone())),
        Doc::Array(items) => {
            let mut out: Vec<serde_json::Value> = Vec::new();
            let mut i: usize = 0;
            while i < items.len()
                invariant
                    i <= items@.len(),
                    *v == Doc::Array(*items),
                    out@.len() == i,
                    forall|j: int|
                        0 <= j < i ==> json_tree(#[trigger] out@[j]) == items@[j]@,
                decreases items.len() - i,
            {
                assert(decreases_to!(*v => v->Array_0));
                assert(decreases_to!(v->Array_0 => v->Array_0@));
                assert(decreases_to!(items@ => items@[i as int]));
                out.push(to_tree(&items[i]));
                i += 1;
            }
            assert(trees_of(out@) =~= value::items_of(items@));
            tree_from(Part::Array(out))
        },
        Doc::Object(members) => {
            let mut out: Vec<(String, serde_json::Value)> = Vec::new();
            let mut i: usize = 0;
            assert(members@.take(0) =~= Seq::empty());
            while i < members.len()
                invariant
                    i <= members@.len(),
                    *v == Doc::Object(*members),
                    pairs_of(out@) == value::members_of(members@.take(i as int)),
                decreases members.len() - i,
            {
                assert(decreases_to!(*v => v->Object_0));
                assert(decreases_to!(v->Object_0 => v->Object_0@));
                assert(decreases_to!(members@ => members@[i as int]));
                assert(decreases_to!(members@[i as int] => members@[i as int].value));
                proof {
                    let upto = members@.take(i as int);
                    assert(members@.take(i + 1) =~= upto.push(members@[i as int]));
                    value::lemma_members_key(upto, members@[i as int].key@);
                    if value::members_of(upto).dom().contains(members@[i as int].key@) {
                        lemma_members_again(upto, members@[i as int]);
                    } else {
                        value::lemma_members_missing(upto, members@[i as int]);
                    }
                }
                if !has_key(&out, members[i].key.as_str()) {
                    let ghost before = out@;
                    out.push((members[i].key.clone(), to_tree(&members[i].value)));
                    assert(out@.drop_last() =~= before);
                }
                i += 1;
            }
            assert(members@.take(i as int) =~= members@);
            tree_from(Part::Object(out))
        },
    }
}

/// A member with a key that came before does not count.
proof fn lemma_members_again(s: Seq<Member>, m: Member)
    requires
        value::members_of(s).dom().contains(m.key@),
    ensures
        value::members_of(s.push(m)) == value::members_of(s),
    decreases s.len(),
{
    if s.len() > 0 {
        assert(s.push(m).drop_first() =~= s.drop_first().push(m));
        if s[0].key@ == m.key@ {
            if value::members_of(s.drop_first()).dom().contains(m.key@) {
                lemma_members_again(s.drop_first(), m);
            } else {
                value::lemma_members_key(s.drop_first(), m.key@);
                value::lemma_members_missing(s.drop_first(), m);
                assert(value::members_of(s.push(m)) =~= value::members_of(s));
            }
        } else {
            lemma_members_again(s.drop_first(), m);
        }
    }
}

// ---------------------------------------------------------------------------
// JSON text
// ---------------------------------------------------------------------------

/// What `serde_json::from_str` reads in a text: a document, or the message of its error.
pub uninterp spec fn parsed_json(content: Seq<char>) -> Result<Json, Seq<char>>;

/// `serde_json::from_str`: what it reads depends on the text alone.
#[verifier::external_body]
fn parse_tree(content: &str) -> (r: Result<serde_json::Value, String>)
    ensures
        match r {
            Ok(v) => parsed_json(content@) == Ok::<Json, Seq<char>>(json_tree(v)),
            Err(e) => parsed_json(content@) == Err::<Json, Seq<char>>(e@),
        },
{
    match serde_json::from_str(content) {
        Ok(v) => Ok(v),
        Err(e) => Err(e.to_string()),
    }
}

/// What `serde_json::to_vec_pretty` writes for a document.
pub uninterp spec fn pretty_json(j: Json) -> Seq<u8>;

/// The document has at most `depth` arrays and objects around any of its parts, and its numbers
/// are integers in the range of `i64` or of `u64`.
pub open spec fn is_plain(j: Json, depth: nat) -> bool
    decreases j,
{
    match j {
        Json::Num(n) => value::is_whole(n),
        Json::Array(s) => depth > 0 && forall|i: int|
            0 <= i < s.len() ==> is_plain(#[trigger] s[i], (depth - 1) as nat),
        Json::Object(m) => depth > 0 && forall|k: Seq<char>|
            m.dom().contains(k) ==> is_plain(#[trigger] m[k], (depth - 1) as nat),
        _ => true,
    }
}

/// The depth of arrays and objects that `serde_json` reads.
pub const DEPTH_LIMIT: u8 = 127;

/// `serde_json::to_vec_pretty` on a tree: it does not fail, what it writes depends on the document
/// alone, and it is UTF-8. `serde_json::from_str` reads the document back where the numbers are
/// integers in the range of `i64` or of `u64` and the depth is within its limit. Of fractions,
/// which include all larger integers, and of deeper documents that is left unsaid.
#[verifier::external_body]
fn pretty_bytes(v: &serde_json::Value) -> (r: Result<Vec<u8>, String>)
    ensures
        match r {
            Ok(bytes) => {
                &&& bytes@ == pretty_json(json_tree(*v))
                &&& utf8::valid_utf8(bytes@)
                &&& is_plain(json_tree(*v), DEPTH_LIMIT as nat) ==> parsed_json(
                    utf8::decode_utf8(bytes@),
                ) == Ok::<Json, Seq<char>>(json_tree(*v))
            },
            Err(_) => false,
        },
{
    match serde_json::to_vec_pretty(v) {
        Ok(bytes) => Ok(bytes),
        Err(e) => Err(e.to_string()),
    }
}

/// Reads the text of a bookmark file.
pub fn read_bookmarks(content: &str) -> (r: Result<Doc, CommandError>)
    ensures
        match r {
            Ok(v) => parsed_json(content@) == Ok::<Json, Seq<char>>(v@),
            Err(e) => {
                &&& e@.reason == Reason::BadJson
                &&& parsed_json(content@) == Err::<Json, Seq<char>>(e@.detail)
            },
        },
{
    match parse_tree(content) {
        Ok(v) => Ok(from_tree(&v)),
        Err(e) => Err(CommandError::new(Reason::BadJson, e.as_str())),
    }
}

/// All members are plain within a depth.
spec fn plain_members(m: Map<Seq<char>, Json>, depth: nat) -> bool {
    forall|k: Seq<char>| m.dom().contains(k) ==> is_plain(#[trigger] m[k], depth)
}

/// An object is plain where its members are.
proof fn lemma_plain_members(m: Map<Seq<char>, Json>, depth: nat)
    requires
        depth > 0,
    ensures
        is_plain(Json::Object(m), depth) == plain_members(m, (depth - 1) as nat),
{
    let j = Json::Object(m);
    assert(j matches Json::Object(t) && t == m);
}

/// All items are plain within a depth.
spec fn plain_items(s: Seq<Json>, depth: nat) -> bool {
    forall|i: int| 0 <= i < s.len() ==> is_plain(#[trigger] s[i], depth)
}

/// An array is plain where its items are.
proof fn lemma_plain_items(s: Seq<Json>, depth: nat)
    requires
        depth > 0,
    ensures
        is_plain(Json::Array(s), depth) == plain_items(s, (depth - 1) as nat),
{
    let j = Json::Array(s);
    assert(j matches Json::Array(t) && t == s);
}

/// Tells whether a document is plain within a depth.
fn check_plain(v: &Doc, depth: u8) -> (r: bool)
    ensures
        r == is_plain(v@, depth as nat),
    decreases v,
{
    match v {
        Doc::Num(n) => whole(n),
        Doc::Array(items) => {
            let ghost s = value::items_of(items@);
            assert(v@ == Json::Array(s));
            if depth == 0 {
                return false;
            }
            proof {
                lemma_plain_items(s, depth as nat);
            }
            let mut i: usize = 0;
            while i < items.len()
                invariant
                    i <= items@.len(),
                    depth > 0,
                    *v == Doc::Array(*items),
                    s == value::items_of(items@),
                    v@ == Json::Array(s),
                    is_plain(v@, depth as nat) == plain_items(s, (depth - 1) as nat),
                    forall|j: int| 0 <= j < i ==> is_plain(#[trigger] s[j], (depth - 1) as nat),
                decreases items.len() - i,
            {
                assert(decreases_to!(*v => v->Array_0));
                assert(decreases_to!(v->Array_0 => v->Array_0@));
                assert(decreases_to!(items@ => items@[i as int]));
                assert(s[i as int] == items@[i as int]@);
                if !check_plain(&items[i], depth - 1) {
                    return false;
                }
                i += 1;
            }
            true
        },
        Doc::Object(members) => {
            let ghost m = value::members_of(members@);
            assert(v@ == Json::Object(m));
            if depth == 0 {
                return false;
            }
            proof {
                lemma_plain_members(m, depth as nat);
            }
            let mut i: usize = 0;
            while i < members.len()
                invariant
                    i <= members@.len(),
                    depth > 0,
                    *v == Doc::Object(*members),
                    m == value::members_of(members@),
                    v@ == Json::Object(m),
                    is_plain(v@, depth as nat) == plain_members(m, (depth - 1) as nat),
                    forall|j: int|
                        0 <= j < i && tree::first_with_key(members@, j) ==> is_plain(
                            (#[trigger] members@[j]).value@,
                            (depth - 1) as nat,
                        ),
                decreases members.len() - i,
            {
                if is_first_with_key(members, i) {
                    assert(decreases_to!(*v => v->Object_0));
                    assert(decreases_to!(v->Object_0 => v->Object_0@));
                    assert(decreases_to!(members@ => members@[i as int]));
                    assert(decreases_to!(members@[i as int] => members@[i as int].value));
                    proof {
                        value::lemma_members_at(members@, i as int, members@[i as int]);
                        let k = members@[i as int].key@;
                        assert(m.dom().contains(k) && m[k] == members@[i as int].value@);
                    }
                    if !check_plain(&members[i].value, depth - 1) {
                        return false;
                    }
                }
                i += 1;
            }
            proof {
                assert forall|k: Seq<char>| m.dom().contains(k) implies is_plain(
                    #[trigger] m[k],
                    (depth - 1) as nat,
                ) by {
                    tree::lemma_first_member(members@, k);
                }
            }
            true
        },
        _ => true,
    }
}

/// Tells whether a document is sure to be read back from what is written for it: its numbers are
/// integers in the range of `i64` or of `u64`, and it is not deeper than what is read.
pub fn reads_back(val: &Doc) -> (r: bool)
    ensures
        r == is_plain(val@, DEPTH_LIMIT as nat),
{
    check_plain(val, DEPTH_LIMIT)
}

/// The bytes of a bookmark file. Reading them gives the document back, where its numbers are
/// integers in the range of `i64` or of `u64` and it is not deeper than what is read.
pub fn write_bookmarks(val: &Doc) -> (r: Vec<u8>)
    ensures
        r@ == pretty_json(val@),
        utf8::valid_utf8(r@),
        is_plain(val@, DEPTH_LIMIT as nat) ==> parsed_json(utf8::decode_utf8(r@)) == Ok::<
            Json,
            Seq<char>,
        >(val@),
{
    match pretty_bytes(&to_tree(val)) {
        Ok(bytes) => bytes,
        Err(_) => Vec::new(),
    }
}

// ---------------------------------------------------------------------------
// The history
// ---------------------------------------------------------------------------

/// The number of visits that are listed.
pub const HISTORY_LIMIT: usize = 500;

/// A visited page as a browser stores it.
#[derive(Debug)]
pub struct Visit {
    pub title: Option<String>,
    pub url: Option<String>,
    pub time: i64,
}

/// The text of a field, or nothing where there is none.
pub open spec fn field_text(field: Option<String>) -> Seq<char> {
    match field {
        Some(s) => s@,
        None => ""@,
    }
}

/// The title of a visited page: its own one without white space around it, or the address where
/// that is blank.
pub open spec fn visit_title(v: Visit) -> Seq<char> {
    let t = text::trimmed(field_text(v.title));
    if t.len() == 0 {
        field_text(v.url)
    } else {
        t
    }
}

/// The link node of a visited page.
pub open spec fn visit_node(v: Visit, number: nat, mint: MintState) -> Json {
    value::empty_object().with("id"@, Json::Str("hist_"@ + number::decimal(number))).with(
        "guid"@,
        Json::Str(mint.next_guid()),
    ).with("name"@, Json::Str(visit_title(v))).with("type"@, Json::Str("url"@)).with(
        "url"@,
        Json::Str(field_text(v.url)),
    ).with("date_added"@, Json::Str(number::signed_decimal(v.time as int))).with(
        "date_modified"@,
        Json::Str(number::signed_decimal(v.time as int)),
    )
}

/// The link nodes of visited pages, numbered from one; pages without an address are left out.
pub open spec fn visit_nodes(visits: Seq<Visit>, mint: MintState) -> (Seq<Json>, MintState)
    decreases visits.len(),
{
    if visits.len() == 0 {
        (Seq::empty(), mint)
    } else {
        let (nodes, m) = visit_nodes(visits.drop_last(), mint);
        if field_text(visits.last().url).len() == 0 {
            (nodes, m)
        } else {
            (nodes.push(visit_node(visits.last(), nodes.len() + 1, m)), m.drawn())
        }
    }
}

/// The link nodes of visited pages.
pub fn read_history_items(visits: &[Visit], mint: &mut Mint) -> (r: Vec<Doc>)
    ensures
        (value::items_of(r@), final(mint)@) == visit_nodes(visits@, old(mint)@),
{
    let mut out: Vec<Doc> = Vec::new();
    let mut i: usize = 0;
    assert(value::items_of(out@) =~= Seq::empty());
    assert(visits@.take(0) =~= Seq::empty());
    while i < visits.len()
        invariant
            i <= visits@.len(),
            out@.len() <= i,
            (value::items_of(out@), mint@) == visit_nodes(visits@.take(i as int), old(mint)@),
        decreases visits.len() - i,
    {
        assert(visits@.take(i + 1).drop_last() =~= visits@.take(i as int));
        let visit: &Visit = &visits[i];
        let url: &str = match &visit.url {
            Some(u) => u.as_str(),
            None => "",
        };
        proof {
            reveal_strlit("");
        }
        if !url.is_empty() {
            let own: &str = match &visit.title {
                Some(t) => trim(t.as_str()),
                None => trim(""),
            };
            let title: &str = if own.is_empty() {
                url
            } else {
                own
            };
            let mut id: String = "hist_".to_owned();
            id.append(decimal_text(out.len() as u128 + 1).as_str());
            let stamp: String = signed_text(visit.time);
            let guid: String = mint.generate_guid();
            let mut v: Doc = Doc::new_object();
            v.set("id", Doc::Str(id));
            v.set("guid", Doc::Str(guid));
            v.set("name", Doc::new_str(title));
            v.set("type", Doc::new_str("url"));
            v.set("url", Doc::new_str(url));
            v.set("date_added", Doc::new_str(stamp.as_str()));
            v.set("date_modified", Doc::new_str(stamp.as_str()));
            let ghost before = value::items_of(out@);
            let ghost n = v@;
            out.push(v);
            assert(value::items_of(out@) =~= before.push(n));
        }
        i += 1;
    }
    assert(visits@.take(i as int) =~= visits@);
    out
}

/// The question that a browser's store of visits is asked.
pub open spec fn history_question(backend: ProfileBackend, limit: nat) -> Seq<char> {
    match backend {
        ProfileBackend::ChromiumJson => {
            "SELECT title, url, last_visit_time FROM urls WHERE url NOT LIKE 'file://%' ORDER BY last_visit_time DESC LIMIT "@
                + number::decimal(limit)
        },
        ProfileBackend::FirefoxSqlite => {
            "SELECT title, url, last_visit_date FROM moz_places WHERE visit_count > 0 AND url NOT LIKE 'file://%' AND url NOT LIKE 'about:%' ORDER BY last_visit_date DESC LIMIT "@
                + number::decimal(limit)
        },
    }
}

/// The question that a browser's store of visits is asked.
pub fn history_query(backend: ProfileBackend, limit: usize) -> (r: String)
    ensures
        r@ == history_question(backend, limit as nat),
{
    let mut out: String = match backend {
        ProfileBackend::ChromiumJson => {
            "SELECT title, url, last_visit_time FROM urls WHERE url NOT LIKE 'file://%' ORDER BY last_visit_time DESC LIMIT ".to_owned()
        },
        ProfileBackend::FirefoxSqlite => {
            "SELECT title, url, last_visit_date FROM moz_places WHERE visit_count > 0 AND url NOT LIKE 'file://%' AND url NOT LIKE 'about:%' ORDER BY last_visit_date DESC LIMIT ".to_owned()
        },
    };
    out.append(decimal_text(limit as u128).as_str());
    out
}

/// The folder of the history.
pub open spec fn history_folder(nodes: Seq<Json>) -> Json {
    value::empty_object().with("id"@, Json::Str("history_root"@)).with(
        "name"@,
        Json::Str(HISTORY_FOLDER_NAME@),
    ).with("type"@, Json::Str("folder"@)).with("children"@, Json::Array(nodes))
}

/// The document with the history among its roots, where it has roots.
pub open spec fn with_history(doc: Json, nodes: Seq<Json>) -> Json {
    match doc.member("roots"@) {
        Some(roots) => doc.with("roots"@, roots.with("history"@, history_folder(nodes))),
        None => doc,
    }
}

/// The document without a history among its roots.
pub open spec fn without_history(doc: Json) -> Json {
    match doc.member("roots"@) {
        Some(roots) => doc.with("roots"@, roots.without("history"@)),
        None => doc,
    }
}

/// Shows the history among the roots of a document.
pub fn add_history(val: &mut Doc, nodes: Vec<Doc>)
    ensures
        final(val)@ == with_history(old(val)@, value::items_of(nodes@)),
{
    let mut folder: Doc = Doc::new_object();
    folder.set("id", Doc::new_str("history_root"));
    folder.set("name", Doc::new_str(HISTORY_FOLDER_NAME));
    folder.set("type", Doc::new_str("folder"));
    folder.set("children", Doc::Array(nodes));
    if let Some(roots) = val.get_mut("roots") {
        roots.set("history", folder);
    }
}

/// The bytes that are stored for a document: the history is left out.
pub fn stored_bytes(val: &Doc) -> (r: Vec<u8>)
    ensures
        r@ == pretty_json(without_history(val@)),
        utf8::valid_utf8(r@),
        is_plain(without_history(val@), DEPTH_LIMIT as nat) ==> parsed_json(
            utf8::decode_utf8(r@),
        ) == Ok::<Json, Seq<char>>(without_history(val@)),
{
    let mut clean: Doc = val.clone();
    if let Some(roots) = clean.get_mut("roots") {
        roots.unset("history");
    }
    write_bookmarks(&clean)
}

// ---------------------------------------------------------------------------
// Laws
// ---------------------------------------------------------------------------

/// No history is stored.
pub proof fn law_history_is_not_stored(doc: Json)
    ensures
        tree::root_folder(without_history(doc), "history"@) is None,
{
    tree::lemma_root(without_history(doc), "history"@);
}

/// What is stored does not depend on the history that was shown: a document that has none is
/// stored as it was read.
pub proof fn law_showing_history_stores_nothing(doc: Json, nodes: Seq<Json>)
    ensures
        without_history(with_history(doc, nodes)) == without_history(doc),
        tree::root_folder(doc, "history"@) is None ==> without_history(with_history(doc, nodes))
            == doc,
{
    tree::lemma_root(doc, "history"@);
    if let Json::Object(m) = doc {
        if m.dom().contains("roots"@) {
            let roots = m["roots"@];
            if let Json::Object(r) = roots {
                let h = history_folder(nodes);
                assert(r.insert("history"@, h).remove("history"@) =~= r.remove("history"@));
                if !r.dom().contains("history"@) {
                    assert(r.remove("history"@) =~= r);
                }
            }
            let shown = roots.with("history"@, history_folder(nodes));
            let clean = roots.without("history"@);
            assert(m.insert("roots"@, shown).insert("roots"@, clean) =~= m.insert(
                "roots"@,
                clean,
            ));
            assert(m.insert("roots"@, roots) =~= m);
        }
    }
}

/// The history is shown under its name, and every other root is as it was.
pub proof fn law_history_is_shown(doc: Json, nodes: Seq<Json>, key: Seq<char>)
    requires
        doc.member("roots"@) matches Some(roots) && roots is Object,
    ensures
        tree::root_folder(with_history(doc, nodes), "history"@) == Some(history_folder(nodes)),
        key != "history"@ ==> tree::root_folder(with_history(doc, nodes), key)
            == tree::root_folder(doc, key),
{
    tree::lemma_root(with_history(doc, nodes), "history"@);
    tree::lemma_root(with_history(doc, nodes), key);
    tree::lemma_root(doc, key);
}

/// A visited page is listed: a link with its address, and for its name its title without white
/// space around it, or its address where that is blank.
pub open spec fn is_visited_page(n: Json, v: Visit, number: nat) -> bool {
    &&& v.url matches Some(url) && n.text_member("url"@) == Some(url@)
    &&& n.type_is("url"@)
    &&& n.text_member("name"@) == Some(
        match v.title {
            Some(t) => if text::trimmed(t@).len() > 0 {
                text::trimmed(t@)
            } else {
                v.url->0@
            },
            None => v.url->0@,
        },
    )
    &&& n.text_member("date_added"@) == Some(number::signed_decimal(v.time as int))
    &&& n.text_member("date_modified"@) == Some(number::signed_decimal(v.time as int))
    &&& n.text_member("id"@) == Some("hist_"@ + number::decimal(number))
    &&& n.text_member("guid"@) is Some
}

/// A page without an address is not listed.
pub open spec fn has_address(v: Visit) -> bool {
    v.url matches Some(url) && url@.len() > 0
}

/// Visited pages are listed one by one, in their order: one more visit adds one more link, numbered
/// on from one, exactly if it has an address.
#[verifier::rlimit(40)]
pub proof fn law_each_visit_is_listed(visits: Seq<Visit>, v: Visit, mint: MintState)
    ensures
        visit_nodes(Seq::empty(), mint).0.len() == 0,
        ({
            let before = visit_nodes(visits, mint).0;
            let after = visit_nodes(visits.push(v), mint).0;
            &&& !has_address(v) ==> after == before
            &&& has_address(v) ==> after.len() == before.len() + 1 && after.drop_last() == before
                && is_visited_page(after.last(), v, after.len())
        }),
{
    reveal_strlit("");
    reveal_strlit("id");
    reveal_strlit("guid");
    reveal_strlit("name");
    reveal_strlit("type");
    reveal_strlit("url");
    reveal_strlit("date_added");
    reveal_strlit("date_modified");
    assert("id"@.len() == 2 && "guid"@.len() == 4 && "name"@.len() == 4 && "type"@.len() == 4
        && "url"@.len() == 3 && "date_added"@.len() == 10 && "date_modified"@.len() == 13);
    assert("guid"@[0] == 'g' && "name"@[0] == 'n' && "type"@[0] == 't');
    assert(visits.push(v).drop_last() =~= visits);
    let before = visit_nodes(visits, mint).0;
    let after = visit_nodes(visits.push(v), mint).0;
    assert(text::trimmed(""@).len() == 0) by {
        assert(text::strip_front(""@, text::CharSet::Space) == ""@);
    }
    if has_address(v) {
        assert(after.drop_last() =~= before);
    }
}

/// The history that is shown is a folder with the visited pages in it, under its own name.
pub proof fn law_history_folder_holds_the_visits(doc: Json, nodes: Seq<Json>)
    requires
        doc.member("roots"@) matches Some(roots) && roots is Object,
    ensures
        tree::root_folder(with_history(doc, nodes), "history"@) matches Some(h)
            && h.type_is("folder"@) && h.text_member("name"@) == Some("履歴"@)
            && h.array_member("children"@) == Some(nodes),
{
    law_history_is_shown(doc, nodes, "history"@);
    reveal_strlit("id");
    reveal_strlit("name");
    reveal_strlit("type");
    reveal_strlit("children");
    assert("id"@.len() == 2 && "name"@.len() == 4 && "type"@.len() == 4 && "children"@.len() == 8);
    assert("name"@[0] == 'n' && "type"@[0] == 't');
}

/// What is stored keeps every root but the history, and every other member of the document.
pub proof fn law_only_the_history_is_not_stored(doc: Json, key: Seq<char>)
    ensures
        key != "history"@ ==> tree::root_folder(without_history(doc), key) == tree::root_folder(
            doc,
            key,
        ),
        key != "roots"@ ==> without_history(doc).member(key) == doc.member(key),
        tree::root_folder(without_history(doc), "history"@) is None,
{
    tree::lemma_root(without_history(doc), key);
    tree::lemma_root(doc, key);
    tree::lemma_root(without_history(doc), "history"@);
}

/// The stores are asked for the last visits, as many as wanted, and for none of local files.
#[verifier::rlimit(40)]
pub proof fn law_question_is_for_the_last_visits(backend: ProfileBackend, limit: nat)
    ensures
        text::finishes_with(
            history_question(backend, limit),
            " DESC LIMIT "@ + number::decimal(limit),
        ),
        text::begins_with(history_question(backend, limit), "SELECT title, url, last_visit_"@),
{
    reveal_strlit(
        "SELECT title, url, last_visit_time FROM urls WHERE url NOT LIKE 'file://%' ORDER BY last_visit_time DESC LIMIT ",
    );
    reveal_strlit(
        "SELECT title, url, last_visit_date FROM moz_places WHERE visit_count > 0 AND url NOT LIKE 'file://%' AND url NOT LIKE 'about:%' ORDER BY last_visit_date DESC LIMIT ",
    );
    reveal_strlit(" DESC LIMIT ");
    reveal_strlit("SELECT title, url, last_visit_");
    let q = history_question(backend, limit);
    let tail = " DESC LIMIT "@ + number::decimal(limit);
    assert(q.skip(q.len() - tail.len()) =~= tail);
    assert(q.take(30) =~= "SELECT title, url, last_visit_"@);
}

/// What is read back grows with its parts: texts, truth values, nothing and whole numbers are read
/// back; an array or object of at most `depth` levels is read back with one more item or member
/// exactly if that is read back one level deeper; the empty ones are, where a level is left.
pub proof fn law_documents_are_read_back_with_their_parts(
    s: Seq<Json>,
    m: Map<Seq<char>, Json>,
    key: Seq<char>,
    x: Json,
    t: Seq<char>,
    b: bool,
    i: i64,
    depth: nat,
)
    requires
        depth > 0,
        !m.dom().contains(key),
    ensures
        is_plain(Json::Null, 0) && is_plain(Json::Bool(b), 0) && is_plain(Json::Str(t), 0),
        is_plain(value::int_json(i), 0),
        is_plain(Json::Array(Seq::empty()), depth),
        is_plain(Json::Object(Map::empty()), depth),
        is_plain(Json::Array(s.push(x)), depth) <==> is_plain(Json::Array(s), depth) && is_plain(
            x,
            (depth - 1) as nat,
        ),
        is_plain(Json::Object(m.insert(key, x)), depth) <==> is_plain(Json::Object(m), depth)
            && is_plain(x, (depth - 1) as nat),
{
    let d = (depth - 1) as nat;
    assert(value::number_of(i) == value::number_of(i));
    lemma_plain_items(Seq::empty(), depth);
    lemma_plain_members(Map::empty(), depth);
    lemma_plain_items(s, depth);
    lemma_plain_items(s.push(x), depth);
    lemma_plain_members(m, depth);
    let n = m.insert(key, x);
    lemma_plain_members(n, depth);
    if plain_items(s.push(x), d) {
        assert(s.push(x)[s.len() as int] == x);
        assert forall|k: int| 0 <= k < s.len() implies is_plain(#[trigger] s[k], d) by {
            assert(s.push(x)[k] == s[k]);
        }
    }
    if plain_members(n, d) {
        assert(n.dom().contains(key) && n[key] == x);
        assert forall|k: Seq<char>| m.dom().contains(k) implies is_plain(#[trigger] m[k], d) by {
            assert(n.dom().contains(k) && n[k] == m[k]);
        }
    }
    if plain_members(m, d) && is_plain(x, d) {
        assert forall|k: Seq<char>| n.dom().contains(k) implies is_plain(#[trigger] n[k], d) by {
            if k != key {
                assert(m.dom().contains(k) && n[k] == m[k]);
            }
        }
    }
}

} // verus!

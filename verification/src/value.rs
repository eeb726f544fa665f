//! JSON documents: the executable tree and its mathematical model.
use crate::text::text_eq;
use vstd::prelude::*;

verus! {

/// A JSON number. It is carried through, and read only as a 64-bit integer.
#[verifier::external_type_specification]
#[verifier::external_body]
pub struct ExNumber(serde_json::Number);

/// `Number::clone`: the copy is the number.
pub assume_specification[ <serde_json::Number as Clone>::clone ](
    n: &serde_json::Number,
) -> (r: serde_json::Number)
    ensures
        r == *n,
;

/// What `Number::from` makes of a 64-bit integer.
pub uninterp spec fn number_of(i: i64) -> serde_json::Number;

/// `Number::from` on an `i64`: the number depends on the integer alone, and no other integer
/// gives the same number.
#[verifier::external_body]
fn number_from(i: i64) -> (r: serde_json::Number)
    ensures
        r == number_of(i),
        forall|j: i64| #[trigger] number_of(j) == r ==> j == i,
{
    serde_json::Number::from(i)
}

/// `Number::as_i64`: the integer that the number was made of or is read as, and nothing where the
/// number is a fraction or out of the range of `i64`.
pub assume_specification[ serde_json::Number::as_i64 ](n: &serde_json::Number) -> (r: Option<i64>)
    ensures
        match r {
            Some(i) => {
                &&& *n == number_of(i)
                &&& forall|j: i64| #[trigger] number_of(j) == *n ==> j == i
            },
            None => forall|j: i64| #[trigger] number_of(j) != *n,
        },
;

/// The integer that a number is, if it is one in the range of `i64`.
pub open spec fn integer_of(n: serde_json::Number) -> Option<i64> {
    if exists|i: i64| #[trigger] number_of(i) == n {
        Some(choose|i: i64| #[trigger] number_of(i) == n)
    } else {
        None
    }
}

/// The unsigned integer that `Number::as_u64` gives for a number: the number itself where it is an
/// integer from zero to `u64::MAX`, else nothing.
pub uninterp spec fn natural_of(n: serde_json::Number) -> Option<u64>;

/// `Number::as_u64`: what it gives depends on the number alone.
pub assume_specification[ serde_json::Number::as_u64 ](n: &serde_json::Number) -> (r: Option<u64>)
    ensures
        r == natural_of(*n),
;

/// The number is an integer in the range of `i64` or of `u64`.
pub open spec fn is_whole(n: serde_json::Number) -> bool {
    integer_of(n) is Some || natural_of(n) is Some
}

/// Tells whether a number is an integer in the range of `i64` or of `u64`.
pub fn whole(n: &serde_json::Number) -> (r: bool)
    ensures
        r == is_whole(*n),
{
    n.as_i64().is_some() || n.as_u64().is_some()
}

/// The mathematical model of a JSON document.
pub enum Json {
    Null,
    Bool(bool),
    Num(serde_json::Number),
    Str(Seq<char>),
    Array(Seq<Json>),
    Object(Map<Seq<char>, Json>),
}

impl Json {
    /// The member of an object under a key.
    pub open spec fn member(self, key: Seq<char>) -> Option<Json> {
        match self {
            Json::Object(m) => if m.dom().contains(key) {
                Some(m[key])
            } else {
                None
            },
            _ => None,
        }
    }

    /// The text, where the document is a string.
    pub open spec fn text(self) -> Option<Seq<char>> {
        match self {
            Json::Str(s) => Some(s),
            _ => None,
        }
    }

    /// The items, where the document is an array.
    pub open spec fn items(self) -> Option<Seq<Json>> {
        match self {
            Json::Array(s) => Some(s),
            _ => None,
        }
    }

    /// The number, where the document is an integer in the range of `i64`.
    pub open spec fn int64(self) -> Option<i64> {
        match self {
            Json::Num(n) => integer_of(n),
            _ => None,
        }
    }

    /// The string member under a key.
    pub open spec fn text_member(self, key: Seq<char>) -> Option<Seq<char>> {
        match self.member(key) {
            Some(v) => v.text(),
            None => None,
        }
    }

    /// The member `type` is a text.
    pub open spec fn type_is(self, kind: Seq<char>) -> bool {
        self.text_member("type"@) == Some(kind)
    }

    /// The array member under a key.
    pub open spec fn array_member(self, key: Seq<char>) -> Option<Seq<Json>> {
        match self.member(key) {
            Some(v) => v.items(),
            None => None,
        }
    }

    /// The document with a member set, where it is an object; any other document stays as it is.
    pub open spec fn with(self, key: Seq<char>, value: Json) -> Json {
        match self {
            Json::Object(m) => Json::Object(m.insert(key, value)),
            _ => self,
        }
    }

    /// The document without a member.
    pub open spec fn without(self, key: Seq<char>) -> Json {
        match self {
            Json::Object(m) => Json::Object(m.remove(key)),
            _ => self,
        }
    }
}

/// The object without members.
pub open spec fn empty_object() -> Json {
    Json::Object(Map::empty())
}

/// The integer `n` as a document.
pub open spec fn int_json(n: i64) -> Json {
    Json::Num(number_of(n))
}

/// A JSON document. An object holds its members in a list; where a key occurs twice the first
/// member counts.
#[derive(Debug, PartialEq)]
pub enum Doc {
    Null,
    Bool(bool),
    Num(serde_json::Number),
    Str(String),
    Array(Vec<Doc>),
    Object(Vec<Member>),
}

/// A member of an object.
#[derive(Debug, PartialEq)]
pub struct Member {
    pub key: String,
    pub value: Doc,
}

impl View for Doc {
    type V = Json;

    open spec fn view(&self) -> Json {
        json_of(*self)
    }
}

/// The document that a tree stands for.
pub open spec fn json_of(v: Doc) -> Json
    decreases v,
{
    match v {
        Doc::Null => Json::Null,
        Doc::Bool(b) => Json::Bool(b),
        Doc::Num(n) => Json::Num(n),
        Doc::Str(s) => Json::Str(s@),
        Doc::Array(items) => Json::Array(items_of(items@)),
        Doc::Object(members) => Json::Object(members_of(members@)),
    }
}

/// The documents that a list of trees stands for.
pub open spec fn items_of(s: Seq<Doc>) -> Seq<Json>
    decreases s,
{
    Seq::new(
        s.len(),
        |i: int|
            if 0 <= i < s.len() {
                json_of(s[i])
            } else {
                Json::Null
            },
    )
}

/// The mapping that a list of members stands for.
pub open spec fn members_of(s: Seq<Member>) -> Map<Seq<char>, Json>
    decreases s,
{
    if s.len() == 0 {
        Map::empty()
    } else {
        members_of(s.drop_first()).insert(s[0].key@, json_of(s[0].value))
    }
}

// ---------------------------------------------------------------------------
// Lemmas on member lists
// ---------------------------------------------------------------------------

/// The first member with a key is the one that counts, and replacing its value replaces the
/// value under the key.
pub proof fn lemma_members_at(s: Seq<Member>, i: int, m: Member)
    requires
        0 <= i < s.len(),
        forall|j: int| 0 <= j < i ==> s[j].key@ != s[i].key@,
        m.key@ == s[i].key@,
    ensures
        members_of(s).dom().contains(s[i].key@),
        members_of(s)[s[i].key@] == s[i].value@,
        members_of(s.update(i, m)) == members_of(s).insert(s[i].key@, m.value@),
    decreases s.len(),
{
    let t = s.drop_first();
    if i == 0 {
        assert(s.update(i, m).drop_first() =~= t);
        assert(members_of(s.update(i, m)) =~= members_of(s).insert(s[i].key@, m.value@));
    } else {
        assert forall|j: int| 0 <= j < i - 1 implies (#[trigger] t[j]).key@ != t[i - 1].key@ by {
            assert(t[j] == s[j + 1]);
        }
        lemma_members_at(t, i - 1, m);
        assert(s.update(i, m).drop_first() =~= t.update(i - 1, m));
        assert(s[0].key@ != s[i].key@);
        assert(s.update(i, m)[0] == s[0]);
        assert(members_of(s.update(i, m)) =~= members_of(s).insert(s[i].key@, m.value@));
    }
}

/// Replacing the first member with a key by another one with the same key replaces the value
/// under the key.
proof fn lemma_members_replaced(s: Seq<Member>, i: int, m: Member)
    requires
        0 <= i < s.len(),
        forall|j: int| 0 <= j < i ==> s[j].key@ != s[i].key@,
    ensures
        m.key == s[i].key ==> members_of(s.update(i, m)) == members_of(s).insert(
            s[i].key@,
            m.value@,
        ),
{
    if m.key == s[i].key {
        lemma_members_at(s, i, m);
    }
}

/// A key that no member has is not in the mapping, and a member added at the end adds it.
pub proof fn lemma_members_missing(s: Seq<Member>, m: Member)
    requires
        forall|j: int| 0 <= j < s.len() ==> s[j].key@ != m.key@,
    ensures
        !members_of(s).dom().contains(m.key@),
        members_of(s.push(m)) == members_of(s).insert(m.key@, m.value@),
    decreases s.len(),
{
    if s.len() == 0 {
        assert(s.push(m).drop_first() =~= s);
    } else {
        let t = s.drop_first();
        assert forall|j: int| 0 <= j < t.len() implies (#[trigger] t[j]).key@ != m.key@ by {
            assert(t[j] == s[j + 1]);
        }
        lemma_members_missing(t, m);
        assert(s.push(m).drop_first() =~= t.push(m));
        assert(s[0].key@ != m.key@);
        assert(members_of(s.push(m)) =~= members_of(s).insert(m.key@, m.value@));
    }
}

/// Taking out a member leaves every other key as it is.
proof fn lemma_members_taken(s: Seq<Member>, i: int)
    requires
        0 <= i < s.len(),
    ensures
        members_of(s.remove(i)).remove(s[i].key@) == members_of(s).remove(s[i].key@),
    decreases s.len(),
{
    let t = s.drop_first();
    if i == 0 {
        assert(s.remove(0) =~= t);
        assert(members_of(t).remove(s[0].key@) =~= members_of(s).remove(s[0].key@));
    } else {
        lemma_members_taken(t, i - 1);
        assert(s.remove(i).drop_first() =~= t.remove(i - 1));
        assert(s.remove(i)[0] == s[0]);
        let key = s[i].key@;
        let a = members_of(t.remove(i - 1));
        let b = members_of(t);
        assert(a.remove(key) == b.remove(key));
        let x = members_of(s.remove(i)).remove(key);
        let y = members_of(s).remove(key);
        assert forall|k: Seq<char>| #[trigger] x.dom().contains(k) == y.dom().contains(k) by {
            assert(a.remove(key).dom().contains(k) == b.remove(key).dom().contains(k));
        }
        assert forall|k: Seq<char>| #[trigger] x.dom().contains(k) implies x[k] == y[k] by {
            assert(a.remove(key).dom().contains(k) == b.remove(key).dom().contains(k));
            assert(a.remove(key)[k] == b.remove(key)[k]);
        }
        assert(x =~= y);
    }
}

/// Every key of the mapping is the key of a first member.
pub proof fn lemma_members_key(s: Seq<Member>, key: Seq<char>)
    ensures
        members_of(s).dom().contains(key) <==> exists|i: int|
            0 <= i < s.len() && #[trigger] s[i].key@ == key,
    decreases s.len(),
{
    if s.len() > 0 {
        let t = s.drop_first();
        lemma_members_key(t, key);
        if exists|i: int| 0 <= i < s.len() && #[trigger] s[i].key@ == key {
            let i = choose|i: int| 0 <= i < s.len() && #[trigger] s[i].key@ == key;
            if i > 0 {
                assert(t[i - 1].key@ == key);
            }
        }
        if members_of(t).dom().contains(key) {
            let i = choose|i: int| 0 <= i < t.len() && #[trigger] t[i].key@ == key;
            assert(s[i + 1].key@ == key);
        }
    }
}

/// Finds the first member with a key, or the length of the list.
fn member_position(members: &Vec<Member>, key: &str) -> (i: usize)
    ensures
        i <= members@.len(),
        forall|j: int| 0 <= j < i ==> members@[j].key@ != key@,
        i < members@.len() ==> members@[i as int].key@ == key@,
        i < members@.len() <==> members_of(members@).dom().contains(key@),
        i < members@.len() ==> members_of(members@)[key@] == members@[i as int].value@,
{
    let mut i: usize = 0;
    while i < members.len()
        invariant
            i <= members@.len(),
            forall|j: int| 0 <= j < i ==> members@[j].key@ != key@,
        decreases members.len() - i,
    {
        if text_eq(members[i].key.as_str(), key) {
            proof {
                lemma_members_at(members@, i as int, members@[i as int]);
            }
            return i;
        }
        i += 1;
    }
    proof {
        lemma_members_key(members@, key@);
    }
    i
}

// ---------------------------------------------------------------------------
// Reading and changing documents
// ---------------------------------------------------------------------------

impl Doc {
    /// The member of an object under a key.
    pub fn get(&self, key: &str) -> (r: Option<&Doc>)
        ensures
            match r {
                Some(v) => self@.member(key@) == Some(v@),
                None => self@.member(key@) is None,
            },
    {
        match self {
            Doc::Object(members) => {
                let i: usize = member_position(members, key);
                if i < members.len() {
                    Some(&members[i].value)
                } else {
                    None
                }
            },
            _ => None,
        }
    }

    /// The member of an object under a key, to be changed in place.
    pub fn get_mut(&mut self, key: &str) -> (r: Option<&mut Doc>)
        ensures
            match r {
                Some(v) => {
                    &&& old(self)@.member(key@) == Some(v@)
                    &&& final(self)@ == old(self)@.with(key@, final(v)@)
                },
                None => old(self)@.member(key@) is None && final(self)@ == old(self)@,
            },
    {
        match self {
            Doc::Object(members) => {
                let i: usize = member_position(members, key);
                if i < members.len() {
                    let ghost s = members@;
                    let found: &mut Member = &mut members[i];
                    proof {
                        lemma_members_replaced(s, i as int, *final(found));
                    }
                    Some(&mut found.value)
                } else {
                    None
                }
            },
            _ => None,
        }
    }

    /// The text, where the document is a string.
    pub fn as_str(&self) -> (r: Option<&str>)
        ensures
            match r {
                Some(s) => self@.text() == Some(s@),
                None => self@.text() is None,
            },
    {
        match self {
            Doc::Str(s) => Some(s.as_str()),
            _ => None,
        }
    }

    /// The items, where the document is an array.
    pub fn as_array(&self) -> (r: Option<&Vec<Doc>>)
        ensures
            match r {
                Some(items) => self@.items() == Some(items_of(items@)),
                None => self@.items() is None,
            },
    {
        match self {
            Doc::Array(items) => Some(items),
            _ => None,
        }
    }

    /// The items of an array, to be changed in place.
    pub fn as_array_mut(&mut self) -> (r: Option<&mut Vec<Doc>>)
        ensures
            match r {
                Some(items) => {
                    &&& old(self)@.items() == Some(items_of(items@))
                    &&& final(self)@ == Json::Array(items_of(final(items)@))
                },
                None => old(self)@.items() is None && final(self)@ == old(self)@,
            },
    {
        match self {
            Doc::Array(items) => Some(items),
            _ => None,
        }
    }

    /// The number, where the document is an integer in the range of `i64`.
    pub fn as_i64(&self) -> (r: Option<i64>)
        ensures
            r == self@.int64(),
    {
        match self {
            Doc::Num(n) => n.as_i64(),
            _ => None,
        }
    }

    /// The string member under a key.
    pub fn get_str(&self, key: &str) -> (r: Option<&str>)
        ensures
            match r {
                Some(s) => self@.text_member(key@) == Some(s@),
                None => self@.text_member(key@) is None,
            },
    {
        match self.get(key) {
            Some(v) => v.as_str(),
            None => None,
        }
    }

    /// The array member under a key.
    pub fn get_array(&self, key: &str) -> (r: Option<&Vec<Doc>>)
        ensures
            match r {
                Some(items) => self@.array_member(key@) == Some(items_of(items@)),
                None => self@.array_member(key@) is None,
            },
    {
        match self.get(key) {
            Some(v) => v.as_array(),
            None => None,
        }
    }

    /// The array member under a key, to be changed in place.
    pub fn get_array_mut(&mut self, key: &str) -> (r: Option<&mut Vec<Doc>>)
        ensures
            match r {
                Some(items) => {
                    &&& old(self)@.array_member(key@) == Some(items_of(items@))
                    &&& final(self)@ == old(self)@.with(
                        key@,
                        Json::Array(items_of(final(items)@)),
                    )
                },
                None => old(self)@.array_member(key@) is None && final(self)@ == old(self)@,
            },
    {
        if self.get_array(key).is_none() {
            return None;
        }
        match self.get_mut(key) {
            Some(v) => v.as_array_mut(),
            None => None,
        }
    }

    /// Sets a member of an object; any other document stays as it is.
    pub fn set(&mut self, key: &str, value: Doc)
        ensures
            final(self)@ == old(self)@.with(key@, value@),
    {
        if let Doc::Object(members) = self {
            let i: usize = member_position(members, key);
            let member: Member = Member { key: key.to_owned(), value };
            proof {
                let s = members@;
                if i < s.len() {
                    lemma_members_at(s, i as int, member);
                } else {
                    lemma_members_missing(s, member);
                }
            }
            if i < members.len() {
                members.set(i, member);
            } else {
                members.push(member);
            }
        }
    }

    /// Takes a member out of an object; any other document stays as it is.
    pub fn unset(&mut self, key: &str)
        ensures
            final(self)@ == old(self)@.without(key@),
    {
        if let Doc::Object(members) = self {
            let ghost before = members_of(members@).remove(key@);
            let mut i: usize = member_position(members, key);
            while i < members.len()
                invariant
                    members_of(members@).remove(key@) == before,
                    i <= members@.len(),
                    i < members@.len() ==> members@[i as int].key@ == key@,
                    i < members@.len() <==> members_of(members@).dom().contains(key@),
                decreases members.len(),
            {
                proof {
                    lemma_members_taken(members@, i as int);
                }
                members.remove(i);
                i = member_position(members, key);
            }
            assert(members_of(members@) =~= before);
        }
    }

    /// An object without members.
    pub fn new_object() -> (r: Doc)
        ensures
            r@ == empty_object(),
    {
        Doc::Object(Vec::new())
    }

    /// A string.
    pub fn new_str(s: &str) -> (r: Doc)
        ensures
            r@ == Json::Str(s@),
    {
        Doc::Str(s.to_owned())
    }

    /// An integer.
    pub fn new_int(n: i64) -> (r: Doc)
        ensures
            r@ == int_json(n),
            r@.int64() == Some(n),
            forall|j: i64| #[trigger] int_json(j) == r@ ==> j == n,
    {
        Doc::Num(number_from(n))
    }
}

impl Clone for Doc {
    fn clone(&self) -> (r: Doc)
        ensures
            r@ == self@,
        decreases self,
    {
        match self {
            Doc::Null => Doc::Null,
            Doc::Bool(b) => Doc::Bool(*b),
            Doc::Num(n) => Doc::Num(n.clone()),
            Doc::Str(s) => Doc::Str(s.clone()),
            Doc::Array(items) => {
                let mut out: Vec<Doc> = Vec::new();
                let mut i: usize = 0;
                while i < items.len()
                    invariant
                        i <= items@.len(),
                        *self == Doc::Array(*items),
                        out@.len() == i,
                        forall|j: int| 0 <= j < i ==> json_of(#[trigger] out@[j]) == json_of(items@[j]),
                    decreases items.len() - i,
                {
                    assert(decreases_to!(*self => self->Array_0));
                    assert(decreases_to!(self->Array_0 => self->Array_0@));
                    assert(decreases_to!(items@ => items@[i as int]));
                    out.push(items[i].clone());
                    i += 1;
                }
                assert(items_of(out@) =~= items_of(items@));
                Doc::Array(out)
            },
            Doc::Object(members) => {
                let mut out: Vec<Member> = Vec::new();
                let mut i: usize = 0;
                while i < members.len()
                    invariant
                        i <= members@.len(),
                        *self == Doc::Object(*members),
                        out@.len() == i,
                        forall|j: int|
                            0 <= j < i ==> (#[trigger] out@[j]).key@ == members@[j].key@
                                && json_of(out@[j].value) == json_of(members@[j].value),
                    decreases members.len() - i,
                {
                    assert(decreases_to!(*self => self->Object_0));
                    assert(decreases_to!(self->Object_0 => self->Object_0@));
                    assert(decreases_to!(members@ => members@[i as int]));
                    assert(decreases_to!(members@[i as int] => members@[i as int].value));
                    out.push(
                        Member { key: members[i].key.clone(), value: members[i].value.clone() },
                    );
                    i += 1;
                }
                proof {
                    lemma_members_same(out@, members@);
                }
                Doc::Object(out)
            },
        }
    }
}

/// Lists with the same keys and documents stand for the same mapping.
pub proof fn lemma_members_same(a: Seq<Member>, b: Seq<Member>)
    requires
        a.len() == b.len(),
        forall|j: int|
            0 <= j < a.len() ==> (#[trigger] a[j]).key@ == b[j].key@ && json_of(a[j].value)
                == json_of(b[j].value),
    ensures
        members_of(a) == members_of(b),
    decreases a.len(),
{
    if a.len() > 0 {
        let x = a.drop_first();
        let y = b.drop_first();
        assert forall|j: int| 0 <= j < x.len() implies (#[trigger] x[j]).key@ == y[j].key@ && json_of(
            x[j].value,
        ) == json_of(y[j].value) by {
            assert(x[j] == a[j + 1]);
        }
        lemma_members_same(x, y);
        assert(a[0].key@ == b[0].key@);
    }
}

/// The members of a list have finitely many keys.
pub proof fn lemma_members_finite(s: Seq<Member>)
    ensures
        members_of(s).dom().finite(),
    decreases s.len(),
{
    if s.len() > 0 {
        lemma_members_finite(s.drop_first());
    }
}

} // verus!

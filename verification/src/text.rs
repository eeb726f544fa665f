//! Text primitives: trimming, searching, splitting and comparing, stated over sequences of
//! characters.
use vstd::prelude::*;
use vstd::string::*;

verus! {

/// `String::push`: appends one character at the end of the string.
pub assume_specification[ String::push ](s: &mut String, c: char)
    ensures
        final(s)@ == old(s)@.push(c),
;

/// The texts of a list of strings.
pub open spec fn texts(s: Seq<String>) -> Seq<Seq<char>> {
    Seq::new(s.len(), |i: int| s[i]@)
}

// ---------------------------------------------------------------------------
// First match in a sequence
// ---------------------------------------------------------------------------

/// The position of the first element that satisfies `p`.
pub open spec fn first_index<T>(s: Seq<T>, p: spec_fn(T) -> bool) -> Option<int>
    decreases s.len(),
{
    if s.len() == 0 {
        None
    } else if p(s[0]) {
        Some(0)
    } else {
        match first_index(s.drop_first(), p) {
            Some(i) => Some(i + 1),
            None => None,
        }
    }
}

/// What `first_index` finds satisfies the predicate, and nothing before it does; where it finds
/// nothing, no element satisfies the predicate.
pub proof fn lemma_first_index<T>(s: Seq<T>, p: spec_fn(T) -> bool)
    ensures
        match first_index(s, p) {
            Some(i) => {
                &&& 0 <= i < s.len()
                &&& p(s[i])
                &&& forall|j: int| 0 <= j < i ==> !p(#[trigger] s[j])
            },
            None => forall|j: int| 0 <= j < s.len() ==> !p(#[trigger] s[j]),
        },
    decreases s.len(),
{
    if s.len() > 0 && !p(s[0]) {
        let t = s.drop_first();
        lemma_first_index(t, p);
        match first_index(t, p) {
            Some(i) => {
                assert forall|j: int| 0 <= j < i + 1 implies !p(#[trigger] s[j]) by {
                    if j > 0 {
                        assert(t[j - 1] == s[j]);
                    }
                }
            },
            None => {
                assert forall|j: int| 0 <= j < s.len() implies !p(#[trigger] s[j]) by {
                    if j > 0 {
                        assert(t[j - 1] == s[j]);
                    }
                }
            },
        }
    }
}

/// A position that satisfies the predicate, with none before it, is the first one.
pub proof fn lemma_first_index_found<T>(s: Seq<T>, p: spec_fn(T) -> bool, i: int)
    requires
        0 <= i < s.len(),
        p(s[i]),
        forall|j: int| 0 <= j < i ==> !p(#[trigger] s[j]),
    ensures
        first_index(s, p) == Some(i),
{
    lemma_first_index(s, p);
}

/// Where no element satisfies the predicate, nothing is found.
pub proof fn lemma_first_index_missing<T>(s: Seq<T>, p: spec_fn(T) -> bool)
    requires
        forall|j: int| 0 <= j < s.len() ==> !p(#[trigger] s[j]),
    ensures
        first_index(s, p) is None,
{
    lemma_first_index(s, p);
}

// ---------------------------------------------------------------------------
// Characters
// ---------------------------------------------------------------------------

/// The characters with the Unicode property White_Space.
pub open spec fn is_space(c: char) -> bool {
    ||| '\u{9}' <= c <= '\u{d}'
    ||| c == ' '
    ||| c == '\u{85}'
    ||| c == '\u{a0}'
    ||| c == '\u{1680}'
    ||| '\u{2000}' <= c <= '\u{200a}'
    ||| c == '\u{2028}'
    ||| c == '\u{2029}'
    ||| c == '\u{202f}'
    ||| c == '\u{205f}'
    ||| c == '\u{3000}'
}

/// Tells whether a character is white space.
pub fn is_white_space(c: char) -> (b: bool)
    ensures
        b == is_space(c),
{
    ('\u{9}' <= c && c <= '\u{d}') || c == ' ' || c == '\u{85}' || c == '\u{a0}' || c == '\u{1680}'
        || ('\u{2000}' <= c && c <= '\u{200a}') || c == '\u{2028}' || c == '\u{2029}' || c
        == '\u{202f}' || c == '\u{205f}' || c == '\u{3000}'
}

/// A set of characters to strip or to look for.
#[derive(Clone, Copy)]
pub enum CharSet {
    Space,
    One(char),
    Two(char, char),
    Three(char, char, char),
}

impl CharSet {
    /// Membership in the set.
    pub open spec fn has(self, c: char) -> bool {
        match self {
            CharSet::Space => is_space(c),
            CharSet::One(x) => c == x,
            CharSet::Two(x, y) => c == x || c == y,
            CharSet::Three(x, y, z) => c == x || c == y || c == z,
        }
    }

    /// Tells whether the set holds a character.
    pub fn contains(&self, c: char) -> (b: bool)
        ensures
            b == self.has(c),
    {
        match *self {
            CharSet::Space => is_white_space(c),
            CharSet::One(x) => c == x,
            CharSet::Two(x, y) => c == x || c == y,
            CharSet::Three(x, y, z) => c == x || c == y || c == z,
        }
    }
}

/// ASCII lower case of one character; every other character stays as it is.
pub open spec fn ascii_lower_char(c: char) -> char {
    if 'A' <= c <= 'Z' {
        (c as u8 + 32) as char
    } else {
        c
    }
}

/// ASCII lower case of a text.
pub open spec fn ascii_lower(s: Seq<char>) -> Seq<char> {
    Seq::new(s.len(), |i: int| ascii_lower_char(s[i]))
}

/// Equality up to the case of ASCII letters.
pub open spec fn same_ignoring_case(a: Seq<char>, b: Seq<char>) -> bool {
    ascii_lower(a) =~= ascii_lower(b)
}

/// Maps an ASCII capital letter to its small letter.
pub fn lower_char(c: char) -> (r: char)
    ensures
        r == ascii_lower_char(c),
{
    if 'A' <= c && c <= 'Z' {
        let small: u8 = c as u8 + 32;
        small as char
    } else {
        c
    }
}

// ---------------------------------------------------------------------------
// Conversions
// ---------------------------------------------------------------------------

/// The characters of a text, in order.
pub fn chars_of(s: &str) -> (r: Vec<char>)
    ensures
        r@ == s@,
{
    let mut out: Vec<char> = Vec::new();
    for c in it: s.chars()
        invariant
            out@ =~= s@.take(it.index() as int),
            it.seq() == s@,
    {
        out.push(c);
    }
    out
}

/// The text made of the characters `from..to` of a list.
pub fn string_from(chars: &Vec<char>, from: usize, to: usize) -> (r: String)
    requires
        from <= to <= chars@.len(),
    ensures
        r@ == chars@.subrange(from as int, to as int),
{
    let mut out: String = String::new();
    let mut i: usize = from;
    while i < to
        invariant
            from <= i <= to <= chars@.len(),
            out@ =~= chars@.subrange(from as int, i as int),
        decreases to - i,
    {
        out.push(chars[i]);
        i += 1;
    }
    out
}

/// Tells whether two texts are equal.
pub fn text_eq(a: &str, b: &str) -> (r: bool)
    ensures
        r == (a@ == b@),
{
    a.to_owned() == b.to_owned()
}

/// Tells whether two texts are equal up to the case of ASCII letters.
pub fn eq_ignore_ascii_case(a: &str, b: &str) -> (r: bool)
    ensures
        r == same_ignoring_case(a@, b@),
{
    let x: Vec<char> = chars_of(a);
    let y: Vec<char> = chars_of(b);
    if x.len() != y.len() {
        return false;
    }
    let mut i: usize = 0;
    while i < x.len()
        invariant
            i <= x@.len(),
            x@ == a@,
            y@ == b@,
            x@.len() == y@.len(),
            forall|j: int|
                0 <= j < i ==> ascii_lower_char(#[trigger] a@[j]) == ascii_lower_char(b@[j]),
        decreases x.len() - i,
    {
        if lower_char(x[i]) != lower_char(y[i]) {
            assert(ascii_lower(a@)[i as int] != ascii_lower(b@)[i as int]);
            return false;
        }
        i += 1;
    }
    true
}

// ---------------------------------------------------------------------------
// Stripping
// ---------------------------------------------------------------------------

/// The text without the longest prefix made of characters of the set.
pub open spec fn strip_front(s: Seq<char>, set: CharSet) -> Seq<char>
    decreases s.len(),
{
    if s.len() > 0 && set.has(s[0]) {
        strip_front(s.drop_first(), set)
    } else {
        s
    }
}

/// The text without the longest suffix made of characters of the set.
pub open spec fn strip_back(s: Seq<char>, set: CharSet) -> Seq<char>
    decreases s.len(),
{
    if s.len() > 0 && set.has(s.last()) {
        strip_back(s.drop_last(), set)
    } else {
        s
    }
}

/// The text without the characters of the set at both ends.
pub open spec fn strip(s: Seq<char>, set: CharSet) -> Seq<char> {
    strip_back(strip_front(s, set), set)
}

/// The text without white space at both ends.
pub open spec fn trimmed(s: Seq<char>) -> Seq<char> {
    strip(s, CharSet::Space)
}

/// Drops leading characters of the set.
pub fn trim_front<'a>(s: &'a str, set: CharSet) -> (r: &'a str)
    ensures
        r@ == strip_front(s@, set),
{
    let chars: Vec<char> = chars_of(s);
    let n: usize = chars.len();
    let mut i: usize = 0;
    assert(s@.skip(0) =~= s@);
    while i < n && set.contains(chars[i])
        invariant
            i <= n == chars@.len(),
            chars@ == s@,
            strip_front(s@, set) == strip_front(s@.skip(i as int), set),
        decreases n - i,
    {
        assert(s@.skip(i as int).drop_first() =~= s@.skip(i + 1));
        i += 1;
    }
    assert(s@.subrange(i as int, n as int) =~= s@.skip(i as int));
    s.substring_char(i, n)
}

/// Drops trailing characters of the set.
pub fn trim_back<'a>(s: &'a str, set: CharSet) -> (r: &'a str)
    ensures
        r@ == strip_back(s@, set),
{
    let chars: Vec<char> = chars_of(s);
    let n: usize = chars.len();
    let mut i: usize = n;
    assert(s@.take(n as int) =~= s@);
    while i > 0 && set.contains(chars[i - 1])
        invariant
            i <= n == chars@.len(),
            chars@ == s@,
            strip_back(s@, set) == strip_back(s@.take(i as int), set),
        decreases i,
    {
        assert(s@.take(i as int).drop_last() =~= s@.take(i - 1));
        i -= 1;
    }
    assert(s@.subrange(0, i as int) =~= s@.take(i as int));
    s.substring_char(0, i)
}

/// Drops the characters of the set at both ends.
pub fn trim_set<'a>(s: &'a str, set: CharSet) -> (r: &'a str)
    ensures
        r@ == strip(s@, set),
{
    trim_back(trim_front(s, set), set)
}

/// Drops white space at both ends.
pub fn trim<'a>(s: &'a str) -> (r: &'a str)
    ensures
        r@ == trimmed(s@),
{
    trim_set(s, CharSet::Space)
}

// ---------------------------------------------------------------------------
// Prefixes, suffixes and searching
// ---------------------------------------------------------------------------

/// `p` begins the text.
pub open spec fn begins_with(s: Seq<char>, p: Seq<char>) -> bool {
    p.len() <= s.len() && s.take(p.len() as int) =~= p
}

/// `p` ends the text.
pub open spec fn finishes_with(s: Seq<char>, p: Seq<char>) -> bool {
    p.len() <= s.len() && s.skip(s.len() - p.len()) =~= p
}

/// The position of the first occurrence of `p` in the text.
pub open spec fn find(s: Seq<char>, p: Seq<char>) -> Option<int>
    decreases s.len(),
{
    if begins_with(s, p) {
        Some(0)
    } else if s.len() == 0 {
        None
    } else {
        match find(s.drop_first(), p) {
            Some(i) => Some(i + 1),
            None => None,
        }
    }
}

/// An occurrence that is found lies in the text.
pub proof fn lemma_find_bounds(s: Seq<char>, p: Seq<char>)
    ensures
        find(s, p) matches Some(i) ==> 0 <= i && i + p.len() <= s.len() && s.subrange(
            i,
            i + p.len(),
        ) == p,
    decreases s.len(),
{
    if begins_with(s, p) {
        assert(s.subrange(0, p.len() as int) =~= s.take(p.len() as int));
    } else if s.len() > 0 {
        lemma_find_bounds(s.drop_first(), p);
        if let Some(i) = find(s.drop_first(), p) {
            assert(s.subrange(i + 1, i + 1 + p.len()) =~= s.drop_first().subrange(
                i,
                i + p.len(),
            ));
        }
    }
}

/// Tells whether `p` stands in the characters at position `at`.
fn occurs_at(chars: &Vec<char>, at: usize, p: &Vec<char>) -> (r: bool)
    requires
        at <= chars@.len(),
    ensures
        r == begins_with(chars@.skip(at as int), p@),
{
    let n: usize = chars.len();
    if n - at < p.len() {
        return false;
    }
    let mut i: usize = 0;
    while i < p.len()
        invariant
            i <= p@.len(),
            at + p@.len() <= n == chars@.len(),
            forall|j: int| 0 <= j < i ==> chars@[at + j] == #[trigger] p@[j],
        decreases p.len() - i,
    {
        if chars[at + i] != p[i] {
            assert(chars@.skip(at as int).take(p@.len() as int)[i as int] != p@[i as int]);
            return false;
        }
        i += 1;
    }
    assert(chars@.skip(at as int).take(p@.len() as int) =~= p@);
    true
}

/// Finds the first occurrence of `p`, as a position among the characters.
pub fn find_text(chars: &Vec<char>, p: &str) -> (r: Option<usize>)
    ensures
        match r {
            Some(i) => find(chars@, p@) == Some(i as int),
            None => find(chars@, p@) is None,
        },
{
    let pat: Vec<char> = chars_of(p);
    let mut i: usize = 0;
    assert(chars@.skip(0) =~= chars@);
    loop
        invariant
            i <= chars@.len(),
            pat@ == p@,
            match find(chars@.skip(i as int), p@) {
                Some(k) => find(chars@, p@) == Some(k + i),
                None => find(chars@, p@) is None,
            },
        decreases chars.len() - i,
    {
        if occurs_at(chars, i, &pat) {
            return Some(i);
        }
        if i == chars.len() {
            return None;
        }
        assert(chars@.skip(i as int).drop_first() =~= chars@.skip(i + 1));
        i += 1;
    }
}

/// Tells whether `p` occurs in the text.
pub fn contains_text(s: &str, p: &str) -> (r: bool)
    ensures
        r == (find(s@, p@) is Some),
{
    find_text(&chars_of(s), p).is_some()
}

/// Tells whether the text begins with `p`.
pub fn starts_with(s: &str, p: &str) -> (r: bool)
    ensures
        r == begins_with(s@, p@),
{
    let chars: Vec<char> = chars_of(s);
    assert(chars@.skip(0) =~= chars@);
    occurs_at(&chars, 0, &chars_of(p))
}

/// Tells whether the text ends with `p`.
pub fn ends_with(s: &str, p: &str) -> (r: bool)
    ensures
        r == finishes_with(s@, p@),
{
    let chars: Vec<char> = chars_of(s);
    let pat: Vec<char> = chars_of(p);
    if pat.len() > chars.len() {
        return false;
    }
    assert(chars@.skip(chars@.len() - pat@.len()).take(pat@.len() as int) =~= chars@.skip(
        chars@.len() - pat@.len(),
    ));
    occurs_at(&chars, chars.len() - pat.len(), &pat)
}

/// What follows the prefix `p`, where the text begins with it.
pub fn strip_prefix<'a>(s: &'a str, p: &str) -> (r: Option<&'a str>)
    ensures
        match r {
            Some(rest) => begins_with(s@, p@) && rest@ == s@.skip(p@.len() as int),
            None => !begins_with(s@, p@),
        },
{
    if starts_with(s, p) {
        let n: usize = s.unicode_len();
        let k: usize = p.unicode_len();
        assert(s@.subrange(k as int, n as int) =~= s@.skip(k as int));
        Some(s.substring_char(k, n))
    } else {
        None
    }
}

/// What precedes the suffix `p`, where the text ends with it.
pub fn strip_suffix<'a>(s: &'a str, p: &str) -> (r: Option<&'a str>)
    ensures
        match r {
            Some(rest) => finishes_with(s@, p@) && rest@ == s@.take(s@.len() - p@.len()),
            None => !finishes_with(s@, p@),
        },
{
    if ends_with(s, p) {
        let n: usize = s.unicode_len();
        let k: usize = p.unicode_len();
        assert(s@.subrange(0, n - k) =~= s@.take(n - k));
        Some(s.substring_char(0, n - k))
    } else {
        None
    }
}

// ---------------------------------------------------------------------------
// Replacing and splitting
// ---------------------------------------------------------------------------

/// The text with every character of the set replaced by `by`.
pub open spec fn replaced(s: Seq<char>, set: CharSet, by: Seq<char>) -> Seq<char>
    decreases s.len(),
{
    if s.len() == 0 {
        Seq::empty()
    } else {
        replaced(s.drop_last(), set, by) + if set.has(s.last()) {
            by
        } else {
            seq![s.last()]
        }
    }
}

/// Replaces every character of the set by `by`.
pub fn replace_set(s: &str, set: CharSet, by: &str) -> (r: String)
    ensures
        r@ == replaced(s@, set, by@),
{
    let chars: Vec<char> = chars_of(s);
    let mut out: String = String::new();
    let mut i: usize = 0;
    while i < chars.len()
        invariant
            i <= chars@.len(),
            chars@ == s@,
            out@ == replaced(s@.take(i as int), set, by@),
        decreases chars.len() - i,
    {
        proof {
            assert(s@.take(i + 1).drop_last() =~= s@.take(i as int));
        }
        if set.contains(chars[i]) {
            out.append(by);
        } else {
            out.push(chars[i]);
            assert(out@ =~= replaced(s@.take(i as int), set, by@) + seq![chars@[i as int]]);
        }
        i += 1;
    }
    assert(s@.take(i as int) =~= s@);
    out
}

/// The predicate of being the character `c`.
pub open spec fn is_char(c: char) -> spec_fn(char) -> bool {
    |x: char| x == c
}

/// The parts of a text between the occurrences of the separator.
pub open spec fn split(s: Seq<char>, sep: char) -> Seq<Seq<char>>
    decreases s.len(),
    via split_decreases
{
    match first_index(s, is_char(sep)) {
        Some(i) => seq![s.take(i)] + split(s.skip(i + 1), sep),
        None => seq![s],
    }
}

#[via_fn]
proof fn split_decreases(s: Seq<char>, sep: char) {
    lemma_first_index(s, is_char(sep));
}

/// Splits a text at every occurrence of the separator.
pub fn split_text(s: &str, sep: char) -> (r: Vec<String>)
    ensures
        texts(r@) == split(s@, sep),
{
    let chars: Vec<char> = chars_of(s);
    let mut parts: Vec<String> = Vec::new();
    let mut cur: String = String::new();
    let mut i: usize = 0;
    assert(cur@ + s@.skip(0) =~= s@);
    assert(texts(parts@) + split(s@, sep) =~= split(s@, sep));
    while i < chars.len()
        invariant
            i <= chars@.len(),
            chars@ == s@,
            forall|j: int| 0 <= j < cur@.len() ==> cur@[j] != sep,
            texts(parts@) + split(cur@ + s@.skip(i as int), sep) == split(s@, sep),
        decreases chars.len() - i,
    {
        let ghost whole = cur@ + s@.skip(i as int);
        let ghost before = texts(parts@);
        if chars[i] == sep {
            proof {
                lemma_first_index_found(whole, is_char(sep), cur@.len() as int);
                assert(whole.take(cur@.len() as int) =~= cur@);
                assert(whole.skip((cur@.len() + 1) as int) =~= s@.skip(i + 1));
                assert(Seq::<char>::empty() + s@.skip(i + 1) =~= s@.skip(i + 1));
            }
            let ghost piece = cur@;
            parts.push(cur);
            cur = String::new();
            assert(texts(parts@) =~= before.push(piece));
            assert(texts(parts@) + split(s@.skip(i + 1), sep) =~= before + (seq![piece] + split(
                s@.skip(i + 1),
                sep,
            )));
        } else {
            cur.push(chars[i]);
            assert(cur@ + s@.skip(i + 1) =~= whole);
        }
        i += 1;
    }
    proof {
        assert(cur@ + s@.skip(i as int) =~= cur@);
        lemma_first_index_missing(cur@, is_char(sep));
    }
    let ghost before = texts(parts@);
    let ghost piece = cur@;
    parts.push(cur);
    assert(texts(parts@) =~= before + seq![piece]);
    parts
}

// ---------------------------------------------------------------------------
// Byte offsets
// ---------------------------------------------------------------------------

/// The number of bytes of a character in UTF-8.
pub open spec fn char_width(c: char) -> nat {
    if c <= '\u{7f}' {
        1
    } else if c <= '\u{7ff}' {
        2
    } else if c <= '\u{ffff}' {
        3
    } else {
        4
    }
}

/// The number of bytes of a text in UTF-8.
pub open spec fn byte_len(s: Seq<char>) -> nat
    decreases s.len(),
{
    if s.len() == 0 {
        0
    } else {
        byte_len(s.drop_last()) + char_width(s.last())
    }
}

/// The text from byte offset `at` on, where a character begins or the text ends there.
pub open spec fn from_byte(s: Seq<char>, at: int) -> Option<Seq<char>>
    decreases s.len(),
{
    if at == 0 {
        Some(s)
    } else if s.len() == 0 || at < char_width(s[0]) {
        None
    } else {
        from_byte(s.drop_first(), at - char_width(s[0]))
    }
}

/// The number of bytes of a character in UTF-8.
pub fn width_of(c: char) -> (w: u128)
    ensures
        w == char_width(c),
        1 <= w <= 4,
{
    if c <= '\u{7f}' {
        1
    } else if c <= '\u{7ff}' {
        2
    } else if c <= '\u{ffff}' {
        3
    } else {
        4
    }
}

/// The byte offset of the character at position `to`.
pub fn byte_offset(chars: &Vec<char>, to: usize) -> (r: u128)
    requires
        to <= chars@.len(),
    ensures
        r == byte_len(chars@.take(to as int)),
        r <= 4 * to,
{
    let mut sum: u128 = 0;
    let mut i: usize = 0;
    while i < to
        invariant
            i <= to <= chars@.len(),
            sum == byte_len(chars@.take(i as int)),
            sum <= 4 * i,
        decreases to - i,
    {
        assert(chars@.take(i + 1).drop_last() =~= chars@.take(i as int));
        sum = sum + width_of(chars[i]);
        i += 1;
    }
    sum
}

/// The position among the characters of the byte offset `at`, where it is a boundary.
pub fn position_of_byte(chars: &Vec<char>, at: u128) -> (r: Option<usize>)
    ensures
        match r {
            Some(i) => i <= chars@.len() && from_byte(chars@, at as int) == Some(
                chars@.skip(i as int),
            ),
            None => from_byte(chars@, at as int) is None,
        },
{
    let mut rest: u128 = at;
    let mut i: usize = 0;
    assert(chars@.skip(0) =~= chars@);
    while rest > 0
        invariant
            i <= chars@.len(),
            from_byte(chars@, at as int) == from_byte(chars@.skip(i as int), rest as int),
        decreases rest,
    {
        if i == chars.len() {
            return None;
        }
        let w: u128 = width_of(chars[i]);
        if rest < w {
            return None;
        }
        assert(chars@.skip(i as int).drop_first() =~= chars@.skip(i + 1));
        rest = rest - w;
        i += 1;
    }
    Some(i)
}

/// Parts with a separator between them.
pub open spec fn joined_by(parts: Seq<Seq<char>>, sep: char) -> Seq<char>
    decreases parts.len(),
{
    if parts.len() == 0 {
        Seq::empty()
    } else if parts.len() == 1 {
        parts[0]
    } else {
        parts[0] + seq![sep] + joined_by(parts.drop_first(), sep)
    }
}

/// Splitting at the separator gives back parts that do not hold it.
pub proof fn lemma_split_joined(parts: Seq<Seq<char>>, sep: char)
    requires
        parts.len() > 0,
        forall|i: int| 0 <= i < parts.len() ==> !(#[trigger] parts[i]).contains(sep),
    ensures
        split(joined_by(parts, sep), sep) == parts,
    decreases parts.len(),
{
    let s = joined_by(parts, sep);
    let a = parts[0];
    if parts.len() == 1 {
        assert forall|j: int| 0 <= j < s.len() implies !is_char(sep)(#[trigger] s[j]) by {
            assert(a.contains(a[j]));
        }
        lemma_first_index_missing(s, is_char(sep));
        assert(seq![s] =~= parts);
    } else {
        let rest = parts.drop_first();
        assert forall|i: int| 0 <= i < rest.len() implies !(#[trigger] rest[i]).contains(sep) by {
            assert(rest[i] == parts[i + 1]);
        }
        lemma_split_joined(rest, sep);
        let n = a.len() as int;
        assert forall|j: int| 0 <= j < n implies !is_char(sep)(#[trigger] s[j]) by {
            assert(s[j] == a[j]);
            assert(a.contains(a[j]));
        }
        assert(s[n] == sep);
        lemma_first_index_found(s, is_char(sep), n);
        assert(s.take(n) =~= a);
        assert(s.skip(n + 1) =~= joined_by(rest, sep));
        assert(seq![a] + rest =~= parts);
    }
}

/// The ends of joined parts are the ends of the first and the last one.
pub proof fn lemma_joined_ends(parts: Seq<Seq<char>>, sep: char)
    requires
        parts.len() > 0,
        forall|i: int| 0 <= i < parts.len() ==> (#[trigger] parts[i]).len() > 0,
    ensures
        joined_by(parts, sep).len() > 0,
        joined_by(parts, sep)[0] == parts[0][0],
        joined_by(parts, sep).last() == parts.last().last(),
    decreases parts.len(),
{
    if parts.len() > 1 {
        let rest = parts.drop_first();
        assert forall|i: int| 0 <= i < rest.len() implies (#[trigger] rest[i]).len() > 0 by {
            assert(rest[i] == parts[i + 1]);
        }
        assert(parts[0].len() > 0);
        lemma_joined_ends(rest, sep);
        assert(rest.last() == parts.last());
    }
}

/// A character is in joined parts only if it is the separator or in a part.
pub proof fn lemma_joined_without(parts: Seq<Seq<char>>, sep: char, c: char)
    requires
        c != sep,
        forall|i: int| 0 <= i < parts.len() ==> !(#[trigger] parts[i]).contains(c),
    ensures
        !joined_by(parts, sep).contains(c),
    decreases parts.len(),
{
    if parts.len() > 0 {
        assert(!parts[0].contains(c));
    }
    if parts.len() > 1 {
        let rest = parts.drop_first();
        assert forall|i: int| 0 <= i < rest.len() implies !(#[trigger] rest[i]).contains(c) by {
            assert(rest[i] == parts[i + 1]);
        }
        lemma_joined_without(rest, sep, c);
        let a = parts[0];
        let r = joined_by(rest, sep);
        let s = joined_by(parts, sep);
        if s.contains(c) {
            let j = choose|j: int| 0 <= j < s.len() && s[j] == c;
            if j < a.len() {
                assert(a[j] == c);
            } else if j > a.len() {
                assert(r[j - a.len() - 1] == c);
            }
        }
    }
}

/// A text without characters of the set has none to be replaced.
pub proof fn lemma_replaced_none(s: Seq<char>, set: CharSet, by: Seq<char>)
    requires
        forall|i: int| 0 <= i < s.len() ==> !set.has(#[trigger] s[i]),
    ensures
        replaced(s, set, by) == s,
    decreases s.len(),
{
    if s.len() > 0 {
        let t = s.drop_last();
        assert forall|i: int| 0 <= i < t.len() implies !set.has(#[trigger] t[i]) by {
            assert(t[i] == s[i]);
        }
        lemma_replaced_none(t, set, by);
        assert(!set.has(s[s.len() - 1]));
        assert(t + seq![s.last()] =~= s);
    } else {
        assert(replaced(s, set, by) =~= s);
    }
}

/// The model of a text that may be missing.
pub open spec fn maybe(s: Option<&str>) -> Option<Seq<char>> {
    match s {
        Some(t) => Some(t@),
        None => None,
    }
}

/// A part of a list of texts.
pub fn copy_part(s: &[String], from: usize, to: usize) -> (r: Vec<String>)
    requires
        from <= to <= s@.len(),
    ensures
        texts(r@) == texts(s@).subrange(from as int, to as int),
{
    let ghost all = texts(s@);
    let mut out: Vec<String> = Vec::new();
    let mut i: usize = from;
    assert(texts(out@) =~= all.subrange(from as int, from as int));
    while i < to
        invariant
            from <= i <= to <= s@.len(),
            all == texts(s@),
            texts(out@) == all.subrange(from as int, i as int),
        decreases to - i,
    {
        let ghost before = texts(out@);
        out.push(s[i].clone());
        proof {
            assert(texts(out@) =~= before.push(all[i as int]));
            assert(all.subrange(from as int, i + 1) =~= before.push(all[i as int]));
        }
        i += 1;
    }
    out
}

/// Stripping keeps a stretch of the text.
proof fn lemma_strip_front_sub(s: Seq<char>, set: CharSet)
    ensures
        strip_front(s, set).len() <= s.len(),
        strip_front(s, set) == s.skip(s.len() - strip_front(s, set).len()),
        strip_front(s, set).len() > 0 ==> !set.has(strip_front(s, set)[0]),
    decreases s.len(),
{
    if s.len() > 0 && set.has(s[0]) {
        lemma_strip_front_sub(s.drop_first(), set);
        let k = strip_front(s, set).len();
        assert(s.drop_first().skip(s.len() - 1 - k) =~= s.skip(s.len() - k));
    } else {
        assert(s.skip(0) =~= s);
    }
}

proof fn lemma_strip_back_sub(s: Seq<char>, set: CharSet)
    ensures
        strip_back(s, set).len() <= s.len(),
        strip_back(s, set) == s.take(strip_back(s, set).len() as int),
        strip_back(s, set).len() > 0 ==> !set.has(strip_back(s, set).last()),
    decreases s.len(),
{
    if s.len() > 0 && set.has(s.last()) {
        lemma_strip_back_sub(s.drop_last(), set);
        let k = strip_back(s, set).len();
        assert(s.drop_last().take(k as int) =~= s.take(k as int));
    } else {
        assert(s.take(s.len() as int) =~= s);
    }
}

/// A stripped text is a stretch of the text, and neither its first nor its last character is in
/// the set.
pub proof fn lemma_strip(s: Seq<char>, set: CharSet)
    ensures
        exists|a: int, b: int|
            0 <= a <= b <= s.len() && #[trigger] s.subrange(a, b) == strip(s, set),
        strip(s, set).len() > 0 ==> !set.has(strip(s, set)[0]) && !set.has(
            strip(s, set).last(),
        ),
{
    let f = strip_front(s, set);
    lemma_strip_front_sub(s, set);
    lemma_strip_back_sub(f, set);
    let r = strip(s, set);
    let a = s.len() - f.len();
    assert(s.subrange(a, a + r.len()) =~= r);
    if r.len() > 0 {
        assert(r[0] == f[0]);
    }
}

/// A text that neither begins nor ends with a character of the set is left alone.
pub proof fn lemma_strip_keeps(s: Seq<char>, set: CharSet)
    requires
        s.len() > 0 ==> !set.has(s[0]) && !set.has(s.last()),
    ensures
        strip(s, set) == s,
{
}

// ---------------------------------------------------------------------------
// Order
// ---------------------------------------------------------------------------

/// The first text stands before the second one, character by character.
pub open spec fn less(a: Seq<char>, b: Seq<char>) -> bool
    decreases a.len(),
{
    if b.len() == 0 {
        false
    } else if a.len() == 0 {
        true
    } else {
        a[0] < b[0] || (a[0] == b[0] && less(a.drop_first(), b.drop_first()))
    }
}

/// No text stands before one on its left.
pub open spec fn is_sorted(s: Seq<Seq<char>>) -> bool {
    forall|i: int, j: int| 0 <= i < j < s.len() ==> !less(#[trigger] s[j], #[trigger] s[i])
}

/// An ordered list with a text put in behind all that do not stand after it.
pub open spec fn sorted_in(s: Seq<Seq<char>>, x: Seq<char>) -> Seq<Seq<char>>
    decreases s.len(),
{
    if s.len() > 0 && less(x, s.last()) {
        sorted_in(s.drop_last(), x).push(s.last())
    } else {
        s.push(x)
    }
}

/// Tells whether the first text stands before the second one.
pub fn text_less(a: &str, b: &str) -> (r: bool)
    ensures
        r == less(a@, b@),
{
    let x: Vec<char> = chars_of(a);
    let y: Vec<char> = chars_of(b);
    let mut i: usize = 0;
    assert(a@.skip(0) =~= a@);
    assert(b@.skip(0) =~= b@);
    while i < x.len() && i < y.len() && x[i] == y[i]
        invariant
            i <= x@.len(),
            i <= y@.len(),
            x@ == a@,
            y@ == b@,
            less(a@, b@) == less(a@.skip(i as int), b@.skip(i as int)),
        decreases x.len() - i,
    {
        proof {
            assert(a@.skip(i as int).drop_first() =~= a@.skip(i + 1));
            assert(b@.skip(i as int).drop_first() =~= b@.skip(i + 1));
        }
        i += 1;
    }
    if i == y.len() {
        false
    } else if i == x.len() {
        true
    } else {
        x[i] < y[i]
    }
}

/// No text stands before itself, and the order is one-way.
pub proof fn lemma_less_one_way(a: Seq<char>, b: Seq<char>)
    ensures
        less(a, b) ==> !less(b, a),
    decreases a.len(),
{
    if a.len() > 0 && b.len() > 0 {
        lemma_less_one_way(a.drop_first(), b.drop_first());
    }
}

/// The order goes over from text to text.
pub proof fn lemma_less_goes_over(a: Seq<char>, b: Seq<char>, c: Seq<char>)
    ensures
        less(a, b) && !less(c, b) ==> less(a, c),
        !less(b, a) && !less(c, b) ==> !less(c, a),
    decreases a.len() + b.len() + c.len(),
{
    if a.len() > 0 && b.len() > 0 && c.len() > 0 {
        lemma_less_goes_over(a.drop_first(), b.drop_first(), c.drop_first());
    }
}

/// Membership after a push.
pub proof fn lemma_push_contains<T>(s: Seq<T>, x: T, y: T)
    ensures
        s.push(x).contains(y) <==> (s.contains(y) || y == x),
{
    if s.contains(y) {
        let i = choose|i: int| 0 <= i < s.len() && s[i] == y;
        assert(s.push(x)[i] == y);
    }
    if y == x {
        assert(s.push(x)[s.len() as int] == y);
    }
}

/// Putting a text into an ordered list keeps the order and adds just that text.
pub proof fn lemma_sorted_in(s: Seq<Seq<char>>, x: Seq<char>)
    requires
        is_sorted(s),
    ensures
        is_sorted(sorted_in(s, x)),
        sorted_in(s, x).len() == s.len() + 1,
        forall|y: Seq<char>| #[trigger]
            sorted_in(s, x).contains(y) <==> (s.contains(y) || y == x),
    decreases s.len(),
{
    let t = sorted_in(s, x);
    if s.len() > 0 && less(x, s.last()) {
        let rest = sorted_in(s.drop_last(), x);
        assert(is_sorted(s.drop_last()));
        lemma_sorted_in(s.drop_last(), x);
        assert(s =~= s.drop_last().push(s.last()));
        assert forall|y: Seq<char>| #[trigger] t.contains(y) <==> (s.contains(y) || y == x) by {
            lemma_push_contains(rest, s.last(), y);
            lemma_push_contains(s.drop_last(), s.last(), y);
        }
        assert forall|i: int, j: int| 0 <= i < j < t.len() implies !less(
            #[trigger] t[j],
            #[trigger] t[i],
        ) by {
            if j < t.len() - 1 {
                assert(rest[i] == t[i] && rest[j] == t[j]);
            } else {
                assert(rest[i] == t[i]);
                assert(rest.contains(t[i]));
                if t[i] == x {
                    lemma_less_one_way(x, s.last());
                } else {
                    let k = choose|k: int| 0 <= k < s.drop_last().len() && s.drop_last()[k] == t[i];
                    assert(s[k] == t[i]);
                }
            }
        }
    } else {
        assert forall|y: Seq<char>| #[trigger] t.contains(y) <==> (s.contains(y) || y == x) by {
            lemma_push_contains(s, x, y);
        }
        assert forall|i: int, j: int| 0 <= i < j < t.len() implies !less(
            #[trigger] t[j],
            #[trigger] t[i],
        ) by {
            if j == t.len() - 1 {
                assert(t[i] == s[i]);
                if i < s.len() - 1 {
                    assert(!less(s[s.len() - 1], s[i]));
                }
                lemma_less_goes_over(s[i], s.last(), x);
            } else {
                assert(s[i] == t[i] && s[j] == t[j]);
            }
        }
    }
}

/// Replacing goes character by character: each one of the set is replaced, and every other one
/// stays.
pub proof fn law_replacing_goes_one_by_one(s: Seq<char>, c: char, set: CharSet, by: Seq<char>)
    ensures
        replaced(Seq::empty(), set, by).len() == 0,
        set.has(c) ==> replaced(s.push(c), set, by) == replaced(s, set, by) + by,
        !set.has(c) ==> replaced(s.push(c), set, by) == replaced(s, set, by).push(c),
{
    assert(s.push(c).drop_last() =~= s);
    assert(replaced(s, set, by) + seq![c] =~= replaced(s, set, by).push(c));
}

/// Only ASCII letters have a case: two characters are the same but for their case exactly if they
/// are the same, or one is a capital letter and the other its small letter.
pub proof fn law_only_ascii_letters_have_a_case(c: char, d: char)
    ensures
        same_ignoring_case(seq![c], seq![d]) <==> c == d || ('A' <= c <= 'Z' && d as u32 == c as u32
            + 32) || ('A' <= d <= 'Z' && c as u32 == d as u32 + 32),
{
    let a = ascii_lower(seq![c]);
    let b = ascii_lower(seq![d]);
    assert(a[0] == ascii_lower_char(c) && b[0] == ascii_lower_char(d));
    if ascii_lower_char(c) == ascii_lower_char(d) {
        assert(a =~= b);
    }
}

/// Texts that are the same but for their case are so character by character.
pub proof fn law_case_is_ignored_one_by_one(a: Seq<char>, b: Seq<char>)
    ensures
        same_ignoring_case(a, b) <==> a.len() == b.len() && forall|i: int|
            0 <= i < a.len() ==> same_ignoring_case(seq![#[trigger] a[i]], seq![b[i]]),
{
    let x = ascii_lower(a);
    let y = ascii_lower(b);
    if same_ignoring_case(a, b) {
        assert(x.len() == y.len());
        assert forall|i: int| 0 <= i < a.len() implies same_ignoring_case(
            seq![#[trigger] a[i]],
            seq![b[i]],
        ) by {
            assert(x[i] == y[i]);
            assert(ascii_lower(seq![a[i]]) =~= ascii_lower(seq![b[i]]));
        }
    }
    if a.len() == b.len() && forall|i: int|
        0 <= i < a.len() ==> same_ignoring_case(seq![#[trigger] a[i]], seq![b[i]]) {
        assert forall|i: int| 0 <= i < x.len() implies x[i] == y[i] by {
            assert(same_ignoring_case(seq![a[i]], seq![b[i]]));
            assert(ascii_lower(seq![a[i]])[0] == ascii_lower(seq![b[i]])[0]);
        }
        assert(x =~= y);
    }
}

/// White space around a text does not matter to what is left of it, and is all that is lost.
pub proof fn law_only_white_space_is_trimmed(s: Seq<char>, c: char)
    ensures
        is_space(c) ==> trimmed(seq![c] + s) == trimmed(s),
        is_space(c) ==> trimmed(s.push(c)) == trimmed(s),
        s.len() > 0 && !is_space(s[0]) && !is_space(s.last()) ==> trimmed(s) == s,
{
    if is_space(c) {
        assert((seq![c] + s).drop_first() =~= s);
        lemma_trailing_space(s, c);
    }
}

/// A space behind a text is trimmed.
proof fn lemma_trailing_space(s: Seq<char>, c: char)
    requires
        is_space(c),
    ensures
        trimmed(s.push(c)) == trimmed(s),
    decreases s.len(),
{
    let t = s.push(c);
    if s.len() > 0 && is_space(s[0]) {
        assert(t.drop_first() =~= s.drop_first().push(c));
        assert(t[0] == s[0]);
        lemma_trailing_space(s.drop_first(), c);
    } else if s.len() > 0 {
        assert(t[0] == s[0]);
        assert(strip_front(t, CharSet::Space) == t);
        assert(strip_front(s, CharSet::Space) == s);
        assert(t.drop_last() =~= s);
    } else {
        assert(t.drop_first() =~= Seq::<char>::empty());
        assert(strip_front(t, CharSet::Space) == strip_front(t.drop_first(), CharSet::Space));
        assert(s =~= Seq::<char>::empty());
    }
}

/// Texts are ordered by the first character in which they differ; a text stands behind what it
/// begins with.
pub proof fn law_first_difference_decides(
    p: Seq<char>,
    a: char,
    x: Seq<char>,
    b: char,
    y: Seq<char>,
)
    requires
        a != b,
    ensures
        less(p + seq![a] + x, p + seq![b] + y) <==> a < b,
        less(p, p + seq![a] + x),
        !less(p + seq![a] + x, p),
    decreases p.len(),
{
    let s = p + seq![a] + x;
    let t = p + seq![b] + y;
    if p.len() > 0 {
        law_first_difference_decides(p.drop_first(), a, x, b, y);
        assert(s.drop_first() =~= p.drop_first() + seq![a] + x);
        assert(t.drop_first() =~= p.drop_first() + seq![b] + y);
        assert(s[0] == p[0] && t[0] == p[0]);
    } else {
        assert(s[0] == a && t[0] == b);
    }
}

} // verus!

//! Virtual paths: `aux://S_auxbookmark/<browser>/<folder>/.../<item>`.
use crate::text;
use crate::text::{
    byte_offset, chars_of, find_text, position_of_byte, replace_set, split_text, string_from, trim,
    trim_back, trim_front, trim_set, CharSet,
};
use vstd::prelude::*;
use vstd::string::*;

verus! {

/// What `str::to_lowercase` returns.
pub uninterp spec fn lowercase(s: Seq<char>) -> Seq<char>;

/// `str::to_lowercase`: the lower case of a text by the Unicode property. Of a text in ASCII it
/// is the text with the capital letters made small, and so begins that of any text that begins in
/// ASCII; of what follows it is only named.
#[verifier::external_body]
pub(crate) fn to_lowercase(s: &str) -> (r: String)
    ensures
        r@ == lowercase(s@),
        vstd::utf8::is_ascii_chars(s@) ==> r@ == text::ascii_lower(s@),
        forall|k: int|
            0 <= k <= s@.len() && vstd::utf8::is_ascii_chars(#[trigger] s@.take(k)) ==> k <= r@.len()
                && r@.take(k) == text::ascii_lower(s@.take(k)),
{
    s.to_lowercase()
}

// ---------------------------------------------------------------------------
// The model
// ---------------------------------------------------------------------------

/// The path without white space and quotes around it, with every backslash a slash.
pub open spec fn normalized(raw: Seq<char>) -> Seq<char> {
    text::replaced(
        text::strip(
            text::strip(text::trimmed(raw), CharSet::One('"')),
            CharSet::One('\''),
        ),
        CharSet::One('\\'),
        "/"@,
    )
}

/// The scheme prefixes, in the order in which they are looked for.
pub open spec fn scheme(i: int) -> Seq<char> {
    if i == 0 {
        "aux://s_auxbookmark/"@
    } else if i == 1 {
        "aux:/s_auxbookmark/"@
    } else if i == 2 {
        "aux:s_auxbookmark/"@
    } else if i == 3 {
        "aux://s_bookmark/"@
    } else if i == 4 {
        "aux:/s_bookmark/"@
    } else {
        "aux:s_bookmark/"@
    }
}

/// The first scheme prefix, from number `i` on, that occurs in the lower-case path.
pub open spec fn scheme_found(lower: Seq<char>, i: int) -> Option<int>
    decreases 6 - i,
{
    if i < 0 || i >= 6 {
        None
    } else if text::find(lower, scheme(i)) is Some {
        Some(i)
    } else {
        scheme_found(lower, i + 1)
    }
}

/// What follows the first slash, or nothing where there is none.
pub open spec fn after_slash(s: Seq<char>) -> Seq<char> {
    match text::find(s, "/"@) {
        Some(i) => s.skip(i + 1),
        None => Seq::empty(),
    }
}

/// The path from the end of an occurrence of `p` in its lower case. The place is counted in bytes
/// of the lower case; there is no rest where the path has no character boundary there.
pub open spec fn after_occurrence(s: Seq<char>, lower: Seq<char>, p: Seq<char>) -> Option<
    Seq<char>,
> {
    text::from_byte(
        s,
        text::byte_len(lower.take(text::find(lower, p)->0)) as int + text::byte_len(p),
    )
}

/// The path without its scheme, given its lower case.
pub open spec fn without_scheme(s: Seq<char>, lower: Seq<char>) -> Option<Seq<char>> {
    match scheme_found(lower, 0) {
        Some(i) => after_occurrence(s, lower, scheme(i)),
        None => if text::find(lower, "aux://"@) is Some {
            match after_occurrence(s, lower, "aux://"@) {
                Some(rest) => Some(after_slash(rest)),
                None => None,
            }
        } else if text::find(lower, "aux:"@) is Some {
            match after_occurrence(s, lower, "aux:"@) {
                Some(rest) => Some(after_slash(rest)),
                None => None,
            }
        } else {
            Some(s)
        },
    }
}

/// The parts of a list, trimmed, without the empty ones.
pub open spec fn kept_parts(parts: Seq<Seq<char>>) -> Seq<Seq<char>>
    decreases parts.len(),
{
    if parts.len() == 0 {
        Seq::empty()
    } else {
        let head = kept_parts(parts.drop_last());
        let part = text::trimmed(parts.last());
        if part.len() == 0 {
            head
        } else {
            head.push(part)
        }
    }
}

/// The segments of a path without a scheme.
pub open spec fn plain_segments(s: Seq<char>) -> Seq<Seq<char>> {
    kept_parts(text::split(text::strip(s, CharSet::One('/')), '/'))
}

/// The segments of a normalized path, given its lower case; none where the scheme ends inside a
/// character.
pub open spec fn segments_given(s: Seq<char>, lower: Seq<char>) -> Option<Seq<Seq<char>>> {
    match without_scheme(s, lower) {
        Some(rest) => Some(plain_segments(rest)),
        None => None,
    }
}

/// The segments of a path.
pub open spec fn segments_of(raw: Seq<char>) -> Option<Seq<Seq<char>>> {
    segments_given(normalized(raw), lowercase(normalized(raw)))
}

// ---------------------------------------------------------------------------
// Reading paths
// ---------------------------------------------------------------------------

/// Strips white space and quotes and turns backslashes into slashes.
pub fn normalize(raw: &str) -> (r: String)
    ensures
        r@ == normalized(raw@),
{
    replace_set(
        trim_set(trim_set(trim(raw), CharSet::One('"')), CharSet::One('\'')),
        CharSet::One('\\'),
        "/",
    )
}

/// The scheme prefix of a number.
fn scheme_text(i: usize) -> (r: &'static str)
    ensures
        r@ == scheme(i as int),
{
    if i == 0 {
        "aux://s_auxbookmark/"
    } else if i == 1 {
        "aux:/s_auxbookmark/"
    } else if i == 2 {
        "aux:s_auxbookmark/"
    } else if i == 3 {
        "aux://s_bookmark/"
    } else if i == 4 {
        "aux:/s_bookmark/"
    } else {
        "aux:s_bookmark/"
    }
}

/// The place in the path where an occurrence of `p` in its lower case ends.
fn place_after(chars: &Vec<char>, lower: &Vec<char>, at: usize, p: &str) -> (r: Option<usize>)
    requires
        text::find(lower@, p@) == Some(at as int),
    ensures
        match r {
            Some(i) => i <= chars@.len() && after_occurrence(chars@, lower@, p@) == Some(
                chars@.skip(i as int),
            ),
            None => after_occurrence(chars@, lower@, p@) is None,
        },
{
    proof {
        text::lemma_find_bounds(lower@, p@);
    }
    let pat: Vec<char> = chars_of(p);
    assert(pat@.take(pat@.len() as int) =~= pat@);
    let offset: u128 = byte_offset(lower, at) + byte_offset(&pat, pat.len());
    position_of_byte(chars, offset)
}

/// What follows the first slash from a place on, or the end.
fn place_after_slash(chars: &Vec<char>, from: usize) -> (r: usize)
    requires
        from <= chars@.len(),
    ensures
        r <= chars@.len(),
        chars@.skip(r as int) == after_slash(chars@.skip(from as int)),
{
    proof {
        reveal_strlit("/");
    }
    let tail: String = string_from(chars, from, chars.len());
    assert(chars@.subrange(from as int, chars@.len() as int) =~= chars@.skip(from as int));
    match find_text(&chars_of(tail.as_str()), "/") {
        Some(i) => {
            proof {
                text::lemma_find_bounds(tail@, "/"@);
                assert(tail@.skip(i + 1) =~= chars@.skip(from + i + 1));
            }
            from + i + 1
        },
        None => {
            assert(chars@.skip(chars@.len() as int) =~= Seq::empty());
            chars.len()
        },
    }
}

/// The path without its scheme, given its lower case; `None` where the scheme ends inside a
/// character of the path.
fn strip_scheme(s: &str, lower: &str) -> (r: Option<String>)
    ensures
        match r {
            Some(rest) => without_scheme(s@, lower@) == Some(rest@),
            None => without_scheme(s@, lower@) is None,
        },
{
    let chars: Vec<char> = chars_of(s);
    let low: Vec<char> = chars_of(lower);
    let n: usize = chars.len();
    let mut i: usize = 0;
    while i < 6
        invariant
            i <= 6,
            n == chars@.len(),
            chars@ == s@,
            low@ == lower@,
            scheme_found(lower@, 0) == scheme_found(lower@, i as int),
        decreases 6 - i,
    {
        let prefix: &str = scheme_text(i);
        if let Some(at) = find_text(&low, prefix) {
            return match place_after(&chars, &low, at, prefix) {
                Some(from) => {
                    assert(s@.subrange(from as int, n as int) =~= s@.skip(from as int));
                    Some(string_from(&chars, from, n))
                },
                None => None,
            };
        }
        i += 1;
    }
    let generic: Option<(usize, &str)> = match find_text(&low, "aux://") {
        Some(at) => Some((at, "aux://")),
        None => match find_text(&low, "aux:") {
            Some(at) => Some((at, "aux:")),
            None => None,
        },
    };
    match generic {
        Some((at, prefix)) => match place_after(&chars, &low, at, prefix) {
            Some(from) => {
                let start: usize = place_after_slash(&chars, from);
                assert(s@.subrange(start as int, n as int) =~= s@.skip(start as int));
                Some(string_from(&chars, start, n))
            },
            None => None,
        },
        None => {
            assert(s@.subrange(0, n as int) =~= s@);
            Some(string_from(&chars, 0, n))
        },
    }
}

/// The segments of a path without a scheme.
fn split_segments(s: &str) -> (r: Vec<String>)
    ensures
        text::texts(r@) == plain_segments(s@),
{
    let parts: Vec<String> = split_text(trim_set(s, CharSet::One('/')), '/');
    let ghost all = text::texts(parts@);
    let mut out: Vec<String> = Vec::new();
    let mut i: usize = 0;
    assert(all.take(0) =~= Seq::empty());
    assert(text::texts(out@) =~= Seq::empty());
    while i < parts.len()
        invariant
            i <= parts@.len(),
            all == text::texts(parts@),
            text::texts(out@) == kept_parts(all.take(i as int)),
        decreases parts.len() - i,
    {
        let ghost before = text::texts(out@);
        assert(all.take(i + 1).drop_last() =~= all.take(i as int));
        let part: &str = trim(parts[i].as_str());
        if !part.is_empty() {
            out.push(part.to_owned());
            assert(text::texts(out@) =~= before.push(part@));
        }
        i += 1;
    }
    assert(all.take(i as int) =~= all);
    out
}

/// The segments of a normalized path, given its lower case; `None` where the scheme ends inside
/// a character of the path.
pub fn segments_with(s: &str, lower: &str) -> (r: Option<Vec<String>>)
    ensures
        match r {
            Some(segs) => segments_given(s@, lower@) == Some(text::texts(segs@)),
            None => segments_given(s@, lower@) is None,
        },
{
    match strip_scheme(s, lower) {
        Some(rest) => Some(split_segments(rest.as_str())),
        None => None,
    }
}

/// The text begins with the scheme `aux://S_auxbookmark/`, in any case.
pub open spec fn has_scheme(s: Seq<char>) -> bool {
    s.len() >= 20 && text::ascii_lower(s.take(20)) == "aux://s_auxbookmark/"@
}

/// The path of names: the scheme, and the names with slashes between them.
pub open spec fn path_of(names: Seq<Seq<char>>) -> Seq<char> {
    "aux://S_auxbookmark/"@ + text::joined_by(names, '/')
}

/// The segments of a path whose scheme does not end inside a character. What follows the scheme
/// `aux://S_auxbookmark/` at the beginning of a path is always read, and names that were joined to
/// a path are read back.
pub fn parse_virtual_segments(raw: &str) -> (r: Vec<String>)
    requires
        segments_of(raw@) is Some || has_scheme(normalized(raw@)),
    ensures
        segments_of(raw@) == Some(text::texts(r@)),
        has_scheme(normalized(raw@)) ==> text::texts(r@) == plain_segments(
            normalized(raw@).skip(20),
        ),
        forall|names: Seq<Seq<char>>|
            are_names(names) && raw@ == #[trigger] path_of(names) ==> text::texts(r@) == names,
{
    let s: String = normalize(raw);
    let lower: String = to_lowercase(s.as_str());
    proof {
        lemma_read_back(raw@, s@, lower@);
    }
    match segments_with(s.as_str(), lower.as_str()) {
        Some(segs) => segs,
        None => Vec::new(),
    }
}

/// The segments of a path; `None` where the scheme ends inside a character of the path.
pub fn checked_segments(raw: &str) -> (r: Option<Vec<String>>)
    ensures
        match r {
            Some(segs) => segments_of(raw@) == Some(text::texts(segs@)),
            None => segments_of(raw@) is None,
        },
        has_scheme(normalized(raw@)) ==> r is Some,
        forall|names: Seq<Seq<char>>|
            are_names(names) && raw@ == #[trigger] path_of(names) ==> r is Some && text::texts(
                r->0@,
            ) == names,
{
    let s: String = normalize(raw);
    let lower: String = to_lowercase(s.as_str());
    proof {
        lemma_read_back(raw@, s@, lower@);
    }
    if strip_scheme(s.as_str(), lower.as_str()).is_some() {
        Some(parse_virtual_segments(raw))
    } else {
        None
    }
}

/// A folder path with an item name appended.
pub open spec fn joined(parent: Seq<char>, item: Seq<char>) -> Seq<char> {
    text::strip_back(parent, CharSet::Two('/', '\\')) + "/"@ + text::strip_front(
        item,
        CharSet::Two('/', '\\'),
    )
}

/// Appends an item name to a folder path, with one slash between them.
pub fn join_path(parent: &str, item: &str) -> (r: String)
    ensures
        r@ == joined(parent@, item@),
{
    let mut out: String = trim_back(parent, CharSet::Two('/', '\\')).to_owned();
    out.append("/");
    out.append(trim_front(item, CharSet::Two('/', '\\')));
    out
}

// ---------------------------------------------------------------------------
// Laws
// ---------------------------------------------------------------------------

/// A text whose first characters are in ASCII is cut behind them by counting bytes.
proof fn lemma_cut_ascii(s: Seq<char>, n: int)
    requires
        0 <= n <= s.len(),
        forall|i: int| 0 <= i < n ==> text::char_width(#[trigger] s[i]) == 1,
    ensures
        text::from_byte(s, n) == Some(s.skip(n)),
    decreases n,
{
    if n == 0 {
        assert(s.skip(0) =~= s);
    } else {
        let rest = s.drop_first();
        assert forall|i: int| 0 <= i < n - 1 implies text::char_width(#[trigger] rest[i]) == 1 by {
            assert(rest[i] == s[i + 1]);
        }
        assert(text::char_width(s[0]) == 1);
        lemma_cut_ascii(rest, n - 1);
        assert(rest.skip(n - 1) =~= s.skip(n));
    }
}

/// A text in ASCII has as many bytes as characters.
proof fn lemma_ascii_bytes(s: Seq<char>)
    requires
        forall|i: int| 0 <= i < s.len() ==> text::char_width(#[trigger] s[i]) == 1,
    ensures
        text::byte_len(s) == s.len(),
    decreases s.len(),
{
    if s.len() > 0 {
        assert forall|i: int| 0 <= i < s.drop_last().len() implies text::char_width(
            #[trigger] s.drop_last()[i],
        ) == 1 by {
            assert(s.drop_last()[i] == s[i]);
        }
        lemma_ascii_bytes(s.drop_last());
        assert(text::char_width(s[s.len() - 1]) == 1);
    }
}

/// What begins with a text begins with each beginning of it, so where the text occurs the
/// beginning occurs too.
proof fn lemma_beginning_occurs(s: Seq<char>, p: Seq<char>, q: Seq<char>)
    requires
        text::begins_with(p, q),
        text::find(s, p) is Some,
    ensures
        text::find(s, q) is Some,
    decreases s.len(),
{
    if text::begins_with(s, p) {
        assert(s.take(q.len() as int) =~= p.take(q.len() as int));
    } else {
        lemma_beginning_occurs(s.drop_first(), p, q);
    }
}

/// A path that begins with the scheme `aux://S_auxbookmark/`, in any case, names what follows it.
pub proof fn law_scheme_is_dropped(s: Seq<char>, lower: Seq<char>)
    requires
        text::begins_with(lower, "aux://s_auxbookmark/"@),
        s.len() >= 20,
        forall|i: int| 0 <= i < 20 ==> text::char_width(#[trigger] s[i]) == 1,
    ensures
        segments_given(s, lower) == Some(plain_segments(s.skip(20))),
{
    let p = "aux://s_auxbookmark/"@;
    reveal_strlit("aux://s_auxbookmark/");
    assert(p.len() == 20);
    assert forall|i: int| 0 <= i < p.len() implies text::char_width(#[trigger] p[i]) == 1 by {}
    lemma_ascii_bytes(p);
    assert(text::find(lower, p) == Some(0int));
    assert(lower.take(0) =~= Seq::empty());
    assert(text::byte_len(Seq::empty()) == 0);
    lemma_cut_ascii(s, 20);
}

/// A path without a scheme is read as it is.
pub proof fn law_plain_path_is_kept(s: Seq<char>, lower: Seq<char>)
    requires
        text::find(lower, "aux:"@) is None,
    ensures
        segments_given(s, lower) == Some(plain_segments(s)),
{
    reveal_strlit("aux:");
    reveal_strlit("aux://");
    reveal_strlit("aux://s_auxbookmark/");
    reveal_strlit("aux:/s_auxbookmark/");
    reveal_strlit("aux:s_auxbookmark/");
    reveal_strlit("aux://s_bookmark/");
    reveal_strlit("aux:/s_bookmark/");
    reveal_strlit("aux:s_bookmark/");
    assert forall|i: int| 0 <= i < 6 implies text::find(lower, #[trigger] scheme(i)) is None by {
        assert(scheme(i).take(4) =~= "aux:"@);
        if text::find(lower, scheme(i)) is Some {
            lemma_beginning_occurs(lower, scheme(i), "aux:"@);
        }
    }
    assert("aux://"@.take(4) =~= "aux:"@);
    if text::find(lower, "aux://"@) is Some {
        lemma_beginning_occurs(lower, "aux://"@, "aux:"@);
    }
    reveal_with_fuel(scheme_found, 7);
    assert(text::find(lower, scheme(0)) is None);
    assert(text::find(lower, scheme(1)) is None);
    assert(text::find(lower, scheme(2)) is None);
    assert(text::find(lower, scheme(3)) is None);
    assert(text::find(lower, scheme(4)) is None);
    assert(text::find(lower, scheme(5)) is None);
}

/// No part that is kept is empty.
proof fn lemma_kept_parts(parts: Seq<Seq<char>>, i: int)
    requires
        0 <= i < kept_parts(parts).len(),
    ensures
        kept_parts(parts)[i].len() > 0,
    decreases parts.len(),
{
    if i < kept_parts(parts.drop_last()).len() {
        lemma_kept_parts(parts.drop_last(), i);
    }
}

/// Segments are names: none is empty.
pub proof fn law_segments_are_not_empty(s: Seq<char>, lower: Seq<char>, i: int)
    requires
        segments_given(s, lower) is Some,
        0 <= i < segments_given(s, lower)->0.len(),
    ensures
        segments_given(s, lower)->0[i].len() > 0,
{
    let rest = without_scheme(s, lower)->0;
    lemma_kept_parts(text::split(text::strip(rest, CharSet::One('/')), '/'), i);
}

/// Parts that are names are all kept.
proof fn lemma_kept_names(parts: Seq<Seq<char>>)
    requires
        forall|i: int|
            0 <= i < parts.len() ==> (#[trigger] parts[i]).len() > 0 && text::trimmed(parts[i])
                == parts[i],
    ensures
        kept_parts(parts) == parts,
    decreases parts.len(),
{
    if parts.len() > 0 {
        let head = parts.drop_last();
        assert forall|i: int| 0 <= i < head.len() implies (#[trigger] head[i]).len() > 0
            && text::trimmed(head[i]) == head[i] by {
            assert(head[i] == parts[i]);
        }
        lemma_kept_names(head);
        assert(parts[parts.len() - 1].len() > 0);
        assert(head.push(parts.last()) =~= parts);
    } else {
        assert(kept_parts(parts) =~= parts);
    }
}

/// The segments are the names of a path: each is a name without white space around it and without
/// slashes, and the last one does not end in a quotation mark.
pub open spec fn are_names(segments: Seq<Seq<char>>) -> bool {
    &&& segments.len() > 0
    &&& forall|i: int|
        0 <= i < segments.len() ==> {
            &&& (#[trigger] segments[i]).len() > 0
            &&& text::trimmed(segments[i]) == segments[i]
            &&& !segments[i].contains('/')
            &&& !segments[i].contains('\\')
        }
    &&& segments.last().last() != '"'
    &&& segments.last().last() != '\''
}

/// Names joined by slashes.
proof fn lemma_joined_names(segments: Seq<Seq<char>>)
    requires
        are_names(segments),
    ensures
        ({
            let s = text::joined_by(segments, '/');
            &&& s.len() > 0
            &&& s[0] != '/'
            &&& s.last() != '/' && s.last() != '"' && s.last() != '\''
            &&& !text::is_space(s.last())
            &&& !s.contains('\\')
            &&& plain_segments(s) == segments
        }),
{
    let s = text::joined_by(segments, '/');
    let a = segments[0];
    let z = segments.last();
    assert(segments[segments.len() - 1] == z);
    text::lemma_joined_ends(segments, '/');
    text::lemma_joined_without(segments, '/', '\\');
    text::lemma_split_joined(segments, '/');
    text::lemma_strip(z, CharSet::Space);
    assert(a.contains(a[0]));
    assert(z.contains(z[z.len() - 1]));
    text::lemma_strip_keeps(s, CharSet::One('/'));
    lemma_kept_names(segments);
}

/// A path of names is normalized as it is, begins with the scheme, and goes on with the names.
pub proof fn law_path_of_names_has_the_scheme(names: Seq<Seq<char>>)
    requires
        are_names(names),
    ensures
        normalized(path_of(names)) == path_of(names),
        has_scheme(path_of(names)),
        plain_segments(path_of(names).skip(20)) == names,
{
    reveal_strlit("aux://S_auxbookmark/");
    reveal_strlit("aux://s_auxbookmark/");
    let p = "aux://S_auxbookmark/"@;
    let s = text::joined_by(names, '/');
    let raw = p + s;
    lemma_joined_names(names);
    assert(p.len() == 20);
    assert(raw[0] == 'a' && raw.last() == s.last());
    text::lemma_strip_keeps(raw, CharSet::Space);
    text::lemma_strip_keeps(raw, CharSet::One('"'));
    text::lemma_strip_keeps(raw, CharSet::One('\''));
    assert forall|i: int| 0 <= i < raw.len() implies !CharSet::One('\\').has(#[trigger] raw[i]) by {
        if i >= 20 {
            assert(raw[i] == s[i - 20]);
            assert(s.contains(s[i - 20]));
        } else {
            assert(raw[i] == p[i]);
        }
    }
    text::lemma_replaced_none(raw, CharSet::One('\\'), "/"@);
    assert(raw.take(20) =~= p);
    assert(text::ascii_lower(p) =~= "aux://s_auxbookmark/"@);
    assert(raw.skip(20) =~= s);
}

/// A beginning whose letters are those of the scheme is in ASCII.
proof fn lemma_scheme_is_ascii(s: Seq<char>)
    requires
        has_scheme(s),
    ensures
        vstd::utf8::is_ascii_chars(s.take(20)),
        forall|i: int| 0 <= i < 20 ==> text::char_width(#[trigger] s[i]) == 1,
{
    reveal_strlit("aux://s_auxbookmark/");
    let p = "aux://s_auxbookmark/"@;
    let t = s.take(20);
    assert forall|i: int| 0 <= i < 20 implies '\0' <= #[trigger] t[i] <= '\u{7f}' by {
        assert(text::ascii_lower(t)[i] == p[i]);
        assert(p[i] <= '\u{7f}');
    }
    assert forall|i: int| 0 <= i < 20 implies text::char_width(#[trigger] s[i]) == 1 by {
        assert(t[i] == s[i]);
    }
}

/// What a path is read as whose lower case begins as that of its beginning.
proof fn lemma_read_back(raw: Seq<char>, s: Seq<char>, lower: Seq<char>)
    requires
        s == normalized(raw),
        forall|k: int|
            0 <= k <= s.len() && vstd::utf8::is_ascii_chars(#[trigger] s.take(k)) ==> k
                <= lower.len() && lower.take(k) == text::ascii_lower(s.take(k)),
    ensures
        has_scheme(s) ==> segments_given(s, lower) == Some(plain_segments(s.skip(20))),
        forall|names: Seq<Seq<char>>|
            are_names(names) && raw == #[trigger] path_of(names) ==> segments_given(s, lower)
                == Some(names),
{
    if has_scheme(s) {
        reveal_strlit("aux://s_auxbookmark/");
        lemma_scheme_is_ascii(s);
        law_scheme_is_dropped(s, lower);
    }
    assert forall|names: Seq<Seq<char>>|
        are_names(names) && raw == #[trigger] path_of(names) implies segments_given(s, lower)
        == Some(names) by {
        law_path_of_names_has_the_scheme(names);
    }
}

/// Paths are read back: names joined by slashes behind the scheme `aux://S_auxbookmark/` are the
/// segments of the path. The path is normalized as it is, and `lower` is its lower case, of which
/// only the beginning matters.
pub proof fn law_joined_names_are_read_back(names: Seq<Seq<char>>, lower: Seq<char>)
    requires
        are_names(names),
        text::begins_with(lower, text::ascii_lower("aux://S_auxbookmark/"@)),
    ensures
        normalized(path_of(names)) == path_of(names),
        segments_given(path_of(names), lower) == Some(names),
{
    reveal_strlit("aux://S_auxbookmark/");
    reveal_strlit("aux://s_auxbookmark/");
    law_path_of_names_has_the_scheme(names);
    lemma_scheme_is_ascii(path_of(names));
    assert(text::ascii_lower("aux://S_auxbookmark/"@) =~= "aux://s_auxbookmark/"@);
    law_scheme_is_dropped(path_of(names), lower);
}

/// Names with one more name behind them.
proof fn lemma_joined_push(names: Seq<Seq<char>>, item: Seq<char>)
    requires
        names.len() > 0,
    ensures
        text::joined_by(names.push(item), '/') == text::joined_by(names, '/') + "/"@ + item,
    decreases names.len(),
{
    reveal_strlit("/");
    let all = names.push(item);
    if names.len() == 1 {
        assert(all.drop_first() =~= seq![item]);
        assert(text::joined_by(seq![item], '/') == item);
        assert(text::joined_by(all, '/') =~= names[0] + "/"@ + item);
    } else {
        let rest = names.drop_first();
        assert(all.drop_first() =~= rest.push(item));
        lemma_joined_push(rest, item);
        assert(text::joined_by(all, '/') =~= text::joined_by(names, '/') + "/"@ + item);
    }
}

/// Appending a name to the path of a folder gives the path of the item in the folder.
pub proof fn law_item_is_appended(names: Seq<Seq<char>>, item: Seq<char>)
    requires
        are_names(names),
        item.len() > 0,
        !item.contains('/'),
        !item.contains('\\'),
    ensures
        joined(path_of(names), item) == path_of(names.push(item)),
{
    let p = path_of(names);
    let s = text::joined_by(names, '/');
    lemma_joined_names(names);
    lemma_joined_push(names, item);
    assert(p.last() == s.last());
    assert(s.contains(s[s.len() - 1]));
    assert(text::strip_back(p, CharSet::Two('/', '\\')) == p);
    assert(item.contains(item[0]));
    assert(text::strip_front(item, CharSet::Two('/', '\\')) == item);
    assert(joined(p, item) =~= path_of(names.push(item)));
}

/// A path with backslashes is the path with slashes in their places: where neither white space nor
/// quotation marks stand around it, nothing else changes.
pub proof fn law_backslash_is_a_slash(raw: Seq<char>)
    requires
        raw.len() > 0,
        !text::is_space(raw[0]) && !text::is_space(raw.last()),
        raw[0] != '"' && raw.last() != '"',
        raw[0] != '\'' && raw.last() != '\'',
    ensures
        normalized(raw).len() == raw.len(),
        forall|i: int|
            0 <= i < raw.len() ==> #[trigger] normalized(raw)[i] == (if raw[i] == '\\' {
                '/'
            } else {
                raw[i]
            }),
{
    text::lemma_strip_keeps(raw, CharSet::Space);
    text::lemma_strip_keeps(raw, CharSet::One('"'));
    text::lemma_strip_keeps(raw, CharSet::One('\''));
    lemma_slashes(raw);
}

/// Backslashes replaced by slashes.
proof fn lemma_slashes(s: Seq<char>)
    ensures
        text::replaced(s, CharSet::One('\\'), "/"@).len() == s.len(),
        forall|i: int|
            0 <= i < s.len() ==> #[trigger] text::replaced(s, CharSet::One('\\'), "/"@)[i] == (if s[i]
                == '\\' {
                '/'
            } else {
                s[i]
            }),
    decreases s.len(),
{
    reveal_strlit("/");
    if s.len() > 0 {
        lemma_slashes(s.drop_last());
    }
}

/// Quotation marks around a path do not matter.
pub proof fn law_quotes_are_dropped(raw: Seq<char>)
    requires
        raw.len() > 0,
        !text::is_space(raw[0]) && !text::is_space(raw.last()),
        raw[0] != '"' && raw.last() != '"',
    ensures
        normalized(seq!['"'] + raw + seq!['"']) == normalized(raw),
{
    let q = seq!['"'] + raw + seq!['"'];
    let f = raw + seq!['"'];
    text::lemma_strip_keeps(q, CharSet::Space);
    text::lemma_strip_keeps(raw, CharSet::Space);
    text::lemma_strip_keeps(raw, CharSet::One('"'));
    assert(q.drop_first() =~= f);
    assert(f.drop_last() =~= raw);
    reveal_with_fuel(text::strip_front, 3);
    reveal_with_fuel(text::strip_back, 3);
    assert(f[0] == raw[0]);
    assert(text::strip_front(q, CharSet::One('"')) == f);
    assert(text::strip_back(f, CharSet::One('"')) == raw);
}

/// The other schemes, in the order in which they are looked for.
pub open spec fn other_scheme(i: int) -> Seq<char> {
    if i == 1 {
        "aux:/s_auxbookmark/"@
    } else if i == 2 {
        "aux:s_auxbookmark/"@
    } else if i == 3 {
        "aux://s_bookmark/"@
    } else if i == 4 {
        "aux:/s_bookmark/"@
    } else {
        "aux:s_bookmark/"@
    }
}

/// A path that begins with one of the other schemes, in any case, and holds none that goes before
/// it, names what follows the scheme.
#[verifier::rlimit(40)]
pub proof fn law_other_scheme_is_dropped(s: Seq<char>, lower: Seq<char>, i: int)
    requires
        1 <= i <= 5,
        text::begins_with(lower, other_scheme(i)),
        s.len() >= other_scheme(i).len(),
        forall|k: int| 0 <= k < other_scheme(i).len() ==> text::char_width(#[trigger] s[k]) == 1,
        text::find(lower, "aux://s_auxbookmark/"@) is None,
        forall|j: int| 1 <= j < i ==> text::find(lower, #[trigger] other_scheme(j)) is None,
    ensures
        segments_given(s, lower) == Some(plain_segments(s.skip(other_scheme(i).len() as int))),
{
    let p = other_scheme(i);
    let n = p.len() as int;
    reveal_strlit("aux:/s_auxbookmark/");
    reveal_strlit("aux:s_auxbookmark/");
    reveal_strlit("aux://s_bookmark/");
    reveal_strlit("aux:/s_bookmark/");
    reveal_strlit("aux:s_bookmark/");
    assert forall|k: int| 0 <= k < p.len() implies text::char_width(#[trigger] p[k]) == 1 by {}
    lemma_ascii_bytes(p);
    assert(scheme(i) == p);
    reveal_with_fuel(scheme_found, 7);
    if i > 1 {
        assert(text::find(lower, other_scheme(1)) is None);
    }
    if i > 2 {
        assert(text::find(lower, other_scheme(2)) is None);
    }
    if i > 3 {
        assert(text::find(lower, other_scheme(3)) is None);
    }
    if i > 4 {
        assert(text::find(lower, other_scheme(4)) is None);
    }
    assert(scheme_found(lower, 0) == Some(i));
    assert(text::find(lower, p) == Some(0int));
    assert(lower.take(0) =~= Seq::empty());
    assert(text::byte_len(Seq::empty()) == 0);
    lemma_cut_ascii(s, n);
}

} // verus!

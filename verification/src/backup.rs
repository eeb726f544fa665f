//! When a bookmark file is backed up, under which name, and which old copies go.
use vstd::prelude::*;
use vstd::string::*;
use crate::number;
use crate::number::{parse_i64, signed_text};
use crate::path;
use crate::path::to_lowercase;
use crate::text;
use crate::text::{ends_with, starts_with, text_less, trim};
use crate::time;
use crate::time::{local_now, utc_now_secs, FILE_PATTERN};

verus! {

/// A 64-bit number read as a signed one.
pub open spec fn as_signed(n: u64) -> i64 {
    if n <= i64::MAX {
        n as i64
    } else {
        (n - u64::MAX - 1) as i64
    }
}

/// A copy is due, `now` seconds into the epoch: there is no readable note of the last one, or it
/// is at least the interval ago. The seconds wrap around as machine numbers do.
pub open spec fn backup_due(now: i64, last: Option<Seq<char>>, interval_minutes: u64) -> bool {
    match last {
        Some(note) => match number::parse_signed(text::trimmed(note)) {
            Some(then) => now.wrapping_sub(then as i64) >= as_signed(
                interval_minutes,
            ).wrapping_mul(60),
            None => true,
        },
        None => true,
    }
}

/// Tells whether a copy is due, given the note of the last one.
pub fn need_backup(now: i64, last: Option<&str>, interval_minutes: u64) -> (r: bool)
    ensures
        r == backup_due(
            now,
            text::maybe(last),
            interval_minutes,
        ),
{
    match last {
        Some(note) => match parse_i64(trim(note)) {
            Some(then) => {
                let minutes: i64 = if interval_minutes <= i64::MAX as u64 {
                    interval_minutes as i64
                } else {
                    -((u64::MAX - interval_minutes) as i64) - 1
                };
                now.wrapping_sub(then) >= minutes.wrapping_mul(60)
            },
            None => true,
        },
        None => true,
    }
}

/// The note of a copy made `now` seconds into the epoch.
pub fn backup_note(now: i64) -> (r: String)
    ensures
        r@ == number::signed_decimal(now as int),
{
    signed_text(now)
}

/// The name of the file that notes the last copy of a profile, given the lower case of its name.
pub open spec fn note_name(lower: Seq<char>) -> Seq<char> {
    ".last_backup_"@ + lower
}

/// The name of the file that notes the last copy of a profile, given the lower case of its name.
pub fn note_file_with(lower: &str) -> (r: String)
    ensures
        r@ == note_name(lower@),
{
    let mut out: String = ".last_backup_".to_owned();
    out.append(lower);
    out
}

/// The name of the file that notes the last copy of a profile.
pub fn note_file(profile_name: &str) -> (r: String)
    ensures
        r@ == note_name(path::lowercase(profile_name@)),
        vstd::utf8::is_ascii_chars(profile_name@) ==> r@ == ".last_backup_"@ + text::ascii_lower(
            profile_name@,
        ),
{
    let lower: String = to_lowercase(profile_name);
    note_file_with(lower.as_str())
}

/// How the names of a profile's copies begin.
pub open spec fn copy_prefix(profile_name: Seq<char>) -> Seq<char> {
    profile_name + "_Bookmarks_"@
}

/// The name of a profile's copy made at a given time.
pub open spec fn copy_name(profile_name: Seq<char>, now: Seq<char>) -> Seq<char> {
    copy_prefix(profile_name) + now + ".bak"@
}

/// The name of a profile's copy made at a given time.
pub fn backup_file(profile_name: &str, now: &str) -> (r: String)
    ensures
        r@ == copy_name(profile_name@, now@),
{
    let mut out: String = profile_name.to_owned();
    out.append("_Bookmarks_");
    out.append(now);
    out.append(".bak");
    out
}

/// A copy that is due: the name of its file, and the note to leave.
#[derive(Debug)]
pub struct DueCopy {
    pub file: String,
    pub note: String,
}

/// The copy that is due, read off the clock and given the note of the last copy. The clock is not
/// before 1970 and not after the last moment of the calendar.
pub fn maybe_backup(profile_name: &str, last: Option<&str>, interval_minutes: u64) -> (r: Option<
    DueCopy,
>)
    ensures
        exists|now: i64|
            {
                &&& 0 <= now < 8_210_266_876_800
                &&& r is Some <==> #[trigger] backup_due(
                    now,
                    text::maybe(last),
                    interval_minutes,
                )
                &&& r matches Some(copy) ==> {
                    &&& copy.note@ == number::signed_decimal(now as int)
                    &&& exists|stamp: Seq<char>|
                        time::is_clock_text(stamp, FILE_PATTERN@) && copy.file@
                            == #[trigger] copy_name(profile_name@, stamp)
                }
            },
{
    let now: i64 = utc_now_secs();
    let due: bool = need_backup(now, last, interval_minutes);
    assert(due == backup_due(
        now,
        text::maybe(last),
        interval_minutes,
    ));
    if due {
        let stamp: String = local_now(FILE_PATTERN);
        let file: String = backup_file(profile_name, stamp.as_str());
        assert(file@ == copy_name(profile_name@, stamp@));
        Some(DueCopy { file, note: backup_note(now) })
    } else {
        None
    }
}

// ---------------------------------------------------------------------------
// Pruning
// ---------------------------------------------------------------------------

/// The file is a copy of the profile.
pub open spec fn is_copy(file: Seq<char>, profile_name: Seq<char>) -> bool {
    text::begins_with(file, copy_prefix(profile_name)) && text::finishes_with(file, ".bak"@)
}

/// The files that are copies of the profile, in the order of their names.
pub open spec fn copies_of(files: Seq<Seq<char>>, profile_name: Seq<char>) -> Seq<Seq<char>>
    decreases files.len(),
{
    if files.len() == 0 {
        Seq::empty()
    } else {
        let rest = copies_of(files.drop_last(), profile_name);
        if is_copy(files.last(), profile_name) {
            text::sorted_in(rest, files.last())
        } else {
            rest
        }
    }
}

/// The copies that go: all but the last `keep` in the order of their names; none where `keep` is
/// zero.
pub open spec fn stale_copies(
    files: Seq<Seq<char>>,
    profile_name: Seq<char>,
    keep: nat,
) -> Seq<Seq<char>> {
    let copies = copies_of(files, profile_name);
    if keep == 0 || copies.len() <= keep {
        Seq::empty()
    } else {
        copies.take(copies.len() - keep)
    }
}

/// Puts a text behind all smaller and equal ones of an ordered list.
fn sort_in(list: &mut Vec<String>, s: &str)
    ensures
        text::texts(final(list)@) == text::sorted_in(text::texts(old(list)@), s@),
{
    let ghost all = text::texts(list@);
    let mut i: usize = list.len();
    proof {
        assert(all.take(i as int) =~= all);
        assert(text::sorted_in(all, s@) + all.skip(i as int) =~= text::sorted_in(all, s@));
    }
    while i > 0 && text_less(s, list[i - 1].as_str())
        invariant
            i <= list@.len(),
            *list == *old(list),
            all == text::texts(list@),
            text::sorted_in(all, s@) == text::sorted_in(all.take(i as int), s@) + all.skip(
                i as int,
            ),
        decreases i,
    {
        proof {
            let upto = all.take(i as int);
            assert(upto.last() == list@[i - 1]@);
            assert(upto.drop_last() =~= all.take(i - 1));
            assert(text::sorted_in(upto, s@) + all.skip(i as int) =~= text::sorted_in(
                all.take(i - 1),
                s@,
            ) + all.skip(i - 1));
        }
        i -= 1;
    }
    proof {
        let upto = all.take(i as int);
        if i > 0 {
            assert(upto.last() == list@[i - 1]@);
        }
        assert(text::sorted_in(upto, s@) =~= upto.push(s@));
        assert(all.insert(i as int, s@) =~= upto.push(s@) + all.skip(i as int));
    }
    list.insert(i, s.to_owned());
    assert(text::texts(list@) =~= all.insert(i as int, s@));
}

/// The copies of a profile that go when the last `keep` are to stay; none goes where `keep` is
/// zero.
pub fn prune_old_backups(files: &[String], profile_name: &str, keep: usize) -> (r: Vec<String>)
    ensures
        text::texts(r@) == stale_copies(text::texts(files@), profile_name@, keep as nat),
{
    let ghost all = text::texts(files@);
    let mut copies: Vec<String> = Vec::new();
    if keep == 0 {
        assert(text::texts(copies@) =~= Seq::empty());
        return copies;
    }
    let prefix: String = {
        let mut p: String = profile_name.to_owned();
        p.append("_Bookmarks_");
        p
    };
    assert(text::texts(copies@) =~= Seq::empty());
    assert(all.take(0) =~= Seq::empty());
    let mut i: usize = 0;
    while i < files.len()
        invariant
            i <= files@.len(),
            all == text::texts(files@),
            prefix@ == copy_prefix(profile_name@),
            text::texts(copies@) == copies_of(all.take(i as int), profile_name@),
        decreases files.len() - i,
    {
        proof {
            assert(all.take(i + 1).drop_last() =~= all.take(i as int));
            assert(all.take(i + 1).last() == files@[i as int]@);
        }
        if starts_with(files[i].as_str(), prefix.as_str()) && ends_with(files[i].as_str(), ".bak") {
            sort_in(&mut copies, files[i].as_str());
        }
        i += 1;
    }
    assert(all.take(i as int) =~= all);
    let ghost sorted = text::texts(copies@);
    if copies.len() > keep {
        let stay: usize = copies.len() - keep;
        copies.truncate(stay);
        assert(text::texts(copies@) =~= sorted.take(stay as int));
    } else {
        copies.truncate(0);
        assert(text::texts(copies@) =~= Seq::empty());
    }
    copies
}

// ---------------------------------------------------------------------------
// Laws
// ---------------------------------------------------------------------------

/// The copies of a profile are in order.
proof fn lemma_copies_sorted(files: Seq<Seq<char>>, profile_name: Seq<char>)
    ensures
        text::is_sorted(copies_of(files, profile_name)),
    decreases files.len(),
{
    if files.len() > 0 {
        lemma_copies_sorted(files.drop_last(), profile_name);
        text::lemma_sorted_in(copies_of(files.drop_last(), profile_name), files.last());
    }
}

/// The copies of a profile are the files that are copies.
proof fn lemma_copies_are_files(files: Seq<Seq<char>>, profile_name: Seq<char>, f: Seq<char>)
    ensures
        copies_of(files, profile_name).contains(f) <==> (files.contains(f) && is_copy(
            f,
            profile_name,
        )),
    decreases files.len(),
{
    if files.len() > 0 {
        let rest = copies_of(files.drop_last(), profile_name);
        lemma_copies_are_files(files.drop_last(), profile_name, f);
        lemma_copies_sorted(files.drop_last(), profile_name);
        assert(files =~= files.drop_last().push(files.last()));
        text::lemma_sorted_in(rest, files.last());
        text::lemma_push_contains(files.drop_last(), files.last(), f);
        if is_copy(files.last(), profile_name) {
            assert(text::sorted_in(rest, files.last()).contains(f) <==> (rest.contains(f) || f
                == files.last()));
        }
    }
}

/// Pruning takes only copies of the profile, and takes the oldest: the name of a copy that goes
/// is not above the name of any copy that stays, and exactly `keep` stay.
pub proof fn law_pruning_keeps_the_newest(
    files: Seq<Seq<char>>,
    profile_name: Seq<char>,
    keep: nat,
)
    requires
        copies_of(files, profile_name).len() > keep > 0,
    ensures
        ({
            let copies = copies_of(files, profile_name);
            let gone = stale_copies(files, profile_name, keep);
            let kept = copies.skip(gone.len() as int);
            &&& kept.len() == keep
            &&& copies == gone + kept
            &&& forall|i: int|
                0 <= i < gone.len() ==> is_copy(#[trigger] gone[i], profile_name)
                    && files.contains(gone[i])
            &&& forall|i: int, j: int|
                0 <= i < gone.len() && 0 <= j < kept.len() ==> !text::less(
                    #[trigger] kept[j],
                    #[trigger] gone[i],
                )
        }),
{
    let copies = copies_of(files, profile_name);
    let gone = stale_copies(files, profile_name, keep);
    lemma_copies_sorted(files, profile_name);
    assert(copies =~= gone + copies.skip(gone.len() as int));
    assert forall|i: int| 0 <= i < gone.len() implies is_copy(#[trigger] gone[i], profile_name)
        && files.contains(gone[i]) by {
        assert(copies[i] == gone[i]);
        assert(copies.contains(gone[i]));
        lemma_copies_are_files(files, profile_name, gone[i]);
    }
}

/// Copies keep their distance: after a copy the next one is due when the interval has passed, and
/// not before.
pub proof fn law_copies_keep_their_distance(then: i64, now: i64, interval_minutes: u64)
    requires
        0 <= then,
        0 <= now,
        interval_minutes * 60 <= i64::MAX,
    ensures
        backup_due(now, Some(number::signed_decimal(then as int)), interval_minutes) <==> now - then
            >= interval_minutes * 60,
{
    let note = number::signed_decimal(then as int);
    number::law_signed_read_back(then);
    number::lemma_decimal_digits(then as nat);
    assert(number::is_digit(note[0]) && number::is_digit(note.last()));
    text::lemma_strip_keeps(note, text::CharSet::Space);
}

/// A keep of zero prunes nothing.
pub proof fn law_keep_zero_prunes_nothing(files: Seq<Seq<char>>, profile_name: Seq<char>)
    ensures
        stale_copies(files, profile_name, 0) == Seq::<Seq<char>>::empty(),
{
}

/// The name of a new copy is one that pruning knows as a copy of the profile.
pub proof fn law_new_copy_is_a_copy(profile_name: Seq<char>, now: Seq<char>)
    ensures
        is_copy(copy_name(profile_name, now), profile_name),
{
    let name = copy_name(profile_name, now);
    let prefix = copy_prefix(profile_name);
    assert(name.take(prefix.len() as int) =~= prefix);
    assert(name.skip(name.len() - ".bak"@.len()) =~= ".bak"@);
}

/// The copies of a profile are exactly the files whose names begin with its name and the mark of a
/// copy and end in `.bak`, each as often as it is there.
pub proof fn law_copies_are_the_files_of_the_profile(
    files: Seq<Seq<char>>,
    file: Seq<char>,
    profile_name: Seq<char>,
)
    ensures
        copies_of(Seq::empty(), profile_name).len() == 0,
        ({
            let before = copies_of(files, profile_name);
            let after = copies_of(files.push(file), profile_name);
            let is_one = text::begins_with(file, profile_name + "_Bookmarks_"@)
                && text::finishes_with(file, ".bak"@);
            &&& is_one ==> after.to_multiset() == before.to_multiset().insert(file)
            &&& !is_one ==> after == before
        }),
{
    assert(files.push(file).drop_last() =~= files);
    lemma_sorted_in_multiset(copies_of(files, profile_name), file);
}

/// Putting a text into a list adds just that text.
proof fn lemma_sorted_in_multiset(s: Seq<Seq<char>>, x: Seq<char>)
    ensures
        text::sorted_in(s, x).to_multiset() == s.to_multiset().insert(x),
    decreases s.len(),
{
    s.to_multiset_ensures();
    if s.len() > 0 && text::less(x, s.last()) {
        let rest = s.drop_last();
        lemma_sorted_in_multiset(rest, x);
        rest.to_multiset_ensures();
        text::sorted_in(rest, x).to_multiset_ensures();
        assert(s =~= rest.push(s.last()));
        assert(text::sorted_in(s, x).to_multiset() =~= s.to_multiset().insert(x));
    }
}

/// As long as there are no more copies than are kept, none goes; and each copy goes or stays: those
/// that go are the first ones in the order of the names.
pub proof fn law_no_copy_goes_too_early(
    files: Seq<Seq<char>>,
    profile_name: Seq<char>,
    keep: nat,
)
    ensures
        copies_of(files, profile_name).len() <= keep ==> stale_copies(
            files,
            profile_name,
            keep,
        ).len() == 0,
        keep > 0 && copies_of(files, profile_name).len() > keep ==> stale_copies(
            files,
            profile_name,
            keep,
        ).len() == copies_of(files, profile_name).len() - keep,
        text::is_sorted(copies_of(files, profile_name)),
        forall|i: int|
            0 <= i < stale_copies(files, profile_name, keep).len() ==> #[trigger] stale_copies(
                files,
                profile_name,
                keep,
            )[i] == copies_of(files, profile_name)[i],
{
    lemma_copies_sorted(files, profile_name);
}

/// Without a readable note of the last copy, a copy is due.
pub proof fn law_copy_is_due_without_a_note(now: i64, note: Seq<char>, interval_minutes: u64)
    ensures
        backup_due(now, None, interval_minutes),
        number::parse_signed(text::trimmed(note)) is None ==> backup_due(
            now,
            Some(note),
            interval_minutes,
        ),
{
}

/// The name of a copy is the name of the profile, the mark of a copy, the time and `.bak`; the
/// names of copies of one profile differ where their times do.
pub proof fn law_copies_of_different_times_differ(
    profile_name: Seq<char>,
    a: Seq<char>,
    b: Seq<char>,
)
    ensures
        copy_name(profile_name, a) == copy_name(profile_name, b) <==> a == b,
        text::begins_with(copy_name(profile_name, a), profile_name + "_Bookmarks_"@ + a),
{
    let p = profile_name + "_Bookmarks_"@;
    let x = copy_name(profile_name, a);
    let y = copy_name(profile_name, b);
    assert(x.subrange(p.len() as int, x.len() - ".bak"@.len()) =~= a);
    assert(y.subrange(p.len() as int, y.len() - ".bak"@.len()) =~= b);
    assert(x.take((p + a).len() as int) =~= p + a);
}

} // verus!

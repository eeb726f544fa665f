//! Identifiers for new bookmarks: random-looking texts drawn from a seed.
use vstd::prelude::*;

verus! {

/// One step of the linear congruential generator.
pub open spec fn stepped(state: u128) -> u128 {
    state.wrapping_mul(6364136223846793005u128).wrapping_add(1442695040888963407u128)
}

/// The state of the generator after `k` steps.
pub open spec fn state_after(seed: u128, k: nat) -> u128
    decreases k,
{
    if k == 0 {
        seed
    } else {
        stepped(state_after(seed, (k - 1) as nat))
    }
}

/// The seed of an identifier: the clock in nanoseconds, the process and a running count.
pub open spec fn guid_seed(nanos: u128, pid: u32, count: u64) -> u128 {
    nanos ^ ((pid as u128) << 32) ^ ((count as u128) << 64)
}

/// Byte `i` of an identifier: drawn from the generator, with the version and the variant of a
/// random UUID set in bytes 6 and 8.
pub open spec fn guid_byte(seed: u128, i: int) -> u8 {
    let b = (state_after(seed, (i + 1) as nat) >> 56) as u8;
    if i == 6 {
        (b & 0x0f) | 0x40
    } else if i == 8 {
        (b & 0x3f) | 0x80
    } else {
        b
    }
}

/// A hexadecimal digit in lower case.
pub open spec fn hex_digit(d: u8) -> char {
    if d < 10 {
        (d + 48) as u8 as char
    } else {
        (d + 87) as u8 as char
    }
}

/// The text of the first `n` bytes of an identifier, with a hyphen before bytes 4, 6, 8 and 10.
pub open spec fn guid_prefix(seed: u128, n: nat) -> Seq<char>
    decreases n,
{
    if n == 0 {
        Seq::empty()
    } else {
        let i = n - 1;
        let b = guid_byte(seed, i);
        let head = guid_prefix(seed, i as nat);
        let joint = if i == 4 || i == 6 || i == 8 || i == 10 {
            head.push('-')
        } else {
            head
        };
        joint.push(hex_digit(b >> 4)).push(hex_digit(b & 0x0f))
    }
}

/// The identifier drawn from a seed.
pub open spec fn guid_text(seed: u128) -> Seq<char> {
    guid_prefix(seed, 16)
}

/// The letters of a Firefox identifier.
pub open spec fn firefox_letters() -> Seq<char> {
    "abcdefghijklmnopqrstuvwxyzABCDEFGHIJKLMNOPQRSTUVWXYZ0123456789-_"@
}

/// The seed of a Firefox identifier.
pub open spec fn firefox_seed(nanos: u128, pid: u32, count: u64) -> u128 {
    nanos ^ ((pid as u128) << 48) ^ ((count as u128) << 32)
}

/// The Firefox identifier drawn from a seed: twelve letters.
pub open spec fn firefox_guid_text(seed: u128) -> Seq<char> {
    Seq::new(
        12,
        |i: int| firefox_letters()[(state_after(seed, (i + 1) as nat) >> 58) as int % 64],
    )
}

/// A hexadecimal digit in lower case.
fn hex_char(d: u8) -> (c: char)
    requires
        d < 16,
    ensures
        c == hex_digit(d),
{
    if d < 10 {
        (d + 48) as char
    } else {
        (d + 87) as char
    }
}

/// One step of the generator.
fn step(state: u128) -> (r: u128)
    ensures
        r == stepped(state),
{
    state.wrapping_mul(6364136223846793005u128).wrapping_add(1442695040888963407u128)
}

/// Draws an identifier from a clock reading, a process number and a running count.
pub fn guid_from(nanos: u128, pid: u32, count: u64) -> (r: String)
    ensures
        r@ == guid_text(guid_seed(nanos, pid, count)),
{
    let mut state: u128 = nanos ^ ((pid as u128) << 32) ^ ((count as u128) << 64);
    let ghost seed = state;
    let mut out: String = String::new();
    let mut i: u8 = 0;
    while i < 16
        invariant
            i <= 16,
            state == state_after(seed, i as nat),
            out@ == guid_prefix(seed, i as nat),
        decreases 16 - i,
    {
        state = step(state);
        let mut b: u8 = (state >> 56) as u8;
        if i == 6 {
            b = (b & 0x0f) | 0x40;
        } else if i == 8 {
            b = (b & 0x3f) | 0x80;
        }
        assert(b == guid_byte(seed, i as int));
        assert(b >> 4 < 16 && b & 0x0f < 16) by (bit_vector);
        if i == 4 || i == 6 || i == 8 || i == 10 {
            out.push('-');
        }
        out.push(hex_char(b >> 4));
        out.push(hex_char(b & 0x0f));
        i = i + 1;
    }
    out
}

/// Draws a Firefox identifier from a clock reading, a process number and a running count.
pub fn firefox_guid_from(nanos: u128, pid: u32, count: u64) -> (r: String)
    ensures
        r@ == firefox_guid_text(firefox_seed(nanos, pid, count)),
{
    let letters: Vec<char> = crate::text::chars_of(
        "abcdefghijklmnopqrstuvwxyzABCDEFGHIJKLMNOPQRSTUVWXYZ0123456789-_",
    );
    proof {
        reveal_strlit("abcdefghijklmnopqrstuvwxyzABCDEFGHIJKLMNOPQRSTUVWXYZ0123456789-_");
    }
    let mut state: u128 = nanos ^ ((pid as u128) << 48) ^ ((count as u128) << 32);
    let ghost seed = state;
    let mut out: String = String::new();
    let mut i: u8 = 0;
    while i < 12
        invariant
            i <= 12,
            letters@ == firefox_letters(),
            letters@.len() == 64,
            state == state_after(seed, i as nat),
            out@ =~= firefox_guid_text(seed).take(i as int),
        decreases 12 - i,
    {
        state = step(state);
        let at: usize = ((state >> 58) % 64) as usize;
        out.push(letters[at]);
        i = i + 1;
    }
    out
}

/// What new bookmarks are stamped with: the time, and the source of identifiers.
#[derive(Debug)]
pub struct Mint {
    /// The time, in the notation of the bookmark file.
    pub now: String,
    /// A clock reading in nanoseconds. It moves on by one at each draw.
    pub nanos: u128,
    /// The process number.
    pub pid: u32,
    /// The number of identifiers drawn so far.
    pub count: u64,
    /// The number of Firefox identifiers drawn so far.
    pub firefox_count: u64,
}

/// The mathematical model of a mint.
pub struct MintState {
    pub now: Seq<char>,
    pub nanos: u128,
    pub pid: u32,
    pub count: u64,
    pub firefox_count: u64,
}

impl View for Mint {
    type V = MintState;

    open spec fn view(&self) -> MintState {
        MintState {
            now: self.now@,
            nanos: self.nanos,
            pid: self.pid,
            count: self.count,
            firefox_count: self.firefox_count,
        }
    }
}

impl MintState {
    /// The mint after one more identifier.
    pub open spec fn drawn(self) -> MintState {
        MintState { nanos: self.nanos.wrapping_add(1), count: self.count.wrapping_add(1), ..self }
    }

    /// The mint after one more Firefox identifier.
    pub open spec fn firefox_drawn(self) -> MintState {
        MintState {
            nanos: self.nanos.wrapping_add(1),
            firefox_count: self.firefox_count.wrapping_add(1),
            ..self
        }
    }

    /// The identifier that the mint gives next.
    pub open spec fn next_guid(self) -> Seq<char> {
        guid_text(guid_seed(self.nanos, self.pid, self.drawn().count))
    }

    /// The Firefox identifier that the mint gives next.
    pub open spec fn next_firefox_guid(self) -> Seq<char> {
        firefox_guid_text(
            firefox_seed(self.nanos, self.pid, self.firefox_drawn().firefox_count),
        )
    }
}

impl Mint {
    /// Draws the next identifier.
    pub fn generate_guid(&mut self) -> (r: String)
        ensures
            final(self)@ == old(self)@.drawn(),
            r@ == old(self)@.next_guid(),
    {
        let nanos: u128 = self.nanos;
        self.nanos = nanos.wrapping_add(1);
        self.count = self.count.wrapping_add(1);
        guid_from(nanos, self.pid, self.count)
    }

    /// Draws the next Firefox identifier.
    pub fn generate_firefox_guid(&mut self) -> (r: String)
        ensures
            final(self)@ == old(self)@.firefox_drawn(),
            r@ == old(self)@.next_firefox_guid(),
    {
        let nanos: u128 = self.nanos;
        self.nanos = nanos.wrapping_add(1);
        self.firefox_count = self.firefox_count.wrapping_add(1);
        firefox_guid_from(nanos, self.pid, self.firefox_count)
    }
}

// ---------------------------------------------------------------------------
// Laws
// ---------------------------------------------------------------------------

/// A hexadecimal digit in lower case.
pub open spec fn is_hex(c: char) -> bool {
    '0' <= c <= '9' || 'a' <= c <= 'f'
}

/// The place of a hyphen in an identifier.
pub open spec fn is_joint(i: int) -> bool {
    i == 8 || i == 13 || i == 18 || i == 23
}

proof fn lemma_guid_prefix(seed: u128, n: nat)
    requires
        n <= 16,
    ensures
        ({
            let hyphens: int = if n > 10 {
                4
            } else if n > 8 {
                3
            } else if n > 6 {
                2
            } else if n > 4 {
                1
            } else {
                0
            };
            guid_prefix(seed, n).len() == 2 * n + hyphens
        }),
        forall|i: int|
            0 <= i < guid_prefix(seed, n).len() ==> if is_joint(i) {
                #[trigger] guid_prefix(seed, n)[i] == '-'
            } else {
                is_hex(guid_prefix(seed, n)[i])
            },
        n > 6 ==> guid_prefix(seed, n)[14] == '4',
        n > 8 ==> {
            let c = guid_prefix(seed, n)[19];
            c == '8' || c == '9' || c == 'a' || c == 'b'
        },
    decreases n,
{
    if n > 0 {
        lemma_guid_prefix(seed, (n - 1) as nat);
        let b = guid_byte(seed, n - 1);
        let raw = (state_after(seed, n) >> 56) as u8;
        assert(b >> 4 < 16 && b & 0x0f < 16) by (bit_vector);
        assert(((raw & 0x0f) | 0x40) >> 4 == 4) by (bit_vector);
        assert(8 <= ((raw & 0x3f) | 0x80) >> 4 && ((raw & 0x3f) | 0x80) >> 4 < 12) by (bit_vector);
    }
}

/// Every identifier is a random UUID: thirty-two hexadecimal digits in groups of 8, 4, 4, 4 and
/// 12 with hyphens between them, of version 4 and of the variant of RFC 4122.
pub proof fn law_guid_is_a_uuid(seed: u128)
    ensures
        guid_text(seed).len() == 36,
        forall|i: int|
            0 <= i < 36 ==> if is_joint(i) {
                #[trigger] guid_text(seed)[i] == '-'
            } else {
                is_hex(guid_text(seed)[i])
            },
        guid_text(seed)[14] == '4',
        ({
            let c = guid_text(seed)[19];
            c == '8' || c == '9' || c == 'a' || c == 'b'
        }),
{
    lemma_guid_prefix(seed, 16);
}

/// Every Firefox identifier is made of twelve letters of the alphabet of URL-safe base 64.
pub proof fn law_firefox_guid_alphabet(seed: u128)
    ensures
        firefox_guid_text(seed).len() == 12,
        forall|i: int|
            0 <= i < 12 ==> {
                let c = #[trigger] firefox_guid_text(seed)[i];
                'a' <= c <= 'z' || 'A' <= c <= 'Z' || '0' <= c <= '9' || c == '-' || c == '_'
            },
{
    reveal_strlit("abcdefghijklmnopqrstuvwxyzABCDEFGHIJKLMNOPQRSTUVWXYZ0123456789-_");
}

} // verus!

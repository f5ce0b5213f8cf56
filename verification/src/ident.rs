//! Identifier generation: 16-hex-digit tokens, either sequential (a counter
//! mixed with the wall clock, unique within a process run) or random (for
//! content GUIDs where independent processes must avoid collision).
use vstd::prelude::*;

use crate::strconv::{spec_is_hex_digit, string_of};

verus! {

/// The multiplier spread over the counter before mixing in the clock.
pub const MIX_CONSTANT: u64 = 0x9E3779B97F4A7C15;

/// One hexadecimal digit, uppercase.
pub open spec fn spec_hex_char(n: u64) -> char {
    if n < 10 {
        ((n + 48) as u8) as char
    } else {
        ((n + 55) as u8) as char
    }
}

/// Bit offset of nibble `i` (most significant first).
pub open spec fn nib_shift(i: int) -> u64 {
    (4 * (15 - i)) as u64
}

/// The 16-digit uppercase hexadecimal rendering of `v`, most significant
/// nibble first.
pub open spec fn spec_hex16(v: u64) -> Seq<char> {
    Seq::new(16, |i: int| spec_hex_char((v >> nib_shift(i)) & 0xf))
}

/// Every character of `spec_hex16` is an uppercase hexadecimal digit.
pub proof fn lemma_hex16_digits(v: u64)
    ensures
        spec_hex16(v).len() == 16,
        forall|i: int|
            0 <= i < 16 ==> spec_is_hex_digit(#[trigger] spec_hex16(v)[i]) && !(
            'a' <= spec_hex16(v)[i] <= 'z'),
{
    assert forall|i: int| 0 <= i < 16 implies spec_is_hex_digit(#[trigger] spec_hex16(v)[i]) && !(
    'a' <= spec_hex16(v)[i] <= 'z') by {
        let sh = nib_shift(i);
        assert((v >> sh) & 0xf < 16) by (bit_vector);
    }
}

/// Render `v` as 16 uppercase hexadecimal characters.
pub fn hex16(v: u64) -> (r: Vec<char>)
    ensures
        r@ == spec_hex16(v),
{
    let mut out: Vec<char> = Vec::new();
    let mut k: usize = 0;
    while k < 16
        invariant
            k <= 16,
            out@ == spec_hex16(v).subrange(0, k as int),
        decreases 16 - k,
    {
        let shift: u64 = (15 - (k as u64)) * 4;
        assert(shift == nib_shift(k as int));
        assert((v >> shift) & 0xf < 16) by (bit_vector);
        let nib: u64 = (v >> shift) & 0xf;
        let c: char = if nib < 10 {
            ((nib + 48) as u8) as char
        } else {
            ((nib + 55) as u8) as char
        };
        out.push(c);
        assert(out@ =~= spec_hex16(v).subrange(0, k + 1));
        k = k + 1;
    }
    assert(out@ =~= spec_hex16(v));
    out
}

/// The counter multiplied into the mixing constant, XORed with the clock.
pub open spec fn spec_mix(counter: u64, clock: u64) -> u64 {
    (((counter * MIX_CONSTANT) % 0x10000000000000000) as u64) ^ clock
}

/// Relies on std::time::SystemTime::now and duration_since(UNIX_EPOCH):
/// nanoseconds since the epoch, truncated to 64 bits; 0 for a clock before
/// the epoch. Only mixed into sequential identifiers, so no clause is needed.
#[verifier::external_body]
fn now_nanos() -> u64 {
    std::time::SystemTime::now()
        .duration_since(std::time::UNIX_EPOCH)
        .map(|d| d.as_nanos() as u64)
        .unwrap_or(0)
}

/// Relies on rand::random::<u64>(): a uniform 64-bit value; nothing can be
/// promised of a random draw.
#[verifier::external_body]
fn random_u64() -> u64 {
    rand::random::<u64>()
}

/// The monotonic counter behind sequential identifiers. The caller owns one
/// per generation run; the process-wide instance lives outside the library.
pub struct TokenCounter {
    pub next: u64,
}

impl TokenCounter {
    /// A fresh counter, starting at 1.
    pub fn new() -> (r: TokenCounter)
        ensures
            r.next == 1,
    {
        TokenCounter { next: 1 }
    }
}

/// A sequential 16-hex-digit identifier: the counter value spread by
/// `MIX_CONSTANT` and XORed with the wall clock, so identifiers stay distinct
/// within a run even at high call rates.
pub fn gen_hex16(ctr: &mut TokenCounter) -> (r: String)
    ensures
        final(ctr).next == ((old(ctr).next + 1) % 0x10000000000000000) as u64,
        r@.len() == 16,
        exists|clock: u64| r@ == spec_hex16(spec_mix(old(ctr).next, clock)),
{
    let c = ctr.next;
    ctr.next = c.wrapping_add(1);
    let clock = now_nanos();
    let mixed = c.wrapping_mul(MIX_CONSTANT) ^ clock;
    assert(mixed == spec_mix(c, clock));
    let cs = hex16(mixed);
    let r = string_of(&cs);
    assert(r@ == spec_hex16(spec_mix(c, clock)));
    r
}

/// A random 16-hex-digit identifier for content GUIDs.
pub fn gen_guid16() -> (r: String)
    ensures
        r@.len() == 16,
        exists|v: u64| r@ == spec_hex16(v),
{
    let v = random_u64();
    let cs = hex16(v);
    string_of(&cs)
}

/// A random identifier as characters, for use inside text generators.
pub fn gen_guid16_chars() -> (r: Vec<char>)
    ensures
        r@.len() == 16,
        exists|v: u64| r@ == spec_hex16(v),
{
    let v = random_u64();
    hex16(v)
}

} // verus!

//! Byte-level building blocks: little-endian integers, buffers and byte-wise
//! comparison.

use vstd::prelude::*;

verus! {

/// The `n` low-order bytes of `x`, least significant first.
pub open spec fn le_bytes(x: nat, n: nat) -> Seq<u8>
    decreases n,
{
    if n == 0 {
        Seq::empty()
    } else {
        seq![(x % 256) as u8] + le_bytes(x / 256, (n - 1) as nat)
    }
}

/// The number whose little-endian bytes are `s`.
pub open spec fn le_value(s: Seq<u8>) -> nat
    decreases s.len(),
{
    if s.len() == 0 {
        0
    } else {
        s[0] as nat + 256 * le_value(s.drop_first())
    }
}

/// The first number that does not fit in `n` bytes.
pub open spec fn byte_range(n: nat) -> nat
    decreases n,
{
    if n == 0 {
        1
    } else {
        256 * byte_range((n - 1) as nat)
    }
}

pub open spec fn le32(x: u32) -> Seq<u8> {
    le_bytes(x as nat, 4)
}

pub open spec fn le64(x: u64) -> Seq<u8> {
    le_bytes(x as nat, 8)
}

pub broadcast proof fn lemma_le_bytes_len(x: nat, n: nat)
    ensures
        (#[trigger] le_bytes(x, n)).len() == n,
    decreases n,
{
    if n > 0 {
        lemma_le_bytes_len(x / 256, (n - 1) as nat);
    }
}

/// Reading back the bytes of a number that fits gives the number.
pub proof fn lemma_le_value_of_le_bytes(x: nat, n: nat)
    requires
        x < byte_range(n),
    ensures
        le_value(le_bytes(x, n)) == x,
    decreases n,
{
    if n > 0 {
        let m = (n - 1) as nat;
        let tail = le_bytes(x / 256, m);
        assert(x / 256 < byte_range(m)) by {
            assert(byte_range(n) == 256 * byte_range(m));
        }
        lemma_le_value_of_le_bytes(x / 256, m);
        assert(le_bytes(x, n).drop_first() =~= tail);
    }
}

/// A byte sequence is the encoding of the number it spells.
pub proof fn lemma_le_bytes_of_le_value(s: Seq<u8>)
    ensures
        le_bytes(le_value(s), s.len()) == s,
        le_value(s) < byte_range(s.len()),
    decreases s.len(),
{
    if s.len() > 0 {
        let rest = s.drop_first();
        lemma_le_bytes_of_le_value(rest);
        let v = le_value(s);
        assert(v % 256 == s[0] as nat);
        assert(v / 256 == le_value(rest));
        assert(le_bytes(v, s.len()) =~= s);
    }
}

pub proof fn lemma_byte_ranges()
    ensures
        byte_range(4) == 0x1_0000_0000,
        byte_range(8) == 0x1_0000_0000_0000_0000,
{
    reveal_with_fuel(byte_range, 9);
}

/// Distinct 32-bit numbers have distinct encodings.
pub proof fn lemma_le32_injective(x: u32, y: u32)
    requires
        le32(x) == le32(y),
    ensures
        x == y,
{
    lemma_byte_ranges();
    lemma_le_value_of_le_bytes(x as nat, 4);
    lemma_le_value_of_le_bytes(y as nat, 4);
}

/// Distinct 64-bit numbers have distinct encodings.
pub proof fn lemma_le64_injective(x: u64, y: u64)
    requires
        le64(x) == le64(y),
    ensures
        x == y,
{
    lemma_byte_ranges();
    lemma_le_value_of_le_bytes(x as nat, 8);
    lemma_le_value_of_le_bytes(y as nat, 8);
}

/// Appends `bytes` to `out`.
pub fn push_bytes(out: &mut Vec<u8>, bytes: &[u8])
    ensures
        final(out)@ == old(out)@ + bytes@,
{
    out.extend_from_slice(bytes);
    assert(out@ =~= old(out)@ + bytes@);
}

/// Appends the `n` low-order bytes of `x`, least significant first.
fn push_le(out: &mut Vec<u8>, x: u64, n: usize)
    ensures
        final(out)@ == old(out)@ + le_bytes(x as nat, n as nat),
{
    let mut rest: u64 = x;
    let mut i: usize = 0;
    while i < n
        invariant
            i <= n,
            out@ + le_bytes(rest as nat, (n - i) as nat) == old(out)@ + le_bytes(
                x as nat,
                n as nat,
            ),
        decreases n - i,
    {
        let ghost before = out@;
        let b: u8 = (rest % 256) as u8;
        out.push(b);
        proof {
            let tail = le_bytes(rest as nat / 256, (n - i - 1) as nat);
            assert(le_bytes(rest as nat, (n - i) as nat) == seq![b] + tail);
            assert(out@ + tail =~= before + (seq![b] + tail));
        }
        rest = rest / 256;
        i += 1;
    }
    assert(out@ + le_bytes(rest as nat, 0) =~= out@);
}

/// Appends a 32-bit number in little-endian order.
pub fn push_u32(out: &mut Vec<u8>, x: u32)
    ensures
        final(out)@ == old(out)@ + le32(x),
{
    push_le(out, x as u64, 4);
}

/// Appends a 64-bit number in little-endian order.
pub fn push_u64(out: &mut Vec<u8>, x: u64)
    ensures
        final(out)@ == old(out)@ + le64(x),
{
    push_le(out, x, 8);
}

/// The little-endian bytes of a 64-bit number.
pub fn u64_bytes(x: u64) -> (out: Vec<u8>)
    ensures
        out@ == le64(x),
{
    let mut out: Vec<u8> = Vec::new();
    push_u64(&mut out, x);
    assert(out@ =~= le64(x));
    out
}

/// The little-endian bytes of a 32-bit number.
pub fn u32_bytes(x: u32) -> (out: Vec<u8>)
    ensures
        out@ == le32(x),
{
    let mut out: Vec<u8> = Vec::new();
    push_u32(&mut out, x);
    assert(out@ =~= le32(x));
    out
}

/// Reads the 64-bit little-endian number at `at`.
pub fn read_u64(bytes: &[u8], at: usize) -> (x: u64)
    requires
        at + 8 <= bytes.len(),
    ensures
        le64(x) == bytes@.subrange(at as int, at + 8),
{
    let mut x: u64 = 0;
    let mut i: usize = 8;
    proof {
        lemma_byte_ranges();
        assert(byte_range(0) == 1);
        assert(bytes@.subrange(at + 8, at + 8) =~= Seq::<u8>::empty());
    }
    while i > 0
        invariant
            i <= 8,
            at + 8 <= bytes.len(),
            x == le_value(bytes@.subrange(at + i, at + 8)),
        decreases i,
    {
        let ghost tail = bytes@.subrange(at + i, at + 8);
        i -= 1;
        let b: u8 = bytes[at + i];
        proof {
            let s = bytes@.subrange(at + i, at + 8);
            assert(s.drop_first() =~= tail);
            assert(s[0] == b);
            lemma_le_bytes_of_le_value(s);
            lemma_byte_range_mono(s.len(), 8);
            lemma_byte_ranges();
        }
        x = b as u64 + 256 * x;
    }
    proof {
        lemma_le_bytes_of_le_value(bytes@.subrange(at as int, at + 8));
    }
    x
}

proof fn lemma_byte_range_mono(m: nat, n: nat)
    requires
        m <= n,
    ensures
        0 < byte_range(m) <= byte_range(n),
    decreases n,
{
    if m < n {
        lemma_byte_range_mono(m, (n - 1) as nat);
    } else if m > 0 {
        lemma_byte_range_mono((m - 1) as nat, (m - 1) as nat);
    }
}

/// Whether two byte strings are the same.
pub fn bytes_eq(a: &[u8], b: &[u8]) -> (same: bool)
    ensures
        same == (a@ == b@),
{
    if a.len() != b.len() {
        return false;
    }
    let mut i: usize = 0;
    while i < a.len()
        invariant
            a.len() == b.len(),
            i <= a.len(),
            forall|j: int| 0 <= j < i ==> a@[j] == b@[j],
        decreases a.len() - i,
    {
        if a[i] != b[i] {
            return false;
        }
        i += 1;
    }
    assert(a@ =~= b@);
    true
}

/// A fixed-size copy of the 32 bytes at `at`.
pub fn read_32(bytes: &[u8], at: usize) -> (out: [u8; 32])
    requires
        at + 32 <= bytes.len(),
    ensures
        out@ == bytes@.subrange(at as int, at + 32),
{
    let mut out: [u8; 32] = [0u8; 32];
    let mut i: usize = 0;
    while i < 32
        invariant
            i <= 32,
            at + 32 <= bytes.len(),
            forall|j: int| 0 <= j < i ==> out@[j] == bytes@[at + j],
        decreases 32 - i,
    {
        out[i] = bytes[at + i];
        i += 1;
    }
    assert(out@ =~= bytes@.subrange(at as int, at + 32));
    out
}

/// Equal concatenations with equally long heads have equal heads and tails.
pub proof fn lemma_concat_cancel<T>(a: Seq<T>, b: Seq<T>, c: Seq<T>, d: Seq<T>)
    requires
        a + b == c + d,
        a.len() == c.len(),
    ensures
        a == c,
        b == d,
{
    assert(a =~= (a + b).subrange(0, a.len() as int));
    assert(c =~= (c + d).subrange(0, c.len() as int));
    assert(b =~= (a + b).subrange(a.len() as int, (a + b).len() as int));
    assert(d =~= (c + d).subrange(c.len() as int, (c + d).len() as int));
}

/// Numbers are written little-endian, in as many bytes as asked for: the first
/// byte is the remainder by 256, and the rest are the bytes of the quotient.
pub proof fn law_numbers_are_little_endian(x: u64, y: u32)
    ensures
        le64(x).len() == 8,
        le64(x)[0] == x % 256,
        le64(x)[7] == x / 0x100_0000_0000_0000,
        le_value(le64(x)) == x,
        le32(y).len() == 4,
        le32(y)[0] == y % 256,
        le32(y)[3] == y / 0x100_0000,
        le_value(le32(y)) == y,
{
    broadcast use lemma_le_bytes_len;

    lemma_byte_ranges();
    lemma_le_value_of_le_bytes(x as nat, 8);
    lemma_le_value_of_le_bytes(y as nat, 4);
    reveal_with_fuel(le_bytes, 9);
    let n = x as nat;
    assert(n / 256 / 256 / 256 / 256 / 256 / 256 / 256 == n / 0x100_0000_0000_0000);
}

/// The value of some bytes: each counts 256 times the one before it.
pub proof fn law_later_bytes_weigh_more(s: Seq<u8>, b: u8)
    ensures
        le_value(Seq::empty()) == 0,
        le_value(seq![b] + s) == b + 256 * le_value(s),
{
    let t = seq![b] + s;
    assert(t.drop_first() =~= s);
    assert(t[0] == b);
}

} // verus!

//! The 32-byte BLAKE3 digest used throughout the protocol.

use vstd::prelude::*;
use vstd::std_specs::cmp::PartialEqSpecImpl;

use crate::bytes;

verus! {

/// The BLAKE3 digest of `data`.
pub uninterp spec fn blake3_digest(data: Seq<u8>) -> [u8; 32];

/// `blake3::hash`: the digest is a function of the input bytes alone, and is
/// 32 bytes long. Nothing else is claimed of it; in particular, that distinct
/// inputs have distinct digests is not, and the laws of this crate that rest
/// on it say so: they hold unless two of the inputs that they name collide.
#[verifier::external_body]
fn blake3_hash(data: &[u8]) -> (digest: [u8; 32])
    ensures
        digest == blake3_digest(data@),
{
    *blake3::hash(data).as_bytes()
}

/// Whether two different byte strings have one BLAKE3 digest.
pub open spec fn collide(a: Seq<u8>, b: Seq<u8>) -> bool {
    a != b && blake3_digest(a) == blake3_digest(b)
}

/// Whether two of the given hash inputs collide.
pub open spec fn collision_in(inputs: Set<Seq<u8>>) -> bool {
    exists|a: Seq<u8>, b: Seq<u8>|
        inputs.contains(a) && inputs.contains(b) && #[trigger] collide(a, b)
}

/// A 32-byte content hash (BLAKE3).
#[derive(Clone, Copy, Eq, Hash, PartialOrd, Ord, Debug)]
pub struct Hash(pub [u8; 32]);

impl View for Hash {
    type V = Seq<u8>;

    open spec fn view(&self) -> Seq<u8> {
        self.0@
    }
}

impl PartialEqSpecImpl for Hash {
    open spec fn obeys_eq_spec() -> bool {
        true
    }

    open spec fn eq_spec(&self, other: &Hash) -> bool {
        *self == *other
    }
}

impl PartialEq for Hash {
    fn eq(&self, other: &Hash) -> (same: bool) {
        proof {
            lemma_hash_ext(*self, *other);
        }
        bytes::bytes_eq(&self.0, &other.0)
    }
}

/// A hash is its bytes.
pub proof fn lemma_hash_ext(a: Hash, b: Hash)
    ensures
        (a@ == b@) == (a == b),
{
    if a@ == b@ {
        assert(a.0 =~= b.0);
    }
}

/// One length-prefixed part of a structured hash input: the low 32 bits of
/// its length, then its bytes.
pub open spec fn framed(part: Seq<u8>) -> Seq<u8> {
    bytes::le_bytes(part.len() % 0x1_0000_0000, 4) + part
}

/// The parts, framed one after the other.
pub open spec fn framed_parts(parts: Seq<Seq<u8>>) -> Seq<u8>
    decreases parts.len(),
{
    if parts.len() == 0 {
        Seq::empty()
    } else {
        framed(parts[0]) + framed_parts(parts.drop_first())
    }
}

/// The byte stream that a tagged hash digests.
pub open spec fn tagged_preimage(tag: Seq<u8>, parts: Seq<Seq<u8>>) -> Seq<u8> {
    framed(tag) + framed_parts(parts)
}

/// The domain-separated hash of structured input.
pub open spec fn tagged(tag: Seq<u8>, parts: Seq<Seq<u8>>) -> Hash {
    Hash(blake3_digest(tagged_preimage(tag, parts)))
}

/// The contents of a list of byte slices.
pub open spec fn part_views(parts: Seq<&[u8]>) -> Seq<Seq<u8>> {
    Seq::new(parts.len(), |i: int| parts[i]@)
}

/// Whether every length can be framed without truncation.
pub open spec fn frames_fit(tag: Seq<u8>, parts: Seq<Seq<u8>>) -> bool {
    &&& tag.len() < 0x1_0000_0000
    &&& forall|i: int| 0 <= i < parts.len() ==> (#[trigger] parts[i]).len() < 0x1_0000_0000
}

/// Appends one framed part.
fn push_framed(out: &mut Vec<u8>, part: &[u8])
    ensures
        final(out)@ == old(out)@ + framed(part@),
{
    let len: u32 = (part.len() as u64 % 0x1_0000_0000) as u32;
    bytes::push_u32(out, len);
    bytes::push_bytes(out, part);
    assert(out@ =~= old(out)@ + framed(part@));
}

impl Hash {
    /// The all-zero hash.
    pub fn zero() -> (h: Hash)
        ensures
            h@ == Seq::new(32, |i: int| 0u8),
    {
        let h = Hash([0u8; 32]);
        assert(h@ =~= Seq::new(32, |i: int| 0u8));
        h
    }

    /// Hash arbitrary bytes.
    pub fn of(data: &[u8]) -> (h: Hash)
        ensures
            h == Hash(blake3_digest(data@)),
    {
        Hash(blake3_hash(data))
    }

    /// Domain-separated, length-prefixed hash of structured input.
    ///
    /// Every part is prefixed with its u32-LE length, so two different part
    /// lists can never produce the same byte stream (see
    /// [`law_tagged_preimage_injective`]). All consensus-critical hashes use
    /// this; plain concatenation is only safe for fixed-width inputs.
    pub fn of_tagged(tag: &[u8], parts: &[&[u8]]) -> (h: Hash)
        ensures
            h == tagged(tag@, part_views(parts@)),
    {
        let mut out: Vec<u8> = Vec::new();
        push_framed(&mut out, tag);
        let ghost views = part_views(parts@);
        assert(out@ =~= framed(tag@));
        assert(views.skip(0) =~= views);
        let mut i: usize = 0;
        while i < parts.len()
            invariant
                i <= parts@.len(),
                views == part_views(parts@),
                out@ + framed_parts(views.skip(i as int)) == tagged_preimage(tag@, views),
            decreases parts@.len() - i,
        {
            let ghost before = out@;
            push_framed(&mut out, parts[i]);
            proof {
                let rest = views.skip(i as int);
                assert(rest[0] == parts@[i as int]@);
                assert(rest.drop_first() =~= views.skip(i + 1));
                assert(out@ + framed_parts(views.skip(i + 1)) =~= before + framed_parts(rest));
            }
            i += 1;
        }
        assert(views.skip(i as int).len() == 0);
        assert(out@ + framed_parts(views.skip(i as int)) =~= out@);
        Hash(blake3_hash(out.as_slice()))
    }

    pub fn as_bytes(&self) -> (b: &[u8; 32])
        ensures
            *b == self.0,
            b@ == self@,
    {
        &self.0
    }

    /// The display form: `0x` and the 64 lowercase hexadecimal digits.
    pub fn to_hex(&self) -> (s: String)
        ensures
            s@ == "0x"@ + hex_digits(self@),
    {
        let mut s = String::new();
        s.append("0x");
        push_hex(&mut s, &self.0, 32);
        assert(self@.take(32) =~= self@);
        assert(s@ =~= "0x"@ + hex_digits(self@));
        s
    }

    /// The abbreviated form: `0x`, the digits of the first eight bytes, and an
    /// ellipsis.
    pub fn to_short_hex(&self) -> (s: String)
        ensures
            s@ == "0x"@ + hex_digits(self@.take(8)) + "…"@,
    {
        let mut s = String::new();
        s.append("0x");
        push_hex(&mut s, &self.0, 8);
        s.append("…");
        assert(s@ =~= "0x"@ + hex_digits(self@.take(8)) + "…"@);
        s
    }
}

/// Appends the hexadecimal digits of the first `n` bytes.
pub fn push_hex(s: &mut String, data: &[u8], n: usize)
    requires
        n <= data@.len(),
    ensures
        final(s)@ == old(s)@ + hex_digits(data@.take(n as int)),
{
    let ghost start = s@;
    let mut i: usize = 0;
    assert(hex_digits(data@.take(0)) =~= Seq::<char>::empty());
    assert(s@ =~= start + hex_digits(data@.take(0)));
    while i < n
        invariant
            i <= n <= data@.len(),
            s@ == start + hex_digits(data@.take(i as int)),
        decreases n - i,
    {
        let b: u8 = data[i];
        s.push(hex_digit(b / 16));
        s.push(hex_digit(b % 16));
        proof {
            let t = data@.take(i + 1);
            assert(t.drop_last() =~= data@.take(i as int));
            assert(t.last() == b);
            assert(s@ =~= start + hex_digits(t));
        }
        i += 1;
    }
}

/// The lowercase hexadecimal digit of a number below sixteen.
pub open spec fn hex_char(n: int) -> char {
    if n == 0 { '0' } else if n == 1 { '1' } else if n == 2 { '2' } else if n == 3 { '3' }
    else if n == 4 { '4' } else if n == 5 { '5' } else if n == 6 { '6' } else if n == 7 { '7' }
    else if n == 8 { '8' } else if n == 9 { '9' } else if n == 10 { 'a' } else if n == 11 { 'b' }
    else if n == 12 { 'c' } else if n == 13 { 'd' } else if n == 14 { 'e' } else { 'f' }
}

/// Two hexadecimal digits per byte, in order.
pub open spec fn hex_digits(s: Seq<u8>) -> Seq<char>
    decreases s.len(),
{
    if s.len() == 0 {
        Seq::empty()
    } else {
        hex_digits(s.drop_last()) + seq![
            hex_char(s.last() as int / 16),
            hex_char(s.last() as int % 16),
        ]
    }
}

fn hex_digit(n: u8) -> (c: char)
    ensures
        c == hex_char(n as int),
{
    match n {
        0 => '0',
        1 => '1',
        2 => '2',
        3 => '3',
        4 => '4',
        5 => '5',
        6 => '6',
        7 => '7',
        8 => '8',
        9 => '9',
        10 => 'a',
        11 => 'b',
        12 => 'c',
        13 => 'd',
        14 => 'e',
        _ => 'f',
    }
}

/// Framed streams of equal parts continue equally: the first frame and the
/// rest can be read back off the stream.
proof fn lemma_frame_cancel(p: Seq<u8>, x: Seq<u8>, q: Seq<u8>, y: Seq<u8>)
    requires
        framed(p) + x == framed(q) + y,
        p.len() < 0x1_0000_0000,
        q.len() < 0x1_0000_0000,
    ensures
        p == q,
        x == y,
{
    broadcast use bytes::lemma_le_bytes_len;

    let lp = bytes::le_bytes(p.len(), 4);
    let lq = bytes::le_bytes(q.len(), 4);
    assert(framed(p) + x =~= lp + (p + x));
    assert(framed(q) + y =~= lq + (q + y));
    bytes::lemma_concat_cancel(lp, p + x, lq, q + y);
    bytes::lemma_le32_injective(p.len() as u32, q.len() as u32);
    bytes::lemma_concat_cancel(p, x, q, y);
}

proof fn lemma_framed_parts_injective(a: Seq<Seq<u8>>, b: Seq<Seq<u8>>)
    requires
        framed_parts(a) == framed_parts(b),
        forall|i: int| 0 <= i < a.len() ==> (#[trigger] a[i]).len() < 0x1_0000_0000,
        forall|i: int| 0 <= i < b.len() ==> (#[trigger] b[i]).len() < 0x1_0000_0000,
    ensures
        a == b,
    decreases a.len(),
{
    broadcast use bytes::lemma_le_bytes_len;

    if a.len() == 0 {
        assert(framed_parts(a).len() == 0);
        if b.len() > 0 {
            assert(framed(b[0]).len() >= 4);
        }
        assert(a =~= b);
    } else {
        assert(framed(a[0]).len() >= 4);
        assert(b.len() > 0);
        lemma_frame_cancel(
            a[0],
            framed_parts(a.drop_first()),
            b[0],
            framed_parts(b.drop_first()),
        );
        lemma_framed_parts_injective(a.drop_first(), b.drop_first());
        assert(a =~= seq![a[0]] + a.drop_first());
        assert(b =~= seq![b[0]] + b.drop_first());
    }
}

/// Different tags or different part lists never share a hash input, as long
/// as every length fits its 32-bit prefix: no boundary between parts can be
/// moved, and no domain can be mistaken for another.
pub proof fn law_tagged_preimage_injective(
    tag_a: Seq<u8>,
    parts_a: Seq<Seq<u8>>,
    tag_b: Seq<u8>,
    parts_b: Seq<Seq<u8>>,
)
    requires
        frames_fit(tag_a, parts_a),
        frames_fit(tag_b, parts_b),
        tagged_preimage(tag_a, parts_a) == tagged_preimage(tag_b, parts_b),
    ensures
        tag_a == tag_b,
        parts_a == parts_b,
{
    lemma_frame_cancel(tag_a, framed_parts(parts_a), tag_b, framed_parts(parts_b));
    lemma_framed_parts_injective(parts_a, parts_b);
}

/// Under one tag the hash of a single part binds the part, whatever its length,
/// unless the two hash inputs collide.
pub proof fn law_lone_part_binds(tag: Seq<u8>, a: Seq<u8>, b: Seq<u8>)
    requires
        tagged(tag, seq![a]) == tagged(tag, seq![b]),
    ensures
        a == b || collide(tagged_preimage(tag, seq![a]), tagged_preimage(tag, seq![b])),
{
    broadcast use bytes::lemma_le_bytes_len;

    let (x, y) = (tagged_preimage(tag, seq![a]), tagged_preimage(tag, seq![b]));
    if x == y {
        lemma_lone_part(a);
        lemma_lone_part(b);
        bytes::lemma_concat_cancel(framed(tag), framed(a), framed(tag), framed(b));
        bytes::lemma_concat_cancel(
            bytes::le_bytes(a.len() % 0x1_0000_0000, 4),
            a,
            bytes::le_bytes(b.len() % 0x1_0000_0000, 4),
            b,
        );
    } else {
        assert(blake3_digest(x) == blake3_digest(y));
    }
}

proof fn lemma_lone_part(a: Seq<u8>)
    ensures
        framed_parts(seq![a]) == framed(a),
{
    assert(seq![a].drop_first() =~= Seq::<Seq<u8>>::empty());
    assert(framed_parts(seq![a].drop_first()) =~= Seq::<u8>::empty());
    assert(framed_parts(seq![a]) =~= framed(a));
}

/// The same holds of a part of any length with a part of fixed length behind
/// it: the length of the whole gives that of the part away.
pub proof fn law_headed_part_binds(
    tag: Seq<u8>,
    a: Seq<u8>,
    s: Seq<u8>,
    b: Seq<u8>,
    t: Seq<u8>,
)
    requires
        s.len() == t.len(),
        tagged(tag, seq![a, s]) == tagged(tag, seq![b, t]),
    ensures
        (a == b && s == t) || collide(
            tagged_preimage(tag, seq![a, s]),
            tagged_preimage(tag, seq![b, t]),
        ),
{
    broadcast use bytes::lemma_le_bytes_len;

    let (x, y) = (tagged_preimage(tag, seq![a, s]), tagged_preimage(tag, seq![b, t]));
    if x == y {
        assert(seq![a, s].drop_first() =~= seq![s]);
        assert(seq![b, t].drop_first() =~= seq![t]);
        lemma_lone_part(s);
        lemma_lone_part(t);
        bytes::lemma_concat_cancel(
            framed(tag),
            framed(a) + framed(s),
            framed(tag),
            framed(b) + framed(t),
        );
        assert(framed(a).len() == framed(b).len());
        bytes::lemma_concat_cancel(framed(a), framed(s), framed(b), framed(t));
        bytes::lemma_concat_cancel(
            bytes::le_bytes(a.len() % 0x1_0000_0000, 4),
            a,
            bytes::le_bytes(b.len() % 0x1_0000_0000, 4),
            b,
        );
        bytes::lemma_concat_cancel(
            bytes::le_bytes(s.len() % 0x1_0000_0000, 4),
            s,
            bytes::le_bytes(t.len() % 0x1_0000_0000, 4),
            t,
        );
    } else {
        assert(blake3_digest(x) == blake3_digest(y));
    }
}

/// Two tagged hashes agree only if their tags and parts agree, unless the two
/// hash inputs collide.
pub proof fn law_tagged_binds(
    tag_a: Seq<u8>,
    parts_a: Seq<Seq<u8>>,
    tag_b: Seq<u8>,
    parts_b: Seq<Seq<u8>>,
)
    requires
        frames_fit(tag_a, parts_a),
        frames_fit(tag_b, parts_b),
        tagged(tag_a, parts_a) == tagged(tag_b, parts_b),
    ensures
        (tag_a == tag_b && parts_a == parts_b) || collide(
            tagged_preimage(tag_a, parts_a),
            tagged_preimage(tag_b, parts_b),
        ),
{
    let a = tagged_preimage(tag_a, parts_a);
    let b = tagged_preimage(tag_b, parts_b);
    assert(blake3_digest(a) == blake3_digest(b));
    if a == b {
        law_tagged_preimage_injective(tag_a, parts_a, tag_b, parts_b);
    }
}

/// A byte is shown as two hexadecimal digits, the higher one first, in the order
/// of the bytes.
pub proof fn law_hex_shows_every_byte(s: Seq<u8>, i: int)
    requires
        0 <= i < s.len(),
    ensures
        hex_digits(s).len() == 2 * s.len(),
        hex_digits(s)[2 * i] == hex_char(s[i] as int / 16),
        hex_digits(s)[2 * i + 1] == hex_char(s[i] as int % 16),
    decreases s.len(),
{
    let rest = s.drop_last();
    if rest.len() > 0 {
        if i < rest.len() {
            law_hex_shows_every_byte(rest, i);
        } else {
            law_hex_shows_every_byte(rest, 0);
        }
    } else {
        assert(hex_digits(rest) =~= Seq::<char>::empty());
    }
}

/// The hexadecimal digits are the decimal ones and the first letters.
pub proof fn law_hex_digits(n: int)
    requires
        0 <= n < 16,
    ensures
        n < 10 ==> hex_char(n) as int == '0' as int + n,
        n >= 10 ==> hex_char(n) as int == 'a' as int + (n - 10),
{
}

} // verus!

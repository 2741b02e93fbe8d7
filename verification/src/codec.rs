//! The SCALE byte format of the values that the order book stores: integers
//! as little-endian bytes, vectors behind a compact length. The bytes are
//! written and read by `parity_codec`; this module states what they are.
use vstd::prelude::*;

verus! {

/// 256 to the power `n`.
pub open spec fn pow256(n: nat) -> nat
    decreases n,
{
    if n == 0 {
        1
    } else {
        256 * pow256((n - 1) as nat)
    }
}

/// The powers of 256 that the byte widths of this format use.
pub proof fn lemma_pow256_values()
    ensures
        pow256(1) == 0x100,
        pow256(2) == 0x1_0000,
        pow256(4) == 0x1_0000_0000,
        pow256(8) == 0x1_0000_0000_0000_0000,
{
    assert(pow256(0) == 1);
    assert(pow256(1) == 0x100);
    assert(pow256(2) == 0x1_0000);
    assert(pow256(3) == 0x100_0000);
    assert(pow256(4) == 0x1_0000_0000);
    assert(pow256(5) == 0x100_0000_0000);
    assert(pow256(6) == 0x1_0000_0000_0000);
    assert(pow256(7) == 0x100_0000_0000_0000);
    assert(pow256(8) == 0x1_0000_0000_0000_0000);
}

/// The `n` lowest bytes of `x`, least significant first.
pub open spec fn le_bytes(x: nat, n: nat) -> Seq<u8>
    decreases n,
{
    if n == 0 {
        Seq::empty()
    } else {
        seq![(x % 256) as u8] + le_bytes(x / 256, (n - 1) as nat)
    }
}

/// The number whose little-endian bytes are `s`.
pub open spec fn from_le_bytes(s: Seq<u8>) -> nat
    decreases s.len(),
{
    if s.len() == 0 {
        0
    } else {
        s[0] as nat + 256 * from_le_bytes(s.drop_first())
    }
}

/// Reading back the bytes of a number that fits in them gives the number.
pub proof fn lemma_le_bytes_roundtrip(x: nat, n: nat)
    requires
        x < pow256(n),
    ensures
        le_bytes(x, n).len() == n,
        from_le_bytes(le_bytes(x, n)) == x,
    decreases n,
{
    if n > 0 {
        let p = pow256((n - 1) as nat);
        assert(x / 256 < p) by (nonlinear_arith)
            requires
                x < 256 * p,
        ;
        lemma_le_bytes_roundtrip(x / 256, (n - 1) as nat);
        let s = le_bytes(x, n);
        assert(s.drop_first() =~= le_bytes(x / 256, (n - 1) as nat));
        assert(x == x % 256 + 256 * (x / 256)) by (nonlinear_arith);
    }
}

/// Any `n` bytes read as a number below `256^n`.
pub proof fn lemma_from_le_bytes_bound(s: Seq<u8>)
    ensures
        from_le_bytes(s) < pow256(s.len()),
    decreases s.len(),
{
    if s.len() > 0 {
        lemma_from_le_bytes_bound(s.drop_first());
        let a = from_le_bytes(s.drop_first());
        let p = pow256((s.len() - 1) as nat);
        assert(s[0] as nat + 256 * a < 256 * p) by (nonlinear_arith)
            requires
                a < p,
                s[0] < 256,
        ;
    }
}

/// The first byte of the little-endian bytes of `x` is `x % 256`.
pub proof fn lemma_le_bytes_first(x: nat, n: nat)
    requires
        n > 0,
    ensures
        le_bytes(x, n)[0] == x % 256,
{
}

/// The compact encoding of a length: one byte below 2^6, two bytes below
/// 2^14, four bytes below 2^30, else a marker byte and four bytes. The two
/// low bits of the first byte tell which.
pub open spec fn compact_encoding(n: u32) -> Seq<u8> {
    if n < 0x40 {
        le_bytes(n as nat * 4, 1)
    } else if n < 0x4000 {
        le_bytes(n as nat * 4 + 1, 2)
    } else if n < 0x4000_0000 {
        le_bytes(n as nat * 4 + 2, 4)
    } else {
        seq![3u8] + le_bytes(n as nat, 4)
    }
}

/// Reading a compact length from the front of `input`: the length and the
/// number of bytes it took, or nothing where the bytes do not hold one.
pub open spec fn compact_decoding(input: Seq<u8>) -> Option<(u32, nat)> {
    if input.len() < 1 {
        None
    } else {
        let p = input[0];
        if p % 4 == 0 {
            Some(((p / 4) as u32, 1))
        } else if p % 4 == 1 {
            if input.len() >= 2 {
                Some(((from_le_bytes(input.take(2)) / 4) as u32, 2))
            } else {
                None
            }
        } else if p % 4 == 2 {
            if input.len() >= 4 {
                Some(((from_le_bytes(input.take(4)) / 4) as u32, 4))
            } else {
                None
            }
        } else if p / 4 == 0 {
            if input.len() >= 5 {
                Some((from_le_bytes(input.subrange(1, 5)) as u32, 5))
            } else {
                None
            }
        } else {
            None
        }
    }
}

/// The eight bytes of each number, one number after the other.
pub open spec fn u64s_encoding(v: Seq<u64>) -> Seq<u8>
    decreases v.len(),
{
    if v.len() == 0 {
        Seq::empty()
    } else {
        le_bytes(v[0] as nat, 8) + u64s_encoding(v.drop_first())
    }
}

/// Reading `n` numbers of eight bytes each from the front of `input`.
pub open spec fn u64s_decoding(input: Seq<u8>, n: nat) -> Option<(Seq<u64>, nat)>
    decreases n,
{
    if n == 0 {
        Some((Seq::empty(), 0))
    } else if input.len() < 8 {
        None
    } else {
        match u64s_decoding(input.skip(8), (n - 1) as nat) {
            Some((rest, used)) => Some(
                (seq![from_le_bytes(input.take(8)) as u64] + rest, 8 + used),
            ),
            None => None,
        }
    }
}

/// The bytes of a vector of numbers: its compact length, then the numbers.
pub open spec fn u64_vec_encoding(v: Seq<u64>) -> Seq<u8> {
    compact_encoding(v.len() as u32) + u64s_encoding(v)
}

/// Reading a vector of numbers from the front of `input`.
pub open spec fn u64_vec_decoding(input: Seq<u8>) -> Option<(Seq<u64>, nat)> {
    match compact_decoding(input) {
        Some((n, a)) => match u64s_decoding(input.skip(a as int), n as nat) {
            Some((v, b)) => Some((v, a + b)),
            None => None,
        },
        None => None,
    }
}

/// Reading a number of eight bytes from the front of `input`.
pub open spec fn u64_decoding(input: Seq<u8>) -> Option<(u64, nat)> {
    if input.len() >= 8 {
        Some((from_le_bytes(input.take(8)) as u64, 8))
    } else {
        None
    }
}

/// Reading a number of four bytes from the front of `input`.
pub open spec fn u32_decoding(input: Seq<u8>) -> Option<(u32, nat)> {
    if input.len() >= 4 {
        Some((from_le_bytes(input.take(4)) as u32, 4))
    } else {
        None
    }
}

/// Reading a compact length back from its bytes, whatever follows them,
/// gives the length and the number of its bytes.
pub proof fn lemma_compact_roundtrip(n: u32, rest: Seq<u8>)
    ensures
        compact_decoding(compact_encoding(n) + rest) == Some((n, compact_encoding(n).len())),
{
    let e = compact_encoding(n);
    let s = e + rest;
    if n < 0x40 {
        let x = n as nat * 4;
        lemma_pow256_values();
        lemma_le_bytes_roundtrip(x, 1);
        assert(s[0] == x % 256);
        assert(x % 256 == x);
        assert(s[0] % 4 == 0 && s[0] / 4 == n);
    } else if n < 0x4000 {
        let x = n as nat * 4 + 1;
        lemma_pow256_values();
        lemma_le_bytes_roundtrip(x, 2);
        lemma_le_bytes_first(x, 2);
        assert(s[0] == e[0]);
        assert((x % 256) % 4 == 1) by (nonlinear_arith)
            requires
                x == n as nat * 4 + 1,
        ;
        assert(s.take(2) =~= e);
        assert(x / 4 == n);
    } else if n < 0x4000_0000 {
        let x = n as nat * 4 + 2;
        lemma_pow256_values();
        lemma_le_bytes_roundtrip(x, 4);
        lemma_le_bytes_first(x, 4);
        assert(s[0] == e[0]);
        assert((x % 256) % 4 == 2) by (nonlinear_arith)
            requires
                x == n as nat * 4 + 2,
        ;
        assert(s.take(4) =~= e);
        assert(x / 4 == n);
    } else {
        lemma_pow256_values();
        lemma_le_bytes_roundtrip(n as nat, 4);
        assert(s[0] == 3u8);
        assert(s.subrange(1, 5) =~= le_bytes(n as nat, 4));
    }
}

/// Reading numbers back from their bytes, whatever follows them, gives the
/// numbers and the number of their bytes.
pub proof fn lemma_u64s_roundtrip(v: Seq<u64>, rest: Seq<u8>)
    ensures
        u64s_encoding(v).len() == 8 * v.len(),
        u64s_decoding(u64s_encoding(v) + rest, v.len()) == Some((v, u64s_encoding(v).len())),
    decreases v.len(),
{
    if v.len() > 0 {
        lemma_pow256_values();
        lemma_le_bytes_roundtrip(v[0] as nat, 8);
        lemma_u64s_roundtrip(v.drop_first(), rest);
        let e = u64s_encoding(v) + rest;
        let head = le_bytes(v[0] as nat, 8);
        assert(e.take(8) =~= head);
        assert(e.skip(8) =~= u64s_encoding(v.drop_first()) + rest);
        assert(seq![v[0]] + v.drop_first() =~= v);
    }
}

/// Reading a vector of numbers back from its bytes, whatever follows them,
/// gives the vector and the number of its bytes.
pub proof fn lemma_u64_vec_roundtrip(v: Seq<u64>, rest: Seq<u8>)
    requires
        v.len() <= u32::MAX,
    ensures
        u64_vec_decoding(u64_vec_encoding(v) + rest) == Some((v, u64_vec_encoding(v).len())),
{
    let c = compact_encoding(v.len() as u32);
    let body = u64s_encoding(v);
    lemma_compact_roundtrip(v.len() as u32, body + rest);
    assert(u64_vec_encoding(v) + rest =~= c + (body + rest));
    assert((c + (body + rest)).skip(c.len() as int) =~= body + rest);
    lemma_u64s_roundtrip(v, rest);
}

/// Reading a number back from its bytes, whatever follows them, gives the
/// number and eight.
pub proof fn lemma_u64_roundtrip(x: u64, rest: Seq<u8>)
    ensures
        le_bytes(x as nat, 8).len() == 8,
        u64_decoding(le_bytes(x as nat, 8) + rest) == Some((x, 8nat)),
{
    lemma_pow256_values();
    lemma_le_bytes_roundtrip(x as nat, 8);
    assert((le_bytes(x as nat, 8) + rest).take(8) =~= le_bytes(x as nat, 8));
}

/// Reading a number back from its four bytes, whatever follows them, gives
/// the number and four.
pub proof fn lemma_u32_roundtrip(x: u32, rest: Seq<u8>)
    ensures
        le_bytes(x as nat, 4).len() == 4,
        u32_decoding(le_bytes(x as nat, 4) + rest) == Some((x, 4nat)),
{
    lemma_pow256_values();
    lemma_le_bytes_roundtrip(x as nat, 4);
    assert((le_bytes(x as nat, 4) + rest).take(4) =~= le_bytes(x as nat, 4));
}

/// A value with a SCALE byte format: `encoding` gives the bytes of a value
/// (one that `encodable` admits), `decoding` reads a value from the front of
/// some bytes and says how many it took, and reading the bytes of a value
/// gives the value back.
pub trait ScaleCodec: View + Sized {
    spec fn encodable(v: Self::V) -> bool;

    spec fn encoding(v: Self::V) -> Seq<u8>;

    spec fn decoding(input: Seq<u8>) -> Option<(Self::V, nat)>;

    proof fn lemma_roundtrip(v: Self::V, rest: Seq<u8>)
        requires
            Self::encodable(v),
        ensures
            Self::decoding(Self::encoding(v) + rest) == Some((v, Self::encoding(v).len())),
    ;

    fn encode_to(&self, dest: &mut Vec<u8>)
        requires
            Self::encodable(self@),
        ensures
            final(dest)@ == old(dest)@ + Self::encoding(self@),
    ;

    fn decode(input: &[u8]) -> (r: Option<(Self, usize)>)
        ensures
            match Self::decoding(input@) {
                Some((v, used)) => r matches Some((x, left)) && x@ == v && left == input@.len()
                    - used,
                None => r is None,
            },
    ;
}

impl ScaleCodec for u64 {
    open spec fn encodable(v: u64) -> bool {
        true
    }

    open spec fn encoding(v: u64) -> Seq<u8> {
        le_bytes(v as nat, 8)
    }

    open spec fn decoding(input: Seq<u8>) -> Option<(u64, nat)> {
        u64_decoding(input)
    }

    proof fn lemma_roundtrip(v: u64, rest: Seq<u8>) {
        lemma_u64_roundtrip(v, rest);
    }

    fn encode_to(&self, dest: &mut Vec<u8>) {
        encode_u64_to(*self, dest);
    }

    fn decode(input: &[u8]) -> (r: Option<(u64, usize)>) {
        match decode_u64(input) {
            Some((x, left)) => {
                proof {
                    lemma_from_le_bytes_bound(input@.take(8));
                    lemma_pow256_values();
                }
                Some((x, left))
            },
            None => None,
        }
    }
}

impl ScaleCodec for u32 {
    open spec fn encodable(v: u32) -> bool {
        true
    }

    open spec fn encoding(v: u32) -> Seq<u8> {
        le_bytes(v as nat, 4)
    }

    open spec fn decoding(input: Seq<u8>) -> Option<(u32, nat)> {
        u32_decoding(input)
    }

    proof fn lemma_roundtrip(v: u32, rest: Seq<u8>) {
        lemma_u32_roundtrip(v, rest);
    }

    fn encode_to(&self, dest: &mut Vec<u8>) {
        encode_u32_to(*self, dest);
    }

    fn decode(input: &[u8]) -> (r: Option<(u32, usize)>) {
        match decode_u32(input) {
            Some((x, left)) => {
                proof {
                    lemma_from_le_bytes_bound(input@.take(4));
                    lemma_pow256_values();
                }
                Some((x, left))
            },
            None => None,
        }
    }
}

impl ScaleCodec for () {
    open spec fn encodable(v: ()) -> bool {
        true
    }

    open spec fn encoding(v: ()) -> Seq<u8> {
        Seq::empty()
    }

    open spec fn decoding(input: Seq<u8>) -> Option<((), nat)> {
        Some(((), 0))
    }

    proof fn lemma_roundtrip(v: (), rest: Seq<u8>) {
    }

    fn encode_to(&self, dest: &mut Vec<u8>) {
        assert(dest@ =~= dest@ + Seq::<u8>::empty());
    }

    fn decode(input: &[u8]) -> (r: Option<((), usize)>) {
        Some(((), input.len()))
    }
}

impl ScaleCodec for Vec<u64> {
    open spec fn encodable(v: Seq<u64>) -> bool {
        v.len() <= u32::MAX
    }

    open spec fn encoding(v: Seq<u64>) -> Seq<u8> {
        u64_vec_encoding(v)
    }

    open spec fn decoding(input: Seq<u8>) -> Option<(Seq<u64>, nat)> {
        u64_vec_decoding(input)
    }

    proof fn lemma_roundtrip(v: Seq<u64>, rest: Seq<u8>) {
        lemma_u64_vec_roundtrip(v, rest);
    }

    fn encode_to(&self, dest: &mut Vec<u8>) {
        encode_u64_vec_to(self, dest);
    }

    fn decode(input: &[u8]) -> (r: Option<(Vec<u64>, usize)>) {
        decode_u64_vec(input)
    }
}

/// Appends the eight little-endian bytes of `x` to `dest`, by
/// `parity_codec::Encode::encode_to` for `u64`.
#[verifier::external_body]
pub(crate) fn encode_u64_to(x: u64, dest: &mut Vec<u8>)
    ensures
        final(dest)@ == old(dest)@ + le_bytes(x as nat, 8),
{
    parity_codec::Encode::encode_to(&x, dest);
}

/// Appends the four little-endian bytes of `x` to `dest`, by
/// `parity_codec::Encode::encode_to` for `u32`.
#[verifier::external_body]
pub(crate) fn encode_u32_to(x: u32, dest: &mut Vec<u8>)
    ensures
        final(dest)@ == old(dest)@ + le_bytes(x as nat, 4),
{
    parity_codec::Encode::encode_to(&x, dest);
}

/// Appends the bytes of a vector of numbers (compact length, then eight
/// little-endian bytes for each number) to `dest`, by
/// `parity_codec::Encode::encode_to` for `Vec<u64>`, which panics on more
/// than `u32::MAX` elements.
#[verifier::external_body]
pub(crate) fn encode_u64_vec_to(v: &Vec<u64>, dest: &mut Vec<u8>)
    requires
        v@.len() <= u32::MAX,
    ensures
        final(dest)@ == old(dest)@ + u64_vec_encoding(v@),
{
    parity_codec::Encode::encode_to(v, dest);
}

/// Reads a `u64` from the front of `input`, by `parity_codec::Decode::decode`
/// for `u64`: eight little-endian bytes, or nothing where fewer remain.
/// Returns the number and how many bytes of `input` are left after it.
#[verifier::external_body]
pub(crate) fn decode_u64(input: &[u8]) -> (r: Option<(u64, usize)>)
    ensures
        match r {
            Some((x, left)) => input@.len() >= 8 && x as nat == from_le_bytes(input@.take(8))
                && left == input@.len() - 8,
            None => input@.len() < 8,
        },
{
    let mut rest: &[u8] = input;
    match <u64 as parity_codec::Decode>::decode(&mut rest) {
        Some(x) => Some((x, rest.len())),
        None => None,
    }
}

/// Reads a `u32` from the front of `input`, by `parity_codec::Decode::decode`
/// for `u32`: four little-endian bytes, or nothing where fewer remain.
/// Returns the number and how many bytes of `input` are left after it.
#[verifier::external_body]
pub(crate) fn decode_u32(input: &[u8]) -> (r: Option<(u32, usize)>)
    ensures
        match r {
            Some((x, left)) => input@.len() >= 4 && x as nat == from_le_bytes(input@.take(4))
                && left == input@.len() - 4,
            None => input@.len() < 4,
        },
{
    let mut rest: &[u8] = input;
    match <u32 as parity_codec::Decode>::decode(&mut rest) {
        Some(x) => Some((x, rest.len())),
        None => None,
    }
}

/// Reads a vector of numbers from the front of `input`, by
/// `parity_codec::Decode::decode` for `Vec<u64>`: a compact length, then that
/// many numbers of eight little-endian bytes. Returns the vector and how
/// many bytes of `input` are left after it.
#[verifier::external_body]
pub(crate) fn decode_u64_vec(input: &[u8]) -> (r: Option<(Vec<u64>, usize)>)
    ensures
        match u64_vec_decoding(input@) {
            Some((v, used)) => r matches Some((x, left)) && x@ == v && left == input@.len() - used,
            None => r is None,
        },
{
    let mut rest: &[u8] = input;
    match <Vec<u64> as parity_codec::Decode>::decode(&mut rest) {
        Some(v) => Some((v, rest.len())),
        None => None,
    }
}

} // verus!

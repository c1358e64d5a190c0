//! Big-endian integer encoding and bit counting.

use vstd::prelude::*;

verus! {

/// The two bytes of `a`, most significant first.
pub open spec fn spec_u16_to_be(a: u16) -> Seq<u8> {
    seq![(a / 0x100) as u8, (a % 0x100) as u8]
}

/// The number whose big-endian bytes are the first two of `b`.
pub open spec fn spec_u16_from_be(b: Seq<u8>) -> u16 {
    (b[0] as int * 0x100 + b[1] as int) as u16
}

/// The four bytes of `a`, most significant first.
pub open spec fn spec_u32_to_be(a: u32) -> Seq<u8> {
    seq![
        (a / 0x100_0000) as u8,
        (a / 0x1_0000 % 0x100) as u8,
        (a / 0x100 % 0x100) as u8,
        (a % 0x100) as u8,
    ]
}

/// The number whose big-endian bytes are the first four of `b`.
pub open spec fn spec_u32_from_be(b: Seq<u8>) -> u32 {
    (b[0] as int * 0x100_0000 + b[1] as int * 0x1_0000 + b[2] as int * 0x100 + b[3] as int) as u32
}

/// The eight bytes of `a`, most significant first.
pub open spec fn spec_u64_to_be(a: u64) -> Seq<u8> {
    spec_u32_to_be((a / 0x1_0000_0000) as u32) + spec_u32_to_be((a % 0x1_0000_0000) as u32)
}

/// The number whose big-endian bytes are the first eight of `b`.
pub open spec fn spec_u64_from_be(b: Seq<u8>) -> u64 {
    (spec_u32_from_be(b.subrange(0, 4)) as int * 0x1_0000_0000 + spec_u32_from_be(
        b.subrange(4, 8),
    ) as int) as u64
}

/// Whether bit `k` of `n` is set, bit 0 being the least significant.
pub open spec fn bit_of(n: u64, k: nat) -> bool {
    (n >> (k as u64)) & 1 == 1
}

/// How many of the lowest `k` bits of `n` are set.
pub open spec fn ones_below(n: u64, k: nat) -> nat
    decreases k,
{
    if k == 0 {
        0
    } else {
        ones_below(n, (k - 1) as nat) + if bit_of(n, (k - 1) as nat) {
            1nat
        } else {
            0nat
        }
    }
}

/// Decoding undoes encoding.
pub proof fn lemma_u16_be_round_trip(a: u16)
    ensures
        spec_u16_to_be(a).len() == 2,
        spec_u16_from_be(spec_u16_to_be(a)) == a,
{
}

/// Encoding undoes decoding of a two-byte sequence.
pub proof fn lemma_u16_be_bytes_round_trip(b: Seq<u8>)
    requires
        b.len() == 2,
    ensures
        spec_u16_to_be(spec_u16_from_be(b)) == b,
{
    assert(spec_u16_to_be(spec_u16_from_be(b)) =~= b);
}

/// Decoding undoes encoding.
pub proof fn lemma_u32_be_round_trip(a: u32)
    ensures
        spec_u32_to_be(a).len() == 4,
        spec_u32_from_be(spec_u32_to_be(a)) == a,
{
}

/// Encoding undoes decoding of a four-byte sequence.
pub proof fn lemma_u32_be_bytes_round_trip(b: Seq<u8>)
    requires
        b.len() == 4,
    ensures
        spec_u32_to_be(spec_u32_from_be(b)) == b,
{
    lemma_be_digits(b[0], b[1], b[2], b[3]);
    assert(spec_u32_to_be(spec_u32_from_be(b)) =~= b);
}

/// The base-256 digits of a number built from four bytes are those bytes.
proof fn lemma_be_digits(b0: u8, b1: u8, b2: u8, b3: u8)
    ensures
        ({
            let n = b0 as int * 0x100_0000 + b1 as int * 0x1_0000 + b2 as int * 0x100 + b3 as int;
            &&& 0 <= n < 0x1_0000_0000
            &&& n / 0x100_0000 == b0
            &&& n / 0x1_0000 % 0x100 == b1
            &&& n / 0x100 % 0x100 == b2
            &&& n % 0x100 == b3
        }),
{
    let n = b0 as int * 0x100_0000 + b1 as int * 0x1_0000 + b2 as int * 0x100 + b3 as int;
    let hi2 = b0 as int * 0x100 + b1 as int;
    let hi3 = hi2 * 0x100 + b2 as int;
    assert(n == hi3 * 0x100 + b3 as int);
    assert(n / 0x100 == hi3);
    assert(n / 0x1_0000 == hi2);
    assert(n / 0x100_0000 == b0 as int);
}

/// Decoding undoes encoding.
pub proof fn lemma_u64_be_round_trip(a: u64)
    ensures
        spec_u64_to_be(a).len() == 8,
        spec_u64_from_be(spec_u64_to_be(a)) == a,
{
    let hi = (a / 0x1_0000_0000) as u32;
    let lo = (a % 0x1_0000_0000) as u32;
    lemma_u32_be_round_trip(hi);
    lemma_u32_be_round_trip(lo);
    assert(spec_u64_to_be(a).subrange(0, 4) =~= spec_u32_to_be(hi));
    assert(spec_u64_to_be(a).subrange(4, 8) =~= spec_u32_to_be(lo));
}

/// Encoding undoes decoding of an eight-byte sequence.
pub proof fn lemma_u64_be_bytes_round_trip(b: Seq<u8>)
    requires
        b.len() == 8,
    ensures
        spec_u64_to_be(spec_u64_from_be(b)) == b,
{
    let h = b.subrange(0, 4);
    let l = b.subrange(4, 8);
    lemma_u32_be_bytes_round_trip(h);
    lemma_u32_be_bytes_round_trip(l);
    lemma_be_digits(h[0], h[1], h[2], h[3]);
    lemma_be_digits(l[0], l[1], l[2], l[3]);
    let hi = spec_u32_from_be(h);
    let lo = spec_u32_from_be(l);
    let n = spec_u64_from_be(b);
    assert(n == hi as int * 0x1_0000_0000 + lo as int);
    assert(n as int / 0x1_0000_0000 == hi as int);
    assert(n as int % 0x1_0000_0000 == lo as int);
    assert(spec_u64_to_be(n) == spec_u32_to_be(hi) + spec_u32_to_be(lo));
    assert(h + l =~= b);
}

pub fn u16_to_u8arr(a: u16) -> (arr: [u8; 2])
    ensures
        arr@ == spec_u16_to_be(a),
{
    let mut arr = [0u8;2];
    arr[0] = (a / 0x100) as u8;
    arr[1] = (a % 0x100) as u8;
    assert(arr@ =~= spec_u16_to_be(a));
    arr
}

pub fn u32_to_u8arr(a: u32) -> (arr: [u8; 4])
    ensures
        arr@ == spec_u32_to_be(a),
{
    let mut arr = [0u8;4];
    arr[0] = (a / 0x100_0000) as u8;
    arr[1] = (a / 0x1_0000 % 0x100) as u8;
    arr[2] = (a / 0x100 % 0x100) as u8;
    arr[3] = (a % 0x100) as u8;
    assert(arr@ =~= spec_u32_to_be(a));
    arr
}

pub fn u64_to_u8arr(a: u64) -> (arr: [u8; 8])
    ensures
        arr@ == spec_u64_to_be(a),
{
    let hi = u32_to_u8arr((a / 0x1_0000_0000) as u32);
    let lo = u32_to_u8arr((a % 0x1_0000_0000) as u32);
    let mut arr = [0u8;8];
    let mut i: usize = 0;
    while i < 4
        invariant
            i <= 4,
            forall|j: int| 0 <= j < i ==> arr@[j] == hi@[j] && arr@[j + 4] == lo@[j],
        decreases 4 - i,
    {
        arr[i] = hi[i];
        arr[i + 4] = lo[i];
        i += 1;
    }
    assert(arr@ =~= spec_u64_to_be(a));
    arr
}

pub fn u8arr_to_u16(arr: &[u8]) -> (a: u16)
    requires
        arr@.len() == 2,
    ensures
        a == spec_u16_from_be(arr@),
{
    (arr[0] as u16) * 0x100 + (arr[1] as u16)
}

pub fn u8arr_to_u32(arr: &[u8]) -> (a: u32)
    requires
        arr@.len() == 4,
    ensures
        a == spec_u32_from_be(arr@),
{
    (arr[0] as u32) * 0x100_0000 + (arr[1] as u32) * 0x1_0000 + (arr[2] as u32) * 0x100 + (
    arr[3] as u32)
}

pub fn u8arr_to_u64(arr: &[u8]) -> (a: u64)
    requires
        arr@.len() == 8,
    ensures
        a == spec_u64_from_be(arr@),
{
    let hi: u64 = (arr[0] as u64) * 0x100_0000 + (arr[1] as u64) * 0x1_0000 + (arr[2] as u64)
        * 0x100 + (arr[3] as u64);
    let lo: u64 = (arr[4] as u64) * 0x100_0000 + (arr[5] as u64) * 0x1_0000 + (arr[6] as u64)
        * 0x100 + (arr[7] as u64);
    hi * 0x1_0000_0000 + lo
}

/// The number of set bits among the lowest `k` of `n`.
pub fn count_ones_below(n: u64, k: u32) -> (a: u32)
    requires
        k <= 64,
    ensures
        a == ones_below(n, k as nat),
        a <= k,
{
    let mut a: u32 = 0;
    let mut j: u32 = 0;
    while j < k
        invariant
            j <= k <= 64,
            a == ones_below(n, j as nat),
            a <= j,
        decreases k - j,
    {
        if (n >> (j as u64)) & 1 == 1 {
            a += 1;
        }
        j += 1;
    }
    a
}

/// The number of set bits among the 64 of `n`.
pub fn count_ones_in_u64(n: u64) -> (a: u32)
    ensures
        a == ones_below(n, 64),
        a <= 64,
{
    count_ones_below(n, 64)
}

/// The number that the four bytes of `bytes` from `off` on stand for.
pub open spec fn u32_at(bytes: Seq<u8>, off: int) -> u32 {
    spec_u32_from_be(bytes.subrange(off, off + 4))
}

/// The bytes of the numbers `vals`, four to a number.
pub open spec fn spec_u32s_to_be(vals: Seq<u32>) -> Seq<u8> {
    Seq::new(vals.len() * 4, |k: int| spec_u32_to_be(vals[k / 4])[k % 4])
}

/// The first `n` numbers that `bytes` hold, four bytes to a number.
pub open spec fn spec_u32s_from_be(bytes: Seq<u8>, n: nat) -> Seq<u32> {
    Seq::new(n, |i: int| u32_at(bytes, 4 * i))
}

/// Reading numbers back from their own bytes, whatever follows them, gives
/// the same numbers.
pub proof fn lemma_u32s_round_trip(vals: Seq<u32>, tail: Seq<u8>)
    ensures
        spec_u32s_to_be(vals).len() == 4 * vals.len(),
        spec_u32s_from_be(spec_u32s_to_be(vals) + tail, vals.len()) == vals,
{
    let b = spec_u32s_to_be(vals) + tail;
    assert forall|i: int| 0 <= i < vals.len() implies u32_at(b, 4 * i) == vals[i] by {
        lemma_u32_be_round_trip(vals[i]);
        assert(b.subrange(4 * i, 4 * i + 4) =~= spec_u32_to_be(vals[i]));
    }
    assert(spec_u32s_from_be(b, vals.len()) =~= vals);
}

/// The bytes of a list with one more number are the list's bytes and then
/// that number's.
pub proof fn lemma_u32s_push(vals: Seq<u32>, a: u32)
    ensures
        spec_u32s_to_be(vals.push(a)) == spec_u32s_to_be(vals) + spec_u32_to_be(a),
{
    assert(spec_u32s_to_be(vals.push(a)) =~= spec_u32s_to_be(vals) + spec_u32_to_be(a));
}

/// Appends the four big-endian bytes of `a` to `v`.
pub fn push_u32(v: &mut Vec<u8>, a: u32)
    ensures
        final(v)@ == old(v)@ + spec_u32_to_be(a),
{
    let arr = u32_to_u8arr(a);
    v.push(arr[0]);
    v.push(arr[1]);
    v.push(arr[2]);
    v.push(arr[3]);
    assert(v@ =~= old(v)@ + spec_u32_to_be(a));
}

/// Reads the number that the four bytes of `buf` from `off` on stand for.
pub fn read_u32(buf: &Vec<u8>, off: usize) -> (a: u32)
    requires
        off + 4 <= buf@.len(),
    ensures
        a == u32_at(buf@, off as int),
{
    let n: usize = buf.len();
    u8arr_to_u32(vstd::slice::slice_subrange(buf.as_slice(), off, off + 4))
}

} // verus!

//! Allocation bitmaps: one bit per address, set when the address is taken.
//!
//! Bit `p` lives in word `p / 64` at bit `p % 64`; on disk each word is
//! eight bytes, most significant first.

use vstd::prelude::*;
use crate::sedes::{Deserialize, SedesError, Serialize, too_small};
use super::disk::BLOCK_SIZE;
use super::utils::{
    bit_of, count_ones_below, lemma_u64_be_round_trip, ones_below, spec_u64_from_be,
    spec_u64_to_be, u64_to_u8arr, u8arr_to_u64,
};

verus! {

/// Number of 64-bit words in the bitmap of one block.
pub const BITMAP_SIZE: usize = 128;

/// Number of bits in the bitmap of one block.
pub const BLOCK_BITS: u32 = 8192;

#[derive(Debug, Clone, Copy, PartialEq, Eq, Structural)]
pub enum BitmapError {
    /// A position at or beyond the bitmap's capacity.
    InvalidPos,
}

/// How many entries of `s` are `false`.
pub open spec fn count_false(s: Seq<bool>) -> nat
    decreases s.len(),
{
    if s.len() == 0 {
        0
    } else {
        count_false(s.drop_last()) + if s.last() {
            0nat
        } else {
            1nat
        }
    }
}

/// Whether `p` is the lowest position of `s` that holds `false`.
pub open spec fn is_first_false(s: Seq<bool>, p: int) -> bool {
    &&& 0 <= p < s.len()
    &&& !s[p]
    &&& forall|q: int| 0 <= q < p ==> s[q]
}

/// Whether every entry of `s` is `true`.
pub open spec fn all_true(s: Seq<bool>) -> bool {
    forall|q: int| 0 <= q < s.len() ==> s[q]
}

/// The bits that the words `words` hold, lowest bit of the first word first.
pub open spec fn bits_of_words(words: Seq<u64>) -> Seq<bool> {
    Seq::new(words.len() * 64, |p: int| bit_of(words[p / 64], (p % 64) as nat))
}

/// The words that `bytes` hold, eight bytes to a word.
pub open spec fn words_of_bytes(bytes: Seq<u8>) -> Seq<u64> {
    Seq::new((bytes.len() / 8) as nat, |w: int| spec_u64_from_be(bytes.subrange(8 * w, 8 * w + 8)))
}

/// The bytes that stand for `words` on disk.
pub open spec fn bytes_of_words(words: Seq<u64>) -> Seq<u8> {
    Seq::new(words.len() * 8, |k: int| spec_u64_to_be(words[k / 8])[k % 8])
}

/// The bits that a run of bytes holds when read as a bitmap.
pub open spec fn bits_of_bytes(bytes: Seq<u8>) -> Seq<bool> {
    bits_of_words(words_of_bytes(bytes))
}

/// Reading words back from their bytes gives the same words.
pub proof fn lemma_words_round_trip(words: Seq<u64>)
    ensures
        bytes_of_words(words).len() == words.len() * 8,
        words_of_bytes(bytes_of_words(words)) == words,
        bits_of_bytes(bytes_of_words(words)) == bits_of_words(words),
{
    let bytes = bytes_of_words(words);
    let n = words.len() as int;
    assert(bytes.len() == n * 8);
    assert((n * 8) / 8 == n);
    assert(words_of_bytes(bytes).len() == n);
    assert forall|w: int| 0 <= w < n implies words_of_bytes(bytes)[w] == words[w] by {
        let enc = spec_u64_to_be(words[w]);
        lemma_u64_be_round_trip(words[w]);
        let part = bytes.subrange(8 * w, 8 * w + 8);
        assert(part.len() == 8);
        assert forall|j: int| 0 <= j < 8 implies part[j] == enc[j] by {
            let k = 8 * w + j;
            assert(0 <= k < n * 8);
            assert(k / 8 == w && k % 8 == j);
            assert(part[j] == bytes[k]);
            assert(bytes[k] == spec_u64_to_be(words[k / 8])[k % 8]);
        }
        assert(part =~= enc);
        assert(words_of_bytes(bytes)[w] == spec_u64_from_be(part));
    }
    assert(words_of_bytes(bytes) =~= words);
}

/// A set bit stays in a prefix count; a clear one adds to it.
pub proof fn lemma_count_false_step(s: Seq<bool>, n: int)
    requires
        0 <= n < s.len(),
    ensures
        count_false(s.take(n + 1)) == count_false(s.take(n)) + if s[n] {
            0nat
        } else {
            1nat
        },
        count_false(s.take(n)) <= n,
    decreases n,
{
    assert(s.take(n + 1).drop_last() =~= s.take(n));
    if n > 0 {
        lemma_count_false_step(s, n - 1);
    }
}

/// Setting a clear bit lowers the count of clear bits by one, clearing a
/// set bit raises it by one, and writing a bit's own value changes nothing.
pub proof fn lemma_count_false_update(s: Seq<bool>, p: int, v: bool)
    requires
        0 <= p < s.len(),
    ensures
        count_false(s.update(p, v)) + (if s[p] { 0nat } else { 1nat })
            == count_false(s) + (if v { 0nat } else { 1nat }),
    decreases s.len(),
{
    let t = s.update(p, v);
    if p == s.len() - 1 {
        assert(t.drop_last() =~= s.drop_last());
    } else {
        assert(t.drop_last() =~= s.drop_last().update(p, v));
        lemma_count_false_update(s.drop_last(), p, v);
    }
}

/// Where every bit that is set in `b` is set in `a`, `a` has at most as
/// many clear bits as `b`.
pub proof fn lemma_count_false_mono(a: Seq<bool>, b: Seq<bool>)
    requires
        a.len() == b.len(),
        forall|p: int| 0 <= p < b.len() && b[p] ==> a[p],
    ensures
        count_false(a) <= count_false(b),
    decreases a.len(),
{
    if a.len() > 0 {
        assert forall|p: int| 0 <= p < b.drop_last().len() && b.drop_last()[p] implies a.drop_last()[p] by {
            assert(b[p]);
        }
        lemma_count_false_mono(a.drop_last(), b.drop_last());
    }
}

/// Among the first `64 * w + k` bits, the clear ones are those among the
/// first `64 * w` and those among the lowest `k` of word `w`.
proof fn lemma_count_false_word(words: Seq<u64>, w: int, k: nat)
    requires
        0 <= w < words.len(),
        k <= 64,
    ensures
        count_false(bits_of_words(words).take(64 * w + k)) == count_false(
            bits_of_words(words).take(64 * w),
        ) + k - ones_below(words[w], k),
        ones_below(words[w], k) <= k,
    decreases k,
{
    if k > 0 {
        lemma_count_false_word(words, w, (k - 1) as nat);
        lemma_count_false_step(bits_of_words(words), 64 * w + k - 1);
    }
}

proof fn lemma_bit_set(m: u64, k: u64)
    requires
        k < 64,
    ensures
        forall|j: u64| j < 64 ==> (#[trigger] (((m | (1u64 << k)) >> j) & 1) == 1) == (j == k || ((m >> j) & 1) == 1),
{
    assert(forall|j: u64| j < 64 ==> (#[trigger] (((m | (1u64 << k)) >> j) & 1) == 1) == (j == k || ((m >> j) & 1) == 1)) by (bit_vector)
        requires
            k < 64,
    ;
}

proof fn lemma_bit_clear(m: u64, k: u64)
    requires
        k < 64,
    ensures
        forall|j: u64| j < 64 ==> (#[trigger] (((m & !(1u64 << k)) >> j) & 1) == 1) == (j != k && ((m >> j) & 1) == 1),
{
    assert(forall|j: u64| j < 64 ==> (#[trigger] (((m & !(1u64 << k)) >> j) & 1) == 1) == (j != k && ((m >> j) & 1) == 1)) by (bit_vector)
        requires
            k < 64,
    ;
}

proof fn lemma_bits_full(m: u64)
    requires
        m == 0xffff_ffff_ffff_ffffu64,
    ensures
        forall|j: u64| j < 64 ==> (#[trigger] ((m >> j) & 1)) == 1,
{
    assert(forall|j: u64| j < 64 ==> (#[trigger] ((m >> j) & 1)) == 1) by (bit_vector)
        requires
            m == 0xffff_ffff_ffff_ffffu64,
    ;
}

/// The bitmap held in one block: 8192 bits.
#[derive(Clone, Copy)]
pub struct BlockBitmap {
    data: [u64; BITMAP_SIZE],
}

impl View for BlockBitmap {
    type V = Seq<bool>;

    closed spec fn view(&self) -> Seq<bool> {
        bits_of_words(self.data@)
    }
}

impl BlockBitmap {
    /// The 128 words of the bitmap.
    pub closed spec fn words(&self) -> Seq<u64> {
        self.data@
    }

    /// The bits are those of the words, and there are 8192 of them.
    pub broadcast proof fn lemma_view(&self)
        ensures
            #[trigger] self@ == bits_of_words(self.words()),
            self.words().len() == BITMAP_SIZE,
            self@.len() == BLOCK_BITS,
    {
    }

    /// A bitmap with every bit clear.
    pub fn new() -> (b: Self)
        ensures
            b@ == Seq::new(BLOCK_BITS as nat, |p: int| false),
    {
        let b = BlockBitmap { data: [0u64;BITMAP_SIZE] };
        proof {
            assert(forall|j: u64| j < 64 ==> (#[trigger] ((0u64 >> j) & 1)) == 0) by (bit_vector);
            assert forall|p: int| 0 <= p < BLOCK_BITS implies b@[p] == false by {
                let j = (p % 64) as u64;
                assert(((0u64 >> j) & 1) == 0);
            }
            assert(b@ =~= Seq::new(BLOCK_BITS as nat, |p: int| false));
        }
        b
    }

    /// The word that holds bit `pos`.
    pub fn get_u64(&self, pos: u32) -> (r: Result<u64, BitmapError>)
        ensures
            r is Ok <==> pos < BLOCK_BITS,
            r is Ok ==> r->Ok_0 == self.words()[pos as int / 64],
            r is Err ==> r->Err_0 == BitmapError::InvalidPos,
    {
        if pos >= BLOCK_BITS {
            return Err(BitmapError::InvalidPos);
        }
        Ok(self.data[(pos / 64) as usize])
    }

    /// Replaces the word that holds bit `pos`.
    pub fn set_u64(&mut self, pos: u32, map: u64) -> (r: Result<(), BitmapError>)
        ensures
            r is Ok <==> pos < BLOCK_BITS,
            r is Ok ==> final(self).words() == old(self).words().update(pos as int / 64, map),
            r is Err ==> r->Err_0 == BitmapError::InvalidPos && *final(self) == *old(self),
    {
        if pos >= BLOCK_BITS {
            return Err(BitmapError::InvalidPos);
        }
        self.data[(pos / 64) as usize] = map;
        Ok(())
    }

    /// Whether bit `pos` is set.
    pub fn check(&self, pos: u32) -> (r: Result<bool, BitmapError>)
        ensures
            r is Ok <==> pos < BLOCK_BITS,
            r is Ok ==> r->Ok_0 == self@[pos as int],
            r is Err ==> r->Err_0 == BitmapError::InvalidPos,
    {
        let map = self.get_u64(pos)?;
        Ok((map >> ((pos % 64) as u64)) & 1 == 1)
    }

    /// The lowest clear bit, if there is one.
    pub fn next_usable(&self) -> (r: Option<u32>)
        ensures
            r is Some ==> is_first_false(self@, r->Some_0 as int),
            r is None ==> all_true(self@),
    {
        let mut i: usize = 0;
        while i < BITMAP_SIZE
            invariant
                i <= BITMAP_SIZE,
                all_true(self@.take(64 * i)),
            decreases BITMAP_SIZE - i,
        {
            let w = self.data[i];
            if w != 0xffff_ffff_ffff_ffffu64 {
                let mut j: u32 = 0;
                while j < 64
                    invariant
                        i < BITMAP_SIZE,
                        j <= 64,
                        w == self.data@[i as int],
                        all_true(self@.take(64 * i + j)),
                    decreases 64 - j,
                {
                    if (w >> (j as u64)) & 1 != 1 {
                        proof {
                            let p = 64 * i + j;
                            assert(p / 64 == i && p % 64 == j);
                            assert forall|q: int| 0 <= q < p implies self@[q] by {
                                assert(self@.take(p)[q]);
                            }
                        }
                        return Some((i * 64) as u32 + j);
                    }

                    j += 1;
                }
            } else {
                proof {
                    lemma_bits_full(w);
                    assert forall|q: int| 0 <= q < 64 * (i + 1) implies self@[q] by {
                        if q >= 64 * i {
                            let j = (q % 64) as u64;
                            assert(((w >> j) & 1) == 1);
                        } else {
                            assert(self@.take(64 * i)[q]);
                        }
                    }
                }
            }
            i += 1;
        }
        assert(self@.take(64 * i) =~= self@);
        None
    }

    /// How many of the first `limit` bits are clear.
    pub fn rest_usable_below(&self, limit: u32) -> (n: u32)
        requires
            limit <= BLOCK_BITS,
        ensures
            n == count_false(self@.take(limit as int)),
            n <= limit,
    {
        let mut result: u32 = 0;
        let mut i: usize = 0;
        while i < BITMAP_SIZE && 64 * (i as u32) < limit
            invariant
                i <= BITMAP_SIZE,
                limit <= BLOCK_BITS,
                64 * i <= limit || i == 0 || 64 * (i - 1) < limit,
                result == count_false(self@.take(if 64 * i <= limit { 64 * i as int } else { limit as int })),
                result <= 64 * i,
                result <= limit,
            decreases BITMAP_SIZE - i,
        {
            let base: u32 = 64 * (i as u32);
            let k: u32 = if limit - base < 64 {
                limit - base
            } else {
                64
            };
            let ones = count_ones_below(self.data[i], k);
            proof {
                lemma_count_false_word(self.data@, i as int, k as nat);
            }
            result += k - ones;
            i += 1;
        }
        proof {
            if 64 * i <= limit {
                assert(64 * i == limit);
            }
        }
        result
    }

    /// How many bits are clear.
    pub fn rest_usable(&self) -> (n: u32)
        ensures
            n == count_false(self@),
            n <= BLOCK_BITS,
    {
        assert(self@.take(BLOCK_BITS as int) =~= self@);
        self.rest_usable_below(BLOCK_BITS)
    }

    /// Sets bit `pos`.
    pub fn set_true(&mut self, pos: u32) -> (r: Result<(), BitmapError>)
        ensures
            r is Ok <==> pos < BLOCK_BITS,
            r is Ok ==> final(self)@ == old(self)@.update(pos as int, true),
            r is Err ==> r->Err_0 == BitmapError::InvalidPos && *final(self) == *old(self),
    {
        let map = self.get_u64(pos)?;
        let k: u64 = (pos % 64) as u64;
        let flag: u64 = 1u64 << k;
        self.set_u64(pos, map | flag)?;
        proof {
            lemma_bit_set(map, k);
            let want = old(self)@.update(pos as int, true);
            assert forall|p: int| 0 <= p < BLOCK_BITS implies self@[p] == want[p] by {
                let j = (p % 64) as u64;
                if p / 64 == pos as int / 64 {
                    assert(((((map | (1u64 << k)) >> j) & 1) == 1) == (j == k || ((map >> j) & 1)
                        == 1));
                }
            }
            assert(self@ =~= want);
        }
        Ok(())
    }

    /// Clears bit `pos`.
    pub fn set_false(&mut self, pos: u32) -> (r: Result<(), BitmapError>)
        ensures
            r is Ok <==> pos < BLOCK_BITS,
            r is Ok ==> final(self)@ == old(self)@.update(pos as int, false),
            r is Err ==> r->Err_0 == BitmapError::InvalidPos && *final(self) == *old(self),
    {
        let map = self.get_u64(pos)?;
        let k: u64 = (pos % 64) as u64;
        let flag: u64 = !(1u64 << k);
        self.set_u64(pos, map & flag)?;
        proof {
            lemma_bit_clear(map, k);
            let want = old(self)@.update(pos as int, false);
            assert forall|p: int| 0 <= p < BLOCK_BITS implies self@[p] == want[p] by {
                let j = (p % 64) as u64;
                if p / 64 == pos as int / 64 {
                    assert(((((map & !(1u64 << k)) >> j) & 1) == 1) == (j != k && ((map >> j) & 1)
                        == 1));
                }
            }
            assert(self@ =~= want);
        }
        Ok(())
    }
}

impl Serialize for BlockBitmap {
    open spec fn spec_serialize(&self) -> Seq<u8> {
        bytes_of_words(self.words())
    }

    fn serialize(&self) -> (v: Vec<u8>) {
        let mut v: Vec<u8> = Vec::with_capacity(BLOCK_SIZE as usize);
        let mut i: usize = 0;
        while i < BITMAP_SIZE
            invariant
                i <= BITMAP_SIZE,
                v@ == bytes_of_words(self.data@.take(i as int)),
            decreases BITMAP_SIZE - i,
        {
            let arr = u64_to_u8arr(self.data[i]);
            let mut j: usize = 0;
            while j < 8
                invariant
                    i < BITMAP_SIZE,
                    j <= 8,
                    arr@ == spec_u64_to_be(self.data@[i as int]),
                    v@ == bytes_of_words(self.data@.take(i as int)) + arr@.take(j as int),
                decreases 8 - j,
            {
                v.push(arr[j]);
                j += 1;
                assert(v@ =~= bytes_of_words(self.data@.take(i as int)) + arr@.take(j as int));
            }
            i += 1;
            assert(v@ =~= bytes_of_words(self.data@.take(i as int)));
        }
        assert(self.data@.take(i as int) =~= self.data@);
        v
    }
}

impl Deserialize for BlockBitmap {
    open spec fn spec_deserialize_err(buf: Seq<u8>) -> Option<SedesError> {
        too_small(buf, BLOCK_SIZE as nat)
    }

    open spec fn spec_deserialized(buf: Seq<u8>, r: &Self) -> bool {
        r.words() == words_of_bytes(buf.take(BLOCK_SIZE as int))
    }

    fn deserialize(buf: &mut Vec<u8>) -> (r: Result<Self, SedesError>)
        ensures
            final(buf)@ == old(buf)@,
    {
        if buf.len() < BLOCK_SIZE as usize {
            return Err(SedesError::DeserialBufferTooSmall);
        }
        let mut me = BlockBitmap { data: [0u64;BITMAP_SIZE] };
        let mut i: usize = 0;
        while i < BITMAP_SIZE
            invariant
                i <= BITMAP_SIZE,
                buf@.len() >= BLOCK_SIZE,
                buf@ == old(buf)@,
                forall|w: int| 0 <= w < i ==> me.data@[w] == words_of_bytes(buf@.take(BLOCK_SIZE as int))[w],
            decreases BITMAP_SIZE - i,
        {
            let word = u8arr_to_u64(vstd::slice::slice_subrange(buf.as_slice(), 8 * i, 8 * i + 8));
            assert(buf@.subrange(8 * i as int, 8 * i + 8) =~= buf@.take(BLOCK_SIZE as int).subrange(
                8 * i as int,
                8 * i + 8,
            ));
            me.data[i] = word;
            i += 1;
        }
        assert(me.data@ =~= words_of_bytes(buf@.take(BLOCK_SIZE as int)));
        Ok(me)
    }
}

/// The most blocks a bitmap is read from: enough for one bit per block of
/// the image.
pub const MAX_MAPS: usize = 16;

/// A bitmap held in a run of blocks, of which the first `capacity` bits
/// count.
pub struct Bitmap {
    maps: Vec<BlockBitmap>,
    capacity: u32,
}

/// The bits of `maps`, block after block.
pub open spec fn bits_of_maps(maps: Seq<BlockBitmap>) -> Seq<bool> {
    Seq::new(maps.len() * BLOCK_BITS as nat, |p: int| maps[p / BLOCK_BITS as int]@[p % BLOCK_BITS as int])
}

/// Among the first `8192 * b + k` bits, the clear ones are those among the
/// first `8192 * b` and those among the first `k` of block `b`.
proof fn lemma_count_false_block(maps: Seq<BlockBitmap>, b: int, k: nat)
    requires
        0 <= b < maps.len(),
        k <= BLOCK_BITS,
    ensures
        count_false(bits_of_maps(maps).take(BLOCK_BITS * b + k)) == count_false(
            bits_of_maps(maps).take(BLOCK_BITS * b),
        ) + count_false(maps[b]@.take(k as int)),
    decreases k,
{
    maps[b].lemma_view();
    if k > 0 {
        let p = BLOCK_BITS * b + k - 1;
        assert(BLOCK_BITS == 8192);
        assert(p / 8192 == b && p % 8192 == k - 1);
        assert(0 <= p < bits_of_maps(maps).len()) by {
            assert(maps.len() * 8192 >= (b + 1) * 8192);
        }
        assert(bits_of_maps(maps)[p] == maps[b]@[k - 1]);
        lemma_count_false_block(maps, b, (k - 1) as nat);
        lemma_count_false_step(bits_of_maps(maps), p);
        lemma_count_false_step(maps[b]@, k - 1);
    } else {
        assert(maps[b]@.take(0) =~= Seq::<bool>::empty());
    }
}

impl View for Bitmap {
    type V = Seq<bool>;

    closed spec fn view(&self) -> Seq<bool> {
        bits_of_maps(self.maps@).take(self.capacity as int)
    }
}

impl Bitmap {
    /// The blocks of the bitmap.
    pub closed spec fn maps(&self) -> Seq<BlockBitmap> {
        self.maps@
    }

    /// The number of bits that count.
    pub closed spec fn spec_capacity(&self) -> nat {
        self.capacity as nat
    }

    /// There are at most `MAX_MAPS` blocks, and they hold at least
    /// `capacity` bits.
    pub closed spec fn wf(&self) -> bool {
        &&& self.maps@.len() <= MAX_MAPS
        &&& self.capacity <= self.maps@.len() * BLOCK_BITS
    }

    /// The bits that count are the first `capacity` of the blocks' bits.
    pub broadcast proof fn lemma_view(&self)
        requires
            self.wf(),
        ensures
            #[trigger] self@ == bits_of_maps(self.maps()).take(self.spec_capacity() as int),
            self@.len() == self.spec_capacity(),
            self.maps().len() <= MAX_MAPS,
            self.spec_capacity() <= self.maps().len() * BLOCK_BITS,
    {
    }

    /// A bitmap of no blocks.
    pub fn empty() -> (b: Self)
        ensures
            b.wf(),
            b.maps().len() == 0,
            b.spec_capacity() == 0,
    {
        Bitmap { maps: Vec::new(), capacity: 0 }
    }

    /// The bitmap that `maps` hold, every bit of which counts.
    pub fn new(maps: Vec<BlockBitmap>) -> (r: Result<Self, BitmapError>)
        ensures
            r is Ok <==> maps@.len() <= MAX_MAPS,
            r is Ok ==> r->Ok_0.wf() && r->Ok_0.maps() == maps@ && r->Ok_0.spec_capacity()
                == maps@.len() * BLOCK_BITS,
            r is Err ==> r->Err_0 == BitmapError::InvalidPos,
    {
        if maps.len() > MAX_MAPS {
            return Err(BitmapError::InvalidPos);
        }
        let capacity: u32 = maps.len() as u32 * BLOCK_BITS;
        Ok(Bitmap { maps, capacity })
    }

    /// The number of bits that count.
    pub fn capacity(&self) -> (c: u32)
        ensures
            c == self.spec_capacity(),
    {
        self.capacity
    }

    /// Lets only the first `capacity` bits count, if the blocks hold that
    /// many.
    pub fn set_capacity(&mut self, capacity: u32) -> (r: Result<(), BitmapError>)
        requires
            old(self).wf(),
        ensures
            final(self).wf(),
            final(self).maps() == old(self).maps(),
            r is Ok <==> capacity <= old(self).maps().len() * BLOCK_BITS,
            r is Ok ==> final(self).spec_capacity() == capacity,
            r is Err ==> r->Err_0 == BitmapError::InvalidPos && final(self).spec_capacity() == old(
                self,
            ).spec_capacity(),
    {
        if capacity as usize > self.maps.len() * BLOCK_BITS as usize {
            return Err(BitmapError::InvalidPos);
        }
        self.capacity = capacity;
        Ok(())
    }

    /// The block and the position in it at which bit `pos` lives.
    pub fn get_pos(pos: u32) -> (r: (u32, u32))
        ensures
            r.0 == pos / BLOCK_BITS,
            r.1 == pos % BLOCK_BITS,
    {
        (pos / BLOCK_BITS, pos % BLOCK_BITS)
    }

    /// The bytes of block `index` of the bitmap.
    pub fn get_serialized_map(&self, index: usize) -> (r: Result<Vec<u8>, BitmapError>)
        ensures
            r is Ok <==> index < self.maps().len(),
            r is Ok ==> r->Ok_0@ == self.maps()[index as int].spec_serialize(),
            r is Err ==> r->Err_0 == BitmapError::InvalidPos,
    {
        if index < self.maps.len() {
            Ok(self.maps[index].serialize())
        } else {
            Err(BitmapError::InvalidPos)
        }
    }

    /// Whether bit `pos` is set.
    pub fn check(&self, pos: u32) -> (r: Result<bool, BitmapError>)
        requires
            self.wf(),
        ensures
            r is Ok <==> pos < self@.len(),
            r is Ok ==> r->Ok_0 == self@[pos as int],
            r is Err ==> r->Err_0 == BitmapError::InvalidPos,
    {
        if pos >= self.capacity {
            return Err(BitmapError::InvalidPos);
        }
        let (map, p) = Self::get_pos(pos);
        proof {
            self.maps@[map as int].lemma_view();
        }
        self.maps[map as usize].check(p)
    }

    /// The lowest clear bit, if there is one.
    pub fn next_usable(&self) -> (r: Option<u32>)
        requires
            self.wf(),
        ensures
            r is Some ==> is_first_false(self@, r->Some_0 as int),
            r is None ==> all_true(self@),
    {
        let mut i: usize = 0;
        while i < self.maps.len()
            invariant
                self.wf(),
                i <= self.maps@.len(),
                forall|q: int| 0 <= q < BLOCK_BITS * i ==> bits_of_maps(self.maps@)[q],
            decreases self.maps@.len() - i,
        {
            proof {
                self.maps@[i as int].lemma_view();
            }
            match self.maps[i].next_usable() {
                Some(p) => {
                    let pos: u32 = (i as u32) * BLOCK_BITS + p;
                    proof {
                        let bits = bits_of_maps(self.maps@);
                        assert forall|q: int| 0 <= q < pos implies bits[q] by {
                            if q >= BLOCK_BITS * i {
                                assert(q / BLOCK_BITS as int == i);
                                assert(self.maps@[i as int]@[q % BLOCK_BITS as int]);
                            }
                        }
                        assert(pos as int / BLOCK_BITS as int == i);
                        assert(pos as int % BLOCK_BITS as int == p);
                    }
                    if pos < self.capacity {
                        return Some(pos);
                    } else {
                        return None;
                    }
                },
                None => {
                    proof {
                        let bits = bits_of_maps(self.maps@);
                        assert forall|q: int| 0 <= q < BLOCK_BITS * (i + 1) implies bits[q] by {
                            if q >= BLOCK_BITS * i {
                                assert(q / BLOCK_BITS as int == i);
                                assert(self.maps@[i as int]@[q % BLOCK_BITS as int]);
                            }
                        }
                    }
                },
            }
            i += 1;
        }
        None
    }

    /// How many bits are clear.
    pub fn rest_usable(&self) -> (n: u32)
        requires
            self.wf(),
        ensures
            n == count_false(self@),
            n <= self@.len(),
    {
        let mut result: u32 = 0;
        let mut i: usize = 0;
        while i < self.maps.len() && ((i as u32) * BLOCK_BITS) < self.capacity
            invariant
                self.wf(),
                i <= self.maps@.len(),
                result == count_false(
                    bits_of_maps(self.maps@).take(
                        if BLOCK_BITS * i <= self.capacity {
                            BLOCK_BITS * i as int
                        } else {
                            self.capacity as int
                        },
                    ),
                ),
                result <= BLOCK_BITS * i,
                result <= self.capacity,
            decreases self.maps@.len() - i,
        {
            let base: u32 = (i as u32) * BLOCK_BITS;
            let k: u32 = if self.capacity - base < BLOCK_BITS {
                self.capacity - base
            } else {
                BLOCK_BITS
            };
            proof {
                self.maps@[i as int].lemma_view();
                lemma_count_false_block(self.maps@, i as int, k as nat);
            }
            let free = self.maps[i].rest_usable_below(k);
            result += free;
            i += 1;
        }
        proof {
            if BLOCK_BITS * i <= self.capacity {
                assert(BLOCK_BITS * i == self.capacity);
            }
        }
        result
    }

    /// Sets bit `pos`.
    pub fn set_true(&mut self, pos: u32) -> (r: Result<(), BitmapError>)
        requires
            old(self).wf(),
        ensures
            final(self).wf(),
            final(self)@.len() == old(self)@.len(),
            final(self).maps().len() == old(self).maps().len(),
            r is Ok <==> pos < old(self)@.len(),
            r is Ok ==> final(self)@ == old(self)@.update(pos as int, true),
            r is Err ==> r->Err_0 == BitmapError::InvalidPos && final(self)@ == old(self)@,
    {
        if pos >= self.capacity {
            return Err(BitmapError::InvalidPos);
        }
        let (map, p) = Self::get_pos(pos);
        let mut blk = self.maps[map as usize];
        proof {
            blk.lemma_view();
        }
        let _ = blk.set_true(p);
        self.maps[map as usize] = blk;
        proof {
            blk.lemma_view();
            assert(self@ =~= old(self)@.update(pos as int, true));
        }
        Ok(())
    }

    /// Clears bit `pos`.
    pub fn set_false(&mut self, pos: u32) -> (r: Result<(), BitmapError>)
        requires
            old(self).wf(),
        ensures
            final(self).wf(),
            final(self)@.len() == old(self)@.len(),
            final(self).maps().len() == old(self).maps().len(),
            r is Ok <==> pos < old(self)@.len(),
            r is Ok ==> final(self)@ == old(self)@.update(pos as int, false),
            r is Err ==> r->Err_0 == BitmapError::InvalidPos && final(self)@ == old(self)@,
    {
        if pos >= self.capacity {
            return Err(BitmapError::InvalidPos);
        }
        let (map, p) = Self::get_pos(pos);
        let mut blk = self.maps[map as usize];
        proof {
            blk.lemma_view();
        }
        let _ = blk.set_false(p);
        self.maps[map as usize] = blk;
        proof {
            blk.lemma_view();
            assert(self@ =~= old(self)@.update(pos as int, false));
        }
        Ok(())
    }
}

/// `buf` followed by as many zeros as fill its last block.
pub open spec fn pad_to_block(buf: Seq<u8>) -> Seq<u8> {
    let rest = buf.len() % BLOCK_SIZE as nat;
    if rest == 0 {
        buf
    } else {
        buf + Seq::new((BLOCK_SIZE - rest) as nat, |i: int| 0u8)
    }
}

impl Deserialize for Bitmap {
    open spec fn spec_deserialize_err(buf: Seq<u8>) -> Option<SedesError> {
        too_small(buf, 0)
    }

    /// `r` holds the whole blocks of `buf`, zero-filled at the end, up to
    /// `MAX_MAPS` of them, and all their bits count.
    open spec fn spec_deserialized(buf: Seq<u8>, r: &Self) -> bool {
        let padded = pad_to_block(buf);
        let n = if padded.len() / BLOCK_SIZE as nat <= MAX_MAPS {
            padded.len() / BLOCK_SIZE as nat
        } else {
            MAX_MAPS as nat
        };
        &&& r.wf()
        &&& r.maps().len() == n
        &&& r.spec_capacity() == n * BLOCK_BITS
        &&& forall|b: int|
            0 <= b < n ==> (#[trigger] r.maps()[b]).words() == words_of_bytes(
                padded.subrange(b * BLOCK_SIZE, b * BLOCK_SIZE + BLOCK_SIZE),
            )
    }

    fn deserialize(buf: &mut Vec<u8>) -> (r: Result<Self, SedesError>)
        ensures
            final(buf)@ == pad_to_block(old(buf)@),
    {
        while buf.len() % BLOCK_SIZE as usize != 0
            invariant
                buf@.len() >= old(buf)@.len(),
                buf@.len() - old(buf)@.len() + old(buf)@.len() % BLOCK_SIZE as nat <= BLOCK_SIZE,
                old(buf)@.len() % BLOCK_SIZE as nat == 0 ==> buf@.len() == old(buf)@.len(),
                buf@.len() % BLOCK_SIZE as nat == (buf@.len() - old(buf)@.len() + old(buf)@.len()
                    % BLOCK_SIZE as nat) % BLOCK_SIZE as int,
                buf@ == old(buf)@ + Seq::new((buf@.len() - old(buf)@.len()) as nat, |i: int| 0u8),
            decreases BLOCK_SIZE - (buf@.len() - old(buf)@.len() + old(buf)@.len() % BLOCK_SIZE as nat),
        {
            buf.push(0);
            assert(buf@ =~= old(buf)@ + Seq::new(
                (buf@.len() - old(buf)@.len()) as nat,
                |i: int| 0u8,
            ));
        }
        assert(buf@ =~= pad_to_block(old(buf)@));
        let n: usize = if buf.len() / BLOCK_SIZE as usize <= MAX_MAPS {
            buf.len() / BLOCK_SIZE as usize
        } else {
            MAX_MAPS
        };
        let mut maps: Vec<BlockBitmap> = Vec::new();
        let mut i: usize = 0;
        while i < n
            invariant
                i <= n <= MAX_MAPS,
                n * BLOCK_SIZE <= buf@.len(),
                maps@.len() == i,
                forall|b: int|
                    0 <= b < i ==> (#[trigger] maps@[b]).words() == words_of_bytes(
                        buf@.subrange(b * BLOCK_SIZE, b * BLOCK_SIZE + BLOCK_SIZE),
                    ),
            decreases n - i,
        {
            assert(BLOCK_SIZE == 1024);
            let mut block = vstd::slice::slice_to_vec(
                vstd::slice::slice_subrange(
                    buf.as_slice(),
                    i * BLOCK_SIZE as usize,
                    (i + 1) * BLOCK_SIZE as usize,
                ),
            );
            assert(block@.take(BLOCK_SIZE as int) =~= block@);
            match BlockBitmap::deserialize(&mut block) {
                Ok(m) => maps.push(m),
                Err(e) => {
                    return Err(e);
                },
            }
            i += 1;
        }
        Ok(Bitmap { maps, capacity: n as u32 * BLOCK_BITS })
    }
}

} // verus!

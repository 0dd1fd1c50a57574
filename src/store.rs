//! A growable, byte-addressed linear store, granted in pages of
//! [`PAGE_SIZE`] bytes, that holds 32-bit words little-endian.
use crate::layout::PAGE_SIZE;
use vstd::bytes::{spec_u32_from_le_bytes, spec_u32_to_le_bytes, u32_from_le_bytes, u32_to_le_bytes};
use vstd::prelude::*;

verus! {

/// The little-endian bytes of `v`.
pub open spec fn le_bytes(v: i32) -> Seq<u8> {
    spec_u32_to_le_bytes(v as u32)
}

/// The signed word whose little-endian bytes are the four bytes at `off`.
pub open spec fn word_at(bytes: Seq<u8>, off: int) -> i32 {
    spec_u32_from_le_bytes(bytes.subrange(off, off + 4)) as i32
}

/// The `count` consecutive words that start at `off`.
pub open spec fn words_at(bytes: Seq<u8>, off: int, count: int) -> Seq<i32> {
    Seq::new(count as nat, |k: int| word_at(bytes, off + 4 * k))
}

/// `bytes` with `buf` written over it from `off` on.
pub open spec fn splice(bytes: Seq<u8>, off: int, buf: Seq<u8>) -> Seq<u8> {
    Seq::new(
        bytes.len(),
        |k: int|
            if off <= k < off + buf.len() {
                buf[k - off]
            } else {
                bytes[k]
            },
    )
}

/// `bytes` with the words `w` written little-endian from `off` on.
pub open spec fn put_words(bytes: Seq<u8>, off: int, w: Seq<i32>) -> Seq<u8> {
    Seq::new(
        bytes.len(),
        |k: int|
            if off <= k < off + 4 * w.len() {
                le_bytes(w[(k - off) / 4])[(k - off) % 4]
            } else {
                bytes[k]
            },
    )
}

/// `off + 4 * q + r`, with `0 <= r < 4`, sits at word `q`, byte `r`.
proof fn lemma_word_index(x: int, q: int, r: int)
    requires
        x == 4 * q + r,
        0 <= r < 4,
    ensures
        x / 4 == q,
        x % 4 == r,
{
    vstd::arithmetic::div_mod::lemma_fundamental_div_mod(x, 4);
}

/// A word written little-endian reads back as itself.
pub proof fn lemma_word_round_trip(v: i32)
    ensures
        spec_u32_from_le_bytes(le_bytes(v)) as i32 == v,
        le_bytes(v).len() == 4,
{
    vstd::bytes::lemma_auto_spec_u32_to_from_le_bytes();
    let u = v as u32;
    assert(u == v as u32);
    assert((u as i32) == v) by (bit_vector)
        requires
            u == v as u32,
    ;
}

/// Writing the words `w` one after another builds the same bytes as writing
/// them all at once.
pub proof fn lemma_put_words_push(s: Seq<u8>, off: int, w: Seq<i32>, v: i32)
    requires
        0 <= off,
        off + 4 * (w.len() + 1) <= s.len(),
    ensures
        put_words(put_words(s, off, w), off + 4 * w.len(), seq![v]) == put_words(
            s,
            off,
            w.push(v),
        ),
{
    let lhs = put_words(put_words(s, off, w), off + 4 * w.len(), seq![v]);
    let rhs = put_words(s, off, w.push(v));
    assert forall|k: int| 0 <= k < s.len() implies lhs[k] == rhs[k] by {
        if off <= k < off + 4 * w.len() {
            let q = (k - off) / 4;
            vstd::arithmetic::div_mod::lemma_fundamental_div_mod(k - off, 4);
            assert(q < w.len());
        } else if off + 4 * w.len() <= k < off + 4 * w.len() + 4 {
            let r = k - off - 4 * w.len();
            lemma_word_index(k - off, w.len() as int, r);
            lemma_word_index(k - (off + 4 * w.len()), 0, r);
        }
    }
    assert(lhs =~= rhs);
}

/// Words read from a region that a write does not touch are unchanged.
pub proof fn lemma_words_outside(s: Seq<u8>, off: int, w: Seq<i32>, roff: int, count: int)
    requires
        0 <= roff,
        0 <= count,
        roff + 4 * count <= s.len(),
        roff + 4 * count <= off || off + 4 * w.len() <= roff,
    ensures
        words_at(put_words(s, off, w), roff, count) == words_at(s, roff, count),
{
    let p = put_words(s, off, w);
    assert forall|k: int| 0 <= k < count implies #[trigger] word_at(p, roff + 4 * k) == word_at(
        s,
        roff + 4 * k,
    ) by {
        assert(p.subrange(roff + 4 * k, roff + 4 * k + 4) =~= s.subrange(
            roff + 4 * k,
            roff + 4 * k + 4,
        ));
    }
    assert(words_at(p, roff, count) =~= words_at(s, roff, count));
}

/// Words written from `off` on read back from `off` on.
pub proof fn lemma_words_of_put(s: Seq<u8>, off: int, w: Seq<i32>)
    requires
        0 <= off,
        off + 4 * w.len() <= s.len(),
    ensures
        words_at(put_words(s, off, w), off, w.len() as int) == w,
{
    let p = put_words(s, off, w);
    assert forall|k: int| 0 <= k < w.len() implies #[trigger] word_at(p, off + 4 * k) == w[k] by {
        lemma_word_round_trip(w[k]);
        assert forall|t: int| 0 <= t < 4 implies p.subrange(off + 4 * k, off + 4 * k + 4)[t]
            == le_bytes(w[k])[t] by {
            lemma_word_index(off + 4 * k + t - off, k, t);
        }
        assert(p.subrange(off + 4 * k, off + 4 * k + 4) =~= le_bytes(w[k]));
    }
    assert(words_at(p, off, w.len() as int) =~= w);
}

/// Writing the bytes of one word is writing that word.
pub proof fn lemma_splice_word(s: Seq<u8>, off: int, v: i32)
    ensures
        splice(s, off, le_bytes(v)) == put_words(s, off, seq![v]),
{
    vstd::bytes::lemma_auto_spec_u32_to_from_le_bytes();
    assert(splice(s, off, le_bytes(v)) =~= put_words(s, off, seq![v]));
}

/// Writing the same words twice leaves what writing them once leaves.
pub proof fn lemma_put_words_twice(s: Seq<u8>, off: int, w: Seq<i32>)
    ensures
        put_words(put_words(s, off, w), off, w) == put_words(s, off, w),
{
    assert(put_words(put_words(s, off, w), off, w) =~= put_words(s, off, w));
}

/// A growth request that would take the store past its page ceiling.
#[derive(Debug, Clone, Copy, PartialEq, Eq, Structural)]
pub struct GrowError;

/// A linear byte store. It starts empty, grows by whole zero-filled pages up
/// to a ceiling fixed at creation, and is read and written at byte offsets.
pub struct Store {
    bytes: Vec<u8>,
    max_pages: usize,
}

impl View for Store {
    type V = Seq<u8>;

    closed spec fn view(&self) -> Seq<u8> {
        self.bytes@
    }
}

impl Store {
    /// The most pages that the store can be grown to.
    pub closed spec fn max_pages(self) -> nat {
        self.max_pages as nat
    }

    /// The store is a whole number of pages, within its ceiling, and the
    /// ceiling is addressable.
    pub open spec fn wf(self) -> bool {
        &&& self@.len() % (PAGE_SIZE as nat) == 0
        &&& self@.len() <= self.max_pages() * PAGE_SIZE
        &&& self.max_pages() * PAGE_SIZE <= usize::MAX
    }

    /// An empty store that may grow to `max_pages` pages.
    pub fn new(max_pages: usize) -> (s: Store)
        requires
            max_pages * PAGE_SIZE <= usize::MAX,
        ensures
            s.wf(),
            s@ == Seq::<u8>::empty(),
            s.max_pages() == max_pages,
    {
        Store { bytes: Vec::new(), max_pages }
    }

    /// The current size in pages.
    pub fn size(&self) -> (r: usize)
        requires
            self.wf(),
        ensures
            r == self@.len() / (PAGE_SIZE as nat),
    {
        self.bytes.len() / PAGE_SIZE
    }

    /// Adds `pages` zero-filled pages and returns the size in pages before
    /// the call; fails, changing nothing, where that would pass the ceiling.
    pub fn grow(&mut self, pages: usize) -> (r: Result<usize, GrowError>)
        requires
            old(self).wf(),
        ensures
            final(self).wf(),
            final(self).max_pages() == old(self).max_pages(),
            old(self)@.len() / (PAGE_SIZE as nat) + pages <= old(self).max_pages() ==> {
                &&& r == Ok::<usize, GrowError>((old(self)@.len() / (PAGE_SIZE as nat)) as usize)
                &&& final(self)@ == old(self)@ + Seq::new(
                    (pages * PAGE_SIZE) as nat,
                    |i: int| 0u8,
                )
            },
            old(self)@.len() / (PAGE_SIZE as nat) + pages > old(self).max_pages() ==> {
                &&& r == Err::<usize, GrowError>(GrowError)
                &&& final(self)@ == old(self)@
            },
    {
        let before = self.size();
        if pages > self.max_pages - before {
            return Err(GrowError);
        }
        let new_len = (before + pages) * PAGE_SIZE;
        proof {
            assert((before + pages) * PAGE_SIZE <= self.max_pages * PAGE_SIZE) by (nonlinear_arith)
                requires
                    before + pages <= self.max_pages,
            ;
            assert(before * PAGE_SIZE == self.bytes@.len());
            assert(new_len - self.bytes@.len() == pages * PAGE_SIZE) by (nonlinear_arith)
                requires
                    new_len == (before + pages) * PAGE_SIZE,
                    before * PAGE_SIZE == self.bytes@.len(),
            ;
            assert(new_len % PAGE_SIZE == 0) by (nonlinear_arith)
                requires
                    new_len == (before + pages) * PAGE_SIZE,
                    PAGE_SIZE == 65536,
            ;
        }
        let ghost prev = self.bytes@;
        self.bytes.resize(new_len, 0u8);
        proof {
            assert(self.bytes@ =~= prev + Seq::new((pages * PAGE_SIZE) as nat, |i: int| 0u8));
        }
        Ok(before)
    }

    /// The `len` bytes from `offset` on.
    pub fn read(&self, offset: usize, len: usize) -> (r: Vec<u8>)
        requires
            offset + len <= self@.len(),
        ensures
            r@ == self@.subrange(offset as int, offset + len),
    {
        let _total = self.bytes.len();
        let mut r: Vec<u8> = Vec::with_capacity(len);
        let mut k: usize = 0;
        while k < len
            invariant
                offset + len <= self@.len(),
                _total == self@.len(),
                k <= len,
                r@ == self@.subrange(offset as int, offset + k),
            decreases len - k,
        {
            r.push(self.bytes[offset + k]);
            k += 1;
            proof {
                assert(r@ =~= self@.subrange(offset as int, offset + k));
            }
        }
        r
    }

    /// Writes `buf` from `offset` on.
    pub fn write(&mut self, offset: usize, buf: &[u8])
        requires
            offset + buf@.len() <= old(self)@.len(),
        ensures
            final(self)@ == splice(old(self)@, offset as int, buf@),
            final(self).max_pages() == old(self).max_pages(),
    {
        let ghost prev = self.bytes@;
        let _total = self.bytes.len();
        let mut k: usize = 0;
        while k < buf.len()
            invariant
                offset + buf@.len() <= prev.len(),
                _total == prev.len(),
                k <= buf@.len(),
                self.max_pages == old(self).max_pages,
                self.bytes@ == splice(prev, offset as int, buf@.subrange(0, k as int)),
            decreases buf@.len() - k,
        {
            self.bytes.set(offset + k, buf[k]);
            k += 1;
            proof {
                assert(self.bytes@ =~= splice(prev, offset as int, buf@.subrange(0, k as int)));
            }
        }
        proof {
            assert(buf@.subrange(0, buf@.len() as int) =~= buf@);
        }
    }

    /// The four words at `offset`, read in one access.
    pub fn read_i32x4(&self, offset: usize) -> (r: [i32; 4])
        requires
            offset + 16 <= self@.len(),
        ensures
            r@ == words_at(self@, offset as int, 4),
    {
        let _total = self.bytes.len();
        let s = self.bytes.as_slice();
        let w0 = i32_from_le(vstd::slice::slice_subrange(s, offset, offset + 4));
        let w1 = i32_from_le(vstd::slice::slice_subrange(s, offset + 4, offset + 8));
        let w2 = i32_from_le(vstd::slice::slice_subrange(s, offset + 8, offset + 12));
        let w3 = i32_from_le(vstd::slice::slice_subrange(s, offset + 12, offset + 16));
        let r = [w0, w1, w2, w3];
        proof {
            assert(r@ =~= words_at(self@, offset as int, 4));
        }
        r
    }

    /// Writes the one word `v` at `offset`.
    pub fn write_i32(&mut self, offset: usize, v: i32)
        requires
            offset + 4 <= old(self)@.len(),
        ensures
            final(self)@ == put_words(old(self)@, offset as int, seq![v]),
            final(self).max_pages() == old(self).max_pages(),
    {
        let buf = i32_to_le(v);
        self.write(offset, buf.as_slice());
        proof {
            lemma_splice_word(old(self)@, offset as int, v);
        }
    }
}

/// The signed word whose little-endian bytes are `b`.
pub fn i32_from_le(b: &[u8]) -> (r: i32)
    requires
        b@.len() == 4,
    ensures
        r == spec_u32_from_le_bytes(b@) as i32,
{
    u32_from_le_bytes(b) as i32
}

/// The four little-endian bytes of `v`.
pub fn i32_to_le(v: i32) -> (r: Vec<u8>)
    ensures
        r@ == le_bytes(v),
        r@.len() == 4,
{
    u32_to_le_bytes(v as u32)
}

} // verus!

//! The matrix state, its mirror in the byte store, and the multiply engines.
use crate::arith::{
    lane_dot, lemma_accumulate, lemma_accumulate_part, lemma_lanes_agree_with_row,
    lemma_row_index, lemma_wrap_add, lemma_wrap_small, lemma_wrapping_add, products, row_dot,
    synthetic, wrap_i32,
};
use crate::layout::{layout_fits, pages_needed, total_bytes, Layout, PAGE_SIZE};
use crate::store::{
    i32_from_le, i32_to_le, lemma_put_words_push, lemma_put_words_twice, lemma_splice_word,
    lemma_words_of_put, lemma_words_outside, put_words, word_at, words_at, GrowError, Store,
};
use vstd::prelude::*;

verus! {

/// `len` zero bytes.
pub open spec fn zeroed(len: int) -> Seq<u8> {
    Seq::new(len as nat, |i: int| 0u8)
}

/// The store that mirrors the `n * d` matrix `a` and the vector `b`
/// (`n == b.len()`): the fewest pages that hold the layout, zero-filled,
/// with `a` written from address zero and `b` right after it.
pub open spec fn mirrored(a: Seq<i32>, b: Seq<i32>, d: int) -> Seq<u8> {
    let n = b.len() as int;
    put_words(
        put_words(zeroed(pages_needed(total_bytes(n, d)) * PAGE_SIZE), 0, a),
        n * d * 4,
        b,
    )
}

/// The page ceiling was too low for the layout, or the layout is beyond the
/// address range.
#[derive(Debug, Clone, Copy, PartialEq, Eq, Structural)]
pub struct CapacityError;

/// An engine was asked to reduce a row whose length is not a multiple of
/// its batch size; nothing was changed.
#[derive(Debug, Clone, Copy, PartialEq, Eq, Structural)]
pub struct PreconditionViolation;

/// The matrix `a` (row-major, `d` rows of `n`), the vector `b` (`n`) and the
/// output `out` (`d`) as they stand in memory.
pub struct Data {
    a: Vec<i32>,
    b: Vec<i32>,
    out: Vec<i32>,
}

/// A multiply instance: the in-memory state and the store that mirrors it.
pub struct Canister {
    data: Data,
    store: Store,
}

/// What a [`Canister`] holds, as mathematical values.
pub struct CanisterView {
    pub a: Seq<i32>,
    pub b: Seq<i32>,
    pub out: Seq<i32>,
    pub bytes: Seq<u8>,
    pub max_pages: nat,
}

impl CanisterView {
    /// The length of a row, and of the vector.
    pub open spec fn n(self) -> int {
        self.b.len() as int
    }

    /// The number of rows, and the length of the output.
    pub open spec fn d(self) -> int {
        self.out.len() as int
    }

    /// Where the vector starts in the store.
    pub open spec fn b_addr(self) -> int {
        self.n() * self.d() * 4
    }

    /// Where the output starts in the store.
    pub open spec fn out_addr(self) -> int {
        (self.n() * self.d() + self.n()) * 4
    }

    /// The shapes agree, the layout fits, the store holds the whole layout
    /// in whole pages within its ceiling, and it mirrors `a` and `b`.
    pub open spec fn wf(self) -> bool {
        &&& self.a.len() == self.n() * self.d()
        &&& layout_fits(self.n(), self.d())
        &&& total_bytes(self.n(), self.d()) <= self.bytes.len()
        &&& self.bytes.len() % (PAGE_SIZE as nat) == 0
        &&& self.bytes.len() <= self.max_pages * PAGE_SIZE
        &&& self.max_pages * PAGE_SIZE <= usize::MAX
        &&& words_at(self.bytes, 0, self.n() * self.d()) == self.a
        &&& words_at(self.bytes, self.b_addr(), self.n()) == self.b
    }

    /// The product of the matrix and the vector that the store holds.
    pub open spec fn stored_products(self) -> Seq<i32> {
        products(
            words_at(self.bytes, 0, self.n() * self.d()),
            words_at(self.bytes, self.b_addr(), self.n()),
            self.n(),
            self.d(),
        )
    }

    /// The state after the in-memory engine: `out` is the product of `a`
    /// and `b`; nothing else changes.
    pub open spec fn heap_step(self) -> CanisterView {
        CanisterView { out: products(self.a, self.b, self.n(), self.d()), ..self }
    }

    /// The state after a store engine: the output region of the store holds
    /// the product of the stored matrix and vector; nothing else changes.
    pub open spec fn stable_step(self) -> CanisterView {
        CanisterView {
            bytes: put_words(self.bytes, self.out_addr(), self.stored_products()),
            ..self
        }
    }
}

impl View for Canister {
    type V = CanisterView;

    closed spec fn view(&self) -> CanisterView {
        CanisterView {
            a: self.data.a@,
            b: self.data.b@,
            out: self.data.out@,
            bytes: self.store@,
            max_pages: self.store.max_pages(),
        }
    }
}

impl Canister {
    pub open spec fn wf(&self) -> bool {
        self@.wf()
    }

    /// The matrix, row-major.
    pub fn a(&self) -> (r: &Vec<i32>)
        ensures
            r@ == self@.a,
    {
        &self.data.a
    }

    /// The vector.
    pub fn b(&self) -> (r: &Vec<i32>)
        ensures
            r@ == self@.b,
    {
        &self.data.b
    }

    /// The output that the in-memory engine writes.
    pub fn out(&self) -> (r: &Vec<i32>)
        ensures
            r@ == self@.out,
    {
        &self.data.out
    }

    /// The store that mirrors the matrix and the vector, and that the store
    /// engines write their output into.
    pub fn store(&self) -> (r: &Store)
        ensures
            r@ == self@.bytes,
            r.max_pages() == self@.max_pages,
    {
        &self.store
    }

    /// An instance over the `n * d` matrix `a` (row-major, `n == b.len()`)
    /// and the vector `b`, with `d` zero outputs, and a fresh store with a
    /// ceiling of `max_pages` pages, grown to the fewest pages that hold the
    /// layout, into which `a` and `b` are written. Fails where the layout
    /// is beyond the address range or needs more pages than the ceiling.
    pub fn from_parts(a: Vec<i32>, b: Vec<i32>, d: usize, max_pages: usize) -> (r: Result<
        Canister,
        CapacityError,
    >)
        requires
            a@.len() == b@.len() * d,
            max_pages * PAGE_SIZE <= usize::MAX,
        ensures
            r is Ok <==> layout_fits(b@.len() as int, d as int) && pages_needed(
                total_bytes(b@.len() as int, d as int),
            ) <= max_pages,
            r matches Ok(c) ==> {
                &&& c.wf()
                &&& c@ == CanisterView {
                    a: a@,
                    b: b@,
                    out: Seq::new(d as nat, |i: int| 0i32),
                    bytes: mirrored(a@, b@, d as int),
                    max_pages: max_pages as nat,
                }
            },
    {
        let n = b.len();
        let layout = match Layout::new(n, d) {
            Some(l) => l,
            None => return Err(CapacityError),
        };
        let mut store = Store::new(max_pages);
        match store.grow(layout.pages) {
            Ok(_) => {},
            Err(GrowError) => return Err(CapacityError),
        }
        let ghost zeros = store@;
        proof {
            assert(zeros =~= zeroed(pages_needed(total_bytes(n as int, d as int)) * PAGE_SIZE));
            assert(n * d <= a@.len());
        }
        let nd = a.len();
        let mut k: usize = 0;
        while k < nd
            invariant
                nd == a@.len(),
                nd == n * d,
                n == b@.len(),
                layout.describes(n as int, d as int),
                layout.total_bytes <= zeros.len(),
                k <= nd,
                store.wf(),
                store.max_pages() == max_pages,
                store@ == put_words(zeros, 0, a@.take(k as int)),
            decreases nd - k,
        {
            proof {
                lemma_put_words_push(zeros, 0, a@.take(k as int), a@[k as int]);
                assert(a@.take(k as int).push(a@[k as int]) =~= a@.take(k + 1));
            }
            store.write_i32(k * 4, a[k]);
            k += 1;
        }
        let ghost with_a = store@;
        proof {
            assert(a@.take(nd as int) =~= a@);
        }
        let mut k: usize = 0;
        while k < n
            invariant
                nd == a@.len(),
                nd == n * d,
                n == b@.len(),
                layout.describes(n as int, d as int),
                layout.total_bytes <= with_a.len(),
                k <= n,
                store.wf(),
                store.max_pages() == max_pages,
                store@ == put_words(with_a, layout.b_addr as int, b@.take(k as int)),
            decreases n - k,
        {
            proof {
                lemma_put_words_push(with_a, layout.b_addr as int, b@.take(k as int), b@[k as int]);
                assert(b@.take(k as int).push(b@[k as int]) =~= b@.take(k + 1));
            }
            store.write_i32(layout.b_addr + k * 4, b[k]);
            k += 1;
        }
        proof {
            assert(b@.take(n as int) =~= b@);
            lemma_words_of_put(zeros, 0, a@);
            lemma_words_outside(with_a, layout.b_addr as int, b@, 0, nd as int);
            lemma_words_of_put(with_a, layout.b_addr as int, b@);
        }
        let out = vec![0i32; d];
        let c = Canister { data: Data { a, b, out }, store };
        proof {
            assert(c@.out =~= Seq::new(d as nat, |i: int| 0i32));
        }
        Ok(c)
    }
}

/// Initialises an instance of `n` columns and `d` rows with a store ceiling
/// of `max_pages` pages: the matrix holds `0, 1, 2, ...` in row-major order
/// and the vector `0, 1, ..., n - 1`, each wrapped to 32 bits; the output is
/// `d` zeros; both are mirrored into the store (see
/// [`Canister::from_parts`]). Fails, with nothing made, where the layout is
/// beyond the address range or needs more pages than the ceiling.
pub fn init(n: usize, d: usize, max_pages: usize) -> (r: Result<Canister, CapacityError>)
    requires
        max_pages * PAGE_SIZE <= usize::MAX,
    ensures
        r is Ok <==> layout_fits(n as int, d as int) && pages_needed(total_bytes(n as int, d as int))
            <= max_pages,
        r matches Ok(c) ==> {
            &&& c.wf()
            &&& c@ == CanisterView {
                a: synthetic(n * d),
                b: synthetic(n as int),
                out: Seq::new(d as nat, |i: int| 0i32),
                bytes: mirrored(synthetic(n * d), synthetic(n as int), d as int),
                max_pages: max_pages as nat,
            }
        },
{
    if Layout::new(n, d).is_none() {
        return Err(CapacityError);
    }
    proof {
        assert(n * d <= total_bytes(n as int, d as int)) by (nonlinear_arith);
    }
    let a = counter(n * d);
    let b = counter(n);
    Canister::from_parts(a, b, d, max_pages)
}

/// The first `count` values of a 32-bit counter that starts at zero and
/// wraps.
fn counter(count: usize) -> (r: Vec<i32>)
    ensures
        r@ == synthetic(count as int),
{
    let mut r: Vec<i32> = Vec::with_capacity(count);
    let mut v: i32 = 0;
    let mut k: usize = 0;
    proof {
        lemma_wrap_small(0);
    }
    while k < count
        invariant
            k <= count,
            v as int == wrap_i32(k as int),
            r@ == synthetic(k as int),
        decreases count - k,
    {
        r.push(v);
        proof {
            lemma_wrapping_add(v, 1);
            lemma_wrap_add(k as int, 1);
            lemma_wrap_small(1);
            assert(r@ =~= synthetic(k + 1));
        }
        v = v.wrapping_add(1);
        k += 1;
    }
    r
}

/// The in-memory engine, reducing each row in groups of `GROUP_SIZE`
/// elements: `out[i]` becomes the sum of `a[i * n + j] * b[j]` over `j`,
/// wrapped to 32 bits; nothing else changes. Fails, changing nothing,
/// unless `GROUP_SIZE` is positive and divides `n`.
pub fn matmul<const GROUP_SIZE: usize>(c: &mut Canister) -> (r: Result<(), PreconditionViolation>)
    requires
        old(c).wf(),
    ensures
        final(c).wf(),
        r is Ok <==> GROUP_SIZE > 0 && old(c)@.n() % (GROUP_SIZE as int) == 0,
        r is Ok ==> final(c)@ == old(c)@.heap_step(),
        r is Err ==> final(c)@ == old(c)@,
{
    let n = c.data.b.len();
    let d = c.data.out.len();
    if GROUP_SIZE == 0 || n % GROUP_SIZE != 0 {
        return Err(PreconditionViolation);
    }
    let ghost a = c.data.a@;
    let ghost b = c.data.b@;
    let ghost results = products(a, b, n as int, d as int);
    let ghost groups = n / GROUP_SIZE;
    proof {
        vstd::arithmetic::div_mod::lemma_fundamental_div_mod(n as int, GROUP_SIZE as int);
    }
    proof {
        assert(n * d <= total_bytes(n as int, d as int)) by (nonlinear_arith);
    }
    let mut i: usize = 0;
    while i < d
        invariant
            old(c).wf(),
            n == b.len(),
            d == old(c)@.d(),
            a == old(c)@.a,
            b == old(c)@.b,
            results == products(a, b, n as int, d as int),
            c.data.a@ == a,
            c.data.b@ == b,
            c.store@ == old(c)@.bytes,
            c.store.max_pages() == old(c)@.max_pages,
            c.data.out@.len() == d,
            i <= d,
            forall|k: int| 0 <= k < i ==> c.data.out@[k] == results[k],
            GROUP_SIZE > 0,
            n == GROUP_SIZE * groups,
            n * d <= usize::MAX,
        decreases d - i,
    {
        proof {
            assert(i * n <= n * d) by (nonlinear_arith)
                requires
                    i < d,
            ;
            assert(n * d <= a.len());
        }
        let in_ = i * n;
        let mut val: i32 = 0;
        let mut j: usize = 0;
        let ghost mut q: int = 0;
        proof {
            lemma_wrap_small(0);
        }
        while j < n
            invariant
                n == b.len(),
                a.len() == n * d,
                i < d,
                in_ == i * n,
                c.data.a@ == a,
                c.data.b@ == b,
                GROUP_SIZE > 0,
                n == GROUP_SIZE * groups,
                j == GROUP_SIZE * q,
                j <= n,
                n * d <= usize::MAX,
                0 <= q <= groups,
                val as int == wrap_i32(row_dot(a, b, i as int, n as int, j as int)),
            decreases n - j,
        {
            proof {
                assert(j + GROUP_SIZE <= n) by (nonlinear_arith)
                    requires
                        j == GROUP_SIZE * q,
                        n == GROUP_SIZE * groups,
                        j < n,
                        GROUP_SIZE > 0,
                ;
                lemma_row_index(i as int, n as int, d as int, 0);
            }
            let mut ival: i32 = 0;
            let mut t: usize = 0;
            while t < GROUP_SIZE
                invariant
                    n == b.len(),
                    a.len() == n * d,
                    i < d,
                    in_ == i * n,
                    in_ + n <= n * d,
                    n * d <= usize::MAX,
                    c.data.a@ == a,
                    c.data.b@ == b,
                    j + GROUP_SIZE <= n,
                    t <= GROUP_SIZE,
                    ival as int == wrap_i32(
                        row_dot(a, b, i as int, n as int, j + t) - row_dot(
                            a,
                            b,
                            i as int,
                            n as int,
                            j as int,
                        ),
                    ),
                decreases GROUP_SIZE - t,
            {
                let x = c.data.a[in_ + j + t];
                let y = c.data.b[j + t];
                proof {
                    lemma_accumulate(
                        ival,
                        row_dot(a, b, i as int, n as int, j + t) - row_dot(
                            a,
                            b,
                            i as int,
                            n as int,
                            j as int,
                        ),
                        x,
                        y,
                    );
                }
                ival = ival.wrapping_add(x.wrapping_mul(y));
                t += 1;
            }
            proof {
                lemma_accumulate_part(
                    val,
                    ival,
                    row_dot(a, b, i as int, n as int, j as int),
                    row_dot(a, b, i as int, n as int, j + GROUP_SIZE),
                );
            }
            val = val.wrapping_add(ival);
            j += GROUP_SIZE;
            proof {
                q = q + 1;
                assert(j == GROUP_SIZE * q) by (nonlinear_arith)
                    requires
                        j == GROUP_SIZE * (q - 1) + GROUP_SIZE,
                ;
                assert(q <= groups) by (nonlinear_arith)
                    requires
                        GROUP_SIZE * q <= GROUP_SIZE * groups,
                        GROUP_SIZE > 0,
                ;
            }
        }
        proof {
            crate::arith::lemma_wrap_range(row_dot(a, b, i as int, n as int, n as int));
            assert(results[i as int] == val);
        }
        c.data.out.set(i, val);
        i += 1;
    }
    proof {
        assert(c@.out =~= results);
        assert(c@ == old(c)@.heap_step());
    }
    Ok(())
}

/// The in-memory engine with the group size of 64 (see [`matmul`]).
pub fn multiply_heap(c: &mut Canister) -> (r: Result<(), PreconditionViolation>)
    requires
        old(c).wf(),
    ensures
        final(c).wf(),
        r is Ok <==> old(c)@.n() % 64 == 0,
        r is Ok ==> final(c)@ == old(c)@.heap_step(),
        r is Err ==> final(c)@ == old(c)@,
{
    matmul::<64>(c)
}

/// Words read from the matrix and vector regions of the store, while the
/// output region holds the first `i` results, are the matrix and vector.
proof fn lemma_regions_intact(v: CanisterView, w: Seq<i32>)
    requires
        v.wf(),
        v.out_addr() + 4 * w.len() <= v.bytes.len(),
    ensures
        words_at(put_words(v.bytes, v.out_addr(), w), 0, v.n() * v.d()) == v.a,
        words_at(put_words(v.bytes, v.out_addr(), w), v.b_addr(), v.n()) == v.b,
{
    assert(0 <= v.n() * v.d()) by (nonlinear_arith)
        requires
            0 <= v.n(),
            0 <= v.d(),
    ;
    lemma_words_outside(v.bytes, v.out_addr(), w, 0, v.n() * v.d());
    lemma_words_outside(v.bytes, v.out_addr(), w, v.b_addr(), v.n());
}

/// The element `k` of a region read as words is the word at its address.
proof fn lemma_word_of(bytes: Seq<u8>, off: int, count: int, k: int)
    requires
        0 <= k < count,
    ensures
        words_at(bytes, off, count)[k] == word_at(bytes, off + 4 * k),
{
}

/// The store engine with four-lane batched reads: for each row it reads
/// the matrix and the vector four words at a time, accumulates each lane on
/// its own with wraparound, sums the four lanes, and writes the result as
/// one word at `out_addr + 4 * i`. Afterwards the output region of the store
/// holds the product of the stored matrix and vector; nothing else
/// changes. Fails, changing nothing, unless `n` is a multiple of four.
#[verifier::rlimit(40)]
pub fn multiply_stable(c: &mut Canister) -> (r: Result<(), PreconditionViolation>)
    requires
        old(c).wf(),
    ensures
        final(c).wf(),
        r is Ok <==> old(c)@.n() % 4 == 0,
        r is Ok ==> final(c)@ == old(c)@.stable_step(),
        r is Err ==> final(c)@ == old(c)@,
{
    let n = c.data.b.len();
    let d = c.data.out.len();
    if n % 4 != 0 {
        return Err(PreconditionViolation);
    }
    let ghost v = c@;
    let ghost a = v.a;
    let ghost b = v.b;
    let ghost results = products(a, b, n as int, d as int);
    proof {
        assert(n * d <= total_bytes(n as int, d as int)) by (nonlinear_arith);
    }
    let nd = n * d;
    let b_addr = nd * 4;
    let out_addr = (nd + n) * 4;
    let mut i: usize = 0;
    while i < d
        invariant
            v == old(c)@,
            v.wf(),
            n == v.n(),
            d == v.d(),
            nd == n * d,
            b_addr == v.b_addr(),
            out_addr == v.out_addr(),
            n % 4 == 0,
            a == v.a,
            b == v.b,
            results == products(a, b, n as int, d as int),
            c.data.a@ == a,
            c.data.b@ == b,
            c.data.out@ == v.out,
            c.store.max_pages() == v.max_pages,
            c.store@ == put_words(v.bytes, out_addr as int, results.take(i as int)),
            i <= d,
        decreases d - i,
    {
        let ghost cur = c.store@;
        proof {
            lemma_regions_intact(v, results.take(i as int));
            assert(i * n <= n * d) by (nonlinear_arith)
                requires
                    i < d,
            ;
        }
        let in_ = i * n;
        let mut v0: i32 = 0;
        let mut v1: i32 = 0;
        let mut v2: i32 = 0;
        let mut v3: i32 = 0;
        let mut j: usize = 0;
        let ghost mut q: int = 0;
        proof {
            lemma_wrap_small(0);
        }
        while j < n
            invariant
                v.wf(),
                n == v.n(),
                d == v.d(),
                nd == n * d,
                b_addr == v.b_addr(),
                n % 4 == 0,
                i < d,
                in_ == i * n,
                c.store@ == cur,
                words_at(cur, 0, nd as int) == a,
                words_at(cur, b_addr as int, n as int) == b,
                cur.len() == v.bytes.len(),
                j == 4 * q,
                j <= n,
                v0 as int == wrap_i32(lane_dot(a, b, i as int, n as int, 0, q)),
                v1 as int == wrap_i32(lane_dot(a, b, i as int, n as int, 1, q)),
                v2 as int == wrap_i32(lane_dot(a, b, i as int, n as int, 2, q)),
                v3 as int == wrap_i32(lane_dot(a, b, i as int, n as int, 3, q)),
            decreases n - j,
        {
            proof {
                lemma_row_index(i as int, n as int, d as int, j as int);
            }
            let ag = c.store.read_i32x4((in_ + j) * 4);
            let bg = c.store.read_i32x4(b_addr + j * 4);
            proof {
                assert forall|t: int| 0 <= t < 4 implies ag@[t] == a[in_ + j + t] && bg@[t]
                    == b[j + t] by {
                    lemma_word_of(cur, 0, nd as int, in_ + j + t);
                    lemma_word_of(cur, b_addr as int, n as int, j + t);
                    lemma_word_of(cur, (in_ + j) * 4, 4, t);
                    lemma_word_of(cur, b_addr + j * 4, 4, t);
                    assert((in_ + j) * 4 + 4 * t == 0 + 4 * (in_ + j + t));
                    assert(b_addr + j * 4 + 4 * t == b_addr + 4 * (j + t));
                }
                lemma_accumulate(v0, lane_dot(a, b, i as int, n as int, 0, q), ag[0], bg[0]);
                lemma_accumulate(v1, lane_dot(a, b, i as int, n as int, 1, q), ag[1], bg[1]);
                lemma_accumulate(v2, lane_dot(a, b, i as int, n as int, 2, q), ag[2], bg[2]);
                lemma_accumulate(v3, lane_dot(a, b, i as int, n as int, 3, q), ag[3], bg[3]);
            }
            v0 = v0.wrapping_add(ag[0].wrapping_mul(bg[0]));
            v1 = v1.wrapping_add(ag[1].wrapping_mul(bg[1]));
            v2 = v2.wrapping_add(ag[2].wrapping_mul(bg[2]));
            v3 = v3.wrapping_add(ag[3].wrapping_mul(bg[3]));
            j += 4;
            proof {
                q = q + 1;
            }
        }
        let val = v0.wrapping_add(v1).wrapping_add(v2).wrapping_add(v3);
        proof {
            assert(q == n / 4);
            lemma_wrapping_add(v0, v1);
            lemma_wrapping_add(v0.wrapping_add(v1), v2);
            lemma_wrapping_add(v0.wrapping_add(v1).wrapping_add(v2), v3);
            lemma_lanes_agree_with_row(a, b, i as int, n as int);
            crate::arith::lemma_wrap_range(row_dot(a, b, i as int, n as int, n as int));
            assert(results[i as int] == val);
            lemma_put_words_push(v.bytes, out_addr as int, results.take(i as int), val);
            assert(results.take(i as int).push(val) =~= results.take(i + 1));
        }
        c.store.write_i32(out_addr + i * 4, val);
        i += 1;
    }
    proof {
        assert(results.take(d as int) =~= results);
        assert(v.stored_products() == results);
        assert(c@ == v.stable_step());
        lemma_regions_intact(v, results);
    }
    Ok(())
}

/// The store engine without lane reads: for each row it reads the matrix
/// and the vector sixteen bytes at a time, decodes each batch as four
/// little-endian words, sums the batch with wraparound, adds it to the row
/// total, and writes the total's four bytes at `out_addr + 4 * i`. The
/// outcome is that of [`multiply_stable`]. Fails, changing nothing, unless
/// `n` is a multiple of four.
#[verifier::rlimit(40)]
pub fn multiply_stable_old(c: &mut Canister) -> (r: Result<(), PreconditionViolation>)
    requires
        old(c).wf(),
    ensures
        final(c).wf(),
        r is Ok <==> old(c)@.n() % 4 == 0,
        r is Ok ==> final(c)@ == old(c)@.stable_step(),
        r is Err ==> final(c)@ == old(c)@,
{
    let n = c.data.b.len();
    let d = c.data.out.len();
    if n % 4 != 0 {
        return Err(PreconditionViolation);
    }
    let ghost v = c@;
    let ghost a = v.a;
    let ghost b = v.b;
    let ghost results = products(a, b, n as int, d as int);
    proof {
        assert(n * d <= total_bytes(n as int, d as int)) by (nonlinear_arith);
    }
    let nd = n * d;
    let b_addr = nd * 4;
    let out_addr = (nd + n) * 4;
    let mut i: usize = 0;
    while i < d
        invariant
            v == old(c)@,
            v.wf(),
            n == v.n(),
            d == v.d(),
            nd == n * d,
            b_addr == v.b_addr(),
            out_addr == v.out_addr(),
            n % 4 == 0,
            a == v.a,
            b == v.b,
            results == products(a, b, n as int, d as int),
            c.data.a@ == a,
            c.data.b@ == b,
            c.data.out@ == v.out,
            c.store.max_pages() == v.max_pages,
            c.store@ == put_words(v.bytes, out_addr as int, results.take(i as int)),
            i <= d,
        decreases d - i,
    {
        let ghost cur = c.store@;
        proof {
            lemma_regions_intact(v, results.take(i as int));
            assert(i * n <= n * d) by (nonlinear_arith)
                requires
                    i < d,
            ;
        }
        let in_ = i * n;
        let mut val: i32 = 0;
        let mut j: usize = 0;
        proof {
            lemma_wrap_small(0);
        }
        while j < n
            invariant
                v.wf(),
                n == v.n(),
                d == v.d(),
                nd == n * d,
                b_addr == v.b_addr(),
                n % 4 == 0,
                i < d,
                in_ == i * n,
                c.store@ == cur,
                words_at(cur, 0, nd as int) == a,
                words_at(cur, b_addr as int, n as int) == b,
                cur.len() == v.bytes.len(),
                j % 4 == 0,
                j <= n,
                val as int == wrap_i32(row_dot(a, b, i as int, n as int, j as int)),
            decreases n - j,
        {
            proof {
                lemma_row_index(i as int, n as int, d as int, j as int);
            }
            proof {
                assert(j + 4 <= n);
            }
            let a_group = c.store.read((in_ + j) * 4, 16);
            let b_group = c.store.read(b_addr + j * 4, 16);
            let mut ival: i32 = 0;
            let mut t: usize = 0;
            while t < 4
                invariant
                    n == b.len(),
                    a.len() == n * d,
                    i < d,
                    in_ == i * n,
                    in_ + n <= n * d,
                    j + 4 <= n,
                    words_at(cur, 0, nd as int) == a,
                    words_at(cur, b_addr as int, n as int) == b,
                    nd == n * d,
                    (in_ + j) * 4 + 16 <= cur.len(),
                    b_addr + j * 4 + 16 <= cur.len(),
                    a_group@ == cur.subrange((in_ + j) * 4, (in_ + j) * 4 + 16),
                    b_group@ == cur.subrange(b_addr + j * 4, b_addr + j * 4 + 16),
                    t <= 4,
                    ival as int == wrap_i32(
                        row_dot(a, b, i as int, n as int, j + t) - row_dot(
                            a,
                            b,
                            i as int,
                            n as int,
                            j as int,
                        ),
                    ),
                decreases 4 - t,
            {
                let x = i32_from_le(vstd::slice::slice_subrange(a_group.as_slice(), t * 4, t * 4 + 4));
                let y = i32_from_le(vstd::slice::slice_subrange(b_group.as_slice(), t * 4, t * 4 + 4));
                proof {
                    assert(a_group@.subrange(t * 4, t * 4 + 4) =~= cur.subrange(
                        4 * (in_ + j + t),
                        4 * (in_ + j + t) + 4,
                    ));
                    assert(b_group@.subrange(t * 4, t * 4 + 4) =~= cur.subrange(
                        b_addr + 4 * (j + t),
                        b_addr + 4 * (j + t) + 4,
                    ));
                    lemma_word_of(cur, 0, nd as int, in_ + j + t);
                    lemma_word_of(cur, b_addr as int, n as int, j + t);
                    assert(x == a[in_ + j + t]);
                    assert(y == b[j + t]);
                    lemma_accumulate(
                        ival,
                        row_dot(a, b, i as int, n as int, j + t) - row_dot(
                            a,
                            b,
                            i as int,
                            n as int,
                            j as int,
                        ),
                        x,
                        y,
                    );
                }
                ival = ival.wrapping_add(x.wrapping_mul(y));
                t += 1;
            }
            proof {
                lemma_accumulate_part(
                    val,
                    ival,
                    row_dot(a, b, i as int, n as int, j as int),
                    row_dot(a, b, i as int, n as int, j + 4),
                );
            }
            val = val.wrapping_add(ival);
            j += 4;
        }
        proof {
            crate::arith::lemma_wrap_range(row_dot(a, b, i as int, n as int, n as int));
            assert(results[i as int] == val);
            lemma_splice_word(cur, out_addr + i * 4, val);
            lemma_put_words_push(v.bytes, out_addr as int, results.take(i as int), val);
            assert(results.take(i as int).push(val) =~= results.take(i + 1));
        }
        let bytes = i32_to_le(val);
        c.store.write(out_addr + i * 4, bytes.as_slice());
        i += 1;
    }
    proof {
        assert(results.take(d as int) =~= results);
        assert(v.stored_products() == results);
        assert(c@ == v.stable_step());
        lemma_regions_intact(v, results);
    }
    Ok(())
}

/// On a well-formed instance the output that a store engine writes, read
/// back from the store as words, is the output that the in-memory engine
/// computes: the engines agree.
pub proof fn lemma_heap_matches_store(v: CanisterView)
    requires
        v.wf(),
    ensures
        words_at(v.stable_step().bytes, v.out_addr(), v.d()) == v.heap_step().out,
{
    lemma_words_of_put(v.bytes, v.out_addr(), v.stored_products());
}

/// Running an engine a second time, without initialising again, changes
/// nothing more: each engine's step is idempotent, and keeps the instance
/// well-formed.
pub proof fn lemma_rerun_same(v: CanisterView)
    requires
        v.wf(),
    ensures
        v.heap_step().wf(),
        v.heap_step().heap_step() == v.heap_step(),
        v.stable_step().wf(),
        v.stable_step().stable_step() == v.stable_step(),
{
    lemma_regions_intact(v, v.stored_products());
    lemma_put_words_twice(v.bytes, v.out_addr(), v.stored_products());
}

/// On a well-formed instance whose row length is a multiple of four, each
/// word of the output region after a store engine is both the four-lane
/// reduction of its row and the in-order one: the lane-read and the
/// byte-read engines write the same bytes.
pub proof fn lemma_lane_and_scalar_agree(v: CanisterView, i: int)
    requires
        v.wf(),
        v.n() % 4 == 0,
        0 <= i < v.d(),
    ensures
        words_at(v.stable_step().bytes, v.out_addr(), v.d())[i] as int == wrap_i32(
            row_dot(v.a, v.b, i, v.n(), v.n()),
        ),
        words_at(v.stable_step().bytes, v.out_addr(), v.d())[i] as int == wrap_i32(
            wrap_i32(
                wrap_i32(
                    wrap_i32(lane_dot(v.a, v.b, i, v.n(), 0, v.n() / 4)) + wrap_i32(
                        lane_dot(v.a, v.b, i, v.n(), 1, v.n() / 4),
                    ),
                ) + wrap_i32(lane_dot(v.a, v.b, i, v.n(), 2, v.n() / 4)),
            ) + wrap_i32(lane_dot(v.a, v.b, i, v.n(), 3, v.n() / 4)),
        ),
{
    lemma_heap_matches_store(v);
    crate::arith::lemma_wrap_range(row_dot(v.a, v.b, i, v.n(), v.n()));
    lemma_lanes_agree_with_row(v.a, v.b, i, v.n());
}

/// A call that does nothing, to measure the cost of a call.
pub fn update_empty() {
}

} // verus!

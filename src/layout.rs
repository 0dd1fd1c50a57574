//! Where the matrix, the vector and the output stand in the byte store, and
//! how many pages hold them.
use vstd::prelude::*;

verus! {

/// The size in bytes of one page of the store.
pub const PAGE_SIZE: usize = 65536;

/// The byte size of the matrix `n * d`, the vector `n` and the output `d`,
/// four bytes per element.
pub open spec fn total_bytes(n: int, d: int) -> int {
    (n * d + n + d) * 4
}

/// Whether every address of the layout for `(n, d)` is a `usize`.
pub open spec fn layout_fits(n: int, d: int) -> bool {
    total_bytes(n, d) <= usize::MAX
}

/// The fewest pages, and at least one, that hold `bytes` bytes.
pub open spec fn pages_needed(bytes: int) -> int {
    if bytes <= PAGE_SIZE {
        1
    } else {
        (bytes + PAGE_SIZE - 1) / PAGE_SIZE as int
    }
}

/// The byte offsets of the three regions and the page count of the store.
pub struct Layout {
    pub a_addr: usize,
    pub b_addr: usize,
    pub out_addr: usize,
    pub total_bytes: usize,
    pub pages: usize,
}

impl Layout {
    /// The layout that the offsets of `(n, d)` describe: matrix, vector and
    /// output back to back, from address zero.
    pub open spec fn describes(self, n: int, d: int) -> bool {
        &&& self.a_addr == 0
        &&& self.b_addr == n * d * 4
        &&& self.out_addr == (n * d + n) * 4
        &&& self.total_bytes == total_bytes(n, d)
        &&& self.pages == pages_needed(total_bytes(n, d))
    }

    /// The layout for an `n`-column, `d`-row matrix; `None` where its byte
    /// size is beyond `usize`.
    pub fn new(n: usize, d: usize) -> (r: Option<Layout>)
        ensures
            r is None <==> !layout_fits(n as int, d as int),
            r matches Some(l) ==> l.describes(n as int, d as int),
    {
        let nd = match n.checked_mul(d) {
            Some(v) => v,
            None => {
                proof {
                    assert(n * d <= total_bytes(n as int, d as int)) by (nonlinear_arith);
                }
                return None;
            },
        };
        let words = match nd.checked_add(n) {
            Some(v) => match v.checked_add(d) {
                Some(w) => w,
                None => return None,
            },
            None => return None,
        };
        let bytes = match words.checked_mul(4) {
            Some(v) => v,
            None => return None,
        };
        proof {
            assert(n * d * 4 <= (n * d + n) * 4 <= bytes) by (nonlinear_arith)
                requires
                    bytes == (n * d + n + d) * 4,
            ;
        }
        Some(Layout {
            a_addr: 0,
            b_addr: nd * 4,
            out_addr: (nd + n) * 4,
            total_bytes: bytes,
            pages: pages_for(bytes),
        })
    }
}

/// The smallest page count, at least one, whose pages hold `bytes` bytes.
pub fn pages_for(bytes: usize) -> (r: usize)
    ensures
        r == pages_needed(bytes as int),
        r >= 1,
        r * PAGE_SIZE >= bytes,
        r == 1 || (r - 1) * PAGE_SIZE < bytes,
{
    let q = bytes / PAGE_SIZE;
    let rem = bytes % PAGE_SIZE;
    proof {
        vstd::arithmetic::div_mod::lemma_fundamental_div_mod(bytes as int, PAGE_SIZE as int);
        assert(q <= bytes);
    }
    let r = if rem == 0 {
        if q == 0 {
            1
        } else {
            q
        }
    } else {
        q + 1
    };
    proof {
        let b = bytes as int;
        if b > PAGE_SIZE {
            assert((b + PAGE_SIZE - 1) / PAGE_SIZE as int == r) by (nonlinear_arith)
                requires
                    b == 65536 * q + rem,
                    0 <= rem < 65536,
                    PAGE_SIZE == 65536,
                    r == (if rem == 0 { q as int } else { q + 1 }),
            ;
        }
        assert(r * PAGE_SIZE >= b && (r == 1 || (r - 1) * PAGE_SIZE < b)) by (nonlinear_arith)
            requires
                b == 65536 * q + rem,
                0 <= rem < 65536,
                PAGE_SIZE == 65536,
                r == (if rem == 0 && q == 0 { 1 } else if rem == 0 { q as int } else { q + 1 }),
        ;
    }
    r
}

} // verus!

//! Grayscale rendering of a memory block: the pixel grid for a byte buffer,
//! sized by the integer square root of the block length. The shell turns the
//! grid into an image file; this module computes it.

use vstd::prelude::*;

use num_integer::Roots;

verus! {

/// Builder of memory images; remembers the last rendered block so the shell
/// can difference successive renders.
pub struct MemImage {
    prev_snapshot: Vec<u8>,
}

/// Relies on `num_integer::Roots::sqrt`: the truncated principal square
/// root, the greatest `r` with `r * r <= n`.
#[verifier::external_body]
fn isqrt(n: usize) -> (r: usize)
    ensures
        r * r <= n < (r + 1) * (r + 1),
{
    n.sqrt()
}

/// The gray level of pixel `p` for a block: the block's byte there, black
/// past the block's end.
pub open spec fn gray_at(data: Seq<u8>, p: int) -> u8 {
    if 0 <= p < data.len() {
        data[p]
    } else {
        0
    }
}

impl MemImage {
    /// The block rendered last.
    pub closed spec fn spec_prev(self) -> Seq<u8> {
        self.prev_snapshot@
    }

    pub fn new() -> (m: MemImage)
        ensures
            m.spec_prev() == Seq::<u8>::empty(),
    {
        MemImage { prev_snapshot: Vec::new() }
    }

    /// Lay a memory block out as a gray image: the width is the truncated
    /// square root of the block length, the height the least row count that
    /// covers the block, and each pixel holds its byte's value on all three
    /// channels, black past the end. The block is kept for the next render's
    /// differencing. Returns width, height, and the row-major
    /// red-green-blue bytes.
    pub fn render(&mut self, mem_block: Vec<u8>) -> (r: (usize, usize, Vec<u8>))
        requires
            mem_block@.len() > 0,
            mem_block@.len() <= 0x1000_0000,
        ensures
            ({
                let (w, h, pixels) = r;
                let block = final(self).spec_prev();
                &&& w * w <= block.len() < (w + 1) * (w + 1)
                &&& w >= 1
                &&& h == (block.len() + w - 1) as int / w as int
                &&& w * h >= block.len()
                &&& pixels@.len() == 3 * (w * h)
                &&& forall|p: int|
                    0 <= p < w * h ==> pixels@[3 * p] == gray_at(block, p) && pixels@[3 * p + 1]
                        == gray_at(block, p) && pixels@[3 * p + 2] == gray_at(block, p)
            }),
            final(self).spec_prev() == mem_block@,
    {
        let len = mem_block.len();
        let w = isqrt(len);
        proof {
            if w == 0 {
                assert((w + 1) * (w + 1) == 1) by (nonlinear_arith)
                    requires
                        w == 0,
                ;
            }
        }
        assert(w >= 1);
        assert(w <= len) by {
            if w > len {
                assert(w * w >= w) by (nonlinear_arith)
                    requires
                        w >= 1,
                ;
            }
        }
        let h = (len + w - 1) / w;
        proof {
            vstd::arithmetic::div_mod::lemma_fundamental_div_mod((len + w - 1) as int, w as int);
        }
        assert(w * h <= len + w - 1);
        assert(w * h >= len);
        let total = w * h;
        let mut pixels: Vec<u8> = Vec::new();
        let mut p: usize = 0;
        while p < total
            invariant
                0 <= p <= total,
                total == w * h,
                len == mem_block@.len(),
                total <= len + w - 1,
                w <= len <= 0x1000_0000,
                pixels@.len() == 3 * p,
                forall|q: int|
                    0 <= q < p ==> pixels@[3 * q] == gray_at(mem_block@, q) && pixels@[3 * q + 1]
                        == gray_at(mem_block@, q) && pixels@[3 * q + 2] == gray_at(mem_block@, q),
            decreases total - p,
        {
            let g = if p < len {
                mem_block[p]
            } else {
                0
            };
            assert(g == gray_at(mem_block@, p as int));
            pixels.push(g);
            pixels.push(g);
            pixels.push(g);
            p += 1;
        }
        self.prev_snapshot = mem_block;
        (w, h, pixels)
    }
}

} // verus!

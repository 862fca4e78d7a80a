use vstd::prelude::*;

verus! {

/// The number of points of a `(width, height)` pair.
pub open spec fn area(d: (u32, u32)) -> int {
    d.0 as int * d.1 as int
}

proof fn lemma_area_fits(d: (u32, u32))
    ensures
        0 <= area(d) <= u64::MAX,
{
    assert(0 <= d.0 as int * d.1 as int <= 0xffff_ffff * 0xffff_ffff) by (nonlinear_arith)
        requires
            d.0 <= 0xffff_ffff,
            d.1 <= 0xffff_ffff,
    ;
}

/// Of two `(width, height)` pairs, the one with fewer points; the second
/// on a tie.
pub fn get_smallest_dimension(d_1: (u32, u32), d_2: (u32, u32)) -> (r: (u32, u32))
    ensures
        r == (if area(d_1) < area(d_2) { d_1 } else { d_2 }),
{
    proof {
        lemma_area_fits(d_1);
        lemma_area_fits(d_2);
    }
    let points_1: u64 = d_1.0 as u64 * d_1.1 as u64;
    let points_2: u64 = d_2.0 as u64 * d_2.1 as u64;
    if points_1 < points_2 {
        d_1
    } else {
        d_2
    }
}

/// An RGBA image buffer under construction.
pub struct FloatImage {
    pub width: u32,
    pub height: u32,
    pub data: Vec<u8>,
    pub name: String,
}

impl FloatImage {
    /// An empty image of `w` by `h` pixels named `name`.
    pub fn new(w: u32, h: u32, name: String) -> (r: Self)
        requires
            h as int * w as int * 4 <= u32::MAX,
        ensures
            r.width == w,
            r.height == h,
            r.data@.len() == 0,
            r.name == name,
    {
        proof {
            assert(0 <= h as int * w as int) by (nonlinear_arith);
        }
        let buf_capacity: u32 = h * w * 4;
        let buffer: Vec<u8> = Vec::with_capacity(buf_capacity as usize);
        FloatImage { width: w, height: h, data: buffer, name }
    }
}

} // verus!

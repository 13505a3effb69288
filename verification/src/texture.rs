//! Colours of surfaces.

use crate::vec3::Vec3;
use vstd::prelude::*;

verus! {

/// What gives a surface its colour at a point.
pub trait Texture {
    /// The colour at the surface coordinates `u` and `v` and the point `p`.
    fn value(&self, u: i64, v: i64, p: &Vec3) -> (r: Vec3)
    ;
}

/// `r` is a colour that `texture` may give at `u`, `v` and `p`.
pub open spec fn colours<T: Texture>(texture: T, u: i64, v: i64, p: Vec3, r: Vec3) -> bool {
    call_ensures(T::value, (&texture, u, v, &p), r)
}

/// One colour everywhere.
#[derive(Clone, Copy, Debug, PartialEq, Eq, Structural)]
pub struct ConstantTexture {
    pub color: Vec3,
}

impl ConstantTexture {
    pub fn new(r: i64, g: i64, b: i64) -> (t: Self)
        ensures
            t.color == (Vec3 { x: r, y: g, z: b }),
    {
        ConstantTexture { color: Vec3 { x: r, y: g, z: b } }
    }
}

impl Texture for ConstantTexture {
    fn value(&self, u: i64, v: i64, p: &Vec3) -> (r: Vec3)
        ensures
            r == self.color,
    {
        self.color
    }
}

/// `i` brought into the range of the indices below `n`.
pub open spec fn clamp_index(i: int, n: int) -> int {
    if i < 0 {
        0
    } else if i > n - 1 {
        n - 1
    } else {
        i
    }
}

/// A picture: rows of pixels from the top down, three bytes to the pixel.
pub struct ImageTexture {
    data: Vec<u8>,
    nx: u32,
    ny: u32,
}

impl ImageTexture {
    #[verifier::type_invariant]
    spec fn holds_all_pixels(self) -> bool {
        self.nx > 0 && self.ny > 0 && self.data@.len() == 3 * self.nx * self.ny
    }

    /// The bytes of the picture.
    pub closed spec fn bytes(self) -> Seq<u8> {
        self.data@
    }

    /// The number of pixels in a row.
    pub closed spec fn width(self) -> int {
        self.nx as int
    }

    /// The number of rows.
    pub closed spec fn height(self) -> int {
        self.ny as int
    }

    /// The position in the bytes of the first byte of the pixel in column
    /// `i` of row `j`, both brought into range.
    pub open spec fn offset_of(self, i: int, j: int) -> int {
        3 * clamp_index(i, self.width()) + 3 * self.width() * clamp_index(j, self.height())
    }

    /// A picture of `nx` by `ny` pixels over `data`; none unless the picture
    /// has a pixel and `data` holds three bytes for each.
    pub fn new(data: Vec<u8>, nx: u32, ny: u32) -> (r: Option<Self>)
        ensures
            r is Some <==> nx > 0 && ny > 0 && data@.len() == 3 * nx * ny,
            r matches Some(t) ==> t.bytes() == data@ && t.width() == nx && t.height() == ny,
    {
        if nx == 0 || ny == 0 {
            return None;
        }
        assert((nx as u128) * (ny as u128) <= 0xffff_ffff * 0xffff_ffff) by (nonlinear_arith)
            requires
                nx <= 0xffff_ffff,
                ny <= 0xffff_ffff,
        ;
        let pixels: u128 = (nx as u128) * (ny as u128);
        let want: u128 = 3 * pixels;
        assert(want == 3 * nx * ny) by (nonlinear_arith)
            requires
                want == 3 * pixels,
                pixels == nx * ny,
        ;
        if data.len() as u128 != want {
            return None;
        }
        Some(ImageTexture { data, nx, ny })
    }

    /// The three bytes of the pixel in column `i` of row `j`.  A column or a
    /// row outside the picture stands for the nearest one inside.
    pub fn texel(&self, i: i64, j: i64) -> (r: (u8, u8, u8))
        ensures
            0 <= self.offset_of(i as int, j as int),
            self.offset_of(i as int, j as int) + 2 < self.bytes().len(),
            r.0 == self.bytes()[self.offset_of(i as int, j as int)],
            r.1 == self.bytes()[self.offset_of(i as int, j as int) + 1],
            r.2 == self.bytes()[self.offset_of(i as int, j as int) + 2],
    {
        proof {
            use_type_invariant(self);
        }
        let nx: usize = self.nx as usize;
        let ny: usize = self.ny as usize;
        let ci: usize = if i < 0 {
            0
        } else if i > (self.nx - 1) as i64 {
            nx - 1
        } else {
            i as usize
        };
        let cj: usize = if j < 0 {
            0
        } else if j > (self.ny - 1) as i64 {
            ny - 1
        } else {
            j as usize
        };
        assert(ci == clamp_index(i as int, self.width()));
        assert(cj == clamp_index(j as int, self.height()));
        assert(nx * cj + ci + 1 <= nx * ny && 0 <= nx * cj) by (nonlinear_arith)
            requires
                0 <= ci < nx,
                0 <= cj < ny,
        ;
        assert(self.data@.len() == 3 * (nx * ny)) by (nonlinear_arith)
            requires
                self.data@.len() == 3 * self.nx * self.ny,
                nx == self.nx,
                ny == self.ny,
        ;
        let total: usize = self.data.len();
        assert(nx * cj <= total && nx * cj + ci < total && 3 * (nx * cj + ci) + 2 < total);
        let pixel: usize = nx * cj + ci;
        let idx: usize = 3 * pixel;
        assert(idx == self.offset_of(i as int, j as int)) by (nonlinear_arith)
            requires
                idx == 3 * (nx * cj + ci),
                self.offset_of(i as int, j as int) == 3 * ci + 3 * nx * cj,
        ;
        (self.data[idx], self.data[idx + 1], self.data[idx + 2])
    }
}

} // verus!

//! Texture atlas bookkeeping.
//!
//! The atlas divides its backing image into a grid of fixed-size cells and
//! hands out rectangular blocks of cells, first-fit in row-major order.
//! Requested sizes are rounded up to powers of two, as allocation
//! granularity.  The grid is plain data (`0` free, `1` occupied); the GPU
//! side of the texture is a caller concern and only its handle rides
//! along.

use vstd::prelude::*;

verus! {

/// A CPU-side image: dimensions, channel count and packed pixels.
#[derive(Debug)]
pub struct Image {
    pub width: usize,
    pub height: usize,
    pub depth: usize,
    pub data: Vec<u32>,
}

/// A pixel packed as `0xAARRGGBB` from its four channel bytes.
pub open spec fn packed_argb(a: u8, r: u8, g: u8, b: u8) -> u32 {
    ((a as u32) << 24) | ((r as u32) << 16) | ((g as u32) << 8) | (b as u32)
}

/// Pack four channel bytes into one `0xAARRGGBB` pixel.
pub fn colour_rgba(a: u8, r: u8, g: u8, b: u8) -> (p: u32)
    ensures
        p == packed_argb(a, r, g, b),
{
    ((a as u32) << 24u32) | ((r as u32) << 16u32) | ((g as u32) << 8u32) | (b as u32)
}

impl Image {
    /// Map decoded channel bytes to packed pixels: the CPU half of image
    /// loading.  Three-channel input gets an opaque alpha; four-channel
    /// input carries its own.  Any trailing bytes that do not fill a
    /// whole pixel are ignored, and every produced pixel is pinned to the
    /// exact packing of its source bytes.
    pub fn from_bytes(width: usize, height: usize, depth: usize, bytes: &Vec<u8>) -> (r: Image)
        requires
            depth == 3 || depth == 4,
        ensures
            r.width == width,
            r.height == height,
            r.depth == depth,
            r.data@.len() == bytes@.len() as int / depth as int,
            depth == 4 ==> forall|p: int|
                0 <= p < r.data@.len() ==> #[trigger] r.data@[p] == packed_argb(
                    bytes@[4 * p + 3],
                    bytes@[4 * p],
                    bytes@[4 * p + 1],
                    bytes@[4 * p + 2],
                ),
            depth == 3 ==> forall|p: int|
                0 <= p < r.data@.len() ==> #[trigger] r.data@[p] == packed_argb(
                    255,
                    bytes@[3 * p],
                    bytes@[3 * p + 1],
                    bytes@[3 * p + 2],
                ),
    {
        let count = bytes.len() / depth;
        let mut data: Vec<u32> = Vec::new();
        let mut p: usize = 0;
        while p < count
            invariant
                depth == 3 || depth == 4,
                count == bytes@.len() as int / depth as int,
                bytes@.len() <= usize::MAX,
                0 <= p <= count,
                data@.len() == p,
                depth == 4 ==> forall|q: int|
                    0 <= q < p ==> #[trigger] data@[q] == packed_argb(
                        bytes@[4 * q + 3],
                        bytes@[4 * q],
                        bytes@[4 * q + 1],
                        bytes@[4 * q + 2],
                    ),
                depth == 3 ==> forall|q: int|
                    0 <= q < p ==> #[trigger] data@[q] == packed_argb(
                        255,
                        bytes@[3 * q],
                        bytes@[3 * q + 1],
                        bytes@[3 * q + 2],
                    ),
            decreases count - p,
        {
            proof {
                if depth == 4 {
                    assert(4 * (count as int) <= bytes@.len() as int);
                } else {
                    assert(3 * (count as int) <= bytes@.len() as int);
                }
            }
            if depth == 4 {
                let pixel = colour_rgba(
                    bytes[4 * p + 3],
                    bytes[4 * p],
                    bytes[4 * p + 1],
                    bytes[4 * p + 2],
                );
                data.push(pixel);
            } else {
                let pixel = colour_rgba(255, bytes[3 * p], bytes[3 * p + 1], bytes[3 * p + 2]);
                data.push(pixel);
            }
            p = p + 1;
        }
        Image { width, height, depth, data }
    }
}

/// The texel layouts an asset importer can hand over: one to four
/// channels of one or two bytes each.
#[derive(Clone, Copy, Debug, PartialEq, Eq, Structural)]
pub enum PixelFormat {
    R8,
    R8G8,
    R8G8B8,
    R8G8B8A8,
    R16,
    R16G16,
    R16G16B16,
    R16G16B16A16,
}

/// Bytes per texel of a format.
pub open spec fn format_stride(f: PixelFormat) -> int {
    match f {
        PixelFormat::R8 => 1,
        PixelFormat::R8G8 => 2,
        PixelFormat::R8G8B8 => 3,
        PixelFormat::R8G8B8A8 => 4,
        PixelFormat::R16 => 2,
        PixelFormat::R16G16 => 4,
        PixelFormat::R16G16B16 => 6,
        PixelFormat::R16G16B16A16 => 8,
    }
}

/// The packed pixel swizzled out of the texel starting at byte `i`:
/// channels land in the low-to-high bytes red, green, blue, alpha, a
/// missing channel stays at full intensity, and a two-byte channel keeps
/// its second byte.
pub open spec fn swizzled_pixel(f: PixelFormat, bytes: Seq<u8>, i: int) -> u32 {
    match f {
        PixelFormat::R8 => 0xFFFFFF00u32 | (bytes[i] as u32),
        PixelFormat::R8G8 => 0xFFFF0000u32 | ((bytes[i + 1] as u32) << 8) | (bytes[i] as u32),
        PixelFormat::R8G8B8 => 0xFF000000u32 | ((bytes[i + 2] as u32) << 16) | ((bytes[i
            + 1] as u32) << 8) | (bytes[i] as u32),
        PixelFormat::R8G8B8A8 => ((bytes[i + 3] as u32) << 24) | ((bytes[i + 2] as u32) << 16) | ((
        bytes[i + 1] as u32) << 8) | (bytes[i] as u32),
        PixelFormat::R16 => 0xFFFFFF00u32 | (bytes[i + 1] as u32),
        PixelFormat::R16G16 => 0xFFFF0000u32 | ((bytes[i + 3] as u32) << 8) | (bytes[i
            + 1] as u32),
        PixelFormat::R16G16B16 => 0xFF000000u32 | ((bytes[i + 5] as u32) << 16) | ((bytes[i
            + 3] as u32) << 8) | (bytes[i + 1] as u32),
        PixelFormat::R16G16B16A16 => ((bytes[i + 7] as u32) << 24) | ((bytes[i + 5] as u32) << 16)
            | ((bytes[i + 3] as u32) << 8) | (bytes[i + 1] as u32),
    }
}

impl Image {
    /// Swizzle an imported texel buffer into packed four-channel pixels:
    /// the compute half of glTF image import, over the format and raw
    /// bytes an importer produces.  Every output pixel is pinned to the
    /// exact swizzle of its source texel.
    pub fn load_image_from_gltf(
        format: PixelFormat,
        width: usize,
        height: usize,
        pixels: &Vec<u8>,
    ) -> (r: Image)
        ensures
            r.width == width,
            r.height == height,
            r.depth == 4,
            r.data@.len() == pixels@.len() as int / format_stride(format),
            forall|p: int|
                0 <= p < r.data@.len() ==> #[trigger] r.data@[p] == swizzled_pixel(
                    format,
                    pixels@,
                    p * format_stride(format),
                ),
    {
        let stride: usize = match format {
            PixelFormat::R8 => 1,
            PixelFormat::R8G8 => 2,
            PixelFormat::R8G8B8 => 3,
            PixelFormat::R8G8B8A8 => 4,
            PixelFormat::R16 => 2,
            PixelFormat::R16G16 => 4,
            PixelFormat::R16G16B16 => 6,
            PixelFormat::R16G16B16A16 => 8,
        };
        let count = pixels.len() / stride;
        let mut data: Vec<u32> = Vec::new();
        let mut p: usize = 0;
        while p < count
            invariant
                stride == format_stride(format),
                count == pixels@.len() as int / stride as int,
                pixels@.len() <= usize::MAX,
                0 <= p <= count,
                data@.len() == p,
                forall|q: int|
                    0 <= q < p ==> #[trigger] data@[q] == swizzled_pixel(
                        format,
                        pixels@,
                        q * stride as int,
                    ),
            decreases count - p,
        {
            proof {
                assert(stride * (count as int) <= pixels@.len() as int) by (nonlinear_arith)
                    requires
                        1 <= stride,
                        count == pixels@.len() as int / stride as int,
                        pixels@.len() >= 0,
                ;
                assert(stride * (p as int) + stride <= stride * (count as int))
                    by (nonlinear_arith)
                    requires
                        p < count,
                        1 <= stride,
                ;
            }
            let i = p * stride;
            let pixel: u32 = match format {
                PixelFormat::R8 => 0xFFFFFF00u32 | (pixels[i] as u32),
                PixelFormat::R8G8 => 0xFFFF0000u32 | ((pixels[i + 1] as u32) << 8u32) | (
                pixels[i] as u32),
                PixelFormat::R8G8B8 => 0xFF000000u32 | ((pixels[i + 2] as u32) << 16u32) | ((
                pixels[i + 1] as u32) << 8u32) | (pixels[i] as u32),
                PixelFormat::R8G8B8A8 => ((pixels[i + 3] as u32) << 24u32) | ((pixels[i
                    + 2] as u32) << 16u32) | ((pixels[i + 1] as u32) << 8u32) | (pixels[i] as u32),
                PixelFormat::R16 => 0xFFFFFF00u32 | (pixels[i + 1] as u32),
                PixelFormat::R16G16 => 0xFFFF0000u32 | ((pixels[i + 3] as u32) << 8u32) | (
                pixels[i + 1] as u32),
                PixelFormat::R16G16B16 => 0xFF000000u32 | ((pixels[i + 5] as u32) << 16u32) | ((
                pixels[i + 3] as u32) << 8u32) | (pixels[i + 1] as u32),
                PixelFormat::R16G16B16A16 => ((pixels[i + 7] as u32) << 24u32) | ((pixels[i
                    + 5] as u32) << 16u32) | ((pixels[i + 3] as u32) << 8u32) | (pixels[i
                    + 1] as u32),
            };
            data.push(pixel);
            p = p + 1;
        }
        Image { width, height, depth: 4, data }
    }
}

/// An image together with the handle of its GPU counterpart (zero until a
/// renderer uploads it).
pub struct Texture {
    pub gl_id: u32,
    pub image: Image,
}

/// The atlas: an occupancy grid over the cells of the backing texture.
pub struct TextureAtlas {
    pub grid: Vec<u8>,
    pub cell_width: usize,
    pub cell_height: usize,
    pub texture: Texture,
}

/// A rectangle handed out by the atlas: position and requested size, in
/// pixels.
#[derive(Debug, Clone, Copy, PartialEq, Eq, Structural)]
pub struct TextureAtlasCell {
    pub x: usize,
    pub y: usize,
    pub w: usize,
    pub h: usize,
}

/// Texture filtering mode.
#[derive(PartialEq)]
pub enum FilterMode {
    Point,
    Linear,
}

/// Texture coordinate wrapping mode.
pub enum WrapMode {
    Repeat,
    Mirror,
    Clamp,
}

/// A full sampler configuration.
pub struct Sampler {
    pub filter_mode_mag: FilterMode,
    pub filter_mode_min: FilterMode,
    pub filter_mode_mipmap: FilterMode,
    pub wrap_mode_s: WrapMode,
    pub wrap_mode_t: WrapMode,
    pub mipmap_enabled: bool,
}

/// The smallest power of two that is at least `x` (and at least 1).
pub open spec fn pow2_at_least(x: int) -> int
    decreases x,
{
    if x <= 1 {
        1
    } else {
        2 * pow2_at_least((x + 1) / 2)
    }
}

/// Round up to the next power of two.
pub fn next_pow2(x: usize) -> (r: usize)
    requires
        x <= 16384,
    ensures
        r == pow2_at_least(x as int),
        x <= r,
        x >= 2 ==> r <= 2 * x - 2,
        r >= 1,
    decreases x,
{
    if x <= 1 {
        1
    } else {
        2 * next_pow2((x + 1) / 2)
    }
}

/// All cells of the `cw` by `ch` block at `(gx, gy)` are free in `grid`
/// (row-major, row stride `gw`).
pub open spec fn block_free(grid: Seq<u8>, gw: int, gx: int, gy: int, cw: int, ch: int) -> bool {
    forall|dx: int, dy: int|
        0 <= dx < cw && 0 <= dy < ch ==> #[trigger] grid[(gy + dy) * gw + (gx + dx)] == 0
}

/// Integer division by a positive divisor does not grow a non-negative
/// dividend.
proof fn lemma_div_le(a: int, b: int)
    by (nonlinear_arith)
    requires
        0 <= a,
        1 <= b,
    ensures
        0 <= a / b <= a,
{
}

/// Two distinct grid positions have distinct row-major indices.
proof fn lemma_grid_index_injective(x1: int, y1: int, x2: int, y2: int, gw: int)
    by (nonlinear_arith)
    requires
        0 <= x1 < gw,
        0 <= x2 < gw,
        y1 * gw + x1 == y2 * gw + x2,
    ensures
        x1 == x2,
        y1 == y2,
{
}

impl TextureAtlas {
    /// Number of cell columns of the atlas.
    pub open spec fn grid_w(self) -> int {
        self.texture.image.width as int / self.cell_width as int
    }

    /// Number of cell rows of the atlas.
    pub open spec fn grid_h(self) -> int {
        self.texture.image.height as int / self.cell_height as int
    }

    /// Cell sizes are positive, dimensions bounded, and the occupancy grid
    /// covers exactly the cell grid.
    pub open spec fn wf(self) -> bool {
        &&& 0 < self.cell_width <= 16384
        &&& 0 < self.cell_height <= 16384
        &&& self.texture.image.width <= 16384
        &&& self.texture.image.height <= 16384
        &&& self.grid@.len() == self.grid_w() * self.grid_h()
    }

    /// The block at `(gx, gy)` of the rounded-up size for a `width` by
    /// `height` request fits the grid.
    pub open spec fn pos_valid(self, width: int, height: int, gx: int, gy: int) -> bool {
        &&& 0 <= gx
        &&& 0 <= gy
        &&& gx + (pow2_at_least(width) + self.cell_width - 1) / (self.cell_width as int)
            <= self.grid_w()
        &&& gy + (pow2_at_least(height) + self.cell_height - 1) / (self.cell_height as int)
            <= self.grid_h()
    }

    /// A fresh atlas over an `atlas_width` by `atlas_height` RGBA texture,
    /// with every cell free and no GPU texture attached yet.
    pub fn new(
        atlas_width: usize,
        atlas_height: usize,
        cell_width: usize,
        cell_height: usize,
    ) -> (r: TextureAtlas)
        requires
            0 < cell_width < atlas_width,
            0 < cell_height < atlas_height,
            atlas_width <= 16384,
            atlas_height <= 16384,
        ensures
            r.wf(),
            r.cell_width == cell_width,
            r.cell_height == cell_height,
            r.texture.gl_id == 0,
            r.texture.image.width == atlas_width,
            r.texture.image.height == atlas_height,
            r.texture.image.depth == 4,
            forall|k: int| 0 <= k < r.grid@.len() ==> #[trigger] r.grid@[k] == 0,
    {
        let image = Image { width: atlas_width, height: atlas_height, depth: 4, data: Vec::new() };
        let texture = Texture { gl_id: 0, image };
        let grid_w = atlas_width / cell_width;
        let grid_h = atlas_height / cell_height;
        proof {
            assert(grid_w <= 16384 && grid_h <= 16384 && grid_w * grid_h <= 268435456)
                by (nonlinear_arith)
                requires
                    grid_w == atlas_width as int / cell_width as int,
                    grid_h == atlas_height as int / cell_height as int,
                    0 < cell_width,
                    0 < cell_height,
                    atlas_width <= 16384,
                    atlas_height <= 16384,
            ;
        }
        let grid = vec![0u8; grid_w * grid_h];
        TextureAtlas { grid, texture, cell_width, cell_height }
    }

    /// Is the `cw` by `ch` block at `(gx, gy)` entirely free?
    fn block_is_free(&self, gx: usize, gy: usize, cw: usize, ch: usize) -> (r: bool)
        requires
            self.wf(),
            gx + cw <= self.grid_w(),
            gy + ch <= self.grid_h(),
        ensures
            r == block_free(self.grid@, self.grid_w(), gx as int, gy as int, cw as int, ch as int),
    {
        let gw = self.texture.image.width / self.cell_width;
        let glen = self.grid.len();
        proof {
            lemma_div_le(self.texture.image.width as int, self.cell_width as int);
            lemma_div_le(self.texture.image.height as int, self.cell_height as int);
        }
        let mut dy: usize = 0;
        while dy < ch
            invariant
                self.wf(),
                gw == self.grid_w(),
                glen == self.grid@.len(),
                self.grid_h() <= 16384,
                gx + cw <= self.grid_w(),
                gy + ch <= self.grid_h(),
                0 <= dy <= ch,
                forall|dx0: int, dy0: int|
                    0 <= dx0 < cw && 0 <= dy0 < dy ==> #[trigger] self.grid@[(gy + dy0) * gw as int
                        + (gx + dx0)] == 0,
            decreases ch - dy,
        {
            let mut dx: usize = 0;
            while dx < cw
                invariant
                    self.wf(),
                    gw == self.grid_w(),
                    glen == self.grid@.len(),
                    self.grid_h() <= 16384,
                    gx + cw <= self.grid_w(),
                    gy + ch <= self.grid_h(),
                    0 <= dy < ch,
                    0 <= dx <= cw,
                    forall|dx0: int, dy0: int|
                        0 <= dx0 < cw && 0 <= dy0 < dy ==> #[trigger] self.grid@[(gy + dy0)
                            * gw as int + (gx + dx0)] == 0,
                    forall|dx0: int|
                        0 <= dx0 < dx ==> #[trigger] self.grid@[(gy + dy) * gw as int + (gx + dx0)]
                            == 0,
                decreases cw - dx,
            {
                proof {
                    lemma_row_index_in_range(
                        self.grid_w(),
                        self.grid_h(),
                        (gx + dx) as int,
                        (gy + dy) as int,
                    );
                }
                let index = (gy + dy) * gw + (gx + dx);
                if self.grid[index] != 0u8 {
                    return false;
                }
                dx = dx + 1;
            }
            dy = dy + 1;
        }
        true
    }

    /// Mark the `cw` by `ch` block at `(gx, gy)` occupied, touching
    /// nothing else.
    fn mark_block(&mut self, gx: usize, gy: usize, cw: usize, ch: usize)
        requires
            old(self).wf(),
            gx + cw <= old(self).grid_w(),
            gy + ch <= old(self).grid_h(),
        ensures
            final(self).wf(),
            final(self).cell_width == old(self).cell_width,
            final(self).cell_height == old(self).cell_height,
            final(self).texture == old(self).texture,
            final(self).grid@.len() == old(self).grid@.len(),
            forall|x: int, y: int|
                0 <= x < final(self).grid_w() && 0 <= y < final(self).grid_h()
                    ==> #[trigger] final(self).grid@[y * final(self).grid_w() + x] == (if gx <= x
                    < gx + cw && gy <= y < gy + ch {
                    1u8
                } else {
                    old(self).grid@[y * final(self).grid_w() + x]
                }),
    {
        let ghost orig = *old(self);
        let gw = self.texture.image.width / self.cell_width;
        let glen = self.grid.len();
        proof {
            lemma_div_le(self.texture.image.width as int, self.cell_width as int);
            lemma_div_le(self.texture.image.height as int, self.cell_height as int);
        }
        let mut dy: usize = 0;
        while dy < ch
            invariant
                self.wf(),
                self.cell_width == orig.cell_width,
                self.cell_height == orig.cell_height,
                self.texture == orig.texture,
                self.grid@.len() == orig.grid@.len(),
                gw == self.grid_w(),
                glen == self.grid@.len(),
                self.grid_h() <= 16384,
                gx + cw <= self.grid_w(),
                gy + ch <= self.grid_h(),
                0 <= dy <= ch,
                forall|x: int, y: int|
                    0 <= x < self.grid_w() && 0 <= y < self.grid_h()
                        ==> #[trigger] self.grid@[y * self.grid_w() + x] == (if gx <= x < gx + cw
                        && gy <= y < gy + dy {
                        1u8
                    } else {
                        orig.grid@[y * self.grid_w() + x]
                    }),
            decreases ch - dy,
        {
            let mut dx: usize = 0;
            while dx < cw
                invariant
                    self.wf(),
                    self.cell_width == orig.cell_width,
                    self.cell_height == orig.cell_height,
                    self.texture == orig.texture,
                    self.grid@.len() == orig.grid@.len(),
                    gw == self.grid_w(),
                    glen == self.grid@.len(),
                    self.grid_h() <= 16384,
                    gx + cw <= self.grid_w(),
                    gy + ch <= self.grid_h(),
                    0 <= dy < ch,
                    0 <= dx <= cw,
                    forall|x: int, y: int|
                        0 <= x < self.grid_w() && 0 <= y < self.grid_h()
                            ==> #[trigger] self.grid@[y * self.grid_w() + x] == (if (gx <= x < gx
                            + cw && gy <= y < gy + dy) || (gy + dy == y && gx <= x < gx + dx) {
                            1u8
                        } else {
                            orig.grid@[y * self.grid_w() + x]
                        }),
                decreases cw - dx,
            {
                proof {
                    lemma_row_index_in_range(
                        self.grid_w(),
                        self.grid_h(),
                        (gx + dx) as int,
                        (gy + dy) as int,
                    );
                }
                let index = (gy + dy) * gw + (gx + dx);
                let ghost gpre = self.grid@;
                self.grid[index] = 1u8;
                proof {
                    assert(self.grid@ == gpre.update(index as int, 1u8));
                    assert forall|x: int, y: int|
                        0 <= x < self.grid_w() && 0 <= y < self.grid_h() implies #[trigger] self
                        .grid@[y * self.grid_w() + x] == (if (gx <= x < gx + cw && gy <= y < gy
                        + dy) || (gy + dy == y && gx <= x < gx + dx + 1) {
                        1u8
                    } else {
                        orig.grid@[y * self.grid_w() + x]
                    }) by {
                        let gwv = self.grid_w();
                        if y * gwv + x == (gy + dy) * gw as int + (gx + dx) {
                            lemma_grid_index_injective(
                                x,
                                y,
                                (gx + dx) as int,
                                (gy + dy) as int,
                                gwv,
                            );
                        } else {
                            lemma_row_index_in_range(gwv, self.grid_h(), x, y);
                            assert(self.grid@[y * gwv + x] == gpre[y * gwv + x]);
                        }
                    }
                }
                dx = dx + 1;
            }
            dy = dy + 1;
        }
    }

    /// Allocate a `width` by `height` region.
    ///
    /// The requested size is rounded up to powers of two and converted to
    /// a whole number of cells; the atlas is scanned in row-major order
    /// and the first entirely free block is claimed.  Returns `Some` with
    /// the pixel position of the claimed block if and only if some
    /// placement is entirely free; on `None` nothing changes.
    pub fn allocate_texture(&mut self, width: usize, height: usize) -> (r: Option<TextureAtlasCell>)
        requires
            old(self).wf(),
            1 <= width <= 16384,
            1 <= height <= 16384,
        ensures
            final(self).wf(),
            final(self).cell_width == old(self).cell_width,
            final(self).cell_height == old(self).cell_height,
            final(self).texture == old(self).texture,
            match r {
                Option::None => {
                    &&& *final(self) == *old(self)
                    &&& forall|gx: int, gy: int|
                        old(self).pos_valid(width as int, height as int, gx, gy)
                            ==> !#[trigger] block_free(
                            old(self).grid@,
                            old(self).grid_w(),
                            gx,
                            gy,
                            (pow2_at_least(width as int) + old(self).cell_width - 1) / (old(
                                self,
                            ).cell_width as int),
                            (pow2_at_least(height as int) + old(self).cell_height - 1) / (old(
                                self,
                            ).cell_height as int),
                        )
                },
                Option::Some(cell) => {
                    &&& cell.w == width
                    &&& cell.h == height
                    &&& exists|gx: int, gy: int|
                        {
                            &&& old(self).pos_valid(width as int, height as int, gx, gy)
                            &&& #[trigger] block_free(
                                old(self).grid@,
                                old(self).grid_w(),
                                gx,
                                gy,
                                (pow2_at_least(width as int) + old(self).cell_width - 1) / (old(
                                    self,
                                ).cell_width as int),
                                (pow2_at_least(height as int) + old(self).cell_height - 1) / (old(
                                    self,
                                ).cell_height as int),
                            )
                            &&& cell.x == gx * old(self).cell_width
                            &&& cell.y == gy * old(self).cell_height
                            &&& forall|x: int, y: int|
                                0 <= x < old(self).grid_w() && 0 <= y < old(self).grid_h()
                                    ==> #[trigger] final(self).grid@[y * old(self).grid_w() + x]
                                    == (if gx <= x < gx + (pow2_at_least(width as int) + old(
                                    self,
                                ).cell_width - 1) / (old(self).cell_width as int) && gy <= y < gy
                                    + (pow2_at_least(height as int) + old(self).cell_height - 1)
                                    / (old(self).cell_height as int) {
                                    1u8
                                } else {
                                    old(self).grid@[y * old(self).grid_w() + x]
                                })
                        }
                },
            },
    {
        let width_pixels = next_pow2(width);
        let height_pixels = next_pow2(height);
        let cw = (width_pixels + self.cell_width - 1) / self.cell_width;
        let ch = (height_pixels + self.cell_height - 1) / self.cell_height;
        let gw = self.texture.image.width / self.cell_width;
        let gh = self.texture.image.height / self.cell_height;
        let ghost width_i = width as int;
        let ghost height_i = height as int;
        proof {
            lemma_div_le(self.texture.image.width as int, self.cell_width as int);
            lemma_div_le(self.texture.image.height as int, self.cell_height as int);
            lemma_div_le(
                width_pixels + self.cell_width - 1,
                self.cell_width as int,
            );
            lemma_div_le(
                height_pixels + self.cell_height - 1,
                self.cell_height as int,
            );
            assert((width_pixels + self.cell_width - 1) as int / (self.cell_width as int) >= 1)
                by (nonlinear_arith)
                requires
                    width_pixels >= 1,
                    self.cell_width >= 1,
            ;
            assert((height_pixels + self.cell_height - 1) as int / (self.cell_height as int) >= 1)
                by (nonlinear_arith)
                requires
                    height_pixels >= 1,
                    self.cell_height >= 1,
            ;
        }
        if cw > gw || ch > gh {
            proof {
                assert forall|gx: int, gy: int|
                    self.pos_valid(width_i, height_i, gx, gy) implies !block_free(
                    self.grid@,
                    self.grid_w(),
                    gx,
                    gy,
                    cw as int,
                    ch as int,
                ) by {}
            }
            return Option::None;
        }
        let mut gy: usize = 0;
        while gy + ch <= gh
            invariant
                self.wf(),
                *self == *old(self),
                gw == self.grid_w(),
                gh == self.grid_h(),
                gw <= 16384,
                gh <= 16384,
                1 <= cw <= gw,
                1 <= ch <= gh,
                gy <= gh,
                width_i == width as int,
                height_i == height as int,
                cw == (pow2_at_least(width_i) + self.cell_width - 1) / (self.cell_width as int),
                ch == (pow2_at_least(height_i) + self.cell_height - 1) / (self.cell_height as int),
                forall|gx0: int, gy0: int|
                    0 <= gx0 && 0 <= gy0 < gy && gx0 + cw <= gw && gy0 + ch <= gh
                        ==> !#[trigger] block_free(
                        self.grid@,
                        self.grid_w(),
                        gx0,
                        gy0,
                        cw as int,
                        ch as int,
                    ),
            decreases gh - gy,
        {
            let mut gx: usize = 0;
            while gx + cw <= gw
                invariant
                    self.wf(),
                    *self == *old(self),
                    gw == self.grid_w(),
                    gh == self.grid_h(),
                    gw <= 16384,
                    gh <= 16384,
                    1 <= cw <= gw,
                    1 <= ch <= gh,
                    gx <= gw,
                    gy + ch <= gh,
                    width_i == width as int,
                    height_i == height as int,
                    cw == (pow2_at_least(width_i) + self.cell_width - 1) / (self.cell_width as int),
                    ch == (pow2_at_least(height_i) + self.cell_height - 1) / (
                    self.cell_height as int),
                    forall|gx0: int, gy0: int|
                        0 <= gx0 && 0 <= gy0 < gy && gx0 + cw <= gw && gy0 + ch <= gh
                            ==> !#[trigger] block_free(
                            self.grid@,
                            self.grid_w(),
                            gx0,
                            gy0,
                            cw as int,
                            ch as int,
                        ),
                    forall|gx0: int|
                        0 <= gx0 < gx && gx0 + cw <= gw ==> !#[trigger] block_free(
                            self.grid@,
                            self.grid_w(),
                            gx0,
                            gy as int,
                            cw as int,
                            ch as int,
                        ),
                decreases gw - gx,
            {
                if self.block_is_free(gx, gy, cw, ch) {
                    proof {
                        assert(gx * self.cell_width <= 16384 * 16384 && gy * self.cell_height
                            <= 16384 * 16384) by (nonlinear_arith)
                            requires
                                0 <= gx <= 16384,
                                0 <= gy <= 16384,
                                0 < self.cell_width <= 16384,
                                0 < self.cell_height <= 16384,
                        ;
                    }
                    let cell_x = gx * self.cell_width;
                    let cell_y = gy * self.cell_height;
                    self.mark_block(gx, gy, cw, ch);
                    proof {
                        assert(block_free(
                            old(self).grid@,
                            old(self).grid_w(),
                            gx as int,
                            gy as int,
                            (pow2_at_least(width as int) + old(self).cell_width - 1) / (old(
                                self,
                            ).cell_width as int),
                            (pow2_at_least(height as int) + old(self).cell_height - 1) / (old(
                                self,
                            ).cell_height as int),
                        ));
                        assert(old(self).pos_valid(width as int, height as int, gx as int, gy as int));
                        assert forall|x: int, y: int|
                            0 <= x < old(self).grid_w() && 0 <= y < old(self).grid_h()
                                implies #[trigger] self.grid@[y * old(self).grid_w() + x] == (if gx
                                <= x < gx + (pow2_at_least(width as int) + old(self).cell_width
                                - 1) / (old(self).cell_width as int) && gy <= y < gy + (
                            pow2_at_least(height as int) + old(self).cell_height - 1) / (old(
                                self,
                            ).cell_height as int) {
                                1u8
                            } else {
                                old(self).grid@[y * old(self).grid_w() + x]
                            }) by {
                            assert(self.grid@[y * self.grid_w() + x] == (if gx <= x < gx + cw && gy
                                <= y < gy + ch {
                                1u8
                            } else {
                                old(self).grid@[y * self.grid_w() + x]
                            }));
                        }
                    }
                    return Option::Some(
                        TextureAtlasCell { x: cell_x, y: cell_y, w: width, h: height },
                    );
                }
                gx = gx + 1;
            }
            gy = gy + 1;
        }
        Option::None
    }
}

/// A grid position's row-major index is within the grid.
proof fn lemma_row_index_in_range(gw: int, gh: int, x: int, y: int)
    by (nonlinear_arith)
    requires
        0 <= x < gw,
        0 <= y < gh,
    ensures
        0 <= y * gw + x < gw * gh,
{
}

} // verus!

//! WAD3 textures and the diffuse texture atlas.
//!
//! Textures come out of WAD files as palette-indexed mip textures; they are
//! turned into RGBA, de-duplicated by lowercase name and packed into one square
//! RGBA atlas by guillotine bin-packing. Texture coordinates inside the atlas
//! (normalised floats) are left to the caller, which gets each texture's pixel
//! rectangle.
use vstd::prelude::*;
use crate::text::{chars_of, same_text, string_from_chars};

verus! {

// ---------------------------------------------------------------------------
// Palette-indexed pixels to RGBA.
// ---------------------------------------------------------------------------

/// The palette index that GoldSrc draws as fully transparent.
pub const TRANSPARENT_INDEX: u8 = 255;

/// RGBA bytes of one palette-indexed pixel: index 255 is transparent black; an
/// index past the end of the palette is opaque black.
pub open spec fn rgba_of(idx: u8, palette: Seq<[u8; 3]>) -> Seq<u8> {
    if idx == 255 {
        seq![0u8, 0u8, 0u8, 0u8]
    } else if (idx as int) < palette.len() {
        seq![palette[idx as int][0], palette[idx as int][1], palette[idx as int][2], 255u8]
    } else {
        seq![0u8, 0u8, 0u8, 255u8]
    }
}

/// RGBA bytes of a run of palette indices, four per index.
pub open spec fn rgba_run(indices: Seq<u8>, palette: Seq<[u8; 3]>) -> Seq<u8>
    decreases indices.len(),
{
    if indices.len() == 0 {
        Seq::empty()
    } else {
        rgba_run(indices.drop_last(), palette) + rgba_of(indices.last(), palette)
    }
}

proof fn lemma_rgba_run_len(indices: Seq<u8>, palette: Seq<[u8; 3]>)
    ensures
        rgba_run(indices, palette).len() == 4 * indices.len(),
    decreases indices.len(),
{
    if indices.len() > 0 {
        lemma_rgba_run_len(indices.drop_last(), palette);
    }
}

/// Pixel law: pixel `k` of a run takes bytes `4k .. 4k + 4`, and they are the
/// palette colour of its index followed by an opaque alpha; index 255 gives
/// four zero bytes, and an index past the palette opaque black.
pub proof fn law_rgba_pixels(indices: Seq<u8>, palette: Seq<[u8; 3]>)
    ensures
        rgba_run(indices, palette).len() == 4 * indices.len(),
        forall|k: int| 0 <= k < indices.len() && indices[k] != 255 && (indices[k] as int) < palette.len() ==> {
            &&& #[trigger] rgba_run(indices, palette)[4 * k] == palette[indices[k] as int][0]
            &&& rgba_run(indices, palette)[4 * k + 1] == palette[indices[k] as int][1]
            &&& rgba_run(indices, palette)[4 * k + 2] == palette[indices[k] as int][2]
            &&& rgba_run(indices, palette)[4 * k + 3] == 255
        },
        forall|k: int| 0 <= k < indices.len() && indices[k] == 255 ==> {
            &&& #[trigger] rgba_run(indices, palette)[4 * k] == 0
            &&& rgba_run(indices, palette)[4 * k + 1] == 0
            &&& rgba_run(indices, palette)[4 * k + 2] == 0
            &&& rgba_run(indices, palette)[4 * k + 3] == 0
        },
        forall|k: int| 0 <= k < indices.len() && indices[k] != 255 && (indices[k] as int) >= palette.len() ==> {
            &&& #[trigger] rgba_run(indices, palette)[4 * k] == 0
            &&& rgba_run(indices, palette)[4 * k + 1] == 0
            &&& rgba_run(indices, palette)[4 * k + 2] == 0
            &&& rgba_run(indices, palette)[4 * k + 3] == 255
        },
    decreases indices.len(),
{
    lemma_rgba_run_len(indices, palette);
    if indices.len() > 0 {
        let init = indices.drop_last();
        law_rgba_pixels(init, palette);
        let r = rgba_run(indices, palette);
        let r0 = rgba_run(init, palette);
        assert(r == r0 + rgba_of(indices.last(), palette));
        assert forall|k: int| 0 <= k < indices.len() implies {
            &&& r[4 * k] == (r0 + rgba_of(indices.last(), palette))[4 * k]
            &&& (k < init.len() ==> indices[k] == init[k] && r[4 * k] == r0[4 * k] && r[4 * k + 1] == r0[4 * k + 1]
                && r[4 * k + 2] == r0[4 * k + 2] && r[4 * k + 3] == r0[4 * k + 3])
            &&& (k == init.len() ==> indices[k] == indices.last() && r[4 * k] == rgba_of(indices.last(), palette)[0]
                && r[4 * k + 1] == rgba_of(indices.last(), palette)[1] && r[4 * k + 2] == rgba_of(indices.last(), palette)[2]
                && r[4 * k + 3] == rgba_of(indices.last(), palette)[3])
        } by {
        }
    }
}

/// Convert the first `width * height` palette indices (fewer if the data is
/// shorter) to RGBA bytes.
pub fn indexed_to_rgba(indices: &[u8], palette: &[[u8; 3]], width: u32, height: u32) -> (rgba: Vec<u8>)
    requires
        width * height <= u32::MAX,
    ensures
        rgba@ == rgba_run(indices@.take(vstd::math::min(indices@.len() as int, width * height)), palette@),
        rgba@.len() == 4 * vstd::math::min(indices@.len() as int, width * height),
        forall|k: int| 0 <= k < rgba@.len() / 4 && indices@[k] != 255 && (indices@[k] as int) < palette@.len()
            ==> #[trigger] rgba@.subrange(4 * k, 4 * k + 4) == seq![
                palette@[indices@[k] as int][0],
                palette@[indices@[k] as int][1],
                palette@[indices@[k] as int][2],
                255u8,
            ],
{
    let pixel_count: usize = (width * height) as usize;
    let n: usize = if indices.len() < pixel_count { indices.len() } else { pixel_count };
    let mut rgba: Vec<u8> = Vec::new();
    let mut k: usize = 0;
    while k < n
        invariant
            n <= indices@.len(),
            k <= n,
            rgba@ == rgba_run(indices@.take(k as int), palette@),
        decreases n - k,
    {
        let idx = indices[k];
        if idx == TRANSPARENT_INDEX {
            rgba.push(0u8);
            rgba.push(0u8);
            rgba.push(0u8);
            rgba.push(0u8);
        } else if (idx as usize) < palette.len() {
            let c: [u8; 3] = palette[idx as usize];
            rgba.push(c[0]);
            rgba.push(c[1]);
            rgba.push(c[2]);
            rgba.push(255u8);
        } else {
            rgba.push(0u8);
            rgba.push(0u8);
            rgba.push(0u8);
            rgba.push(255u8);
        }
        assert(indices@.take(k + 1).drop_last() =~= indices@.take(k as int));
        k = k + 1;
        assert(rgba@ =~= rgba_run(indices@.take(k as int), palette@));
    }
    proof {
        lemma_rgba_run_len(indices@.take(n as int), palette@);
        let t = indices@.take(n as int);
        law_rgba_pixels(t, palette@);
        assert(n == vstd::math::min(indices@.len() as int, width * height));
        assert forall|k: int| 0 <= k < rgba@.len() / 4 && indices@[k] != 255 && (indices@[k] as int) < palette@.len()
            implies #[trigger] rgba@.subrange(4 * k, 4 * k + 4) == seq![
                palette@[indices@[k] as int][0],
                palette@[indices@[k] as int][1],
                palette@[indices@[k] as int][2],
                255u8,
            ] by {
            assert(t[k] == indices@[k]);
            assert(rgba_run(t, palette@)[4 * k] == palette@[t[k] as int][0]);
            assert(rgba@.subrange(4 * k, 4 * k + 4) =~= seq![
                palette@[indices@[k] as int][0],
                palette@[indices@[k] as int][1],
                palette@[indices@[k] as int][2],
                255u8,
            ]);
        }
    }
    rgba
}

// ---------------------------------------------------------------------------
// Copying a texture into the atlas.
// ---------------------------------------------------------------------------

/// The atlas `atlas` (RGBA, `size` pixels square) with the first `k` pixels,
/// in row-major order, of the `w`-wide texture `tex` copied to the rectangle
/// whose top-left corner is `(x0, y0)`.
pub open spec fn blit_upto(atlas: Seq<u8>, size: int, tex: Seq<u8>, w: int, x0: int, y0: int, k: int) -> Seq<u8> {
    Seq::new(
        atlas.len(),
        |i: int|
            {
                let p = i / 4;
                let px = p % size;
                let py = p / size;
                let t = (py - y0) * w + (px - x0);
                if x0 <= px < x0 + w && y0 <= py && t < k {
                    tex[t * 4 + i % 4]
                } else {
                    atlas[i]
                }
            },
    )
}

/// The atlas with the whole `w` by `h` texture copied to `(x0, y0)`.
pub open spec fn blit(atlas: Seq<u8>, size: int, tex: Seq<u8>, w: int, h: int, x0: int, y0: int) -> Seq<u8> {
    blit_upto(atlas, size, tex, w, x0, y0, w * h)
}

proof fn lemma_div_unique(x: int, d: int, q: int, r: int)
    requires
        d > 0,
        0 <= r < d,
        x == q * d + r,
    ensures
        x / d == q,
        x % d == r,
{
    vstd::arithmetic::div_mod::lemma_fundamental_div_mod_converse_div(x, d, q, r);
    vstd::arithmetic::div_mod::lemma_fundamental_div_mod_converse_mod(x, d, q, r);
}

/// One more pixel copied: the four bytes of pixel `k` of the texture.
proof fn lemma_blit_step(
    a0: Seq<u8>,
    before: Seq<u8>,
    after: Seq<u8>,
    size: int,
    tex: Seq<u8>,
    w: int,
    x0: int,
    y0: int,
    row: int,
    col: int,
    k: int,
)
    requires
        size > 0,
        w > 0,
        0 <= x0,
        0 <= y0,
        0 <= row,
        0 <= col < w,
        x0 + w <= size,
        k == row * w + col,
        a0.len() == size * size * 4,
        before == blit_upto(a0, size, tex, w, x0, y0, k),
        after.len() == before.len(),
        ({
            let dst = ((y0 + row) * size + x0 + col) * 4;
            &&& forall|c: int| 0 <= c < 4 ==> #[trigger] after[dst + c] == tex[k * 4 + c]
            &&& forall|i: int| 0 <= i < after.len() && !(dst <= i < dst + 4) ==> #[trigger] after[i] == before[i]
        }),
    ensures
        after == blit_upto(a0, size, tex, w, x0, y0, k + 1),
{
    let pp = (y0 + row) * size + x0 + col;
    let dst = pp * 4;
    let next = blit_upto(a0, size, tex, w, x0, y0, k + 1);
    assert forall|i: int| 0 <= i < after.len() implies after[i] == #[trigger] next[i] by {
        let p = i / 4;
        let c = i % 4;
        vstd::arithmetic::div_mod::lemma_fundamental_div_mod(i, 4);
        let px = p % size;
        let py = p / size;
        vstd::arithmetic::div_mod::lemma_fundamental_div_mod(p, size);
        assert(0 <= p);
        assert(0 <= px < size) by {
            vstd::arithmetic::div_mod::lemma_mod_bound(p, size);
        }
        assert(0 <= py) by {
            vstd::arithmetic::div_mod::lemma_div_pos_is_pos(p, size);
        }
        let t = (py - y0) * w + (px - x0);
        if dst <= i < dst + 4 {
            lemma_div_unique(i, 4, pp, i - dst);
            lemma_div_unique(pp, size, y0 + row, x0 + col);
            assert(t == k);
            assert(after[dst + (i - dst)] == tex[k * 4 + (i - dst)]);
        } else {
            assert(after[i] == before[i]);
            if x0 <= px < x0 + w && y0 <= py && t == k {
                lemma_div_unique(k, w, py - y0, px - x0);
                lemma_div_unique(k, w, row, col);
                assert(p == pp) by {
                    assert(p == size * py + px);
                    assert(size * py == py * size) by (nonlinear_arith);
                }
                assert(dst <= i < dst + 4) by {
                    assert(i == 4 * p + c);
                    assert(0 <= c < 4) by {
                        vstd::arithmetic::div_mod::lemma_mod_bound(i, 4);
                    }
                }
            }
        }
    }
    assert(after =~= next);
}

/// After a copy, channel `ch` of texture pixel `(c, r)` is found at atlas pixel
/// `(x0 + c, y0 + r)`.
pub proof fn law_blit_copies_texture(
    atlas: Seq<u8>,
    size: int,
    tex: Seq<u8>,
    w: int,
    h: int,
    x0: int,
    y0: int,
    c: int,
    r: int,
    ch: int,
)
    requires
        size > 0,
        atlas.len() == size * size * 4,
        0 <= x0,
        0 <= y0,
        x0 + w <= size,
        y0 + h <= size,
        0 <= c < w,
        0 <= r < h,
        0 <= ch < 4,
    ensures
        blit(atlas, size, tex, w, h, x0, y0)[((y0 + r) * size + x0 + c) * 4 + ch] == tex[(r * w + c) * 4 + ch],
{
    let pp = (y0 + r) * size + x0 + c;
    let i = pp * 4 + ch;
    lemma_div_unique(i, 4, pp, ch);
    lemma_div_unique(pp, size, y0 + r, x0 + c);
    assert(r * w + c < w * h) by (nonlinear_arith)
        requires 0 <= c < w, 0 <= r < h;
    assert(0 <= pp < size * size) by (nonlinear_arith)
        requires pp == (y0 + r) * size + x0 + c, 0 <= y0 + r < size, 0 <= x0 + c < size;
}

/// A copy leaves every atlas byte outside the texture's rectangle as it was.
pub proof fn law_blit_keeps_outside(
    atlas: Seq<u8>,
    size: int,
    tex: Seq<u8>,
    w: int,
    h: int,
    x0: int,
    y0: int,
    i: int,
)
    requires
        size > 0,
        0 <= i < atlas.len(),
        !(x0 <= (i / 4) % size < x0 + w && y0 <= (i / 4) / size < y0 + h),
        w >= 0,
    ensures
        blit(atlas, size, tex, w, h, x0, y0)[i] == atlas[i],
{
    let p = i / 4;
    let px = p % size;
    let py = p / size;
    if x0 <= px < x0 + w && y0 <= py {
        assert(py >= y0 + h);
        assert((py - y0) * w + (px - x0) >= w * h) by (nonlinear_arith)
            requires py - y0 >= h, px - x0 >= 0, w >= 0, h >= 0 || py - y0 >= 0;
    }
}

/// Copy the `w` by `h` RGBA texture `tex` into the `size`-square RGBA atlas with
/// its top-left corner at `(x0, y0)`.
pub fn blit_texture(atlas: &mut Vec<u8>, size: u32, tex: &Vec<u8>, w: u32, h: u32, x0: u32, y0: u32)
    requires
        size > 0,
        old(atlas)@.len() == size * size * 4,
        size * size * 4 <= usize::MAX,
        tex@.len() == w * h * 4,
        x0 + w <= size,
        y0 + h <= size,
    ensures
        final(atlas)@ == blit(old(atlas)@, size as int, tex@, w as int, h as int, x0 as int, y0 as int),
{
    let ghost a0 = old(atlas)@;
    if w == 0 || h == 0 {
        assert(atlas@ =~= blit(a0, size as int, tex@, w as int, h as int, x0 as int, y0 as int)) by {
            assert(w * h == 0) by (nonlinear_arith)
                requires w == 0 || h == 0;
        }
        return;
    }
    let wu = w as usize;
    let tl = tex.len();
    assert((w as usize) * (h as usize) * 4 == tl) by (nonlinear_arith)
        requires tl == w * h * 4;
    let total: usize = (w as usize) * (h as usize);
    let su = size as usize;
    let mut row: usize = 0;
    let mut col: usize = 0;
    let mut k: usize = 0;
    assert(atlas@ =~= blit_upto(a0, size as int, tex@, w as int, x0 as int, y0 as int, 0));
    while k < total
        invariant
            wu == w,
            su == size,
            size > 0,
            w > 0,
            h > 0,
            total == w * h,
            total * 4 <= usize::MAX,
            tex@.len() == w * h * 4,
            a0.len() == size * size * 4,
            size * size * 4 <= usize::MAX,
            x0 + w <= size,
            y0 + h <= size,
            k == row * w + col,
            col < w,
            k <= total,
            k < total ==> row < h,
            atlas@ == blit_upto(a0, size as int, tex@, w as int, x0 as int, y0 as int, k as int),
        decreases total - k,
    {
        proof {
            assert((y0 + row) * size + x0 + col < size * size) by (nonlinear_arith)
                requires
                    row < h,
                    y0 + h <= size,
                    x0 + col < size,
                    col < w,
                    x0 + w <= size;
            assert(k * 4 + 4 <= w * h * 4) by (nonlinear_arith)
                requires
                    k < total,
                    total == w * h;
        }
        let pp: usize = ((y0 as usize) + row) * su + (x0 as usize) + col;
        let dst: usize = pp * 4;
        let src: usize = k * 4;
        let ghost before = atlas@;
        atlas.set(dst, tex[src]);
        atlas.set(dst + 1, tex[src + 1]);
        atlas.set(dst + 2, tex[src + 2]);
        atlas.set(dst + 3, tex[src + 3]);
        proof {
            let after = atlas@;
            assert forall|c: int| 0 <= c < 4 implies #[trigger] after[dst + c] == tex@[k * 4 + c] by {
                if c == 0 {
                } else if c == 1 {
                } else if c == 2 {
                } else {
                }
            }
            lemma_blit_step(a0, before, after, size as int, tex@, w as int, x0 as int, y0 as int, row as int, col as int, k as int);
        }
        k = k + 1;
        col = col + 1;
        if col == wu {
            proof {
                assert((row + 1) * w == row * w + w) by (nonlinear_arith);
            }
            col = 0;
            row = row + 1;
        }
        proof {
            if k < total {
                assert(row < h) by (nonlinear_arith)
                    requires
                        k == row * w + col,
                        k < w * h,
                        col < w;
            }
        }
    }
}

// ---------------------------------------------------------------------------
// Names.
// ---------------------------------------------------------------------------

/// The lowercase form of a string (`str::to_lowercase`, full Unicode case
/// mapping).
pub uninterp spec fn lowercase(s: Seq<char>) -> Seq<char>;

/// The lowercase form of `s`, by `str::to_lowercase`.
#[verifier::external_body]
pub(crate) fn to_lower(s: &str) -> (r: String)
    ensures
        r@ == lowercase(s@),
{
    s.to_lowercase()
}

/// Whether some name before position `i` has the same lowercase form as
/// `names[i]`.
pub open spec fn seen_before(keys: Seq<Seq<char>>, i: int) -> bool {
    exists|j: int| 0 <= j < i && keys[j] == keys[i]
}

/// Positions of the names kept when de-duplicating by lowercase form: each
/// first occurrence, in order.
pub open spec fn first_occurrences(keys: Seq<Seq<char>>, n: int) -> Seq<int>
    decreases n,
{
    if n <= 0 {
        Seq::empty()
    } else if seen_before(keys, n - 1) {
        first_occurrences(keys, n - 1)
    } else {
        first_occurrences(keys, n - 1).push(n - 1)
    }
}

/// The lowercase forms of the names.
pub open spec fn keys_of(names: Seq<String>) -> Seq<Seq<char>> {
    names.map_values(|n: String| lowercase(n@))
}

/// Positions of the texture names to pack: the first name of each lowercase
/// form, in order.
pub fn unique_name_positions(names: &Vec<String>) -> (r: Vec<usize>)
    ensures
        r@.map_values(|i: usize| i as int) == first_occurrences(keys_of(names@), names@.len() as int),
{
    let ghost keys = keys_of(names@);
    let mut lowered: Vec<Vec<char>> = Vec::new();
    let mut r: Vec<usize> = Vec::new();
    let mut i: usize = 0;
    while i < names.len()
        invariant
            keys == keys_of(names@),
            i <= names@.len(),
            lowered@.len() == i,
            forall|j: int| 0 <= j < i ==> (#[trigger] lowered@[j])@ == keys[j],
            r@.map_values(|q: usize| q as int) == first_occurrences(keys, i as int),
        decreases names@.len() - i,
    {
        let key_s = to_lower(names[i].as_str());
        let key = chars_of(key_s.as_str());
        assert(key@ == keys[i as int]);
        let mut j: usize = 0;
        let mut seen = false;
        while j < i
            invariant
                i <= names@.len(),
                lowered@.len() == i,
                j <= i,
                key@ == keys[i as int],
                forall|q: int| 0 <= q < i ==> (#[trigger] lowered@[q])@ == keys[q],
                seen == exists|q: int| 0 <= q < j && keys[q] == keys[i as int],
            decreases i - j,
        {
            if !seen && same_text(&lowered[j], &key) {
                seen = true;
            }
            j = j + 1;
        }
        if !seen {
            r.push(i);
        }
        lowered.push(key);
        proof {
            assert(seen == seen_before(keys, i as int));
            assert(r@.map_values(|q: usize| q as int) =~= first_occurrences(keys, i + 1));
        }
        i = i + 1;
    }
    r
}

// ---------------------------------------------------------------------------
// The atlas.
// ---------------------------------------------------------------------------

/// Side of the square texture atlas, in pixels.
pub const ATLAS_SIZE: u32 = 4096;

/// A decoded texture: its lowercase name and its RGBA pixels, row by row.
#[derive(Debug)]
pub struct LoadedTexture {
    pub name: String,
    pub pixels: Vec<u8>,
    pub width: u32,
    pub height: u32,
}

/// Where a texture landed in the atlas, by the name it was asked for.
#[derive(Debug)]
pub struct AtlasSlot {
    pub name: String,
    pub x: u32,
    pub y: u32,
    pub width: u32,
    pub height: u32,
}

/// The packed atlas: `side` by `side` RGBA pixels and the rectangle of each
/// texture placed.
#[derive(Debug)]
pub struct TextureAtlas {
    pub side: u32,
    pub pixels: Vec<u8>,
    pub slots: Vec<AtlasSlot>,
}

/// Mathematical view of an [`AtlasSlot`].
pub struct AtlasSlotSpec {
    pub name: Seq<char>,
    pub x: u32,
    pub y: u32,
    pub width: u32,
    pub height: u32,
}

impl View for AtlasSlot {
    type V = AtlasSlotSpec;

    open spec fn view(&self) -> AtlasSlotSpec {
        AtlasSlotSpec { name: self.name@, x: self.x, y: self.y, width: self.width, height: self.height }
    }
}

/// Whether a texture's pixel data is complete: four bytes per pixel.
pub open spec fn texture_complete(t: LoadedTexture) -> bool {
    t.pixels@.len() == t.width * t.height * 4
}

/// Whether a texture view's pixel data is complete: four bytes per pixel.
pub open spec fn image_complete(t: TextureSpec) -> bool {
    t.pixels.len() == t.width * t.height * 4
}

/// The views of a list of textures.
pub open spec fn views(textures: Seq<LoadedTexture>) -> Seq<TextureSpec> {
    textures.map_values(|t: LoadedTexture| t@)
}

/// Position of the texture with the given name; the last one when several
/// share it, as later WADs override earlier ones.
pub open spec fn texture_named(textures: Seq<TextureSpec>, key: Seq<char>) -> Option<int> {
    if exists|i: int| 0 <= i < textures.len() && (#[trigger] textures[i]).name == key {
        Some(choose|i: int| 0 <= i < textures.len() && (#[trigger] textures[i]).name == key
            && forall|j: int| i < j < textures.len() ==> (#[trigger] textures[j]).name != key)
    } else {
        None
    }
}

/// Find the last texture with the given name.
pub fn find_texture(textures: &Vec<LoadedTexture>, key: &str) -> (r: Option<usize>)
    ensures
        match r {
            Some(i) => i < textures@.len() && textures@[i as int].name@ == key@
                && forall|j: int| i < j < textures@.len() ==> (#[trigger] textures@[j]).name@ != key@,
            None => forall|j: int| 0 <= j < textures@.len() ==> (#[trigger] textures@[j]).name@ != key@,
        },
        r matches Some(i) ==> texture_named(views(textures@), key@) == Some(i as int),
        r is None ==> texture_named(views(textures@), key@) is None,
{
    let ghost tv = views(textures@);
    let want = chars_of(key);
    let mut k: usize = textures.len();
    while k > 0
        invariant
            want@ == key@,
            tv == views(textures@),
            k <= textures@.len(),
            forall|j: int| k <= j < textures@.len() ==> (#[trigger] textures@[j]).name@ != key@,
        decreases k,
    {
        let have = chars_of(textures[k - 1].name.as_str());
        if same_text(&have, &want) {
            let i = k - 1;
            proof {
                assert(tv[i as int].name == key@);
                let c = choose|q: int| 0 <= q < tv.len() && (#[trigger] tv[q]).name == key@
                    && forall|j: int| q < j < tv.len() ==> (#[trigger] tv[j]).name != key@;
                if c != i {
                    if c < i {
                        assert(tv[i as int].name != key@);
                    } else {
                        assert(tv[c].name == textures@[c].name@);
                        assert(textures@[c].name@ != key@);
                    }
                }
            }
            return Some(i);
        }
        k = k - 1;
    }
    proof {
        assert forall|j: int| 0 <= j < tv.len() implies (#[trigger] tv[j]).name != key@ by {
            assert(tv[j].name == textures@[j].name@);
        }
    }
    None
}

// ---------------------------------------------------------------------------
// The fallback tile.
// ---------------------------------------------------------------------------

/// Side of the tile given to a requested name that no WAD holds.
pub const FALLBACK_SIDE: u32 = 16;

/// Magenta (255, 0, 255, 255) in every pixel of the fallback tile.
pub open spec fn magenta_pixels() -> Seq<u8> {
    Seq::new(16 * 16 * 4, |i: int| if i % 4 == 1 { 0u8 } else { 255u8 })
}

/// The 16 by 16 magenta tile that stands in for a texture found in no WAD, so
/// that faces using it can still be drawn.
pub open spec fn fallback_image() -> TextureSpec {
    TextureSpec { name: Seq::empty(), pixels: magenta_pixels(), width: 16, height: 16 }
}

/// Build the fallback tile.
pub fn fallback_texture() -> (t: LoadedTexture)
    ensures
        t@ == fallback_image(),
        texture_complete(t),
{
    let mut pixels: Vec<u8> = Vec::new();
    let n: usize = 16 * 16 * 4;
    let mut i: usize = 0;
    while i < n
        invariant
            n == 16 * 16 * 4,
            i <= n,
            pixels@ == magenta_pixels().take(i as int),
        decreases n - i,
    {
        let b: u8 = if i % 4 == 1 { 0 } else { 255 };
        pixels.push(b);
        assert(pixels@ =~= magenta_pixels().take(i + 1));
        i = i + 1;
    }
    assert(pixels@ =~= magenta_pixels());
    let empty: [char; 0] = [];
    let name = string_from_chars(&empty);
    assert(name@ =~= Seq::<char>::empty());
    LoadedTexture { name, pixels, width: FALLBACK_SIDE, height: FALLBACK_SIDE }
}

/// What is placed for one requested name: the texture drawn for it at the
/// spot the allocator gave it, if any.
pub open spec fn placed_step(
    pixels: Seq<u8>,
    side: int,
    t: TextureSpec,
    spot: Option<(u32, u32)>,
) -> Seq<u8> {
    match spot {
        Some((x, y)) => blit(pixels, side, t.pixels, t.width as int, t.height as int, x as int, y as int),
        None => pixels,
    }
}

/// Atlas pixels after placing the first `n` requests, from all-zero pixels.
/// Request `i` draws image `found[i]` (if any) at `spots[i]` (if any).
pub open spec fn placed_pixels(
    side: int,
    textures: Seq<TextureSpec>,
    found: Seq<Option<int>>,
    spots: Seq<Option<(u32, u32)>>,
    n: int,
) -> Seq<u8>
    decreases n,
{
    if n <= 0 {
        Seq::new((side * side * 4) as nat, |i: int| 0u8)
    } else {
        let before = placed_pixels(side, textures, found, spots, n - 1);
        match found[n - 1] {
            Some(t) => placed_step(before, side, textures[t], spots[n - 1]),
            None => before,
        }
    }
}

/// Slots after placing the first `n` requests, named by `names`.
pub open spec fn placed_slots(
    names: Seq<Seq<char>>,
    textures: Seq<TextureSpec>,
    found: Seq<Option<int>>,
    spots: Seq<Option<(u32, u32)>>,
    n: int,
) -> Seq<AtlasSlotSpec>
    decreases n,
{
    if n <= 0 {
        Seq::empty()
    } else {
        let before = placed_slots(names, textures, found, spots, n - 1);
        match (found[n - 1], spots[n - 1]) {
            (Some(t), Some((x, y))) => before.push(
                AtlasSlotSpec { name: names[n - 1], x, y, width: textures[t].width, height: textures[t].height },
            ),
            _ => before,
        }
    }
}

/// Every spot given to a request keeps its image inside the atlas.
pub open spec fn spots_fit(
    side: int,
    textures: Seq<TextureSpec>,
    found: Seq<Option<int>>,
    spots: Seq<Option<(u32, u32)>>,
) -> bool {
    forall|i: int|
        0 <= i < found.len() ==> match (#[trigger] found[i], spots[i]) {
            (Some(t), Some((x, y))) => 0 <= t < textures.len() && x + textures[t].width <= side && y
                + textures[t].height <= side,
            _ => true,
        }
}

/// Every image named by a request has complete pixel data.
pub open spec fn found_complete(textures: Seq<TextureSpec>, found: Seq<Option<int>>) -> bool {
    forall|i: int|
        0 <= i < found.len() ==> match #[trigger] found[i] {
            Some(t) => 0 <= t < textures.len() && image_complete(textures[t]),
            None => true,
        }
}

proof fn lemma_placed_len(
    side: int,
    textures: Seq<TextureSpec>,
    found: Seq<Option<int>>,
    spots: Seq<Option<(u32, u32)>>,
    n: int,
)
    requires
        side >= 0,
    ensures
        placed_pixels(side, textures, found, spots, n).len() == side * side * 4,
    decreases n,
{
    if n > 0 {
        lemma_placed_len(side, textures, found, spots, n - 1);
    }
    assert(side * side * 4 >= 0) by (nonlinear_arith)
        requires side >= 0;
}

/// Build the atlas from the requested names, the image drawn for each and the
/// spot chosen for each. Image `t` is `textures[t]`, or `fallback` for
/// `t == textures.len()`. Every request with an image and a spot is copied
/// there, in request order, and gets a slot under its requested name.
pub fn place_textures(
    names: &Vec<String>,
    textures: &Vec<LoadedTexture>,
    fallback: &LoadedTexture,
    found: &Vec<Option<usize>>,
    spots: &Vec<Option<(u32, u32)>>,
) -> (atlas: TextureAtlas)
    requires
        found@.len() == names@.len(),
        spots@.len() == names@.len(),
        spots_fit(ATLAS_SIZE as int, views(textures@).push(fallback@), found@.map_values(|f: Option<usize>| opt_int(f)), spots@),
        found_complete(views(textures@).push(fallback@), found@.map_values(|f: Option<usize>| opt_int(f))),
    ensures
        atlas.side == ATLAS_SIZE,
        atlas.pixels@ == placed_pixels(
            ATLAS_SIZE as int,
            views(textures@).push(fallback@),
            found@.map_values(|f: Option<usize>| opt_int(f)),
            spots@,
            names@.len() as int,
        ),
        atlas.slots@.map_values(|s: AtlasSlot| s@) == placed_slots(
            names@.map_values(|n: String| n@),
            views(textures@).push(fallback@),
            found@.map_values(|f: Option<usize>| opt_int(f)),
            spots@,
            names@.len() as int,
        ),
{
    let ghost fnd = found@.map_values(|f: Option<usize>| opt_int(f));
    let ghost nms = names@.map_values(|n: String| n@);
    let ghost imgs = views(textures@).push(fallback@);
    let side: u32 = ATLAS_SIZE;
    let total: usize = 4096 * 4096 * 4;
    let mut pixels: Vec<u8> = Vec::new();
    let mut z: usize = 0;
    while z < total
        invariant
            total == 4096 * 4096 * 4,
            z <= total,
            pixels@ == Seq::new(z as nat, |i: int| 0u8),
        decreases total - z,
    {
        pixels.push(0u8);
        z = z + 1;
        assert(pixels@ =~= Seq::new(z as nat, |i: int| 0u8));
    }
    assert(pixels@ =~= placed_pixels(side as int, imgs, fnd, spots@, 0));
    let mut slots: Vec<AtlasSlot> = Vec::new();
    let mut i: usize = 0;
    while i < names.len()
        invariant
            side == ATLAS_SIZE,
            fnd == found@.map_values(|f: Option<usize>| opt_int(f)),
            nms == names@.map_values(|n: String| n@),
            imgs == views(textures@).push(fallback@),
            found@.len() == names@.len(),
            spots@.len() == names@.len(),
            spots_fit(side as int, imgs, fnd, spots@),
            found_complete(imgs, fnd),
            i <= names@.len(),
            pixels@ == placed_pixels(side as int, imgs, fnd, spots@, i as int),
            slots@.map_values(|s: AtlasSlot| s@) == placed_slots(nms, imgs, fnd, spots@, i as int),
        decreases names@.len() - i,
    {
        proof {
            lemma_placed_len(side as int, imgs, fnd, spots@, i as int);
            assert(fnd[i as int] == opt_int(found@[i as int]));
        }
        let ghost before_slots = slots@.map_values(|s: AtlasSlot| s@);
        match found[i] {
            Some(t) => {
                match spots[i] {
                    Some((x, y)) => {
                        let tex = if t < textures.len() { &textures[t] } else { fallback };
                        assert(imgs[t as int] == tex@);
                        blit_texture(&mut pixels, side, &tex.pixels, tex.width, tex.height, x, y);
                        let name = names[i].clone();
                        slots.push(AtlasSlot { name, x, y, width: tex.width, height: tex.height });
                        assert(slots@.map_values(|s: AtlasSlot| s@) =~= before_slots.push(
                            AtlasSlotSpec { name: nms[i as int], x, y, width: tex.width, height: tex.height },
                        ));
                    },
                    None => {
                        assert(slots@.map_values(|s: AtlasSlot| s@) =~= before_slots);
                    },
                }
            },
            None => {
                assert(slots@.map_values(|s: AtlasSlot| s@) =~= before_slots);
            },
        }
        i = i + 1;
    }
    TextureAtlas { side, pixels, slots }
}

/// An optional index as an optional integer.
pub open spec fn opt_int(f: Option<usize>) -> Option<int> {
    match f {
        Some(i) => Some(i as int),
        None => None,
    }
}

// ---------------------------------------------------------------------------
// Guillotine bin-packing.
// ---------------------------------------------------------------------------

/// guillotiere's `AtlasAllocator`, opaque here: its free-rectangle tree is
/// never looked into.
#[verifier::external_type_specification]
#[verifier::external_body]
pub struct ExAtlasAllocator(guillotiere::AtlasAllocator);

/// Width and height of the area an allocator hands out rectangles from.
pub uninterp spec fn allocator_extent(a: guillotiere::AtlasAllocator) -> (i32, i32);

/// The rectangles an allocator has handed out, in order, as
/// `(x, y, width, height)`.
pub uninterp spec fn allocations(a: guillotiere::AtlasAllocator) -> Seq<(i32, i32, i32, i32)>;

/// Where guillotiere's allocator over an area of the given extent, having
/// handed out the given rectangles in that order (and nothing freed), places
/// a `w` by `h` request: the top-left corner, or nothing when no free
/// rectangle is large enough.
pub uninterp spec fn guillotine_place(
    extent: (i32, i32),
    granted: Seq<(i32, i32, i32, i32)>,
    w: i32,
    h: i32,
) -> Option<(i32, i32)>;

/// Whether two `(x, y, width, height)` rectangles share no pixel.
pub open spec fn rects_apart(a: (int, int, int, int), b: (int, int, int, int)) -> bool {
    a.0 + a.2 <= b.0 || b.0 + b.2 <= a.0 || a.1 + a.3 <= b.1 || b.1 + b.3 <= a.1
}

/// A granted rectangle as integers.
pub open spec fn grant_rect(g: (i32, i32, i32, i32)) -> (int, int, int, int) {
    (g.0 as int, g.1 as int, g.2 as int, g.3 as int)
}

/// A slot's rectangle as integers.
pub open spec fn slot_rect(s: AtlasSlotSpec) -> (int, int, int, int) {
    (s.x as int, s.y as int, s.width as int, s.height as int)
}

/// `guillotiere::AtlasAllocator::new(size2(side, side))`: an allocator over a
/// `side` by `side` area with the default options (alignment 1 by 1) and
/// nothing handed out yet. It asserts a positive size.
#[verifier::external_body]
fn new_allocator(side: i32) -> (a: guillotiere::AtlasAllocator)
    requires
        side > 0,
    ensures
        allocator_extent(a) == (side, side),
        allocations(a) == Seq::<(i32, i32, i32, i32)>::empty(),
{
    guillotiere::AtlasAllocator::new(guillotiere::size2(side, side))
}

/// `AtlasAllocator::allocate(size2(w, h))`, giving the allocated rectangle's
/// top-left corner. The answer is a function of the area, the rectangles
/// handed out before and the request. An empty size gets nothing. A granted
/// rectangle has the requested size (the default alignment leaves sizes as
/// they are), is carved out of a free rectangle, so it lies inside the area
/// and shares no pixel with any earlier one, and is recorded; a refused
/// request changes nothing. On an allocator with nothing handed out, the one
/// free rectangle is the whole area, so a request that fits in it is granted
/// at the top-left corner.
#[verifier::external_body]
fn allocate(a: &mut guillotiere::AtlasAllocator, w: i32, h: i32) -> (r: Option<(i32, i32)>)
    ensures
        allocator_extent(*final(a)) == allocator_extent(*old(a)),
        r == guillotine_place(allocator_extent(*old(a)), allocations(*old(a)), w, h),
        w <= 0 || h <= 0 ==> r is None,
        match r {
            Some((x, y)) => 0 <= x && 0 <= y && x + w <= allocator_extent(*old(a)).0 && y + h
                <= allocator_extent(*old(a)).1 && allocations(*final(a)) == allocations(*old(a)).push((x, y, w, h))
                && forall|j: int| 0 <= j < allocations(*old(a)).len()
                    ==> rects_apart(#[trigger] grant_rect(allocations(*old(a))[j]), grant_rect((x, y, w, h))),
            None => allocations(*final(a)) == allocations(*old(a)),
        },
        allocations(*old(a)).len() == 0 && 0 < w <= allocator_extent(*old(a)).0 && 0 < h
            <= allocator_extent(*old(a)).1 ==> r == Some((0i32, 0i32)),
{
    match a.allocate(guillotiere::size2(w, h)) {
        Some(alloc) => Some((alloc.rectangle.min.x, alloc.rectangle.min.y)),
        None => None,
    }
}

/// The size an image asks the allocator for, when both sides fit in an `i32`.
pub open spec fn request_of(t: TextureSpec) -> Option<(i32, i32)> {
    if t.width <= 0x7fff_ffff && t.height <= 0x7fff_ffff {
        Some((t.width as i32, t.height as i32))
    } else {
        None
    }
}

/// Whether a request fits in an empty atlas.
pub open spec fn fits_atlas(r: Option<(i32, i32)>) -> bool {
    match r {
        Some((w, h)) => 0 < w <= ATLAS_SIZE && 0 < h <= ATLAS_SIZE,
        None => false,
    }
}

/// The rectangles a fresh `ATLAS_SIZE` allocator has handed out after the
/// first `n` requests (`None`: no request made).
pub open spec fn granted(requests: Seq<Option<(i32, i32)>>, n: int) -> Seq<(i32, i32, i32, i32)>
    decreases n,
{
    if n <= 0 {
        Seq::empty()
    } else {
        let g = granted(requests, n - 1);
        match requests[n - 1] {
            Some((w, h)) => match guillotine_place((4096i32, 4096i32), g, w, h) {
                Some((x, y)) => g.push((x, y, w, h)),
                None => g,
            },
            None => g,
        }
    }
}

/// The allocator's answer to request `n`.
pub open spec fn answer(requests: Seq<Option<(i32, i32)>>, n: int) -> Option<(i32, i32)> {
    match requests[n] {
        Some((w, h)) => guillotine_place((4096i32, 4096i32), granted(requests, n), w, h),
        None => None,
    }
}

/// An answer as an atlas spot.
pub open spec fn as_spot(a: Option<(i32, i32)>) -> Option<(u32, u32)> {
    match a {
        Some((x, y)) => Some((x as u32, y as u32)),
        None => None,
    }
}

/// Positions of the names packed: the first of each lowercase form.
pub open spec fn pack_order(names: Seq<String>) -> Seq<int> {
    first_occurrences(keys_of(names), names.len() as int)
}

/// The images packed: the textures, then the fallback tile.
pub open spec fn pack_images(textures: Seq<TextureSpec>) -> Seq<TextureSpec> {
    textures.push(fallback_image())
}

/// The image drawn for each packed name: the last texture of its lowercase
/// form, else the fallback tile.
pub open spec fn pack_sources(names: Seq<String>, textures: Seq<TextureSpec>) -> Seq<Option<int>> {
    pack_order(names).map_values(
        |i: int| match texture_named(textures, keys_of(names)[i]) {
            Some(t) => Some(t),
            None => Some(textures.len() as int),
        },
    )
}

/// The size each packed name asks the allocator for.
pub open spec fn pack_requests(names: Seq<String>, textures: Seq<TextureSpec>) -> Seq<Option<(i32, i32)>> {
    pack_sources(names, textures).map_values(
        |f: Option<int>| match f {
            Some(t) => request_of(pack_images(textures)[t]),
            None => None,
        },
    )
}

/// The spot each packed name gets from a fresh allocator.
pub open spec fn pack_spots(names: Seq<String>, textures: Seq<TextureSpec>) -> Seq<Option<(u32, u32)>> {
    let req = pack_requests(names, textures);
    Seq::new(req.len(), |i: int| as_spot(answer(req, i)))
}

/// The atlas that the named textures give: the names in `pack_order`, each
/// drawn from its `pack_sources` image at its `pack_spots` spot.
pub open spec fn packing_of(
    names: Seq<String>,
    textures: Seq<TextureSpec>,
    pixels: Seq<u8>,
    slots: Seq<AtlasSlot>,
) -> bool {
    let order = pack_order(names);
    let found = pack_sources(names, textures);
    let spots = pack_spots(names, textures);
    &&& placed_pixels(ATLAS_SIZE as int, pack_images(textures), found, spots, order.len() as int) == pixels
    &&& placed_slots(order.map_values(|i: int| names[i]@), pack_images(textures), found, spots, order.len() as int)
        == slots.map_values(|s: AtlasSlot| s@)
}

/// Facts about an atlas's slots that follow from how the allocator carves
/// its area: every slot lies inside the atlas, no two share a pixel, and the
/// first lies at the top-left corner.
pub open spec fn slots_laid_out(slots: Seq<AtlasSlot>) -> bool {
    &&& forall|i: int| 0 <= i < slots.len() ==> (#[trigger] slots[i]).x + slots[i].width <= ATLAS_SIZE
        && slots[i].y + slots[i].height <= ATLAS_SIZE
    &&& forall|i: int, j: int| 0 <= i < j < slots.len() ==> rects_apart(
        #[trigger] slot_rect(slots[i]@),
        #[trigger] slot_rect(slots[j]@),
    )
    &&& slots.len() > 0 ==> slots[0].x == 0 && slots[0].y == 0
}

/// Whether request `r` is the size of an existing image `f`.
pub open spec fn source_matches(imgs: Seq<TextureSpec>, f: Option<int>, r: Option<(i32, i32)>) -> bool {
    match f {
        Some(t) => 0 <= t < imgs.len() && r == request_of(imgs[t]),
        None => false,
    }
}

/// The slots of a packing are the allocator's grants, in order.
proof fn lemma_slots_are_grants(
    nms: Seq<Seq<char>>,
    imgs: Seq<TextureSpec>,
    found: Seq<Option<int>>,
    req: Seq<Option<(i32, i32)>>,
    spots: Seq<Option<(u32, u32)>>,
    n: int,
)
    requires
        0 <= n <= found.len(),
        found.len() == req.len(),
        found.len() == spots.len(),
        forall|i: int| 0 <= i < n ==> source_matches(imgs, #[trigger] found[i], req[i]),
        forall|i: int| 0 <= i < n ==> #[trigger] spots[i] == as_spot(answer(req, i)),
        forall|j: int| 0 <= j < granted(req, n).len() ==> 0 <= (#[trigger] granted(req, n)[j]).0 && 0
            <= granted(req, n)[j].1,
    ensures
        placed_slots(nms, imgs, found, spots, n).map_values(|s: AtlasSlotSpec| slot_rect(s))
            == granted(req, n).map_values(|g: (i32, i32, i32, i32)| grant_rect(g)),
    decreases n,
{
    if n > 0 {
        let g = granted(req, n - 1);
        assert forall|j: int| 0 <= j < g.len() implies 0 <= (#[trigger] g[j]).0 && 0 <= g[j].1 by {
            assert(granted(req, n)[j] == g[j]);
        }
        lemma_slots_are_grants(nms, imgs, found, req, spots, n - 1);
        let before = placed_slots(nms, imgs, found, spots, n - 1);
        assert(source_matches(imgs, found[n - 1], req[n - 1]));
        let t = found[n - 1]->0;
        match req[n - 1] {
            Some((w, h)) => {
                assert(w as int == imgs[t].width && h as int == imgs[t].height);
                match guillotine_place((4096i32, 4096i32), g, w, h) {
                    Some((x, y)) => {
                        assert(granted(req, n) == g.push((x, y, w, h)));
                        assert(granted(req, n)[g.len() as int] == (x, y, w, h));
                        assert(spots[n - 1] == Some((x as u32, y as u32)));
                        assert(x as u32 as int == x as int && y as u32 as int == y as int);
                        let last = AtlasSlotSpec { name: nms[n - 1], x: x as u32, y: y as u32, width: imgs[t].width, height: imgs[t].height };
                        assert(placed_slots(nms, imgs, found, spots, n) == before.push(last));
                        assert(slot_rect(last) == grant_rect((x, y, w, h)));
                        assert(before.push(last).map_values(|s: AtlasSlotSpec| slot_rect(s))
                            =~= before.map_values(|s: AtlasSlotSpec| slot_rect(s)).push(slot_rect(last)));
                        assert(g.push((x, y, w, h)).map_values(|q: (i32, i32, i32, i32)| grant_rect(q))
                            =~= g.map_values(|q: (i32, i32, i32, i32)| grant_rect(q)).push(grant_rect((x, y, w, h))));
                        assert(placed_slots(nms, imgs, found, spots, n).map_values(|s: AtlasSlotSpec| slot_rect(s))
                            =~= granted(req, n).map_values(|q: (i32, i32, i32, i32)| grant_rect(q)));
                    },
                    None => {
                        assert(spots[n - 1] is None);
                        assert(placed_slots(nms, imgs, found, spots, n).map_values(|s: AtlasSlotSpec| slot_rect(s))
                            =~= granted(req, n).map_values(|q: (i32, i32, i32, i32)| grant_rect(q)));
                    },
                }
            },
            None => {
                assert(spots[n - 1] is None);
                assert(placed_slots(nms, imgs, found, spots, n).map_values(|s: AtlasSlotSpec| slot_rect(s))
                    =~= granted(req, n).map_values(|q: (i32, i32, i32, i32)| grant_rect(q)));
            },
        }
    } else {
        assert(placed_slots(nms, imgs, found, spots, n).map_values(|s: AtlasSlotSpec| slot_rect(s))
            =~= granted(req, n).map_values(|q: (i32, i32, i32, i32)| grant_rect(q)));
    }
}

/// Pack the named textures into a fresh atlas. Names are de-duplicated by
/// lowercase form (the first spelling is kept); each is looked up by its
/// lowercase form among `textures` (the last match wins), and a name found in
/// none gets the 16 by 16 magenta fallback tile. Each asks the guillotine
/// allocator for a rectangle of its image's size and is skipped when none is
/// left (also when a side does not fit in an `i32`); the rest are copied into
/// the atlas in order.
pub fn pack_atlas(names: &Vec<String>, textures: &Vec<LoadedTexture>) -> (atlas: TextureAtlas)
    requires
        forall|i: int| 0 <= i < textures@.len() ==> texture_complete(#[trigger] textures@[i]),
    ensures
        atlas.side == ATLAS_SIZE,
        packing_of(names@, views(textures@), atlas.pixels@, atlas.slots@),
        slots_laid_out(atlas.slots@),
        (exists|q: int| 0 <= q < pack_requests(names@, views(textures@)).len()
            && fits_atlas(#[trigger] pack_requests(names@, views(textures@))[q])) ==> atlas.slots@.len() > 0,
{
    let ghost keys = keys_of(names@);
    let ghost tv = views(textures@);
    let ghost imgs = pack_images(tv);
    let ghost srcs = pack_sources(names@, tv);
    let ghost req = pack_requests(names@, tv);
    let order = unique_name_positions(names);
    let ghost ord = first_occurrences(keys, names@.len() as int);
    assert(order@.map_values(|i: usize| i as int) == ord);
    proof {
        lemma_first_occurrences_in_range(keys, names@.len() as int);
    }
    let fallback = fallback_texture();
    assert(views(textures@).push(fallback@) == imgs);
    let mut allocator = new_allocator(4096);
    let mut chosen: Vec<String> = Vec::new();
    let mut found: Vec<Option<usize>> = Vec::new();
    let mut spots: Vec<Option<(u32, u32)>> = Vec::new();
    let mut k: usize = 0;
    while k < order.len()
        invariant
            keys == keys_of(names@),
            tv == views(textures@),
            imgs == pack_images(tv),
            imgs == views(textures@).push(fallback@),
            srcs == pack_sources(names@, tv),
            req == pack_requests(names@, tv),
            ord == first_occurrences(keys, names@.len() as int),
            order@.map_values(|i: usize| i as int) == ord,
            srcs.len() == ord.len() && req.len() == ord.len(),
            forall|i: int| 0 <= i < textures@.len() ==> texture_complete(#[trigger] textures@[i]),
            fallback@ == fallback_image(),
            forall|q: int| 0 <= q < ord.len() ==> 0 <= #[trigger] ord[q] < names@.len(),
            allocator_extent(allocator) == (4096i32, 4096i32),
            allocations(allocator) == granted(req, k as int),
            forall|j: int| 0 <= j < allocations(allocator).len() ==> 0 <= (#[trigger] allocations(allocator)[j]).0
                && 0 <= allocations(allocator)[j].1 && allocations(allocator)[j].0 + allocations(allocator)[j].2 <= 4096
                && allocations(allocator)[j].1 + allocations(allocator)[j].3 <= 4096,
            forall|i: int, j: int| 0 <= i < j < allocations(allocator).len() ==> rects_apart(
                #[trigger] grant_rect(allocations(allocator)[i]),
                #[trigger] grant_rect(allocations(allocator)[j]),
            ),
            allocations(allocator).len() > 0 ==> allocations(allocator)[0].0 == 0 && allocations(allocator)[0].1 == 0,
            allocations(allocator).len() == 0 ==> forall|q: int| 0 <= q < k ==> !fits_atlas(#[trigger] req[q]),
            k <= order@.len(),
            chosen@.len() == k,
            found@.len() == k,
            spots@.len() == k,
            chosen@.map_values(|n: String| n@) == ord.take(k as int).map_values(|i: int| names@[i]@),
            found@.map_values(|f: Option<usize>| opt_int(f)) == srcs.take(k as int),
            forall|i: int| 0 <= i < k ==> #[trigger] spots@[i] == as_spot(answer(req, i)),
            spots_fit(ATLAS_SIZE as int, imgs, found@.map_values(|f: Option<usize>| opt_int(f)), spots@),
            found_complete(imgs, found@.map_values(|f: Option<usize>| opt_int(f))),
        decreases order@.len() - k,
    {
        proof {
            lemma_first_occurrences_in_range(keys, names@.len() as int);
        }
        let idx = order[k];
        assert(idx as int == ord[k as int]);
        let name = &names[idx];
        let key = to_lower(name.as_str());
        let hit = find_texture(textures, key.as_str());
        let src: usize = match hit {
            Some(t) => t,
            None => textures.len(),
        };
        proof {
            assert(keys[ord[k as int]] == key@);
            assert(srcs[k as int] == Some(src as int));
        }
        let tex = if src < textures.len() { &textures[src] } else { &fallback };
        assert(imgs[src as int] == tex@);
        assert(req[k as int] == request_of(imgs[src as int]));
        let ghost before = allocations(allocator);
        let w = tex.width;
        let h = tex.height;
        let mut spot: Option<(u32, u32)> = None;
        if w <= 0x7fff_ffff && h <= 0x7fff_ffff {
            assert(req[k as int] == Some((w as i32, h as i32)));
            match allocate(&mut allocator, w as i32, h as i32) {
                Some((x, y)) => {
                    spot = Some((x as u32, y as u32));
                },
                None => {},
            }
        } else {
            assert(req[k as int] is None);
        }
        proof {
            assert(answer(req, k as int) == match req[k as int] {
                Some((rw, rh)) => guillotine_place((4096i32, 4096i32), before, rw, rh),
                None => None,
            });
            assert(spot == as_spot(answer(req, k as int)));
            assert(allocations(allocator) == granted(req, k + 1));
            let a = allocations(allocator);
            if a.len() > before.len() {
                assert(a == before.push(a[before.len() as int]));
                assert forall|i: int, j: int| 0 <= i < j < a.len() implies rects_apart(
                    #[trigger] grant_rect(a[i]),
                    #[trigger] grant_rect(a[j]),
                ) by {
                    if j < before.len() {
                        assert(a[i] == before[i] && a[j] == before[j]);
                    } else {
                        assert(a[i] == before[i]);
                    }
                }
                assert forall|j: int| 0 <= j < a.len() implies 0 <= (#[trigger] a[j]).0 && 0 <= a[j].1
                    && a[j].0 + a[j].2 <= 4096 && a[j].1 + a[j].3 <= 4096 by {
                    if j < before.len() {
                        assert(a[j] == before[j]);
                    }
                }
                if before.len() > 0 {
                    assert(a[0] == before[0]);
                }
            } else {
                if before.len() == 0 {
                    assert(!fits_atlas(req[k as int]));
                }
            }
        }
        let ghost fv_before = found@.map_values(|f: Option<usize>| opt_int(f));
        let ghost ch_before = chosen@.map_values(|n: String| n@);
        let ghost sp_before = spots@;
        let copied = name.clone();
        assert(copied@ == names@[ord[k as int]]@);
        chosen.push(copied);
        found.push(Some(src));
        spots.push(spot);
        proof {
            let fv = found@.map_values(|f: Option<usize>| opt_int(f));
            assert(ord.take(k + 1) =~= ord.take(k as int).push(ord[k as int]));
            assert(chosen@.map_values(|n: String| n@) =~= ch_before.push(names@[ord[k as int]]@));
            assert(chosen@.map_values(|n: String| n@) =~= ord.take(k + 1).map_values(|i: int| names@[i]@));
            assert(fv =~= fv_before.push(Some(src as int)));
            assert(fv =~= srcs.take(k + 1));
            assert forall|i: int| 0 <= i < k + 1 implies #[trigger] spots@[i] == as_spot(answer(req, i)) by {
                if i < k {
                    assert(spots@[i] == sp_before[i]);
                }
            }
            assert forall|i: int| 0 <= i < fv.len() implies match (#[trigger] fv[i], spots@[i]) {
                (Some(t), Some((x, y))) => 0 <= t < imgs.len() && x + imgs[t].width <= ATLAS_SIZE
                    && y + imgs[t].height <= ATLAS_SIZE,
                _ => true,
            } by {
                if i < k {
                    assert(fv[i] == fv_before[i]);
                    assert(spots@[i] == sp_before[i]);
                }
            }
            assert forall|i: int| 0 <= i < fv.len() implies match #[trigger] fv[i] {
                Some(t) => 0 <= t < imgs.len() && image_complete(imgs[t]),
                None => true,
            } by {
                if i < k {
                    assert(fv[i] == fv_before[i]);
                } else {
                    if src < textures@.len() {
                        assert(texture_complete(textures@[src as int]));
                    }
                }
            }
        }
        k = k + 1;
    }
    let atlas = place_textures(&chosen, textures, &fallback, &found, &spots);
    proof {
        assert(ord.take(ord.len() as int) =~= ord);
        assert(srcs.take(srcs.len() as int) =~= srcs);
        let fv = found@.map_values(|f: Option<usize>| opt_int(f));
        assert(fv =~= srcs);
        let ps = pack_spots(names@, tv);
        assert(spots@ =~= ps);
        assert(chosen@.map_values(|n: String| n@) =~= ord.map_values(|i: int| names@[i]@));
        assert(packing_of(names@, tv, atlas.pixels@, atlas.slots@));
        let n = ord.len() as int;
        let nms = ord.map_values(|i: int| names@[i]@);
        assert forall|i: int| 0 <= i < n implies source_matches(imgs, #[trigger] srcs[i], req[i]) by {
            assert(fv[i] == srcs[i]);
        }
        lemma_slots_are_grants(nms, imgs, srcs, req, spots@, n);
        let sl = atlas.slots@;
        let a = allocations(allocator);
        let sr = placed_slots(nms, imgs, srcs, spots@, n).map_values(|s: AtlasSlotSpec| slot_rect(s));
        assert(sl.map_values(|s: AtlasSlot| s@) == placed_slots(nms, imgs, srcs, spots@, n));
        assert(sr == a.map_values(|g: (i32, i32, i32, i32)| grant_rect(g)));
        assert(sl.len() == a.len());
        assert forall|i: int| 0 <= i < sl.len() implies slot_rect(#[trigger] sl[i]@) == grant_rect(a[i]) by {
            assert(sr[i] == slot_rect(sl.map_values(|s: AtlasSlot| s@)[i]));
        }
        assert forall|i: int| 0 <= i < sl.len() implies (#[trigger] sl[i]).x + sl[i].width <= ATLAS_SIZE
            && sl[i].y + sl[i].height <= ATLAS_SIZE by {
            assert(slot_rect(sl[i]@) == grant_rect(a[i]));
        }
        assert forall|i: int, j: int| 0 <= i < j < sl.len() implies rects_apart(
            #[trigger] slot_rect(sl[i]@),
            #[trigger] slot_rect(sl[j]@),
        ) by {
            assert(slot_rect(sl[i]@) == grant_rect(a[i]));
            assert(slot_rect(sl[j]@) == grant_rect(a[j]));
        }
        if sl.len() > 0 {
            assert(slot_rect(sl[0]@) == grant_rect(a[0]));
        }
        if exists|q: int| 0 <= q < req.len() && fits_atlas(#[trigger] req[q]) {
            let q = choose|q: int| 0 <= q < req.len() && fits_atlas(#[trigger] req[q]);
            if a.len() == 0 {
                assert(!fits_atlas(req[q]));
            }
        }
    }
    atlas
}

proof fn lemma_first_occurrences_in_range(keys: Seq<Seq<char>>, n: int)
    ensures
        forall|q: int| 0 <= q < first_occurrences(keys, n).len() ==> 0 <= #[trigger] first_occurrences(keys, n)[q] < n,
    decreases n,
{
    if n > 0 {
        lemma_first_occurrences_in_range(keys, n - 1);
        let prev = first_occurrences(keys, n - 1);
        let cur = first_occurrences(keys, n);
        assert forall|q: int| 0 <= q < cur.len() implies 0 <= #[trigger] cur[q] < n by {
            if q < prev.len() {
                assert(cur[q] == prev[q]);
            }
        }
    }
}

// ---------------------------------------------------------------------------
// WAD3 files.
// ---------------------------------------------------------------------------

/// Unsigned little-endian 32-bit number at byte `o`.
pub open spec fn le_u32(d: Seq<u8>, o: int) -> int {
    d[o] + d[o + 1] * 0x100 + d[o + 2] * 0x1_0000 + d[o + 3] * 0x100_0000
}

/// Unsigned little-endian 16-bit number at byte `o`.
pub open spec fn le_u16(d: Seq<u8>, o: int) -> int {
    d[o] + d[o + 1] * 0x100
}

/// Number of lumps a WAD's header announces.
pub open spec fn wad_count(d: Seq<u8>) -> int {
    le_u32(d, 4)
}

/// Byte offset of a WAD's lump directory.
pub open spec fn wad_table(d: Seq<u8>) -> int {
    le_u32(d, 8)
}

/// A WAD file's header and lump directory can be read: twelve header bytes
/// starting with `WAD3`, and the directory of 32-byte entries inside the file
/// (not looked at when it is empty).
pub open spec fn wad_parses(d: Seq<u8>) -> bool {
    &&& d.len() >= 12
    &&& d.take(4) == seq![0x57u8, 0x41u8, 0x44u8, 0x33u8]
    &&& (wad_count(d) == 0 || wad_table(d) + 32 * wad_count(d) <= d.len())
}

/// One entry of a WAD's lump directory.
#[derive(Debug)]
pub struct WadLump {
    pub offset: u32,
    pub disk_size: u32,
    pub ty: u8,
    pub compression: u8,
    /// The 16 name bytes, NUL-padded.
    pub name: Vec<u8>,
}

/// Mathematical view of a [`WadLump`].
pub struct WadLumpSpec {
    pub offset: u32,
    pub disk_size: u32,
    pub ty: u8,
    pub compression: u8,
    pub name: Seq<u8>,
}

impl View for WadLump {
    type V = WadLumpSpec;

    open spec fn view(&self) -> WadLumpSpec {
        WadLumpSpec {
            offset: self.offset,
            disk_size: self.disk_size,
            ty: self.ty,
            compression: self.compression,
            name: self.name@,
        }
    }
}

/// The directory entry stored at byte `o`.
pub open spec fn lump_at(d: Seq<u8>, o: int) -> WadLumpSpec {
    WadLumpSpec {
        offset: le_u32(d, o) as u32,
        disk_size: le_u32(d, o + 4) as u32,
        ty: d[o + 12],
        compression: d[o + 13],
        name: d.subrange(o + 16, o + 32),
    }
}

/// The lump directory of a WAD file.
pub open spec fn lumps_of(d: Seq<u8>) -> Seq<WadLumpSpec> {
    Seq::new(wad_count(d) as nat, |i: int| lump_at(d, wad_table(d) + 32 * i))
}

/// goldsrc-rs's `ParsingError`, carried opaquely as the cause of a refused
/// WAD file.
#[verifier::external_type_specification]
#[verifier::external_body]
pub struct ExParsingError(goldsrc_rs::error::ParsingError);

/// `goldsrc_rs::wad::wad`: reads the WAD3 header and maps the lump directory.
/// It fails exactly when the header is short or lacks the `WAD3` magic, or the
/// directory runs past the end of the file; the entries are converted to
/// [`WadLump`]s one for one.
#[verifier::external_body]
fn read_wad_directory(data: &[u8]) -> (r: Result<Vec<WadLump>, goldsrc_rs::error::ParsingError>)
    ensures
        r is Ok <==> wad_parses(data@),
        r matches Ok(v) ==> v@.map_values(|l: WadLump| l@) == lumps_of(data@),
{
    match goldsrc_rs::wad::wad(data) {
        Ok(w) => Ok(w.entries.iter().map(|e| WadLump {
            offset: e.offset.get(), disk_size: e.disk_size.get(), ty: e.ty,
            compression: e.compression, name: e.name.to_vec(),
        }).collect()),
        Err(e) => Err(e),
    }
}

/// The bytes before the first NUL (all of them when there is none).
pub open spec fn c_string(b: Seq<u8>) -> Seq<u8> {
    if exists|i: int| 0 <= i < b.len() && b[i] == 0 {
        b.take(choose|i: int| 0 <= i < b.len() && b[i] == 0 && forall|j: int| 0 <= j < i ==> b[j] != 0)
    } else {
        b
    }
}

/// `goldsrc_rs::common::cstring_bytes`: the bytes before the first NUL.
#[verifier::external_body]
fn cstring_prefix(b: &[u8]) -> (r: Vec<u8>)
    ensures
        r@ == c_string(b@),
{
    goldsrc_rs::common::cstring_bytes(b).to_vec()
}

/// Text decoded from bytes as UTF-8, each invalid sequence replaced by U+FFFD
/// (`String::from_utf8_lossy`).
pub uninterp spec fn utf8_lossy(b: Seq<u8>) -> Seq<char>;

/// `String::from_utf8_lossy`, as an owned string.
#[verifier::external_body]
fn lossy_text(b: &[u8]) -> (r: String)
    ensures
        r@ == utf8_lossy(b@),
{
    String::from_utf8_lossy(b).into_owned()
}

/// The data of the lump stored at `offset`, `size` bytes long, if it lies
/// inside the file (what `goldsrc_rs::wad::wad_entry` hands out).
pub fn lump_data(data: &[u8], offset: u32, size: u32) -> (r: Option<Vec<u8>>)
    ensures
        offset + size <= data@.len() ==> (r matches Some(v) && v@ == data@.subrange(offset as int, offset + size)),
        offset + size > data@.len() ==> r is None,
{
    let o = offset as usize;
    let n = size as usize;
    if o > data.len() || n > data.len() - o {
        return None;
    }
    let len = data.len();
    let mut out: Vec<u8> = Vec::new();
    let mut k: usize = 0;
    while k < n
        invariant
            len == data@.len(),
            o == offset,
            n == size,
            o + n <= data@.len(),
            k <= n,
            out@ == data@.subrange(o as int, o + k),
        decreases n - k,
    {
        out.push(data[o + k]);
        k = k + 1;
        assert(out@ =~= data@.subrange(o as int, o + k));
    }
    Some(out)
}

// ---------------------------------------------------------------------------
// Mip textures.
// ---------------------------------------------------------------------------

/// Offset of mip level `l` from the start of a miptex lump.
pub open spec fn mip_offset(b: Seq<u8>, l: int) -> int {
    le_u32(b, 24 + 4 * l)
}

/// Width in pixels, from the miptex header.
pub open spec fn mip_width(b: Seq<u8>) -> int {
    le_u32(b, 16)
}

/// Height in pixels, from the miptex header.
pub open spec fn mip_height(b: Seq<u8>) -> int {
    le_u32(b, 20)
}

/// `x >> l` for the four mip levels.
pub open spec fn halved(x: int, l: int) -> int {
    if l == 0 {
        x
    } else if l == 1 {
        x / 2
    } else if l == 2 {
        x / 4
    } else {
        x / 8
    }
}

/// Pixels of mip level `l`.
pub open spec fn level_size(b: Seq<u8>, l: int) -> int {
    halved(mip_width(b), l) * halved(mip_height(b), l)
}

/// Some level offset is zero: the lump has a header and no pixel data.
pub open spec fn mip_missing_level(b: Seq<u8>) -> bool {
    mip_offset(b, 0) == 0 || mip_offset(b, 1) == 0 || mip_offset(b, 2) == 0 || mip_offset(b, 3) == 0
}

/// Level `l`'s size fits in 32 bits and its pixels lie inside the lump.
pub open spec fn level_fits(b: Seq<u8>, l: int) -> bool {
    level_size(b, l) <= u32::MAX && mip_offset(b, l) + level_size(b, l) <= b.len()
}

/// Where the palette's two-byte colour count sits: right after level 3.
pub open spec fn palette_start(b: Seq<u8>) -> int {
    mip_offset(b, 3) + level_size(b, 3)
}

/// Colours read from the palette: its count, at most 256.
pub open spec fn palette_len(b: Seq<u8>) -> int {
    vstd::math::min(le_u16(b, palette_start(b)), 256)
}

/// A miptex lump can be read: a 40-byte header, and unless a level is
/// missing, four levels and the palette inside the lump.
pub open spec fn mip_parses(b: Seq<u8>) -> bool {
    &&& b.len() >= 40
    &&& (mip_missing_level(b) || {
        &&& level_fits(b, 0)
        &&& level_fits(b, 1)
        &&& level_fits(b, 2)
        &&& level_fits(b, 3)
        &&& palette_start(b) + 2 <= b.len()
        &&& palette_start(b) + 2 + 3 * palette_len(b) <= b.len()
    })
}

/// The palette indices of mip level 0.
pub open spec fn mip_indices(b: Seq<u8>) -> Seq<u8> {
    b.subrange(mip_offset(b, 0), mip_offset(b, 0) + level_size(b, 0))
}

/// The palette colours.
pub open spec fn mip_palette(b: Seq<u8>) -> Seq<[u8; 3]> {
    let p = palette_start(b);
    Seq::new(palette_len(b) as nat, |i: int| [b[p + 2 + 3 * i], b[p + 3 + 3 * i], b[p + 4 + 3 * i]])
}

/// The full-size level of a mip texture, as palette indices and a palette.
#[derive(Debug)]
pub struct MipImage {
    pub width: u32,
    pub height: u32,
    pub indices: Vec<u8>,
    pub palette: Vec<[u8; 3]>,
}

/// `goldsrc_rs::texture::mip_texture`, keeping level 0 and the palette. It
/// fails exactly when the lump is too short for what its header announces or
/// a level's pixel count overflows 32 bits; a lump with a zero level offset
/// gives a header and no data.
#[verifier::external_body]
fn decode_mip_texture(b: &[u8]) -> (r: Result<Option<MipImage>, goldsrc_rs::error::ParsingError>)
    ensures
        r is Ok <==> mip_parses(b@),
        r matches Ok(None) <==> (mip_parses(b@) && mip_missing_level(b@)),
        r matches Ok(Some(m)) ==> m.width == mip_width(b@) && m.height == mip_height(b@) && m.indices@
            == mip_indices(b@) && m.palette@ == mip_palette(b@),
{
    match goldsrc_rs::texture::mip_texture(b) {
        Ok(t) => Ok(t.data.map(|d| MipImage {
            width: t.header.width.get(), height: t.header.height.get(),
            indices: d.indices[0].to_vec(), palette: d.palette.to_vec(),
        })),
        Err(e) => Err(e),
    }
}

/// Mathematical view of a [`LoadedTexture`].
pub struct TextureSpec {
    pub name: Seq<char>,
    pub pixels: Seq<u8>,
    pub width: u32,
    pub height: u32,
}

impl View for LoadedTexture {
    type V = TextureSpec;

    open spec fn view(&self) -> TextureSpec {
        TextureSpec { name: self.name@, pixels: self.pixels@, width: self.width, height: self.height }
    }
}

/// The name a lump is filed under: its NUL-terminated name decoded lossily
/// and lowercased.
pub open spec fn lump_name(l: WadLumpSpec) -> Seq<char> {
    lowercase(utf8_lossy(c_string(l.name)))
}

/// The texture a lump of the WAD file `d` gives: only uncompressed miptex
/// lumps (type `0x43`) with a name, inside the file, that decode with pixel
/// data of non-zero size.
pub open spec fn lump_texture(d: Seq<u8>, l: WadLumpSpec) -> Option<TextureSpec> {
    let b = d.subrange(l.offset as int, l.offset + l.disk_size);
    if l.ty != 0x43 || l.compression != 0 || lump_name(l).len() == 0 || l.offset + l.disk_size > d.len()
        || !mip_parses(b) || mip_missing_level(b) || mip_width(b) == 0 || mip_height(b) == 0 {
        None
    } else {
        Some(
            TextureSpec {
                name: lump_name(l),
                pixels: rgba_run(mip_indices(b), mip_palette(b)),
                width: mip_width(b) as u32,
                height: mip_height(b) as u32,
            },
        )
    }
}

/// The textures of the first `n` lumps, in directory order.
pub open spec fn lump_textures(d: Seq<u8>, lumps: Seq<WadLumpSpec>, n: int) -> Seq<TextureSpec>
    decreases n,
{
    if n <= 0 {
        Seq::empty()
    } else {
        let before = lump_textures(d, lumps, n - 1);
        match lump_texture(d, lumps[n - 1]) {
            Some(t) => before.push(t),
            None => before,
        }
    }
}

/// Why a WAD file gave no textures.
#[derive(Debug)]
pub enum TextureError {
    /// The header or the lump directory could not be read.
    BadWad(goldsrc_rs::error::ParsingError),
}

/// Decode every usable texture of a WAD file, in directory order. Later
/// textures of the same name override earlier ones when looked up.
pub fn wad_textures(data: &[u8]) -> (r: Result<Vec<LoadedTexture>, TextureError>)
    ensures
        r is Ok <==> wad_parses(data@),
        r matches Ok(v) ==> v@.map_values(|t: LoadedTexture| t@) == lump_textures(
            data@,
            lumps_of(data@),
            lumps_of(data@).len() as int,
        ),
        r matches Ok(v) ==> forall|i: int| 0 <= i < v@.len() ==> texture_complete(#[trigger] v@[i]),
{
    let lumps = match read_wad_directory(data) {
        Ok(l) => l,
        Err(e) => {
            return Err(TextureError::BadWad(e));
        },
    };
    let ghost ls = lumps@.map_values(|l: WadLump| l@);
    let mut out: Vec<LoadedTexture> = Vec::new();
    let mut k: usize = 0;
    while k < lumps.len()
        invariant
            ls == lumps@.map_values(|l: WadLump| l@),
            ls == lumps_of(data@),
            k <= lumps@.len(),
            out@.map_values(|t: LoadedTexture| t@) == lump_textures(data@, ls, k as int),
            forall|i: int| 0 <= i < out@.len() ==> texture_complete(#[trigger] out@[i]),
        decreases lumps@.len() - k,
    {
        let ghost before = out@.map_values(|t: LoadedTexture| t@);
        let decoded = lump_to_texture(data, &lumps[k]);
        assert(ls[k as int] == lumps@[k as int]@);
        match decoded {
            Some(t) => {
                out.push(t);
                assert(out@.map_values(|t: LoadedTexture| t@) =~= before.push(out@[out@.len() - 1]@));
            },
            None => {},
        }
        k = k + 1;
    }
    Ok(out)
}

/// Decode one lump of the WAD file `data`, if it is a usable texture.
fn lump_to_texture(data: &[u8], lump: &WadLump) -> (r: Option<LoadedTexture>)
    ensures
        match lump_texture(data@, lump@) {
            Some(t) => r matches Some(v) && v@ == t && texture_complete(v),
            None => r is None,
        },
{
    if lump.ty != 0x43 || lump.compression != 0 {
        return None;
    }
    let raw = cstring_prefix(lump.name.as_slice());
    let text = lossy_text(raw.as_slice());
    let name = to_lower(text.as_str());
    let name_chars = chars_of(name.as_str());
    if name_chars.len() == 0 {
        return None;
    }
    let bytes = match lump_data(data, lump.offset, lump.disk_size) {
        Some(b) => b,
        None => {
            return None;
        },
    };
    let ghost b = data@.subrange(lump.offset as int, lump.offset + lump.disk_size);
    assert(bytes@ == b);
    let mip = match decode_mip_texture(bytes.as_slice()) {
        Ok(Some(m)) => m,
        _ => {
            return None;
        },
    };
    if mip.width == 0 || mip.height == 0 {
        return None;
    }
    assert(level_fits(b, 0));
    let pixels = indexed_to_rgba(mip.indices.as_slice(), mip.palette.as_slice(), mip.width, mip.height);
    proof {
        assert(mip.indices@.len() == mip.width * mip.height);
        assert(mip.indices@.take(mip.indices@.len() as int) =~= mip.indices@);
    }
    Some(LoadedTexture { name, pixels, width: mip.width, height: mip.height })
}

/// The textures of the first `n` WAD files, file after file; a file whose
/// directory cannot be read contributes none.
pub open spec fn wads_textures(wads: Seq<Vec<u8>>, n: int) -> Seq<TextureSpec>
    decreases n,
{
    if n <= 0 {
        Seq::empty()
    } else {
        let d = wads[n - 1]@;
        wads_textures(wads, n - 1) + if wad_parses(d) {
            lump_textures(d, lumps_of(d), lumps_of(d).len() as int)
        } else {
            Seq::empty()
        }
    }
}

/// Positions of the first `n` WAD files whose directory cannot be read.
pub open spec fn unreadable_wads(wads: Seq<Vec<u8>>, n: int) -> Seq<int>
    decreases n,
{
    if n <= 0 {
        Seq::empty()
    } else if wad_parses(wads[n - 1]@) {
        unreadable_wads(wads, n - 1)
    } else {
        unreadable_wads(wads, n - 1).push(n - 1)
    }
}

/// Decode the textures of the WAD files given by their contents, in order;
/// each file that cannot be read is reported with its position and skipped.
pub fn collect_wad_textures(wads: &Vec<Vec<u8>>) -> (r: (Vec<LoadedTexture>, Vec<(usize, TextureError)>))
    ensures
        r.0@.map_values(|t: LoadedTexture| t@) == wads_textures(wads@, wads@.len() as int),
        forall|i: int| 0 <= i < r.0@.len() ==> texture_complete(#[trigger] r.0@[i]),
        r.1@.map_values(|e: (usize, TextureError)| e.0 as int) == unreadable_wads(wads@, wads@.len() as int),
{
    let mut all: Vec<LoadedTexture> = Vec::new();
    let mut errors: Vec<(usize, TextureError)> = Vec::new();
    let mut i: usize = 0;
    while i < wads.len()
        invariant
            i <= wads@.len(),
            all@.map_values(|t: LoadedTexture| t@) == wads_textures(wads@, i as int),
            forall|q: int| 0 <= q < all@.len() ==> texture_complete(#[trigger] all@[q]),
            errors@.map_values(|e: (usize, TextureError)| e.0 as int) == unreadable_wads(wads@, i as int),
        decreases wads@.len() - i,
    {
        let ghost before = all@.map_values(|t: LoadedTexture| t@);
        let ghost before_all = all@;
        let ghost errs_before = errors@.map_values(|e: (usize, TextureError)| e.0 as int);
        match wad_textures(wads[i].as_slice()) {
            Ok(mut found) => {
                let ghost got = found@;
                all.append(&mut found);
                proof {
                    assert(all@ =~= before_all + got);
                    assert(all@.map_values(|t: LoadedTexture| t@) =~= before + got.map_values(
                        |t: LoadedTexture| t@,
                    ));
                    assert forall|q: int| 0 <= q < all@.len() implies texture_complete(#[trigger] all@[q]) by {
                        if q >= before_all.len() {
                            assert(all@[q] == got[q - before_all.len()]);
                        } else {
                            assert(all@[q] == before_all[q]);
                        }
                    }
                }
            },
            Err(e) => {
                errors.push((i, e));
                proof {
                    assert(errors@.map_values(|e: (usize, TextureError)| e.0 as int) =~= errs_before.push(i as int));
                    assert(all@.map_values(|t: LoadedTexture| t@) =~= before + Seq::<TextureSpec>::empty());
                }
            },
        }
        i = i + 1;
    }
    (all, errors)
}

/// Build the diffuse atlas for the named textures from the WAD files given
/// by their contents, later files overriding earlier ones; WAD files that
/// cannot be read are reported by position and skipped. A name that no
/// readable WAD holds gets the 16 by 16 magenta fallback tile.
pub fn load_textures(texture_names: &Vec<String>, wads: &Vec<Vec<u8>>) -> (r: (TextureAtlas, Vec<(usize, TextureError)>))
    ensures
        r.0.side == ATLAS_SIZE,
        packing_of(texture_names@, wads_textures(wads@, wads@.len() as int), r.0.pixels@, r.0.slots@),
        slots_laid_out(r.0.slots@),
        (exists|q: int| 0 <= q < pack_requests(texture_names@, wads_textures(wads@, wads@.len() as int)).len()
            && fits_atlas(#[trigger] pack_requests(texture_names@, wads_textures(wads@, wads@.len() as int))[q]))
            ==> r.0.slots@.len() > 0,
        r.1@.map_values(|e: (usize, TextureError)| e.0 as int) == unreadable_wads(wads@, wads@.len() as int),
{
    let (all, errors) = collect_wad_textures(wads);
    assert(views(all@) =~= wads_textures(wads@, wads@.len() as int));
    let atlas = pack_atlas(texture_names, &all);
    (atlas, errors)
}

} // verus!

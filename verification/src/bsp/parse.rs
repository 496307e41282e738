//! Map-loading decisions that do not depend on geometry: which WAD files the
//! `worldspawn` entity names, which textures are never drawn or are sky, and how
//! the faces' vertex fans become one index buffer with the sky faces last.
use vstd::prelude::*;
use crate::bsp::entity::{
    block_lines, extract_waypoints, has_entry, last_value, lump_waypoints, range_is, scan_block, string_of_range,
    OriginText,
};
use crate::bsp::wad::{lowercase, to_lower, AtlasSlot};
use crate::maplist::{join_chars, joined, path_exists};
use crate::text::{chars_of, range_pieces, ranges_within, same_text, split_on, split_ranges, trim_range, trimmed};

verus! {

broadcast use vstd::string::group_string_axioms;

pub open spec fn worldspawn_text() -> Seq<char> {
    seq!['w', 'o', 'r', 'l', 'd', 's', 'p', 'a', 'w', 'n']
}

pub open spec fn wad_key() -> Seq<char> {
    seq!['w', 'a', 'd']
}

/// The `wad` value (last one wins) of the first block whose classname is
/// `worldspawn`; `None` when there is no such block or it has no `wad` key.
pub open spec fn blocks_worldspawn_wad(blocks: Seq<Seq<char>>) -> Option<Seq<char>>
    decreases blocks.len(),
{
    if blocks.len() == 0 {
        None
    } else {
        let b = trimmed(blocks[0]);
        if b.len() > 0 && has_entry(
            block_lines(b),
            seq!['c', 'l', 'a', 's', 's', 'n', 'a', 'm', 'e'],
            worldspawn_text(),
        ) {
            last_value(block_lines(b), wad_key())
        } else {
            blocks_worldspawn_wad(blocks.drop_first())
        }
    }
}

/// Find the `wad` key of the `worldspawn` entity: the raw semicolon-separated list
/// of WAD paths.
pub fn find_worldspawn_wad(entity_lump: &str) -> (r: Option<String>)
    ensures
        match blocks_worldspawn_wad(split_on(entity_lump@, '{')) {
            Some(v) => r matches Some(t) && t@ == v,
            None => r is None,
        },
{
    let s = chars_of(entity_lump);
    let n = s.len();
    assert(s@.subrange(0, n as int) =~= s@);
    let blocks = split_ranges(&s, 0, n, '{');
    let ghost bs = range_pieces(s@, blocks@);
    assert(bs.skip(0) =~= bs);
    let mut k: usize = 0;
    while k < blocks.len()
        invariant
            n == s@.len(),
            bs == range_pieces(s@, blocks@),
            bs == split_on(entity_lump@, '{'),
            s@ == entity_lump@,
            ranges_within(blocks@, 0, n as int),
            k <= blocks@.len(),
            blocks_worldspawn_wad(bs) == blocks_worldspawn_wad(bs.skip(k as int)),
        decreases blocks@.len() - k,
    {
        let ghost rest = bs.skip(k as int);
        assert(rest[0] == bs[k as int]);
        assert(rest.drop_first() =~= bs.skip(k + 1));
        let (lo, hi) = blocks[k];
        let (a, b) = trim_range(&s, lo, hi);
        if a < b {
            let lines = split_ranges(&s, a, b, '\n');
            let (wad, is_world) = scan_block(
                &s,
                &lines,
                &['w', 'a', 'd'],
                &['c', 'l', 'a', 's', 's', 'n', 'a', 'm', 'e'],
                &['w', 'o', 'r', 'l', 'd', 's', 'p', 'a', 'w', 'n'],
            );
            if is_world {
                return match wad {
                    Some((v0, v1)) => Some(string_of_range(&s, v0, v1)),
                    None => None,
                };
            }
        } else {
            assert(s@.subrange(a as int, b as int).len() == 0);
        }
        k = k + 1;
    }
    None
}

pub open spec fn is_path_sep(c: char) -> bool {
    c == '/' || c == '\\'
}

/// What follows the last `/` or `\` (all of `t` when there is none).
pub open spec fn last_component(t: Seq<char>) -> Seq<char>
    decreases t.len(),
{
    if t.len() == 0 {
        Seq::empty()
    } else if is_path_sep(t.last()) {
        Seq::empty()
    } else {
        last_component(t.drop_last()).push(t.last())
    }
}

/// File names of the `;`-separated WAD paths: each entry trimmed, reduced to its
/// last path component; empty entries and empty names are dropped.
pub open spec fn wad_names_of(entries: Seq<Seq<char>>) -> Seq<Seq<char>>
    decreases entries.len(),
{
    if entries.len() == 0 {
        Seq::empty()
    } else {
        let r = wad_names_of(entries.drop_last());
        let t = trimmed(entries.last());
        let f = last_component(t);
        if t.len() == 0 || f.len() == 0 {
            r
        } else {
            r.push(f)
        }
    }
}

/// Start of the last path component of `s[lo..hi]`.
fn last_component_start(s: &Vec<char>, lo: usize, hi: usize) -> (r: usize)
    requires
        lo <= hi <= s@.len(),
    ensures
        lo <= r <= hi,
        s@.subrange(r as int, hi as int) == last_component(s@.subrange(lo as int, hi as int)),
{
    let mut j = hi;
    while j > lo && !(s[j - 1] == '/' || s[j - 1] == '\\')
        invariant
            lo <= j <= hi <= s@.len(),
            last_component(s@.subrange(lo as int, hi as int)) == last_component(s@.subrange(lo as int, j as int)) + s@.subrange(j as int, hi as int),
        decreases j - lo,
    {
        let ghost t = s@.subrange(lo as int, j as int);
        assert(t.last() == s@[j - 1]);
        assert(t.drop_last() =~= s@.subrange(lo as int, j - 1));
        assert(last_component(t) == last_component(t.drop_last()).push(s@[j - 1]));
        assert(last_component(t.drop_last()).push(s@[j - 1]) + s@.subrange(j as int, hi as int)
            =~= last_component(t.drop_last()) + s@.subrange(j - 1, hi as int));
        j = j - 1;
    }
    proof {
        let t = s@.subrange(lo as int, j as int);
        if t.len() > 0 {
            assert(t.last() == s@[j - 1]);
        }
        assert(last_component(t) =~= Seq::<char>::empty());
        assert(Seq::<char>::empty() + s@.subrange(j as int, hi as int) =~= s@.subrange(j as int, hi as int));
    }
    j
}

/// File names of the WADs listed in a `worldspawn` `wad` value such as
/// `C:\games\cstrike\de_dust.wad;C:\games\cstrike\halflife.wad`, in order.
pub fn wad_file_names(wad_value: &str) -> (r: Vec<String>)
    ensures
        r@.map_values(|f: String| f@) == wad_names_of(split_on(wad_value@, ';')),
{
    let s = chars_of(wad_value);
    let n = s.len();
    assert(s@.subrange(0, n as int) =~= s@);
    let entries = split_ranges(&s, 0, n, ';');
    let ghost es = range_pieces(s@, entries@);
    let mut out: Vec<String> = Vec::new();
    let mut k: usize = 0;
    while k < entries.len()
        invariant
            n == s@.len(),
            es == range_pieces(s@, entries@),
            es == split_on(wad_value@, ';'),
            s@ == wad_value@,
            ranges_within(entries@, 0, n as int),
            k <= entries@.len(),
            out@.map_values(|f: String| f@) == wad_names_of(es.take(k as int)),
        decreases entries@.len() - k,
    {
        let ghost pre = es.take(k + 1);
        assert(pre.drop_last() =~= es.take(k as int));
        assert(pre.last() == es[k as int]);
        let (lo, hi) = entries[k];
        let (a, b) = trim_range(&s, lo, hi);
        let c = last_component_start(&s, a, b);
        if a < b && c < b {
            let ghost before = out@.map_values(|f: String| f@);
            let name = string_of_range(&s, c, b);
            let ghost nv = name@;
            out.push(name);
            assert(out@.map_values(|f: String| f@) =~= before.push(nv));
        }
        k = k + 1;
    }
    assert(es.take(entries@.len() as int) =~= es);
    out
}

/// Names of the textures that are never drawn: triggers, clip brushes, hint and
/// skip faces.
pub open spec fn is_nodraw(name: Seq<char>) -> bool {
    ||| name == seq!['a', 'a', 'a', 't', 'r', 'i', 'g', 'g', 'e', 'r']
    ||| name == seq!['t', 'r', 'i', 'g', 'g', 'e', 'r']
    ||| name == seq!['c', 'l', 'i', 'p']
    ||| name == seq!['n', 'u', 'l', 'l']
    ||| name == seq!['h', 'i', 'n', 't']
    ||| name == seq!['s', 'k', 'i', 'p']
    ||| name == seq!['n', 'o', 'd', 'r', 'a', 'w']
}

/// Whether a (lowercase) texture name is one that is never drawn.
pub fn is_nodraw_name(name: &str) -> (b: bool)
    ensures
        b == is_nodraw(name@),
{
    let s = chars_of(name);
    let n = s.len();
    assert(s@.subrange(0, n as int) =~= s@);
    range_is(&s, 0, n, &['a', 'a', 'a', 't', 'r', 'i', 'g', 'g', 'e', 'r'])
        || range_is(&s, 0, n, &['t', 'r', 'i', 'g', 'g', 'e', 'r'])
        || range_is(&s, 0, n, &['c', 'l', 'i', 'p'])
        || range_is(&s, 0, n, &['n', 'u', 'l', 'l'])
        || range_is(&s, 0, n, &['h', 'i', 'n', 't'])
        || range_is(&s, 0, n, &['s', 'k', 'i', 'p'])
        || range_is(&s, 0, n, &['n', 'o', 'd', 'r', 'a', 'w'])
}

/// A sky texture's name starts with `sky`, in any ASCII case.
pub open spec fn is_sky_texture(name: Seq<char>) -> bool {
    name.len() >= 3 && crate::text::eq_ignore_case(name.take(3), seq!['s', 'k', 'y'])
}

/// Whether a texture name marks a sky face.
pub fn is_sky_name(name: &str) -> (b: bool)
    ensures
        b == is_sky_texture(name@),
{
    let s = chars_of(name);
    if s.len() < 3 {
        return false;
    }
    let r = crate::text::matches_word(&s, 0, 3, &['s', 'k', 'y']);
    assert(s@.subrange(0, 3) =~= s@.take(3));
    r
}

// ---------------------------------------------------------------------------
// Index buffer.
// ---------------------------------------------------------------------------

/// A drawable face: whether it is sky, and how many vertices its polygon has.
#[derive(Clone, Copy, Debug)]
pub struct FaceShape {
    pub sky: bool,
    pub vertex_count: usize,
}

/// Triangle fan `(base, base+i+1, base+i)` for `i` in `1..=m`.
pub open spec fn fan_upto(base: int, m: nat) -> Seq<u32>
    decreases m,
{
    if m == 0 {
        Seq::empty()
    } else {
        fan_upto(base, (m - 1) as nat) + seq![base as u32, (base + m + 1) as u32, (base + m) as u32]
    }
}

/// Whether a face contributes to the part (`sky` or not): polygons with fewer
/// than three vertices are dropped.
pub open spec fn in_part(f: FaceShape, sky: bool) -> bool {
    f.sky == sky && f.vertex_count >= 3
}

/// Vertices that the faces put in one part.
pub open spec fn part_vertices(faces: Seq<FaceShape>, sky: bool) -> nat
    decreases faces.len(),
{
    if faces.len() == 0 {
        0
    } else {
        part_vertices(faces.drop_last(), sky) + if in_part(faces.last(), sky) {
            faces.last().vertex_count as nat
        } else {
            0nat
        }
    }
}

/// Fan-triangulated indices of one part, its vertices numbered from `offset` in
/// face order.
pub open spec fn part_indices(faces: Seq<FaceShape>, sky: bool, offset: int) -> Seq<u32>
    decreases faces.len(),
{
    if faces.len() == 0 {
        Seq::empty()
    } else {
        let r = part_indices(faces.drop_last(), sky, offset);
        let f = faces.last();
        if in_part(f, sky) {
            r + fan_upto(offset + part_vertices(faces.drop_last(), sky), (f.vertex_count - 2) as nat)
        } else {
            r
        }
    }
}

/// Index buffer of a map: geometry triangles first, then sky triangles, whose
/// vertices follow all geometry vertices.
#[derive(Debug)]
pub struct MeshIndices {
    pub indices: Vec<u32>,
    /// Where the sky indices start.
    pub sky_index_offset: u32,
    /// Vertices of the geometry faces; the sky vertices follow them.
    pub geo_vertex_count: u32,
}

proof fn lemma_fan_bounds(base: int, m: nat)
    ensures
        fan_upto(base, m).len() == 3 * m,
        0 <= base && base + m + 1 <= u32::MAX ==> forall|k: int|
            0 <= k < fan_upto(base, m).len() ==> base <= #[trigger] fan_upto(base, m)[k] <= base + m + 1,
    decreases m,
{
    if m > 0 {
        lemma_fan_bounds(base, (m - 1) as nat);
        let r = fan_upto(base, (m - 1) as nat);
        if 0 <= base && base + m + 1 <= u32::MAX {
            assert forall|k: int| 0 <= k < fan_upto(base, m).len() implies base <= #[trigger] fan_upto(base, m)[k] <= base + m + 1 by {
                if k < r.len() {
                    assert(fan_upto(base, m)[k] == r[k]);
                }
            }
        }
    }
}

proof fn lemma_fan_shift(base: int, o: int, m: nat)
    requires
        0 <= base,
        0 <= o,
        base + o + m + 1 <= u32::MAX,
    ensures
        fan_upto(base + o, m).len() == fan_upto(base, m).len(),
        forall|k: int| 0 <= k < fan_upto(base, m).len() ==> #[trigger] fan_upto(base + o, m)[k] == fan_upto(base, m)[k] + o,
    decreases m,
{
    lemma_fan_bounds(base, m);
    lemma_fan_bounds(base + o, m);
    if m > 0 {
        lemma_fan_shift(base, o, (m - 1) as nat);
        let r = fan_upto(base, (m - 1) as nat);
        assert forall|k: int| 0 <= k < fan_upto(base, m).len() implies #[trigger] fan_upto(base + o, m)[k] == fan_upto(base, m)[k] + o by {
            if k < r.len() {
                assert(fan_upto(base, m)[k] == r[k]);
                assert(fan_upto(base + o, m)[k] == fan_upto(base + o, (m - 1) as nat)[k]);
            }
        }
    }
}

proof fn lemma_part_prefix(faces: Seq<FaceShape>, f: int, sky: bool)
    requires
        0 <= f <= faces.len(),
    ensures
        part_vertices(faces.take(f), sky) <= part_vertices(faces, sky),
    decreases faces.len() - f,
{
    if f < faces.len() {
        lemma_part_prefix(faces, f + 1, sky);
        assert(faces.take(f + 1).drop_last() =~= faces.take(f));
    } else {
        assert(faces.take(f) =~= faces);
    }
}

proof fn lemma_part_facts(faces: Seq<FaceShape>, sky: bool, offset: int)
    requires
        0 <= offset,
        offset + part_vertices(faces, sky) <= u32::MAX,
    ensures
        part_indices(faces, sky, offset).len() <= 3 * part_vertices(faces, sky),
        part_indices(faces, sky, offset).len() == part_indices(faces, sky, 0).len(),
        forall|k: int| 0 <= k < part_indices(faces, sky, offset).len() ==> offset <= #[trigger] part_indices(faces, sky, offset)[k] < offset + part_vertices(faces, sky),
        forall|k: int| 0 <= k < part_indices(faces, sky, 0).len() ==> #[trigger] part_indices(faces, sky, offset)[k] == part_indices(faces, sky, 0)[k] + offset,
    decreases faces.len(),
{
    if faces.len() > 0 {
        let f = faces.last();
        let r = part_indices(faces.drop_last(), sky, offset);
        let r0 = part_indices(faces.drop_last(), sky, 0);
        lemma_part_facts(faces.drop_last(), sky, offset);
        lemma_part_facts(faces.drop_last(), sky, 0);
        if in_part(f, sky) {
            let pv = part_vertices(faces.drop_last(), sky) as int;
            let m = (f.vertex_count - 2) as nat;
            lemma_fan_bounds(offset + pv, m);
            lemma_fan_bounds(pv, m);
            lemma_fan_shift(pv, offset, m);
            let fan = fan_upto(offset + pv, m);
            let fan0 = fan_upto(pv, m);
            assert forall|k: int| 0 <= k < part_indices(faces, sky, offset).len() implies offset <= #[trigger] part_indices(faces, sky, offset)[k] < offset + part_vertices(faces, sky) by {
                if k >= r.len() {
                    assert(part_indices(faces, sky, offset)[k] == fan[k - r.len()]);
                } else {
                    assert(part_indices(faces, sky, offset)[k] == r[k]);
                }
            }
            assert forall|k: int| 0 <= k < part_indices(faces, sky, 0).len() implies #[trigger] part_indices(faces, sky, offset)[k] == part_indices(faces, sky, 0)[k] + offset by {
                if k >= r0.len() {
                    assert(part_indices(faces, sky, offset)[k] == fan[k - r.len()]);
                    assert(part_indices(faces, sky, 0)[k] == fan0[k - r0.len()]);
                } else {
                    assert(part_indices(faces, sky, offset)[k] == r[k]);
                    assert(part_indices(faces, sky, 0)[k] == r0[k]);
                }
            }
        } else {
            assert forall|k: int| 0 <= k < part_indices(faces, sky, offset).len() implies offset <= #[trigger] part_indices(faces, sky, offset)[k] < offset + part_vertices(faces, sky) by {
                assert(part_indices(faces, sky, offset)[k] == r[k]);
            }
        }
    }
}

/// Triangle `i` (counted from 1) of an index sequence that starts at `start`.
pub open spec fn triangle(s: Seq<u32>, start: int, i: int) -> (int, int, int) {
    (s[start + 3 * (i - 1)] as int, s[start + 3 * (i - 1) + 1] as int, s[start + 3 * (i - 1) + 2] as int)
}

/// Fan law: the fan over vertices `base ..= base + m + 1` is `m` triangles,
/// and triangle `i` (counted from 1) is exactly `(base, base + i + 1, base +
/// i)`; every triangle has the first vertex `base` as its apex.
pub proof fn law_fan_triangles(base: int, m: nat)
    requires
        0 <= base,
        base + m + 1 <= u32::MAX,
    ensures
        fan_upto(base, m).len() == 3 * m,
        forall|i: int| 1 <= i <= m ==> #[trigger] triangle(fan_upto(base, m), 0, i) == (base, base + i + 1, base + i),
    decreases m,
{
    lemma_fan_bounds(base, m);
    if m > 0 {
        law_fan_triangles(base, (m - 1) as nat);
        let r = fan_upto(base, (m - 1) as nat);
        let f = fan_upto(base, m);
        assert(f == r + seq![base as u32, (base + m + 1) as u32, (base + m) as u32]);
        assert forall|i: int| 1 <= i <= m implies #[trigger] triangle(f, 0, i) == (base, base + i + 1, base + i) by {
            if i < m {
                assert(triangle(r, 0, i) == (base, base + i + 1, base + i));
                assert(f[3 * (i - 1)] == r[3 * (i - 1)]);
                assert(f[3 * (i - 1) + 1] == r[3 * (i - 1) + 1]);
                assert(f[3 * (i - 1) + 2] == r[3 * (i - 1) + 2]);
            } else {
                assert(3 * (i - 1) == r.len());
                assert(f[3 * (i - 1)] == base as u32);
                assert(f[3 * (i - 1) + 1] == (base + m + 1) as u32);
                assert(f[3 * (i - 1) + 2] == (base + m) as u32);
            }
        }
    }
}

/// Append the fan of an `n`-gon whose vertices start at `base`.
fn push_fan(out: &mut Vec<u32>, base: u32, n: usize)
    requires
        n >= 3,
        base + n <= u32::MAX,
        old(out)@.len() + 3 * n <= usize::MAX,
    ensures
        final(out)@ == old(out)@ + fan_upto(base as int, (n - 2) as nat),
        final(out)@.len() == old(out)@.len() + 3 * (n - 2),
        forall|i: int| 1 <= i <= n - 2 ==> #[trigger] triangle(final(out)@, old(out)@.len() as int, i) == (
            base as int,
            base + i + 1,
            base + i,
        ),
{
    let ghost start = old(out)@;
    let mut i: usize = 1;
    let last = n - 2;
    assert(start + fan_upto(base as int, 0) =~= start);
    while i <= last
        invariant
            1 <= i <= last + 1,
            last == n - 2,
            base + n <= u32::MAX,
            start.len() + 3 * n <= usize::MAX,
            out@ == start + fan_upto(base as int, (i - 1) as nat),
        decreases last + 1 - i,
    {
        proof {
            lemma_fan_bounds(base as int, (i - 1) as nat);
        }
        let iu = i as u32;
        out.push(base);
        out.push(base + iu + 1);
        out.push(base + iu);
        assert(out@ =~= start + fan_upto(base as int, i as nat));
        i = i + 1;
    }
    proof {
        let m = (n - 2) as nat;
        law_fan_triangles(base as int, m);
        let f = fan_upto(base as int, m);
        assert forall|i: int| 1 <= i <= n - 2 implies #[trigger] triangle(out@, start.len() as int, i) == (
            base as int,
            base + i + 1,
            base + i,
        ) by {
            assert(triangle(f, 0, i) == (base as int, base + i + 1, base + i));
            assert(out@[start.len() + 3 * (i - 1)] == f[3 * (i - 1)]);
            assert(out@[start.len() + 3 * (i - 1) + 1] == f[3 * (i - 1) + 1]);
            assert(out@[start.len() + 3 * (i - 1) + 2] == f[3 * (i - 1) + 2]);
        }
    }
}

/// Build the index buffer for the drawable faces, in face order: each polygon of
/// `n >= 3` vertices becomes the fan `(0, i+1, i)`, `i` in `1..n-1`, over its own
/// vertices. Geometry comes first; sky indices start at `sky_index_offset` and
/// refer to vertices placed after all geometry vertices.
pub fn build_indices(faces: &Vec<FaceShape>) -> (m: MeshIndices)
    requires
        part_vertices(faces@, false) + part_vertices(faces@, true) <= u32::MAX,
        3 * (part_vertices(faces@, false) + part_vertices(faces@, true)) <= u32::MAX,
    ensures
        m.geo_vertex_count == part_vertices(faces@, false),
        m.indices@ == part_indices(faces@, false, 0) + part_indices(
            faces@,
            true,
            part_vertices(faces@, false) as int,
        ),
        m.sky_index_offset == part_indices(faces@, false, 0).len(),
        m.sky_index_offset <= m.indices@.len(),
        forall|k: int| 0 <= k < m.indices@.len() ==> #[trigger] m.indices@[k] < part_vertices(faces@, false) + part_vertices(faces@, true),
        forall|k: int| 0 <= k < m.sky_index_offset ==> #[trigger] m.indices@[k] < m.geo_vertex_count,
        forall|k: int| m.sky_index_offset <= k < m.indices@.len() ==> m.geo_vertex_count <= #[trigger] m.indices@[k],
{
    let ghost fs = faces@;
    let ghost gv = part_vertices(fs, false);
    let ghost sv = part_vertices(fs, true);
    let mut geo: Vec<u32> = Vec::new();
    let mut sky: Vec<u32> = Vec::new();
    let mut geo_count: u32 = 0;
    let mut sky_count: u32 = 0;
    let mut f: usize = 0;
    while f < faces.len()
        invariant
            fs == faces@,
            f <= fs.len(),
            gv == part_vertices(fs, false),
            sv == part_vertices(fs, true),
            gv + sv <= u32::MAX,
            3 * (gv + sv) <= u32::MAX,
            geo_count == part_vertices(fs.take(f as int), false),
            sky_count == part_vertices(fs.take(f as int), true),
            geo@ == part_indices(fs.take(f as int), false, 0),
            sky@ == part_indices(fs.take(f as int), true, 0),
        decreases fs.len() - f,
    {
        let ghost pre = fs.take(f + 1);
        assert(pre.drop_last() =~= fs.take(f as int));
        assert(pre.last() == fs[f as int]);
        proof {
            lemma_part_prefix(fs, f + 1, false);
            lemma_part_prefix(fs, f + 1, true);
            lemma_part_facts(fs.take(f as int), false, 0);
            lemma_part_facts(fs.take(f as int), true, 0);
            lemma_part_prefix(fs, f as int, false);
            lemma_part_prefix(fs, f as int, true);
        }
        let n = faces[f].vertex_count;
        if n >= 3 {
            if faces[f].sky {
                push_fan(&mut sky, sky_count, n);
                sky_count = sky_count + n as u32;
            } else {
                push_fan(&mut geo, geo_count, n);
                geo_count = geo_count + n as u32;
            }
        }
        f = f + 1;
    }
    assert(fs.take(fs.len() as int) =~= fs);
    proof {
        lemma_part_facts(fs, false, 0);
        lemma_part_facts(fs, true, 0);
        lemma_part_facts(fs, true, gv as int);
    }
    let sky_index_offset = geo.len() as u32;
    let mut indices = geo;
    let ghost geo_part = indices@;
    let mut k: usize = 0;
    while k < sky.len()
        invariant
            gv == geo_count,
            gv + sv <= u32::MAX,
            3 * (gv + sv) <= u32::MAX,
            geo_part.len() <= 3 * gv,
            geo_part == part_indices(fs, false, 0),
            gv == part_vertices(fs, false),
            sv == part_vertices(fs, true),
            part_indices(fs, true, gv as int).len() == sky@.len(),
            sky@ == part_indices(fs, true, 0),
            sky@.len() <= 3 * sv,
            forall|q: int| 0 <= q < sky@.len() ==> #[trigger] sky@[q] < sv,
            forall|q: int| 0 <= q < sky@.len() ==> #[trigger] part_indices(fs, true, gv as int)[q] == sky@[q] + gv,
            k <= sky@.len(),
            indices@ == geo_part + part_indices(fs, true, gv as int).take(k as int),
        decreases sky@.len() - k,
    {
        let v = sky[k] + geo_count;
        let ghost before = indices@;
        indices.push(v);
        assert(part_indices(fs, true, gv as int).take(k + 1) =~= part_indices(fs, true, gv as int).take(k as int).push(v));
        assert(indices@ =~= geo_part + part_indices(fs, true, gv as int).take(k + 1));
        k = k + 1;
    }
    assert(part_indices(fs, true, gv as int).take(sky@.len() as int) =~= part_indices(fs, true, gv as int));
    assert forall|q: int| 0 <= q < indices@.len() implies #[trigger] indices@[q] < gv + sv by {
        if q < geo_part.len() {
            assert(indices@[q] == geo_part[q]);
        } else {
            assert(indices@[q] == part_indices(fs, true, gv as int)[q - geo_part.len()]);
        }
    }
    assert forall|q: int| 0 <= q < geo_part.len() implies #[trigger] indices@[q] < gv by {
        assert(indices@[q] == geo_part[q]);
    }
    assert forall|q: int| geo_part.len() <= q < indices@.len() implies gv <= #[trigger] indices@[q] by {
        assert(indices@[q] == part_indices(fs, true, gv as int)[q - geo_part.len()]);
    }
    MeshIndices { indices, sky_index_offset, geo_vertex_count: geo_count }
}

// ---------------------------------------------------------------------------
// Which textures and faces are drawn.
// ---------------------------------------------------------------------------

/// The names of the map's textures to load into the atlas: each lowercased,
/// never-drawn ones left out, in order.
pub open spec fn drawable_names(raw: Seq<Seq<char>>) -> Seq<Seq<char>>
    decreases raw.len(),
{
    if raw.len() == 0 {
        Seq::empty()
    } else {
        let rest = drawable_names(raw.drop_last());
        let n = lowercase(raw.last());
        if is_nodraw(n) {
            rest
        } else {
            rest.push(n)
        }
    }
}

/// Lowercase the map's texture names and drop the never-drawn ones.
pub fn drawable_texture_names(raw: &Vec<String>) -> (r: Vec<String>)
    ensures
        r@.map_values(|s: String| s@) == drawable_names(raw@.map_values(|s: String| s@)),
{
    let ghost rv = raw@.map_values(|s: String| s@);
    let mut out: Vec<String> = Vec::new();
    let mut k: usize = 0;
    while k < raw.len()
        invariant
            rv == raw@.map_values(|s: String| s@),
            k <= raw@.len(),
            out@.map_values(|s: String| s@) == drawable_names(rv.take(k as int)),
        decreases raw@.len() - k,
    {
        let ghost before = out@.map_values(|s: String| s@);
        let name = to_lower(raw[k].as_str());
        assert(rv.take(k + 1).drop_last() =~= rv.take(k as int));
        assert(rv.take(k + 1).last() == raw@[k as int]@);
        if !is_nodraw_name(name.as_str()) {
            out.push(name);
            assert(out@.map_values(|s: String| s@) =~= before.push(out@[out@.len() - 1]@));
        }
        k = k + 1;
    }
    assert(rv.take(raw@.len() as int) =~= rv);
    out
}

/// How a face of the world model is drawn: whether it is sky, and which atlas
/// slot its texture has.
#[derive(Clone, Copy, Debug)]
pub struct FacePlan {
    pub shape: FaceShape,
    pub slot: usize,
}

/// Position of the slot placed under the given name, the last one if several.
pub open spec fn slot_named(slots: Seq<AtlasSlot>, name: Seq<char>) -> Option<int> {
    if exists|i: int| 0 <= i < slots.len() && (#[trigger] slots[i]).name@ == name {
        Some(choose|i: int| 0 <= i < slots.len() && (#[trigger] slots[i]).name@ == name
            && forall|j: int| i < j < slots.len() ==> (#[trigger] slots[j]).name@ != name)
    } else {
        None
    }
}

/// The plan for a face: drawn unless its (lowercased) texture is a never-drawn
/// one, has no place in the atlas, or the polygon has fewer than three
/// vertices. It is sky when its surface flags say so or its texture name
/// starts with `sky`.
pub open spec fn face_plan(sky_flag: bool, name: Seq<char>, slots: Seq<AtlasSlot>, vertex_count: nat) -> Option<(bool, int)> {
    let n = lowercase(name);
    if is_nodraw(n) || slot_named(slots, n) is None || vertex_count < 3 {
        None
    } else {
        Some((sky_flag || is_sky_texture(n), slot_named(slots, n)->0))
    }
}

/// Find the last atlas slot placed under the given name.
pub fn find_slot(slots: &Vec<AtlasSlot>, name: &str) -> (r: Option<usize>)
    ensures
        r matches Some(i) ==> slot_named(slots@, name@) == Some(i as int),
        r is None ==> slot_named(slots@, name@) is None,
{
    let want = chars_of(name);
    let mut k: usize = slots.len();
    while k > 0
        invariant
            want@ == name@,
            k <= slots@.len(),
            forall|j: int| k <= j < slots@.len() ==> (#[trigger] slots@[j]).name@ != name@,
        decreases k,
    {
        let have = chars_of(slots[k - 1].name.as_str());
        if same_text(&have, &want) {
            let i = k - 1;
            proof {
                let c = choose|q: int| 0 <= q < slots@.len() && (#[trigger] slots@[q]).name@ == name@
                    && forall|j: int| q < j < slots@.len() ==> (#[trigger] slots@[j]).name@ != name@;
                if c != i {
                    if c < i {
                        assert(slots@[i as int].name@ != name@);
                    } else {
                        assert(slots@[c].name@ != name@);
                    }
                }
            }
            return Some(i);
        }
        k = k - 1;
    }
    None
}

/// Decide how a face of the world model is drawn, from its surface's sky flag,
/// its texture name as stored in the map, the atlas slots and its vertex count.
pub fn plan_face(sky_flag: bool, texture_name: &str, slots: &Vec<AtlasSlot>, vertex_count: usize) -> (r: Option<FacePlan>)
    ensures
        match face_plan(sky_flag, texture_name@, slots@, vertex_count as nat) {
            Some((sky, slot)) => r matches Some(p) && p.shape.sky == sky && p.shape.vertex_count == vertex_count
                && p.slot == slot,
            None => r is None,
        },
{
    let name = to_lower(texture_name);
    if is_nodraw_name(name.as_str()) {
        return None;
    }
    let slot = match find_slot(slots, name.as_str()) {
        Some(i) => i,
        None => {
            return None;
        },
    };
    if vertex_count < 3 {
        return None;
    }
    let sky = sky_flag || is_sky_name(name.as_str());
    Some(FacePlan { shape: FaceShape { sky, vertex_count }, slot })
}

// ---------------------------------------------------------------------------
// The entity lump.
// ---------------------------------------------------------------------------

/// The entity lump's bytes as text: each byte loses its high bit (the
/// alternate character set), and a final NUL is dropped.
pub open spec fn quake_text(b: Seq<u8>) -> Seq<char> {
    let body = if b.len() > 0 && b.last() % 128 == 0 {
        b.drop_last()
    } else {
        b
    };
    Seq::new(body.len(), |i: int| (body[i] % 128) as char)
}

/// `qbsp::util::quake_string_to_utf8_lossy` on a copy of the lump: it clears
/// the high bit of every byte, then drops a final NUL.
#[verifier::external_body]
fn quake_string_text(raw: &[u8]) -> (s: String)
    ensures
        s@ == quake_text(raw@),
{
    let mut copy = raw.to_vec();
    qbsp::util::quake_string_to_utf8_lossy(&mut copy).to_owned()
}

/// What the map loader takes from the entity lump: the camera waypoints (or
/// how many there were, when too few) and the file names of the WADs that
/// `worldspawn` lists.
#[derive(Debug)]
pub struct EntityLumpInfo {
    pub waypoints: Result<Vec<OriginText>, usize>,
    pub wad_files: Vec<String>,
}

/// Read the entity lump's raw bytes: decode them, collect the waypoints and
/// the WAD file names of `worldspawn` (none when it has no `wad` key).
pub fn read_entity_lump(raw: &[u8]) -> (info: EntityLumpInfo)
    ensures
        ({
            let text = quake_text(raw@);
            let w = lump_waypoints(text);
            &&& (if w.len() < 4 {
                info.waypoints == Err::<Vec<OriginText>, usize>(w.len() as usize)
            } else {
                info.waypoints matches Ok(v) && v@.map_values(|o: OriginText| o@) == w
            })
            &&& info.wad_files@.map_values(|f: String| f@) == match blocks_worldspawn_wad(split_on(text, '{')) {
                Some(v) => wad_names_of(split_on(v, ';')),
                None => Seq::empty(),
            }
        }),
{
    let text = quake_string_text(raw);
    let waypoints = extract_waypoints(text.as_str());
    let wad_files = match find_worldspawn_wad(text.as_str()) {
        Some(v) => wad_file_names(v.as_str()),
        None => Vec::new(),
    };
    EntityLumpInfo { waypoints, wad_files }
}

// ---------------------------------------------------------------------------
// Where the named WAD files are.
// ---------------------------------------------------------------------------

/// The install's directories searched for WAD files, in order: `cstrike`,
/// `czero`, then `valve`.
pub open spec fn wad_dir(k: int) -> Seq<char> {
    if k == 0 {
        seq!['c', 's', 't', 'r', 'i', 'k', 'e']
    } else if k == 1 {
        seq!['c', 'z', 'e', 'r', 'o']
    } else {
        seq!['v', 'a', 'l', 'v', 'e']
    }
}

/// `<install>/<dir k>/<file>`.
pub open spec fn wad_candidate(install: Seq<char>, k: int, file: Seq<char>) -> Seq<char> {
    joined(joined(install, wad_dir(k)), file)
}

/// The paths of the first `n` WAD files: for each, the first search directory
/// where it exists (`exists[i][k]`); files found nowhere are left out.
pub open spec fn found_wads(install: Seq<char>, files: Seq<String>, exists: Seq<[bool; 3]>, n: int) -> Seq<Seq<char>>
    decreases n,
{
    if n <= 0 {
        Seq::empty()
    } else {
        let before = found_wads(install, files, exists, n - 1);
        let e = exists[n - 1];
        let f = files[n - 1]@;
        if e[0] {
            before.push(wad_candidate(install, 0, f))
        } else if e[1] {
            before.push(wad_candidate(install, 1, f))
        } else if e[2] {
            before.push(wad_candidate(install, 2, f))
        } else {
            before
        }
    }
}

/// The path of WAD file `file` under search directory `k`.
pub fn wad_candidate_path(cs_install_path: &str, k: usize, file: &str) -> (p: String)
    requires
        k < 3,
    ensures
        p@ == wad_candidate(cs_install_path@, k as int, file@),
{
    let mut path = chars_of(cs_install_path);
    if k == 0 {
        join_chars(&mut path, &['c', 's', 't', 'r', 'i', 'k', 'e']);
    } else if k == 1 {
        join_chars(&mut path, &['c', 'z', 'e', 'r', 'o']);
    } else {
        join_chars(&mut path, &['v', 'a', 'l', 'v', 'e']);
    }
    let name = chars_of(file);
    join_chars(&mut path, name.as_slice());
    crate::text::string_from_chars(path.as_slice())
}

/// Pick each WAD file's path given where it exists (`exists[i][k]` for file
/// `i` and search directory `k`): the first directory that has it.
pub fn choose_wad_paths(cs_install_path: &str, files: &Vec<String>, exists: &Vec<[bool; 3]>) -> (r: Vec<String>)
    requires
        exists@.len() == files@.len(),
    ensures
        r@.map_values(|p: String| p@) == found_wads(
            cs_install_path@,
            files@,
            exists@,
            files@.len() as int,
        ),
{
    let mut out: Vec<String> = Vec::new();
    let mut i: usize = 0;
    while i < files.len()
        invariant
            exists@.len() == files@.len(),
            i <= files@.len(),
            out@.map_values(|p: String| p@) == found_wads(cs_install_path@, files@, exists@, i as int),
        decreases files@.len() - i,
    {
        let ghost before = out@.map_values(|p: String| p@);
        let e = exists[i];
        let k: usize = if e[0] {
            0
        } else if e[1] {
            1
        } else if e[2] {
            2
        } else {
            3
        };
        if k < 3 {
            let p = wad_candidate_path(cs_install_path, k, files[i].as_str());
            out.push(p);
            assert(out@.map_values(|p: String| p@) =~= before.push(out@[out@.len() - 1]@));
        }
        i = i + 1;
    }
    out
}

/// Locate the named WAD files under the install: each in `cstrike/`, else
/// `czero/`, else `valve/`, whichever first has it; files found in none are
/// left out. Each returned path is one of the file's candidates, in the
/// files' order.
pub fn resolve_wad_paths(cs_install_path: &str, files: &Vec<String>) -> (r: Vec<String>)
    ensures
        exists|exists: Seq<[bool; 3]>|
            exists.len() == files@.len() && r@.map_values(|p: String| p@) == #[trigger] found_wads(
                cs_install_path@,
                files@,
                exists,
                files@.len() as int,
            ),
{
    let mut exists: Vec<[bool; 3]> = Vec::new();
    let mut i: usize = 0;
    while i < files.len()
        invariant
            i <= files@.len(),
            exists@.len() == i,
        decreases files@.len() - i,
    {
        let a = wad_candidate_path(cs_install_path, 0, files[i].as_str());
        let b = wad_candidate_path(cs_install_path, 1, files[i].as_str());
        let c = wad_candidate_path(cs_install_path, 2, files[i].as_str());
        exists.push([path_exists(a.as_str()), path_exists(b.as_str()), path_exists(c.as_str())]);
        i = i + 1;
    }
    choose_wad_paths(cs_install_path, files, &exists)
}

} // verus!

//! Reading a BSP file: qbsp parses it, and the parts that the map loader
//! decides on (the entity lump, the texture names, and for each face of the
//! world model its sky flag, texture name and vertex count) are taken out as
//! plain values. The plan of the mesh (which world faces are drawn, as sky or
//! not, with which atlas slot, and the index buffer) is computed from them.
use vstd::prelude::*;
use crate::bsp::parse::{
    face_plan, part_indices, part_vertices, plan_face, build_indices, FacePlan, FaceShape, MeshIndices,
};
use crate::bsp::wad::AtlasSlot;
use crate::text::string_from_chars;
use qbsp::{BspData, BspParseInput};

verus! {

broadcast use vstd::string::group_string_axioms;

/// The parts of a parsed BSP file that the map loader reads.
#[derive(Debug)]
pub struct BspSummary {
    /// The entity lump, as stored.
    pub entities: Vec<u8>,
    /// The name of each embedded texture entry (`None` for an empty entry).
    pub textures: Vec<Option<String>>,
    /// For each texture info: its surface flag bits and the name of the
    /// texture it refers to, if any.
    pub tex_infos: Vec<(u32, Option<String>)>,
    /// For each face: the index of its texture info and its number of edges
    /// (which is its number of vertices).
    pub faces: Vec<(u32, u32)>,
    /// The first model (the world): its first face and its number of faces.
    pub world: Option<(u32, u32)>,
}

/// Mathematical view of a [`BspSummary`].
pub struct BspSummarySpec {
    pub entities: Seq<u8>,
    pub textures: Seq<Option<Seq<char>>>,
    pub tex_infos: Seq<(u32, Option<Seq<char>>)>,
    pub faces: Seq<(u32, u32)>,
    pub world: Option<(u32, u32)>,
}

/// An optional string by its view.
pub open spec fn opt_text(t: Option<String>) -> Option<Seq<char>> {
    match t {
        Some(s) => Some(s@),
        None => None,
    }
}

impl View for BspSummary {
    type V = BspSummarySpec;

    open spec fn view(&self) -> BspSummarySpec {
        BspSummarySpec {
            entities: self.entities@,
            textures: self.textures@.map_values(|t: Option<String>| opt_text(t)),
            tex_infos: self.tex_infos@.map_values(|t: (u32, Option<String>)| (t.0, opt_text(t.1))),
            faces: self.faces@,
            world: self.world,
        }
    }
}

/// A summary as the parser wrapper hands it over: textures, texture infos,
/// faces, world model and entity lump.
pub type SummaryParts = (Vec<Option<String>>, Vec<(u32, Option<String>)>, Vec<(u32, u32)>, Option<(u32, u32)>, Vec<u8>);

/// The summary that the parts make up.
pub open spec fn parts_view(p: SummaryParts) -> BspSummarySpec {
    BspSummary { textures: p.0, tex_infos: p.1, faces: p.2, world: p.3, entities: p.4 }@
}

/// What qbsp's BSP parser makes of a file's bytes, as a summary, or the text
/// of its error.
pub uninterp spec fn bsp_summary(bytes: Seq<u8>) -> Result<BspSummarySpec, Seq<char>>;

/// `qbsp::BspData::parse` on the bytes, with default settings and no `.lit`
/// file, summarised: the entity lump, each texture entry's name, each texture
/// info's surface flags and texture name (by `BspData::get_texture_name`),
/// each face's texture info and edge count, and the first model's face range;
/// or the parse error's text. The parser reads nothing but the bytes; what it
/// gives is named, not stated. The parser panics (in `read_lump`) on a
/// fixed-size lump inside the file whose length is not a whole number of
/// entries, and (with overflow checks) on a lump entry whose end overflows 32
/// bits; `bsp30_readable` rules those out, and keeps to GoldSrc maps without a
/// BSPX extension, the parts of the parser read here. Embedded texture sizes
/// are multiplied in `usize`, which cannot overflow on the 64-bit targets the
/// program is built for.
#[verifier::external_body]
fn parse_bsp_summary(bytes: &[u8]) -> (r: Result<SummaryParts, String>)
    requires
        bsp30_readable(bytes@),
    ensures
        match r {
            Ok(p) => bsp_summary(bytes@) == Ok::<BspSummarySpec, Seq<char>>(parts_view(p)),
            Err(e) => bsp_summary(bytes@) == Err::<BspSummarySpec, Seq<char>>(e@),
        },
{
    BspData::parse(BspParseInput { bsp: bytes, lit: None, settings: Default::default() }).map(|b| (
        b.textures.iter().map(|t| Some(t.as_ref()?.header.name.as_str().into())).collect(),
        b.tex_info.iter().map(|t| (t.flags.surface_flags.bits(), b.get_texture_name(t).map(|n| n.as_str().into()))).collect(),
        b.faces.iter().map(|f| (f.texture_info_idx.0, f.num_edges.0)).collect(),
        b.models.first().map(|m| (m.first_face, m.num_faces)),
        b.entities,
    )).map_err(|e| e.to_string())
}

/// The range of faces of the world model, as integers (empty without one).
pub open spec fn world_range(s: BspSummarySpec) -> (int, int) {
    match s.world {
        Some((first, count)) => (first as int, count as int),
        None => (0, 0),
    }
}

/// Whether the summary can be read without going out of bounds: there is a
/// world model, its faces exist, and each refers to an existing texture info.
pub open spec fn summary_wf(s: BspSummarySpec) -> bool {
    &&& s.world is Some
    &&& world_range(s).0 + world_range(s).1 <= s.faces.len()
    &&& forall|i: int| world_range(s).0 <= i < world_range(s).0 + world_range(s).1 ==> (#[trigger] s.faces[i]).0
        < s.tex_infos.len()
}

/// The text of the error for a BSP whose world model does not fit its lumps.
pub open spec fn malformed_bsp_text() -> Seq<char> {
    seq!['m', 'a', 'l', 'f', 'o', 'r', 'm', 'e', 'd', ' ', 'B', 'S', 'P']
}

/// Whether the summary is well-formed.
pub fn summary_is_wf(s: &BspSummary) -> (b: bool)
    ensures
        b == summary_wf(s@),
{
    let (w0, w1) = match s.world {
        Some(w) => w,
        None => {
            return false;
        },
    };
    let first = w0 as usize;
    let count = w1 as usize;
    if first > s.faces.len() || count > s.faces.len() - first {
        return false;
    }
    let end = first + count;
    let mut i: usize = first;
    while i < end
        invariant
            s.world == Some((w0, w1)),
            first == w0 as usize,
            count == w1 as usize,
            end == first + count,
            first + count <= s.faces@.len(),
            first <= i <= first + count,
            forall|j: int| first <= j < i ==> (#[trigger] s@.faces[j]).0 < s@.tex_infos.len(),
        decreases end - i,
    {
        if s.faces[i].0 as usize >= s.tex_infos.len() {
            assert(s@.faces[i as int] == s.faces@[i as int]);
            assert(world_range(s@) == (first as int, count as int));
            assert(!(s@.faces[i as int].0 < s@.tex_infos.len()));
            return false;
        }
        i = i + 1;
    }
    true
}

// ---------------------------------------------------------------------------
// Which files are handed to the parser.
// ---------------------------------------------------------------------------

/// Unsigned little-endian 32-bit number at byte `o`.
pub open spec fn le32(b: Seq<u8>, o: int) -> int {
    b[o] + b[o + 1] * 0x100 + b[o + 2] * 0x1_0000 + b[o + 3] * 0x100_0000
}

/// Whether the file starts with the GoldSrc (BSP30) version number 30.
pub open spec fn bsp30_magic(b: Seq<u8>) -> bool {
    b.len() >= 4 && b[0] == 0x1E && b[1] == 0 && b[2] == 0 && b[3] == 0
}

/// Number of lump entries in a BSP30 header.
pub const LUMP_COUNT: usize = 15;

/// Offset of lump `k`, from the header.
pub open spec fn lump_offset(b: Seq<u8>, k: int) -> int {
    le32(b, 4 + 8 * k)
}

/// Length of lump `k`, from the header.
pub open spec fn lump_len(b: Seq<u8>, k: int) -> int {
    le32(b, 8 + 8 * k)
}

/// Size of one entry of lump `k` in a BSP30 file (planes, vertices, nodes,
/// texture infos, faces, clip nodes, leaves, mark surfaces, edges, surface
/// edges, models); 0 for the lumps of no fixed entry size (entities,
/// textures, visibility, lighting).
pub open spec fn lump_entry_size(k: int) -> int {
    if k == 1 {
        20
    } else if k == 3 {
        12
    } else if k == 5 {
        24
    } else if k == 6 {
        40
    } else if k == 7 {
        20
    } else if k == 9 {
        8
    } else if k == 10 {
        28
    } else if k == 11 {
        2
    } else if k == 12 {
        4
    } else if k == 13 {
        4
    } else if k == 14 {
        64
    } else {
        0
    }
}

/// The furthest end of the first `n` lumps.
pub open spec fn lumps_end(b: Seq<u8>, n: int) -> int
    decreases n,
{
    if n <= 0 {
        0
    } else {
        let e = lump_offset(b, n - 1) + lump_len(b, n - 1);
        let m = lumps_end(b, n - 1);
        if e > m {
            e
        } else {
            m
        }
    }
}

/// Where a BSPX directory would start: the end of the lumps, rounded up to a
/// multiple of four.
pub open spec fn bspx_offset(b: Seq<u8>) -> int {
    (lumps_end(b, LUMP_COUNT as int) + 3) / 4 * 4
}

/// Whether the bytes at `p` spell `BSPX`.
pub open spec fn bspx_at(b: Seq<u8>, p: int) -> bool {
    p + 4 <= b.len() && b[p] == 0x42 && b[p + 1] == 0x53 && b[p + 2] == 0x50 && b[p + 3] == 0x58
}

/// Whether the file is handed to the parser: a GoldSrc (BSP30) map whose
/// header, when complete, has no lump ending past 32 bits, no fixed-size lump
/// inside the file whose length is not a whole number of entries, and no
/// BSPX extension after the lumps.
pub open spec fn bsp30_readable(b: Seq<u8>) -> bool {
    &&& bsp30_magic(b)
    &&& b.len() >= 4 + 8 * LUMP_COUNT ==> {
        &&& forall|k: int| 0 <= k < LUMP_COUNT ==> #[trigger] lump_offset(b, k) + lump_len(b, k) <= u32::MAX
        &&& forall|k: int|
            0 <= k < LUMP_COUNT && lump_entry_size(k) > 0 && lump_offset(b, k) + lump_len(b, k) <= b.len()
                ==> #[trigger] lump_len(b, k) % lump_entry_size(k) == 0
        &&& !bspx_at(b, bspx_offset(b))
    }
}

/// The text of the error for a file that is not handed to the parser.
pub open spec fn unsupported_bsp_text() -> Seq<char> {
    seq!['u', 'n', 's', 'u', 'p', 'p', 'o', 'r', 't', 'e', 'd', ' ', 'B', 'S', 'P']
}

fn u32_at(b: &[u8], o: usize) -> (v: u64)
    requires
        o + 4 <= b@.len(),
    ensures
        v == le32(b@, o as int),
{
    b[o] as u64 + b[o + 1] as u64 * 0x100 + b[o + 2] as u64 * 0x1_0000 + b[o + 3] as u64 * 0x100_0000
}

fn entry_size(k: usize) -> (s: u64)
    ensures
        s == lump_entry_size(k as int),
{
    if k == 1 {
        20
    } else if k == 3 {
        12
    } else if k == 5 {
        24
    } else if k == 6 {
        40
    } else if k == 7 {
        20
    } else if k == 9 {
        8
    } else if k == 10 {
        28
    } else if k == 11 {
        2
    } else if k == 12 {
        4
    } else if k == 13 {
        4
    } else if k == 14 {
        64
    } else {
        0
    }
}

/// Whether the file is handed to the parser (`bsp30_readable`).
pub fn bsp30_is_readable(b: &[u8]) -> (ok: bool)
    ensures
        ok == bsp30_readable(b@),
{
    if b.len() < 4 || b[0] != 0x1E || b[1] != 0 || b[2] != 0 || b[3] != 0 {
        return false;
    }
    if b.len() < 4 + 8 * LUMP_COUNT {
        return true;
    }
    let mut end: u64 = 0;
    let mut k: usize = 0;
    while k < LUMP_COUNT
        invariant
            b@.len() >= 4 + 8 * LUMP_COUNT,
            k <= LUMP_COUNT,
            end == lumps_end(b@, k as int),
            end <= u32::MAX,
            forall|j: int| 0 <= j < k ==> #[trigger] lump_offset(b@, j) + lump_len(b@, j) <= u32::MAX,
            forall|j: int|
                0 <= j < k && lump_entry_size(j) > 0 && lump_offset(b@, j) + lump_len(b@, j) <= b@.len()
                    ==> #[trigger] lump_len(b@, j) % lump_entry_size(j) == 0,
        decreases LUMP_COUNT - k,
    {
        let off = u32_at(b, 4 + 8 * k);
        let len = u32_at(b, 8 + 8 * k);
        assert(off == lump_offset(b@, k as int) && len == lump_len(b@, k as int));
        if off + len > 0xffff_ffff {
            return false;
        }
        let size = entry_size(k);
        if size > 0 && off + len <= b.len() as u64 && len % size != 0 {
            return false;
        }
        if off + len > end {
            end = off + len;
        }
        k = k + 1;
    }
    let p = (end + 3) / 4 * 4;
    assert(p == bspx_offset(b@));
    !(p + 4 <= b.len() as u64 && b[p as usize] == 0x42 && b[p as usize + 1] == 0x53 && b[p as usize + 2] == 0x50
        && b[p as usize + 3] == 0x58)
}

/// Parse a BSP file's bytes with qbsp and take out what the map loader reads.
/// A file that is not a GoldSrc map the parser can take whole (see
/// `bsp30_readable`) gives `unsupported BSP`; the parser's error comes back
/// as its text; a map whose world model refers to faces or texture infos that
/// are not there gives `malformed BSP`.
pub fn read_bsp(bytes: &[u8]) -> (r: Result<BspSummary, String>)
    ensures
        !bsp30_readable(bytes@) ==> (r matches Err(e) && e@ == unsupported_bsp_text()),
        bsp30_readable(bytes@) ==> match bsp_summary(bytes@) {
            Ok(s) => if summary_wf(s) {
                r matches Ok(v) && v@ == s
            } else {
                r matches Err(e) && e@ == malformed_bsp_text()
            },
            Err(e) => r matches Err(m) && m@ == e,
        },
{
    if !bsp30_is_readable(bytes) {
        let m = string_from_chars(&['u', 'n', 's', 'u', 'p', 'p', 'o', 'r', 't', 'e', 'd', ' ', 'B', 'S', 'P']);
        return Err(m);
    }
    match parse_bsp_summary(bytes) {
        Ok(p) => {
            let s = BspSummary { textures: p.0, tex_infos: p.1, faces: p.2, world: p.3, entities: p.4 };
            if summary_is_wf(&s) {
                Ok(s)
            } else {
                let m = string_from_chars(&['m', 'a', 'l', 'f', 'o', 'r', 'm', 'e', 'd', ' ', 'B', 'S', 'P']);
                Err(m)
            }
        },
        Err(e) => Err(e),
    }
}

/// The names of the embedded textures, empty entries left out, in order.
pub open spec fn present_names(t: Seq<Option<Seq<char>>>) -> Seq<Seq<char>>
    decreases t.len(),
{
    if t.len() == 0 {
        Seq::empty()
    } else {
        let r = present_names(t.drop_last());
        match t.last() {
            Some(n) => r.push(n),
            None => r,
        }
    }
}

/// The names of the map's embedded texture entries, empty ones left out.
pub fn bsp_texture_names(s: &BspSummary) -> (r: Vec<String>)
    ensures
        r@.map_values(|n: String| n@) == present_names(s@.textures),
{
    let ghost tv = s@.textures;
    let mut out: Vec<String> = Vec::new();
    let mut k: usize = 0;
    while k < s.textures.len()
        invariant
            tv == s@.textures,
            k <= s.textures@.len(),
            out@.map_values(|n: String| n@) == present_names(tv.take(k as int)),
        decreases s.textures@.len() - k,
    {
        let ghost before = out@.map_values(|n: String| n@);
        assert(tv.take(k + 1).drop_last() =~= tv.take(k as int));
        assert(tv.take(k + 1).last() == opt_text(s.textures@[k as int]));
        match &s.textures[k] {
            Some(n) => {
                out.push(n.clone());
                assert(out@.map_values(|q: String| q@) =~= before.push(n@));
            },
            None => {},
        }
        k = k + 1;
    }
    assert(tv.take(s.textures@.len() as int) =~= tv);
    out
}

/// The surface flag that marks a sky face (`BspSurfaceFlags::SKY`).
pub const SURF_SKY: u32 = 4;

/// Face `i` of the file: whether its surface flags mark sky, its texture's
/// name (empty when it has none) and its vertex count.
pub open spec fn face_info(s: BspSummarySpec, i: int) -> (bool, Seq<char>, nat) {
    let f = s.faces[i];
    let t = s.tex_infos[f.0 as int];
    (
        t.0 & SURF_SKY != 0,
        match t.1 {
            Some(n) => n,
            None => Seq::empty(),
        },
        f.1 as nat,
    )
}

/// A world face that is drawn: its face index and its plan.
#[derive(Clone, Copy, Debug)]
pub struct PlannedFace {
    pub face: usize,
    pub plan: FacePlan,
}

/// A planned face as `(face, sky, slot, vertex count)`.
pub open spec fn planned_view(p: PlannedFace) -> (int, bool, int, nat) {
    (p.face as int, p.plan.shape.sky, p.plan.slot as int, p.plan.shape.vertex_count as nat)
}

/// The drawn faces among the first `n` faces of the world model, in order,
/// as `(face, sky, slot, vertex count)`, each planned by `face_plan`.
pub open spec fn planned_faces(s: BspSummarySpec, slots: Seq<AtlasSlot>, n: int) -> Seq<(int, bool, int, nat)>
    decreases n,
{
    if n <= 0 {
        Seq::empty()
    } else {
        let rest = planned_faces(s, slots, n - 1);
        let i = world_range(s).0 + n - 1;
        let (sky_flag, name, count) = face_info(s, i);
        match face_plan(sky_flag, name, slots, count) {
            Some((sky, slot)) => rest.push((i, sky, slot, count)),
            None => rest,
        }
    }
}

/// The shapes of planned faces.
pub open spec fn planned_shapes(p: Seq<(int, bool, int, nat)>) -> Seq<FaceShape> {
    p.map_values(|q: (int, bool, int, nat)| FaceShape { sky: q.1, vertex_count: q.3 as usize })
}

/// Vertices of all planned faces that reach the index buffer.
pub open spec fn planned_vertex_total(p: Seq<(int, bool, int, nat)>) -> nat {
    part_vertices(planned_shapes(p), false) + part_vertices(planned_shapes(p), true)
}

/// The plan of a map's mesh: the drawn world faces and the index buffer that
/// their vertices, geometry faces first and sky faces after, give.
#[derive(Debug)]
pub struct MeshPlan {
    pub faces: Vec<PlannedFace>,
    pub indices: MeshIndices,
}

proof fn lemma_part_vertices_prefix(faces: Seq<FaceShape>, sky: bool, k: int)
    requires
        0 <= k <= faces.len(),
    ensures
        part_vertices(faces.take(k), sky) <= part_vertices(faces, sky),
    decreases faces.len(),
{
    if k < faces.len() {
        assert(faces.drop_last().take(k) =~= faces.take(k));
        lemma_part_vertices_prefix(faces.drop_last(), sky, k);
    } else {
        assert(faces.take(k) =~= faces);
    }
}

/// Plan the mesh of the world model: each of its faces is planned by
/// `plan_face` from its sky flag, texture name and vertex count against the
/// atlas slots, and the drawn ones give the index buffer. `None` when their
/// vertices are too many for 32-bit triangle indices (three times the total
/// above `u32::MAX`).
pub fn plan_mesh(s: &BspSummary, slots: &Vec<AtlasSlot>) -> (r: Option<MeshPlan>)
    requires
        summary_wf(s@),
    ensures
        ({
            let p = planned_faces(s@, slots@, world_range(s@).1);
            let shapes = planned_shapes(p);
            match r {
                Some(m) => {
                    &&& m.faces@.map_values(|q: PlannedFace| planned_view(q)) == p
                    &&& m.indices.geo_vertex_count == part_vertices(shapes, false)
                    &&& m.indices.indices@ == part_indices(shapes, false, 0) + part_indices(
                        shapes,
                        true,
                        part_vertices(shapes, false) as int,
                    )
                    &&& m.indices.sky_index_offset == part_indices(shapes, false, 0).len()
                },
                None => 3 * planned_vertex_total(p) > u32::MAX,
            }
        }),
{
    let ghost sv = s@;
    let (w0, w1) = match s.world {
        Some(w) => w,
        None => {
            return None;
        },
    };
    let first = w0 as usize;
    let count = w1 as usize;
    assert(world_range(sv) == (first as int, count as int));
    assert(first + count <= s.faces@.len());
    let mut faces: Vec<PlannedFace> = Vec::new();
    let mut shapes: Vec<FaceShape> = Vec::new();
    let mut k: usize = 0;
    while k < count
        invariant
            sv == s@,
            summary_wf(sv),
            world_range(sv) == (first as int, count as int),
            first + count <= s.faces.len(),
            k <= count,
            faces@.map_values(|q: PlannedFace| planned_view(q)) == planned_faces(sv, slots@, k as int),
            shapes@ == planned_shapes(planned_faces(sv, slots@, k as int)),
        decreases count - k,
    {
        let ghost before = faces@.map_values(|q: PlannedFace| planned_view(q));
        let ghost before_shapes = shapes@;
        let i = first + k;
        assert(sv.faces[i as int] == s.faces@[i as int]);
        let (ti, edges) = s.faces[i];
        let info = &s.tex_infos[ti as usize];
        assert(sv.tex_infos[ti as int] == (info.0, opt_text(info.1)));
        let sky_flag = info.0 & SURF_SKY != 0;
        let empty = "";
        proof {
            reveal_strlit("");
        }
        let name: &str = match &info.1 {
            Some(n) => n.as_str(),
            None => empty,
        };
        assert(face_info(sv, i as int) == (sky_flag, name@, edges as nat));
        match plan_face(sky_flag, name, slots, edges as usize) {
            Some(plan) => {
                let pf = PlannedFace { face: i, plan };
                faces.push(pf);
                shapes.push(plan.shape);
                assert(faces@.map_values(|q: PlannedFace| planned_view(q)) =~= before.push(planned_view(pf)));
                assert(shapes@ =~= planned_shapes(planned_faces(sv, slots@, k + 1)));
            },
            None => {
                assert(faces@.map_values(|q: PlannedFace| planned_view(q)) =~= before);
            },
        }
        k = k + 1;
    }
    let ghost shp = shapes@;
    let ghost p = planned_faces(sv, slots@, count as int);
    assert(p == planned_faces(s@, slots@, world_range(s@).1));
    let mut geo: u64 = 0;
    let mut sky: u64 = 0;
    let mut j: usize = 0;
    assert(shp.take(0) =~= Seq::<FaceShape>::empty());
    while j < shapes.len()
        invariant
            shp == shapes@,
            shp == planned_shapes(p),
            p == planned_faces(s@, slots@, world_range(s@).1),
            j <= shp.len(),
            geo == part_vertices(shp.take(j as int), false),
            sky == part_vertices(shp.take(j as int), true),
            3 * (geo + sky) <= u32::MAX,
        decreases shp.len() - j,
    {
        assert(shp.take(j + 1).drop_last() =~= shp.take(j as int));
        assert(shp.take(j + 1).last() == shp[j as int]);
        let f = shapes[j];
        if f.vertex_count >= 3 {
            if f.vertex_count as u64 > 0x5555_5555 {
                proof {
                    lemma_part_vertices_prefix(shp, f.sky, j + 1);
                    lemma_part_vertices_prefix(shp, !f.sky, j + 1);
                    lemma_part_vertices_prefix(shp, f.sky, j as int);
                }
                return None;
            }
            if f.sky {
                sky = sky + f.vertex_count as u64;
            } else {
                geo = geo + f.vertex_count as u64;
            }
        }
        assert(geo == part_vertices(shp.take(j + 1), false));
        assert(sky == part_vertices(shp.take(j + 1), true));
        if 3 * (geo + sky) > 0xffff_ffff {
            proof {
                lemma_part_vertices_prefix(shp, false, j + 1);
                lemma_part_vertices_prefix(shp, true, j + 1);
            }
            return None;
        }
        j = j + 1;
    }
    assert(shp.take(shp.len() as int) =~= shp);
    let indices = build_indices(&shapes);
    Some(MeshPlan { faces, indices })
}

} // verus!

//! Counter-Strike NAV mesh files (versions 2 and up, with the version 5 place
//! directory): a little-endian binary reader, and the depth-first ordering of the
//! areas that the camera path follows.
//!
//! Corner coordinates are carried as their raw IEEE-754 bit patterns; turning them
//! into area centres is left to the caller.
use vstd::prelude::*;
use crate::capture::{decimal, decimal_chars};
use crate::maplist::push_chars;
use crate::text::string_from_chars;

verus! {

/// Magic number that opens every NAV file.
pub const NAV_MAGIC: u32 = 0xFEED_FACE;

/// Why a NAV file was refused.
#[derive(Debug, Clone, Copy, PartialEq, Eq, Structural)]
pub enum NavError {
    /// A read for `field` wanted `needed` bytes at byte offset `offset`, past
    /// the end of the file.
    Truncated { field: NavField, kind: ReadKind, offset: usize, needed: usize },
    /// The file does not start with [`NAV_MAGIC`]; carries the magic found.
    BadMagic(u32),
    /// The version is below 2.
    VersionTooOld(u32),
    /// Fewer than four areas survived filtering; carries how many did.
    TooFewAreas(usize),
}

/// What a read that ran past the end of the file was: a value of some width,
/// or a run of bytes skipped.
#[derive(Debug, Clone, Copy, PartialEq, Eq, Structural)]
pub enum ReadKind {
    U8,
    U16,
    U32,
    F32,
    Skip,
}

/// The field of the file a read was for, with the place, area and path it
/// belongs to (counted from 0) and, for skipped runs, how many items they hold.
#[derive(Debug, Clone, Copy, PartialEq, Eq, Structural)]
pub enum NavField {
    Magic,
    Version,
    BspSize,
    PlaceCount,
    PlaceNameLen(u16),
    PlaceName(u16, u16),
    AreaCount,
    AreaId(u32),
    FlagsV5(u32),
    FlagsV6(u32),
    /// Corner coordinate `k` of an area: nw_x, nw_y, nw_z, se_x, se_y, se_z,
    /// ne_z, sw_z.
    Corner(u32, u8),
    ConnectionCount(u32),
    ConnectionId(u32),
    HidingCount(u32),
    HidingSpots(u32, u8),
    ApproachCount(u32),
    ApproachSpots(u32, u8),
    PathCount(u32),
    PathFromId(u32, u32),
    PathFromDir(u32, u32),
    PathToId(u32, u32),
    PathToDir(u32, u32),
    PathSpotCount(u32, u32),
    PathSpots(u32, u32, u8),
    PlaceId(u32),
}

/// One navigation area as stored in the file.
#[derive(Debug)]
pub struct NavArea {
    /// The area's identifier, used by other areas' connection lists.
    pub id: u32,
    /// Bit patterns of the eight corner floats, in file order:
    /// nw.x, nw.y, nw.z, se.x, se.y, se.z, ne.z, sw.z.
    pub corners: Vec<u32>,
    /// Identifiers of the connected areas, the four directions concatenated.
    pub connections: Vec<u32>,
}

/// Mathematical view of a [`NavArea`].
pub struct NavAreaSpec {
    pub id: u32,
    pub corners: Seq<u32>,
    pub connections: Seq<u32>,
}

impl View for NavArea {
    type V = NavAreaSpec;

    open spec fn view(&self) -> NavAreaSpec {
        NavAreaSpec { id: self.id, corners: self.corners@, connections: self.connections@ }
    }
}

/// A parsed NAV file: its version and every area in file order.
#[derive(Debug)]
pub struct NavFile {
    pub version: u32,
    pub areas: Vec<NavArea>,
}

// ---------------------------------------------------------------------------
// The format, as spec functions over the file's bytes.
// ---------------------------------------------------------------------------

/// Reserve `n` bytes at offset `p` for `field`: the offset after them, or the
/// truncation error.
pub open spec fn spec_take(s: Seq<u8>, p: int, n: int, field: NavField, kind: ReadKind) -> Result<int, NavError> {
    if p + n <= s.len() {
        Ok(p + n)
    } else {
        Err(NavError::Truncated { field, kind, offset: p as usize, needed: n as usize })
    }
}

/// Skip `n` bytes at `p`.
pub open spec fn spec_skip(s: Seq<u8>, p: int, n: int, field: NavField) -> Result<int, NavError> {
    spec_take(s, p, n, field, ReadKind::Skip)
}

/// Unsigned little-endian 16-bit number at byte `p`.
pub open spec fn le_u16(s: Seq<u8>, p: int) -> u16 {
    (s[p] + 256 * s[p + 1]) as u16
}

/// Unsigned little-endian 32-bit number at byte `p`.
pub open spec fn le_u32(s: Seq<u8>, p: int) -> u32 {
    (s[p] + 256 * s[p + 1] + 65536 * s[p + 2] + 16777216 * s[p + 3]) as u32
}

/// A byte read at `p`, with the position after it.
pub open spec fn spec_u8(s: Seq<u8>, p: int, field: NavField) -> Result<(u8, int), NavError> {
    match spec_take(s, p, 1, field, ReadKind::U8) {
        Ok(q) => Ok((s[p], q)),
        Err(e) => Err(e),
    }
}

/// A little-endian `u16` read at `p`, with the position after it.
pub open spec fn spec_u16(s: Seq<u8>, p: int, field: NavField) -> Result<(u16, int), NavError> {
    match spec_take(s, p, 2, field, ReadKind::U16) {
        Ok(q) => Ok((le_u16(s, p), q)),
        Err(e) => Err(e),
    }
}

/// A little-endian `u32` read at `p`, with the position after it.
pub open spec fn spec_u32(s: Seq<u8>, p: int, field: NavField) -> Result<(u32, int), NavError> {
    match spec_take(s, p, 4, field, ReadKind::U32) {
        Ok(q) => Ok((le_u32(s, p), q)),
        Err(e) => Err(e),
    }
}

/// A little-endian `f32` read at `p`, as its bit pattern, with the position
/// after it.
pub open spec fn spec_f32(s: Seq<u8>, p: int, field: NavField) -> Result<(u32, int), NavError> {
    match spec_take(s, p, 4, field, ReadKind::F32) {
        Ok(q) => Ok((le_u32(s, p), q)),
        Err(e) => Err(e),
    }
}

/// `count` consecutive little-endian u32 values starting at `p`, all for `field`.
pub open spec fn spec_u32s(s: Seq<u8>, p: int, count: nat, field: NavField) -> Result<(Seq<u32>, int), NavError>
    decreases count,
{
    if count == 0 {
        Ok((Seq::empty(), p))
    } else {
        match spec_u32(s, p, field) {
            Err(e) => Err(e),
            Ok((v, q)) => match spec_u32s(s, q, (count - 1) as nat, field) {
                Err(e) => Err(e),
                Ok((rest, r)) => Ok((seq![v] + rest, r)),
            },
        }
    }
}

/// Corner coordinates `k` to `k + count - 1` of area `a`, as f32 bit patterns.
pub open spec fn spec_corners(s: Seq<u8>, p: int, a: int, k: int, count: nat) -> Result<(Seq<u32>, int), NavError>
    decreases count,
{
    if count == 0 {
        Ok((Seq::empty(), p))
    } else {
        match spec_f32(s, p, NavField::Corner(a as u32, k as u8)) {
            Err(e) => Err(e),
            Ok((v, q)) => match spec_corners(s, q, a, k + 1, (count - 1) as nat) {
                Err(e) => Err(e),
                Ok((rest, r)) => Ok((seq![v] + rest, r)),
            },
        }
    }
}

/// `dirs` connection lists of area `a`, each a u32 count followed by that many
/// u32 area ids.
pub open spec fn spec_connections(s: Seq<u8>, p: int, dirs: nat, a: int) -> Result<(Seq<u32>, int), NavError>
    decreases dirs,
{
    if dirs == 0 {
        Ok((Seq::empty(), p))
    } else {
        match spec_u32(s, p, NavField::ConnectionCount(a as u32)) {
            Err(e) => Err(e),
            Ok((n, q)) => match spec_u32s(s, q, n as nat, NavField::ConnectionId(a as u32)) {
                Err(e) => Err(e),
                Ok((ids, r)) => match spec_connections(s, r, (dirs - 1) as nat, a) {
                    Err(e) => Err(e),
                    Ok((rest, t)) => Ok((ids + rest, t)),
                },
            },
        }
    }
}

/// Encounter path `i` of area `a`: from id (u32), from dir (u8), to id (u32),
/// to dir (u8), a u8 spot count, then five bytes per spot.
pub open spec fn spec_path(s: Seq<u8>, p: int, a: int, i: int) -> Result<int, NavError> {
    let (a, i) = (a as u32, i as u32);
    match spec_u32(s, p, NavField::PathFromId(a, i)) {
        Err(e) => Err(e),
        Ok((_a, p1)) => match spec_u8(s, p1, NavField::PathFromDir(a, i)) {
            Err(e) => Err(e),
            Ok((_b, p2)) => match spec_u32(s, p2, NavField::PathToId(a, i)) {
                Err(e) => Err(e),
                Ok((_c, p3)) => match spec_u8(s, p3, NavField::PathToDir(a, i)) {
                    Err(e) => Err(e),
                    Ok((_d, p4)) => match spec_u8(s, p4, NavField::PathSpotCount(a, i)) {
                        Err(e) => Err(e),
                        Ok((spots, p5)) => spec_skip(s, p5, spots * 5, NavField::PathSpots(a, i, spots)),
                    },
                },
            },
        },
    }
}

/// Format law: an encounter path occupies 4 + 1 + 4 + 1 + 1 bytes (from id,
/// from direction, to id, to direction, spot count) and then five bytes per
/// spot (a u32 id and a u8), so the next field starts exactly that far after
/// the path's start; a path that does not fit in the file is refused.
pub proof fn law_path_size(s: Seq<u8>, p: int, a: int, i: int)
    requires
        0 <= p,
    ensures
        p + 11 <= s.len() && p + 11 + 5 * s[p + 10] <= s.len() ==> spec_path(s, p, a, i) == Ok::<int, NavError>(
            p + 11 + 5 * s[p + 10],
        ),
        p + 11 <= s.len() && p + 11 + 5 * s[p + 10] > s.len() ==> spec_path(s, p, a, i) is Err,
        p + 11 > s.len() ==> spec_path(s, p, a, i) is Err,
{
}

/// Format law: after the connection lists an area holds a u8 hiding-spot
/// count and 17 bytes per hiding spot, a u8 approach-spot count and 14 bytes
/// per approach spot, a u32 path count, the paths, and a u16 place id; with no
/// paths, the next area starts right after the place id.
pub proof fn law_area_tail_size(s: Seq<u8>, p: int, a: int)
    requires
        0 <= p,
        p + 1 <= s.len(),
        p + 1 + 17 * s[p] + 1 <= s.len(),
        p + 1 + 17 * s[p] + 1 + 14 * s[p + 1 + 17 * s[p]] + 6 <= s.len(),
        le_u32(s, p + 1 + 17 * s[p] + 1 + 14 * s[p + 1 + 17 * s[p]]) == 0,
    ensures
        spec_area_tail(s, p, a) == Ok::<int, NavError>(p + 1 + 17 * s[p] + 1 + 14 * s[p + 1 + 17 * s[p]] + 6),
{
    let q = p + 1 + 17 * s[p] + 1 + 14 * s[p + 1 + 17 * s[p]];
    assert(spec_paths(s, q + 4, 0, a, 0) == Ok::<int, NavError>(q + 4));
}

/// Skip `count` encounter paths of area `a`, the first numbered `i`.
pub open spec fn spec_paths(s: Seq<u8>, p: int, count: nat, a: int, i: int) -> Result<int, NavError>
    decreases count,
{
    if count == 0 {
        Ok(p)
    } else {
        match spec_path(s, p, a, i) {
            Err(e) => Err(e),
            Ok(q) => spec_paths(s, q, (count - 1) as nat, a, i + 1),
        }
    }
}

/// Everything of area `a` after its connection lists: hiding spots (17 bytes
/// each), approach spots (14 bytes each), encounter paths, and the u16 place id.
pub open spec fn spec_area_tail(s: Seq<u8>, p: int, a: int) -> Result<int, NavError> {
    let w = a as u32;
    match spec_u8(s, p, NavField::HidingCount(w)) {
        Err(e) => Err(e),
        Ok((hiding, p1)) => match spec_skip(s, p1, hiding * 17, NavField::HidingSpots(w, hiding)) {
            Err(e) => Err(e),
            Ok(p2) => match spec_u8(s, p2, NavField::ApproachCount(w)) {
                Err(e) => Err(e),
                Ok((approach, p3)) => match spec_skip(s, p3, approach * 14, NavField::ApproachSpots(w, approach)) {
                    Err(e) => Err(e),
                    Ok(p4) => match spec_u32(s, p4, NavField::PathCount(w)) {
                        Err(e) => Err(e),
                        Ok((paths, p5)) => match spec_paths(s, p5, paths as nat, a, 0) {
                            Err(e) => Err(e),
                            Ok(p6) => match spec_u16(s, p6, NavField::PlaceId(w)) {
                                Err(e) => Err(e),
                                Ok((_place, p7)) => Ok(p7),
                            },
                        },
                    },
                },
            },
        },
    }
}

/// The per-area flags: one byte in version 5, a u32 otherwise; the position
/// after them.
pub open spec fn spec_flags(s: Seq<u8>, p: int, version: u32, a: int) -> Result<int, NavError> {
    if version == 5 {
        match spec_u8(s, p, NavField::FlagsV5(a as u32)) {
            Err(e) => Err(e),
            Ok((_f, q)) => Ok(q),
        }
    } else {
        match spec_u32(s, p, NavField::FlagsV6(a as u32)) {
            Err(e) => Err(e),
            Ok((_f, q)) => Ok(q),
        }
    }
}

/// Area `a`: id, flags, eight corner floats, four connection lists, then the tail.
pub open spec fn spec_area(s: Seq<u8>, p: int, version: u32, a: int) -> Result<(NavAreaSpec, int), NavError> {
    match spec_u32(s, p, NavField::AreaId(a as u32)) {
        Err(e) => Err(e),
        Ok((id, p1)) => match spec_flags(s, p1, version, a) {
            Err(e) => Err(e),
            Ok(p2) => match spec_corners(s, p2, a, 0, 8) {
                Err(e) => Err(e),
                Ok((corners, p3)) => match spec_connections(s, p3, 4, a) {
                    Err(e) => Err(e),
                    Ok((conns, p4)) => match spec_area_tail(s, p4, a) {
                        Err(e) => Err(e),
                        Ok(p5) => Ok((NavAreaSpec { id, corners, connections: conns }, p5)),
                    },
                },
            },
        },
    }
}

/// Read `count` areas starting at `p`, the first numbered `a`.
pub open spec fn spec_areas(s: Seq<u8>, p: int, count: nat, version: u32, a: int) -> Result<(Seq<NavAreaSpec>, int), NavError>
    decreases count,
{
    if count == 0 {
        Ok((Seq::empty(), p))
    } else {
        match spec_area(s, p, version, a) {
            Err(e) => Err(e),
            Ok((area, q)) => match spec_areas(s, q, (count - 1) as nat, version, a + 1) {
                Err(e) => Err(e),
                Ok((rest, r)) => Ok((seq![area] + rest, r)),
            },
        }
    }
}

/// Version 5 place directory entries, the first numbered `i`: a u16 name
/// length, then the name bytes.
pub open spec fn spec_places(s: Seq<u8>, p: int, count: nat, i: int) -> Result<int, NavError>
    decreases count,
{
    if count == 0 {
        Ok(p)
    } else {
        match spec_u16(s, p, NavField::PlaceNameLen(i as u16)) {
            Err(e) => Err(e),
            Ok((len, q)) => match spec_skip(s, q, len as int, NavField::PlaceName(i as u16, len)) {
                Err(e) => Err(e),
                Ok(r) => spec_places(s, r, (count - 1) as nat, i + 1),
            },
        }
    }
}

/// What comes between the version and the area count: nothing, or in version 5 a
/// u32 BSP size followed by the place directory.
pub open spec fn spec_preamble(s: Seq<u8>, p: int, version: u32) -> Result<int, NavError> {
    if version == 5 {
        match spec_skip(s, p, 4, NavField::BspSize) {
            Err(e) => Err(e),
            Ok(p1) => match spec_u16(s, p1, NavField::PlaceCount) {
                Err(e) => Err(e),
                Ok((places, p2)) => spec_places(s, p2, places as nat, 0),
            },
        }
    } else {
        Ok(p)
    }
}

/// The whole file: magic, version (at least 2), preamble, area count, areas.
/// Bytes after the last area are ignored.
pub open spec fn spec_nav(s: Seq<u8>) -> Result<(u32, Seq<NavAreaSpec>), NavError> {
    match spec_u32(s, 0, NavField::Magic) {
        Err(e) => Err(e),
        Ok((magic, p1)) => if magic != NAV_MAGIC {
            Err(NavError::BadMagic(magic))
        } else {
            match spec_u32(s, p1, NavField::Version) {
                Err(e) => Err(e),
                Ok((version, p2)) => if version < 2 {
                    Err(NavError::VersionTooOld(version))
                } else {
                    match spec_preamble(s, p2, version) {
                        Err(e) => Err(e),
                        Ok(p3) => match spec_u32(s, p3, NavField::AreaCount) {
                            Err(e) => Err(e),
                            Ok((count, p4)) => match spec_areas(s, p4, count as nat, version, 0) {
                                Err(e) => Err(e),
                                Ok((areas, _p5)) => Ok((version, areas)),
                            },
                        },
                    }
                },
            }
        },
    }
}

// ---------------------------------------------------------------------------
// The reader.
// ---------------------------------------------------------------------------

/// Cursor over a byte slice for reading little-endian binary data.
pub struct NavCursor<'a> {
    data: &'a [u8],
    pos: usize,
}

impl<'a> NavCursor<'a> {
    /// The bytes under the cursor.
    pub closed spec fn bytes(&self) -> Seq<u8> {
        self.data@
    }

    /// The cursor's offset into [`Self::bytes`].
    pub closed spec fn offset(&self) -> int {
        self.pos as int
    }

    /// The cursor lies within its bytes.
    pub closed spec fn wf(&self) -> bool {
        self.pos <= self.data@.len() && self.data@.len() <= usize::MAX
    }

    /// A cursor at the start of `data`.
    pub fn new(data: &'a [u8]) -> (c: Self)
        ensures
            c.wf(),
            c.bytes() == data@,
            c.offset() == 0,
    {
        let _len = data.len();
        NavCursor { data, pos: 0 }
    }

    /// Bytes left after the cursor.
    pub fn remaining(&self) -> (r: usize)
        requires
            self.wf(),
        ensures
            r == self.bytes().len() - self.offset(),
    {
        self.data.len() - self.pos
    }

    /// Read a byte for `field` and move past it.
    pub fn read_u8(&mut self, field: NavField) -> (r: Result<u8, NavError>)
        requires
            old(self).wf(),
        ensures
            final(self).wf(),
            final(self).bytes() == old(self).bytes(),
            match spec_u8(old(self).bytes(), old(self).offset(), field) {
                Ok((v, q)) => r == Ok::<u8, NavError>(v) && final(self).offset() == q,
                Err(e) => r == Err::<u8, NavError>(e) && final(self).offset() == old(self).offset(),
            },
    {
        if self.remaining() < 1 {
            return Err(NavError::Truncated { field, kind: ReadKind::U8, offset: self.pos, needed: 1 });
        }
        let v = self.data[self.pos];
        self.pos = self.pos + 1;
        Ok(v)
    }

    /// Read a little-endian `u16` for `field` and move past it.
    pub fn read_u16_le(&mut self, field: NavField) -> (r: Result<u16, NavError>)
        requires
            old(self).wf(),
        ensures
            final(self).wf(),
            final(self).bytes() == old(self).bytes(),
            match spec_u16(old(self).bytes(), old(self).offset(), field) {
                Ok((v, q)) => r == Ok::<u16, NavError>(v) && final(self).offset() == q,
                Err(e) => r == Err::<u16, NavError>(e) && final(self).offset() == old(self).offset(),
            },
    {
        if self.remaining() < 2 {
            return Err(NavError::Truncated { field, kind: ReadKind::U16, offset: self.pos, needed: 2 });
        }
        let b0 = self.data[self.pos] as u16;
        let b1 = self.data[self.pos + 1] as u16;
        self.pos = self.pos + 2;
        Ok(b0 + 256 * b1)
    }

    /// Four little-endian bytes as a `u32`, read for `field` as a value of
    /// kind `kind` (`U32` or `F32`).
    fn read_word(&mut self, field: NavField, kind: ReadKind) -> (r: Result<u32, NavError>)
        requires
            old(self).wf(),
        ensures
            final(self).wf(),
            final(self).bytes() == old(self).bytes(),
            match spec_take(old(self).bytes(), old(self).offset(), 4, field, kind) {
                Ok(q) => r == Ok::<u32, NavError>(le_u32(old(self).bytes(), old(self).offset()))
                    && final(self).offset() == q,
                Err(e) => r == Err::<u32, NavError>(e) && final(self).offset() == old(self).offset(),
            },
    {
        if self.remaining() < 4 {
            return Err(NavError::Truncated { field, kind, offset: self.pos, needed: 4 });
        }
        let b0 = self.data[self.pos] as u32;
        let b1 = self.data[self.pos + 1] as u32;
        let b2 = self.data[self.pos + 2] as u32;
        let b3 = self.data[self.pos + 3] as u32;
        self.pos = self.pos + 4;
        Ok(b0 + 256 * b1 + 65536 * b2 + 16777216 * b3)
    }

    /// Read a little-endian `u32` for `field` and move past it.
    pub fn read_u32_le(&mut self, field: NavField) -> (r: Result<u32, NavError>)
        requires
            old(self).wf(),
        ensures
            final(self).wf(),
            final(self).bytes() == old(self).bytes(),
            match spec_u32(old(self).bytes(), old(self).offset(), field) {
                Ok((v, q)) => r == Ok::<u32, NavError>(v) && final(self).offset() == q,
                Err(e) => r == Err::<u32, NavError>(e) && final(self).offset() == old(self).offset(),
            },
    {
        self.read_word(field, ReadKind::U32)
    }

    /// Read a little-endian f32 for `field`, returned as its bit pattern.
    pub fn read_f32_bits_le(&mut self, field: NavField) -> (r: Result<u32, NavError>)
        requires
            old(self).wf(),
        ensures
            final(self).wf(),
            final(self).bytes() == old(self).bytes(),
            match spec_f32(old(self).bytes(), old(self).offset(), field) {
                Ok((v, q)) => r == Ok::<u32, NavError>(v) && final(self).offset() == q,
                Err(e) => r == Err::<u32, NavError>(e) && final(self).offset() == old(self).offset(),
            },
    {
        self.read_word(field, ReadKind::F32)
    }

    /// Move `n` bytes forward, skipping `field`.
    pub fn skip(&mut self, n: usize, field: NavField) -> (r: Result<(), NavError>)
        requires
            old(self).wf(),
        ensures
            final(self).wf(),
            final(self).bytes() == old(self).bytes(),
            match spec_skip(old(self).bytes(), old(self).offset(), n as int, field) {
                Ok(q) => r == Ok::<(), NavError>(()) && final(self).offset() == q,
                Err(e) => r == Err::<(), NavError>(e) && final(self).offset() == old(self).offset(),
            },
    {
        if self.remaining() < n {
            return Err(NavError::Truncated { field, kind: ReadKind::Skip, offset: self.pos, needed: n });
        }
        self.pos = self.pos + n;
        Ok(())
    }
}


/// Put `front` before the values of a successful parse result.
pub open spec fn prefixed<T>(front: Seq<T>, r: Result<(Seq<T>, int), NavError>) -> Result<(Seq<T>, int), NavError> {
    match r {
        Ok((rest, q)) => Ok((front + rest, q)),
        Err(e) => Err(e),
    }
}

fn read_u32s(c: &mut NavCursor, count: u32, field: NavField) -> (r: Result<Vec<u32>, NavError>)
    requires
        old(c).wf(),
    ensures
        final(c).wf(),
        final(c).bytes() == old(c).bytes(),
        match spec_u32s(old(c).bytes(), old(c).offset(), count as nat, field) {
            Ok((v, q)) => r matches Ok(out) && out@ == v && final(c).offset() == q,
            Err(e) => r matches Err(e2) && e2 == e,
        },
{
    let ghost s = c.bytes();
    let ghost p0 = c.offset();
    let mut out: Vec<u32> = Vec::new();
    let mut i: u32 = 0;
    while i < count
        invariant
            c.wf(),
            c.bytes() == s,
            s == old(c).bytes(),
            p0 == old(c).offset(),
            i <= count,
            spec_u32s(s, p0, count as nat, field) == prefixed(out@, spec_u32s(s, c.offset(), (count - i) as nat, field)),
        decreases count - i,
    {
        let ghost before = out@;
        let v = c.read_u32_le(field);
        match v {
            Ok(v) => {
                out.push(v);
                i = i + 1;
                proof {
                    match spec_u32s(s, c.offset(), (count - i) as nat, field) {
                        Ok((rest, q)) => {
                            assert(before + (seq![v] + rest) =~= out@ + rest);
                        },
                        Err(e) => {},
                    }
                }
            },
            Err(e) => {
                return Err(e);
            },
        }
    }
    assert(out@ + Seq::<u32>::empty() =~= out@);
    Ok(out)
}

fn read_corners(c: &mut NavCursor, area: u32) -> (r: Result<Vec<u32>, NavError>)
    requires
        old(c).wf(),
    ensures
        final(c).wf(),
        final(c).bytes() == old(c).bytes(),
        match spec_corners(old(c).bytes(), old(c).offset(), area as int, 0, 8) {
            Ok((v, q)) => r matches Ok(out) && out@ == v && final(c).offset() == q,
            Err(e) => r matches Err(e2) && e2 == e,
        },
{
    let ghost s = c.bytes();
    let ghost p0 = c.offset();
    let mut out: Vec<u32> = Vec::new();
    let mut k: u8 = 0;
    while k < 8
        invariant
            c.wf(),
            c.bytes() == s,
            s == old(c).bytes(),
            p0 == old(c).offset(),
            k <= 8,
            spec_corners(s, p0, area as int, 0, 8) == prefixed(
                out@,
                spec_corners(s, c.offset(), area as int, k as int, (8 - k) as nat),
            ),
        decreases 8 - k,
    {
        let ghost before = out@;
        let v = c.read_f32_bits_le(NavField::Corner(area, k));
        match v {
            Ok(v) => {
                out.push(v);
                k = k + 1;
                proof {
                    match spec_corners(s, c.offset(), area as int, k as int, (8 - k) as nat) {
                        Ok((rest, q)) => {
                            assert(before + (seq![v] + rest) =~= out@ + rest);
                        },
                        Err(e) => {},
                    }
                }
            },
            Err(e) => {
                return Err(e);
            },
        }
    }
    assert(out@ + Seq::<u32>::empty() =~= out@);
    Ok(out)
}

fn read_connections(c: &mut NavCursor, area: u32) -> (r: Result<Vec<u32>, NavError>)
    requires
        old(c).wf(),
    ensures
        final(c).wf(),
        final(c).bytes() == old(c).bytes(),
        match spec_connections(old(c).bytes(), old(c).offset(), 4, area as int) {
            Ok((v, q)) => r matches Ok(out) && out@ == v && final(c).offset() == q,
            Err(e) => r matches Err(e2) && e2 == e,
        },
{
    let ghost s = c.bytes();
    let ghost p0 = c.offset();
    let mut out: Vec<u32> = Vec::new();
    let mut dir: u32 = 0;
    while dir < 4
        invariant
            c.wf(),
            c.bytes() == s,
            s == old(c).bytes(),
            p0 == old(c).offset(),
            dir <= 4,
            spec_connections(s, p0, 4, area as int) == prefixed(
                out@,
                spec_connections(s, c.offset(), (4 - dir) as nat, area as int),
            ),
        decreases 4 - dir,
    {
        let ghost before = out@;
        let n = c.read_u32_le(NavField::ConnectionCount(area));
        let n = match n {
            Ok(n) => n,
            Err(e) => {
                return Err(e);
            },
        };
        let ids = read_u32s(c, n, NavField::ConnectionId(area));
        let mut ids = match ids {
            Ok(ids) => ids,
            Err(e) => {
                return Err(e);
            },
        };
        let ghost idv = ids@;
        out.append(&mut ids);
        dir = dir + 1;
        proof {
            match spec_connections(s, c.offset(), (4 - dir) as nat, area as int) {
                Ok((rest, q)) => {
                    assert(before + (idv + rest) =~= out@ + rest);
                },
                Err(e) => {},
            }
        }
    }
    assert(out@ + Seq::<u32>::empty() =~= out@);
    Ok(out)
}

fn skip_path(c: &mut NavCursor, area: u32, path: u32) -> (r: Result<(), NavError>)
    requires
        old(c).wf(),
    ensures
        final(c).wf(),
        final(c).bytes() == old(c).bytes(),
        match spec_path(old(c).bytes(), old(c).offset(), area as int, path as int) {
            Ok(q) => r is Ok && final(c).offset() == q,
            Err(e) => r == Err::<(), NavError>(e),
        },
{
    let _from_id = c.read_u32_le(NavField::PathFromId(area, path))?;
    let _from_dir = c.read_u8(NavField::PathFromDir(area, path))?;
    let _to_id = c.read_u32_le(NavField::PathToId(area, path))?;
    let _to_dir = c.read_u8(NavField::PathToDir(area, path))?;
    let spots = c.read_u8(NavField::PathSpotCount(area, path))?;
    c.skip(spots as usize * 5, NavField::PathSpots(area, path, spots))
}

fn skip_paths(c: &mut NavCursor, count: u32, area: u32) -> (r: Result<(), NavError>)
    requires
        old(c).wf(),
    ensures
        final(c).wf(),
        final(c).bytes() == old(c).bytes(),
        match spec_paths(old(c).bytes(), old(c).offset(), count as nat, area as int, 0) {
            Ok(q) => r is Ok && final(c).offset() == q,
            Err(e) => r == Err::<(), NavError>(e),
        },
{
    let ghost s = c.bytes();
    let ghost p0 = c.offset();
    let mut i: u32 = 0;
    while i < count
        invariant
            c.wf(),
            c.bytes() == s,
            s == old(c).bytes(),
            p0 == old(c).offset(),
            i <= count,
            spec_paths(s, p0, count as nat, area as int, 0) == spec_paths(
                s,
                c.offset(),
                (count - i) as nat,
                area as int,
                i as int,
            ),
        decreases count - i,
    {
        skip_path(c, area, i)?;
        i = i + 1;
    }
    Ok(())
}

fn skip_area_tail(c: &mut NavCursor, area: u32) -> (r: Result<(), NavError>)
    requires
        old(c).wf(),
    ensures
        final(c).wf(),
        final(c).bytes() == old(c).bytes(),
        match spec_area_tail(old(c).bytes(), old(c).offset(), area as int) {
            Ok(q) => r is Ok && final(c).offset() == q,
            Err(e) => r == Err::<(), NavError>(e),
        },
{
    // Hiding spots: id (u32), position (3 x f32), flags (u8).
    let hiding = c.read_u8(NavField::HidingCount(area))?;
    c.skip(hiding as usize * 17, NavField::HidingSpots(area, hiding))?;
    // Approach spots: from, prev (u32 each), how (u8), next (u32), how (u8).
    let approach = c.read_u8(NavField::ApproachCount(area))?;
    c.skip(approach as usize * 14, NavField::ApproachSpots(area, approach))?;
    let paths = c.read_u32_le(NavField::PathCount(area))?;
    skip_paths(c, paths, area)?;
    let _place = c.read_u16_le(NavField::PlaceId(area))?;
    Ok(())
}

fn read_area(c: &mut NavCursor, version: u32, area: u32) -> (r: Result<NavArea, NavError>)
    requires
        old(c).wf(),
    ensures
        final(c).wf(),
        final(c).bytes() == old(c).bytes(),
        match spec_area(old(c).bytes(), old(c).offset(), version, area as int) {
            Ok((a, q)) => r matches Ok(v) && v@ == a && final(c).offset() == q,
            Err(e) => r matches Err(e2) && e2 == e,
        },
{
    let id = c.read_u32_le(NavField::AreaId(area))?;
    if version == 5 {
        c.read_u8(NavField::FlagsV5(area))?;
    } else {
        c.read_u32_le(NavField::FlagsV6(area))?;
    }
    let corners = read_corners(c, area)?;
    let connections = read_connections(c, area)?;
    skip_area_tail(c, area)?;
    Ok(NavArea { id, corners, connections })
}

fn skip_places(c: &mut NavCursor, count: u16) -> (r: Result<(), NavError>)
    requires
        old(c).wf(),
    ensures
        final(c).wf(),
        final(c).bytes() == old(c).bytes(),
        match spec_places(old(c).bytes(), old(c).offset(), count as nat, 0) {
            Ok(q) => r is Ok && final(c).offset() == q,
            Err(e) => r == Err::<(), NavError>(e),
        },
{
    let ghost s = c.bytes();
    let ghost p0 = c.offset();
    let mut i: u16 = 0;
    while i < count
        invariant
            c.wf(),
            c.bytes() == s,
            s == old(c).bytes(),
            p0 == old(c).offset(),
            i <= count,
            spec_places(s, p0, count as nat, 0) == spec_places(s, c.offset(), (count - i) as nat, i as int),
        decreases count - i,
    {
        let name_len = c.read_u16_le(NavField::PlaceNameLen(i))?;
        c.skip(name_len as usize, NavField::PlaceName(i, name_len))?;
        i = i + 1;
    }
    Ok(())
}

fn read_areas(c: &mut NavCursor, count: u32, version: u32) -> (r: Result<Vec<NavArea>, NavError>)
    requires
        old(c).wf(),
    ensures
        final(c).wf(),
        final(c).bytes() == old(c).bytes(),
        match spec_areas(old(c).bytes(), old(c).offset(), count as nat, version, 0) {
            Ok((v, q)) => r matches Ok(out) && out@.map_values(|a: NavArea| a@) == v && final(c).offset() == q,
            Err(e) => r matches Err(e2) && e2 == e,
        },
{
    let ghost s = c.bytes();
    let ghost p0 = c.offset();
    let mut out: Vec<NavArea> = Vec::new();
    let mut i: u32 = 0;
    while i < count
        invariant
            c.wf(),
            c.bytes() == s,
            s == old(c).bytes(),
            p0 == old(c).offset(),
            i <= count,
            spec_areas(s, p0, count as nat, version, 0) == prefixed(
                out@.map_values(|a: NavArea| a@),
                spec_areas(s, c.offset(), (count - i) as nat, version, i as int),
            ),
        decreases count - i,
    {
        let ghost before = out@.map_values(|a: NavArea| a@);
        let area = read_area(c, version, i)?;
        let ghost av = area@;
        out.push(area);
        i = i + 1;
        proof {
            assert(out@.map_values(|a: NavArea| a@) =~= before.push(av));
            match spec_areas(s, c.offset(), (count - i) as nat, version, i as int) {
                Ok((rest, q)) => {
                    assert(before + (seq![av] + rest) =~= before.push(av) + rest);
                },
                Err(e) => {},
            }
        }
    }
    assert(out@.map_values(|a: NavArea| a@) + Seq::<NavAreaSpec>::empty() =~= out@.map_values(|a: NavArea| a@));
    Ok(out)
}

/// Parse a NAV file. Every area is returned, in file order; bytes after the last
/// area are ignored.
pub fn parse_nav(data: &[u8]) -> (r: Result<NavFile, NavError>)
    ensures
        match spec_nav(data@) {
            Ok((version, areas)) => r matches Ok(f) && f.version == version
                && f.areas@.map_values(|a: NavArea| a@) == areas,
            Err(e) => r matches Err(e2) && e2 == e,
        },
{
    let mut c = NavCursor::new(data);
    let magic = c.read_u32_le(NavField::Magic)?;
    if magic != NAV_MAGIC {
        return Err(NavError::BadMagic(magic));
    }
    let version = c.read_u32_le(NavField::Version)?;
    if version < 2 {
        return Err(NavError::VersionTooOld(version));
    }
    if version == 5 {
        // Version 5 stores the BSP size and a place-name directory here.
        c.skip(4, NavField::BspSize)?;
        let place_count = c.read_u16_le(NavField::PlaceCount)?;
        skip_places(&mut c, place_count)?;
    }
    let area_count = c.read_u32_le(NavField::AreaCount)?;
    let areas = read_areas(&mut c, area_count, version)?;
    Ok(NavFile { version, areas })
}

// ---------------------------------------------------------------------------
// Area ordering.
// ---------------------------------------------------------------------------

/// Indices of the areas that survive filtering, in file order.
pub open spec fn kept_indices(keep: Seq<bool>) -> Seq<usize>
    decreases keep.len(),
{
    if keep.len() == 0 {
        Seq::empty()
    } else {
        let r = kept_indices(keep.drop_last());
        if keep.last() {
            r.push((keep.len() - 1) as usize)
        } else {
            r
        }
    }
}

/// Position of the last occurrence of `id` in `ids`: when ids repeat, the later
/// area wins.
pub open spec fn last_index_of(ids: Seq<u32>, id: u32) -> Option<int>
    decreases ids.len(),
{
    if ids.len() == 0 {
        None
    } else if ids.last() == id {
        Some(ids.len() - 1)
    } else {
        last_index_of(ids.drop_last(), id)
    }
}

/// Connection ids turned into positions among the kept areas; ids of areas that
/// were filtered out or never existed are dropped.
pub open spec fn resolve_ids(conns: Seq<u32>, ids: Seq<u32>) -> Seq<usize>
    decreases conns.len(),
{
    if conns.len() == 0 {
        Seq::empty()
    } else {
        let r = resolve_ids(conns.drop_last(), ids);
        match last_index_of(ids, conns.last()) {
            Some(j) => r.push(j as usize),
            None => r,
        }
    }
}

/// Ids of the kept areas, in kept order.
pub open spec fn kept_ids(areas: Seq<NavAreaSpec>, kept: Seq<usize>) -> Seq<u32> {
    kept.map_values(|k: usize| areas[k as int].id)
}

/// The connection graph over the kept areas, by position among the kept areas.
pub open spec fn adjacency(areas: Seq<NavAreaSpec>, keep: Seq<bool>) -> Seq<Seq<usize>> {
    let kept = kept_indices(keep);
    Seq::new(
        kept.len(),
        |k: int| resolve_ids(areas[kept[k] as int].connections, kept_ids(areas, kept)),
    )
}

/// Number of `false` entries.
pub open spec fn count_unvisited(v: Seq<bool>) -> nat
    decreases v.len(),
{
    if v.len() == 0 {
        0
    } else {
        count_unvisited(v.drop_last()) + if v.last() { 0nat } else { 1nat }
    }
}

pub proof fn lemma_visit_decreases(v: Seq<bool>, i: int)
    requires
        0 <= i < v.len(),
        !v[i],
    ensures
        count_unvisited(v.update(i, true)) + 1 == count_unvisited(v),
    decreases v.len(),
{
    if i == v.len() - 1 {
        assert(v.update(i, true).drop_last() =~= v.drop_last());
    } else {
        lemma_visit_decreases(v.drop_last(), i);
        assert(v.update(i, true).drop_last() =~= v.drop_last().update(i, true));
    }
}

/// Push the not-yet-visited neighbours, last neighbour first, so that the first
/// neighbour ends on top of the stack.
pub open spec fn push_unvisited_rev(stack: Seq<usize>, nbrs: Seq<usize>, visited: Seq<bool>) -> Seq<usize>
    decreases nbrs.len(),
{
    if nbrs.len() == 0 {
        stack
    } else {
        let nb = nbrs.last();
        let s1 = if nb < visited.len() && !visited[nb as int] {
            stack.push(nb)
        } else {
            stack
        };
        push_unvisited_rev(s1, nbrs.drop_last(), visited)
    }
}

/// Iterative depth-first traversal: pop a node; if unvisited, record it and push
/// its unvisited neighbours; when the stack runs dry, restart from the next
/// unvisited node in index order.
pub open spec fn dfs_run(
    adj: Seq<Seq<usize>>,
    visited: Seq<bool>,
    stack: Seq<usize>,
    start: int,
    order: Seq<usize>,
) -> Seq<usize>
    decreases count_unvisited(visited), adj.len() - start, stack.len(),
{
    if visited.len() != adj.len() || start > adj.len() {
        order
    } else if stack.len() > 0 {
        let idx = stack.last();
        let rest = stack.drop_last();
        if idx >= adj.len() {
            order
        } else if visited[idx as int] {
            dfs_run(adj, visited, rest, start, order)
        } else {
            let v2 = visited.update(idx as int, true);
            proof {
                lemma_visit_decreases(visited, idx as int);
            }
            dfs_run(adj, v2, push_unvisited_rev(rest, adj[idx as int], v2), start, order.push(idx))
        }
    } else if start < adj.len() {
        if visited[start] {
            dfs_run(adj, visited, stack, start + 1, order)
        } else {
            dfs_run(adj, visited, seq![start as usize], start + 1, order)
        }
    } else {
        order
    }
}

/// Depth-first order of all nodes of `adj`, starting from node 0.
pub open spec fn dfs_order_spec(adj: Seq<Seq<usize>>) -> Seq<usize> {
    dfs_run(adj, Seq::new(adj.len(), |i: int| false), Seq::empty(), 0, Seq::empty())
}

/// The first of `nbrs`, in order, that `seen` does not hold.
pub open spec fn first_unseen(nbrs: Seq<usize>, seen: Seq<usize>) -> Option<usize>
    decreases nbrs.len(),
{
    if nbrs.len() == 0 {
        None
    } else {
        match first_unseen(nbrs.drop_last(), seen) {
            Some(v) => Some(v),
            None => if seen.contains(nbrs.last()) {
                None
            } else {
                Some(nbrs.last())
            },
        }
    }
}

proof fn lemma_first_unseen_props(nbrs: Seq<usize>, seen: Seq<usize>)
    ensures
        first_unseen(nbrs, seen) matches Some(v) ==> !seen.contains(v) && nbrs.contains(v),
        first_unseen(nbrs, seen) is None ==> forall|j: int| 0 <= j < nbrs.len() ==> seen.contains(#[trigger] nbrs[j]),
    decreases nbrs.len(),
{
    if nbrs.len() > 0 {
        let init = nbrs.drop_last();
        lemma_first_unseen_props(init, seen);
        match first_unseen(init, seen) {
            Some(v) => {
                let w = choose|w: int| 0 <= w < init.len() && init[w] == v;
                assert(nbrs[w] == v);
            },
            None => {
                assert forall|j: int| 0 <= j < nbrs.len() - 1 implies seen.contains(#[trigger] nbrs[j]) by {
                    assert(nbrs[j] == init[j]);
                }
                assert(nbrs[nbrs.len() - 1] == nbrs.last());
            },
        }
    }
}

/// The least position whose neighbour is unseen gives `first_unseen`.
proof fn lemma_first_unseen_least(nbrs: Seq<usize>, seen: Seq<usize>, j: int)
    requires
        0 <= j < nbrs.len(),
        !seen.contains(nbrs[j]),
        forall|i: int| 0 <= i < j ==> seen.contains(#[trigger] nbrs[i]),
    ensures
        first_unseen(nbrs, seen) == Some(nbrs[j]),
    decreases nbrs.len(),
{
    let init = nbrs.drop_last();
    if j < nbrs.len() - 1 {
        assert(init[j] == nbrs[j]);
        assert forall|i: int| 0 <= i < j implies seen.contains(#[trigger] init[i]) by {
            assert(init[i] == nbrs[i]);
        }
        lemma_first_unseen_least(init, seen, j);
    } else {
        lemma_first_unseen_props(init, seen);
        if first_unseen(init, seen) is Some {
            let v = first_unseen(init, seen)->0;
            let w = choose|w: int| 0 <= w < init.len() && init[w] == v;
            assert(nbrs[w] == v);
            assert(seen.contains(nbrs[w]));
        }
    }
}

/// After pushing the unvisited neighbours, the top of the stack is the first
/// unvisited neighbour; with none, the stack is unchanged.
proof fn lemma_push_top(stack: Seq<usize>, nbrs: Seq<usize>, visited: Seq<bool>, seen: Seq<usize>)
    requires
        forall|j: int| 0 <= j < nbrs.len() ==> #[trigger] nbrs[j] < visited.len(),
        forall|x: usize| x < visited.len() ==> (visited[x as int] <==> #[trigger] seen.contains(x)),
    ensures
        match first_unseen(nbrs, seen) {
            Some(v) => push_unvisited_rev(stack, nbrs, visited).len() > 0 && push_unvisited_rev(stack, nbrs, visited).last() == v,
            None => push_unvisited_rev(stack, nbrs, visited) == stack,
        },
    decreases nbrs.len(),
{
    if nbrs.len() > 0 {
        let nb = nbrs.last();
        assert(nbrs[nbrs.len() - 1] == nb);
        let s1 = if nb < visited.len() && !visited[nb as int] {
            stack.push(nb)
        } else {
            stack
        };
        let init = nbrs.drop_last();
        assert forall|j: int| 0 <= j < init.len() implies #[trigger] init[j] < visited.len() by {
            assert(init[j] == nbrs[j]);
        }
        lemma_push_top(s1, init, visited, seen);
    }
}

proof fn lemma_push_bounds(stack: Seq<usize>, nbrs: Seq<usize>, visited: Seq<bool>, n: int)
    requires
        forall|j: int| 0 <= j < nbrs.len() ==> #[trigger] nbrs[j] < n,
        forall|j: int| 0 <= j < stack.len() ==> #[trigger] stack[j] < n,
    ensures
        forall|j: int| 0 <= j < push_unvisited_rev(stack, nbrs, visited).len() ==> #[trigger] push_unvisited_rev(
            stack,
            nbrs,
            visited,
        )[j] < n,
    decreases nbrs.len(),
{
    if nbrs.len() > 0 {
        let nb = nbrs.last();
        assert(nbrs[nbrs.len() - 1] == nb);
        let s1 = if nb < visited.len() && !visited[nb as int] {
            stack.push(nb)
        } else {
            stack
        };
        let init = nbrs.drop_last();
        assert forall|j: int| 0 <= j < init.len() implies #[trigger] init[j] < n by {
            assert(init[j] == nbrs[j]);
        }
        assert forall|j: int| 0 <= j < s1.len() implies #[trigger] s1[j] < n by {
            if j < stack.len() {
                assert(s1[j] == stack[j]);
            } else {
                assert(s1[j] == nb);
            }
        }
        lemma_push_bounds(s1, init, visited, n);
        assert(push_unvisited_rev(stack, nbrs, visited) == push_unvisited_rev(s1, init, visited));
    }
}

/// Whether, at position `k` of `order`, the next node is the first neighbour
/// of `order[k]` not yet in the order, when there is one.
pub open spec fn follows_first_unseen(adj: Seq<Seq<usize>>, order: Seq<usize>, k: int) -> bool {
    match first_unseen(adj[order[k] as int], order.take(k + 1)) {
        Some(v) => k + 1 < order.len() && order[k + 1] == v,
        None => true,
    }
}

proof fn lemma_dfs_run_depth_first(
    adj: Seq<Seq<usize>>,
    visited: Seq<bool>,
    stack: Seq<usize>,
    start: int,
    order: Seq<usize>,
)
    requires
        adjacency_wf(adj),
        visited.len() == adj.len(),
        0 <= start <= adj.len(),
        forall|k: int| 0 <= k < stack.len() ==> #[trigger] stack[k] < adj.len(),
        forall|x: usize| x < adj.len() ==> (visited[x as int] <==> #[trigger] order.contains(x)),
        order.len() > 0 ==> match first_unseen(adj[order.last() as int], order) {
            Some(v) => stack.len() > 0 && stack.last() == v,
            None => true,
        },
    ensures
        dfs_run(adj, visited, stack, start, order).len() >= order.len(),
        dfs_run(adj, visited, stack, start, order).take(order.len() as int) == order,
        forall|k: int| order.len() - 1 <= k < dfs_run(adj, visited, stack, start, order).len() && 0 <= k
            ==> #[trigger] follows_first_unseen(adj, dfs_run(adj, visited, stack, start, order), k),
    decreases count_unvisited(visited), adj.len() - start, stack.len(),
{
    let r = dfs_run(adj, visited, stack, start, order);
    if stack.len() > 0 {
        let idx = stack.last();
        let rest = stack.drop_last();
        assert(stack[stack.len() - 1] == idx);
        assert forall|k: int| 0 <= k < rest.len() implies #[trigger] rest[k] < adj.len() by {
            assert(rest[k] == stack[k]);
        }
        if visited[idx as int] {
            if order.len() > 0 {
                lemma_first_unseen_props(adj[order.last() as int], order);
                if first_unseen(adj[order.last() as int], order) is Some {
                    assert(order.contains(idx));
                }
            }
            lemma_dfs_run_depth_first(adj, visited, rest, start, order);
        } else {
            let v2 = visited.update(idx as int, true);
            let o2 = order.push(idx);
            lemma_visit_decreases(visited, idx as int);
            assert forall|x: usize| x < adj.len() implies (v2[x as int] <==> #[trigger] o2.contains(x)) by {
                if x == idx {
                    assert(o2[o2.len() - 1] == idx);
                } else {
                    if order.contains(x) {
                        let w = choose|w: int| 0 <= w < order.len() && order[w] == x;
                        assert(o2[w] == x);
                    }
                    if o2.contains(x) {
                        let w = choose|w: int| 0 <= w < o2.len() && o2[w] == x;
                        assert(w < order.len());
                        assert(order[w] == x);
                    }
                }
            }
            let nb = adj[idx as int];
            assert forall|j: int| 0 <= j < nb.len() implies #[trigger] nb[j] < v2.len() by {
                assert(adj[idx as int][j] < adj.len());
            }
            assert forall|j: int| 0 <= j < nb.len() implies #[trigger] nb[j] < adj.len() by {
                assert(adj[idx as int][j] < adj.len());
            }
            lemma_push_top(rest, nb, v2, o2);
            lemma_push_bounds(rest, nb, v2, adj.len() as int);
            let st2 = push_unvisited_rev(rest, nb, v2);
            assert(o2.last() == idx);
            lemma_dfs_run_depth_first(adj, v2, st2, start, o2);
            assert(r == dfs_run(adj, v2, st2, start, o2));
            assert(r.take(o2.len() as int) == o2);
            assert(r[order.len() as int] == o2[order.len() as int]);
            assert(r.take(order.len() as int) =~= order) by {
                assert forall|k: int| 0 <= k < order.len() implies r.take(order.len() as int)[k] == order[k] by {
                    assert(r.take(o2.len() as int)[k] == o2[k]);
                }
            }
            if order.len() > 0 {
                let k = order.len() - 1;
                assert(r.take(k + 1) =~= order);
                assert(r[k] == order.last()) by {
                    assert(r.take(o2.len() as int)[k] == o2[k]);
                }
                assert(follows_first_unseen(adj, r, k));
            }
        }
    } else if start < adj.len() {
        if order.len() > 0 {
            assert(first_unseen(adj[order.last() as int], order) is None);
        }
        if visited[start] {
            lemma_dfs_run_depth_first(adj, visited, stack, start + 1, order);
        } else {
            let st = seq![start as usize];
            lemma_dfs_run_depth_first(adj, visited, st, start + 1, order);
        }
    } else {
        assert(r == order);
        assert(order.take(order.len() as int) =~= order);
        if order.len() > 0 {
            assert(first_unseen(adj[order.last() as int], order) is None);
            assert(order.take(order.len() as int) =~= order);
        }
    }
}

/// Depth-first law: whenever a node is recorded and some neighbour of it is
/// not yet recorded, the next node recorded is the first such neighbour in
/// connection order; the route follows a corridor before it backtracks.
pub proof fn law_dfs_follows_first_unvisited(adj: Seq<Seq<usize>>)
    requires
        adjacency_wf(adj),
    ensures
        forall|k: int, j: int|
            0 <= k < dfs_order_spec(adj).len() && 0 <= j < adj[dfs_order_spec(adj)[k] as int].len()
                && !dfs_order_spec(adj).take(k + 1).contains(#[trigger] adj[dfs_order_spec(adj)[k] as int][j])
                && (forall|i: int| 0 <= i < j ==> dfs_order_spec(adj).take(k + 1).contains(
                adj[dfs_order_spec(adj)[k] as int][i],
            )) ==> k + 1 < dfs_order_spec(adj).len() && dfs_order_spec(adj)[k + 1] == adj[dfs_order_spec(adj)[k] as int][j],
{
    let v0 = Seq::new(adj.len(), |i: int| false);
    let o0 = Seq::<usize>::empty();
    lemma_dfs_run_depth_first(adj, v0, Seq::empty(), 0, o0);
    let r = dfs_order_spec(adj);
    assert forall|k: int, j: int|
        0 <= k < r.len() && 0 <= j < adj[r[k] as int].len() && !r.take(k + 1).contains(#[trigger] adj[r[k] as int][j])
            && (forall|i: int| 0 <= i < j ==> r.take(k + 1).contains(adj[r[k] as int][i])) implies k + 1 < r.len()
        && r[k + 1] == adj[r[k] as int][j] by {
        assert(follows_first_unseen(adj, r, k));
        lemma_first_unseen_least(adj[r[k] as int], r.take(k + 1), j);
    }
}

/// Every neighbour index names a node.
pub open spec fn adjacency_wf(adj: Seq<Seq<usize>>) -> bool {
    forall|i: int, j: int| 0 <= i < adj.len() && 0 <= j < adj[i].len() ==> #[trigger] adj[i][j] < adj.len()
}

pub open spec fn adj_view(adj: Seq<Vec<usize>>) -> Seq<Seq<usize>> {
    adj.map_values(|v: Vec<usize>| v@)
}

/// No value occurs twice.
pub open spec fn distinct(s: Seq<usize>) -> bool {
    forall|i: int, j: int| 0 <= i < j < s.len() ==> s[i] != s[j]
}

/// Visit every node in depth-first order, following connections so that
/// consecutive waypoints tend to lie along corridors.
pub fn dfs_order(adj: &Vec<Vec<usize>>) -> (order: Vec<usize>)
    requires
        adjacency_wf(adj_view(adj@)),
    ensures
        order@ == dfs_order_spec(adj_view(adj@)),
        distinct(order@),
        forall|k: int| 0 <= k < order@.len() ==> order@[k] < adj@.len(),
        forall|i: usize| i < adj@.len() ==> #[trigger] order@.contains(i),
        forall|k: int, j: int|
            0 <= k < order@.len() && 0 <= j < adj@[order@[k] as int]@.len()
                && !order@.take(k + 1).contains(#[trigger] adj@[order@[k] as int]@[j])
                && (forall|i: int| 0 <= i < j ==> order@.take(k + 1).contains(adj@[order@[k] as int]@[i]))
                ==> k + 1 < order@.len() && order@[k + 1] == adj@[order@[k] as int]@[j],
{
    let ghost av = adj_view(adj@);
    proof {
        law_dfs_follows_first_unvisited(av);
    }
    let n = adj.len();
    let mut visited: Vec<bool> = Vec::new();
    let mut i: usize = 0;
    while i < n
        invariant
            i <= n,
            visited@ == Seq::new(i as nat, |k: int| false),
        decreases n - i,
    {
        visited.push(false);
        i = i + 1;
    }
    let ghost target = dfs_order_spec(av);
    let mut order: Vec<usize> = Vec::new();
    let mut start: usize = 0;
    assert(visited@ =~= Seq::new(av.len(), |k: int| false));
    while start < n
        invariant
            n == adj@.len(),
            av == adj_view(adj@),
            av.len() == n,
            adjacency_wf(av),
            visited@.len() == n,
            start <= n,
            dfs_run(av, visited@, Seq::empty(), start as int, order@) == target,
            forall|k: usize| k < n ==> (visited@[k as int] <==> #[trigger] order@.contains(k)),
            forall|k: int| 0 <= k < start ==> visited@[k],
            forall|k: int| 0 <= k < order@.len() ==> order@[k] < n,
            distinct(order@),
        decreases n - start,
    {
        if visited[start] {
            start = start + 1;
            continue;
        }
        let mut stack: Vec<usize> = Vec::new();
        stack.push(start);
        assert(stack@ =~= seq![start]);
        while stack.len() > 0
            invariant
                n == adj@.len(),
                av == adj_view(adj@),
                av.len() == n,
                adjacency_wf(av),
                visited@.len() == n,
                start < n,
                dfs_run(av, visited@, stack@, start + 1, order@) == target,
                forall|k: usize| k < n ==> (visited@[k as int] <==> #[trigger] order@.contains(k)),
                forall|k: int| 0 <= k < start ==> visited@[k],
                visited@[start as int] || stack@ == seq![start],
                forall|k: int| 0 <= k < order@.len() ==> order@[k] < n,
                forall|k: int| 0 <= k < stack@.len() ==> stack@[k] < n,
                distinct(order@),
            decreases count_unvisited(visited@), stack@.len(),
        {
            let idx = stack.pop().unwrap();
            if visited[idx] {
                continue;
            }
            let ghost old_visited = visited@;
            let ghost old_order = order@;
            proof {
                lemma_visit_decreases(visited@, idx as int);
            }
            visited.set(idx, true);
            order.push(idx);
            assert forall|k: usize| k < n implies (visited@[k as int] <==> #[trigger] order@.contains(k)) by {
                if k == idx {
                    assert(order@[order@.len() - 1] == idx);
                } else {
                    assert(old_visited[k as int] <==> old_order.contains(k));
                    if old_order.contains(k) {
                        let w = choose|w: int| 0 <= w < old_order.len() && old_order[w] == k;
                        assert(order@[w] == k);
                    }
                    if order@.contains(k) {
                        let w = choose|w: int| 0 <= w < order@.len() && order@[w] == k;
                        assert(w < old_order.len());
                        assert(old_order[w] == k);
                    }
                }
            }
            assert forall|a: int, b: int| 0 <= a < b < order@.len() implies order@[a] != order@[b] by {
                if b == order@.len() - 1 {
                    assert(old_order[a] == order@[a]);
                    assert(old_order.contains(order@[a]));
                }
            }
            let ghost stack_before = stack@;
            let nbrs = &adj[idx];
            assert(nbrs@ == av[idx as int]);
            let mut j: usize = nbrs.len();
            assert(nbrs@.take(j as int) =~= nbrs@);
            while j > 0
                invariant
                    j <= nbrs@.len(),
                    n == visited@.len(),
                    nbrs@ == av[idx as int],
                    idx < n,
                    av.len() == n,
                    adjacency_wf(av),
                    push_unvisited_rev(stack_before, nbrs@, visited@) == push_unvisited_rev(stack@, nbrs@.take(j as int), visited@),
                    forall|k: int| 0 <= k < stack@.len() ==> stack@[k] < n,
                decreases j,
            {
                assert(nbrs@.take(j as int).drop_last() =~= nbrs@.take(j - 1));
                j = j - 1;
                let nb = nbrs[j];
                assert(av[idx as int][j as int] < av.len());
                if !visited[nb] {
                    stack.push(nb);
                }
            }
            assert(visited@ == old_visited.update(idx as int, true));
        }
        assert(stack@ =~= Seq::<usize>::empty());
        start = start + 1;
    }
    proof {
        let r = order@;
        assert forall|k: int, j: int|
            0 <= k < r.len() && 0 <= j < adj@[r[k] as int]@.len()
                && !r.take(k + 1).contains(#[trigger] adj@[r[k] as int]@[j])
                && (forall|i: int| 0 <= i < j ==> r.take(k + 1).contains(adj@[r[k] as int]@[i]))
                implies k + 1 < r.len() && r[k + 1] == adj@[r[k] as int]@[j] by {
            assert(av[r[k] as int] == adj@[r[k] as int]@);
            assert(!r.take(k + 1).contains(av[r[k] as int][j]));
        }
    }
    order
}

fn kept_positions(keep: &Vec<bool>) -> (kept: Vec<usize>)
    ensures
        kept@ == kept_indices(keep@),
        forall|a: int, b: int| 0 <= a < b < kept@.len() ==> kept@[a] < kept@[b],
        forall|k: int| 0 <= k < kept@.len() ==> kept@[k] < keep@.len() && keep@[kept@[k] as int],
        forall|i: usize| i < keep@.len() && keep@[i as int] ==> #[trigger] kept@.contains(i),
{
    let mut kept: Vec<usize> = Vec::new();
    let mut i: usize = 0;
    while i < keep.len()
        invariant
            i <= keep@.len(),
            kept@ == kept_indices(keep@.take(i as int)),
            forall|a: int, b: int| 0 <= a < b < kept@.len() ==> kept@[a] < kept@[b],
            forall|k: int| 0 <= k < kept@.len() ==> kept@[k] < i && keep@[kept@[k] as int],
            forall|m: usize| m < i && keep@[m as int] ==> #[trigger] kept@.contains(m),
        decreases keep@.len() - i,
    {
        assert(keep@.take(i + 1).drop_last() =~= keep@.take(i as int));
        let ghost old_kept = kept@;
        if keep[i] {
            kept.push(i);
            assert(kept@[kept@.len() - 1] == i);
        }
        assert forall|m: usize| m < i + 1 && keep@[m as int] implies #[trigger] kept@.contains(m) by {
            if m < i {
                assert(old_kept.contains(m));
                let w = choose|w: int| 0 <= w < old_kept.len() && old_kept[w] == m;
                assert(kept@[w] == m);
            } else {
                assert(kept@[kept@.len() - 1] == m);
            }
        }
        i = i + 1;
    }
    assert(keep@.take(keep@.len() as int) =~= keep@);
    kept
}

fn find_last(ids: &Vec<u32>, id: u32) -> (r: Option<usize>)
    ensures
        match last_index_of(ids@, id) {
            Some(j) => r == Some(j as usize),
            None => r is None,
        },
        r matches Some(j) ==> j < ids@.len(),
{
    let mut j: usize = ids.len();
    assert(ids@.take(j as int) =~= ids@);
    while j > 0
        invariant
            j <= ids@.len(),
            last_index_of(ids@, id) == last_index_of(ids@.take(j as int), id),
        decreases j,
    {
        assert(ids@.take(j as int).drop_last() =~= ids@.take(j - 1));
        if ids[j - 1] == id {
            return Some(j - 1);
        }
        j = j - 1;
    }
    None
}

proof fn lemma_last_index_in_range(ids: Seq<u32>, id: u32)
    ensures
        last_index_of(ids, id) matches Some(j) ==> 0 <= j < ids.len(),
    decreases ids.len(),
{
    if ids.len() > 0 && ids.last() != id {
        lemma_last_index_in_range(ids.drop_last(), id);
    }
}

fn resolve_connections(conns: &Vec<u32>, ids: &Vec<u32>) -> (r: Vec<usize>)
    ensures
        r@ == resolve_ids(conns@, ids@),
        forall|k: int| 0 <= k < r@.len() ==> r@[k] < ids@.len(),
{
    let mut r: Vec<usize> = Vec::new();
    let mut i: usize = 0;
    while i < conns.len()
        invariant
            i <= conns@.len(),
            r@ == resolve_ids(conns@.take(i as int), ids@),
            forall|k: int| 0 <= k < r@.len() ==> r@[k] < ids@.len(),
        decreases conns@.len() - i,
    {
        assert(conns@.take(i + 1).drop_last() =~= conns@.take(i as int));
        proof {
            lemma_last_index_in_range(ids@, conns@[i as int]);
        }
        match find_last(ids, conns[i]) {
            Some(j) => r.push(j),
            None => {},
        }
        i = i + 1;
    }
    assert(conns@.take(conns@.len() as int) =~= conns@);
    r
}

/// The route through the kept areas: area indices (into the file's area list) in
/// depth-first order over the connection graph.
pub open spec fn spec_route(areas: Seq<NavAreaSpec>, keep: Seq<bool>) -> Seq<usize> {
    let kept = kept_indices(keep);
    dfs_order_spec(adjacency(areas, keep)).map_values(|p: usize| kept[p as int])
}

/// Order the kept areas (`keep[i]` says whether area `i` passed the caller's
/// extent and height filters) into a camera route. Connections are resolved by
/// id among the kept areas only. Fewer than four areas cannot carry the
/// Catmull-Rom spline and are refused.
pub fn order_waypoints(areas: &Vec<NavArea>, keep: &Vec<bool>) -> (r: Result<Vec<usize>, NavError>)
    requires
        keep@.len() == areas@.len(),
    ensures
        ({
            let route = spec_route(areas@.map_values(|a: NavArea| a@), keep@);
            if route.len() < 4 {
                r == Err::<Vec<usize>, NavError>(NavError::TooFewAreas(route.len() as usize))
            } else {
                r matches Ok(v) && v@ == route
            }
        }),
        r matches Ok(v) ==> distinct(v@),
        r matches Ok(v) ==> forall|i: usize| i < areas@.len() ==> (keep@[i as int] <==> #[trigger] v@.contains(i)),
{
    let ghost av = areas@.map_values(|a: NavArea| a@);
    let kept = kept_positions(keep);
    let mut ids: Vec<u32> = Vec::new();
    let mut k: usize = 0;
    while k < kept.len()
        invariant
            k <= kept@.len(),
            keep@.len() == areas@.len(),
            forall|m: int| 0 <= m < kept@.len() ==> kept@[m] < keep@.len(),
            ids@ == kept@.take(k as int).map_values(|q: usize| areas@[q as int].id),
        decreases kept@.len() - k,
    {
        assert(kept@.take(k + 1).map_values(|q: usize| areas@[q as int].id) =~= ids@.push(areas@[kept@[k as int] as int].id));
        ids.push(areas[kept[k]].id);
        k = k + 1;
    }
    assert(kept@.take(kept@.len() as int) =~= kept@);
    assert(ids@ =~= kept_ids(av, kept@));
    let mut adj: Vec<Vec<usize>> = Vec::new();
    let mut k: usize = 0;
    while k < kept.len()
        invariant
            k <= kept@.len(),
            keep@.len() == areas@.len(),
            av == areas@.map_values(|a: NavArea| a@),
            kept@ == kept_indices(keep@),
            ids@ == kept_ids(av, kept@),
            ids@.len() == kept@.len(),
            forall|m: int| 0 <= m < kept@.len() ==> kept@[m] < keep@.len(),
            adj_view(adj@) == adjacency(av, keep@).take(k as int),
            forall|a: int, b: int| 0 <= a < adj@.len() && 0 <= b < adj@[a]@.len() ==> #[trigger] adj@[a]@[b] < kept@.len(),
        decreases kept@.len() - k,
    {
        let conns = resolve_connections(&areas[kept[k]].connections, &ids);
        let ghost cv = conns@;
        assert(av[kept@[k as int] as int].connections == areas@[kept@[k as int] as int].connections@);
        assert(cv == adjacency(av, keep@)[k as int]);
        let ghost old_adj = adj_view(adj@);
        adj.push(conns);
        assert(adj_view(adj@) =~= old_adj.push(cv));
        assert(adjacency(av, keep@).take(k + 1) =~= adjacency(av, keep@).take(k as int).push(cv));
        k = k + 1;
    }
    assert(adjacency(av, keep@).take(kept@.len() as int) =~= adjacency(av, keep@));
    let order = dfs_order(&adj);
    let mut route: Vec<usize> = Vec::new();
    let mut m: usize = 0;
    while m < order.len()
        invariant
            m <= order@.len(),
            forall|q: int| 0 <= q < order@.len() ==> order@[q] < kept@.len(),
            route@ == order@.take(m as int).map_values(|p: usize| kept@[p as int]),
        decreases order@.len() - m,
    {
        assert(order@.take(m + 1).map_values(|p: usize| kept@[p as int]) =~= route@.push(kept@[order@[m as int] as int]));
        route.push(kept[order[m]]);
        m = m + 1;
    }
    assert(order@.take(order@.len() as int) =~= order@);
    assert(route@ =~= spec_route(av, keep@));
    assert forall|a: int, b: int| 0 <= a < b < route@.len() implies route@[a] != route@[b] by {
        assert(order@[a] != order@[b]);
        if order@[a] < order@[b] {
            assert(kept@[order@[a] as int] < kept@[order@[b] as int]);
        } else {
            assert(kept@[order@[b] as int] < kept@[order@[a] as int]);
        }
    }
    assert forall|i: usize| i < areas@.len() implies (keep@[i as int] <==> #[trigger] route@.contains(i)) by {
        if keep@[i as int] {
            assert(kept@.contains(i));
            let p = choose|p: int| 0 <= p < kept@.len() && kept@[p] == i;
            assert(order@.contains(p as usize));
            let w = choose|w: int| 0 <= w < order@.len() && order@[w] == p as usize;
            assert(route@[w] == i);
        }
        if route@.contains(i) {
            let w = choose|w: int| 0 <= w < route@.len() && route@[w] == i;
            assert(route@[w] == kept@[order@[w] as int]);
        }
    }
    if route.len() < 4 {
        return Err(NavError::TooFewAreas(route.len()));
    }
    Ok(route)
}

// ---------------------------------------------------------------------------
// Messages.
// ---------------------------------------------------------------------------

/// The character of a hexadecimal digit, upper case.
pub open spec fn hex_digit(d: int) -> char {
    seq!['0', '1', '2', '3', '4', '5', '6', '7', '8', '9', 'A', 'B', 'C', 'D', 'E', 'F'][d]
}

/// Eight upper-case hexadecimal digits of `n`, most significant first.
pub open spec fn hex8(n: u32) -> Seq<char> {
    Seq::new(8, |k: int| hex_digit(((n as int) / vstd::arithmetic::power::pow(16, (7 - k) as nat)) % 16))
}

/// The name of corner coordinate `k` of an area.
pub open spec fn corner_name(k: u8) -> Seq<char> {
    if k == 0 {
        seq!['n', 'w', '_', 'x']
    } else if k == 1 {
        seq!['n', 'w', '_', 'y']
    } else if k == 2 {
        seq!['n', 'w', '_', 'z']
    } else if k == 3 {
        seq!['s', 'e', '_', 'x']
    } else if k == 4 {
        seq!['s', 'e', '_', 'y']
    } else if k == 5 {
        seq!['s', 'e', '_', 'z']
    } else if k == 6 {
        seq!['n', 'e', '_', 'z']
    } else {
        seq!['s', 'w', '_', 'z']
    }
}

/// What the file was being read for, as the error's context.
pub open spec fn field_text(f: NavField) -> Seq<char> {
    match f {
        NavField::Magic => seq!['r', 'e', 'a', 'd', 'i', 'n', 'g', ' ', 'N', 'A', 'V', ' ', 'm', 'a', 'g', 'i', 'c'],
        NavField::Version => seq!['r', 'e', 'a', 'd', 'i', 'n', 'g', ' ', 'N', 'A', 'V', ' ', 'v', 'e', 'r', 's', 'i', 'o', 'n'],
        NavField::BspSize => seq!['v', '5', ':', ' ', 's', 'k', 'i', 'p', 'p', 'i', 'n', 'g', ' ', 'b', 's', 'p', '_', 's', 'i', 'z', 'e'],
        NavField::PlaceCount => seq!['v', '5', ':', ' ', 'r', 'e', 'a', 'd', 'i', 'n', 'g', ' ', 'p', 'l', 'a', 'c', 'e', '_', 'c', 'o', 'u', 'n', 't'],
        NavField::PlaceNameLen(i) => seq!['v', '5', ':', ' ', 'p', 'l', 'a', 'c', 'e', ' '] + decimal(i as nat) + seq![':', ' ', 'r', 'e', 'a', 'd', 'i', 'n', 'g', ' ', 'n', 'a', 'm', 'e', '_', 'l', 'e', 'n'],
        NavField::PlaceName(i, n) => seq!['v', '5', ':', ' ', 'p', 'l', 'a', 'c', 'e', ' '] + decimal(i as nat) + seq![':', ' ', 's', 'k', 'i', 'p', 'p', 'i', 'n', 'g', ' '] + decimal(n as nat) + seq![' ', 'n', 'a', 'm', 'e', ' ', 'b', 'y', 't', 'e', 's'],
        NavField::AreaCount => seq!['r', 'e', 'a', 'd', 'i', 'n', 'g', ' ', 'a', 'r', 'e', 'a', ' ', 'c', 'o', 'u', 'n', 't'],
        NavField::AreaId(a) => seq!['a', 'r', 'e', 'a', ' '] + decimal(a as nat) + seq![':', ' ', 'r', 'e', 'a', 'd', 'i', 'n', 'g', ' ', 'i', 'd'],
        NavField::FlagsV5(a) => seq!['a', 'r', 'e', 'a', ' '] + decimal(a as nat) + seq![':', ' ', 'r', 'e', 'a', 'd', 'i', 'n', 'g', ' ', 'f', 'l', 'a', 'g', 's', ' ', '(', 'v', '5', ' ', 'u', '8', ')'],
        NavField::FlagsV6(a) => seq!['a', 'r', 'e', 'a', ' '] + decimal(a as nat) + seq![':', ' ', 'r', 'e', 'a', 'd', 'i', 'n', 'g', ' ', 'f', 'l', 'a', 'g', 's', ' ', '(', 'v', '6', '+', ' ', 'u', '3', '2', ')'],
        NavField::Corner(a, k) => seq!['a', 'r', 'e', 'a', ' '] + decimal(a as nat) + seq![':', ' '] + corner_name(k),
        NavField::ConnectionCount(a) => seq!['a', 'r', 'e', 'a', ' '] + decimal(a as nat) + seq![':', ' ', 'c', 'o', 'n', 'n', 'e', 'c', 't', 'i', 'o', 'n', ' ', 'c', 'o', 'u', 'n', 't'],
        NavField::ConnectionId(a) => seq!['a', 'r', 'e', 'a', ' '] + decimal(a as nat) + seq![':', ' ', 'r', 'e', 'a', 'd', 'i', 'n', 'g', ' ', 'c', 'o', 'n', 'n', 'e', 'c', 't', 'i', 'o', 'n', ' ', 'i', 'd'],
        NavField::HidingCount(a) => seq!['a', 'r', 'e', 'a', ' '] + decimal(a as nat) + seq![':', ' ', 'h', 'i', 'd', 'i', 'n', 'g', '_', 'c', 'o', 'u', 'n', 't'],
        NavField::HidingSpots(a, n) => seq!['a', 'r', 'e', 'a', ' '] + decimal(a as nat) + seq![':', ' ', 's', 'k', 'i', 'p', 'p', 'i', 'n', 'g', ' '] + decimal(n as nat) + seq![' ', 'h', 'i', 'd', 'i', 'n', 'g', ' ', 's', 'p', 'o', 't', 's'],
        NavField::ApproachCount(a) => seq!['a', 'r', 'e', 'a', ' '] + decimal(a as nat) + seq![':', ' ', 'a', 'p', 'p', 'r', 'o', 'a', 'c', 'h', '_', 'c', 'o', 'u', 'n', 't'],
        NavField::ApproachSpots(a, n) => seq!['a', 'r', 'e', 'a', ' '] + decimal(a as nat) + seq![':', ' ', 's', 'k', 'i', 'p', 'p', 'i', 'n', 'g', ' '] + decimal(n as nat) + seq![' ', 'a', 'p', 'p', 'r', 'o', 'a', 'c', 'h', ' ', 's', 'p', 'o', 't', 's'],
        NavField::PathCount(a) => seq!['a', 'r', 'e', 'a', ' '] + decimal(a as nat) + seq![':', ' ', 'p', 'a', 't', 'h', '_', 'c', 'o', 'u', 'n', 't'],
        NavField::PathFromId(a, i) => seq!['a', 'r', 'e', 'a', ' '] + decimal(a as nat) + seq![' ', 'p', 'a', 't', 'h', ' '] + decimal(i as nat) + seq![':', ' ', 'f', 'r', 'o', 'm', '_', 'i', 'd'],
        NavField::PathFromDir(a, i) => seq!['a', 'r', 'e', 'a', ' '] + decimal(a as nat) + seq![' ', 'p', 'a', 't', 'h', ' '] + decimal(i as nat) + seq![':', ' ', 'f', 'r', 'o', 'm', '_', 'd', 'i', 'r'],
        NavField::PathToId(a, i) => seq!['a', 'r', 'e', 'a', ' '] + decimal(a as nat) + seq![' ', 'p', 'a', 't', 'h', ' '] + decimal(i as nat) + seq![':', ' ', 't', 'o', '_', 'i', 'd'],
        NavField::PathToDir(a, i) => seq!['a', 'r', 'e', 'a', ' '] + decimal(a as nat) + seq![' ', 'p', 'a', 't', 'h', ' '] + decimal(i as nat) + seq![':', ' ', 't', 'o', '_', 'd', 'i', 'r'],
        NavField::PathSpotCount(a, i) => seq!['a', 'r', 'e', 'a', ' '] + decimal(a as nat) + seq![' ', 'p', 'a', 't', 'h', ' '] + decimal(i as nat) + seq![':', ' ', 's', 'p', 'o', 't', '_', 'c', 'o', 'u', 'n', 't'],
        NavField::PathSpots(a, i, n) => seq!['a', 'r', 'e', 'a', ' '] + decimal(a as nat) + seq![' ', 'p', 'a', 't', 'h', ' '] + decimal(i as nat) + seq![':', ' ', 's', 'k', 'i', 'p', 'p', 'i', 'n', 'g', ' '] + decimal(n as nat) + seq![' ', 's', 'p', 'o', 't', 's'],
        NavField::PlaceId(a) => seq!['a', 'r', 'e', 'a', ' '] + decimal(a as nat) + seq![':', ' ', 'p', 'l', 'a', 'c', 'e', '_', 'i', 'd'],
    }
}

/// The read that ran past the end of the file.
pub open spec fn cause_text(kind: ReadKind, offset: usize, needed: usize) -> Seq<char> {
    match kind {
        ReadKind::U8 => seq!['u', 'n', 'e', 'x', 'p', 'e', 'c', 't', 'e', 'd', ' ', 'E', 'O', 'F', ' ', 'r', 'e', 'a', 'd', 'i', 'n', 'g', ' ', 'u', '8', ' ', 'a', 't', ' ', 'o', 'f', 'f', 's', 'e', 't', ' '] + decimal(offset as nat),
        ReadKind::U16 => seq!['u', 'n', 'e', 'x', 'p', 'e', 'c', 't', 'e', 'd', ' ', 'E', 'O', 'F', ' ', 'r', 'e', 'a', 'd', 'i', 'n', 'g', ' ', 'u', '1', '6', ' ', 'a', 't', ' ', 'o', 'f', 'f', 's', 'e', 't', ' '] + decimal(offset as nat),
        ReadKind::U32 => seq!['u', 'n', 'e', 'x', 'p', 'e', 'c', 't', 'e', 'd', ' ', 'E', 'O', 'F', ' ', 'r', 'e', 'a', 'd', 'i', 'n', 'g', ' ', 'u', '3', '2', ' ', 'a', 't', ' ', 'o', 'f', 'f', 's', 'e', 't', ' '] + decimal(offset as nat),
        ReadKind::F32 => seq!['u', 'n', 'e', 'x', 'p', 'e', 'c', 't', 'e', 'd', ' ', 'E', 'O', 'F', ' ', 'r', 'e', 'a', 'd', 'i', 'n', 'g', ' ', 'f', '3', '2', ' ', 'a', 't', ' ', 'o', 'f', 'f', 's', 'e', 't', ' '] + decimal(offset as nat),
        ReadKind::Skip => seq!['u', 'n', 'e', 'x', 'p', 'e', 'c', 't', 'e', 'd', ' ', 'E', 'O', 'F', ' ', 's', 'k', 'i', 'p', 'p', 'i', 'n', 'g', ' '] + decimal(needed as nat) + seq![' ', 'b', 'y', 't', 'e', 's', ' ', 'a', 't', ' ', 'o', 'f', 'f', 's', 'e', 't', ' '] + decimal(offset as nat),
    }
}

/// The message shown for a refused NAV file: for a read past the end, what
/// it was for, then the read.
pub open spec fn nav_error_text(e: NavError) -> Seq<char> {
    match e {
        NavError::Truncated { field, kind, offset, needed } => field_text(field) + seq![':', ' '] + cause_text(kind, offset, needed),
        NavError::BadMagic(m) => seq!['i', 'n', 'v', 'a', 'l', 'i', 'd', ' ', 'N', 'A', 'V', ' ', 'm', 'a', 'g', 'i', 'c', ':', ' ', 'e', 'x', 'p', 'e', 'c', 't', 'e', 'd', ' ', '0', 'x', 'F', 'E', 'E', 'D', 'F', 'A', 'C', 'E', ',', ' ', 'g', 'o', 't', ' ', '0', 'x'] + hex8(m),
        NavError::VersionTooOld(v) => seq!['N', 'A', 'V', ' ', 'v', 'e', 'r', 's', 'i', 'o', 'n', ' '] + decimal(v as nat) + seq![' ', 'i', 's', ' ', 't', 'o', 'o', ' ', 'o', 'l', 'd', ' ', '(', 'n', 'e', 'e', 'd', ' ', '>', '=', ' ', '2', ',', ' ', 'C', 'S', ' ', '1', '.', '6', ' ', 'u', 's', 'e', 's', ' ', '6', ')'],
        NavError::TooFewAreas(n) => seq!['N', 'A', 'V', ' ', 'f', 'i', 'l', 'e', ' ', 'h', 'a', 's', ' ', 'o', 'n', 'l', 'y', ' '] + decimal(n as nat)
            + seq![' ', 'a', 'r', 'e', 'a', 's', ';', ' ', 'a', 't', ' ', 'l', 'e', 'a', 's', 't', ' ', '4', ' ', 'a', 'r', 'e', ' ', 'r', 'e', 'q', 'u', 'i', 'r', 'e', 'd', ' ', 'f', 'o', 'r', ' ', 't', 'h', 'e', ' ', 'C', 'a', 't', 'm', 'u', 'l', 'l', '-', 'R', 'o', 'm', ' ', 's', 'p', 'l', 'i', 'n', 'e'],
    }
}

fn corner_chars(k: u8) -> (r: Vec<char>)
    ensures
        r@ == corner_name(k),
{
    let mut out: Vec<char> = Vec::new();
    if k == 0 {
        push_chars(&mut out, &['n', 'w', '_', 'x']);
    } else if k == 1 {
        push_chars(&mut out, &['n', 'w', '_', 'y']);
    } else if k == 2 {
        push_chars(&mut out, &['n', 'w', '_', 'z']);
    } else if k == 3 {
        push_chars(&mut out, &['s', 'e', '_', 'x']);
    } else if k == 4 {
        push_chars(&mut out, &['s', 'e', '_', 'y']);
    } else if k == 5 {
        push_chars(&mut out, &['s', 'e', '_', 'z']);
    } else if k == 6 {
        push_chars(&mut out, &['n', 'e', '_', 'z']);
    } else {
        push_chars(&mut out, &['s', 'w', '_', 'z']);
    }
    proof {
        assert(out@ =~= corner_name(k));
    }
    out
}

fn field_chars(f: NavField) -> (r: Vec<char>)
    ensures
        r@ == field_text(f),
{
    let mut out: Vec<char> = Vec::new();
    match f {
        NavField::Magic => {
            push_chars(&mut out, &['r', 'e', 'a', 'd', 'i', 'n', 'g', ' ', 'N', 'A', 'V', ' ', 'm', 'a', 'g', 'i', 'c']);
        },
        NavField::Version => {
            push_chars(&mut out, &['r', 'e', 'a', 'd', 'i', 'n', 'g', ' ', 'N', 'A', 'V', ' ', 'v', 'e', 'r', 's', 'i', 'o', 'n']);
        },
        NavField::BspSize => {
            push_chars(&mut out, &['v', '5', ':', ' ', 's', 'k', 'i', 'p', 'p', 'i', 'n', 'g', ' ', 'b', 's', 'p', '_', 's', 'i', 'z', 'e']);
        },
        NavField::PlaceCount => {
            push_chars(&mut out, &['v', '5', ':', ' ', 'r', 'e', 'a', 'd', 'i', 'n', 'g', ' ', 'p', 'l', 'a', 'c', 'e', '_', 'c', 'o', 'u', 'n', 't']);
        },
        NavField::PlaceNameLen(i) => {
            push_chars(&mut out, &['v', '5', ':', ' ', 'p', 'l', 'a', 'c', 'e', ' ']);
            let d = decimal_chars(i as u64);
            push_chars(&mut out, d.as_slice());
            push_chars(&mut out, &[':', ' ', 'r', 'e', 'a', 'd', 'i', 'n', 'g', ' ', 'n', 'a', 'm', 'e', '_', 'l', 'e', 'n']);
        },
        NavField::PlaceName(i, n) => {
            push_chars(&mut out, &['v', '5', ':', ' ', 'p', 'l', 'a', 'c', 'e', ' ']);
            let d = decimal_chars(i as u64);
            push_chars(&mut out, d.as_slice());
            push_chars(&mut out, &[':', ' ', 's', 'k', 'i', 'p', 'p', 'i', 'n', 'g', ' ']);
            let d = decimal_chars(n as u64);
            push_chars(&mut out, d.as_slice());
            push_chars(&mut out, &[' ', 'n', 'a', 'm', 'e', ' ', 'b', 'y', 't', 'e', 's']);
        },
        NavField::AreaCount => {
            push_chars(&mut out, &['r', 'e', 'a', 'd', 'i', 'n', 'g', ' ', 'a', 'r', 'e', 'a', ' ', 'c', 'o', 'u', 'n', 't']);
        },
        NavField::AreaId(a) => {
            push_chars(&mut out, &['a', 'r', 'e', 'a', ' ']);
            let d = decimal_chars(a as u64);
            push_chars(&mut out, d.as_slice());
            push_chars(&mut out, &[':', ' ', 'r', 'e', 'a', 'd', 'i', 'n', 'g', ' ', 'i', 'd']);
        },
        NavField::FlagsV5(a) => {
            push_chars(&mut out, &['a', 'r', 'e', 'a', ' ']);
            let d = decimal_chars(a as u64);
            push_chars(&mut out, d.as_slice());
            push_chars(&mut out, &[':', ' ', 'r', 'e', 'a', 'd', 'i', 'n', 'g', ' ', 'f', 'l', 'a', 'g', 's', ' ', '(', 'v', '5', ' ', 'u', '8', ')']);
        },
        NavField::FlagsV6(a) => {
            push_chars(&mut out, &['a', 'r', 'e', 'a', ' ']);
            let d = decimal_chars(a as u64);
            push_chars(&mut out, d.as_slice());
            push_chars(&mut out, &[':', ' ', 'r', 'e', 'a', 'd', 'i', 'n', 'g', ' ', 'f', 'l', 'a', 'g', 's', ' ', '(', 'v', '6', '+', ' ', 'u', '3', '2', ')']);
        },
        NavField::Corner(a, k) => {
            push_chars(&mut out, &['a', 'r', 'e', 'a', ' ']);
            let d = decimal_chars(a as u64);
            push_chars(&mut out, d.as_slice());
            push_chars(&mut out, &[':', ' ']);
            let c = corner_chars(k);
            push_chars(&mut out, c.as_slice());
        },
        NavField::ConnectionCount(a) => {
            push_chars(&mut out, &['a', 'r', 'e', 'a', ' ']);
            let d = decimal_chars(a as u64);
            push_chars(&mut out, d.as_slice());
            push_chars(&mut out, &[':', ' ', 'c', 'o', 'n', 'n', 'e', 'c', 't', 'i', 'o', 'n', ' ', 'c', 'o', 'u', 'n', 't']);
        },
        NavField::ConnectionId(a) => {
            push_chars(&mut out, &['a', 'r', 'e', 'a', ' ']);
            let d = decimal_chars(a as u64);
            push_chars(&mut out, d.as_slice());
            push_chars(&mut out, &[':', ' ', 'r', 'e', 'a', 'd', 'i', 'n', 'g', ' ', 'c', 'o', 'n', 'n', 'e', 'c', 't', 'i', 'o', 'n', ' ', 'i', 'd']);
        },
        NavField::HidingCount(a) => {
            push_chars(&mut out, &['a', 'r', 'e', 'a', ' ']);
            let d = decimal_chars(a as u64);
            push_chars(&mut out, d.as_slice());
            push_chars(&mut out, &[':', ' ', 'h', 'i', 'd', 'i', 'n', 'g', '_', 'c', 'o', 'u', 'n', 't']);
        },
        NavField::HidingSpots(a, n) => {
            push_chars(&mut out, &['a', 'r', 'e', 'a', ' ']);
            let d = decimal_chars(a as u64);
            push_chars(&mut out, d.as_slice());
            push_chars(&mut out, &[':', ' ', 's', 'k', 'i', 'p', 'p', 'i', 'n', 'g', ' ']);
            let d = decimal_chars(n as u64);
            push_chars(&mut out, d.as_slice());
            push_chars(&mut out, &[' ', 'h', 'i', 'd', 'i', 'n', 'g', ' ', 's', 'p', 'o', 't', 's']);
        },
        NavField::ApproachCount(a) => {
            push_chars(&mut out, &['a', 'r', 'e', 'a', ' ']);
            let d = decimal_chars(a as u64);
            push_chars(&mut out, d.as_slice());
            push_chars(&mut out, &[':', ' ', 'a', 'p', 'p', 'r', 'o', 'a', 'c', 'h', '_', 'c', 'o', 'u', 'n', 't']);
        },
        NavField::ApproachSpots(a, n) => {
            push_chars(&mut out, &['a', 'r', 'e', 'a', ' ']);
            let d = decimal_chars(a as u64);
            push_chars(&mut out, d.as_slice());
            push_chars(&mut out, &[':', ' ', 's', 'k', 'i', 'p', 'p', 'i', 'n', 'g', ' ']);
            let d = decimal_chars(n as u64);
            push_chars(&mut out, d.as_slice());
            push_chars(&mut out, &[' ', 'a', 'p', 'p', 'r', 'o', 'a', 'c', 'h', ' ', 's', 'p', 'o', 't', 's']);
        },
        NavField::PathCount(a) => {
            push_chars(&mut out, &['a', 'r', 'e', 'a', ' ']);
            let d = decimal_chars(a as u64);
            push_chars(&mut out, d.as_slice());
            push_chars(&mut out, &[':', ' ', 'p', 'a', 't', 'h', '_', 'c', 'o', 'u', 'n', 't']);
        },
        NavField::PathFromId(a, i) => {
            push_chars(&mut out, &['a', 'r', 'e', 'a', ' ']);
            let d = decimal_chars(a as u64);
            push_chars(&mut out, d.as_slice());
            push_chars(&mut out, &[' ', 'p', 'a', 't', 'h', ' ']);
            let d = decimal_chars(i as u64);
            push_chars(&mut out, d.as_slice());
            push_chars(&mut out, &[':', ' ', 'f', 'r', 'o', 'm', '_', 'i', 'd']);
        },
        NavField::PathFromDir(a, i) => {
            push_chars(&mut out, &['a', 'r', 'e', 'a', ' ']);
            let d = decimal_chars(a as u64);
            push_chars(&mut out, d.as_slice());
            push_chars(&mut out, &[' ', 'p', 'a', 't', 'h', ' ']);
            let d = decimal_chars(i as u64);
            push_chars(&mut out, d.as_slice());
            push_chars(&mut out, &[':', ' ', 'f', 'r', 'o', 'm', '_', 'd', 'i', 'r']);
        },
        NavField::PathToId(a, i) => {
            push_chars(&mut out, &['a', 'r', 'e', 'a', ' ']);
            let d = decimal_chars(a as u64);
            push_chars(&mut out, d.as_slice());
            push_chars(&mut out, &[' ', 'p', 'a', 't', 'h', ' ']);
            let d = decimal_chars(i as u64);
            push_chars(&mut out, d.as_slice());
            push_chars(&mut out, &[':', ' ', 't', 'o', '_', 'i', 'd']);
        },
        NavField::PathToDir(a, i) => {
            push_chars(&mut out, &['a', 'r', 'e', 'a', ' ']);
            let d = decimal_chars(a as u64);
            push_chars(&mut out, d.as_slice());
            push_chars(&mut out, &[' ', 'p', 'a', 't', 'h', ' ']);
            let d = decimal_chars(i as u64);
            push_chars(&mut out, d.as_slice());
            push_chars(&mut out, &[':', ' ', 't', 'o', '_', 'd', 'i', 'r']);
        },
        NavField::PathSpotCount(a, i) => {
            push_chars(&mut out, &['a', 'r', 'e', 'a', ' ']);
            let d = decimal_chars(a as u64);
            push_chars(&mut out, d.as_slice());
            push_chars(&mut out, &[' ', 'p', 'a', 't', 'h', ' ']);
            let d = decimal_chars(i as u64);
            push_chars(&mut out, d.as_slice());
            push_chars(&mut out, &[':', ' ', 's', 'p', 'o', 't', '_', 'c', 'o', 'u', 'n', 't']);
        },
        NavField::PathSpots(a, i, n) => {
            push_chars(&mut out, &['a', 'r', 'e', 'a', ' ']);
            let d = decimal_chars(a as u64);
            push_chars(&mut out, d.as_slice());
            push_chars(&mut out, &[' ', 'p', 'a', 't', 'h', ' ']);
            let d = decimal_chars(i as u64);
            push_chars(&mut out, d.as_slice());
            push_chars(&mut out, &[':', ' ', 's', 'k', 'i', 'p', 'p', 'i', 'n', 'g', ' ']);
            let d = decimal_chars(n as u64);
            push_chars(&mut out, d.as_slice());
            push_chars(&mut out, &[' ', 's', 'p', 'o', 't', 's']);
        },
        NavField::PlaceId(a) => {
            push_chars(&mut out, &['a', 'r', 'e', 'a', ' ']);
            let d = decimal_chars(a as u64);
            push_chars(&mut out, d.as_slice());
            push_chars(&mut out, &[':', ' ', 'p', 'l', 'a', 'c', 'e', '_', 'i', 'd']);
        },
    }
    proof {
        assert(out@ =~= field_text(f));
    }
    out
}

fn cause_chars(kind: ReadKind, offset: usize, needed: usize) -> (r: Vec<char>)
    ensures
        r@ == cause_text(kind, offset, needed),
{
    let mut out: Vec<char> = Vec::new();
    match kind {
        ReadKind::U8 => {
            push_chars(&mut out, &['u', 'n', 'e', 'x', 'p', 'e', 'c', 't', 'e', 'd', ' ', 'E', 'O', 'F', ' ', 'r', 'e', 'a', 'd', 'i', 'n', 'g', ' ', 'u', '8', ' ', 'a', 't', ' ', 'o', 'f', 'f', 's', 'e', 't', ' ']);
        },
        ReadKind::U16 => {
            push_chars(&mut out, &['u', 'n', 'e', 'x', 'p', 'e', 'c', 't', 'e', 'd', ' ', 'E', 'O', 'F', ' ', 'r', 'e', 'a', 'd', 'i', 'n', 'g', ' ', 'u', '1', '6', ' ', 'a', 't', ' ', 'o', 'f', 'f', 's', 'e', 't', ' ']);
        },
        ReadKind::U32 => {
            push_chars(&mut out, &['u', 'n', 'e', 'x', 'p', 'e', 'c', 't', 'e', 'd', ' ', 'E', 'O', 'F', ' ', 'r', 'e', 'a', 'd', 'i', 'n', 'g', ' ', 'u', '3', '2', ' ', 'a', 't', ' ', 'o', 'f', 'f', 's', 'e', 't', ' ']);
        },
        ReadKind::F32 => {
            push_chars(&mut out, &['u', 'n', 'e', 'x', 'p', 'e', 'c', 't', 'e', 'd', ' ', 'E', 'O', 'F', ' ', 'r', 'e', 'a', 'd', 'i', 'n', 'g', ' ', 'f', '3', '2', ' ', 'a', 't', ' ', 'o', 'f', 'f', 's', 'e', 't', ' ']);
        },
        ReadKind::Skip => {
            push_chars(&mut out, &['u', 'n', 'e', 'x', 'p', 'e', 'c', 't', 'e', 'd', ' ', 'E', 'O', 'F', ' ', 's', 'k', 'i', 'p', 'p', 'i', 'n', 'g', ' ']);
            let d = decimal_chars(needed as u64);
            push_chars(&mut out, d.as_slice());
            push_chars(&mut out, &[' ', 'b', 'y', 't', 'e', 's', ' ', 'a', 't', ' ', 'o', 'f', 'f', 's', 'e', 't', ' ']);
        },
    }
    let d = decimal_chars(offset as u64);
    push_chars(&mut out, d.as_slice());
    proof {
        assert(out@ =~= cause_text(kind, offset, needed));
    }
    out
}

fn hex8_chars(n: u32) -> (r: Vec<char>)
    ensures
        r@ == hex8(n),
{
    let table = ['0', '1', '2', '3', '4', '5', '6', '7', '8', '9', 'A', 'B', 'C', 'D', 'E', 'F'];
    let divisors: [u32; 8] = [0x1000_0000, 0x100_0000, 0x10_0000, 0x1_0000, 0x1000, 0x100, 0x10, 1];
    proof {
        vstd::arithmetic::power::lemma_pow0(16);
        vstd::arithmetic::power::lemma_pow1(16);
        reveal_with_fuel(vstd::arithmetic::power::pow, 8);
        assert(divisors@ == seq![0x1000_0000u32, 0x100_0000u32, 0x10_0000u32, 0x1_0000u32, 0x1000u32, 0x100u32, 0x10u32, 1u32]);
        assert forall|k: int| 0 <= k < 8 implies divisors@[k] == vstd::arithmetic::power::pow(16, (7 - k) as nat) by {
            assert(vstd::arithmetic::power::pow(16, 2) == 0x100);
            assert(vstd::arithmetic::power::pow(16, 3) == 0x1000);
            assert(vstd::arithmetic::power::pow(16, 4) == 0x1_0000);
            assert(vstd::arithmetic::power::pow(16, 5) == 0x10_0000);
            assert(vstd::arithmetic::power::pow(16, 6) == 0x100_0000);
            assert(vstd::arithmetic::power::pow(16, 7) == 0x1000_0000);
        }
    }
    let mut r: Vec<char> = Vec::new();
    let mut k: usize = 0;
    while k < 8
        invariant
            k <= 8,
            table@ == seq!['0', '1', '2', '3', '4', '5', '6', '7', '8', '9', 'A', 'B', 'C', 'D', 'E', 'F'],
            forall|q: int| 0 <= q < 8 ==> divisors@[q] == vstd::arithmetic::power::pow(16, (7 - q) as nat),
            forall|q: int| 0 <= q < 8 ==> divisors@[q] > 0,
            r@ == hex8(n).take(k as int),
        decreases 8 - k,
    {
        let d = (n / divisors[k]) % 16;
        r.push(table[d as usize]);
        assert(r@ =~= hex8(n).take(k + 1));
        k = k + 1;
    }
    assert(hex8(n).take(8) =~= hex8(n));
    r
}

impl NavError {
    /// The message shown for this error.
    pub fn message(&self) -> (m: String)
        ensures
            m@ == nav_error_text(*self),
    {
        let mut out: Vec<char> = Vec::new();
        match *self {
            NavError::Truncated { field, kind, offset, needed } => {
                let f = field_chars(field);
                push_chars(&mut out, f.as_slice());
                push_chars(&mut out, &[':', ' ']);
                let c = cause_chars(kind, offset, needed);
                push_chars(&mut out, c.as_slice());
            },
            NavError::BadMagic(m) => {
                push_chars(&mut out, &['i', 'n', 'v', 'a', 'l', 'i', 'd', ' ', 'N', 'A', 'V', ' ', 'm', 'a', 'g', 'i', 'c', ':', ' ', 'e', 'x', 'p', 'e', 'c', 't', 'e', 'd', ' ', '0', 'x', 'F', 'E', 'E', 'D', 'F', 'A', 'C', 'E', ',', ' ', 'g', 'o', 't', ' ', '0', 'x']);
                let h = hex8_chars(m);
                push_chars(&mut out, h.as_slice());
            },
            NavError::VersionTooOld(v) => {
                push_chars(&mut out, &['N', 'A', 'V', ' ', 'v', 'e', 'r', 's', 'i', 'o', 'n', ' ']);
                let a = decimal_chars(v as u64);
                push_chars(&mut out, a.as_slice());
                push_chars(&mut out, &[' ', 'i', 's', ' ', 't', 'o', 'o', ' ', 'o', 'l', 'd', ' ', '(', 'n', 'e', 'e', 'd', ' ', '>', '=', ' ', '2', ',', ' ', 'C', 'S', ' ', '1', '.', '6', ' ', 'u', 's', 'e', 's', ' ', '6', ')']);
            },
            NavError::TooFewAreas(n) => {
                push_chars(&mut out, &['N', 'A', 'V', ' ', 'f', 'i', 'l', 'e', ' ', 'h', 'a', 's', ' ', 'o', 'n', 'l', 'y', ' ']);
                let a = decimal_chars(n as u64);
                push_chars(&mut out, a.as_slice());
                push_chars(&mut out, &[' ', 'a', 'r', 'e', 'a', 's', ';', ' ', 'a', 't', ' ', 'l', 'e', 'a', 's', 't', ' ', '4', ' ', 'a', 'r', 'e', ' ', 'r', 'e', 'q', 'u', 'i', 'r', 'e', 'd', ' ', 'f', 'o', 'r', ' ', 't', 'h', 'e', ' ', 'C', 'a', 't', 'm', 'u', 'l', 'l', '-', 'R', 'o', 'm', ' ', 's', 'p', 'l', 'i', 'n', 'e']);
            },
        }
        proof {
            assert(out@ =~= nav_error_text(*self));
        }
        string_from_chars(out.as_slice())
    }
}

} // verus!

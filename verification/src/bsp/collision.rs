//! Point-in-solid queries against a map's BSP tree.
//!
//! The tree is walked from node 0: at each node the query point lies on the
//! front or the back of the node's plane, and the walk moves to that child. A
//! negative child `c` names the leaf `-(c + 1)`. Which side of a plane a point
//! lies on is a floating-point question; the caller answers it once per plane
//! (`front[p]` is whether the point is on or in front of plane `p`) and the walk
//! itself is decided here.
use vstd::prelude::*;

verus! {

/// A BSP node: the index of its splitting plane and its two children
/// (non-negative: a node index; negative: `-(leaf_index + 1)`).
#[derive(Clone, Copy, Debug)]
pub struct CollisionNode {
    pub plane_idx: u32,
    pub front: i32,
    pub back: i32,
}

/// What fills a leaf of the tree.
#[derive(Clone, Copy, Debug, PartialEq, Eq, Structural)]
pub enum LeafContents {
    Empty,
    Solid,
}

/// The tree of a map: its nodes and leaves. Planes are kept by the caller,
/// which answers the side queries.
#[derive(Debug)]
pub struct CollisionData {
    pub nodes: Vec<CollisionNode>,
    pub leaves: Vec<LeafContents>,
}

/// The child a walk takes from node `n` on the given side of its plane.
pub open spec fn child(n: CollisionNode, front: bool) -> i32 {
    if front {
        n.front
    } else {
        n.back
    }
}

/// The leaf that a child reference names, for a negative reference.
pub open spec fn leaf_index(c: int) -> int {
    -(c + 1)
}

/// The leaf reached by walking from `idx`, visiting at most `fuel` nodes;
/// `None` when the fuel runs out or a node or plane index is out of range.
pub open spec fn walk(nodes: Seq<CollisionNode>, front: Seq<bool>, idx: int, fuel: nat) -> Option<int>
    decreases fuel,
{
    if idx < 0 {
        Some(leaf_index(idx))
    } else if fuel == 0 || idx >= nodes.len() || nodes[idx].plane_idx >= front.len() {
        None
    } else {
        walk(nodes, front, child(nodes[idx], front[nodes[idx].plane_idx as int]) as int, (fuel - 1) as nat)
    }
}

/// The walk from the root reaches a leaf: every node on the way and its plane
/// exist, and no node is visited twice.
pub open spec fn reaches_leaf(data: &CollisionData, front: Seq<bool>) -> bool {
    exists|f: nat| (#[trigger] walk(data.nodes@, front, 0, f)) is Some
}

/// Whether the leaf with this index exists and is solid.
pub open spec fn leaf_solid(leaves: Seq<LeafContents>, leaf: int) -> bool {
    0 <= leaf < leaves.len() && leaves[leaf] == LeafContents::Solid
}

/// Walks that both reach a leaf reach the same one, whatever their fuel.
pub proof fn lemma_walk_fuel(nodes: Seq<CollisionNode>, front: Seq<bool>, idx: int, f1: nat, f2: nat)
    requires
        walk(nodes, front, idx, f1) is Some,
        walk(nodes, front, idx, f2) is Some,
    ensures
        walk(nodes, front, idx, f1) == walk(nodes, front, idx, f2),
    decreases f1,
{
    if idx >= 0 {
        let n = nodes[idx];
        lemma_walk_fuel(nodes, front, child(n, front[n.plane_idx as int]) as int, (f1 - 1) as nat, (f2 - 1) as nat);
    }
}

/// Whether a walk can leave position `i`: a node that exists and whose plane
/// has a side answer.
pub open spec fn can_step(nodes: Seq<CollisionNode>, front: Seq<bool>, i: int) -> bool {
    0 <= i < nodes.len() && nodes[i].plane_idx < front.len()
}

/// One step of a walk; positions it cannot leave are kept.
pub open spec fn step(nodes: Seq<CollisionNode>, front: Seq<bool>, i: int) -> int {
    if can_step(nodes, front, i) {
        child(nodes[i], front[nodes[i].plane_idx as int]) as int
    } else {
        i
    }
}

/// Position after `k` steps from `i`.
pub open spec fn trail(nodes: Seq<CollisionNode>, front: Seq<bool>, i: int, k: nat) -> int
    decreases k,
{
    if k == 0 {
        i
    } else {
        step(nodes, front, trail(nodes, front, i, (k - 1) as nat))
    }
}

/// Node visits of a walk from `i` with `fuel`.
pub open spec fn visits(nodes: Seq<CollisionNode>, front: Seq<bool>, i: int, fuel: nat) -> nat
    decreases fuel,
{
    if i < 0 || fuel == 0 || !can_step(nodes, front, i) {
        0
    } else {
        1 + visits(nodes, front, child(nodes[i], front[nodes[i].plane_idx as int]) as int, (fuel - 1) as nat)
    }
}

proof fn lemma_trail_shift(nodes: Seq<CollisionNode>, front: Seq<bool>, i: int, k: nat)
    ensures
        trail(nodes, front, i, k + 1) == trail(nodes, front, step(nodes, front, i), k),
    decreases k,
{
    let s = step(nodes, front, i);
    assert(trail(nodes, front, i, k + 1) == step(nodes, front, trail(nodes, front, i, k)));
    if k > 0 {
        lemma_trail_shift(nodes, front, i, (k - 1) as nat);
        assert(trail(nodes, front, s, k) == step(nodes, front, trail(nodes, front, s, (k - 1) as nat)));
    } else {
        assert(trail(nodes, front, i, 0) == i);
        assert(trail(nodes, front, s, 0) == s);
    }
}

/// A walk that reaches a leaf does so after `visits` steps through nodes it
/// can leave.
proof fn lemma_walk_trail(nodes: Seq<CollisionNode>, front: Seq<bool>, i: int, fuel: nat)
    requires
        walk(nodes, front, i, fuel) is Some,
    ensures
        ({
            let m = visits(nodes, front, i, fuel);
            &&& m <= fuel
            &&& trail(nodes, front, i, m) < 0
            &&& walk(nodes, front, i, fuel) == Some(leaf_index(trail(nodes, front, i, m)))
            &&& forall|j: nat| j < m ==> #[trigger] can_step(nodes, front, trail(nodes, front, i, j))
        }),
    decreases fuel,
{
    if i >= 0 {
        let c = child(nodes[i], front[nodes[i].plane_idx as int]) as int;
        let f1 = (fuel - 1) as nat;
        lemma_walk_trail(nodes, front, c, f1);
        let m1 = visits(nodes, front, c, f1);
        assert(step(nodes, front, i) == c);
        lemma_trail_shift(nodes, front, i, m1);
        assert forall|j: nat| j < m1 + 1 implies #[trigger] can_step(nodes, front, trail(nodes, front, i, j)) by {
            if j > 0 {
                lemma_trail_shift(nodes, front, i, (j - 1) as nat);
                assert(can_step(nodes, front, trail(nodes, front, c, (j - 1) as nat)));
            }
        }
    }
}

/// A trail that reaches a leaf after `m` steps through nodes it can leave is
/// a walk that reaches it with any fuel of at least `m`.
proof fn lemma_trail_walk(nodes: Seq<CollisionNode>, front: Seq<bool>, i: int, m: nat, g: nat)
    requires
        trail(nodes, front, i, m) < 0,
        forall|j: nat| j < m ==> #[trigger] can_step(nodes, front, trail(nodes, front, i, j)),
        m <= g,
    ensures
        walk(nodes, front, i, g) is Some,
    decreases m,
{
    if m > 0 {
        assert(can_step(nodes, front, trail(nodes, front, i, 0)));
        let c = step(nodes, front, i);
        lemma_trail_shift(nodes, front, i, (m - 1) as nat);
        assert forall|j: nat| j < (m - 1) as nat implies #[trigger] can_step(nodes, front, trail(nodes, front, c, j)) by {
            lemma_trail_shift(nodes, front, i, j);
            assert(can_step(nodes, front, trail(nodes, front, i, j + 1)));
        }
        lemma_trail_walk(nodes, front, c, (m - 1) as nat, (g - 1) as nat);
    }
}

/// Once two positions of a trail coincide, the trail repeats.
proof fn lemma_trail_repeats(nodes: Seq<CollisionNode>, front: Seq<bool>, i: int, a: nat, b: nat, t: nat)
    requires
        trail(nodes, front, i, a) == trail(nodes, front, i, b),
    ensures
        trail(nodes, front, i, a + t) == trail(nodes, front, i, b + t),
    decreases t,
{
    if t > 0 {
        lemma_trail_repeats(nodes, front, i, a, b, (t - 1) as nat);
        assert(trail(nodes, front, i, a + t) == step(nodes, front, trail(nodes, front, i, (a + t - 1) as nat)));
        assert(trail(nodes, front, i, b + t) == step(nodes, front, trail(nodes, front, i, (b + t - 1) as nat)));
    }
}

/// A walk that reaches a leaf visits no node twice, so it needs no more visits
/// than there are nodes: the walk bounded by the node count reaches the same
/// leaf.
pub proof fn law_bounded_walk_complete(nodes: Seq<CollisionNode>, front: Seq<bool>, fuel: nat)
    requires
        walk(nodes, front, 0, fuel) is Some,
    ensures
        walk(nodes, front, 0, nodes.len()) == walk(nodes, front, 0, fuel),
{
    lemma_walk_trail(nodes, front, 0, fuel);
    let m = visits(nodes, front, 0, fuel);
    let path = Seq::new(m, |j: int| trail(nodes, front, 0, j as nat));
    assert forall|a: int, b: int| 0 <= a < b < m implies path[a] != path[b] by {
        if path[a] == path[b] {
            let t = (m - b) as nat;
            lemma_trail_repeats(nodes, front, 0, a as nat, b as nat, t);
            assert(trail(nodes, front, 0, (a + t) as nat) == trail(nodes, front, 0, m));
            assert(can_step(nodes, front, trail(nodes, front, 0, (a + t) as nat)));
        }
    }
    assert(path.no_duplicates());
    path.unique_seq_to_set();
    assert(path.to_set().subset_of(vstd::set_lib::set_int_range(0, nodes.len() as int))) by {
        assert forall|x: int| path.to_set().contains(x) implies vstd::set_lib::set_int_range(0, nodes.len() as int).contains(x) by {
            let j = choose|j: int| 0 <= j < path.len() && path[j] == x;
            assert(can_step(nodes, front, trail(nodes, front, 0, j as nat)));
        }
    }
    vstd::set_lib::lemma_int_range(0, nodes.len() as int);
    vstd::set_lib::lemma_len_subset(path.to_set(), vstd::set_lib::set_int_range(0, nodes.len() as int));
    lemma_trail_walk(nodes, front, 0, m, nodes.len());
    lemma_walk_fuel(nodes, front, 0, nodes.len(), fuel);
}

/// The leaf reached from the root, or `None` when the walk never reaches one
/// (a missing node or plane, or a cycle). The walk is cut off after as many
/// node visits as there are nodes, which loses no leaf (see
/// [`law_bounded_walk_complete`]).
pub fn leaf_of(data: &CollisionData, front: &Vec<bool>) -> (r: Option<usize>)
    ensures
        (r is Some) == reaches_leaf(data, front@),
        forall|f: nat| #[trigger] walk(data.nodes@, front@, 0, f) is Some
            ==> r == Some(walk(data.nodes@, front@, 0, f)->0 as usize),
        r matches Some(l) ==> l <= i32::MAX,
{
    let r = bounded_leaf(data, front);
    proof {
        let nodes = data.nodes@;
        if reaches_leaf(data, front@) {
            let f = choose|f: nat| (#[trigger] walk(data.nodes@, front@, 0, f)) is Some;
            law_bounded_walk_complete(nodes, front@, f);
        }
        assert forall|f: nat| #[trigger] walk(data.nodes@, front@, 0, f) is Some
            implies r == Some(walk(data.nodes@, front@, 0, f)->0 as usize) by {
            law_bounded_walk_complete(nodes, front@, f);
        }
        if r is Some {
            assert(walk(nodes, front@, 0, nodes.len()) is Some);
        }
    }
    r
}

/// The leaf reached from the root within as many node visits as there are
/// nodes.
fn bounded_leaf(data: &CollisionData, front: &Vec<bool>) -> (r: Option<usize>)
    ensures
        match walk(data.nodes@, front@, 0, data.nodes@.len()) {
            Some(l) => r == Some(l as usize) && 0 <= l <= i32::MAX,
            None => r is None,
        },
{
    let ghost nodes = data.nodes@;
    let ghost total = data.nodes@.len();
    let mut idx: i32 = 0;
    let mut steps: usize = 0;
    loop
        invariant
            nodes == data.nodes@,
            total == nodes.len(),
            steps <= total,
            walk(nodes, front@, idx as int, (total - steps) as nat) == walk(nodes, front@, 0, total),
        decreases total - steps,
    {
        if idx < 0 {
            let leaf = -(idx + 1);
            return Some(leaf as usize);
        }
        if steps >= data.nodes.len() {
            return None;
        }
        let i = idx as usize;
        if i >= data.nodes.len() {
            return None;
        }
        let node = data.nodes[i];
        let p = node.plane_idx as usize;
        if p >= front.len() {
            return None;
        }
        idx = if front[p] { node.front } else { node.back };
        steps = steps + 1;
    }
}

/// Whether the point lies in solid space: the walk from the root ends in a
/// leaf that exists and is solid. A missing leaf counts as open space.
pub fn point_in_solid(data: &CollisionData, front: &Vec<bool>) -> (solid: bool)
    requires
        reaches_leaf(data, front@),
    ensures
        forall|f: nat| #[trigger] walk(data.nodes@, front@, 0, f) is Some
            ==> solid == leaf_solid(data.leaves@, walk(data.nodes@, front@, 0, f)->0),
{
    let ghost nodes = data.nodes@;
    let ghost f0: nat = choose|f: nat| (#[trigger] walk(data.nodes@, front@, 0, f)) is Some;
    let ghost target = walk(nodes, front@, 0, f0);
    let ghost mut fuel: nat = f0;
    let mut idx: i32 = 0;
    loop
        invariant
            nodes == data.nodes@,
            target is Some,
            walk(nodes, front@, 0, f0) == target,
            walk(nodes, front@, idx as int, fuel) == target,
        decreases fuel,
    {
        if idx < 0 {
            let leaf = -(idx + 1);
            let l = leaf as usize;
            let solid = l < data.leaves.len() && data.leaves[l] == LeafContents::Solid;
            proof {
                assert forall|f: nat| #[trigger] walk(data.nodes@, front@, 0, f) is Some
                    implies solid == leaf_solid(data.leaves@, walk(data.nodes@, front@, 0, f)->0) by {
                    lemma_walk_fuel(nodes, front@, 0, f, f0);
                }
            }
            return solid;
        }
        let node = data.nodes[idx as usize];
        let p = node.plane_idx as usize;
        idx = if front[p] { node.front } else { node.back };
        proof {
            fuel = (fuel - 1) as nat;
        }
    }
}

/// The last plane on the walk towards the solid point that separates the two
/// points: the open point on or in front of it, the solid point behind it.
pub open spec fn contact(
    nodes: Seq<CollisionNode>,
    open_front: Seq<bool>,
    solid_front: Seq<bool>,
    idx: int,
    fuel: nat,
    last: Option<u32>,
) -> Option<u32>
    decreases fuel,
{
    if idx < 0 || fuel == 0 || idx >= nodes.len() {
        last
    } else {
        let p = nodes[idx].plane_idx;
        let last2 = if open_front[p as int] && !solid_front[p as int] {
            Some(p)
        } else {
            last
        };
        contact(nodes, open_front, solid_front, child(nodes[idx], solid_front[p as int]) as int, (fuel - 1) as nat, last2)
    }
}

/// Whether the plane of the node at `i` separates the points: the open point
/// on or in front of it, the solid point behind it.
pub open spec fn separates(nodes: Seq<CollisionNode>, open_front: Seq<bool>, solid_front: Seq<bool>, i: int) -> bool {
    open_front[nodes[i].plane_idx as int] && !solid_front[nodes[i].plane_idx as int]
}

/// What a contact answer `r` must be for a walk of `m` node visits from the
/// root towards the solid point: `None` exactly when no visited node's plane
/// separates the points; otherwise the plane of a visited node that
/// separates them, with no later visited node separating them.
pub open spec fn is_last_separating(
    nodes: Seq<CollisionNode>,
    open_front: Seq<bool>,
    solid_front: Seq<bool>,
    m: nat,
    r: Option<u32>,
) -> bool {
    &&& (r is None <==> forall|j: nat| j < m ==> !#[trigger] separates(
        nodes,
        open_front,
        solid_front,
        trail(nodes, solid_front, 0, j),
    ))
    &&& (r matches Some(p) ==> exists|j: nat|
        j < m && #[trigger] separates(nodes, open_front, solid_front, trail(nodes, solid_front, 0, j))
            && p == nodes[trail(nodes, solid_front, 0, j)].plane_idx
            && forall|k: nat| j < k < m ==> !#[trigger] separates(nodes, open_front, solid_front, trail(nodes, solid_front, 0, k)))
}

/// The last of the first `m` positions of the walk from `i` whose node's
/// plane separates the points.
spec fn last_separating(nodes: Seq<CollisionNode>, o: Seq<bool>, s: Seq<bool>, i: int, m: nat) -> Option<nat>
    decreases m,
{
    if m == 0 {
        None
    } else if separates(nodes, o, s, trail(nodes, s, i, (m - 1) as nat)) {
        Some((m - 1) as nat)
    } else {
        last_separating(nodes, o, s, i, (m - 1) as nat)
    }
}

proof fn lemma_last_separating_props(nodes: Seq<CollisionNode>, o: Seq<bool>, s: Seq<bool>, i: int, m: nat)
    ensures
        last_separating(nodes, o, s, i, m) is None ==> forall|j: nat| j < m ==> !#[trigger] separates(nodes, o, s, trail(nodes, s, i, j)),
        last_separating(nodes, o, s, i, m) matches Some(j) ==> j < m && separates(nodes, o, s, trail(nodes, s, i, j))
            && forall|k: nat| j < k < m ==> !#[trigger] separates(nodes, o, s, trail(nodes, s, i, k)),
    decreases m,
{
    if m > 0 {
        lemma_last_separating_props(nodes, o, s, i, (m - 1) as nat);
    }
}

proof fn lemma_last_separating_shift(nodes: Seq<CollisionNode>, o: Seq<bool>, s: Seq<bool>, i: int, m: nat)
    ensures
        last_separating(nodes, o, s, i, m + 1) == match last_separating(nodes, o, s, step(nodes, s, i), m) {
            Some(j) => Some(j + 1),
            None => if separates(nodes, o, s, i) {
                Some(0nat)
            } else {
                None
            },
        },
    decreases m,
{
    let c = step(nodes, s, i);
    assert(trail(nodes, s, i, 0) == i);
    if m > 0 {
        lemma_trail_shift(nodes, s, i, (m - 1) as nat);
        assert(trail(nodes, s, i, m) == trail(nodes, s, c, (m - 1) as nat));
        lemma_last_separating_shift(nodes, o, s, i, (m - 1) as nat);
        let t = trail(nodes, s, i, m);
        assert(last_separating(nodes, o, s, i, m + 1) == if separates(nodes, o, s, t) {
            Some(m)
        } else {
            last_separating(nodes, o, s, i, m)
        });
        assert(last_separating(nodes, o, s, c, m) == if separates(nodes, o, s, t) {
            Some((m - 1) as nat)
        } else {
            last_separating(nodes, o, s, c, (m - 1) as nat)
        });
    } else {
        assert(last_separating(nodes, o, s, i, 1) == if separates(nodes, o, s, trail(nodes, s, i, 0)) {
            Some(0nat)
        } else {
            last_separating(nodes, o, s, i, 0)
        });
    }
}

/// Contact through the walk from `idx` is the plane of the last separating
/// node on it, or `last` when none separates.
proof fn lemma_contact_last(
    nodes: Seq<CollisionNode>,
    o: Seq<bool>,
    s: Seq<bool>,
    idx: int,
    fuel: nat,
    last: Option<u32>,
)
    requires
        walk(nodes, s, idx, fuel) is Some,
        o.len() == s.len(),
    ensures
        contact(nodes, o, s, idx, fuel, last) == match last_separating(nodes, o, s, idx, visits(nodes, s, idx, fuel)) {
            Some(j) => Some(nodes[trail(nodes, s, idx, j)].plane_idx),
            None => last,
        },
    decreases fuel,
{
    if idx >= 0 {
        let n = nodes[idx];
        let p = n.plane_idx;
        let c = child(n, s[p as int]) as int;
        assert(can_step(nodes, s, idx));
        assert(step(nodes, s, idx) == c);
        let last2 = if o[p as int] && !s[p as int] {
            Some(p)
        } else {
            last
        };
        lemma_contact_last(nodes, o, s, c, (fuel - 1) as nat, last2);
        let m1 = visits(nodes, s, c, (fuel - 1) as nat);
        assert(visits(nodes, s, idx, fuel) == m1 + 1);
        lemma_last_separating_shift(nodes, o, s, idx, m1);
        assert(trail(nodes, s, idx, 0) == idx);
        match last_separating(nodes, o, s, c, m1) {
            Some(j) => {
                lemma_trail_shift(nodes, s, idx, j);
            },
            None => {},
        }
    }
}

/// Last-plane law: the contact found on a walk that reaches a leaf is the
/// plane of the last node on the walk towards the solid point whose plane
/// separates the two points, and none exactly when no node on the walk has
/// such a plane.
pub proof fn law_contact_is_last_separating(
    nodes: Seq<CollisionNode>,
    open_front: Seq<bool>,
    solid_front: Seq<bool>,
    fuel: nat,
)
    requires
        walk(nodes, solid_front, 0, fuel) is Some,
        open_front.len() == solid_front.len(),
    ensures
        is_last_separating(
            nodes,
            open_front,
            solid_front,
            visits(nodes, solid_front, 0, fuel),
            contact(nodes, open_front, solid_front, 0, fuel, None),
        ),
{
    let m = visits(nodes, solid_front, 0, fuel);
    lemma_contact_last(nodes, open_front, solid_front, 0, fuel, None);
    lemma_last_separating_props(nodes, open_front, solid_front, 0, m);
    match last_separating(nodes, open_front, solid_front, 0, m) {
        Some(j) => {
            assert(separates(nodes, open_front, solid_front, trail(nodes, solid_front, 0, j)));
        },
        None => {},
    }
}

/// Walk towards the solid point and return the index of the last plane that
/// separates the open point (on or in front of it) from the solid one (behind
/// it), if any. `open_front` and `solid_front` answer the side queries for the
/// two points, plane by plane.
pub fn find_contact_plane(data: &CollisionData, open_front: &Vec<bool>, solid_front: &Vec<bool>) -> (r: Option<u32>)
    requires
        reaches_leaf(data, solid_front@),
        open_front@.len() == solid_front@.len(),
    ensures
        forall|f: nat| #[trigger] walk(data.nodes@, solid_front@, 0, f) is Some
            ==> r == contact(data.nodes@, open_front@, solid_front@, 0, f, None),
        forall|f: nat| #[trigger] walk(data.nodes@, solid_front@, 0, f) is Some
            ==> is_last_separating(data.nodes@, open_front@, solid_front@, visits(data.nodes@, solid_front@, 0, f), r),
{
    let ghost nodes = data.nodes@;
    let ghost f0: nat = choose|f: nat| (#[trigger] walk(data.nodes@, solid_front@, 0, f)) is Some;
    let ghost mut fuel: nat = f0;
    let mut idx: i32 = 0;
    let mut last: Option<u32> = None;
    loop
        invariant
            nodes == data.nodes@,
            open_front@.len() == solid_front@.len(),
            walk(nodes, solid_front@, 0, f0) is Some,
            walk(nodes, solid_front@, idx as int, fuel) is Some,
            contact(nodes, open_front@, solid_front@, 0, f0, None)
                == contact(nodes, open_front@, solid_front@, idx as int, fuel, last),
        decreases fuel,
    {
        if idx < 0 {
            proof {
                assert forall|f: nat| #[trigger] walk(data.nodes@, solid_front@, 0, f) is Some
                    implies last == contact(data.nodes@, open_front@, solid_front@, 0, f, None) by {
                    lemma_contact_fuel(nodes, open_front@, solid_front@, 0, f, f0, None);
                }
                assert forall|f: nat| #[trigger] walk(data.nodes@, solid_front@, 0, f) is Some
                    implies is_last_separating(nodes, open_front@, solid_front@, visits(nodes, solid_front@, 0, f), last) by {
                    lemma_contact_fuel(nodes, open_front@, solid_front@, 0, f, f0, None);
                    law_contact_is_last_separating(nodes, open_front@, solid_front@, f);
                }
            }
            return last;
        }
        let node = data.nodes[idx as usize];
        let p = node.plane_idx as usize;
        if open_front[p] && !solid_front[p] {
            last = Some(node.plane_idx);
        }
        idx = if solid_front[p] { node.front } else { node.back };
        proof {
            fuel = (fuel - 1) as nat;
        }
    }
}

/// The contact plane does not depend on the fuel once the walk reaches a leaf.
proof fn lemma_contact_fuel(
    nodes: Seq<CollisionNode>,
    open_front: Seq<bool>,
    solid_front: Seq<bool>,
    idx: int,
    f1: nat,
    f2: nat,
    last: Option<u32>,
)
    requires
        walk(nodes, solid_front, idx, f1) is Some,
        walk(nodes, solid_front, idx, f2) is Some,
    ensures
        contact(nodes, open_front, solid_front, idx, f1, last) == contact(nodes, open_front, solid_front, idx, f2, last),
    decreases f1,
{
    if idx >= 0 {
        let n = nodes[idx];
        let p = n.plane_idx;
        let last2 = if open_front[p as int] && !solid_front[p as int] {
            Some(p)
        } else {
            last
        };
        lemma_contact_fuel(nodes, open_front, solid_front, child(n, solid_front[p as int]) as int, (f1 - 1) as nat, (f2 - 1) as nat, last2);
    }
}

} // verus!

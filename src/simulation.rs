//! The simulation's discrete state: its bodies and constraints, the
//! attachment connections between bodies, and how bodies leave it.
use crate::constraint::{
    kept_members, lemma_push_contains_all, lemma_released_members_contains, released_members, replaced_keys, resolves, slot_at, Constraint, PointHandle,
};
use crate::ring::{advance, in_span, lemma_offset_of_index, ring_index, ring_offset};
use crate::soft_body::{
    lemma_same_layout_trans, same_layout, span_fits, AttatchmentPoint, AttatchmentPointHandle, ConnectionState, SoftBody,
};
use crate::slots::{ConstraintKey, Constraints, SoftBodies, SoftBodyKey, MAX_ENTRIES};
use vstd::prelude::*;

verus! {

/// Which keybind of the selected body is being edited.
#[derive(Clone, Copy, Debug, PartialEq, Eq, Structural)]
pub enum KeybindFocus {
    Activate(usize),
    NewActivate,
    Disable(usize),
    NewDisable,
}

/// What becomes of a live body at the end of a tick.
#[derive(Clone, Copy, Debug, PartialEq, Eq, Structural)]
pub enum Fate {
    Keep,
    /// Taken out without leaving anything behind.
    Remove,
    /// Broken up into debris triangles.
    Destroy,
}

/// Debris goes once it has decayed or turned inside out; any other body
/// that crosses itself is broken up; everything else stays.
pub fn fate_after_tick(debris: bool, decayed: bool, negative_area: bool, self_intersecting: bool) -> (r:
    Fate)
    ensures
        r == if debris {
            if decayed || negative_area {
                Fate::Remove
            } else {
                Fate::Keep
            }
        } else if self_intersecting {
            Fate::Destroy
        } else {
            Fate::Keep
        },
{
    if debris {
        if decayed || negative_area {
            Fate::Remove
        } else {
            Fate::Keep
        }
    } else if self_intersecting {
        Fate::Destroy
    } else {
        Fate::Keep
    }
}

/// Owns every body and every constraint, with the list of live body keys
/// in the order they are visited each tick.
pub struct Simulation {
    pub soft_bodies: SoftBodies,
    pub keys: Vec<SoftBodyKey>,
    pub constraints: Constraints,
}

/// Both maps hold the same constraint under each key but `except`.
pub open spec fn same_constraints_but(
    a: Map<ConstraintKey, Constraint>,
    b: Map<ConstraintKey, Constraint>,
    except: Option<ConstraintKey>,
) -> bool {
    forall|c: ConstraintKey|
        a.contains_key(c) && b.contains_key(c) && Some(c) != except ==> #[trigger] a[c] == b[c]
}

/// Body `j` is joined to `b` through one of `b`'s attachment spans.
pub open spec fn attached_to(b: SoftBody, j: SoftBodyKey) -> bool {
    exists|i: int|
        0 <= i < b.attatchment_points@.len() && (#[trigger] b.attatchment_points@[i]).connection.is_some()
            && b.attatchment_points@[i].connection.unwrap().soft_body == j
}

/// The connection state of body `k`.
pub open spec fn state_of(bodies: Map<SoftBodyKey, SoftBody>, k: SoftBodyKey) -> ConnectionState {
    bodies[k].connection_state
}

/// The same bodies under the same keys, differing at most in their
/// connection states.
pub open spec fn same_but_states(a: Map<SoftBodyKey, SoftBody>, b: Map<SoftBodyKey, SoftBody>) -> bool {
    &&& a.dom() == b.dom()
    &&& forall|k: SoftBodyKey|
        #[trigger] a.contains_key(k) ==> {
            &&& a[k].shape == b[k].shape
            &&& a[k].attatchment_points == b[k].attatchment_points
            &&& a[k].debris == b[k].debris
        }
}

/// A propagation passes on through body `k`: it is in state `from` or a
/// source.
pub open spec fn passes(a: Map<SoftBodyKey, SoftBody>, k: SoftBodyKey, from: ConnectionState) -> bool {
    state_of(a, k) == from || state_of(a, k) == ConnectionState::Source
}

/// `reached` is the set of bodies that a propagation from `start` meets:
/// it holds `start`, every body attached to a body of it that passes the
/// propagation on, and only such bodies. Its bodies in state `from` take
/// state `to`, all others keep theirs, and `found` is one of its sources
/// when it has any.
pub open spec fn reach(
    a: Map<SoftBodyKey, SoftBody>,
    b: Map<SoftBodyKey, SoftBody>,
    start: SoftBodyKey,
    from: ConnectionState,
    to: ConnectionState,
    found: Option<SoftBodyKey>,
    reached: Set<SoftBodyKey>,
) -> bool {
    &&& reached.subset_of(a.dom())
    &&& a.contains_key(start) ==> reached.contains(start)
    &&& forall|k: SoftBodyKey, j: SoftBodyKey|
        reached.contains(k) && passes(a, k, from) && #[trigger] attached_to(a[k], j) && a.contains_key(j)
            ==> reached.contains(j)
    &&& forall|k: SoftBodyKey|
        #[trigger] reached.contains(k) ==> k == start || exists|p: SoftBodyKey|
            reached.contains(p) && passes(a, p, from) && #[trigger] attached_to(a[p], k)
    &&& forall|k: SoftBodyKey|
        #[trigger] a.contains_key(k) ==> state_of(b, k) == if reached.contains(k) && state_of(a, k) == from {
            to
        } else {
            state_of(a, k)
        }
    &&& found.is_some() ==> reached.contains(found.unwrap()) && state_of(a, found.unwrap())
        == ConnectionState::Source
    &&& found.is_none() ==> forall|k: SoftBodyKey|
        #[trigger] reached.contains(k) ==> state_of(a, k) != ConnectionState::Source
}

/// What a propagation of connection state from `start` leaves behind: the
/// bodies differ only in the states that `reach` describes.
pub open spec fn propagated(
    a: Map<SoftBodyKey, SoftBody>,
    b: Map<SoftBodyKey, SoftBody>,
    start: SoftBodyKey,
    from: ConnectionState,
    to: ConnectionState,
    found: Option<SoftBodyKey>,
) -> bool {
    &&& same_but_states(a, b)
    &&& exists|reached: Set<SoftBodyKey>| reach(a, b, start, from, to, found, reached)
}

/// Whether the handle finds an attachment span among the bodies.
pub open spec fn handle_valid(bodies: Map<SoftBodyKey, SoftBody>, h: AttatchmentPointHandle) -> bool {
    bodies.contains_key(h.soft_body) && h.index < bodies[h.soft_body].attatchment_points@.len()
}

/// The attachment span that the handle finds.
pub open spec fn span_of(bodies: Map<SoftBodyKey, SoftBody>, h: AttatchmentPointHandle) -> AttatchmentPoint {
    bodies[h.soft_body].attatchment_points@[h.index as int]
}

/// The number of points of body `k`.
pub open spec fn ring_len(bodies: Map<SoftBodyKey, SoftBody>, k: SoftBodyKey) -> int {
    bodies[k].shape@.len() as int
}

/// The connection count of point `j` of body `k`.
pub open spec fn count_of(bodies: Map<SoftBodyKey, SoftBody>, k: SoftBodyKey, j: int) -> u32 {
    bodies[k].shape@[j].num_connections
}

/// Whether point `j` of body `k` lies in the span that the handle finds.
pub open spec fn covers(
    bodies: Map<SoftBodyKey, SoftBody>,
    h: AttatchmentPointHandle,
    k: SoftBodyKey,
    j: int,
) -> bool {
    k == h.soft_body && in_span(
        j,
        span_of(bodies, h).start_point as int,
        span_of(bodies, h).length as int,
        ring_len(bodies, k),
    )
}

/// Every point of the span can take one more connection.
pub open spec fn span_has_room(bodies: Map<SoftBodyKey, SoftBody>, h: AttatchmentPointHandle) -> bool {
    forall|j: int|
        0 <= j < ring_len(bodies, h.soft_body) && #[trigger] covers(bodies, h, h.soft_body, j) ==> count_of(
            bodies,
            h.soft_body,
            j,
        ) < u32::MAX
}

/// The span with its connection replaced.
pub open spec fn with_connection(a: AttatchmentPoint, c: Option<AttatchmentPointHandle>) -> AttatchmentPoint {
    AttatchmentPoint { start_point: a.start_point, length: a.length, connection: c }
}

/// The attachment spans of body `k` after the span under `h` is given
/// connection `c`.
pub open spec fn spans_after(
    bodies: Map<SoftBodyKey, SoftBody>,
    k: SoftBodyKey,
    h: AttatchmentPointHandle,
    c: Option<AttatchmentPointHandle>,
) -> Seq<AttatchmentPoint> {
    if k == h.soft_body {
        bodies[k].attatchment_points@.update(h.index as int, with_connection(span_of(bodies, h), c))
    } else {
        bodies[k].attatchment_points@
    }
}

/// One for a point of the span under `h`, zero for any other point.
pub open spec fn hit(
    bodies: Map<SoftBodyKey, SoftBody>,
    h: AttatchmentPointHandle,
    k: SoftBodyKey,
    j: int,
) -> int {
    if covers(bodies, h, k, j) {
        1
    } else {
        0
    }
}

/// What joining the spans under `a` and `b` does to the bodies `b0`,
/// giving `b1`: each span records the other as its connection, every point
/// of either span counts one more connection and is held by a constraint,
/// disconnected bodies may become connected, and nothing else changes.
pub open spec fn joined(
    b0: Map<SoftBodyKey, SoftBody>,
    b1: Map<SoftBodyKey, SoftBody>,
    a: AttatchmentPointHandle,
    b: AttatchmentPointHandle,
) -> bool {
    &&& b1.dom() == b0.dom()
    &&& forall|k: SoftBodyKey|
        #[trigger] b0.contains_key(k) ==> {
            &&& b1[k].shape@.len() == b0[k].shape@.len()
            &&& b1[k].debris == b0[k].debris
            &&& b1[k].attatchment_points@ == if k == a.soft_body {
                spans_after(b0, k, a, Some(b))
            } else {
                spans_after(b0, k, b, Some(a))
            }
            &&& (state_of(b1, k) == state_of(b0, k) || (state_of(b0, k) == ConnectionState::Disconnected
                && state_of(b1, k) == ConnectionState::Connected))
        }
    &&& if state_of(b0, a.soft_body).is_connected() {
        exists|f: Option<SoftBodyKey>, r: Set<SoftBodyKey>|
            reach(b0, b1, b.soft_body, ConnectionState::Disconnected, ConnectionState::Connected, f, r)
    } else if state_of(b0, b.soft_body).is_connected() {
        exists|f: Option<SoftBodyKey>, r: Set<SoftBodyKey>|
            reach(b0, b1, a.soft_body, ConnectionState::Disconnected, ConnectionState::Connected, f, r)
    } else {
        forall|k: SoftBodyKey| #[trigger] b0.contains_key(k) ==> state_of(b1, k) == state_of(b0, k)
    }
    &&& forall|k: SoftBodyKey, j: int|
        #![trigger count_of(b1, k, j)]
        b0.contains_key(k) && 0 <= j < ring_len(b0, k) ==> count_of(b1, k, j) as int == count_of(b0, k, j)
            + hit(b0, a, k, j) + hit(b0, b, k, j)
    &&& forall|k: SoftBodyKey, j: int|
        #![trigger b1[k].shape@[j]]
        b0.contains_key(k) && 0 <= j < ring_len(b0, k) && (covers(b0, a, k, j) || covers(b0, b, k, j))
            ==> b1[k].shape@[j].constraint.is_some()
}

/// A point after one of its connections is released: its count drops by one
/// (not below zero), and with no connection left it leaves its constraint.
pub open spec fn released(p: crate::soft_body::Point) -> crate::soft_body::Point {
    let n: u32 = if p.num_connections > 0 {
        (p.num_connections - 1) as u32
    } else {
        0
    };
    crate::soft_body::Point {
        constraint: if n == 0 {
            None
        } else {
            p.constraint
        },
        num_connections: n,
    }
}

/// What parting the joined spans under `a` and `b` does to the bodies
/// `b0`, giving `b1`: both spans lose their connection, every point of
/// either span is released, and nothing else changes but connection states.
pub open spec fn released_spans(
    b0: Map<SoftBodyKey, SoftBody>,
    b1: Map<SoftBodyKey, SoftBody>,
    a: AttatchmentPointHandle,
    b: AttatchmentPointHandle,
) -> bool {
    &&& b1.dom() == b0.dom()
    &&& forall|k: SoftBodyKey|
        #[trigger] b0.contains_key(k) ==> {
            &&& b1[k].shape@.len() == b0[k].shape@.len()
            &&& b1[k].debris == b0[k].debris
            &&& b1[k].attatchment_points@ == if k == a.soft_body {
                spans_after(b0, k, a, None)
            } else {
                spans_after(b0, k, b, None)
            }
        }
    &&& forall|k: SoftBodyKey, j: int|
        #![trigger b1[k].shape@[j]]
        b0.contains_key(k) && 0 <= j < ring_len(b0, k) ==> b1[k].shape@[j] == if covers(b0, a, k, j)
            || covers(b0, b, k, j) {
            released(b0[k].shape@[j])
        } else {
            b0[k].shape@[j]
        }
}

/// What `disconnect_attatchment_point` does to the bodies: as
/// `released_spans`, except that a point whose constraint was removed for
/// holding fewer than two points afterwards is free as well.
pub open spec fn parted(
    b0: Map<SoftBodyKey, SoftBody>,
    b1: Map<SoftBodyKey, SoftBody>,
    a: AttatchmentPointHandle,
    b: AttatchmentPointHandle,
) -> bool {
    &&& b1.dom() == b0.dom()
    &&& forall|k: SoftBodyKey|
        #[trigger] b0.contains_key(k) ==> {
            &&& b1[k].shape@.len() == b0[k].shape@.len()
            &&& b1[k].debris == b0[k].debris
            &&& b1[k].attatchment_points@ == if k == a.soft_body {
                spans_after(b0, k, a, None)
            } else {
                spans_after(b0, k, b, None)
            }
        }
    &&& forall|k: SoftBodyKey, j: int|
        #![trigger b1[k].shape@[j]]
        b0.contains_key(k) && 0 <= j < ring_len(b0, k) ==> {
            let p = if covers(b0, a, k, j) || covers(b0, b, k, j) {
                released(b0[k].shape@[j])
            } else {
                b0[k].shape@[j]
            };
            &&& b1[k].shape@[j].num_connections == p.num_connections
            &&& (b1[k].shape@[j].constraint == p.constraint || b1[k].shape@[j].constraint.is_none())
        }
}

pub proof fn lemma_released_then_pruned(
    b0: Map<SoftBodyKey, SoftBody>,
    b3: Map<SoftBodyKey, SoftBody>,
    b4: Map<SoftBodyKey, SoftBody>,
    a: AttatchmentPointHandle,
    b: AttatchmentPointHandle,
)
    requires
        released_spans(b0, b3, a, b),
        forall|k: SoftBodyKey| #[trigger] b3.contains_key(k) ==> b3[k].wf(),
        same_layout(b3, b4),
        forall|h: PointHandle|
            resolves(b3, h) ==> #[trigger] slot_at(b4, h) == slot_at(b3, h) || slot_at(b4, h).is_none(),
    ensures
        parted(b0, b4, a, b),
{
    assert forall|key: SoftBodyKey| #[trigger] b0.contains_key(key) implies {
        &&& b4[key].shape@.len() == b0[key].shape@.len()
        &&& b4[key].debris == b0[key].debris
        &&& b4[key].attatchment_points@ == if key == a.soft_body {
            spans_after(b0, key, a, None)
        } else {
            spans_after(b0, key, b, None)
        }
    } by {
        assert(b3.contains_key(key));
        assert(crate::soft_body::same_body_layout(b3[key], b4[key]));
    }
    assert forall|key: SoftBodyKey, j: int|
        #![trigger b4[key].shape@[j]]
        b0.contains_key(key) && 0 <= j < ring_len(b0, key) implies {
            let p = if covers(b0, a, key, j) || covers(b0, b, key, j) {
                released(b0[key].shape@[j])
            } else {
                b0[key].shape@[j]
            };
            &&& b4[key].shape@[j].num_connections == p.num_connections
            &&& (b4[key].shape@[j].constraint == p.constraint || b4[key].shape@[j].constraint.is_none())
        } by {
        assert(b3.contains_key(key));
        assert(crate::soft_body::same_body_layout(b3[key], b4[key]));
        assert(b3[key].shape@[j].num_connections == b4[key].shape@[j].num_connections);
        assert(b3[key].shape@[j] == if covers(b0, a, key, j) || covers(b0, b, key, j) {
            released(b0[key].shape@[j])
        } else {
            b0[key].shape@[j]
        });
        let h = PointHandle { soft_body: key, index: j as usize };
        assert(resolves(b3, h));
        assert(slot_at(b4, h) == slot_at(b3, h) || slot_at(b4, h).is_none());
    }
}

/// The span under `h` is joined to a span of body `key` that is joined back
/// to it, with the same length.
pub open spec fn linked_back(
    bodies: Map<SoftBodyKey, SoftBody>,
    h: AttatchmentPointHandle,
    key: SoftBodyKey,
) -> bool {
    &&& handle_valid(bodies, h)
    &&& span_of(bodies, h).connection.is_some()
    &&& span_of(bodies, h).connection.unwrap().soft_body == key
    &&& h.soft_body != key
    &&& handle_valid(bodies, span_of(bodies, h).connection.unwrap())
    &&& span_of(bodies, span_of(bodies, h).connection.unwrap()).connection == Some(h)
    &&& span_of(bodies, span_of(bodies, h).connection.unwrap()).length == span_of(bodies, h).length
}

/// A debris triangle: three free points, no attachment spans, disconnected.
pub open spec fn fragment_body(b: SoftBody) -> bool {
    &&& b.debris
    &&& b.shape@.len() == 3
    &&& forall|j: int| 0 <= j < 3 ==> (#[trigger] b.shape@[j]).constraint.is_none() && b.shape@[j].num_connections == 0
    &&& b.attatchment_points@.len() == 0
    &&& b.connection_state == ConnectionState::Disconnected
}

/// `cut` has the attachment spans of `b1` and the connection states of
/// `mid`.
pub open spec fn spans_of_with_states_of(
    cut: Map<SoftBodyKey, SoftBody>,
    b1: Map<SoftBodyKey, SoftBody>,
    mid: Map<SoftBodyKey, SoftBody>,
) -> bool {
    &&& cut.dom() == b1.dom()
    &&& forall|k: SoftBodyKey|
        #[trigger] cut.contains_key(k) ==> cut[k].attatchment_points@ == b1[k].attatchment_points@ && state_of(
            cut,
            k,
        ) == state_of(mid, k)
}

/// How parting spans recolours bodies, from `b0` to `b1`: the bodies that
/// a propagation from `start` over the old joins reaches turn from connected
/// to disconnected (`mid` holds those states); when it met a source, the
/// bodies that a propagation from that source over the new joins reaches
/// turn from disconnected to connected again.
pub open spec fn recoloured_after_parting(
    b0: Map<SoftBodyKey, SoftBody>,
    b1: Map<SoftBodyKey, SoftBody>,
    start: SoftBodyKey,
) -> bool {
    exists|mid: Map<SoftBodyKey, SoftBody>, found: Option<SoftBodyKey>, r1: Set<SoftBodyKey>|
        #![trigger reach(b0, mid, start, ConnectionState::Connected, ConnectionState::Disconnected, found, r1)]
        reach(b0, mid, start, ConnectionState::Connected, ConnectionState::Disconnected, found, r1)
            && mid.dom() == b0.dom() && (found.is_none() ==> forall|k: SoftBodyKey|
            #[trigger] b0.contains_key(k) ==> state_of(b1, k) == state_of(mid, k)) && (found.is_some()
            ==> exists|cut: Map<SoftBodyKey, SoftBody>, f2: Option<SoftBodyKey>, r2: Set<SoftBodyKey>|
            #![trigger reach(cut, b1, found.unwrap(), ConnectionState::Disconnected, ConnectionState::Connected, f2, r2)]
            spans_of_with_states_of(cut, b1, mid) && reach(
                cut,
                b1,
                found.unwrap(),
                ConnectionState::Disconnected,
                ConnectionState::Connected,
                f2,
                r2,
            ))
}

/// One less than `n`, but not below zero.
pub open spec fn one_less(n: u32) -> int {
    if n > 0 {
        n - 1
    } else {
        0
    }
}

/// Point `j` of body `k` lies in no span that is joined back to body `key`.
pub open spec fn unlinked_point(b0: Map<SoftBodyKey, SoftBody>, key: SoftBodyKey, k: SoftBodyKey, j: int) -> bool {
    forall|g: AttatchmentPointHandle| #[trigger] linked_back(b0, g, key) ==> !(g.soft_body == k && covers(b0, g, k, j))
}

/// `v` with its element `i` replaced by its last one, and the last removed.
pub open spec fn swap_removed<T>(v: Seq<T>, i: int) -> Seq<T> {
    v.update(i, v.last()).drop_last()
}

/// `h` is a member of constraint `c` whose point exists and is held by `c`.
pub open spec fn live_member(
    constraints: Map<ConstraintKey, Constraint>,
    bodies: Map<SoftBodyKey, SoftBody>,
    c: ConstraintKey,
    h: PointHandle,
) -> bool {
    constraints[c].members().contains(h) && resolves(bodies, h) && slot_at(bodies, h) == Some(c)
}

pub proof fn lemma_two_members<T>(s: Seq<T>, a: T, b: T)
    requires
        s.contains(a),
        s.contains(b),
        a != b,
    ensures
        s.len() >= 2,
{
    let i = choose|i: int| 0 <= i < s.len() && s[i] == a;
    let j = choose|j: int| 0 <= j < s.len() && s[j] == b;
    assert(i != j);
}

/// Point `k` steps into a span of body `key` that starts at `start` on a
/// ring of `n` points.
pub open spec fn span_point(key: SoftBodyKey, start: int, k: int, n: int) -> PointHandle {
    PointHandle { soft_body: key, index: ring_index(start, k, n) as usize }
}

/// The point of span `a` in pair `m`: span `a` is walked forwards.
pub open spec fn pair_first(b0: Map<SoftBodyKey, SoftBody>, a: AttatchmentPointHandle, m: int) -> PointHandle {
    span_point(a.soft_body, span_of(b0, a).start_point as int, m, ring_len(b0, a.soft_body))
}

/// The point of span `b` in pair `m`: span `b` is walked backwards.
pub open spec fn pair_second(b0: Map<SoftBodyKey, SoftBody>, b: AttatchmentPointHandle, m: int) -> PointHandle {
    span_point(
        b.soft_body,
        span_of(b0, b).start_point as int,
        span_of(b0, b).length - 1 - m,
        ring_len(b0, b.soft_body),
    )
}

/// Constraint `c` holds exactly the points `x` and `y`, and both know it.
pub open spec fn holds_pair(
    constraints: Map<ConstraintKey, Constraint>,
    bodies: Map<SoftBodyKey, SoftBody>,
    c: ConstraintKey,
    x: PointHandle,
    y: PointHandle,
) -> bool {
    &&& constraints.contains_key(c)
    &&& constraints[c].members() == seq![x, y]
    &&& slot_at(bodies, x) == Some(c)
    &&& slot_at(bodies, y) == Some(c)
}

/// No point of either span is held by a constraint.
pub open spec fn spans_unheld(
    b0: Map<SoftBodyKey, SoftBody>,
    a: AttatchmentPointHandle,
    b: AttatchmentPointHandle,
) -> bool {
    forall|k: SoftBodyKey, j: int|
        b0.contains_key(k) && 0 <= j < ring_len(b0, k) && (covers(b0, a, k, j) || covers(b0, b, k, j))
            ==> (#[trigger] b0[k].shape@[j]).constraint.is_none()
}

/// What joining spans `a` and `b`, none of whose points was held, does to
/// the constraints `c0`, giving `c1`: every pair of points gets a new
/// constraint holding exactly that pair, and nothing else changes.
pub open spec fn pairs_bound(
    c0: Map<ConstraintKey, Constraint>,
    c1: Map<ConstraintKey, Constraint>,
    b0: Map<SoftBodyKey, SoftBody>,
    b1: Map<SoftBodyKey, SoftBody>,
    a: AttatchmentPointHandle,
    b: AttatchmentPointHandle,
) -> bool {
    &&& forall|m: int|
        0 <= m < span_of(b0, a).length ==> slot_at(b1, #[trigger] pair_first(b0, a, m)).is_some()
            && !c0.contains_key(slot_at(b1, pair_first(b0, a, m)).unwrap()) && holds_pair(
            c1,
            b1,
            slot_at(b1, pair_first(b0, a, m)).unwrap(),
            pair_first(b0, a, m),
            pair_second(b0, b, m),
        )
    &&& forall|c: ConstraintKey| #[trigger] c0.contains_key(c) ==> c1.contains_key(c) && c1[c] == c0[c]
    &&& forall|c: ConstraintKey|
        #[trigger] c1.contains_key(c) && !c0.contains_key(c) ==> exists|m: int|
            #![trigger pair_first(b0, a, m)]
            0 <= m < span_of(b0, a).length && holds_pair(c1, b1, c, pair_first(b0, a, m), pair_second(b0, b, m))
}

pub proof fn lemma_ring_index_injective(start: int, m: int, k: int, n: int)
    requires
        n > 0,
        0 <= m < n,
        0 <= k < n,
        ring_index(start, m, n) == ring_index(start, k, n),
    ensures
        m == k,
{
    crate::ring::lemma_index_in_range(start, m, n);
    lemma_offset_of_index(ring_index(start, m, n), start, m, n);
    lemma_offset_of_index(ring_index(start, m, n), start, k, n);
}

/// Point `h`, not among the new members `given`, is held by one of the
/// constraints `ks` other than `r` and listed among its members: merging that
/// constraint into `r` moves the point to `r`.
pub open spec fn regrouped_by(
    c0: Map<ConstraintKey, Constraint>,
    b0: Map<SoftBodyKey, SoftBody>,
    given: Seq<PointHandle>,
    ks: Seq<ConstraintKey>,
    r: ConstraintKey,
    h: PointHandle,
) -> bool {
    &&& resolves(b0, h)
    &&& !given.contains(h)
    &&& slot_at(b0, h).is_some()
    &&& ks.contains(slot_at(b0, h).unwrap())
    &&& slot_at(b0, h).unwrap() != r
    &&& c0.contains_key(slot_at(b0, h).unwrap())
    &&& c0[slot_at(b0, h).unwrap()].members().contains(h)
}

/// No member of `ms` finds a point that a constraint holds.
pub open spec fn unheld(bodies: Map<SoftBodyKey, SoftBody>, ms: Seq<PointHandle>) -> bool {
    forall|h: PointHandle| ms.contains(h) && resolves(bodies, h) ==> (#[trigger] slot_at(bodies, h)).is_none()
}

pub proof fn lemma_replaced_all_key(ms: Seq<PointHandle>, bodies: Map<SoftBodyKey, SoftBody>, key: ConstraintKey)
    requires
        unheld(bodies, ms),
    ensures
        forall|m: int| 0 <= m < replaced_keys(ms, bodies, key).len() ==> #[trigger] replaced_keys(ms, bodies, key)[m] == key,
    decreases ms.len(),
{
    if ms.len() > 0 {
        let init = ms.drop_last();
        assert forall|h: PointHandle| init.contains(h) && resolves(bodies, h) implies (#[trigger] slot_at(bodies, h)).is_none() by {
            let i = choose|i: int| 0 <= i < init.len() && init[i] == h;
            assert(ms[i] == h);
        }
        lemma_replaced_all_key(init, bodies, key);
        assert(ms.contains(ms.last())) by {
            assert(ms[ms.len() - 1] == ms.last());
        }
        let before = replaced_keys(init, bodies, key);
        let h = ms.last();
        if resolves(bodies, h) && !init.contains(h) {
            assert(slot_at(bodies, h).is_none());
        }
        let all = replaced_keys(ms, bodies, key);
        assert(all.len() == before.len() || all == before.push(key));
        assert forall|m: int| 0 <= m < all.len() implies #[trigger] all[m] == key by {
            if m < before.len() {
                assert(before[m] == key);
            }
        }
    }
}

/// Whether `k` is among `v`.
fn contains_body_key(v: &Vec<SoftBodyKey>, k: SoftBodyKey) -> (r: bool)
    ensures
        r == v@.contains(k),
{
    let mut i: usize = 0;
    while i < v.len()
        invariant
            i <= v@.len(),
            forall|m: int| 0 <= m < i ==> v@[m] != k,
        decreases v@.len() - i,
    {
        if v[i] == k {
            return true;
        }
        i = i + 1;
    }
    false
}

/// The bodies that `body`'s attachment spans are joined to.
fn attached_keys(body: &SoftBody) -> (r: Vec<SoftBodyKey>)
    ensures
        forall|j: SoftBodyKey| #[trigger] attached_to(*body, j) ==> r@.contains(j),
        forall|j: SoftBodyKey| #[trigger] r@.contains(j) ==> attached_to(*body, j),
{
    let mut r: Vec<SoftBodyKey> = Vec::new();
    let mut i: usize = 0;
    while i < body.attatchment_points.len()
        invariant
            i <= body.attatchment_points@.len(),
            forall|m: int|
                0 <= m < i && (#[trigger] body.attatchment_points@[m]).connection.is_some() ==> r@.contains(
                    body.attatchment_points@[m].connection.unwrap().soft_body,
                ),
            forall|j: SoftBodyKey| #[trigger] r@.contains(j) ==> attached_to(*body, j),
        decreases body.attatchment_points@.len() - i,
    {
        match body.attatchment_points[i].connection {
            Some(h) => {
                let ghost before = r@;
                r.push(h.soft_body);
                proof {
                    lemma_push_contains_all(before, h.soft_body);
                    assert(body.attatchment_points@[i as int].connection == Some(h));
                    assert(attached_to(*body, h.soft_body));
                }
            },
            None => {},
        }
        i = i + 1;
    }
    proof {
        assert forall|j: SoftBodyKey| #[trigger] attached_to(*body, j) implies r@.contains(j) by {
            let m = choose|m: int|
                0 <= m < body.attatchment_points@.len() && (#[trigger] body.attatchment_points@[m]).connection.is_some()
                    && body.attatchment_points@[m].connection.unwrap().soft_body == j;
        }
    }
    r
}

impl Simulation {
    pub open spec fn bodies(&self) -> Map<SoftBodyKey, SoftBody> {
        self.soft_bodies@
    }

    pub open spec fn constraint_map(&self) -> Map<ConstraintKey, Constraint> {
        self.constraints@
    }

    /// Both collections are finite and every body is well formed.
    pub open spec fn wf(&self) -> bool {
        &&& self.bodies().dom().finite()
        &&& self.constraint_map().dom().finite()
        &&& forall|k: SoftBodyKey| #[trigger] self.bodies().contains_key(k) ==> self.bodies()[k].wf()
    }

    /// A simulation with no bodies and no constraints.
    pub fn new() -> (r: Simulation)
        ensures
            r.wf(),
            r.bodies() == Map::<SoftBodyKey, SoftBody>::empty(),
            r.constraint_map() == Map::<ConstraintKey, Constraint>::empty(),
            r.keys@.len() == 0,
    {
        Simulation { soft_bodies: SoftBodies::new(), keys: Vec::new(), constraints: Constraints::new() }
    }

    /// Adds a body under a fresh key and appends the key to the live list.
    pub fn add_soft_body(&mut self, soft_body: SoftBody) -> (r: SoftBodyKey)
        requires
            old(self).wf(),
            soft_body.wf(),
            old(self).bodies().len() <= MAX_ENTRIES,
        ensures
            final(self).wf(),
            !old(self).bodies().contains_key(r),
            final(self).bodies() == old(self).bodies().insert(r, soft_body),
            final(self).keys@ == old(self).keys@.push(r),
            final(self).constraint_map() == old(self).constraint_map(),
    {
        let key = self.soft_bodies.insert(soft_body);
        self.keys.push(key);
        key
    }

    /// Rebuilds the live list from the body collection.
    pub fn update_keys(&mut self)
        ensures
            final(self).keys@.no_duplicates(),
            final(self).keys@.to_set() == old(self).bodies().dom(),
            final(self).soft_bodies == old(self).soft_bodies,
            final(self).constraints == old(self).constraints,
    {
        self.keys = self.soft_bodies.keys();
    }

    /// Stores `constraint` under a fresh key and makes it the holder of each
    /// of its points. A constraint that held one of those points before is
    /// removed, and the points it held join the new constraint.
    pub fn insert_constraint(&mut self, constraint: Constraint) -> (r: ConstraintKey)
        requires
            old(self).wf(),
            old(self).constraint_map().len() <= MAX_ENTRIES,
        ensures
            final(self).wf(),
            !old(self).constraint_map().contains_key(r),
            final(self).constraint_map().contains_key(r),
            final(self).constraint_map().dom().subset_of(old(self).constraint_map().dom().insert(r)),
            same_layout(old(self).bodies(), final(self).bodies()),
            final(self).keys == old(self).keys,
            forall|h: PointHandle|
                constraint.members().contains(h) && resolves(old(self).bodies(), h) ==> #[trigger] slot_at(
                    final(self).bodies(),
                    h,
                ) == Some(r),
            forall|h: PointHandle|
                resolves(old(self).bodies(), h) && slot_at(old(self).bodies(), h).is_some()
                    ==> #[trigger] slot_at(final(self).bodies(), h).is_some(),
            forall|c: ConstraintKey|
                #[trigger] final(self).constraint_map().contains_key(c) <==> (c == r || (old(self).constraint_map().contains_key(c)
                    && !replaced_keys(constraint.members(), old(self).bodies(), r).contains(c))),
            forall|c: ConstraintKey|
                c != r && #[trigger] final(self).constraint_map().contains_key(c) ==> final(self).constraint_map()[c]
                    == old(self).constraint_map()[c],
            forall|h: PointHandle|
                resolves(old(self).bodies(), h) ==> #[trigger] slot_at(final(self).bodies(), h) == if constraint.members().contains(h)
                    || regrouped_by(
                    old(self).constraint_map(),
                    old(self).bodies(),
                    constraint.members(),
                    replaced_keys(constraint.members(), old(self).bodies(), r),
                    r,
                    h,
                ) {
                    Some(r)
                } else {
                    slot_at(old(self).bodies(), h)
                },
            forall|h: PointHandle|
                #[trigger] final(self).constraint_map()[r].members().contains(h) <==> (kept_members(
                    constraint.members(),
                    old(self).bodies(),
                ).contains(h) || regrouped_by(
                    old(self).constraint_map(),
                    old(self).bodies(),
                    constraint.members(),
                    replaced_keys(constraint.members(), old(self).bodies(), r),
                    r,
                    h,
                )),
            final(self).constraint_map()[r].members().len() >= kept_members(constraint.members(), old(self).bodies()).len(),
            final(self).constraint_map()[r].members().subrange(
                0,
                kept_members(constraint.members(), old(self).bodies()).len() as int,
            ) == kept_members(constraint.members(), old(self).bodies()),
            unheld(old(self).bodies(), constraint.members()) ==> {
                &&& final(self).constraint_map() == old(self).constraint_map().insert(
                    r,
                    final(self).constraint_map()[r],
                )
                &&& final(self).constraint_map()[r].members() == kept_members(
                    constraint.members(),
                    old(self).bodies(),
                )
                &&& forall|h: PointHandle|
                    resolves(old(self).bodies(), h) ==> #[trigger] slot_at(final(self).bodies(), h)
                        == if constraint.members().contains(h) {
                        Some(r)
                    } else {
                        slot_at(old(self).bodies(), h)
                    }
            },
    {
        let ghost b0 = self.bodies();
        let ghost c0 = self.constraint_map();
        let ghost given = constraint.members();
        let mut constraint = constraint;
        let key = self.constraints.insert(Constraint::HoldTogether { points: Vec::new() });
        let mut keys_to_replace: Vec<ConstraintKey> = Vec::new();
        constraint.insert(key, &mut self.soft_bodies, &mut keys_to_replace);
        let ghost held = constraint.members();
        let ghost kept = kept_members(given, b0);
        let ghost claimed = self.bodies();
        let slot = self.constraints.index_mut(key);
        *slot = constraint;
        let ghost placed = self.constraint_map();
        proof {
            if unheld(b0, given) {
                lemma_replaced_all_key(given, b0, key);
            }
            assert(keys_to_replace@.subrange(0, 0) =~= Seq::<ConstraintKey>::empty());
            assert(self.constraint_map()[key].members().subrange(0, kept.len() as int) =~= kept);
            assert forall|k: SoftBodyKey| #[trigger] self.bodies().contains_key(k) implies self.bodies()[k].wf() by {
                assert(crate::soft_body::same_body_layout(b0[k], self.bodies()[k]));
            }
            assert(self.constraint_map().dom() =~= old(self).constraint_map().dom().insert(key));
        }
        let mut i: usize = 0;
        while i < keys_to_replace.len()
            invariant
                self.wf(),
                self.constraint_map().contains_key(key),
                self.constraint_map().dom().subset_of(old(self).constraint_map().dom().insert(key)),
                same_layout(b0, self.bodies()),
                self.keys == old(self).keys,
                forall|h: PointHandle|
                    constraint.members().contains(h) && resolves(b0, h) ==> #[trigger] slot_at(
                        self.bodies(),
                        h,
                    ) == Some(key),
                forall|h: PointHandle|
                    resolves(b0, h) && slot_at(b0, h).is_some() ==> #[trigger] slot_at(
                        self.bodies(),
                        h,
                    ).is_some(),
                unheld(b0, given) ==> self.constraint_map() == placed && self.bodies() == claimed
                    && forall|m: int| 0 <= m < keys_to_replace@.len() ==> #[trigger] keys_to_replace@[m] == key,
                keys_to_replace@ == replaced_keys(given, b0, key),
                i <= keys_to_replace@.len(),
                !c0.contains_key(key),
                forall|c: ConstraintKey|
                    #[trigger] self.constraint_map().contains_key(c) <==> (c == key || (c0.contains_key(c)
                        && !keys_to_replace@.subrange(0, i as int).contains(c))),
                forall|c: ConstraintKey|
                    c != key && #[trigger] self.constraint_map().contains_key(c) ==> self.constraint_map()[c] == c0[c],
                forall|h: PointHandle|
                    resolves(b0, h) ==> #[trigger] slot_at(self.bodies(), h) == if given.contains(h) || regrouped_by(
                        c0,
                        b0,
                        given,
                        keys_to_replace@.subrange(0, i as int),
                        key,
                        h,
                    ) {
                        Some(key)
                    } else {
                        slot_at(b0, h)
                    },
                forall|h: PointHandle|
                    #[trigger] self.constraint_map()[key].members().contains(h) <==> (kept.contains(h)
                        || regrouped_by(c0, b0, given, keys_to_replace@.subrange(0, i as int), key, h)),
                self.constraint_map()[key].members().len() >= kept.len(),
                self.constraint_map()[key].members().subrange(0, kept.len() as int) == kept,
            decreases keys_to_replace@.len() - i,
        {
            let replaced = keys_to_replace[i];
            let ghost ki = keys_to_replace@.subrange(0, i as int);
            let ghost kn = keys_to_replace@.subrange(0, i + 1);
            let ghost cur = self.constraint_map();
            let ghost cur_b = self.bodies();
            proof {
                assert(kn =~= ki.push(replaced));
                lemma_push_contains_all(ki, replaced);
            }
            if replaced != key {
                let removed = self.remove_constraint(replaced, Some(key));
                proof {
                    assert(cur.contains_key(key));
                    if removed.is_some() {
                        assert(cur[replaced] == c0[replaced]);
                        lemma_released_members_contains(c0[replaced].members(), cur_b, replaced, Some(key));
                        assert(self.constraint_map()[key].members() == cur[key].members()
                            + released_members(c0[replaced].members(), cur_b, replaced, Some(key)));
                        assert(self.constraint_map()[key].members().subrange(0, kept.len() as int) =~= kept);
                    }
                    assert forall|h: PointHandle| resolves(b0, h) implies #[trigger] slot_at(self.bodies(), h)
                        == if given.contains(h) || regrouped_by(c0, b0, given, kn, key, h) {
                        Some(key)
                    } else {
                        slot_at(b0, h)
                    } by {
                        if b0.contains_key(h.soft_body) {
                            assert(crate::soft_body::same_body_layout(b0[h.soft_body], cur_b[h.soft_body]));
                        }
                        assert(resolves(cur_b, h));
                    }
                    assert forall|h: PointHandle|
                        #[trigger] self.constraint_map()[key].members().contains(h) <==> (kept.contains(h)
                            || regrouped_by(c0, b0, given, kn, key, h)) by {
                        if b0.contains_key(h.soft_body) {
                            assert(crate::soft_body::same_body_layout(b0[h.soft_body], cur_b[h.soft_body]));
                        }
                        assert(resolves(b0, h) == resolves(cur_b, h));
                        if resolves(b0, h) {
                            assert(slot_at(cur_b, h) == if given.contains(h) || regrouped_by(c0, b0, given, ki, key, h) {
                                Some(key)
                            } else {
                                slot_at(b0, h)
                            });
                        }
                        if removed.is_none() {
                            assert(!cur.contains_key(replaced));
                        }
                        if removed.is_some() {
                            lemma_push_contains_all(cur[key].members(), h);
                            assert((cur[key].members() + released_members(c0[replaced].members(), cur_b, replaced, Some(key))).contains(h)
                                <==> (cur[key].members().contains(h) || released_members(c0[replaced].members(), cur_b, replaced, Some(key)).contains(h))) by {
                                let l = cur[key].members();
                                let rr = released_members(c0[replaced].members(), cur_b, replaced, Some(key));
                                if (l + rr).contains(h) {
                                    let m = choose|m: int| 0 <= m < (l + rr).len() && (l + rr)[m] == h;
                                    if m < l.len() {
                                        assert(l[m] == h);
                                    } else {
                                        assert(rr[m - l.len()] == h);
                                    }
                                }
                                if l.contains(h) {
                                    let m = choose|m: int| 0 <= m < l.len() && l[m] == h;
                                    assert((l + rr)[m] == h);
                                }
                                if rr.contains(h) {
                                    let m = choose|m: int| 0 <= m < rr.len() && rr[m] == h;
                                    assert((l + rr)[l.len() + m] == h);
                                }
                            }
                        }
                    }
                }
            }
            i = i + 1;
        }
        proof {
            assert(keys_to_replace@.subrange(0, keys_to_replace@.len() as int) =~= keys_to_replace@);
        }
        key
    }

    /// Removes the constraint under `key`, if any, and returns it. Each of its
    /// points that it held gets `replacement` as holder; when that constraint
    /// exists those points join its members.
    pub fn remove_constraint(&mut self, key: ConstraintKey, replacement: Option<ConstraintKey>) -> (r:
        Option<Constraint>)
        requires
            old(self).wf(),
        ensures
            final(self).wf(),
            r == (if old(self).constraint_map().contains_key(key) {
                Some(old(self).constraint_map()[key])
            } else {
                None
            }),
            r.is_none() ==> final(self).constraint_map() == old(self).constraint_map() && final(self).bodies()
                == old(self).bodies(),
            final(self).constraint_map().dom() == old(self).constraint_map().dom().remove(key),
            same_constraints_but(old(self).constraint_map(), final(self).constraint_map(), replacement),
            r.is_some() && replacement.is_some() && replacement != Some(key) && old(self).constraint_map().contains_key(
                replacement.unwrap(),
            ) ==> final(self).constraint_map()[replacement.unwrap()].members() == old(self).constraint_map()[replacement.unwrap()].members()
                + released_members(r.unwrap().members(), old(self).bodies(), key, replacement),
            same_layout(old(self).bodies(), final(self).bodies()),
            final(self).keys == old(self).keys,
            forall|h: PointHandle|
                resolves(old(self).bodies(), h) ==> #[trigger] slot_at(final(self).bodies(), h)
                    == if r.is_some() && r.unwrap().members().contains(h) && slot_at(
                    old(self).bodies(),
                    h,
                ) == Some(key) {
                    replacement
                } else {
                    slot_at(old(self).bodies(), h)
                },
    {
        let ghost b0 = self.bodies();
        match self.constraints.remove(key) {
            Some(constraint) => {
                let mut points_regrouped: Vec<PointHandle> = Vec::new();
                constraint.remove(key, replacement, &mut self.soft_bodies, &mut points_regrouped);
                match replacement {
                    Some(other) => {
                        if self.constraints.get(other).is_some() {
                            let target = self.constraints.index_mut(other);
                            target.extend(&mut points_regrouped);
                        }
                    },
                    None => {},
                }
                proof {
                    assert(self.constraint_map().dom() =~= old(self).constraint_map().dom().remove(key));
                    assert forall|k: SoftBodyKey| #[trigger] self.bodies().contains_key(k) implies self.bodies()[k].wf() by {
                        assert(crate::soft_body::same_body_layout(b0[k], self.bodies()[k]));
                    }
                }
                Some(constraint)
            },
            None => {
                proof {
                    assert(self.constraint_map().dom() =~= old(self).constraint_map().dom().remove(key));
                    assert(self.constraint_map() =~= old(self).constraint_map());
                    assert(same_layout(b0, b0));
                }
                None
            },
        }
    }

    fn set_connection_state(&mut self, key: SoftBodyKey, state: ConnectionState)
        requires
            old(self).wf(),
            old(self).bodies().contains_key(key),
        ensures
            final(self).wf(),
            same_but_states(old(self).bodies(), final(self).bodies()),
            state_of(final(self).bodies(), key) == state,
            forall|k: SoftBodyKey| k != key ==> #[trigger] final(self).bodies()[k] == old(self).bodies()[k],
            final(self).constraint_map() == old(self).constraint_map(),
            final(self).keys == old(self).keys,
    {
        let body = self.soft_bodies.index_mut(key);
        body.connection_state = state;
        proof {
            assert(self.bodies().dom() =~= old(self).bodies().dom());
        }
    }

    /// Carries connection state from `start` across attachments: a reached
    /// body in state `from` takes state `to` and passes it on, a source passes
    /// it on unchanged, and any other body stops it. Each body is visited once.
    fn propagate(&mut self, start: SoftBodyKey, from: ConnectionState, to: ConnectionState) -> (r:
        Option<SoftBodyKey>)
        requires
            old(self).wf(),
            from != to,
            from != ConnectionState::Source,
            to != ConnectionState::Source,
        ensures
            final(self).wf(),
            propagated(old(self).bodies(), final(self).bodies(), start, from, to, r),
            final(self).constraint_map() == old(self).constraint_map(),
            final(self).keys == old(self).keys,
    {
        let ghost b0 = self.bodies();
        let mut stack: Vec<SoftBodyKey> = Vec::new();
        stack.push(start);
        let mut visited: Vec<SoftBodyKey> = Vec::new();
        let mut found: Option<SoftBodyKey> = None;
        proof {
            lemma_push_contains_all(Seq::<SoftBodyKey>::empty(), start);
        }
        while stack.len() > 0
            invariant
                from != to,
                from != ConnectionState::Source,
                to != ConnectionState::Source,
                self.wf(),
                self.constraint_map() == old(self).constraint_map(),
                self.keys == old(self).keys,
                same_but_states(b0, self.bodies()),
                visited@.no_duplicates(),
                forall|v: SoftBodyKey| #[trigger] visited@.contains(v) ==> b0.contains_key(v),
                forall|k: SoftBodyKey|
                    #[trigger] b0.contains_key(k) ==> state_of(self.bodies(), k) == if visited@.contains(k)
                        && state_of(b0, k) == from {
                        to
                    } else {
                        state_of(b0, k)
                    },
                b0.contains_key(start) ==> visited@.contains(start) || stack@.contains(start),
                forall|v: SoftBodyKey, j: SoftBodyKey|
                    visited@.contains(v) && passes(b0, v, from) && #[trigger] attached_to(b0[v], j)
                        && b0.contains_key(j) ==> visited@.contains(j) || stack@.contains(j),
                forall|x: SoftBodyKey|
                    #[trigger] stack@.contains(x) ==> x == start || exists|p: SoftBodyKey|
                        visited@.contains(p) && passes(b0, p, from) && #[trigger] attached_to(b0[p], x),
                forall|x: SoftBodyKey|
                    #[trigger] visited@.contains(x) ==> x == start || exists|p: SoftBodyKey|
                        visited@.contains(p) && passes(b0, p, from) && #[trigger] attached_to(b0[p], x),
                found.is_some() ==> visited@.contains(found.unwrap()) && state_of(b0, found.unwrap())
                    == ConnectionState::Source,
                found.is_none() ==> forall|v: SoftBodyKey|
                    #[trigger] visited@.contains(v) ==> state_of(b0, v) != ConnectionState::Source,
            decreases b0.len() - visited@.len(), stack@.len(),
        {
            let ghost stack_before = stack@;
            let k = stack.pop().unwrap();
            let ghost stack_popped = stack@;
            proof {
                assert(stack_before == stack@.push(k));
                lemma_push_contains_all(stack@, k);
            }
            if contains_body_key(&visited, k) {
                proof {
                    assert forall|v: SoftBodyKey, j: SoftBodyKey|
                        visited@.contains(v) && passes(b0, v, from) && #[trigger] attached_to(b0[v], j)
                            && b0.contains_key(j) implies visited@.contains(j) || stack@.contains(j) by {
                        assert(stack_before.contains(j) || visited@.contains(j));
                    }
                    assert forall|x: SoftBodyKey| #[trigger] stack@.contains(x) implies x == start || exists|p: SoftBodyKey|
                        visited@.contains(p) && passes(b0, p, from) && #[trigger] attached_to(b0[p], x) by {
                        assert(stack_before.contains(x));
                    }
                }
                continue;
            }
            let state = match self.soft_bodies.get(k) {
                Some(body) => body.connection_state,
                None => {
                    proof {
                        assert forall|v: SoftBodyKey, j: SoftBodyKey|
                            visited@.contains(v) && passes(b0, v, from) && #[trigger] attached_to(b0[v], j)
                                && b0.contains_key(j) implies visited@.contains(j) || stack@.contains(j) by {
                            assert(stack_before.contains(j) || visited@.contains(j));
                            assert(j != k);
                        }
                        assert forall|x: SoftBodyKey| #[trigger] stack@.contains(x) implies x == start || exists|p: SoftBodyKey|
                            visited@.contains(p) && passes(b0, p, from) && #[trigger] attached_to(b0[p], x) by {
                            assert(stack_before.contains(x));
                        }
                    }
                    continue;
                },
            };
            proof {
                visited@.unique_seq_to_set();
                assert(visited@.to_set().subset_of(b0.dom()));
                vstd::set_lib::lemma_len_subset(visited@.to_set(), b0.dom());
                assert(stack_before.contains(k));
            }
            let ghost visited_before = visited@;
            visited.push(k);
            proof {
                lemma_push_contains_all(visited_before, k);
                assert(visited@.no_duplicates());
                assert(state == state_of(b0, k));
                visited@.unique_seq_to_set();
                assert(self.bodies().dom() == b0.dom());
                assert(visited@.to_set().subset_of(b0.dom()));
                vstd::set_lib::lemma_len_subset(visited@.to_set(), b0.dom());
            }
            let ghost mid = self.bodies();
            if state == from {
                self.set_connection_state(k, to);
            } else if state == ConnectionState::Source {
                found = Some(k);
            }
            proof {
                assert(self.bodies().dom() =~= b0.dom());
                assert forall|x: SoftBodyKey| #[trigger] visited@.contains(x) implies x == start || exists|p: SoftBodyKey|
                    visited@.contains(p) && passes(b0, p, from) && #[trigger] attached_to(b0[p], x) by {
                    if x != k {
                        assert(visited_before.contains(x));
                        if x != start {
                            let p = choose|p: SoftBodyKey|
                                visited_before.contains(p) && passes(b0, p, from) && #[trigger] attached_to(b0[p], x);
                            assert(visited@.contains(p));
                        }
                    } else if x != start {
                        let p = choose|p: SoftBodyKey|
                            visited_before.contains(p) && passes(b0, p, from) && #[trigger] attached_to(b0[p], x);
                        assert(visited@.contains(p));
                    }
                }
                assert forall|x: SoftBodyKey| #[trigger] stack@.contains(x) implies x == start || exists|p: SoftBodyKey|
                    visited@.contains(p) && passes(b0, p, from) && #[trigger] attached_to(b0[p], x) by {
                    assert(stack_before.contains(x));
                    if x != start {
                        let p = choose|p: SoftBodyKey|
                            visited_before.contains(p) && passes(b0, p, from) && #[trigger] attached_to(b0[p], x);
                        assert(visited@.contains(p));
                    }
                }
                assert forall|v: SoftBodyKey| found.is_none() && #[trigger] visited@.contains(v) implies state_of(b0, v)
                    != ConnectionState::Source by {
                    if v != k {
                        assert(visited_before.contains(v));
                    }
                }
            }
            if state == from || state == ConnectionState::Source {
                let mut next = attached_keys(self.soft_bodies.get(k).unwrap());
                let ghost next_all = next@;
                let ghost stack_mid = stack@;
                stack.append(&mut next);
                proof {
                    assert(stack@ == stack_mid + next_all);
                    assert(self.bodies()[k].attatchment_points == b0[k].attatchment_points);
                    assert forall|x: SoftBodyKey| #[trigger] stack@.contains(x) <==> (stack_mid.contains(x) || next_all.contains(x)) by {
                        if stack_mid.contains(x) {
                            let m = choose|m: int| 0 <= m < stack_mid.len() && stack_mid[m] == x;
                            assert(stack@[m] == x);
                        } else if next_all.contains(x) {
                            let m = choose|m: int| 0 <= m < next_all.len() && next_all[m] == x;
                            assert(stack@[stack_mid.len() + m] == x);
                        }
                        if stack@.contains(x) {
                            let m = choose|m: int| 0 <= m < stack@.len() && stack@[m] == x;
                            if m < stack_mid.len() {
                                assert(stack_mid[m] == x);
                            } else {
                                assert(next_all[m - stack_mid.len()] == x);
                            }
                        }
                    }
                    assert forall|j: SoftBodyKey| #[trigger] attached_to(b0[k], j) implies stack@.contains(j) by {
                        assert(attached_to(self.bodies()[k], j));
                        assert(next_all.contains(j));
                    }
                    assert forall|x: SoftBodyKey| #[trigger] stack@.contains(x) implies x == start || exists|p: SoftBodyKey|
                        visited@.contains(p) && passes(b0, p, from) && #[trigger] attached_to(b0[p], x) by {
                        if next_all.contains(x) {
                            assert(attached_to(self.bodies()[k], x));
                            assert(attached_to(b0[k], x));
                            assert(passes(b0, k, from));
                            assert(visited@.contains(k));
                        } else {
                            assert(stack_mid.contains(x));
                        }
                    }
                }
            }
            proof {
                assert forall|v: SoftBodyKey, j: SoftBodyKey|
                    visited@.contains(v) && passes(b0, v, from) && #[trigger] attached_to(b0[v], j)
                        && b0.contains_key(j) implies visited@.contains(j) || stack@.contains(j) by {
                    if v != k {
                        assert(visited_before.contains(v));
                        assert(visited_before.contains(j) || stack_before.contains(j));
                        if stack_before.contains(j) && j != k {
                            assert(stack_popped.contains(j));
                        }
                    }
                }
            }
        }
        proof {
            let reached = visited@.to_set();
            assert forall|x: SoftBodyKey| #[trigger] reached.contains(x) <==> visited@.contains(x) by {}
            assert(reach(b0, self.bodies(), start, from, to, found, reached));
        }
        found
    }

    /// Marks every disconnected body reachable from `soft_body_key` through
    /// attachments as connected, passing through sources.
    pub fn connect_attatched_soft_bodies(&mut self, soft_body_key: SoftBodyKey)
        requires
            old(self).wf(),
        ensures
            final(self).wf(),
            exists|found: Option<SoftBodyKey>|
                propagated(
                    old(self).bodies(),
                    final(self).bodies(),
                    soft_body_key,
                    ConnectionState::Disconnected,
                    ConnectionState::Connected,
                    found,
                ),
            final(self).constraint_map() == old(self).constraint_map(),
            final(self).keys == old(self).keys,
    {
        let _ = self.propagate(
            soft_body_key,
            ConnectionState::Disconnected,
            ConnectionState::Connected,
        );
    }

    /// Marks every connected body reachable from `soft_body_key` through
    /// attachments as disconnected, passing through sources, and returns a
    /// source it met, if any.
    pub fn clear_connections_from(&mut self, soft_body_key: SoftBodyKey) -> (r: Option<SoftBodyKey>)
        requires
            old(self).wf(),
        ensures
            final(self).wf(),
            propagated(
                old(self).bodies(),
                final(self).bodies(),
                soft_body_key,
                ConnectionState::Connected,
                ConnectionState::Disconnected,
                r,
            ),
            final(self).constraint_map() == old(self).constraint_map(),
            final(self).keys == old(self).keys,
    {
        self.propagate(soft_body_key, ConnectionState::Connected, ConnectionState::Disconnected)
    }

    /// Gives the span under `h` the connection `c`.
    fn set_connection(&mut self, h: AttatchmentPointHandle, c: Option<AttatchmentPointHandle>)
        requires
            old(self).wf(),
            handle_valid(old(self).bodies(), h),
        ensures
            final(self).wf(),
            final(self).bodies().dom() == old(self).bodies().dom(),
            forall|k: SoftBodyKey|
                #[trigger] old(self).bodies().contains_key(k) ==> {
                    &&& final(self).bodies()[k].shape == old(self).bodies()[k].shape
                    &&& final(self).bodies()[k].connection_state == old(self).bodies()[k].connection_state
                    &&& final(self).bodies()[k].debris == old(self).bodies()[k].debris
                    &&& final(self).bodies()[k].attatchment_points@ == spans_after(old(self).bodies(), k, h, c)
                },
            final(self).constraint_map() == old(self).constraint_map(),
            final(self).keys == old(self).keys,
    {
        let body = self.soft_bodies.index_mut(h.soft_body);
        let mut span = body.attatchment_points[h.index];
        span.connection = c;
        body.attatchment_points.set(h.index, span);
        proof {
            assert(self.bodies().dom() =~= old(self).bodies().dom());
            assert(self.bodies()[h.soft_body].wf()) by {
                assert(old(self).bodies()[h.soft_body].wf());
                let b = self.bodies()[h.soft_body];
                assert forall|i: int| 0 <= i < b.attatchment_points@.len() implies span_fits(
                    #[trigger] b.attatchment_points@[i],
                    b.shape@.len() as int,
                ) by {
                    assert(span_fits(old(self).bodies()[h.soft_body].attatchment_points@[i], b.shape@.len() as int));
                }
            }
        }
    }

    /// Adds `delta` (one or minus one) to the connection count of point `j`
    /// of body `k`; when the count drops to zero the point's constraint slot
    /// is cleared.
    fn shift_count(&mut self, k: SoftBodyKey, j: usize, up: bool)
        requires
            old(self).wf(),
            old(self).bodies().contains_key(k),
            j < ring_len(old(self).bodies(), k),
            up ==> count_of(old(self).bodies(), k, j as int) < u32::MAX,
        ensures
            final(self).wf(),
            final(self).bodies().dom() == old(self).bodies().dom(),
            forall|key: SoftBodyKey|
                #[trigger] old(self).bodies().contains_key(key) ==> {
                    &&& final(self).bodies()[key].shape@.len() == old(self).bodies()[key].shape@.len()
                    &&& final(self).bodies()[key].attatchment_points == old(self).bodies()[key].attatchment_points
                    &&& final(self).bodies()[key].connection_state == old(self).bodies()[key].connection_state
                    &&& final(self).bodies()[key].debris == old(self).bodies()[key].debris
                },
            forall|key: SoftBodyKey, i: int|
                #![trigger final(self).bodies()[key].shape@[i]]
                old(self).bodies().contains_key(key) && 0 <= i < ring_len(old(self).bodies(), key) && !(key
                    == k && i == j) ==> final(self).bodies()[key].shape@[i] == old(self).bodies()[key].shape@[i],
            up ==> final(self).bodies()[k].shape@[j as int] == (crate::soft_body::Point {
                constraint: old(self).bodies()[k].shape@[j as int].constraint,
                num_connections: (count_of(old(self).bodies(), k, j as int) + 1) as u32,
            }),
            !up ==> count_of(final(self).bodies(), k, j as int) == if count_of(old(self).bodies(), k, j as int) > 0 {
                (count_of(old(self).bodies(), k, j as int) - 1) as u32
            } else {
                0u32
            },
            !up ==> final(self).bodies()[k].shape@[j as int].constraint == if count_of(final(self).bodies(), k, j as int) == 0 {
                None
            } else {
                old(self).bodies()[k].shape@[j as int].constraint
            },
            final(self).constraint_map() == old(self).constraint_map(),
            final(self).keys == old(self).keys,
    {
        let body = self.soft_bodies.index_mut(k);
        let mut p = body.shape[j];
        if up {
            p.num_connections = p.num_connections + 1;
        } else {
            if p.num_connections > 0 {
                p.num_connections = p.num_connections - 1;
            }
            if p.num_connections == 0 {
                p.constraint = None;
            }
        }
        body.shape.set(j, p);
        proof {
            assert(self.bodies().dom() =~= old(self).bodies().dom());
            assert(self.bodies()[k].wf()) by {
                assert(old(self).bodies()[k].wf());
                let b = self.bodies()[k];
                assert forall|i: int| 0 <= i < b.attatchment_points@.len() implies span_fits(
                    #[trigger] b.attatchment_points@[i],
                    b.shape@.len() as int,
                ) by {
                    assert(span_fits(old(self).bodies()[k].attatchment_points@[i], b.shape@.len() as int));
                }
            }
        }
    }

    /// Every constraint holds at least two members, each an existing point
    /// whose slot names that constraint.
    pub open spec fn pruned(&self) -> bool {
        &&& forall|c: ConstraintKey|
            #[trigger] self.constraint_map().contains_key(c) ==> self.constraint_map()[c].members().len() >= 2
        &&& forall|c: ConstraintKey, h: PointHandle|
            self.constraint_map().contains_key(c) && #[trigger] self.constraint_map()[c].members().contains(h)
                ==> resolves(self.bodies(), h) && slot_at(self.bodies(), h) == Some(c)
    }

    /// Whether `connect_attatchment_points` can join the spans under `a` and
    /// `b`: both exist on two different bodies, have the same length, are
    /// free, their points can take one more connection, and there is room
    /// for one constraint per pair of points.
    pub open spec fn can_connect(&self, a: AttatchmentPointHandle, b: AttatchmentPointHandle) -> bool {
        &&& handle_valid(self.bodies(), a)
        &&& handle_valid(self.bodies(), b)
        &&& a.soft_body != b.soft_body
        &&& span_of(self.bodies(), a).length == span_of(self.bodies(), b).length
        &&& span_of(self.bodies(), a).connection.is_none()
        &&& span_of(self.bodies(), b).connection.is_none()
        &&& span_has_room(self.bodies(), a)
        &&& span_has_room(self.bodies(), b)
        &&& self.constraint_map().len() + span_of(self.bodies(), a).length <= MAX_ENTRIES + 1
    }

    /// Whether every point of `span` on `body` can take one more connection.
    fn span_room(body: &SoftBody, span: AttatchmentPoint) -> (r: bool)
        requires
            span_fits(span, body.shape@.len() as int),
        ensures
            r == forall|j: int|
                0 <= j < body.shape@.len() && #[trigger] in_span(
                    j,
                    span.start_point as int,
                    span.length as int,
                    body.shape@.len() as int,
                ) ==> body.shape@[j].num_connections < u32::MAX,
    {
        let n = body.shape.len();
        let mut k: usize = 0;
        while k < span.length
            invariant
                n == body.shape@.len(),
                span_fits(span, n as int),
                k <= span.length,
                forall|m: int|
                    0 <= m < k ==> (#[trigger] body.shape@[ring_index(
                        span.start_point as int,
                        m,
                        n as int,
                    )]).num_connections < u32::MAX,
            decreases span.length - k,
        {
            let j = advance(span.start_point, k, n);
            if body.shape[j].num_connections == u32::MAX {
                proof {
                    lemma_offset_of_index(j as int, span.start_point as int, k as int, n as int);
                    assert(in_span(j as int, span.start_point as int, span.length as int, n as int));
                }
                return false;
            }
            k = k + 1;
        }
        proof {
            assert forall|j: int|
                0 <= j < body.shape@.len() && #[trigger] in_span(
                    j,
                    span.start_point as int,
                    span.length as int,
                    body.shape@.len() as int,
                ) implies body.shape@[j].num_connections < u32::MAX by {
                let o = ring_offset(j, span.start_point as int, n as int);
                crate::ring::lemma_index_in_range(j, span.start_point as int, n as int);
                lemma_offset_of_index(j, span.start_point as int, o, n as int);
            }
        }
        true
    }

    /// Decides `can_connect`.
    fn check_connectable(&self, a: AttatchmentPointHandle, b: AttatchmentPointHandle) -> (r: bool)
        requires
            self.wf(),
        ensures
            r == self.can_connect(a, b),
    {
        if a.soft_body == b.soft_body {
            return false;
        }
        let body_a = match self.soft_bodies.get(a.soft_body) {
            Some(body) => body,
            None => {
                return false;
            },
        };
        let body_b = match self.soft_bodies.get(b.soft_body) {
            Some(body) => body,
            None => {
                return false;
            },
        };
        if a.index >= body_a.attatchment_points.len() || b.index >= body_b.attatchment_points.len() {
            return false;
        }
        let span_a = body_a.attatchment_points[a.index];
        let span_b = body_b.attatchment_points[b.index];
        proof {
            assert(body_a.wf());
            assert(body_b.wf());
            assert(span_fits(body_a.attatchment_points@[a.index as int], body_a.shape@.len() as int));
            assert(span_fits(body_b.attatchment_points@[b.index as int], body_b.shape@.len() as int));
        }
        if span_a.length != span_b.length || span_a.connection.is_some() || span_b.connection.is_some() {
            return false;
        }
        let room_a = Self::span_room(body_a, span_a);
        let room_b = Self::span_room(body_b, span_b);
        proof {
            if !room_a {
                let j = choose|j: int|
                    0 <= j < body_a.shape@.len() && #[trigger] in_span(
                        j,
                        span_a.start_point as int,
                        span_a.length as int,
                        body_a.shape@.len() as int,
                    ) && !(body_a.shape@[j].num_connections < u32::MAX);
                assert(covers(self.bodies(), a, a.soft_body, j));
            }
            if !room_b {
                let j = choose|j: int|
                    0 <= j < body_b.shape@.len() && #[trigger] in_span(
                        j,
                        span_b.start_point as int,
                        span_b.length as int,
                        body_b.shape@.len() as int,
                    ) && !(body_b.shape@[j].num_connections < u32::MAX);
                assert(covers(self.bodies(), b, b.soft_body, j));
            }
        }
        if !room_a || !room_b {
            return false;
        }
        let used = self.constraints.len();
        if span_a.length > MAX_ENTRIES + 1 || used > MAX_ENTRIES + 1 - span_a.length {
            return false;
        }
        true
    }

    /// Joins two equally long free attachment spans of two different bodies.
    /// Span `a` is walked forwards and span `b` backwards, and each pair of
    /// points met together gets a constraint of its own. When either body is
    /// linked to a source, the other one's side is marked connected first.
    /// Returns `None`, changing nothing, when `can_connect` does not hold.
    #[verifier::rlimit(100)]
    pub fn connect_attatchment_points(&mut self, handles: [AttatchmentPointHandle; 2]) -> (r: Option<()>)
        requires
            old(self).wf(),
        ensures
            final(self).wf(),
            r.is_some() == old(self).can_connect(handles[0], handles[1]),
            r.is_none() ==> *final(self) == *old(self),
            r.is_some() ==> joined(old(self).bodies(), final(self).bodies(), handles[0], handles[1]),
            r.is_some() && spans_unheld(old(self).bodies(), handles[0], handles[1]) ==> pairs_bound(
                old(self).constraint_map(),
                final(self).constraint_map(),
                old(self).bodies(),
                final(self).bodies(),
                handles[0],
                handles[1],
            ),
            final(self).keys == old(self).keys,
    {
        let handle_a = handles[0];
        let handle_b = handles[1];
        if !self.check_connectable(handle_a, handle_b) {
            return None;
        }
        let ghost b0 = self.bodies();
        let state_a = self.soft_bodies.get(handle_a.soft_body).unwrap().connection_state;
        let state_b = self.soft_bodies.get(handle_b.soft_body).unwrap().connection_state;
        let ghost mut reach_found: Option<SoftBodyKey> = None;
        let ghost mut reached: Set<SoftBodyKey> = Set::empty();
        let reach_start = if state_a.is_connected() {
            handle_b.soft_body
        } else {
            handle_a.soft_body
        };
        if state_a.is_connected() || state_b.is_connected() {
            self.connect_attatched_soft_bodies(reach_start);
            proof {
                let f = choose|f: Option<SoftBodyKey>|
                    propagated(
                        b0,
                        self.bodies(),
                        reach_start,
                        ConnectionState::Disconnected,
                        ConnectionState::Connected,
                        f,
                    );
                reach_found = f;
                reached = choose|r: Set<SoftBodyKey>|
                    reach(
                        b0,
                        self.bodies(),
                        reach_start,
                        ConnectionState::Disconnected,
                        ConnectionState::Connected,
                        f,
                        r,
                    );
            }
        }
        proof {
            assert(same_but_states(b0, self.bodies()));
            assert(forall|k: SoftBodyKey|
                #[trigger] b0.contains_key(k) ==> state_of(self.bodies(), k) == state_of(b0, k) || (
                state_of(b0, k) == ConnectionState::Disconnected && state_of(self.bodies(), k)
                    == ConnectionState::Connected));
        }
        let ghost b_colored = self.bodies();
        proof {
            assert(same_but_states(b0, b_colored));
            assert(forall|k: SoftBodyKey| #[trigger] b0.contains_key(k) ==> b_colored[k].shape == b0[k].shape);
            assert(b_colored[handle_a.soft_body].attatchment_points == b0[handle_a.soft_body].attatchment_points);
            assert(b_colored[handle_b.soft_body].attatchment_points == b0[handle_b.soft_body].attatchment_points);
        }
        self.set_connection(handle_a, Some(handle_b));
        self.set_connection(handle_b, Some(handle_a));
        let ghost b1 = self.bodies();
        let body_a = self.soft_bodies.get(handle_a.soft_body).unwrap();
        let body_b = self.soft_bodies.get(handle_b.soft_body).unwrap();
        let na = body_a.shape.len();
        let nb = body_b.shape.len();
        let sa = body_a.attatchment_points[handle_a.index].start_point;
        let sb = body_b.attatchment_points[handle_b.index].start_point;
        let length = body_a.attatchment_points[handle_a.index].length;
        proof {
            assert(sa == span_of(b0, handle_a).start_point);
            assert(sb == span_of(b0, handle_b).start_point);
            assert(length == span_of(b0, handle_b).length);
            assert(body_a.wf());
            assert(span_fits(body_a.attatchment_points@[handle_a.index as int], na as int));
            assert(body_b.wf());
            assert(span_fits(body_b.attatchment_points@[handle_b.index as int], nb as int));
        }
        let mut k: usize = 0;
        while k < length
            invariant
                self.wf(),
                self.keys == old(self).keys,
                self.constraint_map() == old(self).constraint_map(),
                handle_a.soft_body != handle_b.soft_body,
                b1.contains_key(handle_a.soft_body),
                b1.contains_key(handle_b.soft_body),
                na == ring_len(b0, handle_a.soft_body),
                nb == ring_len(b0, handle_b.soft_body),
                sa == span_of(b0, handle_a).start_point,
                sb == span_of(b0, handle_b).start_point,
                length == span_of(b0, handle_a).length,
                length == span_of(b0, handle_b).length,
                sa < na,
                sb < nb,
                1 <= length <= na,
                length <= nb,
                span_has_room(b0, handle_a),
                span_has_room(b0, handle_b),
                k <= length,
                b1.dom() == b0.dom(),
                forall|key: SoftBodyKey| #[trigger] b1.contains_key(key) ==> b1[key].shape == b0[key].shape,
                self.bodies().dom() == b1.dom(),
                forall|key: SoftBodyKey|
                    #[trigger] b1.contains_key(key) ==> {
                        &&& self.bodies()[key].shape@.len() == b1[key].shape@.len()
                        &&& self.bodies()[key].attatchment_points == b1[key].attatchment_points
                        &&& self.bodies()[key].connection_state == b1[key].connection_state
                        &&& self.bodies()[key].debris == b1[key].debris
                    },
                forall|key: SoftBodyKey, j: int|
                    #![trigger self.bodies()[key].shape@[j]]
                    b1.contains_key(key) && 0 <= j < ring_len(b1, key) ==> self.bodies()[key].shape@[j].constraint
                        == b1[key].shape@[j].constraint && self.bodies()[key].shape@[j].num_connections as int
                        == b1[key].shape@[j].num_connections as int + (if key == handle_a.soft_body
                        && ring_offset(j, sa as int, na as int) < k {
                        1int
                    } else {
                        0int
                    }) + (if key == handle_b.soft_body && length - k <= ring_offset(
                        j,
                        sb as int,
                        nb as int,
                    ) < length {
                        1int
                    } else {
                        0int
                    }),
            decreases length - k,
        {
            let pa = advance(sa, k, na);
            let pb = advance(sb, length - 1 - k, nb);
            let ghost before = self.bodies();
            proof {
                lemma_offset_of_index(pa as int, sa as int, k as int, na as int);
                lemma_offset_of_index(pb as int, sb as int, (length - 1 - k) as int, nb as int);
                assert(covers(b0, handle_a, handle_a.soft_body, pa as int));
                assert(covers(b0, handle_b, handle_b.soft_body, pb as int));
                assert(count_of(b0, handle_a.soft_body, pa as int) < u32::MAX);
                assert(count_of(b0, handle_b.soft_body, pb as int) < u32::MAX);
                assert(b0[handle_a.soft_body].shape == b1[handle_a.soft_body].shape);
                assert(b0[handle_b.soft_body].shape == b1[handle_b.soft_body].shape);
                assert(self.bodies()[handle_a.soft_body].shape@[pa as int].num_connections
                    == b1[handle_a.soft_body].shape@[pa as int].num_connections);
            }
            self.shift_count(handle_a.soft_body, pa, true);
            let ghost middle = self.bodies();
            proof {
                assert(self.bodies()[handle_b.soft_body].shape@[pb as int] == before[handle_b.soft_body].shape@[pb as int]);
            }
            self.shift_count(handle_b.soft_body, pb, true);
            proof {
                assert forall|key: SoftBodyKey, j: int|
                    #![trigger self.bodies()[key].shape@[j]]
                    b1.contains_key(key) && 0 <= j < ring_len(b1, key) implies self.bodies()[key].shape@[j].constraint
                        == b1[key].shape@[j].constraint && self.bodies()[key].shape@[j].num_connections as int
                        == b1[key].shape@[j].num_connections as int + (if key == handle_a.soft_body
                        && ring_offset(j, sa as int, na as int) < k + 1 {
                        1int
                    } else {
                        0int
                    }) + (if key == handle_b.soft_body && length - (k + 1) <= ring_offset(
                        j,
                        sb as int,
                        nb as int,
                    ) < length {
                        1int
                    } else {
                        0int
                    }) by {
                    if key == handle_a.soft_body {
                        lemma_offset_of_index(j, sa as int, k as int, na as int);
                        crate::ring::lemma_index_in_range(j, sa as int, na as int);
                    }
                    if key == handle_b.soft_body {
                        lemma_offset_of_index(j, sb as int, (length - 1 - k) as int, nb as int);
                        crate::ring::lemma_index_in_range(j, sb as int, nb as int);
                    }
                    if !(key == handle_a.soft_body && j == pa) {
                        assert(middle[key].shape@[j] == before[key].shape@[j]);
                    }
                    if !(key == handle_b.soft_body && j == pb) {
                        assert(self.bodies()[key].shape@[j] == middle[key].shape@[j]);
                    }
                }
            }
            k = k + 1;
        }
        let ghost b2 = self.bodies();
        let ghost c0 = self.constraint_map();
        let ghost cond = spans_unheld(b0, handle_a, handle_b);
        proof {
            assert forall|m: int|
                cond && 0 <= m < length implies slot_at(b2, #[trigger] span_point(handle_a.soft_body, sa as int, m, na as int)).is_none()
                    && slot_at(b2, span_point(handle_b.soft_body, sb as int, length - 1 - m, nb as int)).is_none() by {
                {
                    let ja = ring_index(sa as int, m, na as int);
                    let jb = ring_index(sb as int, length - 1 - m, nb as int);
                    crate::ring::lemma_index_in_range(sa as int, m, na as int);
                    crate::ring::lemma_index_in_range(sb as int, length - 1 - m, nb as int);
                    lemma_offset_of_index(ja, sa as int, m, na as int);
                    lemma_offset_of_index(jb, sb as int, length - 1 - m, nb as int);
                    assert(covers(b0, handle_a, handle_a.soft_body, ja));
                    assert(covers(b0, handle_b, handle_b.soft_body, jb));
                    assert(b0[handle_a.soft_body].shape@[ja].constraint.is_none());
                    assert(b0[handle_b.soft_body].shape@[jb].constraint.is_none());
                    assert(b2[handle_a.soft_body].shape@[ja].constraint == b1[handle_a.soft_body].shape@[ja].constraint);
                    assert(b2[handle_b.soft_body].shape@[jb].constraint == b1[handle_b.soft_body].shape@[jb].constraint);
                }
            }
        }
        let ghost mut created: Seq<ConstraintKey> = Seq::empty();
        let mut k: usize = 0;
        while k < length
            invariant
                self.wf(),
                self.keys == old(self).keys,
                same_layout(b2, self.bodies()),
                b2.contains_key(handle_a.soft_body),
                b2.contains_key(handle_b.soft_body),
                na == ring_len(b2, handle_a.soft_body),
                nb == ring_len(b2, handle_b.soft_body),
                sa < na,
                sb < nb,
                1 <= length <= na,
                length <= nb,
                k <= length,
                self.constraint_map().len() + (length - k) <= MAX_ENTRIES + 1,
                cond == spans_unheld(b0, handle_a, handle_b),
                c0 == old(self).constraint_map(),
                handle_a.soft_body != handle_b.soft_body,
                sa == span_of(b0, handle_a).start_point,
                sb == span_of(b0, handle_b).start_point,
                na == ring_len(b0, handle_a.soft_body),
                nb == ring_len(b0, handle_b.soft_body),
                length == span_of(b0, handle_a).length,
                cond ==> c0.dom().subset_of(self.constraint_map().dom()),
                cond ==> forall|m: int|
                    k <= m < length ==> slot_at(
                        self.bodies(),
                        #[trigger] span_point(handle_a.soft_body, sa as int, m, na as int),
                    ).is_none() && slot_at(
                        self.bodies(),
                        span_point(handle_b.soft_body, sb as int, length - 1 - m, nb as int),
                    ).is_none(),
                created.len() == k,
                cond ==> forall|m: int|
                    0 <= m < k ==> !c0.contains_key(#[trigger] created[m]) && holds_pair(
                        self.constraint_map(),
                        self.bodies(),
                        created[m],
                        span_point(handle_a.soft_body, sa as int, m, na as int),
                        span_point(handle_b.soft_body, sb as int, length - 1 - m, nb as int),
                    ),
                cond ==> forall|c: ConstraintKey|
                    #[trigger] c0.contains_key(c) ==> self.constraint_map()[c] == c0[c],
                cond ==> forall|c: ConstraintKey|
                    #[trigger] self.constraint_map().contains_key(c) && !c0.contains_key(c) ==> created.contains(c),
                forall|m: int|
                    0 <= m < k ==> (#[trigger] slot_at(
                        self.bodies(),
                        PointHandle {
                            soft_body: handle_a.soft_body,
                            index: ring_index(sa as int, m, na as int) as usize,
                        },
                    )).is_some() && slot_at(
                        self.bodies(),
                        PointHandle {
                            soft_body: handle_b.soft_body,
                            index: ring_index(sb as int, length - 1 - m, nb as int) as usize,
                        },
                    ).is_some(),
            decreases length - k,
        {
            let pa = advance(sa, k, na);
            let pb = advance(sb, length - 1 - k, nb);
            let ha = PointHandle { soft_body: handle_a.soft_body, index: pa };
            let hb = PointHandle { soft_body: handle_b.soft_body, index: pb };
            let pair = Constraint::HoldTogether { points: vec![ha, hb] };
            let ghost before = self.bodies();
            let ghost constraints_before = self.constraint_map();
            proof {
                assert(pair.members()[0] == ha);
                assert(pair.members()[1] == hb);
                assert(pair.members().contains(ha));
                assert(pair.members().contains(hb));
                assert(resolves(before, ha));
                assert(resolves(before, hb));
            }
            proof {
                if cond {
                    assert(ha == span_point(handle_a.soft_body, sa as int, k as int, na as int));
                    assert(hb == span_point(handle_b.soft_body, sb as int, length - 1 - k, nb as int));
                    assert forall|h: PointHandle| pair.members().contains(h) && resolves(before, h) implies (#[trigger] slot_at(before, h)).is_none() by {
                        let i = choose|i: int| 0 <= i < pair.members().len() && pair.members()[i] == h;
                        assert(i == 0 || i == 1);
                    }
                }
            }
            let key = self.insert_constraint(pair);
            proof {
                vstd::set_lib::lemma_len_subset(
                    self.constraint_map().dom(),
                    constraints_before.dom().insert(key),
                );
                if cond {
                    let after = self.bodies();
                    let cm = self.constraint_map();
                    assert(seq![ha, hb].drop_last() =~= seq![ha]);
                    assert(seq![ha].drop_last() =~= Seq::<PointHandle>::empty());
                    assert(pair.members() == seq![ha, hb]);
                    assert(kept_members(Seq::<PointHandle>::empty(), before) == Seq::<PointHandle>::empty());
                    assert(seq![ha].last() == ha);
                    assert(kept_members(seq![ha], before) =~= seq![ha]);
                    assert(kept_members(seq![ha, hb], before) =~= seq![ha, hb]);
                    assert(cm[key].members() == seq![ha, hb]);
                    assert(!c0.contains_key(key));
                    assert forall|h: PointHandle| resolves(before, h) && h != ha && h != hb implies #[trigger] slot_at(after, h) == slot_at(before, h) by {
                        if pair.members().contains(h) {
                            let i = choose|i: int| 0 <= i < pair.members().len() && pair.members()[i] == h;
                        }
                    }
                    assert forall|m: int|
                        k + 1 <= m < length implies slot_at(
                            after,
                            #[trigger] span_point(handle_a.soft_body, sa as int, m, na as int),
                        ).is_none() && slot_at(
                            after,
                            span_point(handle_b.soft_body, sb as int, length - 1 - m, nb as int),
                        ).is_none() by {
                        let xa = span_point(handle_a.soft_body, sa as int, m, na as int);
                        let xb = span_point(handle_b.soft_body, sb as int, length - 1 - m, nb as int);
                        crate::ring::lemma_index_in_range(sa as int, m, na as int);
                        crate::ring::lemma_index_in_range(sb as int, length - 1 - m, nb as int);
                        if xa == ha {
                            lemma_ring_index_injective(sa as int, m, k as int, na as int);
                        }
                        if xb == hb {
                            lemma_ring_index_injective(sb as int, length - 1 - m, length - 1 - k, nb as int);
                        }
                        assert(resolves(before, xa));
                        assert(resolves(before, xb));
                        assert(slot_at(before, xa).is_none());
                        assert(slot_at(before, xb).is_none());
                    }
                    assert forall|m: int|
                        0 <= m < k implies !c0.contains_key(#[trigger] created[m]) && holds_pair(
                            cm,
                            after,
                            created[m],
                            span_point(handle_a.soft_body, sa as int, m, na as int),
                            span_point(handle_b.soft_body, sb as int, length - 1 - m, nb as int),
                        ) by {
                        let xa = span_point(handle_a.soft_body, sa as int, m, na as int);
                        let xb = span_point(handle_b.soft_body, sb as int, length - 1 - m, nb as int);
                        crate::ring::lemma_index_in_range(sa as int, m, na as int);
                        crate::ring::lemma_index_in_range(sb as int, length - 1 - m, nb as int);
                        if xa == ha {
                            lemma_ring_index_injective(sa as int, m, k as int, na as int);
                        }
                        if xb == hb {
                            lemma_ring_index_injective(sb as int, length - 1 - m, length - 1 - k, nb as int);
                        }
                        assert(resolves(before, xa));
                        assert(resolves(before, xb));
                        assert(created[m] != key);
                    }
                    assert(holds_pair(cm, after, key, ha, hb));
                }
                lemma_same_layout_trans(b2, before, self.bodies());
                assert forall|m: int|
                    0 <= m < k + 1 implies (#[trigger] slot_at(
                        self.bodies(),
                        PointHandle {
                            soft_body: handle_a.soft_body,
                            index: ring_index(sa as int, m, na as int) as usize,
                        },
                    )).is_some() && slot_at(
                        self.bodies(),
                        PointHandle {
                            soft_body: handle_b.soft_body,
                            index: ring_index(sb as int, length - 1 - m, nb as int) as usize,
                        },
                    ).is_some() by {
                    let xa = PointHandle {
                        soft_body: handle_a.soft_body,
                        index: ring_index(sa as int, m, na as int) as usize,
                    };
                    let xb = PointHandle {
                        soft_body: handle_b.soft_body,
                        index: ring_index(sb as int, length - 1 - m, nb as int) as usize,
                    };
                    crate::ring::lemma_index_in_range(sa as int, m, na as int);
                    crate::ring::lemma_index_in_range(sb as int, length - 1 - m, nb as int);
                    if m < k {
                        assert(slot_at(before, xa).is_some());
                        assert(slot_at(before, xb).is_some());
                        assert(resolves(before, xa));
                        assert(resolves(before, xb));
                    } else {
                        assert(xa == ha);
                        assert(xb == hb);
                    }
                }
                let created_before = created;
                created = created.push(key);
                if cond {
                    assert forall|m: int|
                        0 <= m < k + 1 implies !c0.contains_key(#[trigger] created[m]) && holds_pair(
                            self.constraint_map(),
                            self.bodies(),
                            created[m],
                            span_point(handle_a.soft_body, sa as int, m, na as int),
                            span_point(handle_b.soft_body, sb as int, length - 1 - m, nb as int),
                        ) by {
                        if m < k {
                            assert(created[m] == created_before[m]);
                        }
                    }
                    assert forall|c: ConstraintKey|
                        #[trigger] self.constraint_map().contains_key(c) && !c0.contains_key(c) implies created.contains(c) by {
                        if c == key {
                            assert(created[k as int] == key);
                        } else {
                            assert(constraints_before.contains_key(c));
                            let i = choose|i: int| 0 <= i < created_before.len() && created_before[i] == c;
                            assert(created[i] == c);
                        }
                    }
                }
            }
            k = k + 1;
        }
        proof {
            let b3 = self.bodies();
            if cond {
                assert forall|m: int|
                    0 <= m < span_of(b0, handle_a).length implies slot_at(b3, #[trigger] pair_first(b0, handle_a, m)).is_some()
                        && !c0.contains_key(slot_at(b3, pair_first(b0, handle_a, m)).unwrap()) && holds_pair(
                        self.constraint_map(),
                        b3,
                        slot_at(b3, pair_first(b0, handle_a, m)).unwrap(),
                        pair_first(b0, handle_a, m),
                        pair_second(b0, handle_b, m),
                    ) by {
                    assert(pair_first(b0, handle_a, m) == span_point(handle_a.soft_body, sa as int, m, na as int));
                    assert(pair_second(b0, handle_b, m) == span_point(handle_b.soft_body, sb as int, length - 1 - m, nb as int));
                    assert(!c0.contains_key(created[m]));
                    assert(holds_pair(self.constraint_map(), b3, created[m], pair_first(b0, handle_a, m), pair_second(b0, handle_b, m)));
                }
                assert forall|c: ConstraintKey|
                    #[trigger] self.constraint_map().contains_key(c) && !c0.contains_key(c) implies exists|m: int|
                        #![trigger pair_first(b0, handle_a, m)]
                        0 <= m < span_of(b0, handle_a).length && holds_pair(
                            self.constraint_map(),
                            b3,
                            c,
                            pair_first(b0, handle_a, m),
                            pair_second(b0, handle_b, m),
                        ) by {
                    let m = choose|m: int| 0 <= m < created.len() && created[m] == c;
                    assert(!c0.contains_key(created[m]));
                    assert(holds_pair(self.constraint_map(), b3, c, pair_first(b0, handle_a, m), pair_second(b0, handle_b, m)));
                    assert(pair_first(b0, handle_a, m) == span_point(handle_a.soft_body, sa as int, m, na as int));
                    assert(pair_second(b0, handle_b, m) == span_point(handle_b.soft_body, sb as int, length - 1 - m, nb as int));
                }
                assert forall|c: ConstraintKey| #[trigger] c0.contains_key(c) implies self.constraint_map().contains_key(c)
                    && self.constraint_map()[c] == c0[c] by {}
                assert(pairs_bound(c0, self.constraint_map(), b0, b3, handle_a, handle_b));
            }
            lemma_same_layout_trans(b2, b2, b3);
            assert(b3.dom() == b0.dom());
            assert forall|key: SoftBodyKey, j: int|
                #![trigger count_of(b3, key, j)]
                b0.contains_key(key) && 0 <= j < ring_len(b0, key) implies count_of(b3, key, j) as int
                    == count_of(b0, key, j) + hit(b0, handle_a, key, j) + hit(b0, handle_b, key, j) by {
                assert(crate::soft_body::same_body_layout(b2[key], b3[key]));
                assert(b2[key].shape@[j].num_connections == b3[key].shape@[j].num_connections);
                assert(b1[key].shape == b0[key].shape);
            }
            assert forall|key: SoftBodyKey, j: int|
                #![trigger b3[key].shape@[j]]
                b0.contains_key(key) && 0 <= j < ring_len(b0, key) && (covers(b0, handle_a, key, j)
                    || covers(b0, handle_b, key, j)) implies b3[key].shape@[j].constraint.is_some() by {
                if covers(b0, handle_a, key, j) {
                    let o = ring_offset(j, sa as int, na as int);
                    crate::ring::lemma_index_in_range(j, sa as int, na as int);
                    lemma_offset_of_index(j, sa as int, o, na as int);
                    assert(slot_at(
                        b3,
                        PointHandle {
                            soft_body: handle_a.soft_body,
                            index: ring_index(sa as int, o, na as int) as usize,
                        },
                    ).is_some());
                } else {
                    let o = ring_offset(j, sb as int, nb as int);
                    crate::ring::lemma_index_in_range(j, sb as int, nb as int);
                    lemma_offset_of_index(j, sb as int, o, nb as int);
                    let m = length - 1 - o;
                    assert(length - 1 - m == o);
                    assert(0 <= m < length);
                    assert(slot_at(
                        b3,
                        PointHandle {
                            soft_body: handle_a.soft_body,
                            index: ring_index(sa as int, m, na as int) as usize,
                        },
                    ).is_some());
                    assert(slot_at(
                        b3,
                        PointHandle {
                            soft_body: handle_b.soft_body,
                            index: ring_index(sb as int, length - 1 - m, nb as int) as usize,
                        },
                    ).is_some());
                }
            }
            assert forall|key: SoftBodyKey| #[trigger] b0.contains_key(key) implies state_of(b3, key) == state_of(
                b_colored,
                key,
            ) by {
                assert(b1.contains_key(key));
                assert(crate::soft_body::same_body_layout(b2[key], b3[key]));
            }
            if state_a.is_connected() || state_b.is_connected() {
                assert(reach(
                    b0,
                    b3,
                    reach_start,
                    ConnectionState::Disconnected,
                    ConnectionState::Connected,
                    reach_found,
                    reached,
                ));
            }
            assert forall|key: SoftBodyKey| #[trigger] b0.contains_key(key) implies {
                &&& b3[key].shape@.len() == b0[key].shape@.len()
                &&& b3[key].debris == b0[key].debris
                &&& b3[key].attatchment_points@ == if key == handle_a.soft_body {
                    spans_after(b0, key, handle_a, Some(handle_b))
                } else {
                    spans_after(b0, key, handle_b, Some(handle_a))
                }
                &&& (state_of(b3, key) == state_of(b0, key) || (state_of(b0, key)
                    == ConnectionState::Disconnected && state_of(b3, key) == ConnectionState::Connected))
            } by {
                assert(crate::soft_body::same_body_layout(b2[key], b3[key]));
                assert(b1[key].shape == b0[key].shape);
            }
        }
        Some(())
    }

    /// Whether `disconnect_attatchment_point` can part the span under `a`:
    /// it exists, is joined to a span of another body of the same length,
    /// and that span is joined back to it.
    pub open spec fn can_disconnect(&self, a: AttatchmentPointHandle) -> bool {
        &&& handle_valid(self.bodies(), a)
        &&& span_of(self.bodies(), a).connection.is_some()
        &&& handle_valid(self.bodies(), span_of(self.bodies(), a).connection.unwrap())
        &&& span_of(self.bodies(), a).connection.unwrap().soft_body != a.soft_body
        &&& span_of(self.bodies(), span_of(self.bodies(), a).connection.unwrap()).connection == Some(a)
        &&& span_of(self.bodies(), span_of(self.bodies(), a).connection.unwrap()).length == span_of(
            self.bodies(),
            a,
        ).length
    }

    /// Decides `can_disconnect`, and gives the span joined to `a`.
    fn check_disconnectable(&self, a: AttatchmentPointHandle) -> (r: Option<AttatchmentPointHandle>)
        requires
            self.wf(),
        ensures
            r.is_some() == self.can_disconnect(a),
            r.is_some() ==> r == span_of(self.bodies(), a).connection,
    {
        let body_a = match self.soft_bodies.get(a.soft_body) {
            Some(body) => body,
            None => {
                return None;
            },
        };
        if a.index >= body_a.attatchment_points.len() {
            return None;
        }
        let span_a = body_a.attatchment_points[a.index];
        let b = match span_a.connection {
            Some(b) => b,
            None => {
                return None;
            },
        };
        if b.soft_body == a.soft_body {
            return None;
        }
        let body_b = match self.soft_bodies.get(b.soft_body) {
            Some(body) => body,
            None => {
                return None;
            },
        };
        if b.index >= body_b.attatchment_points.len() {
            return None;
        }
        let span_b = body_b.attatchment_points[b.index];
        if span_b.connection != Some(a) || span_b.length != span_a.length {
            return None;
        }
        Some(b)
    }

    /// Parts the span under `handle_a` from the span it is joined to. Each
    /// pair of points met while walking the spans as the join did loses one
    /// connection, and a point left with none leaves its constraint. The
    /// bodies linked to a source through the parted join are marked
    /// disconnected, then those still linked to it are marked connected
    /// again. Last, the constraints are pruned as `prune_constraints` does,
    /// so those left with fewer than two held points are gone. Returns
    /// `None`, changing nothing, when `can_disconnect` does not hold.
    pub fn disconnect_attatchment_point(&mut self, handle_a: AttatchmentPointHandle) -> (r: Option<()>)
        requires
            old(self).wf(),
        ensures
            final(self).wf(),
            r.is_some() == old(self).can_disconnect(handle_a),
            r.is_none() ==> *final(self) == *old(self),
            r.is_some() ==> parted(
                old(self).bodies(),
                final(self).bodies(),
                handle_a,
                span_of(old(self).bodies(), handle_a).connection.unwrap(),
            ),
            r.is_some() ==> forall|k: SoftBodyKey|
                #[trigger] old(self).bodies().contains_key(k) ==> (state_of(final(self).bodies(), k)
                    == ConnectionState::Source) == (state_of(old(self).bodies(), k) == ConnectionState::Source),
            r.is_some() ==> final(self).pruned(),
            r.is_some() ==> recoloured_after_parting(old(self).bodies(), final(self).bodies(), handle_a.soft_body),
            final(self).constraint_map().dom().subset_of(old(self).constraint_map().dom()),
            forall|c: ConstraintKey, h: PointHandle|
                final(self).constraint_map().contains_key(c) && #[trigger] final(self).constraint_map()[c].members().contains(h)
                    ==> old(self).constraint_map()[c].members().contains(h),
            final(self).keys == old(self).keys,
    {
        let handle_b = match self.check_disconnectable(handle_a) {
            Some(b) => b,
            None => {
                return None;
            },
        };
        let ghost b0 = self.bodies();
        let source = self.clear_connections_from(handle_a.soft_body);
        let ghost r1 = choose|r: Set<SoftBodyKey>|
            reach(
                b0,
                self.bodies(),
                handle_a.soft_body,
                ConnectionState::Connected,
                ConnectionState::Disconnected,
                source,
                r,
            );
        proof {
            assert(same_but_states(b0, self.bodies()));
        }
        let ghost b_cleared = self.bodies();
        self.set_connection(handle_a, None);
        self.set_connection(handle_b, None);
        let ghost b1 = self.bodies();
        let body_a = self.soft_bodies.get(handle_a.soft_body).unwrap();
        let body_b = self.soft_bodies.get(handle_b.soft_body).unwrap();
        let na = body_a.shape.len();
        let nb = body_b.shape.len();
        let sa = body_a.attatchment_points[handle_a.index].start_point;
        let sb = body_b.attatchment_points[handle_b.index].start_point;
        let length = body_a.attatchment_points[handle_a.index].length;
        proof {
            assert(sa == span_of(b0, handle_a).start_point);
            assert(sb == span_of(b0, handle_b).start_point);
            assert(length == span_of(b0, handle_b).length);
            assert(body_a.wf());
            assert(span_fits(body_a.attatchment_points@[handle_a.index as int], na as int));
            assert(body_b.wf());
            assert(span_fits(body_b.attatchment_points@[handle_b.index as int], nb as int));
        }
        let mut k: usize = 0;
        while k < length
            invariant
                self.wf(),
                self.keys == old(self).keys,
                self.constraint_map() == old(self).constraint_map(),
                handle_a.soft_body != handle_b.soft_body,
                b1.contains_key(handle_a.soft_body),
                b1.contains_key(handle_b.soft_body),
                na == ring_len(b0, handle_a.soft_body),
                nb == ring_len(b0, handle_b.soft_body),
                sa == span_of(b0, handle_a).start_point,
                sb == span_of(b0, handle_b).start_point,
                length == span_of(b0, handle_a).length,
                length == span_of(b0, handle_b).length,
                sa < na,
                sb < nb,
                1 <= length <= na,
                length <= nb,
                k <= length,
                b1.dom() == b0.dom(),
                forall|key: SoftBodyKey| #[trigger] b1.contains_key(key) ==> b1[key].shape == b0[key].shape,
                self.bodies().dom() == b1.dom(),
                forall|key: SoftBodyKey|
                    #[trigger] b1.contains_key(key) ==> {
                        &&& self.bodies()[key].shape@.len() == b1[key].shape@.len()
                        &&& self.bodies()[key].attatchment_points == b1[key].attatchment_points
                        &&& self.bodies()[key].connection_state == b1[key].connection_state
                        &&& self.bodies()[key].debris == b1[key].debris
                    },
                forall|key: SoftBodyKey, j: int|
                    #![trigger self.bodies()[key].shape@[j]]
                    b1.contains_key(key) && 0 <= j < ring_len(b1, key) ==> self.bodies()[key].shape@[j] == if (
                    key == handle_a.soft_body && ring_offset(j, sa as int, na as int) < k) || (key
                        == handle_b.soft_body && length - k <= ring_offset(j, sb as int, nb as int)
                        < length) {
                        released(b1[key].shape@[j])
                    } else {
                        b1[key].shape@[j]
                    },
            decreases length - k,
        {
            let pa = advance(sa, k, na);
            let pb = advance(sb, length - 1 - k, nb);
            let ghost before = self.bodies();
            proof {
                lemma_offset_of_index(pa as int, sa as int, k as int, na as int);
                lemma_offset_of_index(pb as int, sb as int, (length - 1 - k) as int, nb as int);
            }
            self.shift_count(handle_a.soft_body, pa, false);
            let ghost middle = self.bodies();
            self.shift_count(handle_b.soft_body, pb, false);
            proof {
                assert forall|key: SoftBodyKey, j: int|
                    #![trigger self.bodies()[key].shape@[j]]
                    b1.contains_key(key) && 0 <= j < ring_len(b1, key) implies self.bodies()[key].shape@[j]
                        == if (key == handle_a.soft_body && ring_offset(j, sa as int, na as int) < k + 1)
                        || (key == handle_b.soft_body && length - (k + 1) <= ring_offset(
                        j,
                        sb as int,
                        nb as int,
                    ) < length) {
                        released(b1[key].shape@[j])
                    } else {
                        b1[key].shape@[j]
                    } by {
                    if key == handle_a.soft_body {
                        lemma_offset_of_index(j, sa as int, k as int, na as int);
                        crate::ring::lemma_index_in_range(j, sa as int, na as int);
                    }
                    if key == handle_b.soft_body {
                        lemma_offset_of_index(j, sb as int, (length - 1 - k) as int, nb as int);
                        crate::ring::lemma_index_in_range(j, sb as int, nb as int);
                    }
                    if !(key == handle_a.soft_body && j == pa) {
                        assert(middle[key].shape@[j] == before[key].shape@[j]);
                    }
                    if !(key == handle_b.soft_body && j == pb) {
                        assert(self.bodies()[key].shape@[j] == middle[key].shape@[j]);
                    }
                }
            }
            k = k + 1;
        }
        let ghost b2 = self.bodies();
        let ghost mut f2: Option<SoftBodyKey> = None;
        let ghost mut r2: Set<SoftBodyKey> = Set::empty();
        match source {
            Some(source) => {
                self.connect_attatched_soft_bodies(source);
                proof {
                    f2 = choose|f: Option<SoftBodyKey>|
                        propagated(
                            b2,
                            self.bodies(),
                            source,
                            ConnectionState::Disconnected,
                            ConnectionState::Connected,
                            f,
                        );
                    r2 = choose|r: Set<SoftBodyKey>|
                        reach(
                            b2,
                            self.bodies(),
                            source,
                            ConnectionState::Disconnected,
                            ConnectionState::Connected,
                            f2,
                            r,
                        );
                }
            },
            None => {},
        }
        proof {
            let b3 = self.bodies();
            assert(same_but_states(b2, b3));
            assert(b3.dom() == b0.dom());
            assert forall|k: SoftBodyKey| #[trigger] b0.contains_key(k) implies (state_of(b3, k)
                == ConnectionState::Source) == (state_of(b0, k) == ConnectionState::Source) by {
                assert(b_cleared.contains_key(k));
                assert(state_of(b1, k) == state_of(b_cleared, k));
                assert(b1.contains_key(k));
                assert(state_of(b2, k) == state_of(b1, k));
                assert(b2.contains_key(k));
            }
            assert forall|key: SoftBodyKey, j: int|
                #![trigger b3[key].shape@[j]]
                b0.contains_key(key) && 0 <= j < ring_len(b0, key) implies b3[key].shape@[j] == if covers(
                    b0,
                    handle_a,
                    key,
                    j,
                ) || covers(b0, handle_b, key, j) {
                    released(b0[key].shape@[j])
                } else {
                    b0[key].shape@[j]
                } by {
                assert(b2[key].shape == b3[key].shape);
                assert(b1[key].shape == b0[key].shape);
                assert(b2[key].shape@[j] == b3[key].shape@[j]);
            }
            assert forall|key: SoftBodyKey| #[trigger] b0.contains_key(key) implies {
                &&& b3[key].shape@.len() == b0[key].shape@.len()
                &&& b3[key].debris == b0[key].debris
                &&& b3[key].attatchment_points@ == if key == handle_a.soft_body {
                    spans_after(b0, key, handle_a, None)
                } else {
                    spans_after(b0, key, handle_b, None)
                }
            } by {
                assert(b2[key].shape == b3[key].shape);
                assert(b1[key].shape == b0[key].shape);
            }
            assert(released_spans(b0, b3, handle_a, handle_b));
        }
        let ghost b3 = self.bodies();
        let ghost c3 = self.constraint_map();
        self.prune_constraints();
        proof {
            let b4 = self.bodies();
            lemma_released_then_pruned(b0, b3, b4, handle_a, handle_b);
            assert(reach(
                b0,
                b_cleared,
                handle_a.soft_body,
                ConnectionState::Connected,
                ConnectionState::Disconnected,
                source,
                r1,
            ));
            assert forall|k: SoftBodyKey| #[trigger] b0.contains_key(k) implies state_of(b4, k) == state_of(b3, k)
                && state_of(b2, k) == state_of(b_cleared, k) && b4[k].attatchment_points@ == b2[k].attatchment_points@ by {
                assert(b3.contains_key(k));
                assert(crate::soft_body::same_body_layout(b3[k], b4[k]));
                assert(b1.contains_key(k));
                assert(b_cleared.contains_key(k));
                assert(b2.contains_key(k));
                assert(b2[k].attatchment_points == b3[k].attatchment_points);
                assert(b1[k].connection_state == b_cleared[k].connection_state);
                assert(b2[k].connection_state == b1[k].connection_state);
            }
            if source.is_some() {
                assert(reach(
                    b2,
                    b3,
                    source.unwrap(),
                    ConnectionState::Disconnected,
                    ConnectionState::Connected,
                    f2,
                    r2,
                ));
                assert(reach(
                    b2,
                    b4,
                    source.unwrap(),
                    ConnectionState::Disconnected,
                    ConnectionState::Connected,
                    f2,
                    r2,
                ));
                assert(spans_of_with_states_of(b2, b4, b_cleared));
            } else {
                assert forall|k: SoftBodyKey| #[trigger] b0.contains_key(k) implies state_of(b4, k) == state_of(
                    b_cleared,
                    k,
                ) by {
                    assert(b2.contains_key(k));
                }
            }
            assert(recoloured_after_parting(b0, b4, handle_a.soft_body));
            assert forall|k: SoftBodyKey| #[trigger] b0.contains_key(k) implies (state_of(b4, k)
                == ConnectionState::Source) == (state_of(b0, k) == ConnectionState::Source) by {
                assert(b3.contains_key(k));
                assert(crate::soft_body::same_body_layout(b3[k], b4[k]));
            }
            assert forall|c: ConstraintKey, h: PointHandle|
                self.constraint_map().contains_key(c) && #[trigger] self.constraint_map()[c].members().contains(h)
                    implies old(self).constraint_map()[c].members().contains(h) by {
                assert(live_member(c3, b3, c, h));
            }
        }
        Some(())
    }

    /// Drops from every constraint the members whose point is gone or held
    /// by another constraint, then removes each constraint left with fewer
    /// than two members, freeing the point it still held.
    pub fn prune_constraints(&mut self)
        requires
            old(self).wf(),
        ensures
            final(self).wf(),
            final(self).constraint_map().dom().subset_of(old(self).constraint_map().dom()),
            same_layout(old(self).bodies(), final(self).bodies()),
            final(self).keys == old(self).keys,
            forall|h: PointHandle|
                resolves(old(self).bodies(), h) ==> #[trigger] slot_at(final(self).bodies(), h)
                    == slot_at(old(self).bodies(), h) || slot_at(final(self).bodies(), h).is_none(),
            final(self).pruned(),
            forall|c: ConstraintKey, h1: PointHandle, h2: PointHandle|
                #![trigger old(self).constraint_map()[c].members().contains(h1), old(self).constraint_map()[c].members().contains(h2)]
                old(self).constraint_map().contains_key(c) && h1 != h2 && live_member(
                    old(self).constraint_map(),
                    old(self).bodies(),
                    c,
                    h1,
                ) && live_member(old(self).constraint_map(), old(self).bodies(), c, h2)
                    ==> final(self).constraint_map().contains_key(c),
            forall|c: ConstraintKey, h: PointHandle|
                final(self).constraint_map().contains_key(c) ==> (#[trigger] final(self).constraint_map()[c].members().contains(h)
                    <==> live_member(old(self).constraint_map(), old(self).bodies(), c, h)),
    {
        let ghost b0 = self.bodies();
        let ghost c0 = self.constraint_map();
        let keys = self.constraints.keys();
        proof {
            assert(keys@.subrange(0, keys@.len() as int) =~= keys@);
            assert forall|c: ConstraintKey| #[trigger] c0.contains_key(c) implies keys@.contains(c) by {
                assert(keys@.to_set().contains(c));
            }
        }
        let mut i: usize = 0;
        while i < keys.len()
            invariant
                self.wf(),
                self.keys == old(self).keys,
                same_layout(b0, self.bodies()),
                keys@.no_duplicates(),
                keys@.to_set() == c0.dom(),
                i <= keys@.len(),
                self.constraint_map().dom().subset_of(c0.dom()),
                forall|m: int| i <= m < keys@.len() && #[trigger] c0.contains_key(keys@[m]) ==> self.constraint_map().contains_key(keys@[m]),
                forall|h: PointHandle|
                    resolves(b0, h) ==> #[trigger] slot_at(self.bodies(), h) == slot_at(b0, h)
                        || slot_at(self.bodies(), h).is_none(),
                forall|c: ConstraintKey|
                    #[trigger] self.constraint_map().contains_key(c) && !keys@.subrange(i as int, keys@.len() as int).contains(c)
                        ==> self.constraint_map()[c].members().len() >= 2 && forall|h: PointHandle|
                        #[trigger] self.constraint_map()[c].members().contains(h) ==> resolves(self.bodies(), h)
                            && slot_at(self.bodies(), h) == Some(c),
                forall|c: ConstraintKey|
                    #[trigger] self.constraint_map().contains_key(c) && keys@.subrange(i as int, keys@.len() as int).contains(c)
                        ==> self.constraint_map()[c] == c0[c],
                forall|h: PointHandle|
                    resolves(b0, h) && slot_at(b0, h).is_some() && (self.constraint_map().contains_key(
                        slot_at(b0, h).unwrap(),
                    ) || keys@.subrange(i as int, keys@.len() as int).contains(slot_at(b0, h).unwrap()))
                        ==> #[trigger] slot_at(self.bodies(), h) == slot_at(b0, h),
                forall|c: ConstraintKey, h1: PointHandle, h2: PointHandle|
                    #![trigger c0[c].members().contains(h1), c0[c].members().contains(h2)]
                    c0.contains_key(c) && h1 != h2 && live_member(c0, b0, c, h1) && live_member(c0, b0, c, h2)
                        ==> self.constraint_map().contains_key(c),
                forall|c: ConstraintKey, h: PointHandle|
                    self.constraint_map().contains_key(c) && !keys@.subrange(i as int, keys@.len() as int).contains(c)
                        ==> (#[trigger] self.constraint_map()[c].members().contains(h) <==> live_member(c0, b0, c, h)),
            decreases keys@.len() - i,
        {
            let key = keys[i];
            let ghost rest = keys@.subrange(i as int, keys@.len() as int);
            let ghost rest_after = keys@.subrange(i + 1, keys@.len() as int);
            proof {
                assert(rest =~= seq![key] + rest_after);
                assert(keys@.to_set().contains(key)) by {
                    assert(keys@[i as int] == key);
                }
                assert(self.constraint_map().contains_key(key));
                assert forall|c: ConstraintKey| #[trigger] rest.contains(c) <==> (c == key || rest_after.contains(c)) by {
                    if rest.contains(c) {
                        let m = choose|m: int| 0 <= m < rest.len() && rest[m] == c;
                        if m > 0 {
                            assert(rest_after[m - 1] == c);
                        }
                    }
                    if rest_after.contains(c) {
                        let m = choose|m: int| 0 <= m < rest_after.len() && rest_after[m] == c;
                        assert(rest[m + 1] == c);
                    }
                    if c == key {
                        assert(rest[0] == c);
                    }
                }
                assert(!rest_after.contains(key)) by {
                    if rest_after.contains(key) {
                        let m = choose|m: int| 0 <= m < rest_after.len() && rest_after[m] == key;
                        assert(keys@[i + 1 + m] == key);
                        assert(keys@[i as int] == key);
                    }
                }
            }
            let ghost before = self.constraint_map();
            let ghost bodies_before = self.bodies();
            let constraint = self.constraints.index_mut(key);
            constraint.retain_live_points(key, &self.soft_bodies);
            let empty = constraint.is_empty();
            proof {
                assert(self.constraint_map().dom() =~= before.dom());
                assert(before[key] == c0[key]);
                assert forall|h1: PointHandle, h2: PointHandle|
                    h1 != h2 && live_member(c0, b0, key, h1) && live_member(c0, b0, key, h2) implies !empty by {
                    assert(slot_at(self.bodies(), h1) == Some(key));
                    assert(slot_at(self.bodies(), h2) == Some(key));
                    assert(self.constraint_map()[key].members().contains(h1));
                    assert(self.constraint_map()[key].members().contains(h2));
                    lemma_two_members(self.constraint_map()[key].members(), h1, h2);
                }
                assert forall|c: ConstraintKey|
                    #[trigger] self.constraint_map().contains_key(c) && rest_after.contains(c) implies self.constraint_map()[c] == c0[c] by {
                    assert(c != key);
                    assert(rest.contains(c));
                }
            }
            if empty {
                let ghost mid = self.constraint_map();
                self.remove_constraint(key, None);
                proof {
                    assert forall|c: ConstraintKey|
                        #[trigger] self.constraint_map().contains_key(c) && !rest_after.contains(c) implies self.constraint_map()[c].members().len()
                            >= 2 && forall|h: PointHandle|
                            #[trigger] self.constraint_map()[c].members().contains(h) ==> resolves(self.bodies(), h)
                                && slot_at(self.bodies(), h) == Some(c) by {
                        assert(c != key);
                        assert(!rest.contains(c));
                        assert(self.constraint_map()[c] == mid[c]);
                        assert(mid[c] == before[c]);
                        assert forall|h: PointHandle| #[trigger] self.constraint_map()[c].members().contains(h) implies resolves(self.bodies(), h)
                            && slot_at(self.bodies(), h) == Some(c) by {
                            assert(resolves(bodies_before, h));
                            assert(slot_at(bodies_before, h) == Some(c));
                        }
                    }
                    assert forall|m: int| i + 1 <= m < keys@.len() && #[trigger] c0.contains_key(keys@[m]) implies self.constraint_map().contains_key(keys@[m]) by {
                        assert(keys@[m] != key);
                    }
                    assert forall|c: ConstraintKey|
                        #[trigger] self.constraint_map().contains_key(c) && rest_after.contains(c) implies self.constraint_map()[c] == c0[c] by {
                        assert(c != key);
                        assert(mid[c] == c0[c]);
                    }
                    assert forall|c: ConstraintKey, h: PointHandle|
                        self.constraint_map().contains_key(c) && !rest_after.contains(c) implies (
                        #[trigger] self.constraint_map()[c].members().contains(h) <==> live_member(c0, b0, c, h)) by {
                        assert(c != key);
                        assert(!rest.contains(c));
                        assert(self.constraint_map()[c] == mid[c]);
                        assert(mid[c] == before[c]);
                    }
                }
            } else {
                proof {
                    assert forall|c: ConstraintKey, h: PointHandle|
                        self.constraint_map().contains_key(c) && !rest_after.contains(c) implies (
                        #[trigger] self.constraint_map()[c].members().contains(h) <==> live_member(c0, b0, c, h)) by {
                        if c == key {
                            if b0.contains_key(h.soft_body) {
                                assert(crate::soft_body::same_body_layout(b0[h.soft_body], self.bodies()[h.soft_body]));
                            }
                            assert(resolves(self.bodies(), h) == resolves(b0, h));
                            if resolves(b0, h) && slot_at(self.bodies(), h) == Some(key) {
                                assert(slot_at(b0, h) == Some(key));
                            }
                        } else {
                            assert(!rest.contains(c));
                            assert(self.constraint_map()[c] == before[c]);
                        }
                    }
                    assert forall|c: ConstraintKey|
                        #[trigger] self.constraint_map().contains_key(c) && !rest_after.contains(c) implies self.constraint_map()[c].members().len()
                            >= 2 && forall|h: PointHandle|
                            #[trigger] self.constraint_map()[c].members().contains(h) ==> resolves(self.bodies(), h)
                                && slot_at(self.bodies(), h) == Some(c) by {
                        if c != key {
                            assert(!rest.contains(c));
                            assert(self.constraint_map()[c] == before[c]);
                        }
                    }
                }
            }
            i = i + 1;
        }
        proof {
            assert(keys@.subrange(keys@.len() as int, keys@.len() as int) =~= Seq::<ConstraintKey>::empty());
        }
    }

    /// Removes entry `i` of the live list by moving the last entry into its
    /// place.
    fn swap_remove_key(&mut self, i: usize)
        requires
            i < old(self).keys@.len(),
        ensures
            final(self).keys@ == swap_removed(old(self).keys@, i as int),
            final(self).soft_bodies == old(self).soft_bodies,
            final(self).constraints == old(self).constraints,
    {
        let last = self.keys.pop().unwrap();
        if i < self.keys.len() {
            self.keys.set(i, last);
        }
        proof {
            assert(self.keys@ =~= swap_removed(old(self).keys@, i as int));
        }
    }

    /// Destroys body `key`: first parts every span of it that is joined to
    /// another body, so that no surviving span is left joined to it, then
    /// removes it and adds `fragments` triangular debris bodies, whose keys
    /// are returned. With `key_index`, the body's entry at that place of the
    /// live list is replaced and the fragments are appended; without it the
    /// live list is rebuilt. A key that finds no body changes nothing.
    pub fn destroy_soft_body(&mut self, key: SoftBodyKey, key_index: Option<usize>, fragments: usize) -> (r:
        Vec<SoftBodyKey>)
        requires
            old(self).wf(),
            key_index.is_some() ==> key_index.unwrap() < old(self).keys@.len(),
            old(self).bodies().len() + fragments <= MAX_ENTRIES + 1,
        ensures
            final(self).wf(),
            !old(self).bodies().contains_key(key) ==> *final(self) == *old(self) && r@.len() == 0,
            old(self).bodies().contains_key(key) ==> {
                &&& r@.len() == fragments
                &&& r@.no_duplicates()
                &&& final(self).bodies().dom() == old(self).bodies().dom().remove(key) + r@.to_set()
                &&& !final(self).bodies().contains_key(key)
                &&& forall|m: int|
                    0 <= m < r@.len() ==> !old(self).bodies().contains_key(#[trigger] r@[m])
                        && fragment_body(final(self).bodies()[r@[m]])
                &&& forall|h: AttatchmentPointHandle|
                    #[trigger] linked_back(old(self).bodies(), h, key) ==> span_of(
                        final(self).bodies(),
                        h,
                    ).connection.is_none()
                &&& forall|g: AttatchmentPointHandle, j: int|
                    linked_back(old(self).bodies(), g, key) && 0 <= j < ring_len(old(self).bodies(), g.soft_body)
                        && covers(old(self).bodies(), g, g.soft_body, j) ==> #[trigger] count_of(
                        final(self).bodies(),
                        g.soft_body,
                        j,
                    ) <= one_less(count_of(old(self).bodies(), g.soft_body, j)) && (count_of(
                        final(self).bodies(),
                        g.soft_body,
                        j,
                    ) == 0 ==> final(self).bodies()[g.soft_body].shape@[j].constraint.is_none())
                &&& forall|k: SoftBodyKey, j: int|
                    old(self).bodies().contains_key(k) && k != key && 0 <= j < ring_len(old(self).bodies(), k)
                        && unlinked_point(old(self).bodies(), key, k, j) ==> #[trigger] count_of(
                        final(self).bodies(),
                        k,
                        j,
                    ) == count_of(old(self).bodies(), k, j)
                &&& key_index.is_some() ==> final(self).keys@ == swap_removed(
                    old(self).keys@,
                    key_index.unwrap() as int,
                ) + r@
                &&& key_index.is_none() ==> final(self).keys@.to_set() == final(self).bodies().dom()
            },
    {
        if !self.soft_bodies.contains_key(key) {
            return Vec::new();
        }
        let ghost b0 = self.bodies();
        proof {
            assert(b0[key].wf());
        }
        let n = self.soft_bodies.get(key).unwrap().attatchment_points.len();
        let mut i: usize = 0;
        while i < n
            invariant
                self.wf(),
                self.keys == old(self).keys,
                b0 == old(self).bodies(),
                self.bodies().dom() == b0.dom(),
                b0.contains_key(key),
                b0[key].wf(),
                n == b0[key].attatchment_points@.len(),
                i <= n,
                forall|k: SoftBodyKey|
                    #[trigger] b0.contains_key(k) ==> self.bodies()[k].attatchment_points@.len()
                        == b0[k].attatchment_points@.len() && self.bodies()[k].shape@.len() == b0[k].shape@.len(),
                forall|h: AttatchmentPointHandle|
                    #[trigger] linked_back(b0, h, key) ==> if span_of(b0, h).connection.unwrap().index < i {
                        span_of(self.bodies(), h).connection.is_none()
                    } else {
                        span_of(self.bodies(), h) == span_of(b0, h) && span_of(
                            self.bodies(),
                            span_of(b0, h).connection.unwrap(),
                        ) == span_of(b0, span_of(b0, h).connection.unwrap())
                    },
                forall|g: AttatchmentPointHandle|
                    handle_valid(b0, g) && g.soft_body != key ==> #[trigger] span_of(self.bodies(), g) == span_of(b0, g)
                        || span_of(self.bodies(), g) == with_connection(span_of(b0, g), None),
                forall|idx: int|
                    i <= idx < n ==> #[trigger] self.bodies()[key].attatchment_points@[idx]
                        == b0[key].attatchment_points@[idx],
                forall|k: SoftBodyKey, j: int|
                    b0.contains_key(k) && k != key && 0 <= j < ring_len(b0, k) ==> #[trigger] count_of(self.bodies(), k, j)
                        <= count_of(b0, k, j),
                forall|g: AttatchmentPointHandle, j: int|
                    linked_back(b0, g, key) && span_of(b0, g).connection.unwrap().index < i && 0 <= j < ring_len(
                        b0,
                        g.soft_body,
                    ) && covers(b0, g, g.soft_body, j) ==> #[trigger] count_of(self.bodies(), g.soft_body, j)
                        <= one_less(count_of(b0, g.soft_body, j)) && (count_of(self.bodies(), g.soft_body, j) == 0
                        ==> self.bodies()[g.soft_body].shape@[j].constraint.is_none()),
                forall|k: SoftBodyKey, j: int|
                    b0.contains_key(k) && k != key && 0 <= j < ring_len(b0, k) && unlinked_point(b0, key, k, j)
                        ==> #[trigger] count_of(self.bodies(), k, j) == count_of(b0, k, j),
            decreases n - i,
        {
            let h = AttatchmentPointHandle { soft_body: key, index: i };
            let connection = self.soft_bodies.get(key).unwrap().attatchment_points[i].connection;
            let ghost cur = self.bodies();
            let ghost sim_before = *self;
            let mut parted_now = false;
            if connection.is_some() {
                parted_now = self.disconnect_attatchment_point(h).is_some();
            }
            proof {
                let next = self.bodies();
                assert(b0[key].wf());
                assert forall|g: AttatchmentPointHandle|
                    #[trigger] linked_back(b0, g, key) && span_of(b0, g).connection.unwrap().index == i
                        implies parted_now by {
                    let p = span_of(b0, g).connection.unwrap();
                    assert(p == h);
                    assert(handle_valid(cur, g));
                    assert(sim_before.can_disconnect(h));
                }
                if parted_now {
                    assert(sim_before.can_disconnect(h));
                    assert(parted(cur, next, h, span_of(cur, h).connection.unwrap()));
                    let q = span_of(cur, h).connection.unwrap();
                    assert(cur[key].attatchment_points@[i as int] == b0[key].attatchment_points@[i as int]);
                    assert(span_of(cur, h) == span_of(b0, h));
                    assert(handle_valid(b0, q));
                    assert(span_of(cur, q) == span_of(b0, q));
                    assert(linked_back(b0, q, key));
                    assert(span_of(b0, q).connection.unwrap() == h);
                    assert forall|k: SoftBodyKey, j: int|
                        b0.contains_key(k) && k != key && 0 <= j < ring_len(b0, k) implies #[trigger] count_of(next, k, j)
                            == (if covers(b0, q, k, j) {
                            one_less(count_of(cur, k, j))
                        } else {
                            count_of(cur, k, j) as int
                        }) && (count_of(next, k, j) == 0 && (covers(b0, q, k, j) || cur[k].shape@[j].constraint.is_none())
                            ==> next[k].shape@[j].constraint.is_none()) by {
                        assert(cur.contains_key(k));
                        assert(covers(cur, q, k, j) == covers(b0, q, k, j));
                        assert(!covers(cur, h, k, j));
                        assert(next[k].shape@[j] == next[k].shape@[j]);
                    }
                    assert forall|k: SoftBodyKey, j: int|
                        b0.contains_key(k) && k != key && 0 <= j < ring_len(b0, k) && unlinked_point(b0, key, k, j)
                            implies #[trigger] count_of(next, k, j) == count_of(b0, k, j) by {
                        assert(!(q.soft_body == k && covers(b0, q, k, j)));
                        assert(count_of(cur, k, j) == count_of(b0, k, j));
                    }
                    assert forall|g: AttatchmentPointHandle, j: int|
                        linked_back(b0, g, key) && span_of(b0, g).connection.unwrap().index < i + 1 && 0 <= j < ring_len(
                            b0,
                            g.soft_body,
                        ) && covers(b0, g, g.soft_body, j) implies #[trigger] count_of(next, g.soft_body, j)
                            <= one_less(count_of(b0, g.soft_body, j)) && (count_of(next, g.soft_body, j) == 0
                            ==> next[g.soft_body].shape@[j].constraint.is_none()) by {
                        let k = g.soft_body;
                        assert(count_of(cur, k, j) <= count_of(b0, k, j));
                        if span_of(b0, g).connection.unwrap().index == i {
                            assert(span_of(b0, g).connection.unwrap() == h);
                            assert(span_of(b0, h).connection == Some(g));
                            assert(q == g);
                        }
                    }
                } else {
                    assert(next == cur);
                }
                assert forall|g: AttatchmentPointHandle|
                    handle_valid(b0, g) && g.soft_body != key implies #[trigger] span_of(next, g) == span_of(b0, g)
                        || span_of(next, g) == with_connection(span_of(b0, g), None) by {
                    assert(cur[g.soft_body].attatchment_points@.len() == b0[g.soft_body].attatchment_points@.len());
                    if parted_now {
                        let q = span_of(cur, h).connection.unwrap();
                        assert(next[g.soft_body].attatchment_points@ == spans_after(cur, g.soft_body, q, None));
                        if g == q {
                            assert(span_of(next, g) == with_connection(span_of(cur, g), None));
                        } else {
                            assert(span_of(next, g) == span_of(cur, g));
                        }
                    } else {
                        assert(span_of(next, g) == span_of(cur, g));
                    }
                }
                assert forall|idx: int| i + 1 <= idx < n implies #[trigger] next[key].attatchment_points@[idx]
                    == b0[key].attatchment_points@[idx] by {
                    assert(cur[key].attatchment_points@[idx] == b0[key].attatchment_points@[idx]);
                    if parted_now {
                        assert(next[key].attatchment_points@ == spans_after(cur, key, h, None));
                    }
                }
                assert forall|k: SoftBodyKey, j: int|
                    b0.contains_key(k) && k != key && 0 <= j < ring_len(b0, k) implies #[trigger] count_of(next, k, j)
                        <= count_of(b0, k, j) by {
                    assert(count_of(cur, k, j) <= count_of(b0, k, j));
                }
                assert forall|k: SoftBodyKey|
                    #[trigger] b0.contains_key(k) implies next[k].attatchment_points@.len()
                        == b0[k].attatchment_points@.len() && next[k].shape@.len() == b0[k].shape@.len() by {
                    assert(cur[k].attatchment_points@.len() == b0[k].attatchment_points@.len());
                }
                assert forall|g: AttatchmentPointHandle|
                    #[trigger] linked_back(b0, g, key) implies if span_of(b0, g).connection.unwrap().index < i + 1 {
                        span_of(next, g).connection.is_none()
                    } else {
                        span_of(next, g) == span_of(b0, g) && span_of(
                            next,
                            span_of(b0, g).connection.unwrap(),
                        ) == span_of(b0, span_of(b0, g).connection.unwrap())
                    } by {
                    let p = span_of(b0, g).connection.unwrap();
                    assert(cur[g.soft_body].attatchment_points@.len() == b0[g.soft_body].attatchment_points@.len());
                    if parted_now {
                        let q = span_of(cur, h).connection.unwrap();
                        assert(next[g.soft_body].attatchment_points@ == spans_after(cur, g.soft_body, q, None));
                        assert(next[key].attatchment_points@ == spans_after(cur, key, h, None));
                        if p.index == i {
                            assert(q == g);
                        } else if p.index > i {
                            assert(span_of(cur, g).connection == Some(p));
                            assert(g != q);
                        }
                    }
                }
            }
            i = i + 1;
        }
        let ghost b1 = self.bodies();
        proof {
            assert(b1.dom() == b0.dom());
        }
        let mut made: Vec<SoftBodyKey> = Vec::new();
        let mut m: usize = 0;
        while m < fragments
            invariant
                self.wf(),
                self.keys == old(self).keys,
                b1.contains_key(key),
                m <= fragments,
                made@.len() == m,
                made@.no_duplicates(),
                self.bodies().len() + (fragments - m) <= MAX_ENTRIES + 1,
                self.bodies().dom() == b1.dom() + made@.to_set(),
                forall|x: int|
                    0 <= x < made@.len() ==> !b1.contains_key(#[trigger] made@[x]) && fragment_body(
                        self.bodies()[made@[x]],
                    ),
                forall|k: SoftBodyKey| #[trigger] b1.contains_key(k) ==> self.bodies()[k] == b1[k],
            decreases fragments - m,
        {
            let mut fragment = SoftBody::new(3);
            fragment.debris = true;
            let ghost before = self.bodies();
            proof {
                vstd::set_lib::lemma_len_subset(b1.dom(), before.dom());
            }
            let new_key = self.soft_bodies.insert(fragment);
            proof {
                assert(!before.contains_key(new_key));
                assert(!made@.contains(new_key));
                assert(!b1.contains_key(new_key));
            }
            let ghost made_before = made@;
            made.push(new_key);
            proof {
                lemma_push_contains_all(made_before, new_key);
                assert forall|x: SoftBodyKey| self.bodies().dom().contains(x) <==> (b1.dom() + made@.to_set()).contains(x) by {
                    assert(made@.to_set().contains(x) <==> made@.contains(x));
                    assert(made_before.to_set().contains(x) <==> made_before.contains(x));
                }
                assert(self.bodies().dom() =~= b1.dom() + made@.to_set());
            }
            m = m + 1;
        }
        let ghost b2 = self.bodies();
        let _ = self.soft_bodies.remove(key);
        proof {
            assert(!made@.contains(key)) by {
                if made@.contains(key) {
                    let x = choose|x: int| 0 <= x < made@.len() && made@[x] == key;
                }
            }
            assert forall|x: SoftBodyKey| self.bodies().dom().contains(x) <==> (b0.dom().remove(key)
                + made@.to_set()).contains(x) by {
                assert(made@.to_set().contains(x) <==> made@.contains(x));
            }
            assert(self.bodies().dom() =~= b0.dom().remove(key) + made@.to_set());
            assert forall|k: SoftBodyKey| #[trigger] self.bodies().contains_key(k) implies self.bodies()[k].wf() by {
                assert(b2.contains_key(k));
            }
            assert(self.bodies().dom() =~= b2.dom().remove(key));
            assert(self.bodies().dom().finite());
            assert forall|x: int| 0 <= x < made@.len() implies !b0.contains_key(#[trigger] made@[x]) && fragment_body(
                self.bodies()[made@[x]],
            ) by {
                assert(made@[x] != key);
                assert(fragment_body(b2[made@[x]]));
            }
            assert forall|h: AttatchmentPointHandle|
                #[trigger] linked_back(b0, h, key) implies span_of(self.bodies(), h).connection.is_none() by {
                assert(b1.contains_key(h.soft_body));
                assert(h.soft_body != key);
                assert(self.bodies()[h.soft_body] == b1[h.soft_body]);
            }
            assert forall|g: AttatchmentPointHandle, j: int|
                linked_back(b0, g, key) && 0 <= j < ring_len(b0, g.soft_body) && covers(b0, g, g.soft_body, j)
                    implies #[trigger] count_of(self.bodies(), g.soft_body, j) <= one_less(count_of(b0, g.soft_body, j))
                    && (count_of(self.bodies(), g.soft_body, j) == 0 ==> self.bodies()[g.soft_body].shape@[j].constraint.is_none()) by {
                assert(b1.contains_key(g.soft_body));
                assert(g.soft_body != key);
                assert(self.bodies()[g.soft_body] == b1[g.soft_body]);
                assert(span_of(b0, g).connection.unwrap().index < n);
                assert(count_of(b1, g.soft_body, j) <= one_less(count_of(b0, g.soft_body, j)));
            }
            assert forall|k: SoftBodyKey, j: int|
                b0.contains_key(k) && k != key && 0 <= j < ring_len(b0, k) && unlinked_point(b0, key, k, j)
                    implies #[trigger] count_of(self.bodies(), k, j) == count_of(b0, k, j) by {
                assert(b1.contains_key(k));
                assert(self.bodies()[k] == b1[k]);
                assert(count_of(b1, k, j) == count_of(b0, k, j));
            }
        }
        match key_index {
            Some(index) => {
                self.swap_remove_key(index);
                let ghost keys_mid = self.keys@;
                let ghost b3 = self.bodies();
                let ghost c3 = self.constraint_map();
                let mut x: usize = 0;
                while x < made.len()
                    invariant
                        self.bodies() == b3,
                        self.constraint_map() == c3,
                        x <= made@.len(),
                        self.keys@ == keys_mid + made@.subrange(0, x as int),
                    decreases made@.len() - x,
                {
                    self.keys.push(made[x]);
                    proof {
                        assert(made@.subrange(0, x + 1) =~= made@.subrange(0, x as int).push(made@[x as int]));
                    }
                    x = x + 1;
                }
                proof {
                    assert(made@.subrange(0, made@.len() as int) =~= made@);
                }
            },
            None => {
                self.update_keys();
            },
        }
        made
    }

    /// The pairs of points that joining the spans under `a` and `b` would
    /// bind: span `a` walked forwards against span `b` walked backwards.
    /// `None` when either span is missing, they differ in length, or either
    /// is joined already.
    pub fn attatchment_point_pairs(&self, handles: [AttatchmentPointHandle; 2]) -> (r: Option<
        Vec<(PointHandle, PointHandle)>,
    >)
        requires
            self.wf(),
        ensures
            r.is_some() == (handle_valid(self.bodies(), handles[0]) && handle_valid(self.bodies(), handles[1])
                && span_of(self.bodies(), handles[0]).length == span_of(self.bodies(), handles[1]).length
                && span_of(self.bodies(), handles[0]).connection.is_none() && span_of(
                self.bodies(),
                handles[1],
            ).connection.is_none()),
            r.is_some() ==> r.unwrap()@.len() == span_of(self.bodies(), handles[0]).length,
            r.is_some() ==> forall|k: int|
                0 <= k < r.unwrap()@.len() ==> #[trigger] r.unwrap()@[k] == (
                    PointHandle {
                        soft_body: handles[0].soft_body,
                        index: ring_index(
                            span_of(self.bodies(), handles[0]).start_point as int,
                            k,
                            ring_len(self.bodies(), handles[0].soft_body),
                        ) as usize,
                    },
                    PointHandle {
                        soft_body: handles[1].soft_body,
                        index: ring_index(
                            span_of(self.bodies(), handles[1]).start_point as int,
                            span_of(self.bodies(), handles[1]).length - 1 - k,
                            ring_len(self.bodies(), handles[1].soft_body),
                        ) as usize,
                    },
                ),
    {
        let a = handles[0];
        let b = handles[1];
        let body_a = match self.soft_bodies.get(a.soft_body) {
            Some(body) => body,
            None => {
                return None;
            },
        };
        let body_b = match self.soft_bodies.get(b.soft_body) {
            Some(body) => body,
            None => {
                return None;
            },
        };
        if a.index >= body_a.attatchment_points.len() || b.index >= body_b.attatchment_points.len() {
            return None;
        }
        let span_a = body_a.attatchment_points[a.index];
        let span_b = body_b.attatchment_points[b.index];
        if span_a.length != span_b.length || span_a.connection.is_some() || span_b.connection.is_some() {
            return None;
        }
        proof {
            assert(body_a.wf());
            assert(body_b.wf());
            assert(span_fits(body_a.attatchment_points@[a.index as int], body_a.shape@.len() as int));
            assert(span_fits(body_b.attatchment_points@[b.index as int], body_b.shape@.len() as int));
        }
        let na = body_a.shape.len();
        let nb = body_b.shape.len();
        let mut pairs: Vec<(PointHandle, PointHandle)> = Vec::new();
        let mut k: usize = 0;
        while k < span_a.length
            invariant
                span_fits(span_a, na as int),
                span_fits(span_b, nb as int),
                span_a.length == span_b.length,
                k <= span_a.length,
                pairs@.len() == k,
                forall|m: int|
                    0 <= m < k ==> #[trigger] pairs@[m] == (
                        PointHandle {
                            soft_body: a.soft_body,
                            index: ring_index(span_a.start_point as int, m, na as int) as usize,
                        },
                        PointHandle {
                            soft_body: b.soft_body,
                            index: ring_index(
                                span_b.start_point as int,
                                span_b.length - 1 - m,
                                nb as int,
                            ) as usize,
                        },
                    ),
            decreases span_a.length - k,
        {
            let pa = advance(span_a.start_point, k, na);
            let pb = advance(span_b.start_point, span_b.length - 1 - k, nb);
            pairs.push(
                (PointHandle { soft_body: a.soft_body, index: pa }, PointHandle { soft_body: b.soft_body, index: pb }),
            );
            k = k + 1;
        }
        Some(pairs)
    }

    /// Removes debris body `key`, whose entry in the live list is at
    /// `key_index`, without touching any attachment.
    pub fn remove_debris(&mut self, key: SoftBodyKey, key_index: usize)
        requires
            old(self).wf(),
            key_index < old(self).keys@.len(),
            old(self).keys@[key_index as int] == key,
        ensures
            final(self).wf(),
            final(self).bodies() == old(self).bodies().remove(key),
            final(self).keys@ == swap_removed(old(self).keys@, key_index as int),
            final(self).constraint_map() == old(self).constraint_map(),
    {
        let _ = self.soft_bodies.remove(key);
        self.swap_remove_key(key_index);
    }
}

/// Joining two spans and then parting them again, as
/// `connect_attatchment_points` and `disconnect_attatchment_point` do,
/// leaves every connection count as it was and both spans free again. When
/// no point of either span had a connection or a constraint before, every
/// constraint that the join made is gone afterwards and no point of either
/// span is held by a constraint.
pub proof fn lemma_join_then_part(
    s0: Simulation,
    s1: Simulation,
    s2: Simulation,
    a: AttatchmentPointHandle,
    b: AttatchmentPointHandle,
)
    requires
        s0.wf(),
        s0.can_connect(a, b),
        joined(s0.bodies(), s1.bodies(), a, b),
        spans_unheld(s0.bodies(), a, b) ==> pairs_bound(
            s0.constraint_map(),
            s1.constraint_map(),
            s0.bodies(),
            s1.bodies(),
            a,
            b,
        ),
        parted(s1.bodies(), s2.bodies(), a, span_of(s1.bodies(), a).connection.unwrap()),
        s2.pruned(),
        s2.constraint_map().dom().subset_of(s1.constraint_map().dom()),
        forall|c: ConstraintKey, h: PointHandle|
            s2.constraint_map().contains_key(c) && #[trigger] s2.constraint_map()[c].members().contains(h)
                ==> s1.constraint_map()[c].members().contains(h),
    ensures
        span_of(s1.bodies(), a).connection == Some(b),
        s2.bodies().dom() == s0.bodies().dom(),
        forall|k: SoftBodyKey|
            #[trigger] s0.bodies().contains_key(k) ==> s2.bodies()[k].attatchment_points@
                == s0.bodies()[k].attatchment_points@,
        forall|k: SoftBodyKey, j: int|
            s0.bodies().contains_key(k) && 0 <= j < ring_len(s0.bodies(), k) ==> #[trigger] count_of(
                s2.bodies(),
                k,
                j,
            ) == count_of(s0.bodies(), k, j),
        forall|h: PointHandle|
            resolves(s0.bodies(), h) && (covers(s0.bodies(), a, h.soft_body, h.index as int) || covers(
                s0.bodies(),
                b,
                h.soft_body,
                h.index as int,
            )) && count_of(s0.bodies(), h.soft_body, h.index as int) == 0 ==> (#[trigger] slot_at(
                s2.bodies(),
                h,
            )).is_none(),
        spans_unheld(s0.bodies(), a, b) && (forall|h: PointHandle|
            resolves(s0.bodies(), h) && (covers(s0.bodies(), a, h.soft_body, h.index as int) || covers(
                s0.bodies(),
                b,
                h.soft_body,
                h.index as int,
            )) ==> #[trigger] count_of(s0.bodies(), h.soft_body, h.index as int) == 0)
            ==> s2.constraint_map().dom().subset_of(s0.constraint_map().dom()),
{
    let b0 = s0.bodies();
    let b1 = s1.bodies();
    let b2 = s2.bodies();
    assert(b0.contains_key(a.soft_body));
    assert(b1[a.soft_body].attatchment_points@ == spans_after(b0, a.soft_body, a, Some(b)));
    assert(span_of(b1, a) == with_connection(span_of(b0, a), Some(b)));
    assert(b0.contains_key(b.soft_body));
    assert(b1[b.soft_body].attatchment_points@ == spans_after(b0, b.soft_body, b, Some(a)));
    assert(span_of(b1, b) == with_connection(span_of(b0, b), Some(a)));
    assert forall|k: SoftBodyKey, j: int| #[trigger] covers(b1, a, k, j) == covers(b0, a, k, j) && covers(b1, b, k, j) == covers(b0, b, k, j) by {
        if b0.contains_key(k) {
            assert(b1[k].shape@.len() == b0[k].shape@.len());
        }
    }
    assert forall|k: SoftBodyKey|
        #[trigger] b0.contains_key(k) implies b2[k].attatchment_points@ == b0[k].attatchment_points@ by {
        assert(b1.contains_key(k));
        if k == a.soft_body {
            assert(b2[k].attatchment_points@ =~= b0[k].attatchment_points@);
        } else if k == b.soft_body {
            assert(b2[k].attatchment_points@ =~= b0[k].attatchment_points@);
        }
    }
    assert forall|k: SoftBodyKey, j: int|
        b0.contains_key(k) && 0 <= j < ring_len(b0, k) implies #[trigger] count_of(b2, k, j) == count_of(
            b0,
            k,
            j,
        ) by {
        assert(b1.contains_key(k));
        assert(count_of(b1, k, j) as int == count_of(b0, k, j) + hit(b0, a, k, j) + hit(b0, b, k, j));
        assert(covers(b1, a, k, j) == covers(b0, a, k, j));
        assert(covers(b1, b, k, j) == covers(b0, b, k, j));
        assert(b2[k].shape@[j] == b2[k].shape@[j]);
    }
    assert forall|h: PointHandle|
        resolves(b0, h) && (covers(b0, a, h.soft_body, h.index as int) || covers(b0, b, h.soft_body, h.index as int))
            && count_of(b0, h.soft_body, h.index as int) == 0 implies (#[trigger] slot_at(b2, h)).is_none() by {
        let k = h.soft_body;
        let j = h.index as int;
        assert(b1.contains_key(k));
        assert(covers(b1, a, k, j) == covers(b0, a, k, j));
        assert(covers(b1, b, k, j) == covers(b0, b, k, j));
        assert(count_of(b1, k, j) as int == count_of(b0, k, j) + hit(b0, a, k, j) + hit(b0, b, k, j));
        assert(b2[k].shape@[j] == b2[k].shape@[j]);
    }
    if spans_unheld(b0, a, b) && (forall|h: PointHandle|
        resolves(b0, h) && (covers(b0, a, h.soft_body, h.index as int) || covers(b0, b, h.soft_body, h.index as int))
            ==> #[trigger] count_of(b0, h.soft_body, h.index as int) == 0) {
        let c0 = s0.constraint_map();
        let c1 = s1.constraint_map();
        let c2 = s2.constraint_map();
        assert forall|c: ConstraintKey| c2.contains_key(c) implies c0.contains_key(c) by {
            if !c0.contains_key(c) {
                assert(c1.contains_key(c));
                let m = choose|m: int|
                    #![trigger pair_first(b0, a, m)]
                    0 <= m < span_of(b0, a).length && holds_pair(c1, b1, c, pair_first(b0, a, m), pair_second(b0, b, m));
                let pa = pair_first(b0, a, m);
                let pb = pair_second(b0, b, m);
                let sa = span_of(b0, a).start_point as int;
                let sb = span_of(b0, b).start_point as int;
                let na = ring_len(b0, a.soft_body);
                let nb = ring_len(b0, b.soft_body);
                let len = span_of(b0, a).length as int;
                assert(b0[a.soft_body].wf());
                assert(b0[b.soft_body].wf());
                assert(span_fits(b0[a.soft_body].attatchment_points@[a.index as int], na));
                assert(span_fits(b0[b.soft_body].attatchment_points@[b.index as int], nb));
                crate::ring::lemma_index_in_range(sa, m, na);
                crate::ring::lemma_index_in_range(sb, len - 1 - m, nb);
                lemma_offset_of_index(ring_index(sa, m, na), sa, m, na);
                lemma_offset_of_index(ring_index(sb, len - 1 - m, nb), sb, len - 1 - m, nb);
                assert(resolves(b0, pa) && covers(b0, a, pa.soft_body, pa.index as int));
                assert(resolves(b0, pb) && covers(b0, b, pb.soft_body, pb.index as int));
                assert(slot_at(b2, pa).is_none());
                assert(slot_at(b2, pb).is_none());
                let first = c2[c].members()[0];
                assert(c2[c].members().contains(first));
                assert(c1[c].members().contains(first));
                assert(c1[c].members() == seq![pa, pb]);
                assert(first == pa || first == pb);
            }
        }
    }
}

/// Spans of different lengths can never be joined, so
/// `connect_attatchment_points` fails on them and changes nothing.
pub proof fn lemma_unequal_spans_not_joined(s: Simulation, a: AttatchmentPointHandle, b: AttatchmentPointHandle)
    requires
        handle_valid(s.bodies(), a),
        handle_valid(s.bodies(), b),
        span_of(s.bodies(), a).length != span_of(s.bodies(), b).length,
    ensures
        !s.can_connect(a, b),
{
}

} // verus!

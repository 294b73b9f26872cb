//! The discrete state of a soft body: its ring of points, each with the
//! constraint that binds it and its number of attachment connections, the
//! attachment spans it exposes, and whether it is linked to a control source.
use crate::slots::{ConstraintKey, SoftBodyKey};
use vstd::prelude::*;

verus! {

/// One point of a body's outline, as the constraint system sees it.
#[derive(Clone, Copy, Debug, PartialEq, Eq, Structural)]
pub struct Point {
    /// The constraint that currently holds this point, if any.
    pub constraint: Option<ConstraintKey>,
    /// How many attachment connections pass through this point.
    pub num_connections: u32,
}

/// A weak reference to an attachment span of a body.
#[derive(Clone, Copy, Debug, PartialEq, Eq, Structural)]
pub struct AttatchmentPointHandle {
    pub soft_body: SoftBodyKey,
    pub index: usize,
}

/// A span of `length` consecutive outline points starting at `start_point`,
/// exposed for joining to an equally long span of another body.
#[derive(Clone, Copy, Debug, PartialEq, Eq, Structural)]
pub struct AttatchmentPoint {
    pub start_point: usize,
    pub length: usize,
    pub connection: Option<AttatchmentPointHandle>,
}

/// Whether a body is linked, through attachments, to a control source.
#[derive(Clone, Copy, Debug, PartialEq, Eq, Structural)]
pub enum ConnectionState {
    Source,
    Connected,
    Disconnected,
}

impl ConnectionState {
    pub open spec fn spec_is_connected(self) -> bool {
        !(self is Disconnected)
    }

    /// A source, or a body linked to one.
    #[verifier::when_used_as_spec(spec_is_connected)]
    pub fn is_connected(self) -> (r: bool)
        ensures
            r == self.spec_is_connected(),
    {
        !matches!(self, ConnectionState::Disconnected)
    }
}

/// A body: an ordered, closed ring of points (counter-clockwise), its
/// attachment spans, its connection state, and whether it is inert debris.
#[derive(Clone, Debug)]
pub struct SoftBody {
    pub shape: Vec<Point>,
    pub attatchment_points: Vec<AttatchmentPoint>,
    pub connection_state: ConnectionState,
    pub debris: bool,
}

/// A span is valid on a ring of `n` points when it starts on the ring and
/// holds between one and `n` points.
pub open spec fn span_fits(a: AttatchmentPoint, n: int) -> bool {
    &&& a.start_point < n
    &&& 1 <= a.length <= n
}

impl SoftBody {
    /// At least one point (and no more than a `usize` counts), and every
    /// attachment span fits the ring.
    pub open spec fn wf(&self) -> bool {
        &&& 1 <= self.shape@.len() <= usize::MAX
        &&& forall|i: int|
            0 <= i < self.attatchment_points@.len() ==> span_fits(
                #[trigger] self.attatchment_points@[i],
                self.shape@.len() as int,
            )
    }

    /// A body of `num_points` free points, with no attachment spans,
    /// disconnected and not debris.
    pub fn new(num_points: usize) -> (r: SoftBody)
        requires
            num_points >= 3,
        ensures
            r.wf(),
            r.shape@.len() == num_points,
            forall|j: int|
                0 <= j < num_points ==> #[trigger] r.shape@[j] == (Point {
                    constraint: None,
                    num_connections: 0,
                }),
            r.attatchment_points@.len() == 0,
            r.connection_state == ConnectionState::Disconnected,
            !r.debris,
    {
        let mut shape: Vec<Point> = Vec::new();
        let mut i: usize = 0;
        while i < num_points
            invariant
                i <= num_points,
                shape@.len() == i,
                forall|j: int|
                    0 <= j < i ==> #[trigger] shape@[j] == (Point {
                        constraint: None,
                        num_connections: 0,
                    }),
            decreases num_points - i,
        {
            shape.push(Point { constraint: None, num_connections: 0 });
            i = i + 1;
        }
        SoftBody {
            shape,
            attatchment_points: Vec::new(),
            connection_state: ConnectionState::Disconnected,
            debris: false,
        }
    }

    /// Exposes the span of `length` points from `start_point` for
    /// attachment and returns its index, or `None` when the span does not
    /// fit the ring.
    pub fn add_attatchment_point(&mut self, start_point: usize, length: usize) -> (r: Option<
        usize,
    >)
        requires
            old(self).wf(),
        ensures
            final(self).wf(),
            r.is_some() == (start_point < old(self).shape@.len() && 1 <= length
                <= old(self).shape@.len()),
            r.is_some() ==> r.unwrap() == old(self).attatchment_points@.len()
                && final(self).attatchment_points@ == old(self).attatchment_points@.push(
                AttatchmentPoint { start_point, length, connection: None },
            ),
            r.is_none() ==> *final(self) == *old(self),
            final(self).shape == old(self).shape,
            final(self).connection_state == old(self).connection_state,
            final(self).debris == old(self).debris,
    {
        if start_point < self.shape.len() && 1 <= length && length <= self.shape.len() {
            let index = self.attatchment_points.len();
            self.attatchment_points.push(
                AttatchmentPoint { start_point, length, connection: None },
            );
            Some(index)
        } else {
            None
        }
    }

    pub fn is_debris(&self) -> (r: bool)
        ensures
            r == self.debris,
    {
        self.debris
    }
}


/// The two bodies agree in all but their points' constraint slots.
pub open spec fn same_body_layout(a: SoftBody, b: SoftBody) -> bool {
    &&& a.shape@.len() == b.shape@.len()
    &&& forall|j: int|
        0 <= j < a.shape@.len() ==> (#[trigger] a.shape@[j]).num_connections
            == b.shape@[j].num_connections
    &&& a.attatchment_points@ == b.attatchment_points@
    &&& a.connection_state == b.connection_state
    &&& a.debris == b.debris
}

/// The same keys, with bodies that agree in all but constraint slots.
pub open spec fn same_layout(a: Map<SoftBodyKey, SoftBody>, b: Map<SoftBodyKey, SoftBody>) -> bool {
    &&& a.dom() == b.dom()
    &&& forall|k: SoftBodyKey| a.contains_key(k) ==> same_body_layout(#[trigger] a[k], b[k])
}

/// The constraint slot of point `j` of body `k`.
pub open spec fn slot_of(bodies: Map<SoftBodyKey, SoftBody>, k: SoftBodyKey, j: int) -> Option<
    ConstraintKey,
> {
    bodies[k].shape@[j].constraint
}

/// Whether body `k` exists and has a point `j`.
pub open spec fn has_point(bodies: Map<SoftBodyKey, SoftBody>, k: SoftBodyKey, j: int) -> bool {
    bodies.contains_key(k) && 0 <= j < bodies[k].shape@.len()
}

pub proof fn lemma_same_layout_trans(
    a: Map<SoftBodyKey, SoftBody>,
    b: Map<SoftBodyKey, SoftBody>,
    c: Map<SoftBodyKey, SoftBody>,
)
    requires
        same_layout(a, b),
        same_layout(b, c),
    ensures
        same_layout(a, c),
{
    assert forall|k: SoftBodyKey| a.contains_key(k) implies same_body_layout(
        #[trigger] a[k],
        c[k],
    ) by {
        assert(same_body_layout(a[k], b[k]));
        assert(same_body_layout(b[k], c[k]));
        assert forall|j: int| 0 <= j < a[k].shape@.len() implies (#[trigger] a[k].shape@[j]).num_connections
            == c[k].shape@[j].num_connections by {
            assert(a[k].shape@[j].num_connections == b[k].shape@[j].num_connections);
            assert(b[k].shape@[j].num_connections == c[k].shape@[j].num_connections);
        }
    }
}

} // verus!

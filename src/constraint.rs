//! Constraints that bind points, possibly of several bodies, into one group.
use crate::slots::{ConstraintKey, SoftBodies, SoftBodyKey};
use crate::soft_body::{has_point, same_layout, slot_of, Point, SoftBody};
use vstd::prelude::*;

verus! {

/// A weak reference to point `index` of a body.
#[derive(Clone, Copy, Debug, PartialEq, Eq, Structural)]
pub struct PointHandle {
    pub soft_body: SoftBodyKey,
    pub index: usize,
}

impl PointHandle {
    /// The point that the handle finds, if any.
    pub fn get(self, soft_bodies: &SoftBodies) -> (r: Option<Point>)
        ensures
            r.is_some() == resolves(soft_bodies@, self),
            r.is_some() ==> r.unwrap() == soft_bodies@[self.soft_body].shape@[self.index as int],
    {
        match soft_bodies.get(self.soft_body) {
            Some(body) => {
                if self.index < body.shape.len() {
                    Some(body.shape[self.index])
                } else {
                    None
                }
            },
            None => None,
        }
    }
}

/// A group of points that share one position and velocity every tick.
#[derive(Clone, Debug)]
pub enum Constraint {
    HoldTogether { points: Vec<PointHandle> },
}

/// Whether the handle finds a point among the bodies.
pub open spec fn resolves(bodies: Map<SoftBodyKey, SoftBody>, h: PointHandle) -> bool {
    has_point(bodies, h.soft_body, h.index as int)
}

/// The constraint slot of the point that the handle finds.
pub open spec fn slot_at(bodies: Map<SoftBodyKey, SoftBody>, h: PointHandle) -> Option<
    ConstraintKey,
> {
    slot_of(bodies, h.soft_body, h.index as int)
}

/// `b` is `a` with the slot of point `index` of body `key` set to `slot`.
pub open spec fn slot_written(
    a: Map<SoftBodyKey, SoftBody>,
    b: Map<SoftBodyKey, SoftBody>,
    key: SoftBodyKey,
    index: usize,
    slot: Option<ConstraintKey>,
) -> bool {
    &&& same_layout(a, b)
    &&& forall|h: PointHandle|
        resolves(a, h) ==> #[trigger] slot_at(b, h) == if h.soft_body == key && h.index == index {
            slot
        } else {
            slot_at(a, h)
        }
}

/// Sets the constraint slot of point `index` of body `key`.
pub fn set_slot(
    bodies: &mut SoftBodies,
    key: SoftBodyKey,
    index: usize,
    slot: Option<ConstraintKey>,
)
    requires
        has_point(old(bodies)@, key, index as int),
    ensures
        slot_written(old(bodies)@, final(bodies)@, key, index, slot),
{
    let ghost before = bodies@;
    let body = bodies.index_mut(key);
    let mut p = body.shape[index];
    p.constraint = slot;
    body.shape.set(index, p);
    proof {
        let after = bodies@;
        assert(after.dom() =~= before.dom());
        assert forall|k: SoftBodyKey| before.contains_key(k) implies crate::soft_body::same_body_layout(
            #[trigger] before[k],
            after[k],
        ) by {
            if k == key {
                assert forall|j: int| 0 <= j < before[k].shape@.len() implies (
                #[trigger] before[k].shape@[j]).num_connections
                    == after[k].shape@[j].num_connections by {}
            }
        }
    }
}

/// Reads the constraint slot of point `index` of body `key`, if the point
/// exists.
pub fn get_slot(bodies: &SoftBodies, key: SoftBodyKey, index: usize) -> (r: Option<
    Option<ConstraintKey>,
>)
    ensures
        r.is_some() == has_point(bodies@, key, index as int),
        r.is_some() ==> r.unwrap() == slot_of(bodies@, key, index as int),
{
    match bodies.get(key) {
        Some(body) => {
            if index < body.shape.len() {
                Some(body.shape[index].constraint)
            } else {
                None
            }
        },
        None => None,
    }
}

/// The handles of `ms` that find a point, in order.
pub open spec fn kept_members(ms: Seq<PointHandle>, bodies: Map<SoftBodyKey, SoftBody>) -> Seq<
    PointHandle,
>
    decreases ms.len(),
{
    if ms.len() == 0 {
        Seq::empty()
    } else if resolves(bodies, ms.last()) {
        kept_members(ms.drop_last(), bodies).push(ms.last())
    } else {
        kept_members(ms.drop_last(), bodies)
    }
}

/// The constraints that claiming the members `ms` for `key` takes points
/// from, in member order: for each member that finds a point, the slot that
/// point has when its turn comes (`key` itself for a repeated member), when
/// there is one.
pub open spec fn replaced_keys(
    ms: Seq<PointHandle>,
    bodies: Map<SoftBodyKey, SoftBody>,
    key: ConstraintKey,
) -> Seq<ConstraintKey>
    decreases ms.len(),
{
    if ms.len() == 0 {
        Seq::empty()
    } else {
        let before = replaced_keys(ms.drop_last(), bodies, key);
        let h = ms.last();
        let slot = if ms.drop_last().contains(h) {
            Some(key)
        } else {
            slot_at(bodies, h)
        };
        if resolves(bodies, h) && slot.is_some() {
            before.push(slot.unwrap())
        } else {
            before
        }
    }
}

/// The members of `ms` that releasing `key` in favour of `replacement`
/// regroups, in order: each member that finds a point whose slot is `key`
/// when its turn comes.
pub open spec fn released_members(
    ms: Seq<PointHandle>,
    bodies: Map<SoftBodyKey, SoftBody>,
    key: ConstraintKey,
    replacement: Option<ConstraintKey>,
) -> Seq<PointHandle>
    decreases ms.len(),
{
    if ms.len() == 0 {
        Seq::empty()
    } else {
        let before = released_members(ms.drop_last(), bodies, key, replacement);
        let h = ms.last();
        let slot = if ms.drop_last().contains(h) && slot_at(bodies, h) == Some(key) {
            replacement
        } else {
            slot_at(bodies, h)
        };
        if resolves(bodies, h) && slot == Some(key) {
            before.push(h)
        } else {
            before
        }
    }
}

pub proof fn lemma_released_members_contains(
    ms: Seq<PointHandle>,
    bodies: Map<SoftBodyKey, SoftBody>,
    key: ConstraintKey,
    replacement: Option<ConstraintKey>,
)
    requires
        replacement != Some(key),
    ensures
        forall|h: PointHandle|
            #[trigger] released_members(ms, bodies, key, replacement).contains(h) <==> (ms.contains(h)
                && resolves(bodies, h) && slot_at(bodies, h) == Some(key)),
    decreases ms.len(),
{
    if ms.len() > 0 {
        let init = ms.drop_last();
        let x = ms.last();
        lemma_released_members_contains(init, bodies, key, replacement);
        lemma_push_contains_all(init, x);
        assert(ms =~= init.push(x));
        lemma_push_contains_all(released_members(init, bodies, key, replacement), x);
    }
}

pub proof fn lemma_push_contains_all<T>(s: Seq<T>, v: T)
    ensures
        forall|x: T| #[trigger] s.push(v).contains(x) <==> (s.contains(x) || x == v),
{
    assert forall|x: T| #[trigger] s.push(v).contains(x) <==> (s.contains(x) || x == v) by {
        if s.push(v).contains(x) {
            let m = choose|m: int| 0 <= m < s.push(v).len() && s.push(v)[m] == x;
            if m < s.len() {
                assert(s[m] == x);
            }
        }
        if s.contains(x) {
            let m = choose|m: int| 0 <= m < s.len() && s[m] == x;
            assert(s.push(v)[m] == x);
        }
        if x == v {
            assert(s.push(v)[s.len() as int] == x);
        }
    }
}

impl Constraint {
    pub open spec fn members(&self) -> Seq<PointHandle> {
        match self {
            Constraint::HoldTogether { points } => points@,
        }
    }

    /// Fewer than two points are left to hold together.
    pub fn is_empty(&self) -> (r: bool)
        ensures
            r == (self.members().len() <= 1),
    {
        match self {
            Constraint::HoldTogether { points } => points.len() <= 1,
        }
    }

    /// Claims every member point for the constraint under `key`: members
    /// whose point no longer exists are dropped, each remaining point's slot
    /// becomes `key`, and the constraint that held a point before is added
    /// to `keys_to_replace`.
    pub fn insert(
        &mut self,
        key: ConstraintKey,
        soft_bodies: &mut SoftBodies,
        keys_to_replace: &mut Vec<ConstraintKey>,
    )
        ensures
            forall|h: PointHandle|
                #[trigger] final(self).members().contains(h) <==> (old(self).members().contains(h)
                    && resolves(old(soft_bodies)@, h)),
            same_layout(old(soft_bodies)@, final(soft_bodies)@),
            forall|h: PointHandle|
                resolves(old(soft_bodies)@, h) ==> #[trigger] slot_at(final(soft_bodies)@, h)
                    == if old(self).members().contains(h) {
                    Some(key)
                } else {
                    slot_at(old(soft_bodies)@, h)
                },
            final(keys_to_replace)@.len() >= old(keys_to_replace)@.len(),
            final(keys_to_replace)@.subrange(0, old(keys_to_replace)@.len() as int)
                == old(keys_to_replace)@,
            forall|h: PointHandle|
                old(self).members().contains(h) && resolves(old(soft_bodies)@, h) && (#[trigger] slot_at(
                    old(soft_bodies)@,
                    h,
                )).is_some() ==> final(keys_to_replace)@.contains(
                    slot_at(old(soft_bodies)@, h).unwrap(),
                ),
            final(self).members() == kept_members(old(self).members(), old(soft_bodies)@),
            final(keys_to_replace)@ == old(keys_to_replace)@ + replaced_keys(
                old(self).members(),
                old(soft_bodies)@,
                key,
            ),
    {
        let ghost b0 = soft_bodies@;
        let ghost k0 = keys_to_replace@;
        let ghost members = self.members();
        match self {
            Constraint::HoldTogether { points } => {
                let mut kept: Vec<PointHandle> = Vec::new();
                let mut i: usize = 0;
                while i < points.len()
                    invariant
                        points@ == members,
                        i <= points@.len(),
                        forall|h: PointHandle|
                            #[trigger] kept@.contains(h) <==> (members.subrange(0, i as int).contains(h)
                                && resolves(b0, h)),
                        same_layout(b0, soft_bodies@),
                        forall|x: PointHandle|
                            resolves(b0, x) ==> #[trigger] slot_at(soft_bodies@, x)
                                == if members.subrange(0, i as int).contains(x) {
                                Some(key)
                            } else {
                                slot_at(b0, x)
                            },
                        keys_to_replace@.len() >= k0.len(),
                        keys_to_replace@.subrange(0, k0.len() as int) == k0,
                        forall|h: PointHandle|
                            members.subrange(0, i as int).contains(h) && resolves(b0, h) && (
                            #[trigger] slot_at(b0, h)).is_some() ==> keys_to_replace@.contains(
                                slot_at(b0, h).unwrap(),
                            ),
                        kept@ == kept_members(members.subrange(0, i as int), b0),
                        keys_to_replace@ == k0 + replaced_keys(members.subrange(0, i as int), b0, key),
                    decreases points@.len() - i,
                {
                    let h = points[i];
                    let ghost prefix = members.subrange(0, i as int);
                    let ghost next = members.subrange(0, i + 1);
                    assert(next =~= prefix.push(h));
                    proof {
                        lemma_push_contains_all(prefix, h);
                        assert(next.drop_last() =~= prefix);
                        assert(next.last() == h);
                    }
                    match get_slot(soft_bodies, h.soft_body, h.index) {
                        Some(slot) => {
                            proof {
                                assert(prefix.contains(h) ==> slot == Some(key));
                                assert(has_point(b0, h.soft_body, h.index as int));
                                assert(resolves(b0, h));
                                assert(slot == slot_at(soft_bodies@, h));
                                assert(!prefix.contains(h) ==> slot == slot_at(b0, h));
                            }
                            let ghost keys_before = keys_to_replace@;
                            match slot {
                                Some(previous) => {
                                    keys_to_replace.push(previous);
                                },
                                None => {},
                            }
                            let ghost kept_before = kept@;
                            set_slot(soft_bodies, h.soft_body, h.index, Some(key));
                            kept.push(h);
                            proof {
                                lemma_push_contains_all(kept_before, h);
                                lemma_push_contains_all(keys_before, slot.unwrap_or(key));
                                assert(keys_to_replace@.subrange(0, k0.len() as int) =~= k0);
                                assert forall|x: PointHandle|
                                    next.contains(x) && resolves(b0, x) && (#[trigger] slot_at(
                                        b0,
                                        x,
                                    )).is_some() implies keys_to_replace@.contains(
                                    slot_at(b0, x).unwrap(),
                                ) by {
                                    if prefix.contains(x) {
                                        assert(keys_before.contains(slot_at(b0, x).unwrap()));
                                    } else {
                                        assert(x == h);
                                        assert(keys_to_replace@ == keys_before.push(slot.unwrap()));
                                    }
                                }
                                assert(kept@ == kept_members(next, b0));
                                assert(keys_to_replace@ =~= k0 + replaced_keys(next, b0, key));
                            }
                        },
                        None => {
                            proof {
                                assert(!resolves(b0, h));
                                assert(kept@ == kept_members(next, b0));
                                assert(keys_to_replace@ =~= k0 + replaced_keys(next, b0, key));
                            }
                        },
                    }
                    i = i + 1;
                }
                proof {
                    assert(members.subrange(0, members.len() as int) =~= members);
                }
                *points = kept;
            },
        }
    }

    /// Releases the points that this constraint, under `key`, holds: each
    /// member point whose slot is `key` gets `replacement` instead, and when
    /// there is a replacement those members are added to `points_regrouped`.
    pub fn remove(
        &self,
        key: ConstraintKey,
        replacement: Option<ConstraintKey>,
        soft_bodies: &mut SoftBodies,
        points_regrouped: &mut Vec<PointHandle>,
    )
        ensures
            same_layout(old(soft_bodies)@, final(soft_bodies)@),
            forall|h: PointHandle|
                resolves(old(soft_bodies)@, h) ==> #[trigger] slot_at(final(soft_bodies)@, h)
                    == if self.members().contains(h) && slot_at(old(soft_bodies)@, h) == Some(
                    key,
                ) {
                    replacement
                } else {
                    slot_at(old(soft_bodies)@, h)
                },
            replacement.is_none() ==> final(points_regrouped)@ == old(points_regrouped)@,
            forall|h: PointHandle|
                #[trigger] final(points_regrouped)@.contains(h) ==> old(points_regrouped)@.contains(h)
                    || (self.members().contains(h) && resolves(old(soft_bodies)@, h)),
            replacement.is_some() ==> forall|h: PointHandle|
                self.members().contains(h) && resolves(old(soft_bodies)@, h) && #[trigger] slot_at(
                    old(soft_bodies)@,
                    h,
                ) == Some(key) ==> final(points_regrouped)@.contains(h),
            replacement.is_some() ==> final(points_regrouped)@ == old(points_regrouped)@ + released_members(
                self.members(),
                old(soft_bodies)@,
                key,
                replacement,
            ),
    {
        let ghost b0 = soft_bodies@;
        let ghost r0 = points_regrouped@;
        let ghost members = self.members();
        match self {
            Constraint::HoldTogether { points } => {
                let mut i: usize = 0;
                while i < points.len()
                    invariant
                        points@ == members,
                        i <= points@.len(),
                        same_layout(b0, soft_bodies@),
                        forall|x: PointHandle|
                            resolves(b0, x) ==> #[trigger] slot_at(soft_bodies@, x)
                                == if members.subrange(0, i as int).contains(x) && slot_at(b0, x)
                                == Some(key) {
                                replacement
                            } else {
                                slot_at(b0, x)
                            },
                        replacement.is_none() ==> points_regrouped@ == r0,
                        forall|x: PointHandle|
                            #[trigger] points_regrouped@.contains(x) ==> r0.contains(x) || (
                            members.contains(x) && resolves(b0, x)),
                        replacement.is_some() ==> forall|x: PointHandle|
                            members.subrange(0, i as int).contains(x) && resolves(b0, x)
                                && #[trigger] slot_at(b0, x) == Some(key)
                                ==> points_regrouped@.contains(x),
                        replacement.is_some() ==> points_regrouped@ == r0 + released_members(
                            members.subrange(0, i as int),
                            b0,
                            key,
                            replacement,
                        ),
                    decreases points@.len() - i,
                {
                    let h = points[i];
                    let ghost prefix = members.subrange(0, i as int);
                    let ghost next = members.subrange(0, i + 1);
                    assert(next =~= prefix.push(h));
                    proof {
                        lemma_push_contains_all(prefix, h);
                        assert(next.drop_last() =~= prefix);
                        assert(next.last() == h);
                        assert(members.contains(h)) by {
                            assert(members[i as int] == h);
                        }
                    }
                    match get_slot(soft_bodies, h.soft_body, h.index) {
                        Some(slot) => {
                            proof {
                                assert(resolves(b0, h));
                                assert(slot == slot_at(soft_bodies@, h));
                            }
                            if slot == Some(key) {
                                proof {
                                    assert(!prefix.contains(h) || replacement == Some(key));
                                }
                                let ghost regrouped_before = points_regrouped@;
                                if replacement.is_some() {
                                    points_regrouped.push(h);
                                }
                                set_slot(soft_bodies, h.soft_body, h.index, replacement);
                                proof {
                                    lemma_push_contains_all(regrouped_before, h);
                                    if replacement.is_some() {
                                        assert(points_regrouped@ =~= r0 + released_members(next, b0, key, replacement));
                                    }
                                }
                            } else {
                                proof {
                                    assert(slot_at(b0, h) != Some(key) || prefix.contains(h));
                                    if replacement.is_some() {
                                        assert(points_regrouped@ =~= r0 + released_members(next, b0, key, replacement));
                                    }
                                }
                            }
                        },
                        None => {
                            proof {
                                if replacement.is_some() {
                                    assert(points_regrouped@ =~= r0 + released_members(next, b0, key, replacement));
                                }
                            }
                        },
                    }
                    i = i + 1;
                }
                proof {
                    assert(members.subrange(0, members.len() as int) =~= members);
                }
            },
        }
    }

    /// Keeps only the members whose point still exists and is still held by
    /// this constraint, under `key`.
    pub fn retain_live_points(&mut self, key: ConstraintKey, soft_bodies: &SoftBodies)
        ensures
            forall|h: PointHandle|
                #[trigger] final(self).members().contains(h) <==> (old(self).members().contains(h)
                    && resolves(soft_bodies@, h) && slot_at(soft_bodies@, h) == Some(key)),
    {
        let ghost members = self.members();
        match self {
            Constraint::HoldTogether { points } => {
                let mut kept: Vec<PointHandle> = Vec::new();
                let mut i: usize = 0;
                while i < points.len()
                    invariant
                        points@ == members,
                        i <= points@.len(),
                        forall|h: PointHandle|
                            #[trigger] kept@.contains(h) <==> (members.subrange(0, i as int).contains(h)
                                && resolves(soft_bodies@, h) && slot_at(soft_bodies@, h) == Some(key)),
                    decreases points@.len() - i,
                {
                    let h = points[i];
                    let ghost prefix = members.subrange(0, i as int);
                    assert(members.subrange(0, i + 1) =~= prefix.push(h));
                    proof {
                        lemma_push_contains_all(prefix, h);
                        lemma_push_contains_all(kept@, h);
                    }
                    match get_slot(soft_bodies, h.soft_body, h.index) {
                        Some(slot) => {
                            if slot == Some(key) {
                                kept.push(h);
                            }
                        },
                        None => {},
                    }
                    i = i + 1;
                }
                proof {
                    assert(members.subrange(0, members.len() as int) =~= members);
                }
                *points = kept;
            },
        }
    }

    /// Adds the given points to the constraint's members.
    pub fn extend(&mut self, more: &mut Vec<PointHandle>)
        ensures
            final(self).members() == old(self).members() + old(more)@,
    {
        match self {
            Constraint::HoldTogether { points } => {
                points.append(more);
            },
        }
    }
}

} // verus!

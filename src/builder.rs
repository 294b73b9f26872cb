//! The build-time rules of a body's topology: enough points, and internal
//! springs opened and closed by id, each exactly once.
use vstd::prelude::*;

verus! {

/// The state of one internal-spring id while a body is being built.
#[derive(Clone, Copy, Debug, PartialEq, Eq, Structural)]
pub enum InternalSpringBuilder {
    Unused,
    /// Opened at the given point, not closed yet.
    Incomplete(usize),
    Complete,
}

/// Why a body's topology cannot be built.
#[derive(Clone, Copy, Debug, PartialEq, Eq, Structural)]
pub enum BuildError {
    NotEnoughPoints,
    SpringAlreadyExists(usize),
    SpringAlreadyFinished(usize),
    SpringDoesNotExist(usize),
    SpringIncomplete(usize),
}

/// The internal springs of a body under construction: the state of each id,
/// and the point pairs of the springs closed so far.
#[derive(Clone, Debug)]
pub struct InternalSprings {
    pub slots: Vec<InternalSpringBuilder>,
    pub springs: Vec<[usize; 2]>,
}

/// The state of id `id`, unused when no slot exists for it yet.
pub open spec fn slot_state(slots: Seq<InternalSpringBuilder>, id: int) -> InternalSpringBuilder {
    if 0 <= id < slots.len() {
        slots[id]
    } else {
        InternalSpringBuilder::Unused
    }
}

impl InternalSprings {
    pub fn new() -> (r: InternalSprings)
        ensures
            r.slots@.len() == 0,
            r.springs@.len() == 0,
    {
        InternalSprings { slots: Vec::new(), springs: Vec::new() }
    }

    /// Opens spring `id` at point `point`. Fails when the id was opened
    /// before.
    pub fn start(&mut self, id: usize, point: usize) -> (r: Result<(), BuildError>)
        ensures
            r is Ok <==> slot_state(old(self).slots@, id as int) == InternalSpringBuilder::Unused,
            r is Err ==> r == Err::<(), BuildError>(BuildError::SpringAlreadyExists(id)),
            forall|i: int|
                i != id ==> #[trigger] slot_state(final(self).slots@, i) == slot_state(old(self).slots@, i),
            r is Ok ==> slot_state(final(self).slots@, id as int) == InternalSpringBuilder::Incomplete(point),
            r is Err ==> slot_state(final(self).slots@, id as int) == slot_state(old(self).slots@, id as int),
            final(self).springs@ == old(self).springs@,
    {
        let ghost s0 = self.slots@;
        while self.slots.len() <= id
            invariant
                self.slots@.len() <= id + 1 || self.slots@.len() == s0.len(),
                forall|i: int| #[trigger] slot_state(self.slots@, i) == slot_state(s0, i),
                self.springs@ == old(self).springs@,
            decreases id + 1 - self.slots@.len(),
        {
            let ghost before = self.slots@;
            self.slots.push(InternalSpringBuilder::Unused);
            proof {
                assert forall|i: int| #[trigger] slot_state(self.slots@, i) == slot_state(s0, i) by {
                    assert(slot_state(before, i) == slot_state(s0, i));
                }
            }
        }
        proof {
            assert(slot_state(self.slots@, id as int) == self.slots@[id as int]);
        }
        match self.slots[id] {
            InternalSpringBuilder::Unused => {
                let ghost grown = self.slots@;
                self.slots.set(id, InternalSpringBuilder::Incomplete(point));
                proof {
                    assert forall|i: int| i != id implies #[trigger] slot_state(self.slots@, i) == slot_state(
                        s0,
                        i,
                    ) by {
                        assert(slot_state(grown, i) == slot_state(s0, i));
                    }
                }
                Ok(())
            },
            _ => Err(BuildError::SpringAlreadyExists(id)),
        }
    }

    /// Closes spring `id` at point `point` and records the spring between
    /// the two points. Fails when the id was never opened or is closed
    /// already.
    pub fn end(&mut self, id: usize, point: usize) -> (r: Result<[usize; 2], BuildError>)
        ensures
            match slot_state(old(self).slots@, id as int) {
                InternalSpringBuilder::Incomplete(start) => {
                    &&& r == Ok::<[usize; 2], BuildError>([start, point])
                    &&& final(self).slots@ == old(self).slots@.update(id as int, InternalSpringBuilder::Complete)
                    &&& final(self).springs@ == old(self).springs@.push([start, point])
                },
                InternalSpringBuilder::Complete => {
                    &&& r == Err::<[usize; 2], BuildError>(BuildError::SpringAlreadyFinished(id))
                    &&& *final(self) == *old(self)
                },
                InternalSpringBuilder::Unused => {
                    &&& r == Err::<[usize; 2], BuildError>(BuildError::SpringDoesNotExist(id))
                    &&& *final(self) == *old(self)
                },
            },
    {
        if id >= self.slots.len() {
            return Err(BuildError::SpringDoesNotExist(id));
        }
        match self.slots[id] {
            InternalSpringBuilder::Incomplete(start) => {
                self.slots.set(id, InternalSpringBuilder::Complete);
                self.springs.push([start, point]);
                Ok([start, point])
            },
            InternalSpringBuilder::Complete => Err(BuildError::SpringAlreadyFinished(id)),
            InternalSpringBuilder::Unused => Err(BuildError::SpringDoesNotExist(id)),
        }
    }

    /// Checks that a body of `num_points` points with these springs can be
    /// built: at least three points and no spring left open. The first open
    /// id is reported.
    pub fn check_complete(&self, num_points: usize) -> (r: Result<(), BuildError>)
        ensures
            num_points < 3 ==> r == Err::<(), BuildError>(BuildError::NotEnoughPoints),
            num_points >= 3 ==> (r is Ok <==> forall|i: int|
                0 <= i < self.slots@.len() ==> !(#[trigger] self.slots@[i] is Incomplete)),
            num_points >= 3 && r is Err ==> exists|i: int|
                0 <= i < self.slots@.len() && (#[trigger] self.slots@[i] is Incomplete) && r == Err::<
                    (),
                    BuildError,
                >(BuildError::SpringIncomplete(i as usize))
                    && forall|m: int| 0 <= m < i ==> !(#[trigger] self.slots@[m] is Incomplete),
    {
        if num_points < 3 {
            return Err(BuildError::NotEnoughPoints);
        }
        let mut i: usize = 0;
        while i < self.slots.len()
            invariant
                num_points >= 3,
                i <= self.slots@.len(),
                forall|m: int| 0 <= m < i ==> !(#[trigger] self.slots@[m] is Incomplete),
            decreases self.slots@.len() - i,
        {
            match self.slots[i] {
                InternalSpringBuilder::Incomplete(_) => {
                    return Err(BuildError::SpringIncomplete(i));
                },
                _ => {},
            }
            i = i + 1;
        }
        Ok(())
    }
}

} // verus!

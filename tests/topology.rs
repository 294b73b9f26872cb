use jello_space_pond::builder::{BuildError, InternalSpringBuilder, InternalSprings};
use jello_space_pond::ring::{advance, angle_indices, line_indices, next_point, previous_point};
use jello_space_pond::simulation::{fate_after_tick, Fate};
use jello_space_pond::soft_body::SoftBody;

#[test]
fn ring_neighbours_wrap() {
    assert_eq!(next_point(0, 4), 1);
    assert_eq!(next_point(3, 4), 0);
    assert_eq!(previous_point(0, 4), 3);
    assert_eq!(previous_point(2, 4), 1);
    assert_eq!(advance(3, 2, 4), 1);
    assert_eq!(advance(1, 4, 4), 1);
    assert_eq!(line_indices(3, 4), Some([3, 0]));
    assert_eq!(line_indices(4, 4), None);
    assert_eq!(angle_indices(0, 3), Some([2, 0, 1]));
    assert_eq!(angle_indices(3, 3), None);
}

#[test]
fn new_body_is_free() {
    let mut body = SoftBody::new(4);
    assert_eq!(body.shape.len(), 4);
    assert!(body.shape.iter().all(|p| p.constraint.is_none() && p.num_connections == 0));
    assert!(!body.is_debris());
    assert_eq!(body.add_attatchment_point(3, 4), Some(0));
    assert_eq!(body.add_attatchment_point(4, 1), None);
    assert_eq!(body.add_attatchment_point(0, 0), None);
    assert_eq!(body.add_attatchment_point(0, 5), None);
    assert_eq!(body.attatchment_points.len(), 1);
}

#[test]
fn internal_springs_open_and_close() {
    let mut springs = InternalSprings::new();
    assert_eq!(springs.start(2, 5), Ok(()));
    assert_eq!(springs.slots.len(), 3);
    assert_eq!(springs.slots[0], InternalSpringBuilder::Unused);
    assert_eq!(springs.slots[2], InternalSpringBuilder::Incomplete(5));
    assert_eq!(springs.check_complete(8), Err(BuildError::SpringIncomplete(2)));
    assert_eq!(springs.end(2, 7), Ok([5, 7]));
    assert_eq!(springs.springs, vec![[5, 7]]);
    assert_eq!(springs.check_complete(8), Ok(()));
}

#[test]
fn internal_spring_errors() {
    let mut springs = InternalSprings::new();
    assert_eq!(springs.end(0, 1), Err(BuildError::SpringDoesNotExist(0)));
    assert_eq!(springs.start(0, 1), Ok(()));
    assert_eq!(springs.start(0, 2), Err(BuildError::SpringAlreadyExists(0)));
    assert_eq!(springs.start(1, 2), Ok(()));
    assert_eq!(springs.end(0, 3), Ok([1, 3]));
    assert_eq!(springs.end(0, 4), Err(BuildError::SpringAlreadyFinished(0)));
    assert_eq!(springs.start(0, 4), Err(BuildError::SpringAlreadyExists(0)));
    assert_eq!(springs.check_complete(2), Err(BuildError::NotEnoughPoints));
    assert_eq!(springs.check_complete(3), Err(BuildError::SpringIncomplete(1)));
}

#[test]
fn bodies_fates_after_a_tick() {
    assert_eq!(fate_after_tick(true, true, false, false), Fate::Remove);
    assert_eq!(fate_after_tick(true, false, true, false), Fate::Remove);
    assert_eq!(fate_after_tick(true, false, false, true), Fate::Keep);
    assert_eq!(fate_after_tick(false, true, true, false), Fate::Keep);
    assert_eq!(fate_after_tick(false, false, false, true), Fate::Destroy);
}

use jello_space_pond::constraint::{Constraint, PointHandle};
use jello_space_pond::simulation::Simulation;
use jello_space_pond::slots::SoftBodyKey;
use jello_space_pond::soft_body::{AttatchmentPointHandle, ConnectionState, SoftBody};

fn body_with_span(points: usize, start: usize, length: usize) -> SoftBody {
    let mut body = SoftBody::new(points);
    assert_eq!(body.add_attatchment_point(start, length), Some(0));
    body
}

fn counts(sim: &Simulation, key: SoftBodyKey) -> Vec<u32> {
    sim.soft_bodies
        .get(key)
        .unwrap()
        .shape
        .iter()
        .map(|p| p.num_connections)
        .collect()
}

fn span(key: SoftBodyKey) -> AttatchmentPointHandle {
    AttatchmentPointHandle { soft_body: key, index: 0 }
}

#[test]
fn connect_then_disconnect_restores_counters() {
    let mut sim = Simulation::new();
    let a = sim.add_soft_body(body_with_span(4, 1, 2));
    let b = sim.add_soft_body(body_with_span(5, 3, 2));
    let before_a = counts(&sim, a);
    let before_b = counts(&sim, b);

    assert_eq!(sim.connect_attatchment_points([span(a), span(b)]), Some(()));
    assert_eq!(counts(&sim, a), vec![0, 1, 1, 0]);
    assert_eq!(counts(&sim, b), vec![0, 0, 0, 1, 1]);
    assert_eq!(sim.constraints.len(), 2);
    assert_eq!(
        sim.soft_bodies.get(a).unwrap().attatchment_points[0].connection,
        Some(span(b))
    );

    assert_eq!(sim.disconnect_attatchment_point(span(a)), Some(()));
    assert_eq!(counts(&sim, a), before_a);
    assert_eq!(counts(&sim, b), before_b);
    assert_eq!(sim.soft_bodies.get(a).unwrap().attatchment_points[0].connection, None);
    assert_eq!(sim.soft_bodies.get(b).unwrap().attatchment_points[0].connection, None);
    for p in &sim.soft_bodies.get(a).unwrap().shape {
        assert_eq!(p.constraint, None);
    }
    assert_eq!(sim.constraints.len(), 0);
}

#[test]
fn each_joined_pair_gets_its_own_constraint() {
    let mut sim = Simulation::new();
    let a = sim.add_soft_body(body_with_span(5, 1, 3));
    let b = sim.add_soft_body(body_with_span(4, 2, 3));
    assert_eq!(sim.connect_attatchment_points([span(a), span(b)]), Some(()));
    assert_eq!(sim.constraints.len(), 3);
    for (ia, ib) in [(1, 0), (2, 3), (3, 2)] {
        let key = sim.soft_bodies.get(a).unwrap().shape[ia].constraint.unwrap();
        assert_eq!(sim.soft_bodies.get(b).unwrap().shape[ib].constraint, Some(key));
        match sim.constraints.get(key).unwrap() {
            Constraint::HoldTogether { points } => assert_eq!(
                points,
                &vec![PointHandle { soft_body: a, index: ia }, PointHandle { soft_body: b, index: ib }]
            ),
        }
    }
}

#[test]
fn destroying_lowers_the_survivors_counts_once() {
    let mut sim = Simulation::new();
    let mut wide = SoftBody::new(5);
    assert_eq!(wide.add_attatchment_point(0, 2), Some(0));
    assert_eq!(wide.add_attatchment_point(1, 2), Some(1));
    let w = sim.add_soft_body(wide);
    let x = sim.add_soft_body(body_with_span(3, 0, 2));
    let y = sim.add_soft_body(body_with_span(3, 0, 2));
    assert_eq!(sim.connect_attatchment_points([span(x), span(w)]), Some(()));
    let second = AttatchmentPointHandle { soft_body: w, index: 1 };
    assert_eq!(sim.connect_attatchment_points([second, span(y)]), Some(()));
    assert_eq!(counts(&sim, w), vec![1, 2, 1, 0, 0]);
    sim.destroy_soft_body(x, None, 1);
    assert_eq!(counts(&sim, w), vec![0, 1, 1, 0, 0]);
    let body = sim.soft_bodies.get(w).unwrap();
    assert_eq!(body.shape[0].constraint, None);
    assert!(body.shape[1].constraint.is_some());
    assert_eq!(body.attatchment_points[0].connection, None);
    assert_eq!(body.attatchment_points[1].connection, Some(span(y)));
}

#[test]
fn connect_pairs_spans_in_opposite_directions() {
    let mut sim = Simulation::new();
    let a = sim.add_soft_body(body_with_span(4, 3, 3));
    let b = sim.add_soft_body(body_with_span(4, 2, 3));
    let pairs = sim.attatchment_point_pairs([span(a), span(b)]).unwrap();
    let expected = vec![(3, 0), (0, 3), (1, 2)];
    assert_eq!(pairs.len(), 3);
    for (pair, (ia, ib)) in pairs.iter().zip(expected) {
        assert_eq!(pair.0, PointHandle { soft_body: a, index: ia });
        assert_eq!(pair.1, PointHandle { soft_body: b, index: ib });
    }

    assert_eq!(sim.connect_attatchment_points([span(a), span(b)]), Some(()));
    let body_a = sim.soft_bodies.get(a).unwrap();
    let body_b = sim.soft_bodies.get(b).unwrap();
    assert_eq!(body_a.shape[3].constraint, body_b.shape[0].constraint);
    assert_eq!(body_a.shape[0].constraint, body_b.shape[3].constraint);
    assert_eq!(body_a.shape[1].constraint, body_b.shape[2].constraint);
    assert_ne!(body_a.shape[3].constraint, body_a.shape[0].constraint);
    assert!(body_a.shape[2].constraint.is_none());
    assert_eq!(sim.attatchment_point_pairs([span(a), span(b)]).map(|v| v.len()), None);
}

#[test]
fn connect_rejects_unequal_lengths() {
    let mut sim = Simulation::new();
    let a = sim.add_soft_body(body_with_span(5, 0, 3));
    let b = sim.add_soft_body(body_with_span(5, 0, 4));
    assert_eq!(sim.connect_attatchment_points([span(a), span(b)]), None);
    assert_eq!(sim.soft_bodies.get(a).unwrap().attatchment_points[0].connection, None);
    assert_eq!(sim.soft_bodies.get(b).unwrap().attatchment_points[0].connection, None);
    assert_eq!(counts(&sim, a), vec![0; 5]);
    assert_eq!(counts(&sim, b), vec![0; 5]);
    assert_eq!(sim.constraints.len(), 0);
}

#[test]
fn connect_rejects_same_body_and_double_connection() {
    let mut sim = Simulation::new();
    let mut body = SoftBody::new(6);
    assert_eq!(body.add_attatchment_point(0, 2), Some(0));
    assert_eq!(body.add_attatchment_point(3, 2), Some(1));
    let a = sim.add_soft_body(body);
    let b = sim.add_soft_body(body_with_span(3, 0, 2));
    let c = sim.add_soft_body(body_with_span(3, 1, 2));
    let second = AttatchmentPointHandle { soft_body: a, index: 1 };
    assert_eq!(sim.connect_attatchment_points([span(a), second]), None);
    assert_eq!(sim.connect_attatchment_points([span(a), span(b)]), Some(()));
    assert_eq!(sim.connect_attatchment_points([span(c), span(b)]), None);
    assert_eq!(sim.connect_attatchment_points([span(a), span(c)]), None);
    let missing = AttatchmentPointHandle { soft_body: c, index: 4 };
    assert_eq!(sim.connect_attatchment_points([span(a), missing]), None);
}

#[test]
fn disconnect_rejects_free_span() {
    let mut sim = Simulation::new();
    let a = sim.add_soft_body(body_with_span(3, 0, 2));
    assert_eq!(sim.disconnect_attatchment_point(span(a)), None);
    let missing = AttatchmentPointHandle { soft_body: a, index: 7 };
    assert_eq!(sim.disconnect_attatchment_point(missing), None);
}

#[test]
fn destroying_a_joined_triangle_frees_the_survivor() {
    let mut sim = Simulation::new();
    let a = sim.add_soft_body(body_with_span(3, 0, 2));
    let b = sim.add_soft_body(body_with_span(3, 1, 2));
    assert_eq!(sim.connect_attatchment_points([span(a), span(b)]), Some(()));
    let fragments = sim.destroy_soft_body(a, Some(0), 1);
    assert_eq!(fragments.len(), 1);
    assert!(!sim.soft_bodies.contains_key(a));
    let survivor = sim.soft_bodies.get(b).unwrap();
    assert_eq!(survivor.attatchment_points[0].connection, None);
    assert_eq!(
        survivor.shape.iter().map(|p| p.num_connections).collect::<Vec<_>>(),
        vec![0, 0, 0]
    );
    let fragment = sim.soft_bodies.get(fragments[0]).unwrap();
    assert!(fragment.debris);
    assert_eq!(fragment.shape.len(), 3);
    assert_eq!(sim.keys, vec![b, fragments[0]]);
    sim.prune_constraints();
    assert_eq!(sim.constraints.len(), 0);
}

#[test]
fn destroying_without_index_rebuilds_keys() {
    let mut sim = Simulation::new();
    let a = sim.add_soft_body(SoftBody::new(4));
    let b = sim.add_soft_body(SoftBody::new(3));
    let fragments = sim.destroy_soft_body(a, None, 2);
    assert_eq!(fragments.len(), 2);
    assert_eq!(sim.keys.len(), 3);
    assert!(sim.keys.contains(&b));
    assert!(fragments.iter().all(|k| sim.keys.contains(k)));
    let stale = sim.destroy_soft_body(a, None, 2);
    assert!(stale.is_empty());
}

#[test]
fn remove_debris_drops_the_body() {
    let mut sim = Simulation::new();
    let a = sim.add_soft_body(SoftBody::new(3));
    let b = sim.add_soft_body(SoftBody::new(3));
    sim.remove_debris(a, 0);
    assert!(!sim.soft_bodies.contains_key(a));
    assert_eq!(sim.keys, vec![b]);
}

#[test]
fn connection_state_spreads_from_source() {
    let mut sim = Simulation::new();
    let mut source = body_with_span(3, 0, 2);
    source.connection_state = ConnectionState::Source;
    let s = sim.add_soft_body(source);
    let mut middle = SoftBody::new(4);
    middle.add_attatchment_point(0, 2);
    middle.add_attatchment_point(2, 2);
    let m = sim.add_soft_body(middle);
    let t = sim.add_soft_body(body_with_span(3, 0, 2));
    let m0 = AttatchmentPointHandle { soft_body: m, index: 0 };
    let m1 = AttatchmentPointHandle { soft_body: m, index: 1 };
    assert_eq!(sim.connect_attatchment_points([m1, span(t)]), Some(()));
    assert_eq!(sim.soft_bodies.get(t).unwrap().connection_state, ConnectionState::Disconnected);
    assert_eq!(sim.connect_attatchment_points([span(s), m0]), Some(()));
    assert_eq!(sim.soft_bodies.get(m).unwrap().connection_state, ConnectionState::Connected);
    assert_eq!(sim.soft_bodies.get(t).unwrap().connection_state, ConnectionState::Connected);
    assert_eq!(sim.soft_bodies.get(s).unwrap().connection_state, ConnectionState::Source);

    assert_eq!(sim.disconnect_attatchment_point(m1), Some(()));
    assert_eq!(sim.soft_bodies.get(t).unwrap().connection_state, ConnectionState::Disconnected);
    assert_eq!(sim.soft_bodies.get(m).unwrap().connection_state, ConnectionState::Connected);

    assert_eq!(sim.clear_connections_from(m), Some(s));
    assert_eq!(sim.soft_bodies.get(m).unwrap().connection_state, ConnectionState::Disconnected);
    sim.connect_attatched_soft_bodies(s);
    assert_eq!(sim.soft_bodies.get(m).unwrap().connection_state, ConnectionState::Connected);
}

#[test]
fn constraint_insert_takes_over_points() {
    let mut sim = Simulation::new();
    let a = sim.add_soft_body(SoftBody::new(3));
    let b = sim.add_soft_body(SoftBody::new(3));
    let first = sim.insert_constraint(Constraint::HoldTogether {
        points: vec![
            PointHandle { soft_body: a, index: 0 },
            PointHandle { soft_body: b, index: 0 },
        ],
    });
    let second = sim.insert_constraint(Constraint::HoldTogether {
        points: vec![
            PointHandle { soft_body: b, index: 0 },
            PointHandle { soft_body: b, index: 1 },
            PointHandle { soft_body: a, index: 9 },
        ],
    });
    assert!(sim.constraints.get(first).is_none());
    let merged = sim.constraints.get(second).unwrap();
    match merged {
        Constraint::HoldTogether { points } => {
            assert_eq!(points.len(), 3);
            assert!(points.contains(&PointHandle { soft_body: a, index: 0 }));
            assert!(!points.contains(&PointHandle { soft_body: a, index: 9 }));
        }
    }
    assert_eq!(sim.soft_bodies.get(a).unwrap().shape[0].constraint, Some(second));
    assert_eq!(sim.soft_bodies.get(b).unwrap().shape[1].constraint, Some(second));
    assert_eq!(sim.remove_constraint(first, None).map(|c| c.is_empty()), None);
    let removed = sim.remove_constraint(second, None).unwrap();
    assert!(!removed.is_empty());
    assert_eq!(sim.soft_bodies.get(a).unwrap().shape[0].constraint, None);
}

#[test]
fn pruning_removes_constraints_of_destroyed_bodies() {
    let mut sim = Simulation::new();
    let a = sim.add_soft_body(SoftBody::new(3));
    let b = sim.add_soft_body(SoftBody::new(3));
    let c = sim.add_soft_body(SoftBody::new(3));
    let pair = sim.insert_constraint(Constraint::HoldTogether {
        points: vec![
            PointHandle { soft_body: a, index: 0 },
            PointHandle { soft_body: b, index: 0 },
        ],
    });
    let triple = sim.insert_constraint(Constraint::HoldTogether {
        points: vec![
            PointHandle { soft_body: a, index: 1 },
            PointHandle { soft_body: b, index: 1 },
            PointHandle { soft_body: c, index: 1 },
        ],
    });
    sim.destroy_soft_body(b, Some(1), 0);
    sim.prune_constraints();
    assert!(sim.constraints.get(pair).is_none());
    assert_eq!(sim.soft_bodies.get(a).unwrap().shape[0].constraint, None);
    assert_eq!(sim.constraints.get(triple).map(|c| c.is_empty()), Some(false));
}

#[test]
fn constraint_is_empty_below_two_points() {
    let empty = Constraint::HoldTogether { points: vec![] };
    assert!(empty.is_empty());
    let mut sim = Simulation::new();
    let a = sim.add_soft_body(SoftBody::new(3));
    let one = Constraint::HoldTogether { points: vec![PointHandle { soft_body: a, index: 0 }] };
    assert!(one.is_empty());
    let two = Constraint::HoldTogether {
        points: vec![PointHandle { soft_body: a, index: 0 }, PointHandle { soft_body: a, index: 1 }],
    };
    assert!(!two.is_empty());
}

#[test]
fn update_keys_lists_every_body() {
    let mut sim = Simulation::new();
    let a = sim.add_soft_body(SoftBody::new(3));
    let b = sim.add_soft_body(SoftBody::new(3));
    sim.keys.clear();
    sim.update_keys();
    assert_eq!(sim.keys.len(), 2);
    assert!(sim.keys.contains(&a) && sim.keys.contains(&b));
    assert_ne!(a.id(), b.id());
    assert_eq!(sim.soft_bodies.len(), 2);
}

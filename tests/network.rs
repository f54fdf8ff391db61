use electric_grid::network::{CableError, Network, DEFAULT_SEGMENT_COUNT};

type Pos = (i32, i32, i32);

fn net_with_points(n: usize) -> (Network<Pos, u32>, Vec<u64>) {
    let mut net: Network<Pos, u32> = Network::new();
    let mut ids = Vec::new();
    for k in 0..n {
        ids.push(net.create_connection_point((k as i32, 0, 0), (0, 1, 0), Some(k as u32)));
    }
    (net, ids)
}

#[test]
fn mod_test_cable_spawn_components_correct() {
    let mut net: Network<Pos, u32> = Network::new();
    let from = net.create_connection_point((0, 0, 0), (0, 0, 0), None);
    let to = net.create_connection_point((0, 1, 0), (0, 0, 0), None);
    let cable_id = net.spawn_cable(from, to, 2).unwrap();
    let cable = net.cable(cable_id);
    assert!(cable.is_some());
    let cable = cable.unwrap();
    assert!(!cable.generated);
    assert_eq!(from, cable.start);
    assert_eq!(to, cable.end);
}

#[test]
fn test_cable_spawn_components_correct() {
    let (mut net, ids) = net_with_points(2);
    let cable_id = net.spawn_cable(ids[0], ids[1], 7).unwrap();
    let cable = net.cable(cable_id).unwrap();
    assert!(!cable.generated);
    assert_eq!(cable.id, cable_id);
    assert_eq!(cable.start, ids[0]);
    assert_eq!(cable.end, ids[1]);
    assert_eq!(cable.hang, 7);
    assert_eq!(cable.segment_count, DEFAULT_SEGMENT_COUNT);
    assert!(cable.segments.is_empty());
    assert_eq!(net.generated_geometry(cable_id), None);
}

#[test]
fn spawn_cable_with_missing_endpoint_fails() {
    let (mut net, ids) = net_with_points(1);
    assert_eq!(net.spawn_cable(ids[0], 99, 1), Err(CableError::UnresolvedEndpoint));
    assert_eq!(net.spawn_cable(99, ids[0], 1), Err(CableError::UnresolvedEndpoint));
    assert_eq!(net.num_cables(), 0);
    assert!(net.cables_starting_at(ids[0]).is_empty());
}

#[test]
fn indexes_follow_cable_creation() {
    let (mut net, ids) = net_with_points(3);
    let a = net.spawn_cable(ids[0], ids[1], 1).unwrap();
    let b = net.spawn_cable(ids[1], ids[2], 1).unwrap();
    let c = net.spawn_cable(ids[1], ids[0], 1).unwrap();
    assert_eq!(net.cables_starting_at(ids[1]), vec![b, c]);
    assert_eq!(net.cables_ending_at(ids[1]), vec![a]);
    assert_eq!(net.cables_ending_at(ids[0]), vec![c]);
    assert_eq!(net.cables_starting_at(ids[2]), Vec::<u64>::new());
    assert_eq!(net.cables_starting_at(1234), Vec::<u64>::new());
    assert_eq!(net.next_cable_of(a), Some(b));
    assert_eq!(net.prev_cable_of(b), Some(a));
    assert_eq!(net.prev_cable_of(a), Some(c));
}

#[test]
fn generate_stores_all_samples() {
    let (mut net, ids) = net_with_points(2);
    let id = net.create_cable(ids[0], ids[1], 1, 10).unwrap();
    let samples: Vec<Option<Pos>> = (0..=10).map(|k| Some((0, k, 0))).collect();
    assert_eq!(net.generate(id, samples), Ok(()));
    let geometry = net.generated_geometry(id).unwrap();
    assert_eq!(geometry.len(), 11);
    assert_eq!(geometry[0], (0, 0, 0));
    assert_eq!(geometry[10], (0, 10, 0));
    assert!(net.cable(id).unwrap().generated);
}

#[test]
fn generate_twice_is_a_no_op() {
    let (mut net, ids) = net_with_points(2);
    let id = net.create_cable(ids[0], ids[1], 1, 2).unwrap();
    assert_eq!(net.generate(id, vec![Some((0, 0, 0)), Some((1, -1, 0)), Some((2, 0, 0))]), Ok(()));
    let first = net.generated_geometry(id).unwrap().clone();
    assert_eq!(net.generate(id, vec![Some((9, 9, 9)), Some((9, 9, 9)), Some((9, 9, 9))]), Ok(()));
    assert_eq!(net.generated_geometry(id).unwrap(), &first);
    assert_eq!(first, vec![(0, 0, 0), (1, -1, 0), (2, 0, 0)]);
}

#[test]
fn generate_with_undefined_sample_fails_and_keeps_cable_ungenerated() {
    let (mut net, ids) = net_with_points(2);
    let id = net.create_cable(ids[0], ids[1], 1, 2).unwrap();
    assert_eq!(net.generate(id, vec![Some((0, 0, 0)), None, Some((2, 0, 0))]), Err(CableError::DegenerateCurve));
    assert!(!net.cable(id).unwrap().generated);
    assert!(net.cable(id).unwrap().segments.is_empty());
    assert_eq!(net.generate(id, vec![Some((0, 0, 0)), Some((1, 0, 0)), Some((2, 0, 0))]), Ok(()));
}

#[test]
fn generate_on_removed_cable_fails() {
    let (mut net, ids) = net_with_points(2);
    let id = net.spawn_cable(ids[0], ids[1], 1).unwrap();
    net.remove_point(ids[1]);
    assert_eq!(net.generate(id, Vec::new()), Err(CableError::UnresolvedEndpoint));
}

#[test]
fn removing_a_point_removes_its_cables() {
    let (mut net, ids) = net_with_points(3);
    let a = net.spawn_cable(ids[0], ids[1], 1).unwrap();
    let b = net.spawn_cable(ids[1], ids[2], 1).unwrap();
    let c = net.spawn_cable(ids[2], ids[0], 1).unwrap();
    let removed = net.remove_point(ids[1]);
    assert_eq!(removed, vec![a, b]);
    assert!(!net.contains_point(ids[1]));
    assert!(!net.contains_cable(a));
    assert!(!net.contains_cable(b));
    assert!(net.contains_cable(c));
    assert_eq!(net.num_cables(), 1);
    assert_eq!(net.cables_starting_at(ids[0]), Vec::<u64>::new());
    assert_eq!(net.cables_ending_at(ids[2]), Vec::<u64>::new());
    assert_eq!(net.cables_starting_at(ids[2]), vec![c]);
    assert_eq!(net.cables_ending_at(ids[0]), vec![c]);
    assert_eq!(net.point(ids[2]).unwrap().origin, (2, 0, 0));
}

#[test]
fn removing_an_unknown_point_changes_nothing() {
    let (mut net, ids) = net_with_points(2);
    let a = net.spawn_cable(ids[0], ids[1], 1).unwrap();
    assert!(net.remove_point(77).is_empty());
    assert!(net.contains_cable(a));
    assert_eq!(net.cables_starting_at(ids[0]), vec![a]);
}

#[test]
fn auto_wire_matches_slots() {
    let mut net: Network<Pos, u32> = Network::new();
    let a0 = net.create_connection_point((0, 0, 0), (0, 1, 0), Some(0));
    let a1 = net.create_connection_point((0, 0, 0), (0, 2, 0), Some(1));
    let a2 = net.create_connection_point((0, 0, 0), (0, 3, 0), Some(2));
    let b1 = net.create_connection_point((5, 0, 0), (0, 2, 0), Some(1));
    let b0 = net.create_connection_point((5, 0, 0), (0, 1, 0), Some(0));
    let b3 = net.create_connection_point((5, 0, 0), (0, 4, 0), Some(3));
    let bn = net.create_connection_point((5, 0, 0), (0, 5, 0), None);
    let created = net.auto_wire(&vec![a0, a1, a2], &vec![b1, b0, b3, bn], 4);
    assert_eq!(created.len(), 2);
    let first = net.cable(created[0]).unwrap();
    assert_eq!((first.start, first.end, first.hang), (a1, b1, 4));
    let second = net.cable(created[1]).unwrap();
    assert_eq!((second.start, second.end), (a0, b0));
    assert_eq!(net.cables_starting_at(a2), Vec::<u64>::new());
}

#[test]
fn auto_wire_uses_the_last_point_of_a_repeated_slot() {
    let mut net: Network<Pos, u32> = Network::new();
    let a_first = net.create_connection_point((0, 0, 0), (0, 0, 0), Some(1));
    let a_last = net.create_connection_point((0, 0, 0), (0, 1, 0), Some(1));
    let b_first = net.create_connection_point((1, 0, 0), (0, 0, 0), Some(1));
    let b_last = net.create_connection_point((1, 0, 0), (0, 1, 0), Some(1));
    let created = net.auto_wire(&vec![a_first, a_last], &vec![b_first, b_last], 1);
    assert_eq!(created.len(), 1);
    let cable = net.cable(created[0]).unwrap();
    assert_eq!((cable.start, cable.end), (a_last, b_last));
}

#[test]
fn auto_wire_without_matches_creates_nothing() {
    let (mut net, ids) = net_with_points(2);
    let created = net.auto_wire(&vec![ids[0]], &vec![ids[1]], 1);
    assert!(created.is_empty());
    assert_eq!(net.num_cables(), 0);
}

#[test]
fn pending_cables_lists_ungenerated_cables() {
    let (mut net, ids) = net_with_points(3);
    let a = net.create_cable(ids[0], ids[1], 1, 1).unwrap();
    let b = net.create_cable(ids[1], ids[2], 1, 1).unwrap();
    assert_eq!(net.pending_cables(), vec![a, b]);
    assert_eq!(net.generate(a, vec![Some((0, 0, 0)), Some((1, 0, 0))]), Ok(()));
    assert_eq!(net.pending_cables(), vec![b]);
}

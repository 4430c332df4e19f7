use murmur::network::MurmurNetwork;
use murmur::room::MurmurRoom;

fn neighbors(net: &MurmurNetwork, id: usize) -> Vec<usize> {
    net.room(id).unwrap().neighbors.clone()
}

#[test]
fn connect_is_symmetric_and_ordered() {
    let mut net = MurmurNetwork::new();
    for i in 0..3 {
        net.add_room(i);
    }
    net.connect(0, 1);
    net.connect(0, 2);
    assert_eq!(neighbors(&net, 0), vec![1, 2]);
    assert_eq!(neighbors(&net, 1), vec![0]);
    assert_eq!(neighbors(&net, 2), vec![0]);
}

#[test]
fn connect_commutes() {
    let mut a = MurmurNetwork::new();
    let mut b = MurmurNetwork::new();
    for i in 0..2 {
        a.add_room(i);
        b.add_room(i);
    }
    a.connect(0, 1);
    b.connect(1, 0);
    assert_eq!(neighbors(&a, 0), neighbors(&b, 0));
    assert_eq!(neighbors(&a, 1), neighbors(&b, 1));
}

#[test]
fn connect_to_absent_room_links_one_side() {
    let mut net = MurmurNetwork::new();
    net.add_room(0);
    net.connect(0, 7);
    assert_eq!(neighbors(&net, 0), vec![7]);
    assert!(net.room(7).is_none());
    assert_eq!(net.room_count(), 1);
}

#[test]
fn connect_room_to_itself_lists_it_once() {
    let mut net = MurmurNetwork::new();
    net.add_room(3);
    net.connect(3, 3);
    assert_eq!(neighbors(&net, 3), vec![3]);
}

#[test]
fn ring_joins_consecutive_rooms() {
    let mut net = MurmurNetwork::new();
    for i in 0..4 {
        net.add_room(i);
    }
    net.build_ring(&[0, 1, 2, 3]);
    assert_eq!(neighbors(&net, 0), vec![1, 3]);
    assert_eq!(neighbors(&net, 1), vec![0, 2]);
    assert_eq!(neighbors(&net, 2), vec![1, 3]);
    assert_eq!(neighbors(&net, 3), vec![2, 0]);
}

#[test]
fn ring_of_one_room_links_it_to_itself() {
    let mut net = MurmurNetwork::new();
    net.add_room(4);
    net.build_ring(&[4]);
    assert_eq!(neighbors(&net, 4), vec![4]);
}

#[test]
fn empty_ring_changes_nothing() {
    let mut net = MurmurNetwork::new();
    net.add_room(4);
    net.build_ring(&[]);
    assert!(neighbors(&net, 4).is_empty());
}

#[test]
fn star_joins_center_to_all() {
    let mut net = MurmurNetwork::new();
    for i in 0..4 {
        net.add_room(i);
    }
    net.build_star(2, &[0, 1, 3]);
    assert_eq!(neighbors(&net, 2), vec![0, 1, 3]);
    for i in [0, 1, 3] {
        assert_eq!(neighbors(&net, i), vec![2]);
    }
}

#[test]
fn room_ids_are_sorted() {
    let mut net = MurmurNetwork::new();
    for i in [5, 1, 9, 3] {
        net.add_room(i);
    }
    assert_eq!(net.room_ids(), vec![1, 3, 5, 9]);
    assert_eq!(net.room_count(), 4);
}

#[test]
fn add_room_again_replaces_the_room() {
    let mut net = MurmurNetwork::new();
    net.add_room(0);
    net.add_room(1);
    net.connect(0, 1);
    net.propagate(&vec![], 3);
    net.add_room(0);
    assert_eq!(net.room_count(), 2);
    let room = net.room(0).unwrap();
    assert!(room.neighbors.is_empty());
    assert_eq!(room.murmurs_sent, 0);
    assert_eq!(room.murmurs_received, 0);
    assert_eq!(neighbors(&net, 1), vec![0]);
}

fn room(id: usize, neighbors: Vec<usize>, received: usize, sent: usize) -> MurmurRoom {
    MurmurRoom { id, neighbors, murmurs_received: received, murmurs_sent: sent }
}

#[test]
fn restore_rebuilds_in_id_order() {
    let net = MurmurNetwork::restore(vec![room(4, vec![2], 1, 2), room(2, vec![4, 8], 3, 4)], 6);
    assert_eq!(net.room_ids(), vec![2, 4]);
    assert_eq!(net.tick(), 6);
    assert_eq!(neighbors(&net, 2), vec![4, 8]);
    assert_eq!(net.room(4).unwrap().murmurs_sent, 2);
    let ids: Vec<usize> = net.rooms().iter().map(|r| r.id).collect();
    assert_eq!(ids, vec![2, 4]);
}

#[test]
fn restore_keeps_the_later_of_repeated_ids() {
    let net = MurmurNetwork::restore(vec![room(1, vec![], 5, 0), room(1, vec![3], 7, 0)], 0);
    assert_eq!(net.room_count(), 1);
    assert_eq!(net.room(1).unwrap().murmurs_received, 7);
    assert_eq!(neighbors(&net, 1), vec![3]);
}

#[test]
fn restore_keeps_repeated_neighbors() {
    let net = MurmurNetwork::restore(vec![room(1, vec![2, 2], 0, 0)], 0);
    assert_eq!(neighbors(&net, 1), vec![2, 2]);
}

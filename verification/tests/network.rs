use murmur::network::MurmurNetwork;
use murmur::round::Fate;

/// The rooms whose murmurs fall below the forwarding threshold, for rooms
/// given as (id, confidence) pairs.
fn quiet_rooms(rooms: &[(usize, f64)], confidence_decay: f64, forward_threshold: f64) -> Vec<usize> {
    let mut quiet = Vec::new();
    for &(id, confidence) in rooms {
        if confidence * confidence_decay < forward_threshold {
            quiet.push(id);
        }
    }
    quiet
}

fn neighbors(net: &MurmurNetwork, id: usize) -> Vec<usize> {
    net.room(id).unwrap().neighbors.clone()
}

#[test]
fn test_empty_network() {
    let net = MurmurNetwork::new();
    assert_eq!(net.room_count(), 0);
    assert!(net.room_ids().is_empty());
}

#[test]
fn test_add_room() {
    let mut net = MurmurNetwork::new();
    net.add_room(0);
    assert_eq!(net.room_count(), 1);
    assert_eq!(net.room_ids(), vec![0]);
}

#[test]
fn test_connect_rooms() {
    let mut net = MurmurNetwork::new();
    net.add_room(0);
    net.add_room(1);
    net.connect(0, 1);
    assert!(neighbors(&net, 0).contains(&1));
    assert!(neighbors(&net, 1).contains(&0));
}

#[test]
fn test_star_topology() {
    let mut net = MurmurNetwork::new();
    net.add_room(0);
    for i in 1..5 {
        net.add_room(i);
    }
    net.build_star(0, &[1, 2, 3, 4]);
    let center = net.room(0).unwrap();
    assert_eq!(center.neighbors.len(), 4);
}

#[test]
fn test_ring_topology() {
    let mut net = MurmurNetwork::new();
    for i in 0..5 {
        net.add_room(i);
    }
    net.build_ring(&[0, 1, 2, 3, 4]);
    for i in 0..5 {
        let room = net.room(i).unwrap();
        assert_eq!(room.neighbors.len(), 2);
    }
}

#[test]
fn test_murmur_drop_on_confidence() {
    // forward_threshold 0.5, confidence_decay 0.1
    let rooms = [(0usize, 0.3f64), (1, 1.0)];
    let mut net = MurmurNetwork::new();
    net.add_room(0);
    net.add_room(1);
    net.connect(0, 1);
    let quiet = quiet_rooms(&rooms, 0.1, 0.5);
    let round = net.propagate(&quiet, 3);
    assert!(round.murmurs_dropped > 0 || round.murmurs_delivered == 0);
}

#[test]
fn test_propagate_round_stats() {
    // default configuration: forward_threshold 0.1, confidence_decay 0.8
    let rooms = [(0usize, 1.0f64), (1, 1.0)];
    let mut net = MurmurNetwork::new();
    net.add_room(0);
    net.add_room(1);
    net.connect(0, 1);
    let quiet = quiet_rooms(&rooms, 0.8, 0.1);
    let round = net.propagate(&quiet, 3);
    assert_eq!(round.tick, 1);
    assert!(round.murmurs_delivered > 0);
    assert_eq!(round.max_hop, 1);
}

#[test]
fn test_connect_idempotent() {
    let mut net = MurmurNetwork::new();
    net.add_room(0);
    net.add_room(1);
    net.connect(0, 1);
    net.connect(0, 1);
    assert_eq!(net.room(0).unwrap().neighbors.len(), 1);
}

#[test]
fn round_fates_cover_every_murmur() {
    let mut net = MurmurNetwork::new();
    net.add_room(1);
    net.add_room(2);
    net.add_room(3);
    net.connect(1, 2);
    net.connect(2, 3);
    // 9 is no room: 3 keeps it as a neighbour, its murmur to 9 is lost.
    net.connect(3, 9);
    let round = net.propagate(&vec![2], 3);
    let fates: Vec<(usize, usize, Fate)> =
        round.pending.iter().map(|m| (m.source_id, m.target_id, m.fate)).collect();
    assert_eq!(
        fates,
        vec![
            (1, 2, Fate::Delivered),
            (2, 1, Fate::Dropped),
            (2, 3, Fate::Dropped),
            (3, 2, Fate::Delivered),
            (3, 9, Fate::Undeliverable),
        ]
    );
    assert_eq!(round.murmurs_delivered, 2);
    assert_eq!(round.murmurs_dropped, 2);
    assert_eq!(round.max_hop, 1);
    assert_eq!(net.room(2).unwrap().murmurs_received, 2);
    assert_eq!(net.room(1).unwrap().murmurs_received, 0);
    assert_eq!(net.room(3).unwrap().murmurs_sent, 2);
    assert_eq!(net.room(2).unwrap().murmurs_sent, 2);
    assert_eq!(net.room(1).unwrap().murmurs_sent, 1);
}

#[test]
fn hop_limit_zero_delivers_nothing() {
    // default configuration with max_hops 0: two rooms of confidence 1.0
    let rooms = [(0usize, 1.0f64), (1, 1.0)];
    let mut net = MurmurNetwork::new();
    net.add_room(0);
    net.add_room(1);
    net.connect(0, 1);
    let quiet = quiet_rooms(&rooms, 0.8, 0.1);
    let round = net.propagate(&quiet, 0);
    assert_eq!(round.murmurs_delivered, 0);
    assert_eq!(round.murmurs_dropped, 2);
    assert_eq!(round.max_hop, 0);
    assert!(round.pending.iter().all(|m| m.fate == Fate::Dropped && !m.moves_share()));
    assert_eq!(net.room(0).unwrap().murmurs_received, 0);
}

#[test]
fn hop_limit_one_delivers() {
    let mut net = MurmurNetwork::new();
    net.add_room(0);
    net.add_room(1);
    net.connect(0, 1);
    let round = net.propagate(&vec![], 1);
    assert_eq!(round.murmurs_delivered, 2);
    assert_eq!(round.max_hop, 1);
    assert!(round.pending.iter().all(|m| m.moves_share()));
}

#[test]
fn rounds_fit_checks_counters_and_tick() {
    let mut net = MurmurNetwork::new();
    net.add_room(0);
    net.add_room(1);
    net.connect(0, 1);
    assert!(net.rounds_fit(1, &vec![], 3));
    // one neighbour each: usize::MAX rounds send and receive exactly usize::MAX
    assert!(net.rounds_fit(usize::MAX, &vec![], 3));
    net.add_room(2);
    net.connect(0, 2);
    // room 0 now sends two murmurs a round
    assert!(!net.rounds_fit(usize::MAX, &vec![], 0));
    assert!(net.rounds_fit(usize::MAX / 2, &vec![], 3));
    let big = MurmurNetwork::restore(
        vec![murmur::room::MurmurRoom { id: 0, neighbors: vec![0], murmurs_received: 0, murmurs_sent: usize::MAX }],
        0,
    );
    assert!(!big.rounds_fit(1, &vec![], 3));
    assert!(big.rounds_fit(0, &vec![], 3));
    let late = MurmurNetwork::restore(vec![], u64::MAX);
    assert!(!late.rounds_fit(1, &vec![], 3));
    assert!(late.rounds_fit(0, &vec![], 3));
}

#[test]
fn round_with_nothing_delivered_has_no_hop() {
    let mut net = MurmurNetwork::new();
    net.add_room(0);
    net.add_room(1);
    net.connect(0, 1);
    let round = net.propagate(&vec![0, 1], 3);
    assert_eq!(round.murmurs_delivered, 0);
    assert_eq!(round.murmurs_dropped, 2);
    assert_eq!(round.max_hop, 0);
}

#[test]
fn ledger_balances_when_all_delivered() {
    let mut net = MurmurNetwork::new();
    for i in 0..3 {
        net.add_room(i);
    }
    net.build_ring(&[0, 1, 2]);
    let round = net.propagate(&vec![], 3);
    let sent: usize = (0..3).map(|i| net.room(i).unwrap().murmurs_sent).sum();
    let received: usize = (0..3).map(|i| net.room(i).unwrap().murmurs_received).sum();
    assert_eq!(sent, 6);
    assert_eq!(received, 6);
    assert_eq!(round.murmurs_delivered, round.pending.len());
}

#[test]
fn ledger_does_not_balance_with_a_lost_murmur() {
    let mut net = MurmurNetwork::new();
    net.add_room(0);
    net.connect(0, 5);
    let round = net.propagate(&vec![], 3);
    assert_eq!(round.pending.len(), 1);
    assert_eq!(round.pending[0].fate, Fate::Undeliverable);
    assert_eq!(round.murmurs_delivered, 0);
    assert_eq!(round.murmurs_dropped, 0);
    assert_eq!(net.room(0).unwrap().murmurs_sent, 1);
    assert_eq!(net.room(0).unwrap().murmurs_received, 0);
}

#[test]
fn propagate_n_runs_consecutive_rounds() {
    let mut net = MurmurNetwork::new();
    net.add_room(0);
    net.add_room(1);
    net.connect(0, 1);
    net.propagate(&vec![], 3);
    let rounds = net.propagate_n(3, &vec![], 3);
    assert_eq!(rounds.len(), 3);
    assert_eq!(rounds.iter().map(|r| r.tick).collect::<Vec<u64>>(), vec![2, 3, 4]);
    for r in &rounds {
        assert_eq!(r.murmurs_delivered, 2);
        assert_eq!(r.pending.len(), 2);
    }
    assert_eq!(net.room(0).unwrap().murmurs_sent, 4);
    assert_eq!(net.room(1).unwrap().murmurs_received, 4);
    assert_eq!(net.tick(), 4);
}

#[test]
fn propagate_n_zero_rounds_changes_nothing() {
    let mut net = MurmurNetwork::new();
    net.add_room(0);
    let rounds = net.propagate_n(0, &vec![], 3);
    assert!(rounds.is_empty());
    assert_eq!(net.tick(), 0);
}

#[test]
fn propagate_n_is_propagate_repeated() {
    let build = || {
        let mut net = MurmurNetwork::new();
        for i in 0..4 {
            net.add_room(i);
        }
        net.build_ring(&[0, 1, 2, 3]);
        net.connect(3, 8);
        net
    };
    let mut at_once = build();
    let mut one_by_one = build();
    let quiet = vec![2];
    let rounds = at_once.propagate_n(3, &quiet, 3);
    for k in 0..3 {
        let r = one_by_one.propagate(&quiet, 3);
        assert_eq!(rounds[k].tick, r.tick);
        assert_eq!(rounds[k].murmurs_delivered, r.murmurs_delivered);
        assert_eq!(rounds[k].murmurs_dropped, r.murmurs_dropped);
        assert_eq!(rounds[k].max_hop, r.max_hop);
        assert_eq!(rounds[k].pending, r.pending);
    }
    for i in 0..4 {
        let a = at_once.room(i).unwrap();
        let b = one_by_one.room(i).unwrap();
        assert_eq!(a.neighbors, b.neighbors);
        assert_eq!(a.murmurs_sent, b.murmurs_sent);
        assert_eq!(a.murmurs_received, b.murmurs_received);
    }
    assert_eq!(at_once.tick(), one_by_one.tick());
}

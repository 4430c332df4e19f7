use vstd::prelude::*;
use crate::room::RoomView;
use crate::network::{link, connected, star, ring, neighbor_lists_distinct};
use crate::round::{Fate, PendingMurmur, fate_of, room_pending, round_pending, count_fate, delivered_to, sent_by,
    taken_from, after_rounds, lemma_after_rounds_step, repeated_rounds,
    lemma_round_pending_topology};

verus! {

/// `link` keeps every room, every counter and every neighbour a room
/// already had, and after it `a` (when a room) has `b` as a neighbour.
pub proof fn lemma_link_grows(m: Map<usize, RoomView>, a: usize, b: usize)
    ensures
        link(m, a, b).dom() == m.dom(),
        forall|id: usize, x: usize|
            #![trigger m[id].neighbors.contains(x)]
            #![trigger link(m, a, b)[id].neighbors.contains(x)]
            m.contains_key(id) && m[id].neighbors.contains(x) ==> link(m, a, b)[id].neighbors.contains(x),
        forall|id: usize| #[trigger] m.contains_key(id) ==> {
            &&& link(m, a, b)[id].murmurs_received == m[id].murmurs_received
            &&& link(m, a, b)[id].murmurs_sent == m[id].murmurs_sent
        },
        m.contains_key(a) ==> link(m, a, b)[a].neighbors.contains(b),
{
    let l = link(m, a, b);
    if m.contains_key(a) {
        assert(l.dom() =~= m.dom());
        if !m[a].neighbors.contains(b) {
            let s = m[a].neighbors;
            assert(s.push(b)[s.len() as int] == b);
            assert forall|x: usize| s.contains(x) implies #[trigger] s.push(b).contains(x) by {
                let k = choose|k: int| 0 <= k < s.len() && s[k] == x;
                assert(s.push(b)[k] == x);
            }
        }
    }
}

/// Connecting keeps every room, every counter and every neighbour a room
/// already had.
pub proof fn lemma_connect_grows(m: Map<usize, RoomView>, a: usize, b: usize)
    ensures
        connected(m, a, b).dom() == m.dom(),
        forall|id: usize, x: usize|
            #![trigger m[id].neighbors.contains(x)]
            #![trigger connected(m, a, b)[id].neighbors.contains(x)]
            m.contains_key(id) && m[id].neighbors.contains(x) ==> connected(m, a, b)[id].neighbors.contains(x),
        forall|id: usize| #[trigger] m.contains_key(id) ==> {
            &&& connected(m, a, b)[id].murmurs_received == m[id].murmurs_received
            &&& connected(m, a, b)[id].murmurs_sent == m[id].murmurs_sent
        },
{
    lemma_link_grows(m, a, b);
    lemma_link_grows(link(m, a, b), b, a);
}

/// Connecting two rooms makes each a neighbour of the other.
pub proof fn lemma_connect_symmetric(m: Map<usize, RoomView>, a: usize, b: usize)
    requires
        m.contains_key(a),
        m.contains_key(b),
    ensures
        connected(m, a, b)[a].neighbors.contains(b),
        connected(m, a, b)[b].neighbors.contains(a),
{
    lemma_link_grows(m, a, b);
    lemma_link_grows(link(m, a, b), b, a);
}

/// A link that is already there changes nothing.
proof fn lemma_link_present(m: Map<usize, RoomView>, a: usize, b: usize)
    requires
        m.contains_key(a) ==> m[a].neighbors.contains(b),
    ensures
        link(m, a, b) == m,
{
    if m.contains_key(a) {
        assert(m.insert(a, m[a]) =~= m);
    }
}

/// Connecting the same two rooms again changes nothing.
pub proof fn lemma_connect_idempotent(m: Map<usize, RoomView>, a: usize, b: usize)
    ensures
        connected(connected(m, a, b), a, b) == connected(m, a, b),
{
    let c = connected(m, a, b);
    let m1 = link(m, a, b);
    lemma_link_grows(m, a, b);
    lemma_link_grows(m1, b, a);
    // In `c`, `a` has `b` (when a room) and `b` has `a` (when a room).
    assert(c.contains_key(a) ==> c[a].neighbors.contains(b));
    lemma_link_present(c, a, b);
    lemma_link_present(c, b, a);
}

/// Connecting `a` to `b` is connecting `b` to `a`.
pub proof fn lemma_connect_commutes(m: Map<usize, RoomView>, a: usize, b: usize)
    ensures
        connected(m, a, b) == connected(m, b, a),
{
    if a != b {
        assert(connected(m, a, b) =~= connected(m, b, a));
    }
}

/// Connecting never makes a room list a neighbour twice.
pub proof fn lemma_connect_keeps_lists_distinct(m: Map<usize, RoomView>, a: usize, b: usize)
    requires
        neighbor_lists_distinct(m),
    ensures
        neighbor_lists_distinct(connected(m, a, b)),
{
    lemma_link_keeps_lists_distinct(m, a, b);
    lemma_link_keeps_lists_distinct(link(m, a, b), b, a);
}

proof fn lemma_link_keeps_lists_distinct(m: Map<usize, RoomView>, a: usize, b: usize)
    requires
        neighbor_lists_distinct(m),
    ensures
        neighbor_lists_distinct(link(m, a, b)),
{
    let l = link(m, a, b);
    assert forall|id: usize| #[trigger] l.contains_key(id) implies l[id].neighbors.no_duplicates() by {
        if id == a && m.contains_key(a) && !m[a].neighbors.contains(b) {
            let s = m[a].neighbors;
            assert(m.contains_key(a));
            assert forall|i: int, j: int| 0 <= i < s.push(b).len() && 0 <= j < s.push(b).len() && i != j
                implies s.push(b)[i] != s.push(b)[j] by {
                if i < s.len() && j < s.len() {
                } else if i == s.len() {
                    assert(s[j] != b);
                } else {
                    assert(s[i] != b);
                }
            }
        } else {
            assert(m.contains_key(id));
        }
    }
}


/// Building a ring keeps every room and every neighbour a room already had.
proof fn lemma_ring_grows(m: Map<usize, RoomView>, ids: Seq<usize>, k: nat)
    ensures
        ring(m, ids, k).dom() == m.dom(),
        forall|id: usize, x: usize|
            #![trigger m[id].neighbors.contains(x)]
            #![trigger ring(m, ids, k)[id].neighbors.contains(x)]
            m.contains_key(id) && m[id].neighbors.contains(x) ==> ring(m, ids, k)[id].neighbors.contains(x),
    decreases k,
{
    if k > 0 {
        let prev = ring(m, ids, (k - 1) as nat);
        lemma_ring_grows(m, ids, (k - 1) as nat);
        lemma_connect_grows(prev, ids[k - 1], ids[(k as int) % (ids.len() as int)]);
    }
}

/// A ring through rooms joins each room to the next one, and the last to
/// the first: after it, every two consecutive rooms are neighbours of each
/// other.
pub proof fn lemma_ring_joins_consecutive(m: Map<usize, RoomView>, ids: Seq<usize>)
    requires
        forall|i: int| 0 <= i < ids.len() ==> m.contains_key(#[trigger] ids[i]),
    ensures
        forall|i: int| #![trigger ids[i]] 0 <= i < ids.len() ==> {
            let r = ring(m, ids, ids.len());
            let next = ids[(i + 1) % (ids.len() as int)];
            &&& r[ids[i]].neighbors.contains(next)
            &&& r[next].neighbors.contains(ids[i])
        },
{
    lemma_ring_prefix_joins(m, ids, ids.len());
}

proof fn lemma_ring_prefix_joins(m: Map<usize, RoomView>, ids: Seq<usize>, k: nat)
    requires
        forall|i: int| 0 <= i < ids.len() ==> m.contains_key(#[trigger] ids[i]),
        k <= ids.len(),
    ensures
        forall|i: int| #![trigger ids[i]] 0 <= i < k ==> {
            let r = ring(m, ids, k);
            let next = ids[(i + 1) % (ids.len() as int)];
            &&& r[ids[i]].neighbors.contains(next)
            &&& r[next].neighbors.contains(ids[i])
        },
    decreases k,
{
    if k > 0 {
        let n = ids.len() as int;
        let prev = ring(m, ids, (k - 1) as nat);
        let a = ids[k - 1];
        let b = ids[(k as int) % n];
        lemma_ring_prefix_joins(m, ids, (k - 1) as nat);
        lemma_ring_grows(m, ids, (k - 1) as nat);
        assert(0 <= (k as int) % n < n);
        assert(m.contains_key(ids[(k as int) % n]));
        assert(m.contains_key(ids[k - 1]));
        lemma_connect_grows(prev, a, b);
        lemma_connect_symmetric(prev, a, b);
        assert forall|i: int| #![trigger ids[i]] 0 <= i < k implies {
            let r = ring(m, ids, k);
            let next = ids[(i + 1) % n];
            &&& r[ids[i]].neighbors.contains(next)
            &&& r[next].neighbors.contains(ids[i])
        } by {
            let next = ids[(i + 1) % n];
            assert(0 <= (i + 1) % n < n);
            assert(m.contains_key(next));
            assert(m.contains_key(ids[i]));
            if i == k - 1 {
                assert((i + 1) % n == (k as int) % n);
            } else {
                assert(prev[ids[i]].neighbors.contains(next));
                assert(prev[next].neighbors.contains(ids[i]));
            }
        }
    }
}

/// A star joins its centre to each of the other rooms, both ways.
pub proof fn lemma_star_joins_center(m: Map<usize, RoomView>, center: usize, others: Seq<usize>)
    requires
        m.contains_key(center),
        forall|i: int| 0 <= i < others.len() ==> m.contains_key(#[trigger] others[i]),
    ensures
        star(m, center, others).dom() == m.dom(),
        forall|i: int| #![trigger others[i]] 0 <= i < others.len() ==> {
            &&& star(m, center, others)[center].neighbors.contains(others[i])
            &&& star(m, center, others)[others[i]].neighbors.contains(center)
        },
    decreases others.len(),
{
    if others.len() > 0 {
        let rest = others.drop_last();
        let prev = star(m, center, rest);
        let last = others.last();
        lemma_star_joins_center(m, center, rest);
        assert(m.contains_key(others[others.len() - 1]));
        lemma_connect_grows(prev, center, last);
        lemma_connect_symmetric(prev, center, last);
        assert forall|i: int| #![trigger others[i]] 0 <= i < others.len() implies {
            &&& star(m, center, others)[center].neighbors.contains(others[i])
            &&& star(m, center, others)[others[i]].neighbors.contains(center)
        } by {
            assert(m.contains_key(others[i]));
            if i < others.len() - 1 {
                assert(rest[i] == others[i]);
                assert(prev[center].neighbors.contains(rest[i]));
                assert(prev[rest[i]].neighbors.contains(center));
            }
        }
    }
}


/// The number of neighbours of the rooms of `order`, all told: the number
/// of murmurs they send in a round.
pub open spec fn total_degree(m: Map<usize, RoomView>, order: Seq<usize>) -> nat
    decreases order.len(),
{
    if order.len() == 0 {
        0
    } else {
        total_degree(m, order.drop_last()) + m[order.last()].neighbors.len()
    }
}

/// The murmurs of `p` delivered to the rooms of `order`, all told.
pub open spec fn total_delivered(p: Seq<PendingMurmur>, order: Seq<usize>) -> nat
    decreases order.len(),
{
    if order.len() == 0 {
        0
    } else {
        total_delivered(p, order.drop_last()) + delivered_to(p, order.last())
    }
}

/// Every murmur the rooms of `order` send can arrive: no room of `order`
/// that has neighbours is quiet, the hop limit allows a hop whenever there
/// is a murmur at all, and every neighbour of a room of `order` is a room.
pub open spec fn all_deliverable(m: Map<usize, RoomView>, quiet: Seq<usize>,
    max_hops: u32, order: Seq<usize>) -> bool {
    forall|i: int, t: usize|
        0 <= i < order.len() && #[trigger] m[order[i]].neighbors.contains(t)
            ==> !quiet.contains(order[i]) && max_hops >= 1 && m.contains_key(t)
}

proof fn lemma_count_fate_append(a: Seq<PendingMurmur>, b: Seq<PendingMurmur>, f: Fate)
    ensures
        count_fate(a + b, f) == count_fate(a, f) + count_fate(b, f),
    decreases b.len(),
{
    if b.len() == 0 {
        assert(a + b =~= a);
    } else {
        assert((a + b).drop_last() =~= a + b.drop_last());
        lemma_count_fate_append(a, b.drop_last(), f);
    }
}

proof fn lemma_count_fate_bounds(p: Seq<PendingMurmur>, f: Fate)
    ensures
        count_fate(p, f) <= p.len(),
        count_fate(p, f) == p.len() <==> forall|i: int| 0 <= i < p.len() ==> (#[trigger] p[i]).fate == f,
    decreases p.len(),
{
    if p.len() > 0 {
        let q = p.drop_last();
        lemma_count_fate_bounds(q, f);
        if count_fate(p, f) == p.len() {
            assert forall|i: int| 0 <= i < p.len() implies (#[trigger] p[i]).fate == f by {
                if i < q.len() {
                    assert(q[i] == p[i]);
                }
            }
        }
        if forall|i: int| 0 <= i < p.len() ==> (#[trigger] p[i]).fate == f {
            assert forall|i: int| 0 <= i < q.len() implies (#[trigger] q[i]).fate == f by {
                assert(q[i] == p[i]);
            }
            assert(p[p.len() - 1].fate == f);
        }
    }
}

proof fn lemma_fates_partition(p: Seq<PendingMurmur>)
    ensures
        count_fate(p, Fate::Delivered) + count_fate(p, Fate::Dropped) + count_fate(p, Fate::Undeliverable)
            == p.len(),
    decreases p.len(),
{
    if p.len() > 0 {
        lemma_fates_partition(p.drop_last());
    }
}

/// Every murmur of a round is delivered, dropped or undeliverable, and
/// there are as many murmurs as the sending rooms have neighbours.
pub proof fn lemma_round_accounts_for_every_murmur(
    m: Map<usize, RoomView>,
    quiet: Seq<usize>,
    max_hops: u32,
    order: Seq<usize>,
)
    ensures
        round_pending(m, quiet, max_hops, order).len() == total_degree(m, order),
        count_fate(round_pending(m, quiet, max_hops, order), Fate::Delivered)
            + count_fate(round_pending(m, quiet, max_hops, order), Fate::Dropped)
            + count_fate(round_pending(m, quiet, max_hops, order), Fate::Undeliverable)
            == total_degree(m, order),
    decreases order.len(),
{
    if order.len() > 0 {
        lemma_round_accounts_for_every_murmur(m, quiet, max_hops, order.drop_last());
    }
    lemma_fates_partition(round_pending(m, quiet, max_hops, order));
}

/// A round delivers every murmur it sends exactly when no quiet room has
/// neighbours, the hop limit allows a hop (or nobody has neighbours) and
/// every neighbour is a room.
pub proof fn lemma_round_delivers_all_iff(m: Map<usize, RoomView>, quiet: Seq<usize>,
    max_hops: u32, order: Seq<usize>)
    ensures
        count_fate(round_pending(m, quiet, max_hops, order), Fate::Delivered) == round_pending(m, quiet, max_hops, order).len()
            <==> all_deliverable(m, quiet, max_hops, order),
    decreases order.len(),
{
    if order.len() > 0 {
        let rest = order.drop_last();
        let s = order.last();
        let a = round_pending(m, quiet, max_hops, rest);
        let b = room_pending(m, quiet, max_hops, s);
        let n = m[s].neighbors;
        lemma_round_delivers_all_iff(m, quiet, max_hops, rest);
        lemma_count_fate_append(a, b, Fate::Delivered);
        lemma_count_fate_bounds(a, Fate::Delivered);
        lemma_count_fate_bounds(b, Fate::Delivered);
        // The last room's murmurs are all delivered exactly when it is not
        // quiet (or has no neighbours) and its neighbours are all rooms.
        let last_ok = forall|t: usize| #[trigger] n.contains(t) ==> !quiet.contains(s) && max_hops >= 1 && m.contains_key(t);
        assert((forall|j: int| 0 <= j < b.len() ==> (#[trigger] b[j]).fate == Fate::Delivered) <==> last_ok) by {
            if forall|j: int| 0 <= j < b.len() ==> (#[trigger] b[j]).fate == Fate::Delivered {
                assert forall|t: usize| #[trigger] n.contains(t) implies !quiet.contains(s) && max_hops >= 1 && m.contains_key(t) by {
                    let j = choose|j: int| 0 <= j < n.len() && n[j] == t;
                    assert(b[j].fate == fate_of(m, quiet, max_hops, s, t));
                }
            }
            if last_ok {
                assert forall|j: int| 0 <= j < b.len() implies (#[trigger] b[j]).fate == Fate::Delivered by {
                    assert(n.contains(n[j]));
                }
            }
        }
        assert(all_deliverable(m, quiet, max_hops, order) <==> all_deliverable(m, quiet, max_hops, rest) && last_ok) by {
            if all_deliverable(m, quiet, max_hops, order) {
                assert forall|i: int, t: usize|
                    0 <= i < rest.len() && #[trigger] m[rest[i]].neighbors.contains(t)
                    implies !quiet.contains(rest[i]) && max_hops >= 1 && m.contains_key(t) by {
                    assert(order[i] == rest[i]);
                }
                assert forall|t: usize| #[trigger] n.contains(t) implies !quiet.contains(s) && max_hops >= 1 && m.contains_key(t) by {
                    assert(order[order.len() - 1] == s);
                    assert(m[order[order.len() - 1]].neighbors.contains(t));
                }
            }
            if all_deliverable(m, quiet, max_hops, rest) && last_ok {
                assert forall|i: int, t: usize|
                    0 <= i < order.len() && #[trigger] m[order[i]].neighbors.contains(t)
                    implies !quiet.contains(order[i]) && max_hops >= 1 && m.contains_key(t) by {
                    if i < rest.len() {
                        assert(order[i] == rest[i]);
                        assert(m[rest[i]].neighbors.contains(t));
                    } else {
                        assert(order[i] == s);
                    }
                }
            }
        }
    } else {
        assert(round_pending(m, quiet, max_hops, order).len() == 0);
    }
}


proof fn lemma_total_delivered_push(p: Seq<PendingMurmur>, x: PendingMurmur, order: Seq<usize>)
    requires
        order.no_duplicates(),
    ensures
        total_delivered(p.push(x), order) == total_delivered(p, order)
            + if x.fate == Fate::Delivered && order.contains(x.target_id) { 1nat } else { 0nat },
    decreases order.len(),
{
    if order.len() > 0 {
        let rest = order.drop_last();
        assert(rest.no_duplicates());
        lemma_total_delivered_push(p, x, rest);
        assert(p.push(x).drop_last() =~= p);
        if order.contains(x.target_id) {
            let k = choose|k: int| 0 <= k < order.len() && order[k] == x.target_id;
            if k < rest.len() {
                assert(rest[k] == x.target_id);
                assert(order.last() != x.target_id);
            }
        }
        if rest.contains(x.target_id) {
            let k = choose|k: int| 0 <= k < rest.len() && rest[k] == x.target_id;
            assert(order[k] == x.target_id);
        }
        if x.target_id == order.last() {
            assert(order[order.len() - 1] == x.target_id);
        }
    } else {
        assert(!order.contains(x.target_id));
    }
}

proof fn lemma_total_delivered_counts(p: Seq<PendingMurmur>, order: Seq<usize>)
    requires
        order.no_duplicates(),
        forall|i: int| 0 <= i < p.len() && (#[trigger] p[i]).fate == Fate::Delivered
            ==> order.contains(p[i].target_id),
    ensures
        total_delivered(p, order) == count_fate(p, Fate::Delivered),
    decreases p.len(),
{
    if p.len() == 0 {
        lemma_total_delivered_empty(p, order);
    } else {
        let q = p.drop_last();
        let x = p.last();
        assert forall|i: int| 0 <= i < q.len() && (#[trigger] q[i]).fate == Fate::Delivered
            implies order.contains(q[i].target_id) by {
            assert(q[i] == p[i]);
        }
        lemma_total_delivered_counts(q, order);
        assert(q.push(x) =~= p);
        lemma_total_delivered_push(q, x, order);
        assert(p[p.len() - 1] == x);
    }
}

proof fn lemma_total_delivered_empty(p: Seq<PendingMurmur>, order: Seq<usize>)
    requires
        p.len() == 0,
    ensures
        total_delivered(p, order) == 0,
    decreases order.len(),
{
    if order.len() > 0 {
        lemma_total_delivered_empty(p, order.drop_last());
    }
}

proof fn lemma_round_delivers_to_rooms(m: Map<usize, RoomView>, quiet: Seq<usize>,
    max_hops: u32, order: Seq<usize>)
    ensures
        forall|i: int| 0 <= i < round_pending(m, quiet, max_hops, order).len()
            && (#[trigger] round_pending(m, quiet, max_hops, order)[i]).fate == Fate::Delivered
            ==> m.contains_key(round_pending(m, quiet, max_hops, order)[i].target_id),
    decreases order.len(),
{
    if order.len() > 0 {
        let rest = order.drop_last();
        let a = round_pending(m, quiet, max_hops, rest);
        let b = room_pending(m, quiet, max_hops, order.last());
        lemma_round_delivers_to_rooms(m, quiet, max_hops, rest);
        let p = round_pending(m, quiet, max_hops, order);
        assert(p == a + b);
        assert forall|i: int| 0 <= i < p.len() && (#[trigger] p[i]).fate == Fate::Delivered
            implies m.contains_key(p[i].target_id) by {
            if i < a.len() {
                assert(p[i] == a[i]);
            } else {
                assert(p[i] == b[i - a.len()]);
            }
        }
    }
}

/// Every delivered murmur is credited to exactly one room: over the rooms
/// of the network, the murmurs each room receives add up to the murmurs
/// the round delivers.
pub proof fn lemma_round_credits_every_delivery(
    m: Map<usize, RoomView>,
    quiet: Seq<usize>,
    max_hops: u32,
    order: Seq<usize>,
)
    requires
        order.no_duplicates(),
        forall|id: usize| m.contains_key(id) ==> order.contains(id),
    ensures
        total_delivered(round_pending(m, quiet, max_hops, order), order)
            == count_fate(round_pending(m, quiet, max_hops, order), Fate::Delivered),
{
    let p = round_pending(m, quiet, max_hops, order);
    lemma_round_delivers_to_rooms(m, quiet, max_hops, order);
    assert forall|i: int| 0 <= i < p.len() && (#[trigger] p[i]).fate == Fate::Delivered
        implies order.contains(p[i].target_id) by {
        assert(m.contains_key(p[i].target_id));
    }
    lemma_total_delivered_counts(p, order);
}

/// The murmurs the rooms count as sent in a round (one per neighbour) equal
/// the murmurs they count as received exactly when every murmur can arrive:
/// no quiet room has neighbours, the hop limit allows a hop, and every
/// neighbour is a room. (Vibe is conserved either way: only delivered
/// murmurs move a share.)
pub proof fn lemma_round_balances_iff(m: Map<usize, RoomView>, quiet: Seq<usize>,
    max_hops: u32, order: Seq<usize>)
    requires
        order.no_duplicates(),
        forall|id: usize| m.contains_key(id) ==> order.contains(id),
    ensures
        total_delivered(round_pending(m, quiet, max_hops, order), order) == total_degree(m, order)
            <==> all_deliverable(m, quiet, max_hops, order),
{
    lemma_round_credits_every_delivery(m, quiet, max_hops, order);
    lemma_round_accounts_for_every_murmur(m, quiet, max_hops, order);
    lemma_round_delivers_all_iff(m, quiet, max_hops, order);
}


proof fn lemma_sent_by_append(a: Seq<PendingMurmur>, b: Seq<PendingMurmur>, id: usize)
    ensures
        sent_by(a + b, id) == sent_by(a, id) + sent_by(b, id),
    decreases b.len(),
{
    if b.len() == 0 {
        assert(a + b =~= a);
    } else {
        assert((a + b).drop_last() =~= a + b.drop_last());
        lemma_sent_by_append(a, b.drop_last(), id);
    }
}

proof fn lemma_sent_by_one_source(p: Seq<PendingMurmur>, s: usize, id: usize)
    requires
        forall|i: int| 0 <= i < p.len() ==> (#[trigger] p[i]).source_id == s,
    ensures
        sent_by(p, id) == if id == s { p.len() } else { 0 },
    decreases p.len(),
{
    if p.len() > 0 {
        let q = p.drop_last();
        assert forall|i: int| 0 <= i < q.len() implies (#[trigger] q[i]).source_id == s by {
            assert(q[i] == p[i]);
        }
        lemma_sent_by_one_source(q, s, id);
        assert(p[p.len() - 1].source_id == s);
    }
}

/// In a round each room sends exactly one murmur per neighbour.
pub proof fn lemma_round_sends_one_per_neighbor(
    m: Map<usize, RoomView>,
    quiet: Seq<usize>,
    max_hops: u32,
    order: Seq<usize>,
    id: usize,
)
    requires
        order.no_duplicates(),
    ensures
        sent_by(round_pending(m, quiet, max_hops, order), id) == if order.contains(id) {
            m[id].neighbors.len()
        } else {
            0
        },
    decreases order.len(),
{
    if order.len() > 0 {
        let rest = order.drop_last();
        let s = order.last();
        let b = room_pending(m, quiet, max_hops, s);
        assert(rest.no_duplicates());
        lemma_round_sends_one_per_neighbor(m, quiet, max_hops, rest, id);
        lemma_sent_by_append(round_pending(m, quiet, max_hops, rest), b, id);
        lemma_sent_by_one_source(b, s, id);
        if order.contains(id) {
            let k = choose|k: int| 0 <= k < order.len() && order[k] == id;
            if k < rest.len() {
                assert(rest[k] == id);
                assert(s != id);
            }
        }
        if rest.contains(id) {
            let k = choose|k: int| 0 <= k < rest.len() && rest[k] == id;
            assert(order[k] == id);
            assert(s != id);
        }
        if s == id {
            assert(order[order.len() - 1] == id);
        }
    } else {
        assert(!order.contains(id));
    }
}


/// The neighbours that room `ids[i]` has after the first `k` links of a
/// ring through rooms that had none.
pub open spec fn ring_neighbors(ids: Seq<usize>, i: int, k: int) -> Seq<usize> {
    let n = ids.len() as int;
    if i == 0 {
        if k == 0 {
            Seq::empty()
        } else if k < n {
            seq![ids[1]]
        } else {
            seq![ids[1], ids[n - 1]]
        }
    } else {
        if k < i {
            Seq::empty()
        } else if k == i {
            seq![ids[i - 1]]
        } else {
            seq![ids[i - 1], ids[(i + 1) % n]]
        }
    }
}

proof fn lemma_ring_exact_prefix(m: Map<usize, RoomView>, ids: Seq<usize>, k: nat)
    requires
        ids.len() >= 3,
        ids.no_duplicates(),
        k <= ids.len(),
        forall|i: int| 0 <= i < ids.len() ==> m.contains_key(#[trigger] ids[i])
            && m[ids[i]].neighbors.len() == 0,
    ensures
        ring(m, ids, k).dom() == m.dom(),
        forall|i: int| 0 <= i < ids.len() ==> #[trigger] ring(m, ids, k)[ids[i]].neighbors
            == ring_neighbors(ids, i, k as int),
    decreases k,
{
    let n = ids.len() as int;
    if k == 0 {
        assert forall|i: int| 0 <= i < n implies #[trigger] ring(m, ids, k)[ids[i]].neighbors
            == ring_neighbors(ids, i, k as int) by {
            assert(m[ids[i]].neighbors =~= Seq::<usize>::empty());
        }
    } else {
        let kk = (k - 1) as int;
        let mm = ring(m, ids, (k - 1) as nat);
        lemma_ring_exact_prefix(m, ids, (k - 1) as nat);
        let j = k as int % n;
        let a = ids[kk];
        let b = ids[j];
        assert(j == if (k as int) < n { k as int } else { 0 }) by {
            if (k as int) < n {
                vstd::arithmetic::div_mod::lemma_small_mod(k, n as nat);
            } else {
                vstd::arithmetic::div_mod::lemma_mod_self_0(n);
            }
        }
        assert(0 <= j < n);
        assert(j != kk);
        assert(a != b);
        assert(mm.contains_key(a)) by {
            assert(m.contains_key(ids[kk]));
        }
        assert(mm.contains_key(b)) by {
            assert(m.contains_key(ids[j]));
        }
        let na = mm[a].neighbors;
        let nb = mm[b].neighbors;
        assert(na == ring_neighbors(ids, kk, kk));
        assert(nb == ring_neighbors(ids, j, kk));
        // `b` is not yet a neighbour of `a`, nor `a` of `b`.
        assert(!na.contains(b)) by {
            if kk > 0 {
                assert(na =~= seq![ids[kk - 1]]);
                assert(kk - 1 != j);
                if na.contains(b) {
                    assert(na[0] == b);
                }
            } else {
                assert(na =~= Seq::<usize>::empty());
            }
        }
        assert(!nb.contains(a)) by {
            if j == 0 {
                assert(nb =~= seq![ids[1]]);
                assert(kk == n - 1);
                assert(kk != 1);
                if nb.contains(a) {
                    assert(nb[0] == a);
                }
            } else {
                assert(j == kk + 1);
                assert(nb =~= Seq::<usize>::empty());
            }
        }
        let m1 = link(mm, a, b);
        let m2 = link(m1, b, a);
        assert(m1 == mm.insert(a, mm[a].with_neighbor(b)));
        assert(m1[b] == mm[b]);
        assert(m2 == m1.insert(b, m1[b].with_neighbor(a)));
        assert(m2 == ring(m, ids, k));
        lemma_connect_grows(mm, a, b);
        assert forall|i: int| 0 <= i < n implies #[trigger] ring(m, ids, k)[ids[i]].neighbors
            == ring_neighbors(ids, i, k as int) by {
            let x = ids[i];
            if i == kk {
                assert(m2[x].neighbors =~= na.push(b));
                assert(ring_neighbors(ids, i, k as int) =~= na.push(b));
            } else if i == j {
                assert(m2[x].neighbors =~= nb.push(a));
                assert(ring_neighbors(ids, i, k as int) =~= nb.push(a));
            } else {
                assert(x != a);
                assert(x != b);
                assert(m2[x] == mm[x]);
                assert(ring_neighbors(ids, i, k as int) =~= ring_neighbors(ids, i, kk));
            }
        }
    }
}

/// A ring through at least three distinct rooms that had no neighbours
/// leaves each of them with exactly two: the room before it and the room
/// after it (the first room lists the second, then the last).
pub proof fn lemma_ring_gives_two_neighbors(m: Map<usize, RoomView>, ids: Seq<usize>)
    requires
        ids.len() >= 3,
        ids.no_duplicates(),
        forall|i: int| 0 <= i < ids.len() ==> m.contains_key(#[trigger] ids[i])
            && m[ids[i]].neighbors.len() == 0,
    ensures
        ring(m, ids, ids.len())[ids[0]].neighbors == seq![ids[1], ids[ids.len() - 1]],
        forall|i: int| 0 < i < ids.len() ==> #[trigger] ring(m, ids, ids.len())[ids[i]].neighbors
            == seq![ids[i - 1], ids[(i + 1) % (ids.len() as int)]],
        forall|i: int| 0 <= i < ids.len() ==> #[trigger] ring(m, ids, ids.len())[ids[i]].neighbors.len() == 2,
{
    lemma_ring_exact_prefix(m, ids, ids.len());
    let r = ring(m, ids, ids.len());
    assert(r[ids[0]].neighbors == ring_neighbors(ids, 0, ids.len() as int));
    assert forall|i: int| 0 < i < ids.len() implies #[trigger] r[ids[i]].neighbors
        == seq![ids[i - 1], ids[(i + 1) % (ids.len() as int)]] by {
        assert(r[ids[i]].neighbors == ring_neighbors(ids, i, ids.len() as int));
    }
    assert forall|i: int| 0 <= i < ids.len() implies #[trigger] r[ids[i]].neighbors.len() == 2 by {
        assert(r[ids[i]].neighbors == ring_neighbors(ids, i, ids.len() as int));
    }
}


/// A star from a centre to distinct other rooms, none of which (nor the
/// centre) had neighbours, leaves the centre with exactly the other rooms as
/// neighbours, in order, and each other room with exactly the centre.
pub proof fn lemma_star_exact(m: Map<usize, RoomView>, center: usize, others: Seq<usize>)
    requires
        others.no_duplicates(),
        !others.contains(center),
        m.contains_key(center),
        m[center].neighbors.len() == 0,
        forall|i: int| 0 <= i < others.len() ==> m.contains_key(#[trigger] others[i])
            && m[others[i]].neighbors.len() == 0,
    ensures
        star(m, center, others).dom() == m.dom(),
        star(m, center, others)[center].neighbors == others,
        forall|i: int| 0 <= i < others.len() ==> #[trigger] star(m, center, others)[others[i]].neighbors
            == seq![center],
        forall|x: usize| #[trigger] m.contains_key(x) && x != center && !others.contains(x)
            ==> star(m, center, others)[x] == m[x],
    decreases others.len(),
{
    if others.len() == 0 {
        assert(m[center].neighbors =~= others);
    } else {
        let rest = others.drop_last();
        let x = others.last();
        let prev = star(m, center, rest);
        assert(rest.no_duplicates());
        assert(!rest.contains(center)) by {
            if rest.contains(center) {
                let k = choose|k: int| 0 <= k < rest.len() && rest[k] == center;
                assert(others[k] == center);
            }
        }
        assert forall|i: int| 0 <= i < rest.len() implies m.contains_key(#[trigger] rest[i])
            && m[rest[i]].neighbors.len() == 0 by {
            assert(rest[i] == others[i]);
        }
        lemma_star_exact(m, center, rest);
        assert(others[others.len() - 1] == x);
        assert(m.contains_key(x) && m[x].neighbors.len() == 0);
        assert(x != center);
        assert(!rest.contains(x)) by {
            if rest.contains(x) {
                let k = choose|k: int| 0 <= k < rest.len() && rest[k] == x;
                assert(others[k] == others[others.len() - 1]);
            }
        }
        assert(prev[x] == m[x]);
        assert(prev[center].neighbors == rest);
        let m1 = link(prev, center, x);
        let m2 = link(m1, x, center);
        assert(m1 == prev.insert(center, prev[center].with_neighbor(x)));
        assert(m1[center].neighbors =~= others);
        assert(m1[x] == m[x]);
        assert(!m[x].neighbors.contains(center));
        assert(m2 == m1.insert(x, m1[x].with_neighbor(center)));
        assert(m2[x].neighbors =~= seq![center]);
        lemma_connect_grows(prev, center, x);
        assert forall|i: int| 0 <= i < others.len() implies #[trigger] star(m, center, others)[others[i]].neighbors
            == seq![center] by {
            if i < rest.len() {
                assert(others[i] == rest[i]);
                assert(others[i] != x);
                assert(others[i] != center);
            }
        }
        assert forall|y: usize| #[trigger] m.contains_key(y) && y != center && !others.contains(y)
            implies star(m, center, others)[y] == m[y] by {
            if rest.contains(y) {
                let k = choose|k: int| 0 <= k < rest.len() && rest[k] == y;
                assert(others[k] == y);
            }
            assert(y != x);
        }
    }
}


/// The shares taken from the rooms of `order` by `p`, all told.
pub open spec fn total_taken(p: Seq<PendingMurmur>, order: Seq<usize>) -> nat
    decreases order.len(),
{
    if order.len() == 0 {
        0
    } else {
        total_taken(p, order.drop_last()) + taken_from(p, order.last())
    }
}

proof fn lemma_total_taken_push(p: Seq<PendingMurmur>, x: PendingMurmur, order: Seq<usize>)
    requires
        order.no_duplicates(),
    ensures
        total_taken(p.push(x), order) == total_taken(p, order)
            + if x.fate == Fate::Delivered && order.contains(x.source_id) { 1nat } else { 0nat },
    decreases order.len(),
{
    if order.len() > 0 {
        let rest = order.drop_last();
        assert(rest.no_duplicates());
        lemma_total_taken_push(p, x, rest);
        assert(p.push(x).drop_last() =~= p);
        if order.contains(x.source_id) {
            let k = choose|k: int| 0 <= k < order.len() && order[k] == x.source_id;
            if k < rest.len() {
                assert(rest[k] == x.source_id);
                assert(order.last() != x.source_id);
            }
        }
        if rest.contains(x.source_id) {
            let k = choose|k: int| 0 <= k < rest.len() && rest[k] == x.source_id;
            assert(order[k] == x.source_id);
        }
        if x.source_id == order.last() {
            assert(order[order.len() - 1] == x.source_id);
        }
    } else {
        assert(!order.contains(x.source_id));
    }
}

proof fn lemma_total_taken_empty(p: Seq<PendingMurmur>, order: Seq<usize>)
    requires
        p.len() == 0,
    ensures
        total_taken(p, order) == 0,
    decreases order.len(),
{
    if order.len() > 0 {
        lemma_total_taken_empty(p, order.drop_last());
    }
}

proof fn lemma_total_taken_counts(p: Seq<PendingMurmur>, order: Seq<usize>)
    requires
        order.no_duplicates(),
        forall|i: int| 0 <= i < p.len() && (#[trigger] p[i]).fate == Fate::Delivered
            ==> order.contains(p[i].source_id),
    ensures
        total_taken(p, order) == count_fate(p, Fate::Delivered),
    decreases p.len(),
{
    if p.len() == 0 {
        lemma_total_taken_empty(p, order);
    } else {
        let q = p.drop_last();
        let x = p.last();
        assert forall|i: int| 0 <= i < q.len() && (#[trigger] q[i]).fate == Fate::Delivered
            implies order.contains(q[i].source_id) by {
            assert(q[i] == p[i]);
        }
        lemma_total_taken_counts(q, order);
        assert(q.push(x) =~= p);
        lemma_total_taken_push(q, x, order);
        assert(p[p.len() - 1] == x);
    }
}

proof fn lemma_round_sources_in_order(
    m: Map<usize, RoomView>,
    quiet: Seq<usize>,
    max_hops: u32,
    order: Seq<usize>,
)
    ensures
        forall|i: int| 0 <= i < round_pending(m, quiet, max_hops, order).len()
            ==> order.contains((#[trigger] round_pending(m, quiet, max_hops, order)[i]).source_id),
    decreases order.len(),
{
    if order.len() > 0 {
        let rest = order.drop_last();
        let a = round_pending(m, quiet, max_hops, rest);
        let b = room_pending(m, quiet, max_hops, order.last());
        lemma_round_sources_in_order(m, quiet, max_hops, rest);
        let p = round_pending(m, quiet, max_hops, order);
        assert(p == a + b);
        assert forall|i: int| 0 <= i < p.len() implies order.contains((#[trigger] p[i]).source_id) by {
            if i < a.len() {
                assert(p[i] == a[i]);
                let k = choose|k: int| 0 <= k < rest.len() && rest[k] == a[i].source_id;
                assert(order[k] == rest[k]);
            } else {
                assert(p[i] == b[i - a.len()]);
                assert(order[order.len() - 1] == order.last());
            }
        }
    }
}

/// A round takes as many shares from senders as it gives to receivers:
/// over the rooms of the network, the shares taken (one per delivered
/// murmur, from its source) add up to the shares received (one per
/// delivered murmur, by its target), both being the number of delivered
/// murmurs; dropped and undeliverable murmurs move no share. This counts
/// shares only: that the vibe amounts are conserved rests on the caller
/// moving each delivered murmur's share, and nothing else, from its source
/// to its target.
pub proof fn lemma_round_conserves_shares(
    m: Map<usize, RoomView>,
    quiet: Seq<usize>,
    max_hops: u32,
    order: Seq<usize>,
)
    requires
        order.no_duplicates(),
        forall|id: usize| m.contains_key(id) ==> order.contains(id),
    ensures
        total_taken(round_pending(m, quiet, max_hops, order), order)
            == total_delivered(round_pending(m, quiet, max_hops, order), order),
        total_taken(round_pending(m, quiet, max_hops, order), order)
            == count_fate(round_pending(m, quiet, max_hops, order), Fate::Delivered),
{
    let p = round_pending(m, quiet, max_hops, order);
    lemma_round_credits_every_delivery(m, quiet, max_hops, order);
    lemma_round_sources_in_order(m, quiet, max_hops, order);
    assert forall|i: int| 0 <= i < p.len() && (#[trigger] p[i]).fate == Fate::Delivered
        implies order.contains(p[i].source_id) by {}
    lemma_total_taken_counts(p, order);
}

/// `a` rounds followed by `b` rounds with the same murmurs are `a + b`
/// rounds; in particular running rounds one at a time gives what running
/// them together gives.
pub proof fn lemma_rounds_compose(m: Map<usize, RoomView>, p: Seq<PendingMurmur>, a: nat, b: nat)
    ensures
        after_rounds(after_rounds(m, p, a), p, b) == after_rounds(m, p, a + b),
    decreases b,
{
    if b == 0 {
        assert(after_rounds(after_rounds(m, p, a), p, 0) =~= after_rounds(m, p, a));
    } else {
        lemma_rounds_compose(m, p, a, (b - 1) as nat);
        lemma_after_rounds_step(m, p, (a + b - 1) as nat);
        let x = after_rounds(m, p, a);
        lemma_after_rounds_step(x, p, (b - 1) as nat);
        lemma_after_rounds_step(m, p, a);
        // x has the same rooms and neighbours as m
        assert forall|id: usize| #[trigger] x.contains_key(id) implies
            after_rounds(x, p, b)[id] == after_rounds(m, p, a + b)[id] by {
            let d = delivered_to(p, id);
            let e = m[id].neighbors.len();
            assert(a * d + b * d == (a + b) * d) by (nonlinear_arith);
            assert(a * e + b * e == (a + b) * e) by (nonlinear_arith);
        }
        assert(after_rounds(x, p, b) =~= after_rounds(m, p, a + b));
    }
}

/// Adding a room keeps every neighbour list free of repeats.
pub proof fn lemma_add_room_keeps_lists_distinct(m: Map<usize, RoomView>, id: usize)
    requires
        neighbor_lists_distinct(m),
    ensures
        neighbor_lists_distinct(m.insert(id, RoomView::fresh())),
{
    assert(RoomView::fresh().neighbors.no_duplicates());
}

/// Building a star keeps every neighbour list free of repeats.
pub proof fn lemma_star_keeps_lists_distinct(m: Map<usize, RoomView>, center: usize, others: Seq<usize>)
    requires
        neighbor_lists_distinct(m),
    ensures
        neighbor_lists_distinct(star(m, center, others)),
    decreases others.len(),
{
    if others.len() > 0 {
        lemma_star_keeps_lists_distinct(m, center, others.drop_last());
        lemma_connect_keeps_lists_distinct(star(m, center, others.drop_last()), center, others.last());
    }
}

/// Building a ring keeps every neighbour list free of repeats.
pub proof fn lemma_ring_keeps_lists_distinct(m: Map<usize, RoomView>, ids: Seq<usize>, k: nat)
    requires
        neighbor_lists_distinct(m),
    ensures
        neighbor_lists_distinct(ring(m, ids, k)),
    decreases k,
{
    if k > 0 {
        lemma_ring_keeps_lists_distinct(m, ids, (k - 1) as nat);
        lemma_connect_keeps_lists_distinct(
            ring(m, ids, (k - 1) as nat),
            ids[k - 1],
            ids[(k as int) % (ids.len() as int)],
        );
    }
}

/// Rounds keep every neighbour list as it was.
pub proof fn lemma_rounds_keep_lists_distinct(m: Map<usize, RoomView>, p: Seq<PendingMurmur>, k: nat)
    requires
        neighbor_lists_distinct(m),
    ensures
        neighbor_lists_distinct(after_rounds(m, p, k)),
{
    lemma_after_rounds_step(m, p, k);
}


/// Running `k` rounds at once is running one round `k` times: the rooms end
/// as after `k` single rounds, and every one of those rounds sends the same
/// murmurs as the first.
pub proof fn lemma_rounds_at_once_are_rounds_one_by_one(
    m: Map<usize, RoomView>,
    quiet: Seq<usize>,
    max_hops: u32,
    order: Seq<usize>,
    k: nat,
)
    requires
        forall|i: int| 0 <= i < order.len() ==> m.contains_key(#[trigger] order[i]),
    ensures
        repeated_rounds(m, quiet, max_hops, order, k)
            == after_rounds(m, round_pending(m, quiet, max_hops, order), k),
        forall|j: nat| j <= k ==> #[trigger] round_pending(
            repeated_rounds(m, quiet, max_hops, order, j),
            quiet,
            max_hops,
            order,
        ) == round_pending(m, quiet, max_hops, order),
    decreases k,
{
    let p = round_pending(m, quiet, max_hops, order);
    if k == 0 {
        assert(after_rounds(m, p, 0) =~= m);
    } else {
        lemma_rounds_at_once_are_rounds_one_by_one(m, quiet, max_hops, order, (k - 1) as nat);
        let prev = repeated_rounds(m, quiet, max_hops, order, (k - 1) as nat);
        lemma_after_rounds_step(m, p, (k - 1) as nat);
        lemma_round_pending_topology(m, prev, quiet, max_hops, order);
        assert(round_pending(prev, quiet, max_hops, order) == p);
        let cur = repeated_rounds(m, quiet, max_hops, order, k);
        lemma_after_rounds_step(m, p, k);
        lemma_round_pending_topology(m, cur, quiet, max_hops, order);
        assert forall|j: nat| j <= k implies #[trigger] round_pending(
            repeated_rounds(m, quiet, max_hops, order, j),
            quiet,
            max_hops,
            order,
        ) == p by {
            if j == k {
                assert(round_pending(cur, quiet, max_hops, order) == p);
            }
        }
    }
}


/// `s` is `t` or `t` with more ids appended after it.
pub open spec fn extends(t: Seq<usize>, s: Seq<usize>) -> bool {
    t.len() <= s.len() && forall|i: int| 0 <= i < t.len() ==> #[trigger] s[i] == t[i]
}

/// The rooms of `m2` are those of `m1`, with the same counters, each room's
/// neighbour list in `m2` extending its list in `m1`.
pub open spec fn only_adds_links(m1: Map<usize, RoomView>, m2: Map<usize, RoomView>) -> bool {
    &&& m2.dom() == m1.dom()
    &&& forall|id: usize| #[trigger] m1.contains_key(id) ==> {
        &&& extends(m1[id].neighbors, m2[id].neighbors)
        &&& m2[id].murmurs_received == m1[id].murmurs_received
        &&& m2[id].murmurs_sent == m1[id].murmurs_sent
    }
}

proof fn lemma_only_adds_links_trans(m1: Map<usize, RoomView>, m2: Map<usize, RoomView>, m3: Map<usize, RoomView>)
    requires
        only_adds_links(m1, m2),
        only_adds_links(m2, m3),
    ensures
        only_adds_links(m1, m3),
{
    assert forall|id: usize| #[trigger] m1.contains_key(id) implies extends(m1[id].neighbors, m3[id].neighbors) by {
        assert(m2.contains_key(id));
        assert forall|i: int| 0 <= i < m1[id].neighbors.len() implies #[trigger] m3[id].neighbors[i]
            == m1[id].neighbors[i] by {
            assert(m3[id].neighbors[i] == m2[id].neighbors[i]);
        }
    }
}

proof fn lemma_link_exact(m: Map<usize, RoomView>, a: usize, b: usize)
    ensures
        only_adds_links(m, link(m, a, b)),
        forall|id: usize, x: usize| #[trigger] link(m, a, b)[id].neighbors.contains(x) && m.contains_key(id)
            ==> m[id].neighbors.contains(x) || (id == a && x == b),
        forall|id: usize, x: usize|
            #![trigger m[id].neighbors.contains(x)]
            #![trigger link(m, a, b)[id].neighbors.contains(x)]
            m.contains_key(id) && (m[id].neighbors.contains(x) || (id == a && x == b))
                ==> link(m, a, b)[id].neighbors.contains(x),
{
    let l = link(m, a, b);
    lemma_link_grows(m, a, b);
    if m.contains_key(a) && !m[a].neighbors.contains(b) {
        let s = m[a].neighbors;
        assert forall|x: usize| s.push(b).contains(x) implies s.contains(x) || x == b by {
            let k = choose|k: int| 0 <= k < s.push(b).len() && s.push(b)[k] == x;
            if k < s.len() {
                assert(s[k] == x);
            }
        }
    }
    assert(l.dom() =~= m.dom());
}

/// Connecting `a` and `b` only adds links: every room keeps its counters
/// and its neighbours in order, and afterwards a room lists `x` exactly when
/// it listed `x` before, or it is `a` and `x` is `b`, or it is `b` and `x`
/// is `a`. Whether the other end is a room does not matter.
pub proof fn lemma_connect_exact(m: Map<usize, RoomView>, a: usize, b: usize)
    ensures
        only_adds_links(m, connected(m, a, b)),
        forall|id: usize, x: usize| #![trigger connected(m, a, b)[id].neighbors.contains(x)]
            m.contains_key(id) ==> (connected(m, a, b)[id].neighbors.contains(x) <==> (
                m[id].neighbors.contains(x) || (id == a && x == b) || (id == b && x == a))),
{
    let m1 = link(m, a, b);
    lemma_link_exact(m, a, b);
    lemma_link_exact(m1, b, a);
    lemma_only_adds_links_trans(m, m1, link(m1, b, a));
    assert forall|id: usize, x: usize| #![trigger connected(m, a, b)[id].neighbors.contains(x)]
        m.contains_key(id) implies (connected(m, a, b)[id].neighbors.contains(x) <==> (
            m[id].neighbors.contains(x) || (id == a && x == b) || (id == b && x == a))) by {
        assert(m1.contains_key(id));
        if m[id].neighbors.contains(x) {
            assert(m1[id].neighbors.contains(x));
        }
        if id == a && x == b {
            assert(m1[id].neighbors.contains(x));
        }
        if connected(m, a, b)[id].neighbors.contains(x) {
            if !m1[id].neighbors.contains(x) {
                assert(id == b && x == a);
            }
        }
    }
}

/// A star only adds links: every room keeps its counters and its neighbours
/// in order (the centre's earlier neighbours included), and afterwards a
/// room lists `x` exactly when it listed `x` before, or it is the centre and
/// `x` is one of the other rooms, or `x` is the centre and it is one of the
/// other rooms.
pub proof fn lemma_star_exactly_adds(m: Map<usize, RoomView>, center: usize, others: Seq<usize>)
    ensures
        only_adds_links(m, star(m, center, others)),
        forall|id: usize, x: usize| #![trigger star(m, center, others)[id].neighbors.contains(x)]
            m.contains_key(id) ==> (star(m, center, others)[id].neighbors.contains(x) <==> (
                m[id].neighbors.contains(x)
                || (id == center && others.contains(x))
                || (x == center && others.contains(id)))),
    decreases others.len(),
{
    let st = star(m, center, others);
    if others.len() == 0 {
        assert(only_adds_links(m, st)) by {
            assert forall|id: usize| #[trigger] m.contains_key(id) implies extends(m[id].neighbors, st[id].neighbors) by {}
        }
    } else {
        let rest = others.drop_last();
        let o = others.last();
        let prev = star(m, center, rest);
        lemma_star_exactly_adds(m, center, rest);
        lemma_connect_exact(prev, center, o);
        lemma_only_adds_links_trans(m, prev, st);
        assert forall|y: usize| others.contains(y) <==> (rest.contains(y) || y == o) by {
            if others.contains(y) {
                let k = choose|k: int| 0 <= k < others.len() && others[k] == y;
                if k < rest.len() {
                    assert(rest[k] == y);
                }
            }
            if rest.contains(y) {
                let k = choose|k: int| 0 <= k < rest.len() && rest[k] == y;
                assert(others[k] == y);
            }
            if y == o {
                assert(others[others.len() - 1] == y);
            }
        }
        assert forall|id: usize, x: usize| #![trigger st[id].neighbors.contains(x)]
            m.contains_key(id) implies (st[id].neighbors.contains(x) <==> (
                m[id].neighbors.contains(x)
                || (id == center && others.contains(x))
                || (x == center && others.contains(id)))) by {
            assert(prev.contains_key(id));
            assert(prev[id].neighbors.contains(x) <==> (
                m[id].neighbors.contains(x)
                || (id == center && rest.contains(x))
                || (x == center && rest.contains(id))));
            assert(st[id].neighbors.contains(x) <==> (prev[id].neighbors.contains(x)
                || (id == center && x == o) || (id == o && x == center)));
        }
    }
}

/// Link `i` of a ring through `ids` joins `id` and `x`: they are `ids[i]`
/// and the id after it (the first id after the last), in either order.
pub open spec fn ring_link(ids: Seq<usize>, i: int, id: usize, x: usize) -> bool {
    let next = ids[(i + 1) % (ids.len() as int)];
    (ids[i] == id && next == x) || (next == id && ids[i] == x)
}

proof fn lemma_ring_prefix_exactly_adds(m: Map<usize, RoomView>, ids: Seq<usize>, k: nat)
    requires
        k <= ids.len(),
    ensures
        only_adds_links(m, ring(m, ids, k)),
        forall|id: usize, x: usize| #![trigger ring(m, ids, k)[id].neighbors.contains(x)]
            m.contains_key(id) ==> (ring(m, ids, k)[id].neighbors.contains(x) <==> (
                m[id].neighbors.contains(x)
                || exists|i: int| 0 <= i < k && #[trigger] ring_link(ids, i, id, x))),
    decreases k,
{
    let r = ring(m, ids, k);
    if k == 0 {
        assert forall|id: usize| #[trigger] m.contains_key(id) implies extends(m[id].neighbors, r[id].neighbors) by {}
    } else {
        let n = ids.len() as int;
        let kk = k - 1;
        let prev = ring(m, ids, (k - 1) as nat);
        let a = ids[kk];
        let b = ids[(k as int) % n];
        lemma_ring_prefix_exactly_adds(m, ids, (k - 1) as nat);
        lemma_connect_exact(prev, a, b);
        lemma_only_adds_links_trans(m, prev, r);
        assert forall|id: usize, x: usize| #![trigger r[id].neighbors.contains(x)]
            m.contains_key(id) implies (r[id].neighbors.contains(x) <==> (
                m[id].neighbors.contains(x)
                || exists|i: int| 0 <= i < k && #[trigger] ring_link(ids, i, id, x))) by {
            assert(prev.contains_key(id));
            assert((kk + 1) % n == (k as int) % n);
            assert(ring_link(ids, kk, id, x) <==> ((id == a && x == b) || (id == b && x == a)));
            if exists|i: int| 0 <= i < k && #[trigger] ring_link(ids, i, id, x) {
                let i = choose|i: int| 0 <= i < k && #[trigger] ring_link(ids, i, id, x);
                if i < kk {
                    assert(exists|j: int| 0 <= j < kk && #[trigger] ring_link(ids, j, id, x));
                }
            }
            if exists|i: int| 0 <= i < kk && #[trigger] ring_link(ids, i, id, x) {
                let i = choose|i: int| 0 <= i < kk && #[trigger] ring_link(ids, i, id, x);
                assert(0 <= i < k && ring_link(ids, i, id, x));
            }
            if (id == a && x == b) || (id == b && x == a) {
                assert(ring_link(ids, kk, id, x));
            }
        }
    }
}

/// A ring only adds links: every room keeps its counters and its neighbours
/// in order, and afterwards a room lists `x` exactly when it listed `x`
/// before or some link of the ring joins it to `x` (each id to the next,
/// the last to the first), whether or not the other end is a room.
pub proof fn lemma_ring_exactly_adds(m: Map<usize, RoomView>, ids: Seq<usize>)
    ensures
        only_adds_links(m, ring(m, ids, ids.len())),
        forall|id: usize, x: usize| #![trigger ring(m, ids, ids.len())[id].neighbors.contains(x)]
            m.contains_key(id) ==> (ring(m, ids, ids.len())[id].neighbors.contains(x) <==> (
                m[id].neighbors.contains(x)
                || exists|i: int| 0 <= i < ids.len() && #[trigger] ring_link(ids, i, id, x))),
{
    lemma_ring_prefix_exactly_adds(m, ids, ids.len());
}

} // verus!

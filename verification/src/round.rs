use vstd::prelude::*;
use crate::room::RoomView;

verus! {

/// What becomes of a murmur in a round.
#[derive(Clone, Copy, Debug, PartialEq, Eq, Structural)]
pub enum Fate {
    /// It travelled its one hop and reached its target room: the share it
    /// carries moves from its source to its target.
    Delivered,
    /// It died before travelling: its sender's confidence was below the
    /// forwarding threshold, or the hop limit allows no hop at all.
    Dropped,
    /// Its target is not a room of the network: nobody receives it.
    Undeliverable,
}

/// A murmur sent in a round: one share of its source's vibe, addressed to
/// one of the source's neighbours.
#[derive(Clone, Copy, Debug, PartialEq, Eq, Structural)]
pub struct PendingMurmur {
    pub source_id: usize,
    pub target_id: usize,
    pub fate: Fate,
}

/// The account of one round of propagation.
#[derive(Clone, Debug)]
pub struct MurmurRound {
    /// The round's number: 1 for the first round of a network.
    pub tick: u64,
    /// How many murmurs reached their target.
    pub murmurs_delivered: usize,
    /// How many murmurs died before travelling (low confidence or hop limit).
    pub murmurs_dropped: usize,
    /// The most hops a delivered murmur travelled: 1, or 0 when none was
    /// delivered. Never more than the round's hop limit.
    pub max_hop: u32,
    /// Every murmur of the round, source by source in ascending order of id,
    /// each source's murmurs in the order of its neighbours.
    pub pending: Vec<PendingMurmur>,
}

/// The fate of a murmur from `source` to `target`, where `quiet` lists the
/// rooms whose confidence falls below the forwarding threshold and
/// `max_hops` is the most hops a murmur may travel. A murmur travels one hop,
/// from its source to a neighbour.
pub open spec fn fate_of(
    m: Map<usize, RoomView>,
    quiet: Seq<usize>,
    max_hops: u32,
    source: usize,
    target: usize,
) -> Fate {
    if quiet.contains(source) || max_hops < 1 {
        Fate::Dropped
    } else if m.contains_key(target) {
        Fate::Delivered
    } else {
        Fate::Undeliverable
    }
}

/// The rooms after `k` rounds run one at a time, as `propagate` runs them,
/// with the same quiet rooms and hop limit and the rooms sending in
/// `order`: each round's murmurs are those of the rooms as they stand when
/// it starts.
pub open spec fn repeated_rounds(
    m: Map<usize, RoomView>,
    quiet: Seq<usize>,
    max_hops: u32,
    order: Seq<usize>,
    k: nat,
) -> Map<usize, RoomView>
    decreases k,
{
    if k == 0 {
        m
    } else {
        let prev = repeated_rounds(m, quiet, max_hops, order, (k - 1) as nat);
        after_rounds(prev, round_pending(prev, quiet, max_hops, order), 1)
    }
}

impl PendingMurmur {
    /// Whether this murmur moves a share of vibe from its source to its
    /// target. Only a delivered murmur does: one that is dropped or that
    /// nobody receives takes nothing from its source, so that a round never
    /// creates or loses vibe.
    pub fn moves_share(&self) -> (moves: bool)
        ensures
            moves == (self.fate == Fate::Delivered),
    {
        match self.fate {
            Fate::Delivered => true,
            _ => false,
        }
    }
}

/// The murmurs that room `source` sends in a round: one to each neighbour.
pub open spec fn room_pending(
    m: Map<usize, RoomView>,
    quiet: Seq<usize>,
    max_hops: u32,
    source: usize,
) -> Seq<PendingMurmur> {
    m[source].neighbors.map_values(
        |t: usize| PendingMurmur { source_id: source, target_id: t, fate: fate_of(m, quiet, max_hops, source, t) },
    )
}

/// The murmurs of a round in which the rooms of `order` send, in that order.
pub open spec fn round_pending(
    m: Map<usize, RoomView>,
    quiet: Seq<usize>,
    max_hops: u32,
    order: Seq<usize>,
) -> Seq<PendingMurmur>
    decreases order.len(),
{
    if order.len() == 0 {
        Seq::empty()
    } else {
        round_pending(m, quiet, max_hops, order.drop_last()) + room_pending(m, quiet, max_hops, order.last())
    }
}

/// How many murmurs of `p` have the fate `f`.
pub open spec fn count_fate(p: Seq<PendingMurmur>, f: Fate) -> nat
    decreases p.len(),
{
    if p.len() == 0 {
        0
    } else {
        count_fate(p.drop_last(), f) + if p.last().fate == f { 1nat } else { 0nat }
    }
}

/// How many murmurs of `p` are delivered to room `id`.
pub open spec fn delivered_to(p: Seq<PendingMurmur>, id: usize) -> nat
    decreases p.len(),
{
    if p.len() == 0 {
        0
    } else {
        delivered_to(p.drop_last(), id) + if p.last().fate == Fate::Delivered && p.last().target_id == id {
            1nat
        } else {
            0nat
        }
    }
}

/// How many murmurs of `p` take a share from room `id`: those it sends that
/// are delivered.
pub open spec fn taken_from(p: Seq<PendingMurmur>, id: usize) -> nat
    decreases p.len(),
{
    if p.len() == 0 {
        0
    } else {
        taken_from(p.drop_last(), id) + if p.last().fate == Fate::Delivered && p.last().source_id == id {
            1nat
        } else {
            0nat
        }
    }
}

/// How many murmurs of `p` are sent by room `id`.
pub open spec fn sent_by(p: Seq<PendingMurmur>, id: usize) -> nat
    decreases p.len(),
{
    if p.len() == 0 {
        0
    } else {
        sent_by(p.drop_last(), id) + if p.last().source_id == id { 1nat } else { 0nat }
    }
}

/// The rooms after `k` rounds whose murmurs are `p`: the same rooms and
/// neighbours, each room having sent one murmur per neighbour each round
/// and received its deliveries of `p` each round.
pub open spec fn after_rounds(m: Map<usize, RoomView>, p: Seq<PendingMurmur>, k: nat) -> Map<usize, RoomView> {
    Map::new(
        |id: usize| m.contains_key(id),
        |id: usize|
            RoomView {
                neighbors: m[id].neighbors,
                murmurs_received: m[id].murmurs_received + k * delivered_to(p, id),
                murmurs_sent: m[id].murmurs_sent + k * m[id].neighbors.len(),
            },
    )
}

/// Counting the murmurs of a prefix never gives more than counting all.
pub proof fn lemma_delivered_to_prefix(p: Seq<PendingMurmur>, k: int, id: usize)
    requires
        0 <= k <= p.len(),
    ensures
        delivered_to(p.take(k), id) <= delivered_to(p, id),
    decreases p.len(),
{
    if k < p.len() {
        assert(p.drop_last().take(k) =~= p.take(k));
        lemma_delivered_to_prefix(p.drop_last(), k, id);
    } else {
        assert(p.take(k) =~= p);
    }
}


/// The murmurs of a round depend only on which rooms there are and on
/// their neighbours, not on their counters.
pub proof fn lemma_round_pending_topology(
    m1: Map<usize, RoomView>,
    m2: Map<usize, RoomView>,
    quiet: Seq<usize>,
    max_hops: u32,
    order: Seq<usize>,
)
    requires
        m1.dom() == m2.dom(),
        forall|id: usize| #[trigger] m1.contains_key(id) ==> m1[id].neighbors == m2[id].neighbors,
        forall|i: int| 0 <= i < order.len() ==> m1.contains_key(#[trigger] order[i]),
    ensures
        round_pending(m1, quiet, max_hops, order) == round_pending(m2, quiet, max_hops, order),
    decreases order.len(),
{
    if order.len() > 0 {
        let s = order.last();
        assert(m1.contains_key(order[order.len() - 1]));
        lemma_round_pending_topology(m1, m2, quiet, max_hops, order.drop_last());
        assert(room_pending(m1, quiet, max_hops, s) =~= room_pending(m2, quiet, max_hops, s));
    }
}

/// One more round after `k` rounds with the same murmurs is `k + 1` rounds.
pub proof fn lemma_after_rounds_step(m: Map<usize, RoomView>, p: Seq<PendingMurmur>, k: nat)
    ensures
        after_rounds(after_rounds(m, p, k), p, 1) == after_rounds(m, p, k + 1),
        after_rounds(m, p, k).dom() == m.dom(),
        forall|id: usize| #[trigger] m.contains_key(id)
            ==> after_rounds(m, p, k)[id].neighbors == m[id].neighbors,
{
    let a = after_rounds(m, p, k);
    let b = after_rounds(a, p, 1);
    let c = after_rounds(m, p, k + 1);
    assert(a.dom() =~= m.dom());
    assert(b.dom() =~= c.dom());
    assert forall|id: usize| #[trigger] b.contains_key(id) implies b[id] == c[id] by {
        let d = delivered_to(p, id);
        let e = m[id].neighbors.len();
        assert(k * d + 1 * d == (k + 1) * d) by (nonlinear_arith);
        assert(k * e + 1 * e == (k + 1) * e) by (nonlinear_arith);
    }
    assert(b =~= c);
}

/// Zero rounds change nothing.
pub proof fn lemma_after_zero_rounds(m: Map<usize, RoomView>, p: Seq<PendingMurmur>)
    ensures
        after_rounds(m, p, 0) == m,
{
    assert(after_rounds(m, p, 0) =~= m);
}

} // verus!

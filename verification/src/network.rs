use vstd::prelude::*;
use crate::room::{MurmurRoom, RoomView, contains_id};
use crate::laws::{
    lemma_rounds_at_once_are_rounds_one_by_one, lemma_connect_exact, lemma_star_exactly_adds,
    lemma_ring_exactly_adds, only_adds_links, ring_link,
};
use crate::round::{
    Fate, PendingMurmur, MurmurRound, room_pending, round_pending, count_fate,
    delivered_to, after_rounds, lemma_delivered_to_prefix, repeated_rounds,
    lemma_round_pending_topology, lemma_after_rounds_step, lemma_after_zero_rounds,
};

verus! {

/// The network: its rooms, kept in ascending order of id, and the number of
/// rounds run so far.
pub struct MurmurNetwork {
    rooms: Vec<MurmurRoom>,
    tick: u64,
    model: Ghost<Map<usize, RoomView>>,
}

/// The rooms after `b` is made a neighbour of `a` (when `a` is a room and
/// `b` is not yet among its neighbours).
pub open spec fn link(m: Map<usize, RoomView>, a: usize, b: usize) -> Map<usize, RoomView> {
    if m.contains_key(a) {
        m.insert(a, m[a].with_neighbor(b))
    } else {
        m
    }
}

/// The rooms after `a` and `b` are connected, each to the other.
pub open spec fn connected(m: Map<usize, RoomView>, a: usize, b: usize) -> Map<usize, RoomView> {
    link(link(m, a, b), b, a)
}

/// The rooms after `center` is connected to each of `others` in turn.
pub open spec fn star(m: Map<usize, RoomView>, center: usize, others: Seq<usize>) -> Map<usize, RoomView>
    decreases others.len(),
{
    if others.len() == 0 {
        m
    } else {
        connected(star(m, center, others.drop_last()), center, others.last())
    }
}

/// The rooms after the first `k` links of the ring through `ids` are made:
/// link `i` connects `ids[i]` to the id after it, the last id to the first.
pub open spec fn ring(m: Map<usize, RoomView>, ids: Seq<usize>, k: nat) -> Map<usize, RoomView>
    decreases k,
{
    if k == 0 {
        m
    } else {
        let i = k - 1;
        connected(ring(m, ids, (k - 1) as nat), ids[i], ids[(k as int) % (ids.len() as int)])
    }
}

/// The rooms of `rs`, each under its id (a later room replacing an earlier
/// one with the same id).
pub open spec fn rooms_map(rs: Seq<MurmurRoom>) -> Map<usize, RoomView>
    decreases rs.len(),
{
    if rs.len() == 0 {
        Map::empty()
    } else {
        rooms_map(rs.drop_last()).insert(rs.last().id, rs.last()@)
    }
}

/// No room lists a neighbour twice.
pub open spec fn neighbor_lists_distinct(m: Map<usize, RoomView>) -> bool {
    forall|id: usize| #[trigger] m.contains_key(id) ==> m[id].neighbors.no_duplicates()
}

/// `s` is in strictly ascending order.
pub open spec fn strictly_ascending(s: Seq<usize>) -> bool {
    forall|i: int, j: int| 0 <= i < j < s.len() ==> s[i] < s[j]
}

impl View for MurmurNetwork {
    type V = Map<usize, RoomView>;

    closed spec fn view(&self) -> Map<usize, RoomView> {
        self.model@
    }
}

impl MurmurNetwork {
    /// The ids of the rooms, in ascending order.
    pub closed spec fn ids(&self) -> Seq<usize> {
        self.rooms@.map_values(|r: MurmurRoom| r.id)
    }

    /// The number of rounds run so far.
    pub closed spec fn rounds(&self) -> nat {
        self.tick as nat
    }

    /// The network is well formed: its rooms are kept sorted by id, and
    /// every room is in the map under its id and nowhere else.
    pub closed spec fn wf(&self) -> bool {
        &&& forall|i: int, j: int|
            0 <= i < j < self.rooms@.len() ==> self.rooms@[i].id < self.rooms@[j].id
        &&& forall|i: int|
            0 <= i < self.rooms@.len() ==> #[trigger] self.model@.contains_key(self.rooms@[i].id)
                && self.model@[self.rooms@[i].id] == self.rooms@[i]@
        &&& forall|id: usize| #[trigger]
            self.model@.contains_key(id) ==> exists|i: int|
                0 <= i < self.rooms@.len() && #[trigger] self.rooms@[i].id == id
    }

    /// What every well-formed network satisfies.
    pub proof fn lemma_wf(&self)
        requires
            self.wf(),
        ensures
            strictly_ascending(self.ids()),
            forall|id: usize| self@.contains_key(id) <==> self.ids().contains(id),
            self@.dom().finite(),
            self@.dom().len() == self.ids().len(),
    {
        let ids = self.ids();
        assert forall|id: usize| self@.contains_key(id) <==> ids.contains(id) by {
            if self@.contains_key(id) {
                let i = choose|i: int| 0 <= i < self.rooms@.len() && #[trigger] self.rooms@[i].id == id;
                assert(ids[i] == id);
            }
            if ids.contains(id) {
                let i = choose|i: int| 0 <= i < ids.len() && ids[i] == id;
                assert(self.rooms@[i].id == id);
            }
        }
        assert(ids.no_duplicates());
        assert(self@.dom() =~= ids.to_set());
        ids.unique_seq_to_set();
    }

    /// An empty network at round zero.
    pub fn new() -> (net: MurmurNetwork)
        ensures
            net.wf(),
            net@ == Map::<usize, RoomView>::empty(),
            net.rounds() == 0,
    {
        MurmurNetwork { rooms: Vec::new(), tick: 0, model: Ghost(Map::empty()) }
    }

    /// The position of the room with the given id, if there is one.
    fn find(&self, id: usize) -> (pos: Option<usize>)
        requires
            self.wf(),
        ensures
            match pos {
                Some(i) => i < self.rooms@.len() && self.rooms@[i as int].id == id
                    && self@.contains_key(id),
                None => !self@.contains_key(id),
            },
    {
        let pos = position(&self.rooms, id);
        proof {
            if pos is None && self@.contains_key(id) {
                let k = choose|k: int| 0 <= k < self.rooms@.len() && #[trigger] self.rooms@[k].id == id;
                assert(self.rooms@[k].id != id);
            }
            if let Some(i) = pos {
                assert(self.model@.contains_key(self.rooms@[i as int].id));
            }
        }
        pos
    }
}


impl MurmurNetwork {
    /// Adds a room with the given id, with no neighbours and no murmurs.
    /// A room already under that id is replaced.
    pub fn add_room(&mut self, id: usize)
        requires
            old(self).wf(),
        ensures
            final(self).wf(),
            final(self)@ == old(self)@.insert(id, RoomView::fresh()),
            final(self).rounds() == old(self).rounds(),
    {
        self.put_room(MurmurRoom::fresh(id));
    }

    /// Puts `room` in its place by id, replacing a room with the same id.
    fn put_room(&mut self, room: MurmurRoom)
        requires
            old(self).wf(),
        ensures
            final(self).wf(),
            final(self)@ == old(self)@.insert(room.id, room@),
            final(self).rounds() == old(self).rounds(),
    {
        let id = room.id;
        let len = self.rooms.len();
        let mut p: usize = 0;
        while p < len && self.rooms[p].id < id
            invariant
                p <= len,
                len == self.rooms@.len(),
                forall|k: int| 0 <= k < p ==> self.rooms@[k].id < id,
            decreases len - p,
        {
            p = p + 1;
        }
        let ghost old_rooms = self.rooms@;
        let ghost old_model = self.model@;
        let ghost new_model = old_model.insert(id, room@);
        if p < len && self.rooms[p].id == id {
            self.rooms.set(p, room);
            self.model = Ghost(new_model);
            proof {
                assert forall|i: int| 0 <= i < self.rooms@.len() implies #[trigger] self.rooms@[i].id
                    == old_rooms[i].id by {}
                assert forall|i: int, j: int| 0 <= i < j < self.rooms@.len() implies
                    self.rooms@[i].id < self.rooms@[j].id by {
                    assert(self.rooms@[i].id == old_rooms[i].id);
                    assert(self.rooms@[j].id == old_rooms[j].id);
                }
                assert forall|i: int| 0 <= i < self.rooms@.len() implies
                    #[trigger] self.model@.contains_key(self.rooms@[i].id)
                    && self.model@[self.rooms@[i].id] == self.rooms@[i]@ by {
                    if i != p {
                        assert(old_rooms[i].id != id);
                        assert(old_model.contains_key(old_rooms[i].id));
                    }
                }
                assert forall|x: usize| #[trigger] self.model@.contains_key(x) implies exists|i: int|
                    0 <= i < self.rooms@.len() && #[trigger] self.rooms@[i].id == x by {
                    if x == id {
                        assert(self.rooms@[p as int].id == x);
                    } else {
                        let i = choose|i: int| 0 <= i < old_rooms.len() && #[trigger] old_rooms[i].id == x;
                        assert(self.rooms@[i].id == x);
                    }
                }
            }
        } else {
            proof {
                if p < len {
                    assert forall|k: int| p <= k < len implies old_rooms[k].id > id by {
                        if k > p {
                            assert(old_rooms[p as int].id < old_rooms[k].id);
                        }
                    }
                }
            }
            self.rooms.insert(p, room);
            self.model = Ghost(new_model);
            proof {
                old_rooms.insert_ensures(p as int, room);
                let nr = self.rooms@;
                assert(nr.len() == old_rooms.len() + 1);
                assert forall|i: int, j: int| 0 <= i < j < nr.len() implies nr[i].id < nr[j].id by {
                    if j < p {
                    } else if j == p {
                    } else if i < p {
                        assert(nr[j] == old_rooms[j - 1]);
                    } else if i == p {
                        assert(nr[j] == old_rooms[j - 1]);
                    } else {
                        assert(nr[i] == old_rooms[i - 1]);
                        assert(nr[j] == old_rooms[j - 1]);
                    }
                }
                assert forall|i: int| 0 <= i < nr.len() implies
                    #[trigger] self.model@.contains_key(nr[i].id)
                    && self.model@[nr[i].id] == nr[i]@ by {
                    if i < p {
                        assert(nr[i] == old_rooms[i]);
                        assert(old_model.contains_key(old_rooms[i].id));
                    } else if i > p {
                        assert(nr[i] == old_rooms[i - 1]);
                        assert(old_model.contains_key(old_rooms[i - 1].id));
                    } else {
                        assert(nr[i] == room);
                    }
                }
                assert forall|x: usize| #[trigger] self.model@.contains_key(x) implies exists|i: int|
                    0 <= i < nr.len() && #[trigger] nr[i].id == x by {
                    if x == id {
                        assert(nr[p as int].id == x);
                    } else {
                        let i = choose|i: int| 0 <= i < old_rooms.len() && #[trigger] old_rooms[i].id == x;
                        if i < p {
                            assert(nr[i].id == x);
                        } else {
                            assert(nr[i + 1].id == x);
                        }
                    }
                }
            }
        }
    }

    /// Makes `b` a neighbour of `a`, when `a` is a room and `b` is not yet
    /// among its neighbours.
    fn add_neighbor(&mut self, a: usize, b: usize)
        requires
            old(self).wf(),
        ensures
            final(self).wf(),
            final(self)@ == link(old(self)@, a, b),
            final(self).ids() == old(self).ids(),
            final(self).rounds() == old(self).rounds(),
    {
        match self.find(a) {
            None => {},
            Some(i) => {
                if !self.rooms[i].has_neighbor(b) {
                    let ghost old_rooms = self.rooms@;
                    let ghost old_model = self.model@;
                    self.rooms[i].neighbors.push(b);
                    self.model = Ghost(old_model.insert(a, old_model[a].with_neighbor(b)));
                    proof {
                        let nr = self.rooms@;
                        assert forall|k: int| 0 <= k < nr.len() implies nr[k].id == old_rooms[k].id
                            && (k != i ==> nr[k] == old_rooms[k]) by {}
                        assert(self.ids() =~= old_rooms.map_values(|r: MurmurRoom| r.id));
                        assert forall|k: int| 0 <= k < nr.len() implies
                            #[trigger] self.model@.contains_key(nr[k].id)
                            && self.model@[nr[k].id] == nr[k]@ by {
                            if k != i {
                                assert(old_rooms[k].id != a);
                                assert(old_model.contains_key(old_rooms[k].id));
                            } else {
                                assert(old_model[a] == old_rooms[k]@);
                                assert(nr[k].neighbors@ == old_rooms[k].neighbors@.push(b));
                                assert(nr[k]@ =~= old_model[a].with_neighbor(b));
                            }
                        }
                        assert forall|x: usize| #[trigger] self.model@.contains_key(x) implies exists|k: int|
                            0 <= k < nr.len() && #[trigger] nr[k].id == x by {
                            let k = choose|k: int| 0 <= k < old_rooms.len() && #[trigger] old_rooms[k].id == x;
                            assert(nr[k].id == x);
                        }
                    }
                }
            },
        }
    }

    /// Connects rooms `a` and `b`: each that exists gets the other as a
    /// neighbour, if it does not have it already. An absent room is not
    /// created, but a present one still gets it as a neighbour.
    pub fn connect(&mut self, a: usize, b: usize)
        requires
            old(self).wf(),
        ensures
            final(self).wf(),
            final(self)@ == connected(old(self)@, a, b),
            only_adds_links(old(self)@, final(self)@),
            forall|id: usize, x: usize| #![trigger final(self)@[id].neighbors.contains(x)]
                old(self)@.contains_key(id) ==> (final(self)@[id].neighbors.contains(x) <==> (
                    old(self)@[id].neighbors.contains(x) || (id == a && x == b) || (id == b && x == a))),
            final(self).ids() == old(self).ids(),
            final(self).rounds() == old(self).rounds(),
    {
        self.add_neighbor(a, b);
        self.add_neighbor(b, a);
        proof {
            lemma_connect_exact(old(self)@, a, b);
        }
    }
}


impl MurmurNetwork {
    /// Builds a star: connects `center` to each of `others`, in order.
    pub fn build_star(&mut self, center: usize, others: &[usize])
        requires
            old(self).wf(),
        ensures
            final(self).wf(),
            final(self)@ == star(old(self)@, center, others@),
            only_adds_links(old(self)@, final(self)@),
            forall|id: usize, x: usize| #![trigger final(self)@[id].neighbors.contains(x)]
                old(self)@.contains_key(id) ==> (final(self)@[id].neighbors.contains(x) <==> (
                    old(self)@[id].neighbors.contains(x)
                    || (id == center && others@.contains(x))
                    || (x == center && others@.contains(id)))),
            final(self).ids() == old(self).ids(),
            final(self).rounds() == old(self).rounds(),
    {
        let ghost start = self@;
        let n = others.len();
        for i in 0..n
            invariant
                n == others@.len(),
                self.wf(),
                self@ == star(start, center, others@.take(i as int)),
                self.ids() == old(self).ids(),
                self.rounds() == old(self).rounds(),
        {
            self.connect(center, others[i]);
            assert(others@.take(i + 1).drop_last() =~= others@.take(i as int));
        }
        assert(others@.take(n as int) =~= others@);
        proof {
            lemma_star_exactly_adds(start, center, others@);
        }
    }

    /// Builds a ring: connects each id of `ids` to the next, and the last to
    /// the first.
    pub fn build_ring(&mut self, ids: &[usize])
        requires
            old(self).wf(),
        ensures
            final(self).wf(),
            final(self)@ == ring(old(self)@, ids@, ids@.len()),
            only_adds_links(old(self)@, final(self)@),
            forall|id: usize, x: usize| #![trigger final(self)@[id].neighbors.contains(x)]
                old(self)@.contains_key(id) ==> (final(self)@[id].neighbors.contains(x) <==> (
                    old(self)@[id].neighbors.contains(x)
                    || exists|i: int| 0 <= i < ids@.len() && #[trigger] ring_link(ids@, i, id, x))),
            final(self).ids() == old(self).ids(),
            final(self).rounds() == old(self).rounds(),
    {
        let ghost start = self@;
        let n = ids.len();
        for i in 0..n
            invariant
                n == ids@.len(),
                self.wf(),
                self@ == ring(start, ids@, i as nat),
                self.ids() == old(self).ids(),
                self.rounds() == old(self).rounds(),
        {
            let next = (i + 1) % n;
            self.connect(ids[i], ids[next]);
        }
        proof {
            lemma_ring_exactly_adds(start, ids@);
        }
    }

    /// The number of rooms.
    pub fn room_count(&self) -> (count: usize)
        requires
            self.wf(),
        ensures
            count == self@.dom().len(),
    {
        proof {
            self.lemma_wf();
        }
        self.rooms.len()
    }

    /// The ids of all rooms, in ascending order.
    pub fn room_ids(&self) -> (ids: Vec<usize>)
        requires
            self.wf(),
        ensures
            ids@ == self.ids(),
            strictly_ascending(ids@),
            forall|id: usize| #[trigger] ids@.contains(id) <==> self@.contains_key(id),
    {
        proof {
            self.lemma_wf();
        }
        let mut out: Vec<usize> = Vec::new();
        let n = self.rooms.len();
        for i in 0..n
            invariant
                n == self.rooms@.len(),
                out@ =~= self.ids().take(i as int),
        {
            out.push(self.rooms[i].id);
        }
        assert(self.ids().take(n as int) =~= self.ids());
        out
    }

    /// The room with the given id, if there is one.
    pub fn room(&self, id: usize) -> (found: Option<&MurmurRoom>)
        requires
            self.wf(),
        ensures
            match found {
                Some(r) => self@.contains_key(id) && r.id == id && r@ == self@[id],
                None => !self@.contains_key(id),
            },
    {
        match self.find(id) {
            Some(i) => Some(&self.rooms[i]),
            None => None,
        }
    }
}



impl MurmurNetwork {
    /// The murmurs of the next round, with how many of them are delivered
    /// and how many dropped.
    fn plan(&self, quiet: &Vec<usize>, max_hops: u32) -> (r: (Vec<PendingMurmur>, usize, usize))
        requires
            self.wf(),
        ensures
            r.0@ == round_pending(self@, quiet@, max_hops, self.ids()),
            r.1 == count_fate(r.0@, Fate::Delivered),
            r.2 == count_fate(r.0@, Fate::Dropped),
            max_hops < 1 ==> r.1 == 0,
    {
        let ghost m = self@;
        let ghost order = self.ids();
        proof {
            self.lemma_wf();
        }
        let n = self.rooms.len();
        let mut pending: Vec<PendingMurmur> = Vec::new();
        let mut delivered: usize = 0;
        let mut dropped: usize = 0;
        for i in 0..n
            invariant
                n == self.rooms@.len(),
                self.wf(),
                self@ == m,
                self.ids() == order,
                order.len() == n,
                pending@ == round_pending(m, quiet@, max_hops, order.take(i as int)),
                delivered == count_fate(pending@, Fate::Delivered),
                dropped == count_fate(pending@, Fate::Dropped),
                delivered + dropped <= pending@.len(),
                max_hops < 1 ==> delivered == 0,
        {
            let s = self.rooms[i].id;
            let muted = contains_id(quiet, s) || max_hops < 1;
            let deg = self.rooms[i].neighbors.len();
            let ghost before = pending@;
            assert(self.model@.contains_key(self.rooms@[i as int].id));
            assert(m.contains_key(s) && m[s] == self.rooms@[i as int]@);
            for j in 0..deg
                invariant
                    n == self.rooms@.len(),
                    i < n,
                    self.wf(),
                    self@ == m,
                    s == self.rooms@[i as int].id,
                    m[s].neighbors == self.rooms@[i as int].neighbors@,
                    deg == m[s].neighbors.len(),
                    muted == (quiet@.contains(s) || max_hops < 1),
                        pending@ == before + room_pending(m, quiet@, max_hops, s).take(j as int),
                    delivered == count_fate(pending@, Fate::Delivered),
                    dropped == count_fate(pending@, Fate::Dropped),
                    delivered + dropped <= pending@.len(),
                    max_hops < 1 ==> delivered == 0,
            {
                let t = self.rooms[i].neighbors[j];
                let fate = if muted {
                    Fate::Dropped
                } else if self.find(t).is_some() {
                    Fate::Delivered
                } else {
                    Fate::Undeliverable
                };
                let ghost prev = pending@;
                let pm = PendingMurmur { source_id: s, target_id: t, fate };
                assert(pm == room_pending(m, quiet@, max_hops, s)[j as int]);
                pending.push(pm);
                assert(pending@.len() == pending.len());
                assert(pending@.drop_last() =~= prev);
                assert(room_pending(m, quiet@, max_hops, s).take(j + 1) =~= room_pending(m, quiet@, max_hops, s).take(
                    j as int,
                ).push(pm));
                match fate {
                    Fate::Delivered => {
                        delivered = delivered + 1;
                    },
                    Fate::Dropped => {
                        dropped = dropped + 1;
                    },
                    Fate::Undeliverable => {},
                }
            }
            assert(room_pending(m, quiet@, max_hops, s).take(deg as int) =~= room_pending(m, quiet@, max_hops, s));
            assert(order.take(i + 1).drop_last() =~= order.take(i as int));
            assert(order.take(i + 1).last() == s);
        }
        assert(order.take(n as int) =~= order);
        (pending, delivered, dropped)
    }
}

/// The position of the room with the given id in `rooms`, if any.
fn position(rooms: &Vec<MurmurRoom>, id: usize) -> (pos: Option<usize>)
    ensures
        match pos {
            Some(i) => i < rooms@.len() && rooms@[i as int].id == id,
            None => forall|k: int| 0 <= k < rooms@.len() ==> rooms@[k].id != id,
        },
{
    let len = rooms.len();
    for i in 0..len
        invariant
            len == rooms@.len(),
            forall|k: int| 0 <= k < i ==> rooms@[k].id != id,
    {
        if rooms[i].id == id {
            return Some(i);
        }
    }
    None
}

impl MurmurNetwork {
    /// Runs one round of propagation. Every room sends one murmur to each of
    /// its neighbours, a journey of one hop. The murmurs of the rooms listed
    /// in `quiet` (those whose confidence, decayed, falls below the forwarding
    /// threshold) die before travelling, and so do all murmurs when the hop
    /// limit `max_hops` is 0; those addressed to an id that is no room reach
    /// nobody; the rest are delivered. Each room counts the murmurs it sent
    /// and received.
    pub fn propagate(&mut self, quiet: &Vec<usize>, max_hops: u32) -> (round: MurmurRound)
        requires
            old(self).wf(),
            old(self).rounds() < u64::MAX,
            forall|id: usize| #[trigger] old(self)@.contains_key(id)
                ==> old(self)@[id].murmurs_sent + old(self)@[id].neighbors.len() <= usize::MAX,
            forall|id: usize| #[trigger] old(self)@.contains_key(id)
                ==> old(self)@[id].murmurs_received
                    + delivered_to(round_pending(old(self)@, quiet@, max_hops, old(self).ids()), id) <= usize::MAX,
        ensures
            final(self).wf(),
            final(self).rounds() == old(self).rounds() + 1,
            final(self).ids() == old(self).ids(),
            round.tick == final(self).rounds(),
            round.pending@ == round_pending(old(self)@, quiet@, max_hops, old(self).ids()),
            round.murmurs_delivered == count_fate(round.pending@, Fate::Delivered),
            round.murmurs_dropped == count_fate(round.pending@, Fate::Dropped),
            round.max_hop == (if round.murmurs_delivered > 0 { 1u32 } else { 0u32 }),
            round.max_hop <= max_hops,
            final(self)@ == after_rounds(old(self)@, round.pending@, 1),
    {
        let ghost m = self@;
        let ghost order = self.ids();
        proof {
            self.lemma_wf();
        }
        let n = self.rooms.len();
        let (pending, delivered, dropped) = self.plan(quiet, max_hops);
        let ghost p = pending@;
        let ghost rooms0 = self.rooms@;
        assert forall|k: int| 0 <= k < n implies #[trigger] m.contains_key(rooms0[k].id)
            && m[rooms0[k].id] == rooms0[k]@ by {}
        for i in 0..n
            invariant
                n == self.rooms@.len(),
                rooms0.len() == n,
                self.tick == old(self).tick,
                forall|k: int| 0 <= k < n ==> #[trigger] m.contains_key(rooms0[k].id)
                    && m[rooms0[k].id] == rooms0[k]@,
                forall|id: usize| #[trigger] m.contains_key(id)
                    ==> m[id].murmurs_sent + m[id].neighbors.len() <= usize::MAX,
                forall|k: int| 0 <= k < n ==> {
                    &&& (#[trigger] self.rooms@[k]).id == rooms0[k].id
                    &&& self.rooms@[k].neighbors@ == rooms0[k].neighbors@
                    &&& self.rooms@[k].murmurs_received == rooms0[k].murmurs_received
                    &&& self.rooms@[k].murmurs_sent == if k < i {
                        rooms0[k].murmurs_sent + rooms0[k].neighbors@.len()
                    } else {
                        rooms0[k].murmurs_sent as int
                    }
                },
        {
            let add = self.rooms[i].neighbors.len();
            assert(m.contains_key(rooms0[i as int].id));
            let sent = self.rooms[i].murmurs_sent + add;
            self.rooms[i].murmurs_sent = sent;
        }
        let plen = pending.len();
        for k in 0..plen
            invariant
                n == self.rooms@.len(),
                rooms0.len() == n,
                plen == p.len(),
                pending@ == p,
                self.tick == old(self).tick,
                forall|a: int, b: int| 0 <= a < b < n ==> rooms0[a].id < rooms0[b].id,
                forall|r: int| 0 <= r < n ==> #[trigger] m.contains_key(rooms0[r].id)
                    && m[rooms0[r].id] == rooms0[r]@,
                forall|id: usize| #[trigger] m.contains_key(id)
                    ==> m[id].murmurs_received + delivered_to(p, id) <= usize::MAX,
                forall|r: int| 0 <= r < n ==> {
                    &&& (#[trigger] self.rooms@[r]).id == rooms0[r].id
                    &&& self.rooms@[r].neighbors@ == rooms0[r].neighbors@
                    &&& self.rooms@[r].murmurs_sent == rooms0[r].murmurs_sent + rooms0[r].neighbors@.len()
                    &&& self.rooms@[r].murmurs_received == rooms0[r].murmurs_received
                        + delivered_to(p.take(k as int), rooms0[r].id)
                },
        {
            let pm = pending[k];
            let ghost before = self.rooms@;
            assert(p.take(k + 1).drop_last() =~= p.take(k as int));
            assert(p.take(k + 1).last() == pm);
            if pm.fate == Fate::Delivered {
                match position(&self.rooms, pm.target_id) {
                    Some(idx) => {
                        proof {
                            let id = rooms0[idx as int].id;
                            assert(m.contains_key(id));
                            lemma_delivered_to_prefix(p, k + 1, id);
                        }
                        let got = self.rooms[idx].murmurs_received + 1;
                        self.rooms[idx].murmurs_received = got;
                        proof {
                            assert forall|r: int| 0 <= r < n implies
                                self.rooms@[r].murmurs_received == rooms0[r].murmurs_received
                                + delivered_to(p.take(k + 1), rooms0[r].id) by {
                                if r != idx {
                                    assert(rooms0[r].id != rooms0[idx as int].id);
                                    assert(self.rooms@[r] == before[r]);
                                }
                            }
                        }
                    },
                    None => {
                        assert forall|r: int| 0 <= r < n implies
                            self.rooms@[r].murmurs_received == rooms0[r].murmurs_received
                            + delivered_to(p.take(k + 1), rooms0[r].id) by {
                            assert(self.rooms@[r].id != pm.target_id);
                        }
                    },
                }
            }
        }
        assert(p.take(plen as int) =~= p);
        self.tick = self.tick + 1;
        let ghost new_model = after_rounds(m, p, 1);
        self.model = Ghost(new_model);
        proof {
            let nr = self.rooms@;
            assert forall|i: int, j: int| 0 <= i < j < nr.len() implies nr[i].id < nr[j].id by {
                assert(rooms0[i].id < rooms0[j].id);
            }
            assert forall|i: int| 0 <= i < nr.len() implies
                #[trigger] new_model.contains_key(nr[i].id)
                && new_model[nr[i].id] == nr[i]@ by {
                assert(m.contains_key(rooms0[i].id));
            }
            assert forall|x: usize| #[trigger] new_model.contains_key(x) implies exists|i: int|
                0 <= i < nr.len() && #[trigger] nr[i].id == x by {
                let i = choose|i: int| 0 <= i < rooms0.len() && #[trigger] rooms0[i].id == x;
                assert(nr[i].id == x);
            }
            assert(self.ids() =~= order);
        }
        let max_hop: u32 = if delivered > 0 { 1 } else { 0 };
        MurmurRound {
            tick: self.tick,
            murmurs_delivered: delivered,
            murmurs_dropped: dropped,
            max_hop,
            pending,
        }
    }
}


impl MurmurNetwork {
    /// Runs `rounds` rounds of propagation with the same quiet rooms and hop
    /// limit, and returns their accounts in order.
    pub fn propagate_n(&mut self, rounds: usize, quiet: &Vec<usize>, max_hops: u32) -> (result: Vec<MurmurRound>)
        requires
            old(self).wf(),
            old(self).rounds() + rounds <= u64::MAX,
            forall|id: usize| #[trigger] old(self)@.contains_key(id)
                ==> old(self)@[id].murmurs_sent + rounds * old(self)@[id].neighbors.len() <= usize::MAX,
            forall|id: usize| #[trigger] old(self)@.contains_key(id)
                ==> old(self)@[id].murmurs_received + rounds
                    * delivered_to(round_pending(old(self)@, quiet@, max_hops, old(self).ids()), id) <= usize::MAX,
        ensures
            final(self).wf(),
            final(self).rounds() == old(self).rounds() + rounds,
            final(self).ids() == old(self).ids(),
            final(self)@ == after_rounds(
                old(self)@,
                round_pending(old(self)@, quiet@, max_hops, old(self).ids()),
                rounds as nat,
            ),
            final(self)@ == repeated_rounds(old(self)@, quiet@, max_hops, old(self).ids(), rounds as nat),
            forall|k: int| 0 <= k < rounds ==> (#[trigger] result@[k]).pending@ == round_pending(
                repeated_rounds(old(self)@, quiet@, max_hops, old(self).ids(), k as nat),
                quiet@,
                max_hops,
                old(self).ids(),
            ),
            result@.len() == rounds,
            forall|k: int| 0 <= k < rounds ==> {
                let r = #[trigger] result@[k];
                &&& r.tick == old(self).rounds() + k + 1
                &&& r.pending@ == round_pending(old(self)@, quiet@, max_hops, old(self).ids())
                &&& r.murmurs_delivered == count_fate(r.pending@, Fate::Delivered)
                &&& r.murmurs_dropped == count_fate(r.pending@, Fate::Dropped)
                &&& r.max_hop == (if r.murmurs_delivered > 0 { 1u32 } else { 0u32 })
                &&& r.max_hop <= max_hops
            },
    {
        let ghost m = self@;
        let ghost order = self.ids();
        let ghost p = round_pending(m, quiet@, max_hops, order);
        proof {
            self.lemma_wf();
            lemma_after_zero_rounds(m, p);
        }
        let mut result: Vec<MurmurRound> = Vec::new();
        for i in 0..rounds
            invariant
                self.wf(),
                self@ == after_rounds(m, p, i as nat),
                self.ids() == order,
                self.rounds() == old(self).rounds() + i,
                old(self).rounds() + rounds <= u64::MAX,
                m == old(self)@,
                order == old(self).ids(),
                p == round_pending(m, quiet@, max_hops, order),
                forall|id: usize| m.contains_key(id) <==> order.contains(id),
                forall|id: usize| #[trigger] m.contains_key(id)
                    ==> m[id].murmurs_sent + rounds * m[id].neighbors.len() <= usize::MAX,
                forall|id: usize| #[trigger] m.contains_key(id)
                    ==> m[id].murmurs_received + rounds * delivered_to(p, id) <= usize::MAX,
                result@.len() == i,
                forall|k: int| 0 <= k < i ==> {
                    let r = #[trigger] result@[k];
                    &&& r.tick == old(self).rounds() + k + 1
                    &&& r.pending@ == p
                    &&& r.murmurs_delivered == count_fate(r.pending@, Fate::Delivered)
                    &&& r.murmurs_dropped == count_fate(r.pending@, Fate::Dropped)
                    &&& r.max_hop == (if r.murmurs_delivered > 0 { 1u32 } else { 0u32 })
                    &&& r.max_hop <= max_hops
                },
        {
            let ghost cur = self@;
            proof {
                lemma_after_rounds_step(m, p, i as nat);
                assert forall|j: int| 0 <= j < order.len() implies m.contains_key(#[trigger] order[j]) by {
                    assert(order.contains(order[j]));
                }
                lemma_round_pending_topology(m, cur, quiet@, max_hops, order);
                assert forall|id: usize| #[trigger] cur.contains_key(id) implies
                    cur[id].murmurs_sent + cur[id].neighbors.len() <= usize::MAX
                    && cur[id].murmurs_received + delivered_to(p, id) <= usize::MAX by {
                    let d = delivered_to(p, id);
                    let e = m[id].neighbors.len();
                    let ii = i as int;
                    let rr = rounds as int;
                    assert(ii * e + e <= rr * e) by (nonlinear_arith)
                        requires ii + 1 <= rr, e >= 0;
                    assert(ii * d + d <= rr * d) by (nonlinear_arith)
                        requires ii + 1 <= rr, d >= 0;
                }
            }
            let r = self.propagate(quiet, max_hops);
            result.push(r);
            proof {
                assert(result@[i as int] == r);
            }
        }
        proof {
            assert forall|j: int| 0 <= j < order.len() implies m.contains_key(#[trigger] order[j]) by {
                assert(order.contains(order[j]));
            }
            lemma_rounds_at_once_are_rounds_one_by_one(m, quiet@, max_hops, order, rounds as nat);
            assert forall|k: int| 0 <= k < rounds implies (#[trigger] result@[k]).pending@ == round_pending(
                repeated_rounds(m, quiet@, max_hops, order, k as nat),
                quiet@,
                max_hops,
                order,
            ) by {
                assert((k as nat) <= rounds as nat);
                assert(round_pending(repeated_rounds(m, quiet@, max_hops, order, k as nat), quiet@, max_hops, order)
                    == round_pending(m, quiet@, max_hops, order));
            }
        }
        result
    }
}


impl MurmurNetwork {
    /// Rebuilds a network from its rooms, given in any order, and its round
    /// count. Of two rooms with the same id, the later one is kept.
    pub fn restore(rooms: Vec<MurmurRoom>, tick: u64) -> (net: MurmurNetwork)
        ensures
            net.wf(),
            net.rounds() == tick,
            net@ == rooms_map(rooms@),
    {
        let ghost all = rooms@;
        let total = rooms.len();
        let mut net = MurmurNetwork { rooms: Vec::new(), tick, model: Ghost(Map::empty()) };
        let mut rest = rooms;
        let mut i: usize = 0;
        assert(all.skip(0) =~= all);
        assert(all.take(0) =~= Seq::<MurmurRoom>::empty());
        while rest.len() > 0
            invariant
                net.wf(),
                net.rounds() == tick,
                all == rooms@,
                total == all.len(),
                i <= all.len(),
                rest@ == all.skip(i as int),
                net@ == rooms_map(all.take(i as int)),
            decreases rest@.len(),
        {
            let room = rest.remove(0);
            assert(room == all[i as int]);
            assert(all.skip(i + 1) =~= all.skip(i as int).subrange(1, all.skip(i as int).len() as int));
            assert(all.take(i + 1).drop_last() =~= all.take(i as int));
            assert(all.take(i + 1).last() == room);
            net.put_room(room);
            i = i + 1;
        }
        assert(all.take(i as int) =~= all);
        net
    }

    /// The rooms, in ascending order of id.
    pub fn rooms(&self) -> (rooms: &Vec<MurmurRoom>)
        requires
            self.wf(),
        ensures
            rooms@.map_values(|r: MurmurRoom| r.id) == self.ids(),
            forall|i: int| 0 <= i < rooms@.len() ==> #[trigger] self@.contains_key(rooms@[i].id)
                && self@[rooms@[i].id] == rooms@[i]@,
    {
        proof {
            assert forall|i: int| 0 <= i < self.rooms@.len() implies #[trigger] self@.contains_key(self.rooms@[i].id)
                && self@[self.rooms@[i].id] == self.rooms@[i]@ by {
                assert(self.model@.contains_key(self.rooms@[i].id));
            }
        }
        &self.rooms
    }

    /// The number of rounds run so far.
    pub fn tick(&self) -> (tick: u64)
        ensures
            tick == self.rounds(),
    {
        self.tick
    }
}


/// `rounds` rounds keep a room's counters within `usize`: it sends
/// `degree` murmurs a round and receives `received_per_round`.
pub open spec fn counters_fit(room: RoomView, rounds: nat, received_per_round: nat) -> bool {
    &&& room.murmurs_sent + rounds * room.neighbors.len() <= usize::MAX
    &&& room.murmurs_received + rounds * received_per_round <= usize::MAX
}

impl MurmurNetwork {
    /// Whether `rounds` more rounds with these quiet rooms and this hop limit
    /// keep the round number within `u64` and every room's counters within
    /// `usize`: what `propagate_n` asks of its caller (and, for one round,
    /// `propagate`).
    pub fn rounds_fit(&self, rounds: usize, quiet: &Vec<usize>, max_hops: u32) -> (fit: bool)
        requires
            self.wf(),
        ensures
            fit <==> {
                &&& self.rounds() + rounds <= u64::MAX
                &&& forall|id: usize| #[trigger] self@.contains_key(id) ==> counters_fit(
                    self@[id],
                    rounds as nat,
                    delivered_to(round_pending(self@, quiet@, max_hops, self.ids()), id),
                )
            },
    {
        proof {
            self.lemma_wf();
        }
        let ghost p = round_pending(self@, quiet@, max_hops, self.ids());
        if u64::MAX - self.tick < rounds as u64 {
            return false;
        }
        let (pending, _, _) = self.plan(quiet, max_hops);
        let n = self.rooms.len();
        let plen = pending.len();
        for i in 0..n
            invariant
                n == self.rooms@.len(),
                self.wf(),
                p == round_pending(self@, quiet@, max_hops, self.ids()),
                pending@ == p,
                plen == p.len(),
                forall|k: int| 0 <= k < i ==> counters_fit(
                    (#[trigger] self.rooms@[k])@,
                    rounds as nat,
                    delivered_to(p, self.rooms@[k].id),
                ),
        {
            let id = self.rooms[i].id;
            let deg = self.rooms[i].neighbors.len();
            let sent = self.rooms[i].murmurs_sent;
            let received = self.rooms[i].murmurs_received;
            let mut count: usize = 0;
            for k in 0..plen
                invariant
                    plen == p.len(),
                    pending@ == p,
                    count == delivered_to(p.take(k as int), id),
                    count <= k,
            {
                assert(p.take(k + 1).drop_last() =~= p.take(k as int));
                let pm = pending[k];
                if pm.fate == Fate::Delivered && pm.target_id == id {
                    count = count + 1;
                }
            }
            assert(p.take(plen as int) =~= p);
            proof {
                assert(self.model@.contains_key(self.rooms@[i as int].id));
            }
            let ghost v = self@[id];
            assert(v == self.rooms@[i as int]@);
            assert(count == delivered_to(p, id));
            let fits_sent = match rounds.checked_mul(deg) {
                None => false,
                Some(x) => x <= usize::MAX - sent,
            };
            let fits_received = match rounds.checked_mul(count) {
                None => false,
                Some(x) => x <= usize::MAX - received,
            };
            if !(fits_sent && fits_received) {
                assert(!counters_fit(v, rounds as nat, delivered_to(p, id)));
                assert(self@.contains_key(id));
                return false;
            }
        }
        proof {
            assert forall|id: usize| #[trigger] self@.contains_key(id) implies counters_fit(
                self@[id],
                rounds as nat,
                delivered_to(p, id),
            ) by {
                let k = choose|k: int| 0 <= k < self.rooms@.len() && #[trigger] self.rooms@[k].id == id;
                assert(self.model@.contains_key(self.rooms@[k].id));
            }
        }
        true
    }
}

} // verus!

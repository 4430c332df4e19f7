use vstd::prelude::*;

verus! {

/// A room of the network: its identifier, its neighbours in the order they
/// were linked, and how many murmurs it has received and sent so far.
#[derive(Clone, Debug)]
pub struct MurmurRoom {
    pub id: usize,
    pub neighbors: Vec<usize>,
    pub murmurs_received: usize,
    pub murmurs_sent: usize,
}

/// What a room is, as a mathematical value (its id is the key it is
/// stored under).
pub struct RoomView {
    pub neighbors: Seq<usize>,
    pub murmurs_received: nat,
    pub murmurs_sent: nat,
}

impl View for MurmurRoom {
    type V = RoomView;

    open spec fn view(&self) -> RoomView {
        RoomView {
            neighbors: self.neighbors@,
            murmurs_received: self.murmurs_received as nat,
            murmurs_sent: self.murmurs_sent as nat,
        }
    }
}

impl RoomView {
    /// A room that has just been added: no neighbours, no murmurs.
    pub open spec fn fresh() -> RoomView {
        RoomView { neighbors: Seq::empty(), murmurs_received: 0, murmurs_sent: 0 }
    }

    /// The room with `n` appended to its neighbours, unless it is there already.
    pub open spec fn with_neighbor(self, n: usize) -> RoomView {
        if self.neighbors.contains(n) {
            self
        } else {
            RoomView {
                neighbors: self.neighbors.push(n),
                murmurs_received: self.murmurs_received,
                murmurs_sent: self.murmurs_sent,
            }
        }
    }
}

impl MurmurRoom {
    /// A room with the given id, no neighbours and no murmurs.
    pub fn fresh(id: usize) -> (room: MurmurRoom)
        ensures
            room.id == id,
            room@ == RoomView::fresh(),
    {
        MurmurRoom { id, neighbors: Vec::new(), murmurs_received: 0, murmurs_sent: 0 }
    }

    /// Whether `n` is among this room's neighbours.
    pub fn has_neighbor(&self, n: usize) -> (found: bool)
        ensures
            found == self.neighbors@.contains(n),
    {
        contains_id(&self.neighbors, n)
    }
}


/// Whether `id` is among `ids`.
pub fn contains_id(ids: &Vec<usize>, id: usize) -> (found: bool)
    ensures
        found == ids@.contains(id),
{
    let n = ids.len();
    for k in 0..n
        invariant
            n == ids@.len(),
            forall|j: int| 0 <= j < k ==> ids@[j] != id,
    {
        if ids[k] == id {
            return true;
        }
    }
    false
}

} // verus!

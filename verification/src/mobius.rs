//! The Mobius Desert: two maps of stages whose exits lead into each
//! other. The randomizer rewires the exits so that walking from the
//! entrance reaches every stage.

use crate::rng::next_u32;
use crate::util::{shuffle, shuffle_outcome};
use rand_xoshiro::Xoshiro256StarStar;
use vstd::prelude::*;

verus! {

broadcast use vstd::seq_lib::group_to_multiset_ensures;

/// A stage, named by the two values that identify it.
#[derive(PartialEq, Eq, Structural, Copy, Clone, Debug)]
pub struct StageId {
    pub var1: i16,
    pub var2: i16,
}

/// An exit of a stage: kept for the game (it leads to a place outside
/// the desert), still open, or leading to a stage of the other map.
#[derive(PartialEq, Eq, Structural, Copy, Clone, Debug)]
pub enum Gate {
    Reserved,
    Empty,
    To(StageId),
}

/// A stage and its four exits.
#[derive(Clone, Debug, Copy)]
pub struct Node {
    pub id: StageId,
    pub north: Gate,
    pub east: Gate,
    pub south: Gate,
    pub west: Gate,
}

/// For every direction, the stages that have an exit that way still to
/// be connected, in order.
#[derive(Debug, Clone)]
pub struct Gates {
    pub north: Vec<StageId>,
    pub east: Vec<StageId>,
    pub south: Vec<StageId>,
    pub west: Vec<StageId>,
}

/// The direction codes of the game: 1 west, 3 north, 5 east, 7 south.
pub open spec fn is_east(direction: u16) -> bool {
    direction == 5
}

/// The exits' lists of a direction; a code that is none of west, east and
/// south counts as north.
pub open spec fn gate_list(g: Gates, direction: u16) -> Seq<StageId> {
    if direction == 5 {
        g.east@
    } else if direction == 7 {
        g.south@
    } else if direction == 1 {
        g.west@
    } else {
        g.north@
    }
}

/// The exit of a node in a direction; a code that is none of east, south
/// and west counts as north.
pub open spec fn gate_of(n: Node, direction: u16) -> Gate {
    if direction == 5 {
        n.east
    } else if direction == 7 {
        n.south
    } else if direction == 1 {
        n.west
    } else {
        n.north
    }
}

/// `new` is `old` with the exit of the direction set to `g`.
pub open spec fn node_with(old_n: Node, direction: u16, g: Gate) -> Node {
    if direction == 5 {
        Node { east: g, ..old_n }
    } else if direction == 7 {
        Node { south: g, ..old_n }
    } else if direction == 1 {
        Node { west: g, ..old_n }
    } else {
        Node { north: g, ..old_n }
    }
}

impl Gates {
    /// No exits to connect.
    pub fn new() -> (g: Gates)
        ensures
            g.north@.len() == 0 && g.east@.len() == 0 && g.south@.len() == 0 && g.west@.len() == 0,
    {
        Gates { north: Vec::new(), east: Vec::new(), south: Vec::new(), west: Vec::new() }
    }

    /// Adds a stage to the list of a direction.
    pub fn push(&mut self, direction: u16, id: StageId)
        ensures
            gate_list(*final(self), direction) == gate_list(*old(self), direction).push(id),
            direction != 5 ==> final(self).east == old(self).east,
            direction != 7 ==> final(self).south == old(self).south,
            direction != 1 ==> final(self).west == old(self).west,
            (direction == 5 || direction == 7 || direction == 1) ==> final(self).north == old(self).north,
    {
        if direction == 5 {
            self.east.push(id);
        } else if direction == 7 {
            self.south.push(id);
        } else if direction == 1 {
            self.west.push(id);
        } else {
            self.north.push(id);
        }
    }

    /// Where the stage first stands in the list of a direction.
    pub fn position(&self, direction: u16, id: StageId) -> (r: Option<usize>)
        ensures
            match r {
                Some(k) => k < gate_list(*self, direction).len() && gate_list(*self, direction)[k as int] == id,
                None => !gate_list(*self, direction).contains(id),
            },
    {
        let list = if direction == 5 {
            &self.east
        } else if direction == 7 {
            &self.south
        } else if direction == 1 {
            &self.west
        } else {
            &self.north
        };
        let mut k: usize = 0;
        while k < list.len()
            invariant
                k <= list.len(),
                list@ == gate_list(*self, direction),
                forall|j: int| 0 <= j < k ==> list@[j] != id,
            decreases list.len() - k,
        {
            if list[k] == id {
                return Some(k);
            }
            k += 1;
        }
        None
    }

    /// Removes the entry at `k` of the list of a direction.
    pub fn remove_at(&mut self, direction: u16, k: usize)
        requires
            k < gate_list(*old(self), direction).len(),
        ensures
            gate_list(*final(self), direction) == gate_list(*old(self), direction).remove(k as int),
            direction != 5 ==> final(self).east == old(self).east,
            direction != 7 ==> final(self).south == old(self).south,
            direction != 1 ==> final(self).west == old(self).west,
            (direction == 5 || direction == 7 || direction == 1) ==> final(self).north == old(self).north,
    {
        if direction == 5 {
            self.east.remove(k);
        } else if direction == 7 {
            self.south.remove(k);
        } else if direction == 1 {
            self.west.remove(k);
        } else {
            self.north.remove(k);
        }
    }

    /// Takes the last entry of the list of a direction.
    pub fn pop(&mut self, direction: u16) -> (r: Option<StageId>)
        ensures
            gate_list(*old(self), direction).len() == 0 ==> r is None && gate_list(*final(self), direction) == gate_list(*old(self), direction),
            gate_list(*old(self), direction).len() > 0 ==> r == Some(gate_list(*old(self), direction).last())
                && gate_list(*final(self), direction) == gate_list(*old(self), direction).drop_last(),
            direction != 5 ==> final(self).east == old(self).east,
            direction != 7 ==> final(self).south == old(self).south,
            direction != 1 ==> final(self).west == old(self).west,
            (direction == 5 || direction == 7 || direction == 1) ==> final(self).north == old(self).north,
    {
        if direction == 5 {
            self.east.pop()
        } else if direction == 7 {
            self.south.pop()
        } else if direction == 1 {
            self.west.pop()
        } else {
            self.north.pop()
        }
    }

    /// Shuffles the list of every direction, each as `shuffle` does, in the
    /// order north, east, south, west.
    pub fn shuffle_all(&mut self, shuffles: u8, rng: &mut Xoshiro256StarStar)
        ensures
            final(self).north@.to_multiset() == old(self).north@.to_multiset(),
            final(self).east@.to_multiset() == old(self).east@.to_multiset(),
            final(self).south@.to_multiset() == old(self).south@.to_multiset(),
            final(self).west@.to_multiset() == old(self).west@.to_multiset(),
            shuffle_outcome(old(self).north@, final(self).north@, shuffles),
            shuffle_outcome(old(self).east@, final(self).east@, shuffles),
            shuffle_outcome(old(self).south@, final(self).south@, shuffles),
            shuffle_outcome(old(self).west@, final(self).west@, shuffles),
    {
        shuffle(&mut self.north, shuffles, rng);
        shuffle(&mut self.east, shuffles, rng);
        shuffle(&mut self.south, shuffles, rng);
        shuffle(&mut self.west, shuffles, rng);
    }
}

impl Node {
    /// A stage whose exits are all open.
    pub fn new(id: StageId) -> (n: Node)
        ensures
            n == (Node { id, north: Gate::Empty, east: Gate::Empty, south: Gate::Empty, west: Gate::Empty }),
    {
        Node { id, north: Gate::Empty, east: Gate::Empty, south: Gate::Empty, west: Gate::Empty }
    }

    /// The exit in a direction.
    pub fn gate(&self, direction: u16) -> (g: Gate)
        ensures
            g == gate_of(*self, direction),
    {
        if direction == 5 {
            self.east
        } else if direction == 7 {
            self.south
        } else if direction == 1 {
            self.west
        } else {
            self.north
        }
    }

    /// Sets the exit in a direction.
    pub fn set_gate(&mut self, direction: u16, g: Gate)
        ensures
            *final(self) == node_with(*old(self), direction, g),
    {
        if direction == 5 {
            self.east = g;
        } else if direction == 7 {
            self.south = g;
        } else if direction == 1 {
            self.west = g;
        } else {
            self.north = g;
        }
    }

    /// The open exits, as direction codes: east, south, west, north.
    pub fn get_empty(&self) -> (rv: Vec<u16>)
        ensures
            rv@ == empty_directions(*self),
    {
        let mut rv: Vec<u16> = Vec::new();
        if self.east == Gate::Empty {
            rv.push(5);
        }
        if self.south == Gate::Empty {
            rv.push(7);
        }
        if self.west == Gate::Empty {
            rv.push(1);
        }
        if self.north == Gate::Empty {
            rv.push(3);
        }
        assert(rv@ =~= empty_directions(*self));
        rv
    }
}

/// The open exits of a node, as direction codes: east, south, west, north.
pub open spec fn empty_directions(n: Node) -> Seq<u16> {
    let e: Seq<u16> = if n.east == Gate::Empty { seq![5u16] } else { Seq::empty() };
    let s: Seq<u16> = if n.south == Gate::Empty { seq![7u16] } else { Seq::empty() };
    let w: Seq<u16> = if n.west == Gate::Empty { seq![1u16] } else { Seq::empty() };
    let no: Seq<u16> = if n.north == Gate::Empty { seq![3u16] } else { Seq::empty() };
    e + s + w + no
}

/// Why the desert could not be rewired.
#[derive(Debug, Clone, Copy, PartialEq, Eq, Structural)]
pub enum MobiusError {
    /// A stage has no node.
    MissingNode,
    /// A stage with an open exit is missing from the list of its
    /// direction.
    MissingGate,
}

/// One map of the desert while it is rewired: its nodes, the exits still
/// to connect, and the stages already walked through.
#[derive(Debug, Clone)]
pub struct MobiusState {
    pub gates: Gates,
    pub nodes: Vec<Node>,
    pub visited: Vec<StageId>,
}

/// The last node of the stage, or -1 if there is none (a later node of a
/// stage replaces an earlier one).
pub open spec fn last_index(nodes: Seq<Node>, id: StageId) -> int
    decreases nodes.len(),
{
    if nodes.len() == 0 {
        -1
    } else if nodes.last().id == id {
        nodes.len() - 1
    } else {
        last_index(nodes.drop_last(), id)
    }
}

/// `last_index` is a node of the stage, and there is one exactly when
/// some node is the stage's.
proof fn lemma_last_index(nodes: Seq<Node>, id: StageId)
    ensures
        -1 <= last_index(nodes, id) < nodes.len(),
        last_index(nodes, id) >= 0 ==> nodes[last_index(nodes, id)].id == id,
        last_index(nodes, id) >= 0 <==> has_node(nodes, id),
        forall|k: int| last_index(nodes, id) < k < nodes.len() ==> (#[trigger] nodes[k]).id != id,
    decreases nodes.len(),
{
    if nodes.len() > 0 {
        lemma_last_index(nodes.drop_last(), id);
        if nodes.last().id != id {
            if has_node(nodes, id) {
                let k = choose|k: int| 0 <= k < nodes.len() && (#[trigger] nodes[k]).id == id;
                assert(nodes.drop_last()[k] == nodes[k]);
            }
            if has_node(nodes.drop_last(), id) {
                let k = choose|k: int| 0 <= k < nodes.drop_last().len() && (#[trigger] nodes.drop_last()[k]).id == id;
                assert(nodes[k] == nodes.drop_last()[k]);
            }
            assert forall|k: int| last_index(nodes, id) < k < nodes.len() implies (#[trigger] nodes[k]).id != id by {
                if k < nodes.len() - 1 {
                    assert(nodes.drop_last()[k] == nodes[k]);
                }
            }
        } else {
            assert(nodes[nodes.len() - 1] == nodes.last());
        }
    }
}

/// Some node is the stage's.
pub open spec fn has_node(nodes: Seq<Node>, id: StageId) -> bool {
    exists|k: int| 0 <= k < nodes.len() && (#[trigger] nodes[k]).id == id
}

/// The node the map holds for the stage.
pub open spec fn stored(nodes: Seq<Node>, id: StageId) -> Node {
    nodes[last_index(nodes, id)]
}

impl MobiusState {
    /// A map with no nodes.
    pub fn new() -> (st: MobiusState)
        ensures
            st.nodes@.len() == 0,
            st.visited@.len() == 0,
            st.gates.north@.len() == 0 && st.gates.east@.len() == 0 && st.gates.south@.len() == 0
                && st.gates.west@.len() == 0,
    {
        MobiusState { gates: Gates::new(), nodes: Vec::new(), visited: Vec::new() }
    }

    /// Adds a node; it replaces any earlier node of its stage.
    pub fn insert_node(&mut self, node: Node)
        ensures
            final(self).nodes@ == old(self).nodes@.push(node),
            final(self).gates == old(self).gates,
            final(self).visited == old(self).visited,
    {
        self.nodes.push(node);
    }

    /// Where the node of the stage lies.
    pub fn find_index(&self, id: StageId) -> (r: Option<usize>)
        ensures
            match r {
                Some(k) => k == last_index(self.nodes@, id),
                None => last_index(self.nodes@, id) < 0,
            },
    {
        proof {
            lemma_last_index(self.nodes@, id);
        }
        let mut k: usize = self.nodes.len();
        while k > 0
            invariant
                k <= self.nodes.len(),
                forall|j: int| k <= j < self.nodes.len() ==> (#[trigger] self.nodes@[j]).id != id,
                last_index(self.nodes@, id) < k,
                last_index(self.nodes@, id) >= 0 ==> self.nodes@[last_index(self.nodes@, id)].id == id,
            decreases k,
        {
            if self.nodes[k - 1].id == id {
                proof {
                    lemma_last_index_is(self.nodes@, id, k - 1);
                }
                return Some(k - 1);
            }
            k -= 1;
        }
        None
    }

    /// The node of the stage.
    pub fn find_node(&self, id: StageId) -> (r: Option<Node>)
        ensures
            r is Some <==> has_node(self.nodes@, id),
            r matches Some(n) ==> n == stored(self.nodes@, id),
    {
        proof {
            lemma_last_index(self.nodes@, id);
        }
        match self.find_index(id) {
            Some(k) => Some(self.nodes[k]),
            None => None,
        }
    }

    /// Replaces the node of its stage.
    pub fn update_node(&mut self, node: Node) -> (r: Result<(), MobiusError>)
        ensures
            r is Ok <==> has_node(old(self).nodes@, node.id),
            r is Ok ==> final(self).nodes@ == old(self).nodes@.update(last_index(old(self).nodes@, node.id), node),
            r is Err ==> final(self).nodes@ == old(self).nodes@,
            final(self).gates == old(self).gates,
            final(self).visited == old(self).visited,
    {
        proof {
            lemma_last_index(self.nodes@, node.id);
        }
        match self.find_index(node.id) {
            Some(k) => {
                self.nodes.set(k, node);
                Ok(())
            },
            None => Err(MobiusError::MissingNode),
        }
    }

    /// Sets an exit of the node of a stage.
    pub fn set_node_gate(&mut self, id: StageId, direction: u16, g: Gate) -> (r: Result<(), MobiusError>)
        ensures
            r is Ok <==> has_node(old(self).nodes@, id),
            r is Ok ==> final(self).nodes@ == old(self).nodes@.update(
                last_index(old(self).nodes@, id),
                node_with(stored(old(self).nodes@, id), direction, g),
            ),
            r is Err ==> final(self).nodes@ == old(self).nodes@,
            final(self).gates == old(self).gates,
            final(self).visited == old(self).visited,
    {
        proof {
            lemma_last_index(self.nodes@, id);
        }
        match self.find_index(id) {
            Some(k) => {
                let mut n = self.nodes[k];
                n.set_gate(direction, g);
                self.nodes.set(k, n);
                Ok(())
            },
            None => Err(MobiusError::MissingNode),
        }
    }

    /// The stage of the node that the draw `d` picks: the one at `d`
    /// modulo the number of nodes.
    pub fn node_id_at(&self, d: u32) -> (id: StageId)
        requires
            self.nodes.len() > 0,
        ensures
            id == self.nodes@[(d as int) % (self.nodes.len() as int)].id,
            has_node(self.nodes@, id),
    {
        let k = (d as usize) % self.nodes.len();
        self.nodes[k].id
    }

    /// The stage of a node drawn at random: the one that a `next_u32`
    /// draw picks (`node_id_at`).
    pub fn random_node_id(&self, rng: &mut Xoshiro256StarStar) -> (id: StageId)
        requires
            self.nodes.len() > 0,
        ensures
            has_node(self.nodes@, id),
            exists|d: u32| #![trigger self.nodes@[(d as int) % (self.nodes.len() as int)]] id == self.nodes@[(d as int) % (self.nodes.len() as int)].id,
    {
        let d = next_u32(rng);
        self.node_id_at(d)
    }

    /// Whether the stage was walked through.
    pub fn is_visited(&self, id: StageId) -> (r: bool)
        ensures
            r == self.visited@.contains(id),
    {
        let mut k: usize = 0;
        while k < self.visited.len()
            invariant
                k <= self.visited.len(),
                forall|j: int| 0 <= j < k ==> self.visited@[j] != id,
            decreases self.visited.len() - k,
        {
            if self.visited[k] == id {
                return true;
            }
            k += 1;
        }
        false
    }

    /// Marks the stage as walked through.
    pub fn visit(&mut self, id: StageId)
        ensures
            final(self).visited@.to_set() == old(self).visited@.to_set().insert(id),
            old(self).visited@.no_duplicates() ==> final(self).visited@.no_duplicates(),
            final(self).nodes == old(self).nodes,
            final(self).gates == old(self).gates,
    {
        if !self.is_visited(id) {
            let ghost before = self.visited@;
            self.visited.push(id);
            proof {
                assert forall|x: StageId| self.visited@.to_set().contains(x) <==> before.to_set().insert(id).contains(x) by {
                    if self.visited@.contains(x) && x != id {
                        let j = choose|j: int| 0 <= j < self.visited@.len() && self.visited@[j] == x;
                        assert(before[j] == x);
                    }
                    if before.contains(x) {
                        let j = choose|j: int| 0 <= j < before.len() && before[j] == x;
                        assert(self.visited@[j] == x);
                    }
                    if x == id {
                        assert(self.visited@[before.len() as int] == id);
                    }
                }
                assert(self.visited@.to_set() =~= before.to_set().insert(id));
                if before.no_duplicates() {
                    assert forall|a: int, b: int| 0 <= a < b < self.visited@.len() implies self.visited@[a] != self.visited@[b] by {
                        if b == before.len() {
                            assert(self.visited@[a] == before[a]);
                        }
                    }
                }
            }
        } else {
            assert(self.visited@.to_set() =~= self.visited@.to_set().insert(id));
        }
    }
}

/// A node of the stage at `k` with none after it is the last one.
proof fn lemma_last_index_is(nodes: Seq<Node>, id: StageId, k: int)
    requires
        0 <= k < nodes.len(),
        nodes[k].id == id,
        forall|j: int| k < j < nodes.len() ==> (#[trigger] nodes[j]).id != id,
    ensures
        last_index(nodes, id) == k,
    decreases nodes.len(),
{
    if k < nodes.len() - 1 {
        assert(nodes.last() == nodes[nodes.len() - 1]);
        assert forall|j: int| k < j < nodes.drop_last().len() implies (#[trigger] nodes.drop_last()[j]).id != id by {
            assert(nodes.drop_last()[j] == nodes[j]);
        }
        lemma_last_index_is(nodes.drop_last(), id, k);
    }
}

/// A stage of a map's stage list: the values that identify it, zero for
/// no stage.
#[derive(Clone, Copy, Debug)]
pub struct StageOverride {
    pub var1: i16,
    pub var2: i16,
}

/// An exit of a stage: its direction, the stage it leads to in the game,
/// and the desert stage it is made to lead to.
#[derive(Clone, Copy, Debug)]
pub struct EnvOverride {
    pub next_stage_direction: u16,
    pub next_stage_id: u16,
    pub var1: i16,
    pub var2: i16,
}

/// A map's stages, and the exits of each.
#[derive(Clone, Debug)]
pub struct StageOverrides {
    pub stage_overrides: Vec<StageOverride>,
    pub environmental_overrides: Vec<Vec<EnvOverride>>,
}

/// The identity of stage `i`.
pub open spec fn stage_id(ov: StageOverrides, i: int) -> StageId {
    StageId { var1: ov.stage_overrides@[i].var1, var2: ov.stage_overrides@[i].var2 }
}

/// Entry `i` is a stage.
pub open spec fn is_stage(ov: StageOverrides, i: int) -> bool {
    !(ov.stage_overrides@[i].var1 == 0 && ov.stage_overrides@[i].var2 == 0)
}

/// The exit leads out of the desert, to the mirage or to S. Noise.
pub open spec fn kept_exit(e: EnvOverride, mirage_id: u16, s_noise_id: u16) -> bool {
    e.next_stage_id == mirage_id || e.next_stage_id == s_noise_id
}

/// The side of a node a direction code names: 0 north, 1 east, 2 south,
/// 3 west.
pub open spec fn side(direction: u16) -> int {
    if direction == 5 {
        1
    } else if direction == 7 {
        2
    } else if direction == 1 {
        3
    } else {
        0
    }
}

/// Some exit of `envs` on the side is kept.
pub open spec fn side_kept(envs: Seq<EnvOverride>, s: int, mirage_id: u16, s_noise_id: u16) -> bool {
    exists|j: int| 0 <= j < envs.len() && side((#[trigger] envs[j]).next_stage_direction) == s && kept_exit(envs[j], mirage_id, s_noise_id)
}

/// What a side leads to: kept if one of its exits is kept, else open.
pub open spec fn side_gate(envs: Seq<EnvOverride>, s: int, mirage_id: u16, s_noise_id: u16) -> Gate {
    if side_kept(envs, s, mirage_id, s_noise_id) {
        Gate::Reserved
    } else {
        Gate::Empty
    }
}

/// The node of stage `i`.
pub open spec fn node_of(ov: StageOverrides, i: int, mirage_id: u16, s_noise_id: u16) -> Node {
    let envs = ov.environmental_overrides@[i]@;
    Node {
        id: stage_id(ov, i),
        north: side_gate(envs, 0, mirage_id, s_noise_id),
        east: side_gate(envs, 1, mirage_id, s_noise_id),
        south: side_gate(envs, 2, mirage_id, s_noise_id),
        west: side_gate(envs, 3, mirage_id, s_noise_id),
    }
}

/// The nodes of the first `k` entries.
pub open spec fn nodes_upto(ov: StageOverrides, k: int, mirage_id: u16, s_noise_id: u16) -> Seq<Node>
    decreases k,
{
    if k <= 0 {
        Seq::empty()
    } else if is_stage(ov, k - 1) {
        nodes_upto(ov, k - 1, mirage_id, s_noise_id).push(node_of(ov, k - 1, mirage_id, s_noise_id))
    } else {
        nodes_upto(ov, k - 1, mirage_id, s_noise_id)
    }
}

/// The open exits of `envs` on the side, each naming the stage `id`.
pub open spec fn open_exits(envs: Seq<EnvOverride>, s: int, id: StageId, mirage_id: u16, s_noise_id: u16) -> Seq<StageId>
    decreases envs.len(),
{
    if envs.len() == 0 {
        Seq::empty()
    } else {
        let rest = open_exits(envs.drop_last(), s, id, mirage_id, s_noise_id);
        let e = envs.last();
        if side(e.next_stage_direction) == s && !kept_exit(e, mirage_id, s_noise_id) {
            rest.push(id)
        } else {
            rest
        }
    }
}

/// The exits of the first `k` entries still to connect on the side.
pub open spec fn exits_upto(ov: StageOverrides, s: int, k: int, mirage_id: u16, s_noise_id: u16) -> Seq<StageId>
    decreases k,
{
    if k <= 0 {
        Seq::empty()
    } else if is_stage(ov, k - 1) {
        exits_upto(ov, s, k - 1, mirage_id, s_noise_id) + open_exits(
            ov.environmental_overrides@[k - 1]@,
            s,
            stage_id(ov, k - 1),
            mirage_id,
            s_noise_id,
        )
    } else {
        exits_upto(ov, s, k - 1, mirage_id, s_noise_id)
    }
}

/// The list of exits of a side.
pub open spec fn side_list(g: Gates, s: int) -> Seq<StageId> {
    if s == 1 {
        g.east@
    } else if s == 2 {
        g.south@
    } else if s == 3 {
        g.west@
    } else {
        g.north@
    }
}

/// What a node's side leads to.
pub open spec fn side_of(n: Node, s: int) -> Gate {
    if s == 1 {
        n.east
    } else if s == 2 {
        n.south
    } else if s == 3 {
        n.west
    } else {
        n.north
    }
}

/// Setting the exit of a direction sets the exit of its side.
proof fn lemma_node_with(n: Node, direction: u16, g: Gate, s: int)
    requires
        0 <= s < 4,
    ensures
        side_of(node_with(n, direction, g), s) == if side(direction) == s {
            g
        } else {
            side_of(n, s)
        },
        node_with(n, direction, g).id == n.id,
{
}

/// The map built from a stage list: a node for every stage, its exits to
/// the mirage and S. Noise kept and the others open, and for every side
/// the stages with open exits there, once per exit, in order.
pub open spec fn built(ov: StageOverrides, st: MobiusState, mirage_id: u16, s_noise_id: u16) -> bool {
    &&& st.visited@.len() == 0
    &&& st.nodes@ == nodes_upto(ov, ov.stage_overrides.len() as int, mirage_id, s_noise_id)
    &&& forall|s: int|
        0 <= s < 4 ==> #[trigger] side_list(st.gates, s) == exits_upto(
            ov,
            s,
            ov.stage_overrides.len() as int,
            mirage_id,
            s_noise_id,
        )
}

/// Builds the map of a stage list.
pub fn build_mobius_state(overrides: &StageOverrides, mirage_id: u16, s_noise_id: u16) -> (st: MobiusState)
    requires
        overrides.environmental_overrides.len() >= overrides.stage_overrides.len(),
    ensures
        built(*overrides, st, mirage_id, s_noise_id),
{
    let mut state = MobiusState::new();
    let mut i: usize = 0;
    while i < overrides.stage_overrides.len()
        invariant
            i <= overrides.stage_overrides.len() <= overrides.environmental_overrides.len(),
            state.visited@.len() == 0,
            state.nodes@ == nodes_upto(*overrides, i as int, mirage_id, s_noise_id),
            forall|s: int|
                0 <= s < 4 ==> #[trigger] side_list(state.gates, s) == exits_upto(
                    *overrides,
                    s,
                    i as int,
                    mirage_id,
                    s_noise_id,
                ),
        decreases overrides.stage_overrides.len() - i,
    {
        let var1 = overrides.stage_overrides[i].var1;
        let var2 = overrides.stage_overrides[i].var2;
        if !(var1 == 0 && var2 == 0) {
            let id = StageId { var1, var2 };
            let mut node = Node::new(id);
            let envs = &overrides.environmental_overrides[i];
            let ghost g0 = state.gates;
            let mut j: usize = 0;
            while j < envs.len()
                invariant
                    j <= envs.len(),
                    envs@ == overrides.environmental_overrides@[i as int]@,
                    node.id == id,
                    forall|s: int|
                        0 <= s < 4 ==> #[trigger] side_of(node, s) == side_gate(envs@.take(j as int), s, mirage_id, s_noise_id),
                    forall|s: int|
                        0 <= s < 4 ==> #[trigger] side_list(state.gates, s) == side_list(g0, s) + open_exits(
                            envs@.take(j as int),
                            s,
                            id,
                            mirage_id,
                            s_noise_id,
                        ),
                    state.visited@.len() == 0,
                    state.nodes@ == nodes_upto(*overrides, i as int, mirage_id, s_noise_id),
                decreases envs.len() - j,
            {
                let e = envs[j];
                let direction = e.next_stage_direction;
                let ghost n0 = node;
                let ghost gb = state.gates;
                let ghost t1 = envs@.take(j + 1);
                let ghost t0 = envs@.take(j as int);
                assert(t1.drop_last() =~= t0);
                assert(t1.last() == e);
                if e.next_stage_id == mirage_id || e.next_stage_id == s_noise_id {
                    node.set_gate(direction, Gate::Reserved);
                } else {
                    state.gates.push(direction, id);
                }
                proof {
                    assert forall|s: int|
                        0 <= s < 4 implies #[trigger] side_of(node, s) == side_gate(t1, s, mirage_id, s_noise_id) by {
                        lemma_node_with(n0, direction, Gate::Reserved, s);
                        if kept_exit(e, mirage_id, s_noise_id) && side(direction) == s {
                            assert(t1[j as int] == e);
                            assert(side_kept(t1, s, mirage_id, s_noise_id));
                        } else {
                            assert(side_of(node, s) == side_of(n0, s));
                            if side_kept(t1, s, mirage_id, s_noise_id) {
                                let w = choose|w: int| 0 <= w < t1.len() && side((#[trigger] t1[w]).next_stage_direction) == s && kept_exit(t1[w], mirage_id, s_noise_id);
                                assert(w < j);
                                assert(t0[w] == t1[w]);
                                assert(side_kept(t0, s, mirage_id, s_noise_id));
                            }
                            if side_kept(t0, s, mirage_id, s_noise_id) {
                                let w = choose|w: int| 0 <= w < t0.len() && side((#[trigger] t0[w]).next_stage_direction) == s && kept_exit(t0[w], mirage_id, s_noise_id);
                                assert(t1[w] == t0[w]);
                                assert(side_kept(t1, s, mirage_id, s_noise_id));
                            }
                        }
                    }
                    assert forall|s: int|
                        0 <= s < 4 implies #[trigger] side_list(state.gates, s) == side_list(g0, s) + open_exits(
                            t1,
                            s,
                            id,
                            mirage_id,
                            s_noise_id,
                        ) by {
                        assert(side_list(gb, s) == side_list(g0, s) + open_exits(t0, s, id, mirage_id, s_noise_id));
                    }
                }
                j += 1;
            }
            proof {
                assert(envs@.take(j as int) =~= envs@);
            }
            state.insert_node(node);
            proof {
                assert(node == node_of(*overrides, i as int, mirage_id, s_noise_id)) by {
                    assert(side_of(node, 0) == side_gate(envs@, 0, mirage_id, s_noise_id));
                    assert(side_of(node, 1) == side_gate(envs@, 1, mirage_id, s_noise_id));
                    assert(side_of(node, 2) == side_gate(envs@, 2, mirage_id, s_noise_id));
                    assert(side_of(node, 3) == side_gate(envs@, 3, mirage_id, s_noise_id));
                }
                assert forall|s: int|
                    0 <= s < 4 implies #[trigger] side_list(state.gates, s) == exits_upto(
                        *overrides,
                        s,
                        i + 1,
                        mirage_id,
                        s_noise_id,
                    ) by {
                    assert(side_list(g0, s) == exits_upto(*overrides, s, i as int, mirage_id, s_noise_id));
                }
            }
        }
        i += 1;
    }
    state
}

/// An exit stays as it is or comes to lead somewhere.
pub open spec fn gate_evolves(a: Gate, b: Gate) -> bool {
    b == a || b is To
}

/// The node is the same stage and its exits only closed.
pub open spec fn node_evolves(a: Node, b: Node) -> bool {
    &&& b.id == a.id
    &&& forall|s: int| 0 <= s < 4 ==> gate_evolves(#[trigger] side_of(a, s), side_of(b, s))
}

/// The nodes are the same stages in the same order, and their exits only
/// closed.
pub open spec fn nodes_evolve(a: Seq<Node>, b: Seq<Node>) -> bool {
    &&& b.len() == a.len()
    &&& forall|k: int| 0 <= k < a.len() ==> node_evolves(#[trigger] a[k], b[k])
}

/// Every exit that leads somewhere leads to a stage of the other map.
pub open spec fn links_into(nodes: Seq<Node>, other: Seq<Node>) -> bool {
    forall|k: int, s: int|
        0 <= k < nodes.len() && 0 <= s < 4 && (#[trigger] side_of(nodes[k], s)) is To ==> has_node(
            other,
            side_of(nodes[k], s)->0,
        )
}

/// The exits still to connect are of stages of the map.
pub open spec fn lists_in(g: Gates, nodes: Seq<Node>) -> bool {
    forall|s: int, k: int| 0 <= s < 4 && 0 <= k < side_list(g, s).len() ==> has_node(nodes, #[trigger] side_list(g, s)[k])
}

/// The stages walked through are stages of the map, each once.
pub open spec fn visited_in(v: Seq<StageId>, nodes: Seq<Node>) -> bool {
    &&& v.no_duplicates()
    &&& forall|k: int| 0 <= k < v.len() ==> has_node(nodes, #[trigger] v[k])
}

/// Both maps are consistent with themselves and with each other, and
/// neither is empty.
pub open spec fn pair_wf(own: MobiusState, other: MobiusState) -> bool {
    &&& lists_in(own.gates, own.nodes@)
    &&& lists_in(other.gates, other.nodes@)
    &&& visited_in(own.visited@, own.nodes@)
    &&& visited_in(other.visited@, other.nodes@)
    &&& links_into(own.nodes@, other.nodes@)
    &&& links_into(other.nodes@, own.nodes@)
    &&& own.nodes.len() > 0
    &&& other.nodes.len() > 0
}

/// The stages of the nodes.
pub open spec fn stage_ids(nodes: Seq<Node>) -> Set<StageId> {
    nodes.map_values(|n: Node| n.id).to_set()
}

/// Number of stages of the map not walked through yet.
pub open spec fn unvisited(st: MobiusState) -> nat {
    stage_ids(st.nodes@).difference(st.visited@.to_set()).len()
}

/// Evolution is reflexive.
proof fn lemma_evolve_refl(a: Seq<Node>)
    ensures
        nodes_evolve(a, a),
{
}

/// Evolution is transitive.
proof fn lemma_evolve_trans(a: Seq<Node>, b: Seq<Node>, c: Seq<Node>)
    requires
        nodes_evolve(a, b),
        nodes_evolve(b, c),
    ensures
        nodes_evolve(a, c),
{
    assert forall|k: int| 0 <= k < a.len() implies node_evolves(#[trigger] a[k], c[k]) by {
        assert(node_evolves(a[k], b[k]));
        assert(node_evolves(b[k], c[k]));
        assert forall|s: int| 0 <= s < 4 implies gate_evolves(#[trigger] side_of(a[k], s), side_of(c[k], s)) by {
            assert(gate_evolves(side_of(a[k], s), side_of(b[k], s)));
            assert(gate_evolves(side_of(b[k], s), side_of(c[k], s)));
        }
    }
}

/// Evolved nodes have the same stages at the same places.
proof fn lemma_evolve_ids(a: Seq<Node>, b: Seq<Node>, id: StageId)
    requires
        nodes_evolve(a, b),
    ensures
        has_node(a, id) == has_node(b, id),
        last_index(a, id) == last_index(b, id),
        stage_ids(a) == stage_ids(b),
    decreases a.len(),
{
    if has_node(a, id) {
        let k = choose|k: int| 0 <= k < a.len() && (#[trigger] a[k]).id == id;
        assert(node_evolves(a[k], b[k]));
    }
    if has_node(b, id) {
        let k = choose|k: int| 0 <= k < b.len() && (#[trigger] b[k]).id == id;
        assert(node_evolves(a[k], b[k]));
    }
    if a.len() > 0 {
        assert(node_evolves(a[a.len() - 1], b[b.len() - 1]));
        assert(nodes_evolve(a.drop_last(), b.drop_last())) by {
            assert forall|k: int| 0 <= k < a.drop_last().len() implies node_evolves(#[trigger] a.drop_last()[k], b.drop_last()[k]) by {
                assert(node_evolves(a[k], b[k]));
            }
        }
        lemma_evolve_ids(a.drop_last(), b.drop_last(), id);
    }
    let ma = a.map_values(|n: Node| n.id);
    let mb = b.map_values(|n: Node| n.id);
    assert(ma =~= mb) by {
        assert forall|k: int| 0 <= k < a.len() implies #[trigger] ma[k] == mb[k] by {
            assert(node_evolves(a[k], b[k]));
        }
    }
}

/// An evolved node has no more open exits.
proof fn lemma_empties_le(a: Node, b: Node)
    requires
        node_evolves(a, b),
    ensures
        empty_directions(b).len() <= empty_directions(a).len(),
{
    assert(gate_evolves(side_of(a, 0), side_of(b, 0)));
    assert(gate_evolves(side_of(a, 1), side_of(b, 1)));
    assert(gate_evolves(side_of(a, 2), side_of(b, 2)));
    assert(gate_evolves(side_of(a, 3), side_of(b, 3)));
}

/// Walking through a stage of the map not walked through before leaves
/// one fewer; walking through more never leaves more.
proof fn lemma_unvisited_step(nodes: Seq<Node>, v1: Seq<StageId>, v2: Seq<StageId>, id: StageId)
    requires
        v1.to_set().subset_of(v2.to_set()),
    ensures
        stage_ids(nodes).difference(v2.to_set()).len() <= stage_ids(nodes).difference(v1.to_set()).len(),
        has_node(nodes, id) && !v1.contains(id) && v2.contains(id) ==> stage_ids(nodes).difference(
            v2.to_set(),
        ).len() < stage_ids(nodes).difference(v1.to_set()).len(),
{
    let all = stage_ids(nodes);
    let d1 = all.difference(v1.to_set());
    let d2 = all.difference(v2.to_set());
    assert(all.finite());
    assert(d1.finite());
    assert(d2.subset_of(d1));
    vstd::set_lib::lemma_len_subset(d2, d1);
    if has_node(nodes, id) && !v1.contains(id) && v2.contains(id) {
        let k = choose|k: int| 0 <= k < nodes.len() && (#[trigger] nodes[k]).id == id;
        assert(nodes.map_values(|n: Node| n.id)[k] == id);
        assert(all.contains(id));
        assert(d1.contains(id));
        assert(!d2.contains(id));
        assert(d2.subset_of(d1.remove(id)));
        vstd::set_lib::lemma_len_subset(d2, d1.remove(id));
    }
}

/// An open exit's direction is one of the four codes, and its side is
/// open.
proof fn lemma_empty_direction(n: Node, d: u16)
    requires
        empty_directions(n).contains(d),
    ensures
        d == 5 || d == 7 || d == 1 || d == 3,
        side_of(n, side(d)) == Gate::Empty,
{
    let e: Seq<u16> = if n.east == Gate::Empty { seq![5u16] } else { Seq::empty() };
    let so: Seq<u16> = if n.south == Gate::Empty { seq![7u16] } else { Seq::empty() };
    let w: Seq<u16> = if n.west == Gate::Empty { seq![1u16] } else { Seq::empty() };
    let no: Seq<u16> = if n.north == Gate::Empty { seq![3u16] } else { Seq::empty() };
    let all = e + so + w + no;
    assert(all == empty_directions(n));
    let k = choose|k: int| 0 <= k < all.len() && all[k] == d;
    if k < e.len() {
        assert(all[k] == e[k]);
    } else if k < e.len() + so.len() {
        assert(all[k] == so[k - e.len()]);
    } else if k < e.len() + so.len() + w.len() {
        assert(all[k] == w[k - e.len() - so.len()]);
    } else {
        assert(all[k] == no[k - e.len() - so.len() - w.len()]);
    }
}

/// Connecting an open exit leaves one open exit fewer.
proof fn lemma_connect_empties(n: Node, d: u16, to: StageId)
    requires
        d == 5 || d == 7 || d == 1 || d == 3,
        side_of(n, side(d)) == Gate::Empty,
    ensures
        empty_directions(node_with(n, d, Gate::To(to))).len() == empty_directions(n).len() - 1,
        node_evolves(n, node_with(n, d, Gate::To(to))),
{
    let n2 = node_with(n, d, Gate::To(to));
    assert forall|s: int| 0 <= s < 4 implies gate_evolves(#[trigger] side_of(n, s), side_of(n2, s)) by {
        lemma_node_with(n, d, Gate::To(to), s);
    }
}

/// The list a direction code selects is that of its side, and changing
/// one side's list leaves the others.
proof fn lemma_side_lists(g: Gates, g2: Gates, d: u16)
    requires
        d != 5 ==> g2.east == g.east,
        d != 7 ==> g2.south == g.south,
        d != 1 ==> g2.west == g.west,
        (d == 5 || d == 7 || d == 1) ==> g2.north == g.north,
    ensures
        gate_list(g, d) == side_list(g, side(d)),
        gate_list(g2, d) == side_list(g2, side(d)),
        forall|s: int| 0 <= s < 4 && s != side(d) ==> #[trigger] side_list(g2, s) == side_list(g, s),
{
}

/// Lists that only lost entries still name stages of the map.
proof fn lemma_lists_shrink(g: Gates, g2: Gates, nodes: Seq<Node>, nodes2: Seq<Node>)
    requires
        lists_in(g, nodes),
        forall|s: int, x: StageId| 0 <= s < 4 && #[trigger] side_list(g2, s).contains(x) ==> side_list(g, s).contains(x),
        forall|x: StageId| has_node(nodes, x) ==> has_node(nodes2, x),
    ensures
        lists_in(g2, nodes2),
{
    assert forall|s: int, k: int| 0 <= s < 4 && 0 <= k < side_list(g2, s).len() implies has_node(nodes2, #[trigger] side_list(g2, s)[k]) by {
        let x = side_list(g2, s)[k];
        assert(side_list(g2, s).contains(x));
        assert(side_list(g, s).contains(x));
        let j = choose|j: int| 0 <= j < side_list(g, s).len() && side_list(g, s)[j] == x;
        assert(has_node(nodes, side_list(g, s)[j]));
    }
}

/// Exits that lead to stages of the other map keep doing so when the
/// other map's stages stay.
proof fn lemma_links_keep(nodes: Seq<Node>, other: Seq<Node>, other2: Seq<Node>)
    requires
        links_into(nodes, other),
        forall|x: StageId| has_node(other, x) ==> has_node(other2, x),
    ensures
        links_into(nodes, other2),
{
    assert forall|k: int, s: int|
        0 <= k < nodes.len() && 0 <= s < 4 && (#[trigger] side_of(nodes[k], s)) is To implies has_node(
            other2,
            side_of(nodes[k], s)->0,
        ) by {
        assert(has_node(other, side_of(nodes[k], s)->0));
    }
}

/// Replacing the node of a stage by one whose new exits lead to stages of
/// the other map keeps the links valid.
proof fn lemma_links_update(nodes: Seq<Node>, other: Seq<Node>, k: int, n: Node)
    requires
        links_into(nodes, other),
        0 <= k < nodes.len(),
        forall|s: int| 0 <= s < 4 && (#[trigger] side_of(n, s)) is To ==> has_node(other, side_of(n, s)->0),
    ensures
        links_into(nodes.update(k, n), other),
{
    let n2 = nodes.update(k, n);
    assert forall|j: int, s: int|
        0 <= j < n2.len() && 0 <= s < 4 && (#[trigger] side_of(n2[j], s)) is To implies has_node(
            other,
            side_of(n2[j], s)->0,
        ) by {
        if j != k {
            assert(n2[j] == nodes[j]);
            assert(side_of(nodes[j], s) is To);
        }
    }
}

/// Replacing the node at `k` by an evolution of it evolves the nodes.
proof fn lemma_evolve_update(nodes: Seq<Node>, k: int, n: Node)
    requires
        0 <= k < nodes.len(),
        node_evolves(nodes[k], n),
    ensures
        nodes_evolve(nodes, nodes.update(k, n)),
{
    assert forall|j: int| 0 <= j < nodes.len() implies node_evolves(#[trigger] nodes[j], nodes.update(k, n)[j]) by {
        if j != k {
            assert forall|s: int| 0 <= s < 4 implies gate_evolves(#[trigger] side_of(nodes[j], s), side_of(nodes[j], s)) by {}
        }
    }
}

/// Evolved maps keep their stages, the stages walked through and the
/// lists' stages.
proof fn lemma_has_node_evolve(a: Seq<Node>, b: Seq<Node>)
    requires
        nodes_evolve(a, b),
    ensures
        forall|x: StageId| #[trigger] has_node(a, x) <==> has_node(b, x),
        stage_ids(a) == stage_ids(b),
{
    assert forall|x: StageId| #[trigger] has_node(a, x) <==> has_node(b, x) by {
        lemma_evolve_ids(a, b, x);
    }
    lemma_evolve_ids(a, b, StageId { var1: 0, var2: 0 });
}

/// Every open exit of a stage of the map is in the list of its side.
pub open spec fn open_listed(nodes: Seq<Node>, g: Gates) -> bool {
    forall|x: StageId, s: int|
        #![trigger side_of(stored(nodes, x), s)]
        has_node(nodes, x) && 0 <= s < 4 && side_of(stored(nodes, x), s) == Gate::Empty ==> side_list(g, s).contains(x)
}

/// An entry other than the one removed stays in the list.
proof fn lemma_remove_keeps(l: Seq<StageId>, idx: int, y: StageId)
    requires
        0 <= idx < l.len(),
        l.contains(y),
        l[idx] != y,
    ensures
        l.remove(idx).contains(y),
{
    let j = choose|j: int| 0 <= j < l.len() && l[j] == y;
    if j < idx {
        assert(l.remove(idx)[j] == y);
    } else {
        assert(l.remove(idx)[j - 1] == y);
    }
}

/// Closing an open exit of a stage in a side, and taking one entry of the
/// stage out of that side's list, leaves every open exit listed.
proof fn lemma_listed_connect(nodes: Seq<Node>, g: Gates, g2: Gates, x: StageId, s0: int, idx: int, n: Node)
    requires
        open_listed(nodes, g),
        has_node(nodes, x),
        0 <= s0 < 4,
        0 <= idx < side_list(g, s0).len(),
        side_list(g, s0)[idx] == x,
        side_list(g2, s0) == side_list(g, s0).remove(idx),
        forall|s: int| 0 <= s < 4 && s != s0 ==> #[trigger] side_list(g2, s) == side_list(g, s),
        node_evolves(stored(nodes, x), n),
        side_of(n, s0) is To,
    ensures
        open_listed(nodes.update(last_index(nodes, x), n), g2),
{
    lemma_last_index(nodes, x);
    let k = last_index(nodes, x);
    let nodes2 = nodes.update(k, n);
    lemma_evolve_update(nodes, k, n);
    assert forall|y: StageId, s: int|
        #![trigger side_of(stored(nodes2, y), s)]
        has_node(nodes2, y) && 0 <= s < 4 && side_of(stored(nodes2, y), s) == Gate::Empty implies side_list(g2, s).contains(y) by {
        lemma_evolve_ids(nodes, nodes2, y);
        lemma_last_index(nodes, y);
        if y == x {
            assert(stored(nodes2, y) == n);
            assert(s != s0);
            assert(gate_evolves(side_of(stored(nodes, x), s), side_of(n, s)));
            assert(side_of(stored(nodes, x), s) == Gate::Empty);
        } else {
            assert(last_index(nodes, y) != k);
            assert(stored(nodes2, y) == stored(nodes, y));
            assert(side_list(g, s).contains(y));
            if s == s0 {
                lemma_remove_keeps(side_list(g, s0), idx, y);
            }
        }
    }
}

/// Every side's list names only stages of the map whose exit on that side
/// is open, each once.
pub open spec fn lists_exact(nodes: Seq<Node>, g: Gates) -> bool {
    &&& forall|s: int| 0 <= s < 4 ==> (#[trigger] side_list(g, s)).no_duplicates()
    &&& forall|s: int, x: StageId|
        0 <= s < 4 && (#[trigger] side_list(g, s).contains(x)) ==> has_node(nodes, x) && side_of(stored(nodes, x), s)
            == Gate::Empty
}

/// Each side's list of one map is as long as the list of the opposite
/// side of the other map.
pub open spec fn balanced(g: Gates, h: Gates) -> bool {
    forall|s: int| 0 <= s < 4 ==> (#[trigger] side_list(g, s)).len() == side_list(h, (s + 2) % 4).len()
}

/// Every exit of a map that leads to a stage of the other map is answered:
/// that stage's exit on the opposite side leads back.
pub open spec fn links_back(nodes: Seq<Node>, other: Seq<Node>) -> bool {
    forall|x: StageId, s: int|
        #![trigger side_of(stored(nodes, x), s)]
        has_node(nodes, x) && 0 <= s < 4 && side_of(stored(nodes, x), s) is To ==> {
            let y = side_of(stored(nodes, x), s)->0;
            has_node(other, y) && side_of(stored(other, y), (s + 2) % 4) == Gate::To(x)
        }
}

/// The exits are two-way: when the exit of the stage `x` in direction `d`
/// leads to the stage `y` of the other map, the exit of `y` in the
/// opposite direction `(d + 4) % 8` leads back to `x`.
pub open spec fn two_way(nodes: Seq<Node>, other: Seq<Node>) -> bool {
    forall|x: StageId, d: u16|
        #![trigger gate_of(stored(nodes, x), d)]
        has_node(nodes, x) && (d == 1 || d == 3 || d == 5 || d == 7) && gate_of(stored(nodes, x), d) is To ==> {
            let y = gate_of(stored(nodes, x), d)->0;
            has_node(other, y) && gate_of(stored(other, y), ((d + 4) % 8) as u16) == Gate::To(x)
        }
}

/// Two maps that can be walked with every connection made two-way: the
/// lists are exact and balanced against each other, and every exit that
/// leads somewhere is answered.
pub open spec fn linked_pair(own: MobiusState, other: MobiusState) -> bool {
    &&& lists_exact(own.nodes@, own.gates)
    &&& lists_exact(other.nodes@, other.gates)
    &&& balanced(own.gates, other.gates)
    &&& links_back(own.nodes@, other.nodes@)
    &&& links_back(other.nodes@, own.nodes@)
}

/// The nodes with the exit of the stage `x` in direction `d` made to lead
/// to `y`.
spec fn connected(nodes: Seq<Node>, x: StageId, d: u16, y: StageId) -> Seq<Node> {
    nodes.update(last_index(nodes, x), node_with(stored(nodes, x), d, Gate::To(y)))
}

/// Balance holds both ways round.
proof fn lemma_balanced_swap(g: Gates, h: Gates)
    requires
        balanced(g, h),
    ensures
        balanced(h, g),
{
    assert forall|s: int| 0 <= s < 4 implies (#[trigger] side_list(h, s)).len() == side_list(g, (s + 2) % 4).len() by {
        let t = (s + 2) % 4;
        assert(side_list(g, t).len() == side_list(h, (t + 2) % 4).len());
        assert((t + 2) % 4 == s);
    }
}

/// A linked pair is linked the other way round too.
proof fn lemma_linked_swap(own: MobiusState, other: MobiusState)
    requires
        linked_pair(own, other),
    ensures
        linked_pair(other, own),
{
    lemma_balanced_swap(own.gates, other.gates);
}

/// Answered exits are two-way exits, by direction.
pub proof fn lemma_two_way(nodes: Seq<Node>, other: Seq<Node>)
    requires
        links_back(nodes, other),
    ensures
        two_way(nodes, other),
{
    assert forall|x: StageId, d: u16|
        has_node(nodes, x) && (d == 1 || d == 3 || d == 5 || d == 7) && (#[trigger] gate_of(stored(nodes, x), d)) is To
            implies {
            let y = gate_of(stored(nodes, x), d)->0;
            has_node(other, y) && gate_of(stored(other, y), ((d + 4) % 8) as u16) == Gate::To(x)
        } by {
        let s = side(d);
        assert(gate_of(stored(nodes, x), d) == side_of(stored(nodes, x), s));
        let y = side_of(stored(nodes, x), s)->0;
        assert(side_of(stored(other, y), (s + 2) % 4) == Gate::To(x));
        let e = ((d + 4) % 8) as u16;
        assert(side(e) == (s + 2) % 4);
        assert(gate_of(stored(other, y), e) == side_of(stored(other, y), side(e)));
    }
}

/// Connecting an exit changes the node of that stage only, and only on
/// the side of the direction.
proof fn lemma_stored_connect(nodes: Seq<Node>, x: StageId, d: u16, y: StageId, z: StageId)
    requires
        has_node(nodes, x),
    ensures
        has_node(connected(nodes, x, d, y), z) == has_node(nodes, z),
        has_node(nodes, z) ==> stored(connected(nodes, x, d, y), z) == if z == x {
            node_with(stored(nodes, x), d, Gate::To(y))
        } else {
            stored(nodes, z)
        },
{
    lemma_last_index(nodes, x);
    lemma_last_index(nodes, z);
    let k = last_index(nodes, x);
    let n = node_with(stored(nodes, x), d, Gate::To(y));
    assert forall|s: int| 0 <= s < 4 implies gate_evolves(#[trigger] side_of(nodes[k], s), side_of(n, s)) by {
        lemma_node_with(stored(nodes, x), d, Gate::To(y), s);
    }
    lemma_evolve_update(nodes, k, n);
    lemma_evolve_ids(nodes, connected(nodes, x, d, y), z);
}

/// Connecting the open exit of `x` in direction `dx` to `y`, and the open
/// exit of `y` the opposite way back to `x`, keeps the exits of the first
/// map answered.
proof fn lemma_connect_links(a: Seq<Node>, b: Seq<Node>, x: StageId, y: StageId, dx: u16, dy: u16)
    requires
        links_back(a, b),
        has_node(a, x),
        has_node(b, y),
        0 <= side(dx) < 4,
        side(dy) == (side(dx) + 2) % 4,
        side_of(stored(a, x), side(dx)) == Gate::Empty,
        side_of(stored(b, y), side(dy)) == Gate::Empty,
    ensures
        links_back(connected(a, x, dx, y), connected(b, y, dy, x)),
{
    let a2 = connected(a, x, dx, y);
    let b2 = connected(b, y, dy, x);
    let s0 = side(dx);
    assert forall|z: StageId, u: int|
        #![trigger side_of(stored(a2, z), u)]
        has_node(a2, z) && 0 <= u < 4 && side_of(stored(a2, z), u) is To implies {
            let w = side_of(stored(a2, z), u)->0;
            has_node(b2, w) && side_of(stored(b2, w), (u + 2) % 4) == Gate::To(z)
        } by {
        lemma_stored_connect(a, x, dx, y, z);
        lemma_node_with(stored(a, x), dx, Gate::To(y), u);
        if z == x && u == s0 {
            lemma_stored_connect(b, y, dy, x, y);
            lemma_node_with(stored(b, y), dy, Gate::To(x), (u + 2) % 4);
        } else {
            assert(side_of(stored(a2, z), u) == side_of(stored(a, z), u));
            let w = side_of(stored(a, z), u)->0;
            assert(has_node(b, w) && side_of(stored(b, w), (u + 2) % 4) == Gate::To(z));
            lemma_stored_connect(b, y, dy, x, w);
            lemma_node_with(stored(b, y), dy, Gate::To(x), (u + 2) % 4);
        }
    }
}

/// Connecting an exit of `x` whose stage has left that side's list, while
/// the lists only lose entries and keep none twice, keeps them exact.
proof fn lemma_connect_lists(nodes: Seq<Node>, g: Gates, g2: Gates, x: StageId, d: u16, y: StageId)
    requires
        lists_exact(nodes, g),
        has_node(nodes, x),
        forall|s: int| 0 <= s < 4 ==> (#[trigger] side_list(g2, s)).no_duplicates(),
        forall|s: int, z: StageId| 0 <= s < 4 && #[trigger] side_list(g2, s).contains(z) ==> side_list(g, s).contains(z),
        !side_list(g2, side(d)).contains(x),
    ensures
        lists_exact(connected(nodes, x, d, y), g2),
{
    let n2 = connected(nodes, x, d, y);
    assert forall|s: int, z: StageId| 0 <= s < 4 && (#[trigger] side_list(g2, s).contains(z)) implies has_node(n2, z)
        && side_of(stored(n2, z), s) == Gate::Empty by {
        assert(side_list(g, s).contains(z));
        lemma_stored_connect(nodes, x, d, y, z);
        lemma_node_with(stored(nodes, x), d, Gate::To(y), s);
    }
}

/// Removing an entry from a list without repeats leaves a list without
/// repeats that lacks the entry.
proof fn lemma_remove_nodup(l: Seq<StageId>, idx: int)
    requires
        l.no_duplicates(),
        0 <= idx < l.len(),
    ensures
        l.remove(idx).no_duplicates(),
        !l.remove(idx).contains(l[idx]),
{
    let r = l.remove(idx);
    assert forall|i: int, j: int| 0 <= i < r.len() && 0 <= j < r.len() && i != j implies r[i] != r[j] by {
        let oi = if i < idx { i } else { i + 1 };
        let oj = if j < idx { j } else { j + 1 };
        assert(r[i] == l[oi]);
        assert(r[j] == l[oj]);
    }
    if r.contains(l[idx]) {
        let j = choose|j: int| 0 <= j < r.len() && r[j] == l[idx];
        let oj = if j < idx { j } else { j + 1 };
        assert(r[j] == l[oj]);
    }
}

/// Walks from the node through the desert: every open exit of the node is
/// connected, in random order, to a stage of the other map with an open
/// exit the opposite way (taken from the end of that direction's list),
/// or to a random stage if there is none; the other stage's exit is
/// connected back, and a stage not yet walked through is walked through
/// in turn, the maps' roles swapped.
pub fn traverse(
    node: Node,
    own: &mut MobiusState,
    other: &mut MobiusState,
    rng: &mut Xoshiro256StarStar,
    shuffles: u8,
) -> (r: Result<(), MobiusError>)
    requires
        pair_wf(*old(own), *old(other)),
        has_node(old(own).nodes@, node.id),
        node == stored(old(own).nodes@, node.id),
        !old(own).visited@.contains(node.id),
    ensures
        pair_wf(*final(own), *final(other)),
        nodes_evolve(old(own).nodes@, final(own).nodes@),
        nodes_evolve(old(other).nodes@, final(other).nodes@),
        old(own).visited@.to_set().subset_of(final(own).visited@.to_set()),
        old(other).visited@.to_set().subset_of(final(other).visited@.to_set()),
        final(own).visited@.contains(node.id),
        r is Ok ==> empty_directions(stored(final(own).nodes@, node.id)).len() == 0,
        open_listed(old(own).nodes@, old(own).gates) && open_listed(old(other).nodes@, old(other).gates) ==> {
            &&& r is Ok
            &&& open_listed(final(own).nodes@, final(own).gates)
            &&& open_listed(final(other).nodes@, final(other).gates)
        },
        open_listed(old(own).nodes@, old(own).gates) && open_listed(old(other).nodes@, old(other).gates) && linked_pair(
            *old(own),
            *old(other),
        ) ==> {
            &&& linked_pair(*final(own), *final(other))
            &&& two_way(final(own).nodes@, final(other).nodes@)
            &&& two_way(final(other).nodes@, final(own).nodes@)
        },
    decreases unvisited(*old(own)) + unvisited(*old(other)),
{
    let ghost own0 = *own;
    let ghost other0 = *other;
    let ghost ok0 = open_listed(own0.nodes@, own0.gates) && open_listed(other0.nodes@, other0.gates);
    let ghost hyp0 = ok0 && linked_pair(own0, other0);
    let start = node.id;
    own.visit(start);
    proof {
        assert(own.visited@.contains(start)) by {
            assert(own.visited@.to_set().contains(start));
        }
        assert(visited_in(own.visited@, own.nodes@)) by {
            assert forall|k: int| 0 <= k < own.visited@.len() implies has_node(own.nodes@, #[trigger] own.visited@[k]) by {
                let x = own.visited@[k];
                assert(own.visited@.to_set().contains(x));
                if x != start {
                    assert(own0.visited@.to_set().contains(x));
                    let j = choose|j: int| 0 <= j < own0.visited@.len() && own0.visited@[j] == x;
                    assert(has_node(own0.nodes@, own0.visited@[j]));
                }
            }
        }
        lemma_unvisited_step(own0.nodes@, own0.visited@, own.visited@, start);
        lemma_evolve_refl(own0.nodes@);
        lemma_evolve_refl(other0.nodes@);
    }
    let mut cur = node;
    loop
        invariant_except_break
            cur.id == start,
            has_node(own.nodes@, start),
            cur == stored(own.nodes@, start),
        invariant
            start == node.id,
            own0 == *old(own),
            other0 == *old(other),
            pair_wf(*own, *other),
            nodes_evolve(own0.nodes@, own.nodes@),
            nodes_evolve(other0.nodes@, other.nodes@),
            own0.visited@.to_set().subset_of(own.visited@.to_set()),
            other0.visited@.to_set().subset_of(other.visited@.to_set()),
            own.visited@.contains(start),
            has_node(own0.nodes@, start),
            !own0.visited@.contains(start),
            ok0 == (open_listed(own0.nodes@, own0.gates) && open_listed(other0.nodes@, other0.gates)),
            ok0 ==> open_listed(own.nodes@, own.gates) && open_listed(other.nodes@, other.gates),
            hyp0 == (ok0 && linked_pair(own0, other0)),
            hyp0 ==> linked_pair(*own, *other),
        ensures
            empty_directions(stored(own.nodes@, start)).len() == 0,
        decreases empty_directions(cur).len(),
    {
        let mut empty = cur.get_empty();
        shuffle(&mut empty, shuffles, rng);
        if empty.len() == 0 {
            break;
        }
        let direction = empty[empty.len() - 1];
        proof {
            assert(empty@.contains(direction));
            assert(empty@.to_multiset().count(direction) > 0);
            assert(empty_directions(cur).to_multiset().count(direction) > 0);
            lemma_empty_direction(cur, direction);
        }
        let opposite = (direction + 4) % 8;
        let ghost own_h = *own;
        let ghost other_h = *other;
        let ghost own_g0 = own.gates;
        let idx = match own.gates.position(direction, start) {
            Some(k) => k,
            None => {
                proof {
                    if ok0 {
                        assert(side_of(stored(own.nodes@, start), side(direction)) == Gate::Empty);
                        assert(side_list(own.gates, side(direction)).contains(start));
                        assert(gate_list(own.gates, direction) == side_list(own.gates, side(direction)));
                    }
                }
                return Err(MobiusError::MissingGate);
            },
        };
        own.gates.remove_at(direction, idx);
        let ghost own_g1 = own.gates;
        proof {
            lemma_side_lists(own_g0, own.gates, direction);
            assert forall|s: int, x: StageId|
                0 <= s < 4 && #[trigger] side_list(own.gates, s).contains(x) implies side_list(own_g0, s).contains(x) by {
                if s == side(direction) {
                    let l = side_list(own_g0, s);
                    let j = choose|j: int| 0 <= j < side_list(own.gates, s).len() && side_list(own.gates, s)[j] == x;
                    if j < idx {
                        assert(l[j] == x);
                    } else {
                        assert(l[j + 1] == x);
                    }
                }
            }
            lemma_lists_shrink(own_g0, own.gates, own.nodes@, own.nodes@);
        }
        let ghost other_g0 = other.gates;
        let popped = other.gates.pop(opposite);
        let ghost other_g1 = other.gates;
        proof {
            lemma_side_lists(other_g0, other.gates, opposite);
            assert forall|s: int, x: StageId|
                0 <= s < 4 && #[trigger] side_list(other.gates, s).contains(x) implies side_list(other_g0, s).contains(x) by {
                if s == side(opposite) && side_list(other_g0, s).len() > 0 {
                    let j = choose|j: int| 0 <= j < side_list(other.gates, s).len() && side_list(other.gates, s)[j] == x;
                    assert(side_list(other_g0, s)[j] == x);
                }
            }
            lemma_lists_shrink(other_g0, other.gates, other.nodes@, other.nodes@);
            if hyp0 {
                assert(side(opposite) == (side(direction) + 2) % 4);
                assert(side_list(other_g0, side(opposite)).len() == side_list(own_g0, side(direction)).len());
                assert(popped is Some);
            }
        }
        let (next_id, random) = match popped {
            Some(id) => {
                proof {
                    let l = side_list(other_g0, side(opposite));
                    assert(l[l.len() - 1] == id);
                    assert(has_node(other.nodes@, l[l.len() - 1]));
                }
                (id, false)
            },
            None => (other.random_node_id(rng), true),
        };
        let ghost node0 = cur;
        cur.set_gate(direction, Gate::To(next_id));
        proof {
            lemma_connect_empties(node0, direction, next_id);
        }
        let ghost other_pre = other.nodes@;
        let ghost other_gp = other.gates;
        proof {
            if ok0 && !random {
                lemma_last_index(other_pre, next_id);
                let old_n = stored(other_pre, next_id);
                let new_n = node_with(old_n, opposite, Gate::To(start));
                assert forall|s: int| 0 <= s < 4 implies gate_evolves(#[trigger] side_of(old_n, s), side_of(new_n, s)) by {
                    lemma_node_with(old_n, opposite, Gate::To(start), s);
                }
                lemma_node_with(old_n, opposite, Gate::To(start), side(opposite));
                let l = side_list(other_g0, side(opposite));
                assert(l.drop_last() =~= l.remove(l.len() - 1));
                lemma_listed_connect(other_pre, other_g0, other_gp, next_id, side(opposite), l.len() - 1, new_n);
            }
            if ok0 && random {
                assert forall|s: int| 0 <= s < 4 implies #[trigger] side_list(other.gates, s) == side_list(other_g0, s) by {}
                assert forall|x: StageId, s: int|
                    #![trigger side_of(stored(other.nodes@, x), s)]
                    has_node(other.nodes@, x) && 0 <= s < 4 && side_of(stored(other.nodes@, x), s) == Gate::Empty
                        implies side_list(other.gates, s).contains(x) by {
                    assert(side_list(other_g0, s).contains(x));
                }
            }
        }
        if !random {
            let ghost other_n0 = other.nodes@;
            assert(has_node(other_n0, next_id));
            match other.set_node_gate(next_id, opposite, Gate::To(start)) {
                Ok(()) => {},
                Err(e) => return Err(e),
            }
            proof {
                lemma_last_index(other_n0, next_id);
                let k = last_index(other_n0, next_id);
                let old_n = other_n0[k];
                let new_n = node_with(old_n, opposite, Gate::To(start));
                assert forall|s: int| 0 <= s < 4 implies gate_evolves(#[trigger] side_of(old_n, s), side_of(new_n, s)) by {
                    lemma_node_with(old_n, opposite, Gate::To(start), s);
                }
                lemma_evolve_update(other_n0, k, new_n);
                lemma_evolve_trans(other0.nodes@, other_n0, other.nodes@);
                lemma_has_node_evolve(other_n0, other.nodes@);
                assert forall|s: int| 0 <= s < 4 && (#[trigger] side_of(new_n, s)) is To implies has_node(
                    own.nodes@,
                    side_of(new_n, s)->0,
                ) by {
                    lemma_node_with(old_n, opposite, Gate::To(start), s);
                    if s != side(opposite) {
                        assert(side_of(other_n0[k], s) is To);
                    }
                }
                lemma_links_update(other_n0, own.nodes@, k, new_n);
                lemma_links_keep(own.nodes@, other_n0, other.nodes@);
                lemma_lists_shrink(other.gates, other.gates, other_n0, other.nodes@);
                assert(visited_in(other.visited@, other.nodes@)) by {
                    assert forall|j: int| 0 <= j < other.visited@.len() implies has_node(other.nodes@, #[trigger] other.visited@[j]) by {
                        assert(has_node(other_n0, other.visited@[j]));
                    }
                }
            }
        }
        let ghost own_n0 = own.nodes@;
        assert(has_node(own_n0, start));
        match own.update_node(cur) {
            Ok(()) => {},
            Err(e) => return Err(e),
        }
        proof {
            lemma_last_index(own_n0, start);
            let k = last_index(own_n0, start);
            assert(own_n0[k] == node0);
            if ok0 {
                lemma_side_lists(own_g0, own.gates, direction);
                lemma_node_with(node0, direction, Gate::To(next_id), side(direction));
                lemma_listed_connect(own_n0, own_g0, own.gates, start, side(direction), idx as int, cur);
            }
            lemma_evolve_update(own_n0, k, cur);
            lemma_evolve_trans(own0.nodes@, own_n0, own.nodes@);
            lemma_has_node_evolve(own_n0, own.nodes@);
            assert forall|s: int| 0 <= s < 4 && (#[trigger] side_of(cur, s)) is To implies has_node(
                other.nodes@,
                side_of(cur, s)->0,
            ) by {
                lemma_node_with(node0, direction, Gate::To(next_id), s);
                if s != side(direction) {
                    assert(side_of(own_n0[k], s) is To);
                }
            }
            lemma_links_update(own_n0, other.nodes@, k, cur);
            lemma_links_keep(other.nodes@, own_n0, own.nodes@);
            lemma_lists_shrink(own.gates, own.gates, own_n0, own.nodes@);
            assert(visited_in(own.visited@, own.nodes@)) by {
                assert forall|j: int| 0 <= j < own.visited@.len() implies has_node(own.nodes@, #[trigger] own.visited@[j]) by {
                    assert(has_node(own_n0, own.visited@[j]));
                }
            }
            lemma_evolve_ids(own.nodes@, own.nodes@, start);
            lemma_last_index(own.nodes@, start);
            assert(stored(own.nodes@, start) == cur);
        }
        proof {
            if hyp0 {
                let sd = side(direction);
                let so = side(opposite);
                assert(so == (sd + 2) % 4);
                assert(!random);
                let l = side_list(own_g0, sd);
                let l2 = side_list(other_g0, so);
                assert(l[idx as int] == start);
                assert(l2[l2.len() - 1] == next_id);
                assert(l2.drop_last() =~= l2.remove(l2.len() - 1));
                lemma_remove_nodup(l, idx as int);
                lemma_remove_nodup(l2, l2.len() - 1);
                assert(l2.contains(next_id));
                assert(has_node(other_h.nodes@, next_id));
                assert(side_of(stored(other_h.nodes@, next_id), so) == Gate::Empty);
                assert(side_of(stored(own_h.nodes@, start), sd) == Gate::Empty);
                assert(own.gates == own_g1);
                assert(other.gates == other_g1);
                assert forall|s: int| 0 <= s < 4 implies (#[trigger] side_list(own_g1, s)).no_duplicates() by {
                    if s != sd {
                        assert(side_list(own_g1, s) == side_list(own_g0, s));
                    }
                }
                assert forall|s: int| 0 <= s < 4 implies (#[trigger] side_list(other_g1, s)).no_duplicates() by {
                    if s != so {
                        assert(side_list(other_g1, s) == side_list(other_g0, s));
                    }
                }
                assert forall|s: int, z: StageId|
                    0 <= s < 4 && #[trigger] side_list(own_g1, s).contains(z) implies side_list(own_g0, s).contains(z) by {
                    if s == sd {
                        let j = choose|j: int| 0 <= j < side_list(own_g1, s).len() && side_list(own_g1, s)[j] == z;
                        if j < idx {
                            assert(l[j] == z);
                        } else {
                            assert(l[j + 1] == z);
                        }
                    }
                }
                assert forall|s: int, z: StageId|
                    0 <= s < 4 && #[trigger] side_list(other_g1, s).contains(z) implies side_list(other_g0, s).contains(z) by {
                    if s == so {
                        let j = choose|j: int| 0 <= j < side_list(other_g1, s).len() && side_list(other_g1, s)[j] == z;
                        assert(l2[j] == z);
                    }
                }
                assert(own.nodes@ == connected(own_h.nodes@, start, direction, next_id));
                assert(other.nodes@ == connected(other_h.nodes@, next_id, opposite, start));
                lemma_connect_lists(own_h.nodes@, own_g0, own_g1, start, direction, next_id);
                lemma_connect_lists(other_h.nodes@, other_g0, other_g1, next_id, opposite, start);
                lemma_connect_links(own_h.nodes@, other_h.nodes@, start, next_id, direction, opposite);
                lemma_connect_links(other_h.nodes@, own_h.nodes@, next_id, start, opposite, direction);
                assert forall|s: int| 0 <= s < 4 implies (#[trigger] side_list(own_g1, s)).len() == side_list(
                    other_g1,
                    (s + 2) % 4,
                ).len() by {
                    assert(side_list(own_g0, s).len() == side_list(other_g0, (s + 2) % 4).len());
                    if s != sd {
                        assert((s + 2) % 4 != so);
                        assert(side_list(own_g1, s) == side_list(own_g0, s));
                        assert(side_list(other_g1, (s + 2) % 4) == side_list(other_g0, (s + 2) % 4));
                    }
                }
                assert(linked_pair(*own, *other));
            }
        }
        if !other.is_visited(next_id) {
            let next_node = match other.find_node(next_id) {
                Some(n) => n,
                None => return Err(MobiusError::MissingNode),
            };
            proof {
                lemma_last_index(other.nodes@, next_id);
                assert(next_node.id == next_id);
            }
            let ghost own_b = *own;
            let ghost other_b = *other;
            proof {
                lemma_has_node_evolve(own0.nodes@, own.nodes@);
                lemma_has_node_evolve(other0.nodes@, other.nodes@);
                lemma_unvisited_step(own0.nodes@, own0.visited@, own.visited@, start);
                lemma_unvisited_step(other0.nodes@, other0.visited@, other.visited@, start);
                if hyp0 {
                    lemma_linked_swap(*own, *other);
                }
            }
            match traverse(next_node, other, own, rng, shuffles) {
                Ok(()) => {},
                Err(e) => {
                    proof {
                        lemma_evolve_trans(own0.nodes@, own_b.nodes@, own.nodes@);
                        lemma_evolve_trans(other0.nodes@, other_b.nodes@, other.nodes@);
                        assert(own.visited@.contains(start)) by {
                            assert(own_b.visited@.to_set().contains(start));
                        }
                    }
                    return Err(e);
                },
            }
            proof {
                lemma_evolve_trans(own0.nodes@, own_b.nodes@, own.nodes@);
                lemma_evolve_trans(other0.nodes@, other_b.nodes@, other.nodes@);
                lemma_has_node_evolve(own_b.nodes@, own.nodes@);
                lemma_evolve_ids(own_b.nodes@, own.nodes@, start);
                lemma_last_index(own_b.nodes@, start);
                assert(own.visited@.contains(start)) by {
                    assert(own_b.visited@.to_set().contains(start));
                }
                if hyp0 {
                    lemma_linked_swap(*other, *own);
                }
            }
            cur = match own.find_node(start) {
                Some(n) => n,
                None => return Err(MobiusError::MissingNode),
            };
            proof {
                let k = last_index(own_b.nodes@, start);
                assert(node_evolves(own_b.nodes@[k], own.nodes@[k]));
                lemma_empties_le(own_b.nodes@[k], own.nodes@[k]);
            }
        }
    }
    proof {
        if hyp0 {
            lemma_two_way(own.nodes@, other.nodes@);
            lemma_two_way(other.nodes@, own.nodes@);
        }
    }
    Ok(())
}

/// The exit made to lead where the node's exit in its direction leads,
/// if that exit leads somewhere.
pub open spec fn env_applied(e: EnvOverride, n: Node) -> EnvOverride {
    match gate_of(n, e.next_stage_direction) {
        Gate::To(v) => EnvOverride { var1: v.var1, var2: v.var2, ..e },
        _ => e,
    }
}

/// Makes the exits of a stage lead where its node's exits lead.
fn apply_env(envs: &mut Vec<EnvOverride>, node: Node)
    ensures
        final(envs).len() == old(envs).len(),
        forall|j: int| 0 <= j < old(envs).len() ==> #[trigger] final(envs)@[j] == env_applied(old(envs)@[j], node),
{
    let mut j: usize = 0;
    while j < envs.len()
        invariant
            j <= envs.len() == old(envs).len(),
            forall|q: int| 0 <= q < j ==> #[trigger] envs@[q] == env_applied(old(envs)@[q], node),
            forall|q: int| j <= q < envs.len() ==> #[trigger] envs@[q] == old(envs)@[q],
        decreases envs.len() - j,
    {
        match node.gate(envs[j].next_stage_direction) {
            Gate::To(v) => {
                envs[j].var1 = v.var1;
                envs[j].var2 = v.var2;
            },
            _ => {},
        }
        j += 1;
    }
}

/// The exits of every stage were made to lead where the stage's node's
/// exits lead; the stages and the exits of other entries are unchanged.
pub open spec fn gates_applied(old_ov: StageOverrides, new_ov: StageOverrides, nodes: Seq<Node>) -> bool {
    &&& new_ov.stage_overrides@ == old_ov.stage_overrides@
    &&& new_ov.environmental_overrides.len() == old_ov.environmental_overrides.len()
    &&& forall|i: int|
        0 <= i < old_ov.environmental_overrides.len() ==> {
            let old_envs = old_ov.environmental_overrides@[i]@;
            let new_envs = (#[trigger] new_ov.environmental_overrides@[i])@;
            &&& new_envs.len() == old_envs.len()
            &&& forall|j: int|
                0 <= j < old_envs.len() ==> #[trigger] new_envs[j] == if i < old_ov.stage_overrides.len() && is_stage(
                    old_ov,
                    i,
                ) {
                    env_applied(old_envs[j], stored(nodes, stage_id(old_ov, i)))
                } else {
                    old_envs[j]
                }
        }
}

/// Every stage of the list has a node.
pub open spec fn all_stages_have_nodes(ov: StageOverrides, nodes: Seq<Node>) -> bool {
    forall|i: int| 0 <= i < ov.stage_overrides.len() && is_stage(ov, i) ==> has_node(nodes, #[trigger] stage_id(ov, i))
}

/// Makes every stage's exits lead where its node's exits lead. Fails when
/// a stage has no node.
pub fn apply_node_gates(overrides: &mut StageOverrides, state: &MobiusState) -> (r: Result<(), MobiusError>)
    requires
        old(overrides).environmental_overrides.len() >= old(overrides).stage_overrides.len(),
    ensures
        r is Ok <==> all_stages_have_nodes(*old(overrides), state.nodes@),
        r is Ok ==> gates_applied(*old(overrides), *final(overrides), state.nodes@),
{
    let mut i: usize = 0;
    while i < overrides.stage_overrides.len()
        invariant
            i <= overrides.stage_overrides.len() <= overrides.environmental_overrides.len(),
            overrides.stage_overrides@ == old(overrides).stage_overrides@,
            overrides.environmental_overrides.len() == old(overrides).environmental_overrides.len(),
            forall|q: int| 0 <= q < i && is_stage(*old(overrides), q) ==> has_node(state.nodes@, #[trigger] stage_id(*old(overrides), q)),
            forall|q: int|
                0 <= q < old(overrides).environmental_overrides.len() ==> {
                    let old_envs = old(overrides).environmental_overrides@[q]@;
                    let new_envs = (#[trigger] overrides.environmental_overrides@[q])@;
                    &&& new_envs.len() == old_envs.len()
                    &&& forall|j: int|
                        0 <= j < old_envs.len() ==> #[trigger] new_envs[j] == if q < i && is_stage(*old(overrides), q) {
                            env_applied(old_envs[j], stored(state.nodes@, stage_id(*old(overrides), q)))
                        } else {
                            old_envs[j]
                        }
                },
        decreases overrides.stage_overrides.len() - i,
    {
        let var1 = overrides.stage_overrides[i].var1;
        let var2 = overrides.stage_overrides[i].var2;
        if !(var1 == 0 && var2 == 0) {
            let id = StageId { var1, var2 };
            assert(id == stage_id(*old(overrides), i as int));
            let node = match state.find_node(id) {
                Some(n) => n,
                None => {
                    assert(!all_stages_have_nodes(*old(overrides), state.nodes@));
                    return Err(MobiusError::MissingNode);
                },
            };
            let ghost before = overrides.environmental_overrides@;
            apply_env(&mut overrides.environmental_overrides[i], node);
            proof {
                assert forall|q: int| 0 <= q < old(overrides).environmental_overrides.len() implies {
                    let old_envs = old(overrides).environmental_overrides@[q]@;
                    let new_envs = (#[trigger] overrides.environmental_overrides@[q])@;
                    &&& new_envs.len() == old_envs.len()
                    &&& forall|j: int|
                        0 <= j < old_envs.len() ==> #[trigger] new_envs[j] == if q < i + 1 && is_stage(*old(overrides), q) {
                            env_applied(old_envs[j], stored(state.nodes@, stage_id(*old(overrides), q)))
                        } else {
                            old_envs[j]
                        }
                } by {
                    if q != i {
                        assert(overrides.environmental_overrides@[q] == before[q]);
                    }
                }
            }
        }
        i += 1;
    }
    Ok(())
}

/// The stage the desert is entered by.
pub open spec fn entrance() -> StageId {
    StageId { var1: 1, var2: 1 }
}

/// Every exit still to connect of a stage names the stage.
proof fn lemma_open_exits_id(envs: Seq<EnvOverride>, s: int, id: StageId, mirage_id: u16, s_noise_id: u16)
    ensures
        forall|k: int|
            0 <= k < open_exits(envs, s, id, mirage_id, s_noise_id).len() ==> #[trigger] open_exits(
                envs,
                s,
                id,
                mirage_id,
                s_noise_id,
            )[k] == id,
    decreases envs.len(),
{
    if envs.len() > 0 {
        lemma_open_exits_id(envs.drop_last(), s, id, mirage_id, s_noise_id);
        let rest = open_exits(envs.drop_last(), s, id, mirage_id, s_noise_id);
        let all = open_exits(envs, s, id, mirage_id, s_noise_id);
        assert forall|k: int| 0 <= k < all.len() implies #[trigger] all[k] == id by {
            if k < rest.len() {
                assert(rest[k] == id);
            }
        }
    }
}

/// Some exit of `envs` is on the side.
pub open spec fn has_exit_on(envs: Seq<EnvOverride>, s: int) -> bool {
    exists|j: int| 0 <= j < envs.len() && side((#[trigger] envs[j]).next_stage_direction) == s
}

/// Every stage of the map has an exit on each of its four sides.
pub open spec fn sides_have_exits(ov: StageOverrides) -> bool {
    forall|i: int, s: int|
        0 <= i < ov.stage_overrides.len() && is_stage(ov, i) && 0 <= s < 4 ==> #[trigger] has_exit_on(
            ov.environmental_overrides@[i]@,
            s,
        )
}

/// An open exit on the side puts the stage in the side's list.
proof fn lemma_open_exit_listed(envs: Seq<EnvOverride>, s: int, id: StageId, mirage_id: u16, s_noise_id: u16, j: int)
    requires
        0 <= j < envs.len(),
        side(envs[j].next_stage_direction) == s,
        !kept_exit(envs[j], mirage_id, s_noise_id),
    ensures
        open_exits(envs, s, id, mirage_id, s_noise_id).contains(id),
    decreases envs.len(),
{
    let rest = open_exits(envs.drop_last(), s, id, mirage_id, s_noise_id);
    if j < envs.len() - 1 {
        assert(envs.drop_last()[j] == envs[j]);
        lemma_open_exit_listed(envs.drop_last(), s, id, mirage_id, s_noise_id, j);
        let k = choose|k: int| 0 <= k < rest.len() && rest[k] == id;
        assert(open_exits(envs, s, id, mirage_id, s_noise_id)[k] == id);
    } else {
        assert(open_exits(envs, s, id, mirage_id, s_noise_id) == rest.push(id));
        assert(rest.push(id)[rest.len() as int] == id);
    }
}

/// When every stage has an exit on each side, every open side of a built
/// map is in the list of its side.
proof fn lemma_built_listed(ov: StageOverrides, k: int, mirage_id: u16, s_noise_id: u16)
    requires
        0 <= k <= ov.stage_overrides.len(),
        ov.environmental_overrides.len() >= ov.stage_overrides.len(),
        sides_have_exits(ov),
    ensures
        forall|x: StageId, s: int|
            #![trigger side_of(stored(nodes_upto(ov, k, mirage_id, s_noise_id), x), s)]
            has_node(nodes_upto(ov, k, mirage_id, s_noise_id), x) && 0 <= s < 4 && side_of(
                stored(nodes_upto(ov, k, mirage_id, s_noise_id), x),
                s,
            ) == Gate::Empty ==> exits_upto(ov, s, k, mirage_id, s_noise_id).contains(x),
    decreases k,
{
    if k > 0 {
        lemma_built_listed(ov, k - 1, mirage_id, s_noise_id);
        let prev = nodes_upto(ov, k - 1, mirage_id, s_noise_id);
        let cur = nodes_upto(ov, k, mirage_id, s_noise_id);
        assert forall|x: StageId, s: int|
            #![trigger side_of(stored(cur, x), s)]
            has_node(cur, x) && 0 <= s < 4 && side_of(stored(cur, x), s) == Gate::Empty implies exits_upto(
                ov,
                s,
                k,
                mirage_id,
                s_noise_id,
            ).contains(x) by {
            let a = exits_upto(ov, s, k - 1, mirage_id, s_noise_id);
            let all = exits_upto(ov, s, k, mirage_id, s_noise_id);
            if is_stage(ov, k - 1) && x == stage_id(ov, k - 1) {
                let envs = ov.environmental_overrides@[k - 1]@;
                let n = node_of(ov, k - 1, mirage_id, s_noise_id);
                assert(cur == prev.push(n));
                assert(stored(cur, x) == n);
                assert(side_of(n, s) == side_gate(envs, s, mirage_id, s_noise_id));
                assert(!side_kept(envs, s, mirage_id, s_noise_id));
                assert(has_exit_on(envs, s));
                let j = choose|j: int| 0 <= j < envs.len() && side((#[trigger] envs[j]).next_stage_direction) == s;
                lemma_open_exit_listed(envs, s, x, mirage_id, s_noise_id, j);
                let b = open_exits(envs, s, x, mirage_id, s_noise_id);
                assert(all == a + b);
                let q = choose|q: int| 0 <= q < b.len() && b[q] == x;
                assert(all[a.len() + q] == x);
            } else {
                if is_stage(ov, k - 1) {
                    let n = node_of(ov, k - 1, mirage_id, s_noise_id);
                    assert(cur == prev.push(n));
                    assert(n.id != x);
                    assert(cur.drop_last() =~= prev);
                    assert(last_index(cur, x) == last_index(prev, x));
                    lemma_last_index(prev, x);
                    lemma_last_index(cur, x);
                    let q = choose|q: int| 0 <= q < cur.len() && (#[trigger] cur[q]).id == x;
                    assert(prev[q].id == x);
                } else {
                    assert(cur == prev);
                }
                assert(stored(cur, x) == stored(prev, x));
                assert(has_node(prev, x));
                assert(a.contains(x));
                if is_stage(ov, k - 1) {
                    let b = open_exits(ov.environmental_overrides@[k - 1]@, s, stage_id(ov, k - 1), mirage_id, s_noise_id);
                    assert(all == a + b);
                    let q = choose|q: int| 0 <= q < a.len() && a[q] == x;
                    assert(all[q] == x);
                }
            }
        }
    }
}

/// A built map: every stage has a node, the lists name stages with
/// nodes, and no exit leads anywhere yet.
proof fn lemma_built(ov: StageOverrides, k: int, mirage_id: u16, s_noise_id: u16)
    requires
        0 <= k <= ov.stage_overrides.len(),
        ov.environmental_overrides.len() >= ov.stage_overrides.len(),
    ensures
        forall|s: int, j: int|
            0 <= s < 4 && 0 <= j < exits_upto(ov, s, k, mirage_id, s_noise_id).len() ==> has_node(
                nodes_upto(ov, k, mirage_id, s_noise_id),
                #[trigger] exits_upto(ov, s, k, mirage_id, s_noise_id)[j],
            ),
        forall|q: int, s: int|
            0 <= q < nodes_upto(ov, k, mirage_id, s_noise_id).len() && 0 <= s < 4 ==> !(#[trigger] side_of(
                nodes_upto(ov, k, mirage_id, s_noise_id)[q],
                s,
            ) is To),
        forall|i: int| 0 <= i < k && is_stage(ov, i) ==> has_node(nodes_upto(ov, k, mirage_id, s_noise_id), #[trigger] stage_id(ov, i)),
    decreases k,
{
    if k > 0 {
        lemma_built(ov, k - 1, mirage_id, s_noise_id);
        let prev = nodes_upto(ov, k - 1, mirage_id, s_noise_id);
        let cur = nodes_upto(ov, k, mirage_id, s_noise_id);
        assert forall|x: StageId| has_node(prev, x) implies has_node(cur, x) by {
            let q = choose|q: int| 0 <= q < prev.len() && (#[trigger] prev[q]).id == x;
            assert(cur[q] == prev[q]);
        }
        if is_stage(ov, k - 1) {
            let id = stage_id(ov, k - 1);
            assert(cur[cur.len() - 1] == node_of(ov, k - 1, mirage_id, s_noise_id));
            assert(has_node(cur, id));
            assert forall|s: int, j: int|
                0 <= s < 4 && 0 <= j < exits_upto(ov, s, k, mirage_id, s_noise_id).len() implies has_node(
                    cur,
                    #[trigger] exits_upto(ov, s, k, mirage_id, s_noise_id)[j],
                ) by {
                let a = exits_upto(ov, s, k - 1, mirage_id, s_noise_id);
                let envs = ov.environmental_overrides@[k - 1]@;
                let b = open_exits(envs, s, id, mirage_id, s_noise_id);
                lemma_open_exits_id(envs, s, id, mirage_id, s_noise_id);
                if j < a.len() {
                    assert(exits_upto(ov, s, k, mirage_id, s_noise_id)[j] == a[j]);
                    assert(has_node(prev, a[j]));
                } else {
                    assert(exits_upto(ov, s, k, mirage_id, s_noise_id)[j] == b[j - a.len()]);
                }
            }
            assert forall|q: int, s: int| 0 <= q < cur.len() && 0 <= s < 4 implies !(#[trigger] side_of(cur[q], s) is To) by {
                if q < prev.len() {
                    assert(cur[q] == prev[q]);
                }
            }
        } else {
            assert forall|s: int, j: int|
                0 <= s < 4 && 0 <= j < exits_upto(ov, s, k, mirage_id, s_noise_id).len() implies has_node(
                    cur,
                    #[trigger] exits_upto(ov, s, k, mirage_id, s_noise_id)[j],
                ) by {
                assert(has_node(prev, exits_upto(ov, s, k - 1, mirage_id, s_noise_id)[j]));
            }
        }
    }
}

/// Every side's list of exits of the built map names only stages whose
/// exit on that side is open, each once.
pub open spec fn exits_exact(ov: StageOverrides, mirage_id: u16, s_noise_id: u16) -> bool {
    let k = ov.stage_overrides.len() as int;
    let nodes = nodes_upto(ov, k, mirage_id, s_noise_id);
    &&& forall|s: int| 0 <= s < 4 ==> (#[trigger] exits_upto(ov, s, k, mirage_id, s_noise_id)).no_duplicates()
    &&& forall|s: int, x: StageId|
        0 <= s < 4 && (#[trigger] exits_upto(ov, s, k, mirage_id, s_noise_id).contains(x)) ==> has_node(nodes, x)
            && side_of(stored(nodes, x), s) == Gate::Empty
}

/// Every side of the first map has as many exits to connect as the
/// opposite side of the second.
pub open spec fn exits_balanced(ov1: StageOverrides, ov2: StageOverrides, mirage_id: u16, s_noise_id: u16) -> bool {
    forall|s: int|
        0 <= s < 4 ==> (#[trigger] exits_upto(ov1, s, ov1.stage_overrides.len() as int, mirage_id, s_noise_id)).len()
            == exits_upto(ov2, (s + 2) % 4, ov2.stage_overrides.len() as int, mirage_id, s_noise_id).len()
}

/// No exit of a built map leads anywhere yet.
proof fn lemma_built_unlinked(ov: StageOverrides, k: int, mirage_id: u16, s_noise_id: u16)
    ensures
        forall|j: int, s: int|
            0 <= j < nodes_upto(ov, k, mirage_id, s_noise_id).len() && 0 <= s < 4 ==> !(#[trigger] side_of(
                nodes_upto(ov, k, mirage_id, s_noise_id)[j],
                s,
            ) is To),
    decreases k,
{
    if k > 0 {
        lemma_built_unlinked(ov, k - 1, mirage_id, s_noise_id);
    }
}

/// A map none of whose exits leads anywhere has all its exits answered.
proof fn lemma_unlinked_links(nodes: Seq<Node>, other: Seq<Node>)
    requires
        forall|j: int, s: int| 0 <= j < nodes.len() && 0 <= s < 4 ==> !(#[trigger] side_of(nodes[j], s) is To),
    ensures
        links_back(nodes, other),
{
    assert forall|x: StageId, s: int|
        #![trigger side_of(stored(nodes, x), s)]
        has_node(nodes, x) && 0 <= s < 4 implies !(side_of(stored(nodes, x), s) is To) by {
        lemma_last_index(nodes, x);
        assert(!(side_of(nodes[last_index(nodes, x)], s) is To));
    }
}

/// Shuffled exact lists stay exact and keep their lengths.
proof fn lemma_shuffled_exact(nodes: Seq<Node>, g0: Gates, g: Gates)
    requires
        lists_exact(nodes, g0),
        forall|s: int| 0 <= s < 4 ==> (#[trigger] side_list(g, s)).to_multiset() == side_list(g0, s).to_multiset(),
    ensures
        lists_exact(nodes, g),
        forall|s: int| 0 <= s < 4 ==> (#[trigger] side_list(g, s)).len() == side_list(g0, s).len(),
{
    assert forall|s: int| 0 <= s < 4 implies (#[trigger] side_list(g, s)).no_duplicates() by {
        let l0 = side_list(g0, s);
        let l = side_list(g, s);
        l0.lemma_multiset_has_no_duplicates();
        assert(l.to_multiset() == l0.to_multiset());
        l.lemma_multiset_has_no_duplicates_conv();
    }
    assert forall|s: int, x: StageId| 0 <= s < 4 && (#[trigger] side_list(g, s).contains(x)) implies has_node(nodes, x)
        && side_of(stored(nodes, x), s) == Gate::Empty by {
        assert(side_list(g, s).to_multiset() == side_list(g0, s).to_multiset());
        assert(side_list(g, s).to_multiset().count(x) > 0);
        assert(side_list(g0, s).contains(x));
    }
    assert forall|s: int| 0 <= s < 4 implies (#[trigger] side_list(g, s)).len() == side_list(g0, s).len() by {
        assert(side_list(g, s).to_multiset() == side_list(g0, s).to_multiset());
        assert(side_list(g, s).to_multiset().len() == side_list(g0, s).to_multiset().len());
    }
}

/// What rewiring does to the two maps: their nodes only had exits
/// connected, every connected exit leads to a stage of the other map,
/// the entrance has no open exit left, and the maps' exits were made to
/// lead where their nodes' exits lead.
pub open spec fn mobius_rewired(
    old1: StageOverrides,
    new1: StageOverrides,
    old2: StageOverrides,
    new2: StageOverrides,
    n1: Seq<Node>,
    n2: Seq<Node>,
    mirage_id: u16,
    s_noise_id: u16,
) -> bool {
    &&& nodes_evolve(nodes_upto(old1, old1.stage_overrides.len() as int, mirage_id, s_noise_id), n1)
    &&& nodes_evolve(nodes_upto(old2, old2.stage_overrides.len() as int, mirage_id, s_noise_id), n2)
    &&& links_into(n1, n2)
    &&& links_into(n2, n1)
    &&& has_node(n1, entrance())
    &&& empty_directions(stored(n1, entrance())).len() == 0
    &&& gates_applied(old1, new1, n1)
    &&& gates_applied(old2, new2, n2)
}

/// Rewires the exits of the two maps of one part of the desert: builds
/// both maps, shuffles their lists of exits, walks from the entrance of
/// the first, and makes the maps' exits lead where the walk connected
/// them. It fails without the entrance; with it, it succeeds when every
/// stage of both maps has an exit on each of its sides.
pub fn random_mobius_desert_helper(
    m1: &mut StageOverrides,
    m2: &mut StageOverrides,
    shuffles: u8,
    rng: &mut Xoshiro256StarStar,
    mirage_id: u16,
    s_noise_id: u16,
) -> (r: Result<(), MobiusError>)
    requires
        old(m1).environmental_overrides.len() >= old(m1).stage_overrides.len(),
        old(m2).environmental_overrides.len() >= old(m2).stage_overrides.len(),
        exists|i: int| 0 <= i < old(m2).stage_overrides.len() && is_stage(*old(m2), i),
    ensures
        !has_node(nodes_upto(*old(m1), old(m1).stage_overrides.len() as int, mirage_id, s_noise_id), entrance())
            ==> r is Err,
        has_node(nodes_upto(*old(m1), old(m1).stage_overrides.len() as int, mirage_id, s_noise_id), entrance())
            && sides_have_exits(*old(m1)) && sides_have_exits(*old(m2)) ==> r is Ok,
        r is Ok ==> exists|n1: Seq<Node>, n2: Seq<Node>|
            #[trigger] mobius_rewired(*old(m1), *final(m1), *old(m2), *final(m2), n1, n2, mirage_id, s_noise_id),
        r is Ok && sides_have_exits(*old(m1)) && sides_have_exits(*old(m2)) && exits_exact(*old(m1), mirage_id, s_noise_id)
            && exits_exact(*old(m2), mirage_id, s_noise_id) && exits_balanced(*old(m1), *old(m2), mirage_id, s_noise_id)
            ==> exists|n1: Seq<Node>, n2: Seq<Node>|
            #[trigger] mobius_rewired(*old(m1), *final(m1), *old(m2), *final(m2), n1, n2, mirage_id, s_noise_id)
                && two_way(n1, n2) && two_way(n2, n1),
{
    let mut st1 = build_mobius_state(m1, mirage_id, s_noise_id);
    let mut st2 = build_mobius_state(m2, mirage_id, s_noise_id);
    let ghost b1 = st1;
    let ghost b2 = st2;
    proof {
        lemma_built(*m1, m1.stage_overrides.len() as int, mirage_id, s_noise_id);
        lemma_built(*m2, m2.stage_overrides.len() as int, mirage_id, s_noise_id);
        let w = choose|i: int| 0 <= i < old(m2).stage_overrides.len() && is_stage(*old(m2), i);
        assert(has_node(st2.nodes@, stage_id(*m2, w)));
    }
    st1.gates.shuffle_all(shuffles, rng);
    st2.gates.shuffle_all(shuffles, rng);
    let entrance_id = StageId { var1: 1, var2: 1 };
    let entrance_node = match st1.find_node(entrance_id) {
        Some(n) => n,
        None => return Err(MobiusError::MissingNode),
    };
    proof {
        lemma_last_index(st1.nodes@, entrance_id);
        assert forall|s: int, k: int| 0 <= s < 4 && 0 <= k < side_list(st1.gates, s).len() implies has_node(
            st1.nodes@,
            #[trigger] side_list(st1.gates, s)[k],
        ) by {
            let x = side_list(st1.gates, s)[k];
            assert(side_list(st1.gates, s).to_multiset() == side_list(b1.gates, s).to_multiset());
            assert(side_list(st1.gates, s).contains(x));
            assert(side_list(b1.gates, s).to_multiset().count(x) > 0);
            assert(side_list(b1.gates, s).contains(x));
            let j = choose|j: int| 0 <= j < side_list(b1.gates, s).len() && side_list(b1.gates, s)[j] == x;
            assert(side_list(b1.gates, s) == exits_upto(*m1, s, m1.stage_overrides.len() as int, mirage_id, s_noise_id));
        }
        assert forall|s: int, k: int| 0 <= s < 4 && 0 <= k < side_list(st2.gates, s).len() implies has_node(
            st2.nodes@,
            #[trigger] side_list(st2.gates, s)[k],
        ) by {
            let x = side_list(st2.gates, s)[k];
            assert(side_list(st2.gates, s).to_multiset() == side_list(b2.gates, s).to_multiset());
            assert(side_list(st2.gates, s).contains(x));
            assert(side_list(b2.gates, s).to_multiset().count(x) > 0);
            assert(side_list(b2.gates, s).contains(x));
            let j = choose|j: int| 0 <= j < side_list(b2.gates, s).len() && side_list(b2.gates, s)[j] == x;
            assert(side_list(b2.gates, s) == exits_upto(*m2, s, m2.stage_overrides.len() as int, mirage_id, s_noise_id));
        }
        assert(pair_wf(st1, st2));
        if sides_have_exits(*m1) && sides_have_exits(*m2) {
            lemma_built_listed(*m1, m1.stage_overrides.len() as int, mirage_id, s_noise_id);
            lemma_built_listed(*m2, m2.stage_overrides.len() as int, mirage_id, s_noise_id);
            assert forall|x: StageId, s: int|
                #![trigger side_of(stored(st1.nodes@, x), s)]
                has_node(st1.nodes@, x) && 0 <= s < 4 && side_of(stored(st1.nodes@, x), s) == Gate::Empty
                    implies side_list(st1.gates, s).contains(x) by {
                assert(side_list(b1.gates, s) == exits_upto(*m1, s, m1.stage_overrides.len() as int, mirage_id, s_noise_id));
                assert(side_list(b1.gates, s).contains(x));
                assert(side_list(st1.gates, s).to_multiset() == side_list(b1.gates, s).to_multiset());
                assert(side_list(b1.gates, s).to_multiset().count(x) > 0);
            }
            assert forall|x: StageId, s: int|
                #![trigger side_of(stored(st2.nodes@, x), s)]
                has_node(st2.nodes@, x) && 0 <= s < 4 && side_of(stored(st2.nodes@, x), s) == Gate::Empty
                    implies side_list(st2.gates, s).contains(x) by {
                assert(side_list(b2.gates, s) == exits_upto(*m2, s, m2.stage_overrides.len() as int, mirage_id, s_noise_id));
                assert(side_list(b2.gates, s).contains(x));
                assert(side_list(st2.gates, s).to_multiset() == side_list(b2.gates, s).to_multiset());
                assert(side_list(b2.gates, s).to_multiset().count(x) > 0);
            }
        }
    }
    let ghost linked = sides_have_exits(*m1) && sides_have_exits(*m2) && exits_exact(*m1, mirage_id, s_noise_id)
        && exits_exact(*m2, mirage_id, s_noise_id) && exits_balanced(*m1, *m2, mirage_id, s_noise_id);
    proof {
        if linked {
            let k1 = m1.stage_overrides.len() as int;
            let k2 = m2.stage_overrides.len() as int;
            assert forall|s: int| 0 <= s < 4 implies #[trigger] side_list(b1.gates, s) == exits_upto(*m1, s, k1, mirage_id, s_noise_id) by {}
            assert forall|s: int| 0 <= s < 4 implies #[trigger] side_list(b2.gates, s) == exits_upto(*m2, s, k2, mirage_id, s_noise_id) by {}
            assert(lists_exact(b1.nodes@, b1.gates));
            assert(lists_exact(b2.nodes@, b2.gates));
            assert forall|s: int| 0 <= s < 4 implies (#[trigger] side_list(st1.gates, s)).to_multiset() == side_list(
                b1.gates,
                s,
            ).to_multiset() by {}
            assert forall|s: int| 0 <= s < 4 implies (#[trigger] side_list(st2.gates, s)).to_multiset() == side_list(
                b2.gates,
                s,
            ).to_multiset() by {}
            lemma_shuffled_exact(st1.nodes@, b1.gates, st1.gates);
            lemma_shuffled_exact(st2.nodes@, b2.gates, st2.gates);
            assert forall|s: int| 0 <= s < 4 implies (#[trigger] side_list(st1.gates, s)).len() == side_list(
                st2.gates,
                (s + 2) % 4,
            ).len() by {
                assert(side_list(st1.gates, s).len() == side_list(b1.gates, s).len());
                assert(side_list(st2.gates, (s + 2) % 4).len() == side_list(b2.gates, (s + 2) % 4).len());
                assert(exits_upto(*m1, s, k1, mirage_id, s_noise_id).len() == exits_upto(*m2, (s + 2) % 4, k2, mirage_id, s_noise_id).len());
            }
            lemma_built_unlinked(*m1, k1, mirage_id, s_noise_id);
            lemma_built_unlinked(*m2, k2, mirage_id, s_noise_id);
            lemma_unlinked_links(st1.nodes@, st2.nodes@);
            lemma_unlinked_links(st2.nodes@, st1.nodes@);
            assert(linked_pair(st1, st2));
            assert(open_listed(st1.nodes@, st1.gates));
            assert(open_listed(st2.nodes@, st2.gates));
        }
    }
    let ghost e1 = st1.nodes@;
    let ghost e2 = st2.nodes@;
    match traverse(entrance_node, &mut st1, &mut st2, rng, shuffles) {
        Ok(()) => {},
        Err(e) => return Err(e),
    }
    proof {
        lemma_has_node_evolve(e1, st1.nodes@);
        lemma_has_node_evolve(e2, st2.nodes@);
        assert forall|i: int| 0 <= i < m1.stage_overrides.len() && is_stage(*m1, i) implies has_node(
            st1.nodes@,
            #[trigger] stage_id(*m1, i),
        ) by {
            assert(has_node(e1, stage_id(*m1, i)));
        }
        assert forall|i: int| 0 <= i < m2.stage_overrides.len() && is_stage(*m2, i) implies has_node(
            st2.nodes@,
            #[trigger] stage_id(*m2, i),
        ) by {
            assert(has_node(e2, stage_id(*m2, i)));
        }
    }
    let ghost o1 = *m1;
    let ghost o2 = *m2;
    match apply_node_gates(m1, &st1) {
        Ok(()) => {},
        Err(e) => return Err(e),
    }
    match apply_node_gates(m2, &st2) {
        Ok(()) => {},
        Err(e) => return Err(e),
    }
    proof {
        assert(has_node(st1.nodes@, entrance()));
        assert(mobius_rewired(*old(m1), *m1, *old(m2), *m2, st1.nodes@, st2.nodes@, mirage_id, s_noise_id));
        if linked {
            assert(two_way(st1.nodes@, st2.nodes@) && two_way(st2.nodes@, st1.nodes@));
        }
    }
    Ok(())
}

/// Rewires both parts of the Mobius Desert: the maps of its first part
/// (whose exits to the mirage and to S. Noise are kept) and those of its
/// second. It succeeds when both first maps have the entrance and every
/// stage has an exit on each of its sides.
pub fn random_mobius_desert(
    first_1: &mut StageOverrides,
    first_2: &mut StageOverrides,
    second_1: &mut StageOverrides,
    second_2: &mut StageOverrides,
    shuffles: u8,
    rng: &mut Xoshiro256StarStar,
) -> (r: Result<(), MobiusError>)
    requires
        old(first_1).environmental_overrides.len() >= old(first_1).stage_overrides.len(),
        old(first_2).environmental_overrides.len() >= old(first_2).stage_overrides.len(),
        old(second_1).environmental_overrides.len() >= old(second_1).stage_overrides.len(),
        old(second_2).environmental_overrides.len() >= old(second_2).stage_overrides.len(),
        exists|i: int| 0 <= i < old(first_2).stage_overrides.len() && is_stage(*old(first_2), i),
        exists|i: int| 0 <= i < old(second_2).stage_overrides.len() && is_stage(*old(second_2), i),
    ensures
        has_node(nodes_upto(*old(first_1), old(first_1).stage_overrides.len() as int, 599, 602), entrance())
            && has_node(nodes_upto(*old(second_1), old(second_1).stage_overrides.len() as int, 707, 704), entrance())
            && sides_have_exits(*old(first_1)) && sides_have_exits(*old(first_2)) && sides_have_exits(*old(second_1))
            && sides_have_exits(*old(second_2)) ==> r is Ok,
        r is Ok ==> exists|n1: Seq<Node>, n2: Seq<Node>|
            #[trigger] mobius_rewired(*old(first_1), *final(first_1), *old(first_2), *final(first_2), n1, n2, 599, 602),
        r is Ok ==> exists|n1: Seq<Node>, n2: Seq<Node>|
            #[trigger] mobius_rewired(*old(second_1), *final(second_1), *old(second_2), *final(second_2), n1, n2, 707, 704),
{
    match random_mobius_desert_helper(first_1, first_2, shuffles, rng, 599, 602) {
        Ok(()) => {},
        Err(e) => return Err(e),
    }
    random_mobius_desert_helper(second_1, second_2, shuffles, rng, 707, 704)
}

} // verus!

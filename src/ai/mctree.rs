use vstd::prelude::*;
use crate::ai::{choose_one, StatelessAI};
use crate::ai::mc::{playout_end, random_playout_board};
use crate::ai::ucb::{ucb_units, ucb_value};
use crate::game::{play, BoardView, Color, Position2, State, Structure, VictoryState};

verus! {

/// The place of a node in the arena.
#[derive(Copy, Clone, Debug, PartialEq, Eq, Structural)]
pub struct Index(pub usize);

/// What a node holds for one column.
#[derive(Copy, Clone, Debug, PartialEq, Eq, Structural)]
pub enum ChildRef {
    IllegalMove,
    NotYetExpanded,
    Expanded(Index),
}

/// A node of the search tree: wins minus losses for the player who moved
/// into it, its visits, its parent and its children by column.
#[derive(Copy, Clone, Debug)]
pub struct Node {
    pub win_count: i64,
    pub simulation_count: u64,
    pub parent: Option<Index>,
    pub children: [ChildRef; 16],
}

impl Node {
    pub fn new(parent_index: Option<Index>, state: &State) -> (r: Node)
        requires
            state.wf(),
        ensures
            r.win_count == 0,
            r.simulation_count == 0,
            r.parent == parent_index,
            forall|c: int|
                0 <= c < 16 ==> #[trigger] r.children@[c] == if state.column_height@[c] == 4 {
                    ChildRef::IllegalMove
                } else {
                    ChildRef::NotYetExpanded
                },
    {
        let mut children = [ChildRef::NotYetExpanded; 16];
        let mut i: usize = 0;
        while i < 16
            invariant
                i <= 16,
                forall|c: int|
                    0 <= c < i ==> #[trigger] children@[c] == if state.column_height@[c] == 4 {
                        ChildRef::IllegalMove
                    } else {
                        ChildRef::NotYetExpanded
                    },
            decreases 16 - i,
        {
            if state.column_height[i] == 4 {
                children[i] = ChildRef::IllegalMove;
            } else {
                children[i] = ChildRef::NotYetExpanded;
            }
            i = i + 1;
        }
        Node { win_count: 0, simulation_count: 0, parent: parent_index, children }
    }
}

/// The number of steps up from node `from` to node `to`, if `to` is an
/// ancestor of `from` or `from` itself.
pub open spec fn steps_up(nodes: Seq<Node>, from: int, to: int) -> Option<nat>
    decreases from,
{
    if from < 0 || from >= nodes.len() {
        None
    } else if from == to {
        Some(0)
    } else {
        match nodes[from].parent {
            Some(p) => if 0 <= p.0 < from {
                match steps_up(nodes, p.0 as int, to) {
                    Some(d) => Some(d + 1),
                    None => None,
                }
            } else {
                None
            },
            None => None,
        }
    }
}

/// `value` at an even number of steps, `-value` at an odd one.
pub open spec fn signed(value: int, d: nat) -> int {
    if d % 2 == 0 {
        value
    } else {
        -value
    }
}

/// `after` is `before` with one more visit on each node from `leaf` up to
/// the root, and `value` added to their tallies with a sign that flips at
/// each step up.
pub open spec fn backpropagated(before: Seq<Node>, after: Seq<Node>, leaf: int, value: int) -> bool {
    &&& after.len() == before.len()
    &&& forall|i: int|
        0 <= i < before.len() ==> {
            &&& (#[trigger] after[i]).parent == before[i].parent
            &&& after[i].children == before[i].children
            &&& match steps_up(before, leaf, i) {
                Some(d) => {
                    &&& after[i].win_count == before[i].win_count + signed(value, d)
                    &&& after[i].simulation_count == before[i].simulation_count + 1
                },
                None => {
                    &&& after[i].win_count == before[i].win_count
                    &&& after[i].simulation_count == before[i].simulation_count
                },
            }
        }
}

/// `after` keeps every node of `before` with its tallies and parent, keeps
/// every decided child, and adds at most one unvisited node.
pub open spec fn extends(before: Seq<Node>, after: Seq<Node>) -> bool {
    &&& before.len() <= after.len() <= before.len() + 1
    &&& forall|i: int|
        0 <= i < before.len() ==> {
            &&& (#[trigger] after[i]).win_count == before[i].win_count
            &&& after[i].simulation_count == before[i].simulation_count
            &&& after[i].parent == before[i].parent
            &&& forall|c: int|
                0 <= c < 16 && !(before[i].children@[c] is NotYetExpanded) ==> #[trigger] after[i].children@[c]
                    == before[i].children@[c]
        }
    &&& after.len() == before.len() + 1 ==> after[before.len() as int].simulation_count == 0
        && after[before.len() as int].win_count == 0
}

/// The child of node `i` for column `c` was visited, so it has a UCB1 value.
pub open spec fn scorable(nodes: Seq<Node>, i: int, c: int) -> bool {
    &&& nodes[i].children@[c] is Expanded
    &&& nodes[(nodes[i].children@[c]->0).0 as int].simulation_count > 0
}

/// The UCB1 value of the child of node `i` for column `c`.
pub open spec fn child_score(nodes: Seq<Node>, i: int, c: int, exploration: int) -> int {
    let child = nodes[(nodes[i].children@[c]->0).0 as int];
    ucb_units(child.win_count as int, child.simulation_count as int, nodes[i].simulation_count as int, exploration)
}

/// The visits of the child of node `i` for column `c`, or 0 when that
/// column is not expanded.
pub open spec fn child_visits(nodes: Seq<Node>, i: int, c: int) -> int {
    match nodes[i].children@[c] {
        ChildRef::Expanded(j) => nodes[j.0 as int].simulation_count as int,
        _ => 0,
    }
}

/// The visits of the expanded children of node `i` in the columns below `k`.
pub open spec fn children_visits(nodes: Seq<Node>, i: int, k: int) -> int
    decreases k,
{
    if k <= 0 {
        0
    } else {
        children_visits(nodes, i, k - 1) + child_visits(nodes, i, k - 1)
    }
}

/// Every node has at least as many visits as its expanded children
/// together.
pub open spec fn visits_cover_children(nodes: Seq<Node>) -> bool {
    forall|i: int| 0 <= i < nodes.len() ==> #[trigger] children_visits(nodes, i, 16) <= nodes[i].simulation_count
}

/// No two columns of a node lead to the same child.
pub open spec fn distinct_children(nodes: Seq<Node>) -> bool {
    forall|i: int, c1: int, c2: int|
        0 <= i < nodes.len() && 0 <= c1 < c2 < 16 && (#[trigger] nodes[i].children@[c1]) is Expanded
            && (#[trigger] nodes[i].children@[c2]) is Expanded ==> nodes[i].children@[c1] != nodes[i].children@[c2]
}

proof fn lemma_children_visits_none(nodes: Seq<Node>, i: int, k: int)
    requires
        forall|c: int| 0 <= c < k ==> !(#[trigger] nodes[i].children@[c] is Expanded),
    ensures
        children_visits(nodes, i, k) == 0,
    decreases k,
{
    if k > 0 {
        lemma_children_visits_none(nodes, i, k - 1);
    }
}

proof fn lemma_children_visits_same(a: Seq<Node>, b: Seq<Node>, i: int, k: int)
    requires
        forall|c: int| 0 <= c < k ==> #[trigger] child_visits(a, i, c) == child_visits(b, i, c),
    ensures
        children_visits(a, i, k) == children_visits(b, i, k),
    decreases k,
{
    if k > 0 {
        lemma_children_visits_same(a, b, i, k - 1);
        assert(child_visits(a, i, k - 1) == child_visits(b, i, k - 1));
    }
}

/// The child of node `i` for column `c` lies on the path up from `leaf`.
pub open spec fn child_on_path(nodes: Seq<Node>, leaf: int, i: int, c: int) -> bool {
    &&& nodes[i].children@[c] is Expanded
    &&& steps_up(nodes, leaf, (nodes[i].children@[c]->0).0 as int) is Some
}

proof fn lemma_children_visits_backprop(before: Seq<Node>, after: Seq<Node>, leaf: int, value: int, i: int, k: int)
    requires
        backpropagated(before, after, leaf, value),
        0 <= i < before.len(),
        0 <= k <= 16,
        forall|c: int|
            0 <= c < 16 && (#[trigger] before[i].children@[c]) is Expanded ==> 0 <= (before[i].children@[c]->0).0
                < before.len(),
        forall|c1: int, c2: int|
            0 <= c1 < c2 < 16 ==> !(#[trigger] child_on_path(before, leaf, i, c1) && #[trigger] child_on_path(
                before,
                leaf,
                i,
                c2,
            )),
    ensures
        (exists|c: int| 0 <= c < k && #[trigger] child_on_path(before, leaf, i, c)) ==> children_visits(after, i, k)
            == children_visits(before, i, k) + 1,
        !(exists|c: int| 0 <= c < k && #[trigger] child_on_path(before, leaf, i, c)) ==> children_visits(after, i, k)
            == children_visits(before, i, k),
    decreases k,
{
    if k > 0 {
        lemma_children_visits_backprop(before, after, leaf, value, i, k - 1);
        let c = k - 1;
        assert(after[i].children == before[i].children);
        if before[i].children@[c] is Expanded {
            let j = (before[i].children@[c]->0).0 as int;
            assert(after[j].simulation_count == before[j].simulation_count + if steps_up(before, leaf, j) is Some {
                1int
            } else {
                0int
            });
        }
        if child_on_path(before, leaf, i, c) {
            assert forall|c2: int| 0 <= c2 < k - 1 implies !#[trigger] child_on_path(before, leaf, i, c2) by {
                assert(!(child_on_path(before, leaf, i, c2) && child_on_path(before, leaf, i, c)));
            }
        } else {
            if exists|c2: int| 0 <= c2 < k && #[trigger] child_on_path(before, leaf, i, c2) {
                let c2 = choose|c2: int| 0 <= c2 < k && #[trigger] child_on_path(before, leaf, i, c2);
                assert(c2 < k - 1);
            }
        }
    }
}

proof fn lemma_backprop_cover(t: VecTree, after: Seq<Node>, leaf: int, value: int)
    requires
        t.wf(),
        0 <= leaf < t.nodes().len(),
        backpropagated(t.nodes(), after, leaf, value),
    ensures
        visits_cover_children(after),
        distinct_children(after),
{
    let n = t.nodes();
    assert forall|i: int| 0 <= i < after.len() implies #[trigger] children_visits(after, i, 16)
        <= after[i].simulation_count by {
        assert forall|c: int|
            0 <= c < 16 && (#[trigger] n[i].children@[c]) is Expanded implies 0 <= (n[i].children@[c]->0).0 < n.len() by {
            assert(child_ok(n, t.boards@, t.rules@, i, c));
        }
        assert forall|c1: int, c2: int|
            0 <= c1 < c2 < 16 implies !(#[trigger] child_on_path(n, leaf, i, c1) && #[trigger] child_on_path(
                n,
                leaf,
                i,
                c2,
            )) by {
            if child_on_path(n, leaf, i, c1) && child_on_path(n, leaf, i, c2) {
                let j1 = (n[i].children@[c1]->0).0 as int;
                let j2 = (n[i].children@[c2]->0).0 as int;
                assert(child_ok(n, t.boards@, t.rules@, i, c1));
                assert(child_ok(n, t.boards@, t.rules@, i, c2));
                lemma_steps_parent(n, leaf, j1);
                lemma_steps_parent(n, leaf, j2);
                lemma_steps_unique(n, leaf, j1, j2);
                assert(n[i].children@[c1] != n[i].children@[c2]);
            }
        }
        lemma_children_visits_backprop(n, after, leaf, value, i, 16);
        assert(children_visits(n, i, 16) <= n[i].simulation_count);
        if exists|c: int| 0 <= c < 16 && #[trigger] child_on_path(n, leaf, i, c) {
            let c = choose|c: int| 0 <= c < 16 && #[trigger] child_on_path(n, leaf, i, c);
            let j = (n[i].children@[c]->0).0 as int;
            assert(child_ok(n, t.boards@, t.rules@, i, c));
            lemma_steps_parent(n, leaf, j);
        }
    }
    assert forall|i: int, c1: int, c2: int|
        0 <= i < after.len() && 0 <= c1 < c2 < 16 && (#[trigger] after[i].children@[c1]) is Expanded
            && (#[trigger] after[i].children@[c2]) is Expanded implies after[i].children@[c1] != after[i].children@[c2] by {
        assert(after[i].children == n[i].children);
    }
}

spec fn child_ok(nodes: Seq<Node>, boards: Seq<BoardView>, st: Structure, i: int, c: int) -> bool {
    match nodes[i].children@[c] {
        ChildRef::IllegalMove => boards[i].heights[c] == 4,
        ChildRef::NotYetExpanded => boards[i].heights[c] < 4,
        ChildRef::Expanded(j) => {
            &&& boards[i].heights[c] < 4
            &&& i < j.0 < nodes.len()
            &&& nodes[j.0 as int].parent == Some(Index(i as usize))
            &&& boards[j.0 as int] == play(boards[i], st, c)
        },
    }
}

/// The search tree: an arena of nodes that only grows, with node 0 as root.
pub struct VecTree {
    storage: Vec<Node>,
    boards: Ghost<Seq<BoardView>>,
    rules: Ghost<Structure>,
}

impl VecTree {
    /// The nodes, by index.
    pub closed spec fn nodes(&self) -> Seq<Node> {
        self.storage@
    }

    /// The board that each node stands for.
    pub closed spec fn boards(&self) -> Seq<BoardView> {
        self.boards@
    }

    /// The shapes of the game searched.
    pub closed spec fn rules(&self) -> Structure {
        self.rules@
    }

    pub closed spec fn wf(&self) -> bool {
        let n = self.storage@;
        let b = self.boards@;
        &&& n.len() >= 1
        &&& b.len() == n.len()
        &&& n[0].parent is None
        &&& forall|i: int| 1 <= i < n.len() ==> (#[trigger] n[i]).parent is Some && (n[i].parent->0).0 < i
        &&& forall|i: int, c: int| 0 <= i < n.len() && 0 <= c < 16 ==> #[trigger] child_ok(n, b, self.rules@, i, c)
        &&& forall|i: int|
            0 <= i < n.len() ==> -((#[trigger] n[i]).simulation_count as int) <= n[i].win_count
                <= n[i].simulation_count
        &&& forall|i: int| 0 <= i < n.len() ==> (#[trigger] n[i]).simulation_count <= n[0].simulation_count
        &&& forall|i: int|
            1 <= i < n.len() ==> (#[trigger] n[i]).simulation_count <= n[(n[i].parent->0).0 as int].simulation_count
        &&& n[0].simulation_count <= u32::MAX
        &&& distinct_children(n)
        &&& visits_cover_children(n)
    }

    /// A tree of one unvisited root for `state`.
    pub fn new(capacity: usize, state: &State) -> (r: VecTree)
        requires
            state.wf(),
        ensures
            r.wf(),
            r.nodes().len() == 1,
            r.nodes()[0].simulation_count == 0,
            r.nodes()[0].win_count == 0,
            r.boards()[0] == state.view(),
            r.rules() == state.rules(),
            forall|c: int| 0 <= c < 16 ==> (#[trigger] r.nodes()[0].children@[c] is IllegalMove) == (
            state.column_height@[c] == 4),
    {
        let mut storage = Vec::with_capacity(capacity);
        storage.push(Node::new(None, state));
        let ghost first: Seq<BoardView> = Seq::empty().push(state.view());
        let r = VecTree { storage, boards: Ghost(first), rules: Ghost(state.rules()) };
        proof {
            assert forall|c: int| 0 <= c < 16 implies !(#[trigger] r.storage@[0].children@[c] is Expanded) by {
                assert(r.storage@[0].children@[c] == if state.column_height@[c] == 4 {
                    ChildRef::IllegalMove
                } else {
                    ChildRef::NotYetExpanded
                });
            }
            lemma_children_visits_none(r.storage@, 0, 16);
        }
        assert forall|i: int, c: int| 0 <= i < r.storage@.len() && 0 <= c < 16 implies #[trigger] child_ok(
            r.storage@,
            r.boards@,
            r.rules@,
            i,
            c,
        ) by {
            assert(r.storage@[0].children@[c] == if state.column_height@[c] == 4 {
                ChildRef::IllegalMove
            } else {
                ChildRef::NotYetExpanded
            });
        }
        r
    }

    /// The number of nodes.
    pub fn node_count(&self) -> (r: usize)
        ensures
            r == self.nodes().len(),
    {
        self.storage.len()
    }

    /// Wins minus losses recorded at node `index`.
    pub fn win_count(&self, index: usize) -> (r: i64)
        requires
            index < self.nodes().len(),
        ensures
            r == self.nodes()[index as int].win_count,
    {
        self.storage[index].win_count
    }

    /// Visits recorded at node `index`.
    pub fn simulation_count(&self, index: usize) -> (r: u64)
        requires
            index < self.nodes().len(),
        ensures
            r == self.nodes()[index as int].simulation_count,
    {
        self.storage[index].simulation_count
    }

    /// The parent of node `index`.
    pub fn parent(&self, index: usize) -> (r: Option<Index>)
        requires
            index < self.nodes().len(),
        ensures
            r == self.nodes()[index as int].parent,
    {
        self.storage[index].parent
    }
}

/// Every node but the root has a parent of smaller index.
pub open spec fn tree_shaped(nodes: Seq<Node>) -> bool {
    &&& nodes.len() >= 1
    &&& nodes[0].parent is None
    &&& forall|i: int| 1 <= i < nodes.len() ==> (#[trigger] nodes[i]).parent is Some && (nodes[i].parent->0).0 < i
}

proof fn lemma_steps_down(nodes: Seq<Node>, from: int, to: int)
    requires
        steps_up(nodes, from, to) is Some,
    ensures
        0 <= to <= from < nodes.len(),
        (steps_up(nodes, from, to)->0 == 0) == (from == to),
    decreases from,
{
    if from != to {
        let p = (nodes[from].parent->0).0 as int;
        lemma_steps_down(nodes, p, to);
    }
}

proof fn lemma_steps_unique(nodes: Seq<Node>, from: int, a: int, b: int)
    requires
        steps_up(nodes, from, a) is Some,
        steps_up(nodes, from, a) == steps_up(nodes, from, b),
    ensures
        a == b,
    decreases from,
{
    lemma_steps_down(nodes, from, a);
    lemma_steps_down(nodes, from, b);
    if from != a && from != b {
        let p = (nodes[from].parent->0).0 as int;
        lemma_steps_unique(nodes, p, a, b);
    }
}

proof fn lemma_steps_parent(nodes: Seq<Node>, from: int, x: int)
    requires
        steps_up(nodes, from, x) is Some,
        nodes[x].parent is Some,
        (nodes[x].parent->0).0 < x,
    ensures
        steps_up(nodes, from, (nodes[x].parent->0).0 as int) == Some((steps_up(nodes, from, x)->0 + 1) as nat),
    decreases from,
{
    lemma_steps_down(nodes, from, x);
    let px = (nodes[x].parent->0).0 as int;
    if from == x {
        assert(steps_up(nodes, px, px) == Some(0nat));
    } else {
        let p = (nodes[from].parent->0).0 as int;
        lemma_steps_parent(nodes, p, x);
    }
}

proof fn lemma_steps_end(nodes: Seq<Node>, from: int, r: int, x: int)
    requires
        steps_up(nodes, from, r) is Some,
        nodes[r].parent is None,
        steps_up(nodes, from, x) is Some,
    ensures
        steps_up(nodes, from, x)->0 <= steps_up(nodes, from, r)->0,
    decreases from,
{
    lemma_steps_down(nodes, from, r);
    lemma_steps_down(nodes, from, x);
    if from != x && from != r {
        let p = (nodes[from].parent->0).0 as int;
        lemma_steps_end(nodes, p, r, x);
    }
}

proof fn lemma_steps_reach_root(nodes: Seq<Node>, from: int)
    requires
        tree_shaped(nodes),
        0 <= from < nodes.len(),
    ensures
        steps_up(nodes, from, 0) is Some,
    decreases from,
{
    if from != 0 {
        let p = (nodes[from].parent->0).0 as int;
        lemma_steps_reach_root(nodes, p);
    }
}

impl VecTree {
    /// Adds `value` to the tally of node `node_index` and one visit, then
    /// walks up to the root, negating `value` at each step.
    pub fn backpropagate(&mut self, node_index: Index, value: i64)
        requires
            old(self).wf(),
            node_index.0 < old(self).nodes().len(),
            -1 <= value <= 1,
            old(self).nodes()[0].simulation_count < u32::MAX,
        ensures
            final(self).wf(),
            backpropagated(old(self).nodes(), final(self).nodes(), node_index.0 as int, value as int),
            final(self).nodes()[0].simulation_count == old(self).nodes()[0].simulation_count + 1,
            final(self).boards() == old(self).boards(),
            final(self).rules() == old(self).rules(),
    {
        let ghost before = self.storage@;
        let ghost leaf = node_index.0 as int;
        let mut current: usize = node_index.0;
        let mut v: i64 = value;
        let ghost mut d: nat = 0;
        assert(tree_shaped(before));
        loop
            invariant_except_break
                forall|i: int|
                    0 <= i < before.len() ==> {
                        &&& (#[trigger] self.storage@[i]).parent == before[i].parent
                        &&& self.storage@[i].children == before[i].children
                        &&& match steps_up(before, leaf, i) {
                            Some(e) => if e < d {
                                &&& self.storage@[i].win_count == before[i].win_count + signed(value as int, e)
                                &&& self.storage@[i].simulation_count == before[i].simulation_count + 1
                            } else {
                                &&& self.storage@[i].win_count == before[i].win_count
                                &&& self.storage@[i].simulation_count == before[i].simulation_count
                            },
                            None => {
                                &&& self.storage@[i].win_count == before[i].win_count
                                &&& self.storage@[i].simulation_count == before[i].simulation_count
                            },
                        }
                    },
            invariant
                old(self).wf(),
                before == old(self).storage@,
                tree_shaped(before),
                self.boards == old(self).boards,
                self.rules == old(self).rules,
                self.storage@.len() == before.len(),
                0 <= current < before.len(),
                0 <= leaf < before.len(),
                steps_up(before, leaf, current as int) == Some(d),
                v == signed(value as int, d),
                -1 <= value <= 1,
            ensures
                self.storage@.len() == before.len(),
                self.boards == old(self).boards,
                self.rules == old(self).rules,
                backpropagated(before, self.storage@, leaf, value as int),
            decreases current,
        {
            let ghost mid = self.storage@;
            proof {
                assert(self.storage@[current as int].win_count == before[current as int].win_count);
                assert(before[current as int].simulation_count <= before[0].simulation_count);
            }
            let mut node = self.storage[current];
            node.win_count = node.win_count + v;
            node.simulation_count = node.simulation_count + 1;
            self.storage.set(current, node);
            proof {
                assert forall|i: int| 0 <= i < before.len() && i != current implies #[trigger] self.storage@[i]
                    == mid[i] by {}
                assert forall|i: int|
                    0 <= i < before.len() && steps_up(before, leaf, i) == Some(d) implies i == current by {
                    lemma_steps_unique(before, leaf, i, current as int);
                }
            }
            match node.parent {
                Some(p) => {
                    proof {
                        if current == 0 {
                            assert(before[0].parent is None);
                        }
                        lemma_steps_parent(before, leaf, current as int);
                        assert(forall|i: int| 0 <= i < before.len() && #[trigger] steps_up(before, leaf, i) == Some(
                            (d + 1) as nat) ==> i == p.0) by {
                            assert forall|i: int|
                                0 <= i < before.len() && #[trigger] steps_up(before, leaf, i) == Some(
                                    (d + 1) as nat) implies i == p.0 by {
                                lemma_steps_unique(before, leaf, i, p.0 as int);
                            }
                        }
                    }
                    current = p.0;
                    v = -v;
                    proof {
                        d = d + 1;
                    }
                },
                None => {
                    proof {
                        assert forall|i: int| 0 <= i < before.len() && #[trigger] steps_up(before, leaf, i) is Some
                            implies steps_up(before, leaf, i)->0 <= d by {
                            lemma_steps_end(before, leaf, current as int, i);
                        }
                        assert(backpropagated(before, self.storage@, leaf, value as int));
                    }
                    break;
                },
            }
        }
        proof {
            let after = self.storage@;
            lemma_backprop_cover(*old(self), after, leaf, value as int);
            lemma_steps_reach_root(before, leaf);
            assert forall|i: int| 1 <= i < after.len() implies (#[trigger] after[i]).simulation_count <= after[(
            after[i].parent->0).0 as int].simulation_count by {
                let p = (before[i].parent->0).0 as int;
                assert(before[i].simulation_count <= before[p].simulation_count);
                if steps_up(before, leaf, i) is Some {
                    lemma_steps_parent(before, leaf, i);
                }
            }
            assert forall|i: int| 0 <= i < after.len() implies (#[trigger] after[i]).simulation_count
                <= after[0].simulation_count by {
                assert(before[i].simulation_count <= before[0].simulation_count);
            }
            assert forall|i: int, c: int| 0 <= i < after.len() && 0 <= c < 16 implies #[trigger] child_ok(
                after,
                self.boards@,
                self.rules@,
                i,
                c,
            ) by {
                assert(child_ok(before, self.boards@, self.rules@, i, c));
                if after[i].children@[c] is Expanded {
                    let j = (after[i].children@[c]->0).0 as int;
                    assert(after[j].parent == before[j].parent);
                }
            }
            assert forall|i: int| 0 <= i < after.len() implies -((#[trigger] after[i]).simulation_count as int)
                <= after[i].win_count <= after[i].simulation_count by {
                assert(-(before[i].simulation_count as int) <= before[i].win_count <= before[i].simulation_count);
            }
        }
    }
}

/// Backing a score up the chain root, child, grandchild moves the
/// grandchild's tally by the score, the child's by its negation and the
/// root's by the score again: the sign alternates with depth.
pub proof fn lemma_backprop_sign_alternates(
    before: Seq<Node>,
    after: Seq<Node>,
    child: int,
    grandchild: int,
    value: int,
)
    requires
        0 < child < grandchild < before.len() <= usize::MAX,
        before[grandchild].parent == Some(Index(child as usize)),
        before[child].parent == Some(Index(0)),
        backpropagated(before, after, grandchild, value),
    ensures
        after[grandchild].win_count == before[grandchild].win_count + value,
        after[child].win_count == before[child].win_count - value,
        after[0].win_count == before[0].win_count + value,
{
    assert(steps_up(before, 0, 0) == Some(0nat));
    assert(steps_up(before, child, 0) == Some(1nat));
    assert(steps_up(before, grandchild, 0) == Some(2nat));
    assert(steps_up(before, child, child) == Some(0nat));
    assert(steps_up(before, grandchild, child) == Some(1nat));
    assert(steps_up(before, grandchild, grandchild) == Some(0nat));
    assert(after[grandchild].win_count == before[grandchild].win_count + signed(value, 0));
    assert(after[child].win_count == before[child].win_count + signed(value, 1));
    assert(after[0].win_count == before[0].win_count + signed(value, 2));
}

impl VecTree {
    /// The columns of node `node_index` whose visited children share the
    /// highest UCB1 value.
    pub fn best_children(&self, node_index: usize, exploration: u64) -> (r: Vec<usize>)
        requires
            self.wf(),
            node_index < self.nodes().len(),
            exploration <= u32::MAX,
        ensures
            forall|k: int| 0 <= k < r@.len() ==> (#[trigger] r@[k]) < 16 && scorable(self.nodes(), node_index as int, r@[k] as int),
            forall|k: int, c: int|
                0 <= k < r@.len() && 0 <= c < 16 && #[trigger] scorable(self.nodes(), node_index as int, c) ==> child_score(
                    self.nodes(),
                    node_index as int,
                    c,
                    exploration as int,
                ) <= child_score(self.nodes(), node_index as int, #[trigger] r@[k] as int, exploration as int),
            forall|c: int|
                0 <= c < 16 && scorable(self.nodes(), node_index as int, c) && (forall|c2: int|
                    0 <= c2 < 16 && scorable(self.nodes(), node_index as int, c2) ==> child_score(
                        self.nodes(),
                        node_index as int,
                        c2,
                        exploration as int,
                    ) <= child_score(self.nodes(), node_index as int, c, exploration as int)) ==> r@.contains(
                    c as usize,
                ),
            (r@.len() == 0) == (forall|c: int| 0 <= c < 16 ==> !scorable(self.nodes(), node_index as int, c)),
    {
        let ghost n = self.storage@;
        let ghost ni = node_index as int;
        let ghost e = exploration as int;
        let node = self.storage[node_index];
        let mut candidates: Vec<usize> = Vec::new();
        let mut best_value: u64 = 0;
        let mut i: usize = 0;
        while i < 16
            invariant
                self.wf(),
                n == self.storage@,
                node_index < n.len(),
                ni == node_index as int,
                e == exploration as int,
                node == n[ni],
                exploration <= u32::MAX,
                i <= 16,
                forall|k: int|
                    0 <= k < candidates@.len() ==> (#[trigger] candidates@[k]) < i && scorable(n, ni, candidates@[k] as int)
                        && child_score(n, ni, candidates@[k] as int, e) == best_value,
                forall|c: int| 0 <= c < i && scorable(n, ni, c) ==> child_score(n, ni, c, e) <= best_value,
                forall|c: int|
                    0 <= c < i && scorable(n, ni, c) && child_score(n, ni, c, e) == best_value ==> candidates@.contains(
                        c as usize,
                    ),
                candidates@.len() == 0 ==> forall|c: int| 0 <= c < i ==> !scorable(n, ni, c),
                candidates@.len() == 0 ==> best_value == 0,
            decreases 16 - i,
        {
            match node.children[i] {
                ChildRef::Expanded(child_index) => {
                    assert(child_ok(n, self.boards@, self.rules@, ni, i as int));
                    let child = self.storage[child_index.0];
                    if child.simulation_count > 0 {
                        proof {
                            assert(n[child_index.0 as int].simulation_count <= n[ni].simulation_count);
                            assert(n[ni].simulation_count <= n[0].simulation_count);
                        }
                        let value = ucb_value(child.win_count, child.simulation_count, node.simulation_count, exploration);
                        let ghost old_candidates = candidates@;
                        if value > best_value {
                            best_value = value;
                            candidates = Vec::new();
                            candidates.push(i);
                            assert(candidates@[0] == i);
                        } else if value == best_value {
                            candidates.push(i);
                            assert forall|c: int|
                                0 <= c < i + 1 && scorable(n, ni, c) && child_score(n, ni, c, e) == best_value
                                    implies candidates@.contains(c as usize) by {
                                if c < i {
                                    let k = choose|k: int| 0 <= k < old_candidates.len() && old_candidates[k] == c as usize;
                                    assert(candidates@[k] == c as usize);
                                } else {
                                    assert(candidates@[candidates@.len() - 1] == i);
                                }
                            }
                        }
                    }
                },
                _ => {},
            }
            i = i + 1;
        }
        proof {
            if candidates@.len() > 0 {
                assert(scorable(n, ni, candidates@[0] as int));
            }
            assert forall|c: int|
                0 <= c < 16 && scorable(n, ni, c) && (forall|c2: int|
                    0 <= c2 < 16 && scorable(n, ni, c2) ==> child_score(n, ni, c2, e) <= child_score(n, ni, c, e))
                    implies candidates@.contains(c as usize) by {
                let c0 = candidates@[0] as int;
                assert(scorable(n, ni, c0));
                assert(child_score(n, ni, c0, e) == best_value);
            }
        }
        candidates
    }

    /// Expands one column of node `node_index`, drawn uniformly among those
    /// not yet expanded from `first_uninitialized` on, and gives the new node
    /// with its board.
    fn initialize_random_child(&mut self, node_index: Index, first_uninitialized: usize, state: State) -> (r: (
        Index,
        State,
    ))
        requires
            old(self).wf(),
            node_index.0 < old(self).nodes().len() < usize::MAX,
            first_uninitialized < 16,
            old(self).nodes()[node_index.0 as int].children@[first_uninitialized as int] is NotYetExpanded,
            state.wf(),
            state.victory_agrees(),
            state.victory_state is Undecided,
            state.view() == old(self).boards()[node_index.0 as int],
            state.rules() == old(self).rules(),
        ensures
            final(self).wf(),
            extends(old(self).nodes(), final(self).nodes()),
            final(self).nodes().len() == old(self).nodes().len() + 1,
            r.0.0 == old(self).nodes().len(),
            final(self).nodes()[old(self).nodes().len() as int].parent == Some(node_index),
            exists|c: int|
                first_uninitialized <= c < 16 && old(self).nodes()[node_index.0 as int].children@[c] is NotYetExpanded
                    && (#[trigger] final(self).nodes()[node_index.0 as int].children@[c]) == ChildRef::Expanded(r.0)
                    && r.1.view() == play(state.view(), state.rules(), c),
            forall|i: int| 0 <= i < old(self).nodes().len() ==> #[trigger] final(self).boards()[i] == old(self).boards()[i],
            final(self).rules() == old(self).rules(),
            r.1.wf(),
            r.1.victory_agrees(),
            r.1.view() == final(self).boards()[r.0.0 as int],
            r.1.rules() == old(self).rules(),
            r.1.structure == state.structure,
    {
        let ghost n = self.storage@;
        let ghost b = self.boards@;
        let ghost ni = node_index.0 as int;
        let ghost start = state;
        let mut state = state;
        let new_index = Index(self.storage.len());
        let mut node = self.storage[node_index.0];
        let mut uninitialized_children: Vec<usize> = Vec::new();
        uninitialized_children.push(first_uninitialized);
        let mut i: usize = first_uninitialized + 1;
        while i < 16
            invariant
                node == n[ni],
                first_uninitialized < i <= 17,
                forall|k: int|
                    0 <= k < uninitialized_children@.len() ==> first_uninitialized <= (#[trigger] uninitialized_children@[k]) < 16
                        && node.children@[uninitialized_children@[k] as int] is NotYetExpanded,
                uninitialized_children@.len() >= 1,
                uninitialized_children@[0] == first_uninitialized,
                node.children@[first_uninitialized as int] is NotYetExpanded,
                first_uninitialized < 16,
            decreases 17 - i,
        {
            if node.children[i] == ChildRef::NotYetExpanded {
                uninitialized_children.push(i);
            }
            i = i + 1;
        }
        let chosen_position = match choose_one(&uninitialized_children) {
            Some(c) => c,
            None => first_uninitialized,
        };
        proof {
            assert(first_uninitialized <= chosen_position < 16 && node.children@[chosen_position as int] is NotYetExpanded);
            assert(child_ok(n, b, self.rules@, ni, chosen_position as int));
        }
        node.children[chosen_position] = ChildRef::Expanded(new_index);
        self.storage.set(node_index.0, node);
        state.execute(Position2(chosen_position as u8));
        proof {
            crate::game::lemma_view_heights(state);
        }
        let child = Node::new(Some(node_index), &state);
        self.storage.push(child);
        self.boards = Ghost(b.push(state.view()));
        proof {
            let n2 = self.storage@;
            let b2 = self.boards@;
            let len = n.len();
            assert(n2[ni].children@[chosen_position as int] == ChildRef::Expanded(new_index));
            assert forall|i: int, c: int| 0 <= i < n2.len() && 0 <= c < 16 implies #[trigger] child_ok(
                n2,
                b2,
                self.rules@,
                i,
                c,
            ) by {
                if i == len {
                    assert(n2[i].children@[c] == if state.column_height@[c] == 4 {
                        ChildRef::IllegalMove
                    } else {
                        ChildRef::NotYetExpanded
                    });
                } else if i == ni && c == chosen_position {
                } else {
                    assert(child_ok(n, b, self.rules@, i, c));
                    assert(n2[i].children@[c] == n[i].children@[c]);
                    if n[i].children@[c] is Expanded {
                        let j = (n[i].children@[c]->0).0 as int;
                        assert(n2[j] == n[j] || j == ni);
                    }
                }
            }
            assert forall|i: int| 1 <= i < n2.len() implies (#[trigger] n2[i]).simulation_count
                <= n2[(n2[i].parent->0).0 as int].simulation_count by {
                if i < len {
                    assert(n[i].simulation_count <= n[(n[i].parent->0).0 as int].simulation_count);
                }
            }
            assert forall|i: int| 0 <= i < n2.len() implies (#[trigger] n2[i]).simulation_count
                <= n2[0].simulation_count by {
                if i < len {
                    assert(n[i].simulation_count <= n[0].simulation_count);
                }
            }
            assert forall|i: int| 0 <= i < n2.len() implies -((#[trigger] n2[i]).simulation_count as int)
                <= n2[i].win_count <= n2[i].simulation_count by {
                if i < len {
                    assert(-(n[i].simulation_count as int) <= n[i].win_count <= n[i].simulation_count);
                }
            }
            assert forall|i: int| 1 <= i < n2.len() implies (#[trigger] n2[i]).parent is Some && (n2[i].parent->0).0 < i by {
                if i < len {
                    assert(n[i].parent is Some && (n[i].parent->0).0 < i);
                }
            }
            assert forall|i: int| 0 <= i < n2.len() implies #[trigger] children_visits(n2, i, 16)
                <= n2[i].simulation_count by {
                if i == len {
                    assert forall|c: int| 0 <= c < 16 implies !(#[trigger] n2[i].children@[c] is Expanded) by {
                        assert(n2[i].children@[c] == if state.column_height@[c] == 4 {
                            ChildRef::IllegalMove
                        } else {
                            ChildRef::NotYetExpanded
                        });
                    }
                    lemma_children_visits_none(n2, i, 16);
                } else {
                    assert forall|c: int| 0 <= c < 16 implies #[trigger] child_visits(n, i, c) == child_visits(n2, i, c) by {
                        assert(child_ok(n, b, self.rules@, i, c));
                        if !(i == ni && c == chosen_position) {
                            assert(n2[i].children@[c] == n[i].children@[c]);
                            if n[i].children@[c] is Expanded {
                                let j = (n[i].children@[c]->0).0 as int;
                                assert(n2[j].simulation_count == n[j].simulation_count);
                            }
                        }
                    }
                    lemma_children_visits_same(n, n2, i, 16);
                }
            }
            assert forall|i: int, c1: int, c2: int|
                0 <= i < n2.len() && 0 <= c1 < c2 < 16 && (#[trigger] n2[i].children@[c1]) is Expanded
                    && (#[trigger] n2[i].children@[c2]) is Expanded implies n2[i].children@[c1] != n2[i].children@[c2] by {
                if i < len {
                    assert(child_ok(n, b, self.rules@, i, c1));
                    assert(child_ok(n, b, self.rules@, i, c2));
                }
            }
            assert(extends(n, n2));
            assert(n2[ni].children@[chosen_position as int] == ChildRef::Expanded(new_index));
            assert(state.view() == play(start.view(), start.rules(), chosen_position as int));
        }
        (new_index, state)
    }
}

impl VecTree {
    /// One selection and expansion step from node `node_index`, whose board
    /// is `state`: a finished board stops the descent; else a column not yet
    /// expanded is expanded (drawn uniformly); else the descent goes on into a
    /// child of highest UCB1 value (ties drawn uniformly). Gives the node
    /// reached and its board. When no child can be scored the node itself is
    /// given.
    pub fn select_best(&mut self, node_index: Index, state: State, exploration: u64) -> (r: (Index, State))
        requires
            old(self).wf(),
            node_index.0 < old(self).nodes().len() < usize::MAX,
            state.wf(),
            state.victory_agrees(),
            state.view() == old(self).boards()[node_index.0 as int],
            state.rules() == old(self).rules(),
            exploration <= u32::MAX,
        ensures
            selection_done(*old(self), *final(self), node_index, state, exploration as int, r),
        decreases old(self).nodes().len() - node_index.0, 1nat,
    {
        assert(steps_up(self.storage@, node_index.0 as int, node_index.0 as int) == Some(0nat));
        if !state.victory_state.active() {
            return (node_index, state);
        }
        let node = self.storage[node_index.0];
        match first_unexpanded(&node) {
            Some(i) => {
                let r = self.initialize_random_child(node_index, i, state);
                proof {
                    let after = self.storage@;
                    let ni = node_index.0 as int;
                    assert(steps_up(after, ni, ni) == Some(0nat));
                    assert(steps_up(after, r.0.0 as int, ni) == Some(1nat));
                    assert(!(node.children@[i as int] is NotYetExpanded) == false);
                }
                r
            },
            None => self.descend(node_index, state, exploration),
        }
    }

    /// Goes on from a node whose columns are all expanded or full into a child
    /// of highest UCB1 value.
    fn descend(&mut self, node_index: Index, state: State, exploration: u64) -> (r: (Index, State))
        requires
            old(self).wf(),
            node_index.0 < old(self).nodes().len() < usize::MAX,
            state.wf(),
            state.victory_agrees(),
            state.victory_state is Undecided,
            state.view() == old(self).boards()[node_index.0 as int],
            state.rules() == old(self).rules(),
            exploration <= u32::MAX,
            forall|c: int| 0 <= c < 16 ==> !(#[trigger] old(self).nodes()[node_index.0 as int].children@[c] is NotYetExpanded),
        ensures
            selection_done(*old(self), *final(self), node_index, state, exploration as int, r),
        decreases old(self).nodes().len() - node_index.0, 0nat,
    {
        assert(steps_up(self.storage@, node_index.0 as int, node_index.0 as int) == Some(0nat));
        let candidates = self.best_children(node_index.0, exploration);
        let chosen_position = match choose_one(&candidates) {
            Some(c) => c,
            None => {
                return (node_index, state);
            },
        };
        proof {
            let k = choose|k: int| 0 <= k < candidates@.len() && candidates@[k] == chosen_position;
            assert(scorable(self.storage@, node_index.0 as int, candidates@[k] as int));
            assert(child_ok(self.storage@, self.boards@, self.rules@, node_index.0 as int, chosen_position as int));
        }
        let node = self.storage[node_index.0];
        let ghost before = self.storage@;
        let ghost ni = node_index.0 as int;
        let mut state = state;
        match node.children[chosen_position] {
            ChildRef::Expanded(child_index) => {
                state.execute(Position2(chosen_position as u8));
                proof {
                    crate::game::lemma_view_heights(state);
                }
                let r = self.select_best(child_index, state, exploration);
                proof {
                    let after = self.storage@;
                    let ci = child_index.0 as int;
                    assert(before[ci].parent == Some(node_index));
                    assert(after[ci].parent == before[ci].parent);
                    lemma_steps_parent(after, r.0.0 as int, ci);
                    let k = choose|k: int| 0 <= k < candidates@.len() && candidates@[k] == chosen_position;
                    assert(scorable(before, ni, chosen_position as int));
                    assert forall|c2: int|
                        0 <= c2 < 16 && scorable(before, ni, c2) implies child_score(before, ni, c2, exploration as int)
                        <= child_score(before, ni, chosen_position as int, exploration as int) by {
                        assert(scorable(before, ni, c2));
                        assert(candidates@[k] == chosen_position);
                    }
                }
                r
            },
            _ => (node_index, state),
        }
    }

    /// The columns whose children of the root have the most visits.
    pub fn most_visited(&self) -> (r: Vec<usize>)
        requires
            self.wf(),
        ensures
            forall|k: int| 0 <= k < r@.len() ==> (#[trigger] r@[k]) < 16 && self.nodes()[0].children@[r@[k] as int] is Expanded,
            forall|k: int, c: int|
                0 <= k < r@.len() && 0 <= c < 16 && (#[trigger] self.nodes()[0].children@[c]) is Expanded
                    ==> visits_of(self.nodes(), c) <= visits_of(self.nodes(), #[trigger] r@[k] as int),
            forall|c: int|
                0 <= c < 16 && (#[trigger] self.nodes()[0].children@[c]) is Expanded && (forall|c2: int|
                    0 <= c2 < 16 && self.nodes()[0].children@[c2] is Expanded ==> visits_of(self.nodes(), c2)
                        <= visits_of(self.nodes(), c)) ==> r@.contains(c as usize),
            (r@.len() == 0) == (forall|c: int| 0 <= c < 16 ==> !(self.nodes()[0].children@[c] is Expanded)),
    {
        let ghost n = self.storage@;
        let root = self.storage[0];
        let mut most_robust: Vec<usize> = Vec::new();
        let mut most_simulations: u64 = 0;
        let mut i: usize = 0;
        while i < 16
            invariant
                self.wf(),
                n == self.storage@,
                root == n[0],
                i <= 16,
                forall|k: int|
                    0 <= k < most_robust@.len() ==> (#[trigger] most_robust@[k]) < i && root.children@[most_robust@[k] as int] is Expanded
                        && visits_of(n, most_robust@[k] as int) == most_simulations,
                forall|c: int| 0 <= c < i && root.children@[c] is Expanded ==> visits_of(n, c) <= most_simulations,
                forall|c: int|
                    0 <= c < i && root.children@[c] is Expanded && visits_of(n, c) == most_simulations ==> most_robust@.contains(
                        c as usize,
                    ),
                most_robust@.len() == 0 ==> forall|c: int| 0 <= c < i ==> !(root.children@[c] is Expanded),
                most_robust@.len() == 0 ==> most_simulations == 0,
            decreases 16 - i,
        {
            match root.children[i] {
                ChildRef::Expanded(child_index) => {
                    assert(child_ok(n, self.boards@, self.rules@, 0, i as int));
                    let count = self.storage[child_index.0].simulation_count;
                    let ghost previous = most_robust@;
                    if count > most_simulations {
                        most_robust = Vec::new();
                        most_robust.push(i);
                        most_simulations = count;
                        assert(most_robust@[0] == i);
                    } else if count == most_simulations {
                        most_robust.push(i);
                        assert forall|c: int|
                            0 <= c < i + 1 && root.children@[c] is Expanded && visits_of(n, c) == most_simulations
                                implies most_robust@.contains(c as usize) by {
                            if c < i {
                                let k = choose|k: int| 0 <= k < previous.len() && previous[k] == c as usize;
                                assert(most_robust@[k] == c as usize);
                            } else {
                                assert(most_robust@[most_robust@.len() - 1] == i);
                            }
                        }
                    }
                },
                _ => {},
            }
            i = i + 1;
        }
        proof {
            if most_robust@.len() > 0 {
                assert(root.children@[most_robust@[0] as int] is Expanded);
            }
            assert forall|c: int|
                0 <= c < 16 && (#[trigger] n[0].children@[c]) is Expanded && (forall|c2: int|
                    0 <= c2 < 16 && n[0].children@[c2] is Expanded ==> visits_of(n, c2) <= visits_of(n, c))
                    implies most_robust@.contains(c as usize) by {
                let c0 = most_robust@[0] as int;
                assert(root.children@[c0] is Expanded);
            }
        }
        most_robust
    }

    /// The most visited child of the root, ties drawn uniformly: the move
    /// the search settles on.
    pub fn robust_move(&self) -> (r: Position2)
        requires
            self.wf(),
            exists|c: int| 0 <= c < 16 && (#[trigger] self.nodes()[0].children@[c]) is Expanded,
        ensures
            r.0 < 16,
            self.nodes()[0].children@[r.0 as int] is Expanded,
            forall|c: int|
                0 <= c < 16 && (#[trigger] self.nodes()[0].children@[c]) is Expanded ==> visits_of(self.nodes(), c)
                    <= visits_of(self.nodes(), r.0 as int),
            self.boards()[0].heights[r.0 as int] < 4,
    {
        let most_robust = self.most_visited();
        proof {
            let c = choose|c: int| 0 <= c < 16 && (#[trigger] self.nodes()[0].children@[c]) is Expanded;
            assert(!(self.nodes()[0].children@[c] is Expanded) == false);
        }
        let chosen_position = match choose_one(&most_robust) {
            Some(c) => c,
            None => most_robust[0],
        };
        proof {
            let k = choose|k: int| 0 <= k < most_robust@.len() && most_robust@[k] == chosen_position;
            assert(most_robust@[k] < 16);
            assert(child_ok(self.storage@, self.boards@, self.rules@, 0, chosen_position as int));
        }
        Position2(chosen_position as u8)
    }
}

/// A selection step from node `node_index` with board `state` turned the
/// tree `before` into `after` and reached `r`: the tree grew by at most one
/// unvisited node, the node reached comes with its board, and a node with a
/// column not yet expanded on an undecided board got a new child.
pub open spec fn selection_done(
    before: VecTree,
    after: VecTree,
    node_index: Index,
    state: State,
    exploration: int,
    r: (Index, State),
) -> bool {
    let n = before.nodes();
    let ni = node_index.0 as int;
    &&& after.wf()
    &&& extends(n, after.nodes())
    &&& forall|i: int| 0 <= i < n.len() ==> #[trigger] after.boards()[i] == before.boards()[i]
    &&& after.rules() == before.rules()
    &&& r.0.0 < after.nodes().len()
    &&& steps_up(after.nodes(), r.0.0 as int, ni) is Some
    &&& after.nodes().len() == n.len() + 1 ==> r.0.0 == n.len()
    &&& r.1.wf()
    &&& r.1.victory_agrees()
    &&& r.1.view() == after.boards()[r.0.0 as int]
    &&& r.1.rules() == before.rules()
    &&& r.1.structure == state.structure
    // A finished board stops the descent, and nothing changes.
    &&& !(state.victory_state is Undecided) ==> {
        &&& r.0 == node_index
        &&& r.1 == state
        &&& after.nodes() == n
        &&& after.boards() == before.boards()
    }
    // A column not yet expanded is expanded first: one new child, for that column.
    &&& state.victory_state is Undecided && (exists|c: int|
        0 <= c < 16 && (#[trigger] n[ni].children@[c]) is NotYetExpanded) ==> {
        &&& after.nodes().len() == n.len() + 1
        &&& after.nodes()[n.len() as int].parent == Some(node_index)
        &&& exists|c: int|
            0 <= c < 16 && n[ni].children@[c] is NotYetExpanded && (#[trigger] after.nodes()[ni].children@[c])
                == ChildRef::Expanded(r.0) && r.1.view() == play(state.view(), state.rules(), c)
    }
    // Else the descent goes into a child of highest UCB1 value, or stops
    // when no child has been visited.
    &&& state.victory_state is Undecided && (forall|c: int|
        0 <= c < 16 ==> !(#[trigger] n[ni].children@[c] is NotYetExpanded)) ==> {
        &&& (forall|c: int| 0 <= c < 16 ==> !scorable(n, ni, c)) ==> r.0 == node_index && after.nodes() == n
        &&& (exists|c: int| 0 <= c < 16 && scorable(n, ni, c)) ==> exists|c: int|
            0 <= c < 16 && #[trigger] scorable(n, ni, c) && (forall|c2: int|
                0 <= c2 < 16 && scorable(n, ni, c2) ==> child_score(n, ni, c2, exploration) <= child_score(
                    n,
                    ni,
                    c,
                    exploration,
                )) && steps_up(after.nodes(), r.0.0 as int, (n[ni].children@[c]->0).0 as int) is Some
    }
}

/// The first column of `node` not yet expanded.
fn first_unexpanded(node: &Node) -> (r: Option<usize>)
    ensures
        r matches Some(c) ==> c < 16 && node.children@[c as int] is NotYetExpanded,
        r is None ==> forall|c: int| 0 <= c < 16 ==> !(#[trigger] node.children@[c] is NotYetExpanded),
{
    let mut i: usize = 0;
    while i < 16
        invariant
            i <= 16,
            forall|c: int| 0 <= c < i ==> !(#[trigger] node.children@[c] is NotYetExpanded),
        decreases 16 - i,
    {
        if node.children[i] == ChildRef::NotYetExpanded {
            return Some(i);
        }
        i = i + 1;
    }
    None
}

/// The visits of the root's child for column `c`.
pub open spec fn visits_of(nodes: Seq<Node>, c: int) -> int {
    nodes[(nodes[0].children@[c]->0).0 as int].simulation_count as int
}

/// Monte Carlo tree search with a budget of iterations and an exploration
/// constant in thousandths.
pub struct MCTreeAI {
    pub endurance: usize,
    pub exploration: u64,
}

impl MCTreeAI {
    pub fn new(endurance: usize, exploration: u64) -> (r: MCTreeAI)
        ensures
            r.endurance == endurance,
            r.exploration == exploration,
    {
        MCTreeAI { endurance, exploration }
    }

    /// Runs `endurance` iterations of selection and expansion, a random
    /// playout from the leaf, and backpropagation of its score.
    pub fn create_tree(&self, state: &State) -> (r: VecTree)
        requires
            state.wf(),
            state.victory_agrees(),
            self.endurance < u32::MAX,
            self.exploration <= u32::MAX,
        ensures
            r.wf(),
            r.boards()[0] == state.view(),
            r.rules() == state.rules(),
            r.nodes()[0].simulation_count == self.endurance,
            r.nodes().len() <= self.endurance + 1,
            tallies_within_visits(r.nodes()),
            visits_cover_children(r.nodes()),
            self.endurance > 0 && state.victory_state is Undecided ==> exists|c: int|
                0 <= c < 16 && (#[trigger] r.nodes()[0].children@[c]) is Expanded,
    {
        let mut tree = VecTree::new(self.endurance + 1, state);
        proof {
            if state.victory_state is Undecided {
                crate::game::lemma_open_column(*state);
                let c = choose|c: int| 0 <= c < 16 && #[trigger] state.column_height@[c] < 4;
                assert(!(tree.nodes()[0].children@[c] is IllegalMove));
                assert(child_ok(tree.storage@, tree.boards@, tree.rules@, 0, c));
            }
        }
        let mut k: usize = 0;
        while k < self.endurance
            invariant
                tree.wf(),
                state.wf(),
                state.victory_agrees(),
                tree.boards()[0] == state.view(),
                tree.rules() == state.rules(),
                tree.nodes()[0].simulation_count == k,
                tree.nodes().len() <= k + 1,
                k <= self.endurance < u32::MAX,
                self.exploration <= u32::MAX,
                state.victory_state is Undecided ==> exists|c: int|
                    0 <= c < 16 && ((#[trigger] tree.nodes()[0].children@[c]) is NotYetExpanded
                        || tree.nodes()[0].children@[c] is Expanded),
                k > 0 && state.victory_state is Undecided ==> exists|c: int|
                    0 <= c < 16 && (#[trigger] tree.nodes()[0].children@[c]) is Expanded,
            decreases self.endurance - k,
        {
            tree.run_iteration(state, self.exploration);
            k = k + 1;
        }
        tree
    }
}

/// Every tally lies between minus and plus the node's visits.
pub open spec fn tallies_within_visits(nodes: Seq<Node>) -> bool {
    forall|i: int|
        0 <= i < nodes.len() ==> -((#[trigger] nodes[i]).simulation_count as int) <= nodes[i].win_count
            <= nodes[i].simulation_count
}

/// The tally change for the player who moved into a leaf whose board had
/// `leaf_color` to move, when the playout from it ended in `outcome`.
pub open spec fn leaf_value(outcome: VictoryState, leaf_color: Color) -> int {
    match outcome.score_for(leaf_color) {
        Some(s) => -(s as int),
        None => 0,
    }
}

/// The tally change for the player who moved into a leaf whose board had
/// `leaf_color` to move, when the playout from it ended in `outcome`: 1 for
/// a win of that player, -1 for a loss, 0 for a draw.
pub fn playout_value(outcome: VictoryState, leaf_color: Color) -> (r: i64)
    ensures
        r == leaf_value(outcome, leaf_color),
        -1 <= r <= 1,
{
    match outcome.scoring(leaf_color) {
        Some(s) => -(s as i64),
        None => 0,
    }
}

impl VecTree {
    /// One iteration of the search from the root, whose board is `state`: a
    /// selection step, a random playout from the leaf reached, and the
    /// backpropagation of its outcome, scored for the player who moved into
    /// the leaf.
    pub fn run_iteration(&mut self, state: &State, exploration: u64)
        requires
            old(self).wf(),
            state.wf(),
            state.victory_agrees(),
            old(self).boards()[0] == state.view(),
            old(self).rules() == state.rules(),
            exploration <= u32::MAX,
            old(self).nodes().len() < usize::MAX,
            old(self).nodes()[0].simulation_count < u32::MAX,
        ensures
            final(self).wf(),
            final(self).boards()[0] == state.view(),
            final(self).rules() == state.rules(),
            final(self).nodes()[0].simulation_count == old(self).nodes()[0].simulation_count + 1,
            final(self).nodes().len() <= old(self).nodes().len() + 1,
            tallies_within_visits(final(self).nodes()),
            visits_cover_children(final(self).nodes()),
            exists|mid: VecTree, leaf: Index, leaf_state: State, end: State|
                #[trigger] selection_done(*old(self), mid, Index(0), *state, exploration as int, (leaf, leaf_state))
                    && #[trigger] playout_end(leaf_state, end) && backpropagated(
                    mid.nodes(),
                    final(self).nodes(),
                    leaf.0 as int,
                    leaf_value(end.victory_state, leaf_state.current_color),
                ),
            state.victory_state is Undecided && (exists|c: int|
                0 <= c < 16 && ((#[trigger] old(self).nodes()[0].children@[c]) is NotYetExpanded
                    || old(self).nodes()[0].children@[c] is Expanded)) ==> exists|c: int|
                0 <= c < 16 && (#[trigger] final(self).nodes()[0].children@[c]) is Expanded,
    {
        let ghost before = *self;
        let selected = self.select_best(Index(0), state.clone(), exploration);
        let ghost mid = *self;
        let (leaf_index, leaf_state) = selected;
        let current_color = leaf_state.current_color;
        let end = random_playout_board(&leaf_state);
        let value = playout_value(end.victory_state, current_color);
        proof {
            if state.victory_state is Undecided {
                let c = choose|c: int|
                    0 <= c < 16 && ((#[trigger] before.nodes()[0].children@[c]) is NotYetExpanded
                        || before.nodes()[0].children@[c] is Expanded);
                if before.nodes()[0].children@[c] is Expanded {
                    assert(mid.nodes()[0].children@[c] == before.nodes()[0].children@[c]);
                }
            }
        }
        self.backpropagate(leaf_index, value);
        proof {
            assert(selection_done(before, mid, Index(0), *state, exploration as int, (leaf_index, leaf_state)));
            assert(playout_end(leaf_state, end));

            if state.victory_state is Undecided {
                let c = choose|c: int| 0 <= c < 16 && (#[trigger] mid.nodes()[0].children@[c]) is Expanded;
                assert(self.nodes()[0].children@[c] == mid.nodes()[0].children@[c]);
            }
        }
    }
}

impl StatelessAI for MCTreeAI {
    open spec fn ready(&self) -> bool {
        &&& 0 < self.endurance < u32::MAX
        &&& self.exploration <= u32::MAX
    }

    fn action(&self, state: &State) -> (r: Position2)
        ensures
            exists|t: VecTree|
                #[trigger] t.wf() && t.boards()[0] == state.view() && t.rules() == state.rules()
                    && t.nodes()[0].simulation_count == self.endurance && t.nodes().len() <= self.endurance + 1
                    && visits_cover_children(t.nodes()) && t.nodes()[0].children@[r.0 as int] is Expanded
                    && forall|c: int|
                    0 <= c < 16 && (#[trigger] t.nodes()[0].children@[c]) is Expanded ==> visits_of(t.nodes(), c)
                        <= visits_of(t.nodes(), r.0 as int),
    {
        let tree = self.create_tree(state);
        let r = tree.robust_move();
        proof {
            crate::game::lemma_view_heights(*state);
        }
        r
    }
}

/// What the controller of a parallel search does next.
#[derive(Copy, Clone, Debug, PartialEq, Eq, Structural)]
pub enum ScheduleStep {
    /// Select and expand one more leaf, and hand its playout to a worker.
    Dispatch,
    /// Wait for the next result.
    Wait,
    /// Every playout of the budget has come back.
    Finish,
}

/// The bookkeeping of a search whose playouts run on a pool of workers
/// while the tree stays with one controller: how many playouts may still be
/// handed out, and how many are out.
#[derive(Copy, Clone, Debug)]
pub struct PlayoutSchedule {
    pub remaining: usize,
    pub in_flight: usize,
}

impl PlayoutSchedule {
    /// A budget of `endurance` playouts for `worker_count` workers; the
    /// first `min(endurance, worker_count)` are handed out at once.
    pub fn new(endurance: usize, worker_count: usize) -> (r: PlayoutSchedule)
        ensures
            r.in_flight == if endurance < worker_count {
                endurance
            } else {
                worker_count
            },
            r.remaining + r.in_flight == endurance,
    {
        let seeded = if endurance < worker_count {
            endurance
        } else {
            worker_count
        };
        PlayoutSchedule { remaining: endurance - seeded, in_flight: seeded }
    }

    /// One result came back: dispatch another while the budget lasts,
    /// finish once nothing is out, else wait.
    pub fn on_result(&mut self) -> (r: ScheduleStep)
        requires
            old(self).in_flight > 0,
        ensures
            old(self).remaining > 0 ==> r == ScheduleStep::Dispatch && final(self).remaining == old(self).remaining - 1
                && final(self).in_flight == old(self).in_flight,
            old(self).remaining == 0 && old(self).in_flight == 1 ==> r == ScheduleStep::Finish && final(self).remaining
                == 0 && final(self).in_flight == 0,
            old(self).remaining == 0 && old(self).in_flight > 1 ==> r == ScheduleStep::Wait && final(self).remaining
                == 0 && final(self).in_flight == old(self).in_flight - 1,
            final(self).remaining + final(self).in_flight == old(self).remaining + old(self).in_flight - 1,
    {
        if self.remaining > 0 {
            self.remaining = self.remaining - 1;
            ScheduleStep::Dispatch
        } else {
            self.in_flight = self.in_flight - 1;
            if self.in_flight == 0 {
                ScheduleStep::Finish
            } else {
                ScheduleStep::Wait
            }
        }
    }
}

} // verus!

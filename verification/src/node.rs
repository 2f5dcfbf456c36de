use crate::chance::pick_between;
use crate::game::{Game, Move, Player};
use rand::rngs::StdRng;
use vstd::prelude::*;

verus! {

/// A search tree: its nodes in the order in which they were made. Node 0 is
/// the root, and a node refers to its parent and to its children by index.
#[derive(Debug)]
pub struct ArenaTree {
    pub nodes: Vec<Node>,
}

/// A node of the search tree: the position it stands for, the move that led
/// to it, its place in the tree, and how often it was visited and won.
#[derive(Debug, Copy, Clone)]
pub struct Node {
    pub parent_id: Option<usize>,
    pub first_child_id: Option<usize>,
    pub last_child_id: Option<usize>,
    pub visits: i32,
    pub wins: i32,
    pub move_from_parent: Option<Move>,
    pub game_state: Game,
}

impl Node {
    /// Whether the node's children were made.
    pub open spec fn expanded(self) -> bool {
        self.first_child_id is Some && self.last_child_id is Some
    }

    /// The index of the node's first child.
    pub open spec fn first(self) -> int {
        match self.first_child_id {
            Some(c) => c as int,
            None => 0,
        }
    }

    /// The index after the node's last child.
    pub open spec fn last(self) -> int {
        match self.last_child_id {
            Some(c) => c as int,
            None => 0,
        }
    }

    /// Whether `c` is the index of one of the node's children.
    pub open spec fn has_child(self, c: int) -> bool {
        self.expanded() && self.first() <= c < self.last()
    }

    /// A node as it is first made: not visited and without children.
    pub open spec fn fresh(
        game: Game,
        parent_id: Option<usize>,
        move_from_parent: Option<Move>,
    ) -> Node {
        Node {
            parent_id,
            first_child_id: None,
            last_child_id: None,
            visits: 0,
            wins: 0,
            move_from_parent,
            game_state: game,
        }
    }

    /// This node with the visits and the wins of `other` added to its own.
    pub open spec fn merged(self, other: Node) -> Node {
        Node {
            visits: (self.visits + other.visits) as i32,
            wins: (self.wins + other.wins) as i32,
            ..self
        }
    }

    /// 1 where a playout that `winner` won counts as a win for this node,
    /// else 0. It does where the winner is the side that moved into the
    /// node, which is the side that is not to move there.
    pub open spec fn credit(self, winner: Option<Player>) -> int {
        match winner {
            Some(side) => if side != self.game_state.player {
                1
            } else {
                0
            },
            None => 0,
        }
    }

    /// This node after one more playout through it, which `winner` won.
    pub open spec fn visited(self, winner: Option<Player>) -> Node {
        Node {
            visits: (self.visits + 1) as i32,
            wins: (self.wins + self.credit(winner)) as i32,
            ..self
        }
    }

    /// Whether the sums of `merged` fit the counters.
    pub open spec fn can_merge(self, other: Node) -> bool {
        &&& i32::MIN <= self.visits + other.visits <= i32::MAX
        &&& i32::MIN <= self.wins + other.wins <= i32::MAX
    }

    /// The index of one of the node's children, drawn at random with `rng`.
    pub fn random_child(&self, rng: &mut StdRng) -> (child: usize)
        requires
            self.expanded(),
            self.first() < self.last(),
        ensures
            self.has_child(child as int),
    {
        pick_between(self.first_child_id.unwrap(), self.last_child_id.unwrap(), rng)
    }

    /// Whether the sums of the visits and of the wins fit the counters.
    pub fn fits_with(&self, other: &Node) -> (ok: bool)
        ensures
            ok == self.can_merge(*other),
    {
        self.visits.checked_add(other.visits).is_some() && self.wins.checked_add(
            other.wins,
        ).is_some()
    }

    /// This node with the visits and the wins of `other` added to its own.
    pub fn merge(&self, other: &Node) -> (result: Node)
        requires
            self.can_merge(*other),
        ensures
            result == self.merged(*other),
    {
        let mut result = *self;
        result.visits = result.visits + other.visits;
        result.wins = result.wins + other.wins;
        result
    }
}

impl ArenaTree {
    /// Whether the children of node `i` lie in the tree, or it has none.
    pub open spec fn children_in_tree(self, i: int) -> bool {
        let n = self.nodes[i];
        n.expanded() && (n.last() <= self.nodes.len() || n.last() <= n.first())
    }

    /// Whether node `i` has a child that was never visited.
    pub open spec fn has_unvisited_child(self, i: int) -> bool {
        exists|c: int| self.nodes[i].has_child(c) && (#[trigger] self.nodes[c]).visits == 0
    }

    /// What holds of each node of a well-formed tree: its position is well
    /// formed; its wins are at most its visits and neither is negative; only
    /// the root is without a parent; a parent stands before its child and
    /// was visited at least as often; children stand after their parent and
    /// in the tree.
    pub open spec fn node_wf(self, i: int) -> bool {
        let n = self.nodes[i];
        &&& n.game_state@.wf()
        &&& 0 <= n.wins <= n.visits
        &&& (n.parent_id is None) == (i == 0)
        &&& n.parent_id matches Some(p) ==> p < i && n.visits <= self.nodes[p as int].visits
        &&& (n.first_child_id is Some) == (n.last_child_id is Some)
        &&& n.expanded() ==> i < n.first() <= n.last() <= self.nodes.len()
    }

    /// Whether the children of node `i` are its position's legal moves, one
    /// child for each move and in the moves' order, each with the position
    /// that its move leads to.
    pub open spec fn batch_ok(self, i: int) -> bool {
        let n = self.nodes[i];
        let moves = n.game_state@.legal_moves();
        &&& n.last() - n.first() == moves.len()
        &&& forall|j: int|
            0 <= j < moves.len() ==> {
                let child = #[trigger] self.nodes[n.first() + j];
                &&& child.parent_id == Some(i as usize)
                &&& child.move_from_parent == Some(moves[j])
                &&& child.game_state@ == n.game_state@.apply(moves[j])
            }
    }

    /// A tree as `new_node`, expansion and backpropagation keep it.
    pub open spec fn wf(self) -> bool {
        &&& forall|i: int| 0 <= i < self.nodes.len() ==> #[trigger] self.node_wf(i)
        &&& forall|i: int|
            0 <= i < self.nodes.len() && self.nodes[i].expanded() ==> #[trigger] self.batch_ok(i)
    }

    /// Appends a node for `game` and returns its index. The first node is
    /// the root and has no parent; every later node has one.
    pub fn new_node(
        &mut self,
        game: Game,
        parent_id: Option<usize>,
        move_from_parent: Option<Move>,
    ) -> (node_id: usize)
        requires
            old(self).wf(),
            game@.wf(),
            parent_id is None <==> old(self).nodes.len() == 0,
            parent_id matches Some(p) ==> p < old(self).nodes.len(),
        ensures
            node_id == old(self).nodes.len(),
            final(self).nodes@ == old(self).nodes@.push(
                Node::fresh(game, parent_id, move_from_parent),
            ),
            final(self).wf(),
    {
        let node_id = self.nodes.len();
        self.nodes.push(
            Node {
                parent_id,
                move_from_parent,
                game_state: game,
                wins: 0,
                visits: 0,
                first_child_id: None,
                last_child_id: None,
            },
        );
        proof {
            assert forall|i: int| 0 <= i < self.nodes.len() implies #[trigger] self.node_wf(i) by {
                if i < node_id {
                    assert(old(self).node_wf(i));
                } else {
                    if let Some(p) = parent_id {
                        assert(old(self).node_wf(p as int));
                    }
                }
            }
            assert forall|i: int|
                0 <= i < self.nodes.len() && self.nodes[i].expanded() implies #[trigger] self.batch_ok(
                i,
            ) by {
                assert(old(self).node_wf(i));
                assert(old(self).batch_ok(i));
                let n = self.nodes[i];
                let moves = n.game_state@.legal_moves();
                assert forall|j: int| 0 <= j < moves.len() implies {
                    let child = #[trigger] self.nodes[n.first() + j];
                    &&& child.parent_id == Some(i as usize)
                    &&& child.move_from_parent == Some(moves[j])
                    &&& child.game_state@ == n.game_state@.apply(moves[j])
                } by {
                    assert(self.nodes[n.first() + j] == old(self).nodes[n.first() + j]);
                }
            }
        }
        node_id
    }

    /// Whether a child of the node was never visited.
    pub fn is_leaf_node(&self, node_id: usize) -> (leaf: bool)
        requires
            node_id < self.nodes.len(),
            self.children_in_tree(node_id as int),
        ensures
            leaf == self.has_unvisited_child(node_id as int),
    {
        let node = &self.nodes[node_id];
        let children_start = node.first_child_id.unwrap();
        let children_stop = node.last_child_id.unwrap();
        if children_start >= children_stop {
            return false;
        }
        let mut child: usize = children_start;
        while child < children_stop
            invariant
                node_id < self.nodes.len(),
                children_start == self.nodes[node_id as int].first(),
                children_stop == self.nodes[node_id as int].last(),
                self.nodes[node_id as int].expanded(),
                children_stop <= self.nodes.len(),
                children_start <= child <= children_stop,
                forall|c: int| children_start <= c < child ==> (#[trigger] self.nodes[c]).visits != 0,
            decreases children_stop - child,
        {
            if self.nodes[child].visits == 0 {
                return true;
            }
            child += 1;
        }
        false
    }

    /// Whether `best` is the child of the root that `reccomend` names: the
    /// last of the children with the most visits, or 0 where no child has a
    /// visit count of at least 0.
    pub open spec fn recommended(self, best: int) -> bool {
        let root = self.nodes[0];
        if exists|c: int| root.has_child(c) && (#[trigger] self.nodes[c]).visits >= 0 {
            &&& root.has_child(best)
            &&& forall|c: int|
                root.has_child(c) ==> (#[trigger] self.nodes[c]).visits <= self.nodes[best].visits
            &&& forall|c: int|
                root.has_child(c) && c > best ==> (#[trigger] self.nodes[c]).visits
                    < self.nodes[best].visits
        } else {
            best == 0
        }
    }

    /// The index of the child of the root with the most visits; of several
    /// such children the last.
    pub fn reccomend(&self) -> (best: usize)
        requires
            self.nodes.len() > 0,
            self.children_in_tree(0),
        ensures
            self.recommended(best as int),
    {
        let node = &self.nodes[0];
        let first_child = node.first_child_id.unwrap();
        let last_child = node.last_child_id.unwrap();
        let mut max_visits: i32 = 0;
        let mut reccomend: usize = 0;
        if first_child >= last_child {
            return reccomend;
        }
        let mut child: usize = first_child;
        let ghost mut found = false;
        while child < last_child
            invariant
                self.nodes.len() > 0,
                self.nodes[0].expanded(),
                first_child == self.nodes[0].first(),
                last_child == self.nodes[0].last(),
                last_child <= self.nodes.len(),
                first_child <= child <= last_child,
                max_visits >= 0,
                found == exists|c: int|
                    first_child <= c < child && (#[trigger] self.nodes[c]).visits >= 0,
                !found ==> reccomend == 0 && max_visits == 0,
                found ==> first_child <= reccomend < child && self.nodes[reccomend as int].visits
                    == max_visits,
                forall|c: int|
                    first_child <= c < child ==> (#[trigger] self.nodes[c]).visits <= max_visits,
                forall|c: int|
                    first_child <= c < child && found && c > reccomend ==> (
                    #[trigger] self.nodes[c]).visits < max_visits,
            decreases last_child - child,
        {
            let visits = self.nodes[child].visits;
            if visits >= max_visits {
                max_visits = visits;
                reccomend = child;
                proof {
                    found = true;
                }
            }
            child += 1;
        }
        reccomend
    }

    /// Whether the two trees can be merged: both were expanded at the root
    /// with the same range of children, the children lie in both trees, and
    /// the sums of the visits and of the wins of the roots and of their
    /// children fit the counters.
    pub open spec fn mergeable(self, other: ArenaTree) -> bool {
        let root = self.nodes[0];
        &&& self.nodes.len() > 0
        &&& other.nodes.len() > 0
        &&& root.expanded()
        &&& root.first_child_id == other.nodes[0].first_child_id
        &&& root.last_child_id == other.nodes[0].last_child_id
        &&& root.first() < root.last() ==> root.last() <= self.nodes.len() && root.last()
            <= other.nodes.len()
        &&& root.can_merge(other.nodes[0])
        &&& forall|c: int|
            root.first() <= c < root.last() ==> (#[trigger] self.nodes[c]).can_merge(other.nodes[c])
    }

    /// How many children the root has.
    pub open spec fn root_children(self) -> int {
        let root = self.nodes[0];
        if root.first() < root.last() {
            root.last() - root.first()
        } else {
            0
        }
    }

    /// The nodes of the merged tree: the root, then the root's children, each
    /// with the visits and the wins of its counterpart added. The nodes below
    /// the root's children are left out.
    pub open spec fn merged_nodes(self, other: ArenaTree) -> Seq<Node> {
        let root = self.nodes[0];
        Seq::new(
            (1 + self.root_children()) as nat,
            |i: int|
                if i == 0 {
                    root.merged(other.nodes[0])
                } else {
                    self.nodes[root.first() + i - 1].merged(other.nodes[root.first() + i - 1])
                },
        )
    }

    /// Whether the two trees can be merged.
    pub fn can_merge_with(&self, other: &ArenaTree) -> (ok: bool)
        ensures
            ok == self.mergeable(*other),
    {
        if self.nodes.len() == 0 || other.nodes.len() == 0 {
            return false;
        }
        let root = &self.nodes[0];
        let (first, last) = match (root.first_child_id, root.last_child_id) {
            (Some(first), Some(last)) => (first, last),
            _ => {
                return false;
            },
        };
        let same_range = match (other.nodes[0].first_child_id, other.nodes[0].last_child_id) {
            (Some(a), Some(b)) => a == first && b == last,
            _ => false,
        };
        if !same_range || !root.fits_with(&other.nodes[0]) {
            return false;
        }
        if first >= last {
            return true;
        }
        if last > self.nodes.len() || last > other.nodes.len() {
            return false;
        }
        let mut child: usize = first;
        while child < last
            invariant
                self.nodes.len() > 0,
                first == self.nodes[0].first(),
                last == self.nodes[0].last(),
                first <= child <= last,
                last <= self.nodes.len(),
                last <= other.nodes.len(),
                forall|c: int|
                    first <= c < child ==> (#[trigger] self.nodes[c]).can_merge(other.nodes[c]),
            decreases last - child,
        {
            if !self.nodes[child].fits_with(&other.nodes[child]) {
                return false;
            }
            child += 1;
        }
        true
    }

    /// A new tree that holds the root and the root's children of this tree,
    /// with the visits and the wins of `other` added to them.
    pub fn merge_trees(&self, other: &ArenaTree) -> (result: ArenaTree)
        requires
            self.mergeable(*other),
        ensures
            result.nodes@ == self.merged_nodes(*other),
            self.nodes[0].first() == 1 ==> result.children_in_tree(0),
    {
        let mut result = ArenaTree { nodes: Vec::new() };
        result.nodes.push(self.nodes[0].merge(&other.nodes[0]));
        let first_child = self.nodes[0].first_child_id.unwrap();
        let last_child = self.nodes[0].last_child_id.unwrap();
        if first_child >= last_child {
            assert(result.nodes@ =~= self.merged_nodes(*other));
            return result;
        }
        let mut child: usize = first_child;
        while child < last_child
            invariant
                self.mergeable(*other),
                first_child == self.nodes[0].first(),
                last_child == self.nodes[0].last(),
                first_child <= child <= last_child,
                result.nodes.len() == 1 + child - first_child,
                forall|i: int|
                    0 <= i < result.nodes.len() ==> #[trigger] result.nodes[i] == self.merged_nodes(
                        *other,
                    )[i],
            decreases last_child - child,
        {
            assert(self.nodes[child as int].can_merge(other.nodes[child as int]));
            result.nodes.push(self.nodes[child].merge(&other.nodes[child]));
            child += 1;
        }
        assert(result.nodes@ =~= self.merged_nodes(*other));
        result
    }
}

/// Merging is symmetric in the visits and the wins: whichever of two trees
/// is merged into the other, the root and each child of the root hold the
/// sum of the visits and the sum of the wins of their two counterparts.
pub proof fn lemma_merge_commutes(a: ArenaTree, b: ArenaTree)
    requires
        a.mergeable(b),
    ensures
        b.mergeable(a),
        a.merged_nodes(b).len() == b.merged_nodes(a).len(),
        a.merged_nodes(b)[0].visits == b.merged_nodes(a)[0].visits,
        a.merged_nodes(b)[0].visits == a.nodes[0].visits + b.nodes[0].visits,
        a.merged_nodes(b)[0].wins == b.merged_nodes(a)[0].wins,
        a.merged_nodes(b)[0].wins == a.nodes[0].wins + b.nodes[0].wins,
        forall|i: int|
            0 <= i < a.merged_nodes(b).len() ==> (#[trigger] a.merged_nodes(b)[i]).visits
                == b.merged_nodes(a)[i].visits && a.merged_nodes(b)[i].wins == b.merged_nodes(
                a,
            )[i].wins,
        forall|i: int|
            1 <= i < a.merged_nodes(b).len() ==> (#[trigger] a.merged_nodes(b)[i]).visits
                == a.nodes[a.nodes[0].first() + i - 1].visits + b.nodes[a.nodes[0].first() + i
                - 1].visits && a.merged_nodes(b)[i].wins == a.nodes[a.nodes[0].first() + i - 1].wins
                + b.nodes[a.nodes[0].first() + i - 1].wins,
{
    let first = a.nodes[0].first();
    assert forall|c: int| first <= c < b.nodes[0].last() implies (#[trigger] b.nodes[c]).can_merge(
        a.nodes[c],
    ) by {
        assert(a.nodes[c].can_merge(b.nodes[c]));
    }
    assert forall|i: int| 1 <= i < a.merged_nodes(b).len() implies (#[trigger] a.merged_nodes(
        b,
    )[i]).visits == a.nodes[first + i - 1].visits + b.nodes[first + i - 1].visits
        && a.merged_nodes(b)[i].wins == a.nodes[first + i - 1].wins + b.nodes[first + i - 1].wins by {
        assert(a.nodes[first + i - 1].can_merge(b.nodes[first + i - 1]));
    }
}

} // verus!

use crate::chance::pick_index;
use crate::game::{Game, Player};
use crate::movegen::lemma_legal_moves_complete;
use crate::node::{ArenaTree, Node};
use crate::playout::PlayoutError;
use rand::rngs::StdRng;
use vstd::prelude::*;

verus! {

/// Whether `best` is the index of the highest of `keys`, of several such the
/// first; 0 where there are no keys.
pub open spec fn is_best(keys: Seq<u32>, best: int) -> bool {
    if keys.len() == 0 {
        best == 0
    } else {
        &&& 0 <= best < keys.len()
        &&& forall|j: int| 0 <= j < keys.len() ==> keys[j] <= keys[best]
        &&& forall|j: int| 0 <= j < best ==> keys[j] < keys[best]
    }
}

/// The index of the highest of `keys`, of several such the first; 0 where
/// there are no keys.
pub fn best_index(keys: &Vec<u32>) -> (best: usize)
    ensures
        is_best(keys@, best as int),
{
    let mut best: usize = 0;
    let mut highest: u32 = 0;
    let mut i: usize = 0;
    while i < keys.len()
        invariant
            i <= keys.len(),
            i == 0 ==> best == 0 && highest == 0,
            i > 0 ==> best < i && highest == keys[best as int],
            forall|j: int| 0 <= j < i ==> keys[j] <= highest,
            forall|j: int| 0 <= j < best ==> keys[j] < highest,
        decreases keys.len() - i,
    {
        if keys[i] > highest {
            best = i;
            highest = keys[i];
        }
        i += 1;
    }
    best
}

impl ArenaTree {
    /// Whether selection stops at node `i`: it was not expanded, or has no
    /// children, or has a child that was never visited.
    pub open spec fn selectable(self, i: int) -> bool {
        let n = self.nodes[i];
        !n.expanded() || n.first() >= n.last() || self.has_unvisited_child(i)
    }

    /// Whether `keys` are scores of the children of node `i`, in the
    /// children's order: each is what `score` gives for the child's wins and
    /// visits and for the visits of node `i`.
    pub open spec fn scored<F: Fn(i32, i32, i32) -> u32>(
        self,
        score: F,
        i: int,
        keys: Seq<u32>,
    ) -> bool {
        let n = self.nodes[i];
        &&& keys.len() == n.last() - n.first()
        &&& forall|j: int|
            0 <= j < keys.len() ==> call_ensures(
                score,
                (self.nodes[n.first() + j].wins, self.nodes[n.first() + j].visits, n.visits),
                #[trigger] keys[j],
            )
    }

    /// Whether selection may go from node `i` down to its child `c`: `c` is
    /// the child with the highest score, of several such the first.
    pub open spec fn descends<F: Fn(i32, i32, i32) -> u32>(self, score: F, i: int, c: int) -> bool {
        exists|keys: Seq<u32>| #[trigger]
            self.scored(score, i, keys) && is_best(keys, c - self.nodes[i].first())
    }

    /// Whether selection from node `from` may end at node `to`: `from` is
    /// where selection stops and `to` is `from`, or selection goes from
    /// `from` down to a child and from there may end at `to`.
    pub open spec fn selects<F: Fn(i32, i32, i32) -> u32>(self, score: F, from: int, to: int) -> bool
        decreases self.nodes.len() - from,
    {
        if 0 <= from < self.nodes.len() {
            if self.selectable(from) {
                to == from
            } else {
                exists|c: int|
                    from < c < self.nodes.len() && #[trigger] self.descends(score, from, c)
                        && self.selects(score, c, to)
            }
        } else {
            false
        }
    }

    /// The node at which selection from `node_id` ends. Selection stops at a
    /// node that was not expanded, that has no children, or that has a child
    /// that was never visited; from any other node it goes down to the child
    /// for which `score` gives the highest key, of several such the first.
    ///
    /// `score` is called with a child's wins, the child's visits and the
    /// parent's visits.
    pub fn select_step<F: Fn(i32, i32, i32) -> u32>(&self, node_id: usize, score: &F) -> (selected:
        usize)
        requires
            self.wf(),
            node_id < self.nodes.len(),
            forall|w: i32, v: i32, p: i32| call_requires(*score, (w, v, p)),
        ensures
            selected < self.nodes.len(),
            self.selectable(selected as int),
            self.selects(*score, node_id as int, selected as int),
    {
        let mut current: usize = node_id;
        loop
            invariant
                self.wf(),
                current < self.nodes.len(),
                forall|w: i32, v: i32, p: i32| call_requires(*score, (w, v, p)),
                forall|to: int|
                    self.selects(*score, current as int, to) ==> self.selects(
                        *score,
                        node_id as int,
                        to,
                    ),
            decreases self.nodes.len() - current,
        {
            let node = &self.nodes[current];
            assert(self.node_wf(current as int));
            if node.first_child_id.is_none() || node.last_child_id.is_none() {
                return current;
            }
            let children_start = node.first_child_id.unwrap();
            let children_stop = node.last_child_id.unwrap();
            if children_start >= children_stop || self.is_leaf_node(current) {
                return current;
            }
            let mut keys: Vec<u32> = Vec::new();
            let mut child: usize = children_start;
            while child < children_stop
                invariant
                    current < self.nodes.len(),
                    children_start == self.nodes[current as int].first(),
                    children_stop == self.nodes[current as int].last(),
                    children_stop <= self.nodes.len(),
                    children_start <= child <= children_stop,
                    keys.len() == child - children_start,
                    forall|w: i32, v: i32, p: i32| call_requires(*score, (w, v, p)),
                    forall|j: int|
                        0 <= j < keys.len() ==> call_ensures(
                            *score,
                            (
                                self.nodes[children_start + j].wins,
                                self.nodes[children_start + j].visits,
                                self.nodes[current as int].visits,
                            ),
                            #[trigger] keys[j],
                        ),
                decreases children_stop - child,
            {
                let key = score(
                    self.nodes[child].wins,
                    self.nodes[child].visits,
                    self.nodes[current].visits,
                );
                keys.push(key);
                child += 1;
            }
            let next: usize = children_start + best_index(&keys);
            proof {
                assert(self.scored(*score, current as int, keys@));
                assert(self.descends(*score, current as int, next as int));
                assert forall|to: int| self.selects(*score, next as int, to) implies self.selects(
                    *score,
                    node_id as int,
                    to,
                ) by {
                    lemma_selects_down(*self, *score, current as int, next as int, to);
                }
            }
            current = next;
        }
    }

    /// Whether node `a` is node `n` or stands above it: `n`'s parent, the
    /// parent of that, and so on.
    pub open spec fn on_path(self, a: int, n: int) -> bool
        decreases n,
    {
        a == n || (0 <= n < self.nodes.len() && match self.nodes[n].parent_id {
            Some(p) => p < n && self.on_path(a, p as int),
            None => false,
        })
    }

    /// Whether `later` is this tree after one more playout through node `n`,
    /// which `winner` won, was counted: node `n` and every node above it was
    /// visited once more, and won once more where the winner is not the side
    /// to move at it; no other node changed.
    pub open spec fn counted_to(self, later: ArenaTree, n: int, winner: Option<Player>) -> bool {
        &&& later.nodes.len() == self.nodes.len()
        &&& forall|i: int|
            0 <= i < self.nodes.len() ==> #[trigger] later.nodes[i] == if self.on_path(i, n) {
                self.nodes[i].visited(winner)
            } else {
                self.nodes[i]
            }
    }

    /// Whether `later` is this tree grown: it holds the nodes of this tree in
    /// their places, each with its parent, its move and its position; a node
    /// that had children has the same; no count of visits or wins is lower.
    pub open spec fn grown_to(self, later: ArenaTree) -> bool {
        &&& self.nodes.len() <= later.nodes.len()
        &&& forall|i: int|
            0 <= i < self.nodes.len() ==> {
                let was = self.nodes[i];
                let is = #[trigger] later.nodes[i];
                &&& is.parent_id == was.parent_id
                &&& is.move_from_parent == was.move_from_parent
                &&& is.game_state == was.game_state
                &&& was.expanded() ==> is.first_child_id == was.first_child_id && is.last_child_id
                    == was.last_child_id
                &&& was.visits <= is.visits
                &&& was.wins <= is.wins
            }
    }
}

/// Selection that goes from `from` down to `c` may end where selection from
/// `c` may end.
proof fn lemma_selects_down<F: Fn(i32, i32, i32) -> u32>(
    tree: ArenaTree,
    score: F,
    from: int,
    c: int,
    to: int,
)
    requires
        0 <= from < c < tree.nodes.len(),
        !tree.selectable(from),
        tree.descends(score, from, c),
        tree.selects(score, c, to),
    ensures
        tree.selects(score, from, to),
{
}

/// A node that stands on the path to `n` stands at or before `n`.
proof fn lemma_path_order(tree: ArenaTree, a: int, n: int)
    requires
        tree.on_path(a, n),
    ensures
        a <= n,
    decreases n,
{
    if a != n {
        lemma_path_order(tree, a, tree.nodes[n].parent_id->0 as int);
    }
}

/// The parent of a node on the path to `n` is on that path.
proof fn lemma_parent_on_path(tree: ArenaTree, a: int, n: int)
    requires
        tree.on_path(a, n),
        0 <= a < tree.nodes.len(),
        tree.nodes[a].parent_id matches Some(p) && p < a,
    ensures
        tree.on_path(tree.nodes[a].parent_id->0 as int, n),
    decreases n,
{
    let p = tree.nodes[a].parent_id->0 as int;
    if a == n {
        assert(tree.on_path(p, p));
    } else {
        lemma_parent_on_path(tree, a, tree.nodes[n].parent_id->0 as int);
    }
}

/// Of two nodes on the path to `n`, the one that stands first is on the path
/// to the parent of the other.
proof fn lemma_path_chain(tree: ArenaTree, a: int, c: int, n: int)
    requires
        tree.on_path(a, n),
        tree.on_path(c, n),
        a < c,
    ensures
        tree.nodes[c].parent_id is Some,
        tree.on_path(a, tree.nodes[c].parent_id->0 as int),
    decreases n,
{
    lemma_path_order(tree, c, n);
    if c != n {
        lemma_path_chain(tree, a, c, tree.nodes[n].parent_id->0 as int);
    }
}

/// Selection ends at the first node on its way at which it can stop: where
/// selection from `from` may end at `to`, `to` stands below `from` or is
/// `from`, selection stops at `to`, and it stops at no node on the way from
/// `from` to `to`.
pub proof fn lemma_selection_stops_first<F: Fn(i32, i32, i32) -> u32>(
    tree: ArenaTree,
    score: F,
    from: int,
    to: int,
)
    requires
        tree.wf(),
        tree.selects(score, from, to),
    ensures
        0 <= from <= to < tree.nodes.len(),
        tree.on_path(from, to),
        tree.selectable(to),
        forall|a: int| from <= a < to && tree.on_path(a, to) ==> !tree.selectable(a),
    decreases tree.nodes.len() - from,
{
    if !tree.selectable(from) {
        let c = choose|c: int|
            from < c < tree.nodes.len() && #[trigger] tree.descends(score, from, c) && tree.selects(
                score,
                c,
                to,
            );
        lemma_selection_stops_first(tree, score, c, to);
        let keys = choose|keys: Seq<u32>| #[trigger]
            tree.scored(score, from, keys) && is_best(keys, c - tree.nodes[from].first());
        assert(tree.node_wf(from));
        assert(tree.batch_ok(from));
        let j = c - tree.nodes[from].first();
        assert(tree.nodes[tree.nodes[from].first() + j].parent_id == Some(from as usize));
        lemma_parent_on_path(tree, c, to);
        assert forall|a: int| from <= a < to && tree.on_path(a, to) implies !tree.selectable(a) by {
            if a < c {
                lemma_path_chain(tree, a, c, to);
                lemma_path_order(tree, a, from);
            }
        }
    }
}

/// In a well-formed tree the root is on the path to every node.
pub proof fn lemma_root_on_path(tree: ArenaTree, n: int)
    requires
        tree.wf(),
        0 <= n < tree.nodes.len(),
    ensures
        tree.on_path(0, n),
    decreases n,
{
    assert(tree.node_wf(n));
    if n != 0 {
        lemma_root_on_path(tree, tree.nodes[n].parent_id->0 as int);
    }
}

impl ArenaTree {
    /// Counts one more playout, which `player` won, for the node `node_id`
    /// and for every node above it up to the root: each is visited once
    /// more, and wins once more where the winner is not the side to move at
    /// the node. No other node changes.
    pub fn backpropagate(&mut self, node_id: usize, player: Option<Player>)
        requires
            old(self).wf(),
            node_id < old(self).nodes.len(),
            old(self).nodes[0].visits < i32::MAX,
        ensures
            old(self).counted_to(*final(self), node_id as int, player),
            final(self).wf(),
            old(self).grown_to(*final(self)),
    {
        let ghost before = *self;
        let mut current: usize = node_id;
        proof {
            assert forall|i: int| before.on_path(i, node_id as int) implies i <= node_id by {
                lemma_path_order(before, i, node_id as int);
            }
        }
        loop
            invariant_except_break
                forall|i: int|
                    0 <= i < before.nodes.len() ==> #[trigger] self.nodes[i] == if before.on_path(
                        i,
                        node_id as int,
                    ) && i > current {
                        before.nodes[i].visited(player)
                    } else {
                        before.nodes[i]
                    },
            invariant
                before == *old(self),
                before.wf(),
                before.nodes[0].visits < i32::MAX,
                self.nodes.len() == before.nodes.len(),
                current < self.nodes.len(),
                before.on_path(current as int, node_id as int),
            ensures
                forall|i: int|
                    0 <= i < before.nodes.len() ==> #[trigger] self.nodes[i] == if before.on_path(
                        i,
                        node_id as int,
                    ) {
                        before.nodes[i].visited(player)
                    } else {
                        before.nodes[i]
                    },
            decreases current,
        {
            proof {
                assert(before.node_wf(current as int));
                lemma_visits_below_root(before, current as int);
            }
            let mut node = self.nodes[current];
            node.visits = node.visits + 1;
            if let Some(winner) = player {
                if winner != node.game_state.player {
                    node.wins = node.wins + 1;
                }
            }
            self.nodes[current] = node;
            match node.parent_id {
                Some(id) => {
                    proof {
                        assert forall|i: int|
                            0 <= i < before.nodes.len() && before.on_path(i, node_id as int) && i
                                > id implies i >= current by {
                            if i < current {
                                lemma_path_chain(before, i, current as int, node_id as int);
                                lemma_path_order(before, i, id as int);
                            }
                        }
                        lemma_parent_on_path(before, current as int, node_id as int);
                    }
                    current = id;
                },
                None => {
                    proof {
                        assert forall|i: int|
                            0 <= i < before.nodes.len() && before.on_path(
                                i,
                                node_id as int,
                            ) implies i >= current by {
                        }
                    }
                    break;
                },
            }
        }
        proof {
            lemma_visited_keeps_wf(before, *self, node_id as int, player);
        }
    }
}

/// In a well-formed tree no node was visited more often than the root.
proof fn lemma_visits_below_root(tree: ArenaTree, n: int)
    requires
        tree.wf(),
        0 <= n < tree.nodes.len(),
    ensures
        tree.nodes[n].visits <= tree.nodes[0].visits,
    decreases n,
{
    assert(tree.node_wf(n));
    if n != 0 {
        lemma_visits_below_root(tree, tree.nodes[n].parent_id->0 as int);
    }
}

/// A well-formed tree stays well formed when the nodes on the path to one of
/// its nodes are visited once more.
proof fn lemma_visited_keeps_wf(before: ArenaTree, after: ArenaTree, n: int, winner: Option<Player>)
    requires
        before.wf(),
        0 <= n < before.nodes.len(),
        before.nodes[0].visits < i32::MAX,
        after.nodes.len() == before.nodes.len(),
        forall|i: int|
            0 <= i < before.nodes.len() ==> #[trigger] after.nodes[i] == if before.on_path(i, n) {
                before.nodes[i].visited(winner)
            } else {
                before.nodes[i]
            },
    ensures
        after.wf(),
        before.grown_to(after),
{
    assert forall|i: int| 0 <= i < after.nodes.len() implies #[trigger] after.node_wf(i) by {
        assert(before.node_wf(i));
        lemma_visits_below_root(before, i);
        if let Some(p) = before.nodes[i].parent_id {
            assert(before.node_wf(p as int));
            lemma_visits_below_root(before, p as int);
            if before.on_path(i, n) {
                lemma_parent_on_path(before, i, n);
            }
        }
    }
    assert forall|i: int|
        0 <= i < after.nodes.len() && after.nodes[i].expanded() implies #[trigger] after.batch_ok(
        i,
    ) by {
        assert(before.node_wf(i));
        assert(before.batch_ok(i));
        let node = after.nodes[i];
        let moves = node.game_state@.legal_moves();
        assert forall|j: int| 0 <= j < moves.len() implies {
            let child = #[trigger] after.nodes[node.first() + j];
            &&& child.parent_id == Some(i as usize)
            &&& child.move_from_parent == Some(moves[j])
            &&& child.game_state@ == node.game_state@.apply(moves[j])
        } by {
            let was = before.nodes[node.first() + j];
            assert(was.parent_id == Some(i as usize));
        }
    }
    assert forall|i: int| 0 <= i < before.nodes.len() implies {
        let was = before.nodes[i];
        let is = #[trigger] after.nodes[i];
        &&& is.parent_id == was.parent_id
        &&& is.move_from_parent == was.move_from_parent
        &&& is.game_state == was.game_state
        &&& was.expanded() ==> is.first_child_id == was.first_child_id && is.last_child_id
            == was.last_child_id
        &&& was.visits <= is.visits
        &&& was.wins <= is.wins
    } by {
        assert(before.node_wf(i));
        lemma_visits_below_root(before, i);
    }
}

/// How many cycles a search runs that is asked for `iterations` of them:
/// none where the number is negative.
pub open spec fn cycles_run(iterations: i32) -> nat {
    if iterations > 0 {
        iterations as nat
    } else {
        0
    }
}

/// Growing is transitive.
pub proof fn lemma_grown_further(a: ArenaTree, b: ArenaTree, c: ArenaTree)
    requires
        a.grown_to(b),
        b.grown_to(c),
    ensures
        a.grown_to(c),
{
    assert forall|i: int| 0 <= i < a.nodes.len() implies {
        let was = a.nodes[i];
        let is = #[trigger] c.nodes[i];
        &&& is.parent_id == was.parent_id
        &&& is.move_from_parent == was.move_from_parent
        &&& is.game_state == was.game_state
        &&& was.expanded() ==> is.first_child_id == was.first_child_id && is.last_child_id
            == was.last_child_id
        &&& was.visits <= is.visits
        &&& was.wins <= is.wins
    } by {
        assert(b.nodes[i].parent_id == a.nodes[i].parent_id);
    }
}

impl ArenaTree {
    /// Whether `later` is this tree after the expansion of node `i`. Nothing
    /// changes where the game is over at the node or the node has its
    /// children already. Else the tree has one new node for each legal move
    /// of the node's position, in the moves' order and after all other
    /// nodes: each a child of node `i`, never visited, without children, with
    /// its move and with the position that the move leads to; node `i` has
    /// these nodes for its children, and no other node changes.
    pub open spec fn expanded_to(self, later: ArenaTree, i: int) -> bool {
        let was = self.nodes[i];
        let moves = was.game_state@.legal_moves();
        if was.game_state.game_over || was.expanded() {
            later.nodes@ == self.nodes@
        } else {
            &&& later.nodes.len() == self.nodes.len() + moves.len()
            &&& forall|j: int|
                0 <= j < self.nodes.len() && j != i ==> #[trigger] later.nodes[j] == self.nodes[j]
            &&& later.nodes[i] == (Node {
                first_child_id: Some(self.nodes.len() as usize),
                last_child_id: Some(later.nodes.len() as usize),
                ..was
            })
            &&& forall|j: int|
                0 <= j < moves.len() ==> {
                    let child = #[trigger] later.nodes[self.nodes.len() + j];
                    &&& child.parent_id == Some(i as usize)
                    &&& child.first_child_id is None
                    &&& child.last_child_id is None
                    &&& child.visits == 0
                    &&& child.wins == 0
                    &&& child.move_from_parent == Some(moves[j])
                    &&& child.game_state@ == was.game_state@.apply(moves[j])
                }
        }
    }

    /// Whether expansion may hand out `chosen` for node `i`: a child of node
    /// `i` that was never visited; or node `i` itself, where the game is over
    /// at it or it has no such child.
    pub open spec fn offers(self, i: int, chosen: int) -> bool {
        if !self.nodes[i].game_state.game_over && self.has_unvisited_child(i) {
            self.nodes[i].has_child(chosen) && self.nodes[chosen].visits == 0
        } else {
            chosen == i
        }
    }

    /// Whether a playout from node `i` may end with `outcome`: the winner
    /// that the node's position records where the game is over there, else
    /// an outcome of a greedy playout from its position.
    pub open spec fn plays(self, i: int, outcome: Result<Option<Player>, PlayoutError>) -> bool {
        let state = self.nodes[i].game_state;
        if state.game_over {
            outcome == Ok::<Option<Player>, PlayoutError>(state.winner)
        } else {
            state@.can_end_with(true, outcome)
        }
    }

    /// Whether `later` is this tree after a cycle of the search that came to
    /// a halt: after selection from the root and expansion of the selected
    /// node, the playout from the node that expansion handed out met a
    /// position without a legal move.
    pub open spec fn halts_to<F: Fn(i32, i32, i32) -> u32>(self, later: ArenaTree, score: F) -> bool {
        exists|selected: int, chosen: int|
            #![trigger self.expanded_to(later, selected), later.offers(selected, chosen)]
            {
                &&& self.selects(score, 0, selected)
                &&& self.expanded_to(later, selected)
                &&& later.offers(selected, chosen)
                &&& later.plays(
                    chosen,
                    Err::<Option<Player>, PlayoutError>(PlayoutError::NoLegalMove),
                )
            }
    }

    /// Whether `later` is this tree after fewer than `cycles` cycles of the
    /// search and one more that came to a halt.
    pub open spec fn stalls_to<F: Fn(i32, i32, i32) -> u32>(
        self,
        later: ArenaTree,
        score: F,
        cycles: nat,
    ) -> bool {
        exists|k: nat, mid: ArenaTree|
            #![trigger self.grows_to(mid, score, k), mid.halts_to(later, score)]
            k < cycles && self.grows_to(mid, score, k) && mid.halts_to(later, score)
    }

    /// Whether `later` is this tree after one cycle of the search: selection
    /// from the root, expansion of the selected node, a playout from the
    /// node that expansion handed out, and the count of its outcome.
    pub open spec fn cycles_to<F: Fn(i32, i32, i32) -> u32>(self, later: ArenaTree, score: F) -> bool {
        exists|selected: int, wide: ArenaTree, chosen: int, outcome: Option<Player>|
            #![trigger self.expanded_to(wide, selected), wide.counted_to(later, chosen, outcome)]
            {
                &&& self.selects(score, 0, selected)
                &&& self.expanded_to(wide, selected)
                &&& wide.offers(selected, chosen)
                &&& wide.plays(chosen, Ok::<Option<Player>, PlayoutError>(outcome))
                &&& wide.counted_to(later, chosen, outcome)
            }
    }

    /// Whether `later` is this tree after `cycles` cycles of the search.
    pub open spec fn grows_to<F: Fn(i32, i32, i32) -> u32>(
        self,
        later: ArenaTree,
        score: F,
        cycles: nat,
    ) -> bool
        decreases cycles,
    {
        if cycles == 0 {
            later.nodes@ == self.nodes@
        } else {
            exists|mid: ArenaTree|
                self.grows_to(mid, score, (cycles - 1) as nat) && #[trigger] mid.cycles_to(
                    later,
                    score,
                )
        }
    }

    /// Gives the node its children, where the game is not over at it and it
    /// has none yet: one for each legal move of its position. Then returns
    /// one of the node's children that were never visited, drawn at random
    /// with `rng`. Where the game is over at the node, or no child is
    /// unvisited (as where the position has no legal move), it returns the
    /// node itself.
    pub fn expand_step(&mut self, node_id: usize, rng: &mut StdRng) -> (chosen: usize)
        requires
            old(self).wf(),
            node_id < old(self).nodes.len(),
        ensures
            final(self).wf(),
            old(self).grown_to(*final(self)),
            old(self).expanded_to(*final(self), node_id as int),
            chosen < final(self).nodes.len(),
            final(self).offers(node_id as int, chosen as int),
    {
        let ghost before = *self;
        let game_state = self.nodes[node_id].game_state;
        proof {
            assert(before.node_wf(node_id as int));
            lemma_grown_same(before);
        }
        if game_state.game_over {
            return node_id;
        }
        if self.nodes[node_id].first_child_id.is_none() || self.nodes[node_id].last_child_id.is_none() {
            self.add_children(node_id);
        }
        assert(self.node_wf(node_id as int));
        let candidates = self.unvisited_children(node_id);
        match pick_index(&candidates, rng) {
            Some(picked) => {
                proof {
                    let k = choose|k: int| 0 <= k < candidates.len() && candidates[k] == picked;
                    assert(self.is_unvisited_child(node_id as int, candidates[k] as int));
                }
                picked
            },
            None => {
                assert forall|c: int| self.nodes[node_id as int].has_child(c) implies (
                #[trigger] self.nodes[c]).visits != 0 by {
                    if self.is_unvisited_child(node_id as int, c) {
                        assert(candidates@.contains(c as usize));
                    }
                }
                node_id
            },
        }
    }

    /// Whether `c` is a child of node `i` that was never visited.
    pub open spec fn is_unvisited_child(self, i: int, c: int) -> bool {
        self.nodes[i].has_child(c) && self.nodes[c].visits == 0
    }

    /// The children of the node that were never visited, in their order.
    pub fn unvisited_children(&self, node_id: usize) -> (found: Vec<usize>)
        requires
            node_id < self.nodes.len(),
            self.children_in_tree(node_id as int),
        ensures
            forall|k: int|
                0 <= k < found.len() ==> self.is_unvisited_child(
                    node_id as int,
                    (#[trigger] found[k]) as int,
                ),
            forall|j: int, k: int| 0 <= j < k < found.len() ==> found[j] < found[k],
            forall|c: usize|
                self.is_unvisited_child(node_id as int, c as int) ==> #[trigger] found@.contains(c),
    {
        let first = self.nodes[node_id].first_child_id.unwrap();
        let last = self.nodes[node_id].last_child_id.unwrap();
        let mut found: Vec<usize> = Vec::new();
        if first >= last {
            return found;
        }
        let mut child: usize = first;
        while child < last
            invariant
                node_id < self.nodes.len(),
                self.nodes[node_id as int].expanded(),
                first == self.nodes[node_id as int].first(),
                last == self.nodes[node_id as int].last(),
                first <= child <= last <= self.nodes.len(),
                forall|k: int|
                    0 <= k < found.len() ==> first <= (#[trigger] found[k]) < child
                        && self.nodes[found[k] as int].visits == 0,
                forall|j: int, k: int| 0 <= j < k < found.len() ==> found[j] < found[k],
                forall|c: usize|
                    first <= c < child && self.nodes[c as int].visits == 0
                        ==> #[trigger] found@.contains(c),
            decreases last - child,
        {
            if self.nodes[child].visits == 0 {
                let ghost before = found@;
                found.push(child);
                proof {
                    assert(found@[found.len() - 1] == child);
                    assert forall|c: usize|
                        first <= c < child + 1 && self.nodes[c as int].visits
                            == 0 implies #[trigger] found@.contains(c) by {
                        if c < child {
                            assert(before.contains(c));
                            let k = choose|k: int| 0 <= k < before.len() && before[k] == c;
                            assert(found@[k] == c);
                        }
                    }
                }
            }
            child += 1;
        }
        found
    }

    /// Gives the node its children: one new node for each legal move of its
    /// position.
    fn add_children(&mut self, node_id: usize)
        requires
            old(self).wf(),
            node_id < old(self).nodes.len(),
            !old(self).nodes[node_id as int].game_state.game_over,
            !old(self).nodes[node_id as int].expanded(),
        ensures
            final(self).wf(),
            old(self).grown_to(*final(self)),
            old(self).expanded_to(*final(self), node_id as int),
            final(self).nodes[node_id as int].expanded(),
    {
        let ghost before = *self;
        let game_state = self.nodes[node_id].game_state;
        let first: usize = self.nodes.len();
        let moves = game_state.get_legal_moves();
        proof {
            assert(before.node_wf(node_id as int));
        }
        let mut k: usize = 0;
        while k < moves.len()
            invariant
                before == *old(self),
                before.wf(),
                self.wf(),
                node_id < first,
                first == before.nodes.len(),
                self.nodes.len() == first + k,
                k <= moves.len(),
                game_state == before.nodes[node_id as int].game_state,
                game_state@.wf(),
                !game_state.game_over,
                moves@ == game_state@.legal_moves(),
                forall|j: int| 0 <= j < first ==> #[trigger] self.nodes[j] == before.nodes[j],
                forall|j: int|
                    0 <= j < k ==> {
                        let child = #[trigger] self.nodes[first + j];
                        &&& child.parent_id == Some(node_id)
                        &&& child.first_child_id is None
                        &&& child.last_child_id is None
                        &&& child.visits == 0
                        &&& child.wins == 0
                        &&& child.move_from_parent == Some(moves[j])
                        &&& child.game_state@ == game_state@.apply(moves[j])
                    },
            decreases moves.len() - k,
        {
            let legal_move = moves[k];
            proof {
                lemma_legal_moves_complete(game_state@, legal_move);
            }
            let next_state: Game = game_state.make_move(&legal_move);
            self.new_node(next_state, Some(node_id), Some(legal_move));
            k += 1;
        }
        let ghost filled = *self;
        let mut node = self.nodes[node_id];
        node.first_child_id = Some(first);
        node.last_child_id = Some(self.nodes.len());
        self.nodes[node_id] = node;
        proof {
            assert forall|i: int| 0 <= i < self.nodes.len() implies #[trigger] self.node_wf(i) by {
                assert(filled.node_wf(i));
                if let Some(p) = self.nodes[i].parent_id {
                    assert(filled.node_wf(p as int));
                }
            }
            assert forall|i: int|
                0 <= i < self.nodes.len() && self.nodes[i].expanded() implies #[trigger] self.batch_ok(
                i,
            ) by {
                let n = self.nodes[i];
                let legal = n.game_state@.legal_moves();
                if i == node_id {
                    assert forall|j: int| 0 <= j < legal.len() implies {
                        let child = #[trigger] self.nodes[n.first() + j];
                        &&& child.parent_id == Some(i as usize)
                        &&& child.move_from_parent == Some(legal[j])
                        &&& child.game_state@ == n.game_state@.apply(legal[j])
                    } by {
                        assert(self.nodes[first + j] == filled.nodes[first + j]);
                    }
                } else {
                    assert(filled.node_wf(i));
                    assert(filled.batch_ok(i));
                    assert forall|j: int| 0 <= j < legal.len() implies {
                        let child = #[trigger] self.nodes[n.first() + j];
                        &&& child.parent_id == Some(i as usize)
                        &&& child.move_from_parent == Some(legal[j])
                        &&& child.game_state@ == n.game_state@.apply(legal[j])
                    } by {
                        let was = filled.nodes[n.first() + j];
                        assert(was.parent_id == Some(i as usize));
                    }
                }
            }
            assert forall|i: int| 0 <= i < before.nodes.len() implies {
                let was = before.nodes[i];
                let is = #[trigger] self.nodes[i];
                &&& is.parent_id == was.parent_id
                &&& is.move_from_parent == was.move_from_parent
                &&& is.game_state == was.game_state
                &&& was.expanded() ==> is.first_child_id == was.first_child_id && is.last_child_id
                    == was.last_child_id
                &&& was.visits <= is.visits
                &&& was.wins <= is.wins
            } by {
                assert(filled.nodes[i] == before.nodes[i]);
            }
            assert forall|j: int| 0 <= j < moves@.len() implies {
                let child = #[trigger] self.nodes[before.nodes.len() + j];
                &&& child.parent_id == Some(node_id)
                &&& child.first_child_id is None
                &&& child.last_child_id is None
                &&& child.visits == 0
                &&& child.wins == 0
                &&& child.move_from_parent == Some(moves@[j])
                &&& child.game_state@ == game_state@.apply(moves@[j])
            } by {
                assert(self.nodes[first + j] == filled.nodes[first + j]);
            }
        }
    }

    /// The outcome of a playout from the node: the winner that its position
    /// records where the game is over there, else the outcome of a greedy
    /// playout from its position, which is an error where the playout meets
    /// a position without a legal move.
    pub fn playout(&self, node_id: usize, rng: &mut StdRng) -> (outcome: Result<
        Option<Player>,
        PlayoutError,
    >)
        requires
            node_id < self.nodes.len(),
            !self.nodes[node_id as int].game_state.game_over ==> {
                &&& self.nodes[node_id as int].game_state@.counts_ok()
                &&& self.nodes[node_id as int].game_state.move_number < i16::MAX
            },
        ensures
            self.plays(node_id as int, outcome),
    {
        if self.nodes[node_id].game_state.game_over {
            return Ok(self.nodes[node_id].game_state.winner);
        }
        self.nodes[node_id].game_state.greedy_playout(rng)
    }

    /// Runs the cycle of selection from the root, expansion, playout and
    /// backpropagation `iterations` times, with `rng` for its random draws.
    /// Every cycle visits the root once more, and the first expands the root
    /// where it has no children yet and the game is not over at it. A cycle
    /// whose playout meets a position without a legal move ends the search
    /// with that error; the tree is then as the cycle's expansion left it.
    pub fn grow<F: Fn(i32, i32, i32) -> u32>(
        &mut self,
        iterations: i32,
        score: &F,
        rng: &mut StdRng,
    ) -> (done: Result<(), PlayoutError>)
        requires
            old(self).wf(),
            old(self).nodes.len() > 0,
            old(self).nodes[0].visits + iterations <= i32::MAX,
            forall|w: i32, v: i32, p: i32| call_requires(*score, (w, v, p)),
        ensures
            final(self).wf(),
            old(self).grown_to(*final(self)),
            done is Ok ==> old(self).grows_to(*final(self), *score, cycles_run(iterations)),
            done is Ok ==> final(self).nodes[0].visits == old(self).nodes[0].visits + cycles_run(
                iterations,
            ),
            done is Err ==> old(self).stalls_to(*final(self), *score, cycles_run(iterations)),
            iterations <= 0 ==> done is Ok,
            iterations > 0 && !old(self).nodes[0].game_state.game_over
                ==> final(self).nodes[0].expanded(),
            iterations > 0 && !old(self).nodes[0].game_state.game_over
                && !old(self).nodes[0].expanded()
                ==> final(self).nodes[0].first() == old(self).nodes.len(),
    {
        let ghost before = *self;
        proof {
            lemma_grown_same(before);
        }
        let mut done: i32 = 0;
        while done < iterations
            invariant
                before == *old(self),
                self.wf(),
                before.nodes.len() > 0,
                before.grown_to(*self),
                0 <= done,
                done <= iterations || done == 0,
                done == 0 ==> self.nodes@ == before.nodes@,
                before.grows_to(*self, *score, done as nat),
                self.nodes[0].visits == before.nodes[0].visits + done,
                before.nodes[0].visits + iterations <= i32::MAX,
                forall|w: i32, v: i32, p: i32| call_requires(*score, (w, v, p)),
                done > 0 && !before.nodes[0].game_state.game_over ==> self.nodes[0].expanded(),
                done > 0 && !before.nodes[0].game_state.game_over && !before.nodes[0].expanded()
                    ==> self.nodes[0].first() == before.nodes.len(),
            decreases iterations - done,
        {
            let ghost start = *self;
            let selected = self.select_step(0, score);
            proof {
                if !start.nodes[0].expanded() {
                    assert(start.selectable(0));
                    assert(selected == 0);
                }
                assert(start.node_wf(0));
            }
            let expanded = self.expand_step(selected, rng);
            let ghost widened = *self;
            proof {
                assert(widened.node_wf(expanded as int));
                lemma_grown_further(before, start, widened);
            }
            let result = match self.playout(expanded, rng) {
                Ok(winner) => winner,
                Err(stuck) => {
                    proof {
                        assert(start.halts_to(widened, *score));
                        assert(before.grows_to(start, *score, done as nat));
                        assert(before.stalls_to(widened, *score, cycles_run(iterations)));
                    }
                    return Err(stuck);
                },
            };
            proof {
                lemma_root_on_path(widened, expanded as int);
                assert(widened.nodes[0].visits == start.nodes[0].visits) by {
                    assert(start.node_wf(0));
                }
            }
            self.backpropagate(expanded, result);
            proof {
                lemma_grown_further(start, widened, *self);
                lemma_grown_further(before, start, *self);
                assert(widened.counted_to(*self, expanded as int, result));
                assert(start.cycles_to(*self, *score));
            }
            done += 1;
        }
        Ok(())
    }
}

/// A tree is itself grown.
pub proof fn lemma_grown_same(tree: ArenaTree)
    ensures
        tree.grown_to(tree),
{
}

/// A search tree for the position `root`, grown by `n_think` cycles, with
/// `rng` for the random draws; or the error of a playout that met a position
/// without a legal move.
pub fn mcts_search<F: Fn(i32, i32, i32) -> u32>(
    root: Game,
    n_think: i32,
    score: &F,
    rng: &mut StdRng,
) -> (grown: Result<ArenaTree, PlayoutError>)
    requires
        root@.wf(),
        forall|w: i32, v: i32, p: i32| call_requires(*score, (w, v, p)),
    ensures
        n_think <= 0 ==> grown is Ok,
        grown matches Ok(arena) ==> {
            &&& arena.wf()
            &&& arena.nodes.len() > 0
            &&& arena.nodes[0].game_state == root
            &&& arena.nodes[0].visits == cycles_run(n_think)
            &&& n_think > 0 && !root.game_over ==> arena.nodes[0].expanded()
                && arena.nodes[0].first() == 1
            &&& exists|seed: ArenaTree|
                seed.nodes@ == seq![Node::fresh(root, None, None)] && #[trigger] seed.grows_to(
                    arena,
                    *score,
                    cycles_run(n_think),
                )
        },
        grown is Err ==> exists|seed: ArenaTree, last: ArenaTree|
            seed.nodes@ == seq![Node::fresh(root, None, None)] && #[trigger] seed.stalls_to(
                last,
                *score,
                cycles_run(n_think),
            ),
{
    let mut arena = ArenaTree { nodes: Vec::new() };
    arena.new_node(root, None, None);
    let ghost seed = arena;
    assert(seed.nodes@ =~= seq![Node::fresh(root, None, None)]);
    match arena.grow(n_think, score, rng) {
        Ok(()) => Ok(arena),
        Err(stuck) => {
            assert(seed.stalls_to(arena, *score, cycles_run(n_think)));
            Err(stuck)
        },
    }
}

} // verus!

//! The search: a frontier of nodes still to be expanded, kept in falling order of
//! their rank so that the best stands last, and the set of nodes already expanded.

use vstd::prelude::*;
use crate::board::is_valid_board;
use crate::error::PuzzleError;
use crate::heuristic::{scores_fit, Heuristic};
use crate::moves::{is_path, is_slide, lemma_successor_is_slide, reachable, successors};
use crate::node::Node;
use crate::optimal::{
    finds_shortest, is_shortest, lemma_optimal_start, lemma_optimal_step, lemma_taken_shortest,
    optimal,
};
use crate::parity::lemma_reachable_is_solvable;
use crate::path::{retrieve_path, walk_back};
use crate::solvable::is_solvable_board;
use crate::solving::lemma_solvable_is_reachable;
use crate::puzzle::Puzzle;
use crate::search::{
    closed_grew, consistent, is_round, is_run, largest_frontier, lemma_run_goes_on,
    lemma_run_starts, Lists, lemma_consistent_exhausted, lemma_consistent_start,
    lemma_consistent_step, lemma_consistent_taken, lemma_insert_index_exists,
    lemma_open_after_add, lemma_open_after_add_apart, lemma_state_index_exists,
};
use crate::spiral::goal_cells;

verus! {

/// The rank of a node: its cost and its estimate, each weighed.
pub open spec fn priority(node: Node, g_mul: usize, h_mul: usize) -> int {
    g_mul * node.g_score + h_mul * node.h_score
}

/// Some node of the list holds these cells.
pub open spec fn holds_state(list: Seq<Node>, cells: Seq<usize>) -> bool {
    exists|i: int| 0 <= i < list.len() && (#[trigger] list[i]).state@ == cells
}

/// `i` is the first index at which the list holds these cells.
pub open spec fn is_state_index(list: Seq<Node>, cells: Seq<usize>, i: int) -> bool {
    &&& 0 <= i < list.len()
    &&& list[i].state@ == cells
    &&& forall|j: int| 0 <= j < i ==> (#[trigger] list[j]).state@ != cells
}

/// The first index at which the list holds these cells; meaningful when it does.
pub open spec fn state_index(list: Seq<Node>, cells: Seq<usize>) -> int {
    choose|i: int| is_state_index(list, cells, i)
}

/// `i` is where a node of rank `rank` enters the list: before the first node of
/// lower rank, behind every node of the same rank.
pub open spec fn is_insert_index(
    list: Seq<Node>,
    g_mul: usize,
    h_mul: usize,
    rank: int,
    i: int,
) -> bool {
    &&& 0 <= i <= list.len()
    &&& i < list.len() ==> rank > priority(list[i], g_mul, h_mul)
    &&& forall|j: int| 0 <= j < i ==> rank <= priority(#[trigger] list[j], g_mul, h_mul)
}

/// Where a node of rank `rank` enters the list.
pub open spec fn insert_index(list: Seq<Node>, g_mul: usize, h_mul: usize, rank: int) -> int {
    choose|i: int| is_insert_index(list, g_mul, h_mul, rank, i)
}

/// The ranks never rise along the list, so the last node is a best one.
pub open spec fn sorted(list: Seq<Node>, g_mul: usize, h_mul: usize) -> bool {
    forall|i: int, j: int|
        0 <= i <= j < list.len() ==> priority(#[trigger] list[i], g_mul, h_mul) >= priority(
            #[trigger] list[j],
            g_mul,
            h_mul,
        )
}

/// No two nodes of the list hold the same cells.
pub open spec fn distinct_states(list: Seq<Node>) -> bool {
    forall|i: int, j: int|
        0 <= i < list.len() && 0 <= j < list.len() && i != j ==> (#[trigger] list[i]).state@ != (
        #[trigger] list[j]).state@
}

/// No state of the frontier was expanded.
pub open spec fn apart(open: Seq<Node>, closed: Seq<Node>) -> bool {
    forall|i: int| 0 <= i < open.len() ==> !holds_state(closed, (#[trigger] open[i]).state@)
}

/// The frontier after `node` was offered to it.  A node whose state was expanded
/// is dropped.  One whose state waits in the frontier takes the place of the
/// waiting node if its rank is lower, and is dropped otherwise.  Any other node
/// enters at its place in the order.
pub open spec fn open_after_add(
    open: Seq<Node>,
    closed: Seq<Node>,
    g_mul: usize,
    h_mul: usize,
    node: Node,
) -> Seq<Node> {
    let rank = priority(node, g_mul, h_mul);
    if holds_state(closed, node.state@) {
        open
    } else if holds_state(open, node.state@) {
        let pos = state_index(open, node.state@);
        if priority(open[pos], g_mul, h_mul) > rank {
            let rest = open.remove(pos);
            rest.insert(insert_index(rest, g_mul, h_mul, rank), node)
        } else {
            open
        }
    } else {
        open.insert(insert_index(open, g_mul, h_mul, rank), node)
    }
}

/// The nodes are the children of a node of these cells, side and cost: one for each
/// successor, in their order, one step dearer, scored against `goal`.
pub open spec fn children_of(
    childs: Seq<Node>,
    cells: Seq<usize>,
    size: usize,
    g: usize,
    goal: Seq<usize>,
    heuristic: Heuristic,
) -> bool {
    &&& childs.len() == successors(cells, size as int).len()
    &&& forall|k: int|
        0 <= k < childs.len() ==> {
            &&& (#[trigger] childs[k]).state@ == successors(cells, size as int)[k]
            &&& childs[k].state.size == size
            &&& childs[k].g_score == g + 1
            &&& childs[k].h_score == heuristic.value(childs[k].state@, goal, size as int)
        }
}

/// The frontier after the children from index `from` on were offered to it, the last
/// child first.
pub open spec fn open_after_children(
    open: Seq<Node>,
    closed: Seq<Node>,
    g_mul: usize,
    h_mul: usize,
    childs: Seq<Node>,
    from: int,
) -> Seq<Node>
    decreases childs.len() - from,
{
    if from >= childs.len() {
        open
    } else {
        open_after_add(
            open_after_children(open, closed, g_mul, h_mul, childs, from + 1),
            closed,
            g_mul,
            h_mul,
            childs[from],
        )
    }
}

/// Two indices at which a rank may enter coincide.
pub proof fn lemma_insert_index_unique(
    list: Seq<Node>,
    g_mul: usize,
    h_mul: usize,
    rank: int,
    i: int,
)
    requires
        is_insert_index(list, g_mul, h_mul, rank, i),
    ensures
        insert_index(list, g_mul, h_mul, rank) == i,
{
    let k = insert_index(list, g_mul, h_mul, rank);
    assert(is_insert_index(list, g_mul, h_mul, rank, k));
    if k < i {
        assert(rank <= priority(list[k], g_mul, h_mul));
    } else if i < k {
        assert(rank <= priority(list[i], g_mul, h_mul));
    }
}

/// Two first indices of a state coincide.
pub proof fn lemma_state_index_unique(list: Seq<Node>, cells: Seq<usize>, i: int)
    requires
        is_state_index(list, cells, i),
    ensures
        state_index(list, cells) == i,
{
    let k = state_index(list, cells);
    assert(is_state_index(list, cells, k));
    if k < i {
        assert(list[k].state@ != cells);
    } else if i < k {
        assert(list[i].state@ != cells);
    }
}

/// The two lists of a search, the nodes it runs between, and how it ranks.
pub struct Graph {
    /// The frontier, best node last.
    pub open_list: Vec<Node>,
    /// The nodes that were expanded.
    pub closed_list: Vec<Node>,
    pub start_node: Node,
    pub final_node: Node,
    pub heuristic: Heuristic,
    /// The weight of the cost in a node's rank.
    pub g_mul: usize,
    /// The weight of the estimate in a node's rank.
    pub h_mul: usize,
    /// The largest size that the frontier had.
    pub max_states: usize,
}

impl Graph {
    /// The weights are small enough for every rank to fit the machine's numbers.
    pub open spec fn weights_fit(&self) -> bool {
        self.g_mul <= u32::MAX && self.h_mul <= u32::MAX
    }

    /// The rank that this search gives a node.
    pub open spec fn rank(&self, node: Node) -> int {
        priority(node, self.g_mul, self.h_mul)
    }

    /// Everything but the frontier is as in `other`.
    pub open spec fn same_but_open(&self, other: &Graph) -> bool {
        &&& self.closed_list == other.closed_list
        &&& self.start_node == other.start_node
        &&& self.final_node == other.final_node
        &&& self.heuristic == other.heuristic
        &&& self.g_mul == other.g_mul
        &&& self.h_mul == other.h_mul
    }

    /// The rank of a node.
    pub fn rank_of(&self, node: &Node) -> (rank: u128)
        requires
            self.weights_fit(),
        ensures
            rank == self.rank(*node),
    {
        let g_mul = self.g_mul as u128;
        let h_mul = self.h_mul as u128;
        let g = node.g_score as u128;
        let h = node.h_score as u128;
        assert(g_mul * g <= 0xffff_ffff * 0xffff_ffff_ffff_ffff) by (nonlinear_arith)
            requires
                0 <= g_mul <= 0xffff_ffff,
                0 <= g <= 0xffff_ffff_ffff_ffff,
        ;
        assert(h_mul * h <= 0xffff_ffff * 0xffff_ffff_ffff_ffff) by (nonlinear_arith)
            requires
                0 <= h_mul <= 0xffff_ffff,
                0 <= h <= 0xffff_ffff_ffff_ffff,
        ;
        g_mul * g + h_mul * h
    }

    /// Puts a node at the end of the frontier.
    pub fn add_to_open_list(&mut self, new_node: Node)
        ensures
            final(self).open_list@ == old(self).open_list@.push(new_node),
            final(self).same_but_open(old(self)),
            final(self).max_states == old(self).max_states,
    {
        self.open_list.push(new_node);
    }

    /// Puts a node at the end of the expanded nodes.
    pub fn add_to_closed_list(&mut self, new_node: Node)
        ensures
            final(self).closed_list@ == old(self).closed_list@.push(new_node),
            final(self).open_list == old(self).open_list,
            final(self).start_node == old(self).start_node,
            final(self).final_node == old(self).final_node,
            final(self).heuristic == old(self).heuristic,
            final(self).g_mul == old(self).g_mul,
            final(self).h_mul == old(self).h_mul,
            final(self).max_states == old(self).max_states,
    {
        self.closed_list.push(new_node);
    }

    /// Whether no node of the frontier holds the state of `node` at a higher rank.
    pub fn is_lower_cost(&self, node: &Node) -> (lower: bool)
        requires
            self.weights_fit(),
        ensures
            lower == !(exists|i: int|
                0 <= i < self.open_list@.len() && (#[trigger] self.open_list@[i]).state@
                    == node.state@ && self.rank(self.open_list@[i]) > self.rank(*node)),
    {
        let rank = self.rank_of(node);
        let mut i: usize = 0;
        while i < self.open_list.len()
            invariant
                self.weights_fit(),
                rank == self.rank(*node),
                i <= self.open_list@.len(),
                forall|k: int|
                    0 <= k < i ==> !((#[trigger] self.open_list@[k]).state@ == node.state@
                        && self.rank(self.open_list@[k]) > self.rank(*node)),
            decreases self.open_list@.len() - i,
        {
            if self.open_list[i].state == node.state && self.rank_of(&self.open_list[i]) > rank {
                return false;
            }
            i += 1;
        }
        true
    }

    /// The first index of the list at which a node holds the state of `node`.
    fn position_of_state(list: &Vec<Node>, node: &Node) -> (found: Option<usize>)
        ensures
            found is Some <==> holds_state(list@, node.state@),
            found is Some ==> is_state_index(list@, node.state@, found->0 as int),
            found is Some ==> found->0 == state_index(list@, node.state@),
    {
        let mut i: usize = 0;
        while i < list.len()
            invariant
                i <= list@.len(),
                forall|k: int| 0 <= k < i ==> (#[trigger] list@[k]).state@ != node.state@,
            decreases list@.len() - i,
        {
            if list[i].state == node.state {
                proof {
                    lemma_state_index_unique(list@, node.state@, i as int);
                }
                return Some(i);
            }
            i += 1;
        }
        None
    }

    /// Where a node of this rank enters the frontier.
    fn sorted_position(&self, rank: u128) -> (index: usize)
        requires
            self.weights_fit(),
        ensures
            is_insert_index(self.open_list@, self.g_mul, self.h_mul, rank as int, index as int),
            index == insert_index(self.open_list@, self.g_mul, self.h_mul, rank as int),
    {
        let mut i: usize = 0;
        while i < self.open_list.len()
            invariant
                self.weights_fit(),
                i <= self.open_list@.len(),
                forall|k: int|
                    0 <= k < i ==> rank <= priority(
                        #[trigger] self.open_list@[k],
                        self.g_mul,
                        self.h_mul,
                    ),
            decreases self.open_list@.len() - i,
        {
            if rank > self.rank_of(&self.open_list[i]) {
                proof {
                    lemma_insert_index_unique(
                        self.open_list@,
                        self.g_mul,
                        self.h_mul,
                        rank as int,
                        i as int,
                    );
                }
                return i;
            }
            i += 1;
        }
        proof {
            lemma_insert_index_unique(
                self.open_list@,
                self.g_mul,
                self.h_mul,
                rank as int,
                i as int,
            );
        }
        i
    }

    /// Replaces the frontier's node of the same state by `new_node` if that lowers
    /// the rank, and moves it to its place in the order.
    pub fn update_cost(&mut self, new_node: Node)
        requires
            old(self).weights_fit(),
            holds_state(old(self).open_list@, new_node.state@),
        ensures
            final(self).open_list@ == open_after_update(
                old(self).open_list@,
                old(self).g_mul,
                old(self).h_mul,
                new_node,
            ),
            final(self).same_but_open(old(self)),
            final(self).max_states == old(self).max_states,
    {
        let found = Graph::position_of_state(&self.open_list, &new_node);
        let pos = found.unwrap();
        let new_rank = self.rank_of(&new_node);
        if self.rank_of(&self.open_list[pos]) > new_rank {
            self.open_list.remove(pos);
            let index = self.sorted_position(new_rank);
            self.open_list.insert(index, new_node);
        }
    }

    /// Offers a node to the frontier.
    pub fn add_in_sorted_open_list(&mut self, node: Node)
        requires
            old(self).weights_fit(),
        ensures
            final(self).open_list@ == open_after_add(
                old(self).open_list@,
                old(self).closed_list@,
                old(self).g_mul,
                old(self).h_mul,
                node,
            ),
            final(self).same_but_open(old(self)),
            final(self).max_states == old(self).max_states + if !holds_state(
                old(self).closed_list@,
                node.state@,
            ) && !holds_state(old(self).open_list@, node.state@) && old(self).max_states <= old(
                self,
            ).open_list@.len() {
                1int
            } else {
                0int
            },
            sorted(old(self).open_list@, old(self).g_mul, old(self).h_mul) ==> sorted(
                final(self).open_list@,
                old(self).g_mul,
                old(self).h_mul,
            ),
            distinct_states(old(self).open_list@) && apart(
                old(self).open_list@,
                old(self).closed_list@,
            ) ==> distinct_states(final(self).open_list@) && apart(
                final(self).open_list@,
                old(self).closed_list@,
            ),
    {
        proof {
            lemma_open_after_add(self.open_list@, self.closed_list@, self.g_mul, self.h_mul, node);
            if distinct_states(self.open_list@) && apart(self.open_list@, self.closed_list@) {
                lemma_open_after_add_apart(
                    self.open_list@,
                    self.closed_list@,
                    self.g_mul,
                    self.h_mul,
                    node,
                );
            }
        }
        if Graph::position_of_state(&self.closed_list, &node).is_some() {
            return ;
        }
        if Graph::position_of_state(&self.open_list, &node).is_some() {
            self.update_cost(node);
            return ;
        }
        let rank = self.rank_of(&node);
        let index = self.sorted_position(rank);
        self.open_list.insert(index, node);

        if self.max_states < self.open_list.len() {
            self.max_states += 1;
        }
    }
}

impl Graph {
    /// Expands `parent`: offers each of its children to the frontier, the last
    /// first.
    pub fn add_child_nodes_to_open_list(&mut self, parent: Node)
        requires
            old(self).weights_fit(),
            parent.state.valid(),
            old(self).final_node.state.valid(),
            parent.state.size == old(self).final_node.state.size,
            scores_fit(parent.state.size),
            parent.g_score < usize::MAX,
        ensures
            final(self).same_but_open(old(self)),
            final(self).max_states >= old(self).max_states,
            old(self).max_states >= old(self).open_list@.len() ==> final(self).max_states
                >= final(self).open_list@.len(),
            final(self).max_states - final(self).open_list@.len() <= old(self).max_states - old(
                self,
            ).open_list@.len(),
            old(self).max_states >= old(self).open_list@.len() ==> final(self).max_states == if old(
                self,
            ).max_states >= final(self).open_list@.len() {
                old(self).max_states as int
            } else {
                final(self).open_list@.len() as int
            },
            exists|childs: Seq<Node>|
                children_of(
                    childs,
                    parent.state@,
                    parent.state.size,
                    parent.g_score,
                    old(self).final_node.state@,
                    old(self).heuristic,
                ) && final(self).open_list@ == #[trigger] open_after_children(
                    old(self).open_list@,
                    old(self).closed_list@,
                    old(self).g_mul,
                    old(self).h_mul,
                    childs,
                    0,
                ),
    {
        let ghost cells = parent.state@;
        let ghost size = parent.state.size;
        let ghost g = parent.g_score;
        let mut childs = Node::calculate_next_nodes(
            parent,
            self.final_node.clone(),
            self.heuristic,
        );
        let ghost all = childs@;
        let ghost before = self.open_list@;
        assert(children_of(all, cells, size, g, self.final_node.state@, self.heuristic));

        while childs.len() > 0
            invariant
                self.weights_fit(),
                self.same_but_open(old(self)),
                self.max_states >= old(self).max_states,
                old(self).max_states >= old(self).open_list@.len() ==> self.max_states
                    >= self.open_list@.len(),
                self.max_states - self.open_list@.len() <= old(self).max_states - old(
                    self,
                ).open_list@.len(),
                old(self).max_states >= old(self).open_list@.len() ==> self.max_states == if old(
                    self,
                ).max_states >= self.open_list@.len() {
                    old(self).max_states as int
                } else {
                    self.open_list@.len() as int
                },
                self.open_list@.len() >= old(self).open_list@.len(),
                before == old(self).open_list@,
                childs@.len() <= all.len(),
                childs@ == all.take(childs@.len() as int),
                self.open_list@ == open_after_children(
                    before,
                    self.closed_list@,
                    self.g_mul,
                    self.h_mul,
                    all,
                    childs@.len() as int,
                ),
            decreases childs@.len(),
        {
            let child = childs.pop().unwrap();
            proof {
                lemma_insert_index_exists(
                    self.open_list@,
                    self.g_mul,
                    self.h_mul,
                    priority(child, self.g_mul, self.h_mul),
                );
                if holds_state(self.open_list@, child.state@) {
                    lemma_state_index_exists(self.open_list@, child.state@);
                    let rest = self.open_list@.remove(state_index(self.open_list@, child.state@));
                    lemma_insert_index_exists(
                        rest,
                        self.g_mul,
                        self.h_mul,
                        priority(child, self.g_mul, self.h_mul),
                    );
                }
            }
            self.add_in_sorted_open_list(child);
        }
    }
}

/// The cells of each board of a path.
pub open spec fn boards(path: Seq<Puzzle>) -> Seq<Seq<usize>> {
    Seq::new(path.len(), |k: int| path[k]@)
}

impl Graph {
    /// The graph is that of a search from `state` with this estimator and these
    /// weights: its start node holds `state` at no cost with its estimate, its final
    /// node holds the goal of the side.
    pub open spec fn is_search_of(
        &self,
        state: Puzzle,
        heuristic: Heuristic,
        g_mul: usize,
        h_mul: usize,
    ) -> bool {
        let n = state.size as int;
        &&& self.start_node.state@ == state@
        &&& self.start_node.state.size == state.size
        &&& self.start_node.g_score == 0
        &&& self.start_node.h_score == heuristic.value(state@, goal_cells(n), n)
        &&& self.final_node.state@ == goal_cells(n)
        &&& self.final_node.state.size == state.size
        &&& self.heuristic == heuristic
        &&& self.g_mul == g_mul
        &&& self.h_mul == h_mul
    }
}

/// What a search that reached the goal hands back.
pub struct Solution {
    /// The lists as the search left them.
    pub graph: Graph,
    /// The node that holds the goal; its cost is the number of moves.
    pub final_node: Node,
    /// The states from the start to the goal, one for each move and the start.
    pub path: Vec<Puzzle>,
}

impl Solution {
    /// `run` is the search at whose end the solution was found: its rounds lead from
    /// the start node to the lists of the solution, to whose frontier the final node
    /// belonged last, and the graph knows the largest length that the frontier had.
    pub open spec fn ends(self, run: Seq<Lists>) -> bool {
        &&& is_run(
            run,
            self.graph.start_node,
            self.graph.start_node.state.size,
            self.graph.heuristic,
            self.graph.g_mul,
            self.graph.h_mul,
        )
        &&& run.len() > 0
        &&& run[run.len() - 1].0 == self.graph.open_list@.push(self.final_node)
        &&& run[run.len() - 1].1 == self.graph.closed_list@
        &&& self.graph.max_states == largest_frontier(run, run.len() as int)
    }

    /// The number of moves of the solution.
    pub fn moves(&self) -> (count: usize)
        ensures
            count == self.final_node.g_score,
    {
        self.final_node.g_score
    }
}

impl Graph {
    /// Best-first search from `state` to the goal of its side.  Nodes are ranked by
    /// `g_mul` times their cost plus `h_mul` times their estimate; among nodes of one
    /// rank the one found last is expanded first.  A state that was expanded is
    /// never taken up again, so no state stands twice in the lists.
    ///
    /// The search succeeds exactly when some chain of moves leads from `state` to
    /// the goal, which is when `state` passes the parity test, and then hands back
    /// such a chain.  The chain is a shortest one when the cost counts once and the
    /// estimate does not count or counts once: every estimate changes by one at
    /// most with each move, so the node that is taken from the frontier has its
    /// lowest cost, and giving up states that were expanded loses nothing.  With
    /// another ranking the chain may be longer than need be.  The largest length
    /// that the frontier had, the node in hand counted, is kept in `max_states`.
    #[verifier::rlimit(40)]
    pub fn a_star(state: Puzzle, heuristic: Heuristic, g_mul: usize, h_mul: usize) -> (found:
        Result<Solution, PuzzleError>)
        requires
            state.valid(),
            scores_fit(state.size),
            g_mul <= u32::MAX,
            h_mul <= u32::MAX,
        ensures
            found is Ok <==> reachable(state@, goal_cells(state.size as int), state.size as int),
            found is Ok <==> is_solvable_board(state@, state.size as int),
            found is Err ==> found->Err_0 == PuzzleError::SearchExhausted,
            found is Ok ==> {
                let solution = found->Ok_0;
                &&& is_path(
                    boards(solution.path@),
                    state@,
                    goal_cells(state.size as int),
                    state.size as int,
                )
                &&& solution.path@.len() == solution.final_node.g_score + 1
                &&& solution.final_node.state@ == goal_cells(state.size as int)
                &&& forall|k: int|
                    0 <= k < solution.path@.len() ==> (#[trigger] solution.path@[k]).size
                        == state.size
                &&& solution.final_node.state.size == state.size
                &&& solution.graph.is_search_of(state, heuristic, g_mul, h_mul)
                &&& exists|run: Seq<Lists>| #[trigger] solution.ends(run)
                &&& solution.graph.max_states > solution.graph.open_list@.len()
                &&& solution.graph.max_states <= solution.graph.open_list@.len()
                    + solution.graph.closed_list@.len() + 1
                &&& solution.graph.closed_list@.len() >= solution.final_node.g_score
                &&& sorted(solution.graph.open_list@, g_mul, h_mul)
                &&& distinct_states(solution.graph.open_list@)
                &&& distinct_states(solution.graph.closed_list@)
                &&& apart(solution.graph.open_list@, solution.graph.closed_list@)
                &&& !holds_state(solution.graph.open_list@, solution.final_node.state@)
                &&& !holds_state(solution.graph.closed_list@, solution.final_node.state@)
            },
            state@ == goal_cells(state.size as int) ==> found is Ok
                && found->Ok_0.final_node.g_score == 0 && found->Ok_0.graph.open_list@.len() == 0
                && found->Ok_0.graph.closed_list@.len() == 0 && found->Ok_0.graph.max_states == 1,
            finds_shortest(g_mul, h_mul) && found is Ok ==> is_shortest(
                found->Ok_0.final_node.g_score as int,
                state@,
                goal_cells(state.size as int),
                state.size as int,
            ),
    {
        let size = state.size;
        let ghost n: int = size as int;
        let ghost start = state@;
        assert(size * size == state.data.len());
        let final_node = Node::get_final_node(size);
        let start_node = Node::new_starting_node(state.clone(), heuristic);
        let mut graph = Graph {
            open_list: Vec::new(),
            closed_list: Vec::new(),
            start_node: start_node.partial_copy(),
            final_node,
            heuristic,
            g_mul,
            h_mul,
            max_states: 1,
        };
        graph.add_to_open_list(start_node);
        let ghost first = graph.start_node;
        let ghost mut run: Seq<Lists> = seq![(graph.open_list@, Seq::<Node>::empty())];
        proof {
            lemma_consistent_start(graph.open_list@, start, size, g_mul, h_mul);
            lemma_optimal_start(graph.open_list@, start, size, heuristic);
            assert(graph.closed_list@ =~= Seq::<Node>::empty());
            lemma_run_starts(graph.open_list@, first, size, heuristic, g_mul, h_mul);
            assert(run[0] == (graph.open_list@, graph.closed_list@));
        }

        while !graph.open_list.is_empty()
            invariant
                consistent(graph.open_list@, graph.closed_list@, start, size, g_mul, h_mul),
                finds_shortest(g_mul, h_mul) ==> optimal(
                    graph.open_list@,
                    graph.closed_list@,
                    start,
                    size,
                    heuristic,
                ),
                graph.is_search_of(state, heuristic, g_mul, h_mul),
                graph.start_node == first,
                is_run(run, first, size, heuristic, g_mul, h_mul),
                run.len() > 0,
                run[run.len() - 1] == (graph.open_list@, graph.closed_list@),
                graph.max_states == largest_frontier(run, run.len() as int),
                graph.max_states >= graph.open_list@.len(),
                graph.max_states <= graph.open_list@.len() + graph.closed_list@.len(),
                2 <= size,
                size * size <= usize::MAX,
                graph.g_mul == g_mul,
                graph.h_mul == h_mul,
                graph.weights_fit(),
                scores_fit(size),
                graph.final_node.state.size == size,
                graph.final_node.state@ == goal_cells(n),
                graph.final_node.state.valid(),
                n == size,
                start == state@,
                size == state.size,
                is_valid_board(start, n),
                start == goal_cells(n) ==> graph.open_list@.len() == 1
                    && graph.closed_list@.len() == 0 && graph.max_states == 1
                    && graph.open_list@[0].g_score == 0 && graph.open_list@[0].state@ == start,
            decreases usize::MAX - graph.closed_list@.len(),
        {
            let ghost open_before = graph.open_list@;
            let ghost closed_before = graph.closed_list@;
            proof {
                lemma_consistent_taken(open_before, closed_before, start, size, g_mul, h_mul);
                if finds_shortest(g_mul, h_mul) {
                    lemma_taken_shortest(
                        open_before,
                        closed_before,
                        start,
                        size,
                        heuristic,
                        g_mul,
                        h_mul,
                    );
                }
            }
            let curr_node = graph.open_list.pop().unwrap();
            let ghost open_rest = graph.open_list@;
            assert(curr_node == open_before.last());
            assert(open_rest == open_before.drop_last());

            if curr_node.state == graph.final_node.state {
                let path = retrieve_path(&curr_node, &graph).unwrap();
                proof {
                    let walked = walk_back(
                        open_rest,
                        closed_before,
                        curr_node.state@,
                        size,
                        curr_node.g_score,
                    ).1;
                    assert(boards(path@) =~= walked);
                    assert(reachable(start, goal_cells(n), n));
                    lemma_reachable_is_solvable(start, n);
                    assert(open_before =~= open_rest.push(curr_node));
                }
                let solution = Solution { graph, final_node: curr_node, path };
                assert(solution.ends(run));
                return Ok(solution);
            }
            graph.add_to_closed_list(curr_node.clone());
            let ghost closed_now = graph.closed_list@;
            assert(closed_grew(closed_before, closed_now, curr_node));
            assert(graph.closed_list.len() == closed_before.len() + 1);
            graph.add_child_nodes_to_open_list(curr_node);
            proof {
                let childs = choose|childs: Seq<Node>|
                    children_of(
                        childs,
                        curr_node.state@,
                        size,
                        curr_node.g_score,
                        graph.final_node.state@,
                        graph.heuristic,
                    ) && graph.open_list@ == #[trigger] open_after_children(
                        open_rest,
                        closed_now,
                        g_mul,
                        h_mul,
                        childs,
                        0,
                    );
                lemma_consistent_step(
                    open_before,
                    closed_before,
                    graph.open_list@,
                    closed_now,
                    childs,
                    start,
                    size,
                    g_mul,
                    h_mul,
                );
                if finds_shortest(g_mul, h_mul) {
                    lemma_optimal_step(
                        open_before,
                        closed_before,
                        graph.open_list@,
                        closed_now,
                        childs,
                        start,
                        size,
                        heuristic,
                        g_mul,
                        h_mul,
                    );
                }
                let next = (graph.open_list@, closed_now);
                let last = run[run.len() - 1];
                assert(last.0 == open_before && last.1 == closed_before);
                assert(last.0.last() == curr_node);
                assert(last.0.drop_last() == open_rest);
                assert(children_of(
                    childs,
                    last.0.last().state@,
                    size,
                    last.0.last().g_score,
                    goal_cells(n),
                    heuristic,
                ));
                assert(next.0 == open_after_children(
                    last.0.drop_last(),
                    next.1,
                    g_mul,
                    h_mul,
                    childs,
                    0,
                ));
                assert(is_round(last, next, size, heuristic, g_mul, h_mul));
                lemma_run_goes_on(run, next, first, size, heuristic, g_mul, h_mul);
                run = run.push(next);
            }
        }
        proof {
            assert(graph.open_list@ =~= Seq::<Node>::empty());
            lemma_consistent_exhausted(graph.closed_list@, start, size, g_mul, h_mul);
            if is_solvable_board(start, n) {
                lemma_solvable_is_reachable(start, n);
            }
        }
        Err(PuzzleError::SearchExhausted)
    }
}

/// The nodes lead back from the goal to `from`: the first holds `goal`, the last
/// holds `from`, each is one move away from the node behind it and cost one step
/// more.
pub open spec fn is_chain_back(chain: Seq<Node>, from: Node, goal: Seq<usize>) -> bool {
    &&& chain.len() > 0
    &&& chain[0].state@ == goal
    &&& chain[chain.len() - 1].state@ == from.state@
    &&& chain[chain.len() - 1].g_score == from.g_score
    &&& forall|k: int|
        0 <= k < chain.len() ==> (#[trigger] chain[k]).state.size == from.state.size
    &&& forall|k: int|
        0 <= k < chain.len() - 1 ==> is_slide(
            chain[k + 1].state@,
            (#[trigger] chain[k]).state@,
            from.state.size as int,
        ) && chain[k].g_score == chain[k + 1].g_score + 1
}

/// `best` is the last of the nodes of lowest rank.
pub open spec fn is_best(childs: Seq<Node>, g_mul: usize, h_mul: usize, best: int) -> bool {
    &&& 0 <= best < childs.len()
    &&& forall|k: int|
        0 <= k < childs.len() ==> priority(childs[best], g_mul, h_mul) <= priority(
            #[trigger] childs[k],
            g_mul,
            h_mul,
        )
    &&& forall|k: int|
        best < k < childs.len() ==> priority(childs[best], g_mul, h_mul) < priority(
            #[trigger] childs[k],
            g_mul,
            h_mul,
        )
}

impl Graph {
    /// The index of the node to try next: the last of those of lowest rank.
    fn pick_best(&self, childs: &Vec<Node>) -> (best: usize)
        requires
            self.weights_fit(),
            childs@.len() > 0,
        ensures
            is_best(childs@, self.g_mul, self.h_mul, best as int),
    {
        let mut best: usize = 0;
        let mut i: usize = 1;
        while i < childs.len()
            invariant
                self.weights_fit(),
                1 <= i <= childs@.len(),
                is_best(childs@.take(i as int), self.g_mul, self.h_mul, best as int),
            decreases childs@.len() - i,
        {
            if self.rank_of(&childs[i]) <= self.rank_of(&childs[best]) {
                best = i;
            }
            i += 1;
        }
        assert(childs@.take(childs@.len() as int) =~= childs@);
        best
    }

    /// Depth-first search from `curr_node`: the children are tried in rising order
    /// of rank, and a child is entered unless its state was given up or waits in the
    /// frontier at a higher rank, or its cost is the largest number there is.  Hands
    /// back the nodes from the goal back to `curr_node` if the goal was met; a node
    /// from which it was not met is given up: it joins the expanded nodes.
    pub fn recursive_search(&mut self, curr_node: Node) -> (found: Option<Vec<Node>>)
        requires
            old(self).weights_fit(),
            scores_fit(curr_node.state.size),
            old(self).final_node.state.valid(),
            old(self).final_node.state.size == curr_node.state.size,
            curr_node.state.valid(),
            curr_node.g_score < usize::MAX,
        ensures
            final(self).start_node == old(self).start_node,
            final(self).final_node == old(self).final_node,
            final(self).heuristic == old(self).heuristic,
            final(self).g_mul == old(self).g_mul,
            final(self).h_mul == old(self).h_mul,
            final(self).max_states == old(self).max_states,
            final(self).open_list@.len() >= old(self).open_list@.len(),
            found is Some ==> is_chain_back(found->0@, curr_node, old(self).final_node.state@),
            curr_node.state@ == old(self).final_node.state@ ==> found is Some && found->0@.len()
                == 1 && final(self).open_list == old(self).open_list && final(self).closed_list
                == old(self).closed_list,
            found is None ==> holds_state(final(self).closed_list@, curr_node.state@),
            old(self).closed_list@.is_prefix_of(final(self).closed_list@),
            old(self).open_list@.is_prefix_of(final(self).open_list@),
            !holds_state(old(self).closed_list@, old(self).final_node.state@) ==> !holds_state(
                final(self).closed_list@,
                old(self).final_node.state@,
            ),
            found is None && !holds_state(old(self).open_list@, old(self).final_node.state@)
                ==> !holds_state(final(self).open_list@, old(self).final_node.state@),
            successors(curr_node.state@, curr_node.state.size as int).contains(
                old(self).final_node.state@,
            ) && curr_node.g_score + 1 < usize::MAX && !holds_state(
                old(self).closed_list@,
                old(self).final_node.state@,
            ) && !holds_state(old(self).open_list@, old(self).final_node.state@) ==> found is Some,
        decreases usize::MAX - old(self).open_list@.len(),
    {
        let ghost n: int = curr_node.state.size as int;
        let ghost goal = self.final_node.state@;
        let ghost meets = successors(curr_node.state@, n).contains(goal) && curr_node.g_score + 1
            < usize::MAX && !holds_state(self.closed_list@, goal) && !holds_state(
            self.open_list@,
            goal,
        );
        if curr_node == self.final_node {
            let mut chain: Vec<Node> = Vec::new();
            chain.push(curr_node);
            return Some(chain);
        }
        assert(self.open_list@.len() == self.open_list.len());
        let mut next_nodes = Node::calculate_next_nodes(
            curr_node.clone(),
            self.final_node.clone(),
            self.heuristic,
        );
        proof {
            if meets {
                let k = choose|k: int|
                    0 <= k < successors(curr_node.state@, n).len() && successors(
                        curr_node.state@,
                        n,
                    )[k] == goal;
                assert(next_nodes@[k].state@ == goal);
            }
        }
        proof {
            assert forall|k: int| 0 <= k < next_nodes@.len() implies is_slide(
                curr_node.state@,
                (#[trigger] next_nodes@[k]).state@,
                n,
            ) && next_nodes@[k].state.valid() by {
                lemma_successor_is_slide(curr_node.state@, n, k);
            }
        }

        while next_nodes.len() > 0
            invariant
                n == curr_node.state.size,
                self.weights_fit(),
                scores_fit(curr_node.state.size),
                self.final_node.state.valid(),
                self.final_node.state.size == curr_node.state.size,
                curr_node.state.valid(),
                curr_node.g_score < usize::MAX,
                curr_node.state@ != self.final_node.state@,
                old(self).closed_list@.is_prefix_of(self.closed_list@),
                old(self).open_list@.is_prefix_of(self.open_list@),
                goal == self.final_node.state@,
                !holds_state(old(self).closed_list@, goal) ==> !holds_state(
                    self.closed_list@,
                    goal,
                ),
                !holds_state(old(self).open_list@, goal) ==> !holds_state(self.open_list@, goal),
                meets ==> curr_node.g_score + 1 < usize::MAX && !holds_state(
                    old(self).closed_list@,
                    goal,
                ) && !holds_state(old(self).open_list@, goal),
                meets ==> exists|j: int|
                    0 <= j < next_nodes@.len() && (#[trigger] next_nodes@[j]).state@ == goal,
                self.start_node == old(self).start_node,
                self.final_node == old(self).final_node,
                self.heuristic == old(self).heuristic,
                self.g_mul == old(self).g_mul,
                self.h_mul == old(self).h_mul,
                self.max_states == old(self).max_states,
                self.open_list@.len() >= old(self).open_list@.len(),
                forall|k: int|
                    0 <= k < next_nodes@.len() ==> {
                        &&& is_slide(curr_node.state@, (#[trigger] next_nodes@[k]).state@, n)
                        &&& next_nodes@[k].state.valid()
                        &&& next_nodes@[k].state.size == curr_node.state.size
                        &&& next_nodes@[k].g_score == curr_node.g_score + 1
                    },
            decreases next_nodes@.len(),
        {
            let best = self.pick_best(&next_nodes);
            let ghost pending = next_nodes@;
            let child_node = next_nodes.remove(best);
            proof {
                if meets && child_node.state@ != goal {
                    let j = choose|j: int|
                        0 <= j < pending.len() && (#[trigger] pending[j]).state@ == goal;
                    if j < best {
                        assert(next_nodes@[j] == pending[j]);
                    } else {
                        assert(next_nodes@[j - 1] == pending[j]);
                    }
                }
            }
            let ghost open_here = self.open_list@;

            if child_node.g_score < usize::MAX && Graph::position_of_state(
                &self.closed_list,
                &child_node,
            ).is_none() && self.is_lower_cost(&child_node) {
                self.add_to_open_list(child_node.partial_copy());
                assert(self.open_list@.len() == self.open_list.len());
                proof {
                    if child_node.state@ != goal && !holds_state(open_here, goal) {
                        lemma_push_keeps_out(open_here, self.open_list@, goal);
                    }
                }
                match self.recursive_search(child_node) {
                    Some(mut chain) => {
                        let ghost before = chain@;
                        chain.push(curr_node);
                        proof {
                            let after = chain@;
                            assert forall|k: int| 0 <= k < after.len() - 1 implies is_slide(
                                after[k + 1].state@,
                                (#[trigger] after[k]).state@,
                                n,
                            ) && after[k].g_score == after[k + 1].g_score + 1 by {
                                if k < before.len() - 1 {
                                    assert(after[k] == before[k]);
                                    assert(after[k + 1] == before[k + 1]);
                                } else {
                                    assert(after[k] == before[before.len() - 1]);
                                }
                            }
                            assert forall|k: int| 0 <= k < after.len() implies (
                            #[trigger] after[k]).state.size == curr_node.state.size by {
                                if k < before.len() {
                                    assert(after[k] == before[k]);
                                }
                            }
                        }
                        return Some(chain);
                    },
                    None => {},
                }
            }
        }

        let ghost closed_here = self.closed_list@;
        self.add_to_closed_list(curr_node.partial_copy());
        assert(self.closed_list@[self.closed_list@.len() - 1].state@ == curr_node.state@);
        proof {
            if !holds_state(closed_here, goal) {
                lemma_push_keeps_out(closed_here, self.closed_list@, goal);
            }
        }
        None
    }

    /// Depth-first search from `state` to the goal of its side.  Where it meets the
    /// goal it hands back the chain of moves that it followed, and it meets the goal
    /// at least where `state` is the goal or one move away from it.  The search
    /// goes as deep as the chain that it follows is long: nothing here bounds the
    /// call stack that this takes.
    pub fn recursive(state: Puzzle, heuristic: Heuristic, g_mul: usize, h_mul: usize) -> (found:
        Result<Solution, PuzzleError>)
        requires
            state.valid(),
            scores_fit(state.size),
            g_mul <= u32::MAX,
            h_mul <= u32::MAX,
        ensures
            found is Err ==> found->Err_0 == PuzzleError::SearchExhausted,
            found is Ok ==> is_solvable_board(state@, state.size as int) && reachable(
                state@,
                goal_cells(state.size as int),
                state.size as int,
            ),
            found is Ok ==> {
                let solution = found->Ok_0;
                &&& is_path(
                    boards(solution.path@),
                    state@,
                    goal_cells(state.size as int),
                    state.size as int,
                )
                &&& solution.path@.len() == solution.final_node.g_score + 1
                &&& solution.final_node.state@ == goal_cells(state.size as int)
                &&& solution.final_node.state.size == state.size
                &&& solution.graph.is_search_of(state, heuristic, g_mul, h_mul)
                &&& forall|k: int|
                    0 <= k < solution.path@.len() ==> (#[trigger] solution.path@[k]).size
                        == state.size
            },
            state@ == goal_cells(state.size as int) ==> found is Ok
                && found->Ok_0.final_node.g_score == 0,
            successors(state@, state.size as int).contains(goal_cells(state.size as int))
                ==> found is Ok,
    {
        let size = state.size;
        let ghost n: int = size as int;
        assert(size * size == state.data.len());
        let final_node = Node::get_final_node(size);
        let start_node = Node::new_starting_node(state.clone(), heuristic);
        let mut graph = Graph {
            open_list: Vec::new(),
            closed_list: Vec::new(),
            start_node: start_node.partial_copy(),
            final_node,
            heuristic,
            g_mul,
            h_mul,
            max_states: 1,
        };
        graph.add_to_open_list(start_node.partial_copy());

        match graph.recursive_search(start_node) {
            Some(mut chain) => {
                let ghost back = chain@;
                let mut path: Vec<Puzzle> = Vec::new();
                let final_node = chain[0].partial_copy();
                let mut k: usize = chain.len();
                while k > 0
                    invariant
                        k <= chain@.len(),
                        chain@ == back,
                        path@.len() == back.len() - k,
                        forall|j: int|
                            0 <= j < path@.len() ==> (#[trigger] path@[j])@ == back[back.len() - 1
                                - j].state@ && path@[j].size == back[back.len() - 1 - j].state.size,
                    decreases k,
                {
                    k -= 1;
                    path.push(chain[k].state.clone());
                }
                proof {
                    let states = boards(path@);
                    assert forall|j: int| 0 <= j < states.len() - 1 implies is_slide(
                        #[trigger] states[j],
                        states[j + 1],
                        n,
                    ) by {
                        let at = back.len() - 2 - j;
                        assert(is_slide(back[at + 1].state@, back[at].state@, n));
                        assert(states[j] == path@[j]@);
                        assert(states[j + 1] == path@[j + 1]@);
                    }
                    assert(states[0] == path@[0]@);
                    assert(states[states.len() - 1] == path@[states.len() - 1]@);
                    lemma_chain_costs(back, 0);
                    assert(is_path(states, state@, goal_cells(n), n));
                    lemma_reachable_is_solvable(state@, n);
                }
                Ok(Solution { graph, final_node, path })
            },
            None => Err(PuzzleError::SearchExhausted),
        }
    }
}

/// A list that does not hold a state does not hold it after a node of another
/// state joined it.
pub proof fn lemma_push_keeps_out(before: Seq<Node>, after: Seq<Node>, cells: Seq<usize>)
    requires
        !holds_state(before, cells),
        after.len() == before.len() + 1,
        before.is_prefix_of(after),
        after[after.len() - 1].state@ != cells,
    ensures
        !holds_state(after, cells),
{
    if holds_state(after, cells) {
        let i = choose|i: int| 0 <= i < after.len() && (#[trigger] after[i]).state@ == cells;
        assert(after[i] == before[i]);
        assert(before[i].state@ == cells);
    }
}

/// Along a chain back from the goal the cost falls by one with each node.
pub proof fn lemma_chain_costs(chain: Seq<Node>, k: int)
    requires
        0 <= k < chain.len(),
        forall|j: int|
            0 <= j < chain.len() - 1 ==> (#[trigger] chain[j]).g_score == chain[j + 1].g_score + 1,
    ensures
        chain[k].g_score == chain[chain.len() - 1].g_score + (chain.len() - 1 - k),
    decreases chain.len() - k,
{
    if k < chain.len() - 1 {
        lemma_chain_costs(chain, k + 1);
    }
}

/// The frontier after the waiting node of the state of `node` was weighed against
/// `node`.
pub open spec fn open_after_update(open: Seq<Node>, g_mul: usize, h_mul: usize, node: Node) -> Seq<
    Node,
> {
    let rank = priority(node, g_mul, h_mul);
    let pos = state_index(open, node.state@);
    if priority(open[pos], g_mul, h_mul) > rank {
        let rest = open.remove(pos);
        rest.insert(insert_index(rest, g_mul, h_mul, rank), node)
    } else {
        open
    }
}

} // verus!

//! What stays true while the search runs, and what follows from it when the search
//! ends.

use vstd::prelude::*;
use crate::board::{has_value, is_valid_board};
use crate::graph::{
    apart, children_of, distinct_states, holds_state, insert_index, is_insert_index,
    is_state_index, open_after_add, open_after_children, priority, sorted, state_index,
};
use crate::heuristic::Heuristic;
use crate::moves::{
    is_path, is_slide, lemma_blank_cell, lemma_slide_back, lemma_slide_is_successor,
    lemma_successor_is_slide, reachable, successors,
};
use crate::node::Node;
use crate::path::{
    all_movable, has_match, is_match, lemma_previous_among, previous_node, walk_back,
};
use crate::spiral::goal_cells;

verus! {

/// Every node of the list holds a valid board of side `size`.
pub open spec fn all_valid(list: Seq<Node>, size: usize) -> bool {
    forall|i: int|
        0 <= i < list.len() ==> (#[trigger] list[i]).state.size == size && is_valid_board(
            list[i].state@,
            size as int,
        )
}

/// The cells are the start, or one move leads to them from an expanded node that
/// cost one step less than `g`.
pub open spec fn parented(
    closed: Seq<Node>,
    start: Seq<usize>,
    n: int,
    cells: Seq<usize>,
    g: usize,
) -> bool {
    if g == 0 {
        cells == start
    } else {
        exists|p: int|
            0 <= p < closed.len() && (#[trigger] closed[p]).g_score + 1 == g && is_slide(
                closed[p].state@,
                cells,
                n,
            )
    }
}

/// The node is the start, or one move leads to it from an expanded node that cost
/// one step less.
pub open spec fn has_parent(closed: Seq<Node>, start: Seq<usize>, n: int, node: Node) -> bool {
    parented(closed, start, n, node.state@, node.g_score)
}

/// Every node of the list has a parent.
pub open spec fn all_linked(list: Seq<Node>, closed: Seq<Node>, start: Seq<usize>, n: int) -> bool {
    forall|i: int| 0 <= i < list.len() ==> has_parent(closed, start, n, #[trigger] list[i])
}

/// Every move from one of the first `upto` expanded nodes leads to a state that one
/// of the lists holds.
#[verifier::opaque]
pub open spec fn expanded(open: Seq<Node>, closed: Seq<Node>, n: int, upto: int) -> bool {
    forall|c: int, next: Seq<usize>|
        0 <= c < upto && #[trigger] is_slide(closed[c].state@, next, n) ==> holds_state(
            open,
            next,
        ) || holds_state(closed, next)
}

/// No node of the list cost more than `bound` steps.
pub open spec fn costs_within(list: Seq<Node>, bound: int) -> bool {
    forall|i: int| 0 <= i < list.len() ==> (#[trigger] list[i]).g_score <= bound
}

/// Every node of `after` stands in `before` or is `node`.
pub open spec fn drawn_from(after: Seq<Node>, before: Seq<Node>, node: Node) -> bool {
    forall|i: int|
        0 <= i < after.len() ==> (#[trigger] after[i]) == node || exists|j: int|
            0 <= j < before.len() && #[trigger] before[j] == after[i]
}

/// Every state that `before` holds, `after` holds too.
pub open spec fn keeps_states(before: Seq<Node>, after: Seq<Node>) -> bool {
    forall|cells: Seq<usize>| #[trigger]
        holds_state(before, cells) ==> holds_state(after, cells)
}

/// Where a rank may enter a list, there is such an index.
pub proof fn lemma_insert_index_exists(list: Seq<Node>, g_mul: usize, h_mul: usize, rank: int)
    ensures
        is_insert_index(list, g_mul, h_mul, rank, insert_index(list, g_mul, h_mul, rank)),
{
    lemma_insert_index_from(list, g_mul, h_mul, rank, 0);
}

/// A rank that may not enter before `i` may enter at `i` or behind it.
proof fn lemma_insert_index_from(list: Seq<Node>, g_mul: usize, h_mul: usize, rank: int, i: int)
    requires
        0 <= i <= list.len(),
        forall|j: int| 0 <= j < i ==> rank <= priority(#[trigger] list[j], g_mul, h_mul),
    ensures
        is_insert_index(list, g_mul, h_mul, rank, insert_index(list, g_mul, h_mul, rank)),
    decreases list.len() - i,
{
    if i == list.len() || rank > priority(list[i], g_mul, h_mul) {
        assert(is_insert_index(list, g_mul, h_mul, rank, i));
    } else {
        lemma_insert_index_from(list, g_mul, h_mul, rank, i + 1);
    }
}

/// Where a list holds a state, there is a first index of it.
pub proof fn lemma_state_index_exists(list: Seq<Node>, cells: Seq<usize>)
    requires
        holds_state(list, cells),
    ensures
        is_state_index(list, cells, state_index(list, cells)),
{
    let w = choose|i: int| 0 <= i < list.len() && (#[trigger] list[i]).state@ == cells;
    lemma_state_index_upto(list, cells, w);
}

/// A state that stands at `w` has a first index at `w` or before it.
proof fn lemma_state_index_upto(list: Seq<Node>, cells: Seq<usize>, w: int)
    requires
        0 <= w < list.len(),
        list[w].state@ == cells,
    ensures
        is_state_index(list, cells, state_index(list, cells)),
    decreases w,
{
    if forall|j: int| 0 <= j < w ==> (#[trigger] list[j]).state@ != cells {
        assert(is_state_index(list, cells, w));
    } else {
        let j = choose|j: int| 0 <= j < w && (#[trigger] list[j]).state@ == cells;
        lemma_state_index_upto(list, cells, j);
    }
}

/// Putting a node at its place keeps the order.
pub proof fn lemma_insert_sorted(list: Seq<Node>, g_mul: usize, h_mul: usize, node: Node)
    requires
        sorted(list, g_mul, h_mul),
    ensures
        sorted(
            list.insert(insert_index(list, g_mul, h_mul, priority(node, g_mul, h_mul)), node),
            g_mul,
            h_mul,
        ),
{
    let rank = priority(node, g_mul, h_mul);
    lemma_insert_index_exists(list, g_mul, h_mul, rank);
    let at = insert_index(list, g_mul, h_mul, rank);
    let after = list.insert(at, node);
    assert forall|i: int, j: int| 0 <= i <= j < after.len() implies priority(
        #[trigger] after[i],
        g_mul,
        h_mul,
    ) >= priority(#[trigger] after[j], g_mul, h_mul) by {
        if j < at {
            assert(after[i] == list[i] && after[j] == list[j]);
        } else if j == at {
            if i < at {
                assert(after[i] == list[i]);
            }
        } else {
            assert(after[j] == list[j - 1]);
            assert(priority(list[at], g_mul, h_mul) >= priority(list[j - 1], g_mul, h_mul));
            if i < at {
                assert(after[i] == list[i]);
            } else if i > at {
                assert(after[i] == list[i - 1]);
            }
        }
    }
}

/// Taking a node out keeps the order.
pub proof fn lemma_remove_sorted(list: Seq<Node>, g_mul: usize, h_mul: usize, at: int)
    requires
        sorted(list, g_mul, h_mul),
        0 <= at < list.len(),
    ensures
        sorted(list.remove(at), g_mul, h_mul),
{
    let after = list.remove(at);
    assert forall|i: int, j: int| 0 <= i <= j < after.len() implies priority(
        #[trigger] after[i],
        g_mul,
        h_mul,
    ) >= priority(#[trigger] after[j], g_mul, h_mul) by {
        let from_i = if i < at {
            i
        } else {
            i + 1
        };
        let from_j = if j < at {
            j
        } else {
            j + 1
        };
        assert(after[i] == list[from_i]);
        assert(after[j] == list[from_j]);
    }
}

/// Every node of a list with one more node stands in the list or is that node, and
/// the states of the list are kept.
pub proof fn lemma_insert_keeps(list: Seq<Node>, at: int, node: Node)
    requires
        0 <= at <= list.len(),
    ensures
        drawn_from(list.insert(at, node), list, node),
        keeps_states(list, list.insert(at, node)),
        holds_state(list.insert(at, node), node.state@),
{
    let after = list.insert(at, node);
    assert forall|i: int| 0 <= i < after.len() implies (#[trigger] after[i]) == node || exists|
        j: int,
    |
        0 <= j < list.len() && #[trigger] list[j] == after[i] by {
        if i < at {
            assert(list[i] == after[i]);
        } else if i > at {
            assert(list[i - 1] == after[i]);
        }
    }
    assert forall|cells: Seq<usize>| #[trigger] holds_state(list, cells) implies holds_state(
        after,
        cells,
    ) by {
        let j = choose|j: int| 0 <= j < list.len() && (#[trigger] list[j]).state@ == cells;
        if j < at {
            assert(after[j].state@ == cells);
        } else {
            assert(after[j + 1].state@ == cells);
        }
    }
    assert(after[at].state@ == node.state@);
}

/// What offering a node to the frontier does to it.
#[verifier::rlimit(40)]
pub proof fn lemma_open_after_add(
    open: Seq<Node>,
    closed: Seq<Node>,
    g_mul: usize,
    h_mul: usize,
    node: Node,
)
    ensures
        drawn_from(open_after_add(open, closed, g_mul, h_mul, node), open, node),
        keeps_states(open, open_after_add(open, closed, g_mul, h_mul, node)),
        holds_state(open_after_add(open, closed, g_mul, h_mul, node), node.state@) || holds_state(
            closed,
            node.state@,
        ),
        sorted(open, g_mul, h_mul) ==> sorted(
            open_after_add(open, closed, g_mul, h_mul, node),
            g_mul,
            h_mul,
        ),
{
    let rank = priority(node, g_mul, h_mul);
    let after = open_after_add(open, closed, g_mul, h_mul, node);
    if holds_state(closed, node.state@) {
        assert forall|i: int| 0 <= i < after.len() implies (#[trigger] after[i]) == node || exists|
            j: int,
        |
            0 <= j < open.len() && #[trigger] open[j] == after[i] by {
            assert(open[i] == after[i]);
        }
    } else if holds_state(open, node.state@) {
        lemma_state_index_exists(open, node.state@);
        let pos = state_index(open, node.state@);
        if priority(open[pos], g_mul, h_mul) > rank {
            let rest = open.remove(pos);
            lemma_insert_index_exists(rest, g_mul, h_mul, rank);
            let at = insert_index(rest, g_mul, h_mul, rank);
            lemma_insert_keeps(rest, at, node);
            assert forall|i: int| 0 <= i < after.len() implies (#[trigger] after[i]) == node
                || exists|j: int| 0 <= j < open.len() && #[trigger] open[j] == after[i] by {
                if after[i] != node {
                    let j = choose|j: int| 0 <= j < rest.len() && #[trigger] rest[j] == after[i];
                    if j < pos {
                        assert(open[j] == after[i]);
                    } else {
                        assert(open[j + 1] == after[i]);
                    }
                }
            }
            assert forall|cells: Seq<usize>| #[trigger] holds_state(open, cells) implies holds_state(
                after,
                cells,
            ) by {
                let j = choose|j: int| 0 <= j < open.len() && (#[trigger] open[j]).state@ == cells;
                if j == pos {
                    assert(holds_state(after, node.state@));
                } else {
                    if j < pos {
                        assert(rest[j].state@ == cells);
                    } else {
                        assert(rest[j - 1].state@ == cells);
                    }
                    assert(holds_state(rest, cells));
                }
            }
            if sorted(open, g_mul, h_mul) {
                lemma_remove_sorted(open, g_mul, h_mul, pos);
                lemma_insert_sorted(rest, g_mul, h_mul, node);
            }
        } else {
            assert forall|i: int| 0 <= i < after.len() implies (#[trigger] after[i]) == node
                || exists|j: int| 0 <= j < open.len() && #[trigger] open[j] == after[i] by {
                assert(open[i] == after[i]);
            }
        }
    } else {
        lemma_insert_index_exists(open, g_mul, h_mul, rank);
        let at = insert_index(open, g_mul, h_mul, rank);
        lemma_insert_keeps(open, at, node);
        if sorted(open, g_mul, h_mul) {
            lemma_insert_sorted(open, g_mul, h_mul, node);
        }
    }
}

/// Where every node has a parent, the walk back from a node with a parent reaches
/// the start, and the states it passes form a chain of moves from the start to the
/// node, one state for each step of the node's cost and one more.
pub proof fn lemma_walk_back_reaches(
    open: Seq<Node>,
    closed: Seq<Node>,
    start: Seq<usize>,
    size: usize,
    cells: Seq<usize>,
    g: usize,
)
    requires
        all_valid(open, size),
        all_valid(closed, size),
        all_linked(open, closed, start, size as int),
        all_linked(closed, closed, start, size as int),
        is_valid_board(cells, size as int),
        parented(closed, start, size as int, cells, g),
    ensures
        walk_back(open, closed, cells, size, g).0,
        is_path(walk_back(open, closed, cells, size, g).1, start, cells, size as int),
        walk_back(open, closed, cells, size, g).1.len() == g + 1,
    decreases g,
{
    let n = size as int;
    if g > 0 {
        let p = choose|p: int|
            0 <= p < closed.len() && (#[trigger] closed[p]).g_score + 1 == g && is_slide(
                closed[p].state@,
                cells,
                n,
            );
        let parent = closed[p];
        lemma_slide_back(parent.state@, cells, n);
        lemma_slide_is_successor(cells, parent.state@, n);
        let candidates = successors(cells, n);
        let k = choose|k: int| 0 <= k < candidates.len() && candidates[k] == parent.state@;
        assert(is_match(closed[p], g - 1, candidates[k]));
        assert(has_match(closed, g - 1, candidates[k]));
        lemma_previous_among(open, closed, g - 1, candidates, candidates.len() as int);
        let previous = previous_node(open, closed, cells, size, g)->0;
        assert(previous_node(open, closed, cells, size, g) is Some);
        let at = choose|at: int| 0 <= at < candidates.len() && previous.state@ == candidates[at];
        lemma_successor_is_slide(cells, n, at);
        lemma_slide_back(cells, previous.state@, n);
        assert(has_parent(closed, start, n, previous));
        lemma_walk_back_reaches(open, closed, start, size, previous.state@, previous.g_score);
        let before = walk_back(open, closed, previous.state@, previous.state.size, previous.g_score);
        let path = before.1.push(cells);
        assert(walk_back(open, closed, cells, size, g).1 == path);
        assert forall|j: int| 0 <= j < path.len() - 1 implies is_slide(
            #[trigger] path[j],
            path[j + 1],
            n,
        ) by {
            if j < before.1.len() - 1 {
                assert(path[j] == before.1[j]);
                assert(path[j + 1] == before.1[j + 1]);
            }
        }
    }
}

/// Every state of a chain of moves from a state that the expanded nodes hold is
/// held by them, once every move from an expanded node leads to one.
proof fn lemma_chain_stays(closed: Seq<Node>, path: Seq<Seq<usize>>, n: int, k: int)
    requires
        expanded(Seq::empty(), closed, n, closed.len() as int),
        path.len() > 0,
        holds_state(closed, path[0]),
        forall|j: int| 0 <= j < path.len() - 1 ==> is_slide(#[trigger] path[j], path[j + 1], n),
        0 <= k < path.len(),
    ensures
        holds_state(closed, path[k]),
    decreases k,
{
    reveal(expanded);
    if k > 0 {
        lemma_chain_stays(closed, path, n, k - 1);
        let c = choose|c: int| 0 <= c < closed.len() && (#[trigger] closed[c]).state@ == path[k - 1];
        assert(is_slide(path[k - 1], path[k], n));
        assert(is_slide(closed[c].state@, path[k], n));
        assert(!holds_state(Seq::<Node>::empty(), path[k]));
    }
}

/// When the frontier is empty, every move from an expanded node leads to an expanded
/// node; so where the start was expanded and the goal was not, no chain of moves
/// leads from the start to the goal.
pub proof fn lemma_exhausted(closed: Seq<Node>, start: Seq<usize>, goal: Seq<usize>, n: int)
    requires
        expanded(Seq::empty(), closed, n, closed.len() as int),
        holds_state(closed, start),
        !holds_state(closed, goal),
    ensures
        !reachable(start, goal, n),
{
    if reachable(start, goal, n) {
        let path = choose|path: Seq<Seq<usize>>| is_path(path, start, goal, n);
        lemma_chain_stays(closed, path, n, path.len() - 1);
    }
}

/// Every node of `after` stands in `before` or among the nodes of `extra` from
/// index `from` on.
pub open spec fn drawn_from_many(
    after: Seq<Node>,
    before: Seq<Node>,
    extra: Seq<Node>,
    from: int,
) -> bool {
    forall|i: int|
        0 <= i < after.len() ==> listed_from(before, 0, #[trigger] after[i]) || listed_from(
            extra,
            from,
            after[i],
        )
}

/// The node stands in the list at index `from` or later.
pub open spec fn listed_from(list: Seq<Node>, from: int, node: Node) -> bool {
    exists|j: int| from <= j < list.len() && #[trigger] list[j] == node
}

/// What offering the children from index `from` on does to the frontier.
pub proof fn lemma_open_after_children(
    open: Seq<Node>,
    closed: Seq<Node>,
    g_mul: usize,
    h_mul: usize,
    childs: Seq<Node>,
    from: int,
)
    requires
        0 <= from <= childs.len(),
    ensures
        drawn_from_many(
            open_after_children(open, closed, g_mul, h_mul, childs, from),
            open,
            childs,
            from,
        ),
        keeps_states(open, open_after_children(open, closed, g_mul, h_mul, childs, from)),
        forall|k: int|
            from <= k < childs.len() ==> holds_state(
                open_after_children(open, closed, g_mul, h_mul, childs, from),
                (#[trigger] childs[k]).state@,
            ) || holds_state(closed, childs[k].state@),
        sorted(open, g_mul, h_mul) ==> sorted(
            open_after_children(open, closed, g_mul, h_mul, childs, from),
            g_mul,
            h_mul,
        ),
    decreases childs.len() - from,
{
    let after = open_after_children(open, closed, g_mul, h_mul, childs, from);
    if from >= childs.len() {
        assert forall|i: int| 0 <= i < after.len() implies listed_from(open, 0, #[trigger] after[i])
            || listed_from(childs, from, after[i]) by {
            assert(open[i] == after[i]);
        }
    } else {
        let inner = open_after_children(open, closed, g_mul, h_mul, childs, from + 1);
        lemma_open_after_children(open, closed, g_mul, h_mul, childs, from + 1);
        lemma_open_after_add(inner, closed, g_mul, h_mul, childs[from]);
        assert forall|i: int| 0 <= i < after.len() implies listed_from(open, 0, #[trigger] after[i])
            || listed_from(childs, from, after[i]) by {
            if after[i] == childs[from] {
                assert(childs[from] == after[i]);
            } else {
                let j = choose|j: int| 0 <= j < inner.len() && #[trigger] inner[j] == after[i];
                assert(inner[j] == after[i]);
                if !listed_from(open, 0, inner[j]) {
                    let k = choose|k: int|
                        from + 1 <= k < childs.len() && #[trigger] childs[k] == inner[j];
                    assert(childs[k] == after[i]);
                }
            }
        }
        assert forall|cells: Seq<usize>| #[trigger] holds_state(open, cells) implies holds_state(
            after,
            cells,
        ) by {
            assert(holds_state(inner, cells));
        }
        assert forall|k: int| from <= k < childs.len() implies holds_state(
            after,
            (#[trigger] childs[k]).state@,
        ) || holds_state(closed, childs[k].state@) by {
            if k > from {
                if holds_state(inner, childs[k].state@) {
                    assert(holds_state(after, childs[k].state@));
                }
            }
        }
    }
}

/// The expanded nodes gained one node at their end: a copy of `curr_node`.
pub open spec fn closed_grew(
    closed_before: Seq<Node>,
    closed_now: Seq<Node>,
    curr_node: Node,
) -> bool {
    &&& closed_now.len() == closed_before.len() + 1
    &&& forall|i: int| 0 <= i < closed_before.len() ==> #[trigger] closed_now[i] == closed_before[i]
    &&& closed_now[closed_now.len() - 1].same_as(curr_node)
}

/// A node that had a parent keeps it when the expanded nodes grow.
pub proof fn lemma_parent_kept(
    closed_before: Seq<Node>,
    closed_now: Seq<Node>,
    curr_node: Node,
    start: Seq<usize>,
    n: int,
    node: Node,
)
    requires
        closed_grew(closed_before, closed_now, curr_node),
        has_parent(closed_before, start, n, node),
    ensures
        has_parent(closed_now, start, n, node),
{
    if node.g_score > 0 {
        let p = choose|p: int|
            0 <= p < closed_before.len() && (#[trigger] closed_before[p]).g_score + 1
                == node.g_score && is_slide(closed_before[p].state@, node.state@, n);
        assert(closed_now[p] == closed_before[p]);
        assert(closed_now[p].g_score + 1 == node.g_score);
    }
}

/// One round of the search, seen from the expanded nodes: the last node of the
/// frontier joined them, and they are as valid and as linked as before.
pub proof fn lemma_step_closed(
    open_before: Seq<Node>,
    closed_before: Seq<Node>,
    closed_now: Seq<Node>,
    start: Seq<usize>,
    size: usize,
    curr_node: Node,
)
    requires
        open_before.len() > 0,
        curr_node == open_before[open_before.len() - 1],
        closed_grew(closed_before, closed_now, curr_node),
        all_valid(open_before, size),
        all_valid(closed_before, size),
        all_linked(open_before, closed_before, start, size as int),
        all_linked(closed_before, closed_before, start, size as int),
        costs_within(open_before, closed_before.len() as int),
        costs_within(closed_before, closed_before.len() as int),
    ensures
        all_valid(closed_now, size),
        all_linked(closed_now, closed_now, start, size as int),
        costs_within(closed_now, closed_now.len() as int),
{
    let n = size as int;
    let last = closed_now.len() - 1;
    assert forall|i: int| 0 <= i < closed_now.len() implies (#[trigger] closed_now[i]).state.size
        == size && is_valid_board(closed_now[i].state@, n) by {
        if i < last {
            assert(closed_now[i] == closed_before[i]);
        }
    }
    assert forall|i: int| 0 <= i < closed_now.len() implies has_parent(
        closed_now,
        start,
        n,
        #[trigger] closed_now[i],
    ) by {
        if i < last {
            assert(closed_now[i] == closed_before[i]);
            lemma_parent_kept(closed_before, closed_now, curr_node, start, n, closed_before[i]);
        } else {
            lemma_parent_kept(closed_before, closed_now, curr_node, start, n, curr_node);
        }
    }
    assert forall|i: int| 0 <= i < closed_now.len() implies (#[trigger] closed_now[i]).g_score
        <= closed_now.len() by {
        if i < last {
            assert(closed_now[i] == closed_before[i]);
        }
    }
}

/// One round of the search, seen from the frontier: every node on it stood there
/// before or is a child of the node that was expanded.
pub proof fn lemma_step_open(
    open_before: Seq<Node>,
    closed_before: Seq<Node>,
    open_now: Seq<Node>,
    closed_now: Seq<Node>,
    childs: Seq<Node>,
    start: Seq<usize>,
    size: usize,
    curr_node: Node,
)
    requires
        open_before.len() > 0,
        curr_node == open_before[open_before.len() - 1],
        closed_grew(closed_before, closed_now, curr_node),
        all_valid(open_before, size),
        all_linked(open_before, closed_before, start, size as int),
        costs_within(open_before, closed_before.len() as int),
        childs.len() == successors(curr_node.state@, size as int).len(),
        forall|k: int|
            0 <= k < childs.len() ==> {
                &&& (#[trigger] childs[k]).state@ == successors(curr_node.state@, size as int)[k]
                &&& childs[k].state.size == size
                &&& childs[k].g_score == curr_node.g_score + 1
            },
        drawn_from_many(open_now, open_before.drop_last(), childs, 0),
    ensures
        all_valid(open_now, size),
        all_linked(open_now, closed_now, start, size as int),
        costs_within(open_now, closed_now.len() as int),
{
    let n = size as int;
    let rest = open_before.drop_last();
    let last = closed_now.len() - 1;
    assert forall|i: int| 0 <= i < open_now.len() implies (#[trigger] open_now[i]).state.size
        == size && is_valid_board(open_now[i].state@, n) && has_parent(
        closed_now,
        start,
        n,
        open_now[i],
    ) && open_now[i].g_score <= closed_now.len() by {
        if listed_from(rest, 0, open_now[i]) {
            let j = choose|j: int| 0 <= j < rest.len() && #[trigger] rest[j] == open_now[i];
            assert(rest[j] == open_before[j]);
            lemma_parent_kept(closed_before, closed_now, curr_node, start, n, open_before[j]);
        } else {
            let k = choose|k: int| 0 <= k < childs.len() && #[trigger] childs[k] == open_now[i];
            lemma_successor_is_slide(curr_node.state@, n, k);
            assert(closed_now[last].g_score + 1 == childs[k].g_score);
            assert(is_slide(closed_now[last].state@, childs[k].state@, n));
        }
    }
}

/// One round of the search keeps every move from an expanded node within the lists.
pub proof fn lemma_step_expanded(
    open_before: Seq<Node>,
    closed_before: Seq<Node>,
    open_now: Seq<Node>,
    closed_now: Seq<Node>,
    childs: Seq<Node>,
    size: usize,
    curr_node: Node,
)
    requires
        open_before.len() > 0,
        curr_node == open_before[open_before.len() - 1],
        closed_grew(closed_before, closed_now, curr_node),
        is_valid_board(curr_node.state@, size as int),
        expanded(open_before, closed_before, size as int, closed_before.len() as int),
        childs.len() == successors(curr_node.state@, size as int).len(),
        forall|k: int|
            0 <= k < childs.len() ==> (#[trigger] childs[k]).state@ == successors(
                curr_node.state@,
                size as int,
            )[k],
        keeps_states(open_before.drop_last(), open_now),
        forall|k: int|
            0 <= k < childs.len() ==> holds_state(open_now, (#[trigger] childs[k]).state@)
                || holds_state(closed_now, childs[k].state@),
    ensures
        expanded(open_now, closed_now, size as int, closed_now.len() as int),
{
    reveal(expanded);
    let n = size as int;
    let last = closed_now.len() - 1;
    assert forall|c: int, next: Seq<usize>|
        0 <= c < closed_now.len() && #[trigger] is_slide(
            closed_now[c].state@,
            next,
            n,
        ) implies holds_state(open_now, next) || holds_state(closed_now, next) by {
        if c < last {
            assert(closed_now[c] == closed_before[c]);
            assert(is_slide(closed_before[c].state@, next, n));
            if holds_state(open_before, next) {
                lemma_state_moved(open_before, open_now, closed_before, closed_now, curr_node, next);
            } else {
                lemma_closed_keeps(closed_before, closed_now, curr_node, next);
            }
        } else {
            lemma_slide_is_successor(curr_node.state@, next, n);
            let k = choose|k: int|
                0 <= k < successors(curr_node.state@, n).len() && successors(
                    curr_node.state@,
                    n,
                )[k] == next;
            assert(childs[k].state@ == next);
        }
    }
}

/// A state that the frontier held is held by the new frontier or, if it was the
/// state of the node that was expanded, by the expanded nodes.
pub proof fn lemma_state_moved(
    open_before: Seq<Node>,
    open_now: Seq<Node>,
    closed_before: Seq<Node>,
    closed_now: Seq<Node>,
    curr_node: Node,
    cells: Seq<usize>,
)
    requires
        open_before.len() > 0,
        curr_node == open_before[open_before.len() - 1],
        closed_grew(closed_before, closed_now, curr_node),
        keeps_states(open_before.drop_last(), open_now),
        holds_state(open_before, cells),
    ensures
        holds_state(open_now, cells) || holds_state(closed_now, cells),
{
    let rest = open_before.drop_last();
    let last = closed_now.len() - 1;
    let j = choose|j: int| 0 <= j < open_before.len() && (#[trigger] open_before[j]).state@ == cells;
    if j == open_before.len() - 1 {
        assert(closed_now[last].state@ == cells);
    } else {
        assert(rest[j].state@ == cells);
        assert(holds_state(rest, cells));
    }
}

/// A state that the expanded nodes held is held by them still.
pub proof fn lemma_closed_keeps(
    closed_before: Seq<Node>,
    closed_now: Seq<Node>,
    curr_node: Node,
    cells: Seq<usize>,
)
    requires
        closed_grew(closed_before, closed_now, curr_node),
        holds_state(closed_before, cells),
    ensures
        holds_state(closed_now, cells),
{
    let j = choose|j: int|
        0 <= j < closed_before.len() && (#[trigger] closed_before[j]).state@ == cells;
    assert(closed_now[j] == closed_before[j]);
    assert(closed_now[j].state@ == cells);
}

/// One round of the search keeps the start within the lists and the goal out of the
/// expanded nodes.
pub proof fn lemma_step_ends(
    open_before: Seq<Node>,
    closed_before: Seq<Node>,
    open_now: Seq<Node>,
    closed_now: Seq<Node>,
    start: Seq<usize>,
    size: usize,
    curr_node: Node,
)
    requires
        open_before.len() > 0,
        curr_node == open_before[open_before.len() - 1],
        closed_grew(closed_before, closed_now, curr_node),
        curr_node.state@ != goal_cells(size as int),
        holds_state(open_before, start) || holds_state(closed_before, start),
        !holds_state(closed_before, goal_cells(size as int)),
        keeps_states(open_before.drop_last(), open_now),
    ensures
        holds_state(open_now, start) || holds_state(closed_now, start),
        !holds_state(closed_now, goal_cells(size as int)),
{
    let n = size as int;
    let last = closed_now.len() - 1;
    if holds_state(open_before, start) {
        lemma_state_moved(open_before, open_now, closed_before, closed_now, curr_node, start);
    } else {
        lemma_closed_keeps(closed_before, closed_now, curr_node, start);
    }
    if holds_state(closed_now, goal_cells(n)) {
        let j = choose|j: int|
            0 <= j < closed_now.len() && (#[trigger] closed_now[j]).state@ == goal_cells(n);
        if j < last {
            assert(closed_now[j] == closed_before[j]);
            assert(closed_before[j].state@ == goal_cells(n));
        }
    }
}

/// A list of states that differ, none of them expanded, stays so when a node leaves;
/// the state of that node is gone from the list.
pub proof fn lemma_remove_apart(list: Seq<Node>, closed: Seq<Node>, pos: int)
    requires
        distinct_states(list),
        apart(list, closed),
        0 <= pos < list.len(),
    ensures
        distinct_states(list.remove(pos)),
        apart(list.remove(pos), closed),
        !holds_state(list.remove(pos), list[pos].state@),
{
    let rest = list.remove(pos);
    assert forall|r: int| 0 <= r < rest.len() implies !holds_state(
        closed,
        (#[trigger] rest[r]).state@,
    ) && rest[r].state@ != list[pos].state@ by {
        let i = if r < pos {
            r
        } else {
            r + 1
        };
        assert(rest[r] == list[i]);
        assert(list[i].state@ != list[pos].state@);
    }
    assert forall|a: int, b: int|
        0 <= a < rest.len() && 0 <= b < rest.len() && a != b implies (#[trigger] rest[a]).state@ != (
    #[trigger] rest[b]).state@ by {
        let i = if a < pos {
            a
        } else {
            a + 1
        };
        let j = if b < pos {
            b
        } else {
            b + 1
        };
        assert(rest[a] == list[i]);
        assert(rest[b] == list[j]);
        assert(list[i].state@ != list[j].state@);
    }
}

/// A list of states that differ, none of them expanded, stays so when a node of a
/// new state that was not expanded enters.
pub proof fn lemma_insert_apart(list: Seq<Node>, closed: Seq<Node>, at: int, node: Node)
    requires
        distinct_states(list),
        apart(list, closed),
        0 <= at <= list.len(),
        !holds_state(list, node.state@),
        !holds_state(closed, node.state@),
    ensures
        distinct_states(list.insert(at, node)),
        apart(list.insert(at, node), closed),
{
    let after = list.insert(at, node);
    assert forall|a: int| 0 <= a < after.len() implies !holds_state(
        closed,
        (#[trigger] after[a]).state@,
    ) by {
        if a < at {
            assert(after[a] == list[a]);
        } else if a > at {
            assert(after[a] == list[a - 1]);
        }
    }
    assert forall|a: int, b: int|
        0 <= a < after.len() && 0 <= b < after.len() && a != b implies (#[trigger] after[a]).state@
        != (#[trigger] after[b]).state@ by {
        let i = if a < at {
            a
        } else {
            a - 1
        };
        let j = if b < at {
            b
        } else {
            b - 1
        };
        if a != at {
            assert(after[a] == list[i]);
        }
        if b != at {
            assert(after[b] == list[j]);
        }
        if a != at && b != at {
            assert(list[i].state@ != list[j].state@);
        }
    }
}

/// Offering a node to a frontier of states that differ, none of them expanded,
/// leaves such a frontier.
pub proof fn lemma_open_after_add_apart(
    open: Seq<Node>,
    closed: Seq<Node>,
    g_mul: usize,
    h_mul: usize,
    node: Node,
)
    requires
        distinct_states(open),
        apart(open, closed),
    ensures
        distinct_states(open_after_add(open, closed, g_mul, h_mul, node)),
        apart(open_after_add(open, closed, g_mul, h_mul, node), closed),
{
    let rank = priority(node, g_mul, h_mul);
    if !holds_state(closed, node.state@) {
        if holds_state(open, node.state@) {
            lemma_state_index_exists(open, node.state@);
            let pos = state_index(open, node.state@);
            if priority(open[pos], g_mul, h_mul) > rank {
                let rest = open.remove(pos);
                lemma_remove_apart(open, closed, pos);
                lemma_insert_index_exists(rest, g_mul, h_mul, rank);
                lemma_insert_apart(rest, closed, insert_index(rest, g_mul, h_mul, rank), node);
            }
        } else {
            lemma_insert_index_exists(open, g_mul, h_mul, rank);
            lemma_insert_apart(open, closed, insert_index(open, g_mul, h_mul, rank), node);
        }
    }
}

/// Offering the children from index `from` on to a frontier of states that differ,
/// none of them expanded, leaves such a frontier.
pub proof fn lemma_open_after_children_apart(
    open: Seq<Node>,
    closed: Seq<Node>,
    g_mul: usize,
    h_mul: usize,
    childs: Seq<Node>,
    from: int,
)
    requires
        0 <= from <= childs.len(),
        distinct_states(open),
        apart(open, closed),
    ensures
        distinct_states(open_after_children(open, closed, g_mul, h_mul, childs, from)),
        apart(open_after_children(open, closed, g_mul, h_mul, childs, from), closed),
    decreases childs.len() - from,
{
    if from < childs.len() {
        lemma_open_after_children_apart(open, closed, g_mul, h_mul, childs, from + 1);
        lemma_open_after_add_apart(
            open_after_children(open, closed, g_mul, h_mul, childs, from + 1),
            closed,
            g_mul,
            h_mul,
            childs[from],
        );
    }
}

/// One round of the search keeps the states of the frontier and of the expanded
/// nodes different from each other.
pub proof fn lemma_step_apart(
    open_before: Seq<Node>,
    closed_before: Seq<Node>,
    open_now: Seq<Node>,
    closed_now: Seq<Node>,
    childs: Seq<Node>,
    g_mul: usize,
    h_mul: usize,
)
    requires
        open_before.len() > 0,
        closed_grew(closed_before, closed_now, open_before.last()),
        distinct_states(open_before),
        distinct_states(closed_before),
        apart(open_before, closed_before),
        open_now == open_after_children(
            open_before.drop_last(),
            closed_now,
            g_mul,
            h_mul,
            childs,
            0,
        ),
    ensures
        distinct_states(open_now),
        distinct_states(closed_now),
        apart(open_now, closed_now),
{
    let rest = open_before.drop_last();
    let taken = open_before.last();
    let last = closed_now.len() - 1;
    lemma_remove_apart(open_before, closed_before, open_before.len() - 1);
    assert(rest =~= open_before.remove(open_before.len() - 1));
    assert forall|r: int| 0 <= r < rest.len() implies !holds_state(
        closed_now,
        (#[trigger] rest[r]).state@,
    ) by {
        if holds_state(closed_now, rest[r].state@) {
            let c = choose|c: int|
                0 <= c < closed_now.len() && (#[trigger] closed_now[c]).state@ == rest[r].state@;
            if c < last {
                assert(closed_now[c] == closed_before[c]);
                assert(closed_before[c].state@ == rest[r].state@);
                assert(holds_state(closed_before, rest[r].state@));
            } else {
                assert(rest[r].state@ == taken.state@);
                assert(holds_state(rest, taken.state@));
            }
        }
    }
    lemma_open_after_children_apart(rest, closed_now, g_mul, h_mul, childs, 0);
    assert forall|a: int, b: int|
        0 <= a < closed_now.len() && 0 <= b < closed_now.len() && a != b implies (
    #[trigger] closed_now[a]).state@ != (#[trigger] closed_now[b]).state@ by {
        if a < last && b < last {
            assert(closed_now[a] == closed_before[a]);
            assert(closed_now[b] == closed_before[b]);
        } else {
            let other = if a < last {
                a
            } else {
                b
            };
            assert(closed_now[other] == closed_before[other]);
            assert(!holds_state(closed_before, open_before[open_before.len() - 1].state@));
        }
    }
}

/// What holds of the two lists whenever the search is about to take a node from
/// the frontier: the nodes hold valid boards of one side; each but the start is one
/// move away from an expanded node that cost one step less; every move from an
/// expanded node leads to a listed state; the start is listed; the goal was not
/// expanded; no node cost more steps than nodes were expanded; the frontier is in
/// order; no state stands twice in the lists.
#[verifier::opaque]
pub open spec fn consistent(
    open: Seq<Node>,
    closed: Seq<Node>,
    start: Seq<usize>,
    size: usize,
    g_mul: usize,
    h_mul: usize,
) -> bool {
    let n = size as int;
    &&& is_valid_board(start, n)
    &&& all_valid(open, size)
    &&& all_valid(closed, size)
    &&& all_linked(open, closed, start, n)
    &&& all_linked(closed, closed, start, n)
    &&& expanded(open, closed, n, closed.len() as int)
    &&& holds_state(open, start) || holds_state(closed, start)
    &&& !holds_state(closed, goal_cells(n))
    &&& costs_within(open, closed.len() as int)
    &&& costs_within(closed, closed.len() as int)
    &&& sorted(open, g_mul, h_mul)
    &&& distinct_states(open)
    &&& distinct_states(closed)
    &&& apart(open, closed)
}

/// The lists are consistent when the search starts.
pub proof fn lemma_consistent_start(
    open: Seq<Node>,
    start: Seq<usize>,
    size: usize,
    g_mul: usize,
    h_mul: usize,
)
    requires
        is_valid_board(start, size as int),
        open.len() == 1,
        open[0].state@ == start,
        open[0].state.size == size,
        open[0].g_score == 0,
    ensures
        consistent(open, Seq::empty(), start, size, g_mul, h_mul),
{
    reveal(consistent);
    reveal(expanded);
    assert(holds_state(open, start));
}

/// What the search knows of the node that it took from the frontier.
#[verifier::rlimit(40)]
pub proof fn lemma_consistent_taken(
    open: Seq<Node>,
    closed: Seq<Node>,
    start: Seq<usize>,
    size: usize,
    g_mul: usize,
    h_mul: usize,
)
    requires
        consistent(open, closed, start, size, g_mul, h_mul),
        open.len() > 0,
    ensures
        open.last().state.valid(),
        open.last().state.size == size,
        open.last().g_score <= closed.len(),
        has_value(open.last().state@, 0),
        all_movable(open.drop_last(), size),
        all_movable(closed, size),
        sorted(open.drop_last(), g_mul, h_mul),
        distinct_states(open.drop_last()),
        distinct_states(closed),
        apart(open.drop_last(), closed),
        !holds_state(open.drop_last(), open.last().state@),
        !holds_state(closed, open.last().state@),
        walk_back(open.drop_last(), closed, open.last().state@, size, open.last().g_score).0,
        is_path(
            walk_back(open.drop_last(), closed, open.last().state@, size, open.last().g_score).1,
            start,
            open.last().state@,
            size as int,
        ),
        walk_back(
            open.drop_last(),
            closed,
            open.last().state@,
            size,
            open.last().g_score,
        ).1.len() == open.last().g_score + 1,
{
    reveal(consistent);
    let n = size as int;
    let rest = open.drop_last();
    let curr_node = open.last();
    assert(has_parent(closed, start, n, curr_node));
    assert forall|i: int| 0 <= i < rest.len() implies has_parent(
        closed,
        start,
        n,
        #[trigger] rest[i],
    ) by {
        assert(rest[i] == open[i]);
    }
    assert forall|i: int| 0 <= i < rest.len() implies (#[trigger] rest[i]).state.size == size
        && is_valid_board(rest[i].state@, n) by {
        assert(rest[i] == open[i]);
    }
    lemma_walk_back_reaches(rest, closed, start, size, curr_node.state@, curr_node.g_score);
    lemma_remove_apart(open, closed, open.len() - 1);
    assert(rest =~= open.remove(open.len() - 1));
    lemma_remove_sorted(open, g_mul, h_mul, open.len() - 1);
    assert forall|i: int| 0 <= i < rest.len() implies (#[trigger] rest[i]).state.shaped()
        && has_value(rest[i].state@, 0) && rest[i].state.size == size by {
        lemma_blank_cell(rest[i].state@, n);
    }
    assert forall|i: int| 0 <= i < closed.len() implies (#[trigger] closed[i]).state.shaped()
        && has_value(closed[i].state@, 0) && closed[i].state.size == size by {
        lemma_blank_cell(closed[i].state@, n);
    }
    lemma_blank_cell(curr_node.state@, n);
}

/// After one round of the search the expanded nodes stay valid and linked.
proof fn lemma_round_closed(
    open_before: Seq<Node>,
    closed_before: Seq<Node>,
    open_now: Seq<Node>,
    closed_now: Seq<Node>,
    childs: Seq<Node>,
    start: Seq<usize>,
    size: usize,
    g_mul: usize,
    h_mul: usize,
)
    requires
        consistent(open_before, closed_before, start, size, g_mul, h_mul),
        open_before.len() > 0,
        closed_grew(closed_before, closed_now, open_before.last()),
        open_before.last().state@ != goal_cells(size as int),
        childs.len() == successors(open_before.last().state@, size as int).len(),
        forall|k: int|
            0 <= k < childs.len() ==> {
                &&& (#[trigger] childs[k]).state@ == successors(
                    open_before.last().state@,
                    size as int,
                )[k]
                &&& childs[k].state.size == size
                &&& childs[k].g_score == open_before.last().g_score + 1
            },
        open_now == open_after_children(
            open_before.drop_last(),
            closed_now,
            g_mul,
            h_mul,
            childs,
            0,
        ),
    ensures
        all_valid(closed_now, size),
        all_linked(closed_now, closed_now, start, size as int),
        costs_within(closed_now, closed_now.len() as int),
{
    reveal(consistent);
    lemma_step_closed(open_before, closed_before, closed_now, start, size, open_before.last());
}

/// After one round of the search the frontier stays valid and linked.
proof fn lemma_round_open(
    open_before: Seq<Node>,
    closed_before: Seq<Node>,
    open_now: Seq<Node>,
    closed_now: Seq<Node>,
    childs: Seq<Node>,
    start: Seq<usize>,
    size: usize,
    g_mul: usize,
    h_mul: usize,
)
    requires
        consistent(open_before, closed_before, start, size, g_mul, h_mul),
        open_before.len() > 0,
        closed_grew(closed_before, closed_now, open_before.last()),
        open_before.last().state@ != goal_cells(size as int),
        childs.len() == successors(open_before.last().state@, size as int).len(),
        forall|k: int|
            0 <= k < childs.len() ==> {
                &&& (#[trigger] childs[k]).state@ == successors(
                    open_before.last().state@,
                    size as int,
                )[k]
                &&& childs[k].state.size == size
                &&& childs[k].g_score == open_before.last().g_score + 1
            },
        open_now == open_after_children(
            open_before.drop_last(),
            closed_now,
            g_mul,
            h_mul,
            childs,
            0,
        ),
    ensures
        all_valid(open_now, size),
        all_linked(open_now, closed_now, start, size as int),
        costs_within(open_now, closed_now.len() as int),
{
    reveal(consistent);
    lemma_open_after_children(open_before.drop_last(), closed_now, g_mul, h_mul, childs, 0);
    lemma_step_open(
        open_before,
        closed_before,
        open_now,
        closed_now,
        childs,
        start,
        size,
        open_before.last(),
    );
}

/// After one round of the search every move from an expanded node still leads to the lists.
proof fn lemma_round_expanded(
    open_before: Seq<Node>,
    closed_before: Seq<Node>,
    open_now: Seq<Node>,
    closed_now: Seq<Node>,
    childs: Seq<Node>,
    start: Seq<usize>,
    size: usize,
    g_mul: usize,
    h_mul: usize,
)
    requires
        consistent(open_before, closed_before, start, size, g_mul, h_mul),
        open_before.len() > 0,
        closed_grew(closed_before, closed_now, open_before.last()),
        open_before.last().state@ != goal_cells(size as int),
        childs.len() == successors(open_before.last().state@, size as int).len(),
        forall|k: int|
            0 <= k < childs.len() ==> {
                &&& (#[trigger] childs[k]).state@ == successors(
                    open_before.last().state@,
                    size as int,
                )[k]
                &&& childs[k].state.size == size
                &&& childs[k].g_score == open_before.last().g_score + 1
            },
        open_now == open_after_children(
            open_before.drop_last(),
            closed_now,
            g_mul,
            h_mul,
            childs,
            0,
        ),
    ensures
        expanded(open_now, closed_now, size as int, closed_now.len() as int),
{
    reveal(consistent);
    lemma_open_after_children(open_before.drop_last(), closed_now, g_mul, h_mul, childs, 0);
    lemma_step_expanded(
        open_before,
        closed_before,
        open_now,
        closed_now,
        childs,
        size,
        open_before.last(),
    );
}

/// After one round of the search the start stays listed and the goal is not expanded.
proof fn lemma_round_ends(
    open_before: Seq<Node>,
    closed_before: Seq<Node>,
    open_now: Seq<Node>,
    closed_now: Seq<Node>,
    childs: Seq<Node>,
    start: Seq<usize>,
    size: usize,
    g_mul: usize,
    h_mul: usize,
)
    requires
        consistent(open_before, closed_before, start, size, g_mul, h_mul),
        open_before.len() > 0,
        closed_grew(closed_before, closed_now, open_before.last()),
        open_before.last().state@ != goal_cells(size as int),
        childs.len() == successors(open_before.last().state@, size as int).len(),
        forall|k: int|
            0 <= k < childs.len() ==> {
                &&& (#[trigger] childs[k]).state@ == successors(
                    open_before.last().state@,
                    size as int,
                )[k]
                &&& childs[k].state.size == size
                &&& childs[k].g_score == open_before.last().g_score + 1
            },
        open_now == open_after_children(
            open_before.drop_last(),
            closed_now,
            g_mul,
            h_mul,
            childs,
            0,
        ),
    ensures
        holds_state(open_now, start) || holds_state(closed_now, start),
        !holds_state(closed_now, goal_cells(size as int)),
        is_valid_board(start, size as int),
{
    reveal(consistent);
    lemma_open_after_children(open_before.drop_last(), closed_now, g_mul, h_mul, childs, 0);
    lemma_step_ends(
        open_before,
        closed_before,
        open_now,
        closed_now,
        start,
        size,
        open_before.last(),
    );
}

/// After one round of the search no state stands twice in the lists.
proof fn lemma_round_apart(
    open_before: Seq<Node>,
    closed_before: Seq<Node>,
    open_now: Seq<Node>,
    closed_now: Seq<Node>,
    childs: Seq<Node>,
    start: Seq<usize>,
    size: usize,
    g_mul: usize,
    h_mul: usize,
)
    requires
        consistent(open_before, closed_before, start, size, g_mul, h_mul),
        open_before.len() > 0,
        closed_grew(closed_before, closed_now, open_before.last()),
        open_before.last().state@ != goal_cells(size as int),
        childs.len() == successors(open_before.last().state@, size as int).len(),
        forall|k: int|
            0 <= k < childs.len() ==> {
                &&& (#[trigger] childs[k]).state@ == successors(
                    open_before.last().state@,
                    size as int,
                )[k]
                &&& childs[k].state.size == size
                &&& childs[k].g_score == open_before.last().g_score + 1
            },
        open_now == open_after_children(
            open_before.drop_last(),
            closed_now,
            g_mul,
            h_mul,
            childs,
            0,
        ),
    ensures
        distinct_states(open_now),
        distinct_states(closed_now),
        apart(open_now, closed_now),
{
    reveal(consistent);
    lemma_step_apart(open_before, closed_before, open_now, closed_now, childs, g_mul, h_mul);
}

/// After one round of the search the frontier stays in order.
proof fn lemma_round_sorted(
    open_before: Seq<Node>,
    closed_before: Seq<Node>,
    open_now: Seq<Node>,
    closed_now: Seq<Node>,
    childs: Seq<Node>,
    start: Seq<usize>,
    size: usize,
    g_mul: usize,
    h_mul: usize,
)
    requires
        consistent(open_before, closed_before, start, size, g_mul, h_mul),
        open_before.len() > 0,
        closed_grew(closed_before, closed_now, open_before.last()),
        open_before.last().state@ != goal_cells(size as int),
        childs.len() == successors(open_before.last().state@, size as int).len(),
        forall|k: int|
            0 <= k < childs.len() ==> {
                &&& (#[trigger] childs[k]).state@ == successors(
                    open_before.last().state@,
                    size as int,
                )[k]
                &&& childs[k].state.size == size
                &&& childs[k].g_score == open_before.last().g_score + 1
            },
        open_now == open_after_children(
            open_before.drop_last(),
            closed_now,
            g_mul,
            h_mul,
            childs,
            0,
        ),
    ensures
        sorted(open_now, g_mul, h_mul),
{
    reveal(consistent);
    let rest = open_before.drop_last();
    lemma_remove_sorted(open_before, g_mul, h_mul, open_before.len() - 1);
    assert(rest =~= open_before.remove(open_before.len() - 1));
    lemma_open_after_children(rest, closed_now, g_mul, h_mul, childs, 0);
}

/// One round of the search leaves the lists consistent: the last node of the
/// frontier, which does not hold the goal, joined the expanded nodes, and its
/// children were offered to the frontier.
pub proof fn lemma_consistent_step(
    open_before: Seq<Node>,
    closed_before: Seq<Node>,
    open_now: Seq<Node>,
    closed_now: Seq<Node>,
    childs: Seq<Node>,
    start: Seq<usize>,
    size: usize,
    g_mul: usize,
    h_mul: usize,
)
    requires
        consistent(open_before, closed_before, start, size, g_mul, h_mul),
        open_before.len() > 0,
        closed_grew(closed_before, closed_now, open_before.last()),
        open_before.last().state@ != goal_cells(size as int),
        childs.len() == successors(open_before.last().state@, size as int).len(),
        forall|k: int|
            0 <= k < childs.len() ==> {
                &&& (#[trigger] childs[k]).state@ == successors(
                    open_before.last().state@,
                    size as int,
                )[k]
                &&& childs[k].state.size == size
                &&& childs[k].g_score == open_before.last().g_score + 1
            },
        open_now == open_after_children(
            open_before.drop_last(),
            closed_now,
            g_mul,
            h_mul,
            childs,
            0,
        ),
    ensures
        consistent(open_now, closed_now, start, size, g_mul, h_mul),
{
    lemma_round_closed(open_before, closed_before, open_now, closed_now, childs, start, size, g_mul, h_mul);
    lemma_round_open(open_before, closed_before, open_now, closed_now, childs, start, size, g_mul, h_mul);
    lemma_round_expanded(open_before, closed_before, open_now, closed_now, childs, start, size, g_mul, h_mul);
    lemma_round_ends(open_before, closed_before, open_now, closed_now, childs, start, size, g_mul, h_mul);
    lemma_round_apart(open_before, closed_before, open_now, closed_now, childs, start, size, g_mul, h_mul);
    lemma_round_sorted(open_before, closed_before, open_now, closed_now, childs, start, size, g_mul, h_mul);
    reveal(consistent);
}

/// When the frontier of consistent lists is empty, no chain of moves leads from the
/// start to the goal.
pub proof fn lemma_consistent_exhausted(
    closed: Seq<Node>,
    start: Seq<usize>,
    size: usize,
    g_mul: usize,
    h_mul: usize,
)
    requires
        consistent(Seq::empty(), closed, start, size, g_mul, h_mul),
    ensures
        !reachable(start, goal_cells(size as int), size as int),
{
    reveal(consistent);
    assert(!holds_state(Seq::<Node>::empty(), start));
    lemma_exhausted(closed, start, goal_cells(size as int), size as int);
}

/// The node that a consistent frontier ranks best is ranked no worse than any other
/// node on it.
pub proof fn lemma_consistent_best(
    open: Seq<Node>,
    closed: Seq<Node>,
    start: Seq<usize>,
    size: usize,
    g_mul: usize,
    h_mul: usize,
    i: int,
)
    requires
        consistent(open, closed, start, size, g_mul, h_mul),
        0 <= i < open.len(),
    ensures
        priority(open.last(), g_mul, h_mul) <= priority(open[i], g_mul, h_mul),
{
    reveal(consistent);
}

/// The frontier and the expanded nodes at one moment of a search.
pub type Lists = (Seq<Node>, Seq<Node>);

/// One round of the search leads from the lists `before` to the lists `after`: the
/// last node of the frontier, which does not hold the goal, joins the expanded
/// nodes, and its children are offered to the frontier.
pub open spec fn is_round(
    before: Lists,
    after: Lists,
    size: usize,
    heuristic: Heuristic,
    g_mul: usize,
    h_mul: usize,
) -> bool {
    &&& before.0.len() > 0
    &&& before.0.last().state@ != goal_cells(size as int)
    &&& closed_grew(before.1, after.1, before.0.last())
    &&& exists|childs: Seq<Node>|
        children_of(
            childs,
            before.0.last().state@,
            size,
            before.0.last().g_score,
            goal_cells(size as int),
            heuristic,
        ) && after.0 == #[trigger] open_after_children(
            before.0.drop_last(),
            after.1,
            g_mul,
            h_mul,
            childs,
            0,
        )
}

/// The lists of a search, round after round: at first the frontier holds the start
/// node and nothing was expanded.
#[verifier::opaque]
pub open spec fn is_run(
    run: Seq<Lists>,
    start_node: Node,
    size: usize,
    heuristic: Heuristic,
    g_mul: usize,
    h_mul: usize,
) -> bool {
    &&& run.len() > 0
    &&& run[0].0.len() == 1
    &&& run[0].0[0].same_as(start_node)
    &&& run[0].1.len() == 0
    &&& forall|k: int|
        0 <= k < run.len() - 1 ==> is_round(#[trigger] run[k], run[k + 1], size, heuristic, g_mul, h_mul)
}

/// The largest length that the frontier has at the start of one of the first `upto`
/// rounds.  Within a round the frontier first loses a node and then only grows, so
/// it is never longer than at the start of a round.
pub open spec fn largest_frontier(run: Seq<Lists>, upto: int) -> int
    decreases upto,
{
    if upto <= 0 {
        0
    } else if largest_frontier(run, upto - 1) >= run[upto - 1].0.len() {
        largest_frontier(run, upto - 1)
    } else {
        run[upto - 1].0.len() as int
    }
}

/// A search that has just begun is a run of one moment.
pub proof fn lemma_run_starts(
    open: Seq<Node>,
    start_node: Node,
    size: usize,
    heuristic: Heuristic,
    g_mul: usize,
    h_mul: usize,
)
    requires
        open.len() == 1,
        open[0].same_as(start_node),
    ensures
        is_run(seq![(open, Seq::<Node>::empty())], start_node, size, heuristic, g_mul, h_mul),
        largest_frontier(seq![(open, Seq::<Node>::empty())], 1) == 1,
{
    reveal(is_run);
    let run = seq![(open, Seq::<Node>::empty())];
    assert(run[0].0 == open);
    assert(largest_frontier(run, 0) == 0);
}

/// A run goes on by one round.
pub proof fn lemma_run_goes_on(
    run: Seq<Lists>,
    next: Lists,
    start_node: Node,
    size: usize,
    heuristic: Heuristic,
    g_mul: usize,
    h_mul: usize,
)
    requires
        is_run(run, start_node, size, heuristic, g_mul, h_mul),
        is_round(run[run.len() - 1], next, size, heuristic, g_mul, h_mul),
    ensures
        is_run(run.push(next), start_node, size, heuristic, g_mul, h_mul),
        largest_frontier(run.push(next), run.len() as int + 1) == if largest_frontier(
            run,
            run.len() as int,
        ) >= next.0.len() {
            largest_frontier(run, run.len() as int)
        } else {
            next.0.len() as int
        },
{
    reveal(is_run);
    let longer = run.push(next);
    assert forall|k: int| 0 <= k < longer.len() - 1 implies is_round(
        #[trigger] longer[k],
        longer[k + 1],
        size,
        heuristic,
        g_mul,
        h_mul,
    ) by {
        assert(longer[k] == run[k]);
        if k < run.len() - 1 {
            assert(longer[k + 1] == run[k + 1]);
            assert(is_round(run[k], run[k + 1], size, heuristic, g_mul, h_mul));
        }
    }
    lemma_largest_same(run, longer, run.len() as int);
}

/// Runs that agree in their first moments agree in their largest frontier there.
pub proof fn lemma_largest_same(a: Seq<Lists>, b: Seq<Lists>, upto: int)
    requires
        forall|k: int| 0 <= k < upto ==> a[k] == b[k],
    ensures
        largest_frontier(a, upto) == largest_frontier(b, upto),
    decreases upto,
{
    if upto > 0 {
        lemma_largest_same(a, b, upto - 1);
    }
}

} // verus!

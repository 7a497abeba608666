//! Why the best-first search finds a shortest chain of moves when every step counts
//! once and the estimate, if it counts at all, changes by one at most with each
//! move.

use vstd::prelude::*;
use crate::board::is_valid_board;
use crate::estimates::lemma_steady_step;
use crate::graph::{
    holds_state, insert_index, open_after_add, open_after_children, priority, state_index,
};
use crate::heuristic::Heuristic;
use crate::moves::{
    is_path, is_slide, lemma_path_valid, lemma_slide_is_successor, lemma_slide_valid, successors,
};
use crate::node::Node;
use crate::search::{
    closed_grew, consistent, lemma_closed_keeps, lemma_consistent_best,
    lemma_insert_index_exists, lemma_open_after_children, lemma_state_index_exists, listed_from,
};
use crate::spiral::{goal_cells, lemma_goal_is_valid};

verus! {

/// No chain of moves from `start` to `cells` has fewer than `g` moves.
pub open spec fn is_shortest(g: int, start: Seq<usize>, cells: Seq<usize>, n: int) -> bool {
    forall|path: Seq<Seq<usize>>| #[trigger] is_path(path, start, cells, n) ==> g + 1 <= path.len()
}

/// The ranking under which the search finds a shortest chain: the cost counts
/// once, and the estimate does not count or counts once.
pub open spec fn finds_shortest(g_mul: usize, h_mul: usize) -> bool {
    g_mul == 1 && h_mul <= 1
}

/// Every node of the list carries the estimate of its state.
pub open spec fn all_scored(
    list: Seq<Node>,
    heuristic: Heuristic,
    goal: Seq<usize>,
    n: int,
) -> bool {
    forall|i: int|
        0 <= i < list.len() ==> (#[trigger] list[i]).h_score == heuristic.value(
            list[i].state@,
            goal,
            n,
        )
}

/// Some node of the list holds these cells at a cost of `bound` at most.
pub open spec fn holds_within(list: Seq<Node>, cells: Seq<usize>, bound: int) -> bool {
    exists|i: int|
        0 <= i < list.len() && (#[trigger] list[i]).state@ == cells && list[i].g_score <= bound
}

/// Some node of the list holds these cells at a rank of `rank` at most.
pub open spec fn holds_better(
    list: Seq<Node>,
    g_mul: usize,
    h_mul: usize,
    cells: Seq<usize>,
    rank: int,
) -> bool {
    exists|i: int|
        0 <= i < list.len() && (#[trigger] list[i]).state@ == cells && priority(
            list[i],
            g_mul,
            h_mul,
        ) <= rank
}

/// Every state of `before` stands in `after` at a rank no higher.
pub open spec fn keeps_better(
    before: Seq<Node>,
    after: Seq<Node>,
    g_mul: usize,
    h_mul: usize,
) -> bool {
    forall|i: int|
        0 <= i < before.len() ==> #[trigger] holds_better(
            after,
            g_mul,
            h_mul,
            before[i].state@,
            priority(before[i], g_mul, h_mul),
        )
}

/// What holds of the two lists, beyond their being consistent, while the search
/// ranks as `finds_shortest` asks: the nodes of the frontier carry their estimates;
/// the cost of an expanded node is the length of a shortest chain to it; every move
/// from an expanded node leads to an expanded state or to a state that the frontier
/// holds at one step more at most; the start is expanded or stands in the frontier
/// at no cost.
#[verifier::opaque]
pub open spec fn optimal(
    open: Seq<Node>,
    closed: Seq<Node>,
    start: Seq<usize>,
    size: usize,
    heuristic: Heuristic,
) -> bool {
    let n = size as int;
    &&& all_scored(open, heuristic, goal_cells(n), n)
    &&& forall|c: int|
        0 <= c < closed.len() ==> is_shortest(
            (#[trigger] closed[c]).g_score as int,
            start,
            closed[c].state@,
            n,
        )
    &&& forall|c: int, next: Seq<usize>|
        0 <= c < closed.len() && #[trigger] is_slide(closed[c].state@, next, n) ==> holds_state(
            closed,
            next,
        ) || holds_within(open, next, closed[c].g_score + 1)
    &&& holds_state(closed, start) || holds_within(open, start, 0)
}

/// The lists are as `optimal` asks when the search starts.
pub proof fn lemma_optimal_start(
    open: Seq<Node>,
    start: Seq<usize>,
    size: usize,
    heuristic: Heuristic,
)
    requires
        open.len() == 1,
        open[0].state@ == start,
        open[0].g_score == 0,
        open[0].h_score == heuristic.value(start, goal_cells(size as int), size as int),
    ensures
        optimal(open, Seq::empty(), start, size, heuristic),
{
    reveal(optimal);
    assert(holds_within(open, start, 0));
}

/// Along a chain of moves the weighed estimate falls by one at most with each move.
pub proof fn lemma_estimate_along(
    heuristic: Heuristic,
    h_mul: usize,
    path: Seq<Seq<usize>>,
    goal: Seq<usize>,
    n: int,
    i: int,
    k: int,
)
    requires
        h_mul <= 1,
        is_valid_board(goal, n),
        0 <= i <= k < path.len(),
        is_valid_board(path[i], n),
        forall|j: int| 0 <= j < path.len() - 1 ==> is_slide(#[trigger] path[j], path[j + 1], n),
    ensures
        is_valid_board(path[k], n),
        h_mul * heuristic.value(path[i], goal, n) <= (k - i) + h_mul * heuristic.value(
            path[k],
            goal,
            n,
        ),
    decreases k - i,
{
    if i < k {
        lemma_estimate_along(heuristic, h_mul, path, goal, n, i, k - 1);
        assert(is_slide(path[k - 1], path[k], n));
        lemma_slide_valid(path[k - 1], path[k], n);
        if h_mul == 1 {
            lemma_steady_step(heuristic, path[k - 1], path[k], goal, n);
        }
    }
}

/// On every chain of moves from the start, a state is expanded or some state before
/// it, or itself, stands in the frontier at a cost no higher than its place in the
/// chain.
pub proof fn lemma_cover(
    open: Seq<Node>,
    closed: Seq<Node>,
    start: Seq<usize>,
    size: usize,
    heuristic: Heuristic,
    path: Seq<Seq<usize>>,
    k: int,
)
    requires
        optimal(open, closed, start, size, heuristic),
        0 <= k < path.len(),
        path[0] == start,
        forall|j: int|
            0 <= j < path.len() - 1 ==> is_slide(#[trigger] path[j], path[j + 1], size as int),
    ensures
        holds_state(closed, path[k]) || exists|i: int|
            0 <= i <= k && holds_within(open, #[trigger] path[i], i),
    decreases k,
{
    reveal(optimal);
    let n = size as int;
    if k == 0 {
        if !holds_state(closed, start) {
            assert(holds_within(open, path[0], 0));
        }
    } else {
        lemma_cover(open, closed, start, size, heuristic, path, k - 1);
        if holds_state(closed, path[k - 1]) {
            let c = choose|c: int| 0 <= c < closed.len() && (#[trigger] closed[c]).state@ == path[k - 1];
            let prefix = path.take(k);
            assert(is_path(prefix, start, path[k - 1], n)) by {
                assert forall|j: int| 0 <= j < prefix.len() - 1 implies is_slide(
                    #[trigger] prefix[j],
                    prefix[j + 1],
                    n,
                ) by {
                    assert(is_slide(path[j], path[j + 1], n));
                }
            }
            assert(is_shortest(closed[c].g_score as int, start, closed[c].state@, n));
            assert(closed[c].g_score + 1 <= k);
            assert(is_slide(path[k - 1], path[k], n));
            assert(is_slide(closed[c].state@, path[k], n));
            if !holds_state(closed, path[k]) {
                assert(holds_within(open, path[k], closed[c].g_score + 1));
                let w = choose|w: int|
                    0 <= w < open.len() && (#[trigger] open[w]).state@ == path[k]
                        && open[w].g_score <= closed[c].g_score + 1;
                assert(open[w].g_score <= k);
                assert(holds_within(open, path[k], k));
            }
        } else {
            let i = choose|i: int| 0 <= i <= k - 1 && holds_within(open, #[trigger] path[i], i);
            assert(holds_within(open, path[i], i));
        }
    }
}

/// The node that the search takes from the frontier cost as many steps as a
/// shortest chain of moves from the start to its state has.
#[verifier::rlimit(40)]
pub proof fn lemma_taken_shortest(
    open: Seq<Node>,
    closed: Seq<Node>,
    start: Seq<usize>,
    size: usize,
    heuristic: Heuristic,
    g_mul: usize,
    h_mul: usize,
)
    requires
        consistent(open, closed, start, size, g_mul, h_mul),
        optimal(open, closed, start, size, heuristic),
        finds_shortest(g_mul, h_mul),
        2 <= size,
        size * size <= usize::MAX,
        open.len() > 0,
    ensures
        is_shortest(open.last().g_score as int, start, open.last().state@, size as int),
{
    let n = size as int;
    let goal = goal_cells(n);
    let taken = open.last();
    lemma_goal_is_valid(n);
    assert forall|path: Seq<Seq<usize>>| #[trigger]
        is_path(path, start, taken.state@, n) implies taken.g_score + 1 <= path.len() by {
        let k = path.len() - 1;
        lemma_cover(open, closed, start, size, heuristic, path, k);
        assert(is_valid_board(start, n)) by {
            reveal(consistent);
        }
        assert(!holds_state(closed, taken.state@)) by {
            reveal(consistent);
        }
        let i = choose|i: int| 0 <= i <= k && holds_within(open, #[trigger] path[i], i);
        let w = choose|w: int|
            0 <= w < open.len() && (#[trigger] open[w]).state@ == path[i] && open[w].g_score <= i;
        lemma_consistent_best(open, closed, start, size, g_mul, h_mul, w);
        lemma_path_valid(path, n, i);
        lemma_estimate_along(heuristic, h_mul, path, goal, n, i, k);
        assert(open[w].h_score == heuristic.value(path[i], goal, n) && taken.h_score
            == heuristic.value(path[k], goal, n)) by {
            reveal(optimal);
        }
        assert(priority(taken, g_mul, h_mul) == taken.g_score + h_mul * taken.h_score) by {
            assert(g_mul * taken.g_score == taken.g_score) by (nonlinear_arith)
                requires
                    g_mul == 1,
            ;
        }
        assert(priority(open[w], g_mul, h_mul) == open[w].g_score + h_mul * open[w].h_score) by {
            assert(g_mul * open[w].g_score == open[w].g_score) by (nonlinear_arith)
                requires
                    g_mul == 1,
            ;
        }
    }
}

/// A list with one more node holds every state at its rank, and the state of the
/// new node at the rank of that node.
pub proof fn lemma_insert_better(list: Seq<Node>, g_mul: usize, h_mul: usize, at: int, node: Node)
    requires
        0 <= at <= list.len(),
    ensures
        keeps_better(list, list.insert(at, node), g_mul, h_mul),
        holds_better(
            list.insert(at, node),
            g_mul,
            h_mul,
            node.state@,
            priority(node, g_mul, h_mul),
        ),
{
    let after = list.insert(at, node);
    assert(after[at] == node);
    assert(after[at].state@ == node.state@);
    assert forall|i: int| 0 <= i < list.len() implies #[trigger] holds_better(
        after,
        g_mul,
        h_mul,
        list[i].state@,
        priority(list[i], g_mul, h_mul),
    ) by {
        let a = if i < at {
            i
        } else {
            i + 1
        };
        assert(after[a] == list[i]);
        assert(after[a].state@ == list[i].state@);
    }
}

/// A list keeps every state at its rank.
pub proof fn lemma_same_better(list: Seq<Node>, g_mul: usize, h_mul: usize)
    ensures
        keeps_better(list, list, g_mul, h_mul),
{
    assert forall|i: int| 0 <= i < list.len() implies #[trigger] holds_better(
        list,
        g_mul,
        h_mul,
        list[i].state@,
        priority(list[i], g_mul, h_mul),
    ) by {
    }
}

/// A list in which a node gave way to one of the same state and a lower rank holds
/// every state at a rank no higher than before.
pub proof fn lemma_replace_better(
    list: Seq<Node>,
    g_mul: usize,
    h_mul: usize,
    pos: int,
    at: int,
    node: Node,
)
    requires
        0 <= pos < list.len(),
        0 <= at < list.len(),
        list[pos].state@ == node.state@,
        priority(node, g_mul, h_mul) <= priority(list[pos], g_mul, h_mul),
    ensures
        keeps_better(list, list.remove(pos).insert(at, node), g_mul, h_mul),
        holds_better(
            list.remove(pos).insert(at, node),
            g_mul,
            h_mul,
            node.state@,
            priority(node, g_mul, h_mul),
        ),
{
    let rest = list.remove(pos);
    let after = rest.insert(at, node);
    lemma_insert_better(rest, g_mul, h_mul, at, node);
    assert forall|i: int| 0 <= i < list.len() implies #[trigger] holds_better(
        after,
        g_mul,
        h_mul,
        list[i].state@,
        priority(list[i], g_mul, h_mul),
    ) by {
        if i != pos {
            let r = if i < pos {
                i
            } else {
                i - 1
            };
            assert(rest[r] == list[i]);
            assert(holds_better(after, g_mul, h_mul, rest[r].state@, priority(rest[r], g_mul, h_mul)));
        } else {
            let w = choose|w: int|
                0 <= w < after.len() && (#[trigger] after[w]).state@ == node.state@ && priority(
                    after[w],
                    g_mul,
                    h_mul,
                ) <= priority(node, g_mul, h_mul);
            assert(after[w].state@ == list[i].state@);
        }
    }
}

/// What offering a node to the frontier does to the ranks at which states stand:
/// none rises, and the state of the node stands at the node's rank or lower unless
/// it was expanded.
pub proof fn lemma_open_after_add_better(
    open: Seq<Node>,
    closed: Seq<Node>,
    g_mul: usize,
    h_mul: usize,
    node: Node,
)
    ensures
        keeps_better(open, open_after_add(open, closed, g_mul, h_mul, node), g_mul, h_mul),
        holds_state(closed, node.state@) || holds_better(
            open_after_add(open, closed, g_mul, h_mul, node),
            g_mul,
            h_mul,
            node.state@,
            priority(node, g_mul, h_mul),
        ),
{
    let rank = priority(node, g_mul, h_mul);
    if holds_state(closed, node.state@) {
        lemma_same_better(open, g_mul, h_mul);
    } else if holds_state(open, node.state@) {
        lemma_state_index_exists(open, node.state@);
        let pos = state_index(open, node.state@);
        if priority(open[pos], g_mul, h_mul) > rank {
            let rest = open.remove(pos);
            lemma_insert_index_exists(rest, g_mul, h_mul, rank);
            lemma_replace_better(open, g_mul, h_mul, pos, insert_index(rest, g_mul, h_mul, rank), node);
        } else {
            lemma_same_better(open, g_mul, h_mul);
            assert(open[pos].state@ == node.state@);
        }
    } else {
        lemma_insert_index_exists(open, g_mul, h_mul, rank);
        lemma_insert_better(open, g_mul, h_mul, insert_index(open, g_mul, h_mul, rank), node);
    }
}

/// What stands at a rank no higher in one list, and that list in a second, stands at
/// a rank no higher in the second.
pub proof fn lemma_better_twice(
    first: Seq<Node>,
    second: Seq<Node>,
    third: Seq<Node>,
    g_mul: usize,
    h_mul: usize,
)
    requires
        keeps_better(first, second, g_mul, h_mul),
        keeps_better(second, third, g_mul, h_mul),
    ensures
        keeps_better(first, third, g_mul, h_mul),
{
    assert forall|i: int| 0 <= i < first.len() implies #[trigger] holds_better(
        third,
        g_mul,
        h_mul,
        first[i].state@,
        priority(first[i], g_mul, h_mul),
    ) by {
        lemma_better_carried(second, third, g_mul, h_mul, first[i].state@, priority(first[i], g_mul, h_mul));
    }
}

/// A state that one list holds at some rank, a list that keeps its ranks holds at
/// that rank or lower.
pub proof fn lemma_better_carried(
    before: Seq<Node>,
    after: Seq<Node>,
    g_mul: usize,
    h_mul: usize,
    cells: Seq<usize>,
    rank: int,
)
    requires
        keeps_better(before, after, g_mul, h_mul),
        holds_better(before, g_mul, h_mul, cells, rank),
    ensures
        holds_better(after, g_mul, h_mul, cells, rank),
{
    let w = choose|w: int|
        0 <= w < before.len() && (#[trigger] before[w]).state@ == cells && priority(
            before[w],
            g_mul,
            h_mul,
        ) <= rank;
    assert(holds_better(after, g_mul, h_mul, before[w].state@, priority(before[w], g_mul, h_mul)));
    let z = choose|z: int|
        0 <= z < after.len() && (#[trigger] after[z]).state@ == before[w].state@ && priority(
            after[z],
            g_mul,
            h_mul,
        ) <= priority(before[w], g_mul, h_mul);
    assert(after[z].state@ == cells);
}

/// What offering the children from index `from` on does to the ranks at which
/// states stand.
pub proof fn lemma_open_after_children_better(
    open: Seq<Node>,
    closed: Seq<Node>,
    g_mul: usize,
    h_mul: usize,
    childs: Seq<Node>,
    from: int,
)
    requires
        0 <= from <= childs.len(),
    ensures
        keeps_better(
            open,
            open_after_children(open, closed, g_mul, h_mul, childs, from),
            g_mul,
            h_mul,
        ),
        forall|k: int|
            from <= k < childs.len() ==> holds_state(closed, (#[trigger] childs[k]).state@)
                || holds_better(
                open_after_children(open, closed, g_mul, h_mul, childs, from),
                g_mul,
                h_mul,
                childs[k].state@,
                priority(childs[k], g_mul, h_mul),
            ),
    decreases childs.len() - from,
{
    let after = open_after_children(open, closed, g_mul, h_mul, childs, from);
    if from >= childs.len() {
        lemma_same_better(open, g_mul, h_mul);
    } else {
        let inner = open_after_children(open, closed, g_mul, h_mul, childs, from + 1);
        lemma_open_after_children_better(open, closed, g_mul, h_mul, childs, from + 1);
        lemma_open_after_add_better(inner, closed, g_mul, h_mul, childs[from]);
        lemma_better_twice(open, inner, after, g_mul, h_mul);
        assert forall|k: int| from <= k < childs.len() implies holds_state(
            closed,
            (#[trigger] childs[k]).state@,
        ) || holds_better(
            after,
            g_mul,
            h_mul,
            childs[k].state@,
            priority(childs[k], g_mul, h_mul),
        ) by {
            if k > from && !holds_state(closed, childs[k].state@) {
                lemma_better_carried(
                    inner,
                    after,
                    g_mul,
                    h_mul,
                    childs[k].state@,
                    priority(childs[k], g_mul, h_mul),
                );
            }
        }
    }
}

/// Of two nodes with one estimate, the one of the lower rank cost no more, when the
/// cost counts once.
pub proof fn lemma_rank_cost(low: Node, high: Node, g_mul: usize, h_mul: usize)
    requires
        g_mul == 1,
        low.h_score == high.h_score,
        priority(low, g_mul, h_mul) <= priority(high, g_mul, h_mul),
    ensures
        low.g_score <= high.g_score,
{
    assert(g_mul * low.g_score == low.g_score) by (nonlinear_arith)
        requires
            g_mul == 1,
    ;
    assert(g_mul * high.g_score == high.g_score) by (nonlinear_arith)
        requires
            g_mul == 1,
    ;
}

/// A state that a scored list holds within a cost, a scored list that keeps its
/// ranks holds within that cost.
pub proof fn lemma_within_carried(
    before: Seq<Node>,
    after: Seq<Node>,
    heuristic: Heuristic,
    goal: Seq<usize>,
    n: int,
    g_mul: usize,
    h_mul: usize,
    cells: Seq<usize>,
    bound: int,
)
    requires
        g_mul == 1,
        all_scored(before, heuristic, goal, n),
        all_scored(after, heuristic, goal, n),
        keeps_better(before, after, g_mul, h_mul),
        holds_within(before, cells, bound),
    ensures
        holds_within(after, cells, bound),
{
    let w = choose|w: int|
        0 <= w < before.len() && (#[trigger] before[w]).state@ == cells && before[w].g_score
            <= bound;
    assert(holds_better(after, g_mul, h_mul, before[w].state@, priority(before[w], g_mul, h_mul)));
    let z = choose|z: int|
        0 <= z < after.len() && (#[trigger] after[z]).state@ == before[w].state@ && priority(
            after[z],
            g_mul,
            h_mul,
        ) <= priority(before[w], g_mul, h_mul);
    lemma_rank_cost(after[z], before[w], g_mul, h_mul);
    assert(after[z].state@ == cells && after[z].g_score <= bound);
}

/// The state of a scored node that a scored list holds at the node's rank or lower,
/// the list holds within the node's cost.
pub proof fn lemma_within_child(
    after: Seq<Node>,
    heuristic: Heuristic,
    goal: Seq<usize>,
    n: int,
    g_mul: usize,
    h_mul: usize,
    child: Node,
)
    requires
        g_mul == 1,
        all_scored(after, heuristic, goal, n),
        child.h_score == heuristic.value(child.state@, goal, n),
        holds_better(after, g_mul, h_mul, child.state@, priority(child, g_mul, h_mul)),
    ensures
        holds_within(after, child.state@, child.g_score as int),
{
    let z = choose|z: int|
        0 <= z < after.len() && (#[trigger] after[z]).state@ == child.state@ && priority(
            after[z],
            g_mul,
            h_mul,
        ) <= priority(child, g_mul, h_mul);
    lemma_rank_cost(after[z], child, g_mul, h_mul);
    assert(after[z].state@ == child.state@ && after[z].g_score <= child.g_score);
}

/// A state that the frontier held within a cost before a round of the search is
/// expanded after it or stands in the frontier within that cost.
pub proof fn lemma_within_moved(
    open_before: Seq<Node>,
    open_now: Seq<Node>,
    closed_before: Seq<Node>,
    closed_now: Seq<Node>,
    heuristic: Heuristic,
    goal: Seq<usize>,
    n: int,
    g_mul: usize,
    h_mul: usize,
    cells: Seq<usize>,
    bound: int,
)
    requires
        g_mul == 1,
        open_before.len() > 0,
        closed_grew(closed_before, closed_now, open_before.last()),
        all_scored(open_before, heuristic, goal, n),
        all_scored(open_now, heuristic, goal, n),
        keeps_better(open_before.drop_last(), open_now, g_mul, h_mul),
        holds_within(open_before, cells, bound),
    ensures
        holds_state(closed_now, cells) || holds_within(open_now, cells, bound),
{
    let rest = open_before.drop_last();
    let w = choose|w: int|
        0 <= w < open_before.len() && (#[trigger] open_before[w]).state@ == cells
            && open_before[w].g_score <= bound;
    if w == open_before.len() - 1 {
        assert(closed_now[closed_now.len() - 1].state@ == cells);
    } else {
        assert(rest[w] == open_before[w]);
        assert(rest[w].state@ == cells && rest[w].g_score <= bound);
        assert(holds_within(rest, cells, bound));
        assert forall|i: int| 0 <= i < rest.len() implies (#[trigger] rest[i]).h_score
            == heuristic.value(rest[i].state@, goal, n) by {
            assert(rest[i] == open_before[i]);
        }
        lemma_within_carried(rest, open_now, heuristic, goal, n, g_mul, h_mul, cells, bound);
    }
}

/// One round of the search leaves the lists as `optimal` asks.
#[verifier::rlimit(40)]
pub proof fn lemma_optimal_step(
    open_before: Seq<Node>,
    closed_before: Seq<Node>,
    open_now: Seq<Node>,
    closed_now: Seq<Node>,
    childs: Seq<Node>,
    start: Seq<usize>,
    size: usize,
    heuristic: Heuristic,
    g_mul: usize,
    h_mul: usize,
)
    requires
        consistent(open_before, closed_before, start, size, g_mul, h_mul),
        optimal(open_before, closed_before, start, size, heuristic),
        finds_shortest(g_mul, h_mul),
        2 <= size,
        size * size <= usize::MAX,
        open_before.len() > 0,
        closed_grew(closed_before, closed_now, open_before.last()),
        is_valid_board(open_before.last().state@, size as int),
        childs.len() == successors(open_before.last().state@, size as int).len(),
        forall|k: int|
            0 <= k < childs.len() ==> {
                &&& (#[trigger] childs[k]).state@ == successors(
                    open_before.last().state@,
                    size as int,
                )[k]
                &&& childs[k].g_score == open_before.last().g_score + 1
                &&& childs[k].h_score == heuristic.value(
                    childs[k].state@,
                    goal_cells(size as int),
                    size as int,
                )
            },
        open_now == open_after_children(
            open_before.drop_last(),
            closed_now,
            g_mul,
            h_mul,
            childs,
            0,
        ),
    ensures
        optimal(open_now, closed_now, start, size, heuristic),
{
    let n = size as int;
    let goal = goal_cells(n);
    let rest = open_before.drop_last();
    let taken = open_before.last();
    let last = closed_now.len() - 1;
    lemma_taken_shortest(open_before, closed_before, start, size, heuristic, g_mul, h_mul);
    lemma_open_after_children(rest, closed_now, g_mul, h_mul, childs, 0);
    lemma_open_after_children_better(rest, closed_now, g_mul, h_mul, childs, 0);
    reveal(optimal);
    // The frontier is scored.
    assert(all_scored(open_now, heuristic, goal, n)) by {
        assert forall|i: int| 0 <= i < open_now.len() implies (#[trigger] open_now[i]).h_score
            == heuristic.value(open_now[i].state@, goal, n) by {
            if listed_from(rest, 0, open_now[i]) {
                let j = choose|j: int| 0 <= j < rest.len() && #[trigger] rest[j] == open_now[i];
                assert(rest[j] == open_before[j]);
            } else {
                let k = choose|k: int| 0 <= k < childs.len() && #[trigger] childs[k] == open_now[i];
            }
        }
    }
    // The expanded nodes cost as little as can be.
    assert forall|c: int| 0 <= c < closed_now.len() implies is_shortest(
        (#[trigger] closed_now[c]).g_score as int,
        start,
        closed_now[c].state@,
        n,
    ) by {
        if c < last {
            assert(closed_now[c] == closed_before[c]);
        }
    }
    // Every move from an expanded node leads to the lists.
    assert forall|c: int, next: Seq<usize>|
        0 <= c < closed_now.len() && #[trigger] is_slide(
            closed_now[c].state@,
            next,
            n,
        ) implies holds_state(closed_now, next) || holds_within(
        open_now,
        next,
        closed_now[c].g_score + 1,
    ) by {
        if c < last {
            assert(closed_now[c] == closed_before[c]);
            assert(is_slide(closed_before[c].state@, next, n));
            if holds_state(closed_before, next) {
                lemma_closed_keeps(closed_before, closed_now, taken, next);
            } else {
                lemma_within_moved(
                    open_before,
                    open_now,
                    closed_before,
                    closed_now,
                    heuristic,
                    goal,
                    n,
                    g_mul,
                    h_mul,
                    next,
                    closed_before[c].g_score + 1,
                );
            }
        } else {
            lemma_slide_is_successor(taken.state@, next, n);
            let k = choose|k: int|
                0 <= k < successors(taken.state@, n).len() && successors(taken.state@, n)[k]
                    == next;
            assert(childs[k].state@ == next);
            if !holds_state(closed_now, next) {
                lemma_within_child(open_now, heuristic, goal, n, g_mul, h_mul, childs[k]);
            }
        }
    }
    // The start stays listed.
    if holds_state(closed_before, start) {
        lemma_closed_keeps(closed_before, closed_now, taken, start);
    } else {
        lemma_within_moved(
            open_before,
            open_now,
            closed_before,
            closed_now,
            heuristic,
            goal,
            n,
            g_mul,
            h_mul,
            start,
            0,
        );
    }
}

} // verus!

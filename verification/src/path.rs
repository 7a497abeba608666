//! Walking back from a node to the start: at each step a node is looked up that
//! lies one move away and cost one step less.

use vstd::prelude::*;
use vstd::string::*;
use crate::board::{has_value, lemma_first_index_exists};
use crate::error::PuzzleError;
use crate::graph::Graph;
use crate::moves::successors;
use crate::node::Node;
use crate::puzzle::Puzzle;
use crate::render::rendered;

verus! {

/// The node cost `g` steps and holds these cells.
pub open spec fn is_match(node: Node, g: int, cells: Seq<usize>) -> bool {
    node.g_score == g && node.state@ == cells
}

/// Some node of the list cost `g` steps and holds these cells.
pub open spec fn has_match(list: Seq<Node>, g: int, cells: Seq<usize>) -> bool {
    exists|i: int| 0 <= i < list.len() && is_match(#[trigger] list[i], g, cells)
}

/// `i` is the first index of such a node.
pub open spec fn is_first_match(list: Seq<Node>, g: int, cells: Seq<usize>, i: int) -> bool {
    &&& 0 <= i < list.len()
    &&& is_match(list[i], g, cells)
    &&& forall|j: int| 0 <= j < i ==> !is_match(#[trigger] list[j], g, cells)
}

/// The first index of such a node; meaningful when there is one.
pub open spec fn first_match(list: Seq<Node>, g: int, cells: Seq<usize>) -> int {
    choose|i: int| is_first_match(list, g, cells, i)
}

/// Two first indices coincide.
pub proof fn lemma_first_match_unique(list: Seq<Node>, g: int, cells: Seq<usize>, i: int)
    requires
        is_first_match(list, g, cells, i),
    ensures
        first_match(list, g, cells) == i,
        has_match(list, g, cells),
{
    let k = first_match(list, g, cells);
    assert(is_first_match(list, g, cells, k));
    if k < i {
        assert(!is_match(list[k], g, cells));
    } else if i < k {
        assert(!is_match(list[i], g, cells));
    }
}

/// The node that is found when the first `upto` candidates are tried, the last
/// first: for each candidate the frontier is searched, then the expanded nodes.
pub open spec fn previous_among(
    open: Seq<Node>,
    closed: Seq<Node>,
    g: int,
    candidates: Seq<Seq<usize>>,
    upto: int,
) -> Option<Node>
    decreases upto,
{
    if upto <= 0 {
        None
    } else {
        let cells = candidates[upto - 1];
        if has_match(open, g, cells) {
            Some(open[first_match(open, g, cells)])
        } else if has_match(closed, g, cells) {
            Some(closed[first_match(closed, g, cells)])
        } else {
            previous_among(open, closed, g, candidates, upto - 1)
        }
    }
}

/// The node that precedes a node of these cells, side and cost: one that lies one
/// move away and cost one step less.
pub open spec fn previous_node(
    open: Seq<Node>,
    closed: Seq<Node>,
    cells: Seq<usize>,
    size: usize,
    g: usize,
) -> Option<Node> {
    let candidates = successors(cells, size as int);
    previous_among(open, closed, g - 1, candidates, candidates.len() as int)
}

/// The states from as far back as the lists lead up to the node of these cells,
/// side and cost, and whether the walk reached a node that cost nothing.
pub open spec fn walk_back(
    open: Seq<Node>,
    closed: Seq<Node>,
    cells: Seq<usize>,
    size: usize,
    g: usize,
) -> (bool, Seq<Seq<usize>>)
    decreases g,
{
    if g == 0 {
        (true, seq![cells])
    } else {
        match previous_node(open, closed, cells, size, g) {
            Some(previous) => {
                if previous.g_score + 1 == g {
                    let before = walk_back(
                        open,
                        closed,
                        previous.state@,
                        previous.state.size,
                        previous.g_score,
                    );
                    (before.0, before.1.push(cells))
                } else {
                    (false, seq![cells])
                }
            },
            None => (false, seq![cells]),
        }
    }
}

/// Every node of the list has a full board of side `size` with a blank on it.
pub open spec fn all_movable(list: Seq<Node>, size: usize) -> bool {
    forall|i: int|
        0 <= i < list.len() ==> (#[trigger] list[i]).state.shaped() && has_value(list[i].state@, 0)
            && list[i].state.size == size
}

/// What the lookup finds is a node of one of the lists that cost `g` steps and
/// holds one of the candidates.
pub proof fn lemma_previous_among(
    open: Seq<Node>,
    closed: Seq<Node>,
    g: int,
    candidates: Seq<Seq<usize>>,
    upto: int,
)
    requires
        0 <= upto <= candidates.len(),
    ensures
        match previous_among(open, closed, g, candidates, upto) {
            Some(node) => {
                &&& node.g_score == g
                &&& exists|k: int| 0 <= k < upto && node.state@ == #[trigger] candidates[k]
                &&& (exists|i: int| 0 <= i < open.len() && node == #[trigger] open[i]) || (exists|
                    i: int,
                | 0 <= i < closed.len() && node == #[trigger] closed[i])
            },
            None => forall|k: int|
                0 <= k < upto ==> !has_match(open, g, #[trigger] candidates[k]) && !has_match(
                    closed,
                    g,
                    candidates[k],
                ),
        },
    decreases upto,
{
    if upto > 0 {
        let cells = candidates[upto - 1];
        if has_match(open, g, cells) {
            let w = choose|i: int| 0 <= i < open.len() && is_match(#[trigger] open[i], g, cells);
            lemma_first_match_exists(open, g, cells, w);
            let i = first_match(open, g, cells);
            assert(open[i].state@ == candidates[upto - 1]);
        } else if has_match(closed, g, cells) {
            let w = choose|i: int|
                0 <= i < closed.len() && is_match(#[trigger] closed[i], g, cells);
            lemma_first_match_exists(closed, g, cells, w);
            let i = first_match(closed, g, cells);
            assert(closed[i].state@ == candidates[upto - 1]);
        } else {
            lemma_previous_among(open, closed, g, candidates, upto - 1);
            match previous_among(open, closed, g, candidates, upto - 1) {
                Some(node) => {
                    let k = choose|k: int|
                        0 <= k < upto - 1 && node.state@ == #[trigger] candidates[k];
                    assert(node.state@ == candidates[k]);
                },
                None => {},
            }
        }
    }
}

/// Where there is a match there is a first one.
pub proof fn lemma_first_match_exists(list: Seq<Node>, g: int, cells: Seq<usize>, w: int)
    requires
        0 <= w < list.len(),
        is_match(list[w], g, cells),
    ensures
        is_first_match(list, g, cells, first_match(list, g, cells)),
    decreases w,
{
    if forall|j: int| 0 <= j < w ==> !is_match(#[trigger] list[j], g, cells) {
        assert(is_first_match(list, g, cells, w));
    } else {
        let j = choose|j: int| 0 <= j < w && is_match(#[trigger] list[j], g, cells);
        lemma_first_match_exists(list, g, cells, j);
    }
}

/// The first node of the list that cost `g` steps and holds the cells of `state`.
fn find_match(list: &Vec<Node>, g: usize, state: &Puzzle) -> (found: Option<usize>)
    ensures
        found is Some <==> has_match(list@, g as int, state@),
        found is Some ==> found->0 == first_match(list@, g as int, state@) && found->0 < list@.len(),
{
    let mut i: usize = 0;
    while i < list.len()
        invariant
            i <= list@.len(),
            forall|j: int| 0 <= j < i ==> !is_match(#[trigger] list@[j], g as int, state@),
        decreases list@.len() - i,
    {
        if list[i].g_score == g && list[i].state == *state {
            proof {
                lemma_first_match_unique(list@, g as int, state@, i as int);
            }
            return Some(i);
        }
        i += 1;
    }
    None
}

/// Looks up a node from which one move leads to `curr_node`.
fn previous_of(curr_node: &Node, graph: &Graph) -> (found: Result<Node, PuzzleError>)
    requires
        curr_node.g_score > 0,
        curr_node.state.shaped(),
        has_value(curr_node.state@, 0),
    ensures
        match found {
            Ok(node) => previous_node(
                graph.open_list@,
                graph.closed_list@,
                curr_node.state@,
                curr_node.state.size,
                curr_node.g_score,
            ) is Some
                && node.same_as(
                previous_node(
                graph.open_list@,
                graph.closed_list@,
                curr_node.state@,
                curr_node.state.size,
                curr_node.g_score,
            )->0,
            ),
            Err(error) => error == PuzzleError::DeadEndInPath && previous_node(
                graph.open_list@,
                graph.closed_list@,
                curr_node.state@,
                curr_node.state.size,
                curr_node.g_score,
            ) is None,
        },
{
    let childs = Node::calculate_next_states(&curr_node.state);
    let ghost candidates = successors(curr_node.state@, curr_node.state.size as int);
    let g: usize = curr_node.g_score - 1;
    let mut k: usize = childs.len();
    while k > 0
        invariant
            k <= childs@.len(),
            g == curr_node.g_score - 1,
            candidates == successors(curr_node.state@, curr_node.state.size as int),
            childs@.len() == candidates.len(),
            forall|j: int| 0 <= j < childs@.len() ==> (#[trigger] childs@[j])@ == candidates[j],
            previous_among(
                graph.open_list@,
                graph.closed_list@,
                g as int,
                candidates,
                candidates.len() as int,
            ) == previous_among(graph.open_list@, graph.closed_list@, g as int, candidates, k as int),
        decreases k,
    {
        k -= 1;
        let child = &childs[k];
        match find_match(&graph.open_list, g, child) {
            Some(i) => {
                return Ok(graph.open_list[i].clone());
            },
            None => {},
        }
        match find_match(&graph.closed_list, g, child) {
            Some(i) => {
                return Ok(graph.closed_list[i].clone());
            },
            None => {},
        }
    }
    Err(PuzzleError::DeadEndInPath)
}

/// Walks back from `curr_node` as far as the lists lead, and tells whether the walk
/// reached a node that cost nothing.  The states come in the order of the moves.
pub fn walk(curr_node: &Node, graph: &Graph) -> (walked: (bool, Vec<Puzzle>))
    requires
        curr_node.state.shaped(),
        has_value(curr_node.state@, 0),
        all_movable(graph.open_list@, curr_node.state.size),
        all_movable(graph.closed_list@, curr_node.state.size),
    ensures
        walked.0 == walk_back(
            graph.open_list@,
            graph.closed_list@,
            curr_node.state@,
            curr_node.state.size,
            curr_node.g_score,
        ).0,
        walked.1@.len() == walk_back(
            graph.open_list@,
            graph.closed_list@,
            curr_node.state@,
            curr_node.state.size,
            curr_node.g_score,
        ).1.len(),
        forall|k: int|
            0 <= k < walked.1@.len() ==> (#[trigger] walked.1@[k])@ == walk_back(
                graph.open_list@,
                graph.closed_list@,
                curr_node.state@,
                curr_node.state.size,
                curr_node.g_score,
            ).1[k] && walked.1@[k].size == curr_node.state.size,
    decreases curr_node.g_score,
{
    let mut states: Vec<Puzzle> = Vec::new();
    let mut complete = true;
    if curr_node.g_score > 0 {
        proof {
            let candidates = successors(curr_node.state@, curr_node.state.size as int);
            lemma_previous_among(
                graph.open_list@,
                graph.closed_list@,
                curr_node.g_score - 1,
                candidates,
                candidates.len() as int,
            );
        }
        match previous_of(curr_node, graph) {
            Ok(previous) => {
                let before = walk(&previous, graph);
                complete = before.0;
                states = before.1;
            },
            Err(_) => {
                complete = false;
            },
        }
    }
    states.push(curr_node.state.clone());
    (complete, states)
}

/// The states from the start to `curr_node`, one for each move and the start.  Fails
/// where the walk back ends at a node that cost something and has no predecessor in
/// the lists.
pub fn retrieve_path(curr_node: &Node, graph: &Graph) -> (path: Result<Vec<Puzzle>, PuzzleError>)
    requires
        curr_node.state.shaped(),
        has_value(curr_node.state@, 0),
        all_movable(graph.open_list@, curr_node.state.size),
        all_movable(graph.closed_list@, curr_node.state.size),
    ensures
        path is Ok <==> walk_back(
            graph.open_list@,
            graph.closed_list@,
            curr_node.state@,
            curr_node.state.size,
            curr_node.g_score,
        ).0,
        path is Err ==> path->Err_0 == PuzzleError::DeadEndInPath,
        path is Ok ==> {
            &&& path->Ok_0@.len() == walk_back(
                graph.open_list@,
                graph.closed_list@,
                curr_node.state@,
                curr_node.state.size,
                curr_node.g_score,
            ).1.len()
            &&& forall|k: int|
                0 <= k < path->Ok_0@.len() ==> (#[trigger] path->Ok_0@[k])@ == walk_back(
                    graph.open_list@,
                    graph.closed_list@,
                    curr_node.state@,
                    curr_node.state.size,
                    curr_node.g_score,
                ).1[k] && path->Ok_0@[k].size == curr_node.state.size
        },
{
    let (complete, states) = walk(curr_node, graph);
    if complete {
        Ok(states)
    } else {
        Err(PuzzleError::DeadEndInPath)
    }
}

/// The text of the first `upto` states of a path: each board, and an empty line
/// after it.
pub open spec fn rendered_path(path: Seq<Seq<usize>>, size: int, upto: int) -> Seq<char>
    decreases upto,
{
    if upto <= 0 {
        Seq::empty()
    } else {
        rendered_path(path, size, upto - 1) + rendered(path[upto - 1], size).push('\n')
    }
}

/// The states that lead up to `curr_node`, as far back as the lists of `graph`
/// lead, written one after the other.
pub fn recursive_path(curr_node: &Node, graph: Graph) -> (text: String)
    requires
        curr_node.state.shaped(),
        has_value(curr_node.state@, 0),
        all_movable(graph.open_list@, curr_node.state.size),
        all_movable(graph.closed_list@, curr_node.state.size),
    ensures
        text@ == rendered_path(
            walk_back(
                graph.open_list@,
                graph.closed_list@,
                curr_node.state@,
                curr_node.state.size,
                curr_node.g_score,
            ).1,
            curr_node.state.size as int,
            walk_back(
                graph.open_list@,
                graph.closed_list@,
                curr_node.state@,
                curr_node.state.size,
                curr_node.g_score,
            ).1.len() as int,
        ),
{
    let ghost states = walk_back(
        graph.open_list@,
        graph.closed_list@,
        curr_node.state@,
        curr_node.state.size,
        curr_node.g_score,
    ).1;
    let ghost size = curr_node.state.size as int;
    proof {
        lemma_first_index_exists(curr_node.state@, 0);
        assert(size != 0) by (nonlinear_arith)
            requires
                curr_node.state@.len() == size * size,
                curr_node.state@.len() > 0,
        ;
    }
    let (_, path) = walk(curr_node, &graph);
    let mut text = String::new();
    let mut k: usize = 0;
    while k < path.len()
        invariant
            k <= path@.len(),
            size > 0,
            path@.len() == states.len(),
            forall|j: int|
                0 <= j < path@.len() ==> (#[trigger] path@[j])@ == states[j] && path@[j].size
                    == size,
            text@ == rendered_path(states, size, k as int),
        decreases path@.len() - k,
    {
        proof {
            reveal_strlit("\n");
        }
        let board = path[k].to_string();
        text.append(board.as_str());
        text.append("\n");
        assert(text@ =~= rendered_path(states, size, k + 1));
        k += 1;
    }
    text
}

/// The node that precedes `curr_node` on the way from the start: it lies one move
/// away, cost one step less, and stands in the frontier or among the expanded
/// nodes of `graph`.
pub fn select_previous_node(curr_node: Node, graph: Graph) -> (found: Result<Node, PuzzleError>)
    requires
        curr_node.g_score > 0,
        curr_node.state.shaped(),
        has_value(curr_node.state@, 0),
    ensures
        match found {
            Ok(node) => previous_node(
                graph.open_list@,
                graph.closed_list@,
                curr_node.state@,
                curr_node.state.size,
                curr_node.g_score,
            ) is Some
                && node.same_as(previous_node(
                graph.open_list@,
                graph.closed_list@,
                curr_node.state@,
                curr_node.state.size,
                curr_node.g_score,
            )->0),
            Err(error) => error == PuzzleError::DeadEndInPath && previous_node(
                graph.open_list@,
                graph.closed_list@,
                curr_node.state@,
                curr_node.state.size,
                curr_node.g_score,
            ) is None,
        },
{
    previous_of(&curr_node, &graph)
}

} // verus!

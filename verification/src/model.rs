//! Mathematical model of the grid and of every step of the search engine.
//!
//! Each executable operation of [`crate::nodes::Nodes`] is specified as a pure
//! function on [`GridModel`]; the contracts of the executable methods state
//! that the method performs exactly the corresponding model step. The whole
//! query, validation included, is the function [`spec_compute_path`], so any
//! two runs on equal inputs are provably equal.

use vstd::prelude::*;

use crate::node::NodeModel;
use crate::nodes::IterateOutcome;
use crate::PathError;

verus! {

/// Mathematical image of the whole grid: dimensions, the per-cell nodes, the
/// three distinguished indices and the three scratch lists.
#[verifier::ext_equal]
pub ghost struct GridModel {
    pub width: int,
    pub height: int,
    pub nodes: Seq<NodeModel>,
    pub departure: int,
    pub current: int,
    pub arrival: int,
    pub open: Seq<int>,
    pub closed: Seq<int>,
    pub children: Seq<int>,
}

/// The horizontal position of an index on a grid of the given width.
pub open spec fn pos_x(width: int, index: int) -> int {
    index % width
}

/// The vertical position of an index on a grid of the given width.
pub open spec fn pos_y(width: int, index: int) -> int {
    index / width
}

/// Every entry of `s` is a valid cell index for a grid of `len` cells.
pub open spec fn valid_indices(s: Seq<int>, len: int) -> bool {
    forall|k: int| 0 <= k < s.len() ==> 0 <= #[trigger] s[k] < len
}

/// How many nodes have been priced (a cost of `0` means unpriced).
pub open spec fn count_priced(nodes: Seq<NodeModel>) -> nat
    decreases nodes.len(),
{
    if nodes.len() == 0 {
        0
    } else {
        count_priced(nodes.drop_last()) + if nodes.last().cost != 0 {
            1nat
        } else {
            0nat
        }
    }
}

/// Well-formedness of a grid: bounded dimensions, a dense node array, valid
/// distinguished indices, valid and duplicate-free scratch lists with open
/// and closed disjoint, and every cost bounded by the pricing budget (each
/// node is priced at most once, and each pricing adds at most 14).
pub open spec fn grid_wf(g: GridModel) -> bool {
    &&& 1 <= g.width <= 10
    &&& 1 <= g.height <= 10
    &&& g.nodes.len() == g.width * g.height
    &&& 0 <= g.departure < g.nodes.len()
    &&& 0 <= g.current < g.nodes.len()
    &&& 0 <= g.arrival < g.nodes.len()
    &&& valid_indices(g.open, g.nodes.len() as int)
    &&& g.open.no_duplicates()
    &&& valid_indices(g.closed, g.nodes.len() as int)
    &&& g.closed.no_duplicates()
    &&& forall|k: int| 0 <= k < g.open.len() ==> !g.closed.contains(#[trigger] g.open[k])
    &&& valid_indices(g.children, g.nodes.len() as int)
    &&& forall|i: int|
        0 <= i < g.nodes.len() ==> 0 <= #[trigger] g.nodes[i].cost <= 14 * count_priced(g.nodes)
}

/// A grid with no priced node has a pricing count of zero.
pub proof fn lemma_count_priced_zero(nodes: Seq<NodeModel>)
    requires
        forall|i: int| 0 <= i < nodes.len() ==> (#[trigger] nodes[i]).cost == 0,
    ensures
        count_priced(nodes) == 0,
    decreases nodes.len(),
{
    if nodes.len() > 0 {
        lemma_count_priced_zero(nodes.drop_last());
    }
}

/// At most every node is priced.
pub proof fn lemma_count_priced_le_len(nodes: Seq<NodeModel>)
    ensures
        count_priced(nodes) <= nodes.len(),
    decreases nodes.len(),
{
    if nodes.len() > 0 {
        lemma_count_priced_le_len(nodes.drop_last());
    }
}

/// Pricing more nodes never lowers the pricing count.
pub proof fn lemma_count_priced_monotone(a: Seq<NodeModel>, b: Seq<NodeModel>)
    requires
        a.len() == b.len(),
        forall|i: int| 0 <= i < a.len() ==> ((#[trigger] a[i]).cost != 0 ==> b[i].cost != 0),
    ensures
        count_priced(a) <= count_priced(b),
    decreases a.len(),
{
    if a.len() > 0 {
        lemma_count_priced_monotone(a.drop_last(), b.drop_last());
    }
}

/// Pricing at least one previously unpriced node raises the pricing count.
pub proof fn lemma_count_priced_strict(a: Seq<NodeModel>, b: Seq<NodeModel>, j: int)
    requires
        a.len() == b.len(),
        forall|i: int| 0 <= i < a.len() ==> ((#[trigger] a[i]).cost != 0 ==> b[i].cost != 0),
        0 <= j < a.len(),
        a[j].cost == 0,
        b[j].cost != 0,
    ensures
        count_priced(a) + 1 <= count_priced(b),
    decreases a.len(),
{
    if j == a.len() - 1 {
        lemma_count_priced_monotone(a.drop_last(), b.drop_last());
    } else {
        lemma_count_priced_strict(a.drop_last(), b.drop_last(), j);
    }
}

/// The integer square root: the largest `r` with `r * r <= n`.
pub open spec fn spec_isqrt(n: int) -> int
    decreases n,
{
    if n <= 0 {
        0
    } else {
        let r = spec_isqrt(n - 1);
        if (r + 1) * (r + 1) <= n {
            r + 1
        } else {
            r
        }
    }
}

/// The integer square root is the exact truncation of the real square root:
/// its square is at most `n`, and the next square is beyond `n`.
pub proof fn lemma_isqrt_bounds(n: int)
    requires
        n >= 0,
    ensures
        0 <= spec_isqrt(n),
        spec_isqrt(n) * spec_isqrt(n) <= n,
        n < (spec_isqrt(n) + 1) * (spec_isqrt(n) + 1),
    decreases n,
{
    if n > 0 {
        lemma_isqrt_bounds(n - 1);
        let r = spec_isqrt(n - 1);
        if (r + 1) * (r + 1) <= n {
            assert(n == (r + 1) * (r + 1));
            assert((r + 1) * (r + 1) < (r + 2) * (r + 2)) by (nonlinear_arith)
                requires
                    r >= 0;
        }
    }
}

/// A value whose square is at most `n`, while the next square is beyond
/// `n`, is the integer square root of `n`.
pub proof fn lemma_isqrt_unique(n: int, r: int)
    requires
        n >= 0,
        r >= 0,
        r * r <= n,
        n < (r + 1) * (r + 1),
    ensures
        r == spec_isqrt(n),
{
    lemma_isqrt_bounds(n);
    let s = spec_isqrt(n);
    if r < s {
        assert((r + 1) * (r + 1) <= s * s) by (nonlinear_arith)
            requires
                0 <= r && r + 1 <= s;
    } else if s < r {
        assert((s + 1) * (s + 1) <= r * r) by (nonlinear_arith)
            requires
                0 <= s && s + 1 <= r;
    }
}

/// Two node arrays with equal costs have the same pricing count.
pub proof fn lemma_count_priced_equal(a: Seq<NodeModel>, b: Seq<NodeModel>)
    requires
        a.len() == b.len(),
        forall|i: int| 0 <= i < a.len() ==> (#[trigger] a[i]).cost == b[i].cost,
    ensures
        count_priced(a) == count_priced(b),
{
    lemma_count_priced_monotone(a, b);
    lemma_count_priced_monotone(b, a);
}

/// Changing only heuristics or backward pointers, or moving the current
/// index, keeps a grid well formed.
pub proof fn lemma_wf_same_costs(g1: GridModel, g2: GridModel)
    requires
        grid_wf(g1),
        g2.nodes.len() == g1.nodes.len(),
        forall|i: int| 0 <= i < g1.nodes.len() ==> (#[trigger] g2.nodes[i]).cost == g1.nodes[i].cost,
        g2.width == g1.width,
        g2.height == g1.height,
        g2.departure == g1.departure,
        g2.arrival == g1.arrival,
        0 <= g2.current < g2.nodes.len(),
        g2.open == g1.open,
        g2.closed == g1.closed,
        g2.children == g1.children,
    ensures
        grid_wf(g2),
{
    lemma_count_priced_equal(g1.nodes, g2.nodes);
}

/// The heuristic of a cell: the Euclidean distance to the arrival cell,
/// truncated toward zero.
pub open spec fn spec_heuristic(width: int, arrival: int, index: int) -> int {
    let dx = pos_x(width, arrival) - pos_x(width, index);
    let dy = pos_y(width, arrival) - pos_y(width, index);
    spec_isqrt(dx * dx + dy * dy)
}

/// Heuristic generation: every node receives its heuristic; nothing else
/// changes.
pub open spec fn spec_generate_heuristics(g: GridModel) -> GridModel {
    GridModel {
        nodes: Seq::new(
            g.nodes.len(),
            |i: int|
                NodeModel { heuristic: spec_heuristic(g.width, g.arrival, i), ..g.nodes[i] },
        ),
        ..g
    }
}

/// The neighbor candidates of a cell, in discovery order: left, right, the
/// top row (up, up-right, up-left), the bottom row (down, down-right,
/// down-left), each gated by the grid edges.
pub open spec fn spec_children(width: int, height: int, current: int) -> Seq<int> {
    let x = pos_x(width, current);
    let y = pos_y(width, current);
    let left = if x != 0 {
        seq![current - 1]
    } else {
        Seq::empty()
    };
    let right = if x != width - 1 {
        seq![current + 1]
    } else {
        Seq::empty()
    };
    let top = if y != 0 {
        seq![current - width] + (if x != width - 1 {
            seq![current - width + 1]
        } else {
            Seq::empty()
        }) + (if x != 0 {
            seq![current - width - 1]
        } else {
            Seq::empty()
        })
    } else {
        Seq::empty()
    };
    let bottom = if y != height - 1 {
        seq![current + width] + (if x != width - 1 {
            seq![current + width + 1]
        } else {
            Seq::empty()
        }) + (if x != 0 {
            seq![current + width - 1]
        } else {
            Seq::empty()
        })
    } else {
        Seq::empty()
    };
    left + right + top + bottom
}

/// Two cells are grid-adjacent: both in bounds, distinct, and at most one
/// row and one column apart.
pub open spec fn is_neighbor(width: int, height: int, a: int, b: int) -> bool {
    &&& 0 <= a < width * height
    &&& 0 <= b < width * height
    &&& a != b
    &&& -1 <= pos_x(width, a) - pos_x(width, b) <= 1
    &&& -1 <= pos_y(width, a) - pos_y(width, b) <= 1
}

/// Children generation: the children list becomes the neighbor candidates of
/// the current cell.
pub open spec fn spec_generate_children(g: GridModel) -> GridModel {
    GridModel { children: spec_children(g.width, g.height, g.current), ..g }
}

/// One pass over the children: each child that is not yet discovered, not
/// expanded and walkable is appended to the open list, in children order.
pub open spec fn spec_fill_open(
    open: Seq<int>,
    closed: Seq<int>,
    nodes: Seq<NodeModel>,
    children: Seq<int>,
) -> Seq<int>
    decreases children.len(),
{
    if children.len() == 0 {
        open
    } else {
        let c = children[0];
        let open2 = if open.contains(c) || closed.contains(c) || !nodes[c].usuable {
            open
        } else {
            open.push(c)
        };
        spec_fill_open(open2, closed, nodes, children.drop_first())
    }
}

/// Open-list update: the children are merged into the open list.
pub open spec fn spec_update_open_list(g: GridModel) -> GridModel {
    GridModel { open: spec_fill_open(g.open, g.closed, g.nodes, g.children), ..g }
}

/// The price of the move from the current cell to a cell: 10 when the index
/// offset is plus or minus one or one grid width (an orthogonal step), 14
/// otherwise (a diagonal step).
pub open spec fn spec_move_price(width: int, current: int, index: int) -> int {
    if index == current - 1 || index == current + 1 || index == current - width || index == current
        + width {
        10
    } else {
        14
    }
}

/// Cost pricing: every unpriced open-list member receives the current cell's
/// cost plus the move price. A node is priced at most once; prices are never
/// revised.
pub open spec fn spec_generate_costs(g: GridModel) -> GridModel {
    GridModel {
        nodes: Seq::new(
            g.nodes.len(),
            |i: int|
                if g.open.contains(i) && g.nodes[i].cost == 0 {
                    NodeModel {
                        cost: g.nodes[g.current].cost + spec_move_price(g.width, g.current, i),
                        ..g.nodes[i]
                    }
                } else {
                    g.nodes[i]
                },
        ),
        ..g
    }
}

/// The first open-list entry whose heuristic is exactly 1, scanning in list
/// order, if any.
pub open spec fn spec_first_terminal(nodes: Seq<NodeModel>, open: Seq<int>) -> Option<int>
    decreases open.len(),
{
    if open.len() == 0 {
        None
    } else if nodes[open[0]].heuristic == 1 {
        Some(open[0])
    } else {
        spec_first_terminal(nodes, open.drop_first())
    }
}

/// The open-list entry minimizing heuristic plus cost; on ties the earliest
/// entry wins. `None` when no entry beats the starting minimum.
pub open spec fn spec_scan_min(
    nodes: Seq<NodeModel>,
    open: Seq<int>,
    minimum: int,
    target: Option<int>,
) -> Option<int>
    decreases open.len(),
{
    if open.len() == 0 {
        target
    } else {
        let value = nodes[open[0]].heuristic + nodes[open[0]].cost;
        if value < minimum {
            spec_scan_min(nodes, open.drop_first(), value, Some(open[0]))
        } else {
            spec_scan_min(nodes, open.drop_first(), minimum, target)
        }
    }
}

/// The sequence with the first occurrence of `v` removed, if present.
pub open spec fn spec_remove_first(s: Seq<int>, v: int) -> Seq<int> {
    match s.index_of_first(v) {
        Some(i) => s.remove(i),
        None => s,
    }
}

/// Frontier iteration: a first open entry with heuristic 1 is selected as
/// the terminal and only becomes current; otherwise the open entry with the
/// least heuristic-plus-cost becomes current and moves from open to closed;
/// an empty frontier leaves the grid unchanged.
pub open spec fn spec_iterate(g: GridModel) -> (GridModel, IterateOutcome) {
    match spec_first_terminal(g.nodes, g.open) {
        Some(t) => (GridModel { current: t, ..g }, IterateOutcome::Terminal(t as usize)),
        None => match spec_scan_min(g.nodes, g.open, 0xffff, None) {
            Some(t) => (
                GridModel {
                    current: t,
                    open: spec_remove_first(g.open, t),
                    closed: g.closed.push(t),
                    ..g
                },
                IterateOutcome::Advanced,
            ),
            None => (g, IterateOutcome::Exhausted),
        },
    }
}

/// The child with the least nonzero cost, scanning in children order; on
/// ties the earliest child wins; children with cost 0 are ineligible.
pub open spec fn spec_backward_target(
    nodes: Seq<NodeModel>,
    children: Seq<int>,
    selected: int,
    minimum_cost: int,
) -> int
    decreases children.len(),
{
    if children.len() == 0 {
        selected
    } else {
        let c = children[0];
        if nodes[c].cost != 0 && nodes[c].cost < minimum_cost {
            spec_backward_target(nodes, children.drop_first(), c, nodes[c].cost)
        } else {
            spec_backward_target(nodes, children.drop_first(), selected, minimum_cost)
        }
    }
}

/// Backward-pointer assignment: the current node's offset points at the
/// departure when the departure is among the children, and otherwise at the
/// priced child with the least cost (at the departure when none is priced).
pub open spec fn spec_generate_backward_movement(g: GridModel) -> GridModel {
    let selected = if g.children.contains(g.departure) {
        g.departure
    } else {
        spec_backward_target(g.nodes, g.children, g.departure, 0xffff)
    };
    GridModel {
        nodes: g.nodes.update(
            g.current,
            NodeModel { backward_movement: selected - g.current, ..g.nodes[g.current] },
        ),
        ..g
    }
}

/// The expansion loop: update the open list, price costs, iterate, then
/// regenerate children and assign the backward pointer; it ends with the
/// terminal's index, or fails when the frontier or the fuel is exhausted.
pub open spec fn spec_search_loop(g: GridModel, fuel: nat) -> (GridModel, Result<int, PathError>)
    decreases fuel,
{
    if fuel == 0 {
        (g, Err(PathError::Unreachable))
    } else {
        let g1 = spec_generate_costs(spec_update_open_list(g));
        let step = spec_iterate(g1);
        match step.1 {
            IterateOutcome::Exhausted => (step.0, Err(PathError::Unreachable)),
            IterateOutcome::Terminal(t) => (
                spec_generate_backward_movement(spec_generate_children(step.0)),
                Ok(t as int),
            ),
            IterateOutcome::Advanced => spec_search_loop(
                spec_generate_backward_movement(spec_generate_children(step.0)),
                (fuel - 1) as nat,
            ),
        }
    }
}

/// The backward walk from a cell: each step adds the node's offset; it ends
/// just before the departure, and fails on an out-of-grid step or when the
/// fuel is exhausted.
pub open spec fn spec_walk(nodes: Seq<NodeModel>, departure: int, current: int, fuel: nat) -> Result<
    Seq<int>,
    PathError,
>
    decreases fuel,
{
    if fuel == 0 {
        Err(PathError::Unreachable)
    } else {
        let next = current + nodes[current].backward_movement;
        if !(0 <= next < nodes.len()) {
            Err(PathError::Unreachable)
        } else if next == departure {
            Ok(Seq::empty())
        } else {
            match spec_walk(nodes, departure, next, (fuel - 1) as nat) {
                Ok(rest) => Ok(seq![next] + rest),
                Err(e) => Err(e),
            }
        }
    }
}

/// The whole query on a prepared grid: a trivial empty path when departure
/// and arrival coincide; otherwise heuristics and children once, the
/// expansion loop, the arrival's backward pointer forced onto the terminal,
/// and the reversed backward walk from the arrival.
pub open spec fn spec_research_path(g: GridModel) -> (GridModel, Result<Seq<int>, PathError>) {
    if g.departure == g.arrival {
        (g, Ok(Seq::empty()))
    } else {
        let g0 = spec_generate_children(spec_generate_heuristics(g));
        let run = spec_search_loop(g0, (g.width * g.height) as nat);
        match run.1 {
            Err(e) => (run.0, Err(e)),
            Ok(t) => {
                let g2 = GridModel {
                    nodes: run.0.nodes.update(
                        run.0.arrival,
                        NodeModel {
                            backward_movement: t - run.0.arrival,
                            ..run.0.nodes[run.0.arrival]
                        },
                    ),
                    ..run.0
                };
                match spec_walk(g2.nodes, g2.departure, g2.arrival, g2.nodes.len() as nat) {
                    Ok(tail) => (g2, Ok((seq![g2.arrival] + tail).reverse())),
                    Err(e) => (g2, Err(e)),
                }
            },
        }
    }
}

/// The expansion loop never moves the grid's frame: dimensions, departure
/// and arrival are those of the starting grid.
pub proof fn lemma_search_loop_preserves_frame(g: GridModel, fuel: nat)
    ensures
        spec_search_loop(g, fuel).0.width == g.width,
        spec_search_loop(g, fuel).0.height == g.height,
        spec_search_loop(g, fuel).0.departure == g.departure,
        spec_search_loop(g, fuel).0.arrival == g.arrival,
    decreases fuel,
{
    if fuel > 0 {
        let g1 = spec_generate_costs(spec_update_open_list(g));
        let step = spec_iterate(g1);
        match step.1 {
            IterateOutcome::Exhausted => {},
            IterateOutcome::Terminal(t) => {},
            IterateOutcome::Advanced => {
                lemma_search_loop_preserves_frame(
                    spec_generate_backward_movement(spec_generate_children(step.0)),
                    (fuel - 1) as nat,
                );
            },
        }
    }
}

/// A freshly built grid: every node walkable and unpriced, the current index
/// at the departure, the closed list holding exactly the departure.
pub open spec fn spec_initial_grid(width: int, height: int, departure: int, arrival: int) -> GridModel {
    GridModel {
        width,
        height,
        nodes: Seq::new(
            (width * height) as nat,
            |i: int| NodeModel { heuristic: 0, cost: 0, usuable: true, backward_movement: 0 },
        ),
        departure,
        current: departure,
        arrival,
        open: Seq::empty(),
        closed: seq![departure],
        children: Seq::empty(),
    }
}

/// The grid with every obstacle cell marked unwalkable.
pub open spec fn spec_apply_obstacles(g: GridModel, obstacles: Seq<int>) -> GridModel {
    GridModel {
        nodes: Seq::new(
            g.nodes.len(),
            |i: int|
                if obstacles.contains(i) {
                    NodeModel { usuable: false, ..g.nodes[i] }
                } else {
                    g.nodes[i]
                },
        ),
        ..g
    }
}

/// The mathematical image of a query result: the path as a sequence of cell
/// indices, or the error unchanged.
pub open spec fn path_result_view(r: Result<Vec<usize>, PathError>) -> Result<
    Seq<int>,
    PathError,
> {
    match r {
        Ok(v) => Ok(v@.map_values(|x: usize| x as int)),
        Err(e) => Err(e),
    }
}

/// The first open entry with heuristic 1, when there is one, lies in the
/// open list.
pub proof fn lemma_first_terminal_in_open(nodes: Seq<NodeModel>, open: Seq<int>)
    ensures
        match spec_first_terminal(nodes, open) {
            Some(t) => open.contains(t),
            None => true,
        },
    decreases open.len(),
{
    if open.len() > 0 {
        if nodes[open[0]].heuristic == 1 {
            assert(open[0] == open[0]);
        } else {
            lemma_first_terminal_in_open(nodes, open.drop_first());
            match spec_first_terminal(nodes, open.drop_first()) {
                Some(t) => {
                    let j = choose|j: int|
                        0 <= j < open.drop_first().len() && open.drop_first()[j] == t;
                    assert(open[j + 1] == t);
                },
                None => {},
            }
        }
    }
}

/// Extending a prefix by one entry extends exactly what it holds.
pub proof fn lemma_take_push_contains(s: Seq<int>, k: int, x: int)
    requires
        0 <= k < s.len(),
        s[k] == x,
    ensures
        forall|i: int|
            #![trigger s.take(k + 1).contains(i)]
            s.take(k + 1).contains(i) <==> (s.take(k).contains(i) || i == x),
{
    let t0 = s.take(k);
    let t1 = s.take(k + 1);
    assert(t1[k] == x);
    assert forall|i: int| #![trigger t1.contains(i)] t1.contains(i) <==> (t0.contains(i) || i
        == x) by {
        if t1.contains(i) {
            let j = choose|j: int| 0 <= j < t1.len() && t1[j] == i;
            if j < k {
                assert(t0[j] == i);
            }
        }
        if t0.contains(i) {
            let j = choose|j: int| 0 <= j < t0.len() && t0[j] == i;
            assert(t1[j] == i);
        }
        if i == x {
            assert(t1[k] == i);
        }
    }
}

/// The whole query from plain inputs: explicit validation, then the search
/// on a fresh grid with the obstacles applied.
pub open spec fn spec_compute_path(
    width: int,
    height: int,
    departure: int,
    arrival: int,
    obstacles: Seq<int>,
) -> Result<Seq<int>, PathError> {
    if !(1 <= width <= 10 && 1 <= height <= 10) {
        Err(PathError::InvalidDimensions)
    } else if !(0 <= departure < width * height && 0 <= arrival < width * height) {
        Err(PathError::InvalidIndex)
    } else if exists|k: int|
        0 <= k < obstacles.len() && !(0 <= #[trigger] obstacles[k] < width * height) {
        Err(PathError::InvalidIndex)
    } else {
        spec_research_path(
            spec_apply_obstacles(spec_initial_grid(width, height, departure, arrival), obstacles),
        ).1
    }
}

} // verus!

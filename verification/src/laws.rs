//! The library's laws: properties of the search model that hold on all
//! inputs, proved once and for all.

use vstd::prelude::*;

use crate::model::{
    is_neighbor, lemma_isqrt_bounds, lemma_search_loop_preserves_frame, pos_x, pos_y,
    spec_children, spec_compute_path, spec_generate_children, spec_generate_heuristics,
    spec_heuristic, spec_research_path, spec_search_loop, spec_walk, GridModel,
};
use crate::node::NodeModel;
use crate::PathError;
use vstd::arithmetic::div_mod::{
    lemma_div_pos_is_pos, lemma_fundamental_div_mod, lemma_fundamental_div_mod_converse,
    lemma_multiply_divide_lt,
};

verus! {

/// A concatenation holds a value exactly when one of its parts does.
proof fn lemma_concat_contains(a: Seq<int>, b: Seq<int>, v: int)
    ensures
        (a + b).contains(v) <==> (a.contains(v) || b.contains(v)),
{
    if (a + b).contains(v) {
        let j = choose|j: int| 0 <= j < (a + b).len() && (a + b)[j] == v;
        if j < a.len() {
            assert(a[j] == v);
        } else {
            assert(b[j - a.len()] == v);
        }
    }
    if a.contains(v) {
        let j = choose|j: int| 0 <= j < a.len() && a[j] == v;
        assert((a + b)[j] == v);
    }
    if b.contains(v) {
        let j = choose|j: int| 0 <= j < b.len() && b[j] == v;
        assert((a + b)[j + a.len()] == v);
    }
}

/// A one-element sequence holds exactly its element.
proof fn lemma_singleton_contains(e: int, v: int)
    ensures
        seq![e].contains(v) <==> v == e,
{
    if seq![e].contains(v) {
        let j = choose|j: int| 0 <= j < seq![e].len() && seq![e][j] == v;
    }
    if v == e {
        assert(seq![e][0] == v);
    }
}

/// Membership in the children list, spelled out: one of the eight gated
/// offsets around the current cell.
proof fn lemma_children_membership(width: int, height: int, current: int, j: int)
    requires
        1 <= width,
        1 <= height,
    ensures
        ({
            let x = pos_x(width, current);
            let y = pos_y(width, current);
            spec_children(width, height, current).contains(j) <==> {
                ||| (x != 0 && j == current - 1)
                ||| (x != width - 1 && j == current + 1)
                ||| (y != 0 && j == current - width)
                ||| (y != 0 && x != width - 1 && j == current - width + 1)
                ||| (y != 0 && x != 0 && j == current - width - 1)
                ||| (y != height - 1 && j == current + width)
                ||| (y != height - 1 && x != width - 1 && j == current + width + 1)
                ||| (y != height - 1 && x != 0 && j == current + width - 1)
            }
        }),
{
    let w = width;
    let h = height;
    let c = current;
    let x = pos_x(w, c);
    let y = pos_y(w, c);
    let left: Seq<int> = if x != 0 {
        seq![c - 1]
    } else {
        Seq::<int>::empty()
    };
    let right: Seq<int> = if x != w - 1 {
        seq![c + 1]
    } else {
        Seq::<int>::empty()
    };
    let t2: Seq<int> = if x != w - 1 {
        seq![c - w + 1]
    } else {
        Seq::<int>::empty()
    };
    let t3: Seq<int> = if x != 0 {
        seq![c - w - 1]
    } else {
        Seq::<int>::empty()
    };
    let top: Seq<int> = if y != 0 {
        seq![c - w] + t2 + t3
    } else {
        Seq::<int>::empty()
    };
    let b2: Seq<int> = if x != w - 1 {
        seq![c + w + 1]
    } else {
        Seq::<int>::empty()
    };
    let b3: Seq<int> = if x != 0 {
        seq![c + w - 1]
    } else {
        Seq::<int>::empty()
    };
    let bottom: Seq<int> = if y != h - 1 {
        seq![c + w] + b2 + b3
    } else {
        Seq::<int>::empty()
    };
    assert(spec_children(w, h, c) == left + right + top + bottom);
    lemma_concat_contains(left + right + top, bottom, j);
    lemma_concat_contains(left + right, top, j);
    lemma_concat_contains(left, right, j);
    if y != 0 {
        lemma_concat_contains(seq![c - w] + t2, t3, j);
        lemma_concat_contains(seq![c - w], t2, j);
    }
    if y != h - 1 {
        lemma_concat_contains(seq![c + w] + b2, b3, j);
        lemma_concat_contains(seq![c + w], b2, j);
    }
    lemma_singleton_contains(c - 1, j);
    lemma_singleton_contains(c + 1, j);
    lemma_singleton_contains(c - w, j);
    lemma_singleton_contains(c - w + 1, j);
    lemma_singleton_contains(c - w - 1, j);
    lemma_singleton_contains(c + w, j);
    lemma_singleton_contains(c + w + 1, j);
    lemma_singleton_contains(c + w - 1, j);
}

/// Every entry of the children list is a grid neighbor of the current cell.
proof fn lemma_child_entry_is_neighbor(width: int, height: int, current: int, j: int)
    requires
        1 <= width,
        1 <= height,
        0 <= current < width * height,
        spec_children(width, height, current).contains(j),
    ensures
        is_neighbor(width, height, current, j),
{
    let w = width;
    let h = height;
    let c = current;
    let x = pos_x(w, c);
    let y = pos_y(w, c);
    lemma_fundamental_div_mod(c, w);
    lemma_div_pos_is_pos(c, w);
    lemma_multiply_divide_lt(c, w, h);
    assert(c == y * w + x) by (nonlinear_arith)
        requires
            c == w * (c / w) + c % w && x == c % w && y == c / w;
    lemma_children_membership(w, h, c, j);
    assert(y * w >= 0) by (nonlinear_arith)
        requires
            y >= 0 && w >= 0;
    if x != 0 {
        lemma_fundamental_div_mod_converse(c - 1, w, y, x - 1);
    }
    if x != w - 1 {
        assert(y * w + (x + 1) <= w * h - 1) by (nonlinear_arith)
            requires
                0 <= y <= h - 1 && 0 <= x + 1 <= w - 1 && w >= 1;
        lemma_fundamental_div_mod_converse(c + 1, w, y, x + 1);
    }
    if y != 0 {
        assert((y - 1) * w == y * w - w && (y - 1) * w >= 0) by (nonlinear_arith)
            requires
                y >= 1 && w >= 1;
        lemma_fundamental_div_mod_converse(c - w, w, y - 1, x);
        if x != w - 1 {
            lemma_fundamental_div_mod_converse(c - w + 1, w, y - 1, x + 1);
        }
        if x != 0 {
            lemma_fundamental_div_mod_converse(c - w - 1, w, y - 1, x - 1);
        }
    }
    if y != h - 1 {
        assert((y + 1) * w == y * w + w) by (nonlinear_arith);
        assert((y + 1) * w + (w - 1) <= w * h - 1) by (nonlinear_arith)
            requires
                0 <= y + 1 <= h - 1 && w >= 1;
        lemma_fundamental_div_mod_converse(c + w, w, y + 1, x);
        if x != w - 1 {
            lemma_fundamental_div_mod_converse(c + w + 1, w, y + 1, x + 1);
        }
        if x != 0 {
            lemma_fundamental_div_mod_converse(c + w - 1, w, y + 1, x - 1);
        }
    }
}

/// Every grid neighbor of the current cell is an entry of its children
/// list.
proof fn lemma_neighbor_is_child_entry(width: int, height: int, current: int, j: int)
    requires
        1 <= width,
        1 <= height,
        0 <= current < width * height,
        is_neighbor(width, height, current, j),
    ensures
        spec_children(width, height, current).contains(j),
{
    let w = width;
    let h = height;
    let c = current;
    let x = pos_x(w, c);
    let y = pos_y(w, c);
    let xj = pos_x(w, j);
    let yj = pos_y(w, j);
    lemma_fundamental_div_mod(c, w);
    lemma_div_pos_is_pos(c, w);
    lemma_multiply_divide_lt(c, w, h);
    lemma_fundamental_div_mod(j, w);
    lemma_div_pos_is_pos(j, w);
    lemma_multiply_divide_lt(j, w, h);
    assert(c == y * w + x && j == yj * w + xj) by (nonlinear_arith)
        requires
            c == w * (c / w) + c % w && x == c % w && y == c / w && j == w * (j / w) + j % w && xj
                == j % w && yj == j / w;
    assert(j - c == (yj - y) * w + (xj - x)) by (nonlinear_arith)
        requires
            c == y * w + x && j == yj * w + xj;
    lemma_children_membership(w, h, c, j);
    let dyv = yj - y;
    if dyv == -1 {
        assert(dyv * w == -w) by (nonlinear_arith)
            requires
                dyv == -1;
    } else if dyv == 0 {
        assert(dyv * w == 0) by (nonlinear_arith)
            requires
                dyv == 0;
    } else {
        assert(dyv == 1);
        assert(dyv * w == w) by (nonlinear_arith)
            requires
                dyv == 1;
    }
    if yj == y && xj == x {
        assert(j == c);
        assert(false);
    }
}

/// The children of a cell are exactly its grid neighbors: every candidate
/// that the enumeration produces is an in-bounds cell at most one column
/// and one row away from the current cell, and every such cell is
/// produced.
pub proof fn lemma_children_are_exactly_neighbors(width: int, height: int, current: int)
    requires
        1 <= width,
        1 <= height,
        0 <= current < width * height,
    ensures
        forall|j: int|
            #[trigger] spec_children(width, height, current).contains(j) <==> is_neighbor(
                width,
                height,
                current,
                j,
            ),
{
    assert forall|j: int|
        #[trigger] spec_children(width, height, current).contains(j) <==> is_neighbor(
            width,
            height,
            current,
            j,
        ) by {
        if spec_children(width, height, current).contains(j) {
            lemma_child_entry_is_neighbor(width, height, current, j);
        }
        if is_neighbor(width, height, current, j) {
            lemma_neighbor_is_child_entry(width, height, current, j);
        }
    }
}

/// The heuristic of any cell, toward any arrival cell, is the Euclidean
/// distance truncated toward zero: writing `dx` and `dy` for the coordinate
/// differences, the heuristic is the greatest integer whose square does not
/// pass `dx * dx + dy * dy`.
pub proof fn lemma_heuristic_truncated_euclidean(width: int, arrival: int, index: int)
    ensures
        ({
            let h = spec_heuristic(width, arrival, index);
            let dx = pos_x(width, arrival) - pos_x(width, index);
            let dy = pos_y(width, arrival) - pos_y(width, index);
            0 <= h && h * h <= dx * dx + dy * dy && dx * dx + dy * dy < (h + 1) * (h + 1)
        }),
{
    let dx = pos_x(width, arrival) - pos_x(width, index);
    let dy = pos_y(width, arrival) - pos_y(width, index);
    assert(dx * dx >= 0 && dy * dy >= 0) by (nonlinear_arith);
    lemma_isqrt_bounds(dx * dx + dy * dy);
}

/// A found route leads to the arrival: when a search on any grid returns a
/// path, that path is the empty sequence exactly when departure and arrival
/// coincide, and otherwise its last element is the arrival cell.
pub proof fn lemma_found_path_ends_at_arrival(g: GridModel)
    ensures
        match spec_research_path(g).1 {
            Ok(s) => if g.departure == g.arrival {
                s == Seq::<int>::empty()
            } else {
                s.len() >= 1 && s[s.len() - 1] == g.arrival
            },
            Err(_) => true,
        },
{
    if g.departure != g.arrival {
        let g0 = spec_generate_children(spec_generate_heuristics(g));
        lemma_search_loop_preserves_frame(g0, (g.width * g.height) as nat);
        let run = spec_search_loop(g0, (g.width * g.height) as nat);
        match run.1 {
            Err(e) => {},
            Ok(t) => {
                let g2 = GridModel {
                    nodes: run.0.nodes.update(
                        run.0.arrival,
                        NodeModel {
                            backward_movement: t - run.0.arrival,
                            ..run.0.nodes[run.0.arrival]
                        },
                    ),
                    ..run.0
                };
                match spec_walk(g2.nodes, g2.departure, g2.arrival, g2.nodes.len() as nat) {
                    Ok(tail) => {
                        let pre = seq![g2.arrival] + tail;
                        assert(pre.reverse()[pre.len() - 1] == pre[0]);
                        assert(pre[0] == g.arrival);
                    },
                    Err(e) => {},
                }
            },
        }
    }
}

/// Determinism: the contract of [`crate::compute_path`] pins its result to a
/// function of the plain inputs alone, so any two results that the contract
/// admits for equal inputs — in particular, the results of two independent
/// runs — are the same sequence, or the same error.
pub proof fn lemma_compute_path_deterministic(
    width: int,
    height: int,
    departure: int,
    arrival: int,
    obstacles: Seq<int>,
    first: Result<Seq<int>, PathError>,
    second: Result<Seq<int>, PathError>,
)
    requires
        first == spec_compute_path(width, height, departure, arrival, obstacles),
        second == spec_compute_path(width, height, departure, arrival, obstacles),
    ensures
        first == second,
{
}

} // verus!

//! A grid path-search engine: a best-first search over a small rectangular
//! 8-connected grid, with fixed move prices (10 orthogonal, 14 diagonal),
//! first-discoverer cost assignment, and backward-pointer path reconstruction.

use vstd::prelude::*;

use crate::node::NodeModel;

pub mod laws;
pub mod model;
pub mod node;
pub mod nodes;
pub mod utils;

verus! {

/// Why a query could not be answered.
#[derive(Clone, Copy, PartialEq, Eq, Debug)]
pub enum PathError {
    /// A dimension lies outside `1..=10`.
    InvalidDimensions,
    /// The departure, arrival or an obstacle index lies outside the grid.
    InvalidIndex,
    /// The search ended without reaching a cell next to the arrival.
    Unreachable,
}

/// Computes a route between two cells of a freshly built grid: the inputs
/// are validated explicitly, the obstacles are marked, and one search runs
/// to completion. The result is the ordered sequence of cell indices from
/// the departure's side to the arrival (the departure itself is not
/// included), or the error that names what failed.
#[verifier::loop_isolation(false)]
pub fn compute_path(
    width: u8,
    height: u8,
    departure: usize,
    arrival: usize,
    obstacles: &Vec<usize>,
) -> (result: Result<Vec<usize>, PathError>)
    ensures
        crate::model::path_result_view(result) == crate::model::spec_compute_path(
            width as int,
            height as int,
            departure as int,
            arrival as int,
            obstacles@.map_values(|x: usize| x as int),
        ),
{
    let ghost obstacle_seq = obstacles@.map_values(|x: usize| x as int);
    if width < 1 || width > 10 || height < 1 || height > 10 {
        return Err(PathError::InvalidDimensions);
    }
    proof {
        assert(width * height <= 100) by (nonlinear_arith)
            requires
                1 <= width <= 10 && 1 <= height <= 10;
    }
    let cells: usize = (width as usize) * (height as usize);
    if departure >= cells || arrival >= cells {
        return Err(PathError::InvalidIndex);
    }
    let mut checked: usize = 0;
    while checked < obstacles.len()
        invariant
            checked <= obstacle_seq.len(),
            forall|j: int| 0 <= j < checked ==> 0 <= #[trigger] obstacle_seq[j] < cells,
        decreases obstacle_seq.len() - checked,
    {
        if obstacles[checked] >= cells {
            proof {
                assert(obstacle_seq[checked as int] == obstacles@[checked as int] as int);
            }
            return Err(PathError::InvalidIndex);
        }
        checked = checked + 1;
    }
    let mut nodes = crate::nodes::Nodes::new(width, height, departure, arrival);
    let ghost initial = nodes@;
    proof {
        assert(obstacle_seq.take(0) =~= Seq::<int>::empty());
    }
    let mut applied: usize = 0;
    while applied < obstacles.len()
        invariant
            applied <= obstacle_seq.len(),
            forall|j: int| 0 <= j < obstacle_seq.len() ==> 0 <= #[trigger] obstacle_seq[j] < cells,
            nodes@.width == initial.width,
            nodes@.height == initial.height,
            nodes@.departure == initial.departure,
            nodes@.current == initial.current,
            nodes@.arrival == initial.arrival,
            nodes@.open == initial.open,
            nodes@.closed == initial.closed,
            nodes@.children == initial.children,
            nodes@.nodes.len() == initial.nodes.len(),
            cells == initial.nodes.len(),
            forall|i: int|
                0 <= i < initial.nodes.len() ==> #[trigger] nodes@.nodes[i] == (
                if obstacle_seq.take(applied as int).contains(i) {
                    NodeModel { usuable: false, ..initial.nodes[i] }
                } else {
                    initial.nodes[i]
                }),
        decreases obstacle_seq.len() - applied,
    {
        let wall = obstacles[applied];
        let ghost before = nodes@.nodes;
        proof {
            assert(obstacle_seq[applied as int] == wall as int);
        }
        nodes.get_node_by_index(wall).set_unusuable();
        proof {
            crate::model::lemma_take_push_contains(obstacle_seq, applied as int, wall as int);
            assert(nodes@.nodes =~= before.update(
                wall as int,
                NodeModel { usuable: false, ..before[wall as int] },
            ));
        }
        applied = applied + 1;
    }
    proof {
        assert(obstacle_seq.take(obstacle_seq.len() as int) =~= obstacle_seq);
        assert(nodes@.nodes =~= crate::model::spec_apply_obstacles(initial, obstacle_seq).nodes);
        assert(nodes@ =~= crate::model::spec_apply_obstacles(initial, obstacle_seq));
        crate::model::lemma_wf_same_costs(initial, nodes@);
    }
    nodes.research_path()
}

/// Returns the horizontal and vertical positions of an index on a grid of
/// the given width.
pub fn get_positions(width: u8, index: u8) -> (r: (u8, u8))
    requires
        width >= 1,
    ensures
        r.0 == index % width,
        r.1 == index / width,
{
    (index % width, index / width)
}

} // verus!

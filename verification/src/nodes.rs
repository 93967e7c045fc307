//! Module that contains the grid structure and its implementation.

use vstd::prelude::*;

use crate::model::{
    count_priced, grid_wf, lemma_isqrt_unique, lemma_wf_same_costs, path_result_view,
    spec_backward_target, spec_children, spec_fill_open, spec_first_terminal,
    spec_generate_backward_movement, spec_generate_children, spec_generate_costs,
    spec_generate_heuristics, spec_heuristic, spec_initial_grid, spec_isqrt, spec_iterate,
    spec_move_price, spec_research_path, spec_scan_min, spec_search_loop, spec_update_open_list,
    spec_walk, GridModel,
};
use crate::node::{Node, NodeModel};
use crate::PathError;

verus! {

/// The integer square root, by counting up to the last root whose square
/// does not pass the operand.
fn isqrt(n: u16) -> (r: u8)
    requires
        n <= 200,
    ensures
        r as int == spec_isqrt(n as int),
{
    let mut r: u8 = 0;
    loop
        invariant
            n <= 200,
            r <= 14,
            (r as int) * (r as int) <= n as int,
        ensures
            (r as int) * (r as int) <= n as int,
            (n as int) < (r as int + 1) * (r as int + 1),
        decreases 15 - r as int,
    {
        proof {
            assert(((r + 1) as int) * ((r + 1) as int) <= 225) by (nonlinear_arith)
                requires
                    r <= 14;
        }
        let next = (r as u16 + 1) * (r as u16 + 1);
        if next > n {
            break ;
        }
        r = r + 1;
        proof {
            assert(r <= 14) by (nonlinear_arith)
                requires
                    (r as int) * (r as int) <= 200 && r >= 1;
        }
    }
    proof {
        lemma_isqrt_unique(n as int, r as int);
    }
    r
}

/// Whether a list of cell indices holds the given value.
fn list_contains(list: &Vec<usize>, value: usize) -> (r: bool)
    ensures
        r == list@.map_values(|x: usize| x as int).contains(value as int),
{
    let ghost mapped = list@.map_values(|x: usize| x as int);
    let mut k: usize = 0;
    while k < list.len()
        invariant
            k <= list@.len(),
            mapped == list@.map_values(|x: usize| x as int),
            forall|j: int| 0 <= j < k ==> #[trigger] mapped[j] != value as int,
        decreases list@.len() - k,
    {
        if list[k] == value {
            proof {
                assert(mapped[k as int] == value as int);
            }
            return true;
        }
        k = k + 1;
    }
    false
}

/// What one frontier iteration did: selected a terminal (a cell next to the
/// arrival), advanced the current cell, or found the frontier empty.
#[derive(Clone, Copy, PartialEq, Eq, Debug)]
pub enum IterateOutcome {
    /// A cell with heuristic 1 was selected; the search is over.
    Terminal(usize),
    /// The cheapest open cell became current and was closed.
    Advanced,
    /// The open list is empty: no cell is left to expand.
    Exhausted,
}

/// Grid that contains all the nodes.
pub struct Nodes {
    width: u8,
    height: u8,
    nodes: Vec<Node>,
    departure_index: usize,
    current_index: usize,
    arrival_index: usize,
    open_list: Vec<usize>,
    closed_list: Vec<usize>,
    children_list: Vec<usize>,
}

impl View for Nodes {
    type V = GridModel;

    closed spec fn view(&self) -> GridModel {
        GridModel {
            width: self.width as int,
            height: self.height as int,
            nodes: self.nodes@.map_values(|n: Node| n@),
            departure: self.departure_index as int,
            current: self.current_index as int,
            arrival: self.arrival_index as int,
            open: self.open_list@.map_values(|v: usize| v as int),
            closed: self.closed_list@.map_values(|v: usize| v as int),
            children: self.children_list@.map_values(|v: usize| v as int),
        }
    }
}

impl Nodes {
    /// The grid's invariant, stated on its mathematical image.
    pub open spec fn wf(&self) -> bool {
        grid_wf(self@)
    }

    /// Constructor for a new Nodes object: a fresh grid of walkable,
    /// unpriced nodes, with the closed list holding only the departure.
    #[verifier::loop_isolation(false)]
    pub fn new(width: u8, height: u8, departure: usize, arrival: usize) -> (r: Nodes)
        requires
            1 <= width <= 10,
            1 <= height <= 10,
            departure < width * height,
            arrival < width * height,
        ensures
            r@ == spec_initial_grid(width as int, height as int, departure as int, arrival as int),
            r.wf(),
    {
        proof {
            assert(width * height <= 100) by (nonlinear_arith)
                requires
                    1 <= width <= 10 && 1 <= height <= 10;
        }
        let mut nodes: Vec<Node> = Vec::new();
        let indices: u16 = (width as u16) * (height as u16);
        let mut counter: u16 = 0;
        while counter < indices
            invariant
                counter <= indices,
                nodes@.len() == counter,
                forall|j: int|
                    0 <= j < counter ==> (#[trigger] nodes@[j])@ == (NodeModel {
                        heuristic: 0,
                        cost: 0,
                        usuable: true,
                        backward_movement: 0,
                    }),
            decreases indices - counter,
        {
            nodes.push(Node::new());
            counter = counter + 1;
        }
        let r = Nodes {
            width,
            height,
            nodes,
            departure_index: departure,
            current_index: departure,
            arrival_index: arrival,
            open_list: Vec::new(),
            closed_list: vec![departure],
            children_list: Vec::new(),
        };
        proof {
            let m = spec_initial_grid(
                width as int,
                height as int,
                departure as int,
                arrival as int,
            );
            assert(r@.nodes =~= m.nodes);
            assert(r@.open =~= m.open);
            assert(r@.closed =~= m.closed);
            assert(r@.children =~= m.children);
            assert(r@ =~= m);
            crate::model::lemma_count_priced_zero(m.nodes);
        }
        r
    }

    /// Generate the heuristics of every node from departure and arrival:
    /// each cell receives the truncated Euclidean distance to the arrival.
    #[verifier::loop_isolation(false)]
    pub fn generate_heuristics(&mut self)
        requires
            old(self).wf(),
        ensures
            final(self)@ == spec_generate_heuristics(old(self)@),
            final(self).wf(),
    {
        let (arrival_x, arrival_y) = self.get_positions(self.arrival_index);
        let total = self.nodes.len();
        let mut counter: usize = 0;
        while counter < total
            invariant
                counter <= total,
                total == self@.nodes.len(),
                self@.width == old(self)@.width,
                self@.height == old(self)@.height,
                self@.departure == old(self)@.departure,
                self@.current == old(self)@.current,
                self@.arrival == old(self)@.arrival,
                self@.open == old(self)@.open,
                self@.closed == old(self)@.closed,
                self@.children == old(self)@.children,
                self@.nodes.len() == old(self)@.nodes.len(),
                forall|j: int|
                    0 <= j < counter ==> #[trigger] self@.nodes[j] == (NodeModel {
                        heuristic: spec_heuristic(old(self)@.width, old(self)@.arrival, j),
                        ..old(self)@.nodes[j]
                    }),
                forall|j: int|
                    counter <= j < total ==> #[trigger] self@.nodes[j] == old(self)@.nodes[j],
            decreases total - counter,
        {
            let (node_x, node_y) = self.get_positions(counter);
            let dx = arrival_x as i16 - node_x as i16;
            let dy = arrival_y as i16 - node_y as i16;
            proof {
                assert(0 <= dx * dx <= 100 && 0 <= dy * dy <= 100) by (nonlinear_arith)
                    requires
                        -10 <= dx <= 10 && -10 <= dy <= 10;
            }
            let squared = (dx * dx + dy * dy) as u16;
            let heuristic = isqrt(squared);
            self.get_node_by_index(counter).set_heuristic(heuristic);
            counter = counter + 1;
        }
        proof {
            assert(self@.nodes =~= spec_generate_heuristics(old(self)@).nodes);
            assert(self@ =~= spec_generate_heuristics(old(self)@));
            lemma_wf_same_costs(old(self)@, self@);
        }
    }

    /// Generates the list of children for the current index: the in-bounds
    /// neighbors of the current cell, in discovery order.
    #[verifier::rlimit(50)]
    pub fn generate_children_list(&mut self)
        requires
            old(self).wf(),
        ensures
            final(self)@ == spec_generate_children(old(self)@),
            final(self).wf(),
    {
        let mut children: Vec<usize> = Vec::new();
        let (horizontal_position, vertical_position) = self.get_positions(self.current_index);
        proof {
            vstd::arithmetic::div_mod::lemma_fundamental_div_mod(self@.current, self@.width);
        }
        let ghost w = self@.width;
        let ghost h = self@.height;
        let ghost c = self@.current;
        let ghost x = crate::model::pos_x(w, c);
        let ghost y = crate::model::pos_y(w, c);
        proof {
            assert(c == y * w + x) by (nonlinear_arith)
                requires
                    c == w * (c / w) + c % w && x == c % w && y == c / w;
            assert((y - 1) * w == y * w - w && (y + 1) * w == y * w + w) by (nonlinear_arith);
        }
        let ghost left: Seq<int> = if x != 0 { seq![c - 1] } else { Seq::<int>::empty() };
        let ghost right: Seq<int> = if x != w - 1 { seq![c + 1] } else { Seq::<int>::empty() };
        let ghost top: Seq<int> = if y != 0 {
            seq![c - w] + (if x != w - 1 { seq![c - w + 1] } else { Seq::<int>::empty() }) + (
            if x != 0 { seq![c - w - 1] } else { Seq::<int>::empty() })
        } else { Seq::<int>::empty() };
        let ghost bottom: Seq<int> = if y != h - 1 {
            seq![c + w] + (if x != w - 1 { seq![c + w + 1] } else { Seq::<int>::empty() }) + (
            if x != 0 { seq![c + w - 1] } else { Seq::<int>::empty() })
        } else { Seq::<int>::empty() };
        if horizontal_position != 0 {
            children.push(
                self.get_index_from_positions(horizontal_position - 1, vertical_position),
            );
        }
        proof {
            assert(children@.map_values(|v: usize| v as int) =~= left);
        }
        if horizontal_position != self.width - 1 {
            children.push(
                self.get_index_from_positions(horizontal_position + 1, vertical_position),
            );
        }
        proof {
            assert(children@.map_values(|v: usize| v as int) =~= left + right);
        }
        if vertical_position != 0 {
            children.push(
                self.get_index_from_positions(horizontal_position, vertical_position - 1),
            );
            proof {
                assert(children@.map_values(|v: usize| v as int) =~= left + right + seq![c - w]);
            }
            if horizontal_position != self.width - 1 {
                children.push(
                    self.get_index_from_positions(horizontal_position + 1, vertical_position - 1),
                );
            }
            proof {
                assert(children@.map_values(|v: usize| v as int) =~= left + right + seq![c - w]
                    + (if x != w - 1 { seq![c - w + 1] } else { Seq::<int>::empty() }));
            }
            if horizontal_position != 0 {
                children.push(
                    self.get_index_from_positions(horizontal_position - 1, vertical_position - 1),
                );
            }
            proof {
                assert(children@.map_values(|v: usize| v as int) =~= left + right + (seq![c - w]
                    + (if x != w - 1 { seq![c - w + 1] } else { Seq::<int>::empty() })
                    + (if x != 0 { seq![c - w - 1] } else { Seq::<int>::empty() })));
            }
        }
        proof {
            assert(children@.map_values(|v: usize| v as int) =~= left + right + top);
        }
        if vertical_position != self.height - 1 {
            children.push(
                self.get_index_from_positions(horizontal_position, vertical_position + 1),
            );
            proof {
                assert(children@.map_values(|v: usize| v as int) =~= left + right + top + seq![
                    c + w,
                ]);
            }
            if horizontal_position != self.width - 1 {
                children.push(
                    self.get_index_from_positions(horizontal_position + 1, vertical_position + 1),
                );
            }
            proof {
                assert(children@.map_values(|v: usize| v as int) =~= left + right + top + seq![
                    c + w,
                ] + (if x != w - 1 { seq![c + w + 1] } else { Seq::<int>::empty() }));
            }
            if horizontal_position != 0 {
                children.push(
                    self.get_index_from_positions(horizontal_position - 1, vertical_position + 1),
                );
            }
            proof {
                assert(children@.map_values(|v: usize| v as int) =~= left + right + top + (seq![
                    c + w,
                ] + (if x != w - 1 { seq![c + w + 1] } else { Seq::<int>::empty() })
                    + (if x != 0 { seq![c + w - 1] } else { Seq::<int>::empty() })));
            }
        }
        proof {
            assert(children@.map_values(|v: usize| v as int) =~= left + right + top + bottom);
            assert(left + right + top + bottom =~= spec_children(w, h, c));
        }
        self.children_list = children;
        proof {
            assert(self@ =~= spec_generate_children(old(self)@));
        }
    }

    /// Main research method: heuristics and children once, then the
    /// expansion loop until a terminal cell (heuristic 1) is selected, the
    /// arrival's backward pointer forced onto the terminal, and the path
    /// collected backward from the arrival and reversed. Exhaustion of the
    /// frontier, or of the iteration budget, is an explicit error; a query
    /// whose departure equals its arrival returns the empty path at once.
    #[verifier::loop_isolation(false)]
    pub fn research_path(&mut self) -> (result: Result<Vec<usize>, PathError>)
        requires
            old(self).wf(),
        ensures
            final(self)@ == spec_research_path(old(self)@).0,
            final(self).wf(),
            path_result_view(result) == spec_research_path(old(self)@).1,
    {
        if self.departure_index == self.arrival_index {
            let empty: Vec<usize> = Vec::new();
            proof {
                assert(empty@.map_values(|x: usize| x as int) =~= Seq::<int>::empty());
            }
            return Ok(empty);
        }
        proof {
            assert(self@.nodes.len() <= 100) by (nonlinear_arith)
                requires
                    1 <= self@.width <= 10 && 1 <= self@.height <= 10 && self@.nodes.len()
                        == self@.width * self@.height;
        }
        self.generate_heuristics();
        self.generate_children_list();
        let ghost g0 = self@;
        let mut fuel: usize = self.nodes.len();
        let ghost run = spec_search_loop(g0, fuel as nat);
        proof {
            assert(fuel as nat == (old(self)@.width * old(self)@.height) as nat);
            assert(run == spec_search_loop(
                spec_generate_children(spec_generate_heuristics(old(self)@)),
                (old(self)@.width * old(self)@.height) as nat,
            ));
        }
        let mut terminal: usize = 0;
        let mut done: bool = false;
        while !done
            invariant
                self.wf(),
                fuel <= 100,
                !done ==> spec_search_loop(self@, fuel as nat) == run,
                done ==> run.0 == self@ && run.1 == Ok::<int, PathError>(terminal as int) && (
                terminal as int) < self@.nodes.len(),
            decreases fuel,
        {
            if fuel == 0 {
                proof {
                    assert(run.0 == self@ && run.1 == Err::<int, PathError>(
                        PathError::Unreachable,
                    ));
                }
                return Err(PathError::Unreachable);
            }
            fuel = fuel - 1;
            self.update_open_list();
            self.generate_costs();
            let ghost gi = self@;
            let outcome = self.iterate();
            match outcome {
                IterateOutcome::Exhausted => {
                    proof {
                        assert(run.0 == self@ && run.1 == Err::<int, PathError>(
                            PathError::Unreachable,
                        ));
                    }
                    return Err(PathError::Unreachable);
                },
                IterateOutcome::Terminal(t) => {
                    self.generate_children_list();
                    self.generate_backward_movement();
                    proof {
                        crate::model::lemma_first_terminal_in_open(gi.nodes, gi.open);
                    }
                    terminal = t;
                    done = true;
                },
                IterateOutcome::Advanced => {
                    self.generate_children_list();
                    self.generate_backward_movement();
                },
            }
        }
        let ghost g_run = self@;
        let arrival = self.arrival_index;
        proof {
            assert(self@.nodes.len() <= 100) by (nonlinear_arith)
                requires
                    1 <= self@.width <= 10 && 1 <= self@.height <= 10 && self@.nodes.len()
                        == self@.width * self@.height;
        }
        let delta = terminal as i16 - arrival as i16;
        self.get_node_by_index(arrival).set_backward_movement(delta as i8);
        let ghost g2 = self@;
        proof {
            assert(g2.nodes =~= g_run.nodes.update(
                g_run.arrival,
                NodeModel {
                    backward_movement: terminal as int - g_run.arrival,
                    ..g_run.nodes[g_run.arrival]
                },
            ));
            assert(g2 =~= (GridModel {
                nodes: g_run.nodes.update(
                    g_run.arrival,
                    NodeModel {
                        backward_movement: terminal as int - g_run.arrival,
                        ..g_run.nodes[g_run.arrival]
                    },
                ),
                ..g_run
            }));
            assert(g2 == spec_research_path(old(self)@).0);
            crate::model::lemma_wf_same_costs(g_run, g2);
        }
        let ghost target_walk = spec_walk(
            g2.nodes,
            g2.departure,
            g2.arrival,
            g2.nodes.len() as nat,
        );
        let mut path: Vec<usize> = Vec::new();
        path.push(self.arrival_index);
        let mut walk_current: usize = self.arrival_index;
        let mut walk_fuel: usize = self.nodes.len();
        let mut reached: bool = false;
        proof {
            assert(path@.map_values(|x: usize| x as int) =~= seq![g2.arrival]);
            assert(path@.map_values(|x: usize| x as int).drop_first() =~= Seq::<int>::empty());
        }
        while !reached
            invariant
                self@ == g2,
                self.wf(),
                walk_current < self@.nodes.len(),
                walk_fuel <= self@.nodes.len(),
                path@.len() >= 1,
                path@.map_values(|x: usize| x as int)[0] == g2.arrival,
                !reached ==> ({
                    let remaining = spec_walk(
                        g2.nodes,
                        g2.departure,
                        walk_current as int,
                        walk_fuel as nat,
                    );
                    match remaining {
                        Ok(rest) => target_walk == Ok::<Seq<int>, PathError>(
                            path@.map_values(|x: usize| x as int).drop_first() + rest,
                        ),
                        Err(e) => target_walk == Err::<Seq<int>, PathError>(e),
                    }
                }),
                reached ==> target_walk == Ok::<Seq<int>, PathError>(
                    path@.map_values(|x: usize| x as int).drop_first(),
                ),
            decreases walk_fuel,
        {
            if walk_fuel == 0 {
                proof {
                    assert(target_walk == Err::<Seq<int>, PathError>(PathError::Unreachable));
                }
                return Err(PathError::Unreachable);
            }
            walk_fuel = walk_fuel - 1;
            let backward = self.nodes[walk_current].get_backward_movement();
            let next_signed = walk_current as i16 + backward as i16;
            if next_signed < 0 || next_signed >= self.nodes.len() as i16 {
                proof {
                    assert(target_walk == Err::<Seq<int>, PathError>(PathError::Unreachable));
                }
                return Err(PathError::Unreachable);
            }
            let next = next_signed as usize;
            if next == self.departure_index {
                proof {
                    let collected = path@.map_values(|x: usize| x as int).drop_first();
                    assert(collected + Seq::<int>::empty() =~= collected);
                }
                reached = true;
            } else {
                let ghost path_before = path@;
                path.push(next);
                walk_current = next;
                proof {
                    let f = |x: usize| x as int;
                    assert(path@.map_values(f) =~= path_before.map_values(f).push(next as int));
                    assert(path@.map_values(f).drop_first() =~= path_before.map_values(
                        f,
                    ).drop_first() + seq![next as int]);
                    let remaining_next = spec_walk(
                        g2.nodes,
                        g2.departure,
                        next as int,
                        walk_fuel as nat,
                    );
                    match remaining_next {
                        Ok(rest) => {
                            assert(path_before.map_values(f).drop_first() + (seq![next as int]
                                + rest) =~= path@.map_values(f).drop_first() + rest);
                        },
                        Err(e) => {},
                    }
                }
            }
        }
        let mut reversed: Vec<usize> = Vec::new();
        let mut k: usize = path.len();
        while k > 0
            invariant
                k <= path@.len(),
                reversed@.len() == path@.len() - k,
                forall|i: int|
                    0 <= i < reversed@.len() ==> #[trigger] reversed@[i] == path@[path@.len() - 1
                        - i],
            decreases k,
        {
            k = k - 1;
            reversed.push(path[k]);
        }
        proof {
            let f = |x: usize| x as int;
            assert(reversed@.map_values(f) =~= path@.map_values(f).reverse());
            match target_walk {
                Ok(tail) => {
                    assert(path@.map_values(f) =~= seq![g2.arrival] + tail);
                },
                Err(e) => {
                    assert(false);
                },
            }
        }
        Ok(reversed)
    }

    /// Getter for the open list.
    #[verifier::loop_isolation(false)]
    pub fn get_open_list(&self) -> (r: Vec<usize>)
        ensures
            r@.map_values(|v: usize| v as int) == self@.open,
    {
        let mut r: Vec<usize> = Vec::new();
        let mut k: usize = 0;
        while k < self.open_list.len()
            invariant
                k <= self.open_list@.len(),
                r@ == self.open_list@.subrange(0, k as int),
            decreases self.open_list@.len() - k,
        {
            r.push(self.open_list[k]);
            proof {
                assert(r@ =~= self.open_list@.subrange(0, k + 1));
            }
            k = k + 1;
        }
        proof {
            assert(r@ =~= self.open_list@);
        }
        r
    }

    /// Getter for the closed list.
    #[verifier::loop_isolation(false)]
    pub fn get_closed_list(&self) -> (r: Vec<usize>)
        ensures
            r@.map_values(|v: usize| v as int) == self@.closed,
    {
        let mut r: Vec<usize> = Vec::new();
        let mut k: usize = 0;
        while k < self.closed_list.len()
            invariant
                k <= self.closed_list@.len(),
                r@ == self.closed_list@.subrange(0, k as int),
            decreases self.closed_list@.len() - k,
        {
            r.push(self.closed_list[k]);
            proof {
                assert(r@ =~= self.closed_list@.subrange(0, k + 1));
            }
            k = k + 1;
        }
        proof {
            assert(r@ =~= self.closed_list@);
        }
        r
    }

    /// Returns the children list.
    #[verifier::loop_isolation(false)]
    pub fn get_children_list(&self) -> (r: Vec<usize>)
        ensures
            r@.map_values(|v: usize| v as int) == self@.children,
    {
        let mut r: Vec<usize> = Vec::new();
        let mut k: usize = 0;
        while k < self.children_list.len()
            invariant
                k <= self.children_list@.len(),
                r@ == self.children_list@.subrange(0, k as int),
            decreases self.children_list@.len() - k,
        {
            r.push(self.children_list[k]);
            proof {
                assert(r@ =~= self.children_list@.subrange(0, k + 1));
            }
            k = k + 1;
        }
        proof {
            assert(r@ =~= self.children_list@);
        }
        r
    }

    /// Sets the open list as the children list: every child that is not yet
    /// discovered, not expanded and walkable joins the open list.
    #[verifier::loop_isolation(false)]
    pub fn update_open_list(&mut self)
        requires
            old(self).wf(),
        ensures
            final(self)@ == spec_update_open_list(old(self)@),
            final(self).wf(),
    {
        let total = self.children_list.len();
        proof {
            assert(self@.children.skip(0) =~= self@.children);
        }
        let mut k: usize = 0;
        while k < total
            invariant
                k <= total,
                total == self@.children.len(),
                self@.width == old(self)@.width,
                self@.height == old(self)@.height,
                self@.departure == old(self)@.departure,
                self@.current == old(self)@.current,
                self@.arrival == old(self)@.arrival,
                self@.nodes == old(self)@.nodes,
                self@.closed == old(self)@.closed,
                self@.children == old(self)@.children,
                self.wf(),
                spec_fill_open(
                    self@.open,
                    self@.closed,
                    self@.nodes,
                    self@.children.skip(k as int),
                ) == spec_fill_open(
                    old(self)@.open,
                    old(self)@.closed,
                    old(self)@.nodes,
                    old(self)@.children,
                ),
            decreases total - k,
        {
            let ghost before = self@.open;
            let index = self.children_list[k];
            proof {
                assert(self@.children[k as int] == index as int);
                assert(self@.children.skip(k as int)[0] == index as int);
                assert(self@.children.skip(k as int).drop_first() =~= self@.children.skip(
                    k as int + 1,
                ));
            }
            if !(list_contains(&self.open_list, index) || list_contains(&self.closed_list, index)
                || !self.nodes[index].is_usuable()) {
                self.open_list.push(index);
                proof {
                    assert(self@.open =~= before.push(index as int));
                }
            }
            k = k + 1;
        }
        proof {
            assert(self@.children.skip(total as int) =~= Seq::<int>::empty());
            assert(self@.open == spec_fill_open(
                old(self)@.open,
                old(self)@.closed,
                old(self)@.nodes,
                old(self)@.children,
            ));
            assert(self@ =~= spec_update_open_list(old(self)@));
        }
    }

    /// Generates the costs of the open list nodes: every unpriced open node
    /// receives the current cell's cost plus 10 for an orthogonal offset and
    /// 14 otherwise. A priced node is never repriced.
    #[verifier::loop_isolation(false)]
    pub fn generate_costs(&mut self)
        requires
            old(self).wf(),
        ensures
            final(self)@ == spec_generate_costs(old(self)@),
            final(self).wf(),
    {
        proof {
            assert(self@.nodes.len() <= 100) by (nonlinear_arith)
                requires
                    1 <= self@.width <= 10 && 1 <= self@.height <= 10 && self@.nodes.len()
                        == self@.width * self@.height;
            crate::model::lemma_count_priced_le_len(self@.nodes);
        }
        let current_cost = self.nodes[self.current_index].get_cost();
        let width_usize = self.width as usize;
        let total = self.open_list.len();
        let mut k: usize = 0;
        while k < total
            invariant
                k <= total,
                total == self@.open.len(),
                self@.width == old(self)@.width,
                self@.height == old(self)@.height,
                self@.departure == old(self)@.departure,
                self@.current == old(self)@.current,
                self@.arrival == old(self)@.arrival,
                self@.open == old(self)@.open,
                self@.closed == old(self)@.closed,
                self@.children == old(self)@.children,
                self@.nodes.len() == old(self)@.nodes.len(),
                current_cost as int == old(self)@.nodes[old(self)@.current].cost,
                width_usize as int == old(self)@.width,
                forall|i: int|
                    0 <= i < self@.nodes.len() ==> #[trigger] self@.nodes[i] == (
                    if old(self)@.open.take(k as int).contains(i) && old(self)@.nodes[i].cost
                        == 0 {
                        NodeModel {
                            cost: old(self)@.nodes[old(self)@.current].cost + spec_move_price(
                                old(self)@.width,
                                old(self)@.current,
                                i,
                            ),
                            ..old(self)@.nodes[i]
                        }
                    } else {
                        old(self)@.nodes[i]
                    }),
            decreases total - k,
        {
            let index = self.open_list[k];
            proof {
                assert(old(self)@.open[k as int] == index as int);
                assert(!old(self)@.open.take(k as int).contains(index as int)) by {
                    if old(self)@.open.take(k as int).contains(index as int) {
                        let j = choose|j: int|
                            0 <= j < k && old(self)@.open.take(k as int)[j] == index as int;
                        assert(old(self)@.open[j] == old(self)@.open[k as int]);
                    }
                }
                crate::model::lemma_take_push_contains(old(self)@.open, k as int, index as int);
            }
            let ghost before = self@.nodes;
            let node_cost = self.nodes[index].get_cost();
            if node_cost == 0 {
                let mut cost: u16 = 14;
                if index + 1 == self.current_index || self.current_index + 1 == index || index
                    + width_usize == self.current_index || self.current_index + width_usize
                    == index {
                    cost = 10;
                }
                proof {
                    assert(cost as int == spec_move_price(
                        old(self)@.width,
                        old(self)@.current,
                        index as int,
                    ));
                }
                self.get_node_by_index(index).set_cost(current_cost + cost);
                proof {
                    assert(self@.nodes =~= before.update(
                        index as int,
                        NodeModel {
                            cost: old(self)@.nodes[old(self)@.current].cost + spec_move_price(
                                old(self)@.width,
                                old(self)@.current,
                                index as int,
                            ),
                            ..old(self)@.nodes[index as int]
                        },
                    ));
                }
            }
            k = k + 1;
        }
        proof {
            assert(old(self)@.open.take(total as int) =~= old(self)@.open);
            assert(self@.nodes =~= spec_generate_costs(old(self)@).nodes);
            assert(self@ =~= spec_generate_costs(old(self)@));
            let a = old(self)@.nodes;
            let b = self@.nodes;
            crate::model::lemma_count_priced_monotone(a, b);
            crate::model::lemma_count_priced_le_len(b);
            assert forall|i: int|
                0 <= i < b.len() implies 0 <= (#[trigger] b[i]).cost <= 14 * count_priced(
                b,
            ) by {
                if b[i] != a[i] {
                    crate::model::lemma_count_priced_strict(a, b, i);
                }
            }
        }
    }

    /// Iterates to the next node: a first open cell with heuristic 1 is the
    /// terminal and only becomes current; otherwise the open cell with the
    /// least heuristic plus cost becomes current and moves from the open to
    /// the closed list; an empty frontier is reported as exhausted.
    #[verifier::loop_isolation(false)]
    pub fn iterate(&mut self) -> (outcome: IterateOutcome)
        requires
            old(self).wf(),
        ensures
            final(self)@ == spec_iterate(old(self)@).0,
            outcome == spec_iterate(old(self)@).1,
            final(self).wf(),
    {
        proof {
            assert(self@.nodes.len() <= 100) by (nonlinear_arith)
                requires
                    1 <= self@.width <= 10 && 1 <= self@.height <= 10 && self@.nodes.len()
                        == self@.width * self@.height;
            crate::model::lemma_count_priced_le_len(self@.nodes);
            assert(self@.open.skip(0) =~= self@.open);
        }
        let mut minimum: u16 = u16::MAX;
        let mut target: usize = 0;
        let mut has_target: bool = false;
        let total = self.open_list.len();
        let mut k: usize = 0;
        while k < total
            invariant
                k <= total,
                self == old(self),
                total == self@.open.len(),
                (minimum as int) < 0xffff ==> has_target,
                has_target ==> self@.open.contains(target as int) && (target as int)
                    < self@.nodes.len(),
                spec_first_terminal(self@.nodes, self@.open.skip(k as int))
                    == spec_first_terminal(self@.nodes, self@.open),
                spec_scan_min(
                    self@.nodes,
                    self@.open.skip(k as int),
                    minimum as int,
                    if has_target {
                        Some(target as int)
                    } else {
                        None
                    },
                ) == spec_scan_min(self@.nodes, self@.open, 0xffff, None),
            decreases total - k,
        {
            let index = self.open_list[k];
            proof {
                assert(self@.open[k as int] == index as int);
                assert(self@.open.skip(k as int)[0] == index as int);
                assert(self@.open.skip(k as int).drop_first() =~= self@.open.skip(k as int + 1));
            }
            let heuristic = self.nodes[index].get_heuristic();
            if heuristic == 1 {
                self.current_index = index;
                proof {
                    assert(spec_first_terminal(old(self)@.nodes, old(self)@.open) == Some(
                        index as int,
                    ));
                    assert(self@ =~= spec_iterate(old(self)@).0);
                }
                return IterateOutcome::Terminal(index);
            }
            let value = heuristic as u16 + self.nodes[index].get_cost();
            if value < minimum {
                minimum = value;
                target = index;
                has_target = true;
            }
            k = k + 1;
        }
        proof {
            assert(self@.open.skip(total as int) =~= Seq::<int>::empty());
        }
        if !has_target {
            proof {
                assert(spec_scan_min(old(self)@.nodes, old(self)@.open, 0xffff, None)
                    is None);
                assert(self@ =~= spec_iterate(old(self)@).0);
            }
            return IterateOutcome::Exhausted;
        }
        proof {
            assert(spec_scan_min(old(self)@.nodes, old(self)@.open, 0xffff, None) == Some(
                target as int,
            ));
        }
        self.current_index = target;
        let mut position: usize = 0;
        while position < self.open_list.len() && self.open_list[position] != target
            invariant
                position <= self@.open.len(),
                forall|j: int| 0 <= j < position ==> #[trigger] self@.open[j] != target as int,
                self@.open == old(self)@.open,
            decreases self@.open.len() - position,
        {
            position = position + 1;
        }
        proof {
            let op = old(self)@.open;
            assert(op.contains(target as int));
            if position >= op.len() {
                let j = choose|j: int| 0 <= j < op.len() && op[j] == target as int;
                assert(op[j] == target as int);
                assert(false);
            }
            assert(op[position as int] == target as int);
            op.index_of_first_ensures(target as int);
            assert(op.index_of_first(target as int) == Some(position as int));
        }
        let ghost open_before = self@.open;
        self.open_list.remove(position);
        proof {
            assert(self@.open =~= open_before.remove(position as int));
        }
        let ghost closed_before = self@.closed;
        self.closed_list.push(target);
        proof {
            assert(self@.closed =~= closed_before.push(target as int));
            assert(self@ =~= spec_iterate(old(self)@).0);
            let g2 = self@;
            let op = old(self)@.open;
            assert forall|j: int| 0 <= j < g2.open.len() implies 0 <= #[trigger] g2.open[j]
                < g2.nodes.len() && g2.open[j] != target as int && !old(self)@.closed.contains(
                g2.open[j],
            ) by {
                if j < position {
                    assert(g2.open[j] == op[j]);
                } else {
                    assert(g2.open[j] == op[j + 1]);
                }
            }
            assert(g2.open.no_duplicates()) by {
                assert forall|i: int, j: int|
                    0 <= i < j < g2.open.len() implies #[trigger] g2.open[i] != #[trigger] g2.open[j] by {
                    if j < position {
                    } else if i < position {
                        assert(g2.open[i] == op[i] && g2.open[j] == op[j + 1]);
                    } else {
                        assert(g2.open[i] == op[i + 1] && g2.open[j] == op[j + 1]);
                    }
                }
            }
            assert forall|j: int| 0 <= j < g2.open.len() implies !g2.closed.contains(
                #[trigger] g2.open[j],
            ) by {
                if g2.closed.contains(g2.open[j]) {
                    let m = choose|m: int| 0 <= m < g2.closed.len() && g2.closed[m] == g2.open[j];
                    if m < g2.closed.len() - 1 {
                        assert(old(self)@.closed[m] == g2.open[j]);
                    }
                }
            }
        }
        IterateOutcome::Advanced
    }

    /// Generates the backward movement of the current index: the offset
    /// points at the departure when the departure is among the children, and
    /// otherwise at the priced child with the least cost.
    #[verifier::loop_isolation(false)]
    pub fn generate_backward_movement(&mut self)
        requires
            old(self).wf(),
        ensures
            final(self)@ == spec_generate_backward_movement(old(self)@),
            final(self).wf(),
    {
        proof {
            assert(self@.nodes.len() <= 100) by (nonlinear_arith)
                requires
                    1 <= self@.width <= 10 && 1 <= self@.height <= 10 && self@.nodes.len()
                        == self@.width * self@.height;
            assert(self@.children.skip(0) =~= self@.children);
        }
        let mut selected: usize = self.departure_index;
        if !list_contains(&self.children_list, self.departure_index) {
            let mut minimum_cost: u16 = u16::MAX;
            let total = self.children_list.len();
            let mut k: usize = 0;
            while k < total
                invariant
                    k <= total,
                    self == old(self),
                    total == self@.children.len(),
                    selected < self@.nodes.len(),
                    spec_backward_target(
                        self@.nodes,
                        self@.children.skip(k as int),
                        selected as int,
                        minimum_cost as int,
                    ) == spec_backward_target(
                        self@.nodes,
                        self@.children,
                        self@.departure,
                        0xffff,
                    ),
                decreases total - k,
            {
                let child = self.children_list[k];
                proof {
                    assert(self@.children[k as int] == child as int);
                    assert(self@.children.skip(k as int)[0] == child as int);
                    assert(self@.children.skip(k as int).drop_first() =~= self@.children.skip(
                        k as int + 1,
                    ));
                }
                let child_cost = self.nodes[child].get_cost();
                if child_cost != 0 && child_cost < minimum_cost {
                    minimum_cost = child_cost;
                    selected = child;
                }
                k = k + 1;
            }
            proof {
                assert(self@.children.skip(total as int) =~= Seq::<int>::empty());
            }
        }
        let backward_movement = selected as i16 - self.current_index as i16;
        let index = self.current_index;
        self.get_node_by_index(index).set_backward_movement(backward_movement as i8);
        proof {
            assert(self@.nodes =~= spec_generate_backward_movement(old(self)@).nodes);
            assert(self@ =~= spec_generate_backward_movement(old(self)@));
            lemma_wf_same_costs(old(self)@, self@);
        }
    }

    /// Getter for the current index.
    pub fn get_current_index(&self) -> (r: usize)
        ensures
            r as int == self@.current,
    {
        self.current_index
    }

    /// Setter of the current index.
    pub fn set_current_index(&mut self, current: usize)
        requires
            current < old(self)@.nodes.len(),
        ensures
            final(self)@ == (GridModel { current: current as int, ..old(self)@ }),
            old(self).wf() ==> final(self).wf(),
    {
        self.current_index = current;
        proof {
            assert(self@ =~= (GridModel { current: current as int, ..old(self)@ }));
        }
    }

    /// Returns a node reference of a node for read and write access.
    pub fn get_node_by_index(&mut self, index: usize) -> (r: &mut Node)
        requires
            index < old(self)@.nodes.len(),
        ensures
            (*r)@ == old(self)@.nodes[index as int],
            final(self)@ == (GridModel {
                nodes: old(self)@.nodes.update(index as int, (*final(r))@),
                ..old(self)@
            }),
    {
        &mut self.nodes[index]
    }

    /// Returns the horizontal and vertical position for the given index.
    fn get_positions(&self, index: usize) -> (r: (u8, u8))
        requires
            1 <= self@.width <= 10,
            1 <= self@.height <= 10,
            self@.nodes.len() == self@.width * self@.height,
            index < self@.nodes.len(),
        ensures
            r.0 as int == crate::model::pos_x(self@.width, index as int),
            r.1 as int == crate::model::pos_y(self@.width, index as int),
            r.0 < self@.width,
            r.1 < self@.height,
    {
        proof {
            let w = self@.width;
            let h = self@.height;
            assert(index < 100) by (nonlinear_arith)
                requires
                    1 <= w <= 10 && 1 <= h <= 10 && index < w * h;
        }
        let index_u8 = index as u8;
        let x = index_u8 % self.width;
        let y = index_u8 / self.width;
        proof {
            vstd::arithmetic::div_mod::lemma_multiply_divide_lt(
                index as int,
                self@.width,
                self@.height,
            );
        }
        (x, y)
    }

    /// Returns the index according to the horizontal and vertical positions.
    fn get_index_from_positions(&self, horizontal_position: u8, vertical_position: u8) -> (r: usize)
        requires
            1 <= self@.width <= 10,
            1 <= self@.height <= 10,
            self@.nodes.len() == self@.width * self@.height,
            horizontal_position < self@.width,
            vertical_position < self@.height,
        ensures
            r as int == vertical_position * self@.width + horizontal_position,
            r < self@.nodes.len(),
    {
        proof {
            let w = self@.width;
            let h = self@.height;
            let hp = horizontal_position as int;
            let vp = vertical_position as int;
            assert(vp * w + hp < w * h && w * h <= 100) by (nonlinear_arith)
                requires
                    1 <= w <= 10 && 1 <= h <= 10 && hp < w && 0 <= hp && 0 <= vp && vp < h;
        }
        (vertical_position * self.width + horizontal_position) as usize
    }
}

} // verus!

//! Maze generation: randomized depth-first carving of a perfect maze on a
//! 2-step lattice, followed by a connectivity-relaxation pass that opens some
//! border walls and a configured number of interior walls.

use vstd::prelude::*;
use crate::grid::GridBuffer;
use crate::grid::cell_index;
use crate::grid::cell_value;
use crate::grid::count_matching;
use crate::grid::in_bounds;
use crate::grid::lemma_count_update;
use crate::grid::lemma_count_zero;
use crate::grid::lemma_index_in_range;
use crate::grid::lemma_index_distinct;
use crate::grid::lemma_index_injective;
use crate::reach::adjacent;
use crate::reach::lemma_reachable_monotone;
use crate::reach::lemma_reachable_self;
use crate::reach::lemma_reachable_step;
use crate::reach::reachable;
use crate::rng::choose_cell;
use crate::rng::rand_bool;
use crate::rng::rand_range;

verus! {

/// The two cell tags of a maze and how many extra interior walls to open.
#[derive(Copy, Clone, PartialEq, Eq, Structural, Debug)]
pub struct MazeConfig {
    /// The color used for the path
    pub path_color: u32,
    /// The color used for the walls
    pub wall_color: u32,
    /// Quantity of open walls in the maze
    pub open_walls: usize,
}

impl Default for MazeConfig {
    fn default() -> (r: Self)
        ensures
            r.path_color == 0,
            r.wall_color == u32::MAX,
            r.open_walls == 0,
    {
        Self { path_color: 0, wall_color: u32::MAX, open_walls: 0 }
    }
}

/// The integer coordinates of a cell given as a pair of `usize`.
pub open spec fn as_cell(p: (usize, usize)) -> (int, int) {
    (p.0 as int, p.1 as int)
}

/// Every cell of the grid holds one of the two maze tags.
pub open spec fn two_colored(cells: Seq<u32>, path: u32, wall: u32) -> bool {
    forall|i: int| 0 <= i < cells.len() ==> cells[i] == path || cells[i] == wall
}

/// Every path cell of the grid can be reached from `origin`.
pub open spec fn all_paths_reachable(
    cells: Seq<u32>,
    w: nat,
    h: nat,
    path: u32,
    origin: (int, int),
) -> bool {
    forall|p: (int, int)|
        in_bounds(w, h, p) && #[trigger] cell_value(cells, w, p) == path ==> reachable(
            cells,
            w,
            h,
            path,
            origin,
            p,
        )
}

/// Two cells two steps apart along exactly one axis: neighboring rooms of the
/// carving lattice.
pub open spec fn two_apart(a: (int, int), b: (int, int)) -> bool {
    ||| (a.1 == b.1 && (b.0 == a.0 + 2 || b.0 == a.0 - 2))
    ||| (a.0 == b.0 && (b.1 == a.1 + 2 || b.1 == a.1 - 2))
}

/// The coordinate offsets of `p` from `og` are both even: `p` is a room of
/// the 2-step carving lattice anchored at `og`.
pub open spec fn is_room(og: (int, int), p: (int, int)) -> bool {
    (p.0 - og.0) % 2 == 0 && (p.1 - og.1) % 2 == 0
}

/// `p` lies on the carving lattice anchored at `og`: a room, or a door with
/// one even offset. A cell with both offsets odd is never carved.
pub open spec fn room_or_door(og: (int, int), p: (int, int)) -> bool {
    (p.0 - og.0) % 2 == 0 || (p.1 - og.1) % 2 == 0
}

/// If `p` is a door of the lattice anchored at `og` (one odd offset), both
/// its one-step neighbors along that axis are in-bounds path cells: a carved
/// door always joins two carved rooms. A room satisfies this trivially.
pub open spec fn door_connects(
    cells: Seq<u32>,
    w: nat,
    h: nat,
    path: u32,
    og: (int, int),
    p: (int, int),
) -> bool {
    if (p.0 - og.0) % 2 != 0 {
        &&& in_bounds(w, h, (p.0 - 1, p.1)) && cell_value(cells, w, (p.0 - 1, p.1)) == path
        &&& in_bounds(w, h, (p.0 + 1, p.1)) && cell_value(cells, w, (p.0 + 1, p.1)) == path
    } else if (p.1 - og.1) % 2 != 0 {
        &&& in_bounds(w, h, (p.0, p.1 - 1)) && cell_value(cells, w, (p.0, p.1 - 1)) == path
        &&& in_bounds(w, h, (p.0, p.1 + 1)) && cell_value(cells, w, (p.0, p.1 + 1)) == path
    } else {
        true
    }
}

/// A joining door stays joining when path cells are only added.
proof fn lemma_door_monotone(
    pre: Seq<u32>,
    post: Seq<u32>,
    w: nat,
    h: nat,
    path: u32,
    og: (int, int),
    p: (int, int),
)
    requires
        door_connects(pre, w, h, path, og, p),
        forall|q: (int, int)|
            in_bounds(w, h, q) && #[trigger] cell_value(pre, w, q) == path ==> cell_value(
                post,
                w,
                q,
            ) == path,
    ensures
        door_connects(post, w, h, path, og, p),
{
}

/// Every in-bounds 2-step neighbor of `p` is a path cell: the carving walk
/// is finished with the room `p`.
pub open spec fn room_closed(cells: Seq<u32>, w: nat, h: nat, path: u32, p: (int, int)) -> bool {
    &&& in_bounds(w, h, (p.0 - 2, p.1)) ==> cell_value(cells, w, (p.0 - 2, p.1)) == path
    &&& in_bounds(w, h, (p.0 + 2, p.1)) ==> cell_value(cells, w, (p.0 + 2, p.1)) == path
    &&& in_bounds(w, h, (p.0, p.1 - 2)) ==> cell_value(cells, w, (p.0, p.1 - 2)) == path
    &&& in_bounds(w, h, (p.0, p.1 + 2)) ==> cell_value(cells, w, (p.0, p.1 + 2)) == path
}

/// Some entry of `s` names the cell `p`.
pub open spec fn on_stack(s: Seq<(usize, usize)>, p: (int, int)) -> bool {
    exists|k: int| 0 <= k < s.len() && as_cell(#[trigger] s[k]) == p
}

/// A walk over the 2-step lattice: a non-empty sequence of in-bounds cells,
/// each consecutive pair two steps apart along one axis.
pub open spec fn lattice_chain(w: nat, h: nat, s: Seq<(int, int)>) -> bool {
    &&& s.len() > 0
    &&& forall|i: int| 0 <= i < s.len() ==> in_bounds(w, h, #[trigger] s[i])
    &&& forall|i: int| 1 <= i < s.len() ==> two_apart(s[i - 1], #[trigger] s[i])
}

/// `to` lies in the connected component of `from` on the in-bounds 2-step
/// lattice.
pub open spec fn lattice_reachable(w: nat, h: nat, from: (int, int), to: (int, int)) -> bool {
    exists|s: Seq<(int, int)>| lattice_chain(w, h, s) && s[0] == from && s[s.len() - 1] == to
}

/// Shifting by two keeps the parity of an offset; shifting by one flips it.
proof fn lemma_parity(a: int, x: int)
    by (nonlinear_arith)
    ensures
        (x + 2 - a) % 2 == (x - a) % 2,
        (x - 2 - a) % 2 == (x - a) % 2,
        ((x + 1 - a) % 2 == 0) <==> ((x - a) % 2 != 0),
        ((x - 1 - a) % 2 == 0) <==> ((x - a) % 2 != 0),
{
}

/// A 2-step neighbor of a room is a room; the door between them lies on the
/// lattice but is itself no room.
proof fn lemma_lattice_step(og: (int, int), c: (int, int), e: (int, int))
    requires
        is_room(og, c),
        two_apart(c, e),
    ensures
        is_room(og, e),
        room_or_door(og, middle_point_spec(c, e)),
        !is_room(og, middle_point_spec(c, e)),
{
    lemma_parity(og.0, c.0);
    lemma_parity(og.1, c.1);
}

/// A finished room stays finished when path cells are only added.
proof fn lemma_closed_monotone(
    pre: Seq<u32>,
    post: Seq<u32>,
    w: nat,
    h: nat,
    path: u32,
    p: (int, int),
)
    requires
        room_closed(pre, w, h, path, p),
        forall|q: (int, int)|
            in_bounds(w, h, q) && #[trigger] cell_value(pre, w, q) == path ==> cell_value(
                post,
                w,
                q,
            ) == path,
    ensures
        room_closed(post, w, h, path, p),
{
}

/// Walking a lattice chain from a painted origin through a grid whose path
/// rooms are all finished, every cell of the chain is painted: the carve
/// reaches the whole lattice component of its origin.
proof fn lemma_chain_painted(
    cells: Seq<u32>,
    w: nat,
    h: nat,
    path: u32,
    og: (int, int),
    s: Seq<(int, int)>,
)
    requires
        lattice_chain(w, h, s),
        s[0] == og,
        cell_value(cells, w, og) == path,
        forall|p: (int, int)|
            in_bounds(w, h, p) && #[trigger] cell_value(cells, w, p) == path && is_room(og, p)
                ==> room_closed(cells, w, h, path, p),
    ensures
        cell_value(cells, w, s[s.len() - 1]) == path,
        is_room(og, s[s.len() - 1]),
    decreases s.len(),
{
    let last = s[s.len() - 1];
    if s.len() == 1 {
        assert(last == og);
        assert(is_room(og, og));
    } else {
        let s0 = s.drop_last();
        assert(forall|i: int| 0 <= i < s0.len() ==> s0[i] == #[trigger] s[i]);
        assert(lattice_chain(w, h, s0));
        lemma_chain_painted(cells, w, h, path, og, s0);
        let r = s[s.len() - 2];
        assert(cell_value(cells, w, r) == path && is_room(og, r));
        assert(two_apart(r, last));
        assert(room_closed(cells, w, h, path, r));
        lemma_lattice_step(og, r, last);
    }
}

/// The cell named by the row-major index `i` of a grid `w` cells wide.
#[verifier::opaque]
pub open spec fn coords_of(w: nat, i: int) -> (int, int) {
    (i % (w as int), i / (w as int))
}

/// Decoding a cell's row-major index gives the cell back.
proof fn lemma_coords_of_index(w: nat, h: nat, p: (int, int))
    requires
        in_bounds(w, h, p),
    ensures
        coords_of(w, cell_index(w, p)) == p,
{
    reveal(coords_of);
    assert((p.1 * w + p.0) % (w as int) == p.0 && (p.1 * w + p.0) / (w as int) == p.1)
        by (nonlinear_arith)
        requires
            0 <= p.0 < w,
            0 <= p.1 < h,
    ;
}

/// How many of the first `n` cells are path-tagged rooms of the lattice
/// anchored at `og`.
#[verifier::opaque]
pub open spec fn count_path_rooms(
    cells: Seq<u32>,
    w: nat,
    path: u32,
    og: (int, int),
    n: int,
) -> nat
    decreases n,
{
    if n <= 0 {
        0
    } else {
        count_path_rooms(cells, w, path, og, n - 1) + if cells[n - 1] == path && is_room(
            og,
            coords_of(w, n - 1),
        ) {
            1nat
        } else {
            0nat
        }
    }
}

/// How many of the first `n` cells are path-tagged and no room: the doors of
/// the carved structure (the lattice clause rules out any other cell).
#[verifier::opaque]
pub open spec fn count_path_doors(
    cells: Seq<u32>,
    w: nat,
    path: u32,
    og: (int, int),
    n: int,
) -> nat
    decreases n,
{
    if n <= 0 {
        0
    } else {
        count_path_doors(cells, w, path, og, n - 1) + if cells[n - 1] == path && !is_room(
            og,
            coords_of(w, n - 1),
        ) {
            1nat
        } else {
            0nat
        }
    }
}

/// How one write moves the room count.
proof fn lemma_count_path_rooms_update(
    cells: Seq<u32>,
    w: nat,
    path: u32,
    og: (int, int),
    n: int,
    j: int,
    v: u32,
)
    requires
        0 <= j < cells.len(),
        n <= cells.len(),
    ensures
        count_path_rooms(cells.update(j, v), w, path, og, n) == count_path_rooms(
            cells,
            w,
            path,
            og,
            n,
        ) + (
        if j < n && v == path && is_room(og, coords_of(w, j)) {
            1int
        } else {
            0int
        }) - (
        if j < n && cells[j] == path && is_room(og, coords_of(w, j)) {
            1int
        } else {
            0int
        }),
    decreases n,
{
    reveal_with_fuel(count_path_rooms, 2);
    if n > 0 {
        lemma_count_path_rooms_update(cells, w, path, og, n - 1, j, v);
    }
}

/// How one write moves the door count.
proof fn lemma_count_path_doors_update(
    cells: Seq<u32>,
    w: nat,
    path: u32,
    og: (int, int),
    n: int,
    j: int,
    v: u32,
)
    requires
        0 <= j < cells.len(),
        n <= cells.len(),
    ensures
        count_path_doors(cells.update(j, v), w, path, og, n) == count_path_doors(
            cells,
            w,
            path,
            og,
            n,
        ) + (
        if j < n && v == path && !is_room(og, coords_of(w, j)) {
            1int
        } else {
            0int
        }) - (
        if j < n && cells[j] == path && !is_room(og, coords_of(w, j)) {
            1int
        } else {
            0int
        }),
    decreases n,
{
    reveal_with_fuel(count_path_doors, 2);
    if n > 0 {
        lemma_count_path_doors_update(cells, w, path, og, n - 1, j, v);
    }
}

/// A grid with no path cells holds no path rooms and no path doors.
proof fn lemma_counts_empty(cells: Seq<u32>, w: nat, path: u32, og: (int, int), n: int)
    requires
        n <= cells.len(),
        forall|i: int| 0 <= i < cells.len() ==> cells[i] != path,
    ensures
        count_path_rooms(cells, w, path, og, n) == 0,
        count_path_doors(cells, w, path, og, n) == 0,
    decreases n,
{
    reveal_with_fuel(count_path_rooms, 2);
    reveal_with_fuel(count_path_doors, 2);
    if n > 0 {
        lemma_counts_empty(cells, w, path, og, n - 1);
    }
}

/// Painting the origin into an all-wall grid makes one path room, no door.
proof fn lemma_initial_counts(filled: Seq<u32>, w: nat, h: nat, path: u32, og: (int, int))
    requires
        filled.len() == w * h,
        forall|i: int| 0 <= i < filled.len() ==> filled[i] != path,
        in_bounds(w, h, og),
    ensures
        ({
            let cells = filled.update(cell_index(w, og), path);
            count_path_rooms(cells, w, path, og, cells.len() as int) == count_path_doors(
                cells,
                w,
                path,
                og,
                cells.len() as int,
            ) + 1
        }),
{
    lemma_index_in_range(w, h, og);
    lemma_coords_of_index(w, h, og);
    lemma_counts_empty(filled, w, path, og, filled.len() as int);
    lemma_count_path_rooms_update(filled, w, path, og, filled.len() as int, cell_index(w, og), path);
    lemma_count_path_doors_update(filled, w, path, og, filled.len() as int, cell_index(w, og), path);
    assert(is_room(og, og));
}

/// Carving one room and its door keeps one more room than doors: each step
/// of the walk adds exactly one room and exactly one door, so the carved
/// graph stays a tree.
proof fn lemma_carve_counts(
    pre: Seq<u32>,
    w: nat,
    h: nat,
    path: u32,
    wall: u32,
    og: (int, int),
    c: (int, int),
    e: (int, int),
)
    requires
        path != wall,
        pre.len() == w * h,
        in_bounds(w, h, c),
        in_bounds(w, h, e),
        is_room(og, c),
        two_apart(c, e),
        cell_value(pre, w, c) == path,
        cell_value(pre, w, e) == wall,
        two_colored(pre, path, wall),
        forall|p: (int, int)|
            in_bounds(w, h, p) && #[trigger] cell_value(pre, w, p) == path ==> door_connects(
                pre,
                w,
                h,
                path,
                og,
                p,
            ),
        count_path_rooms(pre, w, path, og, pre.len() as int) == count_path_doors(
            pre,
            w,
            path,
            og,
            pre.len() as int,
        ) + 1,
    ensures
        ({
            let post = pre.update(cell_index(w, e), path).update(
                cell_index(w, middle_point_spec(c, e)),
                path,
            );
            count_path_rooms(post, w, path, og, post.len() as int) == count_path_doors(
                post,
                w,
                path,
                og,
                post.len() as int,
            ) + 1
        }),
{
    let m = middle_point_spec(c, e);
    let ie = cell_index(w, e);
    let im = cell_index(w, m);
    lemma_middle_of_two_apart(c, e, w, h);
    lemma_lattice_step(og, c, e);
    lemma_index_in_range(w, h, e);
    lemma_index_in_range(w, h, m);
    lemma_index_distinct(w, h, m, e);
    lemma_coords_of_index(w, h, e);
    lemma_coords_of_index(w, h, m);
    // the door was still a wall: were it a path, both rooms beside it would
    // be paths already, but `e` is a wall
    assert(cell_value(pre, w, m) != path) by {
        lemma_parity(og.0, c.0);
        lemma_parity(og.1, c.1);
    }
    let mid1 = pre.update(ie, path);
    lemma_count_path_rooms_update(pre, w, path, og, pre.len() as int, ie, path);
    lemma_count_path_doors_update(pre, w, path, og, pre.len() as int, ie, path);
    lemma_count_path_rooms_update(mid1, w, path, og, mid1.len() as int, im, path);
    lemma_count_path_doors_update(mid1, w, path, og, mid1.len() as int, im, path);
}

/// One carving step, proved over the grids alone: carving an unvisited room
/// `e` and the door from the room `c` keeps every invariant of the walk.
/// The caller supplies the stack bookkeeping: entries below the popped cell
/// survive, the new room is on the stack, and the popped cell is either back
/// on the stack or finished.
proof fn lemma_carve_advance(
    pre: Seq<u32>,
    post: Seq<u32>,
    stack0: Seq<(usize, usize)>,
    stack1: Seq<(usize, usize)>,
    cell: (usize, usize),
    chosen: (usize, usize),
    multi: bool,
    w: nat,
    h: nat,
    path: u32,
    wall: u32,
    og: (int, int),
)
    requires
        path != wall,
        pre.len() == w * h,
        in_bounds(w, h, og),
        cell_value(pre, w, og) == path,
        two_colored(pre, path, wall),
        all_paths_reachable(pre, w, h, path, og),
        count_path_rooms(pre, w, path, og, pre.len() as int) == count_path_doors(
            pre,
            w,
            path,
            og,
            pre.len() as int,
        ) + 1,
        forall|p: (int, int)|
            in_bounds(w, h, p) && #[trigger] cell_value(pre, w, p) == path ==> room_or_door(og, p)
                && door_connects(pre, w, h, path, og, p),
        forall|p: (int, int)|
            in_bounds(w, h, p) && #[trigger] cell_value(pre, w, p) == path && is_room(og, p)
                ==> on_stack(stack0, p) || room_closed(pre, w, h, path, p),
        forall|k: int|
            0 <= k < stack0.len() ==> in_bounds(w, h, as_cell(#[trigger] stack0[k])) && cell_value(
                pre,
                w,
                as_cell(stack0[k]),
            ) == path && is_room(og, as_cell(stack0[k])),
        stack0.len() > 0,
        cell == stack0[stack0.len() - 1],
        in_bounds(w, h, as_cell(chosen)),
        cell_value(pre, w, as_cell(chosen)) == wall,
        two_apart(as_cell(cell), as_cell(chosen)),
        post == pre.update(cell_index(w, as_cell(chosen)), path).update(
            cell_index(w, middle_point_spec(as_cell(cell), as_cell(chosen))),
            path,
        ),
        stack1 == if multi {
            stack0.drop_last().push(cell).push(chosen)
        } else {
            stack0.drop_last().push(chosen)
        },
        !multi ==> (in_bounds(w, h, (as_cell(cell).0 - 2, as_cell(cell).1)) && cell_value(
            pre,
            w,
            (as_cell(cell).0 - 2, as_cell(cell).1),
        ) == wall ==> (as_cell(cell).0 - 2, as_cell(cell).1) == as_cell(chosen)),
        !multi ==> (in_bounds(w, h, (as_cell(cell).0 + 2, as_cell(cell).1)) && cell_value(
            pre,
            w,
            (as_cell(cell).0 + 2, as_cell(cell).1),
        ) == wall ==> (as_cell(cell).0 + 2, as_cell(cell).1) == as_cell(chosen)),
        !multi ==> (in_bounds(w, h, (as_cell(cell).0, as_cell(cell).1 - 2)) && cell_value(
            pre,
            w,
            (as_cell(cell).0, as_cell(cell).1 - 2),
        ) == wall ==> (as_cell(cell).0, as_cell(cell).1 - 2) == as_cell(chosen)),
        !multi ==> (in_bounds(w, h, (as_cell(cell).0, as_cell(cell).1 + 2)) && cell_value(
            pre,
            w,
            (as_cell(cell).0, as_cell(cell).1 + 2),
        ) == wall ==> (as_cell(cell).0, as_cell(cell).1 + 2) == as_cell(chosen)),
    ensures
        post.len() == pre.len(),
        two_colored(post, path, wall),
        cell_value(post, w, og) == path,
        all_paths_reachable(post, w, h, path, og),
        forall|p: (int, int)|
            in_bounds(w, h, p) && #[trigger] cell_value(post, w, p) == path ==> room_or_door(og, p)
                && door_connects(post, w, h, path, og, p),
        forall|p: (int, int)|
            in_bounds(w, h, p) && #[trigger] cell_value(post, w, p) == path && is_room(og, p)
                ==> on_stack(stack1, p) || room_closed(post, w, h, path, p),
        forall|k: int|
            0 <= k < stack1.len() ==> in_bounds(w, h, as_cell(#[trigger] stack1[k])) && cell_value(
                post,
                w,
                as_cell(stack1[k]),
            ) == path && is_room(og, as_cell(stack1[k])),
        count_path_rooms(post, w, path, og, post.len() as int) == count_path_doors(
            post,
            w,
            path,
            og,
            post.len() as int,
        ) + 1,
        count_matching(post, wall) < count_matching(pre, wall),
{
    let c = as_cell(cell);
    let e = as_cell(chosen);
    let m = middle_point_spec(c, e);
    let ie = cell_index(w, e);
    let im = cell_index(w, m);
    let dropped = stack0.drop_last();
    lemma_middle_of_two_apart(c, e, w, h);
    lemma_lattice_step(og, c, e);
    lemma_index_in_range(w, h, e);
    lemma_index_in_range(w, h, m);
    lemma_index_distinct(w, h, m, e);

    // Only path was added, so the old facts carry over.
    assert forall|p: (int, int)|
        in_bounds(w, h, p) && #[trigger] cell_value(pre, w, p) == path implies cell_value(
        post,
        w,
        p,
    ) == path by {
        lemma_index_in_range(w, h, p);
    }

    // Stack bookkeeping: entries below the popped cell survive the pushes.
    assert forall|p: (int, int)| on_stack(dropped, p) implies on_stack(stack1, p) by {
        let k = choose|k: int| 0 <= k < dropped.len() && as_cell(#[trigger] dropped[k]) == p;
        assert(as_cell(stack1[k]) == p);
    }
    assert(as_cell(stack1[stack1.len() - 1]) == e);
    assert(on_stack(stack1, e));
    if multi {
        assert(as_cell(stack1[stack0.len() - 1]) == c);
        assert(on_stack(stack1, c));
    } else {
        // the one candidate was carved, every other in-bounds 2-step
        // neighbor was already a path
        assert(room_closed(post, w, h, path, c)) by {
            if in_bounds(w, h, (c.0 - 2, c.1)) {
                lemma_index_in_range(w, h, (c.0 - 2, c.1));
            }
            if in_bounds(w, h, (c.0 + 2, c.1)) {
                lemma_index_in_range(w, h, (c.0 + 2, c.1));
            }
            if in_bounds(w, h, (c.0, c.1 - 2)) {
                lemma_index_in_range(w, h, (c.0, c.1 - 2));
            }
            if in_bounds(w, h, (c.0, c.1 + 2)) {
                lemma_index_in_range(w, h, (c.0, c.1 + 2));
            }
        }
    }

    // The carved room and its door are reachable.
    assert(cell_value(post, w, c) == path);
    assert(reachable(pre, w, h, path, og, c));
    lemma_reachable_monotone(pre, post, w, h, path, og, c);
    assert(cell_value(post, w, m) == path);
    lemma_reachable_step(post, w, h, path, og, c, m);
    assert(cell_value(post, w, e) == path);
    lemma_reachable_step(post, w, h, path, og, m, e);

    // Every path cell is still reachable, on the lattice, and a door only
    // where it joins two carved rooms.
    assert forall|p: (int, int)|
        in_bounds(w, h, p) && #[trigger] cell_value(post, w, p) == path implies reachable(
        post,
        w,
        h,
        path,
        og,
        p,
    ) && room_or_door(og, p) && door_connects(post, w, h, path, og, p) by {
        lemma_index_in_range(w, h, p);
        if cell_value(pre, w, p) == path {
            lemma_reachable_monotone(pre, post, w, h, path, og, p);
            lemma_door_monotone(pre, post, w, h, path, og, p);
        } else if cell_index(w, p) == ie {
            lemma_index_injective(w, h, p, e);
        } else {
            assert(cell_index(w, p) == im);
            lemma_index_injective(w, h, p, m);
            // the door's odd-axis neighbors are the two rooms
            assert(door_connects(post, w, h, path, og, m)) by {
                lemma_parity(og.0, c.0);
                lemma_parity(og.1, c.1);
            }
        }
    }

    // Every painted room is on the new stack or finished.
    assert forall|p: (int, int)|
        in_bounds(w, h, p) && #[trigger] cell_value(post, w, p) == path && is_room(og, p) implies
        on_stack(stack1, p) || room_closed(post, w, h, path, p) by {
        lemma_index_in_range(w, h, p);
        if cell_value(pre, w, p) == path {
            if room_closed(pre, w, h, path, p) {
                lemma_closed_monotone(pre, post, w, h, path, p);
            } else {
                let k = choose|k: int| 0 <= k < stack0.len() && as_cell(#[trigger] stack0[k]) == p;
                if k < stack0.len() - 1 {
                    assert(as_cell(dropped[k]) == p);
                    assert(on_stack(dropped, p));
                } else {
                    assert(p == c);
                }
            }
        } else if cell_index(w, p) == ie {
            lemma_index_injective(w, h, p, e);
        } else {
            assert(cell_index(w, p) == im);
            lemma_index_injective(w, h, p, m);
            // the door is no room
            assert(false);
        }
    }

    // The stack entries stay in-bounds path rooms.
    assert forall|k: int| 0 <= k < stack1.len() implies in_bounds(
        w,
        h,
        as_cell(#[trigger] stack1[k]),
    ) && cell_value(post, w, as_cell(stack1[k])) == path && is_room(og, as_cell(stack1[k])) by {
        if k < dropped.len() {
            assert(stack1[k] == stack0[k]);
        } else if multi && k == dropped.len() {
            assert(stack1[k] == cell);
        } else {
            assert(stack1[k] == chosen);
        }
    }

    // The chosen room was a wall, so the wall count drops.
    lemma_count_update(pre, wall, ie, path);
    lemma_count_update(pre.update(ie, path), wall, im, path);

    // One room and one door were carved: the tree certificate (one more room
    // than doors) is kept.
    lemma_carve_counts(pre, w, h, path, wall, og, c, e);
}

/// Some entry of the candidate list `s` names the cell `q`.
pub open spec fn on_list(s: Seq<(usize, usize)>, q: (int, int)) -> bool {
    exists|k: int| 0 <= k < s.len() && as_cell(#[trigger] s[k]) == q
}

/// Popping a finished room keeps every painted room covered: whatever was on
/// the stack below it is still there.
proof fn lemma_carve_backtrack(
    cells: Seq<u32>,
    stack0: Seq<(usize, usize)>,
    w: nat,
    h: nat,
    path: u32,
    og: (int, int),
    c: (int, int),
)
    requires
        forall|p: (int, int)|
            in_bounds(w, h, p) && #[trigger] cell_value(cells, w, p) == path && is_room(og, p)
                ==> on_stack(stack0, p) || room_closed(cells, w, h, path, p),
        stack0.len() > 0,
        c == as_cell(stack0[stack0.len() - 1]),
        room_closed(cells, w, h, path, c),
    ensures
        forall|p: (int, int)|
            in_bounds(w, h, p) && #[trigger] cell_value(cells, w, p) == path && is_room(og, p)
                ==> on_stack(stack0.drop_last(), p) || room_closed(cells, w, h, path, p),
{
    assert forall|p: (int, int)|
        in_bounds(w, h, p) && #[trigger] cell_value(cells, w, p) == path && is_room(og, p) implies
        on_stack(stack0.drop_last(), p) || room_closed(cells, w, h, path, p) by {
        if !room_closed(cells, w, h, path, p) {
            let k = choose|k: int| 0 <= k < stack0.len() && as_cell(#[trigger] stack0[k]) == p;
            assert(k < stack0.len() - 1);
            assert(as_cell(stack0.drop_last()[k]) == p);
            assert(on_stack(stack0.drop_last(), p));
        }
    }
}

/// What a relaxation pass may do to the grid: leave a cell alone, or turn a
/// wall cell into a path cell. Nothing else, and never the reverse.
pub open spec fn relax_delta(pre: Seq<u32>, post: Seq<u32>, path: u32, wall: u32) -> bool {
    &&& post.len() == pre.len()
    &&& forall|i: int|
        0 <= i < pre.len() ==> post[i] == pre[i] || (pre[i] == wall && #[trigger] post[i] == path)
}

/// Writing `path` over a current wall cell keeps the pass within
/// `relax_delta` of the original grid.
proof fn lemma_delta_set_path(pre: Seq<u32>, cur: Seq<u32>, path: u32, wall: u32, i: int)
    requires
        relax_delta(pre, cur, path, wall),
        0 <= i < cur.len(),
        cur[i] == wall,
    ensures
        relax_delta(pre, cur.update(i, path), path, wall),
{
    let post = cur.update(i, path);
    assert forall|j: int| 0 <= j < pre.len() implies post[j] == pre[j] || (pre[j] == wall
        && #[trigger] post[j] == path) by {
        if j == i {
            assert(pre[j] == wall);
        }
    }
}

/// The wall cell between two rooms of the lattice: in bounds, adjacent to
/// both, and distinct from both.
pub proof fn lemma_middle_of_two_apart(a: (int, int), b: (int, int), w: nat, h: nat)
    requires
        two_apart(a, b),
        in_bounds(w, h, a),
        in_bounds(w, h, b),
    ensures
        in_bounds(w, h, middle_point_spec(a, b)),
        adjacent(a, middle_point_spec(a, b)),
        adjacent(middle_point_spec(a, b), b),
        middle_point_spec(a, b) != a,
        middle_point_spec(a, b) != b,
{
}

/// The cell halfway between `a` and `b`: the mean along the one axis where
/// they differ, or `a` itself when they coincide.
pub open spec fn middle_point_spec(a: (int, int), b: (int, int)) -> (int, int) {
    if a.0 != b.0 {
        let lo = if a.0 <= b.0 { a.0 } else { b.0 };
        let hi = if a.0 <= b.0 { b.0 } else { a.0 };
        (lo + (hi - lo) / 2, a.1)
    } else if a.1 != b.1 {
        let lo = if a.1 <= b.1 { a.1 } else { b.1 };
        let hi = if a.1 <= b.1 { b.1 } else { a.1 };
        (a.0, lo + (hi - lo) / 2)
    } else {
        a
    }
}

/// The cell halfway between `a` and `b` (the "door" between two rooms).
pub fn middle_point(a: (usize, usize), b: (usize, usize)) -> (r: (usize, usize))
    ensures
        as_cell(r) == middle_point_spec(as_cell(a), as_cell(b)),
{
    if a.0 != b.0 {
        let lo = if a.0 <= b.0 { a.0 } else { b.0 };
        let hi = if a.0 <= b.0 { b.0 } else { a.0 };
        (lo + (hi - lo) / 2, a.1)
    } else if a.1 != b.1 {
        let lo = if a.1 <= b.1 { a.1 } else { b.1 };
        let hi = if a.1 <= b.1 { b.1 } else { a.1 };
        (a.0, lo + (hi - lo) / 2)
    } else {
        a
    }
}

/// 1 when `p` is an in-bounds path cell, else 0.
pub open spec fn path_indicator(cells: Seq<u32>, w: nat, h: nat, path: u32, p: (int, int)) -> int {
    if in_bounds(w, h, p) && cell_value(cells, w, p) == path {
        1
    } else {
        0
    }
}

/// How many of the four neighbors of `p` are in-bounds path cells.
pub open spec fn path_around_spec(
    cells: Seq<u32>,
    w: nat,
    h: nat,
    path: u32,
    p: (int, int),
) -> int {
    path_indicator(cells, w, h, path, (p.0 - 1, p.1)) + path_indicator(
        cells,
        w,
        h,
        path,
        (p.0 + 1, p.1),
    ) + path_indicator(cells, w, h, path, (p.0, p.1 - 1)) + path_indicator(
        cells,
        w,
        h,
        path,
        (p.0, p.1 + 1),
    )
}

/// The grid `cells` is a relaxation of a carved maze `mid`: `mid` is
/// two-colored, carves only the origin's lattice and all of its component,
/// with every path cell reachable from `origin`; `cells` differs from it
/// only by walls opened into paths, and either no wall is left or at least
/// `quota` walls were opened.
pub open spec fn relaxation_of(
    cells: Seq<u32>,
    mid: Seq<u32>,
    w: nat,
    h: nat,
    path: u32,
    wall: u32,
    origin: (int, int),
    quota: int,
) -> bool {
    &&& mid.len() == cells.len()
    &&& in_bounds(w, h, origin)
    &&& two_colored(mid, path, wall)
    &&& cell_value(mid, w, origin) == path
    &&& all_paths_reachable(mid, w, h, path, origin)
    &&& (forall|p: (int, int)|
        in_bounds(w, h, p) && #[trigger] cell_value(mid, w, p) == path ==> room_or_door(origin, p)
            && door_connects(mid, w, h, path, origin, p))
    &&& (forall|p: (int, int)|
        #[trigger] lattice_reachable(w, h, origin, p) ==> cell_value(mid, w, p) == path)
    &&& count_path_rooms(mid, w, path, origin, mid.len() as int) == count_path_doors(
        mid,
        w,
        path,
        origin,
        mid.len() as int,
    ) + 1
    &&& relax_delta(mid, cells, path, wall)
    &&& (count_matching(cells, wall) == 0 || count_matching(mid, wall) - count_matching(
        cells,
        wall,
    ) >= quota)
}

/// A candidate room for the carving walk: an in-bounds wall cell two lattice
/// steps away from the room `c`.
pub open spec fn carve_candidate(
    cells: Seq<u32>,
    w: nat,
    h: nat,
    wall: u32,
    c: (int, int),
    e: (int, int),
) -> bool {
    in_bounds(w, h, e) && cell_value(cells, w, e) == wall && two_apart(c, e)
}

impl MazeConfig {
    /// Carve a spanning tree of path cells over the 2-step lattice by a
    /// randomized iterative backtracker, starting from a random origin cell.
    /// Every path cell of the result is reachable from the returned origin,
    /// every carved cell lies on the origin's lattice (no cell with two odd
    /// offsets is touched), every carved door joins two carved rooms, and
    /// every room in the origin's lattice component is carved: the walk
    /// never stops early. The carved graph is a tree: it is connected and
    /// holds exactly one door fewer than rooms, so no cycle exists and any
    /// two rooms are joined by exactly one simple path.
    #[verifier::rlimit(100)]
    pub fn carve(&self, buffer: &mut GridBuffer, rng: &mut rand::rngs::StdRng) -> (origin: (
        usize,
        usize,
    ))
        requires
            old(buffer).wf(),
            old(buffer).width_spec() >= 3,
            old(buffer).height_spec() >= 3,
            self.path_color != self.wall_color,
        ensures
            final(buffer).wf(),
            final(buffer).width_spec() == old(buffer).width_spec(),
            final(buffer).height_spec() == old(buffer).height_spec(),
            two_colored(final(buffer)@, self.path_color, self.wall_color),
            in_bounds(final(buffer).width_spec(), final(buffer).height_spec(), as_cell(origin)),
            cell_value(final(buffer)@, final(buffer).width_spec(), as_cell(origin))
                == self.path_color,
            all_paths_reachable(
                final(buffer)@,
                final(buffer).width_spec(),
                final(buffer).height_spec(),
                self.path_color,
                as_cell(origin),
            ),
            forall|p: (int, int)|
                in_bounds(final(buffer).width_spec(), final(buffer).height_spec(), p)
                    && #[trigger] cell_value(final(buffer)@, final(buffer).width_spec(), p)
                    == self.path_color ==> room_or_door(as_cell(origin), p),
            forall|p: (int, int)|
                in_bounds(final(buffer).width_spec(), final(buffer).height_spec(), p)
                    && #[trigger] cell_value(final(buffer)@, final(buffer).width_spec(), p)
                    == self.path_color ==> door_connects(
                    final(buffer)@,
                    final(buffer).width_spec(),
                    final(buffer).height_spec(),
                    self.path_color,
                    as_cell(origin),
                    p,
                ),
            forall|p: (int, int)|
                #[trigger] lattice_reachable(
                    final(buffer).width_spec(),
                    final(buffer).height_spec(),
                    as_cell(origin),
                    p,
                ) ==> cell_value(final(buffer)@, final(buffer).width_spec(), p)
                    == self.path_color,
            count_path_rooms(
                final(buffer)@,
                final(buffer).width_spec(),
                self.path_color,
                as_cell(origin),
                final(buffer)@.len() as int,
            ) == count_path_doors(
                final(buffer)@,
                final(buffer).width_spec(),
                self.path_color,
                as_cell(origin),
                final(buffer)@.len() as int,
            ) + 1,
    {
        let w = buffer.width();
        let h = buffer.height();
        let pc = self.path_color;
        let wc = self.wall_color;
        buffer.fill(wc);
        let ghost filled = buffer@;

        let x0 = rand_range(rng, 0, w);
        let y0 = rand_range(rng, 0, h);
        let origin = (x0, y0);
        let ghost og = as_cell(origin);

        let mut stack: Vec<(usize, usize)> = Vec::new();
        stack.push(origin);
        proof {
            lemma_index_in_range(w as nat, h as nat, og);
        }
        buffer.set(x0, y0, pc);
        proof {
            assert(as_cell(stack@[0]) == og);
            assert(on_stack(stack@, og));
            assert(is_room(og, og));
            assert(door_connects(buffer@, w as nat, h as nat, pc, og, og));
            assert(buffer@ == filled.update(cell_index(w as nat, og), pc));
            lemma_initial_counts(filled, w as nat, h as nat, pc, og);
            assert forall|p: (int, int)|
                in_bounds(w as nat, h as nat, p) && #[trigger] cell_value(buffer@, w as nat, p)
                    == pc implies reachable(buffer@, w as nat, h as nat, pc, og, p) && p == og by {
                lemma_index_in_range(w as nat, h as nat, p);
                if p != og {
                    lemma_index_injective(w as nat, h as nat, p, og);
                    assert(false);
                } else {
                    lemma_reachable_self(buffer@, w as nat, h as nat, pc, p);
                }
            }
        }

        while stack.len() != 0
            invariant
                buffer.wf(),
                buffer.width_spec() == w as nat,
                buffer.height_spec() == h as nat,
                w >= 3,
                h >= 3,
                pc == self.path_color,
                wc == self.wall_color,
                pc != wc,
                two_colored(buffer@, pc, wc),
                in_bounds(w as nat, h as nat, og),
                cell_value(buffer@, w as nat, og) == pc,
                forall|k: int|
                    0 <= k < stack@.len() ==> in_bounds(
                        w as nat,
                        h as nat,
                        as_cell(#[trigger] stack@[k]),
                    ) && cell_value(buffer@, w as nat, as_cell(stack@[k])) == pc && is_room(
                        og,
                        as_cell(stack@[k]),
                    ),
                all_paths_reachable(buffer@, w as nat, h as nat, pc, og),
                count_path_rooms(buffer@, w as nat, pc, og, buffer@.len() as int)
                    == count_path_doors(buffer@, w as nat, pc, og, buffer@.len() as int) + 1,
                forall|p: (int, int)|
                    in_bounds(w as nat, h as nat, p) && #[trigger] cell_value(buffer@, w as nat, p)
                        == pc ==> room_or_door(og, p) && door_connects(
                        buffer@,
                        w as nat,
                        h as nat,
                        pc,
                        og,
                        p,
                    ),
                forall|p: (int, int)|
                    in_bounds(w as nat, h as nat, p) && #[trigger] cell_value(buffer@, w as nat, p)
                        == pc && is_room(og, p) ==> on_stack(stack@, p) || room_closed(
                        buffer@,
                        w as nat,
                        h as nat,
                        pc,
                        p,
                    ),
            decreases count_matching(buffer@, wc), stack.len(),
        {
            self.carve_step(buffer, rng, &mut stack, w, h, Ghost(og));
        }
        proof {
            // the stack is empty, so every painted room is finished, and a
            // lattice chain from the origin can only run over painted rooms
            assert forall|p: (int, int)|
                #[trigger] lattice_reachable(w as nat, h as nat, og, p) implies cell_value(
                buffer@,
                w as nat,
                p,
            ) == pc by {
                let s = choose|s: Seq<(int, int)>|
                    lattice_chain(w as nat, h as nat, s) && s[0] == og && s[s.len() - 1] == p;
                assert forall|q: (int, int)|
                    in_bounds(w as nat, h as nat, q) && #[trigger] cell_value(buffer@, w as nat, q)
                        == pc && is_room(og, q) implies room_closed(
                    buffer@,
                    w as nat,
                    h as nat,
                    pc,
                    q,
                ) by {
                    assert(!on_stack(stack@, q));
                }
                lemma_chain_painted(buffer@, w as nat, h as nat, pc, og, s);
            }
        }
        origin
    }


    /// Probe the four 2-step lattice neighbors of the in-bounds cell `cell`
    /// and list those that are in-bounds walls, in left, right, up, down
    /// order: the unvisited rooms the walk may carve next. Every in-bounds
    /// wall among the four is listed, so an empty list means the room is
    /// finished.
    fn collect_candidates(&self, buffer: &GridBuffer, cell: (usize, usize), w: usize, h: usize) -> (
        r: Vec<(usize, usize)>)
        requires
            buffer.wf(),
            buffer.width_spec() == w as nat,
            buffer.height_spec() == h as nat,
            w >= 3,
            h >= 3,
            in_bounds(w as nat, h as nat, as_cell(cell)),
        ensures
            forall|k: int|
                0 <= k < r@.len() ==> carve_candidate(
                    buffer@,
                    w as nat,
                    h as nat,
                    self.wall_color,
                    as_cell(cell),
                    as_cell(#[trigger] r@[k]),
                ),
            ({
                let c = as_cell(cell);
                &&& in_bounds(w as nat, h as nat, (c.0 - 2, c.1)) && cell_value(
                    buffer@,
                    w as nat,
                    (c.0 - 2, c.1),
                ) == self.wall_color ==> on_list(r@, (c.0 - 2, c.1))
                &&& in_bounds(w as nat, h as nat, (c.0 + 2, c.1)) && cell_value(
                    buffer@,
                    w as nat,
                    (c.0 + 2, c.1),
                ) == self.wall_color ==> on_list(r@, (c.0 + 2, c.1))
                &&& in_bounds(w as nat, h as nat, (c.0, c.1 - 2)) && cell_value(
                    buffer@,
                    w as nat,
                    (c.0, c.1 - 2),
                ) == self.wall_color ==> on_list(r@, (c.0, c.1 - 2))
                &&& in_bounds(w as nat, h as nat, (c.0, c.1 + 2)) && cell_value(
                    buffer@,
                    w as nat,
                    (c.0, c.1 + 2),
                ) == self.wall_color ==> on_list(r@, (c.0, c.1 + 2))
            }),
    {
        let (cx, cy) = cell;
        let wc = self.wall_color;
        let ghost c = as_cell(cell);
        let mut to_explore: Vec<(usize, usize)> = Vec::new();
        if cx >= 2 {
            if buffer.at(cx - 2, cy) == wc {
                to_explore.push((cx - 2, cy));
                assert(as_cell(to_explore@[to_explore@.len() - 1]) == (c.0 - 2, c.1));
            }
        }
        if cx < w - 2 {
            if buffer.at(cx + 2, cy) == wc {
                to_explore.push((cx + 2, cy));
                assert(as_cell(to_explore@[to_explore@.len() - 1]) == (c.0 + 2, c.1));
            }
        }
        if cy >= 2 {
            if buffer.at(cx, cy - 2) == wc {
                to_explore.push((cx, cy - 2));
                assert(as_cell(to_explore@[to_explore@.len() - 1]) == (c.0, c.1 - 2));
            }
        }
        if cy < h - 2 {
            if buffer.at(cx, cy + 2) == wc {
                to_explore.push((cx, cy + 2));
                assert(as_cell(to_explore@[to_explore@.len() - 1]) == (c.0, c.1 + 2));
            }
        }
        proof {
            // name each entry so the membership claims have their witnesses
            if to_explore@.len() >= 1 {
                assert(as_cell(to_explore@[0]) == as_cell(to_explore@[0]));
            }
            if to_explore@.len() >= 2 {
                assert(as_cell(to_explore@[1]) == as_cell(to_explore@[1]));
            }
            if to_explore@.len() >= 3 {
                assert(as_cell(to_explore@[2]) == as_cell(to_explore@[2]));
            }
            if to_explore@.len() >= 4 {
                assert(as_cell(to_explore@[3]) == as_cell(to_explore@[3]));
            }
        }
        to_explore
    }

    /// Carve the chosen candidate room and the door to it, and push it (and,
    /// at a junction, the current cell again) onto the walk's stack.
    #[verifier::rlimit(100)]
    fn carve_advance(
        &self,
        buffer: &mut GridBuffer,
        stack: &mut Vec<(usize, usize)>,
        cell: (usize, usize),
        chosen: (usize, usize),
        multi: bool,
        w: usize,
        h: usize,
        Ghost(og): Ghost<(int, int)>,
        Ghost(stack0): Ghost<Seq<(usize, usize)>>,
    )
        requires
            stack0.len() > 0,
            old(stack)@ == stack0.drop_last(),
            cell == stack0[stack0.len() - 1],
            old(buffer).wf(),
            old(buffer).width_spec() == w as nat,
            old(buffer).height_spec() == h as nat,
            w >= 3,
            h >= 3,
            self.path_color != self.wall_color,
            two_colored(old(buffer)@, self.path_color, self.wall_color),
            in_bounds(w as nat, h as nat, og),
            cell_value(old(buffer)@, w as nat, og) == self.path_color,
            forall|k: int|
                0 <= k < stack0.len() ==> in_bounds(
                    w as nat,
                    h as nat,
                    as_cell(#[trigger] stack0[k]),
                ) && cell_value(old(buffer)@, w as nat, as_cell(stack0[k])) == self.path_color && is_room(
                    og,
                    as_cell(stack0[k]),
                ),
            all_paths_reachable(old(buffer)@, w as nat, h as nat, self.path_color, og),
            count_path_rooms(old(buffer)@, w as nat, self.path_color, og, old(buffer)@.len() as int)
                == count_path_doors(old(buffer)@, w as nat, self.path_color, og, old(buffer)@.len() as int) + 1,
            forall|p: (int, int)|
                in_bounds(w as nat, h as nat, p) && #[trigger] cell_value(old(buffer)@, w as nat, p)
                    == self.path_color ==> room_or_door(og, p) && door_connects(
                    old(buffer)@,
                    w as nat,
                    h as nat,
                    self.path_color,
                    og,
                    p,
                ),
            forall|p: (int, int)|
                in_bounds(w as nat, h as nat, p) && #[trigger] cell_value(old(buffer)@, w as nat, p)
                    == self.path_color && is_room(og, p) ==> on_stack(stack0, p) || room_closed(
                    old(buffer)@,
                    w as nat,
                    h as nat,
                    self.path_color,
                    p,
                ),
            in_bounds(w as nat, h as nat, as_cell(chosen)),
            cell_value(old(buffer)@, w as nat, as_cell(chosen)) == self.wall_color,
            two_apart(as_cell(cell), as_cell(chosen)),
            !multi ==> (in_bounds(w as nat, h as nat, (as_cell(cell).0 - 2, as_cell(cell).1))
                && cell_value(old(buffer)@, w as nat, (as_cell(cell).0 - 2, as_cell(cell).1))
                == self.wall_color ==> (as_cell(cell).0 - 2, as_cell(cell).1) == as_cell(chosen)),
            !multi ==> (in_bounds(w as nat, h as nat, (as_cell(cell).0 + 2, as_cell(cell).1))
                && cell_value(old(buffer)@, w as nat, (as_cell(cell).0 + 2, as_cell(cell).1))
                == self.wall_color ==> (as_cell(cell).0 + 2, as_cell(cell).1) == as_cell(chosen)),
            !multi ==> (in_bounds(w as nat, h as nat, (as_cell(cell).0, as_cell(cell).1 - 2))
                && cell_value(old(buffer)@, w as nat, (as_cell(cell).0, as_cell(cell).1 - 2))
                == self.wall_color ==> (as_cell(cell).0, as_cell(cell).1 - 2) == as_cell(chosen)),
            !multi ==> (in_bounds(w as nat, h as nat, (as_cell(cell).0, as_cell(cell).1 + 2))
                && cell_value(old(buffer)@, w as nat, (as_cell(cell).0, as_cell(cell).1 + 2))
                == self.wall_color ==> (as_cell(cell).0, as_cell(cell).1 + 2) == as_cell(chosen)),
        ensures
            final(buffer).wf(),
            final(buffer).width_spec() == w as nat,
            final(buffer).height_spec() == h as nat,
            w >= 3,
            h >= 3,
            self.path_color != self.wall_color,
            two_colored(final(buffer)@, self.path_color, self.wall_color),
            in_bounds(w as nat, h as nat, og),
            cell_value(final(buffer)@, w as nat, og) == self.path_color,
            forall|k: int|
                0 <= k < final(stack)@.len() ==> in_bounds(
                    w as nat,
                    h as nat,
                    as_cell(#[trigger] final(stack)@[k]),
                ) && cell_value(final(buffer)@, w as nat, as_cell(final(stack)@[k])) == self.path_color && is_room(
                    og,
                    as_cell(final(stack)@[k]),
                ),
            all_paths_reachable(final(buffer)@, w as nat, h as nat, self.path_color, og),
            count_path_rooms(final(buffer)@, w as nat, self.path_color, og, final(buffer)@.len() as int)
                == count_path_doors(final(buffer)@, w as nat, self.path_color, og, final(buffer)@.len() as int) + 1,
            forall|p: (int, int)|
                in_bounds(w as nat, h as nat, p) && #[trigger] cell_value(final(buffer)@, w as nat, p)
                    == self.path_color ==> room_or_door(og, p) && door_connects(
                    final(buffer)@,
                    w as nat,
                    h as nat,
                    self.path_color,
                    og,
                    p,
                ),
            forall|p: (int, int)|
                in_bounds(w as nat, h as nat, p) && #[trigger] cell_value(final(buffer)@, w as nat, p)
                    == self.path_color && is_room(og, p) ==> on_stack(final(stack)@, p) || room_closed(
                    final(buffer)@,
                    w as nat,
                    h as nat,
                    self.path_color,
                    p,
                ),
            count_matching(final(buffer)@, self.wall_color) < count_matching(
                old(buffer)@,
                self.wall_color,
            ),
    {
        let pc = self.path_color;
        let wc = self.wall_color;
        if multi {
            stack.push(cell);
        }
        stack.push(chosen);

        let ghost pre = buffer@;
        let ghost e = as_cell(chosen);
        let ghost m = middle_point_spec(as_cell(cell), e);
        proof {
            lemma_middle_of_two_apart(as_cell(cell), e, w as nat, h as nat);
            lemma_index_in_range(w as nat, h as nat, e);
            lemma_index_in_range(w as nat, h as nat, m);
        }
        buffer.set(chosen.0, chosen.1, pc);
        let door = middle_point(cell, chosen);
        buffer.set(door.0, door.1, pc);

        proof {
            assert(buffer@ =~= pre.update(cell_index(w as nat, e), pc).update(
                cell_index(w as nat, m),
                pc,
            ));
            assert(stack@ =~= if multi {
                stack0.drop_last().push(cell).push(chosen)
            } else {
                stack0.drop_last().push(chosen)
            });
            lemma_carve_advance(
                pre,
                buffer@,
                stack0,
                stack@,
                cell,
                chosen,
                multi,
                w as nat,
                h as nat,
                pc,
                wc,
                og,
            );
        }
    }

    /// One step of the carving walk: pop a cell, probe its four lattice
    /// neighbors, and either backtrack (no candidate) or carve a chosen
    /// candidate room together with the door to it. Either the wall count
    /// drops or the grid is untouched and the stack shrinks.
    #[verifier::rlimit(100)]
    fn carve_step(
        &self,
        buffer: &mut GridBuffer,
        rng: &mut rand::rngs::StdRng,
        stack: &mut Vec<(usize, usize)>,
        w: usize,
        h: usize,
        Ghost(og): Ghost<(int, int)>,
    )
        requires
            old(stack)@.len() > 0,
            old(buffer).wf(),
            old(buffer).width_spec() == w as nat,
            old(buffer).height_spec() == h as nat,
            w >= 3,
            h >= 3,
            self.path_color != self.wall_color,
            two_colored(old(buffer)@, self.path_color, self.wall_color),
            in_bounds(w as nat, h as nat, og),
            cell_value(old(buffer)@, w as nat, og) == self.path_color,
            forall|k: int|
                0 <= k < old(stack)@.len() ==> in_bounds(
                    w as nat,
                    h as nat,
                    as_cell(#[trigger] old(stack)@[k]),
                ) && cell_value(old(buffer)@, w as nat, as_cell(old(stack)@[k])) == self.path_color && is_room(
                    og,
                    as_cell(old(stack)@[k]),
                ),
            all_paths_reachable(old(buffer)@, w as nat, h as nat, self.path_color, og),
            count_path_rooms(old(buffer)@, w as nat, self.path_color, og, old(buffer)@.len() as int)
                == count_path_doors(old(buffer)@, w as nat, self.path_color, og, old(buffer)@.len() as int) + 1,
            forall|p: (int, int)|
                in_bounds(w as nat, h as nat, p) && #[trigger] cell_value(old(buffer)@, w as nat, p)
                    == self.path_color ==> room_or_door(og, p) && door_connects(
                    old(buffer)@,
                    w as nat,
                    h as nat,
                    self.path_color,
                    og,
                    p,
                ),
            forall|p: (int, int)|
                in_bounds(w as nat, h as nat, p) && #[trigger] cell_value(old(buffer)@, w as nat, p)
                    == self.path_color && is_room(og, p) ==> on_stack(old(stack)@, p) || room_closed(
                    old(buffer)@,
                    w as nat,
                    h as nat,
                    self.path_color,
                    p,
                ),
        ensures
            final(buffer).wf(),
            final(buffer).width_spec() == w as nat,
            final(buffer).height_spec() == h as nat,
            w >= 3,
            h >= 3,
            self.path_color != self.wall_color,
            two_colored(final(buffer)@, self.path_color, self.wall_color),
            in_bounds(w as nat, h as nat, og),
            cell_value(final(buffer)@, w as nat, og) == self.path_color,
            forall|k: int|
                0 <= k < final(stack)@.len() ==> in_bounds(
                    w as nat,
                    h as nat,
                    as_cell(#[trigger] final(stack)@[k]),
                ) && cell_value(final(buffer)@, w as nat, as_cell(final(stack)@[k])) == self.path_color && is_room(
                    og,
                    as_cell(final(stack)@[k]),
                ),
            all_paths_reachable(final(buffer)@, w as nat, h as nat, self.path_color, og),
            count_path_rooms(final(buffer)@, w as nat, self.path_color, og, final(buffer)@.len() as int)
                == count_path_doors(final(buffer)@, w as nat, self.path_color, og, final(buffer)@.len() as int) + 1,
            forall|p: (int, int)|
                in_bounds(w as nat, h as nat, p) && #[trigger] cell_value(final(buffer)@, w as nat, p)
                    == self.path_color ==> room_or_door(og, p) && door_connects(
                    final(buffer)@,
                    w as nat,
                    h as nat,
                    self.path_color,
                    og,
                    p,
                ),
            forall|p: (int, int)|
                in_bounds(w as nat, h as nat, p) && #[trigger] cell_value(final(buffer)@, w as nat, p)
                    == self.path_color && is_room(og, p) ==> on_stack(final(stack)@, p) || room_closed(
                    final(buffer)@,
                    w as nat,
                    h as nat,
                    self.path_color,
                    p,
                ),
            count_matching(final(buffer)@, self.wall_color) < count_matching(
                old(buffer)@,
                self.wall_color,
            ) || (final(buffer)@ == old(buffer)@ && final(stack)@.len() < old(stack)@.len()),
    {
        let pc = self.path_color;
        let wc = self.wall_color;
        let ghost stack0 = stack@;
        let cell = stack.pop().unwrap();
        let ghost c = as_cell(cell);

        let to_explore = self.collect_candidates(buffer, cell, w, h);

        match choose_cell(&to_explore, rng) {
            Some(chosen) => {
                let pushed_back = to_explore.len() > 1;
                proof {
                    let i = choose|i: int|
                        0 <= i < to_explore@.len() && to_explore@[i] == chosen;
                    assert(carve_candidate(
                        buffer@,
                        w as nat,
                        h as nat,
                        wc,
                        c,
                        as_cell(to_explore@[i]),
                    ));
                    if !pushed_back {
                        assert(to_explore@.len() == 1);
                        assert(as_cell(to_explore@[0]) == as_cell(chosen));
                        // a second in-bounds wall neighbor would also be
                        // on the singleton candidate list
                        if in_bounds(w as nat, h as nat, (c.0 - 2, c.1)) && cell_value(
                            buffer@,
                            w as nat,
                            (c.0 - 2, c.1),
                        ) == wc {
                            let k = choose|k: int|
                                0 <= k < to_explore@.len() && as_cell(#[trigger] to_explore@[k])
                                    == (c.0 - 2, c.1);
                            assert((c.0 - 2, c.1) == as_cell(chosen));
                        }
                        if in_bounds(w as nat, h as nat, (c.0 + 2, c.1)) && cell_value(
                            buffer@,
                            w as nat,
                            (c.0 + 2, c.1),
                        ) == wc {
                            let k = choose|k: int|
                                0 <= k < to_explore@.len() && as_cell(#[trigger] to_explore@[k])
                                    == (c.0 + 2, c.1);
                            assert((c.0 + 2, c.1) == as_cell(chosen));
                        }
                        if in_bounds(w as nat, h as nat, (c.0, c.1 - 2)) && cell_value(
                            buffer@,
                            w as nat,
                            (c.0, c.1 - 2),
                        ) == wc {
                            let k = choose|k: int|
                                0 <= k < to_explore@.len() && as_cell(#[trigger] to_explore@[k])
                                    == (c.0, c.1 - 2);
                            assert((c.0, c.1 - 2) == as_cell(chosen));
                        }
                        if in_bounds(w as nat, h as nat, (c.0, c.1 + 2)) && cell_value(
                            buffer@,
                            w as nat,
                            (c.0, c.1 + 2),
                        ) == wc {
                            let k = choose|k: int|
                                0 <= k < to_explore@.len() && as_cell(#[trigger] to_explore@[k])
                                    == (c.0, c.1 + 2);
                            assert((c.0, c.1 + 2) == as_cell(chosen));
                        }
                    }
                }
                self.carve_advance(
                    buffer,
                    stack,
                    cell,
                    chosen,
                    pushed_back,
                    w,
                    h,
                    Ghost(og),
                    Ghost(stack0),
                );
            }
            None => {
                proof {
                    // no candidate: the popped cell is finished, so losing
                    // it from the stack keeps every painted room covered
                    assert(to_explore@.len() == 0);
                    assert(room_closed(buffer@, w as nat, h as nat, pc, c)) by {
                        if in_bounds(w as nat, h as nat, (c.0 - 2, c.1)) {
                            lemma_index_in_range(w as nat, h as nat, (c.0 - 2, c.1));
                        }
                        if in_bounds(w as nat, h as nat, (c.0 + 2, c.1)) {
                            lemma_index_in_range(w as nat, h as nat, (c.0 + 2, c.1));
                        }
                        if in_bounds(w as nat, h as nat, (c.0, c.1 - 2)) {
                            lemma_index_in_range(w as nat, h as nat, (c.0, c.1 - 2));
                        }
                        if in_bounds(w as nat, h as nat, (c.0, c.1 + 2)) {
                            lemma_index_in_range(w as nat, h as nat, (c.0, c.1 + 2));
                        }
                    }
                    lemma_carve_backtrack(buffer@, stack0, w as nat, h as nat, pc, og, c);
                }
            },
        }
    }

    /// Count the 4-neighbors of the in-bounds cell `p` that are path cells.
    fn path_around(&self, p: (usize, usize), buffer: &GridBuffer) -> (r: usize)
        requires
            buffer.wf(),
            in_bounds(buffer.width_spec(), buffer.height_spec(), as_cell(p)),
        ensures
            r == path_around_spec(
                buffer@,
                buffer.width_spec(),
                buffer.height_spec(),
                self.path_color,
                as_cell(p),
            ),
    {
        let (x, y) = p;
        let w = buffer.width();
        let h = buffer.height();
        let mut count: usize = 0;
        if x >= 1 && buffer.at(x - 1, y) == self.path_color {
            count += 1;
        }
        if x + 1 < w && buffer.at(x + 1, y) == self.path_color {
            count += 1;
        }
        if y >= 1 && buffer.at(x, y - 1) == self.path_color {
            count += 1;
        }
        if y + 1 < h && buffer.at(x, y + 1) == self.path_color {
            count += 1;
        }
        count
    }

    /// Step A of the relaxation: for each interior border cell whose two
    /// border neighbors are walls and whose interior neighbor is a path, flip
    /// a coin and on success open it.
    fn soften_borders(&self, buffer: &mut GridBuffer, rng: &mut rand::rngs::StdRng)
        requires
            old(buffer).wf(),
            old(buffer).width_spec() >= 3,
            old(buffer).height_spec() >= 3,
        ensures
            final(buffer).wf(),
            final(buffer).width_spec() == old(buffer).width_spec(),
            final(buffer).height_spec() == old(buffer).height_spec(),
            relax_delta(old(buffer)@, final(buffer)@, self.path_color, self.wall_color),
            count_matching(final(buffer)@, self.wall_color) <= count_matching(
                old(buffer)@,
                self.wall_color,
            ),
    {
        let w = buffer.width();
        let h = buffer.height();
        let pc = self.path_color;
        let wc = self.wall_color;
        let ghost cells0 = buffer@;

        for x in 1..(w - 1)
            invariant
                buffer.wf(),
                buffer.width_spec() == w as nat,
                buffer.height_spec() == h as nat,
                w >= 3,
                h >= 3,
                relax_delta(cells0, buffer@, pc, wc),
                count_matching(buffer@, wc) <= count_matching(cells0, wc),
        {
            if buffer.at(x, 0) == wc && buffer.at(x - 1, 0) == wc && buffer.at(x + 1, 0) == wc
                && buffer.at(x, 1) == pc && rand_bool(rng) {
                proof {
                    lemma_index_in_range(w as nat, h as nat, (x as int, 0int));
                    lemma_delta_set_path(
                        cells0,
                        buffer@,
                        pc,
                        wc,
                        cell_index(w as nat, (x as int, 0int)),
                    );
                    lemma_count_update(buffer@, wc, cell_index(w as nat, (x as int, 0int)), pc);
                }
                buffer.set(x, 0, pc);
            }
            if buffer.at(x, h - 1) == wc && buffer.at(x - 1, h - 1) == wc && buffer.at(
                x + 1,
                h - 1,
            ) == wc && buffer.at(x, h - 2) == pc && rand_bool(rng) {
                proof {
                    lemma_index_in_range(w as nat, h as nat, (x as int, h - 1 as int));
                    lemma_delta_set_path(
                        cells0,
                        buffer@,
                        pc,
                        wc,
                        cell_index(w as nat, (x as int, h - 1 as int)),
                    );
                    lemma_count_update(buffer@, wc, cell_index(w as nat, (x as int, h - 1 as int)), pc);
                }
                buffer.set(x, h - 1, pc);
            }
        }
        for y in 1..(h - 1)
            invariant
                buffer.wf(),
                buffer.width_spec() == w as nat,
                buffer.height_spec() == h as nat,
                w >= 3,
                h >= 3,
                relax_delta(cells0, buffer@, pc, wc),
                count_matching(buffer@, wc) <= count_matching(cells0, wc),
        {
            if buffer.at(0, y) == wc && buffer.at(0, y - 1) == wc && buffer.at(0, y + 1) == wc
                && buffer.at(1, y) == pc && rand_bool(rng) {
                proof {
                    lemma_index_in_range(w as nat, h as nat, (0int, y as int));
                    lemma_delta_set_path(
                        cells0,
                        buffer@,
                        pc,
                        wc,
                        cell_index(w as nat, (0int, y as int)),
                    );
                    lemma_count_update(buffer@, wc, cell_index(w as nat, (0int, y as int)), pc);
                }
                buffer.set(0, y, pc);
            }
            if buffer.at(w - 1, y) == wc && buffer.at(w - 1, y - 1) == wc && buffer.at(
                w - 1,
                y + 1,
            ) == wc && buffer.at(w - 2, y) == pc && rand_bool(rng) {
                proof {
                    lemma_index_in_range(w as nat, h as nat, (w - 1 as int, y as int));
                    lemma_delta_set_path(
                        cells0,
                        buffer@,
                        pc,
                        wc,
                        cell_index(w as nat, (w - 1 as int, y as int)),
                    );
                    lemma_count_update(buffer@, wc, cell_index(w as nat, (w - 1 as int, y as int)), pc);
                }
                buffer.set(w - 1, y, pc);
            }
        }
    }

    /// Phase 1 of step B: sample random interior cells and open those walls
    /// with exactly two path neighbors, giving up after 100 unproductive
    /// picks in a row. Returns how many walls were opened.
    fn open_interesting_walls(&self, buffer: &mut GridBuffer, rng: &mut rand::rngs::StdRng) -> (r:
        usize)
        requires
            old(buffer).wf(),
            old(buffer).width_spec() >= 3,
            old(buffer).height_spec() >= 3,
            self.path_color != self.wall_color,
        ensures
            final(buffer).wf(),
            final(buffer).width_spec() == old(buffer).width_spec(),
            final(buffer).height_spec() == old(buffer).height_spec(),
            relax_delta(old(buffer)@, final(buffer)@, self.path_color, self.wall_color),
            r <= self.open_walls,
            count_matching(old(buffer)@, self.wall_color) == count_matching(
                final(buffer)@,
                self.wall_color,
            ) + r,
    {
        let w = buffer.width();
        let h = buffer.height();
        let pc = self.path_color;
        let wc = self.wall_color;
        let ghost cells0 = buffer@;

        let mut opened: usize = 0;
        let mut retry: usize = 0;
        while opened < self.open_walls && retry < 100
            invariant
                buffer.wf(),
                buffer.width_spec() == w as nat,
                buffer.height_spec() == h as nat,
                w >= 3,
                h >= 3,
                pc == self.path_color,
                wc == self.wall_color,
                pc != wc,
                relax_delta(cells0, buffer@, pc, wc),
                opened <= self.open_walls,
                retry <= 100,
                count_matching(cells0, wc) == count_matching(buffer@, wc) + opened,
            decreases self.open_walls - opened, 100 - retry,
        {
            let x = rand_range(rng, 1, w - 1);
            let y = rand_range(rng, 1, h - 1);
            if buffer.at(x, y) == wc && self.path_around((x, y), buffer) == 2 {
                opened += 1;
                proof {
                    lemma_index_in_range(w as nat, h as nat, (x as int, y as int));
                    lemma_delta_set_path(
                        cells0,
                        buffer@,
                        pc,
                        wc,
                        cell_index(w as nat, (x as int, y as int)),
                    );
                    lemma_count_update(buffer@, wc, cell_index(w as nat, (x as int, y as int)), pc);
                }
                buffer.set(x, y, pc);
                retry = 0;
            }
            retry += 1;
        }
        opened
    }

    /// Phase 2 of step B, run only when phase 1 fell short of the quota:
    /// scan the grid row-major and open remaining wall cells until one more
    /// than the configured quota has been opened in all, or no wall is left.
    fn flush_remaining_walls(&self, buffer: &mut GridBuffer, opened_so_far: usize)
        requires
            old(buffer).wf(),
            opened_so_far < self.open_walls,
            self.path_color != self.wall_color,
        ensures
            final(buffer).wf(),
            final(buffer).width_spec() == old(buffer).width_spec(),
            final(buffer).height_spec() == old(buffer).height_spec(),
            relax_delta(old(buffer)@, final(buffer)@, self.path_color, self.wall_color),
            count_matching(final(buffer)@, self.wall_color) == 0 || opened_so_far
                + count_matching(old(buffer)@, self.wall_color) - count_matching(
                final(buffer)@,
                self.wall_color,
            ) == self.open_walls + 1,
    {
        let w = buffer.width();
        let h = buffer.height();
        let pc = self.path_color;
        let wc = self.wall_color;
        let ghost cells0 = buffer@;

        let mut opened = opened_so_far;
        let mut done = false;
        let mut y: usize = 0;
        while y < h && !done
            invariant
                buffer.wf(),
                buffer.width_spec() == w as nat,
                buffer.height_spec() == h as nat,
                pc == self.path_color,
                wc == self.wall_color,
                pc != wc,
                relax_delta(cells0, buffer@, pc, wc),
                opened_so_far <= opened <= self.open_walls,
                y <= h,
                count_matching(buffer@, wc) + (opened - opened_so_far) + (if done {
                    1int
                } else {
                    0int
                }) == count_matching(cells0, wc),
                !done ==> forall|i: int| 0 <= i < y * w ==> buffer@[i] != wc,
                done ==> opened == self.open_walls,
            decreases h - y,
        {
            let mut x: usize = 0;
            while x < w && !done
                invariant
                    buffer.wf(),
                    buffer.width_spec() == w as nat,
                    buffer.height_spec() == h as nat,
                    pc == self.path_color,
                    wc == self.wall_color,
                    pc != wc,
                    relax_delta(cells0, buffer@, pc, wc),
                    opened_so_far <= opened <= self.open_walls,
                    x <= w,
                    y < h,
                    count_matching(buffer@, wc) + (opened - opened_so_far) + (if done {
                        1int
                    } else {
                        0int
                    }) == count_matching(cells0, wc),
                    !done ==> forall|i: int| 0 <= i < y * w + x ==> buffer@[i] != wc,
                    done ==> opened == self.open_walls,
                decreases w - x,
            {
                if buffer.at(x, y) == wc {
                    proof {
                        lemma_index_in_range(w as nat, h as nat, (x as int, y as int));
                        lemma_delta_set_path(
                            cells0,
                            buffer@,
                            pc,
                            wc,
                            cell_index(w as nat, (x as int, y as int)),
                        );
                        lemma_count_update(
                            buffer@,
                            wc,
                            cell_index(w as nat, (x as int, y as int)),
                            pc,
                        );
                    }
                    buffer.set(x, y, pc);
                    if opened == self.open_walls {
                        done = true;
                    } else {
                        opened += 1;
                    }
                }
                x += 1;
            }
            proof {
                if !done {
                    assert((y as int + 1) * (w as int) == y as int * (w as int) + w as int)
                        by (nonlinear_arith);
                }
            }
            y += 1;
        }
        proof {
            if !done {
                // the scan ran off the grid: no wall cell is left
                assert(y * w == buffer@.len()) by (nonlinear_arith)
                    requires
                        y == h,
                        buffer@.len() == w as nat * h as nat,
                ;
                lemma_count_zero(buffer@, wc);
            }
        }
    }

    /// The connectivity relaxer: soften the border, then open interior
    /// walls, preferring "interesting" ones, flushing the remainder only
    /// when the quota was not met. Only ever turns wall cells into path
    /// cells; a path cell is never lost. Afterwards either no wall is left
    /// or at least `open_walls` walls have been opened.
    pub fn relax(&self, buffer: &mut GridBuffer, rng: &mut rand::rngs::StdRng)
        requires
            old(buffer).wf(),
            old(buffer).width_spec() >= 3,
            old(buffer).height_spec() >= 3,
            self.path_color != self.wall_color,
        ensures
            final(buffer).wf(),
            final(buffer).width_spec() == old(buffer).width_spec(),
            final(buffer).height_spec() == old(buffer).height_spec(),
            relax_delta(old(buffer)@, final(buffer)@, self.path_color, self.wall_color),
            count_matching(final(buffer)@, self.wall_color) == 0 || count_matching(
                old(buffer)@,
                self.wall_color,
            ) - count_matching(final(buffer)@, self.wall_color) >= self.open_walls,
    {
        let ghost cells0 = buffer@;
        self.soften_borders(buffer, rng);
        let ghost cells1 = buffer@;
        let opened = self.open_interesting_walls(buffer, rng);
        let ghost cells2 = buffer@;
        if opened < self.open_walls {
            self.flush_remaining_walls(buffer, opened);
            proof {
                lemma_delta_transitive(cells0, cells1, cells2, self.path_color, self.wall_color);
                lemma_delta_transitive(cells0, cells2, buffer@, self.path_color, self.wall_color);
            }
        } else {
            proof {
                lemma_delta_transitive(cells0, cells1, cells2, self.path_color, self.wall_color);
            }
        }
    }

    /// Generate a maze: fill the grid with walls, carve a perfect maze from a
    /// random origin, then relax it. Afterwards every cell holds one of the
    /// two configured tags and at least one path cell exists.
    pub fn generate(&self, buffer: &mut GridBuffer, rng: &mut rand::rngs::StdRng)
        requires
            old(buffer).wf(),
            old(buffer).width_spec() >= 3,
            old(buffer).height_spec() >= 3,
            self.path_color != self.wall_color,
        ensures
            final(buffer).wf(),
            final(buffer).width_spec() == old(buffer).width_spec(),
            final(buffer).height_spec() == old(buffer).height_spec(),
            two_colored(final(buffer)@, self.path_color, self.wall_color),
            exists|p: (int, int)|
                in_bounds(final(buffer).width_spec(), final(buffer).height_spec(), p)
                    && #[trigger] cell_value(final(buffer)@, final(buffer).width_spec(), p)
                    == self.path_color,
            exists|mid: Seq<u32>, origin: (int, int)|
                #[trigger] relaxation_of(
                    final(buffer)@,
                    mid,
                    final(buffer).width_spec(),
                    final(buffer).height_spec(),
                    self.path_color,
                    self.wall_color,
                    origin,
                    self.open_walls as int,
                ),
    {
        let ghost w = old(buffer).width_spec();
        let ghost h = old(buffer).height_spec();
        let origin = self.carve(buffer, rng);
        let ghost carved = buffer@;
        self.relax(buffer, rng);
        proof {
            let pc = self.path_color;
            let wc = self.wall_color;
            assert forall|i: int| 0 <= i < buffer@.len() implies buffer@[i] == pc || buffer@[i]
                == wc by {
                assert(carved[i] == pc || carved[i] == wc);
            }
            lemma_index_in_range(w, h, as_cell(origin));
            assert(cell_value(buffer@, w, as_cell(origin)) == pc);
            assert(relaxation_of(
                buffer@,
                carved,
                w,
                h,
                pc,
                wc,
                as_cell(origin),
                self.open_walls as int,
            ));
        }
    }
}

/// Composing two relaxation passes stays within what one pass may do.
pub proof fn lemma_delta_transitive(a: Seq<u32>, b: Seq<u32>, c: Seq<u32>, path: u32, wall: u32)
    requires
        relax_delta(a, b, path, wall),
        relax_delta(b, c, path, wall),
    ensures
        relax_delta(a, c, path, wall),
{
    assert forall|i: int| 0 <= i < a.len() implies c[i] == a[i] || (a[i] == wall
        && #[trigger] c[i] == path) by {
        assert(b[i] == a[i] || (a[i] == wall && b[i] == path));
    }
}

/// Relaxation is idempotent once its work is done: a pass over a grid with no
/// wall cells left changes nothing.
pub proof fn lemma_relax_noop_without_walls(pre: Seq<u32>, post: Seq<u32>, path: u32, wall: u32)
    requires
        relax_delta(pre, post, path, wall),
        forall|i: int| 0 <= i < pre.len() ==> pre[i] != wall,
    ensures
        post == pre,
{
    assert(post =~= pre);
}

} // verus!

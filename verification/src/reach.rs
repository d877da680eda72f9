//! Reachability through path cells under 4-directional movement: the model in
//! which the carving algorithm's connectivity guarantee is stated.

use vstd::prelude::*;
use crate::grid::cell_value;
use crate::grid::in_bounds;

verus! {

/// Two cells that share a grid edge (one step in one of the four directions).
pub open spec fn adjacent(a: (int, int), b: (int, int)) -> bool {
    ||| (a.0 == b.0 && (a.1 == b.1 + 1 || a.1 == b.1 - 1))
    ||| (a.1 == b.1 && (a.0 == b.0 + 1 || a.0 == b.0 - 1))
}

/// A walk: a non-empty sequence of in-bounds cells tagged `path`, each
/// consecutive pair adjacent.
pub open spec fn walk_ok(cells: Seq<u32>, w: nat, h: nat, path: u32, s: Seq<(int, int)>) -> bool {
    &&& s.len() > 0
    &&& forall|i: int|
        0 <= i < s.len() ==> in_bounds(w, h, #[trigger] s[i]) && cell_value(cells, w, s[i]) == path
    &&& forall|i: int| 1 <= i < s.len() ==> adjacent(s[i - 1], #[trigger] s[i])
}

/// `to` can be reached from `from` by a walk through path cells.
pub open spec fn reachable(
    cells: Seq<u32>,
    w: nat,
    h: nat,
    path: u32,
    from: (int, int),
    to: (int, int),
) -> bool {
    exists|s: Seq<(int, int)>|
        walk_ok(cells, w, h, path, s) && s[0] == from && s[s.len() - 1] == to
}

/// A path cell reaches itself.
pub proof fn lemma_reachable_self(cells: Seq<u32>, w: nat, h: nat, path: u32, p: (int, int))
    requires
        in_bounds(w, h, p),
        cell_value(cells, w, p) == path,
    ensures
        reachable(cells, w, h, path, p, p),
{
    let s = seq![p];
    assert(walk_ok(cells, w, h, path, s));
    assert(s[0] == p && s[s.len() - 1] == p);
}

/// Reachability extends across one step onto an adjacent path cell.
pub proof fn lemma_reachable_step(
    cells: Seq<u32>,
    w: nat,
    h: nat,
    path: u32,
    from: (int, int),
    a: (int, int),
    b: (int, int),
)
    requires
        reachable(cells, w, h, path, from, a),
        adjacent(a, b),
        in_bounds(w, h, b),
        cell_value(cells, w, b) == path,
    ensures
        reachable(cells, w, h, path, from, b),
{
    let s = choose|s: Seq<(int, int)>|
        walk_ok(cells, w, h, path, s) && s[0] == from && s[s.len() - 1] == a;
    let s2 = s.push(b);
    assert(walk_ok(cells, w, h, path, s2)) by {
        assert(forall|i: int| 0 <= i < s.len() ==> s2[i] == #[trigger] s[i]);
        assert(s2[s.len() as int] == b);
    }
    assert(s2[0] == from && s2[s2.len() - 1] == b);
}

/// Whatever was reachable stays reachable when path cells are only added,
/// never removed.
pub proof fn lemma_reachable_monotone(
    c1: Seq<u32>,
    c2: Seq<u32>,
    w: nat,
    h: nat,
    path: u32,
    from: (int, int),
    to: (int, int),
)
    requires
        forall|p: (int, int)|
            in_bounds(w, h, p) && #[trigger] cell_value(c1, w, p) == path ==> cell_value(c2, w, p)
                == path,
        reachable(c1, w, h, path, from, to),
    ensures
        reachable(c2, w, h, path, from, to),
{
    let s = choose|s: Seq<(int, int)>|
        walk_ok(c1, w, h, path, s) && s[0] == from && s[s.len() - 1] == to;
    assert(walk_ok(c2, w, h, path, s)) by {
        assert forall|i: int| 0 <= i < s.len() implies in_bounds(w, h, #[trigger] s[i])
            && cell_value(c2, w, s[i]) == path by {
            assert(cell_value(c1, w, s[i]) == path);
        }
    }
}

} // verus!

//! Start/end placement: pick a start cell on the left border and an end cell
//! on the right border, each committed only once the cell one column inward
//! is a path cell, and record them on the player.

use vstd::prelude::*;
use crate::grid::GridBuffer;
use crate::grid::cell_value;
use crate::grid::in_bounds;
use crate::grid::lemma_index_distinct;
use crate::grid::lemma_index_in_range;
use crate::player::Player;
use crate::rng::rand_range;

verus! {

/// How many random row pairs are drawn before placement falls back to a
/// deterministic top-down scan of the border columns.
pub const SAMPLE_TRIES: usize = 100000;

/// Some cell of column `col` is a path cell.
pub open spec fn column_has_path(cells: Seq<u32>, w: nat, h: nat, path: u32, col: int) -> bool {
    exists|p: (int, int)|
        in_bounds(w, h, p) && p.0 == col && #[trigger] cell_value(cells, w, p) == path
}

/// The grid after placement: the start marker at `start`, the end marker at
/// `end`, everything else as before.
pub open spec fn placed_grid(
    pre: Seq<u32>,
    post: Seq<u32>,
    w: nat,
    h: nat,
    start: (int, int),
    end: (int, int),
    start_tag: u32,
    end_tag: u32,
) -> bool {
    forall|p: (int, int)|
        in_bounds(w, h, p) ==> #[trigger] cell_value(post, w, p) == (if p == start {
            start_tag
        } else if p == end {
            end_tag
        } else {
            cell_value(pre, w, p)
        })
}

/// Choose a start cell in column 0 and an end cell in column `width - 1`,
/// each with a path cell one column inward, write the player tag and the
/// finish tag into them, and set the player's position, previous spot and end
/// point. Returns the start cell. Rows are drawn at random; after
/// `SAMPLE_TRIES` fruitless draws the first fitting row from the top is used,
/// which the preconditions guarantee to exist.
pub fn start_end_generator(
    buffer: &mut GridBuffer,
    rng: &mut rand::rngs::StdRng,
    player: &mut Player,
) -> (r: (usize, usize))
    requires
        old(buffer).wf(),
        old(buffer).width_spec() >= 3,
        old(buffer).height_spec() >= 1,
        column_has_path(
            old(buffer)@,
            old(buffer).width_spec(),
            old(buffer).height_spec(),
            old(player).maze_config.path_color,
            1,
        ),
        column_has_path(
            old(buffer)@,
            old(buffer).width_spec(),
            old(buffer).height_spec(),
            old(player).maze_config.path_color,
            old(buffer).width_spec() - 2,
        ),
    ensures
        final(buffer).wf(),
        final(buffer).width_spec() == old(buffer).width_spec(),
        final(buffer).height_spec() == old(buffer).height_spec(),
        r == final(player).position,
        final(player).position.0 == 0,
        final(player).position.1 < old(buffer).height_spec(),
        final(player).previous_spot == final(player).position,
        final(player).end_point.0 + 1 == old(buffer).width_spec(),
        final(player).end_point.1 < old(buffer).height_spec(),
        cell_value(old(buffer)@, old(buffer).width_spec(), (1int, final(player).position.1 as int))
            == old(player).maze_config.path_color,
        cell_value(
            old(buffer)@,
            old(buffer).width_spec(),
            (old(buffer).width_spec() - 2, final(player).end_point.1 as int),
        ) == old(player).maze_config.path_color,
        placed_grid(
            old(buffer)@,
            final(buffer)@,
            old(buffer).width_spec(),
            old(buffer).height_spec(),
            (0int, final(player).position.1 as int),
            (old(buffer).width_spec() - 1, final(player).end_point.1 as int),
            old(player).player_color,
            old(player).finish_color,
        ),
        final(player).player_color == old(player).player_color,
        final(player).finish_color == old(player).finish_color,
        final(player).direction == old(player).direction,
        final(player).maze_config == old(player).maze_config,
        final(player).game_over == old(player).game_over,
{
    let w = buffer.width();
    let h = buffer.height();
    let pc = player.maze_config.path_color;
    let start_tag = player.player_color;
    let end_tag = player.finish_color;
    let ghost cells0 = buffer@;

    let mut start_ready = false;
    let mut end_ready = false;
    let mut start_h: usize = 0;
    let mut end_h: usize = 0;
    let mut tries: usize = 0;

    while (!start_ready || !end_ready) && tries < SAMPLE_TRIES
        invariant
            buffer.wf(),
            buffer.width_spec() == w as nat,
            buffer.height_spec() == h as nat,
            w >= 3,
            h >= 1,
            start_ready ==> start_h < h && cell_value(cells0, w as nat, (1int, start_h as int))
                == pc,
            end_ready ==> end_h < h && cell_value(cells0, w as nat, (w - 2 as int, end_h as int))
                == pc,
            forall|p: (int, int)|
                in_bounds(w as nat, h as nat, p) ==> #[trigger] cell_value(buffer@, w as nat, p)
                    == (if start_ready && p == (0int, start_h as int) {
                    start_tag
                } else if end_ready && p == (w - 1 as int, end_h as int) {
                    end_tag
                } else {
                    cell_value(cells0, w as nat, p)
                }),
        decreases SAMPLE_TRIES - tries,
    {
        let sh = rand_range(rng, 0, h);
        let eh = rand_range(rng, 0, h);
        if !start_ready && buffer.at(1, sh) == pc {
            proof {
                lemma_index_in_range(w as nat, h as nat, (0int, sh as int));
            }
            let ghost prev = buffer@;
            buffer.set(0, sh, start_tag);
            proof {
                assert forall|p: (int, int)| in_bounds(w as nat, h as nat, p) implies #[trigger] cell_value(
                    buffer@,
                    w as nat,
                    p,
                ) == (if p == (0int, sh as int) {
                    start_tag
                } else if end_ready && p == (w - 1 as int, end_h as int) {
                    end_tag
                } else {
                    cell_value(cells0, w as nat, p)
                }) by {
                    lemma_index_in_range(w as nat, h as nat, p);
                    // mention the pre-write cell so the loop relation applies to it
                    assert(cell_value(prev, w as nat, p) == cell_value(prev, w as nat, p));
                    if p != (0int, sh as int) {
                        lemma_index_distinct(w as nat, h as nat, p, (0int, sh as int));
                        assert(cell_value(buffer@, w as nat, p) == cell_value(prev, w as nat, p));
                    }
                }
            }
            start_ready = true;
            start_h = sh;
        }
        if !end_ready && buffer.at(w - 2, eh) == pc {
            proof {
                lemma_index_in_range(w as nat, h as nat, (w - 1 as int, eh as int));
            }
            let ghost prev = buffer@;
            buffer.set(w - 1, eh, end_tag);
            proof {
                assert forall|p: (int, int)| in_bounds(w as nat, h as nat, p) implies #[trigger] cell_value(
                    buffer@,
                    w as nat,
                    p,
                ) == (if start_ready && p == (0int, start_h as int) {
                    start_tag
                } else if p == (w - 1 as int, eh as int) {
                    end_tag
                } else {
                    cell_value(cells0, w as nat, p)
                }) by {
                    lemma_index_in_range(w as nat, h as nat, p);
                    // mention the pre-write cell so the loop relation applies to it
                    assert(cell_value(prev, w as nat, p) == cell_value(prev, w as nat, p));
                    if p != (w - 1 as int, eh as int) {
                        lemma_index_distinct(w as nat, h as nat, p, (w - 1 as int, eh as int));
                        assert(cell_value(buffer@, w as nat, p) == cell_value(prev, w as nat, p));
                    }
                }
            }
            end_ready = true;
            end_h = eh;
        }
        tries += 1;
    }

    if !start_ready {
        let mut row: usize = 0;
        while row < h && !start_ready
            invariant
                buffer.wf(),
                buffer.width_spec() == w as nat,
                buffer.height_spec() == h as nat,
                w >= 3,
                h >= 1,
                row <= h,
                !start_ready ==> forall|p: (int, int)|
                    in_bounds(w as nat, h as nat, p) && p.0 == 1 && p.1 < row
                        ==> #[trigger] cell_value(cells0, w as nat, p) != pc,
                start_ready ==> start_h < h && cell_value(cells0, w as nat, (1int, start_h as int))
                    == pc,
                end_ready ==> end_h < h && cell_value(
                    cells0,
                    w as nat,
                    (w - 2 as int, end_h as int),
                ) == pc,
                forall|p: (int, int)|
                    in_bounds(w as nat, h as nat, p) ==> #[trigger] cell_value(buffer@, w as nat, p)
                        == (if start_ready && p == (0int, start_h as int) {
                        start_tag
                    } else if end_ready && p == (w - 1 as int, end_h as int) {
                        end_tag
                    } else {
                        cell_value(cells0, w as nat, p)
                    }),
            decreases h - row,
        {
            if buffer.at(1, row) == pc {
                proof {
                    lemma_index_in_range(w as nat, h as nat, (0int, row as int));
                }
                let ghost prev = buffer@;
                buffer.set(0, row, start_tag);
                proof {
                    assert forall|p: (int, int)| in_bounds(w as nat, h as nat, p) implies #[trigger] cell_value(
                        buffer@,
                        w as nat,
                        p,
                    ) == (if p == (0int, row as int) {
                        start_tag
                    } else if end_ready && p == (w - 1 as int, end_h as int) {
                        end_tag
                    } else {
                        cell_value(cells0, w as nat, p)
                    }) by {
                        lemma_index_in_range(w as nat, h as nat, p);
                        // mention the pre-write cell so the loop relation applies to it
                    assert(cell_value(prev, w as nat, p) == cell_value(prev, w as nat, p));
                        if p != (0int, row as int) {
                            lemma_index_distinct(w as nat, h as nat, p, (0int, row as int));
                            assert(cell_value(buffer@, w as nat, p) == cell_value(prev, w as nat, p));
                        }
                    }
                }
                start_ready = true;
                start_h = row;
            }
            row += 1;
        }
        proof {
            if !start_ready {
                let wit = choose|p: (int, int)|
                    in_bounds(w as nat, h as nat, p) && p.0 == 1 && #[trigger] cell_value(
                        cells0,
                        w as nat,
                        p,
                    ) == pc;
                assert(cell_value(cells0, w as nat, wit) != pc);
                assert(false);
            }
        }
    }

    if !end_ready {
        let mut row: usize = 0;
        while row < h && !end_ready
            invariant
                buffer.wf(),
                buffer.width_spec() == w as nat,
                buffer.height_spec() == h as nat,
                w >= 3,
                h >= 1,
                row <= h,
                start_ready,
                start_h < h && cell_value(cells0, w as nat, (1int, start_h as int)) == pc,
                !end_ready ==> forall|p: (int, int)|
                    in_bounds(w as nat, h as nat, p) && p.0 == w - 2 && p.1 < row
                        ==> #[trigger] cell_value(cells0, w as nat, p) != pc,
                end_ready ==> end_h < h && cell_value(
                    cells0,
                    w as nat,
                    (w - 2 as int, end_h as int),
                ) == pc,
                forall|p: (int, int)|
                    in_bounds(w as nat, h as nat, p) ==> #[trigger] cell_value(buffer@, w as nat, p)
                        == (if p == (0int, start_h as int) {
                        start_tag
                    } else if end_ready && p == (w - 1 as int, end_h as int) {
                        end_tag
                    } else {
                        cell_value(cells0, w as nat, p)
                    }),
            decreases h - row,
        {
            if buffer.at(w - 2, row) == pc {
                proof {
                    lemma_index_in_range(w as nat, h as nat, (w - 1 as int, row as int));
                }
                let ghost prev = buffer@;
                buffer.set(w - 1, row, end_tag);
                proof {
                    assert forall|p: (int, int)| in_bounds(w as nat, h as nat, p) implies #[trigger] cell_value(
                        buffer@,
                        w as nat,
                        p,
                    ) == (if p == (0int, start_h as int) {
                        start_tag
                    } else if p == (w - 1 as int, row as int) {
                        end_tag
                    } else {
                        cell_value(cells0, w as nat, p)
                    }) by {
                        lemma_index_in_range(w as nat, h as nat, p);
                        // mention the pre-write cell so the loop relation applies to it
                    assert(cell_value(prev, w as nat, p) == cell_value(prev, w as nat, p));
                        if p != (w - 1 as int, row as int) {
                            lemma_index_distinct(w as nat, h as nat, p, (w - 1 as int, row as int));
                            assert(cell_value(buffer@, w as nat, p) == cell_value(prev, w as nat, p));
                        }
                    }
                }
                end_ready = true;
                end_h = row;
            }
            row += 1;
        }
        proof {
            if !end_ready {
                let wit = choose|p: (int, int)|
                    in_bounds(w as nat, h as nat, p) && p.0 == w - 2 && #[trigger] cell_value(
                        cells0,
                        w as nat,
                        p,
                    ) == pc;
                assert(cell_value(cells0, w as nat, wit) != pc);
                assert(false);
            }
        }
    }

    player.end_point = (w - 1, end_h);
    player.position = (0, start_h);
    player.previous_spot = (0, start_h);
    (0, start_h)
}

/// After placement on a grid that held neither marker tag, exactly one cell
/// holds the start marker and exactly one cell holds the end marker.
pub proof fn lemma_markers_unique(
    pre: Seq<u32>,
    post: Seq<u32>,
    w: nat,
    h: nat,
    start: (int, int),
    end: (int, int),
    start_tag: u32,
    end_tag: u32,
)
    requires
        in_bounds(w, h, start),
        in_bounds(w, h, end),
        start != end,
        start_tag != end_tag,
        placed_grid(pre, post, w, h, start, end, start_tag, end_tag),
        forall|p: (int, int)|
            in_bounds(w, h, p) ==> #[trigger] cell_value(pre, w, p) != start_tag && cell_value(
                pre,
                w,
                p,
            ) != end_tag,
    ensures
        forall|p: (int, int)|
            in_bounds(w, h, p) ==> ((#[trigger] cell_value(post, w, p) == start_tag) <==> p
                == start),
        forall|p: (int, int)|
            in_bounds(w, h, p) ==> ((#[trigger] cell_value(post, w, p) == end_tag) <==> p == end),
{
    assert forall|p: (int, int)| in_bounds(w, h, p) implies ((#[trigger] cell_value(post, w, p)
        == start_tag) <==> p == start) by {
        assert(cell_value(pre, w, p) != start_tag);
    }
    assert forall|p: (int, int)| in_bounds(w, h, p) implies ((#[trigger] cell_value(post, w, p)
        == end_tag) <==> p == end) by {
        assert(cell_value(pre, w, p) != end_tag);
    }
}

} // verus!

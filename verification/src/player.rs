//! The player entity and its movement state machine: a pending directional
//! intent is resolved against the grid one cell at a time, collisions leave
//! the position unchanged, and arrival at the end point ends the game.

use vstd::prelude::*;
use crate::grid::GridBuffer;
use crate::grid::cell_value;
use crate::grid::in_bounds;
use crate::grid::lemma_index_distinct;
use crate::grid::lemma_index_in_range;
use crate::maze::MazeConfig;
use crate::maze::as_cell;

verus! {

/// A pending movement intent; `Still` is both the rest state and the state
/// every resolved move collapses to.
#[derive(Copy, Clone, PartialEq, Eq, Debug)]
pub enum Direction {
    North,
    South,
    East,
    West,
    Still,
}

/// The cell one step from `p` in direction `d` (`p` itself for `Still`).
pub open spec fn step_target(d: Direction, p: (int, int)) -> (int, int) {
    match d {
        Direction::North => (p.0, p.1 - 1),
        Direction::South => (p.0, p.1 + 1),
        Direction::East => (p.0 + 1, p.1),
        Direction::West => (p.0 - 1, p.1),
        Direction::Still => p,
    }
}

/// The player: its position on the grid, the goal cell, the pending movement
/// intent, and the tags it paints itself and the goal with.
#[derive(Copy, Clone, PartialEq, Eq, Debug)]
pub struct Player {
    pub player_color: u32,
    pub position: (usize, usize),
    pub finish_color: u32,
    pub end_point: (usize, usize),
    pub direction: Direction,
    pub previous_spot: (usize, usize),
    pub maze_config: MazeConfig,
    pub game_over: bool,
}

impl Player {
    /// A player with the fixed player and finish tags and the given state.
    pub fn new(
        position: (usize, usize),
        end_point: (usize, usize),
        direction: Direction,
        previous_spot: (usize, usize),
        maze_config: MazeConfig,
        game_over: bool,
    ) -> (r: Self)
        ensures
            r.player_color == 0x00FF0000u32,
            r.finish_color == 0xFF00FF00u32,
            r.position == position,
            r.end_point == end_point,
            r.direction == direction,
            r.previous_spot == previous_spot,
            r.maze_config == maze_config,
            r.game_over == game_over,
    {
        Self {
            player_color: 0x00FF0000,
            finish_color: 0xFF00FF00,
            position,
            end_point,
            direction,
            previous_spot,
            maze_config,
            game_over,
        }
    }

    /// Put the player back on `start_point` and clear the pending intent.
    /// A finished game stays finished: `game_over` is untouched.
    pub fn reset(&mut self, start_point: (usize, usize))
        ensures
            final(self).position == start_point,
            final(self).direction == Direction::Still,
            final(self).player_color == old(self).player_color,
            final(self).finish_color == old(self).finish_color,
            final(self).end_point == old(self).end_point,
            final(self).previous_spot == old(self).previous_spot,
            final(self).maze_config == old(self).maze_config,
            final(self).game_over == old(self).game_over,
    {
        self.position = start_point;
        self.direction = Direction::Still;
    }

    /// Turn one tick's key states into player state: a quit signal resets to
    /// `start_point`, and each pressed arrow sets the pending intent, the
    /// last one (in up, down, right, left order) winning.
    pub fn apply_input(
        &mut self,
        quit: bool,
        up: bool,
        down: bool,
        right: bool,
        left: bool,
        start_point: (usize, usize),
    )
        ensures
            final(self).position == if quit {
                start_point
            } else {
                old(self).position
            },
            final(self).direction == if left {
                Direction::West
            } else if right {
                Direction::East
            } else if down {
                Direction::South
            } else if up {
                Direction::North
            } else if quit {
                Direction::Still
            } else {
                old(self).direction
            },
            final(self).player_color == old(self).player_color,
            final(self).finish_color == old(self).finish_color,
            final(self).end_point == old(self).end_point,
            final(self).previous_spot == old(self).previous_spot,
            final(self).maze_config == old(self).maze_config,
            final(self).game_over == old(self).game_over,
    {
        if quit {
            self.reset(start_point);
        }
        if up {
            self.direction = Direction::North;
        }
        if down {
            self.direction = Direction::South;
        }
        if right {
            self.direction = Direction::East;
        }
        if left {
            self.direction = Direction::West;
        }
    }

    /// Resolve the pending movement intent against the grid. A move into a
    /// wall or off the grid is rejected: the position stays put. Either way
    /// the intent collapses to `Still`. Reaching the end point sets
    /// `game_over`, which is never cleared.
    pub fn direction(&mut self, buffer: &GridBuffer)
        requires
            buffer.wf(),
            in_bounds(buffer.width_spec(), buffer.height_spec(), as_cell(old(self).position)),
        ensures
            final(self).direction == Direction::Still,
            final(self).player_color == old(self).player_color,
            final(self).finish_color == old(self).finish_color,
            final(self).end_point == old(self).end_point,
            final(self).maze_config == old(self).maze_config,
            ({
                let t = step_target(old(self).direction, as_cell(old(self).position));
                if old(self).direction == Direction::Still {
                    *final(self) == *old(self)
                } else if !in_bounds(buffer.width_spec(), buffer.height_spec(), t) || cell_value(
                    buffer@,
                    buffer.width_spec(),
                    t,
                ) == old(self).maze_config.wall_color {
                    // rejected: only the intent is consumed
                    final(self).position == old(self).position
                        && final(self).previous_spot == old(self).previous_spot
                        && final(self).game_over == old(self).game_over
                } else {
                    as_cell(final(self).position) == t && final(self).previous_spot == old(
                        self,
                    ).position && final(self).game_over == (if t == as_cell(old(self).end_point) {
                        true
                    } else {
                        old(self).game_over
                    })
                }
            }),
    {
        let x = self.position.0;
        let y = self.position.1;
        let w = buffer.width();
        let h = buffer.height();
        match self.direction {
            Direction::East => {
                if x + 1 < w && buffer.at(x + 1, y) != self.maze_config.wall_color {
                    if x + 1 == self.end_point.0 && y == self.end_point.1 {
                        self.game_over = true;
                    }
                    self.position = (x + 1, y);
                    self.previous_spot = (x, y);
                }
                self.direction = Direction::Still;
            },
            Direction::North => {
                if y >= 1 && buffer.at(x, y - 1) != self.maze_config.wall_color {
                    if x == self.end_point.0 && y - 1 == self.end_point.1 {
                        self.game_over = true;
                    }
                    self.position = (x, y - 1);
                    self.previous_spot = (x, y);
                }
                self.direction = Direction::Still;
            },
            Direction::South => {
                if y + 1 < h && buffer.at(x, y + 1) != self.maze_config.wall_color {
                    if x == self.end_point.0 && y + 1 == self.end_point.1 {
                        self.game_over = true;
                    }
                    self.position = (x, y + 1);
                    self.previous_spot = (x, y);
                }
                self.direction = Direction::Still;
            },
            Direction::West => {
                if x >= 1 && buffer.at(x - 1, y) != self.maze_config.wall_color {
                    if x - 1 == self.end_point.0 && y == self.end_point.1 {
                        self.game_over = true;
                    }
                    self.position = (x - 1, y);
                    self.previous_spot = (x, y);
                }
                self.direction = Direction::Still;
            },
            Direction::Still => {},
        }
    }
}

/// Paint the player onto the grid: the spot left behind gets the path tag,
/// the current position the player tag, and the end point the finish tag,
/// the later writes winning where they coincide.
pub fn display(player: &Player, buffer: &mut GridBuffer)
    requires
        old(buffer).wf(),
        in_bounds(old(buffer).width_spec(), old(buffer).height_spec(), as_cell(player.previous_spot)),
        in_bounds(old(buffer).width_spec(), old(buffer).height_spec(), as_cell(player.position)),
        in_bounds(old(buffer).width_spec(), old(buffer).height_spec(), as_cell(player.end_point)),
    ensures
        final(buffer).wf(),
        final(buffer).width_spec() == old(buffer).width_spec(),
        final(buffer).height_spec() == old(buffer).height_spec(),
        forall|p: (int, int)|
            in_bounds(old(buffer).width_spec(), old(buffer).height_spec(), p)
                ==> #[trigger] cell_value(final(buffer)@, old(buffer).width_spec(), p) == (
            if p == as_cell(player.end_point) {
                player.finish_color
            } else if p == as_cell(player.position) {
                player.player_color
            } else if p == as_cell(player.previous_spot) {
                player.maze_config.path_color
            } else {
                cell_value(old(buffer)@, old(buffer).width_spec(), p)
            }),
{
    let ghost w = old(buffer).width_spec();
    let ghost h = old(buffer).height_spec();
    let ghost cells0 = buffer@;
    let ghost prevc = as_cell(player.previous_spot);
    let ghost posc = as_cell(player.position);
    let ghost endc = as_cell(player.end_point);
    proof {
        lemma_index_in_range(w, h, prevc);
        lemma_index_in_range(w, h, posc);
        lemma_index_in_range(w, h, endc);
    }
    buffer.set(player.previous_spot.0, player.previous_spot.1, player.maze_config.path_color);
    buffer.set(player.position.0, player.position.1, player.player_color);
    buffer.set(player.end_point.0, player.end_point.1, player.finish_color);
    proof {
        assert forall|p: (int, int)| in_bounds(w, h, p) implies #[trigger] cell_value(
            buffer@,
            w,
            p,
        ) == (if p == endc {
            player.finish_color
        } else if p == posc {
            player.player_color
        } else if p == prevc {
            player.maze_config.path_color
        } else {
            cell_value(cells0, w, p)
        }) by {
            lemma_index_in_range(w, h, p);
            if p != endc {
                lemma_index_distinct(w, h, p, endc);
                if p != posc {
                    lemma_index_distinct(w, h, p, posc);
                    if p != prevc {
                        lemma_index_distinct(w, h, p, prevc);
                    }
                }
            }
        }
    }
}

} // verus!

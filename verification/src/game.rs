//! The animation driver: a state machine over {Idle, Dragging, Processing}
//! that feeds the board's shift engine. While the shuffle queue is
//! non-empty it takes priority over live input: each frame advances the head
//! action's offset by an eased share of the remaining time, synthesizes a
//! drag along the action's line, and commits the action when its countdown
//! expires. Otherwise pointer events drive a live drag: down starts it,
//! moves preview it, and up (or a second down) commits it.

use vstd::prelude::*;

verus! {

use crate::board::{Board, Tile, coord_ok, new_tiles, shift_spec, tile_size_of};
use crate::geometry::{direction_dx, direction_dy, div_trunc, Direction, Point};
use crate::shuffle::{
    action_fresh,
    neutral,
    shuffle,
    toggles_after,
    ShiftAction,
    ACTION_TIME,
};
use std::collections::VecDeque;

/// The magnitude the engine allows an action's accumulated offset to reach.
/// An offset is meaningful only within one tile size; this bound is
/// generous enough that a single frame of any duration stays inside it, and
/// it exists only to keep the arithmetic inside machine integers.
pub const OFFSET_BOUND: i64 = 800_000_000_000;

/// What the engine is doing: awaiting input, following a live drag that
/// started at the remembered point, or auto-playing the shuffle queue.
#[derive(Clone, Copy, PartialEq, Eq, Structural, Debug)]
pub enum GameState {
    Idle,
    Dragging(Point),
    Processing,
}

/// A pointer event, already translated into board coordinates by the
/// platform layer.
#[derive(Clone, Copy, PartialEq, Eq, Structural, Debug)]
pub enum MouseEvent {
    Down(Point),
    Up(Point),
    Move(Point),
}

/// The engine: the board, the driver state, and the queue of pending
/// shuffle actions.
pub struct Game {
    pub board: Board,
    pub game_state: GameState,
    pub actions: VecDeque<ShiftAction>,
}

/// The mathematical state of a game: the board's tiles and size, the driver
/// state, and the pending actions.
pub ghost struct GameV {
    pub tiles: Seq<Tile>,
    pub size: int,
    pub state: GameState,
    pub actions: Seq<ShiftAction>,
}

impl View for Game {
    type V = GameV;

    open spec fn view(&self) -> GameV {
        GameV {
            tiles: self.board.tiles@,
            size: self.board.size as int,
            state: self.game_state,
            actions: self.actions@,
        }
    }
}

/// A queued action the driver can hold: a live countdown within the budget
/// and an accumulated offset within the engine's bound.
pub open spec fn action_ok(a: ShiftAction) -> bool {
    &&& 0 <= a.remaining_time <= ACTION_TIME
    &&& -OFFSET_BOUND <= a.current_offset <= OFFSET_BOUND
}

/// Whether a pointer event's coordinates are within the engine's accepted
/// range.
pub open spec fn event_ok(ev: MouseEvent) -> bool {
    match ev {
        MouseEvent::Down(p) => coord_ok(p),
        MouseEvent::Up(p) => coord_ok(p),
        MouseEvent::Move(p) => coord_ok(p),
    }
}

impl Game {
    /// The engine invariant: a well-formed board, every queued action in a
    /// drivable state, and a remembered drag origin within coordinate range.
    pub open spec fn wf(&self) -> bool {
        &&& self.board.wf()
        &&& (forall|i: int|
            0 <= i < self.actions@.len() ==> action_ok(#[trigger] self.actions@[i]))
        &&& (self.game_state matches GameState::Dragging(p) ==> coord_ok(p))
    }
}

/// `v` clamped into `[lo, hi]`, for the offset bound.
pub open spec fn clamp_offset(v: int) -> int {
    if v < -OFFSET_BOUND {
        -OFFSET_BOUND as int
    } else if v > OFFSET_BOUND {
        OFFSET_BOUND as int
    } else {
        v
    }
}

/// One frame's advance of an action's accumulated offset: an eased share of
/// the remaining distance to one tile — `dt / remaining_time` of it, capped
/// at one tile — clamped into the engine's offset range. A countdown
/// already at zero advances by a full tile.
pub open spec fn advance_offset(off: int, rt: int, dt: int, ts: int) -> int {
    let inc = if rt <= 0 {
        ts
    } else {
        vstd::math::min(div_trunc(dt * (ts - off), rt), ts)
    };
    clamp_offset(off + inc)
}

/// Where the synthetic drag for a queued action starts: the middle of the
/// first playable cell of the action's line.
pub open spec fn synth_from(a: ShiftAction, ts: int) -> Point {
    match a.direction {
        Direction::North | Direction::South => Point {
            x: (a.idx * ts + ts / 2) as i64,
            y: (ts + ts / 2) as i64,
        },
        Direction::West | Direction::East => Point {
            x: (ts + ts / 2) as i64,
            y: (a.idx * ts + ts / 2) as i64,
        },
    }
}

/// Where the synthetic drag ends: `off` units from its start along the
/// action's direction.
pub open spec fn synth_to(a: ShiftAction, from: Point, off: int) -> Point {
    Point {
        x: (from.x + direction_dx(a.direction) * off) as i64,
        y: (from.y + direction_dy(a.direction) * off) as i64,
    }
}

/// One frame of the queued-action driver. With an empty queue nothing
/// happens. Otherwise the head action's offset advances, a drag along its
/// line is synthesized, and its countdown drops by `dt`: if the countdown
/// expires the drag is committed and the action leaves the queue (emptying
/// the queue returns the driver to Idle), else the drag is previewed and
/// the updated action stays at the head, the driver Processing.
pub open spec fn process_actions_spec(g: GameV, dt: int) -> GameV {
    if g.actions.len() == 0 {
        g
    } else {
        let ts = tile_size_of(g.size);
        let a = g.actions[0];
        let off1 = advance_offset(a.current_offset as int, a.remaining_time as int, dt, ts);
        let from = synth_from(a, ts);
        let to = synth_to(a, from, off1);
        if a.remaining_time - dt < 0 {
            GameV {
                tiles: shift_spec(g.tiles, g.size, from, to, true),
                size: g.size,
                state: if g.actions.len() == 1 {
                    GameState::Idle
                } else {
                    GameState::Processing
                },
                actions: g.actions.drop_first(),
            }
        } else {
            GameV {
                tiles: shift_spec(g.tiles, g.size, from, to, false),
                size: g.size,
                state: GameState::Processing,
                actions: g.actions.update(
                    0,
                    ShiftAction {
                        current_offset: off1 as i64,
                        remaining_time: (a.remaining_time - dt) as i32,
                        idx: a.idx,
                        direction: a.direction,
                    },
                ),
            }
        }
    }
}

/// One pointer event against the driver state machine. Idle: a down starts
/// a drag at its point. Dragging: a move previews the drag from the
/// remembered origin, an up — or a second down, treated identically —
/// commits it and returns to Idle. Processing ignores live input.
pub open spec fn process_event_spec(g: GameV, ev: MouseEvent) -> GameV {
    match g.state {
        GameState::Idle => match ev {
            MouseEvent::Down(p) => GameV {
                tiles: g.tiles,
                size: g.size,
                state: GameState::Dragging(p),
                actions: g.actions,
            },
            _ => g,
        },
        GameState::Dragging(from) => match ev {
            MouseEvent::Move(to) => GameV {
                tiles: shift_spec(g.tiles, g.size, from, to, false),
                size: g.size,
                state: g.state,
                actions: g.actions,
            },
            MouseEvent::Up(to) => GameV {
                tiles: shift_spec(g.tiles, g.size, from, to, true),
                size: g.size,
                state: GameState::Idle,
                actions: g.actions,
            },
            MouseEvent::Down(to) => GameV {
                tiles: shift_spec(g.tiles, g.size, from, to, true),
                size: g.size,
                state: GameState::Idle,
                actions: g.actions,
            },
        },
        GameState::Processing => g,
    }
}

/// A whole buffered batch of pointer events, oldest first.
pub open spec fn process_events_spec(g: GameV, events: Seq<MouseEvent>) -> GameV
    decreases events.len(),
{
    if events.len() == 0 {
        g
    } else {
        process_events_spec(process_event_spec(g, events[0]), events.drop_first())
    }
}

/// One whole frame: advance the queued-action driver by `dt`, then drain
/// the frame's buffered pointer events in arrival order.
pub open spec fn update_spec(g: GameV, dt: int, events: Seq<MouseEvent>) -> GameV {
    process_events_spec(process_actions_spec(g, dt), events)
}

/// Truncating division for `i128`, mirroring `div_trunc`.
fn div_trunc_i128(a: i128, b: i128) -> (q: i128)
    requires
        b > 0,
        i128::MIN < a,
    ensures
        q == div_trunc(a as int, b as int),
{
    if a >= 0 {
        ((a as u128) / (b as u128)) as i128
    } else {
        let m = ((-a) as u128) / (b as u128);
        proof {
            vstd::arithmetic::div_mod::lemma_div_is_ordered_by_denominator(
                (-a) as int,
                1,
                b as int,
            );
        }
        -(m as i128)
    }
}

impl Game {
    /// A game over a fresh board with a given action queue and the driver
    /// Idle. The queue plays from the next frame on.
    pub fn from_actions(size: i8, actions: VecDeque<ShiftAction>) -> (g: Game)
        requires
            1 <= size <= 11,
            forall|i: int| 0 <= i < actions@.len() ==> action_ok(#[trigger] actions@[i]),
        ensures
            g.board.size == size,
            g.board.tiles@ == new_tiles(size as int),
            g.game_state == GameState::Idle,
            g.actions@ == actions@,
            g.wf(),
    {
        Game { board: Board::new(size), game_state: GameState::Idle, actions }
    }

    /// A game over a fresh board, with a freshly generated shuffle queue of
    /// `steps` randomized actions plus its cleanup pass. The picks are
    /// random, so only what holds of every queue is promised; see `shuffle`.
    #[verifier::rlimit(30)]
    pub fn new(size: i8, steps: i8) -> (g: Game)
        requires
            1 <= size <= 11,
            0 <= steps,
            size == 1 ==> steps == 0,
        ensures
            g.board.size == size,
            g.board.tiles@ == new_tiles(size as int),
            g.game_state == GameState::Idle,
            g.wf(),
            steps as int <= g.actions@.len() <= steps as int + 2 * size as int,
            toggles_after(neutral(size as int), neutral(size as int), g.actions@) == (
                neutral(size as int),
                neutral(size as int),
            ),
            forall|i: int|
                0 <= i < g.actions@.len() ==> action_fresh(#[trigger] g.actions@[i], size as int),
            forall|i: int|
                0 <= i && i + 1 < steps as int ==> (#[trigger] g.actions@[i]).idx != g.actions@[i
                    + 1].idx,
    {
        let actions = shuffle(size, steps);
        assert forall|i: int| 0 <= i < actions@.len() implies action_ok(
            #[trigger] actions@[i],
        ) by {
            assert(action_fresh(actions@[i], size as int));
        };
        Game::from_actions(size, actions)
    }

    /// One frame of the queued-action driver; see `process_actions_spec`.
    #[verifier::rlimit(90)]
    pub fn process_actions(&mut self, dt: i32)
        requires
            old(self).wf(),
            dt >= 0,
        ensures
            final(self)@ == process_actions_spec(old(self)@, dt as int),
            final(self).wf(),
    {
        let ghost g0 = self@;
        let popped = self.actions.pop_front();
        match popped {
            None => {
                proof {
                    assert(self@ == g0);
                }
            },
            Some(a) => {
                proof {
                    assert(action_ok(g0.actions[0]));
                }
                self.game_state = GameState::Processing;
                let ts = self.board.tile_size();
                let half = (ts as u64 / 2) as i64;

                let inc128: i128 = if a.remaining_time <= 0 {
                    ts as i128
                } else {
                    proof {
                        let d2 = ts as int - a.current_offset as int;
                        assert(-2000000000000000000000 <= (dt as int) * d2
                            <= 2000000000000000000000) by (nonlinear_arith)
                            requires
                                0 <= dt as int <= 2147483647,
                                -810000000000 <= d2 <= 810000000000,
                        ;
                    }
                    let p: i128 = (dt as i128) * ((ts - a.current_offset) as i128);
                    let q = div_trunc_i128(p, a.remaining_time as i128);
                    if q > ts as i128 {
                        ts as i128
                    } else {
                        q
                    }
                };
                let sum128: i128 = (a.current_offset as i128) + inc128;
                let off1: i64 = if sum128 < -OFFSET_BOUND as i128 {
                    -OFFSET_BOUND
                } else if sum128 > OFFSET_BOUND as i128 {
                    OFFSET_BOUND
                } else {
                    sum128 as i64
                };
                proof {
                    assert(off1 == advance_offset(
                        a.current_offset as int,
                        a.remaining_time as int,
                        dt as int,
                        ts as int,
                    ));
                }

                proof {
                    assert(0 <= (a.idx as int) * (ts as int) <= 84915) by (nonlinear_arith)
                        requires
                            0 <= a.idx as int <= 255,
                            0 <= ts as int <= 333,
                    ;
                }
                let idx_units: i64 = (a.idx as i64) * ts;
                let from_pt: Point = match a.direction {
                    Direction::North | Direction::South => Point {
                        x: idx_units + half,
                        y: ts + half,
                    },
                    Direction::West | Direction::East => Point {
                        x: ts + half,
                        y: idx_units + half,
                    },
                };
                let to_pt: Point = from_pt.add_direction(&a.direction, off1);
                proof {
                    assert(from_pt == synth_from(a, ts as int));
                    assert(to_pt == synth_to(a, from_pt, off1 as int));
                    assert(coord_ok(from_pt) && coord_ok(to_pt));
                }

                let rt1: i32 = a.remaining_time - dt;
                if rt1 < 0 {
                    self.board.shift(&from_pt, &to_pt, true);
                    if self.actions.len() == 0 {
                        self.game_state = GameState::Idle;
                    }
                } else {
                    let updated = ShiftAction {
                        current_offset: off1,
                        remaining_time: rt1,
                        idx: a.idx,
                        direction: a.direction,
                    };
                    self.board.shift(&from_pt, &to_pt, false);
                    self.actions.push_front(updated);
                    proof {
                        assert(self.actions@ =~= g0.actions.update(0, updated));
                    }
                }
            },
        }
    }

    /// Preview the live drag from its origin to the current pointer
    /// position; the driver stays in its state.
    pub fn process_dragging(&mut self, from: Point, to: Point)
        requires
            old(self).wf(),
            coord_ok(from),
            coord_ok(to),
        ensures
            final(self).board.tiles@ == shift_spec(
                old(self).board.tiles@,
                old(self).board.size as int,
                from,
                to,
                false,
            ),
            final(self).board.size == old(self).board.size,
            final(self).game_state == old(self).game_state,
            final(self).actions@ == old(self).actions@,
            final(self).wf(),
    {
        self.board.shift(&from, &to, false);
    }

    /// Commit the live drag from its origin to the release point and return
    /// the driver to Idle.
    pub fn process_drag_over(&mut self, from: Point, to: Point)
        requires
            old(self).wf(),
            coord_ok(from),
            coord_ok(to),
        ensures
            final(self).board.tiles@ == shift_spec(
                old(self).board.tiles@,
                old(self).board.size as int,
                from,
                to,
                true,
            ),
            final(self).board.size == old(self).board.size,
            final(self).game_state == GameState::Idle,
            final(self).actions@ == old(self).actions@,
            final(self).wf(),
    {
        self.board.shift(&from, &to, true);
        self.game_state = GameState::Idle;
    }

    /// One pointer event against the driver state machine; see
    /// `process_event_spec`.
    pub fn process_event(&mut self, event: MouseEvent)
        requires
            old(self).wf(),
            event_ok(event),
        ensures
            final(self)@ == process_event_spec(old(self)@, event),
            final(self).wf(),
    {
        match self.game_state {
            GameState::Idle => {
                if let MouseEvent::Down(point) = event {
                    self.game_state = GameState::Dragging(point);
                }
            },
            GameState::Dragging(from) => match event {
                MouseEvent::Move(to) => self.process_dragging(from, to),
                MouseEvent::Up(to) => self.process_drag_over(from, to),
                MouseEvent::Down(to) => self.process_drag_over(from, to),
            },
            GameState::Processing => {},
        }
    }

    /// One whole frame: advance the queued-action driver by the elapsed
    /// time, then drain this frame's buffered pointer events oldest-first;
    /// see `update_spec`. Rendering is the platform layer's business and
    /// happens after this returns.
    pub fn update(&mut self, dt: i32, events: VecDeque<MouseEvent>)
        requires
            old(self).wf(),
            dt >= 0,
            forall|i: int| 0 <= i < events@.len() ==> event_ok(#[trigger] events@[i]),
        ensures
            final(self)@ == update_spec(old(self)@, dt as int, events@),
            final(self).wf(),
    {
        let ghost goal = update_spec(self@, dt as int, events@);
        self.process_actions(dt);
        let mut evs = events;
        while evs.len() != 0
            invariant
                self.wf(),
                forall|i: int| 0 <= i < evs@.len() ==> event_ok(#[trigger] evs@[i]),
                goal == process_events_spec(self@, evs@),
            decreases evs@.len(),
        {
            let ghost evs0 = evs@;
            let ev = evs.pop_front().unwrap();
            proof {
                assert(ev == evs0[0]);
                assert(evs@ =~= evs0.drop_first());
            }
            self.process_event(ev);
        }
    }
}

} // verus!

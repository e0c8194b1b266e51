//! The shuffle generator: a queue of discrete shift actions that scrambles
//! the board. Each randomized step picks an axis at random and a line index
//! that never repeats the immediately preceding one, and alternates the
//! direction per line with a remembered toggle; a final cleanup pass
//! returns every toggle to the neutral (West/North) orientation, so the
//! shuffled board's buffer tiles end up on the same edges as a fresh one.

use vstd::prelude::*;

verus! {

use crate::geometry::Direction;
use vstd::pervasive::VecAdditionalExecFns;
use std::collections::VecDeque;

/// The time budget, in driver time units, that each queued shift action
/// starts with.
pub const ACTION_TIME: i32 = 500;

/// One queued discrete shift: the 1-based row or column index, the
/// direction, the countdown until the shift must commit, and the continuous
/// sub-tile displacement accumulated so far.
#[derive(Clone, Copy, PartialEq, Eq, Structural, Debug)]
pub struct ShiftAction {
    pub current_offset: i64,
    pub remaining_time: i32,
    pub idx: u8,
    pub direction: Direction,
}

impl ShiftAction {
    /// A fresh action: no accumulated offset, full time budget.
    pub fn create(idx: u8, direction: Direction) -> (a: ShiftAction)
        ensures
            a == (ShiftAction {
                current_offset: 0,
                remaining_time: ACTION_TIME,
                idx,
                direction,
            }),
    {
        ShiftAction { current_offset: 0, remaining_time: ACTION_TIME, idx, direction }
    }
}

/// An action as the generator emits it: a line of a board of side `g`,
/// no offset yet, full time budget.
pub open spec fn action_fresh(a: ShiftAction, g: int) -> bool {
    &&& 1 <= a.idx <= g
    &&& a.current_offset == 0
    &&& a.remaining_time == ACTION_TIME
}

/// A toggle sequence with every line in the neutral state.
pub open spec fn neutral(g: int) -> Seq<bool> {
    Seq::new(g as nat, |i: int| false)
}

/// How one action updates the per-line toggle state `(h, v)`: East sets the
/// row's toggle and West clears it, South sets the column's toggle and
/// North clears it; an index outside the board changes nothing.
pub open spec fn toggle_step(h: Seq<bool>, v: Seq<bool>, a: ShiftAction) -> (Seq<bool>, Seq<bool>) {
    let k = a.idx as int - 1;
    match a.direction {
        Direction::East => if 0 <= k < h.len() {
            (h.update(k, true), v)
        } else {
            (h, v)
        },
        Direction::West => if 0 <= k < h.len() {
            (h.update(k, false), v)
        } else {
            (h, v)
        },
        Direction::South => if 0 <= k < v.len() {
            (h, v.update(k, true))
        } else {
            (h, v)
        },
        Direction::North => if 0 <= k < v.len() {
            (h, v.update(k, false))
        } else {
            (h, v)
        },
    }
}

/// The toggle state left after applying a whole queue of actions in order.
pub open spec fn toggles_after(h: Seq<bool>, v: Seq<bool>, actions: Seq<ShiftAction>) -> (
    Seq<bool>,
    Seq<bool>,
)
    decreases actions.len(),
{
    if actions.len() == 0 {
        (h, v)
    } else {
        let st = toggle_step(h, v, actions[0]);
        toggles_after(st.0, st.1, actions.drop_first())
    }
}

proof fn lemma_toggles_after_concat(
    h: Seq<bool>,
    v: Seq<bool>,
    s1: Seq<ShiftAction>,
    s2: Seq<ShiftAction>,
)
    ensures
        toggles_after(h, v, s1 + s2) == toggles_after(
            toggles_after(h, v, s1).0,
            toggles_after(h, v, s1).1,
            s2,
        ),
    decreases s1.len(),
{
    if s1.len() == 0 {
        assert(s1 + s2 =~= s2);
    } else {
        let st = toggle_step(h, v, s1[0]);
        assert((s1 + s2)[0] == s1[0]);
        assert((s1 + s2).drop_first() =~= s1.drop_first() + s2);
        lemma_toggles_after_concat(st.0, st.1, s1.drop_first(), s2);
    }
}

/// The index the randomized phase picks from a raw draw in
/// `[0, grid_size - 2]`: mapped into `[1, grid_size]` skipping over the
/// previous pick `last`, so the same line is never chosen twice in a row.
pub open spec fn pick_index(draw: u8, last: int) -> int {
    let r = draw as int + 1;
    if r >= last {
        r + 1
    } else {
        r
    }
}

/// The action one randomized step emits, given the axis pick, the raw index
/// draw, the toggle state and the previous index: a line whose toggle is
/// clear moves forward (East/South) and the toggle is set; one whose toggle
/// is set moves back (West/North) and the toggle is cleared.
pub open spec fn gen_action(
    is_row: bool,
    draw: u8,
    h: Seq<bool>,
    v: Seq<bool>,
    last: int,
) -> ShiftAction {
    let idx = pick_index(draw, last);
    let direction = if is_row {
        if h[idx - 1] {
            Direction::West
        } else {
            Direction::East
        }
    } else {
        if v[idx - 1] {
            Direction::North
        } else {
            Direction::South
        }
    };
    ShiftAction { current_offset: 0, remaining_time: ACTION_TIME, idx: idx as u8, direction }
}

/// The whole randomized phase, step by step: the emitted actions, the final
/// toggle state, and the final previous-index.
pub open spec fn gen_steps(
    axes: Seq<bool>,
    draws: Seq<u8>,
    h: Seq<bool>,
    v: Seq<bool>,
    last: int,
) -> (Seq<ShiftAction>, Seq<bool>, Seq<bool>, int)
    decreases axes.len(),
{
    if axes.len() == 0 {
        (Seq::empty(), h, v, last)
    } else {
        let a = gen_action(axes[0], draws[0], h, v, last);
        let st = toggle_step(h, v, a);
        let rest = gen_steps(axes.drop_first(), draws.drop_first(), st.0, st.1, a.idx as int);
        (seq![a] + rest.0, rest.1, rest.2, rest.3)
    }
}

/// The cleanup pass over rows: for every row whose toggle is still set, one
/// corrective westward action, in index order.
pub open spec fn cleanup_row(h: Seq<bool>) -> Seq<ShiftAction>
    decreases h.len(),
{
    if h.len() == 0 {
        Seq::empty()
    } else {
        cleanup_row(h.drop_last()) + (if h.last() {
            seq![
                ShiftAction {
                    current_offset: 0,
                    remaining_time: ACTION_TIME,
                    idx: h.len() as u8,
                    direction: Direction::West,
                },
            ]
        } else {
            Seq::empty()
        })
    }
}

/// The cleanup pass over columns, mirroring `cleanup_row` with northward
/// actions.
pub open spec fn cleanup_col(v: Seq<bool>) -> Seq<ShiftAction>
    decreases v.len(),
{
    if v.len() == 0 {
        Seq::empty()
    } else {
        cleanup_col(v.drop_last()) + (if v.last() {
            seq![
                ShiftAction {
                    current_offset: 0,
                    remaining_time: ACTION_TIME,
                    idx: v.len() as u8,
                    direction: Direction::North,
                },
            ]
        } else {
            Seq::empty()
        })
    }
}

/// The full generated queue for a given sequence of random picks: the
/// randomized steps from a neutral toggle state, then the two cleanup
/// passes over whatever toggles they left set.
pub open spec fn shuffle_spec(g: int, axes: Seq<bool>, draws: Seq<u8>) -> Seq<ShiftAction> {
    let r = gen_steps(axes, draws, neutral(g), neutral(g), 0);
    r.0 + cleanup_row(r.1) + cleanup_col(r.2)
}

/// Applying the cleanup row pass to any toggle state at least as long as
/// `h` clears exactly the positions `h` has set, and leaves columns alone.
proof fn lemma_cleanup_row_toggles(hst: Seq<bool>, vst: Seq<bool>, h: Seq<bool>)
    requires
        h.len() <= hst.len(),
        h.len() <= 255,
    ensures
        toggles_after(hst, vst, cleanup_row(h)) == (
            Seq::new(
                hst.len(),
                |k: int|
                    if 0 <= k < h.len() && h[k] {
                        false
                    } else {
                        hst[k]
                    },
            ),
            vst,
        ),
    decreases h.len(),
{
    if h.len() == 0 {
        assert(toggles_after(hst, vst, cleanup_row(h)).0 =~= Seq::new(
            hst.len(),
            |k: int|
                if 0 <= k < h.len() && h[k] {
                    false
                } else {
                    hst[k]
                },
        ));
    } else {
        let h1 = h.drop_last();
        lemma_cleanup_row_toggles(hst, vst, h1);
        let mid = toggles_after(hst, vst, cleanup_row(h1));
        let tail = if h.last() {
            seq![
                ShiftAction {
                    current_offset: 0,
                    remaining_time: ACTION_TIME,
                    idx: h.len() as u8,
                    direction: Direction::West,
                },
            ]
        } else {
            Seq::<ShiftAction>::empty()
        };
        lemma_toggles_after_concat(hst, vst, cleanup_row(h1), tail);
        if h.last() {
            assert(toggles_after(mid.0, mid.1, tail) =~~= (
                mid.0.update(h.len() - 1, false),
                mid.1,
            )) by {
                assert(tail.drop_first() =~= Seq::<ShiftAction>::empty());
                assert(tail[0].idx as int == h.len());
                let st = toggle_step(mid.0, mid.1, tail[0]);
                assert(st.0 =~= mid.0.update(h.len() - 1, false));
                assert(st.1 == mid.1);
                assert(toggles_after(st.0, st.1, tail.drop_first()) =~~= (st.0, st.1));
            };
        } else {
            assert(cleanup_row(h1) + Seq::<ShiftAction>::empty() =~= cleanup_row(h1));
            assert(toggles_after(mid.0, mid.1, Seq::<ShiftAction>::empty()) =~~= (mid.0, mid.1));
        }
        assert(toggles_after(hst, vst, cleanup_row(h)) =~~= (
            Seq::new(
                hst.len(),
                |k: int|
                    if 0 <= k < h.len() && h[k] {
                        false
                    } else {
                        hst[k]
                    },
            ),
            vst,
        ));
    }
}

/// The mirror of `lemma_cleanup_row_toggles` for the column pass.
proof fn lemma_cleanup_col_toggles(hst: Seq<bool>, vst: Seq<bool>, v: Seq<bool>)
    requires
        v.len() <= vst.len(),
        v.len() <= 255,
    ensures
        toggles_after(hst, vst, cleanup_col(v)) == (
            hst,
            Seq::new(
                vst.len(),
                |k: int|
                    if 0 <= k < v.len() && v[k] {
                        false
                    } else {
                        vst[k]
                    },
            ),
        ),
    decreases v.len(),
{
    if v.len() == 0 {
        assert(toggles_after(hst, vst, cleanup_col(v)).1 =~= Seq::new(
            vst.len(),
            |k: int|
                if 0 <= k < v.len() && v[k] {
                    false
                } else {
                    vst[k]
                },
        ));
    } else {
        let v1 = v.drop_last();
        lemma_cleanup_col_toggles(hst, vst, v1);
        let mid = toggles_after(hst, vst, cleanup_col(v1));
        let tail = if v.last() {
            seq![
                ShiftAction {
                    current_offset: 0,
                    remaining_time: ACTION_TIME,
                    idx: v.len() as u8,
                    direction: Direction::North,
                },
            ]
        } else {
            Seq::<ShiftAction>::empty()
        };
        lemma_toggles_after_concat(hst, vst, cleanup_col(v1), tail);
        if v.last() {
            assert(toggles_after(mid.0, mid.1, tail) =~~= (
                mid.0,
                mid.1.update(v.len() - 1, false),
            )) by {
                assert(tail.drop_first() =~= Seq::<ShiftAction>::empty());
                assert(tail[0].idx as int == v.len());
                let st = toggle_step(mid.0, mid.1, tail[0]);
                assert(st.0 == mid.0);
                assert(st.1 =~= mid.1.update(v.len() - 1, false));
                assert(toggles_after(st.0, st.1, tail.drop_first()) =~~= (st.0, st.1));
            };
        } else {
            assert(cleanup_col(v1) + Seq::<ShiftAction>::empty() =~= cleanup_col(v1));
            assert(toggles_after(mid.0, mid.1, Seq::<ShiftAction>::empty()) =~~= (mid.0, mid.1));
        }
        assert(toggles_after(hst, vst, cleanup_col(v)) =~~= (
            hst,
            Seq::new(
                vst.len(),
                |k: int|
                    if 0 <= k < v.len() && v[k] {
                        false
                    } else {
                        vst[k]
                    },
            ),
        ));
    }
}

/// The randomized phase's toggle bookkeeping is exactly `toggles_after` of
/// the actions it emits.
proof fn lemma_gen_steps_toggles(
    axes: Seq<bool>,
    draws: Seq<u8>,
    h: Seq<bool>,
    v: Seq<bool>,
    last: int,
)
    ensures
        toggles_after(h, v, gen_steps(axes, draws, h, v, last).0) == (
            gen_steps(axes, draws, h, v, last).1,
            gen_steps(axes, draws, h, v, last).2,
        ),
    decreases axes.len(),
{
    if axes.len() != 0 {
        let a = gen_action(axes[0], draws[0], h, v, last);
        let st = toggle_step(h, v, a);
        let rest = gen_steps(axes.drop_first(), draws.drop_first(), st.0, st.1, a.idx as int);
        lemma_gen_steps_toggles(axes.drop_first(), draws.drop_first(), st.0, st.1, a.idx as int);
        assert((seq![a] + rest.0)[0] == a);
        assert((seq![a] + rest.0).drop_first() =~= rest.0);
    }
}

/// The cleanup passes return every toggle to neutral: for any picks, the
/// toggle state after replaying the whole generated queue from neutral is
/// neutral again.
pub proof fn lemma_shuffle_toggles_neutral(g: int, axes: Seq<bool>, draws: Seq<u8>)
    requires
        1 <= g <= 255,
    ensures
        toggles_after(neutral(g), neutral(g), shuffle_spec(g, axes, draws)) == (
            neutral(g),
            neutral(g),
        ),
{
    let r = gen_steps(axes, draws, neutral(g), neutral(g), 0);
    lemma_gen_steps_len(axes, draws, neutral(g), neutral(g), 0);
    lemma_gen_steps_toggles(axes, draws, neutral(g), neutral(g), 0);
    lemma_toggles_after_concat(neutral(g), neutral(g), r.0, cleanup_row(r.1) + cleanup_col(r.2));
    lemma_toggles_after_concat(r.1, r.2, cleanup_row(r.1), cleanup_col(r.2));
    assert(r.0 + cleanup_row(r.1) + cleanup_col(r.2) =~= r.0 + (cleanup_row(r.1) + cleanup_col(
        r.2,
    )));
    lemma_cleanup_row_toggles(r.1, r.2, r.1);
    let h_after = toggles_after(r.1, r.2, cleanup_row(r.1));
    assert(h_after.0 =~= neutral(g));
    lemma_cleanup_col_toggles(h_after.0, h_after.1, h_after.1);
    assert(toggles_after(h_after.0, h_after.1, cleanup_col(r.2)).1 =~= neutral(g));
}

/// The randomized phase never changes the length of the toggle sequences.
proof fn lemma_gen_steps_len(axes: Seq<bool>, draws: Seq<u8>, h: Seq<bool>, v: Seq<bool>, last: int)
    ensures
        gen_steps(axes, draws, h, v, last).1.len() == h.len(),
        gen_steps(axes, draws, h, v, last).2.len() == v.len(),
    decreases axes.len(),
{
    if axes.len() != 0 {
        let a = gen_action(axes[0], draws[0], h, v, last);
        let st = toggle_step(h, v, a);
        lemma_gen_steps_len(axes.drop_first(), draws.drop_first(), st.0, st.1, a.idx as int);
    }
}

/// Relies on `js_sys::Math::random`: a uniform pseudo-random float in
/// `[0, 1)`. Eight doublings — each exact in binary floating point — scale
/// it into `[0, 256)`, and truncation then yields a uniform random byte.
/// Nothing can be promised of a random value, so there is no contract.
#[verifier::external_body]
fn random_byte() -> u8 {
    let mut x = js_sys::Math::random();
    x = x + x;
    x = x + x;
    x = x + x;
    x = x + x;
    x = x + x;
    x = x + x;
    x = x + x;
    x = x + x;
    x as u8
}

/// Generate the shuffle queue for the given random picks: one axis pick and
/// one raw index draw per randomized step, then the cleanup passes. The
/// result is fully determined by the picks; see `shuffle` for the
/// randomized entry point.
#[verifier::rlimit(60)]
pub fn shuffle_seeded(grid_size: i8, axis_picks: &Vec<bool>, index_draws: &Vec<u8>) -> (actions:
    VecDeque<ShiftAction>)
    requires
        1 <= grid_size,
        axis_picks@.len() == index_draws@.len(),
        forall|i: int|
            0 <= i < index_draws@.len() ==> (#[trigger] index_draws@[i]) < grid_size as u8 - 1,
    ensures
        actions@ == shuffle_spec(grid_size as int, axis_picks@, index_draws@),
        toggles_after(neutral(grid_size as int), neutral(grid_size as int), actions@) == (
            neutral(grid_size as int),
            neutral(grid_size as int),
        ),
        axis_picks@.len() <= actions@.len() <= axis_picks@.len() + 2 * grid_size as int,
        forall|i: int|
            0 <= i < actions@.len() ==> action_fresh(#[trigger] actions@[i], grid_size as int),
        forall|i: int|
            0 <= i && i + 1 < axis_picks@.len() ==> (#[trigger] actions@[i]).idx != actions@[i
                + 1].idx,
{
    let ghost gz = grid_size as int;
    let g = grid_size as usize;
    let mut h: Vec<bool> = vec![false; g];
    let mut v: Vec<bool> = vec![false; g];
    proof {
        assert(h@ =~= neutral(gz));
        assert(v@ =~= neutral(gz));
    }
    let mut actions: VecDeque<ShiftAction> = VecDeque::new();
    let mut last: u8 = 0;
    let steps = axis_picks.len();
    let ghost full = gen_steps(axis_picks@, index_draws@, neutral(gz), neutral(gz), 0);
    proof {
        assert(axis_picks@.skip(0) =~= axis_picks@);
        assert(index_draws@.skip(0) =~= index_draws@);
    }
    let mut i: usize = 0;
    while i < steps
        invariant
            1 <= grid_size,
            gz == grid_size as int,
            g == gz,
            steps == axis_picks@.len(),
            steps == index_draws@.len(),
            forall|k: int|
                0 <= k < index_draws@.len() ==> (#[trigger] index_draws@[k]) < grid_size as u8 - 1,
            h@.len() == gz,
            v@.len() == gz,
            0 <= i <= steps,
            actions@.len() == i as int,
            i > 0 ==> actions@[i as int - 1].idx == last,
            i == 0 ==> last == 0,
            forall|k: int| 0 <= k < i ==> action_fresh(#[trigger] actions@[k], gz),
            forall|k: int|
                0 <= k && k + 1 < i ==> (#[trigger] actions@[k]).idx != actions@[k + 1].idx,
            full == gen_steps(axis_picks@, index_draws@, neutral(gz), neutral(gz), 0),
            full.0 == actions@ + gen_steps(
                axis_picks@.skip(i as int),
                index_draws@.skip(i as int),
                h@,
                v@,
                last as int,
            ).0,
            full.1 == gen_steps(
                axis_picks@.skip(i as int),
                index_draws@.skip(i as int),
                h@,
                v@,
                last as int,
            ).1,
            full.2 == gen_steps(
                axis_picks@.skip(i as int),
                index_draws@.skip(i as int),
                h@,
                v@,
                last as int,
            ).2,
        decreases steps - i,
    {
        let ghost h0 = h@;
        let ghost v0 = v@;
        let ghost last0 = last;
        let ghost rem_axes = axis_picks@.skip(i as int);
        let ghost rem_draws = index_draws@.skip(i as int);
        let is_row = axis_picks[i];
        let draw = index_draws[i];
        let r: u8 = draw + 1;
        let idx: u8 = if r >= last {
            r + 1
        } else {
            r
        };
        last = idx;
        let k = (idx - 1) as usize;
        let direction = if is_row {
            if h[k] {
                h.set(k, false);
                Direction::West
            } else {
                h.set(k, true);
                Direction::East
            }
        } else {
            if v[k] {
                v.set(k, false);
                Direction::North
            } else {
                v.set(k, true);
                Direction::South
            }
        };
        let a = ShiftAction::create(idx, direction);
        proof {
            assert(rem_axes[0] == axis_picks@[i as int]);
            assert(rem_draws[0] == index_draws@[i as int]);
            assert(rem_axes.drop_first() =~= axis_picks@.skip(i as int + 1));
            assert(rem_draws.drop_first() =~= index_draws@.skip(i as int + 1));
            assert(a == gen_action(rem_axes[0], rem_draws[0], h0, v0, last0 as int));
            assert(toggle_step(h0, v0, a) == (h@, v@)) by {
                if a.direction is East || a.direction is West {
                    assert(h@ =~= toggle_step(h0, v0, a).0);
                } else {
                    assert(v@ =~= toggle_step(h0, v0, a).1);
                }
            };
            let rest = gen_steps(
                axis_picks@.skip(i as int + 1),
                index_draws@.skip(i as int + 1),
                h@,
                v@,
                idx as int,
            );
            assert(gen_steps(rem_axes, rem_draws, h0, v0, last0 as int).0 =~= seq![a] + rest.0);
            assert(actions@ + (seq![a] + rest.0) =~= actions@.push(a) + rest.0);
        }
        actions.push_back(a);
        i += 1;
    }
    proof {
        assert(axis_picks@.skip(steps as int) =~= Seq::<bool>::empty());
        assert(index_draws@.skip(steps as int) =~= Seq::<u8>::empty());
        assert(actions@ + Seq::<ShiftAction>::empty() =~= actions@);
        assert(full.0 == actions@);
        assert(full.1 == h@);
        assert(full.2 == v@);
    }
    let ghost randomized = actions@;

    let mut j: usize = 0;
    while j < g
        invariant
            1 <= grid_size,
            gz == grid_size as int,
            g == gz,
            h@.len() == gz,
            v@.len() == gz,
            0 <= j <= g,
            actions@ == randomized + cleanup_row(h@.take(j as int)),
            actions@.len() <= randomized.len() + j as int,
            full.1 == h@,
            forall|k: int| 0 <= k < randomized.len() ==> actions@[k] == randomized[k],
        decreases g - j,
    {
        proof {
            assert(h@.take(j as int + 1).drop_last() =~= h@.take(j as int));
            assert(h@.take(j as int + 1).last() == h@[j as int]);
        }
        if h[j] {
            let a = ShiftAction::create((j + 1) as u8, Direction::West);
            actions.push_back(a);
            proof {
                assert(actions@ =~= randomized + cleanup_row(h@.take(j as int + 1)));
            }
        } else {
            proof {
                assert(cleanup_row(h@.take(j as int + 1)) =~= cleanup_row(h@.take(j as int))
                    + Seq::<ShiftAction>::empty());
                assert(actions@ =~= randomized + cleanup_row(h@.take(j as int + 1)));
            }
        }
        j += 1;
    }
    proof {
        assert(h@.take(g as int) =~= h@);
    }
    let ghost after_rows = actions@;

    let mut j2: usize = 0;
    while j2 < g
        invariant
            1 <= grid_size,
            gz == grid_size as int,
            g == gz,
            v@.len() == gz,
            0 <= j2 <= g,
            actions@ == after_rows + cleanup_col(v@.take(j2 as int)),
            actions@.len() <= after_rows.len() + j2 as int,
            full.2 == v@,
            forall|k: int| 0 <= k < after_rows.len() ==> actions@[k] == after_rows[k],
        decreases g - j2,
    {
        proof {
            assert(v@.take(j2 as int + 1).drop_last() =~= v@.take(j2 as int));
            assert(v@.take(j2 as int + 1).last() == v@[j2 as int]);
        }
        if v[j2] {
            let a = ShiftAction::create((j2 + 1) as u8, Direction::North);
            actions.push_back(a);
            proof {
                assert(actions@ =~= after_rows + cleanup_col(v@.take(j2 as int + 1)));
            }
        } else {
            proof {
                assert(cleanup_col(v@.take(j2 as int + 1)) =~= cleanup_col(v@.take(j2 as int))
                    + Seq::<ShiftAction>::empty());
                assert(actions@ =~= after_rows + cleanup_col(v@.take(j2 as int + 1)));
            }
        }
        j2 += 1;
    }
    proof {
        assert(v@.take(g as int) =~= v@);
        assert(actions@ =~= full.0 + cleanup_row(full.1) + cleanup_col(full.2));
        lemma_shuffle_toggles_neutral(gz, axis_picks@, index_draws@);
        lemma_cleanup_fresh(full.1, gz);
        lemma_cleanup_fresh_col(full.2, gz);
    }
    actions
}

/// Every cleanup row action addresses a line of the board.
proof fn lemma_cleanup_fresh(h: Seq<bool>, g: int)
    requires
        h.len() <= g,
        g <= 255,
    ensures
        forall|i: int|
            0 <= i < cleanup_row(h).len() ==> action_fresh(#[trigger] cleanup_row(h)[i], g),
        cleanup_row(h).len() <= h.len(),
    decreases h.len(),
{
    if h.len() != 0 {
        lemma_cleanup_fresh(h.drop_last(), g);
    }
}

/// Every cleanup column action addresses a line of the board.
proof fn lemma_cleanup_fresh_col(v: Seq<bool>, g: int)
    requires
        v.len() <= g,
        g <= 255,
    ensures
        forall|i: int|
            0 <= i < cleanup_col(v).len() ==> action_fresh(#[trigger] cleanup_col(v)[i], g),
        cleanup_col(v).len() <= v.len(),
    decreases v.len(),
{
    if v.len() != 0 {
        lemma_cleanup_fresh_col(v.drop_last(), g);
    }
}

/// Produce a shuffle queue of `steps` randomized shift actions over a board
/// of side `grid_size`, plus the cleanup pass. The axis of each step and
/// the line drawn are random, so only what holds of every outcome is
/// promised: every action addresses a line of the board with a full time
/// budget and no offset; no two adjacent randomized actions target the same
/// line; and replaying the whole queue over the toggle state returns every
/// row and column toggle to neutral.
pub fn shuffle(grid_size: i8, steps: i8) -> (actions: VecDeque<ShiftAction>)
    requires
        1 <= grid_size,
        0 <= steps,
        grid_size == 1 ==> steps == 0,
    ensures
        steps as int <= actions@.len() <= steps as int + 2 * grid_size as int,
        toggles_after(neutral(grid_size as int), neutral(grid_size as int), actions@) == (
            neutral(grid_size as int),
            neutral(grid_size as int),
        ),
        forall|i: int|
            0 <= i < actions@.len() ==> action_fresh(#[trigger] actions@[i], grid_size as int),
        forall|i: int|
            0 <= i && i + 1 < steps as int ==> (#[trigger] actions@[i]).idx != actions@[i + 1].idx,
{
    let n = steps as usize;
    let mut axes: Vec<bool> = Vec::new();
    let mut draws: Vec<u8> = Vec::new();
    let mut i: usize = 0;
    while i < n
        invariant
            1 <= grid_size,
            n > 0 ==> grid_size >= 2,
            0 <= i <= n,
            axes@.len() == i as int,
            draws@.len() == i as int,
            forall|k: int| 0 <= k < i ==> (#[trigger] draws@[k]) < grid_size as u8 - 1,
        decreases n - i,
    {
        axes.push(random_byte() >= 128);
        draws.push(random_byte() % ((grid_size as u8) - 1));
        i += 1;
    }
    shuffle_seeded(grid_size, &axes, &draws)
}

} // verus!

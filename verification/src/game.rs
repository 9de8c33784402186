//! The decisions of the frame loop: how much simulated time a frame owes,
//! when the loop ends, and what a frame draws in which order.

pub mod format;
pub mod world;

use crate::game::world::{lemma_cell_index, TileMap};
use crate::utils::{Blit, Rect};
use vstd::prelude::*;

verus! {

/// The length of one step of the simulation, in nanoseconds: a hundredth of
/// a second.
pub const FIXED_STEP_NANOS: u64 = 10_000_000;

/// A key of the keyboard, as far as the loop tells keys apart.
#[derive(Debug, Clone, Copy, PartialEq, Eq, Structural)]
pub enum Key {
    Escape,
    Other,
}

/// An event of the input queue, as far as the loop tells events apart.
#[derive(Debug, Clone, Copy, PartialEq, Eq, Structural)]
pub enum InputEvent {
    /// The user asked the program to quit.
    Quit,
    /// A key went down.
    KeyDown(Key),
    /// Anything else.
    Other,
}

/// Whether an event ends the loop: a request to quit, or the escape key
/// going down.
pub open spec fn ends_loop(event: InputEvent) -> bool {
    event == InputEvent::Quit || event == InputEvent::KeyDown(Key::Escape)
}

/// Whether one of the events ends the loop.
pub open spec fn asks_to_quit(events: Seq<InputEvent>) -> bool {
    exists|i: int| 0 <= i < events.len() && ends_loop(#[trigger] events[i])
}

/// One thing that a frame does to the render target.
#[derive(Debug, Clone, Copy, PartialEq, Eq, Structural)]
pub enum RenderOp {
    /// Fill the target with the background colour.
    Clear,
    /// Copy a cell of the tile atlas.
    Tile(Blit),
    /// Copy the player's whole texture to this place.
    Player(Rect),
    /// Show what was drawn.
    Present,
}

/// What becomes of the time that is owed once a frame of `frame` nanoseconds
/// is added to the `accumulated` ones: the number of whole steps that fit,
/// and the nanoseconds that are left over.
pub open spec fn owed(accumulated: nat, frame: nat) -> (nat, nat) {
    (
        (accumulated + frame) / (FIXED_STEP_NANOS as nat),
        (accumulated + frame) % (FIXED_STEP_NANOS as nat),
    )
}

/// No time is lost or made: the steps and what is left over add up to the
/// time that was owed, and less than one step is left over.
pub proof fn lemma_time_is_kept(accumulated: nat, frame: nat)
    ensures
        owed(accumulated, frame).0 * FIXED_STEP_NANOS + owed(accumulated, frame).1 == accumulated
            + frame,
        owed(accumulated, frame).1 < FIXED_STEP_NANOS,
{
    let total = accumulated + frame;
    assert((total / 10_000_000) * 10_000_000 + total % 10_000_000 == total && total % 10_000_000
        < 10_000_000) by (nonlinear_arith)
        requires
            0 <= total,
    ;
}

/// The simulation does not depend on how time is cut into frames: two
/// frames in a row owe as many steps, and leave as much over, as one frame
/// of their joint length.
pub proof fn lemma_frames_add_up(accumulated: nat, first: nat, second: nat)
    ensures
        owed(accumulated, first).0 + owed(owed(accumulated, first).1, second).0 == owed(
            accumulated,
            first + second,
        ).0,
        owed(owed(accumulated, first).1, second).1 == owed(accumulated, first + second).1,
{
    let a = accumulated + first;
    let q = a / 10_000_000;
    let r = a % 10_000_000;
    assert(q * 10_000_000 + r == a && 0 <= r < 10_000_000 && (r + second) / 10_000_000 + q == (a
        + second) / 10_000_000 && (r + second) % 10_000_000 == (a + second) % 10_000_000)
        by (nonlinear_arith)
        requires
            q == a / 10_000_000,
            r == a % 10_000_000,
            0 <= a,
            0 <= second,
    ;
}

/// The time from the reading `last` of a clock to the reading `now`, both
/// in nanoseconds: none where the clock did not go on.
pub open spec fn elapsed(last: u64, now: u64) -> nat {
    if now >= last {
        (now - last) as nat
    } else {
        0
    }
}

/// The state of the frame loop: the simulated time that is owed and not
/// yet spent on a step, when the last frame began, and whether the loop
/// goes on.
#[derive(Debug, Clone, Copy, PartialEq, Eq, Structural)]
pub struct GameLoop {
    /// Nanoseconds that have passed and that no step has used up.
    pub accumulated: u64,
    /// What the clock read, in nanoseconds, when the last frame began.
    pub last_instant: u64,
    /// Whether the loop is still running.
    pub running: bool,
}

impl GameLoop {
    /// A running loop that owes no time and starts at the clock reading
    /// `now`.
    pub fn new(now: u64) -> (state: GameLoop)
        ensures
            state == (GameLoop { accumulated: 0, last_instant: now, running: true }),
    {
        GameLoop { accumulated: 0, last_instant: now, running: true }
    }

    /// Begins a frame at the clock reading `now` and tells how many steps
    /// of the simulation are to run in it: the time since the last frame
    /// began is added to what is owed, and as many whole steps as fit into
    /// that are due. What is left stays owed. A loop that has ended owes
    /// nothing more.
    pub fn advance(&mut self, now: u64) -> (steps: u64)
        ensures
            old(self).running ==> {
                &&& (steps as nat, final(self).accumulated as nat) == owed(
                    old(self).accumulated as nat,
                    elapsed(old(self).last_instant, now),
                )
                &&& final(self).last_instant == now
                &&& final(self).running
            },
            !old(self).running ==> steps == 0 && *final(self) == *old(self),
    {
        if !self.running {
            return 0;
        }
        let frame: u64 = if now >= self.last_instant {
            now - self.last_instant
        } else {
            0
        };
        let owed: u128 = self.accumulated as u128 + frame as u128;
        let steps: u128 = owed / (FIXED_STEP_NANOS as u128);
        let left: u128 = owed % (FIXED_STEP_NANOS as u128);
        assert(steps * 10_000_000 + left == owed && steps <= owed) by (nonlinear_arith)
            requires
                steps == owed / 10_000_000,
                left == owed % 10_000_000,
                0 <= owed,
        ;
        self.accumulated = left as u64;
        self.last_instant = now;
        steps as u64
    }

    /// Takes note of a batch of input events: the loop ends with the first
    /// one that asks for it. Tells whether the loop goes on.
    pub fn handle_input(&mut self, events: &[InputEvent]) -> (running: bool)
        ensures
            running == final(self).running,
            final(self).running == (old(self).running && !asks_to_quit(events@)),
            final(self).accumulated == old(self).accumulated,
            final(self).last_instant == old(self).last_instant,
    {
        let mut at: usize = 0;
        while at < events.len()
            invariant
                at <= events.len(),
                *self == *old(self),
                forall|i: int| 0 <= i < at ==> !ends_loop(#[trigger] events@[i]),
            decreases events.len() - at,
        {
            match events[at] {
                InputEvent::Quit | InputEvent::KeyDown(Key::Escape) => {
                    self.running = false;
                    return false;
                },
                _ => {},
            }
            at += 1;
        }
        self.running
    }
}

/// What a frame does to the render target, in order: clear it, draw
/// every tile of the map, row after row, draw the player at `player`,
/// present.
pub fn render<T>(map: &TileMap<T>, player: Rect) -> (ops: Vec<RenderOp>)
    requires
        map.drawable(),
    ensures
        ops@.len() == map.width * map.height + 3,
        ops@[0] == RenderOp::Clear,
        forall|x: int, y: int|
            0 <= x < map.width && 0 <= y < map.height ==> ops@[1 + x + y * map.width]
                == RenderOp::Tile(#[trigger] map.tile_blit(x, y)),
        ops@[map.width * map.height + 1] == RenderOp::Player(player),
        ops@[map.width * map.height + 2] == RenderOp::Present,
{
    let tiles = map.draw();
    let mut ops: Vec<RenderOp> = Vec::new();
    ops.push(RenderOp::Clear);
    let mut at: usize = 0;
    while at < tiles.len()
        invariant
            at <= tiles.len(),
            ops@.len() == at + 1,
            ops@[0] == RenderOp::Clear,
            forall|i: int| 0 <= i < at ==> ops@[1 + i] == RenderOp::Tile(#[trigger] tiles@[i]),
        decreases tiles.len() - at,
    {
        ops.push(RenderOp::Tile(tiles[at]));
        at += 1;
    }
    ops.push(RenderOp::Player(player));
    ops.push(RenderOp::Present);
    proof {
        assert forall|x: int, y: int| 0 <= x < map.width && 0 <= y < map.height implies ops@[1
            + x + y * map.width] == RenderOp::Tile(#[trigger] map.tile_blit(x, y)) by {
            lemma_cell_index(x, y, map.width as int, map.height as int);
            assert(ops@[1 + (x + y * map.width)] == RenderOp::Tile(tiles@[x + y * map.width]));
        }
    }
    ops
}

} // verus!

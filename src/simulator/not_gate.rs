use vstd::prelude::*;

verus! {

/// `slow_state` is kept in fixed point: this value stands for 1.0.
pub const SLOW_STATE_MAX: u32 = 1024;
/// Base progress of a rising transition per update (0.5).
pub const TIME_RAISE: u32 = 512;
/// Base progress of a falling transition per update (0.5).
pub const TIME_FALL: u32 = 512;
/// Random extra progress per update lies in `0..TIME_RANDOM` (0 to 0.5).
pub const TIME_RANDOM: u32 = 512;

/// Relies on rand::random: any value of the type may come back.
pub assume_specification<T>[ rand::random::<T> ]() -> (r: T)
    where
        rand::distributions::Standard: rand::distributions::Distribution<T>,
;

/// One delay update: the output level and accumulator after moving toward
/// `target` with the given extra progress.
pub open spec fn delay_step(state: bool, slow: int, target: bool, jitter: int) -> (bool, int) {
    if target {
        if state && slow >= SLOW_STATE_MAX {
            (state, slow)
        } else if slow + TIME_RAISE + jitter >= SLOW_STATE_MAX {
            (true, SLOW_STATE_MAX as int)
        } else {
            (state, slow + TIME_RAISE + jitter)
        }
    } else {
        if !state && slow <= 0 {
            (state, slow)
        } else if slow - TIME_FALL - jitter <= 0 {
            (false, 0)
        } else {
            (state, slow - TIME_FALL - jitter)
        }
    }
}

/// A NOT gate with a delayed, slightly random switching time.
#[derive(Clone)]
pub struct NotGate {
    pub wire_in_id: i32,
    pub wire_out_id: i32,
    /// Real state of the output of this NOT gate.
    pub state: bool,
    pub x: u32,
    pub y: u32,
    pub dir: u32,
    /// Progress toward the opposite level, from 0 to `SLOW_STATE_MAX`; it
    /// delays changes of `state` the way a physical gate would.
    pub slow_state: u32,
}

impl NotGate {
    pub open spec fn wf(&self) -> bool {
        self.slow_state <= SLOW_STATE_MAX
    }

    /// This NOT gate after one delay update toward `target`.
    pub open spec fn stepped(&self, target: bool, jitter: int) -> (bool, int) {
        delay_step(self.state, self.slow_state as int, target, jitter)
    }

    /// A settled gate with a low output.
    pub fn new(wire_in_id: i32, wire_out_id: i32, x: u32, y: u32, dir: u32) -> (r: Self)
        ensures
            r.wf(),
            r.wire_in_id == wire_in_id,
            r.wire_out_id == wire_out_id,
            r.x == x,
            r.y == y,
            r.dir == dir,
            !r.state,
            r.slow_state == 0,
    {
        Self { wire_in_id, wire_out_id, state: false, slow_state: 0, x, y, dir }
    }

    /// Moves this NOT gate toward `state`, with `jitter` as the random extra
    /// progress of this update.
    pub fn update_state_with_jitter(&mut self, state: bool, jitter: u32)
        requires
            old(self).wf(),
            jitter < TIME_RANDOM,
        ensures
            final(self).wf(),
            (final(self).state, final(self).slow_state as int) == old(self).stepped(
                state,
                jitter as int,
            ),
            final(self).wire_in_id == old(self).wire_in_id,
            final(self).wire_out_id == old(self).wire_out_id,
            final(self).x == old(self).x,
            final(self).y == old(self).y,
            final(self).dir == old(self).dir,
    {
        if state {
            if self.state && self.slow_state >= SLOW_STATE_MAX {
                return;
            }
            let next = self.slow_state + TIME_RAISE + jitter;
            if next >= SLOW_STATE_MAX {
                self.slow_state = SLOW_STATE_MAX;
                self.state = true;
            } else {
                self.slow_state = next;
            }
        } else {
            if !self.state && self.slow_state == 0 {
                return;
            }
            if self.slow_state <= TIME_FALL + jitter {
                self.slow_state = 0;
                self.state = false;
            } else {
                self.slow_state = self.slow_state - TIME_FALL - jitter;
            }
        }
    }

    /// Moves this NOT gate toward `state` by a fixed step plus a fresh random one.
    pub fn update_state(&mut self, state: bool)
        requires
            old(self).wf(),
        ensures
            final(self).wf(),
            exists|jitter: int|
                0 <= jitter < TIME_RANDOM && (final(self).state, final(self).slow_state as int)
                    == #[trigger] old(self).stepped(state, jitter),
            final(self).wire_in_id == old(self).wire_in_id,
            final(self).wire_out_id == old(self).wire_out_id,
            final(self).x == old(self).x,
            final(self).y == old(self).y,
            final(self).dir == old(self).dir,
    {
        let jitter = random_jitter();
        self.update_state_with_jitter(state, jitter);
    }
}

/// A uniformly drawn extra progress in `0..TIME_RANDOM`.
pub fn random_jitter() -> (r: u32)
    ensures
        r < TIME_RANDOM,
{
    let raw: u32 = rand::random::<u32>();
    raw % TIME_RANDOM
}

/// The output level changes only when the accumulator reaches the bound of the
/// new level, and only toward the target.
pub proof fn lemma_flip_only_at_bound(state: bool, slow: int, target: bool, jitter: int)
    requires
        0 <= slow <= SLOW_STATE_MAX,
        0 <= jitter < TIME_RANDOM,
    ensures
        0 <= delay_step(state, slow, target, jitter).1 <= SLOW_STATE_MAX,
        delay_step(state, slow, target, jitter).0 != state ==> delay_step(
            state,
            slow,
            target,
            jitter,
        ).0 == target && delay_step(state, slow, target, jitter).1 == if target {
            SLOW_STATE_MAX as int
        } else {
            0
        },
{
}

/// Two updates toward the same target always settle its output there, whatever
/// the random extra progress.
pub proof fn lemma_settles_within_two(
    state: bool,
    slow: int,
    target: bool,
    jitter1: int,
    jitter2: int,
)
    requires
        0 <= slow <= SLOW_STATE_MAX,
        0 <= jitter1 < TIME_RANDOM,
        0 <= jitter2 < TIME_RANDOM,
    ensures
        ({
            let first = delay_step(state, slow, target, jitter1);
            let second = delay_step(first.0, first.1, target, jitter2);
            second.0 == target && second.1 == if target {
                SLOW_STATE_MAX as int
            } else {
                0
            }
        }),
{
}

} // verus!

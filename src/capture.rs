use vstd::prelude::*;

verus! {

/// Edges counted while syncing before data is awaited.
pub const SYNC_CAPTURES: u8 = 15;

/// Delay, in timer ticks, assumed before any calibration.
pub const INITIAL_DELAY: u16 = 920;

/// Phase of the edge-capture decoder.
#[derive(Clone, Copy, PartialEq, Eq, Structural, Debug)]
pub enum CaptureState {
    Idle,
    Sync,
    Wait,
    Run,
}

/// The decoder driven by the input-capture interrupt: each captured edge
/// arrives with the timer ticks elapsed since the previous one.
pub struct CaptureMachine {
    pub state: CaptureState,
    pub bit_count: u8,
    pub delay_time: u16,
    pub cap_count: u8,
    pub shift_reg: u8,
}

/// The running delay after one more edge seen while syncing: the mean of
/// the old delay and three quarters of the new interval.
pub open spec fn blended_delay(delay: u16, time: u16) -> u16 {
    ((delay + time * 3 / 4) / 2) as u16
}

impl CaptureMachine {
    /// Whether the bit counter is within the range of the current phase.
    pub open spec fn wf(&self) -> bool {
        &&& self.bit_count < SYNC_CAPTURES
        &&& (self.state == CaptureState::Wait || self.state == CaptureState::Run) ==> self.bit_count < 8
    }

    /// An idle decoder with the initial delay.
    pub fn new() -> (r: CaptureMachine)
        ensures
            r.wf(),
            r.state == CaptureState::Idle,
            r.bit_count == 0,
            r.delay_time == INITIAL_DELAY,
            r.cap_count == 0,
            r.shift_reg == 0,
    {
        CaptureMachine {
            state: CaptureState::Idle,
            bit_count: 0,
            delay_time: INITIAL_DELAY,
            cap_count: 0,
            shift_reg: 0,
        }
    }

    /// The capture timed out: drop back to idle, losing any partial byte.
    pub fn on_timeout(&mut self)
        requires
            old(self).wf(),
        ensures
            final(self).wf(),
            final(self).state == CaptureState::Idle,
            final(self).bit_count == old(self).bit_count,
            final(self).delay_time == old(self).delay_time,
            final(self).cap_count == old(self).cap_count,
            final(self).shift_reg == old(self).shift_reg,
    {
        self.state = CaptureState::Idle;
    }

    /// Handles one captured edge, `time` ticks after the previous one, and
    /// returns the byte it completed, if any.
    pub fn on_capture(&mut self, time: u16) -> (r: Option<u8>)
        requires
            old(self).wf(),
        ensures
            final(self).wf(),
            old(self).state == CaptureState::Idle ==> {
                &&& final(self).state == CaptureState::Sync
                &&& final(self).bit_count == 0
                &&& final(self).delay_time == old(self).delay_time
                &&& final(self).cap_count == old(self).cap_count
                &&& final(self).shift_reg == old(self).shift_reg
                &&& r is None
            },
            old(self).state == CaptureState::Sync ==> {
                &&& final(self).delay_time == blended_delay(old(self).delay_time, time)
                &&& if old(self).bit_count + 1 >= SYNC_CAPTURES {
                    final(self).state == CaptureState::Wait && final(self).bit_count == 0
                } else {
                    final(self).state == CaptureState::Sync && final(self).bit_count
                        == old(self).bit_count + 1
                }
                &&& final(self).cap_count == old(self).cap_count
                &&& final(self).shift_reg == old(self).shift_reg
                &&& r is None
            },
            old(self).state == CaptureState::Wait ==> {
                &&& if time < old(self).delay_time {
                    if old(self).cap_count == 0 {
                        final(self).state == CaptureState::Wait && final(self).cap_count == 1
                    } else {
                        final(self).state == CaptureState::Run && final(self).cap_count == 0
                    }
                } else {
                    final(self).state == CaptureState::Wait && final(self).cap_count
                        == old(self).cap_count
                }
                &&& final(self).bit_count == old(self).bit_count
                &&& final(self).delay_time == old(self).delay_time
                &&& final(self).shift_reg == old(self).shift_reg
                &&& r is None
            },
            old(self).state == CaptureState::Run ==> {
                &&& final(self).state == CaptureState::Run
                &&& final(self).delay_time == old(self).delay_time
                &&& final(self).cap_count == old(self).cap_count
                &&& if time < old(self).delay_time && old(self).shift_reg & 1 == 0 {
                    &&& final(self).shift_reg == old(self).shift_reg | 1
                    &&& final(self).bit_count == old(self).bit_count
                    &&& r is None
                } else {
                    &&& final(self).shift_reg == ((old(self).shift_reg as int * 2) % 256) as u8
                    &&& if old(self).bit_count + 1 >= 8 {
                        final(self).bit_count == 0 && r == Some(old(self).shift_reg)
                    } else {
                        final(self).bit_count == old(self).bit_count + 1 && r is None
                    }
                }
            },
    {
        let state = self.state;
        let new_state = match state {
            CaptureState::Idle => capt_idle(&mut self.bit_count),
            CaptureState::Sync => capt_sync(&mut self.bit_count),
            CaptureState::Wait => capt_wait(time, self.delay_time, &mut self.cap_count),
            CaptureState::Run => CaptureState::Run,
        };
        let mut out: Option<u8> = None;
        if state == CaptureState::Run {
            out = capt_run(time, self.delay_time, &mut self.bit_count, &mut self.shift_reg);
        }
        if state == CaptureState::Sync {
            let blended: u32 = (self.delay_time as u32 + time as u32 * 3 / 4) / 2;
            self.delay_time = blended as u16;
        }
        self.state = new_state;
        out
    }
}

/// First edge after idling: start counting sync edges.
fn capt_idle(bit_count: &mut u8) -> (r: CaptureState)
    ensures
        *final(bit_count) == 0,
        r == CaptureState::Sync,
{
    *bit_count = 0;
    CaptureState::Sync
}

/// One more sync edge; after `SYNC_CAPTURES` of them, wait for data.
fn capt_sync(bit_count: &mut u8) -> (r: CaptureState)
    requires
        *old(bit_count) < SYNC_CAPTURES,
    ensures
        if *old(bit_count) + 1 >= SYNC_CAPTURES {
            *final(bit_count) == 0 && r == CaptureState::Wait
        } else {
            *final(bit_count) == *old(bit_count) + 1 && r == CaptureState::Sync
        },
{
    *bit_count = *bit_count + 1;
    if *bit_count >= SYNC_CAPTURES {
        *bit_count = 0;
        CaptureState::Wait
    } else {
        CaptureState::Sync
    }
}

/// Waits for two short intervals in a row (the start bit) before decoding.
fn capt_wait(time: u16, delay_time: u16, cap_count: &mut u8) -> (r: CaptureState)
    ensures
        if time < delay_time {
            if *old(cap_count) == 0 {
                *final(cap_count) == 1 && r == CaptureState::Wait
            } else {
                *final(cap_count) == 0 && r == CaptureState::Run
            }
        } else {
            *final(cap_count) == *old(cap_count) && r == CaptureState::Wait
        },
{
    if time < delay_time {
        if *cap_count == 0 {
            *cap_count = 1;
            CaptureState::Wait
        } else {
            *cap_count = 0;
            CaptureState::Run
        }
    } else {
        CaptureState::Wait
    }
}

/// Decodes one edge: a short interval is the mid-cell transition of a one
/// bit, which sets the low bit once; any other edge closes a bit cell and
/// shifts, handing out the byte after the eighth.
fn capt_run(time: u16, delay_time: u16, bit_count: &mut u8, shift_reg: &mut u8) -> (r: Option<u8>)
    requires
        *old(bit_count) < 8,
    ensures
        *final(bit_count) < 8,
        if time < delay_time && *old(shift_reg) & 1 == 0 {
            &&& *final(shift_reg) == *old(shift_reg) | 1
            &&& *final(bit_count) == *old(bit_count)
            &&& r is None
        } else {
            &&& *final(shift_reg) == ((*old(shift_reg) as int * 2) % 256) as u8
            &&& if *old(bit_count) + 1 >= 8 {
                *final(bit_count) == 0 && r == Some(*old(shift_reg))
            } else {
                *final(bit_count) == *old(bit_count) + 1 && r is None
            }
        },
{
    if time < delay_time && *shift_reg & 1 == 0 {
        *shift_reg = *shift_reg | 1;
        None
    } else {
        let mut out: Option<u8> = None;
        *bit_count = *bit_count + 1;
        if *bit_count >= 8 {
            out = Some(*shift_reg);
            *bit_count = 0;
        }
        *shift_reg = ((*shift_reg as u16 * 2) % 256) as u8;
        out
    }
}

} // verus!

//! Transport segments ("tbana"): the per-segment data, the motor bit words a
//! segment may command, and the conversion of motor bits into a signed speed.

use vstd::prelude::*;

use crate::io::{Address, PinIndex};
use crate::shiftreg::RegisterPosition;
use crate::SegmentId;

verus! {

/// A segment's running direction along the chain.
#[derive(Clone, Copy, Debug, PartialEq, Eq, Structural)]
pub enum Reversiable {
    Forward,
    Reverse,
}

/// The per-segment handoff state machine's states.
#[derive(Clone, Copy, Debug, PartialEq, Eq, Structural)]
pub enum TransportState {
    ReadySend,
    Sending,
    ReadyRecive,
    Reciving,
    NotReady,
}

/// Coarse run status, as the inspector displays it.
#[derive(Clone, Copy, Debug, PartialEq, Eq, Structural)]
pub enum RunState {
    Ready,
    Running,
    Disabled,
}

/// Whether a segment pushes its detail downstream or pulls from upstream.
#[derive(Clone, Copy, Debug, PartialEq, Eq, Structural)]
pub enum Mode {
    Push,
    Pull,
}

/// The bit words a motor actuator accepts. No word asserts forward and
/// reverse together; that combination is not expressible by the state
/// machine and only an external override could produce it on the wires.
#[derive(Clone, Copy, Debug, PartialEq, Eq, Structural)]
pub enum MovimotBits {
    Stop,
    SlowForward,
    SlowReverse,
    FastForward,
    FastReverse,
}

impl MovimotBits {
    /// Whether the word asserts the forward bit.
    pub open spec fn forward_bit(self) -> bool {
        self is SlowForward || self is FastForward
    }

    /// Whether the word asserts the reverse bit.
    pub open spec fn reverse_bit(self) -> bool {
        self is SlowReverse || self is FastReverse
    }

    /// Whether the word asserts the rapid (fast speed) bit.
    pub open spec fn rapid_bit(self) -> bool {
        self is FastForward || self is FastReverse
    }

    /// The word as its three wire bits: (forward, reverse, rapid).
    pub fn bits(self) -> (r: (bool, bool, bool))
        ensures
            r.0 == self.forward_bit(),
            r.1 == self.reverse_bit(),
            r.2 == self.rapid_bit(),
    {
        match self {
            MovimotBits::Stop => (false, false, false),
            MovimotBits::SlowForward => (true, false, false),
            MovimotBits::SlowReverse => (false, true, false),
            MovimotBits::FastForward => (true, false, true),
            MovimotBits::FastReverse => (false, true, true),
        }
    }

    /// The word packed as a byte: rapid on bit 0, forward on bit 1, reverse
    /// on bit 2.
    pub fn as_byte(self) -> (r: u8)
        ensures
            r == (if self.rapid_bit() {
                1int
            } else {
                0int
            }) + (if self.forward_bit() {
                2int
            } else {
                0int
            }) + (if self.reverse_bit() {
                4int
            } else {
                0int
            }),
    {
        match self {
            MovimotBits::Stop => 0,
            MovimotBits::SlowForward => 2,
            MovimotBits::SlowReverse => 4,
            MovimotBits::FastForward => 3,
            MovimotBits::FastReverse => 5,
        }
    }

    /// The slow word running in `direction`.
    pub open spec fn slow_word(direction: Reversiable) -> MovimotBits {
        if direction is Forward {
            MovimotBits::SlowForward
        } else {
            MovimotBits::SlowReverse
        }
    }

    /// The slow word running in `direction`.
    pub fn slow(direction: Reversiable) -> (r: Self)
        ensures
            r == Self::slow_word(direction),
    {
        match direction {
            Reversiable::Forward => MovimotBits::SlowForward,
            Reversiable::Reverse => MovimotBits::SlowReverse,
        }
    }
}

/// Motor bit mutual exclusion: no motor word asserts forward and reverse at
/// the same time, so the state machine, which only ever writes whole words,
/// can never assert both output bits of one actuator.
pub proof fn lemma_movimot_exclusive(m: MovimotBits)
    ensures
        !(m.forward_bit() && m.reverse_bit()),
{
}

/// A motor's speed configuration, in implementation-defined speed units.
#[derive(Clone, Copy, Debug, PartialEq, Eq, Structural)]
pub struct MovimotCfg {
    /// Speed with the rapid bit set.
    pub fast_speed: u32,
    /// Speed without the rapid bit.
    pub slow_speed: u32,
}

impl Default for MovimotCfg {
    /// The stock drive: fast five times the slow speed.
    fn default() -> (r: Self)
        ensures
            r.fast_speed == 10,
            r.slow_speed == 2,
    {
        MovimotCfg { fast_speed: 10, slow_speed: 2 }
    }
}

/// The signed speed a motor's bits command: positive forward, negative
/// reverse, zero when neither or both direction bits are set. The
/// both-bits-set conflict is answered with zero speed, never with a guess.
pub open spec fn spec_motor_speed(
    forward: bool,
    reverse: bool,
    rapid: bool,
    cfg: MovimotCfg,
) -> int {
    let magnitude: int = if rapid {
        cfg.fast_speed as int
    } else {
        cfg.slow_speed as int
    };
    if forward && !reverse {
        magnitude
    } else if reverse && !forward {
        -magnitude
    } else {
        0
    }
}

/// Converts one actuator's asserted bits into its signed tangential speed.
pub fn motor_speed(forward: bool, reverse: bool, rapid: bool, cfg: &MovimotCfg) -> (r: i64)
    ensures
        r == spec_motor_speed(forward, reverse, rapid, *cfg),
        -0x1_0000_0000 <= r <= 0x1_0000_0000,
{
    let magnitude: i64 = if rapid {
        cfg.fast_speed as i64
    } else {
        cfg.slow_speed as i64
    };
    if forward && !reverse {
        magnitude
    } else if reverse && !forward {
        -magnitude
    } else {
        0
    }
}

/// The sum of a sequence of signed speeds.
pub open spec fn sum_speeds(s: Seq<i64>) -> int
    decreases s.len(),
{
    if s.len() == 0 {
        0
    } else {
        sum_speeds(s.drop_last()) + s.last()
    }
}

/// Truncating (toward zero) division of `sum` by a positive `n`.
pub open spec fn mean_toward_zero(sum: int, n: int) -> int {
    if sum >= 0 {
        sum / n
    } else {
        -((-sum) / n)
    }
}

/// The effective speed of several coupled actuators driving one load: the
/// arithmetic mean of their signed speeds, truncated toward zero, and zero
/// when no actuator contributes.
pub fn coupled_speed(speeds: &Vec<i64>) -> (r: i64)
    requires
        forall|i: int|
            0 <= i < speeds@.len() ==> -0x1_0000_0000 <= #[trigger] speeds@[i] <= 0x1_0000_0000,
        speeds@.len() <= 0x1000_0000,
    ensures
        speeds@.len() == 0 ==> r == 0,
        speeds@.len() > 0 ==> r == mean_toward_zero(sum_speeds(speeds@), speeds@.len() as int),
{
    let n = speeds.len();
    if n == 0 {
        return 0;
    }
    let mut sum: i64 = 0;
    let mut i: usize = 0;
    while i < n
        invariant
            i <= n,
            n == speeds@.len(),
            n <= 0x1000_0000,
            forall|j: int|
                0 <= j < speeds@.len() ==> -0x1_0000_0000 <= #[trigger] speeds@[j] <= 0x1_0000_0000,
            sum == sum_speeds(speeds@.take(i as int)),
            -0x1_0000_0000 * (i as int) <= sum <= 0x1_0000_0000 * (i as int),
        decreases n - i,
    {
        proof {
            assert(speeds@.take(i + 1).drop_last() =~= speeds@.take(i as int));
        }
        sum = sum + speeds[i];
        i = i + 1;
    }
    proof {
        assert(speeds@.take(n as int) =~= speeds@);
    }
    if sum >= 0 {
        ((sum as u64) / (n as u64)) as i64
    } else {
        -((((-sum) as u64) / (n as u64)) as i64)
    }
}

/// A sensor's or actuator bit's static wiring: which node, which pin.
#[derive(Clone, Copy, Debug, PartialEq, Eq, Structural)]
pub struct Wire {
    /// The I/O node the endpoint is wired to.
    pub node: Address,
    /// The pin within that node's bank.
    pub pin: PinIndex,
}

/// The four position sensors a fine-grained reversible segment carries.
#[derive(Clone, Copy, Debug, PartialEq, Eq, Structural)]
pub struct FineReversableTbana {
    /// Front limit sensor (stops a forward-running receive).
    pub front_pos: Wire,
    /// Front proximity sensor (slow-down zone).
    pub front_proximity: Wire,
    /// Back limit sensor (stops a reverse-running receive).
    pub back_pos: Wire,
    /// Back proximity sensor (slow-down zone).
    pub back_proximity: Wire,
}

/// One motor actuator's three output bits.
#[derive(Clone, Copy, Debug, PartialEq, Eq, Structural)]
pub struct MotorWires {
    /// The output node the actuator is wired to.
    pub node: Address,
    /// The forward bit's pin.
    pub forward: PinIndex,
    /// The reverse bit's pin.
    pub reverse: PinIndex,
    /// The rapid bit's pin.
    pub rapid: PinIndex,
}

/// One conveyor segment: its direction, its handoff state, its neighbors
/// along the chain, its ledger slot, and its wired endpoints (four sensors,
/// two motor actuators).
#[derive(Clone, Copy, Debug, PartialEq, Eq, Structural)]
pub struct TransportSegment {
    /// Running direction.
    pub direction: Reversiable,
    /// Handoff state machine state.
    pub state: TransportState,
    /// The motor word currently commanded for both actuators.
    pub motor_cmd: MovimotBits,
    /// The unique downstream neighbor details are pushed to.
    pub push_to: Option<SegmentId>,
    /// The unique upstream neighbor details are pulled from.
    pub pull_from: Option<SegmentId>,
    /// This segment's slot in the shift register.
    pub position: RegisterPosition,
    /// The four position sensors.
    pub sensors: FineReversableTbana,
    /// The first motor actuator.
    pub motor_a: MotorWires,
    /// The second motor actuator.
    pub motor_b: MotorWires,
}

/// An upstream segment's announcement that it is ready to push its detail to
/// its downstream neighbor.
#[derive(Clone, Copy, Debug, PartialEq, Eq, Structural)]
pub struct PushRequest {
    /// The announcing upstream segment.
    pub from: SegmentId,
    /// Its downstream neighbor.
    pub to: SegmentId,
}

/// Protocol message: the addressed segment starts sending.
#[derive(Clone, Copy, Debug, PartialEq, Eq, Structural)]
pub struct StartSending {
    /// The segment to start.
    pub entity: SegmentId,
}

/// Protocol message: the addressed segment starts receiving.
#[derive(Clone, Copy, Debug, PartialEq, Eq, Structural)]
pub struct StartRecive(pub SegmentId);

/// Cancellation: the addressed segment stops and re-evaluates from the
/// ledger next step.
#[derive(Clone, Copy, Debug, PartialEq, Eq, Structural)]
pub struct StopRunning(pub SegmentId);

/// A request to reverse the whole line's running direction.
#[derive(Clone, Copy, Debug, PartialEq, Eq, Structural)]
pub struct SwitchDirection;

} // verus!

//! The assembled conveyor line: an arena of transport segments, the digital
//! I/O store they are wired into, and the shift register that tracks every
//! detail. All state transitions run as ordered, synchronous reactions to
//! discrete signals inside one simulation step.

use vstd::prelude::*;

use crate::io::{
    has_node, lemma_allocates_prefix, lemma_count_clear_prefix, lemma_node_index_stable,
    node_index, Address, IoDevices, IoError, IoNode, PinIndex,
};
use crate::tbana::{
    MotorWires, MovimotBits, PushRequest, StartRecive, StartSending, StopRunning,
    SwitchDirection, TransportSegment, TransportState, Wire,
};
use crate::sensor::{PositionReached, RawSensorEvent, SensorPosition};
use crate::shiftreg::{count_occupied, DetailState, Register, RegisterPosition};
use crate::tbana::{FineReversableTbana, Reversiable};
use crate::SegmentId;

verus! {

/// The whole line: I/O store, ledger, and the segment arena. A segment's
/// index in the arena is its [`crate::SegmentId`].
pub struct Line {
    /// The digital I/O store all endpoints are wired into.
    pub io: IoDevices,
    /// The ledger of detail occupancy, one slot per segment position plus
    /// one absorbing slot at the end.
    pub register: Register,
    /// The segment arena.
    pub segments: Vec<TransportSegment>,
}

/// The value of one output bit of the store.
pub open spec fn out_bit(io: IoDevices, node: Address, pin: PinIndex) -> bool {
    io.digital_outputs@[node_index(io.digital_outputs@, node)].memory@[pin.0 as int]
}

/// A sensor wire points at a real input bit.
pub open spec fn input_wired(io: IoDevices, w: Wire) -> bool {
    &&& has_node(io.digital_inputs@, w.node)
    &&& (w.pin.0 as int) < io.digital_inputs@[node_index(
        io.digital_inputs@,
        w.node,
    )].memory@.len()
}

/// A motor's three wires point at real, pairwise distinct output bits.
pub open spec fn motor_wired(io: IoDevices, m: MotorWires) -> bool {
    &&& has_node(io.digital_outputs@, m.node)
    &&& (m.forward.0 as int) < io.digital_outputs@[node_index(
        io.digital_outputs@,
        m.node,
    )].memory@.len()
    &&& (m.reverse.0 as int) < io.digital_outputs@[node_index(
        io.digital_outputs@,
        m.node,
    )].memory@.len()
    &&& (m.rapid.0 as int) < io.digital_outputs@[node_index(
        io.digital_outputs@,
        m.node,
    )].memory@.len()
    &&& m.forward != m.reverse
    &&& m.forward != m.rapid
    &&& m.reverse != m.rapid
}

/// Two motors never share an output bit.
pub open spec fn motor_pins_disjoint(m1: MotorWires, m2: MotorWires) -> bool {
    m1.node == m2.node ==> {
        &&& m1.forward != m2.forward
        &&& m1.forward != m2.reverse
        &&& m1.forward != m2.rapid
        &&& m1.reverse != m2.forward
        &&& m1.reverse != m2.reverse
        &&& m1.reverse != m2.rapid
        &&& m1.rapid != m2.forward
        &&& m1.rapid != m2.reverse
        &&& m1.rapid != m2.rapid
    }
}

/// Every endpoint of one segment wired into the store, with the segment's
/// own two motors on distinct bits.
pub open spec fn segment_wired(io: IoDevices, s: TransportSegment) -> bool {
    &&& input_wired(io, s.sensors.front_pos)
    &&& input_wired(io, s.sensors.front_proximity)
    &&& input_wired(io, s.sensors.back_pos)
    &&& input_wired(io, s.sensors.back_proximity)
    &&& motor_wired(io, s.motor_a)
    &&& motor_wired(io, s.motor_b)
    &&& motor_pins_disjoint(s.motor_a, s.motor_b)
}

/// The output bits at a motor's wires equal the bits of `cmd`.
pub open spec fn motor_matches(io: IoDevices, m: MotorWires, cmd: MovimotBits) -> bool {
    &&& out_bit(io, m.node, m.forward) == cmd.forward_bit()
    &&& out_bit(io, m.node, m.reverse) == cmd.reverse_bit()
    &&& out_bit(io, m.node, m.rapid) == cmd.rapid_bit()
}

/// Segment `i`'s slot index in the register.
pub open spec fn seg_pos(segs: Seq<TransportSegment>, i: int) -> int {
    segs[i].position.0 as int
}

/// Whether register slot `s` holds a detail.
pub open spec fn occupied_at(reg: Seq<Option<crate::shiftreg::DetailState>>, s: int) -> bool {
    reg[s] is Some
}

/// Each segment owns an in-range slot, and no two segments share one.
pub open spec fn positions_ok(segs: Seq<TransportSegment>) -> bool {
    &&& forall|i: int| 0 <= i < segs.len() ==> 0 <= #[trigger] seg_pos(segs, i) < segs.len()
    &&& forall|i: int, j: int|
        #![trigger seg_pos(segs, i), seg_pos(segs, j)]
        0 <= i < j < segs.len() ==> seg_pos(segs, i) != seg_pos(segs, j)
}

/// Neighbor edges stay in range, join adjacent slots, and are mutually
/// inverse: `i` pushes to `j` exactly when `j` pulls from `i`.
pub open spec fn edges_ok(segs: Seq<TransportSegment>) -> bool {
    &&& forall|i: int|
        0 <= i < segs.len() ==> ((#[trigger] segs[i]).push_to matches Some(t) ==> 0 <= t
            < segs.len() && t != i)
    &&& forall|i: int|
        0 <= i < segs.len() ==> ((#[trigger] segs[i]).pull_from matches Some(g) ==> 0 <= g
            < segs.len() && g != i)
    &&& forall|i: int, j: int|
        #![trigger segs[i], segs[j]]
        0 <= i < segs.len() && 0 <= j < segs.len() && segs[i].push_to == Some(j as SegmentId)
            ==> (seg_pos(segs, j) == seg_pos(segs, i) + 1 || seg_pos(segs, j) == seg_pos(segs, i)
            - 1)
    &&& forall|i: int, j: int|
        #![trigger segs[i].push_to, segs[j].pull_from]
        0 <= i < segs.len() && 0 <= j < segs.len() ==> (segs[i].push_to == Some(j as SegmentId)
            <==> segs[j].pull_from == Some(i as SegmentId))
}

/// The handoff pairing: a sending segment still holds its detail and points
/// at a receiving neighbor whose slot is empty, and a receiving segment
/// points back at a sending giver; a segment ready to send holds a detail,
/// one ready to receive does not.
pub open spec fn protocol_ok(
    segs: Seq<TransportSegment>,
    reg: Seq<Option<crate::shiftreg::DetailState>>,
) -> bool {
    &&& forall|i: int|
        0 <= i < segs.len() ==> {
            let s = #[trigger] segs[i];
            &&& (s.state is Sending ==> s.push_to is Some && occupied_at(reg, seg_pos(segs, i)))
            &&& (s.state is Reciving ==> s.pull_from is Some && !occupied_at(
                reg,
                seg_pos(segs, i),
            ))
            &&& (s.state is ReadySend ==> occupied_at(reg, seg_pos(segs, i)))
            &&& (s.state is ReadyRecive ==> !occupied_at(reg, seg_pos(segs, i)))
        }
    &&& forall|i: int, t: int|
        #![trigger segs[i], segs[t]]
        0 <= i < segs.len() && 0 <= t < segs.len() && segs[i].state is Sending && segs[i].push_to
            == Some(t as SegmentId) ==> segs[t].state is Reciving
    &&& forall|i: int, g: int|
        #![trigger segs[i], segs[g]]
        0 <= i < segs.len() && 0 <= g < segs.len() && segs[i].state is Reciving
            && segs[i].pull_from == Some(g as SegmentId) ==> segs[g].state is Sending
}

/// No two motors of two different segments share an output bit.
pub open spec fn motors_disjoint_ok(segs: Seq<TransportSegment>) -> bool {
    forall|i: int, j: int|
        #![trigger segs[i], segs[j]]
        0 <= i < segs.len() && 0 <= j < segs.len() && i != j ==> {
            &&& motor_pins_disjoint(segs[i].motor_a, segs[j].motor_a)
            &&& motor_pins_disjoint(segs[i].motor_a, segs[j].motor_b)
            &&& motor_pins_disjoint(segs[i].motor_b, segs[j].motor_a)
            &&& motor_pins_disjoint(segs[i].motor_b, segs[j].motor_b)
        }
}

/// `s` brought to a standstill: `NotReady`, motors commanded to stop.
pub open spec fn stopped_seg(s: TransportSegment) -> TransportSegment {
    TransportSegment { state: TransportState::NotReady, motor_cmd: MovimotBits::Stop, ..s }
}

/// The wire of the sensor in `role` on segment `s`, for the four roles a
/// segment carries.
pub open spec fn spec_sensor_wire(s: TransportSegment, role: SensorPosition) -> Option<Wire> {
    match role {
        SensorPosition::LimitFront => Some(s.sensors.front_pos),
        SensorPosition::LimitBack => Some(s.sensors.back_pos),
        SensorPosition::ProximityFront => Some(s.sensors.front_proximity),
        SensorPosition::ProximityBack => Some(s.sensors.back_proximity),
        _ => None,
    }
}

/// A segment's wiring survives any input mutation that keeps every node's
/// address and bank length in place and leaves the output side alone.
proof fn lemma_segment_wired_stable_in(io0: IoDevices, io1: IoDevices, s: TransportSegment)
    requires
        io0.wf(),
        io1.wf(),
        segment_wired(io0, s),
        io1.digital_outputs == io0.digital_outputs,
        io1.digital_inputs@.len() == io0.digital_inputs@.len(),
        forall|j: int|
            0 <= j < io0.digital_inputs@.len() ==> (#[trigger] io1.digital_inputs@[j]).address
                == io0.digital_inputs@[j].address && io1.digital_inputs@[j].memory@.len()
                == io0.digital_inputs@[j].memory@.len(),
    ensures
        segment_wired(io1, s),
{
    lemma_node_index_stable(io0.digital_inputs@, io1.digital_inputs@, s.sensors.front_pos.node);
    lemma_node_index_stable(io0.digital_inputs@, io1.digital_inputs@, s.sensors.back_pos.node);
    lemma_node_index_stable(
        io0.digital_inputs@,
        io1.digital_inputs@,
        s.sensors.front_proximity.node,
    );
    lemma_node_index_stable(
        io0.digital_inputs@,
        io1.digital_inputs@,
        s.sensors.back_proximity.node,
    );
}

/// The opposite running direction.
pub open spec fn flipped(d: Reversiable) -> Reversiable {
    if d is Forward {
        Reversiable::Reverse
    } else {
        Reversiable::Forward
    }
}

/// What one segment looks like after a whole-line direction switch: its
/// direction flips, its neighbor edges swap, a receiving segment turns
/// sender and a sending one turns receiver (both commanded slow the other
/// way), and everything else stays.
pub open spec fn switched_segment(s: TransportSegment) -> TransportSegment {
    TransportSegment {
        direction: flipped(s.direction),
        push_to: s.pull_from,
        pull_from: s.push_to,
        state: if s.state is Sending {
            TransportState::Reciving
        } else if s.state is Reciving {
            TransportState::Sending
        } else {
            s.state
        },
        motor_cmd: if s.state is Sending || s.state is Reciving {
            MovimotBits::slow_word(flipped(s.direction))
        } else {
            s.motor_cmd
        },
        ..s
    }
}

/// Whether slot `s` is touched by the ledger moves of a direction switch
/// restricted to the first `k` segments: it is the slot of a sending
/// segment among them, or the slot of such a segment's receiver.
pub open spec fn switch_moves_slot(segs: Seq<TransportSegment>, k: int, s: int) -> bool {
    exists|j: int|
        0 <= j < k && (#[trigger] segs[j]).state is Sending && (seg_pos(segs, j) == s || (
        segs[j].push_to is Some && seg_pos(segs, segs[j].push_to.unwrap() as int) == s))
}

/// The segment `i` of a freshly built `n`-segment line under one I/O node:
/// forward, stopped, position `i`, chained to its neighbors, sensors on
/// input pins `4i..4i+4` and motors on output pins `6i..6i+6`.
pub open spec fn built_segment(node: Address, n: int, i: int) -> TransportSegment {
    TransportSegment {
        direction: Reversiable::Forward,
        state: TransportState::NotReady,
        motor_cmd: MovimotBits::Stop,
        push_to: if i + 1 < n {
            Some((i + 1) as SegmentId)
        } else {
            None
        },
        pull_from: if i > 0 {
            Some((i - 1) as SegmentId)
        } else {
            None
        },
        position: RegisterPosition(i as u16),
        sensors: FineReversableTbana {
            back_pos: Wire { node, pin: PinIndex((4 * i) as u8) },
            back_proximity: Wire { node, pin: PinIndex((4 * i + 1) as u8) },
            front_proximity: Wire { node, pin: PinIndex((4 * i + 2) as u8) },
            front_pos: Wire { node, pin: PinIndex((4 * i + 3) as u8) },
        },
        motor_a: MotorWires {
            node,
            forward: PinIndex((6 * i) as u8),
            reverse: PinIndex((6 * i + 1) as u8),
            rapid: PinIndex((6 * i + 2) as u8),
        },
        motor_b: MotorWires {
            node,
            forward: PinIndex((6 * i + 3) as u8),
            reverse: PinIndex((6 * i + 4) as u8),
            rapid: PinIndex((6 * i + 5) as u8),
        },
    }
}

/// Whether a position signal in `role` on segment `e` completes a hand-off:
/// the segment is receiving and the detail reached its far limit sensor —
/// the front one running forward, the back one running in reverse.
pub open spec fn handoff_completes_at(
    segs: Seq<TransportSegment>,
    e: int,
    role: SensorPosition,
) -> bool {
    &&& 0 <= e < segs.len()
    &&& segs[e].state is Reciving
    &&& ((segs[e].direction is Forward && role is LimitFront) || (segs[e].direction is Reverse
        && role is LimitBack))
}

/// Whether a push request from `f` to `t` is acceptable: `f` announces from
/// `ReadySend` toward its downstream `t`, and `t` independently confirms by
/// standing in `ReadyRecive`.
pub open spec fn push_accepted_at(segs: Seq<TransportSegment>, f: int, t: int) -> bool {
    &&& 0 <= f < segs.len()
    &&& 0 <= t < segs.len()
    &&& segs[f].push_to == Some(t as SegmentId)
    &&& segs[f].state is ReadySend
    &&& segs[t].state is ReadyRecive
}

/// Whether segment `i` can push its detail off the end of the line: it
/// stands in `ReadySend` with no downstream neighbor, runs forward at the
/// last position, and the absorbing slot behind it is empty.
pub open spec fn exits_at(
    segs: Seq<TransportSegment>,
    reg: Seq<Option<crate::shiftreg::DetailState>>,
    i: int,
) -> bool {
    &&& 0 <= i < segs.len()
    &&& segs[i].state is ReadySend
    &&& segs[i].push_to is None
    &&& segs[i].direction is Forward
    &&& seg_pos(segs, i) + 1 == segs.len()
    &&& !occupied_at(reg, seg_pos(segs, i) + 1)
}

/// The domain-level signals one step's raw events produce, in event order:
/// one signal per event whose segment exists and whose role is wired.
pub open spec fn spec_signals(
    segs: Seq<TransportSegment>,
    events: Seq<RawSensorEvent>,
) -> Seq<PositionReached>
    decreases events.len(),
{
    if events.len() == 0 {
        Seq::empty()
    } else {
        let rest = spec_signals(segs, events.drop_last());
        let ev = events.last();
        if (ev.segment as int) < segs.len() && spec_sensor_wire(
            segs[ev.segment as int],
            ev.position,
        ) is Some {
            rest.push(PositionReached { entity: ev.segment, position: ev.position })
        } else {
            rest
        }
    }
}

/// One signal's effect on segments and ledger: a completing signal moves the
/// giver's detail into the receiver's slot and stops both; any other signal
/// changes nothing.
pub open spec fn spec_complete_step(
    segs: Seq<TransportSegment>,
    reg: Seq<Option<crate::shiftreg::DetailState>>,
    sig: PositionReached,
) -> (Seq<TransportSegment>, Seq<Option<crate::shiftreg::DetailState>>) {
    let e = sig.entity as int;
    if handoff_completes_at(segs, e, sig.position) && segs[e].pull_from is Some {
        let g = segs[e].pull_from.unwrap() as int;
        (
            segs.update(g, stopped_seg(segs[g])).update(e, stopped_seg(segs[e])),
            reg.update(seg_pos(segs, g), None).update(seg_pos(segs, e), reg[seg_pos(segs, g)]),
        )
    } else {
        (segs, reg)
    }
}

/// All of one step's signals applied in order.
pub open spec fn spec_completions(
    segs: Seq<TransportSegment>,
    reg: Seq<Option<crate::shiftreg::DetailState>>,
    signals: Seq<PositionReached>,
) -> (Seq<TransportSegment>, Seq<Option<crate::shiftreg::DetailState>>)
    decreases signals.len(),
{
    if signals.len() == 0 {
        (segs, reg)
    } else {
        let prev = spec_completions(segs, reg, signals.drop_last());
        spec_complete_step(prev.0, prev.1, signals.last())
    }
}

/// Readiness re-derivation: every stopped segment takes its state from its
/// ledger slot, everything else stays.
pub open spec fn spec_readied(
    segs: Seq<TransportSegment>,
    reg: Seq<Option<crate::shiftreg::DetailState>>,
) -> Seq<TransportSegment> {
    Seq::new(
        segs.len(),
        |j: int|
            if segs[j].state is NotReady {
                TransportSegment {
                    state: (if occupied_at(reg, seg_pos(segs, j)) {
                        TransportState::ReadySend
                    } else {
                        TransportState::ReadyRecive
                    }),
                    ..segs[j]
                }
            } else {
                segs[j]
            },
    )
}

/// The push announcements of the first `i` segments, in segment order: one
/// request per segment standing in `ReadySend` with a downstream neighbor.
pub open spec fn spec_requests(segs: Seq<TransportSegment>, i: int) -> Seq<PushRequest>
    decreases i,
{
    if i <= 0 {
        Seq::empty()
    } else {
        let rest = spec_requests(segs, i - 1);
        let s = segs[i - 1];
        if s.state is ReadySend && s.push_to is Some {
            rest.push(PushRequest { from: (i - 1) as SegmentId, to: s.push_to.unwrap() })
        } else {
            rest
        }
    }
}

/// One push request's effect: an acceptable request flips sender and
/// receiver together, motors commanded slow; any other request is dropped.
pub open spec fn spec_accept_step(
    segs: Seq<TransportSegment>,
    req: PushRequest,
) -> Seq<TransportSegment> {
    let f = req.from as int;
    let t = req.to as int;
    if push_accepted_at(segs, f, t) {
        segs.update(
            f,
            TransportSegment {
                state: TransportState::Sending,
                motor_cmd: MovimotBits::slow_word(segs[f].direction),
                ..segs[f]
            },
        ).update(
            t,
            TransportSegment {
                state: TransportState::Reciving,
                motor_cmd: MovimotBits::slow_word(segs[t].direction),
                ..segs[t]
            },
        )
    } else {
        segs
    }
}

/// All of one step's push requests handled in order.
pub open spec fn spec_accepts(
    segs: Seq<TransportSegment>,
    reqs: Seq<PushRequest>,
) -> Seq<TransportSegment>
    decreases reqs.len(),
{
    if reqs.len() == 0 {
        segs
    } else {
        spec_accept_step(spec_accepts(segs, reqs.drop_last()), reqs.last())
    }
}

/// One end-of-line push: a chain-end segment in `ReadySend` with the
/// absorbing slot free moves its detail there and stops; otherwise nothing.
pub open spec fn spec_exit_step(
    segs: Seq<TransportSegment>,
    reg: Seq<Option<crate::shiftreg::DetailState>>,
    i: int,
) -> (Seq<TransportSegment>, Seq<Option<crate::shiftreg::DetailState>>) {
    if exits_at(segs, reg, i) {
        (
            segs.update(i, TransportSegment { state: TransportState::NotReady, ..segs[i] }),
            reg.update(seg_pos(segs, i), None).update(seg_pos(segs, i) + 1, reg[seg_pos(segs, i)]),
        )
    } else {
        (segs, reg)
    }
}

/// End-of-line pushes tried on the first `k` segments, in segment order.
pub open spec fn spec_exits(
    segs: Seq<TransportSegment>,
    reg: Seq<Option<crate::shiftreg::DetailState>>,
    k: int,
) -> (Seq<TransportSegment>, Seq<Option<crate::shiftreg::DetailState>>)
    decreases k,
{
    if k <= 0 {
        (segs, reg)
    } else {
        let prev = spec_exits(segs, reg, k - 1);
        spec_exit_step(prev.0, prev.1, k - 1)
    }
}

/// One simulation step's whole effect on the segments and the ledger, given
/// the signals its raw events produced: hand-off completions in signal
/// order, readiness re-derivation from the ledger, push arbitration in
/// request order, and pushes off the line's end in segment order.
pub open spec fn spec_step_core(
    segs: Seq<TransportSegment>,
    reg: Seq<Option<crate::shiftreg::DetailState>>,
    signals: Seq<PositionReached>,
) -> (Seq<TransportSegment>, Seq<Option<crate::shiftreg::DetailState>>) {
    let completed = spec_completions(segs, reg, signals);
    let readied = spec_readied(completed.0, completed.1);
    let reqs = spec_requests(readied, readied.len() as int);
    let accepted = spec_accepts(readied, reqs);
    spec_exits(accepted, completed.1, accepted.len() as int)
}

/// The memory views of a node list, in node order.
pub open spec fn mem_views(nodes: Seq<IoNode>) -> Seq<Seq<bool>> {
    Seq::new(nodes.len(), |i: int| nodes[i].memory@)
}

/// One raw event's bit write on the input views: `entered` lands on the
/// event's wired input bit, everything else stays. Node lookup goes by the
/// addresses of `nodes0`, which no step phase changes.
pub open spec fn spec_event_write(
    views: Seq<Seq<bool>>,
    nodes0: Seq<IoNode>,
    segs: Seq<TransportSegment>,
    ev: RawSensorEvent,
) -> Seq<Seq<bool>> {
    if (ev.segment as int) < segs.len() && spec_sensor_wire(
        segs[ev.segment as int],
        ev.position,
    ) is Some {
        let w = spec_sensor_wire(segs[ev.segment as int], ev.position).unwrap();
        let ni = node_index(nodes0, w.node);
        views.update(ni, views[ni].update(w.pin.0 as int, ev.entered))
    } else {
        views
    }
}

/// All of one step's raw events written in order: the last write to a pin
/// wins.
pub open spec fn spec_event_writes(
    views: Seq<Seq<bool>>,
    nodes0: Seq<IoNode>,
    segs: Seq<TransportSegment>,
    events: Seq<RawSensorEvent>,
) -> Seq<Seq<bool>>
    decreases events.len(),
{
    if events.len() == 0 {
        views
    } else {
        spec_event_write(
            spec_event_writes(views, nodes0, segs, events.drop_last()),
            nodes0,
            segs,
            events.last(),
        )
    }
}

impl Line {
    /// The number of segments.
    pub open spec fn n(self) -> int {
        self.segments@.len() as int
    }

    /// Segment `i`.
    pub open spec fn seg(self, i: int) -> TransportSegment {
        self.segments@[i]
    }

    /// Segment `i`'s slot index in the register.
    pub open spec fn pos(self, i: int) -> int {
        seg_pos(self.segments@, i)
    }

    /// Whether register slot `s` holds a detail.
    pub open spec fn occupied(self, s: int) -> bool {
        occupied_at(self.register.details@, s)
    }

    /// Structure: the ledger sized to the line, each segment owning a
    /// distinct in-range slot, neighbor edges mutually inverse and between
    /// adjacent slots, every endpoint wired, and no two motors anywhere
    /// sharing an output bit.
    pub open spec fn wf_static(self) -> bool {
        &&& self.io.wf()
        &&& self.register.wf()
        &&& self.register.details@.len() == self.n() + 1
        &&& positions_ok(self.segments@)
        &&& edges_ok(self.segments@)
        &&& forall|i: int| 0 <= i < self.n() ==> segment_wired(self.io, #[trigger] self.seg(i))
        &&& motors_disjoint_ok(self.segments@)
    }

    /// The handoff pairing between the segment states and the ledger.
    pub open spec fn protocol_inv(self) -> bool {
        protocol_ok(self.segments@, self.register.details@)
    }

    /// Every motor's output bits equal its segment's commanded word.
    pub open spec fn motor_inv(self) -> bool {
        forall|i: int|
            0 <= i < self.n() ==> {
                let s = #[trigger] self.seg(i);
                motor_matches(self.io, s.motor_a, s.motor_cmd) && motor_matches(
                    self.io,
                    s.motor_b,
                    s.motor_cmd,
                )
            }
    }

    /// The full invariant of reachable line states.
    pub open spec fn inv(self) -> bool {
        &&& self.wf_static()
        &&& self.protocol_inv()
        &&& self.motor_inv()
    }
}

/// `b` is `a` with at most some memory bits changed: same node count, and
/// per node the same address, the same allocation bookkeeping, and the same
/// bank length.
pub open spec fn same_output_shape(a: Seq<IoNode>, b: Seq<IoNode>) -> bool {
    &&& b.len() == a.len()
    &&& forall|j: int|
        0 <= j < a.len() ==> (#[trigger] b[j]).address == a[j].address && b[j].pins == a[j].pins
            && b[j].memory@.len() == a[j].memory@.len()
}

/// Output-shape preservation chains across successive mutations.
proof fn lemma_output_shape_trans(a: Seq<IoNode>, b: Seq<IoNode>, c: Seq<IoNode>)
    requires
        same_output_shape(a, b),
        same_output_shape(b, c),
    ensures
        same_output_shape(a, c),
{
    assert forall|j: int| 0 <= j < a.len() implies (#[trigger] c[j]).address == a[j].address
        && c[j].pins == a[j].pins && c[j].memory@.len() == a[j].memory@.len() by {
        assert(b[j].address == a[j].address && b[j].pins == a[j].pins && b[j].memory@.len()
            == a[j].memory@.len());
    }
}

/// Drives one motor: writes its three output bits from `cmd`.
fn write_motor(io: &mut IoDevices, m: MotorWires, cmd: MovimotBits)
    requires
        old(io).wf(),
        motor_wired(*old(io), m),
    ensures
        final(io).wf(),
        final(io).digital_inputs == old(io).digital_inputs,
        final(io).digital_outputs@.len() == old(io).digital_outputs@.len(),
        forall|j: int|
            0 <= j < old(io).digital_outputs@.len() && j != node_index(
                old(io).digital_outputs@,
                m.node,
            ) ==> final(io).digital_outputs@[j] == old(io).digital_outputs@[j],
        ({
            let i = node_index(old(io).digital_outputs@, m.node);
            &&& final(io).digital_outputs@[i].address == old(io).digital_outputs@[i].address
            &&& final(io).digital_outputs@[i].pins == old(io).digital_outputs@[i].pins
            &&& final(io).digital_outputs@[i].memory@ == old(io).digital_outputs@[i].memory@.update(
                m.forward.0 as int,
                cmd.forward_bit(),
            ).update(m.reverse.0 as int, cmd.reverse_bit()).update(
                m.rapid.0 as int,
                cmd.rapid_bit(),
            )
        }),
        motor_matches(*final(io), m, cmd),
{
    let ghost io0 = *io;
    let (f, r, q) = cmd.bits();
    let res1 = io.write_output(m.node, m.forward, f);
    proof {
        assert(res1 is Ok);
        lemma_node_index_stable(io0.digital_outputs@, io.digital_outputs@, m.node);
    }
    let ghost io1 = *io;
    let res2 = io.write_output(m.node, m.reverse, r);
    proof {
        assert(res2 is Ok);
        lemma_node_index_stable(io1.digital_outputs@, io.digital_outputs@, m.node);
        lemma_node_index_stable(io0.digital_outputs@, io.digital_outputs@, m.node);
    }
    let ghost io2 = *io;
    let res3 = io.write_output(m.node, m.rapid, q);
    proof {
        assert(res3 is Ok);
        lemma_node_index_stable(io2.digital_outputs@, io.digital_outputs@, m.node);
        lemma_node_index_stable(io0.digital_outputs@, io.digital_outputs@, m.node);
        let i = node_index(io0.digital_outputs@, m.node);
        assert(io.digital_outputs@[i].memory@ =~= io0.digital_outputs@[i].memory@.update(
            m.forward.0 as int,
            cmd.forward_bit(),
        ).update(m.reverse.0 as int, cmd.reverse_bit()).update(m.rapid.0 as int, cmd.rapid_bit()));
    }
}

/// A motor's bits are untouched by a write to a motor it shares no wire
/// with: its `motor_matches` relation survives the write.
proof fn lemma_motor_matches_preserved(
    io0: IoDevices,
    io1: IoDevices,
    written: MotorWires,
    m: MotorWires,
    cmd: MovimotBits,
)
    requires
        io0.wf(),
        io1.wf(),
        motor_wired(io0, written),
        motor_wired(io0, m),
        motor_pins_disjoint(written, m),
        motor_matches(io0, m, cmd),
        io1.digital_outputs@.len() == io0.digital_outputs@.len(),
        forall|j: int|
            0 <= j < io0.digital_outputs@.len() && j != node_index(
                io0.digital_outputs@,
                written.node,
            ) ==> io1.digital_outputs@[j] == io0.digital_outputs@[j],
        ({
            let wi = node_index(io0.digital_outputs@, written.node);
            &&& io1.digital_outputs@[wi].address == io0.digital_outputs@[wi].address
            &&& io1.digital_outputs@[wi].memory@.len() == io0.digital_outputs@[wi].memory@.len()
            &&& forall|p: int|
                0 <= p < io0.digital_outputs@[wi].memory@.len() && p != written.forward.0 && p
                    != written.reverse.0 && p != written.rapid.0
                    ==> io1.digital_outputs@[wi].memory@[p] == io0.digital_outputs@[wi].memory@[p]
        }),
    ensures
        motor_matches(io1, m, cmd),
        motor_wired(io1, m),
{
    assert forall|j: int| 0 <= j < io0.digital_outputs@.len() implies (
    #[trigger] io1.digital_outputs@[j]).address == io0.digital_outputs@[j].address by {}
    lemma_node_index_stable(io0.digital_outputs@, io1.digital_outputs@, m.node);
    lemma_node_index_stable(io0.digital_outputs@, io1.digital_outputs@, written.node);
    let mi = node_index(io0.digital_outputs@, m.node);
    let wi = node_index(io0.digital_outputs@, written.node);
    if m.node == written.node {
        assert(mi == wi);
    } else {
        assert(io0.digital_outputs@[mi].address != io0.digital_outputs@[wi].address);
        assert(mi != wi);
    }
}

/// A segment's wiring survives any output mutation that keeps every node's
/// address and bank length in place and leaves the input side alone.
proof fn lemma_segment_wired_stable(io0: IoDevices, io1: IoDevices, s: TransportSegment)
    requires
        io0.wf(),
        io1.wf(),
        segment_wired(io0, s),
        io1.digital_inputs == io0.digital_inputs,
        io1.digital_outputs@.len() == io0.digital_outputs@.len(),
        forall|j: int|
            0 <= j < io0.digital_outputs@.len() ==> (#[trigger] io1.digital_outputs@[j]).address
                == io0.digital_outputs@[j].address && io1.digital_outputs@[j].memory@.len()
                == io0.digital_outputs@[j].memory@.len(),
    ensures
        segment_wired(io1, s),
{
    lemma_node_index_stable(io0.digital_outputs@, io1.digital_outputs@, s.motor_a.node);
    lemma_node_index_stable(io0.digital_outputs@, io1.digital_outputs@, s.motor_b.node);
}

impl Line {
    /// Commands both actuators of segment `i` with one word: records it as
    /// the segment's commanded word and drives all six output bits.
    fn command_segment_motors(&mut self, i: usize, cmd: MovimotBits)
        requires
            old(self).wf_static(),
            old(self).motor_inv(),
            i < old(self).segments@.len(),
        ensures
            final(self).wf_static(),
            final(self).motor_inv(),
            final(self).register == old(self).register,
            final(self).io.digital_inputs == old(self).io.digital_inputs,
            same_output_shape(old(self).io.digital_outputs@, final(self).io.digital_outputs@),
            final(self).segments@ == old(self).segments@.update(
                i as int,
                TransportSegment { motor_cmd: cmd, ..old(self).segments@[i as int] },
            ),
    {
        let ghost io0 = self.io;
        let ghost segs0 = self.segments@;
        let seg = self.segments[i];
        proof {
            assert(seg == old(self).seg(i as int));
            assert(segment_wired(io0, old(self).seg(i as int)));
        }
        write_motor(&mut self.io, seg.motor_a, cmd);
        let ghost io1 = self.io;
        proof {
            assert forall|j: int| 0 <= j < io0.digital_outputs@.len() implies (
            #[trigger] io1.digital_outputs@[j]).address == io0.digital_outputs@[j].address
                && io1.digital_outputs@[j].memory@.len()
                == io0.digital_outputs@[j].memory@.len() by {
                if j != node_index(io0.digital_outputs@, seg.motor_a.node) {
                    assert(io1.digital_outputs@[j] == io0.digital_outputs@[j]);
                }
            }
            lemma_segment_wired_stable(io0, io1, seg);
        }
        write_motor(&mut self.io, seg.motor_b, cmd);
        let ghost io2 = self.io;
        proof {
            assert forall|j: int| 0 <= j < io1.digital_outputs@.len() implies (
            #[trigger] io2.digital_outputs@[j]).address == io1.digital_outputs@[j].address
                && io2.digital_outputs@[j].memory@.len()
                == io1.digital_outputs@[j].memory@.len() by {
                if j != node_index(io1.digital_outputs@, seg.motor_b.node) {
                    assert(io2.digital_outputs@[j] == io1.digital_outputs@[j]);
                }
            }
        }
        let mut s2 = seg;
        s2.motor_cmd = cmd;
        self.segments.set(i, s2);
        proof {
            let this = *self;
            assert(this.n() == old(self).n());
            // Only segment `i`'s commanded word changed.
            assert forall|j: int| 0 <= j < this.n() implies (#[trigger] this.segments@[j]).position
                == old(self).segments@[j].position && this.segments@[j].push_to == old(self).segments@[j].push_to && this.segments@[j].pull_from == old(self).segments@[j].pull_from && this.segments@[j].sensors == old(self).segments@[j].sensors
                && this.segments@[j].motor_a == old(self).segments@[j].motor_a
                && this.segments@[j].motor_b == old(self).segments@[j].motor_b by {}
            assert forall|j: int| 0 <= j < this.n() implies #[trigger] seg_pos(this.segments@, j)
                == seg_pos(old(self).segments@, j) by {}
            // Every wire set survived both writes.
            assert forall|j: int| 0 <= j < this.n() implies segment_wired(
                this.io,
                #[trigger] this.seg(j),
            ) by {
                assert(segs0[j] == old(self).seg(j));
                assert(segment_wired(io0, old(self).seg(j)));
                lemma_segment_wired_stable(io0, io1, segs0[j]);
                lemma_segment_wired_stable(io1, io2, segs0[j]);
            }
            assert(this.wf_static());
            // Every motor still matches its commanded word.
            assert forall|j: int| 0 <= j < this.n() implies {
                let s = #[trigger] this.seg(j);
                motor_matches(this.io, s.motor_a, s.motor_cmd) && motor_matches(
                    this.io,
                    s.motor_b,
                    s.motor_cmd,
                )
            } by {
                assert(segs0[j] == old(self).seg(j));
                assert(segment_wired(io0, old(self).seg(j)));
                if j == i {
                    lemma_motor_matches_preserved(io1, io2, seg.motor_b, seg.motor_a, cmd);
                } else {
                    let s = segs0[j];
                    assert(motor_matches(io0, old(self).seg(j).motor_a, old(self).seg(j).motor_cmd)
                        && motor_matches(io0, old(self).seg(j).motor_b, old(self).seg(j).motor_cmd));
                    assert(motor_pins_disjoint(
                        old(self).segments@[i as int].motor_a,
                        old(self).segments@[j].motor_a,
                    ) && motor_pins_disjoint(
                        old(self).segments@[i as int].motor_a,
                        old(self).segments@[j].motor_b,
                    ) && motor_pins_disjoint(
                        old(self).segments@[i as int].motor_b,
                        old(self).segments@[j].motor_a,
                    ) && motor_pins_disjoint(
                        old(self).segments@[i as int].motor_b,
                        old(self).segments@[j].motor_b,
                    ));
                    lemma_motor_matches_preserved(io0, io1, seg.motor_a, s.motor_a, s.motor_cmd);
                    lemma_motor_matches_preserved(io0, io1, seg.motor_a, s.motor_b, s.motor_cmd);
                    lemma_motor_matches_preserved(io1, io2, seg.motor_b, s.motor_a, s.motor_cmd);
                    lemma_motor_matches_preserved(io1, io2, seg.motor_b, s.motor_b, s.motor_cmd);
                }
            }
        }
    }

    /// Sets segment `i`'s state machine state, leaving everything else
    /// untouched.
    fn set_segment_state(&mut self, i: usize, st: TransportState)
        requires
            old(self).wf_static(),
            old(self).motor_inv(),
            i < old(self).segments@.len(),
        ensures
            final(self).wf_static(),
            final(self).motor_inv(),
            final(self).register == old(self).register,
            final(self).io == old(self).io,
            final(self).segments@ == old(self).segments@.update(
                i as int,
                TransportSegment { state: st, ..old(self).segments@[i as int] },
            ),
    {
        let seg = self.segments[i];
        let mut s2 = seg;
        s2.state = st;
        self.segments.set(i, s2);
        proof {
            let this = *self;
            assert(this.n() == old(self).n());
            assert forall|j: int| 0 <= j < this.n() implies (#[trigger] this.segments@[j]).position
                == old(self).segments@[j].position && this.segments@[j].push_to == old(self).segments@[j].push_to && this.segments@[j].pull_from == old(self).segments@[j].pull_from && this.segments@[j].sensors == old(self).segments@[j].sensors
                && this.segments@[j].motor_a == old(self).segments@[j].motor_a
                && this.segments@[j].motor_b == old(self).segments@[j].motor_b
                && this.segments@[j].motor_cmd == old(self).segments@[j].motor_cmd by {}
            assert forall|j: int| 0 <= j < this.n() implies #[trigger] seg_pos(this.segments@, j)
                == seg_pos(old(self).segments@, j) by {}
            assert forall|j: int| 0 <= j < this.n() implies segment_wired(
                this.io,
                #[trigger] this.seg(j),
            ) by {
                assert(segment_wired(old(self).io, old(self).seg(j)));
            }
            assert(this.wf_static());
            assert forall|j: int| 0 <= j < this.n() implies {
                let s = #[trigger] this.seg(j);
                motor_matches(this.io, s.motor_a, s.motor_cmd) && motor_matches(
                    this.io,
                    s.motor_b,
                    s.motor_cmd,
                )
            } by {
                assert(motor_matches(old(self).io, old(self).seg(j).motor_a, old(self).seg(j).motor_cmd)
                    && motor_matches(old(self).io, old(self).seg(j).motor_b, old(self).seg(j).motor_cmd));
            }
        }
    }

    /// Stops one segment: state `NotReady`, motors commanded to a full stop.
    fn stop_segment(&mut self, i: usize)
        requires
            old(self).wf_static(),
            old(self).motor_inv(),
            i < old(self).segments@.len(),
        ensures
            final(self).wf_static(),
            final(self).motor_inv(),
            final(self).register == old(self).register,
            final(self).io.digital_inputs == old(self).io.digital_inputs,
            same_output_shape(old(self).io.digital_outputs@, final(self).io.digital_outputs@),
            final(self).segments@ == old(self).segments@.update(
                i as int,
                TransportSegment {
                    state: TransportState::NotReady,
                    motor_cmd: MovimotBits::Stop,
                    ..old(self).segments@[i as int]
                },
            ),
    {
        self.command_segment_motors(i, MovimotBits::Stop);
        self.set_segment_state(i, TransportState::NotReady);
        proof {
            assert(self.segments@ =~= old(self).segments@.update(
                i as int,
                TransportSegment {
                    state: TransportState::NotReady,
                    motor_cmd: MovimotBits::Stop,
                    ..old(self).segments@[i as int]
                },
            ));
        }
    }

    /// Handles `StartSending`: only a segment that announced `ReadySend`
    /// reacts; it enters `Sending` and its motors are commanded slow in its
    /// running direction. The protocol-level pairing with the matching
    /// receive is its caller's business ([`Line::push_request_handler`]).
    pub fn on_start_sending(&mut self, msg: StartSending)
        requires
            old(self).wf_static(),
            old(self).motor_inv(),
        ensures
            final(self).wf_static(),
            final(self).motor_inv(),
            final(self).register == old(self).register,
            final(self).io.digital_inputs == old(self).io.digital_inputs,
            same_output_shape(old(self).io.digital_outputs@, final(self).io.digital_outputs@),
            ({
                let e = msg.entity as int;
                if 0 <= e < old(self).n() && old(self).seg(e).state is ReadySend {
                    final(self).segments@ == old(self).segments@.update(
                        e,
                        TransportSegment {
                            state: TransportState::Sending,
                            motor_cmd: MovimotBits::slow_word(old(self).seg(e).direction),
                            ..old(self).seg(e)
                        },
                    )
                } else {
                    *final(self) == *old(self)
                }
            }),
    {
        let e = msg.entity;
        if e >= self.segments.len() {
            return;
        }
        let seg = self.segments[e];
        match seg.state {
            TransportState::ReadySend => {},
            _ => {
                return;
            },
        }
        let cmd = MovimotBits::slow(seg.direction);
        self.command_segment_motors(e, cmd);
        self.set_segment_state(e, TransportState::Sending);
        proof {
            assert(self.segments@ =~= old(self).segments@.update(
                e as int,
                TransportSegment {
                    state: TransportState::Sending,
                    motor_cmd: cmd,
                    ..old(self).seg(e as int)
                },
            ));
        }
    }

    /// Handles `StartRecive`: only a segment that stood in `ReadyRecive`
    /// reacts; it enters `Reciving` and its motors are commanded slow in its
    /// running direction, mirroring the sender's side.
    pub fn on_start_reciving(&mut self, msg: StartRecive)
        requires
            old(self).wf_static(),
            old(self).motor_inv(),
        ensures
            final(self).wf_static(),
            final(self).motor_inv(),
            final(self).register == old(self).register,
            final(self).io.digital_inputs == old(self).io.digital_inputs,
            same_output_shape(old(self).io.digital_outputs@, final(self).io.digital_outputs@),
            ({
                let e = msg.0 as int;
                if 0 <= e < old(self).n() && old(self).seg(e).state is ReadyRecive {
                    final(self).segments@ == old(self).segments@.update(
                        e,
                        TransportSegment {
                            state: TransportState::Reciving,
                            motor_cmd: MovimotBits::slow_word(old(self).seg(e).direction),
                            ..old(self).seg(e)
                        },
                    )
                } else {
                    *final(self) == *old(self)
                }
            }),
    {
        let e = msg.0;
        if e >= self.segments.len() {
            return;
        }
        let seg = self.segments[e];
        match seg.state {
            TransportState::ReadyRecive => {},
            _ => {
                return;
            },
        }
        let cmd = MovimotBits::slow(seg.direction);
        self.command_segment_motors(e, cmd);
        self.set_segment_state(e, TransportState::Reciving);
        proof {
            assert(self.segments@ =~= old(self).segments@.update(
                e as int,
                TransportSegment {
                    state: TransportState::Reciving,
                    motor_cmd: cmd,
                    ..old(self).seg(e as int)
                },
            ));
        }
    }

    /// The segment that must stop together with `e` for a cancellation to
    /// leave no half of a hand-off running: the receiver `e` was sending to,
    /// or the sender `e` was receiving from.
    pub open spec fn stop_partner(self, e: int) -> Option<int> {
        let s = self.seg(e);
        if s.state is Sending {
            match s.push_to {
                Some(t) => Some(t as int),
                None => None,
            }
        } else if s.state is Reciving {
            match s.pull_from {
                Some(g) => Some(g as int),
                None => None,
            }
        } else {
            None
        }
    }

    /// Handles `StopRunning`, the one cancellation primitive: the addressed
    /// segment stops (state `NotReady`, motors zeroed) and, when it was one
    /// half of a hand-off in flight, its partner stops with it in the same
    /// step, so no half keeps running alone. Stopping an already stopped
    /// segment changes nothing of substance: the cancellation is idempotent.
    #[verifier::rlimit(60)]
    #[verifier::spinoff_prover]
    pub fn on_stop_running_tbana(&mut self, msg: StopRunning)
        requires
            old(self).inv(),
        ensures
            final(self).inv(),
            final(self).register == old(self).register,
            final(self).io.digital_inputs == old(self).io.digital_inputs,
            ({
                let e = msg.0 as int;
                if 0 <= e < old(self).n() {
                    match old(self).stop_partner(e) {
                        Some(p) => final(self).segments@ == old(self).segments@.update(
                            e,
                            stopped_seg(old(self).seg(e)),
                        ).update(p, stopped_seg(old(self).seg(p))),
                        None => final(self).segments@ == old(self).segments@.update(
                            e,
                            stopped_seg(old(self).seg(e)),
                        ),
                    }
                } else {
                    *final(self) == *old(self)
                }
            }),
    {
        let e = msg.0;
        if e >= self.segments.len() {
            return;
        }
        let seg = self.segments[e];
        let partner: Option<usize> = match seg.state {
            TransportState::Sending => seg.push_to,
            TransportState::Reciving => seg.pull_from,
            _ => None,
        };
        proof {
            assert(seg == old(self).seg(e as int));
            match partner {
                Some(p) => {
                    assert(0 <= p < old(self).n() && p != e);
                },
                None => {},
            }
        }
        self.stop_segment(e);
        match partner {
            Some(p) => {
                self.stop_segment(p);
                proof {
                    let s0 = old(self).segments@;
                    let s1 = self.segments@;
                    assert forall|j: int| 0 <= j < s0.len() implies (#[trigger] s1[j]).position
                        == s0[j].position && s1[j].push_to == s0[j].push_to && s1[j].pull_from
                        == s0[j].pull_from by {}
                    assert forall|j: int|
                        0 <= j < s0.len() && j != e as int && j != p as int implies (
                    #[trigger] s1[j]).state == s0[j].state by {}
                    lemma_protocol_after_stop(
                        s0,
                        s1,
                        self.register.details@,
                        e as int,
                        Some(p as int),
                    );
                }
            },
            None => {
                proof {
                    let s0 = old(self).segments@;
                    let s1 = self.segments@;
                    assert forall|j: int| 0 <= j < s0.len() implies (#[trigger] s1[j]).position
                        == s0[j].position && s1[j].push_to == s0[j].push_to && s1[j].pull_from
                        == s0[j].pull_from by {}
                    assert forall|j: int| 0 <= j < s0.len() && j != e as int implies (
                    #[trigger] s1[j]).state == s0[j].state by {}
                    lemma_protocol_after_stop(s0, s1, self.register.details@, e as int, None);
                }
            },
        }
    }

    /// Whether a push request from `f` to `t` is acceptable now: `f`
    /// announces from `ReadySend` toward its downstream `t`, and `t`
    /// independently confirms by standing in `ReadyRecive`.
    pub open spec fn accepts_push(self, f: int, t: int) -> bool {
        push_accepted_at(self.segments@, f, t)
    }

    /// Handles one `PushRequest`: the receiver's own state is the single
    /// arbiter. When it stands in `ReadyRecive`, sender and receiver flip to
    /// `Sending` and `Reciving` together, motors commanded slow, within this
    /// one call; the ledger does not move yet. Any other request is silently
    /// dropped: the sender stays `ReadySend` and will re-request next step.
    pub fn push_request_handler(&mut self, req: PushRequest)
        requires
            old(self).inv(),
        ensures
            final(self).inv(),
            final(self).register == old(self).register,
            final(self).io.digital_inputs == old(self).io.digital_inputs,
            same_output_shape(old(self).io.digital_outputs@, final(self).io.digital_outputs@),
            ({
                let f = req.from as int;
                let t = req.to as int;
                if old(self).accepts_push(f, t) {
                    final(self).segments@ == old(self).segments@.update(
                        f,
                        TransportSegment {
                            state: TransportState::Sending,
                            motor_cmd: MovimotBits::slow_word(old(self).seg(f).direction),
                            ..old(self).seg(f)
                        },
                    ).update(
                        t,
                        TransportSegment {
                            state: TransportState::Reciving,
                            motor_cmd: MovimotBits::slow_word(old(self).seg(t).direction),
                            ..old(self).seg(t)
                        },
                    )
                } else {
                    *final(self) == *old(self)
                }
            }),
    {
        let f = req.from;
        let t = req.to;
        if f >= self.segments.len() || t >= self.segments.len() {
            return;
        }
        let sender = self.segments[f];
        let pushes_to_t = match sender.push_to {
            Some(x) => x == t,
            None => false,
        };
        if !pushes_to_t {
            return;
        }
        match sender.state {
            TransportState::ReadySend => {},
            _ => {
                return;
            },
        }
        match self.segments[t].state {
            TransportState::ReadyRecive => {},
            _ => {
                return;
            },
        }
        proof {
            assert(old(self).accepts_push(f as int, t as int));
            assert(f != t);
        }
        self.on_start_sending(StartSending { entity: f });
        proof {
            assert(self.seg(t as int).state is ReadyRecive);
        }
        let ghost mid_outs = self.io.digital_outputs@;
        self.on_start_reciving(StartRecive(t));
        proof {
            lemma_output_shape_trans(
                old(self).io.digital_outputs@,
                mid_outs,
                self.io.digital_outputs@,
            );
            let s0 = old(self).segments@;
            let s1 = self.segments@;
            assert(s1.len() == s0.len());
            assert forall|j: int| 0 <= j < s0.len() implies (#[trigger] s1[j]).position
                == s0[j].position && s1[j].push_to == s0[j].push_to && s1[j].pull_from
                == s0[j].pull_from by {}
            assert forall|j: int| 0 <= j < s0.len() && j != f as int && j != t as int implies (
            #[trigger] s1[j]).state == s0[j].state by {}
            lemma_protocol_after_accept(
                s0,
                s1,
                self.register.details@,
                f as int,
                t as int,
            );
        }
    }

    /// Whether a position signal on segment `e` completes a hand-off: the
    /// segment is receiving and the detail reached its far limit sensor —
    /// the front one running forward, the back one running in reverse.
    pub open spec fn completes_handoff(self, e: int, role: SensorPosition) -> bool {
        handoff_completes_at(self.segments@, e, role)
    }

    /// Handles a `PositionReached` signal. On a receiving segment whose far
    /// limit sensor fired, the hand-off completes as one unit: the detail
    /// moves in the ledger from the giver's slot to this segment's slot, and
    /// both segments stop, all within this call. Every other signal changes
    /// nothing.
    pub fn on_sensor_pos(&mut self, msg: PositionReached)
        requires
            old(self).inv(),
        ensures
            final(self).inv(),
            final(self).io.digital_inputs == old(self).io.digital_inputs,
            same_output_shape(old(self).io.digital_outputs@, final(self).io.digital_outputs@),
            final(self).register.details@.len() == old(self).register.details@.len(),
            ({
                let e = msg.entity as int;
                if old(self).completes_handoff(e, msg.position) {
                    old(self).seg(e).pull_from matches Some(g) && {
                        let gi = g as int;
                        &&& final(self).segments@ == old(self).segments@.update(
                            gi,
                            stopped_seg(old(self).seg(gi)),
                        ).update(e, stopped_seg(old(self).seg(e)))
                        &&& final(self).register.details@ == old(self).register.details@.update(
                            old(self).pos(gi),
                            None,
                        ).update(old(self).pos(e), old(self).register.details@[old(self).pos(gi)])
                    }
                } else {
                    *final(self) == *old(self)
                }
            }),
    {
        let e = msg.entity;
        if e >= self.segments.len() {
            return;
        }
        let seg = self.segments[e];
        match seg.state {
            TransportState::Reciving => {},
            _ => {
                return;
            },
        }
        let fires = match (seg.direction, msg.position) {
            (Reversiable::Forward, SensorPosition::LimitFront) => true,
            (Reversiable::Reverse, SensorPosition::LimitBack) => true,
            _ => false,
        };
        if !fires {
            return;
        }
        let g = match seg.pull_from {
            Some(g) => g,
            None => {
                proof {
                    assert(false);
                }
                return;
            },
        };
        proof {
            assert(0 <= g < old(self).n() && g != e);
            assert(old(self).seg(g as int).push_to == Some(e as SegmentId));
            assert(old(self).seg(g as int).state is Sending);
            assert(old(self).occupied(old(self).pos(g as int)));
            assert(!old(self).occupied(old(self).pos(e as int)));
        }
        let from_pos = self.segments[g].position.as_usize();
        let to_pos = self.segments[e].position.as_usize();
        let moved = self.register.shift_over(from_pos, to_pos);
        proof {
            assert(moved is Ok);
            assert(self.io == old(self).io);
            assert(self.segments@ == old(self).segments@);
            assert forall|j: int| 0 <= j < self.n() implies segment_wired(
                self.io,
                #[trigger] self.seg(j),
            ) by {
                assert(self.seg(j) == old(self).seg(j));
                assert(segment_wired(old(self).io, old(self).seg(j)));
            }
            assert(self.wf_static());
            assert forall|j: int| 0 <= j < self.n() implies {
                let s = #[trigger] self.seg(j);
                motor_matches(self.io, s.motor_a, s.motor_cmd) && motor_matches(
                    self.io,
                    s.motor_b,
                    s.motor_cmd,
                )
            } by {
                assert(self.seg(j) == old(self).seg(j));
                assert(motor_matches(old(self).io, old(self).seg(j).motor_a, old(self).seg(j).motor_cmd)
                    && motor_matches(old(self).io, old(self).seg(j).motor_b, old(self).seg(j).motor_cmd));
            }
            assert(self.motor_inv());
        }
        let ghost outs0 = self.io.digital_outputs@;
        self.stop_segment(g);
        let ghost outs1 = self.io.digital_outputs@;
        self.stop_segment(e);
        proof {
            lemma_output_shape_trans(outs0, outs1, self.io.digital_outputs@);
            let s0 = old(self).segments@;
            let s1 = self.segments@;
            assert forall|j: int| 0 <= j < s0.len() implies (#[trigger] s1[j]).position
                == s0[j].position && s1[j].push_to == s0[j].push_to && s1[j].pull_from
                == s0[j].pull_from by {}
            assert forall|j: int| 0 <= j < s0.len() && j != e as int && j != g as int implies (
            #[trigger] s1[j]).state == s0[j].state by {}
            lemma_protocol_after_complete(
                s0,
                s1,
                old(self).register.details@,
                self.register.details@,
                e as int,
                g as int,
            );
            assert(self.segments@ =~= old(self).segments@.update(
                g as int,
                stopped_seg(old(self).seg(g as int)),
            ).update(e as int, stopped_seg(old(self).seg(e as int))));
        }
    }

    /// Re-evaluates every stopped segment from the ledger: a `NotReady`
    /// segment whose slot holds a detail becomes `ReadySend`, one whose slot
    /// is empty becomes `ReadyRecive`. Nothing else changes.
    pub fn set_tbana_ready(&mut self)
        requires
            old(self).inv(),
        ensures
            final(self).inv(),
            final(self).register == old(self).register,
            final(self).io == old(self).io,
            final(self).segments@.len() == old(self).segments@.len(),
            forall|j: int|
                0 <= j < old(self).n() ==> #[trigger] final(self).segments@[j] == (if old(self).segments@[j].state is NotReady {
                    TransportSegment {
                        state: (if occupied_at(
                            old(self).register.details@,
                            seg_pos(old(self).segments@, j),
                        ) {
                            TransportState::ReadySend
                        } else {
                            TransportState::ReadyRecive
                        }),
                        ..old(self).segments@[j]
                    }
                } else {
                    old(self).segments@[j]
                }),
    {
        let n = self.segments.len();
        let mut i: usize = 0;
        while i < n
            invariant
                i <= n,
                n == old(self).segments@.len(),
                old(self).inv(),
                self.inv(),
                self.register == old(self).register,
                self.io == old(self).io,
                self.segments@.len() == n,
                forall|j: int|
                    0 <= j < i ==> #[trigger] self.segments@[j] == (if old(self).segments@[j].state is NotReady {
                        TransportSegment {
                            state: (if occupied_at(
                                old(self).register.details@,
                                seg_pos(old(self).segments@, j),
                            ) {
                                TransportState::ReadySend
                            } else {
                                TransportState::ReadyRecive
                            }),
                            ..old(self).segments@[j]
                        }
                    } else {
                        old(self).segments@[j]
                    }),
                forall|j: int| i <= j < n ==> #[trigger] self.segments@[j] == old(self).segments@[j],
            decreases n - i,
        {
            let seg = self.segments[i];
            match seg.state {
                TransportState::NotReady => {
                    let ghost pre = *self;
                    let p = seg.position.as_usize();
                    proof {
                        assert(seg == old(self).segments@[i as int]);
                        assert(0 <= seg_pos(pre.segments@, i as int) < pre.n());
                        assert(p < self.register.details@.len());
                    }
                    let occ = self.register.get(p).is_some();
                    let st = if occ {
                        TransportState::ReadySend
                    } else {
                        TransportState::ReadyRecive
                    };
                    self.set_segment_state(i, st);
                    proof {
                        let s0 = pre.segments@;
                        let s1 = self.segments@;
                        assert forall|j: int| 0 <= j < s0.len() implies (#[trigger] s1[j]).position
                            == s0[j].position && s1[j].push_to == s0[j].push_to && s1[j].pull_from
                            == s0[j].pull_from by {}
                        assert forall|j: int| 0 <= j < s0.len() && j != i as int implies (
                        #[trigger] s1[j]).state == s0[j].state by {}
                        assert(seg_pos(s0, i as int) == seg_pos(old(self).segments@, i as int));
                        lemma_protocol_after_ready(s0, s1, self.register.details@, i as int);
                    }
                },
                _ => {},
            }
            i = i + 1;
        }
    }

    /// Collects this step's push announcements: one request per segment that
    /// stands in `ReadySend` and has a downstream neighbor, in ascending
    /// segment order, each segment at most once.
    pub fn request_push(&self) -> (r: Vec<PushRequest>)
        ensures
            r@ == spec_requests(self.segments@, self.n()),
            forall|k: int|
                0 <= k < r@.len() ==> {
                    let q = #[trigger] r@[k];
                    &&& (q.from as int) < self.n()
                    &&& self.seg(q.from as int).state is ReadySend
                    &&& self.seg(q.from as int).push_to == Some(q.to)
                },
            forall|i: int|
                0 <= i < self.n() && (#[trigger] self.seg(i)).state is ReadySend && self.seg(
                    i,
                ).push_to is Some ==> exists|k: int|
                    0 <= k < r@.len() && (#[trigger] r@[k]).from == i,
            forall|k1: int, k2: int|
                0 <= k1 < k2 < r@.len() ==> (#[trigger] r@[k1]).from < (#[trigger] r@[k2]).from,
    {
        let mut out: Vec<PushRequest> = Vec::new();
        let n = self.segments.len();
        let mut i: usize = 0;
        while i < n
            invariant
                i <= n,
                n == self.segments@.len(),
                out@ == spec_requests(self.segments@, i as int),
                forall|k: int|
                    0 <= k < out@.len() ==> {
                        let q = #[trigger] out@[k];
                        &&& (q.from as int) < i
                        &&& self.seg(q.from as int).state is ReadySend
                        &&& self.seg(q.from as int).push_to == Some(q.to)
                    },
                forall|j: int|
                    0 <= j < i && (#[trigger] self.seg(j)).state is ReadySend && self.seg(
                        j,
                    ).push_to is Some ==> exists|k: int|
                        0 <= k < out@.len() && (#[trigger] out@[k]).from == j,
                forall|k1: int, k2: int|
                    0 <= k1 < k2 < out@.len() ==> (#[trigger] out@[k1]).from < (
                    #[trigger] out@[k2]).from,
            decreases n - i,
        {
            let seg = self.segments[i];
            let is_ready = match seg.state {
                TransportState::ReadySend => true,
                _ => false,
            };
            if is_ready {
                match seg.push_to {
                    Some(t) => {
                        let ghost pre = out@;
                        out.push(PushRequest { from: i, to: t });
                        proof {
                            assert forall|j: int|
                                0 <= j < i + 1 && (#[trigger] self.seg(j)).state is ReadySend
                                    && self.seg(j).push_to is Some implies exists|k: int|
                                0 <= k < out@.len() && (#[trigger] out@[k]).from == j by {
                                if j == i {
                                    assert(out@[out@.len() - 1].from == j);
                                } else {
                                    let k = choose|k: int|
                                        0 <= k < pre.len() && (#[trigger] pre[k]).from == j;
                                    assert(out@[k].from == j);
                                }
                            }
                        }
                    },
                    None => {},
                }
            }
            i = i + 1;
        }
        out
    }

    /// Whether segment `i` can push its detail off the end of the line: it
    /// stands in `ReadySend` with no downstream neighbor, runs forward at
    /// the last position, and the absorbing slot behind it is empty.
    pub open spec fn exits_line(self, i: int) -> bool {
        exits_at(self.segments@, self.register.details@, i)
    }

    /// Pushes the detail of a forward-running chain-end segment into the
    /// absorbing slot at the line's end, when that slot is free, and stops
    /// the segment; the detail then waits there for [`Register::pop_detail`].
    /// On any other segment, or while the absorbing slot is taken, nothing
    /// changes.
    pub fn push_out(&mut self, i: usize)
        requires
            old(self).inv(),
        ensures
            final(self).inv(),
            final(self).io == old(self).io,
            final(self).register.details@.len() == old(self).register.details@.len(),
            ({
                if old(self).exits_line(i as int) {
                    &&& final(self).segments@ == old(self).segments@.update(
                        i as int,
                        TransportSegment {
                            state: TransportState::NotReady,
                            ..old(self).seg(i as int)
                        },
                    )
                    &&& final(self).register.details@ == old(self).register.details@.update(
                        old(self).pos(i as int),
                        None,
                    ).update(
                        old(self).pos(i as int) + 1,
                        old(self).register.details@[old(self).pos(i as int)],
                    )
                } else {
                    *final(self) == *old(self)
                }
            }),
    {
        if i >= self.segments.len() {
            return;
        }
        let seg = self.segments[i];
        match seg.state {
            TransportState::ReadySend => {},
            _ => {
                return;
            },
        }
        match seg.push_to {
            None => {},
            Some(_) => {
                return;
            },
        }
        match seg.direction {
            Reversiable::Forward => {},
            Reversiable::Reverse => {
                return;
            },
        }
        let p = seg.position.as_usize();
        proof {
            assert(0 <= seg_pos(old(self).segments@, i as int) < old(self).n());
        }
        if p + 1 != self.segments.len() {
            return;
        }
        if self.register.get(p + 1).is_some() {
            return;
        }
        proof {
            assert(old(self).occupied(old(self).pos(i as int)));
        }
        let moved = self.register.shift_over(p, p + 1);
        proof {
            assert(moved is Ok);
            assert(self.io == old(self).io);
            assert(self.segments@ == old(self).segments@);
            assert forall|j: int| 0 <= j < self.n() implies segment_wired(
                self.io,
                #[trigger] self.seg(j),
            ) by {
                assert(self.seg(j) == old(self).seg(j));
                assert(segment_wired(old(self).io, old(self).seg(j)));
            }
            assert(self.wf_static());
            assert forall|j: int| 0 <= j < self.n() implies {
                let s = #[trigger] self.seg(j);
                motor_matches(self.io, s.motor_a, s.motor_cmd) && motor_matches(
                    self.io,
                    s.motor_b,
                    s.motor_cmd,
                )
            } by {
                assert(self.seg(j) == old(self).seg(j));
                assert(motor_matches(old(self).io, old(self).seg(j).motor_a, old(self).seg(j).motor_cmd)
                    && motor_matches(old(self).io, old(self).seg(j).motor_b, old(self).seg(j).motor_cmd));
            }
            assert(self.motor_inv());
        }
        self.set_segment_state(i, TransportState::NotReady);
        proof {
            let s0 = old(self).segments@;
            let s1 = self.segments@;
            assert forall|j: int| 0 <= j < s0.len() implies (#[trigger] s1[j]).position
                == s0[j].position && s1[j].push_to == s0[j].push_to && s1[j].pull_from
                == s0[j].pull_from by {}
            assert forall|j: int| 0 <= j < s0.len() && j != i as int implies (
            #[trigger] s1[j]).state == s0[j].state by {}
            lemma_protocol_after_exit(
                s0,
                s1,
                old(self).register.details@,
                self.register.details@,
                i as int,
            );
        }
    }

    /// The raw bridge shared by the two collision handlers: writes the wired
    /// input bit of the sensor in `role` on segment `entity` and lifts the
    /// event into a `PositionReached` signal. The bit write happens before
    /// the signal exists, so any handler of the signal observes the new bit.
    fn switch_sensor(&mut self, entity: SegmentId, role: SensorPosition, value: bool) -> (r:
        Option<PositionReached>)
        requires
            old(self).inv(),
        ensures
            final(self).inv(),
            final(self).register == old(self).register,
            final(self).segments == old(self).segments,
            final(self).io.digital_outputs == old(self).io.digital_outputs,
            final(self).io.digital_inputs@.len() == old(self).io.digital_inputs@.len(),
            ({
                let e = entity as int;
                if 0 <= e < old(self).n() && spec_sensor_wire(old(self).seg(e), role) is Some {
                    let w = spec_sensor_wire(old(self).seg(e), role).unwrap();
                    &&& r == Some(PositionReached { entity, position: role })
                    &&& crate::io::writes_bit(
                        old(self).io.digital_inputs@,
                        final(self).io.digital_inputs@,
                        node_index(old(self).io.digital_inputs@, w.node),
                        w.pin,
                        value,
                    )
                } else {
                    &&& r is None
                    &&& final(self).io == old(self).io
                }
            }),
    {
        let e = entity;
        if e >= self.segments.len() {
            return None;
        }
        let seg = self.segments[e];
        let wire = match role {
            SensorPosition::LimitFront => Some(seg.sensors.front_pos),
            SensorPosition::LimitBack => Some(seg.sensors.back_pos),
            SensorPosition::ProximityFront => Some(seg.sensors.front_proximity),
            SensorPosition::ProximityBack => Some(seg.sensors.back_proximity),
            _ => None,
        };
        let w = match wire {
            Some(w) => w,
            None => {
                return None;
            },
        };
        proof {
            assert(seg == old(self).seg(e as int));
            assert(segment_wired(old(self).io, old(self).seg(e as int)));
        }
        let wrote = self.io.write_input(w.node, w.pin, value);
        proof {
            assert(wrote is Ok);
            let io0 = old(self).io;
            let io1 = self.io;
            assert forall|j: int| 0 <= j < io0.digital_inputs@.len() implies (
            #[trigger] io1.digital_inputs@[j]).address == io0.digital_inputs@[j].address
                && io1.digital_inputs@[j].memory@.len()
                == io0.digital_inputs@[j].memory@.len() by {
                if j != node_index(io0.digital_inputs@, w.node) {
                    assert(io1.digital_inputs@[j] == io0.digital_inputs@[j]);
                }
            }
            assert forall|j: int| 0 <= j < self.n() implies segment_wired(
                self.io,
                #[trigger] self.seg(j),
            ) by {
                assert(self.seg(j) == old(self).seg(j));
                assert(segment_wired(io0, old(self).seg(j)));
                lemma_segment_wired_stable_in(io0, io1, old(self).seg(j));
            }
            assert(self.wf_static());
            assert forall|j: int| 0 <= j < self.n() implies {
                let s = #[trigger] self.seg(j);
                motor_matches(self.io, s.motor_a, s.motor_cmd) && motor_matches(
                    self.io,
                    s.motor_b,
                    s.motor_cmd,
                )
            } by {
                assert(self.seg(j) == old(self).seg(j));
                assert(motor_matches(io0, old(self).seg(j).motor_a, old(self).seg(j).motor_cmd)
                    && motor_matches(io0, old(self).seg(j).motor_b, old(self).seg(j).motor_cmd));
                assert(io1.digital_outputs@ == io0.digital_outputs@);
            }
            assert(self.motor_inv());
        }
        Some(PositionReached { entity, position: role })
    }

    /// A sensor's zone was entered: its input bit goes high, and the
    /// position signal for the owning segment is returned.
    pub fn on_switch_collision(&mut self, entity: SegmentId, role: SensorPosition) -> (r: Option<
        PositionReached,
    >)
        requires
            old(self).inv(),
        ensures
            final(self).inv(),
            final(self).register == old(self).register,
            final(self).segments == old(self).segments,
            final(self).io.digital_outputs == old(self).io.digital_outputs,
            final(self).io.digital_inputs@.len() == old(self).io.digital_inputs@.len(),
            ({
                let e = entity as int;
                if 0 <= e < old(self).n() && spec_sensor_wire(old(self).seg(e), role) is Some {
                    let w = spec_sensor_wire(old(self).seg(e), role).unwrap();
                    &&& r == Some(PositionReached { entity, position: role })
                    &&& crate::io::writes_bit(
                        old(self).io.digital_inputs@,
                        final(self).io.digital_inputs@,
                        node_index(old(self).io.digital_inputs@, w.node),
                        w.pin,
                        true,
                    )
                } else {
                    &&& r is None
                    &&& final(self).io == old(self).io
                }
            }),
    {
        self.switch_sensor(entity, role, true)
    }

    /// A sensor's zone was left: its input bit goes low, and the position
    /// signal for the owning segment is returned.
    pub fn on_switch_collsion_end(&mut self, entity: SegmentId, role: SensorPosition) -> (r:
        Option<PositionReached>)
        requires
            old(self).inv(),
        ensures
            final(self).inv(),
            final(self).register == old(self).register,
            final(self).segments == old(self).segments,
            final(self).io.digital_outputs == old(self).io.digital_outputs,
            final(self).io.digital_inputs@.len() == old(self).io.digital_inputs@.len(),
            ({
                let e = entity as int;
                if 0 <= e < old(self).n() && spec_sensor_wire(old(self).seg(e), role) is Some {
                    let w = spec_sensor_wire(old(self).seg(e), role).unwrap();
                    &&& r == Some(PositionReached { entity, position: role })
                    &&& crate::io::writes_bit(
                        old(self).io.digital_inputs@,
                        final(self).io.digital_inputs@,
                        node_index(old(self).io.digital_inputs@, w.node),
                        w.pin,
                        false,
                    )
                } else {
                    &&& r is None
                    &&& final(self).io == old(self).io
                }
            }),
    {
        self.switch_sensor(entity, role, false)
    }

    /// Runs one simulation step over the raw sensor events of this tick, in
    /// the fixed order bit-write, bridge-signal, state-transition,
    /// ledger-move. The whole effect is fixed: the input banks take exactly
    /// the events' bit writes (the last write to a pin winning), the
    /// segments and the ledger end exactly as [`spec_step_core`] says for
    /// the events' signals — completions, readiness re-derivation, push
    /// arbitration, end-of-line pushes — the output banks keep their shape
    /// with every motor bit pinned by the motor invariant, and no detail is
    /// created or lost.
    #[verifier::rlimit(100)]
    #[verifier::spinoff_prover]
    pub fn step(&mut self, events: &Vec<RawSensorEvent>)
        requires
            old(self).inv(),
        ensures
            final(self).inv(),
            final(self).segments@.len() == old(self).segments@.len(),
            final(self).register.details@.len() == old(self).register.details@.len(),
            count_occupied(final(self).register.details@) == count_occupied(
                old(self).register.details@,
            ),
            ({
                let outcome = spec_step_core(
                    old(self).segments@,
                    old(self).register.details@,
                    spec_signals(old(self).segments@, events@),
                );
                final(self).segments@ == outcome.0 && final(self).register.details@ == outcome.1
            }),
            final(self).io.digital_inputs@.len() == old(self).io.digital_inputs@.len(),
            forall|j: int|
                0 <= j < old(self).io.digital_inputs@.len() ==> (#[trigger] final(self).io.digital_inputs@[j]).address
                    == old(self).io.digital_inputs@[j].address
                    && final(self).io.digital_inputs@[j].pins
                    == old(self).io.digital_inputs@[j].pins,
            mem_views(final(self).io.digital_inputs@) == spec_event_writes(
                mem_views(old(self).io.digital_inputs@),
                old(self).io.digital_inputs@,
                old(self).segments@,
                events@,
            ),
            same_output_shape(old(self).io.digital_outputs@, final(self).io.digital_outputs@),
    {
        let mut signals: Vec<PositionReached> = Vec::new();
        let n_events = events.len();
        let mut k: usize = 0;
        while k < n_events
            invariant
                k <= n_events,
                n_events == events@.len(),
                old(self).inv(),
                self.inv(),
                self.segments == old(self).segments,
                self.register == old(self).register,
                self.io.digital_outputs == old(self).io.digital_outputs,
                self.io.digital_inputs@.len() == old(self).io.digital_inputs@.len(),
                forall|j: int|
                    0 <= j < old(self).io.digital_inputs@.len() ==> (#[trigger] self.io.digital_inputs@[j]).address
                        == old(self).io.digital_inputs@[j].address
                        && self.io.digital_inputs@[j].pins
                        == old(self).io.digital_inputs@[j].pins,
                mem_views(self.io.digital_inputs@) == spec_event_writes(
                    mem_views(old(self).io.digital_inputs@),
                    old(self).io.digital_inputs@,
                    old(self).segments@,
                    events@.take(k as int),
                ),
                signals@ == spec_signals(old(self).segments@, events@.take(k as int)),
            decreases n_events - k,
        {
            let ghost pre = *self;
            let ev = events[k];
            let sig = if ev.entered {
                self.on_switch_collision(ev.segment, ev.position)
            } else {
                self.on_switch_collsion_end(ev.segment, ev.position)
            };
            proof {
                assert(events@.take(k as int + 1).drop_last() =~= events@.take(k as int));
                assert(events@.take(k as int + 1).last() == ev);
                assert(pre.segments@ == old(self).segments@);
                if (ev.segment as int) < old(self).segments@.len() && spec_sensor_wire(
                    old(self).segments@[ev.segment as int],
                    ev.position,
                ) is Some {
                    let w = spec_sensor_wire(
                        old(self).segments@[ev.segment as int],
                        ev.position,
                    ).unwrap();
                    assert(sig == Some(
                        PositionReached { entity: ev.segment, position: ev.position },
                    ));
                    assert(old(self).seg(ev.segment as int) == old(
                        self,
                    ).segments@[ev.segment as int]);
                    assert(segment_wired(old(self).io, old(self).seg(ev.segment as int)));
                    assert(input_wired(old(self).io, w));
                    lemma_node_index_stable(
                        old(self).io.digital_inputs@,
                        pre.io.digital_inputs@,
                        w.node,
                    );
                    let ni = node_index(old(self).io.digital_inputs@, w.node);
                    assert(mem_views(self.io.digital_inputs@) =~= mem_views(
                        pre.io.digital_inputs@,
                    ).update(
                        ni,
                        mem_views(pre.io.digital_inputs@)[ni].update(
                            w.pin.0 as int,
                            ev.entered,
                        ),
                    ));
                } else {
                    assert(sig is None);
                    assert(self.io == pre.io);
                    assert(mem_views(self.io.digital_inputs@) == mem_views(
                        pre.io.digital_inputs@,
                    ));
                }
            }
            match sig {
                Some(s) => {
                    signals.push(s);
                },
                None => {},
            }
            k = k + 1;
        }
        proof {
            assert(events@.take(n_events as int) =~= events@);
        }
        let ghost segs_a = self.segments@;
        let ghost reg_a = self.register.details@;
        let ghost sigs = signals@;
        let ghost inputs_b = self.io.digital_inputs;
        let ghost outs_b = self.io.digital_outputs@;
        let n_signals = signals.len();
        let mut k: usize = 0;
        while k < n_signals
            invariant
                k <= n_signals,
                n_signals == sigs.len(),
                signals@ == sigs,
                self.inv(),
                self.segments@.len() == segs_a.len(),
                self.register.details@.len() == reg_a.len(),
                count_occupied(self.register.details@) == count_occupied(reg_a),
                self.segments@ == spec_completions(segs_a, reg_a, sigs.take(k as int)).0,
                self.register.details@ == spec_completions(segs_a, reg_a, sigs.take(k as int)).1,
                self.io.digital_inputs == inputs_b,
                same_output_shape(outs_b, self.io.digital_outputs@),
            decreases n_signals - k,
        {
            let ghost pre = *self;
            let sig = signals[k];
            self.on_sensor_pos(sig);
            proof {
                assert(sigs.take(k as int + 1).drop_last() =~= sigs.take(k as int));
                assert(sigs.take(k as int + 1).last() == sig);
                let prev = spec_completions(segs_a, reg_a, sigs.take(k as int));
                assert(pre.segments@ == prev.0 && pre.register.details@ == prev.1);
                let e = sig.entity as int;
                if pre.completes_handoff(e, sig.position) {
                    let g = pre.seg(e).pull_from.unwrap() as int;
                    assert(pre.segments@[e].state is Reciving);
                    assert(pre.segments@[g].state is Sending);
                    assert(occupied_at(pre.register.details@, seg_pos(pre.segments@, g)));
                    assert(!occupied_at(pre.register.details@, seg_pos(pre.segments@, e)));
                    assert(seg_pos(pre.segments@, g) != seg_pos(pre.segments@, e));
                    crate::shiftreg::lemma_count_occupied_move(
                        pre.register.details@,
                        seg_pos(pre.segments@, g),
                        seg_pos(pre.segments@, e),
                    );
                    assert(self.segments@ == spec_complete_step(prev.0, prev.1, sig).0);
                    assert(self.register.details@ == spec_complete_step(prev.0, prev.1, sig).1);
                } else {
                    assert(*self == pre);
                    assert(!handoff_completes_at(prev.0, e, sig.position));
                }
                lemma_output_shape_trans(outs_b, pre.io.digital_outputs@, self.io.digital_outputs@);
            }
            k = k + 1;
        }
        proof {
            assert(sigs.take(n_signals as int) =~= sigs);
        }
        let ghost segs_b = self.segments@;
        let ghost reg_b = self.register.details@;
        let ghost outs_c = self.io.digital_outputs@;
        self.set_tbana_ready();
        proof {
            assert(self.segments@ =~= spec_readied(segs_b, reg_b));
            lemma_output_shape_trans(outs_b, outs_c, self.io.digital_outputs@);
        }
        let ghost segs_c = self.segments@;
        let requests = self.request_push();
        proof {
            assert(requests@ == spec_requests(segs_c, segs_c.len() as int));
        }
        let ghost reqs = requests@;
        let n_requests = requests.len();
        let mut k: usize = 0;
        while k < n_requests
            invariant
                k <= n_requests,
                n_requests == reqs.len(),
                requests@ == reqs,
                self.inv(),
                self.segments@.len() == segs_c.len(),
                self.register.details@ == reg_b,
                self.register.details@.len() == reg_a.len(),
                count_occupied(self.register.details@) == count_occupied(reg_a),
                self.segments@ == spec_accepts(segs_c, reqs.take(k as int)),
                self.io.digital_inputs == inputs_b,
                same_output_shape(outs_b, self.io.digital_outputs@),
            decreases n_requests - k,
        {
            let ghost pre = *self;
            self.push_request_handler(requests[k]);
            proof {
                assert(reqs.take(k as int + 1).drop_last() =~= reqs.take(k as int));
                assert(reqs.take(k as int + 1).last() == reqs[k as int]);
                let prev = spec_accepts(segs_c, reqs.take(k as int));
                assert(pre.segments@ == prev);
                let f = reqs[k as int].from as int;
                let t = reqs[k as int].to as int;
                if pre.accepts_push(f, t) {
                    assert(self.segments@ == spec_accept_step(prev, reqs[k as int]));
                } else {
                    assert(*self == pre);
                    assert(!push_accepted_at(prev, f, t));
                }
                lemma_output_shape_trans(outs_b, pre.io.digital_outputs@, self.io.digital_outputs@);
            }
            k = k + 1;
        }
        proof {
            assert(reqs.take(n_requests as int) =~= reqs);
        }
        let ghost segs_d = self.segments@;
        let ghost reg_d = self.register.details@;
        let n_segs = self.segments.len();
        let mut k: usize = 0;
        while k < n_segs
            invariant
                k <= n_segs,
                n_segs == segs_d.len(),
                self.inv(),
                self.segments@.len() == segs_d.len(),
                self.register.details@.len() == reg_a.len(),
                count_occupied(self.register.details@) == count_occupied(reg_a),
                self.segments@ == spec_exits(segs_d, reg_d, k as int).0,
                self.register.details@ == spec_exits(segs_d, reg_d, k as int).1,
                self.io.digital_inputs == inputs_b,
                same_output_shape(outs_b, self.io.digital_outputs@),
            decreases n_segs - k,
        {
            let ghost pre = *self;
            self.push_out(k);
            proof {
                let prev = spec_exits(segs_d, reg_d, k as int);
                assert(pre.segments@ == prev.0 && pre.register.details@ == prev.1);
                if pre.exits_line(k as int) {
                    assert(pre.segments@[k as int].state is ReadySend);
                    assert(occupied_at(pre.register.details@, seg_pos(pre.segments@, k as int)));
                    crate::shiftreg::lemma_count_occupied_move(
                        pre.register.details@,
                        seg_pos(pre.segments@, k as int),
                        seg_pos(pre.segments@, k as int) + 1,
                    );
                    assert(self.segments@ == spec_exit_step(prev.0, prev.1, k as int).0);
                    assert(self.register.details@ == spec_exit_step(prev.0, prev.1, k as int).1);
                } else {
                    assert(*self == pre);
                    assert(!exits_at(prev.0, prev.1, k as int));
                }
            }
            k = k + 1;
        }
        proof {
            let signals_full = spec_signals(old(self).segments@, events@);
            assert(sigs == signals_full);
            assert(segs_a == old(self).segments@);
            assert(reg_a == old(self).register.details@);
            let completed = spec_completions(segs_a, reg_a, signals_full);
            assert(segs_b == completed.0 && reg_b == completed.1);
            let readied = spec_readied(completed.0, completed.1);
            assert(segs_c == readied);
            let reqs_full = spec_requests(readied, readied.len() as int);
            assert(reqs == reqs_full);
            let accepted = spec_accepts(readied, reqs_full);
            assert(segs_d == accepted);
            assert(reg_d == completed.1);
            assert(n_segs as int == accepted.len());
            assert(self.segments@ == spec_exits(accepted, completed.1, accepted.len() as int).0);
            assert(self.register.details@ == spec_exits(
                accepted,
                completed.1,
                accepted.len() as int,
            ).1);
        }
    }

    /// Builds a line of `n_segments` chained segments: one input and one
    /// output node under `node` with `bank_bits` pins each, four input pins
    /// and six output pins allocated per segment in order, positions `0..n`,
    /// all segments stopped, the whole ledger empty. Fails with
    /// `NotEnoughPins`, allocating nothing visible, exactly when the bank
    /// cannot seat six output pins per segment.
    #[verifier::rlimit(60)]
    #[verifier::spinoff_prover]
    pub fn build(n_segments: usize, node: Address, bank_bits: usize) -> (r: Result<Line, IoError>)
        requires
            bank_bits <= 256,
        ensures
            match r {
                Ok(line) => {
                    &&& 4 * n_segments <= bank_bits
                    &&& 6 * n_segments <= bank_bits
                    &&& line.inv()
                    &&& line.segments@.len() == n_segments
                    &&& line.register.details@.len() == n_segments + 1
                    &&& forall|s: int| 0 <= s <= n_segments ==> line.register.details@[s] is None
                    &&& forall|i: int|
                        0 <= i < n_segments ==> #[trigger] line.segments@[i] == built_segment(
                            node,
                            n_segments as int,
                            i,
                        )
                    &&& line.io.digital_inputs@.len() == 1
                    &&& line.io.digital_outputs@.len() == 1
                    &&& line.io.digital_inputs@[0].address == node
                    &&& line.io.digital_outputs@[0].address == node
                    &&& line.io.digital_inputs@[0].memory@ == Seq::new(
                        bank_bits as nat,
                        |p: int| false,
                    )
                    &&& line.io.digital_outputs@[0].memory@ == Seq::new(
                        bank_bits as nat,
                        |p: int| false,
                    )
                },
                Err(IoError::NotEnoughPins) => 6 * n_segments > bank_bits,
                Err(IoError::NoSuchNode) => false,
                Err(IoError::NoSuchPin) => false,
            },
    {
        let mut io = IoDevices::new();
        let ok_in = io.add_input_node(node, bank_bits);
        let ok_out = io.add_output_node(node, bank_bits);
        proof {
            assert(ok_in);
            assert(ok_out);
        }
        let mut segments: Vec<TransportSegment> = Vec::new();
        let mut i: usize = 0;
        while i < n_segments
            invariant
                i <= n_segments,
                bank_bits <= 256,
                4 * (i as int) <= bank_bits,
                6 * (i as int) <= bank_bits,
                io.wf(),
                io.digital_inputs@.len() == 1,
                io.digital_outputs@.len() == 1,
                io.digital_inputs@[0].address == node,
                io.digital_outputs@[0].address == node,
                io.digital_inputs@[0].memory@ == Seq::new(bank_bits as nat, |p: int| false),
                io.digital_outputs@[0].memory@ == Seq::new(bank_bits as nat, |p: int| false),
                io.digital_inputs@[0].pins@ == Seq::new(
                    bank_bits as nat,
                    |p: int| p < 4 * (i as int),
                ),
                io.digital_outputs@[0].pins@ == Seq::new(
                    bank_bits as nat,
                    |p: int| p < 6 * (i as int),
                ),
                segments@.len() == i,
                forall|j: int|
                    0 <= j < i ==> #[trigger] segments@[j] == built_segment(
                        node,
                        n_segments as int,
                        j,
                    ),
            decreases n_segments - i,
        {
            proof {
                assert(has_node(io.digital_inputs@, node));
                assert(node_index(io.digital_inputs@, node) == 0);
                assert(has_node(io.digital_outputs@, node));
                assert(node_index(io.digital_outputs@, node) == 0);
                lemma_count_clear_prefix(bank_bits as int, 4 * (i as int));
                lemma_count_clear_prefix(bank_bits as int, 6 * (i as int));
            }
            let ghost io_pre = io;
            let in_pins = match io.allocate_input_pins(node, 4) {
                Ok(p) => p,
                Err(_) => {
                    return Err(IoError::NotEnoughPins);
                },
            };
            proof {
                lemma_allocates_prefix(
                    io_pre.digital_inputs@[0].pins@,
                    io.digital_inputs@[0].pins@,
                    in_pins@,
                    4,
                    4 * (i as int),
                    bank_bits as int,
                );
                assert(io.digital_inputs@[0].pins@ =~= Seq::new(
                    bank_bits as nat,
                    |p: int| p < 4 * (i as int) + 4,
                ));
            }
            let ghost io_mid = io;
            let out_pins = match io.allocate_output_pins(node, 6) {
                Ok(p) => p,
                Err(_) => {
                    return Err(IoError::NotEnoughPins);
                },
            };
            proof {
                lemma_allocates_prefix(
                    io_mid.digital_outputs@[0].pins@,
                    io.digital_outputs@[0].pins@,
                    out_pins@,
                    6,
                    6 * (i as int),
                    bank_bits as int,
                );
                assert(io.digital_outputs@[0].pins@ =~= Seq::new(
                    bank_bits as nat,
                    |p: int| p < 6 * (i as int) + 6,
                ));
                assert(4 * (i as int) + 4 <= bank_bits);
                assert(6 * (i as int) + 6 <= bank_bits);
                assert(i < 43);
            }
            let push_to: Option<SegmentId> = if i + 1 < n_segments {
                Some(i + 1)
            } else {
                None
            };
            let pull_from: Option<SegmentId> = if i > 0 {
                Some(i - 1)
            } else {
                None
            };
            let seg = TransportSegment {
                direction: Reversiable::Forward,
                state: TransportState::NotReady,
                motor_cmd: MovimotBits::Stop,
                push_to,
                pull_from,
                position: RegisterPosition(i as u16),
                sensors: FineReversableTbana {
                    back_pos: Wire { node, pin: in_pins.get(0) },
                    back_proximity: Wire { node, pin: in_pins.get(1) },
                    front_proximity: Wire { node, pin: in_pins.get(2) },
                    front_pos: Wire { node, pin: in_pins.get(3) },
                },
                motor_a: MotorWires {
                    node,
                    forward: out_pins.get(0),
                    reverse: out_pins.get(1),
                    rapid: out_pins.get(2),
                },
                motor_b: MotorWires {
                    node,
                    forward: out_pins.get(3),
                    reverse: out_pins.get(4),
                    rapid: out_pins.get(5),
                },
            };
            proof {
                assert(seg == built_segment(node, n_segments as int, i as int));
            }
            segments.push(seg);
            i = i + 1;
        }
        proof {
            if n_segments > 0 {
                assert(6 * (n_segments as int) <= bank_bits);
            }
            assert(n_segments < usize::MAX);
        }
        let register = Register::new_empty(n_segments + 1);
        let line = Line { io, register, segments };
        proof {
            assert(node_index(line.io.digital_inputs@, node) == 0);
            assert(node_index(line.io.digital_outputs@, node) == 0);
            assert forall|j: int| 0 <= j < line.n() implies #[trigger] seg_pos(line.segments@, j)
                == j by {
                assert(line.segments@[j] == built_segment(node, n_segments as int, j));
            }
            assert(positions_ok(line.segments@));
            assert forall|j: int, k: int|
                #![trigger line.segments@[j], line.segments@[k]]
                0 <= j < line.n() && 0 <= k < line.n() implies (line.segments@[j].push_to == Some(
                k as SegmentId,
            ) <==> line.segments@[k].pull_from == Some(j as SegmentId)) by {
                assert(line.segments@[j] == built_segment(node, n_segments as int, j));
                assert(line.segments@[k] == built_segment(node, n_segments as int, k));
            }
            assert(edges_ok(line.segments@));
            assert forall|j: int| 0 <= j < line.n() implies segment_wired(
                line.io,
                #[trigger] line.seg(j),
            ) by {
                assert(line.segments@[j] == built_segment(node, n_segments as int, j));
            }
            assert forall|j: int, k: int|
                #![trigger line.segments@[j], line.segments@[k]]
                0 <= j < line.n() && 0 <= k < line.n() && j != k implies {
                &&& motor_pins_disjoint(line.segments@[j].motor_a, line.segments@[k].motor_a)
                &&& motor_pins_disjoint(line.segments@[j].motor_a, line.segments@[k].motor_b)
                &&& motor_pins_disjoint(line.segments@[j].motor_b, line.segments@[k].motor_a)
                &&& motor_pins_disjoint(line.segments@[j].motor_b, line.segments@[k].motor_b)
            } by {
                assert(line.segments@[j] == built_segment(node, n_segments as int, j));
                assert(line.segments@[k] == built_segment(node, n_segments as int, k));
            }
            assert(motors_disjoint_ok(line.segments@));
            assert(line.wf_static());
            assert forall|j: int| 0 <= j < line.n() implies {
                let s = #[trigger] line.segments@[j];
                &&& (s.state is Sending ==> s.push_to is Some && occupied_at(
                    line.register.details@,
                    seg_pos(line.segments@, j),
                ))
                &&& (s.state is Reciving ==> s.pull_from is Some && !occupied_at(
                    line.register.details@,
                    seg_pos(line.segments@, j),
                ))
                &&& (s.state is ReadySend ==> occupied_at(
                    line.register.details@,
                    seg_pos(line.segments@, j),
                ))
                &&& (s.state is ReadyRecive ==> !occupied_at(
                    line.register.details@,
                    seg_pos(line.segments@, j),
                ))
            } by {
                assert(line.segments@[j] == built_segment(node, n_segments as int, j));
            }
            assert(line.protocol_inv());
            assert forall|j: int| 0 <= j < line.n() implies {
                let s = #[trigger] line.seg(j);
                motor_matches(line.io, s.motor_a, s.motor_cmd) && motor_matches(
                    line.io,
                    s.motor_b,
                    s.motor_cmd,
                )
            } by {
                assert(line.segments@[j] == built_segment(node, n_segments as int, j));
            }
            assert(line.motor_inv());
        }
        Ok(line)
    }

    /// Handles `SwitchDirection`: the whole line reverses in one logical
    /// unit. Every segment flips its direction and swaps `push_to` with
    /// `pull_from`; every hand-off in flight settles by moving its detail
    /// into the receiver's slot, after which the receiver sends it back the
    /// new way and the old sender receives; no detail is lost or duplicated.
    #[verifier::rlimit(100)]
    #[verifier::spinoff_prover]
    pub fn on_switch_tbana_direction(&mut self, msg: SwitchDirection)
        requires
            old(self).inv(),
        ensures
            final(self).inv(),
            final(self).io.digital_inputs == old(self).io.digital_inputs,
            final(self).segments@.len() == old(self).segments@.len(),
            final(self).register.details@.len() == old(self).register.details@.len(),
            count_occupied(final(self).register.details@) == count_occupied(
                old(self).register.details@,
            ),
            forall|j: int|
                0 <= j < old(self).n() ==> #[trigger] final(self).segments@[j]
                    == switched_segment(old(self).segments@[j]),
            forall|j: int|
                0 <= j < old(self).n() && (#[trigger] old(self).segments@[j]).state is Sending
                    ==> final(self).register.details@[seg_pos(old(self).segments@, j)] is None && (
                old(self).segments@[j].push_to matches Some(t) && final(self).register.details@[seg_pos(old(self).segments@, t as int)] == old(self).register.details@[seg_pos(old(self).segments@, j)]),
            forall|s: int|
                0 <= s < old(self).register.details@.len() && !switch_moves_slot(
                    old(self).segments@,
                    old(self).n(),
                    s,
                ) ==> #[trigger] final(self).register.details@[s] == old(self).register.details@[s],
    {
        let _ = msg;
        let n = self.segments.len();
        proof {
            assert forall|j: int| 0 <= j < n implies segment_wired(
                self.io,
                #[trigger] old(self).segments@[j],
            ) by {
                assert(old(self).seg(j) == old(self).segments@[j]);
                assert(segment_wired(old(self).io, old(self).seg(j)));
            }
            assert forall|j: int| 0 <= j < n implies {
                let s = #[trigger] self.segments@[j];
                motor_matches(self.io, s.motor_a, s.motor_cmd) && motor_matches(
                    self.io,
                    s.motor_b,
                    s.motor_cmd,
                )
            } by {
                assert(old(self).seg(j) == self.segments@[j]);
                assert(motor_matches(old(self).io, old(self).seg(j).motor_a, old(self).seg(j).motor_cmd)
                    && motor_matches(old(self).io, old(self).seg(j).motor_b, old(self).seg(j).motor_cmd));
            }
        }
        let mut k: usize = 0;
        while k < n
            invariant
                k <= n,
                n == old(self).segments@.len(),
                old(self).inv(),
                self.register == old(self).register,
                self.io.wf(),
                self.io.digital_inputs == old(self).io.digital_inputs,
                self.segments@.len() == n,
                forall|j: int|
                    0 <= j < k ==> #[trigger] self.segments@[j] == switched_segment(
                        old(self).segments@[j],
                    ),
                forall|j: int|
                    k <= j < n ==> #[trigger] self.segments@[j] == old(self).segments@[j],
                forall|j: int|
                    0 <= j < n ==> segment_wired(self.io, #[trigger] old(self).segments@[j]),
                forall|j: int|
                    0 <= j < n ==> {
                        let s = #[trigger] self.segments@[j];
                        motor_matches(self.io, s.motor_a, s.motor_cmd) && motor_matches(
                            self.io,
                            s.motor_b,
                            s.motor_cmd,
                        )
                    },
            decreases n - k,
        {
            let seg = self.segments[k];
            let flip = match seg.direction {
                Reversiable::Forward => Reversiable::Reverse,
                Reversiable::Reverse => Reversiable::Forward,
            };
            let cmd = MovimotBits::slow(flip);
            let running = match seg.state {
                TransportState::Sending => true,
                TransportState::Reciving => true,
                _ => false,
            };
            proof {
                assert(seg == old(self).segments@[k as int]);
            }
            if running {
                let ghost io0 = self.io;
                write_motor(&mut self.io, seg.motor_a, cmd);
                let ghost io1 = self.io;
                proof {
                    assert forall|j: int| 0 <= j < io0.digital_outputs@.len() implies (
                    #[trigger] io1.digital_outputs@[j]).address == io0.digital_outputs@[j].address
                        && io1.digital_outputs@[j].memory@.len()
                        == io0.digital_outputs@[j].memory@.len() by {
                        if j != node_index(io0.digital_outputs@, seg.motor_a.node) {
                            assert(io1.digital_outputs@[j] == io0.digital_outputs@[j]);
                        }
                    }
                    assert forall|j: int| 0 <= j < n implies segment_wired(
                        io1,
                        #[trigger] old(self).segments@[j],
                    ) by {
                        lemma_segment_wired_stable(io0, io1, old(self).segments@[j]);
                    }
                }
                write_motor(&mut self.io, seg.motor_b, cmd);
                let ghost io2 = self.io;
                proof {
                    assert forall|j: int| 0 <= j < io1.digital_outputs@.len() implies (
                    #[trigger] io2.digital_outputs@[j]).address == io1.digital_outputs@[j].address
                        && io2.digital_outputs@[j].memory@.len()
                        == io1.digital_outputs@[j].memory@.len() by {
                        if j != node_index(io1.digital_outputs@, seg.motor_b.node) {
                            assert(io2.digital_outputs@[j] == io1.digital_outputs@[j]);
                        }
                    }
                    assert forall|j: int| 0 <= j < n implies segment_wired(
                        io2,
                        #[trigger] old(self).segments@[j],
                    ) by {
                        lemma_segment_wired_stable(io1, io2, old(self).segments@[j]);
                    }
                    assert forall|j: int| 0 <= j < n && j != k implies {
                        let s = #[trigger] self.segments@[j];
                        motor_matches(io2, s.motor_a, s.motor_cmd) && motor_matches(
                            io2,
                            s.motor_b,
                            s.motor_cmd,
                        )
                    } by {
                        let s = self.segments@[j];
                        assert(s.motor_a == old(self).segments@[j].motor_a && s.motor_b == old(self).segments@[j].motor_b);
                        assert(motor_pins_disjoint(
                            old(self).segments@[k as int].motor_a,
                            old(self).segments@[j].motor_a,
                        ) && motor_pins_disjoint(
                            old(self).segments@[k as int].motor_a,
                            old(self).segments@[j].motor_b,
                        ) && motor_pins_disjoint(
                            old(self).segments@[k as int].motor_b,
                            old(self).segments@[j].motor_a,
                        ) && motor_pins_disjoint(
                            old(self).segments@[k as int].motor_b,
                            old(self).segments@[j].motor_b,
                        ));
                        lemma_motor_matches_preserved(io0, io1, seg.motor_a, s.motor_a, s.motor_cmd);
                        lemma_motor_matches_preserved(io0, io1, seg.motor_a, s.motor_b, s.motor_cmd);
                        lemma_motor_matches_preserved(io1, io2, seg.motor_b, s.motor_a, s.motor_cmd);
                        lemma_motor_matches_preserved(io1, io2, seg.motor_b, s.motor_b, s.motor_cmd);
                    }
                    lemma_motor_matches_preserved(io1, io2, seg.motor_b, seg.motor_a, cmd);
                }
            }
            let mut s2 = seg;
            s2.direction = flip;
            s2.push_to = seg.pull_from;
            s2.pull_from = seg.push_to;
            s2.state = match seg.state {
                TransportState::Sending => TransportState::Reciving,
                TransportState::Reciving => TransportState::Sending,
                TransportState::ReadySend => TransportState::ReadySend,
                TransportState::ReadyRecive => TransportState::ReadyRecive,
                TransportState::NotReady => TransportState::NotReady,
            };
            if running {
                s2.motor_cmd = cmd;
            }
            self.segments.set(k, s2);
            proof {
                assert(s2 == switched_segment(old(self).segments@[k as int]));
            }
            k = k + 1;
        }
        let ghost mid_io = self.io;
        let ghost mid_segs = self.segments@;
        let mut k: usize = 0;
        while k < n
            invariant
                k <= n,
                n == old(self).segments@.len(),
                old(self).inv(),
                self.io == mid_io,
                self.segments@ == mid_segs,
                self.io.wf(),
                self.io.digital_inputs == old(self).io.digital_inputs,
                self.segments@.len() == n,
                forall|j: int|
                    0 <= j < n ==> #[trigger] self.segments@[j] == switched_segment(
                        old(self).segments@[j],
                    ),
                forall|j: int|
                    0 <= j < n ==> segment_wired(self.io, #[trigger] old(self).segments@[j]),
                forall|j: int|
                    0 <= j < n ==> {
                        let s = #[trigger] self.segments@[j];
                        motor_matches(self.io, s.motor_a, s.motor_cmd) && motor_matches(
                            self.io,
                            s.motor_b,
                            s.motor_cmd,
                        )
                    },
                self.register.wf(),
                self.register.details@.len() == old(self).register.details@.len(),
                count_occupied(self.register.details@) == count_occupied(
                    old(self).register.details@,
                ),
                forall|j: int|
                    0 <= j < k && (#[trigger] old(self).segments@[j]).state is Sending
                        ==> self.register.details@[seg_pos(old(self).segments@, j)] is None && (
                    old(self).segments@[j].push_to matches Some(t)
                        && self.register.details@[seg_pos(old(self).segments@, t as int)] == old(self).register.details@[seg_pos(old(self).segments@, j)]),
                forall|s: int|
                    0 <= s < old(self).register.details@.len() && !switch_moves_slot(
                        old(self).segments@,
                        k as int,
                        s,
                    ) ==> #[trigger] self.register.details@[s] == old(self).register.details@[s],
            decreases n - k,
        {
            let seg = self.segments[k];
            let old_sending = match seg.state {
                TransportState::Reciving => true,
                _ => false,
            };
            proof {
                assert(self.segments@[k as int] == switched_segment(old(self).segments@[k as int]));
            }
            if old_sending {
                proof {
                    assert(old(self).segments@[k as int].state is Sending);
                    assert(old(self).segments@[k as int].push_to is Some);
                }
                let t = match seg.pull_from {
                    Some(t) => t,
                    None => {
                        proof {
                            assert(false);
                        }
                        k
                    },
                };
                proof {
                    assert(old(self).segments@[k as int].push_to == Some(t));
                    assert(0 <= t < n && t != k);
                    assert(old(self).segments@[t as int].state is Reciving);
                    // this pair's two slots are still untouched
                    let pk = seg_pos(old(self).segments@, k as int);
                    let pt = seg_pos(old(self).segments@, t as int);
                    assert(pk != pt);
                    assert(!switch_moves_slot(old(self).segments@, k as int, pk)) by {
                        if switch_moves_slot(old(self).segments@, k as int, pk) {
                            let j = choose|j: int|
                                0 <= j < k && (#[trigger] old(self).segments@[j]).state is Sending
                                    && (seg_pos(old(self).segments@, j) == pk || (old(self).segments@[j].push_to is Some && seg_pos(
                                    old(self).segments@,
                                    old(self).segments@[j].push_to.unwrap() as int,
                                ) == pk));
                            if seg_pos(old(self).segments@, j) == pk {
                                assert(j == k as int);
                                assert(false);
                            } else {
                                let tj = old(self).segments@[j].push_to.unwrap() as int;
                                assert(old(self).segments@[tj].state is Reciving);
                                assert(tj == k as int);
                                assert(false);
                            }
                        }
                    }
                    assert(!switch_moves_slot(old(self).segments@, k as int, pt)) by {
                        if switch_moves_slot(old(self).segments@, k as int, pt) {
                            let j = choose|j: int|
                                0 <= j < k && (#[trigger] old(self).segments@[j]).state is Sending
                                    && (seg_pos(old(self).segments@, j) == pt || (old(self).segments@[j].push_to is Some && seg_pos(
                                    old(self).segments@,
                                    old(self).segments@[j].push_to.unwrap() as int,
                                ) == pt));
                            if seg_pos(old(self).segments@, j) == pt {
                                assert(j == t as int);
                                assert(old(self).segments@[t as int].state is Sending);
                                assert(false);
                            } else {
                                let tj = old(self).segments@[j].push_to.unwrap() as int;
                                assert(tj == t as int);
                                assert(old(self).segments@[j].push_to == Some(t));
                                assert(old(self).segments@[t as int].pull_from == Some(
                                    j as SegmentId,
                                ));
                                assert(old(self).segments@[t as int].pull_from == Some(
                                    k as SegmentId,
                                ));
                                assert(false);
                            }
                        }
                    }
                    assert(self.register.details@[pk] == old(self).register.details@[pk]);
                    assert(self.register.details@[pt] == old(self).register.details@[pt]);
                    assert(occupied_at(old(self).register.details@, pk));
                    assert(!occupied_at(old(self).register.details@, pt));
                }
                let ghost reg_pre = self.register.details@;
                let from_pos = self.segments[k].position.as_usize();
                let to_pos = self.segments[t].position.as_usize();
                proof {
                    assert(from_pos as int == seg_pos(old(self).segments@, k as int));
                    assert(to_pos as int == seg_pos(old(self).segments@, t as int));
                }
                let moved = self.register.shift_over(from_pos, to_pos);
                proof {
                    assert(moved is Ok);
                    crate::shiftreg::lemma_count_occupied_move(
                        reg_pre,
                        from_pos as int,
                        to_pos as int,
                    );
                    // previously settled pairs keep their slots
                    assert forall|s: int|
                        0 <= s < old(self).register.details@.len() && !switch_moves_slot(
                            old(self).segments@,
                            k as int + 1,
                            s,
                        ) implies #[trigger] self.register.details@[s] == old(self).register.details@[s] by {
                        assert(!switch_moves_slot(old(self).segments@, k as int, s)) by {
                            if switch_moves_slot(old(self).segments@, k as int, s) {
                                let j = choose|j: int|
                                    0 <= j < k && (
                                    #[trigger] old(self).segments@[j]).state is Sending && (
                                    seg_pos(old(self).segments@, j) == s || (old(self).segments@[j].push_to is Some && seg_pos(
                                        old(self).segments@,
                                        old(self).segments@[j].push_to.unwrap() as int,
                                    ) == s));
                                assert(switch_moves_slot(old(self).segments@, k as int + 1, s));
                                assert(false);
                            }
                        }
                        assert(s != from_pos as int && s != to_pos as int) by {
                            assert(old(self).segments@[k as int].state is Sending);
                            if s == from_pos as int {
                                assert(switch_moves_slot(old(self).segments@, k as int + 1, s));
                            }
                            if s == to_pos as int {
                                assert(old(self).segments@[k as int].push_to.unwrap() == t);
                                assert(switch_moves_slot(old(self).segments@, k as int + 1, s));
                            }
                        }
                    }
                }
            } else {
                proof {
                    assert(!(old(self).segments@[k as int].state is Sending));
                    assert forall|s: int|
                        0 <= s < old(self).register.details@.len() && !switch_moves_slot(
                            old(self).segments@,
                            k as int + 1,
                            s,
                        ) implies #[trigger] self.register.details@[s] == old(self).register.details@[s] by {
                        assert(!switch_moves_slot(old(self).segments@, k as int, s)) by {
                            if switch_moves_slot(old(self).segments@, k as int, s) {
                                let j = choose|j: int|
                                    0 <= j < k && (
                                    #[trigger] old(self).segments@[j]).state is Sending && (
                                    seg_pos(old(self).segments@, j) == s || (old(self).segments@[j].push_to is Some && seg_pos(
                                        old(self).segments@,
                                        old(self).segments@[j].push_to.unwrap() as int,
                                    ) == s));
                                assert(switch_moves_slot(old(self).segments@, k as int + 1, s));
                                assert(false);
                            }
                        }
                    }
                }
            }
            k = k + 1;
        }
        proof {
            lemma_inv_after_switch(
                old(self).segments@,
                self.segments@,
                old(self).register.details@,
                self.register.details@,
            );
            assert forall|j: int| 0 <= j < self.n() implies segment_wired(
                self.io,
                #[trigger] self.seg(j),
            ) by {
                assert(segment_wired(self.io, old(self).segments@[j]));
                assert(self.segments@[j] == switched_segment(old(self).segments@[j]));
            }
            assert forall|i: int, j: int|
                #![trigger self.segments@[i], self.segments@[j]]
                0 <= i < self.n() && 0 <= j < self.n() && i != j implies {
                &&& motor_pins_disjoint(self.segments@[i].motor_a, self.segments@[j].motor_a)
                &&& motor_pins_disjoint(self.segments@[i].motor_a, self.segments@[j].motor_b)
                &&& motor_pins_disjoint(self.segments@[i].motor_b, self.segments@[j].motor_a)
                &&& motor_pins_disjoint(self.segments@[i].motor_b, self.segments@[j].motor_b)
            } by {
                assert(self.segments@[i] == switched_segment(old(self).segments@[i]));
                assert(self.segments@[j] == switched_segment(old(self).segments@[j]));
                assert(motor_pins_disjoint(
                    old(self).segments@[i].motor_a,
                    old(self).segments@[j].motor_a,
                ) && motor_pins_disjoint(
                    old(self).segments@[i].motor_a,
                    old(self).segments@[j].motor_b,
                ) && motor_pins_disjoint(
                    old(self).segments@[i].motor_b,
                    old(self).segments@[j].motor_a,
                ) && motor_pins_disjoint(
                    old(self).segments@[i].motor_b,
                    old(self).segments@[j].motor_b,
                ));
            }
            assert(self.wf_static());
            assert(self.motor_inv());
        }
    }

    /// Whether a detail may be seeded into `slot` from outside: the slot
    /// exists, is empty, and no segment owning it is mid-protocol.
    pub open spec fn can_seed(self, slot: int) -> bool {
        &&& 0 <= slot < self.register.details@.len()
        &&& !self.occupied(slot)
        &&& forall|j: int|
            0 <= j < self.n() && #[trigger] self.pos(j) == slot ==> self.seg(j).state is NotReady
    }

    /// Seeds a detail into an empty slot whose owning segment (if any) is
    /// idle — the line's entry point for new workpieces. Returns whether the
    /// seed was placed; nothing changes otherwise.
    pub fn seed_detail(&mut self, slot: usize, detail: DetailState) -> (r: bool)
        requires
            old(self).inv(),
            detail.wf(),
        ensures
            final(self).inv(),
            final(self).io == old(self).io,
            final(self).segments == old(self).segments,
            r == old(self).can_seed(slot as int),
            r ==> final(self).register.details@ == old(self).register.details@.update(
                slot as int,
                Some(detail),
            ),
            !r ==> final(self).register.details@ == old(self).register.details@,
    {
        if slot >= self.register.len() {
            return false;
        }
        if self.register.get(slot).is_some() {
            return false;
        }
        let n = self.segments.len();
        let mut j: usize = 0;
        while j < n
            invariant
                j <= n,
                n == self.segments@.len(),
                *self == *old(self),
                old(self).inv(),
                slot < self.register.details@.len(),
                !self.occupied(slot as int),
                forall|i: int|
                    0 <= i < j && #[trigger] self.pos(i) == slot ==> self.seg(i).state is NotReady,
            decreases n - j,
        {
            let seg = self.segments[j];
            if seg.position.as_usize() == slot {
                let idle = match seg.state {
                    TransportState::NotReady => true,
                    _ => false,
                };
                if !idle {
                    proof {
                        assert(old(self).pos(j as int) == slot as int);
                        assert(!(old(self).seg(j as int).state is NotReady));
                        assert(!old(self).can_seed(slot as int));
                    }
                    return false;
                }
            }
            j = j + 1;
        }
        proof {
            assert forall|i: int|
                0 <= i < old(self).n() && #[trigger] old(self).pos(i) == slot as int implies old(
                self,
            ).seg(i).state is NotReady by {
                assert(self.pos(i) == old(self).pos(i));
                assert(self.seg(i) == old(self).seg(i));
                assert(self.seg(i).state is NotReady);
            }
            assert(old(self).can_seed(slot as int));
        }
        let placed = self.register.put_detail(slot, detail);
        proof {
            assert(placed is Ok);
            assert(self.io == old(self).io);
            assert(self.segments@ == old(self).segments@);
            assert forall|i: int| 0 <= i < self.n() implies segment_wired(
                self.io,
                #[trigger] self.seg(i),
            ) by {
                assert(self.seg(i) == old(self).seg(i));
                assert(segment_wired(old(self).io, old(self).seg(i)));
            }
            assert(self.wf_static());
            assert forall|i: int| 0 <= i < self.n() implies {
                let s = #[trigger] self.seg(i);
                motor_matches(self.io, s.motor_a, s.motor_cmd) && motor_matches(
                    self.io,
                    s.motor_b,
                    s.motor_cmd,
                )
            } by {
                assert(self.seg(i) == old(self).seg(i));
                assert(motor_matches(old(self).io, old(self).seg(i).motor_a, old(self).seg(i).motor_cmd)
                    && motor_matches(old(self).io, old(self).seg(i).motor_b, old(self).seg(i).motor_cmd));
            }
            assert(self.motor_inv());
            assert forall|i: int| 0 <= i < self.n() implies {
                let s = #[trigger] self.segments@[i];
                &&& (s.state is Sending ==> s.push_to is Some && occupied_at(
                    self.register.details@,
                    seg_pos(self.segments@, i),
                ))
                &&& (s.state is Reciving ==> s.pull_from is Some && !occupied_at(
                    self.register.details@,
                    seg_pos(self.segments@, i),
                ))
                &&& (s.state is ReadySend ==> occupied_at(
                    self.register.details@,
                    seg_pos(self.segments@, i),
                ))
                &&& (s.state is ReadyRecive ==> !occupied_at(
                    self.register.details@,
                    seg_pos(self.segments@, i),
                ))
            } by {
                assert(old(self).segments@[i] == old(self).seg(i));
                if seg_pos(self.segments@, i) != slot as int {
                    assert(self.register.details@[seg_pos(self.segments@, i)] == old(
                        self,
                    ).register.details@[seg_pos(self.segments@, i)]);
                } else {
                    assert(old(self).pos(i) == slot as int);
                    assert(old(self).seg(i).state is NotReady);
                    assert(self.seg(i) == old(self).seg(i));
                }
            }
            assert(self.protocol_inv());
        }
        true
    }

    /// Removes and returns the content of the absorbing slot at the line's
    /// end — the exit of the line. The slot belongs to no segment, so the
    /// protocol is untouched.
    pub fn pop_detail(&mut self) -> (r: Option<DetailState>)
        requires
            old(self).inv(),
        ensures
            final(self).inv(),
            final(self).io == old(self).io,
            final(self).segments == old(self).segments,
            final(self).register.details@.len() == old(self).register.details@.len(),
            r == old(self).register.details@.last(),
            final(self).register.details@ == old(self).register.details@.update(
                old(self).register.details@.len() - 1,
                None,
            ),
    {
        proof {
            assert(old(self).register.details@.len() > 0);
        }
        let got = self.register.pop_detail();
        proof {
            assert(self.io == old(self).io);
            assert(self.segments@ == old(self).segments@);
            assert forall|i: int| 0 <= i < self.n() implies segment_wired(
                self.io,
                #[trigger] self.seg(i),
            ) by {
                assert(self.seg(i) == old(self).seg(i));
                assert(segment_wired(old(self).io, old(self).seg(i)));
            }
            assert(self.wf_static());
            assert forall|i: int| 0 <= i < self.n() implies {
                let s = #[trigger] self.seg(i);
                motor_matches(self.io, s.motor_a, s.motor_cmd) && motor_matches(
                    self.io,
                    s.motor_b,
                    s.motor_cmd,
                )
            } by {
                assert(self.seg(i) == old(self).seg(i));
                assert(motor_matches(old(self).io, old(self).seg(i).motor_a, old(self).seg(i).motor_cmd)
                    && motor_matches(old(self).io, old(self).seg(i).motor_b, old(self).seg(i).motor_cmd));
            }
            assert(self.motor_inv());
            assert forall|i: int| 0 <= i < self.n() implies {
                let s = #[trigger] self.segments@[i];
                &&& (s.state is Sending ==> s.push_to is Some && occupied_at(
                    self.register.details@,
                    seg_pos(self.segments@, i),
                ))
                &&& (s.state is Reciving ==> s.pull_from is Some && !occupied_at(
                    self.register.details@,
                    seg_pos(self.segments@, i),
                ))
                &&& (s.state is ReadySend ==> occupied_at(
                    self.register.details@,
                    seg_pos(self.segments@, i),
                ))
                &&& (s.state is ReadyRecive ==> !occupied_at(
                    self.register.details@,
                    seg_pos(self.segments@, i),
                ))
            } by {
                assert(old(self).segments@[i] == old(self).seg(i));
                assert(seg_pos(self.segments@, i) < self.n());
                assert(self.register.details@[seg_pos(self.segments@, i)] == old(
                    self,
                ).register.details@[seg_pos(self.segments@, i)]);
            }
            assert(self.protocol_inv());
        }
        got
    }
}

/// After a whole-line direction switch — every edge swapped, every
/// mid-flight pair's detail moved to its receiver, sender and receiver
/// exchanged — the structural and pairing invariants hold again.
proof fn lemma_inv_after_switch(
    segs0: Seq<TransportSegment>,
    segs1: Seq<TransportSegment>,
    reg0: Seq<Option<crate::shiftreg::DetailState>>,
    reg1: Seq<Option<crate::shiftreg::DetailState>>,
)
    requires
        protocol_ok(segs0, reg0),
        edges_ok(segs0),
        positions_ok(segs0),
        segs0.len() <= usize::MAX,
        reg0.len() >= segs0.len(),
        reg1.len() == reg0.len(),
        segs1.len() == segs0.len(),
        forall|j: int|
            0 <= j < segs0.len() ==> #[trigger] segs1[j] == switched_segment(segs0[j]),
        forall|j: int|
            0 <= j < segs0.len() && (#[trigger] segs0[j]).state is Sending ==> reg1[seg_pos(
                segs0,
                j,
            )] is None && (segs0[j].push_to matches Some(t) && reg1[seg_pos(segs0, t as int)]
                == reg0[seg_pos(segs0, j)]),
        forall|s: int|
            0 <= s < reg0.len() && !switch_moves_slot(segs0, segs0.len() as int, s)
                ==> #[trigger] reg1[s] == reg0[s],
    ensures
        protocol_ok(segs1, reg1),
        edges_ok(segs1),
        positions_ok(segs1),
{
    let n = segs0.len() as int;
    assert forall|j: int| 0 <= j < n implies #[trigger] seg_pos(segs1, j) == seg_pos(
        segs0,
        j,
    ) by {
        assert(segs1[j] == switched_segment(segs0[j]));
    }
    assert(positions_ok(segs1));
    assert forall|i: int, j: int|
        #![trigger segs1[i], segs1[j]]
        0 <= i < n && 0 <= j < n implies (segs1[i].push_to == Some(j as SegmentId) <==> segs1[j].pull_from
        == Some(i as SegmentId)) by {
        assert(segs1[i] == switched_segment(segs0[i]));
        assert(segs1[j] == switched_segment(segs0[j]));
        assert(segs0[j].push_to == Some(i as SegmentId) <==> segs0[i].pull_from == Some(
            j as SegmentId,
        ));
    }
    assert forall|i: int, j: int|
        #![trigger segs1[i], segs1[j]]
        0 <= i < n && 0 <= j < n && segs1[i].push_to == Some(j as SegmentId) implies (seg_pos(
        segs1,
        j,
    ) == seg_pos(segs1, i) + 1 || seg_pos(segs1, j) == seg_pos(segs1, i) - 1) by {
        assert(segs1[i] == switched_segment(segs0[i]));
        assert(segs1[j] == switched_segment(segs0[j]));
        assert(segs0[i].pull_from == Some(j as SegmentId));
        assert(segs0[j].push_to == Some(i as SegmentId));
    }
    assert(edges_ok(segs1));
    assert forall|j: int| 0 <= j < n implies {
        let s = #[trigger] segs1[j];
        &&& (s.state is Sending ==> s.push_to is Some && occupied_at(reg1, seg_pos(segs1, j)))
        &&& (s.state is Reciving ==> s.pull_from is Some && !occupied_at(reg1, seg_pos(segs1, j)))
        &&& (s.state is ReadySend ==> occupied_at(reg1, seg_pos(segs1, j)))
        &&& (s.state is ReadyRecive ==> !occupied_at(reg1, seg_pos(segs1, j)))
    } by {
        assert(segs1[j] == switched_segment(segs0[j]));
        let so = segs0[j];
        if so.state is Sending {
            // now receiving; its slot was emptied by the move
            assert(reg1[seg_pos(segs0, j)] is None);
        } else if so.state is Reciving {
            // now sending; its giver's detail moved into its slot
            match so.pull_from {
                Some(g) => {
                    let gi = g as int;
                    assert(segs0[gi].push_to == Some(j as SegmentId));
                    assert(segs0[gi].state is Sending);
                    assert(occupied_at(reg0, seg_pos(segs0, gi)));
                    assert(reg1[seg_pos(segs0, j)] == reg0[seg_pos(segs0, gi)]);
                },
                None => {
                    assert(false);
                },
            }
        } else {
            // its slot is no move's source or target
            assert(!switch_moves_slot(segs0, n, seg_pos(segs0, j))) by {
                if switch_moves_slot(segs0, n, seg_pos(segs0, j)) {
                    let k = choose|k: int|
                        0 <= k < n && (#[trigger] segs0[k]).state is Sending && (seg_pos(segs0, k)
                            == seg_pos(segs0, j) || (segs0[k].push_to is Some && seg_pos(
                            segs0,
                            segs0[k].push_to.unwrap() as int,
                        ) == seg_pos(segs0, j)));
                    if seg_pos(segs0, k) == seg_pos(segs0, j) {
                        assert(k == j);
                        assert(false);
                    } else {
                        let t = segs0[k].push_to.unwrap() as int;
                        assert(segs0[t].state is Reciving);
                        assert(0 <= t < n);
                        assert(seg_pos(segs0, t) == seg_pos(segs0, j));
                        assert(t == j);
                        assert(false);
                    }
                }
            }
            assert(reg1[seg_pos(segs0, j)] == reg0[seg_pos(segs0, j)]);
        }
    }
    assert forall|i: int, t: int|
        0 <= i < n && 0 <= t < n && (#[trigger] segs1[i]).state is Sending && segs1[i].push_to
            == Some(t as SegmentId) implies (#[trigger] segs1[t]).state is Reciving by {
        assert(segs1[i] == switched_segment(segs0[i]));
        assert(segs1[t] == switched_segment(segs0[t]));
        assert(segs0[i].state is Reciving);
        assert(segs0[i].pull_from == Some(t as SegmentId));
        assert(segs0[t].push_to == Some(i as SegmentId));
        assert(segs0[t].state is Sending);
    }
    assert forall|i: int, g: int|
        0 <= i < n && 0 <= g < n && (#[trigger] segs1[i]).state is Reciving && segs1[i].pull_from
            == Some(g as SegmentId) implies (#[trigger] segs1[g]).state is Sending by {
        assert(segs1[i] == switched_segment(segs0[i]));
        assert(segs1[g] == switched_segment(segs0[g]));
        assert(segs0[i].state is Sending);
        assert(segs0[i].push_to == Some(g as SegmentId));
        assert(segs0[g].state is Reciving);
    }
}

/// Stopping a segment together with its mid-flight partner (when it has one)
/// leaves the handoff pairing intact: no third segment's send or receive
/// loses its counterpart.
proof fn lemma_protocol_after_stop(
    segs0: Seq<TransportSegment>,
    segs1: Seq<TransportSegment>,
    reg: Seq<Option<crate::shiftreg::DetailState>>,
    e: int,
    partner: Option<int>,
)
    requires
        protocol_ok(segs0, reg),
        edges_ok(segs0),
        segs0.len() <= usize::MAX,
        0 <= e < segs0.len(),
        partner == (if segs0[e].state is Sending {
            match segs0[e].push_to {
                Some(t) => Some(t as int),
                None => None,
            }
        } else if segs0[e].state is Reciving {
            match segs0[e].pull_from {
                Some(g) => Some(g as int),
                None => None,
            }
        } else {
            None
        }),
        segs1.len() == segs0.len(),
        forall|j: int|
            0 <= j < segs0.len() ==> (#[trigger] segs1[j]).position == segs0[j].position
                && segs1[j].push_to == segs0[j].push_to && segs1[j].pull_from
                == segs0[j].pull_from,
        forall|j: int|
            0 <= j < segs0.len() && j != e && partner != Some(j) ==> (#[trigger] segs1[j]).state
                == segs0[j].state,
        segs1[e].state is NotReady,
        (partner matches Some(p) ==> 0 <= p < segs0.len() && segs1[p].state is NotReady),
    ensures
        protocol_ok(segs1, reg),
{
    assert forall|j: int| 0 <= j < segs1.len() implies {
        let s = #[trigger] segs1[j];
        &&& (s.state is Sending ==> s.push_to is Some && occupied_at(reg, seg_pos(segs1, j)))
        &&& (s.state is Reciving ==> s.pull_from is Some && !occupied_at(reg, seg_pos(segs1, j)))
        &&& (s.state is ReadySend ==> occupied_at(reg, seg_pos(segs1, j)))
        &&& (s.state is ReadyRecive ==> !occupied_at(reg, seg_pos(segs1, j)))
    } by {
        if j != e && partner != Some(j) {
            assert(segs1[j].state == segs0[j].state);
            assert(seg_pos(segs1, j) == seg_pos(segs0, j));
        }
    }
    assert forall|i: int, t: int|
        0 <= i < segs1.len() && 0 <= t < segs1.len() && (#[trigger] segs1[i]).state is Sending
            && segs1[i].push_to == Some(t as SegmentId) implies (
    #[trigger] segs1[t]).state is Reciving by {
        assert(i != e && partner != Some(i));
        assert(segs0[i].state is Sending && segs0[i].push_to == Some(t as SegmentId));
        assert(segs0[t].pull_from == Some(i as SegmentId));
        assert(segs0[t].state is Reciving);
        if t == e {
            assert(partner == Some(i));
            assert(false);
        }
        match partner {
            Some(p) => {
                if t == p {
                    if segs0[e].state is Sending {
                        assert(segs0[e].push_to == Some(p as SegmentId));
                        assert(segs0[p].pull_from == Some(e as SegmentId));
                        assert(false);
                    } else {
                        assert(segs0[e].state is Reciving);
                        assert(segs0[e].pull_from == Some(p as SegmentId));
                        assert(segs0[p].state is Sending);
                        assert(false);
                    }
                }
            },
            None => {},
        }
        assert(segs1[t].state == segs0[t].state);
    }
    assert forall|i: int, g: int|
        0 <= i < segs1.len() && 0 <= g < segs1.len() && (#[trigger] segs1[i]).state is Reciving
            && segs1[i].pull_from == Some(g as SegmentId) implies (
    #[trigger] segs1[g]).state is Sending by {
        assert(i != e && partner != Some(i));
        assert(segs0[i].state is Reciving && segs0[i].pull_from == Some(g as SegmentId));
        assert(segs0[g].push_to == Some(i as SegmentId));
        assert(segs0[g].state is Sending);
        if g == e {
            assert(partner == Some(i));
            assert(false);
        }
        match partner {
            Some(p) => {
                if g == p {
                    if segs0[e].state is Sending {
                        assert(segs0[e].push_to == Some(p as SegmentId));
                        assert(segs0[p].state is Reciving);
                        assert(false);
                    } else {
                        assert(segs0[e].state is Reciving);
                        assert(segs0[e].pull_from == Some(p as SegmentId));
                        assert(segs0[p].push_to == Some(e as SegmentId));
                        assert(false);
                    }
                }
            },
            None => {},
        }
        assert(segs1[g].state == segs0[g].state);
    }
}


/// Accepting a push request pairs the announcing sender with its confirming
/// receiver and breaks no third segment's pairing.
proof fn lemma_protocol_after_accept(
    segs0: Seq<TransportSegment>,
    segs1: Seq<TransportSegment>,
    reg: Seq<Option<crate::shiftreg::DetailState>>,
    from: int,
    to: int,
)
    requires
        protocol_ok(segs0, reg),
        edges_ok(segs0),
        segs0.len() <= usize::MAX,
        0 <= from < segs0.len(),
        0 <= to < segs0.len(),
        from != to,
        segs0[from].state is ReadySend,
        segs0[to].state is ReadyRecive,
        segs0[from].push_to == Some(to as SegmentId),
        segs1.len() == segs0.len(),
        forall|j: int|
            0 <= j < segs0.len() ==> (#[trigger] segs1[j]).position == segs0[j].position
                && segs1[j].push_to == segs0[j].push_to && segs1[j].pull_from
                == segs0[j].pull_from,
        forall|j: int|
            0 <= j < segs0.len() && j != from && j != to ==> (#[trigger] segs1[j]).state
                == segs0[j].state,
        segs1[from].state is Sending,
        segs1[to].state is Reciving,
    ensures
        protocol_ok(segs1, reg),
{
    assert(segs0[to].pull_from == Some(from as SegmentId));
    assert forall|j: int| 0 <= j < segs1.len() implies {
        let s = #[trigger] segs1[j];
        &&& (s.state is Sending ==> s.push_to is Some && occupied_at(reg, seg_pos(segs1, j)))
        &&& (s.state is Reciving ==> s.pull_from is Some && !occupied_at(reg, seg_pos(segs1, j)))
        &&& (s.state is ReadySend ==> occupied_at(reg, seg_pos(segs1, j)))
        &&& (s.state is ReadyRecive ==> !occupied_at(reg, seg_pos(segs1, j)))
    } by {
        assert(seg_pos(segs1, j) == seg_pos(segs0, j));
        if j == from {
            assert(occupied_at(reg, seg_pos(segs0, from)));
        } else if j == to {
            assert(!occupied_at(reg, seg_pos(segs0, to)));
        }
    }
    assert forall|i: int, t: int|
        0 <= i < segs1.len() && 0 <= t < segs1.len() && (#[trigger] segs1[i]).state is Sending
            && segs1[i].push_to == Some(t as SegmentId) implies (
    #[trigger] segs1[t]).state is Reciving by {
        if i == from {
            assert(t == to);
        } else {
            assert(i != to);
            assert(segs0[i].state is Sending);
            assert(segs0[t].state is Reciving);
            if t == from {
                assert(false);
            }
            if t == to {
                assert(false);
            }
            assert(segs1[t].state == segs0[t].state);
        }
    }
    assert forall|i: int, g: int|
        0 <= i < segs1.len() && 0 <= g < segs1.len() && (#[trigger] segs1[i]).state is Reciving
            && segs1[i].pull_from == Some(g as SegmentId) implies (
    #[trigger] segs1[g]).state is Sending by {
        if i == to {
            assert(segs1[to].pull_from == Some(from as SegmentId));
            assert(g == from);
        } else {
            assert(i != from);
            assert(segs0[i].state is Reciving);
            assert(segs0[g].push_to == Some(i as SegmentId));
            assert(segs0[g].state is Sending);
            if g == from {
                assert(false);
            }
            if g == to {
                assert(false);
            }
            assert(segs1[g].state == segs0[g].state);
        }
    }
}


/// Completing a hand-off — the detail moves from the sending giver's slot to
/// the receiving segment's slot and both stop — keeps the pairing of every
/// other segment and every occupancy obligation intact.
proof fn lemma_protocol_after_complete(
    segs0: Seq<TransportSegment>,
    segs1: Seq<TransportSegment>,
    reg0: Seq<Option<crate::shiftreg::DetailState>>,
    reg1: Seq<Option<crate::shiftreg::DetailState>>,
    e: int,
    g: int,
)
    requires
        protocol_ok(segs0, reg0),
        edges_ok(segs0),
        positions_ok(segs0),
        segs0.len() <= usize::MAX,
        reg0.len() >= segs0.len(),
        0 <= e < segs0.len(),
        0 <= g < segs0.len(),
        g != e,
        segs0[e].state is Reciving,
        segs0[e].pull_from == Some(g as SegmentId),
        reg1 == reg0.update(seg_pos(segs0, g), None).update(
            seg_pos(segs0, e),
            reg0[seg_pos(segs0, g)],
        ),
        segs1.len() == segs0.len(),
        forall|j: int|
            0 <= j < segs0.len() ==> (#[trigger] segs1[j]).position == segs0[j].position
                && segs1[j].push_to == segs0[j].push_to && segs1[j].pull_from
                == segs0[j].pull_from,
        forall|j: int|
            0 <= j < segs0.len() && j != e && j != g ==> (#[trigger] segs1[j]).state
                == segs0[j].state,
        segs1[e].state is NotReady,
        segs1[g].state is NotReady,
    ensures
        protocol_ok(segs1, reg1),
{
    assert(segs0[g].push_to == Some(e as SegmentId));
    assert(segs0[g].state is Sending);
    assert forall|j: int| 0 <= j < segs1.len() implies {
        let s = #[trigger] segs1[j];
        &&& (s.state is Sending ==> s.push_to is Some && occupied_at(reg1, seg_pos(segs1, j)))
        &&& (s.state is Reciving ==> s.pull_from is Some && !occupied_at(reg1, seg_pos(segs1, j)))
        &&& (s.state is ReadySend ==> occupied_at(reg1, seg_pos(segs1, j)))
        &&& (s.state is ReadyRecive ==> !occupied_at(reg1, seg_pos(segs1, j)))
    } by {
        assert(seg_pos(segs1, j) == seg_pos(segs0, j));
        if j != e && j != g {
            assert(segs1[j].state == segs0[j].state);
            assert(seg_pos(segs0, j) != seg_pos(segs0, g));
            assert(seg_pos(segs0, j) != seg_pos(segs0, e));
            assert(reg1[seg_pos(segs0, j)] == reg0[seg_pos(segs0, j)]);
        }
    }
    assert forall|i: int, t: int|
        0 <= i < segs1.len() && 0 <= t < segs1.len() && (#[trigger] segs1[i]).state is Sending
            && segs1[i].push_to == Some(t as SegmentId) implies (
    #[trigger] segs1[t]).state is Reciving by {
        assert(i != e && i != g);
        assert(segs0[i].state is Sending && segs0[i].push_to == Some(t as SegmentId));
        assert(segs0[t].pull_from == Some(i as SegmentId));
        assert(segs0[t].state is Reciving);
        if t == e {
            assert(segs0[e].pull_from == Some(i as SegmentId));
            assert(i == g);
            assert(false);
        }
        if t == g {
            assert(false);
        }
        assert(segs1[t].state == segs0[t].state);
    }
    assert forall|i: int, h: int|
        0 <= i < segs1.len() && 0 <= h < segs1.len() && (#[trigger] segs1[i]).state is Reciving
            && segs1[i].pull_from == Some(h as SegmentId) implies (
    #[trigger] segs1[h]).state is Sending by {
        assert(i != e && i != g);
        assert(segs0[i].state is Reciving && segs0[i].pull_from == Some(h as SegmentId));
        assert(segs0[h].push_to == Some(i as SegmentId));
        assert(segs0[h].state is Sending);
        if h == g {
            assert(segs0[g].push_to == Some(i as SegmentId));
            assert(i == e);
            assert(false);
        }
        if h == e {
            assert(false);
        }
        assert(segs1[h].state == segs0[h].state);
    }
}


/// Re-deriving a stopped segment's readiness from the ledger respects the
/// pairing: a fresh `ReadySend` holds a detail, a fresh `ReadyRecive` does
/// not, and no running pair is disturbed.
proof fn lemma_protocol_after_ready(
    segs0: Seq<TransportSegment>,
    segs1: Seq<TransportSegment>,
    reg: Seq<Option<crate::shiftreg::DetailState>>,
    i: int,
)
    requires
        protocol_ok(segs0, reg),
        segs0.len() <= usize::MAX,
        0 <= i < segs0.len(),
        segs0[i].state is NotReady,
        segs1.len() == segs0.len(),
        forall|j: int|
            0 <= j < segs0.len() ==> (#[trigger] segs1[j]).position == segs0[j].position
                && segs1[j].push_to == segs0[j].push_to && segs1[j].pull_from
                == segs0[j].pull_from,
        forall|j: int|
            0 <= j < segs0.len() && j != i ==> (#[trigger] segs1[j]).state == segs0[j].state,
        segs1[i].state == (if occupied_at(reg, seg_pos(segs0, i)) {
            TransportState::ReadySend
        } else {
            TransportState::ReadyRecive
        }),
    ensures
        protocol_ok(segs1, reg),
{
    assert forall|j: int| 0 <= j < segs1.len() implies {
        let s = #[trigger] segs1[j];
        &&& (s.state is Sending ==> s.push_to is Some && occupied_at(reg, seg_pos(segs1, j)))
        &&& (s.state is Reciving ==> s.pull_from is Some && !occupied_at(reg, seg_pos(segs1, j)))
        &&& (s.state is ReadySend ==> occupied_at(reg, seg_pos(segs1, j)))
        &&& (s.state is ReadyRecive ==> !occupied_at(reg, seg_pos(segs1, j)))
    } by {
        assert(seg_pos(segs1, j) == seg_pos(segs0, j));
    }
    assert forall|j: int, t: int|
        0 <= j < segs1.len() && 0 <= t < segs1.len() && (#[trigger] segs1[j]).state is Sending
            && segs1[j].push_to == Some(t as SegmentId) implies (
    #[trigger] segs1[t]).state is Reciving by {
        assert(j != i);
        assert(segs0[j].state is Sending && segs0[j].push_to == Some(t as SegmentId));
        assert(segs0[t].state is Reciving);
        if t == i {
            assert(false);
        }
        assert(segs1[t].state == segs0[t].state);
    }
    assert forall|j: int, h: int|
        0 <= j < segs1.len() && 0 <= h < segs1.len() && (#[trigger] segs1[j]).state is Reciving
            && segs1[j].pull_from == Some(h as SegmentId) implies (
    #[trigger] segs1[h]).state is Sending by {
        assert(j != i);
        assert(segs0[j].state is Reciving && segs0[j].pull_from == Some(h as SegmentId));
        assert(segs0[h].state is Sending);
        if h == i {
            assert(false);
        }
        assert(segs1[h].state == segs0[h].state);
    }
}

/// Pushing a chain-end detail into the unowned absorbing slot and stopping
/// the segment keeps every pairing and occupancy obligation.
proof fn lemma_protocol_after_exit(
    segs0: Seq<TransportSegment>,
    segs1: Seq<TransportSegment>,
    reg0: Seq<Option<crate::shiftreg::DetailState>>,
    reg1: Seq<Option<crate::shiftreg::DetailState>>,
    i: int,
)
    requires
        protocol_ok(segs0, reg0),
        positions_ok(segs0),
        segs0.len() <= usize::MAX,
        0 <= i < segs0.len(),
        segs0[i].state is ReadySend,
        seg_pos(segs0, i) + 1 >= segs0.len(),
        seg_pos(segs0, i) + 1 < reg0.len(),
        reg1 == reg0.update(seg_pos(segs0, i), None).update(
            seg_pos(segs0, i) + 1,
            reg0[seg_pos(segs0, i)],
        ),
        segs1.len() == segs0.len(),
        forall|j: int|
            0 <= j < segs0.len() ==> (#[trigger] segs1[j]).position == segs0[j].position
                && segs1[j].push_to == segs0[j].push_to && segs1[j].pull_from
                == segs0[j].pull_from,
        forall|j: int|
            0 <= j < segs0.len() && j != i ==> (#[trigger] segs1[j]).state == segs0[j].state,
        segs1[i].state is NotReady,
    ensures
        protocol_ok(segs1, reg1),
{
    assert forall|j: int| 0 <= j < segs1.len() implies {
        let s = #[trigger] segs1[j];
        &&& (s.state is Sending ==> s.push_to is Some && occupied_at(reg1, seg_pos(segs1, j)))
        &&& (s.state is Reciving ==> s.pull_from is Some && !occupied_at(reg1, seg_pos(segs1, j)))
        &&& (s.state is ReadySend ==> occupied_at(reg1, seg_pos(segs1, j)))
        &&& (s.state is ReadyRecive ==> !occupied_at(reg1, seg_pos(segs1, j)))
    } by {
        assert(seg_pos(segs1, j) == seg_pos(segs0, j));
        if j != i {
            assert(segs1[j].state == segs0[j].state);
            assert(seg_pos(segs0, j) != seg_pos(segs0, i));
            assert(seg_pos(segs0, j) < segs0.len());
            assert(reg1[seg_pos(segs0, j)] == reg0[seg_pos(segs0, j)]);
        }
    }
    assert forall|j: int, t: int|
        0 <= j < segs1.len() && 0 <= t < segs1.len() && (#[trigger] segs1[j]).state is Sending
            && segs1[j].push_to == Some(t as SegmentId) implies (
    #[trigger] segs1[t]).state is Reciving by {
        assert(j != i);
        assert(segs0[j].state is Sending && segs0[j].push_to == Some(t as SegmentId));
        assert(segs0[t].state is Reciving);
        if t == i {
            assert(false);
        }
        assert(segs1[t].state == segs0[t].state);
    }
    assert forall|j: int, h: int|
        0 <= j < segs1.len() && 0 <= h < segs1.len() && (#[trigger] segs1[j]).state is Reciving
            && segs1[j].pull_from == Some(h as SegmentId) implies (
    #[trigger] segs1[h]).state is Sending by {
        assert(j != i);
        assert(segs0[j].state is Reciving && segs0[j].pull_from == Some(h as SegmentId));
        assert(segs0[h].state is Sending);
        if h == i {
            assert(false);
        }
        assert(segs1[h].state == segs0[h].state);
    }
}


/// Motor bit mutual exclusion on the wires: in every reachable line state,
/// no actuator of any segment has its forward and reverse output bits
/// asserted at the same time.
pub proof fn lemma_motor_bits_exclusive(line: Line, i: int)
    requires
        line.inv(),
        0 <= i < line.n(),
    ensures
        !(out_bit(line.io, line.seg(i).motor_a.node, line.seg(i).motor_a.forward) && out_bit(
            line.io,
            line.seg(i).motor_a.node,
            line.seg(i).motor_a.reverse,
        )),
        !(out_bit(line.io, line.seg(i).motor_b.node, line.seg(i).motor_b.forward) && out_bit(
            line.io,
            line.seg(i).motor_b.node,
            line.seg(i).motor_b.reverse,
        )),
{
    assert(motor_matches(line.io, line.seg(i).motor_a, line.seg(i).motor_cmd) && motor_matches(
        line.io,
        line.seg(i).motor_b,
        line.seg(i).motor_cmd,
    ));
    crate::tbana::lemma_movimot_exclusive(line.seg(i).motor_cmd);
}


/// One in-flight move per slot: two different sending segments never aim at
/// the same receiver, so at most one ledger move targets any given slot per
/// step — the downstream's state is the single arbiter, no lock needed.
pub proof fn lemma_one_move_per_slot(line: Line, i: int, j: int)
    requires
        line.inv(),
        0 <= i < line.n(),
        0 <= j < line.n(),
        i != j,
        line.seg(i).state is Sending,
        line.seg(j).state is Sending,
    ensures
        line.seg(i).push_to is Some,
        line.seg(j).push_to is Some,
        line.seg(i).push_to != line.seg(j).push_to,
{
    let segs = line.segments@;
    vstd::std_specs::vec::axiom_spec_len(&line.segments);
    assert(segs[i].push_to is Some && segs[j].push_to is Some);
    match (segs[i].push_to, segs[j].push_to) {
        (Some(ti), Some(tj)) => {
            assert(0 <= ti < line.n() && 0 <= tj < line.n());
            if ti == tj {
                assert(segs[ti as int].pull_from == Some(i as SegmentId));
                assert(segs[tj as int].pull_from == Some(j as SegmentId));
                assert(i as SegmentId as int == i && j as SegmentId as int == j);
                assert(false);
            }
        },
        _ => {},
    }
}

} // verus!

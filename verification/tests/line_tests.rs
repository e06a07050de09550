use cybercrab::io::Address;
use cybercrab::line::Line;
use cybercrab::sensor::{RawSensorEvent, SensorPosition};
use cybercrab::shiftreg::DetailState;
use cybercrab::tbana::{
    PushRequest, Reversiable, StopRunning, SwitchDirection, TransportState,
};

fn occupied_slots(line: &Line) -> Vec<usize> {
    let mut out = Vec::new();
    for s in 0..line.register.len() {
        if line.register.get(s).is_some() {
            out.push(s);
        }
    }
    out
}

#[test]
fn build_makes_a_stopped_empty_line() {
    let line = Line::build(3, Address(0), 64).expect("enough pins");
    assert_eq!(line.segments.len(), 3);
    assert_eq!(line.register.len(), 4);
    assert!(occupied_slots(&line).is_empty());
    for (i, seg) in line.segments.iter().enumerate() {
        assert_eq!(seg.state, TransportState::NotReady);
        assert_eq!(seg.direction, Reversiable::Forward);
        assert_eq!(seg.position.as_usize(), i);
    }
    assert_eq!(line.segments[0].push_to, Some(1));
    assert_eq!(line.segments[0].pull_from, None);
    assert_eq!(line.segments[1].push_to, Some(2));
    assert_eq!(line.segments[1].pull_from, Some(0));
    assert_eq!(line.segments[2].push_to, None);
    assert_eq!(line.segments[2].pull_from, Some(1));
}

#[test]
fn build_fails_cleanly_without_enough_pins() {
    assert!(Line::build(3, Address(0), 17).is_err());
    assert!(Line::build(3, Address(0), 18).is_ok());
}

#[test]
fn detail_walks_the_whole_line() {
    // 3-segment line, all empty; seed slot 0; step until the detail reaches
    // the absorbing slot, checking states and single occupancy throughout.
    let mut line = Line::build(3, Address(0), 64).expect("enough pins");
    assert!(line.seed_detail(0, DetailState::new()));
    assert_eq!(occupied_slots(&line), vec![0]);

    // step 1: no sensor events; seg 0 finds its detail and hands off to 1
    line.step(&Vec::new());
    assert_eq!(line.segments[0].state, TransportState::Sending);
    assert_eq!(line.segments[1].state, TransportState::Reciving);
    assert_eq!(line.segments[2].state, TransportState::ReadyRecive);
    assert_eq!(occupied_slots(&line), vec![0]);

    // step 2: the detail trips segment 1's front limit: the ledger moves
    // 0 -> 1 and, in the same step, 1 hands off to 2
    let ev = vec![RawSensorEvent {
        segment: 1,
        position: SensorPosition::LimitFront,
        entered: true,
    }];
    line.step(&ev);
    assert_eq!(line.segments[1].state, TransportState::Sending);
    assert_eq!(line.segments[2].state, TransportState::Reciving);
    assert_eq!(occupied_slots(&line), vec![1]);

    // step 3: segment 2's front limit: 1 -> 2, then 2 pushes off the end
    let ev = vec![RawSensorEvent {
        segment: 2,
        position: SensorPosition::LimitFront,
        entered: true,
    }];
    line.step(&ev);
    assert_eq!(occupied_slots(&line), vec![3]);
    assert_eq!(line.segments[2].state, TransportState::NotReady);

    // the detail leaves the line at the absorbing slot
    assert!(line.pop_detail().is_some());
    assert!(occupied_slots(&line).is_empty());
}

#[test]
fn handshake_passes_through_ready_send() {
    // the same walk driven phase by phase, so the intermediate states of
    // the two-phase handshake are observable
    let mut line = Line::build(3, Address(0), 64).expect("enough pins");
    assert!(line.seed_detail(0, DetailState::new()));
    assert_eq!(line.segments[0].state, TransportState::NotReady);

    line.set_tbana_ready();
    assert_eq!(line.segments[0].state, TransportState::ReadySend);
    assert_eq!(line.segments[1].state, TransportState::ReadyRecive);

    let requests = line.request_push();
    assert_eq!(requests.len(), 1);
    assert_eq!(requests[0].from, 0);
    assert_eq!(requests[0].to, 1);

    line.push_request_handler(requests[0]);
    assert_eq!(line.segments[0].state, TransportState::Sending);
    assert_eq!(line.segments[1].state, TransportState::Reciving);
    // the handshake itself moves nothing in the ledger
    assert_eq!(occupied_slots(&line), vec![0]);

    // hand-off completes when the receiver's far limit sensor fires: the
    // ledger move and both state changes land in the same call
    let signal = line
        .on_switch_collision(1, SensorPosition::LimitFront)
        .expect("wired sensor");
    line.on_sensor_pos(signal);
    assert_eq!(occupied_slots(&line), vec![1]);
    assert_eq!(line.segments[0].state, TransportState::NotReady);
    assert_eq!(line.segments[1].state, TransportState::NotReady);
}

#[test]
fn push_request_to_a_busy_receiver_is_dropped() {
    let mut line = Line::build(2, Address(0), 64).expect("enough pins");
    assert!(line.seed_detail(0, DetailState::new()));
    line.set_tbana_ready();
    // segment 1 never confirmed ReadyRecive for this forged request
    line.push_request_handler(PushRequest { from: 1, to: 0 });
    assert_eq!(line.segments[0].state, TransportState::ReadySend);
    // the real request goes through
    line.push_request_handler(PushRequest { from: 0, to: 1 });
    assert_eq!(line.segments[0].state, TransportState::Sending);
    // a second request aimed at the now-receiving segment is dropped
    line.push_request_handler(PushRequest { from: 0, to: 1 });
    assert_eq!(line.segments[1].state, TransportState::Reciving);
}

#[test]
fn motor_bits_follow_the_handshake() {
    let mut line = Line::build(2, Address(0), 64).expect("enough pins");
    assert!(line.seed_detail(0, DetailState::new()));
    line.step(&Vec::new());
    // both segments run slow forward: forward bit high, reverse low
    for seg in line.segments.iter() {
        for m in [seg.motor_a, seg.motor_b] {
            let forward = line.io.read_output(m.node, m.forward).unwrap();
            let reverse = line.io.read_output(m.node, m.reverse).unwrap();
            let rapid = line.io.read_output(m.node, m.rapid).unwrap();
            assert!(forward);
            assert!(!reverse);
            assert!(!rapid);
            assert!(!(forward && reverse));
        }
    }
}

#[test]
fn stop_running_stops_both_halves_and_is_idempotent() {
    let mut line = Line::build(2, Address(0), 64).expect("enough pins");
    assert!(line.seed_detail(0, DetailState::new()));
    line.step(&Vec::new());
    assert_eq!(line.segments[0].state, TransportState::Sending);
    line.on_stop_running_tbana(StopRunning(0));
    assert_eq!(line.segments[0].state, TransportState::NotReady);
    assert_eq!(line.segments[1].state, TransportState::NotReady);
    for seg in line.segments.iter() {
        for m in [seg.motor_a, seg.motor_b] {
            assert!(!line.io.read_output(m.node, m.forward).unwrap());
            assert!(!line.io.read_output(m.node, m.reverse).unwrap());
        }
    }
    // stopping an already stopped segment changes nothing
    line.on_stop_running_tbana(StopRunning(0));
    assert_eq!(line.segments[0].state, TransportState::NotReady);
    assert_eq!(occupied_slots(&line), vec![0]);
}

#[test]
fn switch_direction_inverts_the_edges() {
    let mut line = Line::build(3, Address(0), 64).expect("enough pins");
    let before: Vec<_> = line
        .segments
        .iter()
        .map(|s| (s.push_to, s.pull_from, s.direction))
        .collect();
    line.on_switch_tbana_direction(SwitchDirection);
    for (i, seg) in line.segments.iter().enumerate() {
        let (old_push, old_pull, old_dir) = before[i];
        assert_eq!(seg.push_to, old_pull);
        assert_eq!(seg.pull_from, old_push);
        assert_ne!(seg.direction, old_dir);
    }
}

#[test]
fn switch_direction_mid_flight_loses_no_detail() {
    let mut line = Line::build(2, Address(0), 64).expect("enough pins");
    assert!(line.seed_detail(0, DetailState::new()));
    line.step(&Vec::new());
    assert_eq!(line.segments[0].state, TransportState::Sending);
    assert_eq!(occupied_slots(&line), vec![0]);
    line.on_switch_tbana_direction(SwitchDirection);
    // the in-flight detail settled on its receiver, which now sends it back
    assert_eq!(occupied_slots(&line), vec![1]);
    assert_eq!(line.segments[1].state, TransportState::Sending);
    assert_eq!(line.segments[0].state, TransportState::Reciving);
    assert_eq!(line.segments[1].push_to, Some(0));
    assert_eq!(line.segments[0].pull_from, Some(1));
    // and the hand-off completes the reverse way at the back limit
    let signal = line
        .on_switch_collision(0, SensorPosition::LimitBack)
        .expect("wired sensor");
    line.on_sensor_pos(signal);
    assert_eq!(occupied_slots(&line), vec![0]);
}

#[test]
fn seeding_is_rejected_on_occupied_or_busy_slots() {
    let mut line = Line::build(2, Address(0), 64).expect("enough pins");
    assert!(line.seed_detail(0, DetailState::new()));
    // occupied
    assert!(!line.seed_detail(0, DetailState::new()));
    // busy owner: segment 1 is receiving after the handshake
    line.step(&Vec::new());
    assert!(!line.seed_detail(1, DetailState::new()));
    // out of range
    assert!(!line.seed_detail(9, DetailState::new()));
    assert_eq!(occupied_slots(&line), vec![0]);
}

#[test]
fn leave_events_and_unwired_roles_are_harmless() {
    let mut line = Line::build(2, Address(0), 64).expect("enough pins");
    assert!(line.seed_detail(0, DetailState::new()));
    line.step(&Vec::new());
    // a leave event writes the bit low and still carries a signal
    let signal = line
        .on_switch_collsion_end(0, SensorPosition::LimitBack)
        .expect("wired sensor");
    line.on_sensor_pos(signal);
    // nothing completed: segment 0 is sending, not receiving
    assert_eq!(line.segments[0].state, TransportState::Sending);
    // roles a segment does not carry are ignored
    assert!(line.on_switch_collision(0, SensorPosition::LimitUp).is_none());
    assert!(line.on_switch_collision(9, SensorPosition::LimitFront).is_none());
}

#[test]
fn the_last_event_write_per_pin_wins() {
    let mut line = Line::build(2, Address(0), 64).expect("enough pins");
    let w = line.segments[0].sensors.back_pos;
    let enter = RawSensorEvent { segment: 0, position: SensorPosition::LimitBack, entered: true };
    let leave = RawSensorEvent { segment: 0, position: SensorPosition::LimitBack, entered: false };
    line.step(&vec![enter, leave]);
    assert_eq!(line.io.read_input(w.node, w.pin), Ok(false));
    line.step(&vec![leave, enter]);
    assert_eq!(line.io.read_input(w.node, w.pin), Ok(true));
}

#[test]
fn pop_from_an_empty_absorbing_slot_is_none() {
    let mut line = Line::build(1, Address(0), 64).expect("enough pins");
    assert!(line.pop_detail().is_none());
}

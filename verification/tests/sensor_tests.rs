use cybercrab::sensor::{on_sensor_switch, PositionReached, SensorPosition};

#[test]
fn switch_events_become_position_signals() {
    let sig = on_sensor_switch(4, SensorPosition::ProximityBack);
    assert_eq!(
        sig,
        PositionReached { entity: 4, position: SensorPosition::ProximityBack }
    );
}

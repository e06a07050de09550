//! Domain-level sensor signals: a raw bit flip on a wired sensor becomes a
//! "position reached" signal addressed to the segment that owns the sensor.

use vstd::prelude::*;

use crate::SegmentId;

verus! {

/// Where on a segment a sensor sits.
#[derive(Clone, Copy, Debug, PartialEq, Eq, Structural)]
pub enum SensorPosition {
    LimitFront,
    LimitBack,
    LimitLeft,
    LimitRight,
    LimitUp,
    LimitDown,
    ProximityFront,
    ProximityBack,
    ProximityLeft,
    ProximityRight,
    ProximityUp,
    ProximityDown,
}

/// A domain-level signal: the sensor in role `position` on segment `entity`
/// saw its boundary event.
#[derive(Clone, Copy, Debug, PartialEq, Eq, Structural)]
pub struct PositionReached {
    /// The segment that owns the sensor.
    pub entity: SegmentId,
    /// The sensor's role on that segment.
    pub position: SensorPosition,
}

/// A raw boundary event from the collision source: the sensor in `position`
/// on segment `segment` entered (`entered == true`) or left its zone.
#[derive(Clone, Copy, Debug, PartialEq, Eq, Structural)]
pub struct RawSensorEvent {
    /// The segment owning the sensor.
    pub segment: SegmentId,
    /// The sensor's role on that segment.
    pub position: SensorPosition,
    /// `true` on entering the zone, `false` on leaving it.
    pub entered: bool,
}

/// Lifts a raw switch event on a sensor into the domain-level signal for the
/// segment that owns it.
pub fn on_sensor_switch(entity: SegmentId, position: SensorPosition) -> (r: PositionReached)
    ensures
        r.entity == entity,
        r.position == position,
{
    PositionReached { entity, position }
}

} // verus!

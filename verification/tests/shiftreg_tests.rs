use cybercrab::shiftreg::{DetailState, Register, RegisterError, RegisterPosition};

#[test]
fn register_position_as_usize() {
    assert_eq!(RegisterPosition(17).as_usize(), 17);
}

#[test]
fn detail_state_is_three_valued() {
    let mut d = DetailState::new();
    assert_eq!(d.get_bit(0), None);
    assert_eq!(d.get_bit(31), None);
    d.set_bit(2, true);
    d.set_bit(3, false);
    assert_eq!(d.get_bit(2), Some(true));
    assert_eq!(d.get_bit(3), Some(false));
    assert_eq!(d.get_bit(4), None);
}

#[test]
fn default_detail_has_no_step_done() {
    let d = DetailState::default();
    for i in 0..32 {
        assert_eq!(d.get_bit(i), None);
    }
}

#[test]
fn new_register_seeds_slot_zero() {
    let r = Register::new(5);
    assert_eq!(r.len(), 5);
    assert!(r.get(0).is_some());
    for i in 1..5 {
        assert!(r.get(i).is_none());
    }
}

#[test]
fn empty_register_is_empty() {
    let r = Register::new_empty(4);
    assert_eq!(r.len(), 4);
    for i in 0..4 {
        assert!(r.get(i).is_none());
    }
}

#[test]
fn put_detail_rejects_occupied_slot() {
    let mut r = Register::new_empty(3);
    assert_eq!(r.put_detail(1, DetailState::new()), Ok(()));
    assert_eq!(
        r.put_detail(1, DetailState::new()),
        Err(RegisterError::TargetOccupied)
    );
    assert_eq!(
        r.put_detail(3, DetailState::new()),
        Err(RegisterError::IndexOutOfRange)
    );
    // the occupant is still there, untouched
    assert!(r.get(1).is_some());
}

#[test]
fn shift_forward_moves_into_empty_slot() {
    let mut r = Register::new(3);
    assert_eq!(r.shift_detail_forward(0), Ok(()));
    assert!(r.get(0).is_none());
    assert!(r.get(1).is_some());
    assert_eq!(r.len(), 3);
}

#[test]
fn shift_forward_rejects_occupied_target() {
    let mut r = Register::new_empty(3);
    assert_eq!(r.put_detail(0, DetailState::new()), Ok(()));
    assert_eq!(r.put_detail(1, DetailState::new()), Ok(()));
    assert_eq!(
        r.shift_detail_forward(0),
        Err(RegisterError::TargetOccupied)
    );
    // nothing moved, nothing overwritten
    assert!(r.get(0).is_some());
    assert!(r.get(1).is_some());
    assert!(r.get(2).is_none());
}

#[test]
fn shift_forward_grows_at_the_last_slot() {
    let mut r = Register::new_empty(2);
    assert_eq!(r.put_detail(1, DetailState::new()), Ok(()));
    assert_eq!(r.shift_detail_forward(1), Ok(()));
    assert_eq!(r.len(), 3);
    assert!(r.get(1).is_none());
    assert!(r.get(2).is_some());
}

#[test]
fn shift_forward_on_empty_slot_is_a_no_op() {
    let mut r = Register::new_empty(3);
    assert_eq!(r.shift_detail_forward(1), Ok(()));
    assert_eq!(r.len(), 3);
    for i in 0..3 {
        assert!(r.get(i).is_none());
    }
    assert_eq!(
        r.shift_detail_forward(7),
        Err(RegisterError::IndexOutOfRange)
    );
}

#[test]
fn shift_over_requires_adjacency() {
    let mut r = Register::new(4);
    assert_eq!(r.shift_over(0, 2), Err(RegisterError::NotAdjacent));
    assert_eq!(r.shift_over(0, 0), Err(RegisterError::NotAdjacent));
    assert_eq!(r.shift_over(0, 4), Err(RegisterError::IndexOutOfRange));
    assert_eq!(r.shift_over(0, 1), Ok(()));
    assert!(r.get(0).is_none());
    assert!(r.get(1).is_some());
    // and backward too
    assert_eq!(r.shift_over(1, 0), Ok(()));
    assert!(r.get(0).is_some());
}

#[test]
fn shift_over_rejects_occupied_target() {
    let mut r = Register::new_empty(2);
    assert_eq!(r.put_detail(0, DetailState::new()), Ok(()));
    assert_eq!(r.put_detail(1, DetailState::new()), Ok(()));
    assert_eq!(r.shift_over(0, 1), Err(RegisterError::TargetOccupied));
    assert!(r.get(0).is_some());
    assert!(r.get(1).is_some());
}

#[test]
fn pop_detail_takes_the_last_slot() {
    let mut r = Register::new_empty(2);
    assert_eq!(r.put_detail(1, DetailState::new()), Ok(()));
    assert!(r.pop_detail().is_some());
    assert!(r.pop_detail().is_none());
    assert_eq!(r.len(), 2);
    let mut empty = Register::new_empty(0);
    assert!(empty.pop_detail().is_none());
}

#[test]
fn moved_detail_keeps_its_outcomes() {
    let mut d = DetailState::new();
    d.set_bit(0, true);
    d.set_bit(1, false);
    let mut r = Register::new_empty(3);
    assert_eq!(r.put_detail(0, d), Ok(()));
    assert_eq!(r.shift_detail_forward(0), Ok(()));
    let moved = r.get(1).as_ref().expect("moved detail");
    assert_eq!(moved.get_bit(0), Some(true));
    assert_eq!(moved.get_bit(1), Some(false));
    assert_eq!(moved.get_bit(2), None);
}

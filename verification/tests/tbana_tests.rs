use cybercrab::tbana::{coupled_speed, motor_speed, MovimotBits, MovimotCfg, Reversiable};

#[test]
fn movimot_words_as_bytes() {
    assert_eq!(MovimotBits::Stop.as_byte(), 0b000);
    assert_eq!(MovimotBits::SlowForward.as_byte(), 0b010);
    assert_eq!(MovimotBits::SlowReverse.as_byte(), 0b100);
    assert_eq!(MovimotBits::FastForward.as_byte(), 0b011);
    assert_eq!(MovimotBits::FastReverse.as_byte(), 0b101);
}

#[test]
fn movimot_words_never_assert_both_directions() {
    let words = [
        MovimotBits::Stop,
        MovimotBits::SlowForward,
        MovimotBits::SlowReverse,
        MovimotBits::FastForward,
        MovimotBits::FastReverse,
    ];
    for w in words {
        let (forward, reverse, _) = w.bits();
        assert!(!(forward && reverse));
    }
}

#[test]
fn slow_word_follows_direction() {
    assert_eq!(MovimotBits::slow(Reversiable::Forward), MovimotBits::SlowForward);
    assert_eq!(MovimotBits::slow(Reversiable::Reverse), MovimotBits::SlowReverse);
}

#[test]
fn motor_speed_signed_by_direction() {
    let cfg = MovimotCfg::default();
    assert_eq!(cfg.slow_speed, 2);
    assert_eq!(cfg.fast_speed, 10);
    assert_eq!(motor_speed(true, false, false, &cfg), 2);
    assert_eq!(motor_speed(true, false, true, &cfg), 10);
    assert_eq!(motor_speed(false, true, false, &cfg), -2);
    assert_eq!(motor_speed(false, true, true, &cfg), -10);
    assert_eq!(motor_speed(false, false, true, &cfg), 0);
}

#[test]
fn conflicting_motor_bits_mean_zero_speed() {
    let cfg = MovimotCfg { fast_speed: 100, slow_speed: 7 };
    assert_eq!(motor_speed(true, true, false, &cfg), 0);
    assert_eq!(motor_speed(true, true, true, &cfg), 0);
}

#[test]
fn coupled_speed_is_the_mean() {
    assert_eq!(coupled_speed(&vec![]), 0);
    assert_eq!(coupled_speed(&vec![4]), 4);
    assert_eq!(coupled_speed(&vec![2, 4]), 3);
    assert_eq!(coupled_speed(&vec![-2, -4]), -3);
    // truncation toward zero, matching signed integer division
    assert_eq!(coupled_speed(&vec![-3, 2]), 0);
    assert_eq!(coupled_speed(&vec![5, 0]), 2);
    assert_eq!(coupled_speed(&vec![-5, 0]), -2);
}

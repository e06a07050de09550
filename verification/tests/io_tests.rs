use cybercrab::io::{Address, IoDevices, IoError, Memory, PinIndex};

#[test]
fn memory_starts_clear() {
    let m = Memory::new_bytes(2);
    assert_eq!(m.len(), 16);
    for i in 0..16 {
        assert_eq!(m.get(i), Some(false));
    }
    assert_eq!(m.get(16), None);
}

#[test]
fn memory_set_and_get() {
    let mut m = Memory::new_bits(8);
    m.set(3, true);
    assert_eq!(m.get(3), Some(true));
    assert_eq!(m.get(2), Some(false));
    m.set(3, false);
    assert_eq!(m.get(3), Some(false));
}

#[test]
fn free_pins_hand_out_lowest_first() {
    let mut f = cybercrab::io::FreePins::new(4);
    assert_eq!(f.len(), 4);
    assert_eq!(f.next(), Some(PinIndex(0)));
    assert_eq!(f.next(), Some(PinIndex(1)));
    assert_eq!(f.len(), 2);
    assert_eq!(f.next(), Some(PinIndex(2)));
    assert_eq!(f.next(), Some(PinIndex(3)));
    assert_eq!(f.next(), None);
}

#[test]
fn take_pins_is_atomic() {
    let mut f = cybercrab::io::FreePins::new(6);
    let first = f.take_pins(4).expect("four pins free");
    assert_eq!(first.len(), 4);
    for k in 0..4 {
        assert_eq!(first.get(k), PinIndex(k as u8));
    }
    // only two left: a request for four fails without taking anything
    assert!(f.take_pins(4).is_none());
    assert_eq!(f.len(), 2);
    let second = f.take_pins(2).expect("two pins free");
    assert_eq!(second.get(0), PinIndex(4));
    assert_eq!(second.get(1), PinIndex(5));
}

#[test]
fn allocations_never_overlap() {
    let mut io = IoDevices::new();
    assert!(io.add_input_node(Address(7), 16));
    let a = io.allocate_input_pins(Address(7), 4).expect("pins free");
    let b = io.allocate_input_pins(Address(7), 4).expect("pins free");
    for i in 0..4 {
        for j in 0..4 {
            assert_ne!(a.get(i), b.get(j));
        }
    }
}

#[test]
fn allocate_errors() {
    let mut io = IoDevices::new();
    assert!(io.add_input_node(Address(1), 4));
    assert!(matches!(
        io.allocate_input_pins(Address(2), 1),
        Err(IoError::NoSuchNode)
    ));
    assert!(matches!(
        io.allocate_input_pins(Address(1), 5),
        Err(IoError::NotEnoughPins)
    ));
    assert!(io.allocate_input_pins(Address(1), 4).is_ok());
}

#[test]
fn add_node_rejects_duplicate_address() {
    let mut io = IoDevices::new();
    assert!(io.add_output_node(Address(3), 8));
    assert!(!io.add_output_node(Address(3), 8));
    assert!(io.add_output_node(Address(4), 8));
}

#[test]
fn read_write_roundtrip() {
    let mut io = IoDevices::new();
    assert!(io.add_input_node(Address(0), 8));
    assert!(io.add_output_node(Address(0), 8));
    assert_eq!(io.read_input(Address(0), PinIndex(5)), Ok(false));
    assert!(io.write_input(Address(0), PinIndex(5), true).is_ok());
    assert_eq!(io.read_input(Address(0), PinIndex(5)), Ok(true));
    // the output bank is a different bank under the same address
    assert_eq!(io.read_output(Address(0), PinIndex(5)), Ok(false));
    assert!(io.write_output(Address(0), PinIndex(2), true).is_ok());
    assert_eq!(io.read_output(Address(0), PinIndex(2)), Ok(true));
}

#[test]
fn read_write_errors() {
    let mut io = IoDevices::new();
    assert!(io.add_input_node(Address(0), 8));
    assert_eq!(io.read_input(Address(9), PinIndex(0)), Err(IoError::NoSuchNode));
    assert_eq!(io.read_input(Address(0), PinIndex(8)), Err(IoError::NoSuchPin));
    assert_eq!(
        io.write_input(Address(9), PinIndex(0), true),
        Err(IoError::NoSuchNode)
    );
    assert_eq!(
        io.write_input(Address(0), PinIndex(200), true),
        Err(IoError::NoSuchPin)
    );
}

#[test]
fn switch_set_writes_the_input_bank() {
    let mut io = IoDevices::new();
    assert!(io.add_input_node(Address(2), 8));
    let ev = cybercrab::io::SwitchSet { target: Address(2), slot: PinIndex(6), value: true };
    assert!(cybercrab::io::on_switch_set(&mut io, ev).is_ok());
    assert_eq!(io.read_input(Address(2), PinIndex(6)), Ok(true));
}

#[test]
fn address_from_u32() {
    let a = Address::from(41u32);
    assert_eq!(a, Address(41));
}

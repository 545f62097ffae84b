use logicproc::binary::Binary;
use logicproc::node::CircuitNode;
use logicproc::wire::{ConnectionError, WireBank, WireIn};
use logicproc::yosys_parse::CellType;

#[test]
fn new_wire_is_empty() {
    let mut bank: WireBank<u8> = WireBank::new();
    assert_eq!(bank.len(), 0);
    let wire = WireIn::empty_wire(&mut bank);
    assert_eq!(bank.len(), 1);
    let out = wire.get_out();
    assert!(out.is_empty(&bank));
    assert_eq!(out.read(&bank), Ok(&None));
    assert_eq!(out.try_read(&bank), Ok(&None));
}

#[test]
fn write_returns_previous_value() {
    let mut bank: WireBank<u8> = WireBank::new();
    let wire = WireIn::empty_wire(&mut bank);
    assert_eq!(wire.write(&mut bank, 7), Ok(None));
    assert_eq!(wire.write(&mut bank, 9), Ok(Some(7)));
    assert_eq!(wire.try_write(&mut bank, 11), Ok(Some(9)));
    assert_eq!(wire.get_out().read(&bank), Ok(&Some(11)));
    assert!(!wire.get_out().is_empty(&bank));
}

#[test]
fn wires_do_not_touch_each_other() {
    let mut bank: WireBank<u8> = WireBank::new();
    let first = WireIn::empty_wire(&mut bank);
    let second = WireIn::empty_wire(&mut bank);
    first.write(&mut bank, 1).unwrap();
    second.write(&mut bank, 2).unwrap();
    assert_eq!(first.get_out().read(&bank), Ok(&Some(1)));
    assert_eq!(second.get_out().read(&bank), Ok(&Some(2)));
    assert_eq!(first.clear(&mut bank), Ok(Some(1)));
    assert_eq!(first.get_out().read(&bank), Ok(&None));
    assert_eq!(second.get_out().read(&bank), Ok(&Some(2)));
}

#[test]
fn read_and_clear_takes_the_value() {
    let mut bank: WireBank<u8> = WireBank::new();
    let wire = WireIn::empty_wire(&mut bank);
    let mut out = wire.get_out();
    wire.write(&mut bank, 5).unwrap();
    assert_eq!(out.read_and_clear(&mut bank), Ok(Some(5)));
    assert_eq!(out.read_and_clear(&mut bank), Ok(None));
    assert!(out.is_empty(&bank));
    assert_eq!(wire.clear(&mut bank), Ok(None));
}

#[test]
fn endpoint_of_another_bank_is_not_connected() {
    let mut bank: WireBank<u8> = WireBank::new();
    let mut other: WireBank<u8> = WireBank::new();
    WireIn::empty_wire(&mut bank);
    let wire = WireIn::empty_wire(&mut bank);
    let mut out = wire.get_out();
    assert_eq!(out.index(), 1);
    assert_eq!(wire.write(&mut other, 3), Err(ConnectionError));
    assert_eq!(wire.try_write(&mut other, 3), Err(ConnectionError));
    assert_eq!(wire.clear(&mut other), Err(ConnectionError));
    assert_eq!(out.read(&other), Err(ConnectionError));
    assert_eq!(out.try_read(&other), Err(ConnectionError));
    assert_eq!(out.read_and_clear(&mut other), Err(ConnectionError));
    assert!(out.is_empty(&other));
    assert_eq!(other.len(), 0);
}

#[test]
fn gate_applies_its_function() {
    let mut bank: WireBank<Binary> = WireBank::new();
    let a = WireIn::empty_wire(&mut bank);
    let b = WireIn::empty_wire(&mut bank);
    let mut node = CircuitNode::new(CellType::Xor, WireIn::empty_wire(&mut bank));
    node.connect(a.get_out(), b.get_out());
    a.write(&mut bank, Binary::One).unwrap();
    b.write(&mut bank, Binary::Zero).unwrap();
    assert_eq!(node.culc(&mut bank), Ok(()));
    assert_eq!(node.out_wire().read(&bank), Ok(&Some(Binary::One)));
    b.write(&mut bank, Binary::One).unwrap();
    assert_eq!(node.culc(&mut bank), Ok(()));
    assert_eq!(node.out_wire().read(&bank), Ok(&Some(Binary::Zero)));
}

#[test]
fn gate_without_connection_fails() {
    let mut bank: WireBank<Binary> = WireBank::new();
    let a = WireIn::empty_wire(&mut bank);
    a.write(&mut bank, Binary::One).unwrap();
    let node = CircuitNode::new(CellType::And, WireIn::empty_wire(&mut bank));
    assert_eq!(node.culc(&mut bank), Err(ConnectionError));
    assert!(node.out_wire().is_empty(&bank));
    let lone = CircuitNode::new(CellType::Not, WireIn::empty_wire(&mut bank));
    assert_eq!(lone.culc(&mut bank), Err(ConnectionError));
}

#[test]
fn gate_with_empty_input_fails_and_writes_nothing() {
    let mut bank: WireBank<Binary> = WireBank::new();
    let a = WireIn::empty_wire(&mut bank);
    let b = WireIn::empty_wire(&mut bank);
    let mut node = CircuitNode::new(CellType::Or, WireIn::empty_wire(&mut bank));
    node.connect(a.get_out(), b.get_out());
    a.write(&mut bank, Binary::One).unwrap();
    assert_eq!(node.culc(&mut bank), Err(ConnectionError));
    assert_eq!(node.out_wire().read(&bank), Ok(&None));
    b.write(&mut bank, Binary::Zero).unwrap();
    assert_eq!(node.culc(&mut bank), Ok(()));
    node.reset(&mut bank);
    assert!(node.out_wire().is_empty(&bank));
}

#[test]
fn inverter_ignores_second_input() {
    let mut bank: WireBank<Binary> = WireBank::new();
    let a = WireIn::empty_wire(&mut bank);
    let b = WireIn::empty_wire(&mut bank);
    let mut node = CircuitNode::new(CellType::Not, WireIn::empty_wire(&mut bank));
    node.connect(a.get_out(), b.get_out());
    let (first, second) = node.in_wires();
    assert_eq!(first.map(|w| w.index()), Some(0));
    assert!(second.is_none());
    a.write(&mut bank, Binary::One).unwrap();
    assert_eq!(node.culc(&mut bank), Ok(()));
    assert_eq!(node.out_wire().read(&bank), Ok(&Some(Binary::Zero)));
}

#[test]
fn binary_operands_are_taken_in_order() {
    let mut bank: WireBank<u8> = WireBank::new();
    let a = WireIn::empty_wire(&mut bank);
    let b = WireIn::empty_wire(&mut bank);
    let out = WireIn::empty_wire(&mut bank);
    a.write(&mut bank, 10).unwrap();
    b.write(&mut bank, 3).unwrap();
    let applied = CircuitNode::culc_binary_ops_(
        &a.get_out(),
        &b.get_out(),
        &out,
        &mut bank,
        |x: &u8, y: &u8| x - y,
    );
    assert_eq!(applied, Ok(()));
    assert_eq!(out.get_out().read(&bank), Ok(&Some(7)));
    let applied = CircuitNode::culc_mono_ops_(&a.get_out(), &out, &mut bank, |x: &u8| x + 1);
    assert_eq!(applied, Ok(()));
    assert_eq!(out.get_out().read(&bank), Ok(&Some(11)));
}

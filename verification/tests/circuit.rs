use logicproc::assemble::ConfigurationError;
use logicproc::binary::Binary;
use logicproc::circuit::{Circuit, LookupError};
use logicproc::yosys_parse::{CellElem, CellType, Direction, ModuleElem, PortElem, WireId};

fn port(name: &str, direction: Direction, bits: Vec<WireId>) -> (String, PortElem) {
    (name.to_string(), PortElem { direction, bits })
}

fn gate(name: &str, kind: CellType, inputs: &[WireId], output: WireId) -> (String, CellElem) {
    let pins = ["A", "B", "C"];
    let mut port_directions = Vec::new();
    let mut connections = Vec::new();
    for (i, wire) in inputs.iter().enumerate() {
        port_directions.push((pins[i].to_string(), Direction::In));
        connections.push((pins[i].to_string(), vec![*wire]));
    }
    port_directions.push(("Y".to_string(), Direction::Out));
    connections.push(("Y".to_string(), vec![output]));
    (name.to_string(), CellElem { hide_name: 0, kind, port_directions, connections })
}

fn one_gate(kind: CellType) -> ModuleElem {
    ModuleElem {
        ports: vec![
            port("a", Direction::In, vec![2]),
            port("b", Direction::In, vec![3]),
            port("c", Direction::Out, vec![4]),
        ],
        cells: vec![gate("g", kind, &[2, 3], 4)],
    }
}

fn two_level() -> ModuleElem {
    ModuleElem {
        ports: vec![
            port("a", Direction::In, vec![2]),
            port("b", Direction::In, vec![3]),
            port("out", Direction::Out, vec![7]),
            port("n0", Direction::Out, vec![5]),
            port("n1", Direction::Out, vec![6]),
        ],
        cells: vec![
            gate("last", CellType::Nor, &[5, 6], 7),
            gate("and", CellType::And, &[2, 3], 5),
            gate("xor", CellType::Xor, &[2, 3], 6),
        ],
    }
}

fn run_one(kind: CellType, a: Binary, b: Binary) -> Binary {
    let mut circuit = Circuit::<Binary>::from_yosys(&one_gate(kind)).unwrap();
    assert_eq!(circuit.set_input(2, a), Ok(None));
    assert_eq!(circuit.set_input(3, b), Ok(None));
    assert!(circuit.evaluate().is_ok());
    circuit.get_output(4).unwrap().unwrap()
}

#[test]
fn from_yosys_test() {
    let circuit = Circuit::<Binary>::from_yosys(&two_level());
    assert!(circuit.is_ok());
}

#[test]
fn and_of_one_and_one_is_one() {
    assert_eq!(run_one(CellType::And, Binary::One, Binary::One), Binary::One);
}

#[test]
fn nand_examples() {
    assert_eq!(run_one(CellType::Nand, Binary::One, Binary::One), Binary::Zero);
    assert_eq!(run_one(CellType::Nand, Binary::One, Binary::Zero), Binary::One);
}

#[test]
fn every_kind_follows_its_truth_table() {
    let bits = [Binary::Zero, Binary::One];
    for a in bits {
        for b in bits {
            let (x, y) = (a == Binary::One, b == Binary::One);
            let of = |on: bool| if on { Binary::One } else { Binary::Zero };
            assert_eq!(run_one(CellType::And, a, b), of(x && y));
            assert_eq!(run_one(CellType::Nand, a, b), of(!(x && y)));
            assert_eq!(run_one(CellType::Or, a, b), of(x || y));
            assert_eq!(run_one(CellType::Nor, a, b), of(!(x || y)));
            assert_eq!(run_one(CellType::Xor, a, b), of(x != y));
            assert_eq!(run_one(CellType::Nxor, a, b), of(x == y));
        }
    }
}

#[test]
fn inverter_reads_one_input() {
    let module = ModuleElem {
        ports: vec![port("a", Direction::In, vec![2]), port("y", Direction::Out, vec![3])],
        cells: vec![gate("inv", CellType::Not, &[2], 3)],
    };
    let mut circuit = Circuit::<Binary>::from_yosys(&module).unwrap();
    circuit.set_input(2, Binary::Zero).unwrap();
    assert!(circuit.evaluate().is_ok());
    assert_eq!(circuit.get_output(3), Ok(Some(Binary::One)));
}

#[test]
fn two_level_network() {
    let mut circuit = Circuit::<Binary>::from_yosys(&two_level()).unwrap();
    circuit.set_input(2, Binary::One).unwrap();
    circuit.set_input(3, Binary::Zero).unwrap();
    assert!(circuit.evaluate().is_ok());
    assert_eq!(circuit.get_output(5), Ok(Some(Binary::Zero)));
    assert_eq!(circuit.get_output(6), Ok(Some(Binary::One)));
    assert_eq!(circuit.get_output(7), Ok(Some(Binary::Zero)));
}

#[test]
fn order_of_cells_does_not_matter() {
    let mut shuffled = two_level();
    shuffled.cells.reverse();
    for (a, b) in [
        (Binary::Zero, Binary::Zero),
        (Binary::Zero, Binary::One),
        (Binary::One, Binary::Zero),
        (Binary::One, Binary::One),
    ] {
        let mut first = Circuit::<Binary>::from_yosys(&two_level()).unwrap();
        let mut second = Circuit::<Binary>::from_yosys(&shuffled).unwrap();
        for circuit in [&mut first, &mut second] {
            circuit.set_input(2, a).unwrap();
            circuit.set_input(3, b).unwrap();
            assert!(circuit.evaluate().is_ok());
        }
        for id in [5, 6, 7] {
            assert_eq!(first.get_output(id), second.get_output(id));
        }
    }
}

#[test]
fn output_is_consumed_by_reading() {
    let mut circuit = Circuit::<Binary>::from_yosys(&one_gate(CellType::And)).unwrap();
    circuit.set_input(2, Binary::One).unwrap();
    circuit.set_input(3, Binary::One).unwrap();
    circuit.evaluate().unwrap();
    assert_eq!(circuit.get_output(4), Ok(Some(Binary::One)));
    assert_eq!(circuit.get_output(4), Ok(None));
    circuit.evaluate().unwrap();
    assert_eq!(circuit.get_output(4), Ok(Some(Binary::One)));
}

#[test]
fn output_before_evaluation_is_not_computed() {
    let mut circuit = Circuit::<Binary>::from_yosys(&one_gate(CellType::And)).unwrap();
    assert_eq!(circuit.get_output(4), Ok(None));
}

#[test]
fn unknown_ids_are_rejected() {
    let mut circuit = Circuit::<Binary>::from_yosys(&one_gate(CellType::And)).unwrap();
    assert_eq!(circuit.set_input(4, Binary::One), Err(LookupError::UnknownInput));
    assert_eq!(circuit.set_input(9, Binary::One), Err(LookupError::UnknownInput));
    assert_eq!(circuit.get_output(2), Err(LookupError::UnknownOutput));
    assert_eq!(circuit.get_output(9), Err(LookupError::UnknownOutput));
}

#[test]
fn second_write_returns_the_pending_value() {
    let mut circuit = Circuit::<Binary>::from_yosys(&one_gate(CellType::And)).unwrap();
    assert_eq!(circuit.set_input(2, Binary::Zero), Ok(None));
    assert_eq!(circuit.set_input(2, Binary::One), Ok(Some(Binary::Zero)));
    circuit.set_input(3, Binary::One).unwrap();
    circuit.evaluate().unwrap();
    assert_eq!(circuit.get_output(4), Ok(Some(Binary::One)));
}

#[test]
fn duplicate_output_is_rejected() {
    let mut module = one_gate(CellType::And);
    module.cells.push(gate("again", CellType::Or, &[2, 3], 4));
    let built = Circuit::<Binary>::from_yosys(&module);
    assert_eq!(built.err(), Some(ConfigurationError::DuplicateOutput));
}

#[test]
fn dangling_wire_is_rejected() {
    let mut module = one_gate(CellType::And);
    module.cells = vec![gate("g", CellType::And, &[2, 8], 4)];
    let built = Circuit::<Binary>::from_yosys(&module);
    assert_eq!(built.err(), Some(ConfigurationError::DanglingWire));
}

#[test]
fn missing_pin_is_rejected() {
    let mut module = one_gate(CellType::And);
    module.cells = vec![gate("g", CellType::And, &[2], 4)];
    let built = Circuit::<Binary>::from_yosys(&module);
    assert_eq!(built.err(), Some(ConfigurationError::DanglingWire));
    let mut unplugged = one_gate(CellType::And);
    unplugged.cells[0].1.connections.pop();
    let built = Circuit::<Binary>::from_yosys(&unplugged);
    assert_eq!(built.err(), Some(ConfigurationError::DanglingWire));
}

#[test]
fn bidirectional_port_is_rejected() {
    let mut module = one_gate(CellType::And);
    module.ports.push(port("io", Direction::InOut, vec![9]));
    module.cells.push(gate("again", CellType::Or, &[2, 3], 4));
    let built = Circuit::<Binary>::from_yosys(&module);
    assert_eq!(built.err(), Some(ConfigurationError::UnsupportedDirection));
}

#[test]
fn unknown_output_is_rejected() {
    let mut module = one_gate(CellType::And);
    module.ports.push(port("d", Direction::Out, vec![9]));
    let built = Circuit::<Binary>::from_yosys(&module);
    assert_eq!(built.err(), Some(ConfigurationError::UnknownOutput));
}

#[test]
fn faults_are_reported_in_order_of_the_passes() {
    let mut module = one_gate(CellType::And);
    module.ports.push(port("d", Direction::Out, vec![9]));
    module.cells.push(gate("loose", CellType::Not, &[8], 5));
    let built = Circuit::<Binary>::from_yosys(&module);
    assert_eq!(built.err(), Some(ConfigurationError::DanglingWire));
    module.cells.push(gate("again", CellType::Or, &[2, 3], 4));
    let built = Circuit::<Binary>::from_yosys(&module);
    assert_eq!(built.err(), Some(ConfigurationError::DuplicateOutput));
}

#[test]
fn input_may_leave_the_module_directly() {
    let module = ModuleElem {
        ports: vec![port("a", Direction::In, vec![2]), port("y", Direction::Out, vec![2])],
        cells: vec![],
    };
    let mut circuit = Circuit::<Binary>::from_yosys(&module).unwrap();
    circuit.set_input(2, Binary::One).unwrap();
    assert!(circuit.evaluate().is_ok());
    assert_eq!(circuit.get_output(2), Ok(Some(Binary::One)));
}

#[test]
fn unset_input_fails_the_gate_and_skips_what_follows() {
    let mut circuit = Circuit::<Binary>::from_yosys(&two_level()).unwrap();
    circuit.set_input(2, Binary::One).unwrap();
    let report = circuit.evaluate().unwrap_err();
    assert_eq!(report.failed, vec![5, 6]);
    assert_eq!(report.skipped, vec![7]);
    assert_eq!(circuit.get_output(7), Ok(None));
    circuit.set_input(3, Binary::One).unwrap();
    assert!(circuit.evaluate().is_ok());
    assert_eq!(circuit.get_output(7), Ok(Some(Binary::Zero)));
}

#[test]
fn stale_results_do_not_survive_a_failed_run() {
    let module = ModuleElem {
        ports: vec![
            port("a", Direction::In, vec![2]),
            port("b", Direction::In, vec![3]),
            port("y", Direction::Out, vec![5]),
        ],
        cells: vec![gate("inv", CellType::Not, &[4], 5), gate("and", CellType::And, &[2, 3], 4)],
    };
    let mut circuit = Circuit::<Binary>::from_yosys(&module).unwrap();
    circuit.set_input(2, Binary::One).unwrap();
    circuit.set_input(3, Binary::One).unwrap();
    circuit.evaluate().unwrap();
    let mut other = Circuit::<Binary>::from_yosys(&module).unwrap();
    other.set_input(2, Binary::One).unwrap();
    let report = other.evaluate().unwrap_err();
    assert_eq!(report.failed, vec![4]);
    assert_eq!(report.skipped, vec![5]);
    assert_eq!(circuit.get_output(5), Ok(Some(Binary::Zero)));
    assert_eq!(other.get_output(5), Ok(None));
}

#[test]
fn feedback_is_reported_as_skipped() {
    let module = ModuleElem {
        ports: vec![port("a", Direction::In, vec![2]), port("y", Direction::Out, vec![4])],
        cells: vec![gate("p", CellType::And, &[2, 4], 3), gate("q", CellType::Not, &[3], 4)],
    };
    let mut circuit = Circuit::<Binary>::from_yosys(&module).unwrap();
    circuit.set_input(2, Binary::One).unwrap();
    let report = circuit.evaluate().unwrap_err();
    assert_eq!(report.failed, Vec::<WireId>::new());
    assert_eq!(report.skipped, vec![3, 4]);
}

#[test]
fn dependency_edges_run_from_producer_to_consumer() {
    let circuit = Circuit::<Binary>::from_yosys(&two_level()).unwrap();
    assert_eq!(circuit.gates(), 3);
    assert_eq!(circuit.dependencies(), vec![(1, 0), (2, 0)]);
    let flat = Circuit::<Binary>::from_yosys(&one_gate(CellType::And)).unwrap();
    assert_eq!(flat.dependencies(), Vec::<(usize, usize)>::new());
}

#[test]
fn any_order_that_honours_the_edges_gives_the_same_values() {
    for order in [[1, 2, 0], [2, 1, 0]] {
        let mut circuit = Circuit::<Binary>::from_yosys(&two_level()).unwrap();
        let mut whole = Circuit::<Binary>::from_yosys(&two_level()).unwrap();
        for each in [&mut circuit, &mut whole] {
            each.set_input(2, Binary::One).unwrap();
            each.set_input(3, Binary::One).unwrap();
        }
        circuit.reset();
        for k in order {
            assert!(circuit.apply(k).is_ok());
        }
        assert!(whole.evaluate().is_ok());
        for id in [5, 6, 7] {
            let value = whole.get_output(id);
            assert!(matches!(value, Ok(Some(_))));
            assert_eq!(circuit.get_output(id), value);
        }
    }
}

#[test]
fn applying_a_consumer_first_computes_nothing() {
    let mut circuit = Circuit::<Binary>::from_yosys(&two_level()).unwrap();
    circuit.set_input(2, Binary::One).unwrap();
    circuit.set_input(3, Binary::One).unwrap();
    circuit.reset();
    assert!(circuit.apply(0).is_err());
    assert!(circuit.apply(3).is_err());
    assert_eq!(circuit.get_output(7), Ok(None));
    assert!(circuit.apply(1).is_ok());
    assert_eq!(circuit.get_output(5), Ok(Some(Binary::One)));
}

#[test]
fn reset_keeps_the_inputs() {
    let mut circuit = Circuit::<Binary>::from_yosys(&one_gate(CellType::Or)).unwrap();
    circuit.set_input(2, Binary::One).unwrap();
    circuit.set_input(3, Binary::Zero).unwrap();
    circuit.evaluate().unwrap();
    circuit.reset();
    assert_eq!(circuit.get_output(4), Ok(None));
    assert_eq!(circuit.set_input(2, Binary::One), Ok(Some(Binary::One)));
    assert_eq!(circuit.set_input(3, Binary::One), Ok(Some(Binary::Zero)));
}

use logicproc::index::{insert_entry, position};
use logicproc::yosys_parse::{CellElem, CellType, Direction, WireId};

fn cell(ports: &[(&str, Direction)], connections: &[(&str, &[WireId])]) -> CellElem {
    CellElem {
        hide_name: 1,
        kind: CellType::And,
        port_directions: ports.iter().map(|(n, d)| (n.to_string(), *d)).collect(),
        connections: connections.iter().map(|(n, b)| (n.to_string(), b.to_vec())).collect(),
    }
}

#[test]
fn cell_pins_are_found_by_direction() {
    let and = cell(
        &[("A", Direction::In), ("B", Direction::In), ("Y", Direction::Out)],
        &[("Y", &[4]), ("B", &[3]), ("A", &[2])],
    );
    assert_eq!(and.output_wirename().map(|s| s.as_str()), Some("Y"));
    assert_eq!(and.output_wireids(), Some(&vec![4]));
    assert_eq!(and.output_wireid(), Some(4));
    let names: Vec<&str> = and.input_wirenames().iter().map(|s| s.as_str()).collect();
    assert_eq!(names, vec!["A", "B"]);
    assert_eq!(and.input_wireids(), Some(vec![2, 3]));
}

#[test]
fn last_bit_of_a_port_is_its_wire() {
    let wide = cell(
        &[("A", Direction::In), ("Y", Direction::Out)],
        &[("A", &[7, 8, 9]), ("Y", &[1, 2])],
    );
    assert_eq!(wide.output_wireids(), Some(&vec![1, 2]));
    assert_eq!(wide.output_wireid(), Some(2));
    assert_eq!(wide.input_wireids(), Some(vec![9]));
}

#[test]
fn last_output_port_and_first_connection_count() {
    let odd = cell(
        &[("X", Direction::Out), ("A", Direction::In), ("Y", Direction::Out)],
        &[("Y", &[5]), ("X", &[6]), ("Y", &[9]), ("A", &[2])],
    );
    assert_eq!(odd.output_wirename().map(|s| s.as_str()), Some("Y"));
    assert_eq!(odd.output_wireid(), Some(5));
}

#[test]
fn missing_pins_give_nothing() {
    let no_output = cell(&[("A", Direction::In)], &[("A", &[2])]);
    assert_eq!(no_output.output_wirename(), None);
    assert_eq!(no_output.output_wireids(), None);
    assert_eq!(no_output.output_wireid(), None);
    assert_eq!(no_output.input_wireids(), Some(vec![2]));
    let unplugged = cell(&[("A", Direction::In), ("Y", Direction::Out)], &[("A", &[])]);
    assert_eq!(unplugged.output_wireid(), None);
    assert_eq!(unplugged.input_wireids(), None);
    let bare = cell(&[("IO", Direction::InOut)], &[]);
    assert_eq!(bare.output_wireid(), None);
    assert_eq!(bare.input_wirenames().len(), 0);
    assert_eq!(bare.input_wireids(), Some(vec![]));
}

#[test]
fn arity_of_each_kind() {
    assert_eq!(CellType::Not.inputs(), 1);
    for kind in [
        CellType::And,
        CellType::Nand,
        CellType::Or,
        CellType::Nor,
        CellType::Xor,
        CellType::Nxor,
    ] {
        assert_eq!(kind.inputs(), 2);
    }
}

#[test]
fn position_finds_entry_or_its_place() {
    let mut entries: Vec<(WireId, char)> = Vec::new();
    assert_eq!(position(&entries, 5), Err(0));
    insert_entry(&mut entries, 0, 5, 'b');
    assert_eq!(position(&entries, 5), Ok(0));
    assert_eq!(position(&entries, 2), Err(0));
    assert_eq!(position(&entries, 9), Err(1));
    insert_entry(&mut entries, 1, 9, 'c');
    insert_entry(&mut entries, 0, 2, 'a');
    assert_eq!(entries, vec![(2, 'a'), (5, 'b'), (9, 'c')]);
    assert_eq!(position(&entries, 2), Ok(0));
    assert_eq!(position(&entries, 5), Ok(1));
    assert_eq!(position(&entries, 9), Ok(2));
    assert_eq!(position(&entries, 0), Err(0));
    assert_eq!(position(&entries, 3), Err(1));
    assert_eq!(position(&entries, 7), Err(2));
    assert_eq!(position(&entries, u32::MAX), Err(3));
}

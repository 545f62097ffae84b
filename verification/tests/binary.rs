use std::ops::Not;

use logicproc::binary::Binary;
use logicproc::traits::LogicOps;

#[test]
fn numbers_and_bits() {
    assert_eq!(Binary::Zero.as_u32(), 0);
    assert_eq!(Binary::One.as_u32(), 1);
    assert_eq!(Binary::from_u32(0), Binary::Zero);
    assert_eq!(Binary::from_u32(1), Binary::One);
    assert_eq!(Binary::from_u32(7), Binary::One);
    assert_eq!(Binary::from_u32(u32::MAX), Binary::One);
}

#[test]
fn truth_tables() {
    let (o, l) = (Binary::Zero, Binary::One);
    assert_eq!(o.not(), l);
    assert_eq!(l.not(), o);
    assert_eq!(o.lgc_not(), l);
    assert_eq!(l.lgc_not(), o);
    let rows = [(o, o), (o, l), (l, o), (l, l)];
    let and = [o, o, o, l];
    let or = [o, l, l, l];
    let xor = [o, l, l, o];
    for (i, (a, b)) in rows.iter().enumerate() {
        assert_eq!(a.lgc_and(b), and[i]);
        assert_eq!(a.lgc_nand(b), and[i].not());
        assert_eq!(a.lgc_or(b), or[i]);
        assert_eq!(a.lgc_nor(b), or[i].not());
        assert_eq!(a.lgc_xor(b), xor[i]);
        assert_eq!(a.lgc_nxor(b), xor[i].not());
    }
}

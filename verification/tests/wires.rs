use starkom::wires::{Wire, WirePartitioner};
use std::collections::BTreeSet;

fn wire(row: usize, column: usize) -> Wire {
    Wire::new(row, column)
}

fn node<const N: usize>(wires: [Wire; N]) -> BTreeSet<Wire> {
    BTreeSet::from(wires)
}

fn collect(partitioner: &WirePartitioner) -> BTreeSet<BTreeSet<Wire>> {
    partitioner.iter_nodes().iter().map(|node| node.iter().cloned().collect()).collect()
}

#[test]
fn test_wire_1() {
    let wire = wire(12, 34);
    assert_eq!(wire.row(), 12);
    assert_eq!(wire.column(), 34);
}

#[test]
fn test_wire_2() {
    let wire = wire(56, 78);
    assert_eq!(wire.row(), 56);
    assert_eq!(wire.column(), 78);
}

#[test]
fn wires_test_empty() {
    let partitioner = WirePartitioner::default();
    assert_eq!(collect(&partitioner), BTreeSet::default());
}

#[test]
fn wires_test_one_partition_two_wires_1() {
    let w1 = wire(12, 34);
    let w2 = wire(34, 56);
    let mut partitioner = WirePartitioner::default();
    partitioner.connect(w1, w2);
    assert_eq!(collect(&partitioner), BTreeSet::from([node([w1, w2])]));
}

#[test]
fn wires_test_one_partition_two_wires_2() {
    let w1 = wire(12, 34);
    let w2 = wire(34, 56);
    let mut partitioner = WirePartitioner::default();
    partitioner.connect(w2, w1);
    assert_eq!(collect(&partitioner), BTreeSet::from([node([w1, w2])]));
}

#[test]
fn wires_test_one_partition_three_wires_1() {
    let w1 = wire(12, 34);
    let w2 = wire(34, 56);
    let w3 = wire(12, 56);
    let mut partitioner = WirePartitioner::default();
    partitioner.connect(w1, w2);
    partitioner.connect(w1, w3);
    assert_eq!(collect(&partitioner), BTreeSet::from([node([w1, w2, w3])]));
}

#[test]
fn wires_test_one_partition_three_wires_2() {
    let w1 = wire(12, 34);
    let w2 = wire(34, 56);
    let w3 = wire(12, 56);
    let mut partitioner = WirePartitioner::default();
    partitioner.connect(w1, w2);
    partitioner.connect(w2, w3);
    assert_eq!(collect(&partitioner), BTreeSet::from([node([w1, w2, w3])]));
}

#[test]
fn wires_test_one_partition_three_wires_3() {
    let w1 = wire(12, 34);
    let w2 = wire(34, 56);
    let w3 = wire(12, 56);
    let mut partitioner = WirePartitioner::default();
    partitioner.connect(w2, w1);
    partitioner.connect(w1, w3);
    assert_eq!(collect(&partitioner), BTreeSet::from([node([w1, w2, w3])]));
}

#[test]
fn wires_test_one_partition_three_wires_4() {
    let w1 = wire(12, 34);
    let w2 = wire(34, 56);
    let w3 = wire(12, 56);
    let mut partitioner = WirePartitioner::default();
    partitioner.connect(w1, w2);
    partitioner.connect(w3, w1);
    assert_eq!(collect(&partitioner), BTreeSet::from([node([w1, w2, w3])]));
}

#[test]
fn wires_test_one_partition_three_wires_5() {
    let w1 = wire(12, 34);
    let w2 = wire(34, 56);
    let w3 = wire(12, 56);
    let mut partitioner = WirePartitioner::default();
    partitioner.connect(w1, w2);
    partitioner.connect(w3, w2);
    assert_eq!(collect(&partitioner), BTreeSet::from([node([w1, w2, w3])]));
}

#[test]
fn wires_test_two_partitions_1() {
    let w1 = wire(12, 34);
    let w2 = wire(34, 56);
    let w3 = wire(56, 78);
    let w4 = wire(78, 90);
    let mut partitioner = WirePartitioner::default();
    partitioner.connect(w1, w2);
    partitioner.connect(w3, w4);
    assert_eq!(
        collect(&partitioner),
        BTreeSet::from([node([w1, w2]), node([w3, w4])])
    );
}

#[test]
fn wires_test_two_partitions_2() {
    let w1 = wire(12, 34);
    let w2 = wire(34, 56);
    let w3 = wire(56, 78);
    let w4 = wire(78, 90);
    let mut partitioner = WirePartitioner::default();
    partitioner.connect(w1, w3);
    partitioner.connect(w2, w4);
    assert_eq!(
        collect(&partitioner),
        BTreeSet::from([node([w1, w3]), node([w2, w4])])
    );
}

#[test]
fn wires_test_two_partitions_3() {
    let w1 = wire(12, 34);
    let w2 = wire(34, 56);
    let w3 = wire(56, 78);
    let w4 = wire(78, 90);
    let w5 = wire(90, 12);
    let mut partitioner = WirePartitioner::default();
    partitioner.connect(w1, w2);
    partitioner.connect(w1, w3);
    partitioner.connect(w4, w5);
    assert_eq!(
        collect(&partitioner),
        BTreeSet::from([node([w1, w2, w3]), node([w4, w5])])
    );
}

#[test]
fn wires_test_two_partitions_4() {
    let w1 = wire(12, 34);
    let w2 = wire(34, 56);
    let w3 = wire(56, 78);
    let w4 = wire(78, 90);
    let w5 = wire(90, 12);
    let mut partitioner = WirePartitioner::default();
    partitioner.connect(w1, w2);
    partitioner.connect(w4, w5);
    partitioner.connect(w1, w3);
    assert_eq!(
        collect(&partitioner),
        BTreeSet::from([node([w1, w2, w3]), node([w4, w5])])
    );
}

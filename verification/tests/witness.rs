use starkom::cell::Cell;
use starkom::field::{from_const, less};
use starkom::witness::{Partitioner, Witness, WitnessView};
use std::collections::BTreeSet;

fn cell(row: usize, column: usize) -> Cell {
    Cell::new(row, column)
}

fn node<const N: usize>(cells: [Cell; N]) -> BTreeSet<Cell> {
    BTreeSet::from(cells)
}

fn collect(partitioner: &Partitioner) -> BTreeSet<BTreeSet<Cell>> {
    partitioner.iter_nodes().iter().map(|node| node.iter().cloned().collect()).collect()
}

#[test]
fn test_cell_1() {
    let cell = Cell::new(12, 34);
    assert_eq!(cell.row(), 12);
    assert_eq!(cell.column(), 34);
}

#[test]
fn test_cell_2() {
    let cell = Cell::new(56, 78);
    assert_eq!(cell.row(), 56);
    assert_eq!(cell.column(), 78);
}

#[test]
fn test_cell_shorthand_1() {
    let cell = cell(12, 34);
    assert_eq!(cell.row(), 12);
    assert_eq!(cell.column(), 34);
}

#[test]
fn test_cell_shorthand_2() {
    let cell = cell(56, 78);
    assert_eq!(cell.row(), 56);
    assert_eq!(cell.column(), 78);
}

#[test]
fn test_shift_cell_1() {
    let cell = cell(12, 34).shift(56, 78);
    assert_eq!(cell.row(), 68);
    assert_eq!(cell.column(), 112);
}

#[test]
fn test_shift_cell_2() {
    let cell = cell(56, 78).shift(42, 43);
    assert_eq!(cell.row(), 98);
    assert_eq!(cell.column(), 121);
}

#[test]
fn test_remap_cell_1() {
    let cell = cell(12, 34).remap(cell(56, 78));
    assert_eq!(cell.row(), 68);
    assert_eq!(cell.column(), 112);
}

#[test]
fn test_remap_cell_2() {
    let cell = cell(56, 78).remap(cell(42, 43));
    assert_eq!(cell.row(), 98);
    assert_eq!(cell.column(), 121);
}

#[test]
fn witness_test_empty() {
    let partitioner = Partitioner::default();
    assert_eq!(collect(&partitioner), BTreeSet::default());
}

#[test]
fn witness_test_one_partition_two_wires_1() {
    let w1 = cell(12, 34);
    let w2 = cell(34, 56);
    let mut partitioner = Partitioner::default();
    partitioner.connect(w1, w2);
    assert_eq!(collect(&partitioner), BTreeSet::from([node([w1, w2])]));
}

#[test]
fn witness_test_one_partition_two_wires_2() {
    let w1 = cell(12, 34);
    let w2 = cell(34, 56);
    let mut partitioner = Partitioner::default();
    partitioner.connect(w2, w1);
    assert_eq!(collect(&partitioner), BTreeSet::from([node([w1, w2])]));
}

#[test]
fn witness_test_one_partition_three_wires_1() {
    let w1 = cell(12, 34);
    let w2 = cell(34, 56);
    let w3 = cell(12, 56);
    let mut partitioner = Partitioner::default();
    partitioner.connect(w1, w2);
    partitioner.connect(w1, w3);
    assert_eq!(collect(&partitioner), BTreeSet::from([node([w1, w2, w3])]));
}

#[test]
fn witness_test_one_partition_three_wires_2() {
    let w1 = cell(12, 34);
    let w2 = cell(34, 56);
    let w3 = cell(12, 56);
    let mut partitioner = Partitioner::default();
    partitioner.connect(w1, w2);
    partitioner.connect(w2, w3);
    assert_eq!(collect(&partitioner), BTreeSet::from([node([w1, w2, w3])]));
}

#[test]
fn witness_test_one_partition_three_wires_3() {
    let w1 = cell(12, 34);
    let w2 = cell(34, 56);
    let w3 = cell(12, 56);
    let mut partitioner = Partitioner::default();
    partitioner.connect(w2, w1);
    partitioner.connect(w1, w3);
    assert_eq!(collect(&partitioner), BTreeSet::from([node([w1, w2, w3])]));
}

#[test]
fn witness_test_one_partition_three_wires_4() {
    let w1 = cell(12, 34);
    let w2 = cell(34, 56);
    let w3 = cell(12, 56);
    let mut partitioner = Partitioner::default();
    partitioner.connect(w1, w2);
    partitioner.connect(w3, w1);
    assert_eq!(collect(&partitioner), BTreeSet::from([node([w1, w2, w3])]));
}

#[test]
fn witness_test_one_partition_three_wires_5() {
    let w1 = cell(12, 34);
    let w2 = cell(34, 56);
    let w3 = cell(12, 56);
    let mut partitioner = Partitioner::default();
    partitioner.connect(w1, w2);
    partitioner.connect(w3, w2);
    assert_eq!(collect(&partitioner), BTreeSet::from([node([w1, w2, w3])]));
}

#[test]
fn witness_test_two_partitions_1() {
    let w1 = cell(12, 34);
    let w2 = cell(34, 56);
    let w3 = cell(56, 78);
    let w4 = cell(78, 90);
    let mut partitioner = Partitioner::default();
    partitioner.connect(w1, w2);
    partitioner.connect(w3, w4);
    assert_eq!(
        collect(&partitioner),
        BTreeSet::from([node([w1, w2]), node([w3, w4])])
    );
}

#[test]
fn witness_test_two_partitions_2() {
    let w1 = cell(12, 34);
    let w2 = cell(34, 56);
    let w3 = cell(56, 78);
    let w4 = cell(78, 90);
    let mut partitioner = Partitioner::default();
    partitioner.connect(w1, w3);
    partitioner.connect(w2, w4);
    assert_eq!(
        collect(&partitioner),
        BTreeSet::from([node([w1, w3]), node([w2, w4])])
    );
}

#[test]
fn witness_test_two_partitions_3() {
    let w1 = cell(12, 34);
    let w2 = cell(34, 56);
    let w3 = cell(56, 78);
    let w4 = cell(78, 90);
    let w5 = cell(90, 12);
    let mut partitioner = Partitioner::default();
    partitioner.connect(w1, w2);
    partitioner.connect(w1, w3);
    partitioner.connect(w4, w5);
    assert_eq!(
        collect(&partitioner),
        BTreeSet::from([node([w1, w2, w3]), node([w4, w5])])
    );
}

#[test]
fn witness_test_two_partitions_4() {
    let w1 = cell(12, 34);
    let w2 = cell(34, 56);
    let w3 = cell(56, 78);
    let w4 = cell(78, 90);
    let w5 = cell(90, 12);
    let mut partitioner = Partitioner::default();
    partitioner.connect(w1, w2);
    partitioner.connect(w4, w5);
    partitioner.connect(w1, w3);
    assert_eq!(
        collect(&partitioner),
        BTreeSet::from([node([w1, w2, w3]), node([w4, w5])])
    );
}

const DEFAULT_ROTATIONS: [isize; 2] = [0, 1];

#[test]
fn test_empty_witness_1x1() {
    let witness = Witness::new(1, 1, &DEFAULT_ROTATIONS.to_vec());
    assert_eq!(witness.width(), 1);
    assert_eq!(witness.height(), 4);
    assert_eq!(witness.num_rows(), 1);
    assert_eq!(witness.degree_bound(), 4);
    assert_eq!(witness.num_columns(), 1);
    assert_eq!(witness.get_at(cell(0, 0)), from_const(0));
    assert_eq!(witness.get(cell(0, 0).into()), from_const(0));
}

#[test]
fn test_empty_witness_1x2() {
    let witness = Witness::new(1, 2, &DEFAULT_ROTATIONS.to_vec());
    assert_eq!(witness.width(), 2);
    assert_eq!(witness.height(), 4);
    assert_eq!(witness.num_rows(), 1);
    assert_eq!(witness.degree_bound(), 4);
    assert_eq!(witness.num_columns(), 2);
    assert_eq!(witness.get_at(cell(0, 0)), from_const(0));
    assert_eq!(witness.get_at(cell(0, 1)), from_const(0));
    assert_eq!(witness.get(cell(0, 0).into()), from_const(0));
    assert_eq!(witness.get(cell(0, 1).into()), from_const(0));
}

#[test]
fn test_empty_witness_1x3() {
    let witness = Witness::new(1, 3, &DEFAULT_ROTATIONS.to_vec());
    assert_eq!(witness.width(), 3);
    assert_eq!(witness.height(), 4);
    assert_eq!(witness.num_rows(), 1);
    assert_eq!(witness.degree_bound(), 4);
    assert_eq!(witness.num_columns(), 3);
    assert_eq!(witness.get_at(cell(0, 0)), from_const(0));
    assert_eq!(witness.get_at(cell(0, 1)), from_const(0));
    assert_eq!(witness.get_at(cell(0, 2)), from_const(0));
    assert_eq!(witness.get(cell(0, 0).into()), from_const(0));
    assert_eq!(witness.get(cell(0, 1).into()), from_const(0));
    assert_eq!(witness.get(cell(0, 2).into()), from_const(0));
}

#[test]
fn test_empty_witness_2x1() {
    let witness = Witness::new(2, 1, &DEFAULT_ROTATIONS.to_vec());
    assert_eq!(witness.width(), 1);
    assert_eq!(witness.height(), 8);
    assert_eq!(witness.num_rows(), 2);
    assert_eq!(witness.degree_bound(), 8);
    assert_eq!(witness.num_columns(), 1);
    assert_eq!(witness.get_at(cell(0, 0)), from_const(0));
    assert_eq!(witness.get_at(cell(1, 0)), from_const(0));
    assert_eq!(witness.get(cell(0, 0).into()), from_const(0));
    assert_eq!(witness.get(cell(1, 0).into()), from_const(0));
}

#[test]
fn test_empty_witness_2x2() {
    let witness = Witness::new(2, 2, &DEFAULT_ROTATIONS.to_vec());
    assert_eq!(witness.width(), 2);
    assert_eq!(witness.height(), 8);
    assert_eq!(witness.num_rows(), 2);
    assert_eq!(witness.degree_bound(), 8);
    assert_eq!(witness.num_columns(), 2);
    assert_eq!(witness.get_at(cell(0, 0)), from_const(0));
    assert_eq!(witness.get_at(cell(0, 1)), from_const(0));
    assert_eq!(witness.get_at(cell(1, 0)), from_const(0));
    assert_eq!(witness.get_at(cell(1, 1)), from_const(0));
    assert_eq!(witness.get(cell(0, 0).into()), from_const(0));
    assert_eq!(witness.get(cell(0, 1).into()), from_const(0));
    assert_eq!(witness.get(cell(1, 0).into()), from_const(0));
    assert_eq!(witness.get(cell(1, 1).into()), from_const(0));
}

#[test]
fn test_empty_witness_3x1() {
    let witness = Witness::new(3, 1, &DEFAULT_ROTATIONS.to_vec());
    assert_eq!(witness.width(), 1);
    assert_eq!(witness.height(), 8);
    assert_eq!(witness.num_rows(), 3);
    assert_eq!(witness.degree_bound(), 8);
    assert_eq!(witness.num_columns(), 1);
    assert_eq!(witness.get_at(cell(0, 0)), from_const(0));
    assert_eq!(witness.get_at(cell(1, 0)), from_const(0));
    assert_eq!(witness.get_at(cell(2, 0)), from_const(0));
    assert_eq!(witness.get(cell(0, 0).into()), from_const(0));
    assert_eq!(witness.get(cell(1, 0).into()), from_const(0));
    assert_eq!(witness.get(cell(2, 0).into()), from_const(0));
}

#[test]
fn test_empty_witness_3x2() {
    let witness = Witness::new(3, 2, &DEFAULT_ROTATIONS.to_vec());
    assert_eq!(witness.width(), 2);
    assert_eq!(witness.height(), 8);
    assert_eq!(witness.num_rows(), 3);
    assert_eq!(witness.degree_bound(), 8);
    assert_eq!(witness.num_columns(), 2);
    assert_eq!(witness.get_at(cell(0, 0)), from_const(0));
    assert_eq!(witness.get_at(cell(0, 1)), from_const(0));
    assert_eq!(witness.get_at(cell(1, 0)), from_const(0));
    assert_eq!(witness.get_at(cell(1, 1)), from_const(0));
    assert_eq!(witness.get_at(cell(2, 0)), from_const(0));
    assert_eq!(witness.get_at(cell(2, 1)), from_const(0));
    assert_eq!(witness.get(cell(0, 0).into()), from_const(0));
    assert_eq!(witness.get(cell(0, 1).into()), from_const(0));
    assert_eq!(witness.get(cell(1, 0).into()), from_const(0));
    assert_eq!(witness.get(cell(1, 1).into()), from_const(0));
    assert_eq!(witness.get(cell(2, 0).into()), from_const(0));
    assert_eq!(witness.get(cell(2, 1).into()), from_const(0));
}

#[test]
fn test_witness_four_rows_three_rotations_1() {
    let witness = Witness::new(4, 3, &vec![-1, 0, 1]);
    assert_eq!(witness.width(), 3);
    assert_eq!(witness.height(), 8);
    assert_eq!(witness.num_rows(), 4);
    assert_eq!(witness.degree_bound(), 8);
    assert_eq!(witness.num_columns(), 3);
}

#[test]
fn test_witness_four_rows_three_rotations_2() {
    let witness = Witness::new(4, 3, &vec![0, 1, 2]);
    assert_eq!(witness.width(), 3);
    assert_eq!(witness.height(), 8);
    assert_eq!(witness.num_rows(), 4);
    assert_eq!(witness.degree_bound(), 8);
    assert_eq!(witness.num_columns(), 3);
}

#[test]
fn test_witness_four_rows_four_rotations_1() {
    let witness = Witness::new(4, 3, &vec![-1, 0, 1, 2]);
    assert_eq!(witness.width(), 3);
    assert_eq!(witness.height(), 16);
    assert_eq!(witness.num_rows(), 4);
    assert_eq!(witness.degree_bound(), 16);
    assert_eq!(witness.num_columns(), 3);
}

#[test]
fn test_witness_four_rows_four_rotations_2() {
    let witness = Witness::new(4, 3, &vec![-2, -1, 0, 1]);
    assert_eq!(witness.width(), 3);
    assert_eq!(witness.height(), 16);
    assert_eq!(witness.num_rows(), 4);
    assert_eq!(witness.degree_bound(), 16);
    assert_eq!(witness.num_columns(), 3);
}

#[test]
fn test_witness_four_rows_five_rotations() {
    let witness = Witness::new(4, 3, &vec![-2, -1, 0, 1, 2]);
    assert_eq!(witness.width(), 3);
    assert_eq!(witness.height(), 16);
    assert_eq!(witness.num_rows(), 4);
    assert_eq!(witness.degree_bound(), 16);
    assert_eq!(witness.num_columns(), 3);
}

#[test]
fn test_contains_cell_root_view() {
    let witness = Witness::new(3, 4, &DEFAULT_ROTATIONS.to_vec());
    assert!(witness.contains_cell(cell(0, 0)));
    assert!(witness.contains_cell(cell(0, 3)));
    assert!(witness.contains_cell(cell(7, 0)));
    assert!(witness.contains_cell(cell(7, 3)));
    assert!(!witness.contains_cell(cell(8, 0)));
    assert!(!witness.contains_cell(cell(0, 4)));
    assert!(!witness.contains_cell(cell(8, 4)));
}

#[test]
fn test_update_witness() {
    let mut witness = Witness::new(2, 3, &DEFAULT_ROTATIONS.to_vec());
    witness.set(cell(0, 1), from_const(42));
    witness.set(cell(1, 2), from_const(43));
    assert_eq!(witness.get_at(cell(0, 0)), from_const(0));
    assert_eq!(witness.get_at(cell(0, 1)), from_const(42));
    assert_eq!(witness.get_at(cell(0, 2)), from_const(0));
    assert_eq!(witness.get_at(cell(1, 0)), from_const(0));
    assert_eq!(witness.get_at(cell(1, 1)), from_const(0));
    assert_eq!(witness.get_at(cell(1, 2)), from_const(43));
    assert_eq!(witness.get(cell(0, 0).into()), from_const(0));
    assert_eq!(witness.get(cell(0, 1).into()), from_const(42));
    assert_eq!(witness.get(cell(0, 2).into()), from_const(0));
    assert_eq!(witness.get(cell(1, 0).into()), from_const(0));
    assert_eq!(witness.get(cell(1, 1).into()), from_const(0));
    assert_eq!(witness.get(cell(1, 2).into()), from_const(43));
}

#[test]
fn test_copy_cell() {
    let mut witness = Witness::new(2, 3, &DEFAULT_ROTATIONS.to_vec());
    witness.set(cell(0, 1), from_const(44));
    assert_eq!(witness.copy(cell(0, 1).into(), cell(1, 2)), from_const(44));
    assert_eq!(witness.get_at(cell(0, 0)), from_const(0));
    assert_eq!(witness.get_at(cell(0, 1)), from_const(44));
    assert_eq!(witness.get_at(cell(0, 2)), from_const(0));
    assert_eq!(witness.get_at(cell(1, 0)), from_const(0));
    assert_eq!(witness.get_at(cell(1, 1)), from_const(0));
    assert_eq!(witness.get_at(cell(1, 2)), from_const(44));
    assert_eq!(witness.get(cell(0, 0).into()), from_const(0));
    assert_eq!(witness.get(cell(0, 1).into()), from_const(44));
    assert_eq!(witness.get(cell(0, 2).into()), from_const(0));
    assert_eq!(witness.get(cell(1, 0).into()), from_const(0));
    assert_eq!(witness.get(cell(1, 1).into()), from_const(0));
    assert_eq!(witness.get(cell(1, 2).into()), from_const(44));
}

#[test]
fn test_get_unconstrained_value() {
    let mut witness = Witness::new(1, 1, &DEFAULT_ROTATIONS.to_vec());
    witness.set(cell(0, 0), from_const(12));
    assert_eq!(witness.get(cell(0, 0).into()), from_const(12));
    assert_eq!(witness.get(from_const(34).into()), from_const(34));
    assert_eq!(witness.get(from_const(56).into()), from_const(56));
}

#[test]
fn test_blind() {
    let mut witness = Witness::new(2, 3, &DEFAULT_ROTATIONS.to_vec());
    witness.set(cell(0, 1), from_const(44));
    assert_eq!(witness.copy(cell(0, 1).into(), cell(1, 2)), from_const(44));
    witness.blind();
    assert_eq!(witness.get_at(cell(0, 0)), from_const(0));
    assert_eq!(witness.get_at(cell(0, 1)), from_const(44));
    assert_eq!(witness.get_at(cell(0, 2)), from_const(0));
    assert_eq!(witness.get_at(cell(1, 0)), from_const(0));
    assert_eq!(witness.get_at(cell(1, 1)), from_const(0));
    assert_eq!(witness.get_at(cell(1, 2)), from_const(44));
    let max = from_const(u64::MAX);
    assert!(less(max, witness.get_at(cell(2, 0))));
    assert!(less(max, witness.get_at(cell(2, 1))));
    assert!(less(max, witness.get_at(cell(2, 2))));
    assert!(less(max, witness.get_at(cell(3, 0))));
    assert!(less(max, witness.get_at(cell(3, 1))));
    assert!(less(max, witness.get_at(cell(3, 2))));
    assert!(less(max, witness.get_at(cell(4, 0))));
    assert!(less(max, witness.get_at(cell(4, 1))));
    assert!(less(max, witness.get_at(cell(4, 2))));
}

#[test]
fn test_root_view_cells() {
    let witness = Witness::new(3, 4, &DEFAULT_ROTATIONS.to_vec());
    assert_eq!(witness.cell(0, 0), cell(0, 0));
    assert_eq!(witness.cell(0, 1), cell(0, 1));
    assert_eq!(witness.cell(0, 2), cell(0, 2));
    assert_eq!(witness.cell(1, 0), cell(1, 0));
    assert_eq!(witness.cell(1, 1), cell(1, 1));
    assert_eq!(witness.cell(1, 2), cell(1, 2));
    assert_eq!(witness.cell(2, 0), cell(2, 0));
    assert_eq!(witness.cell(2, 1), cell(2, 1));
    assert_eq!(witness.cell(2, 2), cell(2, 2));
}

#[test]
fn test_sub_view_1() {
    let mut witness = Witness::new(3, 4, &DEFAULT_ROTATIONS.to_vec());
    witness.set(cell(0, 0), from_const(1));
    witness.set(cell(0, 1), from_const(2));
    witness.set(cell(0, 2), from_const(3));
    witness.set(cell(0, 3), from_const(4));
    witness.set(cell(1, 0), from_const(5));
    witness.set(cell(1, 1), from_const(6));
    witness.set(cell(1, 2), from_const(7));
    witness.set(cell(1, 3), from_const(8));
    witness.set(cell(2, 0), from_const(9));
    witness.set(cell(2, 1), from_const(10));
    witness.set(cell(2, 2), from_const(11));
    witness.set(cell(2, 3), from_const(12));
    let view = witness.sub(1, 2, 2.into(), 3.into());
    assert_eq!(view.width(), 2);
    assert_eq!(view.cell(0, 0), cell(1, 2));
    assert_eq!(view.cell(0, 1), cell(1, 3));
    assert_eq!(view.cell(1, 0), cell(2, 2));
    assert_eq!(view.cell(1, 1), cell(2, 3));
    assert_eq!(view.get_at(cell(1, 2)), from_const(7));
    assert_eq!(view.get_at(cell(1, 3)), from_const(8));
    assert_eq!(view.get_at(cell(2, 2)), from_const(11));
    assert_eq!(view.get_at(cell(2, 3)), from_const(12));
    assert_eq!(view.get(cell(1, 2).into()), from_const(7));
    assert_eq!(view.get(cell(1, 3).into()), from_const(8));
    assert_eq!(view.get(cell(2, 2).into()), from_const(11));
    assert_eq!(view.get(cell(2, 3).into()), from_const(12));
}

#[test]
fn test_sub_view_2() {
    let mut witness = Witness::new(4, 3, &DEFAULT_ROTATIONS.to_vec());
    witness.set(cell(0, 0), from_const(1));
    witness.set(cell(0, 1), from_const(2));
    witness.set(cell(0, 2), from_const(3));
    witness.set(cell(1, 0), from_const(4));
    witness.set(cell(1, 1), from_const(5));
    witness.set(cell(1, 2), from_const(6));
    witness.set(cell(2, 0), from_const(7));
    witness.set(cell(2, 1), from_const(8));
    witness.set(cell(2, 2), from_const(9));
    witness.set(cell(3, 0), from_const(10));
    witness.set(cell(3, 1), from_const(11));
    witness.set(cell(3, 2), from_const(12));
    let view = witness.sub(2, 1, 1.into(), 4.into());
    assert_eq!(view.width(), 1);
    assert_eq!(view.cell(0, 0), cell(2, 1));
    assert_eq!(view.cell(1, 0), cell(3, 1));
    assert_eq!(view.get_at(cell(2, 1)), from_const(8));
    assert_eq!(view.get_at(cell(3, 1)), from_const(11));
    assert_eq!(view.get(cell(2, 1).into()), from_const(8));
    assert_eq!(view.get(cell(3, 1).into()), from_const(11));
}

#[test]
fn test_update_sub_view_1() {
    let mut witness = Witness::new(3, 4, &DEFAULT_ROTATIONS.to_vec());
    witness.set(cell(0, 0), from_const(1));
    witness.set(cell(0, 1), from_const(2));
    witness.set(cell(0, 2), from_const(3));
    witness.set(cell(0, 3), from_const(4));
    witness.set(cell(1, 0), from_const(5));
    witness.set(cell(1, 1), from_const(6));
    witness.set(cell(1, 2), from_const(7));
    witness.set(cell(1, 3), from_const(8));
    witness.set(cell(2, 0), from_const(9));
    witness.set(cell(2, 1), from_const(10));
    witness.set(cell(2, 2), from_const(11));
    witness.set(cell(2, 3), from_const(12));
    {
        let mut view = witness.sub(1, 2, 2.into(), 3.into());
        view.set(cell(1, 2), from_const(42));
        view.set(cell(1, 3), from_const(43));
        view.set(cell(2, 2), from_const(44));
        view.set(cell(2, 3), from_const(45));
    }
    assert_eq!(witness.get_at(cell(1, 2)), from_const(42));
    assert_eq!(witness.get_at(cell(1, 3)), from_const(43));
    assert_eq!(witness.get_at(cell(2, 2)), from_const(44));
    assert_eq!(witness.get_at(cell(2, 3)), from_const(45));
    assert_eq!(witness.get(cell(1, 2).into()), from_const(42));
    assert_eq!(witness.get(cell(1, 3).into()), from_const(43));
    assert_eq!(witness.get(cell(2, 2).into()), from_const(44));
    assert_eq!(witness.get(cell(2, 3).into()), from_const(45));
}

#[test]
fn test_update_sub_view_2() {
    let mut witness = Witness::new(4, 3, &DEFAULT_ROTATIONS.to_vec());
    witness.set(cell(0, 0), from_const(1));
    witness.set(cell(0, 1), from_const(2));
    witness.set(cell(0, 2), from_const(3));
    witness.set(cell(1, 0), from_const(4));
    witness.set(cell(1, 1), from_const(5));
    witness.set(cell(1, 2), from_const(6));
    witness.set(cell(2, 0), from_const(7));
    witness.set(cell(2, 1), from_const(8));
    witness.set(cell(2, 2), from_const(9));
    witness.set(cell(3, 0), from_const(10));
    witness.set(cell(3, 1), from_const(11));
    witness.set(cell(3, 2), from_const(12));
    {
        let mut view = witness.sub(2, 1, 1.into(), 4.into());
        view.set(cell(2, 1), from_const(42));
        view.set(cell(3, 1), from_const(43));
    }
    assert_eq!(witness.get_at(cell(2, 1)), from_const(42));
    assert_eq!(witness.get_at(cell(3, 1)), from_const(43));
    assert_eq!(witness.get(cell(2, 1).into()), from_const(42));
    assert_eq!(witness.get(cell(3, 1).into()), from_const(43));
}

#[test]
fn test_get_unconstrained_value_from_sub_view() {
    let mut witness = Witness::new(4, 3, &DEFAULT_ROTATIONS.to_vec());
    witness.set(cell(0, 0), from_const(1));
    witness.set(cell(0, 1), from_const(2));
    witness.set(cell(0, 2), from_const(3));
    witness.set(cell(1, 0), from_const(4));
    witness.set(cell(1, 1), from_const(5));
    witness.set(cell(1, 2), from_const(6));
    witness.set(cell(2, 0), from_const(7));
    witness.set(cell(2, 1), from_const(8));
    witness.set(cell(2, 2), from_const(9));
    witness.set(cell(3, 0), from_const(10));
    witness.set(cell(3, 1), from_const(11));
    witness.set(cell(3, 2), from_const(12));
    let view = witness.sub(2, 1, 1.into(), 4.into());
    assert_eq!(view.get(cell(2, 1).into()), from_const(8));
    assert_eq!(view.get(from_const(34).into()), from_const(34));
    assert_eq!(view.get(from_const(56).into()), from_const(56));
}

#[test]
fn test_contains_cell_sub_view() {
    let mut witness = Witness::new(3, 4, &DEFAULT_ROTATIONS.to_vec());
    let view = witness.sub(1, 2, 2.into(), 3.into());
    assert!(view.contains_cell(cell(1, 2)));
    assert!(view.contains_cell(cell(1, 3)));
    assert!(view.contains_cell(cell(3, 2)));
    assert!(view.contains_cell(cell(3, 3)));
    assert!(!view.contains_cell(cell(0, 2)));
    assert!(!view.contains_cell(cell(1, 1)));
    assert!(!view.contains_cell(cell(1, 4)));
    assert!(!view.contains_cell(cell(4, 2)));
}

#[test]
fn test_sub_fn_reads_and_writes() {
    let mut witness = Witness::new(3, 4, &DEFAULT_ROTATIONS.to_vec());
    witness.set(cell(0, 0), from_const(1));
    witness.set(cell(0, 1), from_const(2));
    witness.set(cell(0, 2), from_const(3));
    witness.set(cell(0, 3), from_const(4));
    witness.set(cell(1, 0), from_const(5));
    witness.set(cell(1, 1), from_const(6));
    witness.set(cell(1, 2), from_const(7));
    witness.set(cell(1, 3), from_const(8));
    witness.set(cell(2, 0), from_const(9));
    witness.set(cell(2, 1), from_const(10));
    witness.set(cell(2, 2), from_const(11));
    witness.set(cell(2, 3), from_const(12));
    let mut read_value = from_const(0);
    witness.sub_fn(1, 2, 2.into(), 3.into(), |view| {
        read_value = view.get_at(cell(1, 2));
        view.set(cell(1, 2), from_const(42));
        view.set(cell(2, 3), from_const(43));
    });
    assert_eq!(read_value, from_const(7));
    assert_eq!(witness.get_at(cell(1, 2)), from_const(42));
    assert_eq!(witness.get_at(cell(1, 3)), from_const(8));
    assert_eq!(witness.get_at(cell(2, 2)), from_const(11));
    assert_eq!(witness.get_at(cell(2, 3)), from_const(43));
}

#[test]
fn test_sub_fn_default_dimensions() {
    let mut witness = Witness::new(3, 4, &DEFAULT_ROTATIONS.to_vec());
    let mut width = 0;
    let mut height = 0;
    witness.sub_fn(1, 1, None, None, |view| {
        width = view.width();
        height = view.height();
    });
    assert_eq!(width, 3);
    assert_eq!(height, 7);
}

#[test]
fn test_sub_fn_chainability() {
    let mut witness = Witness::new(3, 4, &DEFAULT_ROTATIONS.to_vec());
    witness
        .sub_fn(0, 0, 2.into(), 2.into(), |view| {
            view.set(cell(0, 0), from_const(1));
        })
        .sub_fn(1, 2, 2.into(), 2.into(), |view| {
            view.set(cell(1, 2), from_const(2));
        });
    assert_eq!(witness.get_at(cell(0, 0)), from_const(1));
    assert_eq!(witness.get_at(cell(1, 2)), from_const(2));
}

#[test]
fn test_sub_fn_or_ok_reads_and_writes() {
    let mut witness = Witness::new(3, 4, &DEFAULT_ROTATIONS.to_vec());
    witness.set(cell(1, 2), from_const(7));
    let mut read_value = from_const(0);
    let result = witness.sub_fn_or(1, 2, 2.into(), 3.into(), |view| {
        read_value = view.get_at(cell(1, 2));
        view.set(cell(1, 2), from_const(42));
        Ok::<(), String>(())
    });
    assert!(result.is_ok());
    assert_eq!(read_value, from_const(7));
    assert_eq!(witness.get_at(cell(1, 2)), from_const(42));
}

#[test]
fn test_sub_fn_or_default_dimensions() {
    let mut witness = Witness::new(3, 4, &DEFAULT_ROTATIONS.to_vec());
    let mut width = 0;
    let mut height = 0;
    let result = witness.sub_fn_or(1, 1, None, None, |view| {
        width = view.width();
        height = view.height();
        Ok::<(), String>(())
    });
    assert!(result.is_ok());
    assert_eq!(width, 3);
    assert_eq!(height, 7);
}

#[test]
fn test_sub_fn_or_propagates_error() {
    let mut witness = Witness::new(3, 4, &DEFAULT_ROTATIONS.to_vec());
    let result = witness.sub_fn_or(1, 2, 2.into(), 3.into(), |view| {
        view.set(cell(1, 2), from_const(42));
        Err(String::from("callback failed"))
    });
    assert_eq!(result.unwrap_err().to_string(), "callback failed");
    assert_eq!(witness.get_at(cell(1, 2)), from_const(42));
}

#[test]
fn test_sub_fn_or_chainability() {
    let mut witness = Witness::new(3, 4, &DEFAULT_ROTATIONS.to_vec());
    witness
        .sub_fn_or(0, 0, 2.into(), 2.into(), |view| {
            view.set(cell(0, 0), from_const(1));
            Ok::<(), String>(())
        })
        .unwrap()
        .sub_fn_or(1, 2, 2.into(), 2.into(), |view| {
            view.set(cell(1, 2), from_const(2));
            Ok::<(), String>(())
        })
        .unwrap();
    assert_eq!(witness.get_at(cell(0, 0)), from_const(1));
    assert_eq!(witness.get_at(cell(1, 2)), from_const(2));
}

#[test]
fn test_fill_blinding_rows() {
    let mut witness = Witness::new(2, 2, &DEFAULT_ROTATIONS.to_vec());
    witness.set(cell(1, 1), from_const(44));
    let values = |first: u64| (first..first + 3).map(from_const).collect::<Vec<_>>();
    witness.fill_blinding_rows(&vec![values(10), values(20)]);
    for column in 0..2 {
        assert_eq!(witness.get_at(cell(0, column)), from_const(0));
        for row in 2..5 {
            let expected = 10 * (column as u64 + 1) + row as u64 - 2;
            assert_eq!(witness.get_at(cell(row, column)), from_const(expected));
        }
        for row in 5..8 {
            assert_eq!(witness.get_at(cell(row, column)), from_const(0));
        }
    }
    assert_eq!(witness.get_at(cell(1, 0)), from_const(0));
    assert_eq!(witness.get_at(cell(1, 1)), from_const(44));
}

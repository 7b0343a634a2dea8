use locations::eliminate;
use locations::SerializedOperator;
use locations::Value;

fn w(v: u32) -> SerializedOperator {
    SerializedOperator::Write(Value(v), 0)
}

fn r(v: u32) -> SerializedOperator {
    SerializedOperator::Read(Value(v), 0)
}

fn other() -> SerializedOperator {
    SerializedOperator::Other { reads: vec![], writes: vec![] }
}

#[test]
fn nested_run_is_deleted() {
    let ops = vec![w(1), w(2), r(2), r(1)];
    assert_eq!(eliminate(&ops), vec![0, 1, 2, 3]);
}

#[test]
fn crossed_run_is_kept() {
    let ops = vec![w(1), w(2), r(1), r(2)];
    assert_eq!(eliminate(&ops), Vec::<usize>::new());
}

#[test]
fn empty_stream_deletes_nothing() {
    let ops: Vec<SerializedOperator> = vec![];
    assert_eq!(eliminate(&ops), Vec::<usize>::new());
}

#[test]
fn single_pair_is_deleted() {
    let ops = vec![other(), w(7), r(7), other()];
    assert_eq!(eliminate(&ops), vec![1, 2]);
}

#[test]
fn adjacent_runs_are_deleted_one_by_one() {
    let ops = vec![w(1), r(1), w(2), r(2)];
    assert_eq!(eliminate(&ops), vec![0, 1, 2, 3]);
}

#[test]
fn run_with_pairs_side_by_side_is_deleted() {
    // write 1, (write 2, read 2), (write 3, read 3), read 1
    let ops = vec![w(1), w(2), r(2), w(3), r(3), r(1)];
    assert_eq!(eliminate(&ops), vec![0, 1, 2, 3, 4, 5]);
}

#[test]
fn three_deep_run_is_deleted() {
    let ops = vec![w(1), w(2), w(3), r(3), r(2), r(1)];
    assert_eq!(eliminate(&ops), vec![0, 1, 2, 3, 4, 5]);
}

#[test]
fn other_operator_abandons_the_run() {
    let ops = vec![w(1), other(), r(1)];
    assert_eq!(eliminate(&ops), Vec::<usize>::new());
}

#[test]
fn wrong_read_abandons_the_whole_run() {
    // The inner pair would cancel on its own, but the run began at the
    // first write and is given up as a whole.
    let ops = vec![w(1), w(2), r(2), r(9)];
    assert_eq!(eliminate(&ops), Vec::<usize>::new());
}

#[test]
fn scan_goes_on_behind_an_abandoned_run() {
    let ops = vec![w(1), r(9), w(2), r(2)];
    assert_eq!(eliminate(&ops), vec![2, 3]);
}

#[test]
fn unfinished_run_is_kept() {
    let ops = vec![w(1), w(2), r(2)];
    assert_eq!(eliminate(&ops), Vec::<usize>::new());
}

#[test]
fn read_must_match_the_component_too() {
    let ops = vec![
        SerializedOperator::Write(Value(1), 0),
        SerializedOperator::Read(Value(1), 1),
    ];
    assert_eq!(eliminate(&ops), Vec::<usize>::new());
}

#[test]
fn read_outside_a_run_changes_nothing() {
    let ops = vec![r(1), w(2), r(2)];
    assert_eq!(eliminate(&ops), vec![1, 2]);
}

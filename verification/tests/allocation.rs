use locations::AllocError;
use locations::FunctionBody;
use locations::Locations;
use locations::SerializedBody;
use locations::SerializedOperator;
use locations::Type;
use locations::Value;

fn w(v: u32) -> SerializedOperator {
    SerializedOperator::Write(Value(v), 0)
}

fn r(v: u32) -> SerializedOperator {
    SerializedOperator::Read(Value(v), 0)
}

fn nop() -> SerializedOperator {
    SerializedOperator::Other { reads: vec![], writes: vec![] }
}

fn body(operators: Vec<SerializedOperator>) -> SerializedBody {
    SerializedBody { operators }
}

fn function(locals: Vec<Type>, types: Vec<Type>) -> FunctionBody {
    FunctionBody { locals, types: types.into_iter().map(|t| vec![t]).collect() }
}

#[test]
fn three_values_two_slots() {
    // X = 0 and Z = 2 have one type, Y = 1 another.
    let f = function(vec![], vec![Type::I32, Type::I64, Type::I32]);
    let b = body(vec![w(0), w(1), r(0), w(2), r(1), r(2)]);
    let l = Locations::compute(&f, &b);
    assert_eq!(l.delete, Vec::<usize>::new());
    assert_eq!(l.new_locals, vec![Type::I32, Type::I64]);
    assert_eq!(l.get(Value(0), 0), Some(0));
    assert_eq!(l.get(Value(1), 0), Some(1));
    assert_eq!(l.get(Value(2), 0), Some(0));
    assert_eq!(l.locations.len(), 3);
}

#[test]
fn cancelled_run_needs_no_slots() {
    let f = function(vec![], vec![Type::I32, Type::I32]);
    let b = body(vec![w(0), w(1), r(1), r(0)]);
    let l = Locations::compute(&f, &b);
    assert_eq!(l.delete, vec![0, 1, 2, 3]);
    assert_eq!(l.new_locals, Vec::<Type>::new());
    assert_eq!(l.get(Value(0), 0), None);
    assert_eq!(l.get(Value(1), 0), None);
    assert!(l.locations.is_empty());
}

#[test]
fn crossed_run_needs_two_slots() {
    let f = function(vec![], vec![Type::I32, Type::I32]);
    let b = body(vec![w(0), w(1), r(0), r(1)]);
    let l = Locations::compute(&f, &b);
    assert_eq!(l.delete, Vec::<usize>::new());
    assert_eq!(l.new_locals, vec![Type::I32, Type::I32]);
    assert_eq!(l.get(Value(0), 0), Some(0));
    assert_eq!(l.get(Value(1), 0), Some(1));
}

#[test]
fn new_slots_are_numbered_behind_the_old() {
    let f = function(vec![Type::F32, Type::F64, Type::I32], vec![Type::I32, Type::F64]);
    let b = body(vec![w(0), w(1), r(0), r(1)]);
    let l = Locations::compute(&f, &b);
    assert_eq!(l.new_locals, vec![Type::I32, Type::F64]);
    assert_eq!(l.get(Value(0), 0), Some(3));
    assert_eq!(l.get(Value(1), 0), Some(4));
}

#[test]
fn slot_freed_at_a_start_is_taken_there() {
    // Value 0 is last read at position 2, so its range ends at 3, where
    // the range of value 1 begins.
    let f = function(vec![], vec![Type::I32, Type::I32]);
    let b = body(vec![w(0), nop(), r(0), w(1), nop(), r(1)]);
    let l = Locations::compute(&f, &b);
    assert_eq!(l.new_locals, vec![Type::I32]);
    assert_eq!(l.get(Value(0), 0), Some(0));
    assert_eq!(l.get(Value(1), 0), Some(0));
}

#[test]
fn slot_is_not_shared_across_types() {
    let f = function(vec![], vec![Type::I32, Type::I64]);
    let b = body(vec![w(0), nop(), r(0), w(1), nop(), r(1)]);
    let l = Locations::compute(&f, &b);
    assert_eq!(l.new_locals, vec![Type::I32, Type::I64]);
    assert_eq!(l.get(Value(0), 0), Some(0));
    assert_eq!(l.get(Value(1), 0), Some(1));
}

#[test]
fn slot_freed_last_is_taken_first() {
    let f = function(vec![], vec![Type::I32; 4]);
    let b = body(vec![
        w(0),
        w(1),
        nop(),
        r(0),
        nop(),
        r(1),
        w(2),
        nop(),
        w(3),
        r(2),
        r(3),
    ]);
    let l = Locations::compute(&f, &b);
    assert_eq!(l.delete, Vec::<usize>::new());
    assert_eq!(l.new_locals, vec![Type::I32, Type::I32]);
    assert_eq!(l.get(Value(0), 0), Some(0));
    assert_eq!(l.get(Value(1), 0), Some(1));
    // Slot 0 was freed at 4 and slot 1 at 6: value 2 takes slot 1.
    assert_eq!(l.get(Value(2), 0), Some(1));
    assert_eq!(l.get(Value(3), 0), Some(0));
}

#[test]
fn components_get_slots_of_their_own_types() {
    let f = FunctionBody { locals: vec![Type::I32], types: vec![vec![Type::I64, Type::F32]] };
    let b = body(vec![
        SerializedOperator::Other { reads: vec![], writes: vec![(Value(0), 0), (Value(0), 1)] },
        SerializedOperator::Read(Value(0), 1),
        SerializedOperator::Read(Value(0), 0),
    ]);
    let l = Locations::compute(&f, &b);
    assert_eq!(l.new_locals, vec![Type::I64, Type::F32]);
    assert_eq!(l.get(Value(0), 0), Some(1));
    assert_eq!(l.get(Value(0), 1), Some(2));
    assert_eq!(l.get(Value(0), 2), None);
    assert_eq!(l.get(Value(1), 0), None);
}

#[test]
fn ranges_ending_together_free_in_order() {
    let f = function(vec![], vec![Type::I32; 4]);
    let b = body(vec![
        w(0),
        w(1),
        nop(),
        SerializedOperator::Other { reads: vec![(Value(1), 0), (Value(0), 0)], writes: vec![] },
        w(2),
        nop(),
        w(3),
        r(2),
        r(3),
    ]);
    let l = Locations::compute(&f, &b);
    assert_eq!(l.new_locals, vec![Type::I32, Type::I32]);
    // Both ranges end at 4; that of value 0 began first and is freed first.
    assert_eq!(l.get(Value(2), 0), Some(1));
    assert_eq!(l.get(Value(3), 0), Some(0));
}

#[test]
fn empty_body_gives_empty_result() {
    let f = function(vec![Type::I32], vec![]);
    let l = Locations::compute(&f, &body(vec![]));
    assert!(l.locations.is_empty());
    assert!(l.delete.is_empty());
    assert!(l.new_locals.is_empty());
}

#[test]
fn same_input_gives_same_result() {
    let f = function(vec![Type::I32], vec![Type::I32, Type::I64, Type::I32, Type::I64]);
    let b = body(vec![w(0), w(1), r(0), w(2), r(1), w(3), r(2), r(3), w(0), r(0)]);
    let first = Locations::compute(&f, &b);
    let second = Locations::compute(&f, &b);
    assert_eq!(first.locations, second.locations);
    assert_eq!(first.delete, second.delete);
    assert_eq!(first.new_locals, second.new_locals);
}

#[test]
fn try_compute_agrees_with_compute() {
    let f = function(vec![], vec![Type::I32, Type::I64, Type::I32]);
    let b = body(vec![w(0), w(1), r(0), w(2), r(1), r(2)]);
    let l = Locations::try_compute(&f, &b).unwrap();
    assert_eq!(l.new_locals, vec![Type::I32, Type::I64]);
    assert_eq!(l.get(Value(2), 0), Some(0));
}

#[test]
fn try_compute_reports_read_before_write() {
    let f = function(vec![], vec![Type::I32, Type::I32]);
    let b = body(vec![w(0), r(1)]);
    assert_eq!(
        Locations::try_compute(&f, &b).err(),
        Some(AllocError::ReadBeforeWrite { value: Value(1), index: 0 })
    );
}

#[test]
fn try_compute_reports_a_value_without_type() {
    let f = function(vec![], vec![Type::I32]);
    let b = body(vec![w(0), nop(), w(1), r(0)]);
    assert_eq!(
        Locations::try_compute(&f, &b).err(),
        Some(AllocError::UntypedValue { value: Value(1), index: 0 })
    );
}

#[test]
fn try_compute_reports_a_component_without_type() {
    let f = function(vec![], vec![Type::I32]);
    let b = body(vec![SerializedOperator::Write(Value(0), 1)]);
    assert_eq!(
        Locations::try_compute(&f, &b).err(),
        Some(AllocError::UntypedValue { value: Value(0), index: 1 })
    );
}

#[test]
fn read_before_write_comes_before_missing_type() {
    let f = function(vec![], vec![]);
    let b = body(vec![w(0), nop(), r(3)]);
    assert_eq!(
        Locations::try_compute(&f, &b).err(),
        Some(AllocError::ReadBeforeWrite { value: Value(3), index: 0 })
    );
}

#[test]
fn value_in_a_cancelled_run_needs_no_type() {
    let f = function(vec![], vec![]);
    let b = body(vec![w(5), r(5)]);
    let l = Locations::try_compute(&f, &b).unwrap();
    assert_eq!(l.delete, vec![0, 1]);
    assert!(l.new_locals.is_empty());
}

#[test]
fn live_values_never_share_a_slot() {
    let n: u32 = 40;
    let f = function(vec![], vec![Type::I32; n as usize]);
    // Value k lives from 2k to 2k + 5: up to three are live at once.
    let mut ops = Vec::new();
    for p in 0..(2 * n + 6) {
        let mut reads = Vec::new();
        let mut writes = Vec::new();
        if p % 2 == 0 && p / 2 < n {
            writes.push((Value(p / 2), 0));
        }
        if p >= 5 && (p - 5) % 2 == 0 && (p - 5) / 2 < n {
            reads.push((Value((p - 5) / 2), 0));
        }
        ops.push(SerializedOperator::Other { reads, writes });
    }
    let l = Locations::compute(&f, &body(ops));
    assert_eq!(l.new_locals.len(), 3);
    for a in 0..n {
        for b in (a + 1)..n {
            let overlap = 2 * a < 2 * b + 6 && 2 * b < 2 * a + 6;
            if overlap {
                assert_ne!(l.get(Value(a), 0), l.get(Value(b), 0));
            }
        }
    }
}

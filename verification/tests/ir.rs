use locations::pack_key;
use locations::FunctionBody;
use locations::Locations;
use locations::SerializedBody;
use locations::SerializedOperator;
use locations::Type;
use locations::Value;
use locations::ValueSpan;

#[test]
fn value_index_is_its_number() {
    assert_eq!(Value::new(7), Value(7));
    assert_eq!(Value(7).index(), 7);
    assert_eq!(Value(u32::MAX).index(), u32::MAX as usize);
    assert_eq!(Value::default(), Value(0));
}

#[test]
fn default_span_is_all_zero() {
    assert_eq!(
        ValueSpan::default(),
        ValueSpan { value: Value(0), multi_value_index: 0, start: 0, end: 0 }
    );
}

#[test]
fn type_codes_differ() {
    let all = [
        Type::I32,
        Type::I64,
        Type::F32,
        Type::F64,
        Type::V128,
        Type::FuncRef,
        Type::ExternRef,
        Type::ExnRef,
        Type::Func,
        Type::EmptyBlockType,
    ];
    for (i, a) in all.iter().enumerate() {
        assert_eq!(a.code(), i as u8);
        for b in all.iter().skip(i + 1) {
            assert_ne!(a.code(), b.code());
        }
    }
}

#[test]
fn lookup_type_finds_recorded_types_only() {
    let f = FunctionBody { locals: vec![], types: vec![vec![Type::I32, Type::F64], vec![]] };
    assert_eq!(f.lookup_type(Value(0), 0), Some(Type::I32));
    assert_eq!(f.lookup_type(Value(0), 1), Some(Type::F64));
    assert_eq!(f.lookup_type(Value(0), 2), None);
    assert_eq!(f.lookup_type(Value(1), 0), None);
    assert_eq!(f.lookup_type(Value(2), 0), None);
}

#[test]
fn keys_hold_value_and_component() {
    assert_eq!(pack_key(Value(0), 0), 0);
    assert_eq!(pack_key(Value(0), 5), 5);
    assert_eq!(pack_key(Value(1), 0), 1u128 << 64);
    assert_eq!(pack_key(Value(3), 9), (3u128 << 64) + 9);
    assert_eq!(
        pack_key(Value(u32::MAX), usize::MAX),
        ((u32::MAX as u128) << 64) + usize::MAX as u128
    );
    assert_ne!(pack_key(Value(1), 0), pack_key(Value(0), 1));
}

#[test]
fn locations_are_stored_under_the_key_of_the_pair() {
    let f = FunctionBody { locals: vec![Type::I32], types: vec![vec![], vec![Type::I32, Type::I64]] };
    let b = SerializedBody {
        operators: vec![
            SerializedOperator::Write(Value(1), 1),
            SerializedOperator::Other { reads: vec![(Value(1), 1)], writes: vec![] },
        ],
    };
    let l = Locations::compute(&f, &b);
    assert_eq!(l.locations.get(&pack_key(Value(1), 1)), Some(&1));
    assert_eq!(l.locations.len(), 1);
    assert_eq!(l.get(Value(1), 1), Some(1));
    assert_eq!(l.get(Value(1), 0), None);
    assert_eq!(l.new_locals, vec![Type::I64]);
}

#[test]
fn every_written_pair_gets_a_slot() {
    let f = FunctionBody { locals: vec![], types: vec![vec![Type::I32; 3]; 4] };
    let mut operators = Vec::new();
    for v in 0..4u32 {
        for i in 0..3usize {
            operators.push(SerializedOperator::Other { reads: vec![], writes: vec![(Value(v), i)] });
        }
    }
    for v in 0..4u32 {
        for i in 0..3usize {
            operators.push(SerializedOperator::Other { reads: vec![(Value(v), i)], writes: vec![] });
        }
    }
    let l = Locations::compute(&f, &SerializedBody { operators });
    assert_eq!(l.locations.len(), 12);
    assert_eq!(l.new_locals.len(), 12);
    for v in 0..4u32 {
        for i in 0..3usize {
            assert_eq!(l.get(Value(v), i), Some(v * 3 + i as u32));
        }
    }
    assert_eq!(l.get(Value(4), 0), None);
    assert_eq!(l.get(Value(0), 3), None);
}

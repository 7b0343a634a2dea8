use locations::compute_spans;
use locations::sort_by_end;
use locations::AllocError;
use locations::SerializedOperator;
use locations::Value;
use locations::ValueSpan;

fn span(v: u32, i: usize, start: usize, end: usize) -> ValueSpan {
    ValueSpan { value: Value(v), multi_value_index: i, start, end }
}

fn w(v: u32) -> SerializedOperator {
    SerializedOperator::Write(Value(v), 0)
}

fn r(v: u32) -> SerializedOperator {
    SerializedOperator::Read(Value(v), 0)
}

#[test]
fn span_len_counts_positions() {
    assert_eq!(span(0, 0, 3, 4).len(), 1);
    assert_eq!(span(0, 0, 2, 9).len(), 7);
}

#[test]
fn deleted_run_leaves_no_spans() {
    let ops = vec![w(1), w(2), r(2), r(1)];
    assert_eq!(compute_spans(&ops), Ok(vec![]));
}

#[test]
fn crossed_run_gives_two_spans() {
    let ops = vec![w(1), w(2), r(1), r(2)];
    assert_eq!(compute_spans(&ops), Ok(vec![span(1, 0, 0, 3), span(2, 0, 1, 4)]));
}

#[test]
fn spans_of_three_values() {
    let ops = vec![w(10), w(11), r(10), w(12), r(11), r(12)];
    assert_eq!(
        compute_spans(&ops),
        Ok(vec![span(10, 0, 0, 3), span(11, 0, 1, 5), span(12, 0, 3, 6)])
    );
}

#[test]
fn value_never_read_lives_one_position() {
    let ops = vec![w(4)];
    assert_eq!(compute_spans(&ops), Ok(vec![span(4, 0, 0, 1)]));
}

#[test]
fn second_write_keeps_the_start() {
    let ops = vec![
        w(1),
        SerializedOperator::Other { reads: vec![], writes: vec![] },
        w(1),
        SerializedOperator::Other { reads: vec![(Value(1), 0)], writes: vec![] },
    ];
    assert_eq!(compute_spans(&ops), Ok(vec![span(1, 0, 0, 4)]));
}

#[test]
fn last_touch_may_be_a_write() {
    let ops = vec![
        w(1),
        SerializedOperator::Other { reads: vec![(Value(1), 0)], writes: vec![] },
        SerializedOperator::Other { reads: vec![], writes: vec![] },
        SerializedOperator::Other { reads: vec![], writes: vec![(Value(1), 0)] },
    ];
    assert_eq!(compute_spans(&ops), Ok(vec![span(1, 0, 0, 4)]));
}

#[test]
fn components_have_spans_of_their_own() {
    let ops = vec![
        SerializedOperator::Other { reads: vec![], writes: vec![(Value(5), 0), (Value(5), 1)] },
        SerializedOperator::Other { reads: vec![(Value(5), 1)], writes: vec![] },
        SerializedOperator::Other { reads: vec![(Value(5), 0)], writes: vec![] },
    ];
    assert_eq!(compute_spans(&ops), Ok(vec![span(5, 0, 0, 3), span(5, 1, 0, 2)]));
}

#[test]
fn reads_come_before_writes_within_an_operator() {
    // The operator reads what it writes itself: nothing has written it yet.
    let ops =
        vec![SerializedOperator::Other { reads: vec![(Value(3), 0)], writes: vec![(Value(3), 0)] }];
    assert_eq!(
        compute_spans(&ops),
        Err(AllocError::ReadBeforeWrite { value: Value(3), index: 0 })
    );
}

#[test]
fn read_before_write_is_an_error() {
    let ops = vec![w(1), r(2)];
    assert_eq!(
        compute_spans(&ops),
        Err(AllocError::ReadBeforeWrite { value: Value(2), index: 0 })
    );
}

#[test]
fn first_bad_read_is_reported() {
    let ops = vec![
        SerializedOperator::Other { reads: vec![(Value(8), 2), (Value(9), 0)], writes: vec![] },
        r(7),
    ];
    assert_eq!(
        compute_spans(&ops),
        Err(AllocError::ReadBeforeWrite { value: Value(8), index: 2 })
    );
}

#[test]
fn write_in_a_deleted_run_does_not_count() {
    // Positions 0 and 1 cancel out, so the read at 3 has no write before it.
    let ops = vec![w(1), r(1), SerializedOperator::Other { reads: vec![], writes: vec![] }, r(1)];
    assert_eq!(
        compute_spans(&ops),
        Err(AllocError::ReadBeforeWrite { value: Value(1), index: 0 })
    );
}

#[test]
fn spans_skip_deleted_positions() {
    let ops = vec![w(1), w(2), r(2), SerializedOperator::Other { reads: vec![], writes: vec![] }, r(1)];
    // Nothing is deleted here: the run is abandoned at position 3.
    assert_eq!(compute_spans(&ops), Ok(vec![span(1, 0, 0, 5), span(2, 0, 1, 3)]));
    let ops = vec![w(3), w(1), r(1), SerializedOperator::Other { reads: vec![(Value(3), 0)], writes: vec![] }];
    assert_eq!(compute_spans(&ops), Ok(vec![span(3, 0, 0, 4), span(1, 0, 1, 3)]));
}

#[test]
fn sort_by_end_orders_by_end() {
    let spans = vec![span(1, 0, 0, 9), span(2, 0, 1, 3), span(3, 0, 2, 5)];
    assert_eq!(sort_by_end(&spans), vec![span(2, 0, 1, 3), span(3, 0, 2, 5), span(1, 0, 0, 9)]);
}

#[test]
fn sort_by_end_keeps_equal_ends_in_order() {
    let spans = vec![span(1, 0, 0, 4), span(2, 0, 1, 2), span(3, 0, 1, 4), span(4, 0, 2, 4)];
    assert_eq!(
        sort_by_end(&spans),
        vec![span(2, 0, 1, 2), span(1, 0, 0, 4), span(3, 0, 1, 4), span(4, 0, 2, 4)]
    );
}

#[test]
fn sort_by_end_of_nothing() {
    assert_eq!(sort_by_end(&vec![]), vec![]);
}

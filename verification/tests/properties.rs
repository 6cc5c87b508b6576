use rs_ipc_stream2df::batch::{Cell, DataType, Field, RowBatch, Schema};
use rs_ipc_stream2df::coalesce::{coalesce_batches_from_iter, concat_batches, BatchCoalescer};
use rs_ipc_stream2df::error::StreamError;

fn two_int32_schema() -> Schema {
    Schema::new(vec![
        Field::new("a".to_string(), DataType::Int32, false),
        Field::new("b".to_string(), DataType::Int32, false),
    ])
}

fn int32_col(data: Vec<i32>) -> Vec<Cell> {
    data.into_iter().map(Cell::Int32).collect()
}

fn two_col_batch(a_data: Vec<i32>, b_data: Vec<i32>) -> RowBatch {
    RowBatch::try_new(two_int32_schema(), vec![int32_col(a_data), int32_col(b_data)]).unwrap()
}

#[test]
fn row_count_is_conserved() {
    let iter = vec![
        Ok(two_col_batch(vec![1, 2], vec![10, 11])),
        Ok(two_col_batch(vec![3, 4, 5], vec![12, 13, 14])),
        Ok(two_col_batch(vec![6], vec![15])),
    ];
    let out = coalesce_batches_from_iter(two_int32_schema(), iter, 4).unwrap();
    assert_eq!(out.num_rows(), 6);
}

#[test]
fn values_keep_their_order() {
    let iter = vec![
        Ok(two_col_batch(vec![7, 8], vec![70, 80])),
        Ok(two_col_batch(vec![9], vec![90])),
    ];
    let out = coalesce_batches_from_iter(two_int32_schema(), iter, 2).unwrap();
    let a_expect = [7, 8, 9];
    let b_expect = [70, 80, 90];
    for i in 0..3 {
        assert_eq!(out.cell(0, i), Cell::Int32(a_expect[i]));
        assert_eq!(out.cell(1, i), Cell::Int32(b_expect[i]));
    }
}

#[test]
fn different_thresholds_agree() {
    let mk = || {
        vec![
            Ok(two_col_batch(vec![1, 2], vec![10, 11])),
            Ok(two_col_batch(vec![3, 4, 5], vec![12, 13, 14])),
            Ok(two_col_batch(vec![6], vec![15])),
        ]
    };
    let with_five = coalesce_batches_from_iter(two_int32_schema(), mk(), 5).unwrap();
    let with_three = coalesce_batches_from_iter(two_int32_schema(), mk(), 3).unwrap();
    assert_eq!(with_five.num_rows(), 6);
    assert!(with_five.value_eq(&with_three));
}

#[test]
fn zero_threshold_means_unbounded() {
    let iter = vec![
        Ok(two_col_batch(vec![1, 2, 3], vec![10, 11, 12])),
        Ok(two_col_batch(vec![4], vec![13])),
    ];
    let out = coalesce_batches_from_iter(two_int32_schema(), iter, 0).unwrap();
    let expected = two_col_batch(vec![1, 2, 3, 4], vec![10, 11, 12, 13]);
    assert_eq!(out, expected);
}

#[test]
fn end_to_end_scenario_values_survive() {
    let iter = vec![
        Ok(two_col_batch(vec![1, 2, 3, 4], vec![10, 11, 12, 13])),
        Ok(two_col_batch(vec![5, 6, 7, 8], vec![14, 15, 16, 17])),
        Ok(two_col_batch(vec![9, 10], vec![18, 19])),
    ];
    let out = coalesce_batches_from_iter(two_int32_schema(), iter, 5).unwrap();
    assert_eq!(out.num_rows(), 10);
    for i in 0..10 {
        let a = i as i32 + 1;
        let b = i as i32 + 10;
        assert_eq!(out.cell(0, i), Cell::Int32(a));
        assert_eq!(out.cell(1, i), Cell::Int32(b));
    }
}

#[test]
fn mismatched_schema_is_rejected() {
    let other_schema = Schema::new(vec![Field::new("c".to_string(), DataType::Int64, true)]);
    let stray = RowBatch::try_new(other_schema, vec![vec![Cell::Int64(5)]]).unwrap();
    let iter = vec![Ok(two_col_batch(vec![1], vec![10])), Ok(stray)];
    let result = coalesce_batches_from_iter(two_int32_schema(), iter, 10);
    assert_eq!(result.unwrap_err(), StreamError::SchemaMismatch);
}

#[test]
fn ragged_columns_are_rejected() {
    let result = RowBatch::try_new(
        two_int32_schema(),
        vec![int32_col(vec![1, 2]), int32_col(vec![10])],
    );
    assert_eq!(result.unwrap_err(), StreamError::SchemaMismatch);
}

#[test]
fn wrong_column_count_is_rejected() {
    let result = RowBatch::try_new(two_int32_schema(), vec![int32_col(vec![1, 2])]);
    assert_eq!(result.unwrap_err(), StreamError::SchemaMismatch);
}

#[test]
fn coalescer_emits_full_batches_and_keeps_the_rest() {
    let mut co = BatchCoalescer::new(two_int32_schema(), 3);
    let pushed = co.push_batch(&two_col_batch(
        vec![1, 2, 3, 4, 5, 6, 7],
        vec![10, 11, 12, 13, 14, 15, 16],
    ));
    assert!(pushed.is_ok());
    assert_eq!(co.num_completed(), 2);
    co.finish_buffered_batch();
    assert_eq!(co.num_completed(), 3);
    let first = co.next_completed_batch().unwrap();
    let second = co.next_completed_batch().unwrap();
    let third = co.next_completed_batch().unwrap();
    assert!(co.next_completed_batch().is_none());
    assert_eq!(first.num_rows(), 3);
    assert_eq!(second.num_rows(), 3);
    assert_eq!(third.num_rows(), 1);
    assert_eq!(first, two_col_batch(vec![1, 2, 3], vec![10, 11, 12]));
    assert_eq!(second, two_col_batch(vec![4, 5, 6], vec![13, 14, 15]));
    assert_eq!(third, two_col_batch(vec![7], vec![16]));
}

#[test]
fn coalescer_rejects_foreign_schema() {
    let mut co = BatchCoalescer::new(two_int32_schema(), 3);
    let other_schema = Schema::new(vec![Field::new("a".to_string(), DataType::Boolean, false)]);
    let stray = RowBatch::try_new(other_schema, vec![vec![Cell::Boolean(true)]]).unwrap();
    let rejected = co.push_batch(&stray);
    assert_eq!(rejected.unwrap_err(), StreamError::SchemaMismatch);
}

#[test]
fn concat_batches_joins_in_order() {
    let parts = vec![
        two_col_batch(vec![1, 2], vec![10, 11]),
        two_col_batch(vec![3], vec![12]),
    ];
    let schema = two_int32_schema();
    let out = concat_batches(&schema, &parts).unwrap();
    assert_eq!(out, two_col_batch(vec![1, 2, 3], vec![10, 11, 12]));
}

#[test]
fn concat_batches_rejects_mixed_schemas() {
    let other_schema = Schema::new(vec![Field::new("a".to_string(), DataType::Int32, true)]);
    let stray = RowBatch::try_new(other_schema, vec![vec![Cell::Int32(1)]]).unwrap();
    let parts = vec![two_col_batch(vec![1], vec![10]), stray];
    let schema = two_int32_schema();
    assert_eq!(
        concat_batches(&schema, &parts).unwrap_err(),
        StreamError::SchemaMismatch
    );
}

#[test]
fn nullable_cells_pass_through() {
    let schema = Schema::new(vec![Field::new("v".to_string(), DataType::Int64, true)]);
    let batch = RowBatch::try_new(
        schema,
        vec![vec![Cell::Int64(5), Cell::Null, Cell::Int64(7)]],
    )
    .unwrap();
    let schema2 = Schema::new(vec![Field::new("v".to_string(), DataType::Int64, true)]);
    let out = coalesce_batches_from_iter(schema2, vec![Ok(batch)], 2).unwrap();
    assert_eq!(out.num_rows(), 3);
    assert_eq!(out.cell(0, 1), Cell::Null);
}

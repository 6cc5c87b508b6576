use rs_ipc_stream2df::batch::{Cell, DataType, Field, RowBatch, Schema};
use rs_ipc_stream2df::coalesce::coalesce_batches_from_iter;
use rs_ipc_stream2df::error::StreamError;

fn create_test_schema() -> Schema {
    Schema::new(vec![
        Field::new("a".to_string(), DataType::Int32, false),
        Field::new("b".to_string(), DataType::Int32, false),
    ])
}

fn int32_col(data: Vec<i32>) -> Vec<Cell> {
    data.into_iter().map(Cell::Int32).collect()
}

fn create_test_batch(schema: Schema, a_data: Vec<i32>, b_data: Vec<i32>) -> RowBatch {
    RowBatch::try_new(schema, vec![int32_col(a_data), int32_col(b_data)]).unwrap()
}

#[test]
fn test_coalesce_batches_from_iter_empty() {
    let schema = create_test_schema();
    let iter: Vec<Result<RowBatch, StreamError>> = Vec::new();
    let result = coalesce_batches_from_iter(schema, iter, 10);
    assert!(result.is_ok());
    let batch = result.unwrap();
    assert_eq!(batch.num_rows(), 0);
    assert_eq!(batch.num_columns(), 2);
}

#[test]
fn test_coalesce_batches_from_iter_single_batch() {
    let schema = create_test_schema();
    let batch = create_test_batch(create_test_schema(), vec![1, 2, 3], vec![4, 5, 6]);
    let iter = vec![Ok(batch.duplicate())];
    let result = coalesce_batches_from_iter(schema, iter, 10);
    assert!(result.is_ok());
    let coalesced_batch = result.unwrap();
    assert_eq!(coalesced_batch, batch);
}

#[test]
fn test_coalesce_batches_from_iter_multiple_small_batches() {
    let schema = create_test_schema();
    let batch1 = create_test_batch(create_test_schema(), vec![1, 2], vec![10, 11]);
    let batch2 = create_test_batch(create_test_schema(), vec![3, 4, 5], vec![12, 13, 14]);
    let batch3 = create_test_batch(create_test_schema(), vec![6], vec![15]);

    let iter = vec![Ok(batch1), Ok(batch2), Ok(batch3)];
    let result = coalesce_batches_from_iter(schema, iter, 5);
    assert!(result.is_ok());
    let coalesced_batch = result.unwrap();

    assert_eq!(coalesced_batch.num_rows(), 6);
    let expected_batch = create_test_batch(
        create_test_schema(),
        vec![1, 2, 3, 4, 5, 6],
        vec![10, 11, 12, 13, 14, 15],
    );
    assert_eq!(coalesced_batch, expected_batch);
}

#[test]
fn test_coalesce_batches_from_iter_exceed_max_rows() {
    let schema = create_test_schema();
    let batch1 = create_test_batch(create_test_schema(), vec![1, 2, 3, 4], vec![10, 11, 12, 13]);
    let batch2 = create_test_batch(create_test_schema(), vec![5, 6, 7, 8], vec![14, 15, 16, 17]);
    let batch3 = create_test_batch(create_test_schema(), vec![9, 10], vec![18, 19]);

    let iter = vec![Ok(batch1), Ok(batch2), Ok(batch3)];
    let result = coalesce_batches_from_iter(schema, iter, 5);
    assert!(result.is_ok());
    let coalesced_batch = result.unwrap();

    assert_eq!(coalesced_batch.num_rows(), 10);
    let expected_batch = create_test_batch(
        create_test_schema(),
        vec![1, 2, 3, 4, 5, 6, 7, 8, 9, 10],
        vec![10, 11, 12, 13, 14, 15, 16, 17, 18, 19],
    );
    assert_eq!(coalesced_batch, expected_batch);
}

#[test]
fn test_coalesce_batches_from_iter_error_in_stream() {
    let schema = create_test_schema();
    let batch1 = create_test_batch(create_test_schema(), vec![1, 2], vec![10, 11]);
    let error_batch = Err(StreamError::Decode("test error".to_string()));

    let iter = vec![Ok(batch1), error_batch];
    let result = coalesce_batches_from_iter(schema, iter, 10);
    assert!(result.is_err());
    match result.unwrap_err() {
        StreamError::Decode(msg) => assert_eq!(msg, "test error"),
        other => panic!("unexpected failure kind: {:?}", other),
    }
}

use plotstream::datacontainer::{DataContainer, StoreError};

#[test]
fn test_data_container_default() {
    let container = DataContainer::default();
    assert_eq!(container.measurements.len(), 0);
    assert_eq!(container.look_back, 500);
    assert_eq!(container.stream_count, 0);
    assert_eq!(container.plot_tracker.len(), 0);
}

#[test]
fn test_append_values() {
    let mut container = DataContainer::default();

    // Appending to a single stream
    container.append_values(0, 1.0f64.to_bits());
    container.append_values(0, 2.0f64.to_bits());

    assert_eq!(
        container.read_full(0),
        Ok(vec![1.0f64.to_bits(), 2.0f64.to_bits()])
    );
    assert_eq!(container.stream_count, 1);

    // Appending to multiple streams
    container.append_values(1, 3.0f64.to_bits());
    container.append_values(2, 4.0f64.to_bits());

    assert_eq!(container.read_full(1), Ok(vec![3.0f64.to_bits()]));
    assert_eq!(container.read_full(2), Ok(vec![4.0f64.to_bits()]));
    assert_eq!(container.stream_count, 3);
}

#[test]
fn test_append_values_lookback() {
    let mut container = DataContainer::new(2);

    container.append_values(0, 1.0f64.to_bits());
    container.append_values(0, 2.0f64.to_bits());
    container.append_values(0, 3.0f64.to_bits());

    assert_eq!(
        container.read_full(0),
        Ok(vec![2.0f64.to_bits(), 3.0f64.to_bits()])
    );
}

#[test]
fn test_get_plotpoints() {
    let mut container = DataContainer::default();
    container.append_values(0, 1.0f64.to_bits());
    container.append_values(0, 2.0f64.to_bits());

    let plot_points = container.get_plotpoints(0).unwrap();

    assert_eq!(plot_points.len(), 2);
    assert_eq!(plot_points[0].0, 0);
    assert_eq!(f64::from_bits(plot_points[0].1), 1.0);
    assert_eq!(plot_points[1].0, 1);
    assert_eq!(f64::from_bits(plot_points[1].1), 2.0);
}

#[test]
fn test_update_tracker() {
    let mut container = DataContainer::default();
    container.stream_count = 3;
    container.update_tracker();

    assert_eq!(container.plot_tracker.len(), 3);
    assert_eq!(container.plot_tracker.get(0), Some(false));
    assert_eq!(container.plot_tracker.get(1), Some(false));
    assert_eq!(container.plot_tracker.get(2), Some(false));

    // Calling update_tracker() again doesn't change anything
    container.update_tracker();
    assert_eq!(container.plot_tracker.len(), 3);

    // Updating an existing tracker entry survives a further call
    container.plot_tracker.set(1, true);
    container.update_tracker();
    assert_eq!(container.plot_tracker.get(1), Some(true));
}

#[test]
fn test_multiple_streams() {
    let mut container = DataContainer::default();

    container.append_values(0, 1.0f64.to_bits());
    container.append_values(1, 2.0f64.to_bits());
    container.append_values(2, 3.0f64.to_bits());
    container.append_values(0, 4.0f64.to_bits());

    assert_eq!(container.stream_count, 3);
    assert_eq!(
        container.read_full(0),
        Ok(vec![1.0f64.to_bits(), 4.0f64.to_bits()])
    );
    assert_eq!(container.read_full(1), Ok(vec![2.0f64.to_bits()]));
    assert_eq!(container.read_full(2), Ok(vec![3.0f64.to_bits()]));
}

#[test]
fn test_capacity_two_evicts_oldest() {
    // capacity 2: the third append evicts the first value
    let mut container = DataContainer::new(2);
    container.append_values(0, 1.0f64.to_bits());
    container.append_values(0, 2.0f64.to_bits());
    container.append_values(0, 3.0f64.to_bits());
    assert_eq!(
        container.read_full(0),
        Ok(vec![2.0f64.to_bits(), 3.0f64.to_bits()])
    );
}

#[test]
fn test_sparse_indices_and_missing_stream() {
    // Appends to indices 0 and 2 create two streams; index 1 has none.
    let mut container = DataContainer::default();
    container.append_values(0, 1.0f64.to_bits());
    container.append_values(2, 5.0f64.to_bits());
    assert_eq!(container.stream_count, 2);
    assert_eq!(container.read_full(1), Err(StoreError::StreamNotFound));
    assert_eq!(container.get_plotpoints(1), Err(StoreError::StreamNotFound));
}

#[test]
fn test_read_full_empty_container() {
    let container = DataContainer::default();
    assert_eq!(container.read_full(0), Err(StoreError::StreamNotFound));
}

#[test]
fn test_retention_over_long_run() {
    // 600 appends through a 500-sample window keep exactly the last 500.
    let mut container = DataContainer::default();
    for v in 0u64..600 {
        container.append_values(0, v);
    }
    let full = container.read_full(0).unwrap();
    assert_eq!(full.len(), 500);
    assert_eq!(full[0], 100);
    assert_eq!(full[499], 599);
}

#[test]
fn test_append_row_fills_columns() {
    let mut container = DataContainer::new(2);
    container.append_row(&vec![10u64, 20u64, 30u64]);
    container.append_row(&vec![11u64, 21u64]);
    container.append_row(&vec![12u64]);
    assert_eq!(container.stream_count, 3);
    assert_eq!(container.read_full(0), Ok(vec![11u64, 12u64]));
    assert_eq!(container.read_full(1), Ok(vec![20u64, 21u64]));
    assert_eq!(container.read_full(2), Ok(vec![30u64]));
}

#[test]
fn test_append_row_empty_changes_nothing() {
    let mut container = DataContainer::default();
    container.append_row(&Vec::new());
    assert_eq!(container.stream_count, 0);
    assert_eq!(container.read_full(0), Err(StoreError::StreamNotFound));
}

#[test]
fn test_visible_streams_follows_flags() {
    let mut container = DataContainer::default();
    container.append_row(&vec![1u64, 2u64, 3u64]);
    container.update_tracker();
    assert_eq!(container.visible_streams(), Vec::<usize>::new());
    container.plot_tracker.set(0, true);
    container.plot_tracker.set(2, true);
    assert_eq!(container.visible_streams(), vec![0usize, 2usize]);
    container.plot_tracker.set(0, false);
    assert_eq!(container.visible_streams(), vec![2usize]);
}

#[test]
fn test_interleaved_appends_to_distinct_indices() {
    // Two interleavings of the same appends to distinct indices leave the
    // same store behind, with no update lost.
    let mut one = DataContainer::new(3);
    one.append_values(0, 7u64);
    one.append_values(1, 8u64);
    one.append_values(2, 9u64);

    let mut other = DataContainer::new(3);
    other.append_values(2, 9u64);
    other.append_values(0, 7u64);
    other.append_values(1, 8u64);

    assert_eq!(one.stream_count, other.stream_count);
    assert_eq!(one.read_full(0), other.read_full(0));
    assert_eq!(one.read_full(1), other.read_full(1));
    assert_eq!(one.read_full(2), other.read_full(2));
}

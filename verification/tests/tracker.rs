use plotstream::tracker::PlotTracker;

#[test]
fn test_tracker_starts_empty() {
    let tracker = PlotTracker::new();
    assert!(tracker.is_empty());
    assert_eq!(tracker.len(), 0);
    assert_eq!(tracker.get(0), None);
}

#[test]
fn test_first_initialization_wins() {
    // The first populating call freezes the key set; a later call with a
    // different stream count changes nothing.
    let mut tracker = PlotTracker::new();
    tracker.ensure_initialized(2);
    assert_eq!(tracker.len(), 2);
    tracker.ensure_initialized(5);
    assert_eq!(tracker.len(), 2);
    assert_eq!(tracker.get(0), Some(false));
    assert_eq!(tracker.get(1), Some(false));
    assert_eq!(tracker.get(2), None);
    assert_eq!(tracker.get(4), None);
}

#[test]
fn test_initialization_on_empty_count_is_no_trigger() {
    // Populating with a stream count of zero leaves the tracker empty, so
    // a later call still populates it.
    let mut tracker = PlotTracker::new();
    tracker.ensure_initialized(0);
    assert!(tracker.is_empty());
    tracker.ensure_initialized(3);
    assert_eq!(tracker.len(), 3);
}

#[test]
fn test_initialization_never_overwrites() {
    let mut tracker = PlotTracker::new();
    tracker.ensure_initialized(2);
    tracker.set(1, true);
    tracker.ensure_initialized(2);
    assert_eq!(tracker.get(1), Some(true));
    assert_eq!(tracker.get(0), Some(false));
}

#[test]
fn test_set_creates_entry_beyond_keys() {
    let mut tracker = PlotTracker::new();
    tracker.ensure_initialized(2);
    tracker.set(4, true);
    assert_eq!(tracker.len(), 3);
    assert_eq!(tracker.get(4), Some(true));
    // Index 3 still has no entry, which is distinct from a false flag.
    assert_eq!(tracker.get(3), None);
    assert_eq!(tracker.get(0), Some(false));
}

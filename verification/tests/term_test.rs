use bittorrent::term::{filled_cells, first_visible, layout, LogBuffer, MAX_LOG_ENTRIES};

#[test]
fn log_keeps_the_newest_entries() {
    let mut log = LogBuffer::new();
    for n in 0..(MAX_LOG_ENTRIES as u64 + 1) {
        log.add_log(n, format!("line {}", n));
    }
    // Up to the ceiling and one more nothing is dropped.
    assert_eq!(log.len(), 1001);
    assert_eq!(log.entries()[0].timestamp, 0);
    log.add_log(1001, String::from("line 1001"));
    assert_eq!(log.len(), 1001);
    assert_eq!(log.entries()[0].timestamp, 1);
    assert_eq!(log.entries()[0].message, "line 1");
    assert_eq!(log.entries()[1000].timestamp, 1001);
    assert_eq!(log.entries()[1000].message, "line 1001");
}

#[test]
fn screen_layout() {
    let screen = layout(120, 40);
    assert_eq!(screen.split, 40);
    assert_eq!(screen.bar_width, 36);
    assert_eq!(screen.visible_height, 38);
    assert_eq!(screen.message_width, 65);
    let tiny = layout(9, 1);
    assert_eq!(tiny.split, 3);
    assert_eq!(tiny.bar_width, 0);
    assert_eq!(tiny.visible_height, 0);
    assert_eq!(tiny.message_width, 0);
}

#[test]
fn visible_window_and_progress_bar() {
    assert_eq!(first_visible(100, 38), 62);
    assert_eq!(first_visible(10, 38), 0);
    assert_eq!(filled_cells(36, 0, 10), 0);
    assert_eq!(filled_cells(36, 5, 10), 18);
    assert_eq!(filled_cells(36, 1, 3), 12);
    assert_eq!(filled_cells(36, 10, 10), 36);
    assert_eq!(filled_cells(36, 0, 0), 0);
}

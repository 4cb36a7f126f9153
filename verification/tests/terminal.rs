use orion_chat::terminal::{scroll_for, Messages, MouseMove, Scroll, READ_INTERVAL_NANOS};

#[test]
fn scroll_follows_wheel() {
    assert_eq!(scroll_for(MouseMove::ScrollUp), Some(Scroll::Up));
    assert_eq!(scroll_for(MouseMove::ScrollDown), Some(Scroll::Down));
    assert_eq!(scroll_for(MouseMove::Other), None);
}

#[test]
fn new_pane_reads_at_first_tick() {
    let mut m = Messages::new();
    assert!(m.tick(0));
    assert_eq!(m.ts, 0);
}

#[test]
fn pane_waits_a_second_after_a_message() {
    let mut m = Messages::new();
    assert!(m.tick(16_000_000));
    assert_eq!(m.accept_chunk(b"hi there", 2), Some("hi".to_string()));
    assert_eq!(m.ts, READ_INTERVAL_NANOS);
    assert!(!m.tick(400_000_000));
    assert_eq!(m.ts, 600_000_000);
    assert!(!m.tick(599_999_999));
    assert_eq!(m.ts, 1);
    assert!(m.tick(5));
    assert_eq!(m.ts, 0);
}

#[test]
fn invalid_chunk_leaves_timer() {
    let mut m = Messages::new();
    m.ts = 7;
    assert_eq!(m.accept_chunk(&[0xff, 0xfe], 2), None);
    assert_eq!(m.ts, 7);
}

#[test]
fn empty_chunk_is_empty_message() {
    let mut m = Messages::new();
    assert_eq!(m.accept_chunk(&[0u8; 64], 0), Some(String::new()));
    assert_eq!(m.ts, READ_INTERVAL_NANOS);
}

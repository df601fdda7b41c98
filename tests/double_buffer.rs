use audio_dsp::double_buffer::{DoubleBuffer, FeedError};
use audio_dsp::window::{get, WindowKind};

#[test]
fn two_frames_in_one_block_are_refused() {
    let mut db = DoubleBuffer::new(4, 0f32);
    let block = [1f32; 8];
    assert_eq!(db.feed(&block), Err(FeedError::TooBig(8)));
    assert_eq!(db.feed(&[1.0]), Err(FeedError::BothFull));
}

#[test]
fn no_frame_before_first_full_cycle() {
    let mut db = DoubleBuffer::new(4, 0f32);
    let mut buf = [5f32; 4];
    assert_eq!(db.feed(&[1.0, 2.0, 3.0]), Ok(false));
    assert!(!db.time(&mut buf));
    assert_eq!(buf, [5.0; 4]);
    assert!(db.completed().is_none());
}

#[test]
fn frames_alternate_between_slots() {
    let mut db = DoubleBuffer::new(4, 0i32);
    assert_eq!(db.frame_size(), 4);
    let mut buf = [0i32; 4];
    assert_eq!(db.feed(&[1, 2, 3]), Ok(false));
    assert_eq!(db.feed(&[4, 5, 6]), Ok(true));
    assert!(db.time(&mut buf));
    assert_eq!(buf, [1, 2, 3, 4]);
    assert_eq!(db.feed(&[7, 8]), Ok(true));
    assert!(db.time(&mut buf));
    assert_eq!(buf, [5, 6, 7, 8]);
    assert_eq!(db.completed(), Some(&[5, 6, 7, 8][..]));
    assert_eq!(db.feed(&[9, 10, 11]), Ok(false));
    assert!(db.time(&mut buf));
    assert_eq!(buf, [5, 6, 7, 8]);
    assert_eq!(db.feed(&[12, 13, 14, 15]), Ok(true));
    assert!(db.time(&mut buf));
    assert_eq!(buf, [9, 10, 11, 12]);
}

#[test]
fn block_of_exactly_one_frame_completes_it() {
    let mut db = DoubleBuffer::new(2, 0u8);
    assert_eq!(db.feed(&[1, 2]), Ok(true));
    assert_eq!(db.completed(), Some(&[1u8, 2][..]));
}

#[test]
fn window_selection_by_index() {
    assert_eq!(get(0), WindowKind::Rectangular);
    assert_eq!(get(1), WindowKind::Bartlett);
    assert_eq!(get(2), WindowKind::Hanning);
    assert_eq!(get(3), WindowKind::Hamming);
    assert_eq!(get(4), WindowKind::Blackman);
    assert_eq!(get(5), WindowKind::Rectangular);
    assert_eq!(get(255), WindowKind::Rectangular);
}

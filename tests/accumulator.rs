use audio_dsp::accumulator::Accumulator;

#[test]
fn fill_takes_what_fits() {
    let mut acc = Accumulator::new(4, 0f32);
    assert_eq!(acc.capacity(), 4);
    assert!(!acc.is_full());
    let block = [1f32, 2.0, 3.0];
    assert_eq!(acc.fill(&block, 0), 3);
    assert_eq!(acc.len(), 3);
    assert!(!acc.is_full());
    let next = acc.fill(&[4.0, 5.0, 6.0], 0);
    assert_eq!(next, 1);
    assert!(acc.is_full());
    assert_eq!(acc.contents_slice(), &[1.0, 2.0, 3.0, 4.0]);
}

#[test]
fn fill_from_offset_and_remainder() {
    let mut acc = Accumulator::new(3, 0u8);
    let block = [9u8, 8, 7, 6, 5, 4, 3];
    assert_eq!(acc.fill(&block, 2), 5);
    assert_eq!(acc.contents_slice(), &[7, 6, 5]);
    assert_eq!(acc.fill(&block, 5), 5);
    assert_eq!(block.len() - 5, 2);
}

#[test]
fn empty_block_changes_nothing() {
    let mut acc = Accumulator::new(2, 0i16);
    assert_eq!(acc.fill(&[], 0), 0);
    assert_eq!(acc.len(), 0);
}

#[test]
fn repeated_fills_stop_at_capacity() {
    let mut acc = Accumulator::new(5, 0i32);
    let mut total = 0;
    for len in [2usize, 0, 1, 4, 3] {
        let block = vec![1i32; len];
        let next = acc.fill(&block, 0);
        total += next;
        assert!(acc.len() <= 5);
    }
    assert_eq!(total, 5);
    assert_eq!(acc.len(), 5);
}

#[test]
fn empty_resets_length() {
    let mut acc = Accumulator::new(2, 0f32);
    acc.fill(&[1.0, 2.0], 0);
    assert!(acc.is_full());
    acc.empty();
    assert_eq!(acc.len(), 0);
    assert_eq!(acc.contents_slice(), &[] as &[f32]);
}

fn frames(acc: &mut Accumulator<i32>, block: &[i32]) -> Vec<Vec<i32>> {
    let mut out = Vec::new();
    let mut start = 0;
    loop {
        start = acc.next_frame(block, start);
        if !acc.is_full() {
            return out;
        }
        out.push(acc.contents_slice().to_vec());
    }
}

#[test]
fn chunking_does_not_change_frames() {
    let stream: Vec<i32> = (0..8).collect();
    let mut whole = Accumulator::new(4, 0);
    let one = frames(&mut whole, &stream);
    let mut split = Accumulator::new(4, 0);
    let mut two = frames(&mut split, &stream[..4]);
    two.extend(frames(&mut split, &stream[4..]));
    assert_eq!(one, vec![vec![0, 1, 2, 3], vec![4, 5, 6, 7]]);
    assert_eq!(one, two);
    let mut odd = Accumulator::new(4, 0);
    let mut three = frames(&mut odd, &stream[..3]);
    three.extend(frames(&mut odd, &stream[3..7]));
    three.extend(frames(&mut odd, &stream[7..]));
    assert_eq!(one, three);
}

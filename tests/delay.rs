use audio_dsp::delay::{Delay, LengthMismatch};

fn feedback(x: f32, d: f32) -> (f32, f32) {
    let y = x + d;
    (y, y * 0.707)
}

#[test]
fn impulse_returns_after_one_delay_length() {
    let mut delay = Delay::new(4, 0f32);
    let x = [1f32, 0., 0., 0., 0., 0., 0., 0.];
    let mut y = [9f32; 8];
    assert_eq!(delay.process(&x, &mut y, &feedback), Ok(()));
    for (i, v) in y.iter().enumerate() {
        let expected = match i {
            0 => 1.0,
            4 => 0.707,
            _ => 0.0,
        };
        assert!((v - expected).abs() < 1e-6, "sample {} is {}", i, v);
    }
}

#[test]
fn output_is_input_plus_delayed_value() {
    let mut delay = Delay::new(3, 0f32);
    let x = [0.5f32, -0.25, 0.125, 1.0, 0.0, 0.0, 0.0];
    let mut y = [0f32; 7];
    delay.process(&x, &mut y, &feedback).unwrap();
    assert_eq!(y.len(), x.len());
    assert_eq!(y[0], 0.5);
    assert_eq!(y[1], -0.25);
    assert_eq!(y[2], 0.125);
    assert!((y[3] - (1.0 + 0.5 * 0.707)).abs() < 1e-6);
    assert!((y[4] - (-0.25 * 0.707)).abs() < 1e-6);
    assert!((y[6] - (1.0 + 0.5 * 0.707) * 0.707).abs() < 1e-6);
}

#[test]
fn silence_stays_silent() {
    let mut delay = Delay::new(5, 0f32);
    let x = [0f32; 12];
    let mut y = [1f32; 12];
    delay.process(&x, &mut y, &feedback).unwrap();
    assert!(y.iter().all(|v| *v == 0.0));
}

#[test]
fn reset_forgets_history() {
    let mut delay = Delay::new(2, 0f32);
    let x = [1f32, 1.0, 1.0];
    let mut y = [0f32; 3];
    delay.process(&x, &mut y, &feedback).unwrap();
    delay.reset(0.0);
    let mut one = [0f32; 1];
    delay.process(&[0.75], &mut one, &feedback).unwrap();
    assert_eq!(one[0], 0.75);
}

#[test]
fn mismatched_lengths_are_reported() {
    let mut delay = Delay::new(4, 0f32);
    let mut y = [7f32; 2];
    let r = delay.process(&[1.0, 2.0, 3.0], &mut y, &feedback);
    assert_eq!(r, Err(LengthMismatch { input: 3, output: 2 }));
    assert_eq!(y, [7.0, 7.0]);
    let mut z = [0f32; 1];
    delay.process(&[0.5], &mut z, &feedback).unwrap();
    assert_eq!(z[0], 0.5);
}

#[test]
fn cursor_wraps_around() {
    let mut delay = Delay::new(3, 0i32);
    assert_eq!(delay.len(), 3);
    let y0 = delay.tick(5, &|x: i32, d: i32| (x + d, x));
    assert_eq!(y0, 5);
    delay.advance();
    delay.advance();
    assert_eq!(delay.current(), 5);
}

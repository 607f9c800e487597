use ravr_dsp::DelayLine;

#[test]
fn new_line_holds_fill() {
    let d = DelayLine::new(3, 0.5f32);
    assert_eq!(d.len(), 3);
    assert_eq!(d.front(), 0.5);
}

#[test]
fn value_comes_back_after_len_pushes() {
    let mut d = DelayLine::new(3, 0i32);
    let mut out = Vec::new();
    for x in 1..=7 {
        out.push(d.front());
        d.push(x);
    }
    assert_eq!(out, vec![0, 0, 0, 1, 2, 3, 4]);
}

#[test]
fn single_slot_line_delays_by_one() {
    let mut d = DelayLine::new(1, 0u8);
    d.push(5);
    assert_eq!(d.front(), 5);
    d.push(6);
    assert_eq!(d.front(), 6);
}

#[test]
fn fill_clears_history_and_keeps_length() {
    let mut d = DelayLine::new(4, 0.0f32);
    for x in [1.0f32, 2.0, 3.0] {
        d.push(x);
    }
    d.fill(0.0);
    assert_eq!(d.len(), 4);
    for _ in 0..4 {
        assert_eq!(d.front(), 0.0);
        d.push(9.0);
    }
    assert_eq!(d.front(), 9.0);
}

#[test]
fn comb_feedback_on_delay_line() {
    // y[n] = x[n - 2] + 0.5 * y[n - 2], fed an impulse.
    let mut d = DelayLine::new(2, 0.0f32);
    let input = [1.0f32, 0.0, 0.0, 0.0, 0.0, 0.0, 0.0];
    let mut out = Vec::new();
    for x in input {
        let delayed = d.front();
        d.push(x + delayed * 0.5);
        out.push(delayed);
    }
    assert_eq!(out, vec![0.0, 0.0, 1.0, 0.0, 0.5, 0.0, 0.25]);
}

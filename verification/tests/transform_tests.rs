use cool_turkey::{cooley_tukey, dft, FftError};
use num::complex::Complex32;

fn close(a: Complex32, b: Complex32, eps: f32) -> bool {
    (a - b).norm() < eps
}

fn run_dft(signal: &Vec<Complex32>) -> Vec<Complex32> {
    let mut spectrum = vec![Complex32::new(0.0, 0.0); signal.len()];
    dft(signal, &mut spectrum).unwrap();
    spectrum
}

fn run_ct(signal: &Vec<Complex32>) -> Vec<Complex32> {
    let mut spectrum = vec![Complex32::new(0.0, 0.0); signal.len()];
    cooley_tukey(signal, &mut spectrum).unwrap();
    spectrum
}

#[test]
fn two_point_known_values() {
    let signal = vec![Complex32::new(1.0, 0.0), Complex32::new(-1.0, 0.0)];
    let expected = vec![Complex32::new(0.0, 0.0), Complex32::new(2.0, 0.0)];
    let spectrum = run_ct(&signal);
    let reference = run_dft(&signal);
    for i in 0..2 {
        assert!(close(spectrum[i], expected[i], 1e-4));
        assert!(close(reference[i], expected[i], 1e-4));
    }
}

#[test]
fn three_point_known_values() {
    let signal = vec![
        Complex32::new(1.0, 1.0),
        Complex32::new(2.0, -3.0),
        Complex32::new(-1.0, 4.0),
    ];
    let expected = vec![
        Complex32::new(2.0, 2.0),
        Complex32::new(-5.562, -2.098),
        Complex32::new(6.562, 3.098),
    ];
    let spectrum = run_ct(&signal);
    let reference = run_dft(&signal);
    for i in 0..3 {
        assert!(close(spectrum[i], expected[i], 1e-2));
        assert!(close(reference[i], expected[i], 1e-2));
    }
}

#[test]
fn four_point_known_values() {
    let signal = vec![
        Complex32::new(0.0, 1.0),
        Complex32::new(2.5, -3.0),
        Complex32::new(-1.0, -1.0),
        Complex32::new(4.0, 0.0),
    ];
    let expected = vec![
        Complex32::new(5.5, -3.0),
        Complex32::new(-2.0, 3.5),
        Complex32::new(-7.5, 3.0),
        Complex32::new(4.0, 0.5),
    ];
    let spectrum = run_ct(&signal);
    let reference = run_dft(&signal);
    for i in 0..4 {
        assert!(close(spectrum[i], expected[i], 1e-2));
        assert!(close(reference[i], expected[i], 1e-2));
    }
}

#[test]
fn six_point_known_values() {
    let signal = vec![
        Complex32::new(1.0, 1.0),
        Complex32::new(2.0, 2.0),
        Complex32::new(3.0, 3.0),
        Complex32::new(4.0, 4.0),
        Complex32::new(5.0, 5.0),
        Complex32::new(6.0, 6.0),
    ];
    let expected = vec![
        Complex32::new(21.0, 21.0),
        Complex32::new(-8.16, 2.16),
        Complex32::new(-4.76, -1.24),
        Complex32::new(-3.0, -3.0),
        Complex32::new(-1.24, -4.76),
        Complex32::new(2.16, -8.16),
    ];
    let spectrum = run_ct(&signal);
    for i in 0..6 {
        assert!(
            close(spectrum[i], expected[i], 1e-1),
            "bin {}: {} vs {}",
            i,
            spectrum[i],
            expected[i]
        );
    }
}

#[test]
fn identity_on_single_element() {
    let signal = vec![Complex32::new(1.5, -2.5)];
    let spectrum = run_ct(&signal);
    assert_eq!(spectrum[0], signal[0]);
    let reference = run_dft(&signal);
    assert!(close(reference[0], signal[0], 1e-6));
}

#[test]
fn empty_signal_is_a_no_op() {
    let signal: Vec<Complex32> = vec![];
    let mut spectrum: Vec<Complex32> = vec![];
    assert!(cooley_tukey(&signal, &mut spectrum).is_ok());
    assert!(spectrum.is_empty());
}

#[test]
fn prime_length_matches_direct_dft_exactly() {
    let signal = vec![
        Complex32::new(0.25, -1.0),
        Complex32::new(3.5, 2.0),
        Complex32::new(-2.0, 0.75),
    ];
    let fast = run_ct(&signal);
    let direct = run_dft(&signal);
    for i in 0..3 {
        assert_eq!(fast[i], direct[i]);
    }
}

#[test]
fn equivalence_across_small_lengths() {
    for n in 1..=16usize {
        let mut signal = Vec::new();
        for i in 0..n {
            let x = i as f32;
            signal.push(Complex32::new((x * 0.7).sin(), (x * 1.3).cos() - 0.5));
        }
        let fast = run_ct(&signal);
        let direct = run_dft(&signal);
        let mut total = 0.0f32;
        for i in 0..n {
            total += (fast[i] - direct[i]).norm();
        }
        assert!(total < 1.0, "length {}: total deviation {}", n, total);
    }
}

#[test]
fn linearity_of_the_direct_dft() {
    let a = Complex32::new(2.0, -1.0);
    let b = Complex32::new(-0.5, 3.0);
    let x = vec![
        Complex32::new(1.0, 0.5),
        Complex32::new(-2.0, 1.0),
        Complex32::new(0.25, -1.5),
        Complex32::new(3.0, 2.0),
    ];
    let y = vec![
        Complex32::new(-1.0, 2.0),
        Complex32::new(0.5, 0.5),
        Complex32::new(2.0, -2.0),
        Complex32::new(-0.75, 1.25),
    ];
    let mut mixed = Vec::new();
    for i in 0..4 {
        mixed.push(a * x[i] + b * y[i]);
    }
    let spec_mixed = run_dft(&mixed);
    let spec_x = run_dft(&x);
    let spec_y = run_dft(&y);
    for i in 0..4 {
        let combined = a * spec_x[i] + b * spec_y[i];
        assert!(close(spec_mixed[i], combined, 1e-3));
    }
}

#[test]
fn length_mismatch_is_rejected_without_writing() {
    let signal = vec![Complex32::new(1.0, 0.0), Complex32::new(2.0, 0.0)];
    let marker = Complex32::new(9.0, 9.0);
    let mut spectrum = vec![marker; 3];
    assert_eq!(dft(&signal, &mut spectrum), Err(FftError::LengthMismatch));
    assert_eq!(cooley_tukey(&signal, &mut spectrum), Err(FftError::LengthMismatch));
    for i in 0..3 {
        assert_eq!(spectrum[i], marker);
    }
}

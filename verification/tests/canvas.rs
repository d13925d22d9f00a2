use tracer_core::canvas::Canvas;
use tracer_core::color::Color;

fn color(r: f64, g: f64, b: f64) -> Color {
    Color::new(r.to_bits(), g.to_bits(), b.to_bits())
}

/// Creating a canvas.
#[test]
fn create_canvas() {
    let c = Canvas::new(10, 20).unwrap();
    assert_eq!(c.width(), 10);
    assert_eq!(c.height(), 20);
    let black = color(0.0, 0.0, 0.0);
    assert!(c.flat().iter().all(|x| *x == black));
}

/// Writing pixels to a canvas.
#[test]
fn write_pixel_canvas() {
    let mut c = Canvas::new(10, 20).unwrap();
    let red = color(1.0, 0.0, 0.0);
    c.write_pixel(2, 3, red);
    assert_eq!(c.pixel_at(2, 3), red);
}

/// Constructing the PPM header.
#[test]
fn construct_ppm_header() {
    let c = Canvas::new(5, 3).unwrap();
    let mut buf = Vec::<u8>::new();
    c.canvas_to_ppm(&mut buf);
    let ppm = String::from_utf8(buf).unwrap();
    assert_eq!(
        ppm.lines().take(3).collect::<Vec<_>>().join("\n"),
        "\
P3
5 3
255"
    );
}

/// Constructing the PPM pixel data.
#[test]
fn ppm_pixel_data() {
    let mut c = Canvas::new(5, 3).unwrap();
    let c1 = color(1.5, 0.0, 0.0);
    let c2 = color(0.0, 0.5, 0.0);
    let c3 = color(-0.5, 0.0, 1.0);

    c.write_pixel(0, 0, c1);
    c.write_pixel(2, 1, c2);
    c.write_pixel(4, 2, c3);

    let mut buf = Vec::<u8>::new();
    c.canvas_to_ppm(&mut buf);
    let ppm = String::from_utf8(buf).unwrap();
    assert_eq!(
        ppm.lines().skip(3).take(3).collect::<Vec<_>>().join("\n"),
        "\
255 0 0 0 0 0 0 0 0 0 0 0 0 0 0
0 0 0 0 0 0 0 128 0 0 0 0 0 0 0
0 0 0 0 0 0 0 0 0 0 0 0 0 0 255"
    );
}

/// The whole encoding of the 5x3 canvas, byte for byte.
#[test]
fn ppm_whole_file() {
    let mut c = Canvas::new(5, 3).unwrap();
    c.write_pixel(0, 0, color(1.5, 0.0, 0.0));
    c.write_pixel(2, 1, color(0.0, 0.5, 0.0));
    c.write_pixel(4, 2, color(-0.5, 0.0, 1.0));
    let mut buf = Vec::<u8>::new();
    c.canvas_to_ppm(&mut buf);
    let expected = "P3\n5 3\n255\n\
255 0 0 0 0 0 0 0 0 0 0 0 0 0 0\n\
0 0 0 0 0 0 0 128 0 0 0 0 0 0 0\n\
0 0 0 0 0 0 0 0 0 0 0 0 0 0 255\n";
    assert_eq!(String::from_utf8(buf).unwrap(), expected);
}

/// Malformed dimensions are rejected at construction.
#[test]
fn zero_dimensions_rejected() {
    assert!(Canvas::new(0, 5).is_none());
    assert!(Canvas::new(5, 0).is_none());
    assert!(Canvas::new(0, 0).is_none());
    assert!(Canvas::new(1, 1).is_some());
}

/// A fresh canvas is black everywhere; a write changes exactly one pixel.
#[test]
fn write_does_not_touch_neighbors() {
    let mut c = Canvas::new(4, 4).unwrap();
    let green = color(0.0, 1.0, 0.0);
    c.write_pixel(1, 2, green);
    for x in 0..4 {
        for y in 0..4 {
            if (x, y) == (1, 2) {
                assert_eq!(c.pixel_at(x, y), green);
            } else {
                assert_eq!(c.pixel_at(x, y), color(0.0, 0.0, 0.0));
            }
        }
    }
}

/// Overwriting a pixel keeps the latest color.
#[test]
fn write_pixel_overwrites() {
    let mut c = Canvas::new(3, 3).unwrap();
    c.write_pixel(1, 1, color(0.2, 0.4, 0.6));
    c.write_pixel(1, 1, color(0.9, 0.1, 0.3));
    assert_eq!(c.pixel_at(1, 1), color(0.9, 0.1, 0.3));
}

/// Row iteration: one width-length slice per scanline, top to bottom, and
/// a fresh iteration can be started at any time.
#[test]
fn rows_walk_the_grid() {
    let mut c = Canvas::new(3, 2).unwrap();
    let red = color(1.0, 0.0, 0.0);
    let blue = color(0.0, 0.0, 1.0);
    c.write_pixel(2, 0, red);
    c.write_pixel(0, 1, blue);
    let rows = c.rows();
    assert_eq!(rows.len(), 2);
    assert_eq!(rows[0].len(), 3);
    assert_eq!(rows[1].len(), 3);
    assert_eq!(rows[0][2], red);
    assert_eq!(rows[1][0], blue);
    assert_eq!(rows[0][0], color(0.0, 0.0, 0.0));
    let again = c.rows();
    assert_eq!(again[0][2], red);
}

/// Splitting long lines in PPM files: the wide-canvas scanline wraps into
/// exactly two lines, neither over 70 characters, neither splitting a
/// number, and together reproducing the unwrapped row.
#[test]
fn ppm_line_wrap() {
    let mut c = Canvas::new(10, 2).unwrap();
    let shade = color(1.0, 0.8, 0.6);
    for x in 0..10 {
        for y in 0..2 {
            c.write_pixel(x, y, shade);
        }
    }
    let mut buf = Vec::<u8>::new();
    c.canvas_to_ppm(&mut buf);
    let ppm = String::from_utf8(buf).unwrap();
    let lines: Vec<&str> = ppm.lines().collect();
    assert_eq!(
        lines[3..7].to_vec(),
        vec![
            "255 204 153 255 204 153 255 204 153 255 204 153 255 204 153 255 204",
            "153 255 204 153 255 204 153 255 204 153 255 204 153",
            "255 204 153 255 204 153 255 204 153 255 204 153 255 204 153 255 204",
            "153 255 204 153 255 204 153 255 204 153 255 204 153",
        ]
    );
    for line in &lines {
        assert!(line.len() <= 70);
    }
    // the two halves of a row, joined by the space the wrap replaced,
    // reproduce the unwrapped row
    let unwrapped = format!("{} {}", lines[3], lines[4]);
    let row = vec!["255 204 153"; 10].join(" ");
    assert_eq!(unwrapped, row);
}

/// The output is terminated by the final row's newline and nothing more.
#[test]
fn ppm_ends_with_single_newline() {
    let mut c = Canvas::new(5, 3).unwrap();
    c.write_pixel(1, 1, color(0.3, 0.6, 0.9));
    let mut buf = Vec::<u8>::new();
    c.canvas_to_ppm(&mut buf);
    assert_eq!(buf.last(), Some(&b'\n'));
    assert_ne!(buf[buf.len() - 2], b'\n');
}

/// Encoding appends to the sink without disturbing what was written before.
#[test]
fn ppm_appends_to_sink() {
    let c = Canvas::new(1, 1).unwrap();
    let mut buf = b"before:".to_vec();
    c.canvas_to_ppm(&mut buf);
    let ppm = String::from_utf8(buf).unwrap();
    assert_eq!(ppm, "before:P3\n1 1\n255\n0 0 0\n");
}

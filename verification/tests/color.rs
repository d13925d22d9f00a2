use tracer_core::color::Color;
use tracer_core::color::channel_to_level;

fn color(r: f64, g: f64, b: f64) -> Color {
    Color::new(r.to_bits(), g.to_bits(), b.to_bits())
}

/// Colors are (red, green, blue) tuples.
#[test]
fn colors() {
    let c = color(-0.5, 0.4, 1.7);
    assert_eq!(c.red(), (-0.5f64).to_bits());
    assert_eq!(c.green(), 0.4f64.to_bits());
    assert_eq!(c.blue(), 1.7f64.to_bits());
}

/// Black is the all-zero bit pattern, the pattern of +0.0.
#[test]
fn black_is_zero_bits() {
    assert_eq!(Color::black(), color(0.0, 0.0, 0.0));
    assert_eq!(Color::black().red(), 0);
}

/// Channel conversion: scale by 255, round to nearest, saturate.
#[test]
fn channel_levels() {
    assert_eq!(channel_to_level(0.0f64.to_bits()), 0);
    assert_eq!(channel_to_level(1.0f64.to_bits()), 255);
    assert_eq!(channel_to_level(0.5f64.to_bits()), 128);
    assert_eq!(channel_to_level(0.8f64.to_bits()), 204);
    assert_eq!(channel_to_level(0.6f64.to_bits()), 153);
    assert_eq!(channel_to_level(0.25f64.to_bits()), 64);
    assert_eq!(channel_to_level(0.9f64.to_bits()), 230);
    assert_eq!(channel_to_level(0.001f64.to_bits()), 0);
    assert_eq!(channel_to_level(0.999999f64.to_bits()), 255);
}

/// Out-of-range channels saturate rather than wrap.
#[test]
fn channel_levels_saturate() {
    assert_eq!(channel_to_level(1.5f64.to_bits()), 255);
    assert_eq!(channel_to_level((-0.5f64).to_bits()), 0);
    assert_eq!(channel_to_level(1000.0f64.to_bits()), 255);
    assert_eq!(channel_to_level((-1000.0f64).to_bits()), 0);
    assert_eq!(channel_to_level((-0.0f64).to_bits()), 0);
    assert_eq!(channel_to_level(f64::INFINITY.to_bits()), 255);
    assert_eq!(channel_to_level(f64::NEG_INFINITY.to_bits()), 0);
    assert_eq!(channel_to_level(f64::NAN.to_bits()), 0);
    assert_eq!(channel_to_level(f64::MIN_POSITIVE.to_bits()), 0);
    assert_eq!(channel_to_level(5e-324f64.to_bits()), 0);
}

/// The three levels of a color come out in red, green, blue order.
#[test]
fn to_u8_orders_channels() {
    let c = color(1.5, 0.5, -0.5);
    assert_eq!(c.to_u8(), (255, 128, 0));
}

/// Exact rounding at the halfway point: ties round up.
#[test]
fn channel_level_ties() {
    // 0.5 * 255 = 127.5 exactly, which rounds away from zero to 128
    assert_eq!(channel_to_level(0.5f64.to_bits()), 128);
    // 0.1 * 255 = 25.5 exactly in the reals, but the double nearest to 0.1
    // is slightly above it, so the scaled value exceeds 25.5 and rounds up
    assert_eq!(channel_to_level(0.1f64.to_bits()), 26);
}

use tracer_core::decimal::push_dec_u32;

fn dec(n: u32) -> String {
    let mut out = Vec::<u8>::new();
    push_dec_u32(n, &mut out);
    String::from_utf8(out).unwrap()
}

/// Decimal rendering: most significant digit first, no leading zeros, one
/// digit for zero.
#[test]
fn decimal_rendering() {
    assert_eq!(dec(0), "0");
    assert_eq!(dec(7), "7");
    assert_eq!(dec(10), "10");
    assert_eq!(dec(128), "128");
    assert_eq!(dec(255), "255");
    assert_eq!(dec(1000), "1000");
    assert_eq!(dec(4294967295), "4294967295");
}

/// Rendering appends after what the buffer already holds.
#[test]
fn decimal_appends() {
    let mut out = b"n=".to_vec();
    push_dec_u32(42, &mut out);
    assert_eq!(out, b"n=42".to_vec());
}

use palette_optimizer::color::{
    as_index, from_index, isqrt, parse_hex, parse_to_sRGB, sRGB, to_string, HyAB, Oklab,
};

#[test]
fn index_is_rgb_order() {
    let c: sRGB = [0x12, 0x34, 0x56];
    assert_eq!(as_index(&c), 0x123456);
    assert_eq!(as_index(&[0, 0, 0]), 0);
    assert_eq!(as_index(&[0xFF, 0xFF, 0xFF]), 0xFF_FFFF);
    assert_eq!(as_index(&[0, 0, 1]), 1);
    assert_eq!(as_index(&[0, 1, 0]), 0x100);
    assert_eq!(as_index(&[1, 0, 0]), 0x1_0000);
}

#[test]
fn index_round_trip() {
    for i in [0usize, 1, 255, 256, 0x1_0000, 0x12_3456, 0xFF_FFFF] {
        assert_eq!(as_index(&from_index(i)), i);
    }
    assert_eq!(from_index(0xABCDEF), [0xAB, 0xCD, 0xEF]);
}

#[test]
fn hex_rendering_is_upper_case() {
    assert_eq!(to_string(&[0x00, 0x00, 0x00]), "#000000");
    assert_eq!(to_string(&[0xFF, 0xFF, 0xFF]), "#FFFFFF");
    assert_eq!(to_string(&[0xAB, 0xCD, 0xEF]), "#ABCDEF");
    assert_eq!(to_string(&[0x01, 0x0A, 0x90]), "#010A90");
    assert_eq!(to_string(&[0x11, 0x22, 0x33]), "#112233");
}

#[test]
fn integer_square_root_rounds_down() {
    assert_eq!(isqrt(0), 0);
    assert_eq!(isqrt(1), 1);
    assert_eq!(isqrt(3), 1);
    assert_eq!(isqrt(4), 2);
    assert_eq!(isqrt(24), 4);
    assert_eq!(isqrt(25), 5);
    assert_eq!(isqrt(12345 * 12345 - 1), 12344);
    assert_eq!(isqrt(12345 * 12345 + 1), 12345);
    assert_eq!(isqrt(u128::MAX), u64::MAX);
    assert_eq!(isqrt((u64::MAX as u128) * (u64::MAX as u128)), u64::MAX);
    assert_eq!(isqrt((u64::MAX as u128) * (u64::MAX as u128) - 1), u64::MAX - 1);
}

#[test]
fn hyab_exact_values() {
    let a = Oklab { L: 0, a: 0, b: 0 };
    let b = Oklab { L: 10, a: 3, b: 4 };
    assert_eq!(HyAB(&a, &b), 15);
    assert_eq!(HyAB(&b, &a), 15);
    let c = Oklab { L: -7, a: 1, b: 1 };
    // |dL| = 7, sqrt(1 + 1) rounds down to 1
    assert_eq!(HyAB(&a, &c), 8);
    assert_eq!(HyAB(&a, &a), 0);
    assert_eq!(HyAB(&b, &b), 0);
}

#[test]
fn hyab_is_symmetric_and_zero_only_between_equals() {
    let colors = [
        Oklab { L: 0, a: 0, b: 0 },
        Oklab { L: 1, a: 0, b: 0 },
        Oklab { L: 0, a: 1, b: 0 },
        Oklab { L: 0, a: 0, b: -1 },
        Oklab { L: 6553600, a: -2000000, b: 1500000 },
        Oklab { L: i32::MIN, a: i32::MAX, b: i32::MIN },
        Oklab { L: i32::MAX, a: i32::MIN, b: i32::MAX },
    ];
    for x in colors.iter() {
        for y in colors.iter() {
            let d = HyAB(x, y);
            assert_eq!(d, HyAB(y, x));
            assert!(d >= 0);
            assert_eq!(d == 0, x == y);
        }
    }
}

#[test]
fn hyab_at_the_ends_of_the_range() {
    let lo = Oklab { L: i32::MIN, a: i32::MIN, b: i32::MIN };
    let hi = Oklab { L: i32::MAX, a: i32::MAX, b: i32::MAX };
    // |dL| = 2^32 - 1; sqrt(2 * (2^32 - 1)^2) rounds down to 6074000998
    assert_eq!(HyAB(&lo, &hi), 4294967295 + 6074000998);
}

#[test]
fn hex_text_is_read() {
    assert_eq!(parse_to_sRGB("ff0000".to_string()), Some([0xFF, 0x00, 0x00]));
    assert_eq!(parse_to_sRGB("#ff0000".to_string()), Some([0xFF, 0x00, 0x00]));
    assert_eq!(parse_to_sRGB("FA35EC".to_string()), Some([0xFA, 0x35, 0xEC]));
    assert_eq!(parse_to_sRGB("#0b01B4".to_string()), Some([0x0B, 0x01, 0xB4]));
    assert_eq!(parse_to_sRGB("000000".to_string()), Some([0, 0, 0]));
    assert_eq!(parse_to_sRGB("#aBcDeF".to_string()), Some([0xAB, 0xCD, 0xEF]));
    assert_eq!(parse_to_sRGB("099aAf".to_string()), Some([0x09, 0x9A, 0xAF]));
    assert_eq!(parse_hex(b"#123456"), Some([0x12, 0x34, 0x56]));
}

#[test]
fn other_text_is_refused() {
    for text in [
        "", "#", "fff", "#fff", "ff000", "ff00000", "#ff00000", "##ff0000", "ff0000#", "gg0000",
        "ff 000", "ff0000\n", " ff0000", "0xff00", "ff00zz", "#ff00z0", "ff00/0", "ff00:0",
        "ff00@0", "ff00G0", "ff00`0", "ff00g0", "\u{e9}f0000", "ff0000\u{e9}", "\u{ff11}\u{ff11}",
    ] {
        assert_eq!(parse_to_sRGB(text.to_string()), None);
    }
    assert_eq!(parse_hex(&[0xFF, 0x30, 0x30, 0x30, 0x30, 0x30]), None);
}

#[test]
fn hex_text_round_trip() {
    for c in [[0u8, 0, 0], [255, 255, 255], [1, 2, 3], [0x9A, 0xBC, 0xDE], [0xF0, 0x0F, 0xA9]] {
        assert_eq!(parse_to_sRGB(to_string(&c)), Some(c));
    }
    for r in 0..=255u8 {
        let c = [r, r.wrapping_mul(7), r.wrapping_mul(13).wrapping_add(5)];
        assert_eq!(parse_to_sRGB(to_string(&c)), Some(c));
        assert_eq!(parse_to_sRGB(to_string(&c).to_lowercase()), Some(c));
    }
}

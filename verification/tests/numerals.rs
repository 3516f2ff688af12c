use fraud_detection::fraud::numerals::{lower, parse_unsigned, spells_fraction};

#[test]
fn fractions_are_what_the_standard_library_reads() {
    let samples = [
        "0", "1", "12", "-1", "+1", "1.5", "1.", ".5", ".", "", "+", "-", "+.", "e5", "1e5", "1E5",
        "1e+5", "1e-5", "1e", "1e+", "1.e5", ".5e5", ".e5", "1.5.2", "1 ", " 1", "1_0", "inf",
        "-inf", "+INF", "Infinity", "infinit", "infinityy", "nan", "NaN", "-nan", "na", "0x10",
        "1e5.5", "--1", "+-1", "99999999999999999999999999999999999999999999", "1e999", "00012",
        "1f", "1,5", "\u{661}", "e", "E5", "1ee5", "5e05", "in", "n", "i", "1e5e", "0.0.0", "..",
    ];
    for s in samples {
        assert_eq!(spells_fraction(s.as_bytes()), s.parse::<f32>().is_ok(), "{s:?}");
    }
}

#[test]
fn fractions_of_all_short_texts() {
    let alphabet = ['0', '7', '.', 'e', 'E', '+', '-', 'i', 'n', 'f', 'a', 'N', ' '];
    let mut texts: Vec<String> = vec![String::new()];
    for _ in 0..4 {
        let mut longer = Vec::new();
        for t in &texts {
            for c in alphabet {
                longer.push(format!("{t}{c}"));
            }
        }
        for t in &longer {
            assert_eq!(spells_fraction(t.as_bytes()), t.parse::<f32>().is_ok(), "{t:?}");
        }
        texts = longer;
    }
}

#[test]
fn unsigned_integers_are_what_the_standard_library_reads() {
    let samples = [
        "0", "1", "255", "256", "+255", "+256", "-0", "-1", "", "+", "00000001", "000000255",
        "1 ", " 1", "1.0", "99999999999999999999999", "18446744073709551615",
        "18446744073709551616", "++1", "1+", "4294967295", "4294967296", "65535", "65536",
    ];
    for s in samples {
        let t = s.as_bytes();
        assert_eq!(parse_unsigned(t, u8::MAX as u64), s.parse::<u8>().ok().map(u64::from), "{s}");
        assert_eq!(parse_unsigned(t, u16::MAX as u64), s.parse::<u16>().ok().map(u64::from), "{s}");
        assert_eq!(parse_unsigned(t, u32::MAX as u64), s.parse::<u32>().ok().map(u64::from), "{s}");
        assert_eq!(parse_unsigned(t, u64::MAX), s.parse::<u64>().ok(), "{s}");
    }
}

#[test]
fn lower_case_is_ascii_lower_case() {
    for c in 0..=u8::MAX {
        assert_eq!(lower(c), c.to_ascii_lowercase());
    }
}

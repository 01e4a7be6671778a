use xbrztrace::cli::{parse_scale, Scale};

#[test]
fn every_scale_word_parses() {
    let words = [
        ("2x", Scale::X2),
        ("2", Scale::X2),
        ("3x", Scale::X3),
        ("3", Scale::X3),
        ("4x", Scale::X4),
        ("4", Scale::X4),
        ("5x", Scale::X5),
        ("5", Scale::X5),
        ("6x", Scale::X6),
        ("6", Scale::X6),
    ];
    for (word, scale) in words {
        assert_eq!(parse_scale(word), Ok(scale), "{word}");
    }
}

#[test]
fn factors_match_the_scales() {
    assert_eq!(Scale::X2.factor(), 2);
    assert_eq!(Scale::X3.factor(), 3);
    assert_eq!(Scale::X4.factor(), 4);
    assert_eq!(Scale::X5.factor(), 5);
    assert_eq!(Scale::X6.factor(), 6);
}

#[test]
fn unknown_scale_words_are_refused_with_a_message() {
    assert_eq!(
        parse_scale("9x"),
        Err("invalid scale `9x`: expected one of 2x, 3x, 4x, 5x, 6x".to_string())
    );
    for bad in ["", "x", "1x", "7", "2X", " 2x", "2x ", "22", "4xx", "ä"] {
        let err = parse_scale(bad).unwrap_err();
        assert!(err.contains(&format!("`{bad}`")), "{bad:?}: {err}");
    }
}

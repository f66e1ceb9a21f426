use videotrim::text::{append_decimal, append_seconds, append_zero_padded, file_extension, replace_all_str};

#[test]
fn decimal_numbers() {
    let mut s = String::from("n=");
    append_decimal(&mut s, 0);
    s.push(',');
    append_decimal(&mut s, 9);
    s.push(',');
    append_decimal(&mut s, 10);
    s.push(',');
    append_decimal(&mut s, u128::MAX);
    assert_eq!(s, format!("n=0,9,10,{}", u128::MAX));
}

#[test]
fn zero_padding_to_a_width() {
    let mut s = String::new();
    append_zero_padded(&mut s, 7, 3);
    assert_eq!(s, "007");
    let mut s = String::new();
    append_zero_padded(&mut s, 4321, 3);
    assert_eq!(s, "4321");
    let mut s = String::new();
    append_zero_padded(&mut s, 0, 0);
    assert_eq!(s, "0");
}

#[test]
fn seconds_from_nanoseconds() {
    let cases: [(i128, &str); 8] = [
        (0, "0"),
        (2_000_000_000, "2"),
        (2_500_000_000, "2.5"),
        (-250_000_000, "-0.25"),
        (1, "0.000000001"),
        (12_340_000_000, "12.34"),
        (-3_000_000_000, "-3"),
        (100_000_000_000, "100"),
    ];
    for (ns, text) in cases {
        let mut s = String::new();
        append_seconds(&mut s, ns);
        assert_eq!(s, text, "{ns}");
    }
}

#[test]
fn seconds_match_float_display_for_exact_values() {
    for ns in [0i128, 4_000_000_000, 2_500_000_000, 62_500, 1_234_567_890, -7_125_000_000] {
        let mut s = String::new();
        append_seconds(&mut s, ns);
        assert_eq!(s, (ns as f64 / 1e9).to_string());
    }
}

#[test]
fn replace_all_occurrences() {
    assert_eq!(replace_all_str("aXbXc", "X", "--"), "a--b--c");
    assert_eq!(replace_all_str("aaa", "aa", "b"), "ba");
    assert_eq!(replace_all_str("abc", "z", "y"), "abc");
    assert_eq!(replace_all_str("", "z", "y"), "");
    assert_eq!(replace_all_str("d/x/d/y", "d/", "./"), "./x/./y");
}

#[test]
fn extension_after_the_last_dot() {
    assert_eq!(file_extension("talk.mp4"), Some(String::from("mp4")));
    assert_eq!(file_extension("archive.tar.gz"), Some(String::from("gz")));
    assert_eq!(file_extension("dir.v/file"), Some(String::from("v/file")));
    assert_eq!(file_extension("ends."), Some(String::new()));
    assert_eq!(file_extension("noext"), None);
    assert_eq!(file_extension(""), None);
}

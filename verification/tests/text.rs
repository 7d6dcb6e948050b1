use mlx_rerank::text::{append_decimal, begins_with, chars_of, contains_part, dash_slashes};
use mlx_rerank::text::{ends_in, first_line, parse_unsigned, same_text};

#[test]
fn characters_in_order() {
    assert_eq!(chars_of("aé\n"), vec!['a', 'é', '\n']);
    assert_eq!(chars_of(""), Vec::<char>::new());
}

#[test]
fn texts_compare_whole() {
    assert!(same_text("POST", "POST"));
    assert!(!same_text("POST", "POS"));
    assert!(!same_text("POS", "POST"));
    assert!(!same_text("post", "POST"));
    assert!(same_text("", ""));
}

#[test]
fn parts_of_a_text() {
    assert!(begins_with("model.encoder.norm", "model.encoder."));
    assert!(!begins_with("model", "model.encoder."));
    assert!(ends_in("a.safetensors", ".safetensors"));
    assert!(!ends_in("a.safetensors.part", ".safetensors"));
    assert!(contains_part("xxvision_toweryy", "vision_tower"));
    assert!(contains_part("abc", ""));
    assert!(!contains_part("vision", "vision_tower"));
    assert!(!contains_part("vision-tower", "vision_tower"));
}

#[test]
fn decimals_are_written() {
    let mut out = String::from("layers.");
    append_decimal(&mut out, 0);
    append_decimal(&mut out, 15);
    append_decimal(&mut out, 1203);
    assert_eq!(out, "layers.0151203");
}

#[test]
fn decimals_read_back() {
    for n in [0usize, 7, 10, 99, 100, 65535, usize::MAX] {
        let mut out = String::new();
        append_decimal(&mut out, n);
        assert_eq!(parse_unsigned(&out, usize::MAX), Some(n));
        assert_eq!(out, format!("{n}"));
    }
}

#[test]
fn numbers_parse_as_std_parses_them() {
    let texts = [
        "", "0", "00", "+5", "+", "-1", " 1", "1 ", "12a", "18446744073709551615",
        "18446744073709551616", "99999999999999999999999", "+0012", "1_000", "٣", "++1",
    ];
    for text in texts {
        assert_eq!(parse_unsigned(text, usize::MAX), text.parse::<usize>().ok(), "{text:?}");
    }
    for text in ["65535", "65536", "0", "+8088", "-1", ""] {
        let port = parse_unsigned(text, u16::MAX as usize);
        assert_eq!(port, text.parse::<u16>().ok().map(|n| n as usize), "{text:?}");
    }
}

#[test]
fn first_lines_as_std_cuts_them() {
    let texts = ["", "a", "a\nb", "a\r\nb", "\n", "\r\n", "a\r", "\r", "a\rb\nc", "\n\nb", "é\n"];
    for text in texts {
        assert_eq!(first_line(text), text.lines().next().map(String::from), "{text:?}");
    }
}

#[test]
fn slashes_become_dashes() {
    assert_eq!(dash_slashes("org/name"), "org--name");
    assert_eq!(dash_slashes("a/b/c"), "a--b--c");
    assert_eq!(dash_slashes("none"), "none");
    assert_eq!(dash_slashes(""), "");
}

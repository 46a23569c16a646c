use gemini_assistant::text::{chars_of, join, parse_i32, parse_u64, split_lines, string_of, trim, trim_end, white_space};

#[test]
fn white_space_is_that_of_unicode() {
    for code in 0..=0x10ffffu32 {
        if let Some(c) = char::from_u32(code) {
            assert_eq!(white_space(c), c.is_whitespace(), "U+{code:04X}");
        }
    }
}

#[test]
fn trimming_is_that_of_the_standard_library() {
    for s in ["", " ", "a", " a ", "\t a b\u{2003}\n", "\u{a0}x\u{85}", "no", "\r\n\r\n"] {
        assert_eq!(string_of(&trim(&chars_of(s))), s.trim());
        assert_eq!(string_of(&trim_end(&chars_of(s))), s.trim_end());
    }
}

#[test]
fn lines_are_those_of_the_standard_library() {
    for s in ["", "a", "a\n", "a\n\nb", "a\r\nb\r", "\n", "\r\n", "a\r\r\nb\n", "x\ny\r\n\r\nz"] {
        let split: Vec<String> = split_lines(&chars_of(s)).iter().map(|l| string_of(l)).collect();
        let expected: Vec<String> = s.lines().map(|l| l.to_string()).collect();
        assert_eq!(split, expected, "{s:?}");
    }
}

#[test]
fn numbers_are_parsed_as_the_standard_library_does() {
    for s in [
        "", "0", "-0", "+0", "007", "-", "+", "12a", " 1", "1 ", "-1", "+5", "2147483647", "2147483648",
        "-2147483648", "-2147483649", "18446744073709551615", "18446744073709551616", "1_0", "--1", "٣",
    ] {
        assert_eq!(parse_i32(&chars_of(s)), s.parse::<i32>().ok(), "{s:?}");
        assert_eq!(parse_u64(&chars_of(s)), s.parse::<u64>().ok(), "{s:?}");
    }
}

#[test]
fn paths_are_joined_as_the_standard_library_does() {
    for base in ["", "/", "/a", "/a/", "a", "a/b/"] {
        for part in ["x", "x/y", "/x", "", "gemini-assistant"] {
            let expected = std::path::Path::new(base).join(part);
            assert_eq!(join(base, part), expected.to_str().unwrap(), "{base:?} and {part:?}");
        }
    }
}

use telegram_bot_rs::text::{
    capped_blen, chars_of, is_whitespace, split_blocks, split_lines, split_whitespace, str_eq,
    trimmed, utf8_width,
};

fn cs(s: &str) -> Vec<char> {
    s.chars().collect()
}

fn strs(v: Vec<Vec<char>>) -> Vec<String> {
    v.into_iter().map(|x| x.into_iter().collect()).collect()
}

const SAMPLES: &[&str] = &[
    "",
    " ",
    "a",
    "  Hello \t world\ntest  ",
    "\u{a0}x\u{2003}y\u{3000}",
    "a\n\nb",
    "a\n\n\nb",
    "a\n\n\n\nb",
    "\n\n\n",
    "line one\r\nline two\rstill two\n",
    "trailing cr\r",
    "\n",
    "x\n\n",
    "é ü 日本 🤖 done",
];

#[test]
fn whitespace_matches_std_for_every_char() {
    for u in 0u32..=0x10FFFF {
        if let Some(c) = char::from_u32(u) {
            assert_eq!(is_whitespace(c), c.is_whitespace(), "{:#x}", u);
        }
    }
}

#[test]
fn width_matches_std_for_every_char() {
    for u in 0u32..=0x10FFFF {
        if let Some(c) = char::from_u32(u) {
            assert_eq!(utf8_width(c), c.len_utf8(), "{:#x}", u);
        }
    }
}

#[test]
fn chars_of_gives_the_characters() {
    for s in SAMPLES {
        let v = chars_of(s);
        assert_eq!(v, cs(s));
    }
}

#[test]
fn byte_length_matches_len() {
    for s in SAMPLES {
        assert_eq!(capped_blen(&cs(s)), s.len());
    }
    let big = "é".repeat(40000);
    assert_eq!(capped_blen(&cs(&big)), 65536);
    let edge = "a".repeat(65536);
    assert_eq!(capped_blen(&cs(&edge)), 65536);
}

#[test]
fn trimmed_matches_trim() {
    for s in SAMPLES {
        let t: String = trimmed(&cs(s)).into_iter().collect();
        assert_eq!(t, s.trim());
    }
}

#[test]
fn split_whitespace_matches_std() {
    for s in SAMPLES {
        let expected: Vec<String> = s.split_whitespace().map(|x| x.to_string()).collect();
        assert_eq!(strs(split_whitespace(&cs(s))), expected);
    }
}

#[test]
fn split_lines_matches_std() {
    for s in SAMPLES {
        let expected: Vec<String> = s.lines().map(|x| x.to_string()).collect();
        assert_eq!(strs(split_lines(&cs(s))), expected, "{:?}", s);
    }
}

#[test]
fn split_blocks_matches_split_on_blank_line() {
    for s in SAMPLES {
        let expected: Vec<String> = s.split("\n\n").map(|x| x.to_string()).collect();
        assert_eq!(strs(split_blocks(&cs(s))), expected, "{:?}", s);
    }
}

#[test]
fn str_eq_compares_contents() {
    assert!(str_eq("Word", "Word"));
    assert!(!str_eq("Word", "word"));
    assert!(!str_eq("Word", "Words"));
    assert!(str_eq("", ""));
}

#[test]
fn trimming_twice_is_trimming_once() {
    for s in SAMPLES {
        let once = trimmed(&cs(s));
        assert_eq!(trimmed(&once), once);
    }
}

#[test]
fn trim_is_empty_exactly_for_blank_text() {
    for s in SAMPLES {
        let blank = s.chars().all(|c| c.is_whitespace());
        assert_eq!(trimmed(&cs(s)).is_empty(), blank);
    }
}

use telegram_bot_rs::modes::{Mode, ModeManager};

#[test]
fn test_format_by_word() {
    let text = "Hello world test";
    let result = ModeManager::format_by_word(text);
    assert!(!result.is_empty());
    assert!(result[0].contains("Hello"));
}

#[test]
fn test_format_by_sentence() {
    let text = "Hello world. This is a test.";
    let result = ModeManager::format_by_sentence(text);
    assert!(!result.is_empty());
}

#[test]
fn test_format_by_paragraph() {
    let text = "First paragraph.\n\nSecond paragraph.";
    let result = ModeManager::format_by_paragraph(text);
    assert!(!result.is_empty());
}

#[test]
fn test_format_full() {
    let text = "Hello world";
    let result = ModeManager::format_full(text);
    assert_eq!(result.len(), 1);
    assert!(result[0].contains("Hello world"));
}

#[test]
fn word_mode_puts_each_word_on_its_own_line() {
    let result = ModeManager::format_by_word("  Hello \t world\ntest  ");
    assert_eq!(result, vec!["```\nHello\nworld\ntest\n```".to_string()]);
}

#[test]
fn word_mode_of_blank_text_is_an_empty_block() {
    assert_eq!(ModeManager::format_by_word(""), vec!["```\n```".to_string()]);
    assert_eq!(ModeManager::format_by_word(" \n\t "), vec!["```\n```".to_string()]);
}

#[test]
fn sentence_mode_puts_each_sentence_on_its_own_line() {
    let result = ModeManager::format_by_sentence("Hello world.  This is a test! Really? tail");
    assert_eq!(
        result,
        vec!["```\nHello world.\nThis is a test!\nReally?\ntail\n```".to_string()]
    );
}

#[test]
fn split_sentences_drops_blank_pieces() {
    let s = ModeManager::split_sentences("One. . Two!  ");
    assert_eq!(s, vec!["One.".to_string(), ".".to_string(), "Two!".to_string()]);
    assert!(ModeManager::split_sentences("   ").is_empty());
}

#[test]
fn paragraph_mode_makes_a_block_per_paragraph() {
    let result = ModeManager::format_by_paragraph("  First.\n\n\n\nSecond.\n\n  \n\nThird  ");
    assert_eq!(
        result,
        vec![
            "```\nFirst.\n```".to_string(),
            "```\nSecond.\n```".to_string(),
            "```\nThird\n```".to_string(),
        ]
    );
}

#[test]
fn full_mode_keeps_the_trimmed_text() {
    let result = ModeManager::format_full("\n  a b\n\nc  \n");
    assert_eq!(result, vec!["```\na b\n\nc\n```".to_string()]);
}

#[test]
fn format_dispatches_on_the_mode_name() {
    let m = ModeManager::new();
    assert_eq!(m.format("a. b", "Sentence"), vec!["```\na.\nb\n```".to_string()]);
    assert_eq!(m.format("a. b", "Word"), vec!["```\na.\nb\n```".to_string()]);
    assert_eq!(m.format("a b", "Full"), vec!["```\na b\n```".to_string()]);
    assert_eq!(m.format("a\n\nb", "Paragraph"), vec!["```\na\n```".to_string(), "```\nb\n```".to_string()]);
    assert_eq!(m.format("a b", "nonsense"), vec!["```\na\nb\n```".to_string()]);
    assert_eq!(m.format("a b", "word"), vec!["```\na\nb\n```".to_string()]);
}

#[test]
fn mode_names_parse_back() {
    for m in [Mode::Word, Mode::Sentence, Mode::Paragraph, Mode::Full] {
        assert_eq!(Mode::parse(m.name()), Ok(m));
        assert_eq!(m.to_string(), m.name().to_string());
        assert_eq!(m.name().parse::<Mode>(), Ok(m));
    }
    assert_eq!(Mode::parse("full"), Err("Unknown mode: full".to_string()));
}

#[test]
fn word_longer_than_a_block_is_cut_to_fit() {
    let w = "x".repeat(5000);
    let result = ModeManager::format_by_word(&w);
    assert_eq!(
        result,
        vec![format!("```\n{}\n```", "x".repeat(4078)), format!("```\n{}\n```", "x".repeat(922))]
    );
    assert!(result.iter().all(|b| b.len() <= 4086));
}

#[test]
fn long_multibyte_word_is_cut_at_character_boundaries() {
    let w = "\u{1f916}".repeat(2000);
    let result = ModeManager::format_by_word(&format!("a {} b", w));
    assert_eq!(
        result,
        vec![
            format!("```\na\n{}\n```", "\u{1f916}".repeat(1019)),
            format!("```\n{}\nb\n```", "\u{1f916}".repeat(981)),
        ]
    );
}

#[test]
fn long_sentence_and_long_line_are_cut_to_fit() {
    let s = format!("{}.", "y".repeat(6000));
    for b in ModeManager::format_by_sentence(&s) {
        assert!(b.len() <= 4086);
    }
    let p = format!("{}\n{}", "z".repeat(9000), "short");
    let blocks = ModeManager::format_by_paragraph(&p);
    for b in &blocks {
        assert!(b.len() <= 4086);
    }
    let bodies: String = blocks.iter().map(|b| b[4..b.len() - 4].replace('\n', "")).collect();
    assert_eq!(bodies, format!("{}short", "z".repeat(9000)));
}

#[test]
fn every_block_of_every_mode_fits_the_message_limit() {
    let m = ModeManager::new();
    let long_word = "w".repeat(10000);
    let texts = [long_word.clone(), format!("{} tail. {}", long_word, long_word), "é".repeat(7000)];
    for mode in ["Word", "Sentence", "Paragraph", "Full", "x"] {
        for t in &texts {
            for b in m.format(t, mode) {
                assert!(b.len() <= 4096);
                assert!(b.chars().count() <= 4096);
            }
        }
    }
}

#[test]
fn word_mode_splits_at_the_limit_and_keeps_every_word() {
    let words: Vec<String> = (0..1500).map(|i| format!("w{:06}", i)).collect();
    let text = words.join(" ");
    let result = ModeManager::format_by_word(&text);
    assert!(result.len() > 1);
    let mut seen: Vec<String> = Vec::new();
    for b in &result {
        assert!(b.len() <= 4086);
        assert!(b.starts_with("```\n") && b.ends_with("\n```"));
        let body = &b[4..b.len() - 4];
        seen.extend(body.split('\n').map(|x| x.to_string()));
    }
    assert_eq!(seen, words);
    // Each block but the last is full: the next word would not have fit.
    for b in &result[..result.len() - 1] {
        assert!(b.len() + 8 + 1 > 4086);
    }
}

#[test]
fn word_mode_block_at_the_exact_limit() {
    // 4 + n * 2 + 3 <= 4086 holds for n = 2039 one-letter words, not for 2040.
    let text = vec!["a"; 2040].join(" ");
    let result = ModeManager::format_by_word(&text);
    assert_eq!(result.len(), 2);
    assert_eq!(result[0].len(), 4 + 2039 * 2 + 3);
    assert_eq!(result[1], "```\na\n```");
}

#[test]
fn full_mode_cuts_long_text_into_chunks() {
    let text = "a".repeat(10000);
    let result = ModeManager::format_full(&text);
    assert_eq!(result.len(), 3);
    assert_eq!(result[0], format!("```\n{}\n```", "a".repeat(4080)));
    assert_eq!(result[1], format!("```\n{}\n```", "a".repeat(4080)));
    assert_eq!(result[2], format!("```\n{}\n```", "a".repeat(1840)));
    for b in &result {
        assert!(b.len() <= 4091);
    }
}

#[test]
fn full_mode_counts_bytes_not_chars() {
    let text = "é".repeat(3000);
    let result = ModeManager::format_full(&text);
    assert_eq!(result.len(), 2);
    assert_eq!(result[0], format!("```\n{}\n```", "é".repeat(2040)));
    assert_eq!(result[1], format!("```\n{}\n```", "é".repeat(960)));
    let joined: String = result.iter().map(|b| &b[4..b.len() - 4]).collect();
    assert_eq!(joined, text);
}

#[test]
fn full_mode_single_block_edge() {
    let fits = "b".repeat(4080);
    assert_eq!(ModeManager::format_full(&fits), vec![format!("```\n{}\n```", fits)]);
    let over = "b".repeat(4081);
    let r = ModeManager::format_full(&over);
    assert_eq!(r, vec![format!("```\n{}\n```", "b".repeat(4080)), "```\nb\n```".to_string()]);
    assert_eq!(ModeManager::format_full("   "), vec!["```\n\n```".to_string()]);
}

#[test]
fn paragraph_too_long_falls_back_to_lines() {
    let line = "L".repeat(100);
    let para = vec![line.clone(); 50].join("\n");
    let text = format!("short\n\n{}", para);
    let result = ModeManager::format_by_paragraph(&text);
    assert_eq!(result[0], "```\nshort\n```");
    let rest = &result[1..];
    assert_eq!(rest.len(), 2);
    let mut lines = Vec::new();
    for b in rest {
        assert!(b.len() <= 4086);
        lines.extend(b[4..b.len() - 4].split('\n').map(|x| x.to_string()));
    }
    assert_eq!(lines, vec![line; 50]);
}

#[test]
fn paragraph_mode_of_blank_text_is_an_empty_block() {
    assert_eq!(ModeManager::format_by_paragraph("\n\n  \n\n"), vec!["```\n```".to_string()]);
}

#[test]
fn sentence_mode_of_blank_text_is_an_empty_block() {
    assert_eq!(ModeManager::format_by_sentence(" . ! "), vec!["```\n.\n!\n```".to_string()]);
    assert_eq!(ModeManager::format_by_sentence("   "), vec!["```\n```".to_string()]);
}

#[test]
fn every_mode_answers_with_at_least_one_block() {
    let m = ModeManager::default();
    for mode in ["Word", "Sentence", "Paragraph", "Full", "other"] {
        for text in ["", " ", "\n\n", "x", "a. b! c?"] {
            assert!(!m.format(text, mode).is_empty());
        }
    }
}

#[test]
fn sentence_mode_splits_at_the_limit_and_keeps_every_sentence() {
    let sentences: Vec<String> = (0..800).map(|i| format!("Sentence number {}.", i)).collect();
    let text = sentences.join(" ");
    assert_eq!(ModeManager::split_sentences(&text), sentences);
    let result = ModeManager::format_by_sentence(&text);
    assert!(result.len() > 1);
    let mut seen = Vec::new();
    for b in &result {
        assert!(b.len() <= 4086);
        seen.extend(b[4..b.len() - 4].split('\n').map(|x| x.to_string()));
    }
    assert_eq!(seen, sentences);
}

fn content(s: &str) -> String {
    s.chars().filter(|c| !c.is_whitespace()).collect()
}

#[test]
fn sentences_and_paragraphs_hold_the_text_content() {
    let text = "  First one. Second!\n\n\n  Third?  no end\r\n\n\nLast.. ";
    let sentences: String = ModeManager::split_sentences(text).iter().map(|s| content(s)).collect();
    assert_eq!(sentences, content(text));
    let blocks = ModeManager::format_by_paragraph(text);
    let bodies: String = blocks.iter().map(|b| content(&b[4..b.len() - 4])).collect();
    assert_eq!(bodies, content(text));
}

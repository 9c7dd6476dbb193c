use telegram_bot_rs::delivery::outgoing_messages;
use telegram_bot_rs::modes::{Mode, ModeManager};
use telegram_bot_rs::replies::{
    decimal, main_keyboard_labels, mode_or_default, mode_selection_buttons, settings_text, stats_text, welcome_text,
    Stats,
};
use telegram_bot_rs::routing::{
    command_of, has_prefix, remove_occurrences, route_callback, route_message, CallbackAction,
    Command, MessageRoute,
};

#[test]
fn small_blocks_are_sent_as_they_are() {
    let blocks = vec!["```\nHello\n```".to_string(), "x".repeat(4096)];
    assert_eq!(outgoing_messages(&blocks), blocks);
}

#[test]
fn large_blocks_are_cut_at_line_ends() {
    let line = "y".repeat(1000);
    let block = vec![line.clone(); 5].join("\n");
    let out = outgoing_messages(&vec![block]);
    let four = vec![line.clone(); 4].join("\n");
    assert_eq!(out, vec![four, line]);
}

#[test]
fn an_overlong_line_is_cut_to_fit() {
    let long = "z".repeat(5000);
    let block = format!("a\n{}\nb", long);
    let out = outgoing_messages(&vec![block]);
    assert_eq!(out, vec!["a".to_string(), "z".repeat(4095), "z".repeat(905) + "\nb"]);
    let one_line = "q".repeat(10000);
    let out = outgoing_messages(&vec![one_line.clone()]);
    assert!(out.iter().all(|m| m.len() <= 4096));
    assert_eq!(out.concat(), one_line);
}

#[test]
fn full_mode_output_is_sent_unchanged() {
    let text = "q".repeat(9000);
    let blocks = ModeManager::format_full(&text);
    assert_eq!(outgoing_messages(&blocks), blocks);
}

#[test]
fn decimals_are_written_like_format() {
    for n in [0i64, 7, 10, 42, 1000, -1, -205, i64::MAX, i64::MIN] {
        assert_eq!(decimal(n), format!("{}", n));
    }
}

#[test]
fn stats_text_lists_every_count() {
    let s = Stats {
        active_users: 3,
        total_users: 10,
        today: 1,
        last_24h: 2,
        last_7d: 5,
        last_30d: 9,
        last_year: 40,
        lifetime: 123,
    };
    assert_eq!(
        stats_text(&s),
        "Global Stats:\n`Active Users (7d):` 3\n`Total Users:` 10\n\nYour Stats:\n`Today:` 1\n`24h:` 2\n`7d:` 5\n`30d:` 9\n`1y:` 40\n`Lifetime:` 123"
    );
}

#[test]
fn settings_text_shows_mode_and_stats() {
    assert_eq!(
        settings_text("Full", "S"),
        "\u{2699}\u{fe0f} *Settings*\n\n*Current Mode:* `Full`\n\n\u{1f4ca} *Statistics*\n\nS"
    );
}

#[test]
fn welcome_text_is_the_greeting() {
    assert!(welcome_text().starts_with("Welcome to Text Formatter Bot! \u{1f916}"));
    assert!(welcome_text().ends_with("Use Settings to change the formatting mode."));
}

#[test]
fn stored_mode_defaults_to_word() {
    assert_eq!(mode_or_default(None), "Word");
    assert_eq!(mode_or_default(Some("Full".to_string())), "Full");
}

#[test]
fn keyboard_checks_the_current_mode() {
    let b = mode_selection_buttons("Sentence");
    let labels: Vec<&str> = b.iter().map(|x| x.label.as_str()).collect();
    let data: Vec<&str> = b.iter().map(|x| x.data.as_str()).collect();
    assert_eq!(labels, vec!["Word", "\u{2713} Sentence", "Paragraph", "Full", "\u{1f504} Refresh Stats"]);
    assert_eq!(data, vec!["mode_Word", "mode_Sentence", "mode_Paragraph", "mode_Full", "refresh_stats"]);
}

#[test]
fn keyboard_buttons_select_their_mode() {
    let b = mode_selection_buttons("Word");
    let modes = [Mode::Word, Mode::Sentence, Mode::Paragraph, Mode::Full];
    for i in 0..4 {
        assert_eq!(route_callback(&b[i].data), CallbackAction::SelectMode(modes[i]));
    }
    assert_eq!(route_callback(&b[4].data), CallbackAction::RefreshStats);
}

#[test]
fn callbacks_are_routed() {
    assert_eq!(route_callback("mode_mode_Word"), CallbackAction::SelectMode(Mode::Word));
    assert_eq!(route_callback("mode_word"), CallbackAction::Ignore);
    assert_eq!(route_callback("refresh_stats"), CallbackAction::RefreshStats);
    assert_eq!(route_callback("other"), CallbackAction::Ignore);
    assert_eq!(route_callback(""), CallbackAction::Ignore);
}

#[test]
fn prefix_and_removal() {
    assert!(has_prefix("mode_Full", "mode_"));
    assert!(!has_prefix("mod", "mode_"));
    assert_eq!(remove_occurrences("mode_a_mode_b", "mode_"), "a_b");
    assert_eq!(remove_occurrences("aaa", "aa"), "a");
    assert_eq!(remove_occurrences("abc", ""), "abc");
}

#[test]
fn commands_are_recognised() {
    assert_eq!(command_of("/start"), Command::Start);
    assert_eq!(command_of("/settings"), Command::Settings);
    assert_eq!(command_of("\u{1f4dd} Start"), Command::Start);
    assert_eq!(command_of("\u{2699}\u{fe0f} Settings"), Command::Settings);
    assert_eq!(command_of("Settings"), Command::Format);
    assert_eq!(command_of("/start "), Command::Format);
    assert_eq!(command_of("hello"), Command::Format);
}

#[test]
fn messages_are_routed() {
    assert_eq!(route_message(Some("/start"), None), MessageRoute::Start);
    assert_eq!(route_message(Some("/settings"), Some("c")), MessageRoute::Settings);
    assert_eq!(route_message(Some("text"), None), MessageRoute::FormatText);
    assert_eq!(route_message(None, Some("caption")), MessageRoute::FormatCaption);
    assert_eq!(route_message(None, None), MessageRoute::NonText);
}

#[test]
fn word_mode_output_is_sent_unchanged() {
    let text = vec!["word"; 3000].join(" ");
    let blocks = ModeManager::format_by_word(&text);
    assert!(blocks.len() > 1);
    assert_eq!(outgoing_messages(&blocks), blocks);
}

#[test]
fn sent_messages_stay_within_the_limit() {
    let line = "k".repeat(700);
    let block = vec![line; 30].join("\n");
    for m in outgoing_messages(&vec![block]) {
        assert!(m.len() <= 4096);
    }
}

fn content(s: &str) -> String {
    s.chars().filter(|c| !c.is_whitespace()).collect()
}

#[test]
fn sending_keeps_every_non_space_character() {
    let lines: Vec<String> = (0..400).map(|i| format!("  line {} of text  ", i)).collect();
    let block = lines.join("\r\n");
    let out = outgoing_messages(&vec![block.clone(), "tail".to_string()]);
    assert!(out.len() > 2);
    let sent: String = out.iter().map(|m| content(m)).collect();
    assert_eq!(sent, content(&block) + "tail");
}

#[test]
fn main_keyboard_buttons_are_commands() {
    let labels = main_keyboard_labels();
    assert_eq!(labels, vec!["\u{1f4dd} Start".to_string(), "\u{2699}\u{fe0f} Settings".to_string()]);
    assert_eq!(route_message(Some(&labels[0]), None), MessageRoute::Start);
    assert_eq!(route_message(Some(&labels[1]), None), MessageRoute::Settings);
}

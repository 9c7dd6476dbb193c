use vstd::prelude::*;

use crate::modes::{lemma_mode_name_roundtrip, mode_name, mode_named, Mode};
use crate::replies::mode_data;
use crate::text::{chars_of, str_eq, string_from_chars};

verus! {

/// The label of the main keyboard's Start button, which sends it as text.
pub open spec fn start_button_label() -> Seq<char> {
    "\u{1f4dd} Start"@
}

/// The label of the main keyboard's Settings button, which sends it as text.
pub open spec fn settings_button_label() -> Seq<char> {
    "\u{2699}\u{fe0f} Settings"@
}

/// What a text message asks for.
#[derive(Clone, Copy, Debug, PartialEq, Eq, Structural)]
pub enum Command {
    /// `/start`: the greeting and the main keyboard.
    Start,
    /// `/settings`: the settings page.
    Settings,
    /// Anything else: the text is to be formatted.
    Format,
}

/// The command that a text message is, going by the whole text: the
/// commands themselves, or the labels of the main keyboard's buttons.
pub open spec fn command_spec(text: Seq<char>) -> Command {
    if text == "/start"@ || text == start_button_label() {
        Command::Start
    } else if text == "/settings"@ || text == settings_button_label() {
        Command::Settings
    } else {
        Command::Format
    }
}

/// The command that a text message is (see `command_spec`).
pub fn command_of(text: &str) -> (r: Command)
    ensures
        r == command_spec(text@),
{
    if str_eq(text, "/start") || str_eq(text, "\u{1f4dd} Start") {
        Command::Start
    } else if str_eq(text, "/settings") || str_eq(text, "\u{2699}\u{fe0f} Settings") {
        Command::Settings
    } else {
        Command::Format
    }
}

/// What is done with an incoming message from a user (after it is counted).
#[derive(Clone, Copy, Debug, PartialEq, Eq, Structural)]
pub enum MessageRoute {
    /// The message text is `/start` or the Start button's label.
    Start,
    /// The message text is `/settings` or the Settings button's label.
    Settings,
    /// The message text is to be formatted.
    FormatText,
    /// The message has no text; its caption is to be formatted.
    FormatCaption,
    /// The message has neither text nor caption; nothing is sent back.
    NonText,
}

/// The route of a message with the given text and caption.
pub open spec fn message_route_spec(text: Option<Seq<char>>, caption: bool) -> MessageRoute {
    match text {
        Some(t) => match command_spec(t) {
            Command::Start => MessageRoute::Start,
            Command::Settings => MessageRoute::Settings,
            Command::Format => MessageRoute::FormatText,
        },
        None => if caption {
            MessageRoute::FormatCaption
        } else {
            MessageRoute::NonText
        },
    }
}

/// The view of an optional string.
pub open spec fn opt_view(o: Option<&str>) -> Option<Seq<char>> {
    match o {
        Some(s) => Some(s@),
        None => None,
    }
}

/// The route of a message with the given text and caption (see
/// `message_route_spec`).
pub fn route_message(text: Option<&str>, caption: Option<&str>) -> (r: MessageRoute)
    ensures
        r == message_route_spec(opt_view(text), caption is Some),
{
    match text {
        Some(t) => match command_of(t) {
            Command::Start => MessageRoute::Start,
            Command::Settings => MessageRoute::Settings,
            Command::Format => MessageRoute::FormatText,
        },
        None => if caption.is_some() {
            MessageRoute::FormatCaption
        } else {
            MessageRoute::NonText
        },
    }
}

/// Whether `s` begins with `p`.
pub open spec fn starts_with(s: Seq<char>, p: Seq<char>) -> bool {
    p.len() <= s.len() && s.take(p.len() as int) == p
}

/// `s` with every occurrence of `p` removed, occurrences taken from the
/// left without overlap, as `str::replace(p, "")` gives it.
pub open spec fn remove_all(s: Seq<char>, p: Seq<char>) -> Seq<char>
    decreases s.len(),
{
    if s.len() == 0 {
        s
    } else if p.len() > 0 && starts_with(s, p) {
        remove_all(s.skip(p.len() as int), p)
    } else {
        seq![s[0]] + remove_all(s.drop_first(), p)
    }
}

/// What a press on an inline button asks for.
#[derive(Clone, Copy, Debug, PartialEq, Eq, Structural)]
pub enum CallbackAction {
    /// Store this mode for the user, answer the query, show the settings.
    SelectMode(Mode),
    /// Answer the query and show the settings.
    RefreshStats,
    /// Nothing.
    Ignore,
}

/// The action for the callback data `d`.
pub open spec fn callback_spec(d: Seq<char>) -> CallbackAction {
    if starts_with(d, "mode_"@) {
        match mode_named(remove_all(d, "mode_"@)) {
            Some(m) => CallbackAction::SelectMode(m),
            None => CallbackAction::Ignore,
        }
    } else if d == "refresh_stats"@ {
        CallbackAction::RefreshStats
    } else {
        CallbackAction::Ignore
    }
}

fn matches_at(s: &Vec<char>, i: usize, p: &Vec<char>) -> (r: bool)
    requires
        i <= s.len(),
    ensures
        r == starts_with(s@.skip(i as int), p@),
{
    if p.len() > s.len() - i {
        return false;
    }
    let mut k: usize = 0;
    while k < p.len()
        invariant
            k <= p.len() <= s.len() - i,
            forall|j: int| 0 <= j < k ==> s@[i + j] == p@[j],
        decreases p.len() - k,
    {
        if s[i + k] != p[k] {
            assert(s@.skip(i as int).take(p.len() as int)[k as int] == s@[i + k]);
            return false;
        }
        k += 1;
    }
    assert(s@.skip(i as int).take(p.len() as int) =~= p@);
    true
}

/// `s` with every occurrence of `p` removed (see `remove_all`).
pub fn remove_occurrences(s: &str, p: &str) -> (r: String)
    ensures
        r@ == remove_all(s@, p@),
{
    let cs = chars_of(s);
    let ps = chars_of(p);
    let mut out: Vec<char> = Vec::new();
    let mut i: usize = 0;
    assert(cs@.skip(0) =~= cs@);
    assert(out@ + remove_all(cs@, ps@) =~= remove_all(cs@, ps@));
    while i < cs.len()
        invariant
            i <= cs.len(),
            ps@ == p@,
            out@ + remove_all(cs@.skip(i as int), ps@) == remove_all(cs@, ps@),
        decreases cs.len() - i,
    {
        let ghost rest = cs@.skip(i as int);
        if ps.len() > 0 && matches_at(&cs, i, &ps) {
            assert(rest.skip(ps.len() as int) =~= cs@.skip(i + ps.len()));
            i = i + ps.len();
        } else {
            assert(rest.drop_first() =~= cs@.skip(i + 1));
            assert(rest[0] == cs@[i as int]);
            assert(out@.push(cs@[i as int]) + remove_all(cs@.skip(i + 1), ps@) =~= out@ + (seq![
                rest[0],
            ] + remove_all(rest.drop_first(), ps@)));
            out.push(cs[i]);
            i = i + 1;
        }
    }
    assert(cs@.skip(cs.len() as int) =~= Seq::<char>::empty());
    assert(out@ + Seq::<char>::empty() =~= out@);
    string_from_chars(&out)
}

/// Whether `s` begins with `p`.
pub fn has_prefix(s: &str, p: &str) -> (r: bool)
    ensures
        r == starts_with(s@, p@),
{
    let cs = chars_of(s);
    let ps = chars_of(p);
    assert(cs@.skip(0) =~= cs@);
    matches_at(&cs, 0, &ps)
}

/// The action for the callback data `d` (see `callback_spec`).
pub fn route_callback(d: &str) -> (r: CallbackAction)
    ensures
        r == callback_spec(d@),
{
    if has_prefix(d, "mode_") {
        let name = remove_occurrences(d, "mode_");
        match Mode::parse(name.as_str()) {
            Ok(m) => CallbackAction::SelectMode(m),
            Err(_) => CallbackAction::Ignore,
        }
    } else if str_eq(d, "refresh_stats") {
        CallbackAction::RefreshStats
    } else {
        CallbackAction::Ignore
    }
}

proof fn lemma_remove_all_absent(s: Seq<char>, p: Seq<char>)
    requires
        p.len() > 0,
        forall|i: int| 0 <= i < s.len() ==> #[trigger] s[i] != p[0],
    ensures
        remove_all(s, p) == s,
    decreases s.len(),
{
    if s.len() > 0 {
        let t = s.drop_first();
        assert forall|i: int| 0 <= i < t.len() implies #[trigger] t[i] != p[0] by {
            assert(t[i] == s[i + 1]);
        }
        lemma_remove_all_absent(t, p);
        if starts_with(s, p) {
            assert(s.take(p.len() as int)[0] == s[0]);
        }
        assert(seq![s[0]] + t =~= s);
    }
}

/// Pressing the settings button of a mode selects that mode: the callback
/// data of the button for `m` is routed to `SelectMode(m)`.
pub proof fn lemma_mode_button_selects_mode(m: Mode)
    ensures
        callback_spec(mode_data(m)) == CallbackAction::SelectMode(m),
{
    let p = "mode_"@;
    let name = mode_name(m);
    let d = mode_data(m);
    reveal_strlit("mode_");
    reveal_strlit("Word");
    reveal_strlit("Sentence");
    reveal_strlit("Paragraph");
    reveal_strlit("Full");
    assert(d.take(5) =~= p);
    assert(starts_with(d, p));
    assert(d.skip(5) =~= name);
    assert(remove_all(d, p) == remove_all(d.skip(5), p));
    assert forall|i: int| 0 <= i < name.len() implies #[trigger] name[i] != p[0] by {}
    lemma_remove_all_absent(name, p);
    lemma_mode_name_roundtrip(m);
}

/// The main keyboard's buttons work: the text the Start button sends asks
/// for the greeting, the text the Settings button sends for the settings.
pub proof fn lemma_main_keyboard_buttons_work()
    ensures
        command_spec(start_button_label()) == Command::Start,
        command_spec(settings_button_label()) == Command::Settings,
{
    reveal_strlit("/start");
    reveal_strlit("\u{1f4dd} Start");
    reveal_strlit("\u{2699}\u{fe0f} Settings");
    assert(settings_button_label()[0] != "/start"@[0]);
    assert(settings_button_label()[0] != start_button_label()[0]);
}

} // verus!

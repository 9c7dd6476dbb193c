use vstd::prelude::*;

use crate::modes::{lemma_mode_name_roundtrip, mode_name, Mode};
use crate::routing::{settings_button_label, start_button_label};
use crate::text::string_from_chars;

verus! {

/// The decimal digit for `d`, for `d` in `0..10`.
pub open spec fn digit_char(d: int) -> char {
    if d == 0 {
        '0'
    } else if d == 1 {
        '1'
    } else if d == 2 {
        '2'
    } else if d == 3 {
        '3'
    } else if d == 4 {
        '4'
    } else if d == 5 {
        '5'
    } else if d == 6 {
        '6'
    } else if d == 7 {
        '7'
    } else if d == 8 {
        '8'
    } else {
        '9'
    }
}

/// The decimal numeral of `n`, without leading zeros.
pub open spec fn decimal_nat(n: nat) -> Seq<char>
    decreases n,
{
    if n < 10 {
        seq![digit_char(n as int)]
    } else {
        decimal_nat(n / 10).push(digit_char((n % 10) as int))
    }
}

/// The decimal numeral of `n`, with a leading `-` when `n` is negative, as
/// `{}` formats an integer.
pub open spec fn decimal_int(n: int) -> Seq<char> {
    if n < 0 {
        seq!['-'] + decimal_nat((-n) as nat)
    } else {
        decimal_nat(n as nat)
    }
}

/// Whether `c` is one of the ASCII digits `0` to `9`.
pub open spec fn is_digit(c: char) -> bool {
    48 <= (c as u32) && (c as u32) <= 57
}

/// The number that the digits `s` write in base ten.
pub open spec fn digits_value(s: Seq<char>) -> int
    decreases s.len(),
{
    if s.len() == 0 {
        0
    } else {
        digits_value(s.drop_last()) * 10 + ((s.last() as u32) - 48)
    }
}

/// A numeral reads back as its number: `decimal_nat(n)` is made of digits,
/// starts with `0` only where it is `"0"`, and its digits write `n`; the
/// numeral of a negative number is `-` and the numeral of its magnitude.
pub proof fn lemma_decimal_reads_back(n: int)
    ensures
        n >= 0 ==> digits_value(decimal_int(n)) == n,
        n < 0 ==> decimal_int(n)[0] == '-' && digits_value(decimal_int(n).drop_first()) == -n,
        decimal_int(n).len() >= 1,
        forall|i: int|
            (if n < 0 { 1int } else { 0int }) <= i < decimal_int(n).len() ==> is_digit(
                #[trigger] decimal_int(n)[i],
            ),
        n != 0 ==> decimal_int(n)[if n < 0 { 1int } else { 0int }] != '0',
{
    let m: nat = if n < 0 { (-n) as nat } else { n as nat };
    lemma_decimal_nat_reads_back(m);
    if n < 0 {
        let d = decimal_int(n);
        assert(d.drop_first() =~= decimal_nat(m));
        assert forall|i: int| 1 <= i < d.len() implies is_digit(#[trigger] d[i]) by {
            assert(d[i] == decimal_nat(m)[i - 1]);
        }
    }
}

proof fn lemma_decimal_nat_reads_back(n: nat)
    ensures
        digits_value(decimal_nat(n)) == n,
        decimal_nat(n).len() >= 1,
        forall|i: int| 0 <= i < decimal_nat(n).len() ==> is_digit(#[trigger] decimal_nat(n)[i]),
        n != 0 ==> decimal_nat(n)[0] != '0',
    decreases n,
{
    let d = decimal_nat(n);
    if n < 10 {
        assert(d.drop_last() =~= Seq::<char>::empty());
        assert(digits_value(d) == digits_value(d.drop_last()) * 10 + ((d.last() as u32) - 48));
        assert(digits_value(d.drop_last()) == 0);
        assert(((d.last() as u32) - 48) == n);
    } else {
        let q: nat = n / 10;
        lemma_decimal_nat_reads_back(q);
        let e = decimal_nat(q);
        let c = digit_char((n % 10) as int);
        assert(d == e.push(c));
        assert(d.drop_last() =~= e);
        assert(d[0] == e[0]);
        assert forall|i: int| 0 <= i < d.len() implies is_digit(#[trigger] d[i]) by {
            if i < e.len() {
                assert(d[i] == e[i]);
            }
        }
        assert(((c as u32) - 48) == n % 10);
        assert(digits_value(d) == digits_value(e) * 10 + ((c as u32) - 48));
        assert(q * 10 + (n % 10) == n);
    }
}

fn digit(d: u64) -> (r: char)
    requires
        d < 10,
    ensures
        r == digit_char(d as int),
{
    if d == 0 {
        '0'
    } else if d == 1 {
        '1'
    } else if d == 2 {
        '2'
    } else if d == 3 {
        '3'
    } else if d == 4 {
        '4'
    } else if d == 5 {
        '5'
    } else if d == 6 {
        '6'
    } else if d == 7 {
        '7'
    } else if d == 8 {
        '8'
    } else {
        '9'
    }
}

fn push_decimal(v: &mut Vec<char>, n: u64)
    ensures
        final(v)@ == old(v)@ + decimal_nat(n as nat),
    decreases n,
{
    if n >= 10 {
        push_decimal(v, n / 10);
    }
    let d = digit(n % 10);
    v.push(d);
    assert(final(v)@ =~= old(v)@ + decimal_nat(n as nat));
}

/// The decimal numeral of `n` (see `decimal_int`).
pub fn decimal(n: i64) -> (r: String)
    ensures
        r@ == decimal_int(n as int),
{
    let mut v: Vec<char> = Vec::new();
    if n < 0 {
        v.push('-');
        let m: u64 = (0i128 - (n as i128)) as u64;
        push_decimal(&mut v, m);
        assert(v@ =~= decimal_int(n as int));
    } else {
        push_decimal(&mut v, n as u64);
        assert(v@ =~= decimal_int(n as int));
    }
    string_from_chars(&v)
}

/// The message counts shown on the settings page.
pub struct Stats {
    /// Users who wrote in the last 7 days.
    pub active_users: i64,
    /// Users known to the bot.
    pub total_users: i64,
    /// This user's messages today.
    pub today: i64,
    /// This user's messages in the last 24 hours.
    pub last_24h: i64,
    /// This user's messages in the last 7 days.
    pub last_7d: i64,
    /// This user's messages in the last 30 days.
    pub last_30d: i64,
    /// This user's messages in the last year.
    pub last_year: i64,
    /// All of this user's messages.
    pub lifetime: i64,
}

/// The statistics section of the settings page.
pub open spec fn stats_text_spec(s: Stats) -> Seq<char> {
    "Global Stats:\n`Active Users (7d):` "@ + decimal_int(s.active_users as int)
        + "\n`Total Users:` "@ + decimal_int(s.total_users as int)
        + "\n\nYour Stats:\n`Today:` "@ + decimal_int(s.today as int)
        + "\n`24h:` "@ + decimal_int(s.last_24h as int)
        + "\n`7d:` "@ + decimal_int(s.last_7d as int)
        + "\n`30d:` "@ + decimal_int(s.last_30d as int)
        + "\n`1y:` "@ + decimal_int(s.last_year as int)
        + "\n`Lifetime:` "@ + decimal_int(s.lifetime as int)
}

/// The statistics section of the settings page (see `stats_text_spec`).
pub fn stats_text(s: &Stats) -> (r: String)
    ensures
        r@ == stats_text_spec(*s),
{
    let mut r = "Global Stats:\n`Active Users (7d):` ".to_owned();
    r.append(decimal(s.active_users).as_str());
    r.append("\n`Total Users:` ");
    r.append(decimal(s.total_users).as_str());
    r.append("\n\nYour Stats:\n`Today:` ");
    r.append(decimal(s.today).as_str());
    r.append("\n`24h:` ");
    r.append(decimal(s.last_24h).as_str());
    r.append("\n`7d:` ");
    r.append(decimal(s.last_7d).as_str());
    r.append("\n`30d:` ");
    r.append(decimal(s.last_30d).as_str());
    r.append("\n`1y:` ");
    r.append(decimal(s.last_year).as_str());
    r.append("\n`Lifetime:` ");
    r.append(decimal(s.lifetime).as_str());
    r
}

/// The settings page: the current mode name and the statistics section.
pub open spec fn settings_text_spec(mode: Seq<char>, stats: Seq<char>) -> Seq<char> {
    "\u{2699}\u{fe0f} *Settings*\n\n*Current Mode:* `"@ + mode
        + "`\n\n\u{1f4ca} *Statistics*\n\n"@ + stats
}

/// The settings page (see `settings_text_spec`).
pub fn settings_text(mode: &str, stats: &str) -> (r: String)
    ensures
        r@ == settings_text_spec(mode@, stats@),
{
    let mut r = "\u{2699}\u{fe0f} *Settings*\n\n*Current Mode:* `".to_owned();
    r.append(mode);
    r.append("`\n\n\u{1f4ca} *Statistics*\n\n");
    r.append(stats);
    r
}

/// The greeting sent for `/start`.
pub open spec fn welcome_text_spec() -> Seq<char> {
    "Welcome to Text Formatter Bot! \u{1f916}\n\nSend any text and I'll format it according to your selected mode.\n\nUse Settings to change the formatting mode."@
}

/// The greeting sent for `/start`.
pub fn welcome_text() -> (r: String)
    ensures
        r@ == welcome_text_spec(),
{
    "Welcome to Text Formatter Bot! \u{1f916}\n\nSend any text and I'll format it according to your selected mode.\n\nUse Settings to change the formatting mode.".to_owned()
}

/// The mode stored for a user, or `"Word"` when none is stored.
pub fn mode_or_default(stored: Option<String>) -> (r: String)
    ensures
        r@ == match stored {
            Some(s) => s@,
            None => "Word"@,
        },
{
    match stored {
        Some(s) => s,
        None => "Word".to_owned(),
    }
}

/// A button of an inline keyboard: what it shows and what it sends back.
pub struct Button {
    /// The text on the button.
    pub label: String,
    /// The callback data the button sends.
    pub data: String,
}

/// The modes, in the order the settings keyboard lists them.
pub open spec fn mode_order() -> Seq<Mode> {
    seq![Mode::Word, Mode::Sentence, Mode::Paragraph, Mode::Full]
}

/// The label of the button for `m`: its name, with a tick before it when
/// it is the current mode.
pub open spec fn mode_label(m: Mode, current: Seq<char>) -> Seq<char> {
    if mode_name(m) == current {
        "\u{2713} "@ + mode_name(m)
    } else {
        mode_name(m)
    }
}

/// The tick marks the current mode and nothing else: a mode's button
/// shows `"\u{2713} "` and its name exactly when its name is the current
/// mode, and its bare name otherwise; of the settings keyboard's mode
/// buttons at most one is ticked.
pub proof fn lemma_mode_labels_tick_current(current: Seq<char>)
    ensures
        forall|m: Mode|
            mode_name(m) == current ==> #[trigger] mode_label(m, current) == "\u{2713} "@
                + mode_name(m),
        forall|m: Mode| mode_name(m) != current ==> #[trigger] mode_label(m, current) == mode_name(m),
        forall|i: int, j: int|
            0 <= i < 4 && 0 <= j < 4 && i != j ==> !(#[trigger] mode_label(mode_order()[i], current)
                == "\u{2713} "@ + mode_name(mode_order()[i]) && #[trigger] mode_label(
                mode_order()[j],
                current,
            ) == "\u{2713} "@ + mode_name(mode_order()[j])),
{
    reveal_strlit("\u{2713} ");
    assert forall|m: Mode| mode_name(m) != ("\u{2713} "@ + mode_name(m)) by {
        assert(("\u{2713} "@ + mode_name(m)).len() == mode_name(m).len() + 2);
    }
    assert forall|i: int, j: int|
        0 <= i < 4 && 0 <= j < 4 && i != j implies !(#[trigger] mode_label(mode_order()[i], current)
        == "\u{2713} "@ + mode_name(mode_order()[i]) && #[trigger] mode_label(
        mode_order()[j],
        current,
    ) == "\u{2713} "@ + mode_name(mode_order()[j])) by {
        let a = mode_order()[i];
        let b = mode_order()[j];
        lemma_mode_name_roundtrip(a);
        lemma_mode_name_roundtrip(b);
        assert(a != b);
    }
}

/// The callback data of the button for `m`.
pub open spec fn mode_data(m: Mode) -> Seq<char> {
    "mode_"@ + mode_name(m)
}

/// The label of the button that refreshes the statistics.
pub open spec fn refresh_label() -> Seq<char> {
    "\u{1f504} Refresh Stats"@
}

/// The callback data of the button that refreshes the statistics.
pub open spec fn refresh_data() -> Seq<char> {
    "refresh_stats"@
}

fn mode_button(m: Mode, current: &str) -> (r: Button)
    ensures
        r.label@ == mode_label(m, current@),
        r.data@ == mode_data(m),
{
    let name = m.name();
    let label = if crate::text::str_eq(name, current) {
        let mut l = "\u{2713} ".to_owned();
        l.append(name);
        l
    } else {
        name.to_owned()
    };
    let mut data = "mode_".to_owned();
    data.append(name);
    Button { label, data }
}

/// The buttons of the settings keyboard, one per row: a button per mode in
/// `mode_order()`, the current one ticked, then the refresh button.
pub fn mode_selection_buttons(current: &str) -> (r: Vec<Button>)
    ensures
        r.len() == 5,
        forall|i: int|
            0 <= i < 4 ==> (#[trigger] r@[i]).label@ == mode_label(mode_order()[i], current@)
                && r@[i].data@ == mode_data(mode_order()[i]),
        r@[4].label@ == refresh_label(),
        r@[4].data@ == refresh_data(),
{
    let mut r: Vec<Button> = Vec::new();
    r.push(mode_button(Mode::Word, current));
    r.push(mode_button(Mode::Sentence, current));
    r.push(mode_button(Mode::Paragraph, current));
    r.push(mode_button(Mode::Full, current));
    r.push(
        Button { label: "\u{1f504} Refresh Stats".to_owned(), data: "refresh_stats".to_owned() },
    );
    r
}

/// The labels of the main keyboard's buttons, in order: Start, Settings.
pub fn main_keyboard_labels() -> (r: Vec<String>)
    ensures
        r.len() == 2,
        r@[0]@ == start_button_label(),
        r@[1]@ == settings_button_label(),
{
    let mut r: Vec<String> = Vec::new();
    r.push("\u{1f4dd} Start".to_owned());
    r.push("\u{2699}\u{fe0f} Settings".to_owned());
    r
}

} // verus!

use vstd::prelude::*;

use crate::text::{
    lemma_concat_all_append, lemma_nonws_idempotent,
    lemma_len_at_most_blen, lemma_occurs_in_push, lemma_occurs_in_trans, lemma_trim_is_run,
    occurs_in,
    cut_all, cut_items, lemma_cut_all, lemma_cut_all_keeps_fitting,
    append_chars, copy_chars, lemma_string_views_concat, lemma_string_views_push,
    lemma_vec_views_push,
    blen, blocks, cap, capped_blen, chars_of, concat_all, is_ws, lemma_blen_concat,
    lemma_blen_push, lemma_blocks_cover, lemma_concat_all_push, lemma_lines_cover,
    lemma_lines_nonempty, lemma_nonws_blank, lemma_nonws_concat, lemma_nonws_push,
    lemma_nonws_trim, lemma_trim_empty, lemma_trim_idempotent, lemma_trim_of_empty,
    lemma_words_cover, lines, nonws, split_blocks, split_lines, split_whitespace, str_eq,
    string_from_chars, string_views, trim, trimmed, utf8_width, vec_views, words,
};

verus! {

/// How a text is laid out into monospace blocks.
#[derive(Clone, Copy, Debug, PartialEq, Eq, Structural)]
pub enum Mode {
    Word,
    Sentence,
    Paragraph,
    Full,
}

/// The name of a mode, as users and the settings store write it.
pub open spec fn mode_name(m: Mode) -> Seq<char> {
    match m {
        Mode::Word => "Word"@,
        Mode::Sentence => "Sentence"@,
        Mode::Paragraph => "Paragraph"@,
        Mode::Full => "Full"@,
    }
}

/// The mode named `s`, if any.
pub open spec fn mode_named(s: Seq<char>) -> Option<Mode> {
    if s == "Word"@ {
        Some(Mode::Word)
    } else if s == "Sentence"@ {
        Some(Mode::Sentence)
    } else if s == "Paragraph"@ {
        Some(Mode::Paragraph)
    } else if s == "Full"@ {
        Some(Mode::Full)
    } else {
        None
    }
}

/// The message with which an unknown mode name is refused.
pub open spec fn unknown_mode_message(s: Seq<char>) -> Seq<char> {
    "Unknown mode: "@ + s
}

impl Mode {
    /// The mode named `s` (`"Word"`, `"Sentence"`, `"Paragraph"` or `"Full"`,
    /// exactly), or the message `"Unknown mode: "` followed by `s`.
    pub fn parse(s: &str) -> (r: Result<Mode, String>)
        ensures
            match r {
                Ok(m) => mode_named(s@) == Some(m),
                Err(e) => mode_named(s@) is None && e@ == unknown_mode_message(s@),
            },
    {
        if str_eq(s, "Word") {
            Ok(Mode::Word)
        } else if str_eq(s, "Sentence") {
            Ok(Mode::Sentence)
        } else if str_eq(s, "Paragraph") {
            Ok(Mode::Paragraph)
        } else if str_eq(s, "Full") {
            Ok(Mode::Full)
        } else {
            let mut e = "Unknown mode: ".to_owned();
            e.append(s);
            Err(e)
        }
    }

    /// The name of the mode.
    pub fn name(&self) -> (r: &'static str)
        ensures
            r@ == mode_name(*self),
    {
        match self {
            Mode::Word => "Word",
            Mode::Sentence => "Sentence",
            Mode::Paragraph => "Paragraph",
            Mode::Full => "Full",
        }
    }

    /// The name of the mode, as an owned string.
    pub fn to_string(&self) -> (r: String)
        ensures
            r@ == mode_name(*self),
    {
        self.name().to_owned()
    }
}

/// Parsing the name of a mode gives that mode back.
pub proof fn lemma_mode_name_roundtrip(m: Mode)
    ensures
        mode_named(mode_name(m)) == Some(m),
{
    reveal_strlit("Word");
    reveal_strlit("Sentence");
    reveal_strlit("Paragraph");
    reveal_strlit("Full");
    assert("Word"@.len() == 4 && "Word"@[0] == 'W');
    assert("Sentence"@.len() == 8);
    assert("Paragraph"@.len() == 9);
    assert("Full"@.len() == 4 && "Full"@[0] == 'F');
    match m {
        Mode::Word => {},
        Mode::Sentence => {
            assert("Sentence"@ != "Word"@);
        },
        Mode::Paragraph => {
            assert("Paragraph"@ != "Word"@);
            assert("Paragraph"@ != "Sentence"@);
        },
        Mode::Full => {
            assert("Full"@[0] != "Word"@[0]);
            assert("Full"@ != "Word"@);
            assert("Full"@ != "Sentence"@);
            assert("Full"@ != "Paragraph"@);
        },
    }
}

/// Formatting in a named mode is formatting in that mode: the name
/// `"Word"` gives word mode's blocks, `"Sentence"` sentence mode's,
/// `"Paragraph"` paragraph mode's and `"Full"` full mode's; any other name
/// gives word mode's.
pub proof fn lemma_format_dispatch(text: Seq<char>)
    ensures
        format_blocks(text, "Word"@) == word_blocks(text),
        format_blocks(text, "Sentence"@) == sentence_blocks(text),
        format_blocks(text, "Paragraph"@) == paragraph_mode_blocks(text),
        format_blocks(text, "Full"@) == full_blocks(text),
        forall|mode: Seq<char>|
            mode != "Word"@ && mode != "Sentence"@ && mode != "Paragraph"@ && mode != "Full"@
                ==> #[trigger] format_blocks(text, mode) == word_blocks(text),
{
    lemma_mode_name_roundtrip(Mode::Word);
    lemma_mode_name_roundtrip(Mode::Sentence);
    lemma_mode_name_roundtrip(Mode::Paragraph);
    lemma_mode_name_roundtrip(Mode::Full);
}

/// The size a block is kept within where it can be: 4096 bytes, the
/// Telegram limit, less a margin of 10.
pub open spec fn max_len() -> nat {
    4086
}

/// The largest item that fits in a block of its own: `max_len()` less the
/// fences and the item's newline.
pub open spec fn max_item() -> nat {
    4078
}

/// The size limit of one message (Telegram's).
pub open spec fn message_limit() -> nat {
    4096
}

/// The opening of a monospace block: three backticks and a newline.
pub open spec fn fence_open() -> Seq<char> {
    seq!['`', '`', '`', '\n']
}

/// The closing of a monospace block: three backticks.
pub open spec fn fence_close() -> Seq<char> {
    seq!['`', '`', '`']
}

/// An empty monospace block, ```` "```\n```" ````.
pub open spec fn empty_block() -> Seq<char> {
    fence_open() + fence_close()
}

/// The items of a group, each followed by a newline.
pub open spec fn block_body(g: Seq<Seq<char>>) -> Seq<char>
    decreases g.len(),
{
    if g.len() == 0 {
        seq![]
    } else {
        block_body(g.drop_last()) + g.last().push('\n')
    }
}

/// A group of items as one monospace block, one item per line.
pub open spec fn render(g: Seq<Seq<char>>) -> Seq<char> {
    fence_open() + block_body(g) + fence_close()
}

/// Reading `items` in order: the groups closed so far and the open group.
/// An item joins the open group when the block would then still leave room
/// for the closing fence within `max_len()`; else the open group is closed
/// and the item opens the next one.
pub open spec fn pack_scan(items: Seq<Seq<char>>) -> (Seq<Seq<Seq<char>>>, Seq<Seq<char>>)
    decreases items.len(),
{
    if items.len() == 0 {
        (seq![], seq![])
    } else {
        let (done, g) = pack_scan(items.drop_last());
        let it = items.last();
        if blen(fence_open() + block_body(g)) + (blen(it) + 1) + 3 <= max_len() {
            (done, g.push(it))
        } else {
            (done.push(g), seq![it])
        }
    }
}

/// The groups into which `items` are packed (see `pack_scan`); the last
/// open group is kept when it holds an item.
pub open spec fn pack_groups(items: Seq<Seq<char>>) -> Seq<Seq<Seq<char>>> {
    let (done, g) = pack_scan(items);
    if g.len() > 0 {
        done.push(g)
    } else {
        done
    }
}

/// The blocks into which `items` are packed, one item per line.
pub open spec fn pack(items: Seq<Seq<char>>) -> Seq<Seq<char>> {
    pack_groups(items).map_values(|g: Seq<Seq<char>>| render(g))
}

proof fn lemma_block_body_len(g: Seq<Seq<char>>)
    ensures
        block_body(g).len() >= g.len(),
    decreases g.len(),
{
    if g.len() > 0 {
        lemma_block_body_len(g.drop_last());
    }
}


proof fn lemma_fence_widths()
    ensures
        blen(fence_open()) == 4,
        blen(fence_close()) == 3,
        blen(empty_block()) == 7,
{
    reveal_with_fuel(blen, 5);
    lemma_blen_concat(fence_open(), fence_close());
}

proof fn lemma_render_push(done: Seq<Seq<Seq<char>>>, g: Seq<Seq<char>>)
    ensures
        done.push(g).map_values(|x: Seq<Seq<char>>| render(x)) == done.map_values(
            |x: Seq<Seq<char>>| render(x),
        ).push(render(g)),
{
    assert(done.push(g).map_values(|x: Seq<Seq<char>>| render(x)) =~= done.map_values(
        |x: Seq<Seq<char>>| render(x),
    ).push(render(g)));
}


proof fn lemma_block_body_push(g: Seq<Seq<char>>, it: Seq<char>)
    ensures
        block_body(g.push(it)) == block_body(g) + it.push('\n'),
{
    assert(g.push(it).drop_last() =~= g);
}

fn push_fence_close(v: &mut Vec<char>)
    ensures
        final(v)@ == old(v)@ + fence_close(),
{
    v.push('`');
    v.push('`');
    v.push('`');
    assert(final(v)@ =~= old(v)@ + fence_close());
}

fn fence_open_chars() -> (r: Vec<char>)
    ensures
        r@ == fence_open(),
{
    let mut v: Vec<char> = Vec::new();
    v.push('`');
    v.push('`');
    v.push('`');
    v.push('\n');
    assert(v@ =~= fence_open());
    v
}


/// Packs `items` into monospace blocks (see `pack`).
pub fn pack_items(items: &Vec<Vec<char>>) -> (r: Vec<String>)
    ensures
        string_views(r@) == pack(vec_views(items@)),
{
    let ghost its = vec_views(items@);
    let mut result: Vec<String> = Vec::new();
    let mut cur = fence_open_chars();
    let mut cur_len: usize = 4;
    let ghost mut g: Seq<Seq<char>> = seq![];
    let mut i: usize = 0;
    proof {
        lemma_fence_widths();
        assert(fence_open() + block_body(g) =~= fence_open());
    }
    while i < items.len()
        invariant
            i <= items.len(),
            its == vec_views(items@),
            pack_scan(its.take(i as int)) == (pack_scan(its.take(i as int)).0, g),
            string_views(result@) == pack_scan(its.take(i as int)).0.map_values(
                |g: Seq<Seq<char>>| render(g),
            ),
            cur@ == fence_open() + block_body(g),
            cur_len == cap(blen(cur@)),
        decreases items.len() - i,
    {
        let item = &items[i];
        let w = capped_blen(item);
        assert(its.take(i + 1).drop_last() =~= its.take(i as int));
        assert(its.take(i + 1).last() == item@);
        let ghost done = pack_scan(its.take(i as int)).0;
        proof {
            lemma_blen_concat(cur@, item@.push('\n'));
            lemma_blen_push(item@, '\n');
            lemma_block_body_push(g, item@);
        }
        if cur_len + w + 1 + 3 <= 4086 {
            let ghost before = cur@;
            append_chars(&mut cur, item);
            cur.push('\n');
            assert(cur@ =~= before + item@.push('\n'));
            cur_len = cur_len + w + 1;
            proof {
                assert(cur@ =~= fence_open() + block_body(g.push(item@)));
                g = g.push(item@);
            }
        } else {
            let ghost old_result = result@;
            push_fence_close(&mut cur);
            let s = string_from_chars(&cur);
            assert(s@ == render(g));
            result.push(s);
            proof {
                lemma_string_views_push(old_result, s);
                lemma_render_push(done, g);
            }
            cur = fence_open_chars();
            append_chars(&mut cur, item);
            cur.push('\n');
            assert(cur@ =~= fence_open() + item@.push('\n'));
            proof {
                lemma_blen_concat(fence_open(), item@.push('\n'));
                lemma_fence_widths();
            }
            cur_len = if 4 + w + 1 > 65536 { 65536 } else { 4 + w + 1 };
            proof {
                let ng: Seq<Seq<char>> = seq![item@];
                assert(ng.drop_last() =~= Seq::<Seq<char>>::empty());
                assert(block_body(ng) =~= block_body(Seq::<Seq<char>>::empty()) + item@.push('\n'));
                assert(cur@ =~= fence_open() + block_body(ng));
                g = ng;
            }
        }
        i += 1;
    }
    assert(its.take(items.len() as int) =~= its);
    let ghost done = pack_scan(its).0;
    if cur.len() != 4 {
        proof {
            lemma_block_body_len(g);
        }
        let ghost old_result = result@;
        push_fence_close(&mut cur);
        let s = string_from_chars(&cur);
        assert(s@ == render(g));
        result.push(s);
        proof {
            assert(g.len() > 0);
            lemma_string_views_push(old_result, s);
            lemma_render_push(done, g);
        }
    } else {
        assert(block_body(g).len() == 0);
        proof {
            lemma_block_body_len(g);
        }
    }
    result
}

/// The blocks of word mode: the words of `s`, one per line, packed into
/// blocks, a word longer than `max_item()` bytes cut into pieces that fit;
/// an empty block when `s` has no word.
pub open spec fn word_blocks(s: Seq<char>) -> Seq<Seq<char>> {
    let w = words(s);
    if w.len() == 0 {
        seq![empty_block()]
    } else {
        pack(cut_all(w, max_item()))
    }
}

/// Whether `c` ends a sentence.
pub open spec fn is_terminator(c: char) -> bool {
    c == '.' || c == '!' || c == '?'
}

/// Reading `s` left to right: the sentences finished so far and the text
/// read since the last terminator.
pub open spec fn sentences_scan(s: Seq<char>) -> (Seq<Seq<char>>, Seq<char>)
    decreases s.len(),
{
    if s.len() == 0 {
        (seq![], seq![])
    } else {
        let (done, cur) = sentences_scan(s.drop_last());
        let c = s.last();
        let cur2 = cur.push(c);
        if is_terminator(c) {
            if trim(cur2).len() > 0 {
                (done.push(trim(cur2)), seq![])
            } else {
                (done, seq![])
            }
        } else {
            (done, cur2)
        }
    }
}

/// The sentences of `s`: the pieces of `s` that end at a `.`, `!` or `?`
/// (terminator included), and the rest after the last one, each trimmed;
/// pieces that are only white space are left out.
pub open spec fn sentences(s: Seq<char>) -> Seq<Seq<char>> {
    let (done, cur) = sentences_scan(s);
    if trim(cur).len() > 0 {
        done.push(trim(cur))
    } else {
        done
    }
}

/// Each of `ss`, trimmed.
pub open spec fn trim_all(ss: Seq<Seq<char>>) -> Seq<Seq<char>> {
    ss.map_values(|x: Seq<char>| trim(x))
}

/// The blocks of sentence mode: the sentences of `s`, one per line, packed
/// into blocks, a sentence longer than `max_item()` bytes cut into pieces
/// that fit; an empty block when `s` has no sentence.
pub open spec fn sentence_blocks(s: Seq<char>) -> Seq<Seq<char>> {
    let ss = sentences(s);
    if ss.len() == 0 {
        seq![empty_block()]
    } else {
        pack(cut_all(trim_all(ss), max_item()))
    }
}

/// The pieces of `ps` that hold something besides white space, in order.
pub open spec fn nonblank(ps: Seq<Seq<char>>) -> Seq<Seq<char>>
    decreases ps.len(),
{
    if ps.len() == 0 {
        seq![]
    } else {
        let r = nonblank(ps.drop_last());
        if trim(ps.last()).len() > 0 {
            r.push(ps.last())
        } else {
            r
        }
    }
}

/// The paragraphs of `s`: its pieces between blank-line separators
/// (`"\n\n"`) that are not blank.
pub open spec fn paragraphs(s: Seq<char>) -> Seq<Seq<char>> {
    nonblank(blocks(s))
}

/// `body` as one monospace block: fence, body, newline, closing fence.
pub open spec fn wrap(body: Seq<char>) -> Seq<char> {
    fence_open() + body + seq!['\n'] + fence_close()
}

/// The blocks of one paragraph: the trimmed paragraph as one block where
/// that block is within `max_len()`; else its lines packed into blocks, a
/// line longer than `max_item()` bytes cut into pieces that fit.
pub open spec fn paragraph_blocks(p: Seq<char>) -> Seq<Seq<char>> {
    let f = wrap(trim(p));
    if blen(f) <= max_len() {
        seq![f]
    } else {
        pack(cut_all(lines(p), max_item()))
    }
}

/// The blocks of the paragraphs `ps`, in order.
pub open spec fn paragraphs_blocks(ps: Seq<Seq<char>>) -> Seq<Seq<char>>
    decreases ps.len(),
{
    if ps.len() == 0 {
        seq![]
    } else {
        paragraphs_blocks(ps.drop_last()) + paragraph_blocks(ps.last())
    }
}

/// The blocks of paragraph mode; an empty block when `s` has no paragraph.
pub open spec fn paragraph_mode_blocks(s: Seq<char>) -> Seq<Seq<char>> {
    let ps = paragraphs(s);
    if ps.len() == 0 {
        seq![empty_block()]
    } else {
        paragraphs_blocks(ps)
    }
}

/// Reading `t` character by character: the chunks closed so far and the
/// open chunk. A character joins the open chunk while the chunk's byte
/// length plus 7 is within `max_len()`; else it opens the next chunk.
pub open spec fn chunks_scan(t: Seq<char>) -> (Seq<Seq<char>>, Seq<char>)
    decreases t.len(),
{
    if t.len() == 0 {
        (seq![], seq![])
    } else {
        let (done, cur) = chunks_scan(t.drop_last());
        let c = t.last();
        if blen(cur) + 1 + 6 <= max_len() {
            (done, cur.push(c))
        } else {
            (done.push(cur), seq![c])
        }
    }
}

/// The bodies of the blocks of full mode: the trimmed text whole when its
/// byte length plus 6 is within `max_len()`; else its chunks.
pub open spec fn full_bodies(s: Seq<char>) -> Seq<Seq<char>> {
    let t = trim(s);
    if blen(t) + 6 <= max_len() {
        seq![t]
    } else {
        let (done, cur) = chunks_scan(t);
        if cur.len() > 0 {
            done.push(cur)
        } else {
            done
        }
    }
}

/// The blocks of full mode.
pub open spec fn full_blocks(s: Seq<char>) -> Seq<Seq<char>> {
    full_bodies(s).map_values(|b: Seq<char>| wrap(b))
}

/// The blocks into which `text` is laid out in the mode named `mode`; a
/// name that is no mode's gives word mode.
pub open spec fn format_blocks(text: Seq<char>, mode: Seq<char>) -> Seq<Seq<char>> {
    match mode_named(mode) {
        Some(Mode::Sentence) => sentence_blocks(text),
        Some(Mode::Paragraph) => paragraph_mode_blocks(text),
        Some(Mode::Full) => full_blocks(text),
        _ => word_blocks(text),
    }
}

fn empty_block_string() -> (r: String)
    ensures
        r@ == empty_block(),
{
    let mut v = fence_open_chars();
    push_fence_close(&mut v);
    string_from_chars(&v)
}

fn wrap_chars(b: &Vec<char>) -> (r: Vec<char>)
    ensures
        r@ == wrap(b@),
{
    let mut v = fence_open_chars();
    append_chars(&mut v, b);
    v.push('\n');
    push_fence_close(&mut v);
    assert(v@ =~= wrap(b@));
    v
}




/// The sentences of the characters `s` (see `sentences`).
fn sentence_pieces(s: &Vec<char>) -> (r: Vec<Vec<char>>)
    ensures
        vec_views(r@) == sentences(s@),
{
    let mut done: Vec<Vec<char>> = Vec::new();
    let mut cur: Vec<char> = Vec::new();
    let mut i: usize = 0;
    while i < s.len()
        invariant
            i <= s.len(),
            (vec_views(done@), cur@) == sentences_scan(s@.take(i as int)),
        decreases s.len() - i,
    {
        let c = s[i];
        assert(s@.take(i + 1).drop_last() =~= s@.take(i as int));
        cur.push(c);
        if c == '.' || c == '!' || c == '?' {
            let t = trimmed(&cur);
            if t.len() > 0 {
                proof {
                    lemma_vec_views_push(done@, t);
                }
                done.push(t);
            }
            cur = Vec::new();
        }
        i += 1;
    }
    assert(s@.take(s.len() as int) =~= s@);
    let t = trimmed(&cur);
    if t.len() > 0 {
        proof {
            lemma_vec_views_push(done@, t);
        }
        done.push(t);
    }
    done
}

fn trim_each(ss: &Vec<Vec<char>>) -> (r: Vec<Vec<char>>)
    ensures
        vec_views(r@) == trim_all(vec_views(ss@)),
{
    let mut r: Vec<Vec<char>> = Vec::new();
    let mut i: usize = 0;
    while i < ss.len()
        invariant
            i <= ss.len(),
            vec_views(r@) == trim_all(vec_views(ss@).take(i as int)),
        decreases ss.len() - i,
    {
        let t = trimmed(&ss[i]);
        proof {
            lemma_vec_views_push(r@, t);
            assert(trim_all(vec_views(ss@).take(i + 1)) =~= trim_all(vec_views(ss@).take(i as int)).push(t@));
        }
        r.push(t);
        i += 1;
    }
    assert(vec_views(ss@).take(ss.len() as int) =~= vec_views(ss@));
    r
}

fn strings_of(v: &Vec<Vec<char>>) -> (r: Vec<String>)
    ensures
        string_views(r@) == vec_views(v@),
{
    let mut r: Vec<String> = Vec::new();
    let mut i: usize = 0;
    while i < v.len()
        invariant
            i <= v.len(),
            string_views(r@) == vec_views(v@).take(i as int),
        decreases v.len() - i,
    {
        let x = string_from_chars(&v[i]);
        proof {
            lemma_string_views_push(r@, x);
            assert(vec_views(v@).take(i + 1) =~= vec_views(v@).take(i as int).push(v@[i as int]@));
        }
        r.push(x);
        i += 1;
    }
    assert(vec_views(v@).take(v.len() as int) =~= vec_views(v@));
    r
}

fn keep_nonblank(ps: &Vec<Vec<char>>) -> (r: Vec<Vec<char>>)
    ensures
        vec_views(r@) == nonblank(vec_views(ps@)),
{
    let mut r: Vec<Vec<char>> = Vec::new();
    let mut i: usize = 0;
    while i < ps.len()
        invariant
            i <= ps.len(),
            vec_views(r@) == nonblank(vec_views(ps@).take(i as int)),
        decreases ps.len() - i,
    {
        let t = trimmed(&ps[i]);
        assert(vec_views(ps@).take(i + 1).drop_last() =~= vec_views(ps@).take(i as int));
        if t.len() > 0 {
            let p = copy_chars(&ps[i]);
            proof {
                lemma_vec_views_push(r@, p);
            }
            r.push(p);
        }
        i += 1;
    }
    assert(vec_views(ps@).take(ps.len() as int) =~= vec_views(ps@));
    r
}

fn blocks_of_paragraph(p: &Vec<char>) -> (r: Vec<String>)
    ensures
        string_views(r@) == paragraph_blocks(p@),
{
    let t = trimmed(p);
    let f = wrap_chars(&t);
    let n = capped_blen(&f);
    if n <= 4086 {
        let mut r: Vec<String> = Vec::new();
        let x = string_from_chars(&f);
        proof {
            lemma_string_views_push(r@, x);
            assert(seq![f@] =~= Seq::<Seq<char>>::empty().push(f@));
        }
        r.push(x);
        r
    } else {
        let ls = split_lines(p);
        let items = cut_items(&ls, 4078);
        pack_items(&items)
    }
}

/// Lays text out into monospace blocks.
#[derive(Debug, PartialEq, Eq, Structural)]
pub struct ModeManager;

impl Default for ModeManager {
    fn default() -> (r: Self)
        ensures
            r == ModeManager,
    {
        ModeManager::new()
    }
}

impl std::str::FromStr for Mode {
    type Err = String;

    fn from_str(s: &str) -> (r: Result<Mode, String>)
        ensures
            match r {
                Ok(m) => mode_named(s@) == Some(m),
                Err(e) => mode_named(s@) is None && e@ == unknown_mode_message(s@),
            },
    {
        Mode::parse(s)
    }
}

impl ModeManager {
    /// A mode manager.
    pub fn new() -> (r: Self)
        ensures
            r == ModeManager,
    {
        ModeManager
    }

    /// `text` laid out in the mode named `mode` (word mode for a name that
    /// is no mode's).
    pub fn format(&self, text: &str, mode: &str) -> (r: Vec<String>)
        ensures
            string_views(r@) == format_blocks(text@, mode@),
            mode@ == "Word"@ ==> string_views(r@) == word_blocks(text@),
            mode@ == "Sentence"@ ==> string_views(r@) == sentence_blocks(text@),
            mode@ == "Paragraph"@ ==> string_views(r@) == paragraph_mode_blocks(text@),
            mode@ == "Full"@ ==> string_views(r@) == full_blocks(text@),
            (mode@ != "Word"@ && mode@ != "Sentence"@ && mode@ != "Paragraph"@ && mode@
                != "Full"@) ==> string_views(r@) == word_blocks(text@),
            r.len() >= 1,
            forall|j: int| 0 <= j < r.len() ==> blen((#[trigger] r@[j])@) <= message_limit(),
    {
        proof {
            lemma_format_dispatch(text@);
            lemma_format_within_limit(text@, mode@);
            lemma_format_never_empty(text@, mode@);
        }
        let r = match Mode::parse(mode) {
            Ok(Mode::Word) => Self::format_by_word(text),
            Ok(Mode::Sentence) => Self::format_by_sentence(text),
            Ok(Mode::Paragraph) => Self::format_by_paragraph(text),
            Ok(Mode::Full) => Self::format_full(text),
            Err(_) => Self::format_by_word(text),
        };
        assert forall|j: int| 0 <= j < r.len() implies blen((#[trigger] r@[j])@)
            <= message_limit() by {
            assert(string_views(r@)[j] == r@[j]@);
        }
        assert(string_views(r@).len() == r.len());
        r
    }

    /// Word mode: each word of `text` on a line of its own (cut where it is
    /// longer than a block holds), the lines packed into blocks (see
    /// `word_blocks`).
    pub fn format_by_word(text: &str) -> (r: Vec<String>)
        ensures
            string_views(r@) == word_blocks(text@),
    {
        let cs = chars_of(text);
        let ws = split_whitespace(&cs);
        if ws.len() == 0 {
            let mut r: Vec<String> = Vec::new();
            let x = empty_block_string();
            proof {
                lemma_string_views_push(r@, x);
                assert(seq![empty_block()] =~= Seq::<Seq<char>>::empty().push(empty_block()));
            }
            r.push(x);
            return r;
        }
        let items = cut_items(&ws, 4078);
        pack_items(&items)
    }

    /// Sentence mode: each sentence of `text` on a line of its own (cut where
    /// it is longer than a block holds), the lines packed into blocks (see
    /// `sentence_blocks`).
    pub fn format_by_sentence(text: &str) -> (r: Vec<String>)
        ensures
            string_views(r@) == sentence_blocks(text@),
    {
        let cs = chars_of(text);
        let ss = sentence_pieces(&cs);
        if ss.len() == 0 {
            let mut r: Vec<String> = Vec::new();
            let x = empty_block_string();
            proof {
                lemma_string_views_push(r@, x);
                assert(seq![empty_block()] =~= Seq::<Seq<char>>::empty().push(empty_block()));
            }
            r.push(x);
            return r;
        }
        let trimmed_items = trim_each(&ss);
        let items = cut_items(&trimmed_items, 4078);
        pack_items(&items)
    }

    /// Paragraph mode: each paragraph of `text` as a block of its own, or,
    /// where it does not fit, its lines packed into blocks (see
    /// `paragraph_mode_blocks`).
    pub fn format_by_paragraph(text: &str) -> (r: Vec<String>)
        ensures
            string_views(r@) == paragraph_mode_blocks(text@),
    {
        let cs = chars_of(text);
        let bl = split_blocks(&cs);
        let ps = keep_nonblank(&bl);
        let mut r: Vec<String> = Vec::new();
        if ps.len() == 0 {
            let x = empty_block_string();
            proof {
                lemma_string_views_push(r@, x);
                assert(seq![empty_block()] =~= Seq::<Seq<char>>::empty().push(empty_block()));
            }
            r.push(x);
            return r;
        }
        let ghost pv = vec_views(ps@);
        let mut i: usize = 0;
        while i < ps.len()
            invariant
                i <= ps.len(),
                pv == vec_views(ps@),
                string_views(r@) == paragraphs_blocks(pv.take(i as int)),
            decreases ps.len() - i,
        {
            let mut b = blocks_of_paragraph(&ps[i]);
            proof {
                assert(pv.take(i + 1).drop_last() =~= pv.take(i as int));
                lemma_string_views_concat(r@, b@);
            }
            r.append(&mut b);
            i += 1;
        }
        assert(pv.take(ps.len() as int) =~= pv);
        r
    }

    /// Full mode: the trimmed text as one block, or, where it does not fit,
    /// cut into chunks, each a block (see `full_blocks`).
    pub fn format_full(text: &str) -> (r: Vec<String>)
        ensures
            string_views(r@) == full_blocks(text@),
    {
        let cs = chars_of(text);
        let t = trimmed(&cs);
        let n = capped_blen(&t);
        let mut r: Vec<String> = Vec::new();
        if n + 6 <= 4086 {
            let f = wrap_chars(&t);
            let x = string_from_chars(&f);
            proof {
                lemma_string_views_push(r@, x);
                assert(seq![t@].map_values(|b: Seq<char>| wrap(b)) =~= Seq::<Seq<char>>::empty().push(
                    wrap(t@),
                ));
            }
            r.push(x);
            return r;
        }
        let ghost tv = t@;
        let mut cur: Vec<char> = Vec::new();
        let mut cur_len: usize = 0;
        let mut i: usize = 0;
        while i < t.len()
            invariant
                i <= t.len(),
                tv == t@,
                string_views(r@) == chunks_scan(tv.take(i as int)).0.map_values(
                    |b: Seq<char>| wrap(b),
                ),
                cur@ == chunks_scan(tv.take(i as int)).1,
                cur_len == blen(cur@),
                cur_len <= 4083,
            decreases t.len() - i,
        {
            let c = t[i];
            let w = utf8_width(c);
            let ghost done = chunks_scan(tv.take(i as int)).0;
            assert(tv.take(i + 1).drop_last() =~= tv.take(i as int));
            if cur_len + 1 + 6 <= 4086 {
                proof {
                    lemma_blen_push(cur@, c);
                }
                cur.push(c);
                cur_len = cur_len + w;
            } else {
                let f = wrap_chars(&cur);
                let x = string_from_chars(&f);
                proof {
                    lemma_string_views_push(r@, x);
                    assert(done.push(cur@).map_values(|b: Seq<char>| wrap(b)) =~= done.map_values(
                        |b: Seq<char>| wrap(b),
                    ).push(wrap(cur@)));
                }
                r.push(x);
                cur = Vec::new();
                proof {
                    lemma_blen_push(cur@, c);
                    assert(cur@.push(c) =~= seq![c]);
                }
                cur.push(c);
                cur_len = w;
            }
            i += 1;
        }
        assert(tv.take(t.len() as int) =~= tv);
        if cur.len() > 0 {
            let ghost done = chunks_scan(tv).0;
            let f = wrap_chars(&cur);
            let x = string_from_chars(&f);
            proof {
                lemma_string_views_push(r@, x);
                assert(done.push(cur@).map_values(|b: Seq<char>| wrap(b)) =~= done.map_values(
                    |b: Seq<char>| wrap(b),
                ).push(wrap(cur@)));
            }
            r.push(x);
        }
        r
    }

    /// The sentences of `text` (see `sentences`).
    pub fn split_sentences(text: &str) -> (r: Vec<String>)
        ensures
            string_views(r@) == sentences(text@),
    {
        let cs = chars_of(text);
        let ss = sentence_pieces(&cs);
        strings_of(&ss)
    }
}

/// The items of the groups `gs`, in order.
pub open spec fn concat_groups(gs: Seq<Seq<Seq<char>>>) -> Seq<Seq<char>>
    decreases gs.len(),
{
    if gs.len() == 0 {
        seq![]
    } else {
        concat_groups(gs.drop_last()) + gs.last()
    }
}

proof fn lemma_concat_groups_push(gs: Seq<Seq<Seq<char>>>, g: Seq<Seq<char>>)
    ensures
        concat_groups(gs.push(g)) == concat_groups(gs) + g,
{
    assert(gs.push(g).drop_last() =~= gs);
}

proof fn lemma_pack_scan_keeps_items(items: Seq<Seq<char>>)
    ensures
        concat_groups(pack_scan(items).0) + pack_scan(items).1 == items,
    decreases items.len(),
{
    if items.len() == 0 {
        assert(concat_groups(pack_scan(items).0) + pack_scan(items).1 =~= items);
    } else {
        let prev = items.drop_last();
        lemma_pack_scan_keeps_items(prev);
        let (d, g) = pack_scan(prev);
        let it = items.last();
        assert(prev.push(it) =~= items);
        if blen(fence_open() + block_body(g)) + (blen(it) + 1) + 3 <= max_len() {
            assert(concat_groups(d) + g.push(it) =~= (concat_groups(d) + g).push(it));
        } else {
            lemma_concat_groups_push(d, g);
            assert(concat_groups(d) + g + seq![it] =~= (concat_groups(d) + g).push(it));
        }
    }
}

/// Packing loses no item and adds none: the groups, read in order, hold
/// exactly the items, in their order.
pub proof fn lemma_pack_keeps_items(items: Seq<Seq<char>>)
    ensures
        concat_groups(pack_groups(items)) == items,
{
    lemma_pack_scan_keeps_items(items);
    let (d, g) = pack_scan(items);
    if g.len() > 0 {
        lemma_concat_groups_push(d, g);
    } else {
        assert(concat_groups(d) + g =~= concat_groups(d));
    }
}

proof fn lemma_render_blen(g: Seq<Seq<char>>)
    ensures
        blen(render(g)) == blen(fence_open() + block_body(g)) + 3,
{
    lemma_fence_widths();
    lemma_blen_concat(fence_open() + block_body(g), fence_close());
}

proof fn lemma_pack_scan_within(items: Seq<Seq<char>>)
    requires
        forall|i: int| 0 <= i < items.len() ==> blen(#[trigger] items[i]) + 8 <= max_len(),
    ensures
        blen(fence_open() + block_body(pack_scan(items).1)) + 3 <= max_len(),
        forall|j: int|
            0 <= j < pack_scan(items).0.len() ==> blen(render(#[trigger] pack_scan(items).0[j]))
                <= max_len(),
    decreases items.len(),
{
    lemma_fence_widths();
    if items.len() == 0 {
        assert(fence_open() + block_body(pack_scan(items).1) =~= fence_open());
    } else {
        let prev = items.drop_last();
        assert forall|i: int| 0 <= i < prev.len() implies blen(#[trigger] prev[i]) + 8
            <= max_len() by {
            assert(prev[i] == items[i]);
        }
        lemma_pack_scan_within(prev);
        let (d, g) = pack_scan(prev);
        let it = items.last();
        assert(blen(it) + 8 <= max_len());
        lemma_block_body_push(g, it);
        lemma_blen_push(it, '\n');
        if blen(fence_open() + block_body(g)) + (blen(it) + 1) + 3 <= max_len() {
            lemma_blen_concat(fence_open() + block_body(g), it.push('\n'));
            assert(fence_open() + block_body(g.push(it)) =~= (fence_open() + block_body(g)) + it.push(
                '\n',
            ));
        } else {
            lemma_render_blen(g);
            let ng: Seq<Seq<char>> = seq![it];
            lemma_block_body_push(Seq::<Seq<char>>::empty(), it);
            assert(ng =~= Seq::<Seq<char>>::empty().push(it));
            assert(block_body(Seq::<Seq<char>>::empty()) =~= Seq::<char>::empty());
            assert(block_body(ng) =~= it.push('\n'));
            lemma_blen_concat(fence_open(), it.push('\n'));
            assert forall|j: int| 0 <= j < d.push(g).len() implies blen(
                render(#[trigger] d.push(g)[j]),
            ) <= max_len() by {
                if j < d.len() {
                    assert(d.push(g)[j] == d[j]);
                }
            }
        }
    }
}

/// When every item, with the fences and its newline around it, fits
/// within `max_len()` (`blen(item) + 8 <= max_len()`), every packed block
/// is within `max_len()` bytes.
pub proof fn lemma_pack_within_limit(items: Seq<Seq<char>>)
    requires
        forall|i: int| 0 <= i < items.len() ==> blen(#[trigger] items[i]) + 8 <= max_len(),
    ensures
        forall|j: int| 0 <= j < pack(items).len() ==> blen(#[trigger] pack(items)[j]) <= max_len(),
{
    lemma_pack_scan_within(items);
    let (d, g) = pack_scan(items);
    lemma_render_blen(g);
    assert forall|j: int| 0 <= j < pack(items).len() implies blen(#[trigger] pack(items)[j])
        <= max_len() by {
        let gs = pack_groups(items);
        assert(pack(items)[j] == render(gs[j]));
        if g.len() > 0 && j == d.len() {
            assert(gs[j] == g);
        } else {
            assert(gs[j] == d[j]);
        }
    }
}

/// Word mode keeps every word: when the text has words, the blocks are the
/// rendered groups of `pack_groups` of the words cut to size, those groups
/// hold exactly those pieces in order, and the pieces, one after the
/// other, are exactly the content of the text.
pub proof fn lemma_word_mode_keeps_words(s: Seq<char>)
    ensures
        words(s).len() > 0 ==> word_blocks(s) == pack_groups(
            cut_all(words(s), max_item()),
        ).map_values(|g: Seq<Seq<char>>| render(g)) && concat_groups(
            pack_groups(cut_all(words(s), max_item())),
        ) == cut_all(words(s), max_item()),
        concat_all(cut_all(words(s), max_item())) == nonws(s),
{
    lemma_pack_keeps_items(cut_all(words(s), max_item()));
    lemma_cut_all(words(s), max_item());
    lemma_words_cover(s);
}

/// Word mode never breaks a word that fits in a block: when every word of
/// `s` is within `max_item()` bytes, the lines of the blocks are exactly
/// the words, whole and in order.
pub proof fn lemma_word_mode_whole_words(s: Seq<char>)
    requires
        forall|i: int| 0 <= i < words(s).len() ==> blen(#[trigger] words(s)[i]) <= max_item(),
    ensures
        words(s).len() > 0 ==> word_blocks(s) == pack(words(s)),
        concat_groups(pack_groups(words(s))) == words(s),
{
    lemma_cut_all_keeps_fitting(words(s), max_item());
    lemma_pack_keeps_items(words(s));
}

proof fn lemma_pack_cut_within_limit(items: Seq<Seq<char>>)
    ensures
        forall|j: int|
            0 <= j < pack(cut_all(items, max_item())).len() ==> blen(
                #[trigger] pack(cut_all(items, max_item()))[j],
            ) <= max_len(),
        items.len() > 0 ==> pack(cut_all(items, max_item())).len() >= 1,
{
    let c = cut_all(items, max_item());
    lemma_cut_all(items, max_item());
    assert forall|i: int| 0 <= i < c.len() implies blen(#[trigger] c[i]) + 8 <= max_len() by {}
    lemma_pack_within_limit(c);
    lemma_pack_nonempty(c);
}

/// Every block of word mode is within `max_len()` bytes.
pub proof fn lemma_word_mode_within_limit(s: Seq<char>)
    ensures
        forall|j: int|
            0 <= j < word_blocks(s).len() ==> blen(#[trigger] word_blocks(s)[j]) <= max_len(),
{
    lemma_fence_widths();
    lemma_pack_cut_within_limit(words(s));
}

/// Every block of sentence mode is within `max_len()` bytes.
pub proof fn lemma_sentence_mode_within_limit(s: Seq<char>)
    ensures
        forall|j: int|
            0 <= j < sentence_blocks(s).len() ==> blen(#[trigger] sentence_blocks(s)[j])
                <= max_len(),
{
    lemma_fence_widths();
    lemma_pack_cut_within_limit(trim_all(sentences(s)));
}

proof fn lemma_chunks_scan(t: Seq<char>)
    ensures
        concat_all(chunks_scan(t).0) + chunks_scan(t).1 == t,
        blen(chunks_scan(t).1) <= 4083,
        forall|j: int|
            0 <= j < chunks_scan(t).0.len() ==> blen(#[trigger] chunks_scan(t).0[j]) <= 4083,
        t.len() > 0 ==> chunks_scan(t).1.len() > 0,
        forall|j: int|
            0 <= j < chunks_scan(t).0.len() ==> blen(#[trigger] chunks_scan(t).0[j]) + 7 > max_len(),
    decreases t.len(),
{
    if t.len() == 0 {
        assert(concat_all(chunks_scan(t).0) + chunks_scan(t).1 =~= t);
    } else {
        let prev = t.drop_last();
        lemma_chunks_scan(prev);
        let (d, c) = chunks_scan(prev);
        let ch = t.last();
        assert(prev.push(ch) =~= t);
        lemma_blen_push(c, ch);
        if blen(c) + 1 + 6 <= max_len() {
            assert(concat_all(d) + c.push(ch) =~= (concat_all(d) + c).push(ch));
        } else {
            assert(d.push(c).drop_last() =~= d);
            assert(concat_all(d.push(c)) + seq![ch] =~= (concat_all(d) + c).push(ch));
            lemma_blen_push(Seq::<char>::empty(), ch);
            assert(Seq::<char>::empty().push(ch) =~= seq![ch]);
            assert forall|j: int| 0 <= j < d.push(c).len() implies blen(#[trigger] d.push(c)[j])
                <= 4083 && blen(d.push(c)[j]) + 7 > max_len() by {
                if j < d.len() {
                    assert(d.push(c)[j] == d[j]);
                }
            }
        }
    }
}

/// Full mode keeps a text that fits whole: when the trimmed text and the
/// fences are within `max_len()`, there is one block, the trimmed text.
/// Else the text is cut into chunks that hold a character each, and a
/// chunk is closed only once its byte length plus 7 has passed
/// `max_len()`.
pub proof fn lemma_full_mode_chunks(s: Seq<char>)
    ensures
        blen(trim(s)) + 6 <= max_len() ==> full_blocks(s) == seq![wrap(trim(s))],
        blen(trim(s)) + 6 > max_len() ==> forall|j: int|
            0 <= j < full_bodies(s).len() ==> (#[trigger] full_bodies(s)[j]).len() > 0,
        blen(trim(s)) + 6 > max_len() ==> forall|j: int|
            0 <= j < full_bodies(s).len() - 1 ==> blen(#[trigger] full_bodies(s)[j]) + 7 > max_len(),
{
    let t = trim(s);
    lemma_chunks_scan(t);
    let bs = full_bodies(s);
    if blen(t) + 6 <= max_len() {
        assert(full_blocks(s) =~= seq![wrap(t)]);
    } else {
        let (d, c) = chunks_scan(t);
        assert(t.len() > 0);
        assert(bs == d.push(c));
        assert forall|j: int| 0 <= j < bs.len() implies (#[trigger] bs[j]).len() > 0 by {
            if j < d.len() {
                assert(bs[j] == d[j]);
                assert(blen(d[j]) + 7 > max_len());
                if d[j].len() == 0 {
                    assert(blen(d[j]) == 0);
                }
            }
        }
        assert forall|j: int| 0 <= j < bs.len() - 1 implies blen(#[trigger] bs[j]) + 7 > max_len() by {
            assert(bs[j] == d[j]);
        }
    }
}

proof fn lemma_wrap_blen(b: Seq<char>)
    ensures
        blen(wrap(b)) == blen(b) + 8,
{
    lemma_fence_widths();
    lemma_blen_concat(fence_open(), b);
    lemma_blen_push(fence_open() + b, '\n');
    assert(fence_open() + b + seq!['\n'] =~= (fence_open() + b).push('\n'));
    lemma_blen_concat(fence_open() + b + seq!['\n'], fence_close());
}

/// Full mode loses nothing but the surrounding white space: the bodies of
/// its blocks, read in order, are the trimmed text; and every block is
/// within 4091 bytes, below the Telegram limit.
pub proof fn lemma_full_mode(s: Seq<char>)
    ensures
        concat_all(full_bodies(s)) == trim(s),
        full_blocks(s).len() >= 1,
        forall|j: int| 0 <= j < full_blocks(s).len() ==> blen(#[trigger] full_blocks(s)[j]) <= 4091,
        forall|j: int|
            0 <= j < full_blocks(s).len() ==> blen(#[trigger] full_blocks(s)[j]) <= message_limit(),
{
    let t = trim(s);
    lemma_chunks_scan(t);
    let bs = full_bodies(s);
    if blen(t) + 6 <= max_len() {
        let one: Seq<Seq<char>> = seq![t];
        assert(one.drop_last() =~= Seq::<Seq<char>>::empty());
        assert(bs == one);
        assert(concat_all(one) == concat_all(one.drop_last()) + t);
        assert(concat_all(Seq::<Seq<char>>::empty()) + t =~= t);
    } else {
        let (d, c) = chunks_scan(t);
        assert(t.len() > 0);
        assert(d.push(c).drop_last() =~= d);
        assert(concat_all(bs) =~= t);
    }
    assert forall|j: int| 0 <= j < full_blocks(s).len() implies blen(
        #[trigger] full_blocks(s)[j],
    ) <= 4091 by {
        lemma_wrap_blen(bs[j]);
        if blen(t) + 6 > max_len() {
            let (d, c) = chunks_scan(t);
            if j < d.len() {
                assert(bs[j] == d[j]);
            }
        }
    }
}

/// Packing at least one item gives at least one block.
pub proof fn lemma_pack_nonempty(items: Seq<Seq<char>>)
    ensures
        items.len() > 0 ==> pack(items).len() >= 1,
{
    if items.len() > 0 {
        let (d, g) = pack_scan(items.drop_last());
        let it = items.last();
        assert(pack_scan(items).1.len() > 0);
    }
}

proof fn lemma_nonblank_all(ps: Seq<Seq<char>>)
    ensures
        forall|j: int| 0 <= j < nonblank(ps).len() ==> trim(#[trigger] nonblank(ps)[j]).len() > 0,
    decreases ps.len(),
{
    if ps.len() > 0 {
        lemma_nonblank_all(ps.drop_last());
        let r = nonblank(ps.drop_last());
        if trim(ps.last()).len() > 0 {
            assert forall|j: int| 0 <= j < r.push(ps.last()).len() implies trim(
                #[trigger] r.push(ps.last())[j],
            ).len() > 0 by {
                if j < r.len() {
                    assert(r.push(ps.last())[j] == r[j]);
                }
            }
        }
    }
}

proof fn lemma_paragraph_blocks_nonempty(p: Seq<char>)
    requires
        trim(p).len() > 0,
    ensures
        paragraph_blocks(p).len() >= 1,
{
    lemma_trim_of_empty(p);
    lemma_lines_nonempty(p);
    lemma_pack_cut_within_limit(lines(p));
}

proof fn lemma_paragraphs_blocks_nonempty(ps: Seq<Seq<char>>)
    requires
        ps.len() > 0,
        trim(ps.last()).len() > 0,
    ensures
        paragraphs_blocks(ps).len() >= 1,
{
    lemma_paragraph_blocks_nonempty(ps.last());
}

/// Every mode answers every text with at least one block.
pub proof fn lemma_format_never_empty(text: Seq<char>, mode: Seq<char>)
    ensures
        format_blocks(text, mode).len() >= 1,
{
    lemma_pack_cut_within_limit(words(text));
    lemma_pack_cut_within_limit(trim_all(sentences(text)));
    lemma_full_mode(text);
    let ps = paragraphs(text);
    if ps.len() > 0 {
        lemma_nonblank_all(blocks(text));
        assert(trim(ps[ps.len() - 1]).len() > 0);
        lemma_paragraphs_blocks_nonempty(ps);
    }
}

proof fn lemma_sentences_scan_trimmed(s: Seq<char>)
    ensures
        forall|j: int|
            0 <= j < sentences_scan(s).0.len() ==> (#[trigger] sentences_scan(s).0[j]).len() > 0
                && trim(sentences_scan(s).0[j]) == sentences_scan(s).0[j],
    decreases s.len(),
{
    if s.len() > 0 {
        lemma_sentences_scan_trimmed(s.drop_last());
        let (d, c) = sentences_scan(s.drop_last());
        let c2 = c.push(s.last());
        lemma_trim_idempotent(c2);
        if is_terminator(s.last()) && trim(c2).len() > 0 {
            assert forall|j: int| 0 <= j < d.push(trim(c2)).len() implies (#[trigger] d.push(
                trim(c2),
            )[j]).len() > 0 && trim(d.push(trim(c2))[j]) == d.push(trim(c2))[j] by {
                if j < d.len() {
                    assert(d.push(trim(c2))[j] == d[j]);
                }
            }
        }
    }
}

/// Every sentence is non-empty and already trimmed, so trimming the
/// sentences again, as sentence mode does, changes none of them.
pub proof fn lemma_sentences_trimmed(s: Seq<char>)
    ensures
        forall|j: int|
            0 <= j < sentences(s).len() ==> (#[trigger] sentences(s)[j]).len() > 0 && trim(
                sentences(s)[j],
            ) == sentences(s)[j],
        trim_all(sentences(s)) == sentences(s),
{
    lemma_sentences_scan_trimmed(s);
    let (d, c) = sentences_scan(s);
    lemma_trim_idempotent(c);
    let ss = sentences(s);
    assert forall|j: int| 0 <= j < ss.len() implies (#[trigger] ss[j]).len() > 0 && trim(ss[j])
        == ss[j] by {
        if j < d.len() {
            assert(ss[j] == d[j]);
        }
    }
    assert(trim_all(ss) =~= ss);
}

proof fn lemma_paragraphs_blocks_within(ps: Seq<Seq<char>>)
    ensures
        forall|j: int|
            0 <= j < paragraphs_blocks(ps).len() ==> blen(#[trigger] paragraphs_blocks(ps)[j])
                <= max_len(),
    decreases ps.len(),
{
    if ps.len() > 0 {
        let prev = ps.drop_last();
        lemma_paragraphs_blocks_within(prev);
        let p = ps.last();
        lemma_pack_cut_within_limit(lines(p));
        let a = paragraphs_blocks(prev);
        let b = paragraph_blocks(p);
        assert forall|j: int| 0 <= j < (a + b).len() implies blen(#[trigger] (a + b)[j])
            <= max_len() by {
            if j < a.len() {
                assert((a + b)[j] == a[j]);
            } else {
                assert((a + b)[j] == b[j - a.len()]);
            }
        }
    }
}

/// Every block of paragraph mode is within `max_len()` bytes.
pub proof fn lemma_paragraph_mode_within_limit(s: Seq<char>)
    ensures
        forall|j: int|
            0 <= j < paragraph_mode_blocks(s).len() ==> blen(
                #[trigger] paragraph_mode_blocks(s)[j],
            ) <= max_len(),
{
    lemma_fence_widths();
    lemma_paragraphs_blocks_within(paragraphs(s));
}

proof fn lemma_sentences_scan_cover(s: Seq<char>)
    ensures
        nonws(concat_all(sentences_scan(s).0)) + nonws(sentences_scan(s).1) == nonws(s),
    decreases s.len(),
{
    if s.len() == 0 {
        assert(nonws(concat_all(sentences_scan(s).0)) + nonws(sentences_scan(s).1) =~= nonws(s));
    } else {
        let prev = s.drop_last();
        lemma_sentences_scan_cover(prev);
        let (d, c) = sentences_scan(prev);
        let ch = s.last();
        let c2 = c.push(ch);
        assert(prev.push(ch) =~= s);
        lemma_nonws_push(prev, ch);
        lemma_nonws_push(c, ch);
        let base = nonws(concat_all(d));
        assert(base + nonws(c2) =~= nonws(s)) by {
            if !is_ws(ch) {
                assert(base + nonws(c).push(ch) =~= (base + nonws(c)).push(ch));
            }
        }
        if is_terminator(ch) {
            assert(nonws(Seq::<char>::empty()) =~= Seq::<char>::empty());
            if trim(c2).len() > 0 {
                lemma_concat_all_push(d, trim(c2));
                lemma_nonws_concat(concat_all(d), trim(c2));
                lemma_nonws_trim(c2);
                assert(base + nonws(trim(c2)) + Seq::<char>::empty() =~= base + nonws(c2));
            } else {
                lemma_trim_empty(c2);
                lemma_nonws_blank(c2);
                assert(base + Seq::<char>::empty() =~= base + nonws(c2));
            }
        }
    }
}

proof fn lemma_sentences_scan_shape(s: Seq<char>)
    ensures
        forall|j: int|
            0 <= j < sentences_scan(s).0.len() ==> (#[trigger] sentences_scan(s).0[j]).len() > 0
                && is_terminator(sentences_scan(s).0[j].last()) && occurs_in(
                sentences_scan(s).0[j],
                s,
            ),
        forall|j: int, k: int|
            0 <= j < sentences_scan(s).0.len() && 0 <= k < sentences_scan(s).0[j].len() - 1
                ==> !is_terminator(#[trigger] sentences_scan(s).0[j][k]),
        forall|k: int|
            0 <= k < sentences_scan(s).1.len() ==> !is_terminator(#[trigger] sentences_scan(s).1[k]),
        sentences_scan(s).1.len() <= s.len(),
        sentences_scan(s).1 == s.subrange(s.len() - sentences_scan(s).1.len(), s.len() as int),
    decreases s.len(),
{
    if s.len() == 0 {
        assert(sentences_scan(s).1 =~= s.subrange(0, 0));
    } else {
        let prev = s.drop_last();
        lemma_sentences_scan_shape(prev);
        lemma_occurs_in_push(prev, s.last());
        assert(prev.push(s.last()) =~= s);
        let (d, c) = sentences_scan(prev);
        let ch = s.last();
        let c2 = c.push(ch);
        assert(c2 =~= s.subrange(s.len() - c2.len(), s.len() as int));
        if is_terminator(ch) {
            assert(!is_ws(ch));
            let t = trim(c2);
            let a = lemma_trim_is_run(c2);
            assert(sentences_scan(s).1 =~= s.subrange(s.len() as int, s.len() as int));
            if t.len() > 0 {
                assert(occurs_in(c2, s)) by {
                    assert(s.subrange(s.len() - c2.len(), s.len() - c2.len() + c2.len()) == c2);
                }
                lemma_occurs_in_trans(t, c2, s);
                assert(t.last() == c2[a + t.len() - 1]);
                let d2 = d.push(t);
                assert forall|j: int| 0 <= j < d2.len() implies (#[trigger] d2[j]).len() > 0
                    && is_terminator(d2[j].last()) && occurs_in(d2[j], s) by {
                    if j < d.len() {
                        assert(d2[j] == d[j]);
                    }
                }
                assert forall|j: int, k: int|
                    0 <= j < d2.len() && 0 <= k < d2[j].len() - 1 implies !is_terminator(
                    #[trigger] d2[j][k],
                ) by {
                    if j < d.len() {
                        assert(d2[j] == d[j]);
                    } else {
                        assert(d2[j] == t);
                        assert(t[k] == c2[a + k]);
                        assert(c2[a + k] == c[a + k]);
                    }
                }
            }
        } else {
            assert forall|k: int| 0 <= k < c2.len() implies !is_terminator(#[trigger] c2[k]) by {
                if k < c.len() {
                    assert(c2[k] == c[k]);
                }
            }
        }
    }
}

/// Sentences are cut at `.`, `!` and `?` and nowhere else: every sentence
/// holds a character; every sentence but the last ends with one of those
/// three; none holds one of them but as its last character; and each
/// sentence is a run of consecutive characters of the text.
pub proof fn lemma_sentences_end_at_terminators(s: Seq<char>)
    ensures
        forall|j: int| 0 <= j < sentences(s).len() ==> (#[trigger] sentences(s)[j]).len() > 0,
        forall|j: int|
            0 <= j < sentences(s).len() - 1 ==> ((#[trigger] sentences(s)[j]).last() == '.'
                || sentences(s)[j].last() == '!' || sentences(s)[j].last() == '?'),
        forall|j: int, k: int|
            0 <= j < sentences(s).len() && 0 <= k < sentences(s)[j].len() - 1 ==> !(
            #[trigger] sentences(s)[j][k] == '.' || sentences(s)[j][k] == '!' || sentences(s)[j][k]
                == '?'),
        forall|j: int| 0 <= j < sentences(s).len() ==> occurs_in(#[trigger] sentences(s)[j], s),
{
    lemma_sentences_scan_shape(s);
    let (d, c) = sentences_scan(s);
    let ss = sentences(s);
    if trim(c).len() > 0 {
        let t = trim(c);
        let a = lemma_trim_is_run(c);
        assert(occurs_in(c, s)) by {
            assert(s.subrange(s.len() - c.len(), s.len() - c.len() + c.len()) == c);
        }
        lemma_occurs_in_trans(t, c, s);
        assert(ss == d.push(t));
        assert forall|j: int| 0 <= j < ss.len() implies (#[trigger] ss[j]).len() > 0 && occurs_in(
            ss[j],
            s,
        ) by {
            if j < d.len() {
                assert(ss[j] == d[j]);
            }
        }
        assert forall|j: int| 0 <= j < ss.len() - 1 implies ((#[trigger] ss[j]).last() == '.'
            || ss[j].last() == '!' || ss[j].last() == '?') by {
            assert(ss[j] == d[j]);
        }
        assert forall|j: int, k: int| 0 <= j < ss.len() && 0 <= k < ss[j].len() - 1 implies !(
        #[trigger] ss[j][k] == '.' || ss[j][k] == '!' || ss[j][k] == '?') by {
            if j < d.len() {
                assert(ss[j] == d[j]);
                assert(!is_terminator(d[j][k]));
            } else {
                assert(ss[j] == t);
                assert(t[k] == c[a + k]);
                assert(!is_terminator(c[a + k]));
            }
        }
    } else {
        assert(ss == d);
        assert forall|j: int, k: int| 0 <= j < ss.len() && 0 <= k < ss[j].len() - 1 implies !(
        #[trigger] ss[j][k] == '.' || ss[j][k] == '!' || ss[j][k] == '?') by {
            assert(!is_terminator(d[j][k]));
        }
        assert forall|j: int| 0 <= j < ss.len() - 1 implies ((#[trigger] ss[j]).last() == '.'
            || ss[j].last() == '!' || ss[j].last() == '?') by {
            assert(is_terminator(d[j].last()));
        }
    }
}

/// The sentences, one after the other, hold the content of the text: only
/// white space is left out.
pub proof fn lemma_sentences_cover(s: Seq<char>)
    ensures
        nonws(concat_all(sentences(s))) == nonws(s),
{
    lemma_sentences_scan_cover(s);
    let (d, c) = sentences_scan(s);
    if trim(c).len() > 0 {
        lemma_concat_all_push(d, trim(c));
        lemma_nonws_concat(concat_all(d), trim(c));
        lemma_nonws_trim(c);
    } else {
        lemma_trim_empty(c);
        lemma_nonws_blank(c);
        assert(nonws(concat_all(d)) + nonws(c) =~= nonws(concat_all(d)));
    }
}

proof fn lemma_nonblank_cover(ps: Seq<Seq<char>>)
    ensures
        nonws(concat_all(nonblank(ps))) == nonws(concat_all(ps)),
    decreases ps.len(),
{
    if ps.len() > 0 {
        let prev = ps.drop_last();
        let p = ps.last();
        lemma_nonblank_cover(prev);
        assert(prev.push(p) =~= ps);
        lemma_concat_all_push(prev, p);
        lemma_nonws_concat(concat_all(prev), p);
        if trim(p).len() > 0 {
            lemma_concat_all_push(nonblank(prev), p);
            lemma_nonws_concat(concat_all(nonblank(prev)), p);
        } else {
            lemma_trim_empty(p);
            lemma_nonws_blank(p);
            assert(nonws(concat_all(prev)) + nonws(p) =~= nonws(concat_all(prev)));
        }
    }
}

/// The paragraphs, one after the other, hold the content of the text: only
/// white space is left out.
pub proof fn lemma_paragraphs_cover(s: Seq<char>)
    ensures
        nonws(concat_all(paragraphs(s))) == nonws(s),
{
    lemma_nonblank_cover(blocks(s));
    lemma_blocks_cover(s);
}

/// A paragraph keeps its content in its blocks: the single block holds
/// the trimmed paragraph; or its lines, cut to size, are packed into
/// groups that hold all the pieces, which hold all its lines, which hold
/// its content.
pub proof fn lemma_paragraph_keeps_content(p: Seq<char>)
    ensures
        blen(wrap(trim(p))) <= max_len() ==> paragraph_blocks(p) == seq![wrap(trim(p))] && nonws(
            trim(p),
        ) == nonws(p),
        blen(wrap(trim(p))) > max_len() ==> paragraph_blocks(p) == pack(
            cut_all(lines(p), max_item()),
        ) && concat_groups(pack_groups(cut_all(lines(p), max_item()))) == cut_all(
            lines(p),
            max_item(),
        ),
        concat_all(cut_all(lines(p), max_item())) == concat_all(lines(p)),
        nonws(concat_all(lines(p))) == nonws(p),
{
    lemma_nonws_trim(p);
    lemma_pack_keeps_items(cut_all(lines(p), max_item()));
    lemma_cut_all(lines(p), max_item());
    lemma_lines_cover(p);
}

/// Sentence mode keeps every sentence: when the text has sentences, the
/// blocks are the rendered groups of `pack_groups` of the sentences cut to
/// size, those groups hold exactly those pieces in order, the pieces, one
/// after the other, are the sentences, and the sentences hold the content
/// of the text.
pub proof fn lemma_sentence_mode_keeps_content(s: Seq<char>)
    ensures
        sentences(s).len() > 0 ==> sentence_blocks(s) == pack_groups(
            cut_all(sentences(s), max_item()),
        ).map_values(|g: Seq<Seq<char>>| render(g)) && concat_groups(
            pack_groups(cut_all(sentences(s), max_item())),
        ) == cut_all(sentences(s), max_item()),
        concat_all(cut_all(sentences(s), max_item())) == concat_all(sentences(s)),
        nonws(concat_all(sentences(s))) == nonws(s),
{
    lemma_sentences_trimmed(s);
    lemma_pack_keeps_items(cut_all(sentences(s), max_item()));
    lemma_cut_all(sentences(s), max_item());
    lemma_sentences_cover(s);
}

/// Every block of every mode is within the Telegram limit of 4096 bytes
/// (and so of 4096 characters).
pub proof fn lemma_format_within_limit(text: Seq<char>, mode: Seq<char>)
    ensures
        forall|j: int|
            0 <= j < format_blocks(text, mode).len() ==> blen(#[trigger] format_blocks(text, mode)[j])
                <= message_limit(),
        forall|j: int|
            0 <= j < format_blocks(text, mode).len() ==> (#[trigger] format_blocks(text, mode)[j]).len()
                <= message_limit(),
{
    lemma_word_mode_within_limit(text);
    lemma_sentence_mode_within_limit(text);
    lemma_paragraph_mode_within_limit(text);
    lemma_full_mode(text);
    assert forall|j: int| 0 <= j < format_blocks(text, mode).len() implies (
    #[trigger] format_blocks(text, mode)[j]).len() <= message_limit() by {
        lemma_len_at_most_blen(format_blocks(text, mode)[j]);
    }
}

/// `x` between the fences of a monospace block.
pub open spec fn frame(x: Seq<char>) -> Seq<char> {
    fence_open() + x + fence_close()
}

/// The text between the fences of each block of a group list.
pub open spec fn group_bodies(gs: Seq<Seq<Seq<char>>>) -> Seq<Seq<char>> {
    gs.map_values(|g: Seq<Seq<char>>| block_body(g))
}

/// The text between the fences of each block of one paragraph.
pub open spec fn paragraph_bodies(p: Seq<char>) -> Seq<Seq<char>> {
    if blen(wrap(trim(p))) <= max_len() {
        seq![trim(p).push('\n')]
    } else {
        group_bodies(pack_groups(cut_all(lines(p), max_item())))
    }
}

/// The text between the fences of each block of the paragraphs `ps`.
pub open spec fn paragraphs_bodies(ps: Seq<Seq<char>>) -> Seq<Seq<char>>
    decreases ps.len(),
{
    if ps.len() == 0 {
        seq![]
    } else {
        paragraphs_bodies(ps.drop_last()) + paragraph_bodies(ps.last())
    }
}

/// The text between the fences of each block that `format_blocks` gives.
pub open spec fn format_bodies(text: Seq<char>, mode: Seq<char>) -> Seq<Seq<char>> {
    match mode_named(mode) {
        Some(Mode::Sentence) => if sentences(text).len() == 0 {
            seq![seq![]]
        } else {
            group_bodies(pack_groups(cut_all(trim_all(sentences(text)), max_item())))
        },
        Some(Mode::Paragraph) => if paragraphs(text).len() == 0 {
            seq![seq![]]
        } else {
            paragraphs_bodies(paragraphs(text))
        },
        Some(Mode::Full) => full_bodies(text).map_values(|b: Seq<char>| b.push('\n')),
        _ => if words(text).len() == 0 {
            seq![seq![]]
        } else {
            group_bodies(pack_groups(cut_all(words(text), max_item())))
        },
    }
}

/// The blocks' contents, one after the other.
proof fn lemma_block_body_content(g: Seq<Seq<char>>)
    ensures
        nonws(block_body(g)) == nonws(concat_all(g)),
    decreases g.len(),
{
    if g.len() > 0 {
        lemma_block_body_content(g.drop_last());
        let l = g.last();
        lemma_nonws_concat(block_body(g.drop_last()), l.push('\n'));
        lemma_nonws_push(l, '\n');
        lemma_nonws_concat(concat_all(g.drop_last()), l);
        assert(g.drop_last().push(l) =~= g);
        lemma_concat_all_push(g.drop_last(), l);
    }
}

proof fn lemma_group_bodies_content(gs: Seq<Seq<Seq<char>>>)
    ensures
        nonws(concat_all(group_bodies(gs))) == nonws(concat_all(concat_groups(gs))),
    decreases gs.len(),
{
    if gs.len() > 0 {
        let prev = gs.drop_last();
        let g = gs.last();
        lemma_group_bodies_content(prev);
        assert(group_bodies(gs) =~= group_bodies(prev).push(block_body(g)));
        lemma_concat_all_push(group_bodies(prev), block_body(g));
        lemma_nonws_concat(concat_all(group_bodies(prev)), block_body(g));
        lemma_block_body_content(g);
        assert(prev.push(g) =~= gs);
        lemma_concat_groups_push(prev, g);
        lemma_concat_all_append(concat_groups(prev), g);
        lemma_nonws_concat(concat_all(concat_groups(prev)), concat_all(g));
    }
}

proof fn lemma_pack_bodies(items: Seq<Seq<char>>)
    ensures
        pack(items) == group_bodies(pack_groups(items)).map_values(|x: Seq<char>| frame(x)),
        nonws(concat_all(group_bodies(pack_groups(items)))) == nonws(concat_all(items)),
{
    lemma_pack_keeps_items(items);
    lemma_group_bodies_content(pack_groups(items));
    assert(pack(items) =~= group_bodies(pack_groups(items)).map_values(|x: Seq<char>| frame(x)));
}

proof fn lemma_paragraphs_bodies(ps: Seq<Seq<char>>)
    ensures
        paragraphs_blocks(ps) == paragraphs_bodies(ps).map_values(|x: Seq<char>| frame(x)),
        nonws(concat_all(paragraphs_bodies(ps))) == nonws(concat_all(ps)),
    decreases ps.len(),
{
    if ps.len() > 0 {
        let prev = ps.drop_last();
        let p = ps.last();
        lemma_paragraphs_bodies(prev);
        let a = paragraphs_bodies(prev);
        let b = paragraph_bodies(p);
        lemma_paragraph_keeps_content(p);
        if blen(wrap(trim(p))) <= max_len() {
            assert(wrap(trim(p)) =~= frame(trim(p).push('\n')));
            assert(b.map_values(|x: Seq<char>| frame(x)) =~= seq![wrap(trim(p))]);
            lemma_nonws_push(trim(p), '\n');
            lemma_concat_all_push(Seq::<Seq<char>>::empty(), trim(p).push('\n'));
            assert(Seq::<Seq<char>>::empty().push(trim(p).push('\n')) =~= b);
            assert(concat_all(Seq::<Seq<char>>::empty()) + trim(p).push('\n') =~= trim(p).push(
                '\n',
            ));
        } else {
            lemma_pack_bodies(cut_all(lines(p), max_item()));
            lemma_cut_all(lines(p), max_item());
        }
        assert((a + b).map_values(|x: Seq<char>| frame(x)) =~= a.map_values(
            |x: Seq<char>| frame(x),
        ) + b.map_values(|x: Seq<char>| frame(x)));
        lemma_concat_all_append(a, b);
        lemma_nonws_concat(concat_all(a), concat_all(b));
        assert(prev.push(p) =~= ps);
        lemma_concat_all_push(prev, p);
        lemma_nonws_concat(concat_all(prev), p);
    }
}

proof fn lemma_newline_bodies(bs: Seq<Seq<char>>)
    ensures
        bs.map_values(|b: Seq<char>| wrap(b)) == bs.map_values(|b: Seq<char>| b.push('\n')).map_values(
            |x: Seq<char>| frame(x),
        ),
        nonws(concat_all(bs.map_values(|b: Seq<char>| b.push('\n')))) == nonws(concat_all(bs)),
    decreases bs.len(),
{
    assert forall|j: int| 0 <= j < bs.len() implies wrap(#[trigger] bs[j]) == frame(
        bs[j].push('\n'),
    ) by {
        assert(wrap(bs[j]) =~= frame(bs[j].push('\n')));
    }
    assert(bs.map_values(|b: Seq<char>| wrap(b)) =~= bs.map_values(
        |b: Seq<char>| b.push('\n'),
    ).map_values(|x: Seq<char>| frame(x)));
    if bs.len() > 0 {
        let prev = bs.drop_last();
        let b = bs.last();
        lemma_newline_bodies(prev);
        assert(bs.map_values(|b: Seq<char>| b.push('\n')) =~= prev.map_values(
            |b: Seq<char>| b.push('\n'),
        ).push(b.push('\n')));
        lemma_concat_all_push(prev.map_values(|b: Seq<char>| b.push('\n')), b.push('\n'));
        lemma_nonws_concat(concat_all(prev.map_values(|b: Seq<char>| b.push('\n'))), b.push('\n'));
        lemma_nonws_push(b, '\n');
        assert(prev.push(b) =~= bs);
        lemma_concat_all_push(prev, b);
        lemma_nonws_concat(concat_all(prev), b);
    }
}

/// No mode loses content: every block is a monospace block, fences around
/// a body, and the bodies, one after the other, hold the same characters
/// other than white space as the text, in order.
pub proof fn lemma_format_keeps_content(text: Seq<char>, mode: Seq<char>)
    ensures
        format_blocks(text, mode) == format_bodies(text, mode).map_values(|x: Seq<char>| frame(x)),
        nonws(concat_all(format_bodies(text, mode))) == nonws(text),
{
    let empty: Seq<Seq<char>> = seq![seq![]];
    assert(empty.map_values(|x: Seq<char>| frame(x)) =~= seq![empty_block()]) by {
        assert(frame(seq![]) =~= empty_block());
    }
    assert(empty.drop_last() =~= Seq::<Seq<char>>::empty());
    assert(empty.last() =~= Seq::<char>::empty());
    assert(concat_all(empty) == concat_all(empty.drop_last()) + empty.last());
    assert(concat_all(Seq::<Seq<char>>::empty()) + Seq::<char>::empty() =~= Seq::<char>::empty());
    assert(concat_all(empty) =~= Seq::<char>::empty());
    assert(nonws(Seq::<char>::empty()) =~= Seq::<char>::empty());
    match mode_named(mode) {
        Some(Mode::Sentence) => {
            lemma_sentence_mode_keeps_content(text);
            lemma_sentences_trimmed(text);
            let items = cut_all(trim_all(sentences(text)), max_item());
            lemma_pack_bodies(items);
            if sentences(text).len() == 0 {
                assert(concat_all(sentences(text)) =~= Seq::<char>::empty());
            }
        },
        Some(Mode::Paragraph) => {
            lemma_paragraphs_cover(text);
            lemma_paragraphs_bodies(paragraphs(text));
            if paragraphs(text).len() == 0 {
                assert(concat_all(paragraphs(text)) =~= Seq::<char>::empty());
            }
        },
        Some(Mode::Full) => {
            lemma_full_mode(text);
            lemma_newline_bodies(full_bodies(text));
            lemma_nonws_trim(text);
        },
        _ => {
            lemma_word_mode_keeps_words(text);
            lemma_nonws_idempotent(text);
            lemma_pack_bodies(cut_all(words(text), max_item()));
            lemma_cut_all(words(text), max_item());
            if words(text).len() == 0 {
                assert(concat_all(words(text)) =~= Seq::<char>::empty());
            }
        },
    }
}

/// Whether item `it` would still fit in the block of group `g`.
#[verifier::opaque]
pub open spec fn fits(g: Seq<Seq<char>>, it: Seq<char>) -> bool {
    blen(fence_open() + block_body(g)) + (blen(it) + 1) + 3 <= max_len()
}

spec fn greedy_inv(d: Seq<Seq<Seq<char>>>, g: Seq<Seq<char>>) -> bool {
    &&& forall|j: int| 1 <= j < d.len() ==> ((#[trigger] d[j]).len() > 0 && !fits(d[j - 1], d[j][0]))
    &&& d.len() > 0 ==> (g.len() > 0 && !fits(d.last(), g[0]))
    &&& forall|k: int| 0 <= k < g.len() - 1 ==> fits(g.take(k + 1), #[trigger] g[k + 1])
    &&& forall|j: int, k: int|
        0 <= j < d.len() && 0 <= k < d[j].len() - 1 ==> fits(
            d[j].take(k + 1),
            #[trigger] d[j][k + 1],
        )
}

proof fn lemma_greedy_join(d: Seq<Seq<Seq<char>>>, g: Seq<Seq<char>>, it: Seq<char>)
    requires
        greedy_inv(d, g),
        fits(g, it),
    ensures
        greedy_inv(d, g.push(it)),
{
    let g2 = g.push(it);
    if d.len() > 0 {
        assert(g2[0] == g[0]);
    }
    assert forall|k: int| 0 <= k < g2.len() - 1 implies fits(g2.take(k + 1), #[trigger] g2[k + 1]) by {
        if k + 1 < g.len() {
            assert(g2.take(k + 1) =~= g.take(k + 1));
            assert(g2[k + 1] == g[k + 1]);
        } else {
            assert(g2.take(k + 1) =~= g);
        }
    }
}

proof fn lemma_greedy_close(d: Seq<Seq<Seq<char>>>, g: Seq<Seq<char>>, it: Seq<char>)
    requires
        greedy_inv(d, g),
        !fits(g, it),
    ensures
        greedy_inv(d.push(g), seq![it]),
{
    let d2 = d.push(g);
    let g2: Seq<Seq<char>> = seq![it];
    assert forall|j: int| 1 <= j < d2.len() implies ((#[trigger] d2[j]).len() > 0 && !fits(
        d2[j - 1],
        d2[j][0],
    )) by {
        assert(d2[j - 1] == d[j - 1]);
        if j < d.len() {
            assert(d2[j] == d[j]);
        } else {
            assert(d2[j] == g);
            assert(d.last() == d[j - 1]);
        }
    }
    assert(d2.last() == g);
    assert(g2[0] == it);
    assert forall|j: int, k: int| 0 <= j < d2.len() && 0 <= k < d2[j].len() - 1 implies fits(
        d2[j].take(k + 1),
        #[trigger] d2[j][k + 1],
    ) by {
        if j < d.len() {
            assert(d2[j] == d[j]);
        } else {
            assert(d2[j] == g);
        }
    }
}

proof fn lemma_pack_scan_greedy(items: Seq<Seq<char>>)
    ensures
        greedy_inv(pack_scan(items).0, pack_scan(items).1),
        items.len() > 0 ==> pack_scan(items).1.len() > 0,
    decreases items.len(),
{
    if items.len() > 0 {
        let prev = items.drop_last();
        lemma_pack_scan_greedy(prev);
        let (d, g) = pack_scan(prev);
        let it = items.last();
        reveal(fits);
        if fits(g, it) {
            lemma_greedy_join(d, g, it);
        } else {
            lemma_greedy_close(d, g, it);
        }
    }
}

/// Packing is greedy: each group but the last is closed only because the
/// first item of the next group would not have fitted in its block, and
/// within a group each item fitted after the ones before it.
pub proof fn lemma_pack_greedy(items: Seq<Seq<char>>)
    ensures
        forall|j: int|
            1 <= j < pack_groups(items).len() ==> ((#[trigger] pack_groups(items)[j]).len() > 0
                && !fits(pack_groups(items)[j - 1], pack_groups(items)[j][0])),
        forall|j: int, k: int|
            0 <= j < pack_groups(items).len() && 0 <= k < pack_groups(items)[j].len() - 1 ==> fits(
                pack_groups(items)[j].take(k + 1),
                #[trigger] pack_groups(items)[j][k + 1],
            ),
{
    lemma_pack_scan_greedy(items);
    let (d, g) = pack_scan(items);
    let pg = pack_groups(items);
    assert forall|j: int| 1 <= j < pg.len() implies ((#[trigger] pg[j]).len() > 0 && !fits(
        pg[j - 1],
        pg[j][0],
    )) by {
        assert(g.len() > 0);
        assert(pg == d.push(g));
        assert(pg[j - 1] == d[j - 1]);
        if j < d.len() {
            assert(pg[j] == d[j]);
        } else {
            assert(pg[j] == g);
            assert(d.last() == d[j - 1]);
        }
    }
    assert forall|j: int, k: int|
        0 <= j < pg.len() && 0 <= k < pg[j].len() - 1 implies fits(
        pg[j].take(k + 1),
        #[trigger] pg[j][k + 1],
    ) by {
        if j < d.len() {
            assert(pg[j] == d[j]);
        } else {
            assert(pg[j] == g);
        }
    }
}

} // verus!

use vstd::prelude::*;

use crate::modes::{
    block_body,
    message_limit, full_blocks, lemma_full_mode, lemma_word_mode_within_limit, max_len, word_blocks,
};
use crate::text::{
    lemma_len_at_most_blen,
    cut_all, cut_items, lemma_cut_all,
    append_chars, lemma_string_views_concat, lemma_string_views_push,
    concat_all, lemma_concat_all_append, lemma_concat_all_push, lemma_lines_cover,
    lemma_nonws_concat, lemma_nonws_push, lemma_nonws_trim, nonws,
    lemma_blen_trim, words,
    blen, cap, capped_blen, chars_of, lemma_blen_concat, lemma_blen_push, lines, split_lines,
    string_from_chars, string_views, trim, trimmed, vec_views,
};

verus! {

/// Reading the lines `ls` of an oversized block in order: the messages
/// finished so far and the text gathered for the next one. A line, with
/// its newline, joins the gathered text while that stays within the
/// limit; else the gathered text, trimmed, is finished (when there is any)
/// and the line starts the next.
pub open spec fn resend_scan(ls: Seq<Seq<char>>) -> (Seq<Seq<char>>, Seq<char>)
    decreases ls.len(),
{
    if ls.len() == 0 {
        (seq![], seq![])
    } else {
        let (done, cur) = resend_scan(ls.drop_last());
        let lw = ls.last().push('\n');
        if blen(cur) + blen(lw) <= message_limit() {
            (done, cur + lw)
        } else if cur.len() > 0 {
            (done.push(trim(cur)), lw)
        } else {
            (done, lw)
        }
    }
}

/// The longest line that, with its newline, fits in one message.
pub open spec fn max_line() -> nat {
    4095
}

/// The lines of an oversized block, each line longer than `max_line()` cut
/// at character boundaries into pieces of at most `max_line()` bytes.
pub open spec fn send_lines(b: Seq<char>) -> Seq<Seq<char>> {
    cut_all(lines(b), max_line())
}

/// The messages into which a block is cut for sending: the block itself
/// when it is within the limit; else its lines, cut to size
/// (`send_lines`), gathered as `resend_scan` says, the last gathered text,
/// trimmed, included when there is any.
pub open spec fn block_messages(b: Seq<char>) -> Seq<Seq<char>> {
    if blen(b) <= message_limit() {
        seq![b]
    } else {
        let (done, cur) = resend_scan(send_lines(b));
        if cur.len() > 0 {
            done.push(trim(cur))
        } else {
            done
        }
    }
}

/// The messages sent for the blocks `bs`, in order.
pub open spec fn outgoing(bs: Seq<Seq<char>>) -> Seq<Seq<char>>
    decreases bs.len(),
{
    if bs.len() == 0 {
        seq![]
    } else {
        outgoing(bs.drop_last()) + block_messages(bs.last())
    }
}




/// The messages sent for one block (see `block_messages`).
fn messages_of_block(b: &String) -> (r: Vec<String>)
    ensures
        string_views(r@) == block_messages(b@),
{
    let cs = chars_of(b.as_str());
    let n = capped_blen(&cs);
    let mut r: Vec<String> = Vec::new();
    if n <= 4096 {
        let x = b.clone();
        proof {
            lemma_string_views_push(r@, x);
            assert(seq![b@] =~= Seq::<Seq<char>>::empty().push(b@));
        }
        r.push(x);
        return r;
    }
    let ls0 = split_lines(&cs);
    let ls = cut_items(&ls0, 4095);
    let ghost lv = vec_views(ls@);
    let mut cur: Vec<char> = Vec::new();
    let mut cur_len: usize = 0;
    let mut i: usize = 0;
    while i < ls.len()
        invariant
            i <= ls.len(),
            lv == vec_views(ls@),
            string_views(r@) == resend_scan(lv.take(i as int)).0,
            cur@ == resend_scan(lv.take(i as int)).1,
            cur_len == cap(blen(cur@)),
        decreases ls.len() - i,
    {
        let line = &ls[i];
        let lw0 = capped_blen(line);
        let lw = if lw0 + 1 > 65536 { 65536 } else { lw0 + 1 };
        assert(lv.take(i + 1).drop_last() =~= lv.take(i as int));
        assert(lv.take(i + 1).last() == line@);
        proof {
            lemma_blen_push(line@, '\n');
            lemma_blen_concat(cur@, line@.push('\n'));
        }
        if cur_len + lw <= 4096 {
            append_chars(&mut cur, line);
            cur.push('\n');
            cur_len = cur_len + lw;
        } else {
            if cur.len() > 0 {
                let t = trimmed(&cur);
                let x = string_from_chars(&t);
                proof {
                    lemma_string_views_push(r@, x);
                }
                r.push(x);
            }
            cur = Vec::new();
            append_chars(&mut cur, line);
            cur.push('\n');
            assert(cur@ =~= line@.push('\n'));
            cur_len = lw;
        }
        i += 1;
    }
    assert(lv.take(ls.len() as int) =~= lv);
    if cur.len() > 0 {
        let t = trimmed(&cur);
        let x = string_from_chars(&t);
        proof {
            lemma_string_views_push(r@, x);
        }
        r.push(x);
    }
    r
}

/// The messages to send for the formatted blocks `blocks`, in order: each
/// block within the Telegram limit as it is, each larger one cut at line
/// ends, and a line too long for one message cut at character boundaries
/// (see `block_messages`); every message is within the limit.
pub fn outgoing_messages(blocks: &Vec<String>) -> (r: Vec<String>)
    ensures
        string_views(r@) == outgoing(string_views(blocks@)),
        forall|j: int| 0 <= j < r.len() ==> blen((#[trigger] r@[j])@) <= message_limit(),
{
    proof {
        lemma_sent_messages_within_limit(string_views(blocks@));
    }
    let ghost bv = string_views(blocks@);
    let mut r: Vec<String> = Vec::new();
    let mut i: usize = 0;
    while i < blocks.len()
        invariant
            i <= blocks.len(),
            bv == string_views(blocks@),
            string_views(r@) == outgoing(bv.take(i as int)),
        decreases blocks.len() - i,
    {
        let mut m = messages_of_block(&blocks[i]);
        proof {
            assert(bv.take(i + 1).drop_last() =~= bv.take(i as int));
            lemma_string_views_concat(r@, m@);
        }
        r.append(&mut m);
        i += 1;
    }
    assert(bv.take(blocks.len() as int) =~= bv);
    assert forall|j: int| 0 <= j < r.len() implies blen((#[trigger] r@[j])@) <= message_limit() by {
        assert(string_views(r@)[j] == r@[j]@);
    }
    r
}

/// Blocks within the Telegram limit are sent as they are, one message each.
pub proof fn lemma_small_blocks_sent_unchanged(bs: Seq<Seq<char>>)
    requires
        forall|i: int| 0 <= i < bs.len() ==> blen(#[trigger] bs[i]) <= message_limit(),
    ensures
        outgoing(bs) == bs,
    decreases bs.len(),
{
    if bs.len() > 0 {
        let prev = bs.drop_last();
        assert forall|i: int| 0 <= i < prev.len() implies blen(#[trigger] prev[i])
            <= message_limit() by {
            assert(prev[i] == bs[i]);
        }
        lemma_small_blocks_sent_unchanged(prev);
        assert(blen(bs.last()) <= message_limit());
        assert(prev + seq![bs.last()] =~= bs);
    }
}

/// Full mode's blocks are sent unchanged, one message each.
pub proof fn lemma_full_mode_sent_unchanged(s: Seq<char>)
    ensures
        outgoing(full_blocks(s)) == full_blocks(s),
{
    lemma_full_mode(s);
    lemma_small_blocks_sent_unchanged(full_blocks(s));
}

/// Word mode's blocks are sent unchanged, one message each.
pub proof fn lemma_word_mode_sent_unchanged(s: Seq<char>)
    ensures
        outgoing(word_blocks(s)) == word_blocks(s),
{
    lemma_word_mode_within_limit(s);
    lemma_small_blocks_sent_unchanged(word_blocks(s));
}

proof fn lemma_resend_scan_within(ls: Seq<Seq<char>>)
    requires
        forall|i: int| 0 <= i < ls.len() ==> blen(#[trigger] ls[i]) + 1 <= message_limit(),
    ensures
        blen(resend_scan(ls).1) <= message_limit(),
        forall|j: int|
            0 <= j < resend_scan(ls).0.len() ==> blen(#[trigger] resend_scan(ls).0[j])
                <= message_limit(),
    decreases ls.len(),
{
    if ls.len() > 0 {
        let prev = ls.drop_last();
        assert forall|i: int| 0 <= i < prev.len() implies blen(#[trigger] prev[i]) + 1
            <= message_limit() by {
            assert(prev[i] == ls[i]);
        }
        lemma_resend_scan_within(prev);
        let (d, c) = resend_scan(prev);
        let lw = ls.last().push('\n');
        lemma_blen_push(ls.last(), '\n');
        lemma_blen_concat(c, lw);
        if blen(c) + blen(lw) > message_limit() && c.len() > 0 {
            lemma_blen_trim(c);
            assert forall|j: int| 0 <= j < d.push(trim(c)).len() implies blen(
                #[trigger] d.push(trim(c))[j],
            ) <= message_limit() by {
                if j < d.len() {
                    assert(d.push(trim(c))[j] == d[j]);
                }
            }
        }
    }
}

proof fn lemma_block_messages_within(b: Seq<char>)
    ensures
        forall|j: int|
            0 <= j < block_messages(b).len() ==> blen(#[trigger] block_messages(b)[j])
                <= message_limit(),
{
    if blen(b) > message_limit() {
        lemma_cut_all(lines(b), max_line());
        let ls = send_lines(b);
        assert forall|i: int| 0 <= i < ls.len() implies blen(#[trigger] ls[i]) + 1
            <= message_limit() by {}
        lemma_resend_scan_within(ls);
        let (d, c) = resend_scan(ls);
        if c.len() > 0 {
            lemma_blen_trim(c);
            assert forall|j: int| 0 <= j < d.push(trim(c)).len() implies blen(
                #[trigger] d.push(trim(c))[j],
            ) <= message_limit() by {
                if j < d.len() {
                    assert(d.push(trim(c))[j] == d[j]);
                }
            }
        }
    }
}

/// Every message sent is within the Telegram limit of 4096 bytes (and so
/// of 4096 characters).
pub proof fn lemma_sent_messages_within_limit(bs: Seq<Seq<char>>)
    ensures
        forall|j: int|
            0 <= j < outgoing(bs).len() ==> blen(#[trigger] outgoing(bs)[j]) <= message_limit(),
        forall|j: int|
            0 <= j < outgoing(bs).len() ==> (#[trigger] outgoing(bs)[j]).len() <= message_limit(),
    decreases bs.len(),
{
    if bs.len() > 0 {
        let prev = bs.drop_last();
        lemma_sent_messages_within_limit(prev);
        let b = bs.last();
        assert(b == bs[bs.len() - 1]);
        lemma_block_messages_within(b);
        let o = outgoing(prev);
        let m = block_messages(b);
        assert forall|j: int| 0 <= j < (o + m).len() implies blen(#[trigger] (o + m)[j])
            <= message_limit() by {
            if j < o.len() {
                assert((o + m)[j] == o[j]);
            } else {
                assert((o + m)[j] == m[j - o.len()]);
            }
        }
    }
    assert forall|j: int| 0 <= j < outgoing(bs).len() implies (#[trigger] outgoing(bs)[j]).len()
        <= message_limit() by {
        lemma_len_at_most_blen(outgoing(bs)[j]);
    }
}

proof fn lemma_resend_scan_cover(ls: Seq<Seq<char>>)
    ensures
        nonws(concat_all(resend_scan(ls).0)) + nonws(resend_scan(ls).1) == nonws(concat_all(ls)),
    decreases ls.len(),
{
    if ls.len() == 0 {
        assert(nonws(concat_all(resend_scan(ls).0)) + nonws(resend_scan(ls).1) =~= nonws(
            concat_all(ls),
        ));
    } else {
        let prev = ls.drop_last();
        let line = ls.last();
        lemma_resend_scan_cover(prev);
        let (d, c) = resend_scan(prev);
        let lw = line.push('\n');
        assert(prev.push(line) =~= ls);
        lemma_concat_all_push(prev, line);
        lemma_nonws_concat(concat_all(prev), line);
        lemma_nonws_push(line, '\n');
        let base = nonws(concat_all(d));
        if blen(c) + blen(lw) <= message_limit() {
            lemma_nonws_concat(c, lw);
            assert(base + (nonws(c) + nonws(line)) =~= (base + nonws(c)) + nonws(line));
        } else if c.len() > 0 {
            lemma_concat_all_push(d, trim(c));
            lemma_nonws_concat(concat_all(d), trim(c));
            lemma_nonws_trim(c);
            assert(base + nonws(c) + nonws(line) =~= (base + nonws(c)) + nonws(line));
        } else {
            assert(nonws(c) =~= Seq::<char>::empty());
            assert(base + nonws(line) =~= (base + nonws(c)) + nonws(line));
        }
    }
}

proof fn lemma_block_body_run_push(ls: Seq<Seq<char>>, a: int, n: int)
    requires
        0 <= a < n <= ls.len(),
    ensures
        block_body(ls.subrange(a, n)) == block_body(ls.subrange(a, n - 1)) + ls[n - 1].push('\n'),
{
    assert(ls.subrange(a, n).drop_last() =~= ls.subrange(a, n - 1));
}

proof fn lemma_block_body_empty(g: Seq<Seq<char>>)
    ensures
        block_body(g).len() == 0 <==> g.len() == 0,
{
    if g.len() > 0 {
        assert((block_body(g.drop_last()) + g.last().push('\n')).len() > 0);
    }
}

proof fn lemma_resend_scan_runs(ls: Seq<Seq<char>>) -> (ks: Seq<int>)
    ensures
        ks.len() == resend_scan(ls).0.len() + 1,
        ks[0] == 0,
        forall|j: int, k: int| 0 <= j < k < ks.len() ==> #[trigger] ks[j] < #[trigger] ks[k],
        forall|j: int| 0 <= j < ks.len() ==> 0 <= #[trigger] ks[j] <= ks.last(),
        ks.last() <= ls.len(),
        forall|j: int|
            0 <= j < resend_scan(ls).0.len() ==> #[trigger] resend_scan(ls).0[j] == trim(
                block_body(ls.subrange(ks[j], ks[j + 1])),
            ),
        resend_scan(ls).1 == block_body(ls.subrange(ks.last(), ls.len() as int)),
        resend_scan(ls).0.len() > 0 ==> ks.last() < ls.len(),
        forall|j: int|
            0 <= j < resend_scan(ls).0.len() ==> blen(block_body(ls.subrange(ks[j], ks[j + 1])))
                + blen(ls[#[trigger] ks[j + 1]]) + 1 > message_limit(),
    decreases ls.len(),
{
    if ls.len() == 0 {
        let ks: Seq<int> = seq![0];
        assert(ls.subrange(0, 0) =~= Seq::<Seq<char>>::empty());
        ks
    } else {
        let prev = ls.drop_last();
        let n = ls.len() as int;
        let ks0 = lemma_resend_scan_runs(prev);
        let d = resend_scan(prev).0;
        let c = resend_scan(prev).1;
        let line = ls.last();
        let lw = line.push('\n');
        let s0 = ks0.last();
        assert(prev.subrange(s0, n - 1) =~= ls.subrange(s0, n - 1));
        assert forall|j: int| 0 <= j < d.len() implies #[trigger] d[j] == trim(
            block_body(ls.subrange(ks0[j], ks0[j + 1])),
        ) by {
            assert(ks0[j] < ks0[j + 1]);
            assert(0 <= ks0[j + 1] <= s0);
            assert(ls.subrange(ks0[j], ks0[j + 1]) =~= prev.subrange(ks0[j], ks0[j + 1]));
        }
        lemma_block_body_empty(ls.subrange(s0, n - 1));
        assert forall|j: int| 0 <= j < d.len() implies blen(
            block_body(ls.subrange(ks0[j], ks0[j + 1])),
        ) + blen(ls[#[trigger] ks0[j + 1]]) + 1 > message_limit() by {
            assert(ks0[j] < ks0[j + 1]);
            assert(0 <= ks0[j + 1] <= s0);
            assert(ls.subrange(ks0[j], ks0[j + 1]) =~= prev.subrange(ks0[j], ks0[j + 1]));
            assert(ls[ks0[j + 1]] == prev[ks0[j + 1]]);
        }
        lemma_blen_push(line, '\n');
        if blen(c) + blen(lw) <= message_limit() {
            lemma_block_body_run_push(ls, s0, n);
            assert(resend_scan(ls).0 == d);
            ks0
        } else {
            lemma_block_body_run_push(ls, n - 1, n);
            assert(ls.subrange(n - 1, n - 1) =~= Seq::<Seq<char>>::empty());
            assert(block_body(ls.subrange(n - 1, n)) =~= lw);
            if c.len() > 0 {
                let ks = ks0.push(n - 1);
                let d2 = d.push(trim(c));
                assert(resend_scan(ls).0 == d2);
                assert(ls.subrange(s0, n - 1).len() > 0);
                assert forall|j: int| 0 <= j < ks.len() implies 0 <= #[trigger] ks[j] <= ks.last() by {
                    if j < ks0.len() {
                        assert(ks[j] == ks0[j]);
                    }
                }
                assert forall|j: int, k: int| 0 <= j < k < ks.len() implies #[trigger] ks[j]
                    < #[trigger] ks[k] by {
                    assert(ks[j] == ks0[j]);
                    if k < ks0.len() {
                        assert(ks[k] == ks0[k]);
                    }
                }
                assert forall|j: int| 0 <= j < d2.len() implies #[trigger] d2[j] == trim(
                    block_body(ls.subrange(ks[j], ks[j + 1])),
                ) by {
                    assert(ks[j] == ks0[j]);
                    if j < d.len() {
                        assert(d2[j] == d[j]);
                        assert(ks[j + 1] == ks0[j + 1]);
                    } else {
                        assert(d2[j] == trim(c));
                        assert(ks0[j] == s0);
                    }
                }
                assert forall|j: int| 0 <= j < d2.len() implies blen(
                    block_body(ls.subrange(ks[j], ks[j + 1])),
                ) + blen(ls[#[trigger] ks[j + 1]]) + 1 > message_limit() by {
                    assert(ks[j] == ks0[j]);
                    if j < d.len() {
                        assert(ks[j + 1] == ks0[j + 1]);
                    } else {
                        assert(ks0[j] == s0);
                        assert(ks[j + 1] == n - 1);
                    }
                }
                ks
            } else {
                assert(resend_scan(ls).0 == d);
                ks0
            }
        }
    }
}

/// An oversized block is cut into messages along its lines (as cut to
/// size, `send_lines`): the lines fall into runs of consecutive lines that
/// together take in every line, blank ones included, in order, and each
/// message is one run, its lines each followed by a newline, trimmed. A
/// message is closed only where the next line, with its newline, would
/// have taken it past the limit.
pub proof fn lemma_block_messages_are_runs(b: Seq<char>)
    requires
        blen(b) > message_limit(),
    ensures
        exists|ks: Seq<int>|
            ks.len() == block_messages(b).len() + 1 && ks[0] == 0 && ks[ks.len() - 1]
                == send_lines(b).len() && (forall|j: int, k: int|
                0 <= j < k < ks.len() ==> #[trigger] ks[j] < #[trigger] ks[k]) && (forall|j: int|
                0 <= j < block_messages(b).len() ==> #[trigger] block_messages(b)[j] == trim(
                    block_body(send_lines(b).subrange(ks[j], ks[j + 1])),
                )) && (forall|j: int|
                0 <= j < block_messages(b).len() - 1 ==> blen(
                    block_body(send_lines(b).subrange(ks[j], ks[j + 1])),
                ) + blen(send_lines(b)[#[trigger] ks[j + 1]]) + 1 > message_limit()),
{
    let ls = send_lines(b);
    let ks0 = lemma_resend_scan_runs(ls);
    let d = resend_scan(ls).0;
    let c = resend_scan(ls).1;
    let m = block_messages(b);
    let n = ls.len() as int;
    lemma_block_body_empty(ls.subrange(ks0.last(), n));
    if c.len() > 0 {
        let ks = ks0.push(n);
        assert(m == d.push(trim(c)));
        assert(ls.subrange(ks0.last(), n).len() > 0);
        assert forall|j: int, k: int| 0 <= j < k < ks.len() implies #[trigger] ks[j]
            < #[trigger] ks[k] by {
            assert(ks[j] == ks0[j]);
            if k < ks0.len() {
                assert(ks[k] == ks0[k]);
            }
        }
        assert forall|j: int| 0 <= j < m.len() implies #[trigger] m[j] == trim(
            block_body(ls.subrange(ks[j], ks[j + 1])),
        ) by {
            assert(ks[j] == ks0[j]);
            if j < d.len() {
                assert(m[j] == d[j]);
                assert(ks[j + 1] == ks0[j + 1]);
            } else {
                assert(ks0[j] == ks0.last());
            }
        }
        assert(ks[ks.len() - 1] == n);
        assert(ks.len() == m.len() + 1 && ks[0] == 0 && ks[ks.len() - 1] == n && (forall|j: int, k: int|
            0 <= j < k < ks.len() ==> #[trigger] ks[j] < #[trigger] ks[k]) && (forall|j: int|
            0 <= j < m.len() ==> #[trigger] m[j] == trim(
                block_body(ls.subrange(ks[j], ks[j + 1])),
            )) && (forall|j: int|
            0 <= j < m.len() - 1 ==> blen(
                block_body(ls.subrange(ks[j], ks[j + 1])),
            ) + blen(ls[#[trigger] ks[j + 1]]) + 1 > message_limit()));
    } else {
        assert(m == d);
        assert(ks0[ks0.len() - 1] == n);
        assert(ks0.len() == m.len() + 1 && ks0[0] == 0 && ks0[ks0.len() - 1] == n && (forall|j: int, k: int|
            0 <= j < k < ks0.len() ==> #[trigger] ks0[j] < #[trigger] ks0[k]) && (forall|j: int|
            0 <= j < m.len() ==> #[trigger] m[j] == trim(
                block_body(ls.subrange(ks0[j], ks0[j + 1])),
            )) && (forall|j: int|
            0 <= j < m.len() - 1 ==> blen(
                block_body(ls.subrange(ks0[j], ks0[j + 1])),
            ) + blen(ls[#[trigger] ks0[j + 1]]) + 1 > message_limit()));
    }
}

/// Cutting a block for sending keeps its content: the messages, one after
/// the other, hold the same characters other than white space, in order.
pub proof fn lemma_block_messages_keep_content(b: Seq<char>)
    ensures
        nonws(concat_all(block_messages(b))) == nonws(b),
{
    if blen(b) <= message_limit() {
        let one: Seq<Seq<char>> = seq![b];
        assert(one.drop_last() =~= Seq::<Seq<char>>::empty());
        assert(concat_all(one) =~= concat_all(Seq::<Seq<char>>::empty()) + b);
        assert(concat_all(Seq::<Seq<char>>::empty()) + b =~= b);
    } else {
        lemma_resend_scan_cover(send_lines(b));
        lemma_cut_all(lines(b), max_line());
        lemma_lines_cover(b);
        let (d, c) = resend_scan(send_lines(b));
        if c.len() > 0 {
            lemma_concat_all_push(d, trim(c));
            lemma_nonws_concat(concat_all(d), trim(c));
            lemma_nonws_trim(c);
        } else {
            assert(nonws(c) =~= Seq::<char>::empty());
            assert(nonws(concat_all(d)) + nonws(c) =~= nonws(concat_all(d)));
        }
    }
}

/// Sending loses no content: the messages sent for the blocks, one after
/// the other, hold the same characters other than white space as the
/// blocks, in order.
pub proof fn lemma_outgoing_keeps_content(bs: Seq<Seq<char>>)
    ensures
        nonws(concat_all(outgoing(bs))) == nonws(concat_all(bs)),
    decreases bs.len(),
{
    if bs.len() > 0 {
        let prev = bs.drop_last();
        let b = bs.last();
        lemma_outgoing_keeps_content(prev);
        lemma_block_messages_keep_content(b);
        lemma_concat_all_append(outgoing(prev), block_messages(b));
        lemma_nonws_concat(concat_all(outgoing(prev)), concat_all(block_messages(b)));
        assert(prev.push(b) =~= bs);
        lemma_concat_all_push(prev, b);
        lemma_nonws_concat(concat_all(prev), b);
    }
}

} // verus!

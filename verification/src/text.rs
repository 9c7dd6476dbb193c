use vstd::prelude::*;
use vstd::utf8::{char_is_scalar, encode_scalar, encode_utf8};

use crate::modes::block_body;

verus! {

/// The Unicode `White_Space` property, which `char::is_whitespace`,
/// `str::trim`, `str::split_whitespace` and friends go by.
pub open spec fn is_ws(c: char) -> bool {
    let u = c as u32;
    ||| 0x9 <= u <= 0xD
    ||| u == 0x20
    ||| u == 0x85
    ||| u == 0xA0
    ||| u == 0x1680
    ||| 0x2000 <= u <= 0x200A
    ||| u == 0x2028
    ||| u == 0x2029
    ||| u == 0x202F
    ||| u == 0x205F
    ||| u == 0x3000
}

/// Whether `c` is white space (the `White_Space` property of Unicode).
pub fn is_whitespace(c: char) -> (r: bool)
    ensures
        r == is_ws(c),
{
    let u = c as u32;
    (0x9 <= u && u <= 0xD) || u == 0x20 || u == 0x85 || u == 0xA0 || u == 0x1680 || (0x2000 <= u
        && u <= 0x200A) || u == 0x2028 || u == 0x2029 || u == 0x202F || u == 0x205F || u == 0x3000
}

/// Number of bytes of the UTF-8 encoding of `c`.
pub open spec fn char_width(c: char) -> nat {
    let u = c as u32;
    if u < 0x80 {
        1
    } else if u < 0x800 {
        2
    } else if u < 0x10000 {
        3
    } else {
        4
    }
}

/// Number of bytes of the UTF-8 encoding of `c`.
pub fn utf8_width(c: char) -> (r: usize)
    ensures
        r == char_width(c),
        1 <= r <= 4,
{
    let u = c as u32;
    if u < 0x80 {
        1
    } else if u < 0x800 {
        2
    } else if u < 0x10000 {
        3
    } else {
        4
    }
}


/// Number of bytes of the UTF-8 encoding of the characters `s`: what
/// `str::len` and `String::len` report.
pub open spec fn blen(s: Seq<char>) -> nat
    decreases s.len(),
{
    if s.len() == 0 {
        0
    } else {
        blen(s.drop_last()) + char_width(s.last())
    }
}

/// The byte length of a concatenation is the sum of the byte lengths.
pub proof fn lemma_blen_concat(a: Seq<char>, b: Seq<char>)
    ensures
        blen(a + b) == blen(a) + blen(b),
    decreases b.len(),
{
    if b.len() == 0 {
        assert(a + b =~= a);
    } else {
        lemma_blen_concat(a, b.drop_last());
        assert((a + b).drop_last() =~= a + b.drop_last());
    }
}


/// Appending a character adds its width to the byte length.
pub proof fn lemma_blen_push(s: Seq<char>, c: char)
    ensures
        blen(s.push(c)) == blen(s) + char_width(c),
{
    assert(s.push(c).drop_last() =~= s);
}


proof fn lemma_char_width_is_encoding_len(c: char)
    ensures
        char_width(c) == encode_scalar(c as u32).len(),
{
    char_is_scalar(c);
}

/// `blen` counts the bytes of the UTF-8 encoding: it is the length that
/// `str::len` and `String::len` report for the same characters.
pub proof fn lemma_blen_is_utf8_len(s: Seq<char>)
    ensures
        blen(s) == encode_utf8(s).len(),
    decreases s.len(),
{
    if s.len() > 0 {
        lemma_blen_is_utf8_len(s.drop_first());
        lemma_char_width_is_encoding_len(s[0]);
        lemma_blen_concat(seq![s[0]], s.drop_first());
        assert(seq![s[0]] + s.drop_first() =~= s);
        assert(seq![s[0]].drop_last() =~= Seq::<char>::empty());
        lemma_blen_push(Seq::<char>::empty(), s[0]);
        assert(Seq::<char>::empty().push(s[0]) =~= seq![s[0]]);
        assert(blen(seq![s[0]]) == char_width(s[0]));
        assert(encode_utf8(s).len() == encode_scalar(s[0] as u32).len() + encode_utf8(
            s.drop_first(),
        ).len());
    }
}


/// A text has no more characters than bytes.
pub proof fn lemma_len_at_most_blen(s: Seq<char>)
    ensures
        s.len() <= blen(s),
    decreases s.len(),
{
    if s.len() > 0 {
        lemma_len_at_most_blen(s.drop_last());
    }
}

/// The bound past which byte lengths are not counted exactly.
pub open spec fn width_cap() -> nat {
    65536
}

/// A byte count, saturated at `width_cap()`.
pub open spec fn cap(n: nat) -> nat {
    if n > width_cap() {
        width_cap()
    } else {
        n
    }
}

/// The byte length of `s`, saturated at `width_cap()`; every comparison
/// of this crate is with bounds far below that cap.
pub fn capped_blen(s: &Vec<char>) -> (r: usize)
    ensures
        r == cap(blen(s@)),
{
    let mut acc: usize = 0;
    let mut i: usize = 0;
    while i < s.len()
        invariant
            i <= s.len(),
            acc == cap(blen(s@.take(i as int))),
        decreases s.len() - i,
    {
        let w = utf8_width(s[i]);
        assert(s@.take(i + 1).drop_last() =~= s@.take(i as int));
        if acc + w > 65536 {
            acc = 65536;
        } else {
            acc = acc + w;
        }
        i += 1;
    }
    assert(s@.take(s.len() as int) =~= s@);
    acc
}

/// `s` with its leading white space removed.
pub open spec fn trim_start(s: Seq<char>) -> Seq<char>
    decreases s.len(),
{
    if s.len() > 0 && is_ws(s[0]) {
        trim_start(s.drop_first())
    } else {
        s
    }
}

/// `s` with its trailing white space removed.
pub open spec fn trim_end(s: Seq<char>) -> Seq<char>
    decreases s.len(),
{
    if s.len() > 0 && is_ws(s.last()) {
        trim_end(s.drop_last())
    } else {
        s
    }
}

/// `s` without leading and trailing white space, as `str::trim` gives it.
pub open spec fn trim(s: Seq<char>) -> Seq<char> {
    trim_end(trim_start(s))
}

proof fn lemma_trim_start_skip(s: Seq<char>, k: int)
    requires
        0 <= k <= s.len(),
        forall|j: int| 0 <= j < k ==> is_ws(#[trigger] s[j]),
        k == s.len() || !is_ws(s[k]),
    ensures
        trim_start(s) == s.skip(k),
    decreases k,
{
    if k == 0 {
        assert(s.skip(0) =~= s);
    } else {
        assert(is_ws(s[0]));
        let t = s.drop_first();
        assert forall|j: int| 0 <= j < k - 1 implies is_ws(#[trigger] t[j]) by {
            assert(t[j] == s[j + 1]);
        }
        lemma_trim_start_skip(t, k - 1);
        assert(t.skip(k - 1) =~= s.skip(k));
    }
}

proof fn lemma_trim_end_take(s: Seq<char>, k: int)
    requires
        0 <= k <= s.len(),
        forall|j: int| k <= j < s.len() ==> is_ws(#[trigger] s[j]),
        k == 0 || !is_ws(s[k - 1]),
    ensures
        trim_end(s) == s.take(k),
    decreases s.len() - k,
{
    if k == s.len() {
        assert(s.take(k) =~= s);
    } else {
        assert(is_ws(s.last()));
        let t = s.drop_last();
        lemma_trim_end_take(t, k);
        assert(t.take(k) =~= s.take(k));
    }
}

/// Trimming leaves nothing exactly when every character is white space.
pub proof fn lemma_trim_empty(s: Seq<char>)
    ensures
        trim(s).len() == 0 <==> forall|j: int| 0 <= j < s.len() ==> is_ws(#[trigger] s[j]),
    decreases s.len(),
{
    if s.len() > 0 && is_ws(s[0]) {
        lemma_trim_empty(s.drop_first());
        assert forall|j: int| 0 <= j < s.len() - 1 implies #[trigger] s.drop_first()[j] == s[j
            + 1] by {}
        if forall|j: int| 0 <= j < s.len() - 1 ==> is_ws(#[trigger] s.drop_first()[j]) {
            assert forall|j: int| 0 <= j < s.len() implies is_ws(#[trigger] s[j]) by {
                if j > 0 {
                    assert(s.drop_first()[j - 1] == s[j]);
                }
            }
        }
    } else if s.len() > 0 {
        // s[0] is not white space, so trim_start(s) == s and it has a non-space at 0.
        lemma_trim_end_keeps_first(s);
    }
}

proof fn lemma_trim_end_keeps_first(s: Seq<char>)
    requires
        s.len() > 0,
        !is_ws(s[0]),
    ensures
        trim_end(s).len() > 0,
    decreases s.len(),
{
    if is_ws(s.last()) {
        lemma_trim_end_keeps_first(s.drop_last());
    }
}

/// The characters of `s` without leading and trailing white space.
pub fn trimmed(s: &Vec<char>) -> (r: Vec<char>)
    ensures
        r@ == trim(s@),
{
    let n = s.len();
    let mut lo: usize = 0;
    while lo < n && is_whitespace(s[lo])
        invariant
            lo <= n == s.len(),
            forall|j: int| 0 <= j < lo ==> is_ws(#[trigger] s@[j]),
        decreases n - lo,
    {
        lo += 1;
    }
    proof {
        lemma_trim_start_skip(s@, lo as int);
    }
    let ghost t = s@.skip(lo as int);
    let mut hi: usize = n;
    while hi > lo && is_whitespace(s[hi - 1])
        invariant
            lo <= hi <= n == s.len(),
            forall|j: int| hi <= j < n ==> is_ws(#[trigger] s@[j]),
        decreases hi - lo,
    {
        hi -= 1;
    }
    proof {
        assert forall|j: int| hi - lo <= j < t.len() implies is_ws(#[trigger] t[j]) by {
            assert(t[j] == s@[j + lo]);
        }
        if hi > lo {
            assert(t[hi - lo - 1] == s@[hi - 1]);
        }
        lemma_trim_end_take(t, hi - lo);
    }
    let mut r: Vec<char> = Vec::new();
    let mut i: usize = lo;
    while i < hi
        invariant
            lo <= i <= hi <= n == s.len(),
            r@ == s@.subrange(lo as int, i as int),
        decreases hi - i,
    {
        r.push(s[i]);
        assert(s@.subrange(lo as int, i + 1) =~= s@.subrange(lo as int, i as int).push(s@[i as int]));
        i += 1;
    }
    assert(r@ =~= t.take(hi - lo));
    r
}


/// The character sequences held by a sequence of character vectors.
pub open spec fn vec_views(v: Seq<Vec<char>>) -> Seq<Seq<char>> {
    v.map_values(|x: Vec<char>| x@)
}

/// Reading `s` left to right: the words finished so far and the word being read.
pub open spec fn words_scan(s: Seq<char>) -> (Seq<Seq<char>>, Seq<char>)
    decreases s.len(),
{
    if s.len() == 0 {
        (seq![], seq![])
    } else {
        let (done, cur) = words_scan(s.drop_last());
        let c = s.last();
        if is_ws(c) {
            if cur.len() > 0 {
                (done.push(cur), seq![])
            } else {
                (done, cur)
            }
        } else {
            (done, cur.push(c))
        }
    }
}

/// The maximal runs of non-white-space characters of `s`, in order, as
/// `str::split_whitespace` yields them.
pub open spec fn words(s: Seq<char>) -> Seq<Seq<char>> {
    let (done, cur) = words_scan(s);
    if cur.len() > 0 {
        done.push(cur)
    } else {
        done
    }
}

/// The words of `s` (see `words`).
pub fn split_whitespace(s: &Vec<char>) -> (r: Vec<Vec<char>>)
    ensures
        vec_views(r@) == words(s@),
{
    let mut done: Vec<Vec<char>> = Vec::new();
    let mut cur: Vec<char> = Vec::new();
    let mut i: usize = 0;
    while i < s.len()
        invariant
            i <= s.len(),
            (vec_views(done@), cur@) == words_scan(s@.take(i as int)),
        decreases s.len() - i,
    {
        let c = s[i];
        assert(s@.take(i + 1).drop_last() =~= s@.take(i as int));
        if is_whitespace(c) {
            if cur.len() > 0 {
                let ghost old_done = done@;
                let ghost old_cur = cur@;
                done.push(cur);
                cur = Vec::new();
                assert(vec_views(done@) =~= vec_views(old_done).push(old_cur));
            }
        } else {
            cur.push(c);
        }
        i += 1;
    }
    assert(s@.take(s.len() as int) =~= s@);
    if cur.len() > 0 {
        let ghost old_done = done@;
        let ghost old_cur = cur@;
        done.push(cur);
        assert(vec_views(done@) =~= vec_views(old_done).push(old_cur));
    }
    done
}


/// `s` without one trailing carriage return, if it has one.
pub open spec fn strip_cr(s: Seq<char>) -> Seq<char> {
    if s.len() > 0 && s.last() == '\r' {
        s.drop_last()
    } else {
        s
    }
}

/// Reading `s` left to right: the lines finished so far and the line being read.
pub open spec fn lines_scan(s: Seq<char>) -> (Seq<Seq<char>>, Seq<char>)
    decreases s.len(),
{
    if s.len() == 0 {
        (seq![], seq![])
    } else {
        let (done, cur) = lines_scan(s.drop_last());
        let c = s.last();
        if c == '\n' {
            (done.push(strip_cr(cur)), seq![])
        } else {
            (done, cur.push(c))
        }
    }
}

/// The lines of `s`, as `str::lines` yields them: split at each `\n`, a
/// `\r` just before a `\n` dropped, and no empty line after a final `\n`.
pub open spec fn lines(s: Seq<char>) -> Seq<Seq<char>> {
    let (done, cur) = lines_scan(s);
    if cur.len() > 0 {
        done.push(cur)
    } else {
        done
    }
}

/// The lines of `s` (see `lines`).
pub fn split_lines(s: &Vec<char>) -> (r: Vec<Vec<char>>)
    ensures
        vec_views(r@) == lines(s@),
{
    let mut done: Vec<Vec<char>> = Vec::new();
    let mut cur: Vec<char> = Vec::new();
    let mut i: usize = 0;
    while i < s.len()
        invariant
            i <= s.len(),
            (vec_views(done@), cur@) == lines_scan(s@.take(i as int)),
        decreases s.len() - i,
    {
        let c = s[i];
        assert(s@.take(i + 1).drop_last() =~= s@.take(i as int));
        if c == '\n' {
            if cur.len() > 0 && cur[cur.len() - 1] == '\r' {
                cur.pop();
            }
            let ghost old_done = done@;
            let ghost old_cur = cur@;
            done.push(cur);
            cur = Vec::new();
            assert(vec_views(done@) =~= vec_views(old_done).push(old_cur));
        } else {
            cur.push(c);
        }
        i += 1;
    }
    assert(s@.take(s.len() as int) =~= s@);
    if cur.len() > 0 {
        let ghost old_done = done@;
        let ghost old_cur = cur@;
        done.push(cur);
        assert(vec_views(done@) =~= vec_views(old_done).push(old_cur));
    }
    done
}

/// Reading `s` left to right: the pieces finished so far and the piece
/// being read, where pieces are separated by `"\n\n"`.
pub open spec fn blocks_scan(s: Seq<char>) -> (Seq<Seq<char>>, Seq<char>)
    decreases s.len(),
{
    if s.len() == 0 {
        (seq![], seq![])
    } else {
        let (done, cur) = blocks_scan(s.drop_last());
        let c = s.last();
        if c == '\n' && cur.len() > 0 && cur.last() == '\n' {
            (done.push(cur.drop_last()), seq![])
        } else {
            (done, cur.push(c))
        }
    }
}

/// The pieces of `s` between non-overlapping occurrences of `"\n\n"`,
/// taken from the left, as `str::split("\n\n")` yields them.
pub open spec fn blocks(s: Seq<char>) -> Seq<Seq<char>> {
    let (done, cur) = blocks_scan(s);
    done.push(cur)
}

/// The pieces of `s` between occurrences of `"\n\n"` (see `blocks`).
pub fn split_blocks(s: &Vec<char>) -> (r: Vec<Vec<char>>)
    ensures
        vec_views(r@) == blocks(s@),
{
    let mut done: Vec<Vec<char>> = Vec::new();
    let mut cur: Vec<char> = Vec::new();
    let mut i: usize = 0;
    while i < s.len()
        invariant
            i <= s.len(),
            (vec_views(done@), cur@) == blocks_scan(s@.take(i as int)),
        decreases s.len() - i,
    {
        let c = s[i];
        assert(s@.take(i + 1).drop_last() =~= s@.take(i as int));
        if c == '\n' && cur.len() > 0 && cur[cur.len() - 1] == '\n' {
            cur.pop();
            let ghost old_done = done@;
            let ghost old_cur = cur@;
            done.push(cur);
            cur = Vec::new();
            assert(vec_views(done@) =~= vec_views(old_done).push(old_cur));
        } else {
            cur.push(c);
        }
        i += 1;
    }
    assert(s@.take(s.len() as int) =~= s@);
    let ghost old_done = done@;
    let ghost old_cur = cur@;
    done.push(cur);
    assert(vec_views(done@) =~= vec_views(old_done).push(old_cur));
    done
}


/// The character sequences held by a sequence of strings.
pub open spec fn string_views(v: Seq<String>) -> Seq<Seq<char>> {
    v.map_values(|x: String| x@)
}

/// A `String` holding exactly the characters `v`, by `String::from_iter`.
/// Trusted: std documents that collecting characters into a `String`
/// concatenates them in order; nothing here proves it.
#[verifier::external_body]
pub(crate) fn string_from_chars(v: &Vec<char>) -> (r: String)
    ensures
        r@ == v@,
{
    String::from_iter(v.iter())
}

/// Whether two character vectors hold the same characters.
pub fn chars_eq(a: &Vec<char>, b: &Vec<char>) -> (r: bool)
    ensures
        r == (a@ == b@),
{
    if a.len() != b.len() {
        return false;
    }
    let mut i: usize = 0;
    while i < a.len()
        invariant
            i <= a.len() == b.len(),
            forall|j: int| 0 <= j < i ==> a@[j] == b@[j],
        decreases a.len() - i,
    {
        if a[i] != b[i] {
            return false;
        }
        i += 1;
    }
    assert(a@ =~= b@);
    true
}

/// Whether two strings hold the same characters.
pub fn str_eq(a: &str, b: &str) -> (r: bool)
    ensures
        r == (a@ == b@),
{
    let x = chars_of(a);
    let y = chars_of(b);
    chars_eq(&x, &y)
}


/// A text with at least one character has at least one line.
pub proof fn lemma_lines_nonempty(s: Seq<char>)
    ensures
        s.len() > 0 ==> lines(s).len() > 0,
{
    if s.len() > 0 {
        let (d, c) = lines_scan(s.drop_last());
        if s.last() == '\n' {
            assert(lines_scan(s).0 == d.push(strip_cr(c)));
        } else {
            assert(lines_scan(s).1 == c.push(s.last()));
        }
    }
}

/// Trimming an empty text gives an empty text.
pub proof fn lemma_trim_of_empty(s: Seq<char>)
    ensures
        s.len() == 0 ==> trim(s).len() == 0,
{
}


proof fn lemma_blen_drop_first(s: Seq<char>)
    requires
        s.len() > 0,
    ensures
        blen(s.drop_first()) <= blen(s),
{
    lemma_blen_concat(seq![s[0]], s.drop_first());
    assert(seq![s[0]] + s.drop_first() =~= s);
}

proof fn lemma_blen_trim_start(s: Seq<char>)
    ensures
        blen(trim_start(s)) <= blen(s),
    decreases s.len(),
{
    if s.len() > 0 && is_ws(s[0]) {
        lemma_blen_trim_start(s.drop_first());
        lemma_blen_drop_first(s);
    }
}

proof fn lemma_blen_trim_end(s: Seq<char>)
    ensures
        blen(trim_end(s)) <= blen(s),
    decreases s.len(),
{
    if s.len() > 0 && is_ws(s.last()) {
        lemma_blen_trim_end(s.drop_last());
    }
}

/// Trimming never lengthens a text.
pub proof fn lemma_blen_trim(s: Seq<char>)
    ensures
        blen(trim(s)) <= blen(s),
{
    lemma_blen_trim_start(s);
    lemma_blen_trim_end(trim_start(s));
}


proof fn lemma_words_scan_shape(s: Seq<char>)
    ensures
        forall|j: int|
            0 <= j < words_scan(s).0.len() ==> (#[trigger] words_scan(s).0[j]).len() > 0 && forall|
                k: int,
            |
                0 <= k < words_scan(s).0[j].len() ==> !is_ws(#[trigger] words_scan(s).0[j][k]),
        forall|k: int| 0 <= k < words_scan(s).1.len() ==> !is_ws(#[trigger] words_scan(s).1[k]),
    decreases s.len(),
{
    if s.len() > 0 {
        lemma_words_scan_shape(s.drop_last());
        let (d, c) = words_scan(s.drop_last());
        let ch = s.last();
        if !is_ws(ch) {
            assert forall|k: int| 0 <= k < c.push(ch).len() implies !is_ws(#[trigger] c.push(ch)[k]) by {
                if k < c.len() {
                    assert(c.push(ch)[k] == c[k]);
                }
            }
        } else if c.len() > 0 {
            assert forall|j: int| 0 <= j < d.push(c).len() implies (#[trigger] d.push(c)[j]).len()
                > 0 && forall|k: int|
                0 <= k < d.push(c)[j].len() ==> !is_ws(#[trigger] d.push(c)[j][k]) by {
                if j < d.len() {
                    assert(d.push(c)[j] == d[j]);
                }
            }
        }
    }
}


proof fn lemma_words_scan_append(x: Seq<char>, y: Seq<char>)
    requires
        words_scan(x).1.len() == 0,
    ensures
        words_scan(x + y) == (words_scan(x).0 + words_scan(y).0, words_scan(y).1),
    decreases y.len(),
{
    if y.len() == 0 {
        assert(x + y =~= x);
        assert(words_scan(x).0 + words_scan(y).0 =~= words_scan(x).0);
    } else {
        lemma_words_scan_append(x, y.drop_last());
        assert((x + y).drop_last() =~= x + y.drop_last());
        assert((x + y).last() == y.last());
        let (dx, cx) = words_scan(x);
        let (dy, cy) = words_scan(y.drop_last());
        if is_ws(y.last()) && cy.len() > 0 {
            assert((dx + dy).push(cy) =~= dx + dy.push(cy));
        }
    }
}

/// Words are the maximal runs of non-white-space characters: a text with
/// no white space is one word (none when empty), and white space between
/// two parts of a text separates their words.
pub proof fn lemma_words_are_maximal_runs(a: Seq<char>, c: char, b: Seq<char>)
    ensures
        is_ws(c) ==> words(a + seq![c] + b) == words(a) + words(b),
        (forall|i: int| 0 <= i < a.len() ==> !is_ws(#[trigger] a[i])) ==> words(a) == if a.len()
            == 0 {
            Seq::<Seq<char>>::empty()
        } else {
            seq![a]
        },
{
    if is_ws(c) {
        let x = a.push(c);
        assert(x.drop_last() =~= a);
        let (da, ca) = words_scan(a);
        assert(words_scan(x).1.len() == 0);
        assert(words_scan(x).0 == words(a));
        assert(a + seq![c] + b =~= x + b);
        lemma_words_scan_append(x, b);
        let (db, cb) = words_scan(b);
        if cb.len() > 0 {
            assert((words(a) + db).push(cb) =~= words(a) + db.push(cb));
        }
    }
    if forall|i: int| 0 <= i < a.len() ==> !is_ws(#[trigger] a[i]) {
        lemma_words_scan_no_ws(a);
        if a.len() > 0 {
            assert(Seq::<Seq<char>>::empty().push(a) =~= seq![a]);
        }
    }
}

proof fn lemma_words_scan_no_ws(a: Seq<char>)
    requires
        forall|i: int| 0 <= i < a.len() ==> !is_ws(#[trigger] a[i]),
    ensures
        words_scan(a) == (Seq::<Seq<char>>::empty(), a),
    decreases a.len(),
{
    if a.len() > 0 {
        let p = a.drop_last();
        assert forall|i: int| 0 <= i < p.len() implies !is_ws(#[trigger] p[i]) by {
            assert(p[i] == a[i]);
        }
        lemma_words_scan_no_ws(p);
        assert(!is_ws(a[a.len() - 1]));
        assert(p.push(a.last()) =~= a);
    } else {
        assert(a =~= Seq::<char>::empty());
    }
}

/// Every word is non-empty and holds no white space.
pub proof fn lemma_words_are_words(s: Seq<char>)
    ensures
        forall|j: int|
            0 <= j < words(s).len() ==> (#[trigger] words(s)[j]).len() > 0 && forall|k: int|
                0 <= k < words(s)[j].len() ==> !is_ws(#[trigger] words(s)[j][k]),
{
    lemma_words_scan_shape(s);
    let (d, c) = words_scan(s);
    if c.len() > 0 {
        assert forall|j: int| 0 <= j < d.push(c).len() implies (#[trigger] d.push(c)[j]).len() > 0
            && forall|k: int| 0 <= k < d.push(c)[j].len() ==> !is_ws(#[trigger] d.push(c)[j][k]) by {
            if j < d.len() {
                assert(d.push(c)[j] == d[j]);
            }
        }
    }
}

proof fn lemma_trim_start_idem(s: Seq<char>)
    ensures
        trim_start(s).len() == 0 || !is_ws(trim_start(s)[0]),
    decreases s.len(),
{
    if s.len() > 0 && is_ws(s[0]) {
        lemma_trim_start_idem(s.drop_first());
    }
}

proof fn lemma_trim_end_shape(s: Seq<char>)
    ensures
        trim_end(s).len() == 0 || !is_ws(trim_end(s).last()),
        trim_end(s).len() <= s.len(),
        trim_end(s) == s.take(trim_end(s).len() as int),
        forall|j: int| trim_end(s).len() <= j < s.len() ==> is_ws(#[trigger] s[j]),
    decreases s.len(),
{
    if s.len() > 0 && is_ws(s.last()) {
        lemma_trim_end_shape(s.drop_last());
        let t = trim_end(s.drop_last());
        assert(s.drop_last().take(t.len() as int) =~= s.take(t.len() as int));
        assert forall|j: int| trim_end(s).len() <= j < s.len() implies is_ws(#[trigger] s[j]) by {
            if j < s.len() - 1 {
                assert(s[j] == s.drop_last()[j]);
            }
        }
    } else {
        assert(s.take(s.len() as int) =~= s);
    }
}

proof fn lemma_trim_start_shape(s: Seq<char>)
    ensures
        trim_start(s).len() <= s.len(),
        trim_start(s) == s.skip(s.len() - trim_start(s).len()),
        forall|j: int| 0 <= j < s.len() - trim_start(s).len() ==> is_ws(#[trigger] s[j]),
    decreases s.len(),
{
    if s.len() > 0 && is_ws(s[0]) {
        let t = s.drop_first();
        lemma_trim_start_shape(t);
        let k = t.len() - trim_start(t).len();
        assert(t.skip(k) =~= s.skip(k + 1));
        assert forall|j: int| 0 <= j < s.len() - trim_start(s).len() implies is_ws(
            #[trigger] s[j],
        ) by {
            if j > 0 {
                assert(s[j] == t[j - 1]);
            }
        }
    } else {
        assert(s.skip(0) =~= s);
    }
}

/// Whether `x` stands in `s` as a run of consecutive characters.
pub open spec fn occurs_in(x: Seq<char>, s: Seq<char>) -> bool {
    exists|i: int| 0 <= i && i + x.len() <= s.len() && #[trigger] s.subrange(i, i + x.len()) == x
}

/// A run of a run of `s` is a run of `s`; a run of `s` stays one when
/// characters are added to `s`.
pub proof fn lemma_occurs_in_trans(x: Seq<char>, y: Seq<char>, s: Seq<char>)
    requires
        occurs_in(x, y),
        occurs_in(y, s),
    ensures
        occurs_in(x, s),
        forall|c: char| #[trigger] occurs_in(x, s.push(c)),
{
    let a = choose|i: int| 0 <= i && i + x.len() <= y.len() && #[trigger] y.subrange(i, i + x.len()) == x;
    let b = choose|i: int| 0 <= i && i + y.len() <= s.len() && #[trigger] s.subrange(i, i + y.len()) == y;
    assert(s.subrange(a + b, a + b + x.len()) =~= x);
    assert forall|c: char| #[trigger] occurs_in(x, s.push(c)) by {
        assert(s.push(c).subrange(a + b, a + b + x.len()) =~= x);
    }
}

/// A run of `s` stays a run of `s` when a character is added to `s`.
pub proof fn lemma_occurs_in_push(s: Seq<char>, c: char)
    ensures
        forall|x: Seq<char>| occurs_in(x, s) ==> #[trigger] occurs_in(x, s.push(c)),
{
    assert forall|x: Seq<char>| occurs_in(x, s) implies #[trigger] occurs_in(x, s.push(c)) by {
        let i = choose|i: int| 0 <= i && i + x.len() <= s.len() && #[trigger] s.subrange(i, i + x.len()) == x;
        assert(s.push(c).subrange(i, i + x.len()) =~= x);
    }
}

/// Trimming takes a run out of `s` that neither starts nor ends with white
/// space, and all that it leaves out before and after is white space; it
/// keeps the end of `s` where `s` ends in a character that is not white
/// space.
pub proof fn lemma_trim_is_run(s: Seq<char>) -> (a: int)
    ensures
        0 <= a,
        a + trim(s).len() <= s.len(),
        s.subrange(a, a + trim(s).len()) == trim(s),
        occurs_in(trim(s), s),
        trim(s).len() > 0 ==> !is_ws(trim(s)[0]) && !is_ws(trim(s).last()),
        forall|j: int| 0 <= j < a ==> is_ws(#[trigger] s[j]),
        forall|j: int| a + trim(s).len() <= j < s.len() ==> is_ws(#[trigger] s[j]),
        s.len() > 0 && !is_ws(s.last()) ==> a + trim(s).len() == s.len() && trim(s).len() > 0,
{
    let t = trim_start(s);
    lemma_trim_start_shape(s);
    lemma_trim_start_idem(s);
    lemma_trim_end_shape(t);
    let a = s.len() - t.len();
    assert(s.subrange(a, a + trim(s).len()) =~= trim(s));
    assert forall|j: int| a + trim(s).len() <= j < s.len() implies is_ws(#[trigger] s[j]) by {
        assert(s[j] == t[j - a]);
    }
    if trim(s).len() > 0 {
        assert(trim(s)[0] == t[0]);
    }
    if s.len() > 0 && !is_ws(s.last()) {
        if t.len() == 0 {
            assert(is_ws(s[s.len() - 1]));
        }
        assert(t.last() == s.last());
        assert(trim_end(t) == t);
    }
    a
}

/// Trimming twice is trimming once.
pub proof fn lemma_trim_idempotent(s: Seq<char>)
    ensures
        trim(trim(s)) == trim(s),
{
    let a = trim_start(s);
    lemma_trim_start_idem(s);
    lemma_trim_end_shape(a);
    let b = trim_end(a);
    if b.len() > 0 {
        assert(b[0] == a[0]);
    }
    assert(trim_start(b) == b);
    lemma_trim_end_shape(b);
    assert(trim_end(b) == b);
}


/// The sequences `bs`, one after the other.
pub open spec fn concat_all(bs: Seq<Seq<char>>) -> Seq<char>
    decreases bs.len(),
{
    if bs.len() == 0 {
        seq![]
    } else {
        concat_all(bs.drop_last()) + bs.last()
    }
}

/// Appending a sequence appends it to the concatenation.
pub proof fn lemma_concat_all_push(bs: Seq<Seq<char>>, b: Seq<char>)
    ensures
        concat_all(bs.push(b)) == concat_all(bs) + b,
{
    assert(bs.push(b).drop_last() =~= bs);
}

/// The concatenation of two lists is the concatenation of their
/// concatenations.
pub proof fn lemma_concat_all_append(a: Seq<Seq<char>>, b: Seq<Seq<char>>)
    ensures
        concat_all(a + b) == concat_all(a) + concat_all(b),
    decreases b.len(),
{
    if b.len() == 0 {
        assert(a + b =~= a);
        assert(concat_all(a) + concat_all(b) =~= concat_all(a));
    } else {
        lemma_concat_all_append(a, b.drop_last());
        assert((a + b).drop_last() =~= a + b.drop_last());
        assert(concat_all(a) + (concat_all(b.drop_last()) + b.last()) =~= (concat_all(a)
            + concat_all(b.drop_last())) + b.last());
    }
}

/// The characters of `s` that are not white space, in order: the content
/// of a text, as opposed to its layout.
pub open spec fn nonws(s: Seq<char>) -> Seq<char>
    decreases s.len(),
{
    if s.len() == 0 {
        seq![]
    } else if is_ws(s.last()) {
        nonws(s.drop_last())
    } else {
        nonws(s.drop_last()).push(s.last())
    }
}

/// The content of a concatenation is the concatenation of the contents.
pub proof fn lemma_nonws_concat(a: Seq<char>, b: Seq<char>)
    ensures
        nonws(a + b) == nonws(a) + nonws(b),
    decreases b.len(),
{
    if b.len() == 0 {
        assert(a + b =~= a);
        assert(nonws(a) + nonws(b) =~= nonws(a));
    } else {
        lemma_nonws_concat(a, b.drop_last());
        assert((a + b).drop_last() =~= a + b.drop_last());
        assert((a + b).last() == b.last());
        if !is_ws(b.last()) {
            assert((nonws(a) + nonws(b.drop_last())).push(b.last()) =~= nonws(a) + nonws(
                b.drop_last(),
            ).push(b.last()));
        }
    }
}

/// The content of `s` followed by `c`.
pub proof fn lemma_nonws_push(s: Seq<char>, c: char)
    ensures
        nonws(s.push(c)) == if is_ws(c) {
            nonws(s)
        } else {
            nonws(s).push(c)
        },
{
    assert(s.push(c).drop_last() =~= s);
}


/// Taking the content twice is taking it once.
pub proof fn lemma_nonws_idempotent(s: Seq<char>)
    ensures
        nonws(nonws(s)) == nonws(s),
    decreases s.len(),
{
    if s.len() > 0 {
        lemma_nonws_idempotent(s.drop_last());
        if !is_ws(s.last()) {
            lemma_nonws_push(nonws(s.drop_last()), s.last());
        }
    }
}

/// A text made only of white space has no content.
pub proof fn lemma_nonws_blank(s: Seq<char>)
    requires
        forall|j: int| 0 <= j < s.len() ==> is_ws(#[trigger] s[j]),
    ensures
        nonws(s) == Seq::<char>::empty(),
    decreases s.len(),
{
    if s.len() > 0 {
        let t = s.drop_last();
        assert forall|j: int| 0 <= j < t.len() implies is_ws(#[trigger] t[j]) by {
            assert(t[j] == s[j]);
        }
        lemma_nonws_blank(t);
        assert(is_ws(s[s.len() - 1]));
    }
}

proof fn lemma_nonws_trim_start(s: Seq<char>)
    ensures
        nonws(trim_start(s)) == nonws(s),
    decreases s.len(),
{
    if s.len() > 0 && is_ws(s[0]) {
        lemma_nonws_trim_start(s.drop_first());
        lemma_nonws_concat(seq![s[0]], s.drop_first());
        assert(seq![s[0]] + s.drop_first() =~= s);
        lemma_nonws_push(Seq::<char>::empty(), s[0]);
        assert(Seq::<char>::empty().push(s[0]) =~= seq![s[0]]);
        assert(nonws(Seq::<char>::empty()) + nonws(s.drop_first()) =~= nonws(s.drop_first()));
    }
}

proof fn lemma_nonws_trim_end(s: Seq<char>)
    ensures
        nonws(trim_end(s)) == nonws(s),
    decreases s.len(),
{
    if s.len() > 0 && is_ws(s.last()) {
        lemma_nonws_trim_end(s.drop_last());
    }
}

/// Trimming keeps the content.
pub proof fn lemma_nonws_trim(s: Seq<char>)
    ensures
        nonws(trim(s)) == nonws(s),
{
    lemma_nonws_trim_start(s);
    lemma_nonws_trim_end(trim_start(s));
}

proof fn lemma_words_scan_cover(s: Seq<char>)
    ensures
        concat_all(words_scan(s).0) + words_scan(s).1 == nonws(s),
    decreases s.len(),
{
    if s.len() == 0 {
        assert(concat_all(words_scan(s).0) + words_scan(s).1 =~= nonws(s));
    } else {
        let prev = s.drop_last();
        lemma_words_scan_cover(prev);
        let (d, c) = words_scan(prev);
        let ch = s.last();
        assert(prev.push(ch) =~= s);
        lemma_nonws_push(prev, ch);
        if is_ws(ch) {
            if c.len() > 0 {
                lemma_concat_all_push(d, c);
                assert(concat_all(d) + c + Seq::<char>::empty() =~= concat_all(d) + c);
            }
        } else {
            assert(concat_all(d) + c.push(ch) =~= (concat_all(d) + c).push(ch));
        }
    }
}

/// The words, one after the other, are exactly the content of the text.
pub proof fn lemma_words_cover(s: Seq<char>)
    ensures
        concat_all(words(s)) == nonws(s),
{
    lemma_words_scan_cover(s);
    let (d, c) = words_scan(s);
    if c.len() > 0 {
        lemma_concat_all_push(d, c);
    } else {
        assert(concat_all(d) + c =~= concat_all(d));
    }
}

proof fn lemma_lines_scan_rejoin(s: Seq<char>)
    requires
        forall|i: int| 0 <= i < s.len() - 1 ==> !(#[trigger] s[i] == '\r' && s[i + 1] == '\n'),
    ensures
        block_body(lines_scan(s).0) + lines_scan(s).1 == s,
        forall|j: int| 0 <= j < lines_scan(s).1.len() ==> #[trigger] lines_scan(s).1[j] != '\n',
        forall|j: int, k: int|
            0 <= j < lines_scan(s).0.len() && 0 <= k < lines_scan(s).0[j].len() ==> #[trigger] lines_scan(
                s,
            ).0[j][k] != '\n',
        s.len() > 0 && lines_scan(s).1.len() == 0 ==> s.last() == '\n',
        lines_scan(s).1.len() > 0 ==> lines_scan(s).1.last() == s.last(),
    decreases s.len(),
{
    if s.len() == 0 {
        assert(block_body(lines_scan(s).0) + lines_scan(s).1 =~= s);
    } else {
        let prev = s.drop_last();
        assert forall|i: int| 0 <= i < prev.len() - 1 implies !(#[trigger] prev[i] == '\r' && prev[i
            + 1] == '\n') by {
            assert(prev[i] == s[i] && prev[i + 1] == s[i + 1]);
        }
        lemma_lines_scan_rejoin(prev);
        let (d, c) = lines_scan(prev);
        let ch = s.last();
        assert(prev.push(ch) =~= s);
        if ch == '\n' {
            if c.len() > 0 {
                assert(c.last() == s[s.len() - 2]);
                assert(c.last() != '\r');
            }
            assert(strip_cr(c) == c);
            assert(d.push(c).drop_last() =~= d);
            assert(block_body(d) + c.push('\n') + Seq::<char>::empty() =~= (block_body(d) + c).push(
                '\n',
            ));
            assert forall|j: int, k: int|
                0 <= j < d.push(c).len() && 0 <= k < d.push(c)[j].len() implies #[trigger] d.push(
                c,
            )[j][k] != '\n' by {
                if j < d.len() {
                    assert(d.push(c)[j] == d[j]);
                }
            }
        } else {
            assert(block_body(d) + c.push(ch) =~= (block_body(d) + c).push(ch));
            assert forall|j: int| 0 <= j < c.push(ch).len() implies #[trigger] c.push(ch)[j]
                != '\n' by {
                if j < c.len() {
                    assert(c.push(ch)[j] == c[j]);
                }
            }
        }
    }
}

/// No line holds a line break. Where `s` has no `"\r\n"`, its lines, each
/// followed by a newline, give back `s` exactly, with a newline added when
/// `s` does not end with one: every line, blank ones included, is there,
/// in order.
pub proof fn lemma_lines_rejoin(s: Seq<char>)
    requires
        forall|i: int| 0 <= i < s.len() - 1 ==> !(#[trigger] s[i] == '\r' && s[i + 1] == '\n'),
    ensures
        forall|j: int, k: int|
            0 <= j < lines(s).len() && 0 <= k < lines(s)[j].len() ==> #[trigger] lines(s)[j][k]
                != '\n',
        block_body(lines(s)) == if s.len() > 0 && s.last() != '\n' {
            s.push('\n')
        } else {
            s
        },
{
    lemma_lines_scan_rejoin(s);
    let (d, c) = lines_scan(s);
    if c.len() > 0 {
        assert(d.push(c).drop_last() =~= d);
        assert(block_body(d) + c.push('\n') =~= (block_body(d) + c).push('\n'));
        assert forall|j: int, k: int|
            0 <= j < lines(s).len() && 0 <= k < lines(s)[j].len() implies #[trigger] lines(s)[j][k]
            != '\n' by {
            if j < d.len() {
                assert(lines(s)[j] == d[j]);
            } else {
                assert(lines(s)[j] == c);
            }
        }
    } else {
        assert(block_body(d) + c =~= block_body(d));
    }
}

/// The pieces `ps` joined, a blank-line separator `"\n\n"` between each
/// two.
pub open spec fn join_blank(ps: Seq<Seq<char>>) -> Seq<char>
    decreases ps.len(),
{
    if ps.len() == 0 {
        seq![]
    } else if ps.len() == 1 {
        ps[0]
    } else {
        join_blank(ps.drop_last()) + seq!['\n', '\n'] + ps.last()
    }
}

proof fn lemma_join_blank_push(ps: Seq<Seq<char>>, x: Seq<char>)
    ensures
        join_blank(ps.push(x)) == if ps.len() == 0 {
            x
        } else {
            join_blank(ps) + seq!['\n', '\n'] + x
        },
{
    assert(ps.push(x).drop_last() =~= ps);
    if ps.len() == 0 {
        assert(ps.push(x)[0] == x);
    }
}

proof fn lemma_blocks_scan_rejoin(s: Seq<char>)
    ensures
        join_blank(blocks_scan(s).0.push(blocks_scan(s).1)) == s,
        forall|k: int|
            0 <= k < blocks_scan(s).1.len() - 1 ==> !(#[trigger] blocks_scan(s).1[k] == '\n'
                && blocks_scan(s).1[k + 1] == '\n'),
        forall|j: int, k: int|
            0 <= j < blocks_scan(s).0.len() && 0 <= k < blocks_scan(s).0[j].len() - 1 ==> !(
            #[trigger] blocks_scan(s).0[j][k] == '\n' && blocks_scan(s).0[j][k + 1] == '\n'),
    decreases s.len(),
{
    let (d, c) = blocks_scan(s);
    if s.len() == 0 {
        lemma_join_blank_push(d, c);
        assert(join_blank(d.push(c)) =~= s);
    } else {
        let prev = s.drop_last();
        lemma_blocks_scan_rejoin(prev);
        let (d0, c0) = blocks_scan(prev);
        let ch = s.last();
        assert(prev.push(ch) =~= s);
        lemma_join_blank_push(d0, c0);
        if ch == '\n' && c0.len() > 0 && c0.last() == '\n' {
            let x = c0.drop_last();
            lemma_join_blank_push(d0, x);
            lemma_join_blank_push(d0.push(x), Seq::<char>::empty());
            assert(x.push('\n') =~= c0);
            if d0.len() == 0 {
                assert(x + seq!['\n', '\n'] + Seq::<char>::empty() =~= c0.push('\n'));
            } else {
                assert(join_blank(d0) + seq!['\n', '\n'] + x + seq!['\n', '\n']
                    + Seq::<char>::empty() =~= (join_blank(d0) + seq!['\n', '\n'] + c0).push('\n'));
            }
            assert forall|j: int, k: int|
                0 <= j < d0.push(x).len() && 0 <= k < d0.push(x)[j].len() - 1 implies !(
            #[trigger] d0.push(x)[j][k] == '\n' && d0.push(x)[j][k + 1] == '\n') by {
                if j < d0.len() {
                    assert(d0.push(x)[j] == d0[j]);
                } else {
                    assert(d0.push(x)[j] == x);
                    assert(x[k] == c0[k] && x[k + 1] == c0[k + 1]);
                }
            }
        } else {
            let c1 = c0.push(ch);
            lemma_join_blank_push(d0, c1);
            if d0.len() == 0 {
                assert(c1 =~= c0.push(ch));
            } else {
                assert(join_blank(d0) + seq!['\n', '\n'] + c1 =~= (join_blank(d0) + seq!['\n', '\n']
                    + c0).push(ch));
            }
            assert forall|k: int| 0 <= k < c1.len() - 1 implies !(#[trigger] c1[k] == '\n' && c1[k
                + 1] == '\n') by {
                assert(c1[k] == c0[k]);
                if k + 1 < c0.len() {
                    assert(c1[k + 1] == c0[k + 1]);
                } else {
                    assert(c0.last() == c0[k]);
                }
            }
        }
    }
}

/// Splitting at blank-line separators loses nothing: the pieces, joined
/// again by `"\n\n"`, give back `s` exactly; and no piece holds two line
/// breaks in a row, so each separator was split at.
pub proof fn lemma_blocks_rejoin(s: Seq<char>)
    ensures
        join_blank(blocks(s)) == s,
        forall|j: int, k: int|
            0 <= j < blocks(s).len() && 0 <= k < blocks(s)[j].len() - 1 ==> !(
            #[trigger] blocks(s)[j][k] == '\n' && blocks(s)[j][k + 1] == '\n'),
{
    lemma_blocks_scan_rejoin(s);
    let (d, c) = blocks_scan(s);
    let b = blocks(s);
    assert forall|j: int, k: int|
        0 <= j < b.len() && 0 <= k < b[j].len() - 1 implies !(#[trigger] b[j][k] == '\n' && b[j][k
        + 1] == '\n') by {
        if j < d.len() {
            assert(b[j] == d[j]);
        } else {
            assert(b[j] == c);
        }
    }
}

proof fn lemma_lines_scan_cover(s: Seq<char>)
    ensures
        nonws(concat_all(lines_scan(s).0)) + nonws(lines_scan(s).1) == nonws(s),
    decreases s.len(),
{
    if s.len() == 0 {
        assert(nonws(concat_all(lines_scan(s).0)) + nonws(lines_scan(s).1) =~= nonws(s));
    } else {
        let prev = s.drop_last();
        lemma_lines_scan_cover(prev);
        let (d, c) = lines_scan(prev);
        let ch = s.last();
        assert(prev.push(ch) =~= s);
        lemma_nonws_push(prev, ch);
        if ch == '\n' {
            lemma_concat_all_push(d, strip_cr(c));
            lemma_nonws_concat(concat_all(d), strip_cr(c));
            if c.len() > 0 && c.last() == '\r' {
                assert(c.drop_last().push('\r') =~= c);
                lemma_nonws_push(c.drop_last(), '\r');
            }
            assert(nonws(Seq::<char>::empty()) =~= Seq::<char>::empty());
            assert(nonws(concat_all(d)) + nonws(strip_cr(c)) + Seq::<char>::empty() =~= nonws(
                concat_all(d),
            ) + nonws(strip_cr(c)));
        } else {
            lemma_nonws_push(c, ch);
            if !is_ws(ch) {
                assert(nonws(concat_all(d)) + nonws(c).push(ch) =~= (nonws(concat_all(d)) + nonws(
                    c,
                )).push(ch));
            }
        }
    }
}

/// The lines of a text, one after the other, hold the content of the text.
pub proof fn lemma_lines_cover(s: Seq<char>)
    ensures
        nonws(concat_all(lines(s))) == nonws(s),
{
    lemma_lines_scan_cover(s);
    let (d, c) = lines_scan(s);
    if c.len() > 0 {
        lemma_concat_all_push(d, c);
        lemma_nonws_concat(concat_all(d), c);
    } else {
        assert(nonws(c) =~= Seq::<char>::empty());
        assert(nonws(concat_all(d)) + nonws(c) =~= nonws(concat_all(d)));
    }
}

proof fn lemma_blocks_scan_cover(s: Seq<char>)
    ensures
        nonws(concat_all(blocks_scan(s).0)) + nonws(blocks_scan(s).1) == nonws(s),
    decreases s.len(),
{
    if s.len() == 0 {
        assert(nonws(concat_all(blocks_scan(s).0)) + nonws(blocks_scan(s).1) =~= nonws(s));
    } else {
        let prev = s.drop_last();
        lemma_blocks_scan_cover(prev);
        let (d, c) = blocks_scan(prev);
        let ch = s.last();
        assert(prev.push(ch) =~= s);
        lemma_nonws_push(prev, ch);
        if ch == '\n' && c.len() > 0 && c.last() == '\n' {
            lemma_concat_all_push(d, c.drop_last());
            lemma_nonws_concat(concat_all(d), c.drop_last());
            assert(c.drop_last().push('\n') =~= c);
            lemma_nonws_push(c.drop_last(), '\n');
            assert(nonws(Seq::<char>::empty()) =~= Seq::<char>::empty());
            assert(nonws(concat_all(d)) + nonws(c.drop_last()) + Seq::<char>::empty() =~= nonws(
                concat_all(d),
            ) + nonws(c.drop_last()));
        } else {
            lemma_nonws_push(c, ch);
            if !is_ws(ch) {
                assert(nonws(concat_all(d)) + nonws(c).push(ch) =~= (nonws(concat_all(d)) + nonws(
                    c,
                )).push(ch));
            }
        }
    }
}

/// The pieces between blank-line separators, one after the other, hold
/// the content of the text.
pub proof fn lemma_blocks_cover(s: Seq<char>)
    ensures
        nonws(concat_all(blocks(s))) == nonws(s),
{
    lemma_blocks_scan_cover(s);
    let (d, c) = blocks_scan(s);
    lemma_concat_all_push(d, c);
    lemma_nonws_concat(concat_all(d), c);
}

pub(crate) proof fn lemma_string_views_push(v: Seq<String>, s: String)
    ensures
        string_views(v.push(s)) == string_views(v).push(s@),
{
    assert(string_views(v.push(s)) =~= string_views(v).push(s@));
}

pub(crate) fn append_chars(v: &mut Vec<char>, w: &Vec<char>)
    ensures
        final(v)@ == old(v)@ + w@,
{
    let mut i: usize = 0;
    while i < w.len()
        invariant
            i <= w.len(),
            v@ == old(v)@ + w@.take(i as int),
        decreases w.len() - i,
    {
        v.push(w[i]);
        assert(w@.take(i + 1) =~= w@.take(i as int).push(w@[i as int]));
        i += 1;
    }
    assert(w@.take(w.len() as int) =~= w@);
}

pub(crate) fn copy_chars(b: &Vec<char>) -> (r: Vec<char>)
    ensures
        r@ == b@,
{
    let mut v: Vec<char> = Vec::new();
    append_chars(&mut v, b);
    assert(v@ =~= b@);
    v
}

pub(crate) proof fn lemma_vec_views_push(v: Seq<Vec<char>>, x: Vec<char>)
    ensures
        vec_views(v.push(x)) == vec_views(v).push(x@),
{
    assert(vec_views(v.push(x)) =~= vec_views(v).push(x@));
}

pub(crate) proof fn lemma_string_views_concat(a: Seq<String>, b: Seq<String>)
    ensures
        string_views(a + b) == string_views(a) + string_views(b),
{
    assert(string_views(a + b) =~= string_views(a) + string_views(b));
}


/// Reading `s` character by character: the pieces closed so far and the
/// open piece. A character joins the open piece while the piece stays
/// within `limit` bytes; else the open piece is closed and the character
/// opens the next one.
pub open spec fn cut_scan(s: Seq<char>, limit: nat) -> (Seq<Seq<char>>, Seq<char>)
    decreases s.len(),
{
    if s.len() == 0 {
        (seq![], seq![])
    } else {
        let (done, cur) = cut_scan(s.drop_last(), limit);
        let c = s.last();
        if blen(cur) + char_width(c) <= limit {
            (done, cur.push(c))
        } else {
            (done.push(cur), seq![c])
        }
    }
}

/// `s` cut at character boundaries into pieces of at most `limit` bytes,
/// each as long as it can be: `s` itself when it is within `limit`.
pub open spec fn cut_pieces(s: Seq<char>, limit: nat) -> Seq<Seq<char>> {
    if blen(s) <= limit {
        seq![s]
    } else {
        let (done, cur) = cut_scan(s, limit);
        if cur.len() > 0 {
            done.push(cur)
        } else {
            done
        }
    }
}

/// Each of `items` cut into pieces of at most `limit` bytes (see
/// `cut_pieces`), the pieces in order.
pub open spec fn cut_all(items: Seq<Seq<char>>, limit: nat) -> Seq<Seq<char>>
    decreases items.len(),
{
    if items.len() == 0 {
        seq![]
    } else {
        cut_all(items.drop_last(), limit) + cut_pieces(items.last(), limit)
    }
}

proof fn lemma_cut_scan(s: Seq<char>, limit: nat)
    requires
        limit >= 4,
    ensures
        concat_all(cut_scan(s, limit).0) + cut_scan(s, limit).1 == s,
        blen(cut_scan(s, limit).1) <= limit,
        forall|j: int|
            0 <= j < cut_scan(s, limit).0.len() ==> blen(#[trigger] cut_scan(s, limit).0[j])
                <= limit,
        s.len() > 0 ==> cut_scan(s, limit).1.len() > 0,
    decreases s.len(),
{
    if s.len() == 0 {
        assert(concat_all(cut_scan(s, limit).0) + cut_scan(s, limit).1 =~= s);
    } else {
        let prev = s.drop_last();
        lemma_cut_scan(prev, limit);
        let (d, c) = cut_scan(prev, limit);
        let ch = s.last();
        assert(prev.push(ch) =~= s);
        lemma_blen_push(c, ch);
        if blen(c) + char_width(ch) <= limit {
            assert(concat_all(d) + c.push(ch) =~= (concat_all(d) + c).push(ch));
        } else {
            lemma_concat_all_push(d, c);
            assert(concat_all(d) + c + seq![ch] =~= (concat_all(d) + c).push(ch));
            lemma_blen_push(Seq::<char>::empty(), ch);
            assert(Seq::<char>::empty().push(ch) =~= seq![ch]);
            assert forall|j: int| 0 <= j < d.push(c).len() implies blen(#[trigger] d.push(c)[j])
                <= limit by {
                if j < d.len() {
                    assert(d.push(c)[j] == d[j]);
                }
            }
        }
    }
}

/// The pieces of `s`, one after the other, are `s`; each is within
/// `limit` bytes; there is at least one.
pub proof fn lemma_cut_pieces(s: Seq<char>, limit: nat)
    requires
        limit >= 4,
    ensures
        concat_all(cut_pieces(s, limit)) == s,
        forall|j: int|
            0 <= j < cut_pieces(s, limit).len() ==> blen(#[trigger] cut_pieces(s, limit)[j])
                <= limit,
        cut_pieces(s, limit).len() >= 1,
{
    lemma_cut_scan(s, limit);
    if blen(s) <= limit {
        let one: Seq<Seq<char>> = seq![s];
        lemma_concat_all_push(Seq::<Seq<char>>::empty(), s);
        assert(Seq::<Seq<char>>::empty().push(s) =~= one);
        assert(concat_all(Seq::<Seq<char>>::empty()) + s =~= s);
    } else {
        let (d, c) = cut_scan(s, limit);
        assert(s.len() > 0);
        lemma_concat_all_push(d, c);
        assert forall|j: int| 0 <= j < d.push(c).len() implies blen(#[trigger] d.push(c)[j])
            <= limit by {
            if j < d.len() {
                assert(d.push(c)[j] == d[j]);
            }
        }
    }
}

/// The pieces of all items, one after the other, are the items one after
/// the other; each piece is within `limit` bytes; there are pieces when
/// there are items.
pub proof fn lemma_cut_all(items: Seq<Seq<char>>, limit: nat)
    requires
        limit >= 4,
    ensures
        concat_all(cut_all(items, limit)) == concat_all(items),
        forall|j: int|
            0 <= j < cut_all(items, limit).len() ==> blen(#[trigger] cut_all(items, limit)[j])
                <= limit,
        items.len() > 0 ==> cut_all(items, limit).len() > 0,
    decreases items.len(),
{
    if items.len() > 0 {
        let prev = items.drop_last();
        let it = items.last();
        lemma_cut_all(prev, limit);
        lemma_cut_pieces(it, limit);
        let a = cut_all(prev, limit);
        let b = cut_pieces(it, limit);
        lemma_concat_all_append(a, b);
        assert(prev.push(it) =~= items);
        lemma_concat_all_push(prev, it);
        assert forall|j: int| 0 <= j < (a + b).len() implies blen(#[trigger] (a + b)[j])
            <= limit by {
            if j < a.len() {
                assert((a + b)[j] == a[j]);
            } else {
                assert((a + b)[j] == b[j - a.len()]);
            }
        }
    }
}

proof fn lemma_cut_scan_greedy(s: Seq<char>, limit: nat)
    requires
        limit >= 4,
    ensures
        forall|j: int|
            0 <= j < cut_scan(s, limit).0.len() ==> (#[trigger] cut_scan(s, limit).0[j]).len() > 0,
        forall|j: int|
            1 <= j < cut_scan(s, limit).0.len() ==> blen(cut_scan(s, limit).0[j - 1]) + char_width(
                (#[trigger] cut_scan(s, limit).0[j])[0],
            ) > limit,
        cut_scan(s, limit).0.len() > 0 ==> blen(cut_scan(s, limit).0.last()) + char_width(
            cut_scan(s, limit).1[0],
        ) > limit,
        s.len() > 0 ==> cut_scan(s, limit).1.len() > 0,
    decreases s.len(),
{
    if s.len() > 0 {
        let prev = s.drop_last();
        lemma_cut_scan_greedy(prev, limit);
        let (d, c) = cut_scan(prev, limit);
        let ch = s.last();
        if blen(c) + char_width(ch) <= limit {
            if c.len() > 0 {
                assert(c.push(ch)[0] == c[0]);
            }
        } else {
            assert(char_width(ch) <= 4);
            assert(c.len() > 0);
            let d2 = d.push(c);
            assert forall|j: int| 0 <= j < d2.len() implies (#[trigger] d2[j]).len() > 0 by {
                if j < d.len() {
                    assert(d2[j] == d[j]);
                }
            }
            assert forall|j: int| 1 <= j < d2.len() implies blen(d2[j - 1]) + char_width(
                (#[trigger] d2[j])[0],
            ) > limit by {
                assert(d2[j - 1] == d[j - 1]);
                if j < d.len() {
                    assert(d2[j] == d[j]);
                } else {
                    assert(d2[j] == c);
                }
            }
            assert(seq![ch][0] == ch);
        }
    }
}

/// Cutting never breaks what fits: an item within `limit` bytes is left
/// whole, as its only piece. An item that does not fit is cut greedily:
/// every piece holds a character, and a piece is closed only where the
/// next character would take it past `limit` bytes.
pub proof fn lemma_cut_pieces_greedy(s: Seq<char>, limit: nat)
    requires
        limit >= 4,
    ensures
        blen(s) <= limit ==> cut_pieces(s, limit) == seq![s],
        s.len() > 0 ==> forall|j: int|
            0 <= j < cut_pieces(s, limit).len() ==> (#[trigger] cut_pieces(s, limit)[j]).len() > 0,
        forall|j: int|
            1 <= j < cut_pieces(s, limit).len() ==> blen(cut_pieces(s, limit)[j - 1]) + char_width(
                (#[trigger] cut_pieces(s, limit)[j])[0],
            ) > limit,
{
    lemma_cut_scan_greedy(s, limit);
    let p = cut_pieces(s, limit);
    if blen(s) <= limit {
        assert(p.len() == 1);
    } else {
        let (d, c) = cut_scan(s, limit);
        assert(s.len() > 0);
        assert(p == d.push(c));
        assert forall|j: int| 0 <= j < p.len() implies (#[trigger] p[j]).len() > 0 by {
            if j < d.len() {
                assert(p[j] == d[j]);
            }
        }
        assert forall|j: int| 1 <= j < p.len() implies blen(p[j - 1]) + char_width(
            (#[trigger] p[j])[0],
        ) > limit by {
            assert(p[j - 1] == d[j - 1]);
            if j < d.len() {
                assert(p[j] == d[j]);
            } else {
                assert(p[j] == c);
                assert(d.last() == d[j - 1]);
            }
        }
    }
}

/// Items that all fit within `limit` bytes come through cutting unchanged.
pub proof fn lemma_cut_all_keeps_fitting(items: Seq<Seq<char>>, limit: nat)
    requires
        limit >= 4,
        forall|i: int| 0 <= i < items.len() ==> blen(#[trigger] items[i]) <= limit,
    ensures
        cut_all(items, limit) == items,
    decreases items.len(),
{
    if items.len() > 0 {
        let prev = items.drop_last();
        assert forall|i: int| 0 <= i < prev.len() implies blen(#[trigger] prev[i]) <= limit by {
            assert(prev[i] == items[i]);
        }
        lemma_cut_all_keeps_fitting(prev, limit);
        assert(blen(items.last()) <= limit);
        lemma_cut_pieces_greedy(items.last(), limit);
        assert(prev + seq![items.last()] =~= items);
    }
}

/// `s` cut into pieces of at most `limit` bytes (see `cut_pieces`).
pub(crate) fn cut_item(s: &Vec<char>, limit: usize) -> (r: Vec<Vec<char>>)
    requires
        limit < 65536,
    ensures
        vec_views(r@) == cut_pieces(s@, limit as nat),
{
    let n = capped_blen(s);
    let mut done: Vec<Vec<char>> = Vec::new();
    if n <= limit {
        let x = copy_chars(s);
        proof {
            lemma_vec_views_push(done@, x);
            assert(vec_views(done@) =~= Seq::<Seq<char>>::empty());
            assert(seq![s@] =~= Seq::<Seq<char>>::empty().push(s@));
        }
        done.push(x);
        return done;
    }
    let mut cur: Vec<char> = Vec::new();
    let mut cur_len: usize = 0;
    let mut i: usize = 0;
    while i < s.len()
        invariant
            i <= s.len(),
            limit <= 65536,
            (vec_views(done@), cur@) == cut_scan(s@.take(i as int), limit as nat),
            cur_len == blen(cur@),
            cur_len <= 65540,
        decreases s.len() - i,
    {
        let c = s[i];
        let w = utf8_width(c);
        assert(s@.take(i + 1).drop_last() =~= s@.take(i as int));
        proof {
            lemma_blen_push(cur@, c);
        }
        if cur_len + w <= limit {
            cur.push(c);
            cur_len = cur_len + w;
        } else {
            proof {
                lemma_vec_views_push(done@, cur);
            }
            done.push(cur);
            cur = Vec::new();
            proof {
                lemma_blen_push(cur@, c);
                assert(cur@.push(c) =~= seq![c]);
            }
            cur.push(c);
            cur_len = w;
        }
        i += 1;
    }
    assert(s@.take(s.len() as int) =~= s@);
    if cur.len() > 0 {
        proof {
            lemma_vec_views_push(done@, cur);
        }
        done.push(cur);
    }
    done
}

/// Each of `items` cut into pieces of at most `limit` bytes (see `cut_all`).
pub(crate) fn cut_items(items: &Vec<Vec<char>>, limit: usize) -> (r: Vec<Vec<char>>)
    requires
        limit < 65536,
    ensures
        vec_views(r@) == cut_all(vec_views(items@), limit as nat),
{
    let ghost iv = vec_views(items@);
    let mut r: Vec<Vec<char>> = Vec::new();
    let mut i: usize = 0;
    while i < items.len()
        invariant
            i <= items.len(),
            limit < 65536,
            iv == vec_views(items@),
            vec_views(r@) == cut_all(iv.take(i as int), limit as nat),
        decreases items.len() - i,
    {
        let mut p = cut_item(&items[i], limit);
        proof {
            assert(iv.take(i + 1).drop_last() =~= iv.take(i as int));
            assert(iv.take(i + 1).last() == items@[i as int]@);
            assert(vec_views(r@ + p@) =~= vec_views(r@) + vec_views(p@));
        }
        r.append(&mut p);
        i += 1;
    }
    assert(iv.take(items.len() as int) =~= iv);
    r
}

/// The characters of `s`, in order.
pub fn chars_of(s: &str) -> (r: Vec<char>)
    ensures
        r@ == s@,
{
    let mut r: Vec<char> = Vec::new();
    for c in it: s.chars()
        invariant
            r@ == it.seq().take(it.index() as int),
    {
        r.push(c);
    }
    assert(r@ == s@);
    r
}

} // verus!

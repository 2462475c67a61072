//! The counting engine: what a line, a word, a character and a byte are,
//! and the function that computes one count per requested metric.
//!
//! Content is modelled as its decoded sequence of Unicode scalar values.
//! Line segments are the pieces between line terminators (a newline, or a
//! carriage return directly followed by a newline), a trailing terminator
//! producing no extra empty segment; words are maximal runs of
//! non-whitespace characters inside one segment; bytes are counted over the
//! UTF-8 encoding.

use vstd::prelude::*;
use vstd::utf8::encode_utf8;

use crate::options::CliOptions;

verus! {

/// Whitespace as word separators: the Unicode `White_Space` code points.
pub open spec fn is_wspace(c: char) -> bool {
    let u = c as u32;
    u == 0x09 || u == 0x0A || u == 0x0B || u == 0x0C || u == 0x0D || u == 0x20 || u == 0x85 || u
        == 0xA0 || u == 0x1680 || (0x2000 <= u && u <= 0x200A) || u == 0x2028 || u == 0x2029 || u
        == 0x202F || u == 0x205F || u == 0x3000
}

pub fn is_space_char(c: char) -> (r: bool)
    ensures
        r == is_wspace(c),
{
    let u = c as u32;
    u == 0x09 || u == 0x0A || u == 0x0B || u == 0x0C || u == 0x0D || u == 0x20 || u == 0x85 || u
        == 0xA0 || u == 0x1680 || (0x2000 <= u && u <= 0x200A) || u == 0x2028 || u == 0x2029 || u
        == 0x202F || u == 0x205F || u == 0x3000
}

/// The segments of `s` delimited by line terminators: a newline, or a
/// carriage return directly followed by a newline. A trailing terminator
/// closes the last segment rather than opening an empty one; a carriage
/// return anywhere else is an ordinary character.
pub open spec fn raw_lines(s: Seq<char>) -> Seq<Seq<char>>
    decreases s.len(),
{
    if s.len() == 0 {
        Seq::empty()
    } else if s[0] == '\n' {
        seq![Seq::<char>::empty()] + raw_lines(s.drop_first())
    } else if s[0] == '\r' && s.len() >= 2 && s[1] == '\n' {
        seq![Seq::<char>::empty()] + raw_lines(s.skip(2))
    } else {
        let rest = raw_lines(s.drop_first());
        if rest.len() == 0 {
            seq![seq![s[0]]]
        } else {
            seq![seq![s[0]] + rest[0]] + rest.drop_first()
        }
    }
}

/// One carriage return directly before a newline belongs to the line
/// terminator, not to the segment it closes.
pub open spec fn strip_cr(line: Seq<char>) -> Seq<char> {
    if line.len() > 0 && line.last() == '\r' {
        line.drop_last()
    } else {
        line
    }
}

/// The number of maximal non-whitespace runs in `line`, counting a run as
/// soon as its first character appears; `in_word` says whether a run was
/// already open just before `line`.
pub open spec fn words_in_from(line: Seq<char>, in_word: bool) -> nat
    decreases line.len(),
{
    if line.len() == 0 {
        0
    } else if is_wspace(line[0]) {
        words_in_from(line.drop_first(), false)
    } else if in_word {
        words_in_from(line.drop_first(), true)
    } else {
        1 + words_in_from(line.drop_first(), true)
    }
}

pub open spec fn words_in(line: Seq<char>) -> nat {
    words_in_from(line, false)
}

/// Sum of the word counts of the given segments.
pub open spec fn words_total(segs: Seq<Seq<char>>) -> nat
    decreases segs.len(),
{
    if segs.len() == 0 {
        0
    } else {
        words_total(segs.drop_last()) + words_in(segs.last())
    }
}

/// Largest segment length in characters, line terminators excluded.
pub open spec fn max_seg_len(segs: Seq<Seq<char>>) -> nat
    decreases segs.len(),
{
    if segs.len() == 0 {
        0
    } else {
        let rest = max_seg_len(segs.drop_last());
        let l = segs.last().len();
        if l > rest {
            l
        } else {
            rest
        }
    }
}

pub open spec fn line_count(s: Seq<char>) -> nat {
    raw_lines(s).len()
}

pub open spec fn word_count(s: Seq<char>) -> nat {
    words_total(raw_lines(s))
}

pub open spec fn max_line_length(s: Seq<char>) -> nat {
    max_seg_len(raw_lines(s))
}

pub open spec fn char_count(s: Seq<char>) -> nat {
    s.len()
}

/// Bytes of the UTF-8 encoding of the content.
pub open spec fn byte_count(s: Seq<char>) -> nat {
    encode_utf8(s).len()
}

/// The value of one metric over one content.
pub open spec fn metric_value(s: Seq<char>, m: CliOptions) -> nat {
    match m {
        CliOptions::CountBytes => byte_count(s),
        CliOptions::CountCharacters => char_count(s),
        CliOptions::CountLines => line_count(s),
        CliOptions::CountWords => word_count(s),
        CliOptions::MaxLineLength => max_line_length(s),
    }
}

/// Every metric of empty content is zero.
pub proof fn lemma_metric_empty(m: CliOptions)
    ensures
        metric_value(Seq::empty(), m) == 0,
{
    assert(raw_lines(Seq::<char>::empty()) == Seq::<Seq<char>>::empty());
    assert(encode_utf8(Seq::<char>::empty()) == Seq::<u8>::empty());
}

proof fn lemma_raw_lines_nonempty(s: Seq<char>)
    requires
        s.len() > 0,
    ensures
        raw_lines(s).len() >= 1,
{
}

/// A nonempty segment without a newline is one whole line.
proof fn lemma_raw_lines_no_newline(s: Seq<char>)
    requires
        s.len() > 0,
        forall|k: int| 0 <= k < s.len() ==> s[k] != '\n',
    ensures
        raw_lines(s) == seq![s],
    decreases s.len(),
{
    if s.len() == 1 {
        assert(s.drop_first().len() == 0);
        assert(raw_lines(s.drop_first()) == Seq::<Seq<char>>::empty());
        assert(seq![s[0]] =~= s);
        assert(raw_lines(s) =~~= seq![s]);
    } else {
        lemma_raw_lines_no_newline(s.drop_first());
        assert(seq![s[0]] + s.drop_first() =~= s);
        assert(raw_lines(s) =~~= seq![s]);
    }
}

/// A newline closes the segment before it: no newline in `a` makes
/// `a` followed by a newline exactly one line, its terminator stripped.
proof fn lemma_raw_lines_terminated(a: Seq<char>)
    requires
        forall|k: int| 0 <= k < a.len() ==> a[k] != '\n',
    ensures
        raw_lines(a.push('\n')) == seq![strip_cr(a)],
    decreases a.len(),
{
    let s = a.push('\n');
    if a.len() == 0 {
        assert(s[0] == '\n');
        assert(s.drop_first() =~= Seq::<char>::empty());
        assert(raw_lines(Seq::<char>::empty()) == Seq::<Seq<char>>::empty());
        assert(strip_cr(a) =~= Seq::<char>::empty());
        assert(raw_lines(s) =~~= seq![strip_cr(a)]);
    } else if a.len() == 1 && a[0] == '\r' {
        assert(s[0] == '\r' && s.len() == 2 && s[1] == '\n');
        assert(s.skip(2) =~= Seq::<char>::empty());
        assert(raw_lines(Seq::<char>::empty()) == Seq::<Seq<char>>::empty());
        assert(a.last() == '\r');
        assert(strip_cr(a) =~= Seq::<char>::empty());
        assert(raw_lines(s) =~~= seq![strip_cr(a)]);
    } else {
        lemma_raw_lines_terminated(a.drop_first());
        assert(s[0] == a[0]);
        assert(s[0] != '\n');
        if s[0] == '\r' {
            // more than one character, so the next one decides: it is no newline
            assert(a.len() >= 2);
            assert(s[1] == a[1]);
            assert(s[1] != '\n');
        }
        assert(s.drop_first() =~= a.drop_first().push('\n'));
        if a.len() >= 2 && a.last() == '\r' {
            assert(a.drop_first().last() == '\r');
            assert(seq![a[0]] + strip_cr(a.drop_first()) =~= strip_cr(a));
        } else {
            assert(seq![a[0]] + strip_cr(a.drop_first()) =~= strip_cr(a));
        }
        assert(raw_lines(s) =~~= seq![strip_cr(a)]);
    }
}

/// Splitting distributes over concatenation at a line boundary.
proof fn lemma_raw_lines_concat(p: Seq<char>, q: Seq<char>)
    requires
        p.len() == 0 || p.last() == '\n',
    ensures
        raw_lines(p + q) == raw_lines(p) + raw_lines(q),
    decreases p.len(),
{
    if p.len() == 0 {
        assert(p + q =~= q);
        assert(raw_lines(p) + raw_lines(q) =~= raw_lines(q));
    } else if p.len() == 1 {
        assert(p[0] == '\n');
        assert((p + q)[0] == '\n');
        assert((p + q).drop_first() =~= q);
        assert(p.drop_first() =~= Seq::<char>::empty());
        assert(raw_lines(Seq::<char>::empty()) == Seq::<Seq<char>>::empty());
        assert(raw_lines(p) =~~= seq![Seq::<char>::empty()]);
        assert(raw_lines(p + q) =~~= raw_lines(p) + raw_lines(q));
    } else if p[0] == '\r' && p[1] == '\n' {
        let p2 = p.skip(2);
        assert((p + q)[0] == '\r' && (p + q)[1] == '\n');
        assert((p + q).skip(2) =~= p2 + q);
        if p.len() == 2 {
            assert(p2 =~= Seq::<char>::empty());
        } else {
            assert(p2.last() == p.last());
        }
        lemma_raw_lines_concat(p2, q);
        assert(raw_lines(p + q) =~~= raw_lines(p) + raw_lines(q));
    } else {
        let p1 = p.drop_first();
        assert(p1.last() == p.last());
        lemma_raw_lines_concat(p1, q);
        assert((p + q)[0] == p[0]);
        if p[0] == '\r' {
            assert((p + q)[1] == p[1] && p[1] != '\n');
        }
        assert((p + q).drop_first() =~= p1 + q);
        if p[0] == '\n' {
            assert(raw_lines(p + q) =~~= raw_lines(p) + raw_lines(q));
        } else {
            lemma_raw_lines_nonempty(p1);
            assert(raw_lines(p1 + q)[0] == raw_lines(p1)[0]);
            assert(raw_lines(p1 + q).drop_first() =~= raw_lines(p1).drop_first() + raw_lines(q));
            assert(raw_lines(p + q) =~~= raw_lines(p) + raw_lines(q));
        }
    }
}

/// How the run count changes when one more character is read.
proof fn lemma_words_push(t: Seq<char>, b: bool, c: char)
    ensures
        words_in_from(t.push(c), b) == words_in_from(t, b) + (if is_wspace(c) {
            0nat
        } else if (t.len() == 0 && b) || (t.len() > 0 && !is_wspace(t.last())) {
            0nat
        } else {
            1nat
        }),
    decreases t.len(),
{
    if t.len() == 0 {
        assert(t.push(c)[0] == c);
        assert(t.push(c).drop_first() =~= Seq::<char>::empty());
        assert(words_in_from(Seq::<char>::empty(), false) == 0);
        assert(words_in_from(Seq::<char>::empty(), true) == 0);
        assert(t =~= Seq::<char>::empty());
    } else {
        assert(t.push(c)[0] == t[0]);
        assert(t.push(c).drop_first() =~= t.drop_first().push(c));
        let b2 = if is_wspace(t[0]) {
            false
        } else {
            true
        };
        lemma_words_push(t.drop_first(), b2, c);
        if t.len() == 1 {
            assert(t.last() == t[0]);
        } else {
            assert(t.drop_first().last() == t.last());
        }
    }
}

/// A trailing whitespace character opens no run and closes none it did not open.
proof fn lemma_words_drop_trailing_ws(l: Seq<char>, b: bool)
    requires
        l.len() > 0,
        is_wspace(l.last()),
    ensures
        words_in_from(l.drop_last(), b) == words_in_from(l, b),
    decreases l.len(),
{
    if l.len() == 1 {
        assert(l[0] == l.last());
        assert(l.drop_last() =~= Seq::<char>::empty());
        assert(l.drop_first() =~= Seq::<char>::empty());
        assert(words_in_from(Seq::<char>::empty(), false) == 0);
        assert(words_in_from(Seq::<char>::empty(), true) == 0);
    } else {
        assert(l.drop_last()[0] == l[0]);
        assert(l.drop_last().drop_first() =~= l.drop_first().drop_last());
        assert(l.drop_first().last() == l.last());
        let b2 = if is_wspace(l[0]) {
            false
        } else {
            true
        };
        lemma_words_drop_trailing_ws(l.drop_first(), b2);
    }
}

proof fn lemma_words_total_push(segs: Seq<Seq<char>>, t: Seq<char>)
    ensures
        words_total(segs.push(t)) == words_total(segs) + words_in(t),
{
    assert(segs.push(t).drop_last() =~= segs);
    assert(segs.push(t).last() == t);
}

proof fn lemma_max_seg_push(segs: Seq<Seq<char>>, t: Seq<char>)
    ensures
        max_seg_len(segs.push(t)) == if t.len() > max_seg_len(segs) {
            t.len()
        } else {
            max_seg_len(segs)
        },
{
    assert(segs.push(t).drop_last() =~= segs);
    assert(segs.push(t).last() == t);
}

/// One pass over the content: its line count, word count and maximum
/// line length, in that order.
pub fn scan_content(s: &str) -> (r: (usize, usize, usize))
    ensures
        r.0 == line_count(s@),
        r.1 == word_count(s@),
        r.2 == max_line_length(s@),
{
    let n = s.unicode_len();
    let mut idx: usize = 0;
    let mut lines: usize = 0;
    let mut words: usize = 0;
    let mut maxlen: usize = 0;
    while idx < n
        invariant
            n == s@.len(),
            idx <= n,
            idx == 0 || idx == n || s@[idx as int - 1] == '\n',
            lines == line_count(s@.take(idx as int)),
            words == word_count(s@.take(idx as int)),
            maxlen == max_line_length(s@.take(idx as int)),
            lines <= idx,
            words <= idx,
            maxlen <= idx,
        decreases n - idx,
    {
        let ghost p = s@.take(idx as int);
        proof {
            if idx > 0 {
                assert(p.last() == s@[idx as int - 1]);
            }
        }
        let mut j: usize = idx;
        let mut wcount: usize = 0;
        let mut in_word: bool = false;
        let mut stop: bool = false;
        while !stop
            invariant
                n == s@.len(),
                idx <= j <= n,
                forall|k: int| idx <= k < j ==> s@[k] != '\n',
                wcount == words_in(s@.subrange(idx as int, j as int)),
                in_word == (j > idx && !is_wspace(s@[j as int - 1])),
                wcount <= j - idx,
                stop ==> (j == n || s@[j as int] == '\n'),
            decreases n - j + (if stop {
                0int
            } else {
                1int
            }),
        {
            if j == n {
                stop = true;
            } else {
                let c = s.get_char(j);
                proof {
                    let t = s@.subrange(idx as int, j as int);
                    lemma_words_push(t, false, c);
                    assert(s@.subrange(idx as int, j as int + 1) =~= t.push(c));
                    if t.len() > 0 {
                        assert(t.last() == s@[j as int - 1]);
                    }
                }
                if c == '\n' {
                    stop = true;
                } else {
                    if is_space_char(c) {
                        in_word = false;
                    } else {
                        if !in_word {
                            wcount += 1;
                        }
                        in_word = true;
                    }
                    j += 1;
                }
            }
        }
        let ghost seg = s@.subrange(idx as int, j as int);
        let seg_chars = j - idx;
        if j < n {
            // the newline at `j` closes this segment; one carriage return
            // directly before it belongs to the terminator
            let sl = if j > idx && s.get_char(j - 1) == '\r' {
                seg_chars - 1
            } else {
                seg_chars
            };
            proof {
                if seg.len() > 0 {
                    assert(seg.last() == s@[j as int - 1]);
                }
                assert(sl == strip_cr(seg).len());
                if seg.len() > 0 && seg.last() == '\r' {
                    lemma_words_drop_trailing_ws(seg, false);
                }
                assert(wcount == words_in(strip_cr(seg)));
                lemma_words_total_push(raw_lines(p), strip_cr(seg));
                lemma_max_seg_push(raw_lines(p), strip_cr(seg));
                lemma_raw_lines_terminated(seg);
                assert(s@.subrange(idx as int, j as int + 1) =~= seg.push('\n'));
                lemma_raw_lines_concat(p, seg.push('\n'));
                assert(s@.take(j as int + 1) =~= p + seg.push('\n'));
                assert(raw_lines(s@.take(j as int + 1)) =~= raw_lines(p).push(strip_cr(seg)));
            }
            lines += 1;
            words += wcount;
            if sl > maxlen {
                maxlen = sl;
            }
            idx = j + 1;
        } else {
            // the content ends without a terminator: the segment stands whole
            let sl = seg_chars;
            proof {
                lemma_words_total_push(raw_lines(p), seg);
                lemma_max_seg_push(raw_lines(p), seg);
                lemma_raw_lines_no_newline(seg);
                lemma_raw_lines_concat(p, seg);
                assert(s@.take(n as int) =~= p + seg);
                assert(raw_lines(s@.take(n as int)) =~= raw_lines(p).push(seg));
            }
            lines += 1;
            words += wcount;
            if sl > maxlen {
                maxlen = sl;
            }
            idx = n;
        }
    }
    proof {
        assert(s@.take(n as int) =~= s@);
    }
    (lines, words, maxlen)
}

pub fn count_lines(s: &str) -> (r: usize)
    ensures
        r == line_count(s@),
{
    scan_content(s).0
}

pub fn count_words(s: &str) -> (r: usize)
    ensures
        r == word_count(s@),
{
    scan_content(s).1
}

pub fn count_max_line_length(s: &str) -> (r: usize)
    ensures
        r == max_line_length(s@),
{
    scan_content(s).2
}

pub fn count_chars(s: &str) -> (r: usize)
    ensures
        r == char_count(s@),
{
    s.unicode_len()
}

pub fn count_bytes(s: &str) -> (r: usize)
    ensures
        r == byte_count(s@) as usize,
        byte_count(s@) <= usize::MAX ==> r == byte_count(s@),
{
    s.len()
}

/// One count per requested metric, in the order the option set gives.
pub fn process_wc_options(contents: &String, options: &Vec<CliOptions>) -> (counts: Vec<usize>)
    ensures
        counts@.len() == options@.len(),
        forall|i: int|
            0 <= i < options@.len() ==> counts@[i] == metric_value(contents@, options@[i]) as usize,
        forall|i: int|
            0 <= i < options@.len() && metric_value(contents@, options@[i]) <= usize::MAX
                ==> counts@[i] == metric_value(contents@, options@[i]),
{
    let s: &str = contents.as_str();
    let mut counts: Vec<usize> = Vec::new();
    let n = options.len();
    let mut i: usize = 0;
    while i < n
        invariant
            n == options@.len(),
            i <= n,
            s@ == contents@,
            counts@.len() == i,
            forall|k: int|
                0 <= k < i ==> counts@[k] == metric_value(contents@, options@[k]) as usize,
            forall|k: int|
                0 <= k < i && metric_value(contents@, options@[k]) <= usize::MAX ==> counts@[k]
                    == metric_value(contents@, options@[k]),
        decreases n - i,
    {
        let c = match options[i] {
            CliOptions::CountBytes => count_bytes(s),
            CliOptions::CountCharacters => count_chars(s),
            CliOptions::CountLines => count_lines(s),
            CliOptions::CountWords => count_words(s),
            CliOptions::MaxLineLength => count_max_line_length(s),
        };
        counts.push(c);
        i += 1;
    }
    counts
}

} // verus!

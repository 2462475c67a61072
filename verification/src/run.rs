//! Run-level sequencing: folding per-input result vectors into the running
//! total, the outcome of resolving one named input, its diagnostic line,
//! the rule for printing the total, and splitting a NUL-separated file list.

use vstd::prelude::*;

use crate::engine::{lemma_metric_empty, metric_value, process_wc_options};
use crate::options::CliOptions;

verus! {

/// How one fold step relates the totals before and after it: an unset
/// (empty) total takes the result vector as is, any other is summed
/// element-wise.
pub open spec fn fold_rel(prev: Seq<usize>, counts: Seq<usize>, next: Seq<usize>) -> bool {
    if prev.len() == 0 {
        next == counts
    } else {
        next.len() == prev.len() && (forall|i: int|
            0 <= i < prev.len() ==> next[i] == prev[i] + counts[i])
    }
}

/// Folds one input's result vector into the running total.
pub fn fold_total(total: &mut Vec<usize>, counts: &Vec<usize>)
    requires
        old(total)@.len() == 0 || old(total)@.len() == counts@.len(),
        forall|i: int| 0 <= i < old(total)@.len() ==> old(total)@[i] + counts@[i] <= usize::MAX,
    ensures
        fold_rel(old(total)@, counts@, final(total)@),
{
    if total.len() == 0 {
        let n = counts.len();
        let mut i: usize = 0;
        while i < n
            invariant
                n == counts@.len(),
                i <= n,
                total@ =~= counts@.take(i as int),
            decreases n - i,
        {
            total.push(counts[i]);
            proof {
                assert(total@ =~= counts@.take(i as int + 1));
            }
            i += 1;
        }
        proof {
            assert(counts@.take(n as int) =~= counts@);
        }
    } else {
        let n = total.len();
        let mut i: usize = 0;
        while i < n
            invariant
                n == old(total)@.len() == counts@.len(),
                i <= n,
                total@.len() == n,
                forall|k: int| 0 <= k < old(total)@.len() ==> old(total)@[k] + counts@[k]
                    <= usize::MAX,
                forall|k: int| 0 <= k < i ==> total@[k] == old(total)@[k] + counts@[k],
                forall|k: int| i <= k < n ==> total@[k] == old(total)@[k],
            decreases n - i,
        {
            let v = total[i] + counts[i];
            total.set(i, v);
            i += 1;
        }
    }
}

/// Totals are additive: folding the result vectors of two inputs into an
/// initially unset total yields, per metric, the sum of their counts.
pub proof fn lemma_total_additive(ca: Seq<usize>, cb: Seq<usize>, t1: Seq<usize>, t2: Seq<usize>)
    requires
        ca.len() == cb.len(),
        fold_rel(Seq::empty(), ca, t1),
        fold_rel(t1, cb, t2),
    ensures
        t2.len() == ca.len(),
        forall|i: int| 0 <= i < ca.len() ==> t2[i] == ca[i] + cb[i],
{
}

/// A total line is printed exactly when more than one input was processed.
pub fn should_print_total(input_count: usize) -> (r: bool)
    ensures
        r == (input_count > 1),
{
    input_count > 1
}

/// The outcome of resolving one named input, before any counting.
pub enum InputOutcome {
    /// A readable regular input: its full decoded content.
    Content(String),
    /// The path names a directory: diagnosed, and counted as empty content.
    Directory,
    /// The path names nothing: diagnosed and skipped.
    Missing,
}

/// The result vector one resolved input contributes: content is counted by
/// the engine, a directory contributes zeros, a missing path contributes
/// nothing.
pub fn counts_for_outcome(outcome: &InputOutcome, options: &Vec<CliOptions>) -> (r: Option<
    Vec<usize>,
>)
    ensures
        (match outcome {
            InputOutcome::Content(c) => match r {
                Some(v) => v@.len() == options@.len() && (forall|i: int|
                    0 <= i < options@.len() ==> v@[i] == metric_value(c@, options@[i]) as usize) && (
                forall|i: int|
                    0 <= i < options@.len() && metric_value(c@, options@[i]) <= usize::MAX
                        ==> v@[i] == metric_value(c@, options@[i])),
                None => false,
            },
            InputOutcome::Directory => match r {
                Some(v) => v@.len() == options@.len() && (forall|i: int|
                    0 <= i < options@.len() ==> v@[i] == 0 && v@[i] == metric_value(
                        Seq::empty(),
                        options@[i],
                    )),
                None => false,
            },
            InputOutcome::Missing => match r {
                Some(_) => false,
                None => true,
            },
        }),
{
    match outcome {
        InputOutcome::Content(c) => Some(process_wc_options(c, options)),
        InputOutcome::Directory => {
            let n = options.len();
            let mut v: Vec<usize> = Vec::new();
            let mut i: usize = 0;
            while i < n
                invariant
                    n == options@.len(),
                    i <= n,
                    v@.len() == i,
                    forall|k: int| 0 <= k < i ==> v@[k] == 0,
                decreases n - i,
            {
                v.push(0);
                i += 1;
            }
            proof {
                assert forall|k: int| 0 <= k < options@.len() implies v@[k] == 0 && v@[k]
                    == metric_value(Seq::empty(), options@[k]) by {
                    lemma_metric_empty(options@[k]);
                }
            }
            Some(v)
        },
        InputOutcome::Missing => None,
    }
}

/// The diagnostic line a recoverable per-input condition prints; content
/// that was counted normally prints none.
pub fn diagnostic_line(outcome: &InputOutcome, name: &str) -> (r: Option<String>)
    ensures
        (match outcome {
            InputOutcome::Content(_) => match r {
                Some(_) => false,
                None => true,
            },
            InputOutcome::Directory => match r {
                Some(s) => s@ == "ccwc "@ + name@ + " is a directory"@,
                None => false,
            },
            InputOutcome::Missing => match r {
                Some(s) => s@ == "ccwc: "@ + name@ + ": No such file or directory"@,
                None => false,
            },
        }),
{
    match outcome {
        InputOutcome::Content(_) => None,
        InputOutcome::Directory => {
            let mut s = String::from_str("ccwc ");
            s.append(name);
            s.append(" is a directory");
            Some(s)
        },
        InputOutcome::Missing => {
            let mut s = String::from_str("ccwc: ");
            s.append(name);
            s.append(": No such file or directory");
            Some(s)
        },
    }
}

/// The pieces of `s` delimited by NUL separators; a trailing separator
/// yields a trailing empty piece, and empty content is one empty piece.
pub open spec fn split_nul(s: Seq<char>) -> Seq<Seq<char>>
    decreases s.len(),
{
    if s.len() == 0 {
        seq![Seq::<char>::empty()]
    } else if s[0] == '\0' {
        seq![Seq::<char>::empty()] + split_nul(s.drop_first())
    } else {
        let rest = split_nul(s.drop_first());
        seq![seq![s[0]] + rest[0]] + rest.drop_first()
    }
}

proof fn lemma_split_nul_nonempty(s: Seq<char>)
    ensures
        split_nul(s).len() >= 1,
    decreases s.len(),
{
    if s.len() > 0 {
        lemma_split_nul_nonempty(s.drop_first());
    }
}

/// A piece without a separator is one whole piece.
proof fn lemma_split_nul_no_sep(c: Seq<char>)
    requires
        forall|k: int| 0 <= k < c.len() ==> c[k] != '\0',
    ensures
        split_nul(c) == seq![c],
    decreases c.len(),
{
    if c.len() == 0 {
        assert(c =~= Seq::<char>::empty());
        assert(split_nul(c) =~~= seq![c]);
    } else {
        lemma_split_nul_no_sep(c.drop_first());
        assert(seq![c[0]] + c.drop_first() =~= c);
        assert(split_nul(c) =~~= seq![c]);
    }
}

/// A separator closes the piece before it.
proof fn lemma_split_nul_chunk(a: Seq<char>, b: Seq<char>)
    requires
        forall|k: int| 0 <= k < a.len() ==> a[k] != '\0',
    ensures
        split_nul(a + seq!['\0'] + b) == seq![a] + split_nul(b),
    decreases a.len(),
{
    let s = a + seq!['\0'] + b;
    if a.len() == 0 {
        assert(s[0] == '\0');
        assert(s.drop_first() =~= b);
        assert(a =~= Seq::<char>::empty());
        assert(split_nul(s) =~~= seq![a] + split_nul(b));
    } else {
        assert(s[0] == a[0]);
        assert(s[0] != '\0');
        assert(s.drop_first() =~= a.drop_first() + seq!['\0'] + b);
        lemma_split_nul_chunk(a.drop_first(), b);
        lemma_split_nul_nonempty(b);
        assert(split_nul(a.drop_first() + seq!['\0'] + b)[0] == a.drop_first());
        assert(split_nul(a.drop_first() + seq!['\0'] + b).drop_first() =~= split_nul(b));
        assert(seq![s[0]] + a.drop_first() =~= a);
        assert(split_nul(s) =~~= seq![a] + split_nul(b));
    }
}

/// The views of a sequence of strings.
pub open spec fn views_of(v: Seq<String>) -> Seq<Seq<char>> {
    v.map_values(|x: String| x@)
}

/// Splits the content of a file-name index on NUL separators.
pub fn split_null_separated(contents: &String) -> (names: Vec<String>)
    ensures
        views_of(names@) == split_nul(contents@),
{
    let s: &str = contents.as_str();
    let n = s.unicode_len();
    let mut names: Vec<String> = Vec::new();
    let mut idx: usize = 0;
    let mut done: bool = false;
    proof {
        assert(s@.skip(0) =~= s@);
        assert(views_of(names@) =~= Seq::<Seq<char>>::empty());
    }
    while !done
        invariant
            n == s@.len(),
            s@ == contents@,
            idx <= n,
            split_nul(s@) == views_of(names@) + (if done {
                Seq::<Seq<char>>::empty()
            } else {
                split_nul(s@.skip(idx as int))
            }),
        decreases n - idx + (if done {
            0int
        } else {
            1int
        }),
    {
        let mut j: usize = idx;
        let mut found: bool = false;
        while !found
            invariant
                n == s@.len(),
                idx <= j <= n,
                forall|k: int| idx <= k < j ==> s@[k] != '\0',
                found ==> (j == n || s@[j as int] == '\0'),
            decreases n - j + (if found {
                0int
            } else {
                1int
            }),
        {
            if j == n {
                found = true;
            } else if s.get_char(j) == '\0' {
                found = true;
            } else {
                j += 1;
            }
        }
        let seg = s.substring_char(idx, j);
        let owned = String::from_str(seg);
        proof {
            let tail = s@.skip(idx as int);
            let piece = s@.subrange(idx as int, j as int);
            if j < n {
                assert(tail =~= piece + seq!['\0'] + s@.skip(j as int + 1));
                lemma_split_nul_chunk(piece, s@.skip(j as int + 1));
            } else {
                assert(tail =~= piece);
                lemma_split_nul_no_sep(piece);
                assert(split_nul(tail) == seq![piece]);
            }
            assert(views_of(names@.push(owned)) =~= views_of(names@).push(piece));
        }
        names.push(owned);
        proof {
            if j < n {
                assert(views_of(names@) + split_nul(s@.skip(j as int + 1)) =~= split_nul(s@));
            } else {
                assert(views_of(names@) =~= split_nul(s@));
            }
        }
        if j < n {
            idx = j + 1;
        } else {
            done = true;
        }
    }
    names
}

} // verus!

//! The option set: which metrics a run reports, with set semantics on
//! insertion, a default set when none is requested, and the canonical
//! display order.

use vstd::prelude::*;

verus! {

/// One requested statistic.
#[derive(Clone, Copy, Debug, PartialEq, Eq, Structural)]
pub enum CliOptions {
    CountBytes,
    CountCharacters,
    CountLines,
    CountWords,
    MaxLineLength,
}

/// The option set that applies when the caller requests no metric:
/// lines, words and bytes, in that order.
pub open spec fn default_options() -> Seq<CliOptions> {
    seq![CliOptions::CountLines, CliOptions::CountWords, CliOptions::CountBytes]
}

pub fn get_default_options() -> (r: Vec<CliOptions>)
    ensures
        r@ == default_options(),
{
    let mut v: Vec<CliOptions> = Vec::new();
    v.push(CliOptions::CountLines);
    v.push(CliOptions::CountWords);
    v.push(CliOptions::CountBytes);
    proof {
        assert(v@ =~= default_options());
    }
    v
}

/// Adding a metric that is already present leaves the set unchanged;
/// otherwise the metric is appended.
pub open spec fn spec_add_option(opts: Seq<CliOptions>, m: CliOptions) -> Seq<CliOptions> {
    if opts.contains(m) {
        opts
    } else {
        opts.push(m)
    }
}

pub fn add_option(option: CliOptions, options: &mut Vec<CliOptions>)
    ensures
        final(options)@ == spec_add_option(old(options)@, option),
{
    let n = options.len();
    let mut i: usize = 0;
    while i < n
        invariant
            n == options@.len(),
            i <= n,
            options@ == old(options)@,
            forall|k: int| 0 <= k < i ==> options@[k] != option,
        decreases n - i,
    {
        if options[i] == option {
            proof {
                assert(old(options)@[i as int] == option);
                assert(old(options)@.contains(option));
            }
            return;
        }
        i += 1;
    }
    proof {
        assert(!old(options)@.contains(option));
    }
    options.push(option);
}

/// The set that governs a run: the default triple when nothing was
/// requested, else the requested set unchanged.
pub open spec fn spec_resolve(opts: Seq<CliOptions>) -> Seq<CliOptions> {
    if opts.len() == 0 {
        default_options()
    } else {
        opts
    }
}

pub fn resolve_options(options: Vec<CliOptions>) -> (r: Vec<CliOptions>)
    ensures
        r@ == spec_resolve(options@),
{
    if options.len() == 0 {
        get_default_options()
    } else {
        options
    }
}

/// A one-element sequence holding `m` when `opts` contains it, else empty.
pub open spec fn pick(opts: Seq<CliOptions>, m: CliOptions) -> Seq<CliOptions> {
    if opts.contains(m) {
        seq![m]
    } else {
        Seq::empty()
    }
}

/// The members of `opts`, re-ordered into the canonical display order:
/// lines, words, characters, bytes, max line length.
pub open spec fn canonical_select(opts: Seq<CliOptions>) -> Seq<CliOptions> {
    pick(opts, CliOptions::CountLines) + pick(opts, CliOptions::CountWords) + pick(
        opts,
        CliOptions::CountCharacters,
    ) + pick(opts, CliOptions::CountBytes) + pick(opts, CliOptions::MaxLineLength)
}

fn contains_option(options: &Vec<CliOptions>, m: CliOptions) -> (r: bool)
    ensures
        r == options@.contains(m),
{
    let n = options.len();
    let mut i: usize = 0;
    while i < n
        invariant
            n == options@.len(),
            i <= n,
            forall|k: int| 0 <= k < i ==> options@[k] != m,
        decreases n - i,
    {
        if options[i] == m {
            proof {
                assert(options@[i as int] == m);
                assert(options@.contains(m));
            }
            return true;
        }
        i += 1;
    }
    false
}

pub fn canonicalize(options: &Vec<CliOptions>) -> (r: Vec<CliOptions>)
    ensures
        r@ == canonical_select(options@),
{
    let mut out: Vec<CliOptions> = Vec::new();
    if contains_option(options, CliOptions::CountLines) {
        out.push(CliOptions::CountLines);
    }
    if contains_option(options, CliOptions::CountWords) {
        out.push(CliOptions::CountWords);
    }
    if contains_option(options, CliOptions::CountCharacters) {
        out.push(CliOptions::CountCharacters);
    }
    if contains_option(options, CliOptions::CountBytes) {
        out.push(CliOptions::CountBytes);
    }
    if contains_option(options, CliOptions::MaxLineLength) {
        out.push(CliOptions::MaxLineLength);
    }
    proof {
        assert(out@ =~= canonical_select(options@));
    }
    out
}

/// Repeating the same flag yields the same option set as requesting it once.
pub proof fn lemma_add_option_idempotent(opts: Seq<CliOptions>, m: CliOptions)
    ensures
        spec_add_option(spec_add_option(opts, m), m) == spec_add_option(opts, m),
{
    if !opts.contains(m) {
        assert(opts.push(m)[opts.len() as int] == m);
        assert(opts.push(m).contains(m));
    }
}

/// Option sets with the same members are displayed in the same canonical
/// order, whatever order the flags were requested in.
pub proof fn lemma_canonical_order_independent(a: Seq<CliOptions>, b: Seq<CliOptions>)
    requires
        forall|m: CliOptions| a.contains(m) <==> b.contains(m),
    ensures
        canonical_select(a) == canonical_select(b),
{
    assert(a.contains(CliOptions::CountLines) <==> b.contains(CliOptions::CountLines));
    assert(a.contains(CliOptions::CountWords) <==> b.contains(CliOptions::CountWords));
    assert(a.contains(CliOptions::CountCharacters) <==> b.contains(CliOptions::CountCharacters));
    assert(a.contains(CliOptions::CountBytes) <==> b.contains(CliOptions::CountBytes));
    assert(a.contains(CliOptions::MaxLineLength) <==> b.contains(CliOptions::MaxLineLength));
}

} // verus!

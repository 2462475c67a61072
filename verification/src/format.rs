//! The formatter: decimal rendering of counts, right-alignment to the fixed
//! display width, and the trailing label field.

use vstd::prelude::*;

verus! {

/// Field width that counts and labels are right-aligned to.
pub const FMT_DISPLAY_WIDTH: usize = 6;

pub open spec fn digit_char(d: nat) -> char {
    if d == 0 {
        '0'
    } else if d == 1 {
        '1'
    } else if d == 2 {
        '2'
    } else if d == 3 {
        '3'
    } else if d == 4 {
        '4'
    } else if d == 5 {
        '5'
    } else if d == 6 {
        '6'
    } else if d == 7 {
        '7'
    } else if d == 8 {
        '8'
    } else {
        '9'
    }
}

/// The decimal digits of `n`, most significant first, without leading zeros
/// (`0` itself is the single digit `0`).
pub open spec fn dec_digits(n: nat) -> Seq<char>
    decreases n,
{
    if n < 10 {
        seq![digit_char(n)]
    } else {
        dec_digits(n / 10).push(digit_char(n % 10))
    }
}

pub open spec fn spaces(k: nat) -> Seq<char>
    decreases k,
{
    if k == 0 {
        Seq::empty()
    } else {
        spaces((k - 1) as nat).push(' ')
    }
}

/// `n` right-aligned in a field of `width` characters; a value wider than
/// the field is not cut.
pub open spec fn padded(n: nat, width: nat) -> Seq<char> {
    let d = dec_digits(n);
    if d.len() < width {
        spaces((width - d.len()) as nat) + d
    } else {
        d
    }
}

/// Every count in order, each right-aligned to `width` and followed by one
/// space.
pub open spec fn fields(counts: Seq<usize>, width: nat) -> Seq<char>
    decreases counts.len(),
{
    if counts.len() == 0 {
        Seq::empty()
    } else {
        fields(counts.drop_last(), width) + padded(counts.last() as nat, width) + seq![' ']
    }
}

/// The count fields of one output line: padded to the display width when
/// more than one metric is shown, else printed at their natural width.
pub open spec fn format_counts(counts: Seq<usize>) -> Seq<char> {
    fields(
        counts,
        if counts.len() > 1 {
            FMT_DISPLAY_WIDTH as nat
        } else {
            0
        },
    )
}

/// The trailing label, right-aligned to the display width.
pub open spec fn padded_label(name: Seq<char>) -> Seq<char> {
    if name.len() < FMT_DISPLAY_WIDTH {
        spaces((FMT_DISPLAY_WIDTH - name.len()) as nat) + name
    } else {
        name
    }
}

fn digit_str(d: usize) -> (r: &'static str)
    requires
        d < 10,
    ensures
        r@ == seq![digit_char(d as nat)],
{
    proof {
        reveal_strlit("0");
        reveal_strlit("1");
        reveal_strlit("2");
        reveal_strlit("3");
        reveal_strlit("4");
        reveal_strlit("5");
        reveal_strlit("6");
        reveal_strlit("7");
        reveal_strlit("8");
        reveal_strlit("9");
    }
    if d == 0 {
        "0"
    } else if d == 1 {
        "1"
    } else if d == 2 {
        "2"
    } else if d == 3 {
        "3"
    } else if d == 4 {
        "4"
    } else if d == 5 {
        "5"
    } else if d == 6 {
        "6"
    } else if d == 7 {
        "7"
    } else if d == 8 {
        "8"
    } else {
        "9"
    }
}

/// The decimal digits of the values in `ds`, in reverse order of `ds`.
spec fn rev_chars(ds: Seq<usize>) -> Seq<char>
    decreases ds.len(),
{
    if ds.len() == 0 {
        Seq::empty()
    } else {
        rev_chars(ds.drop_first()) + seq![digit_char(ds[0] as nat)]
    }
}

proof fn lemma_rev_chars_push(ds: Seq<usize>, d: usize)
    ensures
        rev_chars(ds.push(d)) == seq![digit_char(d as nat)] + rev_chars(ds),
    decreases ds.len(),
{
    if ds.len() == 0 {
        assert(ds.push(d)[0] == d);
        assert(ds.push(d).drop_first() =~= Seq::<usize>::empty());
        assert(rev_chars(Seq::<usize>::empty()) == Seq::<char>::empty());
        assert(rev_chars(ds.push(d)) =~= seq![digit_char(d as nat)] + rev_chars(ds));
    } else {
        assert(ds.push(d)[0] == ds[0]);
        assert(ds.push(d).drop_first() =~= ds.drop_first().push(d));
        lemma_rev_chars_push(ds.drop_first(), d);
        assert(rev_chars(ds.push(d)) =~= seq![digit_char(d as nat)] + rev_chars(ds));
    }
}

/// Renders one count in decimal.
pub fn format_count(n: usize) -> (r: String)
    ensures
        r@ == dec_digits(n as nat),
{
    let mut m: usize = n;
    let mut low_digits: Vec<usize> = Vec::new();
    while m >= 10
        invariant
            dec_digits(n as nat) == dec_digits(m as nat) + rev_chars(low_digits@),
            forall|k: int| 0 <= k < low_digits@.len() ==> low_digits@[k] < 10,
        decreases m,
    {
        let d = m % 10;
        proof {
            lemma_rev_chars_push(low_digits@, d);
            assert(dec_digits(m as nat) == dec_digits((m / 10) as nat).push(
                digit_char((m % 10) as nat),
            ));
            assert(dec_digits((m / 10) as nat).push(digit_char(d as nat)) + rev_chars(low_digits@)
                =~= dec_digits((m / 10) as nat) + (seq![digit_char(d as nat)] + rev_chars(
                low_digits@,
            )));
        }
        low_digits.push(d);
        m = m / 10;
    }
    let mut out = String::from_str(digit_str(m));
    let mut i: usize = low_digits.len();
    while i > 0
        invariant
            i <= low_digits@.len(),
            forall|k: int| 0 <= k < low_digits@.len() ==> low_digits@[k] < 10,
            out@ == dec_digits(m as nat) + rev_chars(low_digits@.skip(i as int)),
        decreases i,
    {
        proof {
            let tail = low_digits@.skip(i as int - 1);
            assert(tail[0] == low_digits@[i as int - 1]);
            assert(tail.drop_first() =~= low_digits@.skip(i as int));
            assert(dec_digits(m as nat) + rev_chars(tail) =~= (dec_digits(m as nat) + rev_chars(
                low_digits@.skip(i as int),
            )) + seq![digit_char(low_digits@[i as int - 1] as nat)]);
        }
        let f = digit_str(low_digits[i - 1]);
        out.append(f);
        i = i - 1;
    }
    proof {
        assert(low_digits@.skip(0) =~= low_digits@);
    }
    out
}

/// A run of `k` spaces.
pub fn spaces_string(k: usize) -> (r: String)
    ensures
        r@ == spaces(k as nat),
{
    let mut out = String::new();
    let mut i: usize = 0;
    while i < k
        invariant
            i <= k,
            out@ == spaces(i as nat),
        decreases k - i,
    {
        out.append(" ");
        proof {
            reveal_strlit(" ");
            assert(" "@ =~= seq![' ']);
            assert(out@ =~= spaces((i + 1) as nat));
        }
        i += 1;
    }
    out
}

/// One count right-aligned in a field of `width` characters.
pub fn format_field(n: usize, width: usize) -> (r: String)
    ensures
        r@ == padded(n as nat, width as nat),
{
    let ds = format_count(n);
    let len = ds.as_str().unicode_len();
    let pad = if width > len {
        width - len
    } else {
        0
    };
    let mut out = spaces_string(pad);
    out.append(ds.as_str());
    proof {
        assert(out@ =~= padded(n as nat, width as nat));
    }
    out
}

/// The count fields of one output line, in the option set's order.
pub fn wc_format_output(counts: &Vec<usize>) -> (r: String)
    ensures
        r@ == format_counts(counts@),
{
    let n = counts.len();
    let width: usize = if n > 1 {
        FMT_DISPLAY_WIDTH
    } else {
        0
    };
    let mut out = String::new();
    let mut i: usize = 0;
    while i < n
        invariant
            n == counts@.len(),
            i <= n,
            width == (if n > 1 {
                FMT_DISPLAY_WIDTH
            } else {
                0
            }),
            out@ == fields(counts@.take(i as int), width as nat),
        decreases n - i,
    {
        let f = format_field(counts[i], width);
        out.append(f.as_str());
        out.append(" ");
        proof {
            reveal_strlit(" ");
            assert(" "@ =~= seq![' ']);
            assert(counts@.take(i as int + 1).drop_last() =~= counts@.take(i as int));
            assert(counts@.take(i as int + 1).last() == counts@[i as int]);
            assert(out@ =~= fields(counts@.take(i as int + 1), width as nat));
        }
        i += 1;
    }
    proof {
        assert(counts@.take(n as int) =~= counts@);
    }
    out
}

/// The trailing label of one output line, right-aligned to the display
/// width.
pub fn format_label(name: &str) -> (r: String)
    ensures
        r@ == padded_label(name@),
{
    let len = name.unicode_len();
    let pad = if FMT_DISPLAY_WIDTH > len {
        FMT_DISPLAY_WIDTH - len
    } else {
        0
    };
    let mut out = spaces_string(pad);
    out.append(name);
    proof {
        assert(out@ =~= padded_label(name@));
    }
    out
}

} // verus!

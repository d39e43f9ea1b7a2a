//! Text shown in the terminal: durations and progress lines.

use vstd::prelude::*;

use crate::text::{chars_of, dec, pad2, pad_left, push_all, push_decimal, push_pad2, string_from_chars};

verus! {

/// `[MM:SS]` for a number of whole seconds: minutes and seconds, each
/// zero-padded to two digits (minutes may take more).
pub open spec fn duration_label(total_secs: nat) -> Seq<char> {
    seq!['['] + pad2(total_secs / 60) + seq![':'] + pad2(total_secs % 60) + seq![']']
}

/// Appends `[MM:SS]` for `total_secs`.
pub fn push_duration_label(out: &mut Vec<char>, total_secs: u64)
    ensures
        final(out)@ == old(out)@ + duration_label(total_secs as nat),
{
    out.push('[');
    push_pad2(out, total_secs / 60);
    out.push(':');
    push_pad2(out, total_secs % 60);
    out.push(']');
    assert(out@ =~= old(out)@ + duration_label(total_secs as nat));
}

/// Formats a duration given in whole seconds as `[MM:SS]`.
pub fn format_duration(total_secs: u64) -> (res: String)
    ensures
        res@ == duration_label(total_secs as nat),
{
    let mut out: Vec<char> = Vec::new();
    push_duration_label(&mut out, total_secs);
    assert(out@ =~= duration_label(total_secs as nat));
    string_from_chars(&out)
}

/// `{:>4}/{} {}` of the 1-based position, the total and the path.
pub open spec fn progress_text(index: nat, total: nat, path: Seq<char>) -> Seq<char> {
    pad_left(dec(index + 1), 4) + seq!['/'] + dec(total) + seq![' '] + path
}

/// A progress line: the 1-based position right-aligned in four columns,
/// `/`, the total, a space and the path.
pub fn progress_line(index: usize, total: usize, path: &str) -> (res: String)
    requires
        index < usize::MAX,
    ensures
        res@ == progress_text(index as nat, total as nat, path@),
{
    let mut num: Vec<char> = Vec::new();
    push_decimal(&mut num, (index + 1) as u64);
    assert(num@ =~= dec((index + 1) as nat));
    let mut out: Vec<char> = Vec::new();
    let mut pad = num.len();
    while pad < 4
        invariant
            num.len() <= pad <= 4 || (num.len() >= 4 && pad == num.len()),
            out@ =~= Seq::new((pad - num.len()) as nat, |i: int| ' '),
        decreases 4 - pad,
    {
        out.push(' ');
        pad += 1;
    }
    push_all(&mut out, &num);
    assert(out@ =~= pad_left(dec((index + 1) as nat), 4));
    out.push('/');
    push_decimal(&mut out, total as u64);
    out.push(' ');
    let p = chars_of(path);
    push_all(&mut out, &p);
    assert(out@ =~= progress_text(index as nat, total as nat, path@));
    string_from_chars(&out)
}

} // verus!

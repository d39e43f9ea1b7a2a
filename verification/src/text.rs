//! Character-level text utilities shared by the rest of the library:
//! whitespace trimming, line splitting, decimal rendering and parsing,
//! searching, and the conversions between `str`/`String` and `Vec<char>`.

use vstd::prelude::*;

verus! {

// ---------------------------------------------------------------------------
// Conversions
// ---------------------------------------------------------------------------

/// The characters of a string slice, in order.
pub fn chars_of(s: &str) -> (res: Vec<char>)
    ensures
        res@ == s@,
{
    let mut res: Vec<char> = Vec::new();
    for c in it: s.chars()
        invariant
            it.seq() == s@,
            res@ == it.seq().take(it.index() as int),
    {
        res.push(c);
    }
    res
}

/// Builds a `String` from characters (std's `FromIterator<&char>` for `String`).
/// Trusted: the resulting string holds exactly the given characters, in order.
#[verifier::external_body]
pub(crate) fn string_from_chars(v: &Vec<char>) -> (res: String)
    ensures
        res@ == v@,
{
    v.iter().collect()
}

/// Copies the range `[lo, hi)` of a character vector.
pub fn slice_chars(s: &Vec<char>, lo: usize, hi: usize) -> (res: Vec<char>)
    requires
        lo <= hi <= s.len(),
    ensures
        res@ == s@.subrange(lo as int, hi as int),
{
    let mut res: Vec<char> = Vec::new();
    let mut i = lo;
    while i < hi
        invariant
            lo <= i <= hi <= s.len(),
            res@ == s@.subrange(lo as int, i as int),
        decreases hi - i,
    {
        res.push(s[i]);
        i += 1;
    }
    res
}

/// Appends all characters of `t` to `out`.
pub fn push_all(out: &mut Vec<char>, t: &Vec<char>)
    ensures
        final(out)@ == old(out)@ + t@,
{
    let mut i: usize = 0;
    while i < t.len()
        invariant
            i <= t.len(),
            out@ == old(out)@ + t@.take(i as int),
        decreases t.len() - i,
    {
        out.push(t[i]);
        i += 1;
        assert(t@.take(i as int) =~= t@.take(i - 1).push(t@[i - 1]));
    }
    assert(t@.take(t.len() as int) =~= t@);
}

/// Equality of two character vectors.
pub fn chars_eq(a: &Vec<char>, b: &Vec<char>) -> (res: bool)
    ensures
        res == (a@ == b@),
{
    if a.len() != b.len() {
        return false;
    }
    let mut i: usize = 0;
    while i < a.len()
        invariant
            a.len() == b.len(),
            i <= a.len(),
            forall|j: int| 0 <= j < i ==> a@[j] == b@[j],
        decreases a.len() - i,
    {
        if a[i] != b[i] {
            return false;
        }
        i += 1;
    }
    assert(a@ =~= b@);
    true
}

// ---------------------------------------------------------------------------
// Lowercasing (std's Unicode case mapping)
// ---------------------------------------------------------------------------

/// What `str::to_lowercase` returns for a string: the Unicode lowercase mapping
/// of every character (full mappings, with the final-sigma rule). Its tables
/// take pages, so the result is named rather than written out.
pub uninterp spec fn lowercase(s: Seq<char>) -> Seq<char>;

/// `str::to_lowercase`. Trusted: the result is `lowercase` of the argument's
/// characters; nothing more is claimed of it.
#[verifier::external_body]
pub(crate) fn to_lowercase(s: &str) -> (res: String)
    ensures
        res@ == lowercase(s@),
{
    s.to_lowercase()
}

// ---------------------------------------------------------------------------
// Whitespace and trimming
// ---------------------------------------------------------------------------

/// Unicode `White_Space`, the property that `char::is_whitespace` and
/// `str::trim` go by.
pub open spec fn is_whitespace(c: char) -> bool {
    let v = c as u32;
    ||| 0x09 <= v <= 0x0d
    ||| v == 0x20
    ||| v == 0x85
    ||| v == 0xa0
    ||| v == 0x1680
    ||| 0x2000 <= v <= 0x200a
    ||| v == 0x2028
    ||| v == 0x2029
    ||| v == 0x202f
    ||| v == 0x205f
    ||| v == 0x3000
}

pub fn char_is_whitespace(c: char) -> (res: bool)
    ensures
        res == is_whitespace(c),
{
    let v = c as u32;
    (0x09 <= v && v <= 0x0d) || v == 0x20 || v == 0x85 || v == 0xa0 || v == 0x1680 || (0x2000
        <= v && v <= 0x200a) || v == 0x2028 || v == 0x2029 || v == 0x202f || v == 0x205f || v
        == 0x3000
}

/// `s` without its leading whitespace (`str::trim_start`).
pub open spec fn trim_start(s: Seq<char>) -> Seq<char>
    decreases s.len(),
{
    if s.len() > 0 && is_whitespace(s[0]) {
        trim_start(s.drop_first())
    } else {
        s
    }
}

/// `s` without its trailing whitespace (`str::trim_end`).
pub open spec fn trim_end(s: Seq<char>) -> Seq<char>
    decreases s.len(),
{
    if s.len() > 0 && is_whitespace(s.last()) {
        trim_end(s.drop_last())
    } else {
        s
    }
}

/// `s` without leading and trailing whitespace (`str::trim`).
pub open spec fn trim(s: Seq<char>) -> Seq<char> {
    trim_end(trim_start(s))
}

/// Trimming leaves alone a string that neither starts nor ends with whitespace.
pub proof fn lemma_trim_noop(s: Seq<char>)
    requires
        s.len() > 0,
        !is_whitespace(s[0]),
        !is_whitespace(s.last()),
    ensures
        trim(s) == s,
{
}

/// Leading whitespace is taken from the front piece alone when it holds a
/// non-whitespace character.
pub proof fn lemma_trim_start_append(x: Seq<char>, y: Seq<char>)
    requires
        exists|i: int| 0 <= i < x.len() && !is_whitespace(#[trigger] x[i]),
    ensures
        trim_start(x + y) == trim_start(x) + y,
    decreases x.len(),
{
    if is_whitespace(x[0]) {
        let w = choose|i: int| 0 <= i < x.len() && !is_whitespace(#[trigger] x[i]);
        assert(w > 0);
        assert(x.drop_first()[w - 1] == x[w]);
        lemma_trim_start_append(x.drop_first(), y);
        assert((x + y).drop_first() =~= x.drop_first() + y);
    } else {
        assert((x + y)[0] == x[0]);
    }
}

/// Trailing whitespace is taken from the back piece alone when it holds a
/// non-whitespace character.
pub proof fn lemma_trim_end_append(x: Seq<char>, y: Seq<char>)
    requires
        exists|i: int| 0 <= i < y.len() && !is_whitespace(#[trigger] y[i]),
    ensures
        trim_end(x + y) == x + trim_end(y),
    decreases y.len(),
{
    if is_whitespace(y.last()) {
        let w = choose|i: int| 0 <= i < y.len() && !is_whitespace(#[trigger] y[i]);
        assert(w < y.len() - 1);
        assert(y.drop_last()[w] == y[w]);
        lemma_trim_end_append(x, y.drop_last());
        assert((x + y).drop_last() =~= x + y.drop_last());
    } else {
        assert((x + y).last() == y.last());
    }
}

/// Index of the first character of `s` that is not whitespace (or `s.len()`).
fn skip_whitespace(s: &Vec<char>) -> (i: usize)
    ensures
        i <= s.len(),
        trim_start(s@) == s@.skip(i as int),
{
    let mut i: usize = 0;
    assert(s@.skip(0) =~= s@);
    while i < s.len() && char_is_whitespace(s[i])
        invariant
            i <= s.len(),
            trim_start(s@.skip(i as int)) == trim_start(s@),
        decreases s.len() - i,
    {
        assert(s@.skip(i as int).drop_first() =~= s@.skip(i + 1));
        i += 1;
    }
    i
}

/// `s` without its leading whitespace.
pub fn trim_start_chars(s: &Vec<char>) -> (res: Vec<char>)
    ensures
        res@ == trim_start(s@),
{
    let i = skip_whitespace(s);
    let res = slice_chars(s, i, s.len());
    assert(res@ =~= s@.skip(i as int));
    res
}

/// `s` without leading and trailing whitespace.
pub fn trim_chars(s: &Vec<char>) -> (res: Vec<char>)
    ensures
        res@ == trim(s@),
{
    let i = skip_whitespace(s);
    let mut j = s.len();
    assert(s@.subrange(i as int, j as int) =~= s@.skip(i as int));
    while j > i && char_is_whitespace(s[j - 1])
        invariant
            i <= j <= s.len(),
            trim_start(s@) == s@.skip(i as int),
            trim_end(s@.subrange(i as int, j as int)) == trim(s@),
        decreases j,
    {
        assert(s@.subrange(i as int, j as int).drop_last() =~= s@.subrange(
            i as int,
            j - 1,
        ));
        j -= 1;
    }
    slice_chars(s, i, j)
}

// ---------------------------------------------------------------------------
// Lines
// ---------------------------------------------------------------------------

/// The pieces of `s` between occurrences of `sep` (`str::split` with a
/// `char`): one more piece than there are separators.
pub open spec fn split_on(s: Seq<char>, sep: char) -> Seq<Seq<char>>
    decreases s.len(),
{
    if s.len() == 0 {
        seq![Seq::<char>::empty()]
    } else {
        let p = split_on(s.drop_last(), sep);
        if s.last() == sep {
            p.push(Seq::<char>::empty())
        } else {
            p.update(p.len() - 1, p.last().push(s.last()))
        }
    }
}

/// The lines of `s`: its pieces between `'\n'` characters.
pub open spec fn split_lines(s: Seq<char>) -> Seq<Seq<char>> {
    split_on(s, '\n')
}

pub proof fn lemma_split_on_nonempty(s: Seq<char>, sep: char)
    ensures
        split_on(s, sep).len() >= 1,
    decreases s.len(),
{
    if s.len() > 0 {
        lemma_split_on_nonempty(s.drop_last(), sep);
    }
}

/// Appending a piece with no separator extends the last piece.
pub proof fn lemma_split_on_append(s: Seq<char>, t: Seq<char>, sep: char)
    requires
        forall|i: int| 0 <= i < t.len() ==> t[i] != sep,
    ensures
        split_on(s + t, sep) == split_on(s, sep).update(
            split_on(s, sep).len() - 1,
            split_on(s, sep).last() + t,
        ),
    decreases t.len(),
{
    lemma_split_on_nonempty(s, sep);
    if t.len() == 0 {
        assert(s + t =~= s);
        assert(split_on(s, sep).last() + t =~= split_on(s, sep).last());
        assert(split_on(s, sep).update(split_on(s, sep).len() - 1, split_on(s, sep).last())
            =~= split_on(s, sep));
    } else {
        let u = t.drop_last();
        lemma_split_on_append(s, u, sep);
        assert((s + t).drop_last() =~= s + u);
        assert((s + t).last() == t.last());
        assert(t.last() != sep);
        let q = split_on(s, sep);
        let p = split_on(s + u, sep);
        assert(p.len() == q.len());
        assert(p.last() == q.last() + u);
        assert(split_on(s + t, sep) == p.update(p.len() - 1, p.last().push(t.last())));
        assert((q.last() + u).push(t.last()) =~= q.last() + t);
        assert(split_on(s + t, sep) =~= q.update(q.len() - 1, q.last() + t));
    }
}

/// Splits `s` at every `sep`.
pub fn split_chars(s: &Vec<char>, sep: char) -> (res: Vec<Vec<char>>)
    ensures
        res.len() == split_on(s@, sep).len(),
        forall|k: int| 0 <= k < res.len() ==> #[trigger] res@[k]@ == split_on(s@, sep)[k],
{
    let mut pieces: Vec<Vec<char>> = Vec::new();
    let mut cur: Vec<char> = Vec::new();
    let mut i: usize = 0;
    while i < s.len()
        invariant
            i <= s.len(),
            split_on(s@.take(i as int), sep).len() == pieces.len() + 1,
            forall|k: int|
                0 <= k < pieces.len() ==> #[trigger] pieces@[k]@ == split_on(
                    s@.take(i as int),
                    sep,
                )[k],
            cur@ == split_on(s@.take(i as int), sep).last(),
        decreases s.len() - i,
    {
        let ghost prev = s@.take(i as int);
        assert(s@.take(i + 1).drop_last() =~= prev);
        proof {
            lemma_split_on_nonempty(prev, sep);
        }
        if s[i] == sep {
            let done = cur;
            pieces.push(done);
            cur = Vec::new();
            assert(cur@ =~= Seq::<char>::empty());
        } else {
            cur.push(s[i]);
        }
        i += 1;
    }
    assert(s@.take(s.len() as int) =~= s@);
    pieces.push(cur);
    pieces
}

// ---------------------------------------------------------------------------
// Decimal rendering
// ---------------------------------------------------------------------------

/// The ASCII digit for `d` (`d < 10`).
pub open spec fn digit_char(d: nat) -> char {
    if d == 0 {
        '0'
    } else if d == 1 {
        '1'
    } else if d == 2 {
        '2'
    } else if d == 3 {
        '3'
    } else if d == 4 {
        '4'
    } else if d == 5 {
        '5'
    } else if d == 6 {
        '6'
    } else if d == 7 {
        '7'
    } else if d == 8 {
        '8'
    } else {
        '9'
    }
}

/// The value of an ASCII digit character.
pub open spec fn digit_value(c: char) -> nat {
    (c as u32 - '0' as u32) as nat
}

pub open spec fn is_digit(c: char) -> bool {
    '0' <= c <= '9'
}

/// Decimal notation of `n`, without leading zeros (`{}` of an integer).
pub open spec fn dec(n: nat) -> Seq<char>
    decreases n,
{
    if n < 10 {
        seq![digit_char(n)]
    } else {
        dec(n / 10).push(digit_char(n % 10))
    }
}

/// `{:02}`: decimal notation, zero-padded to at least two characters.
pub open spec fn pad2(n: nat) -> Seq<char> {
    if n < 10 {
        seq!['0', digit_char(n)]
    } else {
        dec(n)
    }
}

/// `{:>w}`: `s` right-aligned in a field of `w` characters, padded with spaces.
pub open spec fn pad_left(s: Seq<char>, w: nat) -> Seq<char> {
    if s.len() < w {
        Seq::new((w - s.len()) as nat, |i: int| ' ') + s
    } else {
        s
    }
}

fn digit_of(d: u64) -> (c: char)
    requires
        d < 10,
    ensures
        c == digit_char(d as nat),
{
    if d == 0 {
        '0'
    } else if d == 1 {
        '1'
    } else if d == 2 {
        '2'
    } else if d == 3 {
        '3'
    } else if d == 4 {
        '4'
    } else if d == 5 {
        '5'
    } else if d == 6 {
        '6'
    } else if d == 7 {
        '7'
    } else if d == 8 {
        '8'
    } else {
        '9'
    }
}

/// Appends the decimal notation of `n`.
pub fn push_decimal(out: &mut Vec<char>, n: u64)
    ensures
        final(out)@ == old(out)@ + dec(n as nat),
    decreases n,
{
    if n >= 10 {
        push_decimal(out, n / 10);
    }
    out.push(digit_of(n % 10));
    assert(out@ =~= old(out)@ + dec(n as nat));
}

/// Appends `n` zero-padded to two digits.
pub fn push_pad2(out: &mut Vec<char>, n: u64)
    ensures
        final(out)@ == old(out)@ + pad2(n as nat),
{
    if n < 10 {
        out.push('0');
        out.push(digit_of(n));
        assert(out@ =~= old(out)@ + pad2(n as nat));
    } else {
        push_decimal(out, n);
    }
}

pub proof fn lemma_dec_len(n: nat)
    ensures
        1 <= dec(n).len(),
        n >= 10 ==> dec(n).len() >= 2,
        n < 10 ==> dec(n).len() == 1,
    decreases n,
{
    if n >= 10 {
        lemma_dec_len(n / 10);
    }
}

pub proof fn lemma_dec_digits(n: nat)
    ensures
        forall|i: int| 0 <= i < dec(n).len() ==> #[trigger] is_digit(dec(n)[i]),
    decreases n,
{
    if n >= 10 {
        lemma_dec_digits(n / 10);
        lemma_digit_char((n % 10) as nat);
        assert forall|i: int| 0 <= i < dec(n).len() implies #[trigger] is_digit(dec(n)[i]) by {
            if i < dec(n).len() - 1 {
                assert(dec(n)[i] == dec(n / 10)[i]);
            }
        }
    } else {
        lemma_digit_char(n);
    }
}

pub proof fn lemma_digit_char(d: nat)
    requires
        d < 10,
    ensures
        is_digit(digit_char(d)),
        digit_value(digit_char(d)) == d,
{
}

// ---------------------------------------------------------------------------
// Decimal parsing (`str::parse::<u64>`)
// ---------------------------------------------------------------------------

pub open spec fn all_digits(s: Seq<char>) -> bool {
    forall|i: int| 0 <= i < s.len() ==> #[trigger] is_digit(s[i])
}

/// The number a string of decimal digits denotes.
pub open spec fn digits_value(s: Seq<char>) -> nat
    decreases s.len(),
{
    if s.len() == 0 {
        0
    } else {
        digits_value(s.drop_last()) * 10 + digit_value(s.last())
    }
}

/// The digits part of a number: `s` without a leading `+` sign (a lone `+`
/// is kept, and then fails as a non-digit).
pub open spec fn parse_body(s: Seq<char>) -> Seq<char> {
    if s.len() >= 2 && s[0] == '+' {
        s.drop_first()
    } else {
        s
    }
}

/// What `str::parse::<u64>` gives: an optional `+`, then one or more ASCII
/// digits whose value fits in `u64`; anything else is an error (`None`).
pub open spec fn parse_u64(s: Seq<char>) -> Option<u64> {
    let body = parse_body(s);
    if body.len() > 0 && all_digits(body) && digits_value(body) <= u64::MAX {
        Some(digits_value(body) as u64)
    } else {
        None
    }
}

/// Parses a decimal `u64` the way `str::parse::<u64>` does.
pub fn parse_u64_chars(s: &Vec<char>) -> (res: Option<u64>)
    ensures
        res == parse_u64(s@),
{
    let start: usize = if s.len() >= 2 && s[0] == '+' {
        1
    } else {
        0
    };
    let ghost body = s@.skip(start as int);
    assert(body =~= parse_body(s@));
    if start >= s.len() {
        return None;
    }
    let mut value: u64 = 0;
    let mut i = start;
    while i < s.len()
        invariant
            start <= i <= s.len(),
            body == s@.skip(start as int),
            body == parse_body(s@),
            all_digits(s@.subrange(start as int, i as int)),
            value == digits_value(s@.subrange(start as int, i as int)),
        decreases s.len() - i,
    {
        let c = s[i];
        let ghost pre = s@.subrange(start as int, i as int);
        let ghost next = s@.subrange(start as int, i + 1);
        assert(next.drop_last() =~= pre);
        if !('0' <= c && c <= '9') {
            assert(body[i - start] == c);
            assert(!is_digit(body[i - start]));
            assert(!all_digits(body));
            return None;
        }
        let d = (c as u32 - '0' as u32) as u64;
        if value > (u64::MAX - d) / 10 {
            proof {
                lemma_digits_value_mono(body, (i + 1 - start) as int);
                assert(body.take((i + 1 - start) as int) =~= next);
                assert(digits_value(next) == value * 10 + d);
                assert(value * 10 + d > u64::MAX) by (nonlinear_arith)
                    requires
                        value > (u64::MAX - d) / 10,
                        d < 10,
                ;
                assert(digits_value(body) > u64::MAX);
            }
            return None;
        }
        assert(value * 10 + d <= u64::MAX) by (nonlinear_arith)
            requires
                value <= (u64::MAX - d) / 10,
                d < 10,
        ;
        value = value * 10 + d;
        i += 1;
    }
    assert(s@.subrange(start as int, s.len() as int) =~= body);
    Some(value)
}

/// A digit string's value never decreases as it gets longer.
pub proof fn lemma_digits_value_mono(s: Seq<char>, k: int)
    requires
        0 <= k <= s.len(),
    ensures
        digits_value(s.take(k)) <= digits_value(s),
    decreases s.len(),
{
    if k < s.len() {
        assert(s.drop_last().take(k) =~= s.take(k));
        lemma_digits_value_mono(s.drop_last(), k);
    } else {
        assert(s.take(k) =~= s);
    }
}

/// Reading back a number written in decimal gives the number.
pub proof fn lemma_dec_roundtrip(n: nat)
    ensures
        all_digits(dec(n)),
        digits_value(dec(n)) == n,
    decreases n,
{
    lemma_dec_digits(n);
    if n >= 10 {
        lemma_dec_roundtrip(n / 10);
        lemma_digit_char((n % 10) as nat);
        assert(dec(n).drop_last() =~= dec(n / 10));
        assert(dec(n).last() == digit_char((n % 10) as nat));
        assert(digits_value(dec(n)) == digits_value(dec(n / 10)) * 10 + digit_value(
            digit_char((n % 10) as nat),
        ));
        assert(digits_value(dec(n / 10)) == n / 10);
        assert(digit_value(digit_char((n % 10) as nat)) == n % 10);
        assert(n == (n / 10) * 10 + n % 10);
    } else {
        lemma_digit_char(n);
        assert(dec(n).drop_last() =~= Seq::<char>::empty());
        assert(digits_value(dec(n).drop_last()) == 0);
        assert(digits_value(dec(n)) == digit_value(digit_char(n)));
    }
}

pub proof fn lemma_pad2_roundtrip(n: nat)
    requires
        n <= u64::MAX,
    ensures
        parse_u64(pad2(n)) == Some(n as u64),
        all_digits(pad2(n)),
        pad2(n).len() >= 2,
{
    lemma_dec_roundtrip(n);
    lemma_dec_len(n);
    assert(is_digit(pad2(n)[0]));
    assert(parse_body(pad2(n)) == pad2(n));
    if n < 10 {
        let p = pad2(n);
        lemma_digit_char(n);
        lemma_digit_char(0);
        assert(p.drop_last() =~= seq!['0']);
        assert(p.drop_last().drop_last() =~= Seq::<char>::empty());
        assert(digits_value(p.drop_last().drop_last()) == 0);
        assert(digits_value(p.drop_last()) == 0);
        assert(digits_value(p) == n);
        assert(all_digits(p));
    }
}

// ---------------------------------------------------------------------------
// Searching
// ---------------------------------------------------------------------------

/// Index of the first `c` in `s`, if any (`str::find` with a `char`, counted
/// in characters).
pub open spec fn find_char(s: Seq<char>, c: char) -> Option<int>
    decreases s.len(),
{
    if s.len() == 0 {
        None
    } else if s[0] == c {
        Some(0)
    } else {
        match find_char(s.drop_first(), c) {
            Some(i) => Some(i + 1),
            None => None,
        }
    }
}

pub proof fn lemma_find_char(s: Seq<char>, c: char)
    ensures
        match find_char(s, c) {
            Some(i) => 0 <= i < s.len() && s[i] == c && forall|j: int| 0 <= j < i ==> s[j] != c,
            None => forall|j: int| 0 <= j < s.len() ==> s[j] != c,
        },
    decreases s.len(),
{
    if s.len() > 0 && s[0] != c {
        lemma_find_char(s.drop_first(), c);
        match find_char(s.drop_first(), c) {
            Some(i) => {
                assert forall|j: int| 0 <= j < i + 1 implies s[j] != c by {
                    if j > 0 {
                        assert(s[j] == s.drop_first()[j - 1]);
                    }
                }
            },
            None => {
                assert forall|j: int| 0 <= j < s.len() implies s[j] != c by {
                    if j > 0 {
                        assert(s[j] == s.drop_first()[j - 1]);
                    }
                }
            },
        }
    }
}

/// The converse direction: the first occurrence is what `find_char` returns.
pub proof fn lemma_find_char_at(s: Seq<char>, c: char, i: int)
    requires
        0 <= i < s.len(),
        s[i] == c,
        forall|j: int| 0 <= j < i ==> s[j] != c,
    ensures
        find_char(s, c) == Some(i),
{
    lemma_find_char(s, c);
}

pub proof fn lemma_find_char_none(s: Seq<char>, c: char)
    requires
        forall|j: int| 0 <= j < s.len() ==> s[j] != c,
    ensures
        find_char(s, c) is None,
{
    lemma_find_char(s, c);
}

/// Finds the first `c` in `s`.
pub fn find_char_index(s: &Vec<char>, c: char) -> (res: Option<usize>)
    ensures
        match res {
            Some(i) => find_char(s@, c) == Some(i as int),
            None => find_char(s@, c) is None,
        },
{
    let mut i: usize = 0;
    while i < s.len()
        invariant
            i <= s.len(),
            forall|j: int| 0 <= j < i ==> s@[j] != c,
        decreases s.len() - i,
    {
        if s[i] == c {
            proof {
                lemma_find_char_at(s@, c, i as int);
            }
            return Some(i);
        }
        i += 1;
    }
    proof {
        lemma_find_char_none(s@, c);
    }
    None
}

/// `t` occurs in `s` as a contiguous piece (`str::contains` with a `&str`).
pub open spec fn contains_seq(s: Seq<char>, t: Seq<char>) -> bool {
    exists|i: int| 0 <= i && i + t.len() <= s.len() && #[trigger] s.subrange(i, i + t.len()) == t
}

/// `s` ends with `t` (`str::ends_with`).
pub open spec fn ends_with(s: Seq<char>, t: Seq<char>) -> bool {
    t.len() <= s.len() && s.subrange(s.len() - t.len(), s.len() as int) == t
}

/// Whether `t` occurs in `s` at position `i`.
pub fn matches_at(s: &Vec<char>, t: &Vec<char>, i: usize) -> (res: bool)
    requires
        i + t.len() <= s.len(),
    ensures
        res == (s@.subrange(i as int, i + t.len()) == t@),
{
    let mut k: usize = 0;
    while k < t.len()
        invariant
            i + t.len() <= s.len(),
            k <= t.len(),
            forall|j: int| 0 <= j < k ==> s@[i + j] == t@[j],
        decreases t.len() - k,
    {
        if s[i + k] != t[k] {
            assert(s@.subrange(i as int, i + t.len())[k as int] != t@[k as int]);
            return false;
        }
        k += 1;
    }
    assert(s@.subrange(i as int, i + t.len()) =~= t@);
    true
}

/// Whether `t` occurs anywhere in `s`.
pub fn contains_chars(s: &Vec<char>, t: &Vec<char>) -> (res: bool)
    ensures
        res == contains_seq(s@, t@),
{
    if t.len() > s.len() {
        return false;
    }
    if t.len() == 0 {
        assert(s@.subrange(0, 0int + t@.len()) =~= t@);
        return true;
    }
    let last = s.len() - t.len();
    let mut i: usize = 0;
    while i <= last
        invariant
            0 < t.len() <= s.len(),
            last == s.len() - t.len(),
            i <= last + 1,
            forall|j: int| 0 <= j < i ==> #[trigger] s@.subrange(j, j + t.len()) != t@,
        decreases last + 1 - i,
    {
        if matches_at(s, t, i) {
            return true;
        }
        i += 1;
    }
    false
}

/// Whether `s` ends with `t`.
pub fn ends_with_chars(s: &Vec<char>, t: &Vec<char>) -> (res: bool)
    ensures
        res == ends_with(s@, t@),
{
    if t.len() > s.len() {
        return false;
    }
    matches_at(s, t, s.len() - t.len())
}

} // verus!

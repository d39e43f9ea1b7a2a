//! The decisions behind the file operations: which files a scan or a fix
//! takes, how names are cleaned or given a duration prefix, where a moved
//! file lands, and how files are grouped as duplicates.

use vstd::prelude::*;

use crate::hexcode::hex_lower;
use crate::paths::{
    file_name, file_name_chars, join, join_chars, name_extension, name_stem, split_name,
};
use crate::text::{
    chars_eq, chars_of, contains_chars, contains_seq, dec, ends_with, ends_with_chars, find_char,
    find_char_index, is_digit, lemma_find_char, lemma_find_char_at, lemma_pad2_roundtrip,
    lemma_split_on_nonempty, lowercase, pad2, parse_u64, parse_u64_chars, push_all, slice_chars,
    split_chars, split_lines, split_on, all_digits, digits_value, parse_body,
    string_from_chars, to_lowercase, trim, trim_chars, trim_start, trim_start_chars,
};
use crate::ui::{duration_label, push_duration_label};
use crate::video::{is_video_extension, is_video_path, video_extensions, video_extensions_spec};

verus! {

// ---------------------------------------------------------------------------
// Cleaning special characters out of file names
// ---------------------------------------------------------------------------

/// The characters that a cleaned file name must not hold.
pub open spec fn is_special(c: char) -> bool {
    ||| c == '['
    ||| c == ']'
    ||| c == '&'
    ||| c == '#'
    ||| c == '@'
    ||| c == '!'
    ||| c == '$'
    ||| c == '%'
    ||| c == '^'
    ||| c == '*'
    ||| c == '+'
    ||| c == '='
    ||| c == '{'
    ||| c == '}'
    ||| c == '|'
    ||| c == '\\'
    ||| c == ':'
    ||| c == ';'
    ||| c == '"'
    ||| c == '<'
    ||| c == '>'
    ||| c == ','
    ||| c == '?'
    ||| c == '/'
}

/// What a character becomes: brackets and braces become parentheses, `&`
/// becomes `and`, `"` becomes `'`, the other special characters become `_`,
/// and every other character stays. No replacement holds a special
/// character, so replacing them one kind after another, in any order, comes
/// to this one character-wise map.
pub open spec fn replacement(c: char) -> Seq<char> {
    if c == '[' || c == '{' {
        seq!['(']
    } else if c == ']' || c == '}' {
        seq![')']
    } else if c == '&' {
        seq!['a', 'n', 'd']
    } else if c == '"' {
        seq!['\'']
    } else if is_special(c) {
        seq!['_']
    } else {
        seq![c]
    }
}

/// Every character replaced.
pub open spec fn replace_all(s: Seq<char>) -> Seq<char>
    decreases s.len(),
{
    if s.len() == 0 {
        Seq::empty()
    } else {
        replace_all(s.drop_last()) + replacement(s.last())
    }
}

/// Every run of underscores shortened to one underscore.
pub open spec fn collapse(s: Seq<char>) -> Seq<char>
    decreases s.len(),
{
    if s.len() == 0 {
        Seq::empty()
    } else {
        collapse_step(collapse(s.drop_last()), s.last())
    }
}

/// Appending one character to a collapsed string.
pub open spec fn collapse_step(p: Seq<char>, c: char) -> Seq<char> {
    if c == '_' && p.len() > 0 && p.last() == '_' {
        p
    } else {
        p.push(c)
    }
}

/// `s` without leading underscores.
pub open spec fn strip_start(s: Seq<char>) -> Seq<char>
    decreases s.len(),
{
    if s.len() > 0 && s[0] == '_' {
        strip_start(s.drop_first())
    } else {
        s
    }
}

/// `s` without trailing underscores.
pub open spec fn strip_end(s: Seq<char>) -> Seq<char>
    decreases s.len(),
{
    if s.len() > 0 && s.last() == '_' {
        strip_end(s.drop_last())
    } else {
        s
    }
}

/// A cleaned file name: special characters replaced, runs of underscores
/// shortened to one, and underscores trimmed from both ends.
pub open spec fn clean_name(s: Seq<char>) -> Seq<char> {
    strip_end(strip_start(collapse(replace_all(s))))
}

fn replacement_of(c: char) -> (res: Vec<char>)
    ensures
        res@ == replacement(c),
{
    let mut v: Vec<char> = Vec::new();
    if c == '[' || c == '{' {
        v.push('(');
    } else if c == ']' || c == '}' {
        v.push(')');
    } else if c == '&' {
        v.push('a');
        v.push('n');
        v.push('d');
    } else if c == '"' {
        v.push('\'');
    } else if c == '#' || c == '@' || c == '!' || c == '$' || c == '%' || c == '^' || c == '*'
        || c == '+' || c == '=' || c == '|' || c == '\\' || c == ':' || c == ';' || c == '<' || c
        == '>' || c == ',' || c == '?' || c == '/' {
        v.push('_');
    } else {
        v.push(c);
    }
    assert(v@ =~= replacement(c));
    v
}

/// Cleans a file name of special characters.
pub fn clean_filename(name: &str) -> (res: String)
    ensures
        res@ == clean_name(name@),
{
    let s = chars_of(name);
    let mut out: Vec<char> = Vec::new();
    let mut i: usize = 0;
    while i < s.len()
        invariant
            i <= s.len(),
            out@ == collapse(replace_all(s@.take(i as int))),
        decreases s.len() - i,
    {
        let ghost before = replace_all(s@.take(i as int));
        assert(s@.take(i + 1).drop_last() =~= s@.take(i as int));
        let rep = replacement_of(s[i]);
        let mut j: usize = 0;
        assert(before + rep@.take(0) =~= before);
        while j < rep.len()
            invariant
                j <= rep.len(),
                out@ == collapse(before + rep@.take(j as int)),
            decreases rep.len() - j,
        {
            let c = rep[j];
            assert((before + rep@.take(j + 1)).drop_last() =~= before + rep@.take(j as int));
            if !(c == '_' && out.len() > 0 && out[out.len() - 1] == '_') {
                out.push(c);
            }
            j += 1;
        }
        assert(rep@.take(rep.len() as int) =~= rep@);
        i += 1;
    }
    assert(s@.take(s.len() as int) =~= s@);
    let mut lo: usize = 0;
    assert(out@.skip(0) =~= out@);
    while lo < out.len() && out[lo] == '_'
        invariant
            lo <= out.len(),
            strip_start(out@.skip(lo as int)) == strip_start(out@),
        decreases out.len() - lo,
    {
        assert(out@.skip(lo as int).drop_first() =~= out@.skip(lo + 1));
        lo += 1;
    }
    let mut hi = out.len();
    assert(out@.subrange(lo as int, hi as int) =~= out@.skip(lo as int));
    while hi > lo && out[hi - 1] == '_'
        invariant
            lo <= hi <= out.len(),
            strip_start(out@) == out@.skip(lo as int),
            strip_end(out@.subrange(lo as int, hi as int)) == strip_end(strip_start(out@)),
        decreases hi,
    {
        assert(out@.subrange(lo as int, hi as int).drop_last() =~= out@.subrange(
            lo as int,
            hi - 1,
        ));
        hi -= 1;
    }
    let cleaned = crate::text::slice_chars(&out, lo, hi);
    string_from_chars(&cleaned)
}

// --- the cleaning law ------------------------------------------------------

pub open spec fn no_specials(s: Seq<char>) -> bool {
    forall|i: int| 0 <= i < s.len() ==> !is_special(#[trigger] s[i])
}

pub open spec fn no_double_underscore(s: Seq<char>) -> bool {
    forall|i: int| 0 <= i < s.len() - 1 ==> !(#[trigger] s[i] == '_' && s[i + 1] == '_')
}

proof fn lemma_replace_all_clean(s: Seq<char>)
    ensures
        no_specials(replace_all(s)),
    decreases s.len(),
{
    if s.len() > 0 {
        lemma_replace_all_clean(s.drop_last());
        let p = replace_all(s.drop_last());
        let r = replacement(s.last());
        assert forall|i: int| 0 <= i < p.len() + r.len() implies !is_special(
            #[trigger] (p + r)[i],
        ) by {
            if i >= p.len() {
                assert((p + r)[i] == r[i - p.len()]);
            }
        }
    }
}

proof fn lemma_replace_all_fixed(s: Seq<char>)
    requires
        no_specials(s),
    ensures
        replace_all(s) == s,
    decreases s.len(),
{
    if s.len() > 0 {
        lemma_replace_all_fixed(s.drop_last());
        assert(!is_special(s[s.len() - 1]));
        assert(s.drop_last() + seq![s.last()] =~= s);
    }
}

proof fn lemma_collapse_props(s: Seq<char>)
    requires
        no_specials(s),
    ensures
        no_specials(collapse(s)),
        no_double_underscore(collapse(s)),
    decreases s.len(),
{
    if s.len() > 0 {
        let t = s.drop_last();
        assert forall|i: int| 0 <= i < t.len() implies !is_special(#[trigger] t[i]) by {
            assert(t[i] == s[i]);
        }
        lemma_collapse_props(t);
        let p = collapse(t);
        let c = s.last();
        assert(!is_special(s[s.len() - 1]));
        if !(c == '_' && p.len() > 0 && p.last() == '_') {
            let q = p.push(c);
            assert forall|i: int| 0 <= i < q.len() implies !is_special(#[trigger] q[i]) by {
                if i < p.len() {
                    assert(q[i] == p[i]);
                }
            }
            assert forall|i: int| 0 <= i < q.len() - 1 implies !(#[trigger] q[i] == '_' && q[i
                + 1] == '_') by {
                if i + 1 < p.len() {
                    assert(q[i] == p[i]);
                    assert(q[i + 1] == p[i + 1]);
                }
            }
        }
    }
}

proof fn lemma_collapse_fixed(s: Seq<char>)
    requires
        no_double_underscore(s),
    ensures
        collapse(s) == s,
    decreases s.len(),
{
    if s.len() > 0 {
        let t = s.drop_last();
        assert forall|i: int| 0 <= i < t.len() - 1 implies !(#[trigger] t[i] == '_' && t[i + 1]
            == '_') by {
            assert(t[i] == s[i]);
            assert(t[i + 1] == s[i + 1]);
        }
        lemma_collapse_fixed(t);
        if s.len() >= 2 {
            assert(!(s[s.len() - 2] == '_' && s[s.len() - 1] == '_'));
        }
        assert(t.push(s.last()) =~= s);
    }
}

proof fn lemma_strip_start(s: Seq<char>)
    ensures
        exists|k: int| 0 <= k <= s.len() && strip_start(s) == s.skip(k),
        strip_start(s).len() > 0 ==> strip_start(s)[0] != '_',
    decreases s.len(),
{
    if s.len() > 0 && s[0] == '_' {
        lemma_strip_start(s.drop_first());
        let k = choose|k: int|
            0 <= k <= s.drop_first().len() && strip_start(s.drop_first()) == s.drop_first().skip(k);
        assert(s.drop_first().skip(k) =~= s.skip(k + 1));
    } else {
        assert(s.skip(0) =~= s);
    }
}

proof fn lemma_strip_end(s: Seq<char>)
    ensures
        exists|k: int| 0 <= k <= s.len() && strip_end(s) == s.take(k),
        strip_end(s).len() > 0 ==> strip_end(s).last() != '_',
    decreases s.len(),
{
    if s.len() > 0 && s.last() == '_' {
        lemma_strip_end(s.drop_last());
        let k = choose|k: int|
            0 <= k <= s.drop_last().len() && strip_end(s.drop_last()) == s.drop_last().take(k);
        assert(s.drop_last().take(k) =~= s.take(k));
    } else {
        assert(s.take(s.len() as int) =~= s);
    }
}

/// Law: cleaning a cleaned name changes nothing, so a second pass of the
/// fix finds nothing to rename.
pub proof fn lemma_clean_name_idempotent(s: Seq<char>)
    ensures
        clean_name(clean_name(s)) == clean_name(s),
{
    lemma_replace_all_clean(s);
    let c = collapse(replace_all(s));
    lemma_collapse_props(replace_all(s));
    let a = strip_start(c);
    lemma_strip_start(c);
    let ka = choose|k: int| 0 <= k <= c.len() && a == c.skip(k);
    let t = strip_end(a);
    lemma_strip_end(a);
    let kt = choose|k: int| 0 <= k <= a.len() && t == a.take(k);
    assert(t =~= c.subrange(ka, ka + kt));
    assert forall|i: int| 0 <= i < t.len() implies !is_special(#[trigger] t[i]) by {
        assert(t[i] == c[ka + i]);
    }
    assert forall|i: int| 0 <= i < t.len() - 1 implies !(#[trigger] t[i] == '_' && t[i + 1]
        == '_') by {
        assert(t[i] == c[ka + i]);
        assert(t[i + 1] == c[ka + i + 1]);
    }
    if t.len() > 0 {
        assert(t[0] == a[0]);
    }
    lemma_replace_all_fixed(t);
    lemma_collapse_fixed(t);
    assert(strip_start(t) == t);
    assert(strip_end(t) == t);
}

// --- the replacement table -------------------------------------------------

/// `str::replace` of one character by a string: every occurrence replaced.
pub open spec fn replace_char(s: Seq<char>, old: char, new: Seq<char>) -> Seq<char>
    decreases s.len(),
{
    if s.len() == 0 {
        Seq::empty()
    } else {
        replace_char(s.drop_last(), old, new) + if s.last() == old {
            new
        } else {
            seq![s.last()]
        }
    }
}

/// The replacements, in the order in which the fix applies them.
pub open spec fn replacement_table() -> Seq<(char, Seq<char>)> {
    seq![
        ('[', seq!['(']),
        (']', seq![')']),
        ('&', seq!['a', 'n', 'd']),
        ('#', seq!['_']),
        ('@', seq!['_']),
        ('!', seq!['_']),
        ('$', seq!['_']),
        ('%', seq!['_']),
        ('^', seq!['_']),
        ('*', seq!['_']),
        ('+', seq!['_']),
        ('=', seq!['_']),
        ('{', seq!['(']),
        ('}', seq![')']),
        ('|', seq!['_']),
        ('\\', seq!['_']),
        (':', seq!['_']),
        (';', seq!['_']),
        ('"', seq!['\'']),
        ('<', seq!['_']),
        ('>', seq!['_']),
        (',', seq!['_']),
        ('?', seq!['_']),
        ('/', seq!['_']),
    ]
}

/// The replacements of a table applied one after another.
pub open spec fn replace_in_order(s: Seq<char>, t: Seq<(char, Seq<char>)>) -> Seq<char>
    decreases t.len(),
{
    if t.len() == 0 {
        s
    } else {
        replace_in_order(replace_char(s, t[0].0, t[0].1), t.drop_first())
    }
}

/// What a table does to one character, the first entry for it deciding.
spec fn table_map(t: Seq<(char, Seq<char>)>, c: char) -> Seq<char>
    decreases t.len(),
{
    if t.len() == 0 {
        seq![c]
    } else if c == t[0].0 {
        t[0].1
    } else {
        table_map(t.drop_first(), c)
    }
}

/// Every character mapped through a table.
spec fn table_flat(s: Seq<char>, t: Seq<(char, Seq<char>)>) -> Seq<char>
    decreases s.len(),
{
    if s.len() == 0 {
        Seq::empty()
    } else {
        table_flat(s.drop_last(), t) + table_map(t, s.last())
    }
}

/// No replacement of a table holds a character that the table replaces.
spec fn table_closed(t: Seq<(char, Seq<char>)>) -> bool {
    forall|k: int, j: int, i: int|
        0 <= k < t.len() && 0 <= j < t.len() && 0 <= i < t[k].1.len() ==> #[trigger] t[k].1[i]
            != #[trigger] t[j].0
}

proof fn lemma_table_flat_concat(x: Seq<char>, y: Seq<char>, t: Seq<(char, Seq<char>)>)
    ensures
        table_flat(x + y, t) == table_flat(x, t) + table_flat(y, t),
    decreases y.len(),
{
    if y.len() == 0 {
        assert(x + y =~= x);
        assert(table_flat(x, t) + table_flat(y, t) =~= table_flat(x, t));
    } else {
        lemma_table_flat_concat(x, y.drop_last(), t);
        assert((x + y).drop_last() =~= x + y.drop_last());
        assert((x + y).last() == y.last());
        assert(table_flat(x + y, t) =~= table_flat(x, t) + table_flat(y, t));
    }
}

proof fn lemma_table_flat_fixed(n: Seq<char>, t: Seq<(char, Seq<char>)>)
    requires
        forall|i: int, j: int| 0 <= i < n.len() && 0 <= j < t.len() ==> n[i] != t[j].0,
    ensures
        table_flat(n, t) == n,
    decreases n.len(),
{
    if n.len() > 0 {
        lemma_table_flat_fixed(n.drop_last(), t);
        lemma_table_map_fixed(t, n.last());
        assert(n.drop_last() + seq![n.last()] =~= n);
    }
}

proof fn lemma_table_map_fixed(t: Seq<(char, Seq<char>)>, c: char)
    requires
        forall|j: int| 0 <= j < t.len() ==> c != t[j].0,
    ensures
        table_map(t, c) == seq![c],
    decreases t.len(),
{
    if t.len() > 0 {
        assert(c != t[0].0);
        assert forall|j: int| 0 <= j < t.drop_first().len() implies c != t.drop_first()[j].0 by {
            assert(t.drop_first()[j] == t[j + 1]);
        }
        lemma_table_map_fixed(t.drop_first(), c);
    }
}

/// Replacing one entry first, then mapping by the rest, maps by the whole.
proof fn lemma_replace_then_flat(s: Seq<char>, t: Seq<(char, Seq<char>)>)
    requires
        t.len() > 0,
        table_closed(t),
    ensures
        table_flat(replace_char(s, t[0].0, t[0].1), t.drop_first()) == table_flat(s, t),
    decreases s.len(),
{
    let r = t.drop_first();
    if s.len() > 0 {
        let u = s.drop_last();
        let c = s.last();
        lemma_replace_then_flat(u, t);
        let m = if c == t[0].0 {
            t[0].1
        } else {
            seq![c]
        };
        lemma_table_flat_concat(replace_char(u, t[0].0, t[0].1), m, r);
        if c == t[0].0 {
            assert forall|i: int, j: int| 0 <= i < m.len() && 0 <= j < r.len() implies m[i]
                != r[j].0 by {
                assert(r[j] == t[j + 1]);
                assert(t[0].1[i] != t[j + 1].0);
            }
            lemma_table_flat_fixed(m, r);
        } else {
            assert(m.drop_last() =~= Seq::<char>::empty());
            assert(table_flat(m.drop_last(), r) =~= Seq::<char>::empty());
            assert(table_flat(m, r) == table_flat(m.drop_last(), r) + table_map(r, c));
            assert(table_flat(m, r) =~= table_map(r, c));
        }
    } else {
        assert(replace_char(s, t[0].0, t[0].1) =~= Seq::<char>::empty());
    }
}

proof fn lemma_replace_in_order_flat(s: Seq<char>, t: Seq<(char, Seq<char>)>)
    requires
        table_closed(t),
    ensures
        replace_in_order(s, t) == table_flat(s, t),
    decreases t.len(),
{
    if t.len() == 0 {
        lemma_table_map_fixed(t, ' ');
        lemma_flat_empty_table(s, t);
    } else {
        let r = t.drop_first();
        assert forall|k: int, j: int, i: int|
            0 <= k < r.len() && 0 <= j < r.len() && 0 <= i < r[k].1.len() implies #[trigger] r[k].1[i]
            != #[trigger] r[j].0 by {
            assert(r[k] == t[k + 1] && r[j] == t[j + 1]);
        }
        lemma_replace_in_order_flat(replace_char(s, t[0].0, t[0].1), r);
        lemma_replace_then_flat(s, t);
    }
}

proof fn lemma_flat_empty_table(s: Seq<char>, t: Seq<(char, Seq<char>)>)
    requires
        t.len() == 0,
    ensures
        table_flat(s, t) == s,
    decreases s.len(),
{
    if s.len() > 0 {
        lemma_flat_empty_table(s.drop_last(), t);
        assert(s.drop_last() + seq![s.last()] =~= s);
    }
}

proof fn lemma_table_map_is_replacement(c: char)
    ensures
        table_map(replacement_table(), c) == replacement(c),
{
    reveal_with_fuel(table_map, 25);
}

proof fn lemma_table_flat_is_replace_all(s: Seq<char>)
    ensures
        table_flat(s, replacement_table()) == replace_all(s),
    decreases s.len(),
{
    if s.len() > 0 {
        lemma_table_flat_is_replace_all(s.drop_last());
        lemma_table_map_is_replacement(s.last());
    }
}

/// Replacing the special characters kind by kind, in the order of the
/// table, is the character-wise `replace_all` that `clean_name` uses.
pub proof fn lemma_replacements_in_order(s: Seq<char>)
    ensures
        replace_in_order(s, replacement_table()) == replace_all(s),
{
    let t = replacement_table();
    assert(table_closed(t)) by {
        assert forall|k: int, j: int, i: int|
            0 <= k < t.len() && 0 <= j < t.len() && 0 <= i < t[k].1.len() implies #[trigger] t[k].1[i]
            != #[trigger] t[j].0 by {
            assert(t[k].1[i] == '(' || t[k].1[i] == ')' || t[k].1[i] == 'a' || t[k].1[i] == 'n'
                || t[k].1[i] == 'd' || t[k].1[i] == '_' || t[k].1[i] == '\'');
            assert(is_special(t[j].0));
        }
    }
    lemma_replace_in_order_flat(s, t);
    lemma_table_flat_is_replace_all(s);
}

// ---------------------------------------------------------------------------
// The name a fix gives a file
// ---------------------------------------------------------------------------

/// The new name that the special-character fix gives the file `name` at
/// `path`: its cleaned name, when the fix looks at the file and cleaning
/// changes the name.
pub open spec fn special_fix(path: Seq<char>, name: Seq<char>) -> Option<Seq<char>> {
    if is_fix_path(path) && clean_name(name) != name {
        Some(clean_name(name))
    } else {
        None
    }
}

/// The new name for the file `name` at `path`, or `None` when the fix
/// leaves it alone.
pub fn special_fix_name(path: &str, name: &str) -> (res: Option<String>)
    ensures
        match res {
            Some(n) => special_fix(path@, name@) == Some(n@),
            None => special_fix(path@, name@) is None,
        },
{
    if !is_fix_candidate(path) {
        return None;
    }
    let cleaned = clean_filename(name);
    let c = chars_of(cleaned.as_str());
    let n = chars_of(name);
    if chars_eq(&c, &n) {
        None
    } else {
        Some(cleaned)
    }
}

// ---------------------------------------------------------------------------
// Which files a scan or a fix takes
// ---------------------------------------------------------------------------

/// One of the organised folders that a scan leaves alone, as a lowercased
/// folder name: exactly `good`, `fine` or `dupes`.
pub open spec fn is_organised_name(seg: Seq<char>) -> bool {
    ||| seg == "good"@
    ||| seg == "fine"@
    ||| seg == "dupes"@
}

/// Whether a path lies inside an organised folder: one of its folder
/// components (every `/`-separated piece of the lowercased path but the
/// last, which is the file name) is an organised folder name.
pub open spec fn in_organised_folder(path: Seq<char>) -> bool {
    let segs = split_on(lowercase(path), '/');
    exists|i: int| 0 <= i < segs.len() - 1 && is_organised_name(#[trigger] segs[i])
}

/// A path that a scan takes: it is not inside a `Good`, `Fine` or `Dupes`
/// folder (in any case), and it names a video.
pub open spec fn is_scan_path(path: Seq<char>) -> bool {
    &&& !in_organised_folder(path)
    &&& is_video_path(path)
}

/// Whether a scan takes the file at `path`.
pub fn is_scan_candidate(path: &str) -> (res: bool)
    ensures
        res == is_scan_path(path@),
{
    let lower = to_lowercase(path);
    let l = chars_of(lower.as_str());
    let segs = split_chars(&l, '/');
    let good = chars_of("good");
    let fine = chars_of("fine");
    let dupes = chars_of("dupes");
    let ghost sp = split_on(l@, '/');
    proof {
        lemma_split_on_nonempty(l@, '/');
    }
    let mut i: usize = 0;
    while i + 1 < segs.len()
        invariant
            l@ == lowercase(path@),
            sp == split_on(l@, '/'),
            segs.len() == sp.len(),
            segs.len() >= 1,
            forall|k: int| 0 <= k < segs.len() ==> #[trigger] segs@[k]@ == sp[k],
            good@ == "good"@,
            fine@ == "fine"@,
            dupes@ == "dupes"@,
            i < segs.len(),
            forall|k: int| 0 <= k < i ==> !is_organised_name(#[trigger] sp[k]),
        decreases segs.len() - i,
    {
        if chars_eq(&segs[i], &good) || chars_eq(&segs[i], &fine) || chars_eq(&segs[i], &dupes) {
            assert(segs@[i as int]@ == sp[i as int]);
            assert(is_organised_name(sp[i as int]));
            return false;
        }
        i += 1;
    }
    assert(!in_organised_folder(path@)) by {
        assert forall|k: int| 0 <= k < sp.len() - 1 implies !is_organised_name(#[trigger] sp[k]) by {}
    }
    is_video_extension(path)
}

/// A path whose name the special-character fix looks at: its lowercased
/// form ends with a video extension (as plain text, dot or no dot), and it
/// is not inside a `good`, `fine` or `dupes` folder.
pub open spec fn is_fix_path(path: Seq<char>) -> bool {
    let lower = lowercase(path);
    &&& exists|i: int|
        0 <= i < video_extensions_spec().len() && ends_with(
            lower,
            #[trigger] video_extensions_spec()[i],
        )
    &&& !contains_seq(lower, "/good/"@)
    &&& !contains_seq(lower, "/fine/"@)
    &&& !contains_seq(lower, "/dupes/"@)
}

/// Whether the special-character fix looks at the file at `path`.
pub fn is_fix_candidate(path: &str) -> (res: bool)
    ensures
        res == is_fix_path(path@),
{
    let lower = to_lowercase(path);
    let l = chars_of(lower.as_str());
    let exts = video_extensions();
    let mut any = false;
    let mut i: usize = 0;
    while i < exts.len()
        invariant
            i <= exts.len(),
            exts.len() == video_extensions_spec().len(),
            forall|k: int| 0 <= k < exts.len() ==> #[trigger] exts@[k]@ == video_extensions_spec()[k],
            l@ == lowercase(path@),
            any == exists|k: int|
                0 <= k < i && ends_with(l@, #[trigger] video_extensions_spec()[k]),
        decreases exts.len() - i,
    {
        if ends_with_chars(&l, &exts[i]) {
            any = true;
        }
        i += 1;
    }
    if !any {
        return false;
    }
    !(contains_chars(&l, &chars_of("/good/")) || contains_chars(&l, &chars_of("/fine/"))
        || contains_chars(&l, &chars_of("/dupes/")))
}

/// Law: the special-character fix never touches a file inside a `Good`,
/// `Fine` or `Dupes` folder (in any case): such a path is no candidate, and
/// its file gets no new name.
pub proof fn lemma_organised_folders_not_fixed(path: Seq<char>, name: Seq<char>)
    requires
        contains_seq(lowercase(path), "/good/"@) || contains_seq(lowercase(path), "/fine/"@)
            || contains_seq(lowercase(path), "/dupes/"@),
    ensures
        !is_fix_path(path),
        special_fix(path, name) is None,
{
}

/// Law: a file outside those folders whose lowercased path ends with one of
/// the video extensions is a candidate, and when cleaning changes its name
/// it is renamed to the cleaned name.
pub proof fn lemma_fix_renames_videos(path: Seq<char>, name: Seq<char>, i: int)
    requires
        0 <= i < video_extensions_spec().len(),
        ends_with(lowercase(path), video_extensions_spec()[i]),
        !contains_seq(lowercase(path), "/good/"@),
        !contains_seq(lowercase(path), "/fine/"@),
        !contains_seq(lowercase(path), "/dupes/"@),
        clean_name(name) != name,
    ensures
        is_fix_path(path),
        special_fix(path, name) == Some(clean_name(name)),
{
}

// ---------------------------------------------------------------------------
// Finder tags
// ---------------------------------------------------------------------------

/// The lines of a text as `str::lines` gives them: the pieces between
/// newlines, without the empty piece after a final newline.
pub open spec fn text_lines(s: Seq<char>) -> Seq<Seq<char>> {
    let p = split_lines(s);
    if p.last().len() == 0 {
        p.drop_last()
    } else {
        p
    }
}

/// The tags that the `tag --list` output names: each of its lines, trimmed.
pub fn tag_lines(text: &str) -> (res: Vec<String>)
    ensures
        res.len() == text_lines(text@).len(),
        forall|i: int| 0 <= i < res.len() ==> #[trigger] res@[i]@ == trim(text_lines(text@)[i]),
{
    let chars = chars_of(text);
    let pieces = split_chars(&chars, '\n');
    proof {
        crate::text::lemma_split_on_nonempty(text@, '\n');
    }
    let n = if pieces[pieces.len() - 1].len() == 0 {
        pieces.len() - 1
    } else {
        pieces.len()
    };
    let mut res: Vec<String> = Vec::new();
    let mut i: usize = 0;
    while i < n
        invariant
            n <= pieces.len(),
            pieces.len() == split_lines(text@).len(),
            forall|k: int| 0 <= k < pieces.len() ==> #[trigger] pieces@[k]@ == split_lines(text@)[k],
            n == text_lines(text@).len(),
            i <= n,
            res.len() == i,
            forall|k: int| 0 <= k < i ==> #[trigger] res@[k]@ == trim(text_lines(text@)[k]),
        decreases n - i,
    {
        let t = trim_chars(&pieces[i]);
        res.push(string_from_chars(&t));
        i += 1;
    }
    res
}

// ---------------------------------------------------------------------------
// Which copies of a duplicate move
// ---------------------------------------------------------------------------

/// A path and when its file was last modified, as nanoseconds from the Unix
/// epoch (`None` when that is not known).
pub struct DatedPath {
    pub path: String,
    pub modified: Option<i128>,
}

/// `a` is newer than `b`; an unknown time is older than any known one.
pub open spec fn newer(a: Option<i128>, b: Option<i128>) -> bool {
    match (a, b) {
        (Some(x), Some(y)) => x > y,
        (Some(_), None) => true,
        _ => false,
    }
}

/// Where `e` goes in a list kept newest first: after every entry that is
/// not older than it.
pub open spec fn insert_pos(sorted: Seq<DatedPath>, e: DatedPath) -> nat
    decreases sorted.len(),
{
    if sorted.len() == 0 {
        0
    } else if newer(e.modified, sorted[0].modified) {
        0
    } else {
        1 + insert_pos(sorted.drop_first(), e)
    }
}

/// The entries newest first; entries of the same age keep their order (a
/// stable sort on modification time, descending).
pub open spec fn newest_first(s: Seq<DatedPath>) -> Seq<DatedPath>
    decreases s.len(),
{
    if s.len() == 0 {
        Seq::empty()
    } else {
        let t = newest_first(s.drop_last());
        t.insert(insert_pos(t, s.last()) as int, s.last())
    }
}

proof fn lemma_insert_pos_bound(sorted: Seq<DatedPath>, e: DatedPath)
    ensures
        insert_pos(sorted, e) <= sorted.len(),
        insert_pos(sorted, e) > 0 ==> !newer(e.modified, sorted[0].modified),
    decreases sorted.len(),
{
    if sorted.len() > 0 && !newer(e.modified, sorted[0].modified) {
        lemma_insert_pos_bound(sorted.drop_first(), e);
    }
}

proof fn lemma_newer_transitive(a: Option<i128>, b: Option<i128>, c: Option<i128>)
    requires
        newer(a, b),
        newer(b, c),
    ensures
        newer(a, c),
{
}

/// Law: the copy that stays (the first of `newest_first`) is one of the
/// group and no entry of the group is newer than it; the order holds every
/// entry once.
#[verifier::rlimit(30)]
pub proof fn lemma_newest_stays(s: Seq<DatedPath>)
    ensures
        newest_first(s).len() == s.len(),
        s.len() > 0 ==> forall|i: int|
            0 <= i < s.len() ==> !newer(#[trigger] s[i].modified, newest_first(s)[0].modified),
        s.len() > 0 ==> exists|i: int| 0 <= i < s.len() && s[i] == newest_first(s)[0],
    decreases s.len(),
{
    if s.len() > 0 {
        let u = s.drop_last();
        let e = s.last();
        lemma_newest_stays(u);
        let t = newest_first(u);
        lemma_insert_pos_bound(t, e);
        let r = newest_first(s);
        assert(r == t.insert(insert_pos(t, e) as int, e));
        if insert_pos(t, e) == 0 {
            assert(r[0] == e);
            if t.len() > 0 {
                assert(newer(e.modified, t[0].modified));
                assert forall|i: int| 0 <= i < s.len() implies !newer(
                    #[trigger] s[i].modified,
                    r[0].modified,
                ) by {
                    if i < u.len() {
                        assert(s[i] == u[i]);
                        assert(!newer(u[i].modified, t[0].modified));
                        if newer(u[i].modified, e.modified) {
                            lemma_newer_transitive(u[i].modified, e.modified, t[0].modified);
                        }
                    }
                }
            }
            assert(s[s.len() - 1] == r[0]);
        } else {
            assert(r[0] == t[0]);
            assert forall|i: int| 0 <= i < s.len() implies !newer(
                #[trigger] s[i].modified,
                r[0].modified,
            ) by {
                if i < u.len() {
                    assert(s[i] == u[i]);
                }
            }
            let w = choose|w: int| 0 <= w < u.len() && u[w] == t[0];
            assert(s[w] == r[0]);
        }
    }
}

/// The paths to move out of a group of identical files: all but the first
/// once the group is ordered newest first, in that order. The newest copy
/// stays (`lemma_newest_stays`).
pub fn duplicates_to_move(group: &[DatedPath]) -> (res: Vec<String>)
    ensures
        group@.len() == 0 ==> res.len() == 0,
        group@.len() > 0 ==> res.len() == group@.len() - 1 && forall|i: int|
            0 <= i < res.len() ==> #[trigger] res@[i] == newest_first(group@)[i + 1].path,
{
    let mut sorted: Vec<DatedPath> = Vec::new();
    let mut i: usize = 0;
    while i < group.len()
        invariant
            i <= group.len(),
            sorted@ == newest_first(group@.take(i as int)),
        decreases group.len() - i,
    {
        let e = DatedPath { path: group[i].path.clone(), modified: group[i].modified };
        assert(e == group@[i as int]);
        let mut p: usize = 0;
        proof {
            assert(sorted@.skip(0) =~= sorted@);
            lemma_newest_stays(group@.take(i as int));
        }
        while p < sorted.len() && !newer_exec(e.modified, sorted[p].modified)
            invariant
                p <= sorted.len(),
                insert_pos(sorted@, e) == p + insert_pos(sorted@.skip(p as int), e),
            decreases sorted.len() - p,
        {
            assert(sorted@.skip(p as int).drop_first() =~= sorted@.skip(p + 1));
            p += 1;
        }
        assert(insert_pos(sorted@, e) == p);
        let ghost before = sorted@;
        sorted.insert(p, e);
        proof {
            let pre = group@.take(i + 1);
            assert(pre.drop_last() =~= group@.take(i as int));
            assert(pre.last() == group@[i as int]);
        }
        i += 1;
    }
    assert(group@.take(group.len() as int) =~= group@);
    proof {
        lemma_newest_stays(group@);
    }
    let mut res: Vec<String> = Vec::new();
    let mut k: usize = 1;
    while k < sorted.len()
        invariant
            1 <= k,
            sorted.len() > 0 ==> k <= sorted.len(),
            sorted.len() == 0 ==> k == 1,
            sorted@ == newest_first(group@),
            res.len() == k - 1,
            forall|j: int| 0 <= j < res.len() ==> #[trigger] res@[j] == sorted@[j + 1].path,
        decreases sorted.len() - k,
    {
        res.push(sorted[k].path.clone());
        k += 1;
    }
    res
}

fn newer_exec(a: Option<i128>, b: Option<i128>) -> (res: bool)
    ensures
        res == newer(a, b),
{
    match (a, b) {
        (Some(x), Some(y)) => x > y,
        (Some(_), None) => true,
        _ => false,
    }
}

// ---------------------------------------------------------------------------
// Duplicates
// ---------------------------------------------------------------------------

/// A file and the hash of its content, as the duplicate search sees it.
pub struct HashedFile {
    pub path: String,
    pub hash: [u8; 16],
}

/// The all-zero hash marks a file that was not hashed.
pub open spec fn is_zero_hash(h: [u8; 16]) -> bool {
    forall|i: int| 0 <= i < 16 ==> h[i] == 0
}

/// The paths of the files with hash `h`, in order.
pub open spec fn paths_with(files: Seq<HashedFile>, h: [u8; 16]) -> Seq<Seq<char>>
    decreases files.len(),
{
    if files.len() == 0 {
        Seq::empty()
    } else {
        let p = paths_with(files.drop_last(), h);
        if files.last().hash == h {
            p.push(files.last().path@)
        } else {
            p
        }
    }
}

/// A hash shared by two or more files (the zero hash aside).
pub open spec fn is_duplicate_hash(files: Seq<HashedFile>, h: [u8; 16]) -> bool {
    !is_zero_hash(h) && paths_with(files, h).len() >= 2
}

/// The position of the first file with hash `h`.
pub open spec fn first_with(files: Seq<HashedFile>, h: [u8; 16]) -> int {
    choose|k: int|
        0 <= k < files.len() && files[k].hash == h && forall|j: int|
            0 <= j < k ==> files[j].hash != h
}

/// Group `g` comes before group `h` in the result: it is larger, or as
/// large and its first file comes earlier.
pub open spec fn ranks_before(files: Seq<HashedFile>, g: [u8; 16], h: [u8; 16]) -> bool {
    ||| paths_with(files, g).len() > paths_with(files, h).len()
    ||| (paths_with(files, g).len() == paths_with(files, h).len() && first_with(files, g)
        < first_with(files, h))
}

/// The text of each string.
pub open spec fn strings_view(v: Seq<String>) -> Seq<Seq<char>> {
    v.map_values(|s: String| s@)
}

struct Group {
    hash: [u8; 16],
    paths: Vec<String>,
    first: usize,
}

proof fn lemma_paths_with_occurs(files: Seq<HashedFile>, h: [u8; 16])
    ensures
        paths_with(files, h).len() > 0 <==> exists|j: int| 0 <= j < files.len() && files[j].hash
            == h,
        paths_with(files, h).len() <= files.len(),
    decreases files.len(),
{
    if files.len() > 0 {
        let t = files.drop_last();
        lemma_paths_with_occurs(t, h);
        if exists|j: int| 0 <= j < t.len() && t[j].hash == h {
            let j = choose|j: int| 0 <= j < t.len() && t[j].hash == h;
            assert(files[j].hash == h);
        }
        if exists|j: int| 0 <= j < files.len() && files[j].hash == h {
            let j = choose|j: int| 0 <= j < files.len() && files[j].hash == h;
            if j < t.len() {
                assert(t[j].hash == h);
            }
        }
    }
}

proof fn lemma_first_with(files: Seq<HashedFile>, h: [u8; 16], k: int)
    requires
        0 <= k < files.len(),
        files[k].hash == h,
        forall|j: int| 0 <= j < k ==> files[j].hash != h,
    ensures
        first_with(files, h) == k,
{
    let c = first_with(files, h);
    assert(0 <= c < files.len() && files[c].hash == h && forall|j: int|
        0 <= j < c ==> files[j].hash != h);
    if c < k {
        assert(files[c].hash != h);
    }
    if k < c {
        assert(files[k].hash != h);
    }
}

proof fn lemma_paths_with_prefix(files: Seq<HashedFile>, i: int, h: [u8; 16])
    requires
        0 <= i < files.len(),
    ensures
        paths_with(files.take(i + 1), h) == (if files[i].hash == h {
            paths_with(files.take(i), h).push(files[i].path@)
        } else {
            paths_with(files.take(i), h)
        }),
{
    assert(files.take(i + 1).drop_last() =~= files.take(i));
}

/// The groups of files that share a hash, in order of first occurrence.
fn group_by_hash(files: &[HashedFile]) -> (groups: Vec<Group>)
    ensures
        forall|g: int|
            0 <= g < groups.len() ==> {
                let gr = #[trigger] groups@[g];
                &&& !is_zero_hash(gr.hash)
                &&& strings_view(gr.paths@) == paths_with(files@, gr.hash)
                &&& gr.first < files@.len()
                &&& files@[gr.first as int].hash == gr.hash
                &&& forall|j: int| 0 <= j < gr.first ==> files@[j].hash != gr.hash
            },
        forall|g1: int, g2: int|
            0 <= g1 < g2 < groups.len() ==> #[trigger] groups@[g1].hash != #[trigger] groups@[g2].hash,
        forall|h: [u8; 16]|
            !is_zero_hash(h) && #[trigger] paths_with(files@, h).len() > 0 ==> exists|g: int|
                0 <= g < groups.len() && groups@[g].hash == h,
{
    let mut groups: Vec<Group> = Vec::new();
    let mut i: usize = 0;
    while i < files.len()
        invariant
            i <= files.len(),
            forall|g: int|
                0 <= g < groups.len() ==> {
                    let gr = #[trigger] groups@[g];
                    &&& !is_zero_hash(gr.hash)
                    &&& strings_view(gr.paths@) == paths_with(files@.take(i as int), gr.hash)
                    &&& gr.first < i
                    &&& files@[gr.first as int].hash == gr.hash
                    &&& forall|j: int| 0 <= j < gr.first ==> files@[j].hash != gr.hash
                },
            forall|g1: int, g2: int|
                0 <= g1 < g2 < groups.len() ==> #[trigger] groups@[g1].hash
                    != #[trigger] groups@[g2].hash,
            forall|h: [u8; 16]|
                !is_zero_hash(h) && #[trigger] paths_with(files@.take(i as int), h).len() > 0
                    ==> exists|g: int| 0 <= g < groups.len() && groups@[g].hash == h,
        decreases files.len() - i,
    {
        let f = &files[i];
        let fh = f.hash;
        let mut zero = true;
        let mut b: usize = 0;
        while b < 16
            invariant
                b <= 16,
                zero == forall|k: int| 0 <= k < b ==> fh[k] == 0,
            decreases 16 - b,
        {
            if fh[b] != 0 {
                zero = false;
            }
            b += 1;
        }
        let ghost pre = files@.take(i as int);
        let ghost post = files@.take(i + 1);
        proof {
            assert forall|h: [u8; 16]| #[trigger] paths_with(post, h) == (if fh == h {
                paths_with(pre, h).push(f.path@)
            } else {
                paths_with(pre, h)
            }) by {
                lemma_paths_with_prefix(files@, i as int, h);
            }
        }
        if !zero {
            let fk = crate::cache::key_of(&fh);
            let mut g: usize = 0;
            let mut found = false;
            while g < groups.len()
                invariant_except_break
                    g <= groups.len(),
                    !found,
                    fk == crate::cache::hash_key(fh),
                    forall|k: int| 0 <= k < g ==> #[trigger] groups@[k].hash != fh,
                ensures
                    found ==> g < groups.len() && groups@[g as int].hash == fh,
                    !found ==> forall|k: int| 0 <= k < groups.len() ==> #[trigger] groups@[k].hash
                        != fh,
                decreases groups.len() - g,
            {
                let gk = crate::cache::key_of(&groups[g].hash);
                if gk == fk {
                    proof {
                        crate::cache::lemma_hash_key_injective(groups@[g as int].hash, fh);
                    }
                    found = true;
                    break;
                }
                proof {
                    if groups@[g as int].hash == fh {
                        assert(gk == fk);
                    }
                }
                g += 1;
            }
            if found {
                let ghost old_groups = groups@;
                let mut gr = groups.remove(g);
                gr.paths.push(f.path.clone());
                assert(strings_view(gr.paths@) =~= strings_view(old_groups[g as int].paths@).push(
                    f.path@,
                ));
                let ghost new_gr = gr;
                groups.insert(g, gr);
                assert(groups@ =~= old_groups.update(g as int, new_gr));
                proof {
                    assert forall|h: [u8; 16]|
                        !is_zero_hash(h) && #[trigger] paths_with(post, h).len() > 0 implies exists|
                        gg: int,
                    | 0 <= gg < groups.len() && groups@[gg].hash == h by {
                        if h == fh {
                            assert(groups@[g as int].hash == h);
                        } else {
                            assert(paths_with(pre, h).len() > 0);
                            let gg = choose|gg: int|
                                0 <= gg < old_groups.len() && old_groups[gg].hash == h;
                            assert(groups@[gg].hash == h);
                        }
                    }
                }
            } else {
                let mut paths: Vec<String> = Vec::new();
                paths.push(f.path.clone());
                proof {
                    lemma_paths_with_occurs(pre, fh);
                    assert(paths_with(pre, fh).len() == 0) by {
                        if paths_with(pre, fh).len() > 0 {
                            let gg = choose|gg: int| 0 <= gg < groups.len() && groups@[gg].hash == fh;
                            assert(groups@[gg].hash != fh);
                        }
                    }
                    assert forall|j: int| 0 <= j < i implies files@[j].hash != fh by {
                        if files@[j].hash == fh {
                            assert(pre[j].hash == fh);
                        }
                    }
                    assert(strings_view(paths@) =~= seq![f.path@]);
                    assert(paths_with(pre, fh) =~= Seq::<Seq<char>>::empty());
                    assert(!is_zero_hash(fh)) by {
                        if is_zero_hash(fh) {
                            assert(forall|k: int| 0 <= k < 16 ==> fh[k] == 0);
                        }
                    }
                }
                let ghost old_groups = groups@;
                groups.push(Group { hash: fh, paths, first: i });
                proof {
                    assert forall|h: [u8; 16]|
                        !is_zero_hash(h) && #[trigger] paths_with(post, h).len() > 0 implies exists|
                        gg: int,
                    | 0 <= gg < groups.len() && groups@[gg].hash == h by {
                        if h == fh {
                            assert(groups@[groups.len() - 1].hash == h);
                        } else {
                            assert(paths_with(pre, h).len() > 0);
                            let gg = choose|gg: int|
                                0 <= gg < old_groups.len() && old_groups[gg].hash == h;
                            assert(groups@[gg].hash == h);
                        }
                    }
                }
            }
        } else {
            proof {
                assert(is_zero_hash(fh));
                assert forall|h: [u8; 16]|
                    !is_zero_hash(h) && #[trigger] paths_with(post, h).len() > 0 implies exists|
                    gg: int,
                | 0 <= gg < groups.len() && groups@[gg].hash == h by {
                    assert(h != fh);
                    assert(paths_with(pre, h).len() > 0);
                }
            }
        }
        i += 1;
    }
    assert(files@.take(files.len() as int) =~= files@);
    groups
}

/// A valid group: its hash, the paths of its files, and its first file.
spec fn group_ok(files: Seq<HashedFile>, gr: Group) -> bool {
    &&& !is_zero_hash(gr.hash)
    &&& strings_view(gr.paths@) == paths_with(files, gr.hash)
    &&& gr.first < files.len()
    &&& files[gr.first as int].hash == gr.hash
    &&& forall|j: int| 0 <= j < gr.first ==> files[j].hash != gr.hash
}

/// Whether group `a` comes before group `b`.
fn ranks_before_exec(Ghost(files): Ghost<Seq<HashedFile>>, a: &Group, b: &Group) -> (res: bool)
    requires
        group_ok(files, *a),
        group_ok(files, *b),
    ensures
        res == ranks_before(files, a.hash, b.hash),
{
    proof {
        lemma_first_with(files, a.hash, a.first as int);
        lemma_first_with(files, b.hash, b.first as int);
        assert(strings_view(a.paths@).len() == a.paths@.len());
        assert(strings_view(b.paths@).len() == b.paths@.len());
    }
    a.paths.len() > b.paths.len() || (a.paths.len() == b.paths.len() && a.first < b.first)
}

/// Groups the files by hash, keeps the hashes that two or more files share
/// (a zero hash means "not hashed" and is left out), and lists each as its
/// hash in lowercase hex with the paths of its files in their input order.
/// Larger groups come first; groups of equal size keep the order in which
/// their first files appear.
pub fn find_duplicates(files: &[HashedFile]) -> (res: Vec<(String, Vec<String>)>)
    ensures
        exists|hs: Seq<[u8; 16]>|
            {
                &&& hs.len() == res.len()
                &&& forall|i: int|
                    0 <= i < res.len() ==> {
                        &&& #[trigger] is_duplicate_hash(files@, hs[i])
                        &&& res@[i].0@ == hex_lower(hs[i]@)
                        &&& strings_view(res@[i].1@) == paths_with(files@, hs[i])
                    }
                &&& forall|h: [u8; 16]| #[trigger] is_duplicate_hash(files@, h) ==> hs.contains(h)
                &&& forall|i: int, j: int|
                    0 <= i < j < res.len() ==> ranks_before(files@, hs[i], hs[j])
            },
{
    let ghost fv = files@;
    let mut groups = group_by_hash(files);
    let mut sorted: Vec<Group> = Vec::new();
    while groups.len() > 0
        invariant
            forall|g: int| 0 <= g < groups.len() ==> group_ok(fv, #[trigger] groups@[g]),
            forall|g1: int, g2: int|
                0 <= g1 < g2 < groups.len() ==> #[trigger] groups@[g1].hash
                    != #[trigger] groups@[g2].hash,
            forall|k: int|
                0 <= k < sorted.len() ==> group_ok(fv, #[trigger] sorted@[k]) && is_duplicate_hash(
                    fv,
                    sorted@[k].hash,
                ),
            forall|g: int, k: int|
                0 <= g < groups.len() && 0 <= k < sorted.len() ==> #[trigger] groups@[g].hash
                    != #[trigger] sorted@[k].hash,
            forall|i: int, j: int|
                0 <= i < j < sorted.len() ==> ranks_before(fv, sorted@[i].hash, sorted@[j].hash),
            forall|h: [u8; 16]|
                #[trigger] is_duplicate_hash(fv, h) ==> (exists|g: int|
                    0 <= g < groups.len() && groups@[g].hash == h) || (exists|k: int|
                    0 <= k < sorted.len() && sorted@[k].hash == h),
        decreases groups.len(),
    {
        let ghost old_groups = groups@;
        let gr = groups.pop().unwrap();
        assert(old_groups.last() == gr);
        assert(groups@ =~= old_groups.drop_last());
        assert(group_ok(fv, gr));
        proof {
            assert(strings_view(gr.paths@).len() == gr.paths@.len());
        }
        if gr.paths.len() >= 2 {
            let ghost old_sorted = sorted@;
            let mut p: usize = 0;
            while p < sorted.len() && ranks_before_exec(Ghost(fv), &sorted[p], &gr)
                invariant
                    p <= sorted.len(),
                    group_ok(fv, gr),
                    forall|k: int| 0 <= k < sorted.len() ==> group_ok(fv, #[trigger] sorted@[k]),
                    forall|k: int| 0 <= k < p ==> ranks_before(fv, #[trigger] sorted@[k].hash, gr.hash),
                decreases sorted.len() - p,
            {
                p += 1;
            }
            proof {
                lemma_first_with(fv, gr.hash, gr.first as int);
                if p < sorted.len() {
                    let q = sorted@[p as int];
                    lemma_first_with(fv, q.hash, q.first as int);
                    assert(q.hash != gr.hash);
                    assert(q.first != gr.first);
                    assert(ranks_before(fv, gr.hash, q.hash));
                    assert forall|k: int| p <= k < sorted.len() implies ranks_before(
                        fv,
                        gr.hash,
                        #[trigger] sorted@[k].hash,
                    ) by {
                        if k > p {
                            assert(ranks_before(fv, q.hash, sorted@[k].hash));
                        }
                    }
                }
            }
            let ghost g_copy = gr;
            sorted.insert(p, gr);
            assert(sorted@ =~= old_sorted.insert(p as int, g_copy));
            proof {
                assert forall|i: int, j: int| 0 <= i < j < sorted.len() implies ranks_before(
                    fv,
                    sorted@[i].hash,
                    sorted@[j].hash,
                ) by {
                    if i < p && j > p {
                        assert(ranks_before(fv, old_sorted[i].hash, g_copy.hash));
                        assert(ranks_before(fv, g_copy.hash, old_sorted[j - 1].hash));
                    } else if i < p && j == p {
                    } else if i == p {
                        assert(ranks_before(fv, g_copy.hash, old_sorted[j - 1].hash));
                    } else if j < p {
                        assert(sorted@[i] == old_sorted[i] && sorted@[j] == old_sorted[j]);
                    } else {
                        assert(sorted@[i] == old_sorted[i - 1] && sorted@[j] == old_sorted[j - 1]);
                    }
                }
                assert forall|h: [u8; 16]| #[trigger] is_duplicate_hash(fv, h) implies (exists|g: int|
                    0 <= g < groups.len() && groups@[g].hash == h) || (exists|k: int|
                    0 <= k < sorted.len() && sorted@[k].hash == h) by {
                    if exists|g: int| 0 <= g < old_groups.len() && old_groups[g].hash == h {
                        let g = choose|g: int| 0 <= g < old_groups.len() && old_groups[g].hash == h;
                        if g == old_groups.len() - 1 {
                            assert(sorted@[p as int].hash == h);
                        } else {
                            assert(groups@[g].hash == h);
                        }
                    } else {
                        let k = choose|k: int| 0 <= k < old_sorted.len() && old_sorted[k].hash == h;
                        if k < p {
                            assert(sorted@[k].hash == h);
                        } else {
                            assert(sorted@[k + 1].hash == h);
                        }
                    }
                }
            }
        } else {
            proof {
                assert forall|h: [u8; 16]| #[trigger] is_duplicate_hash(fv, h) implies (exists|g: int|
                    0 <= g < groups.len() && groups@[g].hash == h) || (exists|k: int|
                    0 <= k < sorted.len() && sorted@[k].hash == h) by {
                    if exists|g: int| 0 <= g < old_groups.len() && old_groups[g].hash == h {
                        let g = choose|g: int| 0 <= g < old_groups.len() && old_groups[g].hash == h;
                        if g == old_groups.len() - 1 {
                            assert(paths_with(fv, h).len() < 2);
                        } else {
                            assert(groups@[g].hash == h);
                        }
                    }
                }
            }
        }
    }
    let ghost hs = sorted@.map_values(|g: Group| g.hash);
    let ghost all = sorted@;
    assert forall|i: int, j: int| 0 <= i < j < hs.len() implies ranks_before(fv, hs[i], hs[j]) by {
        assert(hs[i] == all[i].hash && hs[j] == all[j].hash);
    }
    let mut res: Vec<(String, Vec<String>)> = Vec::new();
    let mut i: usize = 0;
    let total = sorted.len();
    assert(all.len() == total as nat);
    while sorted.len() > 0
        invariant
            i + sorted.len() == all.len(),
            all.len() <= usize::MAX,
            sorted@ == all.skip(i as int),
            res.len() == i,
            forall|k: int| 0 <= k < all.len() ==> group_ok(fv, #[trigger] all[k]),
            forall|k: int|
                0 <= k < i ==> #[trigger] res@[k].0@ == hex_lower(all[k].hash@) && res@[k].1@
                    == all[k].paths@,
        decreases sorted.len(),
    {
        let ghost before = sorted@;
        let gr = sorted.remove(0);
        assert(sorted@ =~= all.skip(i + 1));
        assert(gr == all[i as int]);
        let text = crate::hexcode::hex_encode16(&gr.hash);
        res.push((text, gr.paths));
        i += 1;
    }
    proof {
        assert forall|k: int| 0 <= k < res.len() implies {
            &&& #[trigger] is_duplicate_hash(files@, hs[k])
            &&& res@[k].0@ == hex_lower(hs[k]@)
            &&& strings_view(res@[k].1@) == paths_with(files@, hs[k])
        } by {
            assert(hs[k] == all[k].hash);
        }
        assert forall|h: [u8; 16]| #[trigger] is_duplicate_hash(files@, h) implies hs.contains(h) by {
            let k = choose|k: int| 0 <= k < all.len() && all[k].hash == h;
            assert(hs[k] == h);
        }
        assert(hs.len() == res.len());
    }
    res
}

// ---------------------------------------------------------------------------
// Where a moved file lands
// ---------------------------------------------------------------------------

/// The name tried at attempt `n` when moving `src` into a folder: its own
/// file name first, then `stem_n.ext` (`stem_n` without an extension). A
/// path without a file name counts as `unknown`, with stem `file`.
pub open spec fn destination_name(src: Seq<char>, n: nat) -> Seq<char> {
    let base = match file_name(src) {
        Some(f) => f,
        None => seq!['u', 'n', 'k', 'n', 'o', 'w', 'n'],
    };
    let stem = match file_name(src) {
        Some(f) => name_stem(f),
        None => seq!['f', 'i', 'l', 'e'],
    };
    let ext = match file_name(src) {
        Some(f) => match name_extension(f) {
            Some(e) => e,
            None => Seq::empty(),
        },
        None => Seq::empty(),
    };
    if n == 0 {
        base
    } else if ext.len() == 0 {
        stem + seq!['_'] + dec(n)
    } else {
        stem + seq!['_'] + dec(n) + seq!['.'] + ext
    }
}

/// The path tried at attempt `attempt` when moving `src` into
/// `target_folder`.
pub fn folder_destination(src: &str, target_folder: &str, attempt: u32) -> (res: String)
    ensures
        res@ == join(target_folder@, destination_name(src@, attempt as nat)),
{
    let p = chars_of(src);
    let dir = chars_of(target_folder);
    let (base, stem, ext) = match file_name_chars(&p) {
        Some(f) => {
            let (st, ex) = split_name(&f);
            let e = match ex {
                Some(e) => e,
                None => Vec::new(),
            };
            (f, st, e)
        },
        None => {
            let u = chars_of("unknown");
            let fl = chars_of("file");
            proof {
                reveal_strlit("unknown");
                reveal_strlit("file");
            }
            (u, fl, Vec::new())
        },
    };
    assert(base@ =~= destination_name(src@, 0));
    let name = if attempt == 0 {
        base
    } else {
        let mut n: Vec<char> = Vec::new();
        push_all(&mut n, &stem);
        n.push('_');
        crate::text::push_decimal(&mut n, attempt as u64);
        if ext.len() > 0 {
            n.push('.');
            push_all(&mut n, &ext);
        }
        assert(n@ =~= destination_name(src@, attempt as nat));
        n
    };
    let j = join_chars(&dir, &name);
    string_from_chars(&j)
}

proof fn lemma_dec_injective(a: nat, b: nat)
    requires
        dec(a) == dec(b),
    ensures
        a == b,
{
    crate::text::lemma_dec_roundtrip(a);
    crate::text::lemma_dec_roundtrip(b);
}

proof fn lemma_file_name_shape(p: Seq<char>)
    ensures
        file_name(p) matches Some(f) ==> f.len() > 0 && forall|i: int| 0 <= i < f.len() ==> f[i]
            != '/',
{
    crate::paths::lemma_last_normal_shape(crate::text::split_on(p, '/'), p);
}

/// Law: every attempt gives another destination, so moving a file into a
/// folder never picks a path that an earlier attempt found taken.
pub proof fn lemma_destinations_distinct(src: Seq<char>, dir: Seq<char>, a: nat, b: nat)
    requires
        a != b,
    ensures
        join(dir, destination_name(src, a)) != join(dir, destination_name(src, b)),
{
    lemma_file_name_shape(src);
    crate::text::lemma_dec_len(a);
    crate::text::lemma_dec_len(b);
    let na = destination_name(src, a);
    let nb = destination_name(src, b);
    let stem = match file_name(src) {
        Some(f) => name_stem(f),
        None => seq!['f', 'i', 'l', 'e'],
    };
    let ext = match file_name(src) {
        Some(f) => match name_extension(f) {
            Some(e) => e,
            None => Seq::empty(),
        },
        None => Seq::empty(),
    };
    if file_name(src) is Some {
        let f = file_name(src)->0;
        crate::paths::lemma_rfind_char(f, '.');
        assert(stem.len() > 0 ==> stem[0] == f[0]);
        assert(f.len() > 0);
        match crate::paths::rfind_char(f, '.') {
            Some(i) => {
                if i > 0 {
                    assert(f =~= stem + seq!['.'] + ext);
                } else {
                    assert(stem == f);
                }
            },
            None => {
                assert(stem == f);
            },
        }
    }
    assert(na.len() > 0 && na[0] != '/');
    assert(nb.len() > 0 && nb[0] != '/');
    if join(dir, na) == join(dir, nb) {
        let pre = if dir.len() == 0 || dir.last() == '/' {
            dir
        } else {
            dir + seq!['/']
        };
        assert(join(dir, na) =~= pre + na);
        assert(join(dir, nb) =~= pre + nb);
        assert(na =~= (pre + na).skip(pre.len() as int));
        assert(nb =~= (pre + nb).skip(pre.len() as int));
        assert(na == nb);
        lemma_names_distinct(src, a, b, stem, ext);
    }
}

proof fn lemma_names_distinct(src: Seq<char>, a: nat, b: nat, stem: Seq<char>, ext: Seq<char>)
    requires
        a != b,
        stem == (match file_name(src) {
            Some(f) => name_stem(f),
            None => seq!['f', 'i', 'l', 'e'],
        }),
        ext == (match file_name(src) {
            Some(f) => match name_extension(f) {
                Some(e) => e,
                None => Seq::empty(),
            },
            None => Seq::empty(),
        }),
    ensures
        destination_name(src, a) != destination_name(src, b),
{
    crate::text::lemma_dec_len(a);
    crate::text::lemma_dec_len(b);
    let na = destination_name(src, a);
    let nb = destination_name(src, b);
    if na == nb {
        if a > 0 && b > 0 {
            let k: int = stem.len() + 1int;
            if ext.len() == 0 {
                assert(na.skip(k) =~= dec(a));
                assert(nb.skip(k) =~= dec(b));
            } else {
                assert(na == stem + seq!['_'] + dec(a) + seq!['.'] + ext);
                assert(nb == stem + seq!['_'] + dec(b) + seq!['.'] + ext);
                assert(na.len() == stem.len() + 2 + dec(a).len() + ext.len());
                assert(nb.len() == stem.len() + 2 + dec(b).len() + ext.len());
                assert(dec(a).len() == dec(b).len());
                assert(na.subrange(k, k + dec(a).len() as int) =~= dec(a));
                assert(nb.subrange(k, k + dec(b).len() as int) =~= dec(b));
            }
            lemma_dec_injective(a, b);
        } else {
            let (z, n) = if a == 0 {
                (na, nb)
            } else {
                (nb, na)
            };
            let m: nat = if a == 0 {
                b
            } else {
                a
            };
            assert(n == destination_name(src, m));
            lemma_zero_vs_other(src, m, stem, ext);
        }
    }
}

proof fn lemma_zero_vs_other(src: Seq<char>, m: nat, stem: Seq<char>, ext: Seq<char>)
    requires
        m > 0,
        stem == (match file_name(src) {
            Some(f) => name_stem(f),
            None => seq!['f', 'i', 'l', 'e'],
        }),
        ext == (match file_name(src) {
            Some(f) => match name_extension(f) {
                Some(e) => e,
                None => Seq::empty(),
            },
            None => Seq::empty(),
        }),
    ensures
        destination_name(src, 0) != destination_name(src, m),
{
    crate::text::lemma_dec_len(m);
    let z = destination_name(src, 0);
    let n = destination_name(src, m);
    match file_name(src) {
        None => {
            assert(z[0] == 'u');
            assert(n[0] == 'f');
        },
        Some(f) => {
            crate::paths::lemma_rfind_char(f, '.');
            match crate::paths::rfind_char(f, '.') {
                Some(i) => {
                    if i > 0 {
                        assert(f =~= stem + seq!['.'] + f.skip(i + 1));
                        if ext.len() == 0 {
                            assert(z[stem.len() as int] == '.');
                            assert(n[stem.len() as int] == '_');
                        } else {
                            assert(n.len() > z.len());
                        }
                    } else {
                        assert(n.len() > z.len());
                    }
                },
                None => {
                    assert(n.len() > z.len());
                },
            }
        },
    }
}

// ---------------------------------------------------------------------------
// Duration prefixes: `[MM:SS] name`
// ---------------------------------------------------------------------------

/// A name that already carries a prefix: longer than eight bytes and
/// starting with `[`.
pub open spec fn already_prefixed(name: Seq<char>) -> bool {
    vstd::utf8::encode_utf8(name).len() > 8 && name.len() > 0 && name[0] == '['
}

/// The name with the duration prefix added, unless it already has one.
pub open spec fn prefixed_name(name: Seq<char>, total_secs: nat) -> Option<Seq<char>> {
    if already_prefixed(name) {
        None
    } else {
        Some(duration_label(total_secs) + seq![' '] + name)
    }
}

/// The file name with `[MM:SS] ` put in front for a video of `total_secs`
/// seconds, or `None` for a name that already starts with a prefix.
pub fn duration_prefixed_name(name: &str, total_secs: u64) -> (res: Option<String>)
    ensures
        match res {
            Some(n) => prefixed_name(name@, total_secs as nat) == Some(n@),
            None => prefixed_name(name@, total_secs as nat) is None,
        },
{
    let s = chars_of(name);
    let bytes = name.as_bytes();
    if bytes.len() > 8 && s.len() > 0 && s[0] == '[' {
        return None;
    }
    let mut out: Vec<char> = Vec::new();
    push_duration_label(&mut out, total_secs);
    out.push(' ');
    push_all(&mut out, &s);
    assert(out@ =~= duration_label(total_secs as nat) + seq![' '] + name@);
    Some(string_from_chars(&out))
}

/// The minutes and seconds that a `[M:S]...` prefix states (a part that is
/// no number counts as 0), with the position of the closing bracket; `None`
/// for a name without such a prefix.
pub open spec fn prefix_fields(name: Seq<char>) -> Option<(nat, nat, int)> {
    if !(name.len() > 0 && name[0] == '[') {
        None
    } else {
        match find_char(name, ']') {
            None => None,
            Some(e) => {
                let inner = name.subrange(1, e);
                match find_char(inner, ':') {
                    None => None,
                    Some(c) => {
                        let m = match parse_u64(inner.take(c)) {
                            Some(v) => v as nat,
                            None => 0,
                        };
                        let sec = match parse_u64(inner.skip(c + 1)) {
                            Some(v) => v as nat,
                            None => 0,
                        };
                        Some((m, sec, e))
                    },
                }
            },
        }
    }
}

/// Reading the prefix would overflow `u64` (minutes times 60 plus seconds).
pub open spec fn prefix_overflows(name: Seq<char>) -> bool {
    match prefix_fields(name) {
        Some((m, sec, _)) => m * 60 + sec > u64::MAX,
        None => false,
    }
}

/// The name with its prefix set to the actual duration, when the prefix it
/// has is off by more than a second; `None` when there is no prefix or it is
/// close enough. The rest of the name loses its leading whitespace.
pub open spec fn corrected_name(name: Seq<char>, actual_secs: nat) -> Option<Seq<char>> {
    match prefix_fields(name) {
        None => None,
        Some((m, sec, e)) => {
            let old = m * 60 + sec;
            let diff = if old > actual_secs {
                old - actual_secs
            } else {
                actual_secs - old
            };
            if diff <= 1 {
                None
            } else {
                Some(duration_label(actual_secs) + seq![' '] + trim_start(name.skip(e + 1)))
            }
        },
    }
}

/// The prefix fields of a name, computed.
fn prefix_fields_of(s: &Vec<char>) -> (res: Option<(u64, u64, usize)>)
    ensures
        match res {
            Some((m, sec, e)) => prefix_fields(s@) == Some((m as nat, sec as nat, e as int)) && e
                < s.len(),
            None => prefix_fields(s@) is None,
        },
{
    if !(s.len() > 0 && s[0] == '[') {
        return None;
    }
    let e = match find_char_index(s, ']') {
        Some(e) => e,
        None => {
            return None;
        },
    };
    proof {
        lemma_find_char(s@, ']');
    }
    let inner = slice_chars(s, 1, e);
    let c = match find_char_index(&inner, ':') {
        Some(c) => c,
        None => {
            return None;
        },
    };
    proof {
        lemma_find_char(inner@, ':');
    }
    let head = slice_chars(&inner, 0, c);
    let tail = slice_chars(&inner, c + 1, inner.len());
    assert(head@ =~= inner@.take(c as int));
    assert(tail@ =~= inner@.skip(c + 1));
    let m = match parse_u64_chars(&head) {
        Some(v) => v,
        None => 0,
    };
    let sec = match parse_u64_chars(&tail) {
        Some(v) => v,
        None => 0,
    };
    Some((m, sec, e))
}

/// Whether reading the duration prefix of `name` overflows, as the rename
/// pass would (the pass stops with an arithmetic overflow there).
pub fn duration_prefix_overflows(name: &str) -> (res: bool)
    ensures
        res == prefix_overflows(name@),
{
    let s = chars_of(name);
    match prefix_fields_of(&s) {
        Some((m, sec, _)) => m > (u64::MAX - sec) / 60,
        None => false,
    }
}

/// The corrected file name for a video of `actual_secs` seconds, or `None`
/// when the name has no prefix or its prefix is within a second.
pub fn corrected_duration_name(name: &str, actual_secs: u64) -> (res: Option<String>)
    requires
        !prefix_overflows(name@),
    ensures
        match res {
            Some(n) => corrected_name(name@, actual_secs as nat) == Some(n@),
            None => corrected_name(name@, actual_secs as nat) is None,
        },
{
    let s = chars_of(name);
    match prefix_fields_of(&s) {
        None => None,
        Some((m, sec, e)) => {
            let old = m * 60 + sec;
            let diff = if old > actual_secs {
                old - actual_secs
            } else {
                actual_secs - old
            };
            if diff <= 1 {
                return None;
            }
            let rest = slice_chars(&s, e + 1, s.len());
            assert(rest@ =~= s@.skip(e + 1));
            let trimmed = trim_start_chars(&rest);
            let mut out: Vec<char> = Vec::new();
            push_duration_label(&mut out, actual_secs);
            out.push(' ');
            push_all(&mut out, &trimmed);
            assert(out@ =~= duration_label(actual_secs as nat) + seq![' '] + trim_start(
                name@.skip(e + 1),
            ));
            Some(string_from_chars(&out))
        },
    }
}

// --- the prefix laws -------------------------------------------------------

/// A name that starts with the label for `secs` states exactly `secs`.
pub proof fn lemma_label_fields(secs: nat, rest: Seq<char>)
    requires
        secs <= u64::MAX,
    ensures
        prefix_fields(duration_label(secs) + seq![' '] + rest) matches Some((m, sec, e)) && m * 60
            + sec == secs && e == duration_label(secs).len() - 1,
        !prefix_overflows(duration_label(secs) + seq![' '] + rest),
{
    let mins = secs / 60;
    let ss = secs % 60;
    lemma_pad2_roundtrip(mins);
    lemma_pad2_roundtrip(ss);
    let pm = pad2(mins);
    let ps = pad2(ss);
    let name = duration_label(secs) + seq![' '] + rest;
    let e: int = pm.len() + ps.len() + 2int;
    assert(duration_label(secs).len() == e + 1);
    assert(name[0] == '[');
    assert forall|j: int| 0 <= j < e implies name[j] != ']' by {
        if 1 <= j < 1 + pm.len() {
            assert(name[j] == pm[j - 1]);
            assert(is_digit(pm[j - 1]));
        } else if 1 + pm.len() < j < e {
            assert(name[j] == ps[j - 2 - pm.len()]);
            assert(is_digit(ps[j - 2 - pm.len()]));
        }
    }
    assert(name[e] == ']');
    lemma_find_char_at(name, ']', e);
    let inner = name.subrange(1, e);
    assert(inner =~= pm + seq![':'] + ps);
    assert forall|j: int| 0 <= j < pm.len() implies inner[j] != ':' by {
        assert(inner[j] == pm[j]);
        assert(is_digit(pm[j]));
    }
    lemma_find_char_at(inner, ':', pm.len() as int);
    assert(inner.take(pm.len() as int) =~= pm);
    assert(inner.skip(pm.len() + 1int) =~= ps);
    assert(mins * 60 + ss == secs);
}

/// Law: a name that `duration_prefixed_name` produced for a duration is
/// left alone when the prefixes are checked against that same duration.
pub proof fn lemma_added_prefix_is_correct(name: Seq<char>, secs: nat)
    requires
        secs <= u64::MAX,
        prefixed_name(name, secs) is Some,
    ensures
        !prefix_overflows(prefixed_name(name, secs)->0),
        corrected_name(prefixed_name(name, secs)->0, secs) is None,
{
    lemma_label_fields(secs, name);
}

/// Law: correcting a prefix is settled in one pass; a corrected name is
/// left alone when checked again against the same duration.
pub proof fn lemma_correction_is_stable(name: Seq<char>, secs: nat)
    requires
        secs <= u64::MAX,
        corrected_name(name, secs) is Some,
    ensures
        !prefix_overflows(corrected_name(name, secs)->0),
        corrected_name(corrected_name(name, secs)->0, secs) is None,
{
    let (_m, _s, e) = prefix_fields(name)->0;
    lemma_label_fields(secs, trim_start(name.skip(e + 1)));
}

/// Law: a name that does not start with `[` always gets the prefix: `[`,
/// the minutes zero-padded to two digits, `:`, the seconds likewise, `]`, a
/// space, and the name as it was. A name of more than eight bytes that
/// starts with `[` counts as prefixed already and gets none.
pub proof fn lemma_prefix_added_unless_bracketed(name: Seq<char>, secs: nat)
    ensures
        (name.len() == 0 || name[0] != '[') ==> prefixed_name(name, secs) == Some(
            seq!['['] + pad2(secs / 60) + seq![':'] + pad2(secs % 60) + seq![']', ' '] + name,
        ),
        (name.len() > 0 && name[0] == '[' && vstd::utf8::encode_utf8(name).len() > 8)
            ==> prefixed_name(name, secs) is None,
{
    let l = seq!['['] + pad2(secs / 60) + seq![':'] + pad2(secs % 60) + seq![']', ' '] + name;
    assert(duration_label(secs) + seq![' '] + name =~= l);
}

/// Law: for a name `[M:S]rest` (M and S strings of decimal digits), the
/// correction leaves the name alone exactly when `M * 60 + S` is within one
/// second of the actual duration; otherwise the new name is the label of the
/// actual duration, a space, and `rest` without its leading whitespace.
pub proof fn lemma_correction_by_difference(
    md: Seq<char>,
    sd: Seq<char>,
    rest: Seq<char>,
    actual: nat,
)
    requires
        md.len() > 0,
        sd.len() > 0,
        all_digits(md),
        all_digits(sd),
        digits_value(md) * 60 + digits_value(sd) <= u64::MAX,
    ensures
        ({
            let name = seq!['['] + md + seq![':'] + sd + seq![']'] + rest;
            let stated = digits_value(md) * 60 + digits_value(sd);
            &&& !prefix_overflows(name)
            &&& (corrected_name(name, actual) is None <==> (stated - actual <= 1 && actual - stated
                <= 1))
            &&& (corrected_name(name, actual) is Some ==> corrected_name(name, actual)->0 == seq![
                '[',
            ] + pad2(actual / 60) + seq![':'] + pad2(actual % 60) + seq![']', ' '] + trim_start(
                rest,
            ))
        }),
{
    let name = seq!['['] + md + seq![':'] + sd + seq![']'] + rest;
    let e: int = md.len() + sd.len() + 2int;
    assert(name[0] == '[');
    assert(is_digit(md[0]));
    assert(is_digit(sd[0]));
    assert forall|j: int| 0 <= j < e implies name[j] != ']' by {
        if 1 <= j < 1 + md.len() {
            assert(name[j] == md[j - 1]);
            assert(is_digit(md[j - 1]));
        } else if 1 + md.len() < j < e {
            assert(name[j] == sd[j - 2 - md.len()]);
            assert(is_digit(sd[j - 2 - md.len()]));
        }
    }
    assert(name[e] == ']');
    lemma_find_char_at(name, ']', e);
    let inner = name.subrange(1, e);
    assert(inner =~= md + seq![':'] + sd);
    assert forall|j: int| 0 <= j < md.len() implies inner[j] != ':' by {
        assert(inner[j] == md[j]);
        assert(is_digit(md[j]));
    }
    lemma_find_char_at(inner, ':', md.len() as int);
    assert(inner.take(md.len() as int) =~= md);
    assert(inner.skip(md.len() + 1int) =~= sd);
    assert(parse_body(md) == md);
    assert(parse_body(sd) == sd);
    assert(name.skip(e + 1) =~= rest);
    let al = seq!['['] + pad2(actual / 60) + seq![':'] + pad2(actual % 60) + seq![']', ' ']
        + trim_start(rest);
    assert(duration_label(actual) + seq![' '] + trim_start(rest) =~= al);
}

} // verus!

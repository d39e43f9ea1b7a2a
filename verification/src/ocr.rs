//! Searching recognised text, and cleaning the text that the `tesseract`
//! command prints.

use vstd::prelude::*;

use crate::text::{
    chars_of, contains_chars, contains_seq, is_whitespace, lemma_trim_end_append,
    lemma_trim_start_append, lowercase, string_from_chars, to_lowercase, trim, trim_chars, trim_end,
    trim_start,
};

verus! {

/// The text at `text` matches `query`, ignoring case: the lowercased query
/// occurs in the lowercased text.
pub open spec fn text_matches(query: Seq<char>, text: Seq<char>) -> bool {
    contains_seq(lowercase(text), lowercase(query))
}

/// The positions of the texts that contain `query`, ignoring case, in
/// order.
pub fn search_ocr_results(query: &str, texts: &[String]) -> (res: Vec<usize>)
    ensures
        forall|k: int|
            0 <= k < res.len() ==> #[trigger] res@[k] < texts@.len() && text_matches(
                query@,
                texts@[res@[k] as int]@,
            ),
        forall|k1: int, k2: int| 0 <= k1 < k2 < res.len() ==> res@[k1] < res@[k2],
        forall|i: int|
            0 <= i < texts@.len() && text_matches(query@, #[trigger] texts@[i]@) ==> res@.contains(
                i as usize,
            ),
{
    let q = to_lowercase(query);
    let qc = chars_of(q.as_str());
    let mut res: Vec<usize> = Vec::new();
    let mut i: usize = 0;
    while i < texts.len()
        invariant
            i <= texts.len(),
            qc@ == lowercase(query@),
            forall|k: int|
                0 <= k < res.len() ==> #[trigger] res@[k] < i && text_matches(
                    query@,
                    texts@[res@[k] as int]@,
                ),
            forall|k1: int, k2: int| 0 <= k1 < k2 < res.len() ==> res@[k1] < res@[k2],
            forall|j: int|
                0 <= j < i && text_matches(query@, #[trigger] texts@[j]@) ==> res@.contains(
                    j as usize,
                ),
        decreases texts.len() - i,
    {
        let t = to_lowercase(texts[i].as_str());
        let tc = chars_of(t.as_str());
        if contains_chars(&tc, &qc) {
            let ghost before = res@;
            res.push(i);
            proof {
                assert forall|j: int|
                    0 <= j < i + 1 && text_matches(query@, #[trigger] texts@[j]@) implies res@.contains(
                    j as usize,
                ) by {
                    if j < i {
                        let w = choose|w: int| 0 <= w < before.len() && before[w] == j as usize;
                        assert(res@[w] == j as usize);
                    } else {
                        assert(res@[res.len() - 1] == j as usize);
                    }
                }
            }
        }
        i += 1;
    }
    res
}

/// Whether `char::is_alphanumeric` holds for a character (Unicode
/// `Alphabetic` or `Numeric`); its tables take pages, so it is named.
pub uninterp spec fn is_alphanumeric(c: char) -> bool;

/// `char::is_alphanumeric`. Trusted: the result is `is_alphanumeric` of the
/// character; nothing more is claimed of it.
#[verifier::external_body]
fn char_is_alphanumeric(c: char) -> (res: bool)
    ensures
        res == is_alphanumeric(c),
{
    c.is_alphanumeric()
}

/// `char::is_ascii_punctuation`: the ASCII characters from `!` to `/`,
/// `:` to `@`, `[` to `` ` `` and `{` to `~`.
pub open spec fn is_ascii_punctuation(c: char) -> bool {
    ||| '!' <= c <= '/'
    ||| ':' <= c <= '@'
    ||| '[' <= c <= '`'
    ||| '{' <= c <= '~'
}

/// A character that the cleaned text keeps: a newline, a space, a letter or
/// digit, or ASCII punctuation.
pub open spec fn keeps_char(c: char) -> bool {
    c == '\n' || c == ' ' || is_alphanumeric(c) || is_ascii_punctuation(c)
}

/// The characters of `s` that are kept, in order.
pub open spec fn kept_chars(s: Seq<char>) -> Seq<char>
    decreases s.len(),
{
    if s.len() == 0 {
        Seq::empty()
    } else if keeps_char(s.last()) {
        kept_chars(s.drop_last()).push(s.last())
    } else {
        kept_chars(s.drop_last())
    }
}

/// The text recognised in an image, from what `tesseract` printed: the kept
/// characters, trimmed; nothing when that leaves no text.
pub open spec fn ocr_text(raw: Seq<char>) -> Option<Seq<char>> {
    let t = trim(kept_chars(raw));
    if t.len() == 0 {
        None
    } else {
        Some(t)
    }
}

/// Filtering a text piece by piece gives the same as filtering it whole.
proof fn lemma_kept_append(s: Seq<char>, t: Seq<char>)
    ensures
        kept_chars(s + t) == kept_chars(s) + kept_chars(t),
    decreases t.len(),
{
    if t.len() == 0 {
        assert(s + t =~= s);
        assert(kept_chars(s) + kept_chars(t) =~= kept_chars(s));
    } else {
        lemma_kept_append(s, t.drop_last());
        assert((s + t).drop_last() =~= s + t.drop_last());
        assert((s + t).last() == t.last());
        if keeps_char(t.last()) {
            assert(kept_chars(s + t) =~= kept_chars(s) + kept_chars(t));
        } else {
            assert(kept_chars(s + t) =~= kept_chars(s) + kept_chars(t));
        }
    }
}

/// Law: newlines, spaces, letters and digits, and ASCII punctuation marks
/// stay in the cleaned text, where they stood, whatever comes before them.
pub proof fn lemma_kept_characters(s: Seq<char>, c: char)
    requires
        c == '\n' || c == ' ' || is_alphanumeric(c) || is_ascii_punctuation(c),
    ensures
        kept_chars(s.push(c)) == kept_chars(s).push(c),
{
    assert(s.push(c).drop_last() =~= s);
}

/// Law: text on two lines stays on two lines. When the part before a
/// newline and the part after it each keep a visible character, the cleaned
/// text is the first part's kept characters without leading whitespace, the
/// newline, and the second part's kept characters without trailing
/// whitespace.
pub proof fn lemma_lines_stay_apart(a: Seq<char>, b: Seq<char>)
    requires
        exists|i: int| 0 <= i < kept_chars(a).len() && !is_whitespace(#[trigger] kept_chars(a)[i]),
        exists|i: int| 0 <= i < kept_chars(b).len() && !is_whitespace(#[trigger] kept_chars(b)[i]),
    ensures
        ocr_text(a + seq!['\n'] + b) == Some(
            trim_start(kept_chars(a)) + seq!['\n'] + trim_end(kept_chars(b)),
        ),
{
    let nl = seq!['\n'];
    lemma_kept_append(a + nl, b);
    lemma_kept_append(a, nl);
    assert(nl.drop_last() =~= Seq::<char>::empty());
    assert(nl.last() == '\n');
    assert(keeps_char(nl.last()));
    assert(kept_chars(nl.drop_last()) =~= Seq::<char>::empty());
    assert(kept_chars(nl) =~= kept_chars(nl.drop_last()).push('\n'));
    assert(kept_chars(nl) =~= nl);
    let ka = kept_chars(a);
    let kb = kept_chars(b);
    let whole = kept_chars(a + nl + b);
    assert(whole =~= ka + (nl + kb));
    lemma_trim_start_append(ka, nl + kb);
    let front = trim_start(ka) + nl;
    assert(trim_start(whole) =~= front + kb);
    lemma_trim_end_append(front, kb);
    assert(trim(kept_chars(a + nl + b)) == front + trim_end(kb));
    assert((front + trim_end(kb)).len() > 0);
    assert(front + trim_end(kb) =~= trim_start(ka) + nl + trim_end(kb));
}

/// Cleans the text that `tesseract` printed for an image.
pub fn clean_ocr_text(raw: &str) -> (res: Option<String>)
    ensures
        match res {
            Some(t) => ocr_text(raw@) == Some(t@),
            None => ocr_text(raw@) is None,
        },
{
    let s = chars_of(raw);
    let mut kept: Vec<char> = Vec::new();
    let mut i: usize = 0;
    while i < s.len()
        invariant
            i <= s.len(),
            kept@ == kept_chars(s@.take(i as int)),
        decreases s.len() - i,
    {
        let c = s[i];
        assert(s@.take(i + 1).drop_last() =~= s@.take(i as int));
        let ascii_punct = ('!' <= c && c <= '/') || (':' <= c && c <= '@') || ('[' <= c && c
            <= '`') || ('{' <= c && c <= '~');
        if c == '\n' || c == ' ' || char_is_alphanumeric(c) || ascii_punct {
            kept.push(c);
        }
        i += 1;
    }
    assert(s@.take(s.len() as int) =~= s@);
    let t = trim_chars(&kept);
    if t.len() == 0 {
        None
    } else {
        Some(string_from_chars(&t))
    }
}

} // verus!

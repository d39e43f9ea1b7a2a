//! The parts of a Unix path that the library works with, as `std::path`
//! reads them: the file name, its stem and extension, and joining a name
//! onto a directory.

use vstd::prelude::*;

use crate::text::{chars_eq, lemma_split_on_nonempty, split_chars, split_on};

verus! {

/// The last piece that names something: pieces that are empty (repeated or
/// trailing `/`) or `.` do not (`Path::components` skips them).
pub open spec fn last_normal(segs: Seq<Seq<char>>) -> Option<Seq<char>>
    decreases segs.len(),
{
    if segs.len() == 0 {
        None
    } else if segs.last().len() == 0 || segs.last() == seq!['.'] {
        last_normal(segs.drop_last())
    } else {
        Some(segs.last())
    }
}

/// What `last_normal` picks is one of the pieces, non-empty.
pub proof fn lemma_last_normal_shape(segs: Seq<Seq<char>>, p: Seq<char>)
    requires
        segs == split_on(p, '/'),
    ensures
        last_normal(segs) matches Some(x) ==> x.len() > 0 && forall|i: int|
            0 <= i < x.len() ==> x[i] != '/',
{
    lemma_split_on_pieces(p, '/');
    lemma_last_normal_in(segs);
}

proof fn lemma_last_normal_in(segs: Seq<Seq<char>>)
    ensures
        last_normal(segs) matches Some(x) ==> x.len() > 0 && exists|k: int|
            0 <= k < segs.len() && segs[k] == x,
    decreases segs.len(),
{
    if segs.len() > 0 {
        if segs.last().len() == 0 || segs.last() == seq!['.'] {
            lemma_last_normal_in(segs.drop_last());
            if last_normal(segs.drop_last()) is Some {
                let x = last_normal(segs.drop_last())->0;
                let k = choose|k: int| 0 <= k < segs.drop_last().len() && segs.drop_last()[k] == x;
                assert(segs[k] == x);
            }
        } else {
            assert(segs[segs.len() - 1] == segs.last());
        }
    }
}

/// No piece of a split holds the separator.
pub proof fn lemma_split_on_pieces(s: Seq<char>, sep: char)
    ensures
        forall|k: int, i: int|
            0 <= k < split_on(s, sep).len() && 0 <= i < split_on(s, sep)[k].len() ==> #[trigger] split_on(
                s,
                sep,
            )[k][i] != sep,
    decreases s.len(),
{
    lemma_split_on_nonempty(s, sep);
    if s.len() > 0 {
        lemma_split_on_pieces(s.drop_last(), sep);
        lemma_split_on_nonempty(s.drop_last(), sep);
        let p = split_on(s.drop_last(), sep);
        let q = split_on(s, sep);
        assert forall|k: int, i: int| 0 <= k < q.len() && 0 <= i < q[k].len() implies #[trigger] q[k][i]
            != sep by {
            if s.last() != sep && k == p.len() - 1 {
                if i < p.last().len() {
                    assert(q[k][i] == p[k][i]);
                }
            } else if k < p.len() {
                assert(q[k][i] == p[k][i]);
            }
        }
    }
}

/// `Path::file_name`: the last component of the path, unless there is none
/// or it is `..`.
pub open spec fn file_name(p: Seq<char>) -> Option<Seq<char>> {
    match last_normal(split_on(p, '/')) {
        Some(x) => if x == seq!['.', '.'] {
            None
        } else {
            Some(x)
        },
        None => None,
    }
}

/// Index of the last `c` in `s`, if any.
pub open spec fn rfind_char(s: Seq<char>, c: char) -> Option<int>
    decreases s.len(),
{
    if s.len() == 0 {
        None
    } else if s.last() == c {
        Some(s.len() - 1)
    } else {
        rfind_char(s.drop_last(), c)
    }
}

pub proof fn lemma_rfind_char(s: Seq<char>, c: char)
    ensures
        match rfind_char(s, c) {
            Some(i) => 0 <= i < s.len() && s[i] == c && forall|j: int| i < j < s.len() ==> s[j]
                != c,
            None => forall|j: int| 0 <= j < s.len() ==> s[j] != c,
        },
    decreases s.len(),
{
    if s.len() > 0 && s.last() != c {
        let t = s.drop_last();
        lemma_rfind_char(t, c);
        assert forall|j: int| 0 <= j < t.len() implies s[j] == t[j] by {}
        assert(s[s.len() - 1] != c);
    }
}

/// The stem of a file name: all before its last `.`, unless that dot is the
/// first character or there is none (then the whole name).
pub open spec fn name_stem(name: Seq<char>) -> Seq<char> {
    match rfind_char(name, '.') {
        Some(i) => if i > 0 {
            name.take(i)
        } else {
            name
        },
        None => name,
    }
}

/// The extension of a file name: all after its last `.`, where that dot is
/// not the first character.
pub open spec fn name_extension(name: Seq<char>) -> Option<Seq<char>> {
    match rfind_char(name, '.') {
        Some(i) => if i > 0 {
            Some(name.skip(i + 1))
        } else {
            None
        },
        None => None,
    }
}

/// `Path::extension`.
pub open spec fn extension(p: Seq<char>) -> Option<Seq<char>> {
    match file_name(p) {
        Some(n) => name_extension(n),
        None => None,
    }
}

/// `Path::join` of a directory and a name: the name alone if it is absolute,
/// else the two with one `/` between them (none after an empty directory or
/// one that already ends in `/`).
pub open spec fn join(dir: Seq<char>, name: Seq<char>) -> Seq<char> {
    if name.len() > 0 && name[0] == '/' {
        name
    } else if dir.len() == 0 || dir.last() == '/' {
        dir + name
    } else {
        dir + seq!['/'] + name
    }
}

/// The file name of a path.
pub fn file_name_chars(p: &Vec<char>) -> (res: Option<Vec<char>>)
    ensures
        match res {
            Some(n) => file_name(p@) == Some(n@),
            None => file_name(p@) is None,
        },
{
    let segs = split_chars(p, '/');
    let ghost sp = split_on(p@, '/');
    let dot: Vec<char> = vec!['.'];
    let dotdot: Vec<char> = vec!['.', '.'];
    assert(dot@ =~= seq!['.']);
    assert(dotdot@ =~= seq!['.', '.']);
    let mut n = segs.len();
    assert(sp.take(n as int) =~= sp);
    while n > 0 && (segs[n - 1].len() == 0 || chars_eq(&segs[n - 1], &dot))
        invariant
            n <= segs.len(),
            segs.len() == sp.len(),
            forall|k: int| 0 <= k < segs.len() ==> #[trigger] segs@[k]@ == sp[k],
            dot@ == seq!['.'],
            last_normal(sp.take(n as int)) == last_normal(sp),
        decreases n,
    {
        assert(sp.take(n as int).drop_last() =~= sp.take(n - 1));
        n -= 1;
    }
    if n == 0 {
        assert(sp.take(0) =~= Seq::<Seq<char>>::empty());
        return None;
    }
    assert(sp.take(n as int).last() == sp[n - 1]);
    if chars_eq(&segs[n - 1], &dotdot) {
        return None;
    }
    let mut res: Vec<char> = Vec::new();
    let mut i: usize = 0;
    while i < segs[n - 1].len()
        invariant
            0 < n <= segs.len(),
            i <= segs@[n - 1].len(),
            res@ == segs@[n - 1]@.take(i as int),
        decreases segs@[n - 1].len() - i,
    {
        res.push(segs[n - 1][i]);
        i += 1;
    }
    assert(res@ =~= segs@[n - 1]@);
    Some(res)
}

/// Finds the last `c` in `s`.
pub fn rfind_char_index(s: &Vec<char>, c: char) -> (res: Option<usize>)
    ensures
        match res {
            Some(i) => rfind_char(s@, c) == Some(i as int),
            None => rfind_char(s@, c) is None,
        },
{
    let mut n = s.len();
    assert(s@.take(n as int) =~= s@);
    while n > 0
        invariant
            n <= s.len(),
            rfind_char(s@.take(n as int), c) == rfind_char(s@, c),
        decreases n,
    {
        assert(s@.take(n as int).drop_last() =~= s@.take(n - 1));
        if s[n - 1] == c {
            return Some(n - 1);
        }
        n -= 1;
    }
    None
}

/// The stem and the extension of a file name.
pub fn split_name(name: &Vec<char>) -> (res: (Vec<char>, Option<Vec<char>>))
    ensures
        res.0@ == name_stem(name@),
        match res.1 {
            Some(e) => name_extension(name@) == Some(e@),
            None => name_extension(name@) is None,
        },
{
    let found = rfind_char_index(name, '.');
    proof {
        lemma_rfind_char(name@, '.');
    }
    match found {
        Some(i) => {
            if i > 0 {
                let stem = crate::text::slice_chars(name, 0, i);
                let ext = crate::text::slice_chars(name, i + 1, name.len());
                assert(stem@ =~= name@.take(i as int));
                assert(ext@ =~= name@.skip(i + 1));
                (stem, Some(ext))
            } else {
                (crate::text::slice_chars(name, 0, name.len()), None)
            }
        },
        None => {
            let all = crate::text::slice_chars(name, 0, name.len());
            assert(all@ =~= name@);
            (all, None)
        },
    }
}

/// Joins a name onto a directory.
pub fn join_chars(dir: &Vec<char>, name: &Vec<char>) -> (res: Vec<char>)
    ensures
        res@ == join(dir@, name@),
{
    let mut res: Vec<char> = Vec::new();
    if name.len() > 0 && name[0] == '/' {
        crate::text::push_all(&mut res, name);
        assert(res@ =~= name@);
        return res;
    }
    crate::text::push_all(&mut res, dir);
    if !(dir.len() == 0 || dir[dir.len() - 1] == '/') {
        res.push('/');
    }
    crate::text::push_all(&mut res, name);
    res
}

/// `dir` joined with `name`, as `Path::new(dir).join(name)` spells it.
pub fn join_path(dir: &str, name: &str) -> (res: String)
    ensures
        res@ == join(dir@, name@),
{
    let d = crate::text::chars_of(dir);
    let n = crate::text::chars_of(name);
    let j = join_chars(&d, &n);
    crate::text::string_from_chars(&j)
}

/// The file name of a path, as `Path::new(path).file_name()` gives it.
pub fn path_file_name(path: &str) -> (res: Option<String>)
    ensures
        match res {
            Some(n) => file_name(path@) == Some(n@),
            None => file_name(path@) is None,
        },
{
    let p = crate::text::chars_of(path);
    match file_name_chars(&p) {
        Some(n) => Some(crate::text::string_from_chars(&n)),
        None => None,
    }
}

} // verus!

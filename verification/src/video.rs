//! Core video types and the recognised video file extensions.

use vstd::prelude::*;

use crate::paths::{
    extension, file_name, file_name_chars, lemma_rfind_char, name_extension, rfind_char,
    split_name,
};
use crate::text::{
    chars_eq, chars_of, lemma_split_on_append, lowercase, split_on, to_lowercase,
};

verus! {

/// State of a video file during a session.
#[derive(Clone, Copy, Debug, PartialEq, Eq, Structural)]
pub enum VideoFileState {
    /// Still in its original location.
    Active,
    /// Moved to `Good/`.
    Good,
    /// Moved to `Fine/`.
    Fine,
    /// Sent to the trash.
    Trashed,
}

/// A rectangle in pixel coordinates.
#[derive(Clone, Copy, Debug, PartialEq, Eq, Structural)]
pub struct Rect {
    pub x: i32,
    pub y: i32,
    pub width: i32,
    pub height: i32,
}

/// The supported video file extensions, lowercase.
pub open spec fn video_extensions_spec() -> Seq<Seq<char>> {
    seq![
        "mp4"@, "avi"@, "mkv"@, "mov"@, "wmv"@, "flv"@, "webm"@, "m4v"@, "3gp"@, "ogv"@, "ts"@,
        "m2ts"@, "mts"@, "mpg"@, "mpeg"@, "divx"@, "xvid"@, "rm"@, "rmvb"@, "asf"@, "vob"@,
    ]
}

/// The supported video file extensions, lowercase.
pub fn video_extensions() -> (res: Vec<Vec<char>>)
    ensures
        res.len() == video_extensions_spec().len(),
        forall|i: int| 0 <= i < res.len() ==> #[trigger] res@[i]@ == video_extensions_spec()[i],
{
    let mut v: Vec<Vec<char>> = Vec::new();
    v.push(chars_of("mp4"));
    v.push(chars_of("avi"));
    v.push(chars_of("mkv"));
    v.push(chars_of("mov"));
    v.push(chars_of("wmv"));
    v.push(chars_of("flv"));
    v.push(chars_of("webm"));
    v.push(chars_of("m4v"));
    v.push(chars_of("3gp"));
    v.push(chars_of("ogv"));
    v.push(chars_of("ts"));
    v.push(chars_of("m2ts"));
    v.push(chars_of("mts"));
    v.push(chars_of("mpg"));
    v.push(chars_of("mpeg"));
    v.push(chars_of("divx"));
    v.push(chars_of("xvid"));
    v.push(chars_of("rm"));
    v.push(chars_of("rmvb"));
    v.push(chars_of("asf"));
    v.push(chars_of("vob"));
    v
}

/// Whether a path names a video: the extension of its lowercased form is
/// one of the supported ones.
pub open spec fn is_video_path(path: Seq<char>) -> bool {
    match extension(lowercase(path)) {
        Some(e) => video_extensions_spec().contains(e),
        None => false,
    }
}

/// Law: a path names a video exactly when the text after the last dot of
/// its lowercased file name is one of the supported extensions, whatever
/// the part before that dot holds (more dots included). Stated for a
/// lowercased path `dir` + `stem` + `.` + `ext`, where `dir` is empty or
/// ends in `/`, and `stem` and `ext` are non-empty pieces without `/`
/// (and `ext` without `.`).
pub proof fn lemma_video_by_last_extension(
    path: Seq<char>,
    dir: Seq<char>,
    stem: Seq<char>,
    ext: Seq<char>,
)
    requires
        lowercase(path) == dir + stem + seq!['.'] + ext,
        dir.len() == 0 || dir.last() == '/',
        stem.len() > 0,
        ext.len() > 0,
        forall|i: int| 0 <= i < stem.len() ==> stem[i] != '/',
        forall|i: int| 0 <= i < ext.len() ==> ext[i] != '/' && ext[i] != '.',
    ensures
        is_video_path(path) == video_extensions_spec().contains(ext),
{
    let name = stem + seq!['.'] + ext;
    let lp = lowercase(path);
    assert(lp =~= dir + name);
    assert forall|i: int| 0 <= i < name.len() implies name[i] != '/' by {
        if i < stem.len() {
            assert(name[i] == stem[i]);
        } else if i > stem.len() {
            assert(name[i] == ext[i - stem.len() - 1]);
        }
    }
    lemma_split_on_append(dir, name, '/');
    let sp = split_on(dir, '/');
    if dir.len() == 0 {
        assert(sp =~= seq![Seq::<char>::empty()]);
    } else {
        assert(sp.last() =~= Seq::<char>::empty());
    }
    assert(sp.last() + name =~= name);
    let whole = split_on(dir + name, '/');
    assert(whole.last() == name);
    assert(name.len() >= 3);
    assert(name != seq!['.']);
    assert(name != seq!['.', '.']);
    assert(file_name(lp) == Some(name));
    lemma_rfind_char(name, '.');
    let k = stem.len() as int;
    assert(name[k] == '.');
    match rfind_char(name, '.') {
        Some(i) => {
            if i > k {
                assert(name[i] == ext[i - k - 1]);
            }
            assert(i == k);
        },
        None => {},
    }
    assert(name.skip(k + 1) =~= ext);
    assert(name_extension(name) == Some(ext));
    assert(extension(lp) == Some(ext));
}

/// Whether `s` is one of the supported extensions.
fn is_listed_extension(s: &Vec<char>) -> (res: bool)
    ensures
        res == video_extensions_spec().contains(s@),
{
    let exts = video_extensions();
    let mut i: usize = 0;
    while i < exts.len()
        invariant
            i <= exts.len(),
            exts.len() == video_extensions_spec().len(),
            forall|k: int| 0 <= k < exts.len() ==> #[trigger] exts@[k]@ == video_extensions_spec()[k],
            forall|k: int| 0 <= k < i ==> video_extensions_spec()[k] != s@,
        decreases exts.len() - i,
    {
        if chars_eq(&exts[i], s) {
            assert(video_extensions_spec()[i as int] == s@);
            return true;
        }
        i += 1;
    }
    false
}

/// Checks whether a file path has a video extension (case-insensitive).
pub fn is_video_extension(path: &str) -> (res: bool)
    ensures
        res == is_video_path(path@),
{
    let lower = to_lowercase(path);
    let p = chars_of(lower.as_str());
    match file_name_chars(&p) {
        Some(name) => {
            let (_stem, ext) = split_name(&name);
            match ext {
                Some(e) => is_listed_extension(&e),
                None => false,
            }
        },
        None => false,
    }
}

} // verus!

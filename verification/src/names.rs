//! File names: extensions, stems, supported image types and the names of the
//! files that a split writes.
use vstd::prelude::*;
use crate::text::{chars_eq, chars_of, lower_chars, lower_seq, push_chars, push_str, slice_chars, string_of};

verus! {

/// Index of the last `'.'` in `s`, if any.
pub open spec fn last_dot(s: Seq<char>) -> Option<int>
    decreases s.len(),
{
    if s.len() == 0 {
        None
    } else if s.last() == '.' {
        Some(s.len() - 1)
    } else {
        last_dot(s.drop_last())
    }
}

/// `Path::extension` of a file name: the text after the final `'.'`, absent
/// when there is no `'.'` or the only one opens the name.
pub open spec fn file_extension(name: Seq<char>) -> Option<Seq<char>> {
    match last_dot(name) {
        Some(i) => if i == 0 {
            None
        } else {
            Some(name.subrange(i + 1, name.len() as int))
        },
        None => None,
    }
}

/// `Path::file_stem` of a file name: the text before the final `'.'`, or the
/// whole name when it has no extension.
pub open spec fn file_stem(name: Seq<char>) -> Seq<char> {
    match last_dot(name) {
        Some(i) => if i == 0 {
            name
        } else {
            name.subrange(0, i)
        },
        None => name,
    }
}

/// The image extensions that the tools accept, lower case.
pub open spec fn is_image_ext_lower(e: Seq<char>) -> bool {
    e == seq!['j', 'p', 'g'] || e == seq!['j', 'p', 'e', 'g'] || e == seq!['p', 'n', 'g'] || e
        == seq!['w', 'e', 'b', 'p'] || e == seq!['b', 'm', 'p'] || e == seq!['t', 'i', 'f'] || e
        == seq!['t', 'i', 'f', 'f'] || e == seq!['g', 'i', 'f']
}

/// A file name whose extension, ignoring ASCII case, is a supported image type.
pub open spec fn is_supported_name(name: Seq<char>) -> bool {
    match file_extension(name) {
        Some(e) => is_image_ext_lower(lower_seq(e)),
        None => false,
    }
}

/// Exec form of [`last_dot`].
pub fn find_last_dot(v: &Vec<char>) -> (r: Option<usize>)
    ensures
        r matches Some(i) ==> last_dot(v@) == Some(i as int),
        r is None ==> last_dot(v@) is None,
        r matches Some(i) ==> i < v@.len(),
{
    let mut j = v.len();
    proof {
        lemma_last_dot_full(v@);
    }
    while j > 0
        invariant
            j <= v@.len(),
            last_dot(v@) == last_dot(v@.subrange(0, j as int)),
        decreases j,
    {
        let ghost p = v@.subrange(0, j as int);
        assert(p.drop_last() =~= v@.subrange(0, j - 1));
        if v[j - 1] == '.' {
            assert(p.last() == v@[j - 1]);
            return Some(j - 1);
        }
        j = j - 1;
    }
    assert(v@.subrange(0, 0).len() == 0);
    None
}

proof fn lemma_last_dot_full(s: Seq<char>)
    ensures
        last_dot(s) == last_dot(s.subrange(0, s.len() as int)),
{
    assert(s.subrange(0, s.len() as int) =~= s);
}

/// `Path::extension` of the file name `v`.
pub fn extension_of(v: &Vec<char>) -> (r: Option<Vec<char>>)
    ensures
        match r {
            Some(e) => file_extension(v@) == Some(e@),
            None => file_extension(v@) is None,
        },
{
    let n = v.len();
    match find_last_dot(v) {
        Some(i) => {
            if i == 0 {
                None
            } else {
                Some(slice_chars(v, i + 1, n))
            }
        },
        None => None,
    }
}

/// `Path::file_stem` of the file name `v`.
pub fn stem_of(v: &Vec<char>) -> (r: Vec<char>)
    ensures
        r@ == file_stem(v@),
{
    match find_last_dot(v) {
        Some(i) => {
            if i == 0 {
                slice_chars(v, 0, v.len())
            } else {
                slice_chars(v, 0, i)
            }
        },
        None => slice_chars(v, 0, v.len()),
    }
}

fn chars_eq_lit(v: &Vec<char>, lit: Vec<char>) -> (r: bool)
    ensures
        r == (v@ == lit@),
{
    chars_eq(v, &lit)
}

/// Whether a lower-case extension names a supported image type.
pub fn is_image_ext(lower: &Vec<char>) -> (b: bool)
    ensures
        b == is_image_ext_lower(lower@),
{
    let r = chars_eq_lit(lower, vec!['j', 'p', 'g']) || chars_eq_lit(lower, vec!['j', 'p', 'e', 'g'])
        || chars_eq_lit(lower, vec!['p', 'n', 'g']) || chars_eq_lit(lower, vec!['w', 'e', 'b', 'p'])
        || chars_eq_lit(lower, vec!['b', 'm', 'p']) || chars_eq_lit(lower, vec!['t', 'i', 'f'])
        || chars_eq_lit(lower, vec!['t', 'i', 'f', 'f']) || chars_eq_lit(lower, vec!['g', 'i', 'f']);
    r
}

/// Whether the file name carries a supported image extension, ignoring ASCII
/// case (the extension filter of the split, rename and upload tools).
pub fn is_supported_image(name: &str) -> (b: bool)
    ensures
        b == is_supported_name(name@),
{
    let v = chars_of(name);
    match extension_of(&v) {
        Some(e) => {
            let l = lower_chars(&e);
            is_image_ext(&l)
        },
        None => false,
    }
}

/// The artifact filter: the same test as [`is_supported_image`].
pub fn is_image_extension(name: &str) -> (b: bool)
    ensures
        b == is_supported_name(name@),
{
    is_supported_image(name)
}

/// The manual-split source filter: the same test as [`is_supported_image`].
pub fn is_supported_manual_image(name: &str) -> (b: bool)
    ensures
        b == is_supported_name(name@),
{
    is_supported_image(name)
}

/// `".ext"` when the name has an extension, empty otherwise.
pub open spec fn dotted_extension(name: Seq<char>) -> Seq<char> {
    match file_extension(name) {
        Some(e) => seq!['.'] + e,
        None => Seq::empty(),
    }
}

/// `stem + tag + ".ext"`: the name of a file derived from `name`.
pub open spec fn derived_name(name: Seq<char>, tag: Seq<char>) -> Seq<char> {
    file_stem(name) + tag + dotted_extension(name)
}

/// The file name derived from `name` by inserting `tag` between its stem and
/// its extension, as the split outputs are named (`page_R.png`).
pub fn derive_name(name: &str, tag: &str) -> (r: String)
    ensures
        r@ == derived_name(name@, tag@),
{
    let v = chars_of(name);
    let mut out = stem_of(&v);
    push_str(&mut out, tag);
    match extension_of(&v) {
        Some(e) => {
            out.push('.');
            push_chars(&mut out, &e);
        },
        None => {},
    }
    let r = string_of(&out);
    assert(r@ =~= derived_name(name@, tag@));
    r
}

/// `Path::join` of a directory and a relative file name: the name alone under
/// an empty directory, otherwise the two with one `'/'` between them.
pub open spec fn joined_path(dir: Seq<char>, name: Seq<char>) -> Seq<char> {
    if dir.len() == 0 {
        name
    } else if dir.last() == '/' {
        dir + name
    } else {
        dir + seq!['/'] + name
    }
}

/// The path of the file `name` inside `dir` (see [`joined_path`]).
pub fn join_path(dir: &str, name: &str) -> (r: String)
    ensures
        r@ == joined_path(dir@, name@),
{
    let mut out = chars_of(dir);
    if out.len() > 0 && out[out.len() - 1] != '/' {
        out.push('/');
    }
    push_str(&mut out, name);
    let r = string_of(&out);
    assert(r@ =~= joined_path(dir@, name@));
    r
}

proof fn lemma_last_dot_before(prefix: Seq<char>, ext: Seq<char>)
    requires
        forall|i: int| 0 <= i < ext.len() ==> ext[i] != '.',
    ensures
        last_dot(prefix.push('.') + ext) == Some(prefix.len() as int),
    decreases ext.len(),
{
    let s = prefix.push('.') + ext;
    if ext.len() == 0 {
        assert(s =~= prefix.push('.'));
    } else {
        assert(s.last() == ext.last());
        assert(s.drop_last() =~= prefix.push('.') + ext.drop_last());
        lemma_last_dot_before(prefix, ext.drop_last());
    }
}

/// A file `stem.ext` (a non-empty stem, an extension without `'.'`) counts as
/// an image exactly when its extension, ignoring ASCII case, is one of `jpg`,
/// `jpeg`, `png`, `webp`, `bmp`, `tif`, `tiff` and `gif`.
pub proof fn lemma_supported_extensions(stem: Seq<char>, ext: Seq<char>)
    requires
        stem.len() > 0,
        forall|i: int| 0 <= i < ext.len() ==> ext[i] != '.',
    ensures
        file_extension(stem.push('.') + ext) == Some(ext),
        is_supported_name(stem.push('.') + ext) <==> {
            let e = lower_seq(ext);
            ||| e == seq!['j', 'p', 'g']
            ||| e == seq!['j', 'p', 'e', 'g']
            ||| e == seq!['p', 'n', 'g']
            ||| e == seq!['w', 'e', 'b', 'p']
            ||| e == seq!['b', 'm', 'p']
            ||| e == seq!['t', 'i', 'f']
            ||| e == seq!['t', 'i', 'f', 'f']
            ||| e == seq!['g', 'i', 'f']
        },
{
    let name = stem.push('.') + ext;
    lemma_last_dot_before(stem, ext);
    assert(name.subrange(stem.len() + 1 as int, name.len() as int) =~= ext);
}

} // verus!

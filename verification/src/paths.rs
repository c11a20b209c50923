//! Unix path handling on text: joining (`Path::join`), and the final
//! component of a path with its stem and extension (`Path::file_name`,
//! `Path::file_stem`, `Path::extension`). Paths are `/`-separated strings.
use vstd::prelude::*;

use crate::text::{append_chars, char_vecs, chars_of, split_chars, split_fields, string_of};

verus! {

broadcast use vstd::string::group_string_axioms;

/// `base.join(part)` on Unix: an absolute `part` replaces `base`; otherwise
/// `part` is appended, after a `/` when `base` is not empty and does not
/// already end in one.
pub open spec fn join(base: Seq<char>, part: Seq<char>) -> Seq<char> {
    if part.len() > 0 && part[0] == '/' {
        part
    } else if base.len() > 0 && base.last() != '/' {
        base + seq!['/'] + part
    } else {
        base + part
    }
}

/// `Path::new(base).join(part)`, as text.
pub fn join_path(base: &str, part: &str) -> (out: String)
    ensures
        out@ == join(base@, part@),
{
    let b = chars_of(base);
    let p = chars_of(part);
    if p.len() > 0 && p[0] == '/' {
        return string_of(&p);
    }
    let mut out = b;
    if out.len() > 0 && out[out.len() - 1] != '/' {
        out.push('/');
    }
    append_chars(&mut out, &p);
    string_of(&out)
}

/// The index of the last `c` in `s`, or -1.
pub open spec fn last_index_of(s: Seq<char>, c: char) -> int
    decreases s.len(),
{
    if s.len() == 0 {
        -1
    } else if s.last() == c {
        s.len() - 1
    } else {
        last_index_of(s.drop_last(), c)
    }
}

/// The index of the last `c` in `v`, if there is one.
pub fn last_index_of_exec(v: &Vec<char>, c: char) -> (k: Option<usize>)
    ensures
        match k {
            Some(i) => i == last_index_of(v@, c) && i < v.len(),
            None => last_index_of(v@, c) == -1,
        },
{
    let mut i: usize = v.len();
    assert(v@.take(i as int) =~= v@);
    while i > 0
        invariant
            i <= v.len(),
            last_index_of(v@, c) == last_index_of(v@.take(i as int), c),
        decreases i,
    {
        let ghost t = v@.take(i as int);
        assert(t.drop_last() =~= v@.take(i - 1));
        if v[i - 1] == c {
            return Some(i - 1);
        }
        i = i - 1;
    }
    None
}

/// The last of `fields` that names a component: neither empty (a repeated
/// or trailing `/`) nor `.`.
pub open spec fn last_named(fields: Seq<Seq<char>>) -> Option<Seq<char>>
    decreases fields.len(),
{
    if fields.len() == 0 {
        None
    } else if fields.last().len() > 0 && fields.last() != seq!['.'] {
        Some(fields.last())
    } else {
        last_named(fields.drop_last())
    }
}

/// `Path::file_name`: the final named component, unless it is `..`.
pub open spec fn file_name(p: Seq<char>) -> Option<Seq<char>> {
    match last_named(split_fields(p, '/')) {
        Some(n) => if n == seq!['.', '.'] {
            None
        } else {
            Some(n)
        },
        None => None,
    }
}

/// The stem of a file name: the part before the last `.`, unless that `.`
/// is the first character or there is none.
pub open spec fn name_stem(name: Seq<char>) -> Seq<char> {
    let k = last_index_of(name, '.');
    if k <= 0 {
        name
    } else {
        name.subrange(0, k)
    }
}

/// `Path::file_stem`.
pub open spec fn file_stem(p: Seq<char>) -> Option<Seq<char>> {
    match file_name(p) {
        Some(n) => Some(name_stem(n)),
        None => None,
    }
}

/// `Path::extension` of a single file name: the part after the last `.`,
/// unless that `.` is the first character or there is none, or the name is
/// `..`.
pub open spec fn name_extension(name: Seq<char>) -> Option<Seq<char>> {
    let k = last_index_of(name, '.');
    if name == seq!['.', '.'] || k <= 0 {
        None
    } else {
        Some(name.subrange(k + 1, name.len() as int))
    }
}

fn is_dot_dot(v: &Vec<char>) -> (b: bool)
    ensures
        b == (v@ == seq!['.', '.']),
{
    let b = v.len() == 2 && v[0] == '.' && v[1] == '.';
    if b {
        assert(v@ =~= seq!['.', '.']);
    }
    b
}

fn is_named(v: &Vec<char>) -> (b: bool)
    ensures
        b == (v@.len() > 0 && v@ != seq!['.']),
{
    if v.len() == 0 {
        return false;
    }
    if v.len() == 1 && v[0] == '.' {
        assert(v@ =~= seq!['.']);
        return false;
    }
    assert(v@.len() != 1 || v@[0] != '.');
    true
}

/// `name_stem(name)`.
pub fn stem_chars(name: &Vec<char>) -> (out: Vec<char>)
    ensures
        out@ == name_stem(name@),
{
    match last_index_of_exec(name, '.') {
        Some(k) => if k == 0 {
            crate::text::sub_chars(name, 0, name.len())
        } else {
            crate::text::sub_chars(name, 0, k)
        },
        None => crate::text::sub_chars(name, 0, name.len()),
    }
}

/// `name_extension(name)`.
pub fn extension_chars(name: &Vec<char>) -> (out: Option<Vec<char>>)
    ensures
        match out {
            Some(e) => name_extension(name@) == Some(e@),
            None => name_extension(name@) is None,
        },
{
    if is_dot_dot(name) {
        return None;
    }
    match last_index_of_exec(name, '.') {
        Some(k) => if k == 0 {
            None
        } else {
            Some(crate::text::sub_chars(name, k + 1, name.len()))
        },
        None => None,
    }
}

/// `Path::new(p).file_name()`, as characters.
pub fn file_name_chars(p: &Vec<char>) -> (out: Option<Vec<char>>)
    ensures
        match out {
            Some(n) => file_name(p@) == Some(n@),
            None => file_name(p@) is None,
        },
{
    let fields = split_chars(p, '/');
    let mut i: usize = fields.len();
    assert(char_vecs(fields@).take(i as int) =~= char_vecs(fields@));
    while i > 0
        invariant
            i <= fields.len(),
            char_vecs(fields@) == split_fields(p@, '/'),
            last_named(char_vecs(fields@)) == last_named(char_vecs(fields@).take(i as int)),
        decreases i,
    {
        let ghost t = char_vecs(fields@).take(i as int);
        assert(t.drop_last() =~= char_vecs(fields@).take(i - 1));
        assert(t.last() == fields@[i - 1]@);
        if is_named(&fields[i - 1]) {
            if is_dot_dot(&fields[i - 1]) {
                return None;
            }
            let mut v: Vec<char> = Vec::new();
            append_chars(&mut v, &fields[i - 1]);
            assert(v@ =~= fields@[i - 1]@);
            return Some(v);
        }
        i = i - 1;
    }
    None
}

} // verus!

//! Paths and file names as text.
use crate::text::{chars_of, string_of};
use vstd::prelude::*;

verus! {

/// `dir`, a slash and `name`.
pub open spec fn joined(dir: Seq<char>, name: Seq<char>) -> Seq<char> {
    dir + seq!['/'] + name
}

/// `dir`, a slash and `name`.
pub fn join(dir: &str, name: &str) -> (path: String)
    ensures
        path@ == joined(dir@, name@),
{
    let mut chars = chars_of(dir);
    let mut rest = chars_of(name);
    chars.push('/');
    chars.append(&mut rest);
    string_of(&chars)
}

/// The last place of `c` in `s`, or -1 where `s` has none.
pub open spec fn last_index_of(s: Seq<char>, c: char) -> int
    decreases s.len(),
{
    if s.len() == 0 {
        -1
    } else if s.last() == c {
        s.len() - 1
    } else {
        last_index_of(s.drop_last(), c)
    }
}

/// Where the name of the file begins in a path: behind its last slash.
pub open spec fn name_start(path: Seq<char>) -> int {
    last_index_of(path, '/') + 1
}

/// The place in a path of the point before its extension, or -1 where it has no
/// extension. The extension is what follows the last point of the file's name; a name
/// that only begins with a point has none, nor has the name `..`.
pub open spec fn extension_point(path: Seq<char>) -> int {
    let name = path.skip(name_start(path));
    let point = last_index_of(name, '.');
    if point <= 0 || name == seq!['.', '.'] {
        -1
    } else {
        name_start(path) + point
    }
}

/// The path without its extension and the point before it.
pub open spec fn without_extension(path: Seq<char>) -> Seq<char> {
    if extension_point(path) < 0 {
        path
    } else {
        path.take(extension_point(path))
    }
}

/// The extension of a path, if it has one.
pub open spec fn extension_of(path: Seq<char>) -> Option<Seq<char>> {
    if extension_point(path) < 0 {
        None
    } else {
        Some(path.skip(extension_point(path) + 1))
    }
}

/// The last place of `c` in `v` at or after `from`, counted from `from`, if there is one.
pub fn find_last(v: &Vec<char>, from: usize, c: char) -> (found: Option<usize>)
    requires
        from <= v.len(),
    ensures
        match found {
            Some(i) => last_index_of(v@.skip(from as int), c) == i && i < v.len() - from,
            None => last_index_of(v@.skip(from as int), c) == -1,
        },
{
    let ghost s = v@.skip(from as int);
    let mut found: Option<usize> = None;
    let mut i: usize = from;
    while i < v.len()
        invariant
            from <= i <= v.len(),
            s == v@.skip(from as int),
            match found {
                Some(k) => last_index_of(s.take(i - from), c) == k && k < i - from,
                None => last_index_of(s.take(i - from), c) == -1,
            },
        decreases v.len() - i,
    {
        proof {
            assert(s.take(i - from + 1).drop_last() =~= s.take(i - from));
        }
        if v[i] == c {
            found = Some(i - from);
        }
        i += 1;
    }
    assert(s.take(v.len() - from) =~= s);
    found
}

/// The place of the point before the extension of the path `v`, if it has one.
pub fn find_extension_point(v: &Vec<char>) -> (found: Option<usize>)
    ensures
        match found {
            Some(i) => extension_point(v@) == i && i < v.len(),
            None => extension_point(v@) == -1,
        },
{
    assert(v@.skip(0) =~= v@);
    let start = match find_last(v, 0, '/') {
        Some(i) => i + 1,
        None => 0,
    };
    let ghost name = v@.skip(start as int);
    match find_last(v, start, '.') {
        None => None,
        Some(point) => {
            let both_points = v.len() - start == 2 && v[start] == '.' && v[start + 1] == '.';
            proof {
                if both_points {
                    assert(name =~= seq!['.', '.']);
                }
            }
            if point == 0 || both_points {
                None
            } else {
                Some(start + point)
            }
        },
    }
}

/// Whether a path has the extension `.xml` of a PASCAL VOC file.
pub open spec fn names_pascal_file(path: Seq<char>) -> bool {
    extension_of(path) == Some(seq!['x', 'm', 'l'])
}

/// Whether a path has the extension of an image: `.png`, `.jpg` or `.jpeg`.
pub open spec fn names_image(path: Seq<char>) -> bool {
    ||| extension_of(path) == Some(seq!['p', 'n', 'g'])
    ||| extension_of(path) == Some(seq!['j', 'p', 'g'])
    ||| extension_of(path) == Some(seq!['j', 'p', 'e', 'g'])
}

/// The name of the label file of an image: the image's name up to its last point, or
/// all of it where it has none, and `.txt`.
pub open spec fn label_file_name(image: Seq<char>) -> Seq<char> {
    let point = last_index_of(image, '.');
    let base = if point < 0 {
        image
    } else {
        image.take(point)
    };
    base + seq!['.', 't', 'x', 't']
}

/// Whether the characters of `v` are those of `word`.
fn spells(v: &Vec<char>, word: &Vec<char>) -> (b: bool)
    ensures
        b == (v@ == word@),
{
    if v.len() != word.len() {
        return false;
    }
    let mut i: usize = 0;
    while i < v.len()
        invariant
            i <= v.len(),
            v.len() == word.len(),
            v@.take(i as int) == word@.take(i as int),
        decreases v.len() - i,
    {
        if v[i] != word[i] {
            return false;
        }
        i += 1;
    }
    assert(v@.take(i as int) =~= v@ && word@.take(i as int) =~= word@);
    true
}

/// The extension of the path `v`, if it has one.
fn extension_chars(v: &Vec<char>) -> (ext: Option<Vec<char>>)
    ensures
        match ext {
            Some(e) => extension_of(v@) == Some(e@),
            None => extension_of(v@) is None,
        },
{
    match find_extension_point(v) {
        Some(point) => {
            let mut ext: Vec<char> = Vec::new();
            let mut i = point + 1;
            while i < v.len()
                invariant
                    point < i <= v.len(),
                    ext@ == v@.subrange(point + 1, i as int),
                decreases v.len() - i,
            {
                ext.push(v[i]);
                i += 1;
            }
            Some(ext)
        },
        None => None,
    }
}

/// Whether `path` has the extension `.xml`.
pub fn is_pascal_file(path: &str) -> (b: bool)
    ensures
        b == names_pascal_file(path@),
{
    match extension_chars(&chars_of(path)) {
        Some(ext) => {
            let xml = vec!['x', 'm', 'l'];
            spells(&ext, &xml)
        },
        None => false,
    }
}

/// Whether `path` has the extension of an image.
pub fn is_image_file(path: &str) -> (b: bool)
    ensures
        b == names_image(path@),
{
    match extension_chars(&chars_of(path)) {
        Some(ext) => {
            let png = vec!['p', 'n', 'g'];
            let jpg = vec!['j', 'p', 'g'];
            let jpeg = vec!['j', 'p', 'e', 'g'];
            spells(&ext, &png) || spells(&ext, &jpg) || spells(&ext, &jpeg)
        },
        None => false,
    }
}

/// The name of the label file of the image `image`.
pub fn replace_to_txt(image: &str) -> (name: String)
    ensures
        name@ == label_file_name(image@),
{
    let mut chars = chars_of(image);
    assert(chars@.skip(0) =~= chars@);
    match find_last(&chars, 0, '.') {
        Some(point) => {
            chars.truncate(point);
        },
        None => {},
    }
    chars.push('.');
    chars.push('t');
    chars.push('x');
    chars.push('t');
    string_of(&chars)
}

} // verus!

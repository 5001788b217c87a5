//! Paths as texts: putting a directory and a name together, and taking the
//! name of a file from its path. Components are separated by `/`.

use crate::text::{
    chars_of, part_views, pieces_of, split_at_char, string_of,
};
use vstd::prelude::*;

verus! {

/// `rel` below the directory `base`: the two with one `/` between them, and
/// `rel` alone where `base` is empty.
pub open spec fn joined_path(base: Seq<char>, rel: Seq<char>) -> Seq<char> {
    if base.len() == 0 {
        rel
    } else if base.last() == '/' {
        base + rel
    } else {
        base + seq!['/'] + rel
    }
}

/// Puts `rel` below the directory `base`: see `joined_path`.
pub fn join_path(base: &str, rel: &str) -> (path: String)
    ensures
        path@ == joined_path(base@, rel@),
{
    let mut out = chars_of(base);
    let tail = chars_of(rel);
    if out.len() > 0 && out[out.len() - 1] != '/' {
        out.push('/');
    }
    let mut i: usize = 0;
    let ghost head = out@;
    while i < tail.len()
        invariant
            i <= tail.len(),
            out@ == head + tail@.take(i as int),
        decreases tail.len() - i,
    {
        out.push(tail[i]);
        proof {
            assert(head + tail@.take(i + 1) =~= (head + tail@.take(i as int)).push(tail@[i as int]));
        }
        i += 1;
    }
    proof {
        assert(tail@.take(tail.len() as int) == tail@);
        assert(out@ =~= joined_path(base@, rel@));
    }
    string_of(&out)
}

/// `piece` names something: it is not empty and not the one dot that stands
/// for the directory itself.
pub open spec fn is_component(piece: Seq<char>) -> bool {
    piece.len() > 0 && piece != seq!['.']
}

/// The last of `pieces` that names something.
pub open spec fn last_component(pieces: Seq<Seq<char>>) -> Option<Seq<char>>
    decreases pieces.len(),
{
    if pieces.len() == 0 {
        None
    } else if is_component(pieces.last()) {
        Some(pieces.last())
    } else {
        last_component(pieces.drop_last())
    }
}

/// The name of the file at `path`: its last component, and none where the
/// path has no component or ends in the two dots that stand for the
/// directory above.
pub open spec fn base_name(path: Seq<char>) -> Option<Seq<char>> {
    match last_component(pieces_of(path, '/')) {
        Some(name) => if name == seq!['.', '.'] {
            None
        } else {
            Some(name)
        },
        None => None,
    }
}

/// Computes `base_name` of a path given as characters.
pub fn base_name_of(path: &Vec<char>) -> (name: Option<Vec<char>>)
    ensures
        name is Some <==> base_name(path@) is Some,
        name matches Some(n) ==> base_name(path@) == Some(n@),
{
    let mut pieces = split_at_char(path, '/');
    let ghost all = part_views(pieces@);
    loop
        invariant
            last_component(part_views(pieces@)) == last_component(all),
            all == pieces_of(path@, '/'),
        decreases pieces@.len(),
    {
        let ghost before = part_views(pieces@);
        match pieces.pop() {
            None => {
                return None;
            },
            Some(piece) => {
                proof {
                    assert(before.drop_last() =~= part_views(pieces@));
                    assert(before.last() == piece@);
                }
                let dot = piece.len() == 1 && piece[0] == '.';
                proof {
                    assert(dot <==> piece@ == seq!['.']) by {
                        if piece@.len() == 1 && piece@[0] == '.' {
                            assert(piece@ =~= seq!['.']);
                        }
                    }
                }
                if piece.len() > 0 && !dot {
                    let up = piece.len() == 2 && piece[0] == '.' && piece[1] == '.';
                    proof {
                        if up {
                            assert(piece@ =~= seq!['.', '.']);
                        }
                    }
                    if up {
                        return None;
                    }
                    return Some(piece);
                }
            },
        }
    }
}

/// The name of the file at `path`: see `base_name`.
pub fn file_name(path: &str) -> (name: Option<String>)
    ensures
        crate::text::text_of(name) == base_name(path@),
{
    let chars = chars_of(path);
    match base_name_of(&chars) {
        Some(n) => Some(string_of(&n)),
        None => None,
    }
}

/// The position of the last `c` in `s`, and `-1` where it holds none.
pub open spec fn last_of(s: Seq<char>, c: char) -> int
    decreases s.len(),
{
    if s.len() == 0 {
        -1
    } else if s.last() == c {
        s.len() - 1
    } else {
        last_of(s.drop_last(), c)
    }
}

/// The name of a file without its extension: what stands before the last
/// dot, and the whole name where it holds no dot or only the one it starts
/// with.
pub open spec fn stem_of(name: Seq<char>) -> Seq<char> {
    if last_of(name, '.') <= 0 {
        name
    } else {
        name.take(last_of(name, '.'))
    }
}

/// The name of the file at `path` without its extension.
pub open spec fn base_stem(path: Seq<char>) -> Option<Seq<char>> {
    match base_name(path) {
        Some(name) => Some(stem_of(name)),
        None => None,
    }
}

/// Computes `base_stem` of a path given as characters.
pub fn base_stem_of(path: &Vec<char>) -> (stem: Option<Vec<char>>)
    ensures
        stem is Some <==> base_stem(path@) is Some,
        stem matches Some(s) ==> base_stem(path@) == Some(s@),
{
    match base_name_of(path) {
        Some(name) => {
            let mut i: usize = name.len();
            proof {
                assert(name@.take(name.len() as int) == name@);
            }
            while i > 0 && name[i - 1] != '.'
                invariant
                    i <= name.len(),
                    last_of(name@, '.') == last_of(name@.take(i as int), '.'),
                decreases i,
            {
                proof {
                    assert(name@.take(i as int).drop_last() == name@.take(i - 1));
                    assert(name@.take(i as int).last() == name@[i - 1]);
                }
                i -= 1;
            }
            proof {
                if i > 0 {
                    assert(name@.take(i as int).last() == name@[i - 1]);
                }
            }
            if i <= 1 {
                Some(name)
            } else {
                let stem = crate::text::slice_chars(&name, 0, i - 1);
                proof {
                    assert(name@.subrange(0, i - 1) =~= name@.take(i - 1));
                }
                Some(stem)
            }
        },
        None => None,
    }
}

/// The name of the file at `path` without its extension: see `base_stem`.
pub fn file_stem(path: &str) -> (stem: Option<String>)
    ensures
        crate::text::text_of(stem) == base_stem(path@),
{
    let chars = chars_of(path);
    match base_stem_of(&chars) {
        Some(s) => Some(string_of(&s)),
        None => None,
    }
}

/// The extension of the name of a file: what stands behind the last dot,
/// and none where the name holds no dot or only the one it starts with.
pub open spec fn extension_of(name: Seq<char>) -> Option<Seq<char>> {
    if last_of(name, '.') <= 0 {
        None
    } else {
        Some(name.skip(last_of(name, '.') + 1))
    }
}

/// The extension of the file at `path`.
pub open spec fn base_extension(path: Seq<char>) -> Option<Seq<char>> {
    match base_name(path) {
        Some(name) => extension_of(name),
        None => None,
    }
}

/// The extension of the file at `path`: see `base_extension`.
pub fn file_extension(path: &str) -> (extension: Option<String>)
    ensures
        crate::text::text_of(extension) == base_extension(path@),
{
    let chars = chars_of(path);
    match base_name_of(&chars) {
        Some(name) => {
            let mut i: usize = name.len();
            proof {
                assert(name@.take(name.len() as int) == name@);
            }
            while i > 0 && name[i - 1] != '.'
                invariant
                    i <= name.len(),
                    last_of(name@, '.') == last_of(name@.take(i as int), '.'),
                decreases i,
            {
                proof {
                    assert(name@.take(i as int).drop_last() == name@.take(i - 1));
                    assert(name@.take(i as int).last() == name@[i - 1]);
                }
                i -= 1;
            }
            proof {
                if i > 0 {
                    assert(name@.take(i as int).last() == name@[i - 1]);
                }
            }
            if i <= 1 {
                None
            } else {
                let tail = crate::text::slice_chars(&name, i, name.len());
                proof {
                    assert(name@.subrange(i as int, name@.len() as int) =~= name@.skip(i as int));
                }
                Some(string_of(&tail))
            }
        },
        None => None,
    }
}

/// Whether the file at `path` has the extension `extension`.
pub fn has_extension(path: &str, extension: &str) -> (r: bool)
    ensures
        r == (base_extension(path@) == Some(extension@)),
{
    match file_extension(path) {
        Some(found) => {
            let wanted: String = extension.to_owned();
            found == wanted
        },
        None => false,
    }
}

} // verus!

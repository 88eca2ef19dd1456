//! Paths read by their components, as the display's platform (Windows) reads
//! them: `/` and `\` both separate components, repeated separators and a
//! trailing separator are ignored, and `.` is dropped except at the start of
//! a relative path. Two paths are the same when both or neither start at the
//! root and their components agree; a path's file name is its last component
//! unless that is `.` or `..`.

use vstd::prelude::*;

use crate::text::{chars_equal, chars_of, split_char, split_on, string_from_chars, sub_chars};

verus! {

/// A separator written as `/`.
pub open spec fn slash(c: char) -> char {
    if c == '\\' {
        '/'
    } else {
        c
    }
}

/// The path with every separator written as `/`.
pub open spec fn slashed(s: Seq<char>) -> Seq<char> {
    s.map_values(|c: char| slash(c))
}

/// The path starts at the root.
pub open spec fn is_rooted(s: Seq<char>) -> bool {
    s.len() > 0 && (s[0] == '/' || s[0] == '\\')
}

/// The pieces between separators that are components: empty pieces are
/// dropped, and so is `.` anywhere but first.
pub open spec fn kept(pieces: Seq<Seq<char>>) -> Seq<Seq<char>>
    decreases pieces.len(),
{
    if pieces.len() == 0 {
        Seq::empty()
    } else {
        let before = kept(pieces.drop_last());
        let piece = pieces.last();
        if piece.len() > 0 && (piece != seq!['.'] || pieces.len() == 1) {
            before.push(piece)
        } else {
            before
        }
    }
}

/// The components of a path.
pub open spec fn components(path: Seq<char>) -> Seq<Seq<char>> {
    kept(split_on(slashed(path), '/'))
}

/// Two paths name the same place by their components.
pub open spec fn same_path(a: Seq<char>, b: Seq<char>) -> bool {
    is_rooted(a) == is_rooted(b) && components(a) == components(b)
}

/// The file name of a path: its last component, or nothing (empty) when the
/// path has none or ends in `.` or `..`.
pub open spec fn file_name(path: Seq<char>) -> Seq<char> {
    let c = components(path);
    if c.len() > 0 && c.last() != seq!['.'] && c.last() != seq!['.', '.'] {
        c.last()
    } else {
        Seq::empty()
    }
}

fn is_dot(piece: &[char]) -> (dot: bool)
    ensures
        dot == (piece@ == seq!['.']),
{
    if piece.len() == 1 && piece[0] == '.' {
        assert(piece@ =~= seq!['.']);
        true
    } else {
        false
    }
}

fn is_dot_dot(piece: &[char]) -> (dots: bool)
    ensures
        dots == (piece@ == seq!['.', '.']),
{
    if piece.len() == 2 && piece[0] == '.' && piece[1] == '.' {
        assert(piece@ =~= seq!['.', '.']);
        true
    } else {
        false
    }
}

/// The components of a path.
pub fn path_components(path: &str) -> (parts: Vec<Vec<char>>)
    ensures
        parts@.map_values(|p: Vec<char>| p@) == components(path@),
{
    let chars = chars_of(path);
    let mut unified: Vec<char> = Vec::new();
    let mut i: usize = 0;
    while i < chars.len()
        invariant
            i <= chars@.len(),
            chars@ == path@,
            unified@ == slashed(chars@.take(i as int)),
        decreases chars.len() - i,
    {
        let c = if chars[i] == '\\' {
            '/'
        } else {
            chars[i]
        };
        unified.push(c);
        proof {
            assert(slashed(chars@.take(i + 1)) =~= slashed(chars@.take(i as int)).push(c));
        }
        i = i + 1;
    }
    proof {
        assert(chars@.take(chars@.len() as int) =~= chars@);
    }
    let text = string_from_chars(unified.as_slice());
    let pieces = split_char(text.as_str(), '/');
    let ghost all = split_on(slashed(path@), '/');
    proof {
        assert(pieces@.map_values(|p: Vec<char>| p@) == all);
        assert(all.take(0) =~= Seq::<Seq<char>>::empty());
        assert(Seq::<Vec<char>>::empty().map_values(|p: Vec<char>| p@) =~= Seq::<Seq<char>>::empty());
    }
    let mut parts: Vec<Vec<char>> = Vec::new();
    let mut k: usize = 0;
    while k < pieces.len()
        invariant
            k <= pieces@.len(),
            pieces@.len() == all.len(),
            forall|j: int| 0 <= j < pieces@.len() ==> #[trigger] pieces@[j]@ == all[j],
            parts@.map_values(|p: Vec<char>| p@) == kept(all.take(k as int)),
        decreases pieces.len() - k,
    {
        proof {
            assert(all.take(k + 1).drop_last() =~= all.take(k as int));
            assert(all.take(k + 1).last() == all[k as int]);
            assert(pieces@[k as int]@ == all[k as int]);
        }
        let piece = pieces[k].as_slice();
        if piece.len() > 0 && (!is_dot(piece) || k == 0) {
            let copy = sub_chars(piece, 0, piece.len());
            proof {
                assert(copy@ =~= piece@);
                assert(parts@.push(copy).map_values(|p: Vec<char>| p@) =~= parts@.map_values(
                    |p: Vec<char>| p@,
                ).push(copy@));
            }
            parts.push(copy);
        }
        k = k + 1;
    }
    proof {
        assert(all.take(all.len() as int) =~= all);
    }
    parts
}

fn starts_at_root(path: &str) -> (rooted: bool)
    ensures
        rooted == is_rooted(path@),
{
    let chars = chars_of(path);
    chars.len() > 0 && (chars[0] == '/' || chars[0] == '\\')
}

/// Whether two paths name the same place by their components.
pub fn same_path_str(a: &str, b: &str) -> (same: bool)
    ensures
        same == same_path(a@, b@),
{
    if starts_at_root(a) != starts_at_root(b) {
        return false;
    }
    let left = path_components(a);
    let right = path_components(b);
    let ghost lv = left@.map_values(|p: Vec<char>| p@);
    let ghost rv = right@.map_values(|p: Vec<char>| p@);
    if left.len() != right.len() {
        proof {
            assert(lv.len() != rv.len());
        }
        return false;
    }
    let mut i: usize = 0;
    while i < left.len()
        invariant
            i <= left@.len(),
            left@.len() == right@.len(),
            lv == left@.map_values(|p: Vec<char>| p@),
            rv == right@.map_values(|p: Vec<char>| p@),
            lv == components(a@),
            rv == components(b@),
            is_rooted(a@) == is_rooted(b@),
            forall|j: int| 0 <= j < i ==> lv[j] == rv[j],
        decreases left.len() - i,
    {
        proof {
            assert(lv[i as int] == left@[i as int]@);
            assert(rv[i as int] == right@[i as int]@);
        }
        if !chars_equal(left[i].as_slice(), right[i].as_slice()) {
            proof {
                assert(lv[i as int] == left@[i as int]@);
                assert(rv[i as int] == right@[i as int]@);
                assert(lv[i as int] != rv[i as int]);
                assert(lv != rv);
            }
            return false;
        }
        i = i + 1;
    }
    proof {
        assert(lv =~= rv);
    }
    true
}

/// The file name of a path.
pub fn file_name_str(path: &str) -> (name: Vec<char>)
    ensures
        name@ == file_name(path@),
{
    let parts = path_components(path);
    let ghost view = parts@.map_values(|p: Vec<char>| p@);
    let n = parts.len();
    if n == 0 {
        return Vec::new();
    }
    let last = parts[n - 1].as_slice();
    proof {
        assert(view.last() == last@);
    }
    if is_dot(last) || is_dot_dot(last) {
        proof {
            assert(Seq::<char>::empty() =~= file_name(path@));
        }
        Vec::new()
    } else {
        sub_chars(last, 0, last.len())
    }
}

} // verus!

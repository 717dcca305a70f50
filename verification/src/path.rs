//! Paths: byte strings whose names are separated by slashes.
//!
//! A path is read as its components: a leading slash, then the names between the
//! slashes. Repeated and trailing slashes separate nothing, and a `.` counts only
//! at the start of a path that has no leading slash.

use vstd::prelude::*;
use vstd::slice::slice_subrange;
use vstd::utf8::*;

use crate::text::{characters, lossy_text, lossy_utf8, same_bytes, utf8, utf8_text};

verus! {

/// What separates the names of a path.
pub const SLASH: u8 = 0x2f;

/// What the name of a hidden file starts with.
pub const DOT: u8 = 0x2e;

/// Where the piece that starts at `from` ends: at the next slash, or with the
/// path.
pub open spec fn piece_end(path: Seq<u8>, from: int) -> int
    decreases path.len() - from,
{
    if from >= path.len() || path[from] == SLASH {
        from
    } else {
        piece_end(path, from + 1)
    }
}

/// A piece is a component unless it is empty, or a `.` that is not at the start of
/// the path.
pub open spec fn is_component(path: Seq<u8>, from: int, to: int) -> bool {
    &&& from < to
    &&& !(from > 0 && to == from + 1 && path[from] == DOT)
}

/// The components among the pieces from `from` on, each as the range of its bytes.
pub open spec fn components_from(path: Seq<u8>, from: int) -> Seq<(int, int)>
    decreases path.len() - from + 1,
    when 0 <= from
{
    if from > path.len() {
        seq![]
    } else {
        let to = piece_end(path, from);
        proof {
            lemma_piece_end(path, from);
        }
        if is_component(path, from, to) {
            seq![(from, to)] + components_from(path, to + 1)
        } else {
            components_from(path, to + 1)
        }
    }
}

/// The components of a path, each as the range of its bytes. A leading slash is
/// the first component.
pub open spec fn components(path: Seq<u8>) -> Seq<(int, int)> {
    if path.len() > 0 && path[0] == SLASH {
        seq![(0, 1)] + components_from(path, 0)
    } else {
        components_from(path, 0)
    }
}

/// The bytes of each component.
pub open spec fn names(path: Seq<u8>) -> Seq<Seq<u8>> {
    components(path).map_values(|r: (int, int)| path.subrange(r.0, r.1))
}

/// A name is hidden if it is UTF-8 and starts with a dot.
pub open spec fn is_hidden(name: Seq<u8>) -> bool {
    name.len() > 0 && name[0] == DOT && valid_utf8(name)
}

/// Some component of the path is hidden.
pub open spec fn is_hidden_path(path: Seq<u8>) -> bool {
    exists|i: int| 0 <= i < names(path).len() && is_hidden(#[trigger] names(path)[i])
}

/// The last component, unless it is a slash, `.` or `..`.
pub open spec fn file_name(path: Seq<u8>) -> Option<Seq<u8>> {
    if names(path).len() == 0 {
        None
    } else {
        let last = names(path).last();
        if last == seq![SLASH] || last == seq![DOT] || last == seq![DOT, DOT] {
            None
        } else {
            Some(last)
        }
    }
}

/// The position of the last dot of a name, or -1.
pub open spec fn last_dot(name: Seq<u8>) -> int
    decreases name.len(),
{
    if name.len() == 0 {
        -1
    } else if name.last() == DOT {
        name.len() - 1
    } else {
        last_dot(name.drop_last())
    }
}

/// What follows the last dot of the file name, unless the name has no dot or
/// none but a leading one.
pub open spec fn extension(path: Seq<u8>) -> Option<Seq<u8>> {
    match file_name(path) {
        Some(name) => if last_dot(name) > 0 {
            Some(name.skip(last_dot(name) + 1))
        } else {
            None
        },
        None => None,
    }
}

/// What is left of `path` below `root`: the part from its first component that is
/// not of `root` to the end of its last one. None if the components of `root` are
/// not the first ones of `path`.
pub open spec fn below(root: Seq<u8>, path: Seq<u8>) -> Option<Seq<u8>> {
    let depth = names(root).len() as int;
    if depth > names(path).len() || names(path).take(depth) != names(root) {
        None
    } else if depth == names(path).len() {
        Some(seq![])
    } else {
        Some(path.subrange(components(path)[depth].0, components(path).last().1))
    }
}

/// A text with slashes in place of backslashes.
pub open spec fn forward_slashes(text: Seq<char>) -> Seq<char> {
    text.map_values(|c: char| if c == '\\' { '/' } else { c })
}

/// The text by which a file below `root` is reported: its path from `root` on, or
/// its whole path if it is not below `root`, with forward slashes.
pub open spec fn relative_text(root: Seq<u8>, path: Seq<u8>) -> Seq<char> {
    forward_slashes(lossy_utf8(match below(root, path) {
        Some(rest) => rest,
        None => path,
    }))
}

/// The text of the last component of `path`, or `path` itself where there is no
/// such component.
pub open spec fn name_text(path: Seq<char>) -> Seq<char> {
    match file_name(encode_utf8(path)) {
        Some(name) => match utf8(name) {
            Some(text) => text,
            None => path,
        },
        None => path,
    }
}

/// Ranges of positions.
pub open spec fn ranges(found: Seq<(usize, usize)>) -> Seq<(int, int)> {
    found.map_values(|r: (usize, usize)| (r.0 as int, r.1 as int))
}

/// A piece ends at or after its start, with no slash in between.
pub proof fn lemma_piece_end(path: Seq<u8>, from: int)
    requires
        0 <= from <= path.len(),
    ensures
        from <= piece_end(path, from) <= path.len(),
        piece_end(path, from) < path.len() ==> path[piece_end(path, from)] == SLASH,
        forall|i: int| from <= i < piece_end(path, from) ==> path[i] != SLASH,
    decreases path.len() - from,
{
    if !(from >= path.len() || path[from] == SLASH) {
        lemma_piece_end(path, from + 1);
    }
}

proof fn lemma_components_from_in_bounds(path: Seq<u8>, from: int)
    requires
        0 <= from,
    ensures
        forall|i: int|
            0 <= i < components_from(path, from).len() ==> {
                let r = #[trigger] components_from(path, from)[i];
                from <= r.0 < r.1 <= path.len()
            },
    decreases path.len() - from + 1,
{
    if from <= path.len() {
        let to = piece_end(path, from);
        lemma_piece_end(path, from);
        lemma_components_from_in_bounds(path, to + 1);
        let rest = components_from(path, to + 1);
        assert forall|i: int| 0 <= i < components_from(path, from).len() implies {
            let r = #[trigger] components_from(path, from)[i];
            from <= r.0 < r.1 <= path.len()
        } by {
            if is_component(path, from, to) && i > 0 {
                assert(components_from(path, from)[i] == rest[i - 1]);
            } else if !is_component(path, from, to) {
                assert(components_from(path, from)[i] == rest[i]);
            }
        }
    }
}

/// The components of a path lie within it and are not empty.
pub proof fn lemma_components_in_bounds(path: Seq<u8>)
    ensures
        forall|i: int|
            0 <= i < components(path).len() ==> {
                let r = #[trigger] components(path)[i];
                0 <= r.0 < r.1 <= path.len()
            },
{
    lemma_components_from_in_bounds(path, 0);
}

proof fn lemma_components_from_ascend(path: Seq<u8>, from: int, i: int, j: int)
    requires
        0 <= from,
        0 <= i <= j < components_from(path, from).len(),
    ensures
        components_from(path, from)[i].0 < components_from(path, from)[j].1,
    decreases path.len() - from + 1,
{
    lemma_components_from_in_bounds(path, from);
    let to = piece_end(path, from);
    lemma_piece_end(path, from);
    let rest = components_from(path, to + 1);
    if is_component(path, from, to) {
        if i > 0 {
            lemma_components_from_ascend(path, to + 1, i - 1, j - 1);
        } else if j > 0 {
            assert(components_from(path, from)[j].0 >= from);
        }
    } else {
        lemma_components_from_ascend(path, to + 1, i, j);
    }
}

/// The components of a path come in the order of their positions.
proof fn lemma_components_ascend(path: Seq<u8>, i: int, j: int)
    requires
        0 <= i <= j < components(path).len(),
    ensures
        components(path)[i].0 < components(path)[j].1,
{
    if path.len() > 0 && path[0] == SLASH {
        if i > 0 {
            lemma_components_from_ascend(path, 0, i - 1, j - 1);
        } else {
            lemma_components_in_bounds(path);
            assert(components(path)[j].0 >= 0);
        }
    } else {
        lemma_components_from_ascend(path, 0, i, j);
    }
}

fn find_piece_end(path: &[u8], from: usize) -> (to: usize)
    requires
        from <= path.len(),
    ensures
        to == piece_end(path@, from as int),
        from <= to <= path.len(),
{
    let mut to: usize = from;
    while to < path.len() && path[to] != SLASH
        invariant
            from <= to <= path.len(),
            piece_end(path@, to as int) == piece_end(path@, from as int),
        decreases path.len() - to,
    {
        to = to + 1;
    }
    to
}

/// Splits a path into its components.
pub(crate) fn split_components(path: &[u8]) -> (found: Vec<(usize, usize)>)
    ensures
        ranges(found@) == components(path@),
        forall|i: int|
            0 <= i < found@.len() ==> {
                let r = #[trigger] found@[i];
                r.0 < r.1 <= path@.len()
            },
{
    let mut found: Vec<(usize, usize)> = Vec::new();
    if path.len() > 0 && path[0] == SLASH {
        found.push((0, 1));
    }
    let mut from: usize = 0;
    let mut more: bool = true;
    assert(ranges(found@) + components_from(path@, 0) =~= components(path@));
    while more
        invariant
            from <= path.len(),
            more ==> ranges(found@) + components_from(path@, from as int) == components(path@),
            !more ==> ranges(found@) == components(path@),
        decreases (if more { path.len() - from + 1 } else { 0 }),
    {
        let to = find_piece_end(path, from);
        let ghost before = ranges(found@);
        if from < to && !(from > 0 && to - from == 1 && path[from] == DOT) {
            found.push((from, to));
            assert(ranges(found@) =~= before.push((from as int, to as int)));
        }
        assert(ranges(found@) + components_from(path@, to + 1) =~= before + components_from(
            path@,
            from as int,
        ));
        if to < path.len() {
            from = to + 1;
        } else {
            more = false;
            assert(components_from(path@, to + 1) =~= seq![]);
            assert(ranges(found@) =~= components(path@));
        }
    }
    proof {
        lemma_components_in_bounds(path@);
        assert forall|i: int| 0 <= i < found@.len() implies {
            let r = #[trigger] found@[i];
            r.0 < r.1 <= path@.len()
        } by {
            assert(ranges(found@)[i] == components(path@)[i]);
        }
    }
    found
}

/// Tells whether some component of a path is hidden: UTF-8 that starts with a dot.
pub fn has_hidden_component(path: &[u8]) -> (hidden: bool)
    ensures
        hidden == is_hidden_path(path@),
{
    let found = split_components(path);
    let mut i: usize = 0;
    while i < found.len()
        invariant
            i <= found.len(),
            ranges(found@) == components(path@),
            forall|k: int|
                0 <= k < found@.len() ==> {
                    let r = #[trigger] found@[k];
                    r.0 < r.1 <= path@.len()
                },
            forall|k: int| 0 <= k < i ==> !is_hidden(#[trigger] names(path@)[k]),
        decreases found.len() - i,
    {
        let (from, to) = found[i];
        assert(ranges(found@)[i as int] == (from as int, to as int));
        let name = slice_subrange(path, from, to);
        assert(name@ == names(path@)[i as int]);
        if name[0] == DOT && utf8_text(name).is_some() {
            assert(is_hidden(names(path@)[i as int]));
            return true;
        }
        i = i + 1;
    }
    assert(ranges(found@).len() == found@.len());
    false
}

/// The last component of a path, unless it is a slash, `.` or `..`.
pub(crate) fn find_file_name(path: &[u8]) -> (name: Option<&[u8]>)
    ensures
        match name {
            Some(n) => file_name(path@) == Some(n@),
            None => file_name(path@) is None,
        },
{
    let found = split_components(path);
    assert(ranges(found@).len() == found@.len());
    if found.len() == 0 {
        return None;
    }
    let (from, to) = found[found.len() - 1];
    assert(ranges(found@)[found@.len() - 1] == (from as int, to as int));
    let name = slice_subrange(path, from, to);
    assert(name@ == names(path@).last());
    assert(seq![SLASH].len() == 1 && seq![DOT].len() == 1 && seq![DOT, DOT].len() == 2);
    if name.len() == 1 && (name[0] == SLASH || name[0] == DOT) {
        assert(name@ =~= seq![name@[0]]);
        return None;
    }
    if name.len() == 2 && name[0] == DOT && name[1] == DOT {
        assert(name@ =~= seq![DOT, DOT]);
        return None;
    }
    Some(name)
}

/// What follows the last dot of the file name of a path, unless the name has no
/// dot or none but a leading one.
pub(crate) fn find_extension(path: &[u8]) -> (found: Option<&[u8]>)
    ensures
        match found {
            Some(e) => extension(path@) == Some(e@),
            None => extension(path@) is None,
        },
{
    match find_file_name(path) {
        None => None,
        Some(name) => {
            let mut end: usize = name.len();
            assert(name@.take(name@.len() as int) =~= name@);
            while end > 0 && name[end - 1] != DOT
                invariant
                    end <= name.len(),
                    last_dot(name@.take(end as int)) == last_dot(name@),
                decreases end,
            {
                assert(name@.take(end as int).drop_last() =~= name@.take(end - 1));
                end = end - 1;
            }
            if end > 1 {
                assert(last_dot(name@) == end - 1);
                let rest = slice_subrange(name, end, name.len());
                assert(rest@ =~= name@.skip(end as int));
                Some(rest)
            } else {
                None
            }
        },
    }
}

/// Tells whether the components of `root` are the first ones of `path`.
fn is_below(root: &[u8], in_root: &Vec<(usize, usize)>, path: &[u8], in_path: &Vec<(usize, usize)>) -> (is: bool)
    requires
        ranges(in_root@) == components(root@),
        ranges(in_path@) == components(path@),
    ensures
        is == (names(root@).len() <= names(path@).len() && names(path@).take(
            names(root@).len() as int,
        ) == names(root@)),
{
    proof {
        lemma_components_in_bounds(root@);
        lemma_components_in_bounds(path@);
        assert(ranges(in_root@).len() == in_root@.len());
        assert(ranges(in_path@).len() == in_path@.len());
    }
    let ghost depth = names(root@).len() as int;
    if in_root.len() > in_path.len() {
        return false;
    }
    let mut i: usize = 0;
    while i < in_root.len()
        invariant
            i <= in_root.len() <= in_path.len(),
            ranges(in_root@) == components(root@),
            ranges(in_path@) == components(path@),
            in_root@.len() == components(root@).len(),
            in_path@.len() == components(path@).len(),
            depth == names(root@).len() == in_root@.len(),
            forall|k: int|
                0 <= k < components(root@).len() ==> {
                    let r = #[trigger] components(root@)[k];
                    0 <= r.0 < r.1 <= root@.len()
                },
            forall|k: int|
                0 <= k < components(path@).len() ==> {
                    let r = #[trigger] components(path@)[k];
                    0 <= r.0 < r.1 <= path@.len()
                },
            forall|k: int| 0 <= k < i ==> #[trigger] names(root@)[k] == names(path@)[k],
        decreases in_root.len() - i,
    {
        let (a, b) = in_root[i];
        let (c, d) = in_path[i];
        assert(components(root@)[i as int] == ranges(in_root@)[i as int]);
        assert(components(path@)[i as int] == ranges(in_path@)[i as int]);
        let of_root = slice_subrange(root, a, b);
        let of_path = slice_subrange(path, c, d);
        assert(of_root@ == names(root@)[i as int]);
        assert(of_path@ == names(path@)[i as int]);
        if !same_bytes(of_root, of_path) {
            assert(names(path@).take(depth)[i as int] != names(root@)[i as int]);
            return false;
        }
        i = i + 1;
    }
    assert(names(path@).take(depth) =~= names(root@));
    true
}

/// The text by which a file below `root` is reported: its path from `root` on, or
/// its whole path if it is not below `root`, with forward slashes.
pub fn relative_path(root: &[u8], path: &[u8]) -> (text: String)
    ensures
        text@ == relative_text(root@, path@),
{
    let in_root = split_components(root);
    let in_path = split_components(path);
    assert(ranges(in_root@).len() == in_root@.len());
    assert(ranges(in_path@).len() == in_path@.len());
    let rest = if !is_below(root, &in_root, path, &in_path) {
        path
    } else if in_root.len() == in_path.len() {
        slice_subrange(path, 0, 0)
    } else {
        let from = in_path[in_root.len()].0;
        let to = in_path[in_path.len() - 1].1;
        proof {
            lemma_components_ascend(path@, in_root@.len() as int, in_path@.len() - 1);
            assert(components(path@)[in_root@.len() as int] == ranges(in_path@)[in_root@.len() as int]);
            assert(components(path@)[in_path@.len() - 1] == ranges(in_path@)[in_path@.len() - 1]);
        }
        slice_subrange(path, from, to)
    };
    assert(rest@ =~= match below(root@, path@) {
        Some(below_root) => below_root,
        None => path@,
    });
    let plain = lossy_text(rest);
    let chars = characters(plain.as_str());
    let mut text = String::new();
    let mut i: usize = 0;
    while i < chars.len()
        invariant
            i <= chars.len(),
            text@ == forward_slashes(chars@.take(i as int)),
        decreases chars.len() - i,
    {
        text.push(if chars[i] == '\\' { '/' } else { chars[i] });
        i = i + 1;
        assert(text@ =~= forward_slashes(chars@.take(i as int)));
    }
    assert(chars@.take(i as int) =~= chars@);
    text
}

/// The text of the last component of a path, or the path itself where there is no
/// such component.
pub fn file_name_text(path: &str) -> (text: String)
    ensures
        text@ == name_text(path@),
{
    match find_file_name(path.as_bytes()) {
        Some(name) => match utf8_text(name) {
            Some(text) => text,
            None => path.to_string(),
        },
        None => path.to_string(),
    }
}

} // verus!

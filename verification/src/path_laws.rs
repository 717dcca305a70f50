//! What holds of the path of an entry of a directory.

use vstd::prelude::*;
use vstd::utf8::*;

use crate::path::{
    below, components, components_from, extension, file_name, forward_slashes, is_component,
    is_hidden, is_hidden_path, last_dot, lemma_components_in_bounds, lemma_piece_end, name_text,
    names, piece_end, relative_text, DOT, SLASH,
};
use crate::text::{
    law_slashes_stay_slashes, law_utf8_is_read_back, lemma_encoding_injective,
    lemma_no_occurrence, lemma_occurrences_join, lossy_utf8, occurrences,
};

verus! {

/// A name that an entry of a directory can have.
pub open spec fn is_entry_name(name: Seq<u8>) -> bool {
    &&& name.len() > 0
    &&& !name.contains(SLASH)
    &&& name != seq![DOT]
    &&& name != seq![DOT, DOT]
}

/// A name that is a component wherever it stands behind a slash.
pub open spec fn is_part(name: Seq<u8>) -> bool {
    &&& name.len() > 0
    &&& !name.contains(SLASH)
    &&& name != seq![DOT]
}

/// The path of an entry of a directory: the name is joined to the path of the
/// directory, with a slash in between unless that ends with one or is empty.
pub open spec fn entry_path(directory: Seq<u8>, name: Seq<u8>) -> Seq<u8> {
    if directory.len() == 0 || directory.last() == SLASH {
        directory + name
    } else {
        slashed(directory, name)
    }
}

/// A directory, a slash and a name.
pub open spec fn slashed(directory: Seq<u8>, name: Seq<u8>) -> Seq<u8> {
    directory.push(SLASH) + name
}

proof fn lemma_piece_end_of_prefix(directory: Seq<u8>, name: Seq<u8>, from: int)
    requires
        0 <= from <= directory.len(),
    ensures
        piece_end(slashed(directory, name), from) == piece_end(directory, from),
    decreases directory.len() - from,
{
    if from < directory.len() && directory[from] != SLASH {
        lemma_piece_end_of_prefix(directory, name, from + 1);
    }
}

proof fn lemma_piece_end_of_name(path: Seq<u8>, from: int)
    requires
        0 <= from <= path.len(),
        forall|i: int| from <= i < path.len() ==> path[i] != SLASH,
    ensures
        piece_end(path, from) == path.len(),
    decreases path.len() - from,
{
    if from < path.len() {
        lemma_piece_end_of_name(path, from + 1);
    }
}

proof fn lemma_components_of_entry(directory: Seq<u8>, name: Seq<u8>, from: int)
    requires
        is_part(name),
        0 <= from <= directory.len(),
    ensures
        components_from(slashed(directory, name), from) == components_from(directory, from).push(
            (directory.len() as int + 1, slashed(directory, name).len() as int),
        ),
    decreases directory.len() - from,
{
    let path = slashed(directory, name);
    let to = piece_end(directory, from);
    lemma_piece_end(directory, from);
    lemma_piece_end_of_prefix(directory, name, from);
    assert(is_component(path, from, to) == is_component(directory, from, to));
    let last = (directory.len() as int + 1, path.len() as int);
    if to < directory.len() {
        lemma_components_of_entry(directory, name, to + 1);
        assert(seq![(from, to)] + components_from(directory, to + 1).push(last) =~= (seq![
            (from, to),
        ] + components_from(directory, to + 1)).push(last));
    } else {
        let start = directory.len() as int + 1;
        assert forall|i: int| start <= i < path.len() implies path[i] != SLASH by {
            assert(path[i] == name[i - start]);
            assert(name.contains(name[i - start]));
        }
        lemma_piece_end_of_name(path, start);
        assert(path[start] == name[0]);
        assert(path.len() == start + 1 ==> name =~= seq![name[0]]);
        assert(components_from(path, path.len() as int + 1) =~= seq![]);
        assert(components_from(path, start) =~= seq![last]);
        assert(components_from(directory, to + 1) =~= seq![]);
        assert(components_from(path, from) =~= components_from(directory, from).push(last));
    }
}

proof fn lemma_trailing_slash(directory: Seq<u8>, from: int)
    requires
        0 <= from <= directory.len(),
    ensures
        components_from(directory.push(SLASH), from) == components_from(directory, from),
    decreases directory.len() - from,
{
    let path = directory.push(SLASH);
    let to = piece_end(directory, from);
    let none: Seq<u8> = seq![];
    lemma_piece_end(directory, from);
    assert(slashed(directory, none) =~= path);
    lemma_piece_end_of_prefix(directory, none, from);
    assert(is_component(path, from, to) == is_component(directory, from, to));
    if to < directory.len() {
        lemma_trailing_slash(directory, to + 1);
    } else {
        assert(components_from(path, path.len() as int + 1) =~= seq![]);
        assert(components_from(path, path.len() as int) =~= seq![]);
        assert(components_from(directory, to + 1) =~= seq![]);
    }
}

proof fn lemma_components_of_name(name: Seq<u8>)
    requires
        is_part(name),
    ensures
        components(name) == seq![(0int, name.len() as int)],
{
    assert forall|i: int| 0 <= i < name.len() implies name[i] != SLASH by {
        assert(name.contains(name[i]));
    }
    lemma_piece_end_of_name(name, 0);
    assert(components_from(name, name.len() as int + 1) =~= seq![]);
    assert(components(name) =~= seq![(0int, name.len() as int)]);
}

/// The components of an entry: those of the directory, and its name.
proof fn lemma_entry_components(directory: Seq<u8>, name: Seq<u8>)
    requires
        is_part(name),
    ensures
        ({
            let path = entry_path(directory, name);
            &&& components(path) == components(directory).push(
                (path.len() - name.len(), path.len() as int),
            )
            &&& path.subrange(path.len() - name.len(), path.len() as int) == name
            &&& directory.len() <= path.len() - name.len()
            &&& path.take(directory.len() as int) == directory
        }),
{
    let path = entry_path(directory, name);
    assert(path.subrange(path.len() - name.len(), path.len() as int) =~= name);
    assert(path.take(directory.len() as int) =~= directory);
    if directory.len() == 0 {
        assert(path =~= name);
        lemma_components_of_name(name);
        assert(components_from(directory, 1) =~= seq![]);
        assert(components(directory) =~= seq![]);
    } else if directory.last() == SLASH {
        let front = directory.drop_last();
        assert(directory =~= front.push(SLASH));
        assert(path == slashed(front, name));
        lemma_components_of_entry(front, name, 0);
        lemma_trailing_slash(front, 0);
        assert(path[0] == directory[0]);
        assert(components(path) =~= components(directory).push(
            (path.len() - name.len(), path.len() as int),
        ));
    } else {
        lemma_components_of_entry(directory, name, 0);
        assert(path[0] == directory[0]);
        assert(components(path) =~= components(directory).push(
            (path.len() - name.len(), path.len() as int),
        ));
    }
}

/// An entry of a directory lies below it: its components are those of the directory
/// and its own name. It is its own file name, and what is reported of its path below
/// the directory. It is hidden if the directory is, or if its name is.
pub proof fn law_entry_of_a_directory(directory: Seq<u8>, name: Seq<u8>)
    requires
        is_entry_name(name),
    ensures
        ({
            let path = entry_path(directory, name);
            &&& names(path) == names(directory).push(name)
            &&& file_name(path) == Some(name)
            &&& below(directory, path) == Some(name)
            &&& relative_text(directory, path) == forward_slashes(lossy_utf8(name))
            &&& is_hidden_path(path) <==> is_hidden_path(directory) || is_hidden(name)
        }),
{
    let path = entry_path(directory, name);
    lemma_entry_components(directory, name);
    lemma_components_in_bounds(directory);
    assert forall|i: int| 0 <= i < names(directory).len() implies names(path)[i] == names(
        directory,
    )[i] by {
        let r = components(directory)[i];
        assert(path.subrange(r.0, r.1) =~= path.take(directory.len() as int).subrange(r.0, r.1));
    }
    assert(names(path) =~= names(directory).push(name));
    assert(name != seq![SLASH]) by {
        assert(seq![SLASH][0] == SLASH);
        assert(name.contains(name[0]));
    }
    assert(names(path).take(names(directory).len() as int) =~= names(directory));
    if is_hidden_path(directory) {
        let i = choose|i: int|
            0 <= i < names(directory).len() && is_hidden(#[trigger] names(directory)[i]);
        assert(names(path)[i] == names(directory)[i]);
    }
    if is_hidden(name) {
        assert(names(path)[names(directory).len() as int] == name);
    }
    if is_hidden_path(path) {
        let i = choose|i: int| 0 <= i < names(path).len() && is_hidden(#[trigger] names(path)[i]);
        if i < names(directory).len() {
            assert(names(directory)[i] == names(path)[i]);
        }
    }
}

/// The number of slashes in the paths of the entries of a directory.
pub open spec fn slashes_within(directory: Seq<u8>) -> nat {
    occurrences(directory, SLASH) + if directory.len() == 0 || directory.last() == SLASH {
        0nat
    } else {
        1nat
    }
}

/// All entries of a directory have as many slashes in their paths, and those of an
/// entry that is a directory have one more.
pub proof fn law_slashes_of_an_entry(directory: Seq<u8>, name: Seq<u8>)
    requires
        is_entry_name(name),
    ensures
        occurrences(entry_path(directory, name), SLASH) == slashes_within(directory),
        slashes_within(entry_path(directory, name)) == slashes_within(directory) + 1,
{
    let path = entry_path(directory, name);
    assert forall|i: int| 0 <= i < name.len() implies #[trigger] name[i] != SLASH by {
        assert(name.contains(name[i]));
    }
    lemma_no_occurrence(name, SLASH);
    assert(path.last() == name.last());
    if directory.len() == 0 || directory.last() == SLASH {
        lemma_occurrences_join(directory, name, SLASH);
    } else {
        let slash = seq![SLASH];
        assert(directory.push(SLASH) =~= directory + slash);
        lemma_occurrences_join(directory, slash, SLASH);
        lemma_occurrences_join(directory.push(SLASH), name, SLASH);
        reveal_with_fuel(occurrences, 2);
        assert(slash.drop_first() =~= seq![]);
    }
}

/// The path that leads from a directory over `parts`.
pub open spec fn path_over(directory: Seq<u8>, parts: Seq<Seq<u8>>) -> Seq<u8>
    decreases parts.len(),
{
    if parts.len() == 0 {
        directory
    } else {
        entry_path(path_over(directory, parts.drop_last()), parts.last())
    }
}

/// What lies below a directory, however deep, has its components and the names on the
/// way. It is hidden if the directory is, or if one of these names is.
pub proof fn law_path_below_a_directory(directory: Seq<u8>, parts: Seq<Seq<u8>>)
    requires
        forall|i: int| 0 <= i < parts.len() ==> is_entry_name(#[trigger] parts[i]),
    ensures
        names(path_over(directory, parts)) == names(directory) + parts,
        is_hidden_path(path_over(directory, parts)) <==> is_hidden_path(directory) || exists|i: int|
            0 <= i < parts.len() && is_hidden(#[trigger] parts[i]),
    decreases parts.len(),
{
    if parts.len() == 0 {
        assert(names(directory) + parts =~= names(directory));
    } else {
        let front = parts.drop_last();
        assert forall|i: int| 0 <= i < front.len() implies is_entry_name(#[trigger] front[i]) by {
            assert(parts[i] == front[i]);
        }
        law_path_below_a_directory(directory, front);
        law_entry_of_a_directory(path_over(directory, front), parts.last());
        assert((names(directory) + front).push(parts.last()) =~= names(directory) + parts);
        if exists|i: int| 0 <= i < front.len() && is_hidden(#[trigger] front[i]) {
            let i = choose|i: int| 0 <= i < front.len() && is_hidden(#[trigger] front[i]);
            assert(is_hidden(parts[i]));
        }
        if exists|i: int| 0 <= i < parts.len() && is_hidden(#[trigger] parts[i]) {
            let i = choose|i: int| 0 <= i < parts.len() && is_hidden(#[trigger] parts[i]);
            if i < front.len() {
                assert(is_hidden(front[i]));
            }
        }
    }
}

proof fn lemma_trailing_dot(directory: Seq<u8>, from: int)
    requires
        0 <= from <= directory.len(),
    ensures
        components_from(slashed(directory, seq![DOT]), from) == components_from(directory, from),
    decreases directory.len() - from,
{
    let path = slashed(directory, seq![DOT]);
    let to = piece_end(directory, from);
    lemma_piece_end(directory, from);
    lemma_piece_end_of_prefix(directory, seq![DOT], from);
    assert(is_component(path, from, to) == is_component(directory, from, to));
    if to < directory.len() {
        lemma_trailing_dot(directory, to + 1);
    } else {
        let start = directory.len() as int + 1;
        lemma_piece_end_of_name(path, start);
        assert(components_from(path, path.len() as int + 1) =~= seq![]);
        assert(components_from(path, start) =~= seq![]);
        assert(components_from(directory, to + 1) =~= seq![]);
    }
}

proof fn lemma_same_names(path: Seq<u8>, longer: Seq<u8>)
    requires
        path.len() > 0,
        path.is_prefix_of(longer),
        components_from(longer, 0) == components_from(path, 0),
    ensures
        names(longer) == names(path),
{
    assert(path[0] == longer[0]) by {
        assert(longer.take(path.len() as int)[0] == longer[0]);
    }
    lemma_components_in_bounds(path);
    assert forall|i: int| 0 <= i < names(path).len() implies names(longer)[i] == names(path)[i] by {
        let r = components(path)[i];
        assert(longer.subrange(r.0, r.1) =~= longer.take(path.len() as int).subrange(r.0, r.1));
    }
    assert(names(longer) =~= names(path));
}

/// The components of every path, however it is written. An empty path has none; a
/// leading slash is one, and so is a path that is just a `.`. A slash at the end, and a
/// `.` behind a slash, add nothing. Any other name behind a slash is one more component.
pub proof fn law_components_of_a_path(path: Seq<u8>, name: Seq<u8>)
    ensures
        names(seq![]) == Seq::<Seq<u8>>::empty(),
        names(seq![SLASH]) == seq![seq![SLASH]],
        names(seq![DOT]) == seq![seq![DOT]],
        path.len() > 0 ==> names(path.push(SLASH)) == names(path),
        path.len() > 0 ==> names(path.push(SLASH).push(DOT)) == names(path),
        name.len() > 0 && !name.contains(SLASH) && name != seq![DOT] ==> names(
            entry_path(path, name),
        ) == names(path).push(name),
{
    let none: Seq<u8> = seq![];
    assert(components_from(none, 1) =~= seq![]);
    assert(names(none) =~= Seq::<Seq<u8>>::empty());
    let slash: Seq<u8> = seq![SLASH];
    assert(slash =~= none.push(SLASH));
    lemma_trailing_slash(none, 0);
    assert(components(slash) =~= seq![(0int, 1int)]);
    assert(slash.subrange(0, 1) =~= slash);
    assert(names(slash) =~= seq![slash]);
    let dot: Seq<u8> = seq![DOT];
    lemma_piece_end_of_name(dot, 0);
    assert(components_from(dot, 2) =~= seq![]);
    assert(components(dot) =~= seq![(0int, 1int)]);
    assert(dot.subrange(0, 1) =~= dot);
    assert(names(dot) =~= seq![dot]);
    if path.len() > 0 {
        let longer = path.push(SLASH);
        assert(longer.take(path.len() as int) =~= path);
        lemma_trailing_slash(path, 0);
        lemma_same_names(path, longer);
        let dotted = longer.push(DOT);
        assert(dotted =~= slashed(path, dot));
        assert(dotted.take(path.len() as int) =~= path);
        lemma_trailing_dot(path, 0);
        lemma_same_names(path, dotted);
    }
    if is_part(name) {
        let whole = entry_path(path, name);
        lemma_entry_components(path, name);
        lemma_components_in_bounds(path);
        assert forall|i: int| 0 <= i < names(path).len() implies names(whole)[i] == names(path)[i] by {
            let r = components(path)[i];
            assert(whole.subrange(r.0, r.1) =~= whole.take(path.len() as int).subrange(r.0, r.1));
        }
        assert(names(whole) =~= names(path).push(name));
    }
}

/// What a path is read for rests on its components alone.
pub proof fn law_only_components_count(a: Seq<u8>, b: Seq<u8>)
    requires
        names(a) == names(b),
    ensures
        file_name(a) == file_name(b),
        extension(a) == extension(b),
        is_hidden_path(a) == is_hidden_path(b),
{
}

proof fn lemma_first_byte(text: Seq<char>)
    requires
        text.len() > 0,
    ensures
        encode_utf8(text).len() > 0,
        encode_utf8(text)[0] == DOT <==> text[0] == '.',
{
    let bytes = encode_utf8(text);
    encode_utf8_first_scalar(text);
    let b = bytes[0];
    let c = text[0] as u32;
    assert(b <= 0x7f ==> b & 0x7f == b) by (bit_vector);
    if b == DOT {
        assert(decode_first_scalar(bytes) == b);
        assert(c == 0x2e);
        char_u32_cast(text[0], c);
        char_u32_cast('.', c);
    }
    if text[0] == '.' {
        assert(c == 0x2e);
        assert(encode_scalar(c).len() == 1);
        assert(length_of_first_scalar(bytes) == 1);
        assert(is_leading_byte_width_1(b));
        assert(decode_first_scalar(bytes) == b);
    }
}

/// A name is hidden if and only if it is text and the first character of the text is a
/// dot. A path is hidden if and only if one of its components is: an empty path and a
/// slash are not, and an entry of a directory is if the directory is or its own name is.
pub proof fn law_hidden_names_start_with_a_dot(
    directory: Seq<u8>,
    name: Seq<u8>,
    text: Seq<char>,
)
    ensures
        is_hidden(encode_utf8(text)) <==> text.len() > 0 && text[0] == '.',
        !valid_utf8(name) ==> !is_hidden(name),
        !is_hidden_path(seq![]),
        !is_hidden_path(seq![SLASH]),
        name.len() > 0 && !name.contains(SLASH) && name != seq![DOT] ==> (is_hidden_path(
            entry_path(directory, name),
        ) <==> is_hidden_path(directory) || is_hidden(name)),
{
    encode_utf8_valid_utf8(text);
    if text.len() > 0 {
        lemma_first_byte(text);
    }
    law_components_of_a_path(directory, name);
    let slash: Seq<u8> = seq![SLASH];
    assert(slash[0] != DOT);
    assert(!is_hidden_path(slash)) by {
        assert(names(slash)[0] == slash);
    }
    if is_part(name) {
        let path = entry_path(directory, name);
        if is_hidden_path(directory) {
            let i = choose|i: int|
                0 <= i < names(directory).len() && is_hidden(#[trigger] names(directory)[i]);
            assert(names(path)[i] == names(directory)[i]);
        }
        if is_hidden(name) {
            assert(names(path)[names(directory).len() as int] == name);
        }
        if is_hidden_path(path) {
            let i = choose|i: int| 0 <= i < names(path).len() && is_hidden(#[trigger] names(path)[i]);
            if i < names(directory).len() {
                assert(names(directory)[i] == names(path)[i]);
            }
        }
    }
}

proof fn lemma_last_dot(front: Seq<u8>, rest: Seq<u8>)
    requires
        !rest.contains(DOT),
    ensures
        last_dot(front.push(DOT) + rest) == front.len(),
    decreases rest.len(),
{
    let name = front.push(DOT) + rest;
    if rest.len() == 0 {
        assert(name =~= front.push(DOT));
    } else {
        assert(rest.contains(rest.last()));
        assert(name.drop_last() =~= front.push(DOT) + rest.drop_last());
        assert forall|b: u8| rest.drop_last().contains(b) implies rest.contains(b) by {
            let i = choose|i: int| 0 <= i < rest.drop_last().len() && rest.drop_last()[i] == b;
            assert(rest[i] == b);
        }
        lemma_last_dot(front, rest.drop_last());
    }
}

proof fn lemma_no_later_dot(name: Seq<u8>)
    requires
        forall|i: int| 0 < i < name.len() ==> name[i] != DOT,
    ensures
        last_dot(name) <= 0,
    decreases name.len(),
{
    reveal_with_fuel(last_dot, 2);
    if name.len() > 1 {
        lemma_no_later_dot(name.drop_last());
    }
}

/// The extension of a file is what follows the last dot of its name. A name has none if
/// it has no dot, or none but at its start.
pub proof fn law_extension_follows_the_last_dot(
    directory: Seq<u8>,
    stem: Seq<u8>,
    ext: Seq<u8>,
    name: Seq<u8>,
)
    ensures
        stem.len() > 0 && !ext.contains(DOT) && is_entry_name(stem.push(DOT) + ext) ==> extension(
            entry_path(directory, stem.push(DOT) + ext),
        ) == Some(ext),
        is_entry_name(name) && (forall|i: int| 0 < i < name.len() ==> name[i] != DOT) ==> extension(
            entry_path(directory, name),
        ) is None,
        extension(seq![]) is None,
{
    let whole = stem.push(DOT) + ext;
    if stem.len() > 0 && !ext.contains(DOT) && is_entry_name(whole) {
        law_entry_of_a_directory(directory, whole);
        lemma_last_dot(stem, ext);
        assert(whole.skip(stem.len() as int + 1) =~= ext);
    }
    if is_entry_name(name) && (forall|i: int| 0 < i < name.len() ==> name[i] != DOT) {
        law_entry_of_a_directory(directory, name);
        lemma_no_later_dot(name);
    }
    law_components_of_a_path(directory, name);
}

proof fn lemma_path_over(directory: Seq<u8>, parts: Seq<Seq<u8>>)
    requires
        parts.len() > 0,
        forall|i: int| 0 <= i < parts.len() ==> is_entry_name(#[trigger] parts[i]),
    ensures
        ({
            let path = path_over(directory, parts);
            let rest = path_over(seq![], parts);
            let depth = components(directory).len() as int;
            &&& path == entry_path(directory, rest)
            &&& rest.len() > 0
            &&& rest.last() != SLASH
            &&& components(path).len() == depth + parts.len()
            &&& components(path)[depth].0 == path.len() - rest.len()
            &&& components(path).last().1 == path.len()
        }),
    decreases parts.len(),
{
    let front = parts.drop_last();
    let name = parts.last();
    let none: Seq<u8> = seq![];
    let depth = components(directory).len() as int;
    assert(is_entry_name(parts[parts.len() - 1]));
    assert(name.contains(name.last()));
    if front.len() == 0 {
        reveal_with_fuel(path_over, 2);
        lemma_entry_components(directory, name);
        assert(entry_path(none, name) =~= name);
        assert(path_over(none, parts) == name);
        assert(path_over(directory, parts) == entry_path(directory, name));
    } else {
        assert forall|i: int| 0 <= i < front.len() implies is_entry_name(#[trigger] front[i]) by {
            assert(parts[i] == front[i]);
        }
        lemma_path_over(directory, front);
        let before = path_over(directory, front);
        let rest = path_over(none, front);
        lemma_path_over(none, front);
        lemma_entry_components(before, name);
        assert(before.last() == rest.last());
        assert(path_over(directory, parts) =~= entry_path(directory, path_over(none, parts)));
        assert(components(path_over(directory, parts))[depth] == components(before)[depth]);
    }
}

/// The relative path of a file is the way that leads to it from the watched folder, name
/// by name, with a slash between two names, and with slashes in place of backslashes. A
/// file that does not lie below the folder is reported with its whole path.
pub proof fn law_relative_path_is_the_way_from_the_root(
    directory: Seq<u8>,
    parts: Seq<Seq<u8>>,
    path: Seq<u8>,
    i: int,
)
    requires
        parts.len() > 0,
        forall|i: int| 0 <= i < parts.len() ==> is_entry_name(#[trigger] parts[i]),
    ensures
        ({
            let way = lossy_utf8(path_over(seq![], parts));
            let text = relative_text(directory, path_over(directory, parts));
            &&& text.len() == way.len()
            &&& 0 <= i < way.len() ==> text[i] == if way[i] == '\\' {
                '/'
            } else {
                way[i]
            }
        }),
        !names(directory).is_prefix_of(names(path)) ==> {
            let whole = lossy_utf8(path);
            let text = relative_text(directory, path);
            &&& text.len() == whole.len()
            &&& 0 <= i < whole.len() ==> text[i] == if whole[i] == '\\' {
                '/'
            } else {
                whole[i]
            }
        },
{
    lemma_path_over(directory, parts);
    law_path_below_a_directory(directory, parts);
    let whole = path_over(directory, parts);
    let rest = path_over(seq![], parts);
    assert(names(whole).take(names(directory).len() as int) =~= names(directory));
    assert(whole.subrange(whole.len() - rest.len(), whole.len() as int) =~= rest);
    assert(below(directory, whole) == Some(rest));
    if below(directory, path) is Some {
        assert(names(path).take(names(directory).len() as int) == names(directory));
    }
}

proof fn lemma_encode_join(a: Seq<char>, b: Seq<char>)
    ensures
        encode_utf8(a + b) == encode_utf8(a) + encode_utf8(b),
    decreases a.len(),
{
    if a.len() == 0 {
        assert(a + b =~= b);
        assert(encode_utf8(a) + encode_utf8(b) =~= encode_utf8(b));
    } else {
        assert((a + b).drop_first() =~= a.drop_first() + b);
        lemma_encode_join(a.drop_first(), b);
        assert(encode_scalar(a[0] as u32) + (encode_utf8(a.drop_first()) + encode_utf8(b))
            =~= encode_utf8(a) + encode_utf8(b));
    }
}

proof fn lemma_occurs<A>(items: Seq<A>, item: A)
    requires
        items.contains(item),
    ensures
        occurrences(items, item) > 0,
    decreases items.len(),
{
    let i = choose|i: int| 0 <= i < items.len() && items[i] == item;
    if i > 0 {
        assert(items.drop_first()[i - 1] == item);
        lemma_occurs(items.drop_first(), item);
    }
}

proof fn lemma_encoded_name(name: Seq<char>)
    requires
        name.len() > 0,
        !name.contains('/'),
        name != seq!['.'],
        name != seq!['.', '.'],
    ensures
        is_entry_name(encode_utf8(name)),
{
    let bytes = encode_utf8(name);
    lemma_first_byte(name);
    law_utf8_is_read_back(name);
    law_slashes_stay_slashes(bytes);
    assert forall|i: int| 0 <= i < name.len() implies #[trigger] name[i] != '/' by {
        assert(name.contains(name[i]));
    }
    lemma_no_occurrence(name, '/');
    if bytes.contains(SLASH) {
        lemma_occurs(bytes, SLASH);
    }
    let dot = seq!['.'];
    let dots = seq!['.', '.'];
    assert(encode_utf8(dot) =~= seq![DOT]) by {
        assert(dot.drop_first() =~= seq![]);
        assert(encode_utf8(dot.drop_first()) =~= seq![]);
        assert(encode_scalar(0x2e) =~= seq![DOT]) by {
            lemma_first_byte(dot);
            encode_utf8_first_scalar(dot);
        }
    }
    assert(encode_utf8(dots) =~= seq![DOT, DOT]) by {
        assert(dots =~= dot + dot);
        lemma_encode_join(dot, dot);
    }
    if bytes == seq![DOT] {
        lemma_encoding_injective(name, dot);
    }
    if bytes == seq![DOT, DOT] {
        lemma_encoding_injective(name, dots);
    }
}

/// The name of a file is what follows the last slash of its path, or the whole path if
/// it has no slash.
pub proof fn law_name_follows_the_last_slash(front: Seq<char>, name: Seq<char>)
    requires
        name.len() > 0,
        !name.contains('/'),
        name != seq!['.'],
        name != seq!['.', '.'],
    ensures
        name_text(front.push('/') + name) == name,
        name_text(name) == name,
{
    let directory = encode_utf8(front.push('/'));
    let bytes = encode_utf8(name);
    let slash = seq!['/'];
    lemma_encoded_name(name);
    law_utf8_is_read_back(name);
    assert(encode_utf8(slash) =~= seq![SLASH]) by {
        assert(slash.drop_first() =~= seq![]);
        assert(encode_utf8(slash.drop_first()) =~= seq![]);
        encode_utf8_first_scalar(slash);
        let b = encode_utf8(slash)[0];
        assert(b <= 0x7f ==> b & 0x7f == b) by (bit_vector);
        assert(encode_scalar(0x2f).len() == 1);
    }
    assert(front.push('/') =~= front + slash);
    lemma_encode_join(front, slash);
    assert(directory.last() == SLASH);
    lemma_encode_join(front.push('/'), name);
    law_entry_of_a_directory(directory, bytes);
    let none: Seq<u8> = seq![];
    assert(entry_path(none, bytes) =~= bytes);
    law_entry_of_a_directory(none, bytes);
}

/// A path that is empty, or ends with a slash at the root, a lone `.` or a `..`, has no
/// file name.
pub proof fn law_paths_without_a_file_name(directory: Seq<u8>)
    ensures
        file_name(seq![]) is None,
        file_name(seq![SLASH]) is None,
        file_name(seq![DOT]) is None,
        file_name(entry_path(directory, seq![DOT, DOT])) is None,
{
    let dots: Seq<u8> = seq![DOT, DOT];
    assert(dots.len() == 2 && seq![DOT].len() == 1);
    assert(dots[0] != SLASH && dots[1] != SLASH);
    law_components_of_a_path(directory, dots);
    assert(names(seq![SLASH]).last() == seq![SLASH]);
    assert(names(seq![DOT]).last() == seq![DOT]);
    assert(names(entry_path(directory, dots)).last() == dots);
}

} // verus!

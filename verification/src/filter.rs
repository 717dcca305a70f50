//! Which files are watched.

use vstd::prelude::*;
use vstd::utf8::*;

use crate::model::{texts, ConfigView, StoredConfig};
use crate::path::{
    extension, find_extension, has_hidden_component, is_hidden_path, names, DOT,
};
use crate::path_laws::{
    entry_path, is_entry_name, law_entry_of_a_directory, law_extension_follows_the_last_dot,
    law_only_components_count,
};
use crate::text::{
    characters, is_white_space, law_lower_case_forgets_the_case, lower, lower_characters,
    lower_text, same_letters, utf8, utf8_text,
};

verus! {

/// A text without the characters at its start that are to go.
pub open spec fn trim_start(text: Seq<char>, goes: spec_fn(char) -> bool) -> Seq<char>
    decreases text.len(),
{
    if text.len() > 0 && goes(text.first()) {
        trim_start(text.drop_first(), goes)
    } else {
        text
    }
}

/// A text without the characters at its end that are to go.
pub open spec fn trim_end(text: Seq<char>, goes: spec_fn(char) -> bool) -> Seq<char>
    decreases text.len(),
{
    if text.len() > 0 && goes(text.last()) {
        trim_end(text.drop_last(), goes)
    } else {
        text
    }
}

/// A text without the white space around it.
pub open spec fn trim(text: Seq<char>) -> Seq<char> {
    trim_end(
        trim_start(text, |c: char| is_white_space(c)),
        |c: char| is_white_space(c),
    )
}

/// An extension as it is compared: without the white space around it and the dots
/// in front of it, in lower case.
pub open spec fn normalized(item: Seq<char>) -> Seq<char> {
    lower_text(trim_start(trim(item), |c: char| c == '.'))
}

/// Some entry of the list is not empty and names the extension `ext`.
pub open spec fn is_listed(ext: Seq<char>, list: Seq<Seq<char>>) -> bool {
    exists|i: int|
        0 <= i < list.len() && {
            let entry = normalized(#[trigger] list[i]);
            entry.len() > 0 && entry == lower_text(ext)
        }
}

/// The extension of the path is text, and listed.
pub open spec fn has_listed_extension(path: Seq<u8>, list: Seq<Seq<char>>) -> bool {
    match extension(path) {
        Some(bytes) => match utf8(bytes) {
            Some(ext) => is_listed(ext, list),
            None => false,
        },
        None => false,
    }
}

/// The file is watched: it is not hidden, unless hidden files are watched too, and
/// its extension is listed, unless the list is empty.
pub open spec fn is_watched(path: Seq<u8>, config: ConfigView) -> bool {
    &&& config.include_hidden || !is_hidden_path(path)
    &&& config.extensions.len() == 0 || has_listed_extension(path, config.extensions)
}

fn start_of_text(chars: &Vec<char>) -> (from: usize)
    ensures
        from <= chars@.len(),
        chars@.skip(from as int) == trim_start(chars@, |c: char| is_white_space(c)),
{
    let ghost white = |c: char| is_white_space(c);
    let mut from: usize = 0;
    assert(chars@.skip(0) =~= chars@);
    while from < chars.len() && chars[from].is_whitespace()
        invariant
            from <= chars@.len(),
            white == (|c: char| is_white_space(c)),
            trim_start(chars@.skip(from as int), white) == trim_start(chars@, white),
        decreases chars@.len() - from,
    {
        assert(chars@.skip(from as int).drop_first() =~= chars@.skip(from + 1));
        from = from + 1;
    }
    from
}

fn end_of_text(chars: &Vec<char>, from: usize) -> (to: usize)
    requires
        from <= chars@.len(),
    ensures
        from <= to <= chars@.len(),
        chars@.subrange(from as int, to as int) == trim_end(
            chars@.skip(from as int),
            |c: char| is_white_space(c),
        ),
{
    let ghost white = |c: char| is_white_space(c);
    let mut to: usize = chars.len();
    assert(chars@.subrange(from as int, to as int) =~= chars@.skip(from as int));
    while to > from && chars[to - 1].is_whitespace()
        invariant
            from <= to <= chars@.len(),
            white == (|c: char| is_white_space(c)),
            trim_end(chars@.subrange(from as int, to as int), white) == trim_end(
                chars@.skip(from as int),
                white,
            ),
        decreases to,
    {
        assert(chars@.subrange(from as int, to as int).drop_last() =~= chars@.subrange(
            from as int,
            to - 1,
        ));
        to = to - 1;
    }
    to
}

fn after_dots(chars: &Vec<char>, from: usize, to: usize) -> (at: usize)
    requires
        from <= to <= chars@.len(),
    ensures
        from <= at <= to,
        chars@.subrange(at as int, to as int) == trim_start(
            chars@.subrange(from as int, to as int),
            |c: char| c == '.',
        ),
{
    let ghost dot = |c: char| c == '.';
    let mut at: usize = from;
    while at < to && chars[at] == '.'
        invariant
            from <= at <= to <= chars@.len(),
            dot == (|c: char| c == '.'),
            trim_start(chars@.subrange(at as int, to as int), dot) == trim_start(
                chars@.subrange(from as int, to as int),
                dot,
            ),
        decreases to - at,
    {
        assert(chars@.subrange(at as int, to as int).drop_first() =~= chars@.subrange(
            at + 1,
            to as int,
        ));
        at = at + 1;
    }
    at
}

/// An extension as it is compared: without the white space around it and the dots
/// in front of it, in lower case.
fn normalize(item: &str) -> (entry: Vec<char>)
    ensures
        entry@ == normalized(item@),
{
    let chars = characters(item);
    let from = start_of_text(&chars);
    let to = end_of_text(&chars, from);
    let at = after_dots(&chars, from, to);
    lower_characters(&chars, at, to)
}

fn same_chars(a: &Vec<char>, b: &Vec<char>) -> (same: bool)
    ensures
        same == (a@ == b@),
{
    if a.len() != b.len() {
        return false;
    }
    let mut i: usize = 0;
    while i < a.len()
        invariant
            i <= a.len(),
            a.len() == b.len(),
            forall|k: int| 0 <= k < i ==> a@[k] == b@[k],
        decreases a.len() - i,
    {
        if a[i] != b[i] {
            return false;
        }
        i = i + 1;
    }
    assert(a@ =~= b@);
    true
}

/// Tells whether a file is watched. Hidden files are not, unless the configuration
/// includes them. If the configuration lists extensions, only files with one of
/// them are; case, white space around an entry and dots in front of it make no
/// difference.
pub fn should_include_file(path: &[u8], config: &StoredConfig) -> (watched: bool)
    ensures
        watched == is_watched(path@, config@),
{
    if !config.include_hidden && has_hidden_component(path) {
        return false;
    }
    assert(texts(config.extensions@).len() == config.extensions@.len());
    if config.extensions.len() == 0 {
        return true;
    }
    let bytes = match find_extension(path) {
        Some(bytes) => bytes,
        None => {
            return false;
        },
    };
    let ext = match utf8_text(bytes) {
        Some(ext) => ext,
        None => {
            return false;
        },
    };
    let chars = characters(ext.as_str());
    let wanted = lower_characters(&chars, 0, chars.len());
    assert(chars@.subrange(0, chars@.len() as int) =~= ext@);
    let mut i: usize = 0;
    while i < config.extensions.len()
        invariant
            i <= config.extensions@.len(),
            config.include_hidden || !is_hidden_path(path@),
            extension(path@) == Some(bytes@),
            utf8(bytes@) == Some(ext@),
            wanted@ == lower_text(ext@),
            texts(config.extensions@).len() == config.extensions@.len(),
            forall|k: int|
                0 <= k < i ==> {
                    let entry = normalized(#[trigger] texts(config.extensions@)[k]);
                    !(entry.len() > 0 && entry == lower_text(ext@))
                },
        decreases config.extensions@.len() - i,
    {
        let entry = normalize(config.extensions[i].as_str());
        assert(texts(config.extensions@)[i as int] == config.extensions@[i as int]@);
        if entry.len() > 0 && same_chars(&entry, &wanted) {
            return true;
        }
        i = i + 1;
    }
    false
}

proof fn lemma_trim_start_all(front: Seq<char>, text: Seq<char>, goes: spec_fn(char) -> bool)
    requires
        forall|i: int| 0 <= i < front.len() ==> goes(#[trigger] front[i]),
    ensures
        trim_start(front + text, goes) == trim_start(text, goes),
    decreases front.len(),
{
    if front.len() == 0 {
        assert(front + text =~= text);
    } else {
        assert((front + text).drop_first() =~= front.drop_first() + text);
        lemma_trim_start_all(front.drop_first(), text, goes);
    }
}

proof fn lemma_trim_end_all(text: Seq<char>, back: Seq<char>, goes: spec_fn(char) -> bool)
    requires
        forall|i: int| 0 <= i < back.len() ==> goes(#[trigger] back[i]),
    ensures
        trim_end(text + back, goes) == trim_end(text, goes),
    decreases back.len(),
{
    if back.len() == 0 {
        assert(text + back =~= text);
    } else {
        assert((text + back).drop_last() =~= text + back.drop_last());
        lemma_trim_end_all(text, back.drop_last(), goes);
    }
}

proof fn lemma_trim_start_back(text: Seq<char>, back: Seq<char>, goes: spec_fn(char) -> bool)
    requires
        forall|i: int| 0 <= i < back.len() ==> goes(#[trigger] back[i]),
    ensures
        trim_start(text, goes).len() == 0 ==> trim_start(text + back, goes).len() == 0,
        trim_start(text, goes).len() > 0 ==> trim_start(text + back, goes) == trim_start(text, goes)
            + back,
    decreases text.len(),
{
    if text.len() == 0 {
        let none: Seq<char> = seq![];
        assert(text + back =~= back + none);
        lemma_trim_start_all(back, none, goes);
    } else if goes(text.first()) {
        assert((text + back).drop_first() =~= text.drop_first() + back);
        lemma_trim_start_back(text.drop_first(), back, goes);
    }
}

/// White space around an entry of the list of extensions makes no difference.
pub proof fn law_white_space_is_trimmed(before: Seq<char>, item: Seq<char>, after: Seq<char>)
    requires
        forall|i: int| 0 <= i < before.len() ==> is_white_space(#[trigger] before[i]),
        forall|i: int| 0 <= i < after.len() ==> is_white_space(#[trigger] after[i]),
    ensures
        normalized(before + item + after) == normalized(item),
{
    let white = |c: char| is_white_space(c);
    assert(before + item + after =~= before + (item + after));
    lemma_trim_start_all(before, item + after, white);
    lemma_trim_start_back(item, after, white);
    if trim_start(item, white).len() > 0 {
        lemma_trim_end_all(trim_start(item, white), after, white);
    } else {
        assert(trim_start(item, white) =~= trim_start(item + after, white));
    }
}

proof fn lemma_trim_end_front(front: Seq<char>, text: Seq<char>, goes: spec_fn(char) -> bool)
    requires
        text.len() > 0,
        !goes(text.first()),
    ensures
        trim_end(front + text, goes) == front + trim_end(text, goes),
    decreases text.len(),
{
    if goes(text.last()) {
        assert((front + text).drop_last() =~= front + text.drop_last());
        lemma_trim_end_front(front, text.drop_last(), goes);
    }
}

proof fn lemma_trimmed_away(text: Seq<char>)
    requires
        trim(text).len() == 0,
    ensures
        forall|i: int| 0 <= i < text.len() ==> is_white_space(#[trigger] text[i]),
    decreases text.len(),
{
    let white = |c: char| is_white_space(c);
    if text.len() > 0 {
        if white(text.first()) {
            lemma_trimmed_away(text.drop_first());
            assert forall|i: int| 0 <= i < text.len() implies is_white_space(#[trigger] text[i]) by {
                if i > 0 {
                    assert(text.drop_first()[i - 1] == text[i]);
                }
            }
        } else {
            lemma_not_trimmed_away(text, white);
        }
    }
}

proof fn lemma_not_trimmed_away(text: Seq<char>, goes: spec_fn(char) -> bool)
    requires
        text.len() > 0,
        !goes(text.first()),
    ensures
        trim_end(text, goes).len() > 0,
    decreases text.len(),
{
    if goes(text.last()) {
        lemma_not_trimmed_away(text.drop_last(), goes);
    }
}

/// Dots in front of an entry of the list of extensions make no difference. (Where
/// white space follows the dots it is part of the entry.)
pub proof fn law_leading_dots_are_trimmed(dots: Seq<char>, item: Seq<char>)
    requires
        forall|i: int| 0 <= i < dots.len() ==> #[trigger] dots[i] == '.',
        dots.len() > 0 && trim(item).len() > 0 ==> !is_white_space(item.first()),
    ensures
        normalized(dots + item) == normalized(item),
{
    let white = |c: char| is_white_space(c);
    let dot = |c: char| c == '.';
    assert(!is_white_space('.'));
    if dots.len() == 0 {
        assert(dots + item =~= item);
    } else {
        assert((dots + item).first() == dots[0]);
        if trim(item).len() == 0 {
            lemma_trimmed_away(item);
            lemma_trim_end_all(dots, item, white);
            assert(dots.last() == '.');
            let none: Seq<char> = seq![];
            assert(dots =~= dots + none);
            lemma_trim_start_all(dots, none, dot);
            assert(trim(item) =~= none);
        } else {
            lemma_trim_end_front(dots, item, white);
            lemma_trim_start_all(dots, trim_end(item, white), dot);
        }
    }
}

proof fn lemma_lower(c: char)
    ensures
        lower(lower(c)) == lower(c),
        is_white_space(lower(c)) == is_white_space(c),
        (lower(c) == '.') == (c == '.'),
{
}

proof fn lemma_trim_start_lower(text: Seq<char>, goes: spec_fn(char) -> bool)
    requires
        forall|c: char| #[trigger] goes(lower(c)) == goes(c),
    ensures
        trim_start(lower_text(text), goes) == lower_text(trim_start(text, goes)),
    decreases text.len(),
{
    if text.len() > 0 {
        assert(lower_text(text).first() == lower(text.first()));
        assert(goes(lower(text.first())) == goes(text.first()));
        assert(lower_text(text).drop_first() =~= lower_text(text.drop_first()));
        lemma_trim_start_lower(text.drop_first(), goes);
    }
}

proof fn lemma_trim_end_lower(text: Seq<char>, goes: spec_fn(char) -> bool)
    requires
        forall|c: char| #[trigger] goes(lower(c)) == goes(c),
    ensures
        trim_end(lower_text(text), goes) == lower_text(trim_end(text, goes)),
    decreases text.len(),
{
    if text.len() > 0 {
        assert(lower_text(text).last() == lower(text.last()));
        assert(goes(lower(text.last())) == goes(text.last()));
        assert(lower_text(text).drop_last() =~= lower_text(text.drop_last()));
        lemma_trim_end_lower(text.drop_last(), goes);
    }
}

proof fn lemma_normalized_lower(item: Seq<char>)
    ensures
        normalized(lower_text(item)) == normalized(item),
{
    let white = |c: char| is_white_space(c);
    let dot = |c: char| c == '.';
    assert forall|c: char| #[trigger] white(lower(c)) == white(c) by {
        lemma_lower(c);
    }
    assert forall|c: char| #[trigger] dot(lower(c)) == dot(c) by {
        lemma_lower(c);
    }
    lemma_trim_start_lower(item, white);
    lemma_trim_end_lower(trim_start(item, white), white);
    lemma_trim_start_lower(trim(item), dot);
    lemma_lower_twice(trim_start(trim(item), dot));
}

proof fn lemma_lower_twice(text: Seq<char>)
    ensures
        lower_text(lower_text(text)) == lower_text(text),
{
    assert forall|i: int| 0 <= i < text.len() implies lower_text(lower_text(text))[i] == lower_text(
        text,
    )[i] by {
        lemma_lower(text[i]);
    }
    assert(lower_text(lower_text(text)) =~= lower_text(text));
}

/// The case of a file's extension, and that of the entries of the list, make no
/// difference.
pub proof fn law_case_makes_no_difference(
    ext: Seq<char>,
    other_ext: Seq<char>,
    list: Seq<Seq<char>>,
    other_list: Seq<Seq<char>>,
)
    requires
        lower_text(ext) == lower_text(other_ext),
        list.len() == other_list.len(),
        forall|i: int|
            0 <= i < list.len() ==> lower_text(#[trigger] list[i]) == lower_text(other_list[i]),
    ensures
        is_listed(ext, list) == is_listed(other_ext, other_list),
{
    assert forall|i: int| 0 <= i < list.len() implies normalized(#[trigger] list[i]) == normalized(
        other_list[i],
    ) by {
        lemma_normalized_lower(list[i]);
        lemma_normalized_lower(other_list[i]);
    }
    if is_listed(ext, list) {
        let i = choose|i: int|
            0 <= i < list.len() && normalized(#[trigger] list[i]).len() > 0 && normalized(list[i])
                == lower_text(ext);
        assert(normalized(other_list[i]) == lower_text(other_ext));
    }
    if is_listed(other_ext, other_list) {
        let i = choose|i: int|
            0 <= i < other_list.len() && normalized(#[trigger] other_list[i]).len() > 0
                && normalized(other_list[i]) == lower_text(other_ext);
        assert(normalized(list[i]) == lower_text(ext));
    }
}

/// Two configurations whose lists of extensions compare alike watch the same files.
pub proof fn law_only_normalized_entries_count(path: Seq<u8>, a: ConfigView, b: ConfigView)
    requires
        a.include_hidden == b.include_hidden,
        a.extensions.len() == b.extensions.len(),
        forall|i: int|
            0 <= i < a.extensions.len() ==> normalized(#[trigger] a.extensions[i]) == normalized(
                b.extensions[i],
            ),
    ensures
        is_watched(path, a) == is_watched(path, b),
{
    if let Some(bytes) = extension(path) {
        if let Some(ext) = utf8(bytes) {
            if is_listed(ext, a.extensions) {
                let i = choose|i: int|
                    0 <= i < a.extensions.len() && normalized(#[trigger] a.extensions[i]).len() > 0
                        && normalized(a.extensions[i]) == lower_text(ext);
                assert(normalized(b.extensions[i]) == lower_text(ext));
            }
            if is_listed(ext, b.extensions) {
                let i = choose|i: int|
                    0 <= i < b.extensions.len() && normalized(#[trigger] b.extensions[i]).len() > 0
                        && normalized(b.extensions[i]) == lower_text(ext);
                assert(normalized(a.extensions[i]) == lower_text(ext));
            }
        }
    }
}

/// A hidden file is not watched unless hidden files are included, and including
/// them makes no difference to any other file.
pub proof fn law_hidden_files(path: Seq<u8>, config: ConfigView)
    ensures
        is_hidden_path(path) && !config.include_hidden ==> !is_watched(path, config),
        !is_hidden_path(path) ==> is_watched(path, config) == is_watched(
            path,
            ConfigView { include_hidden: !config.include_hidden, ..config },
        ),
{
}

proof fn lemma_trim_start_split(text: Seq<char>, goes: spec_fn(char) -> bool) -> (front: Seq<char>)
    ensures
        text == front + trim_start(text, goes),
        forall|i: int| 0 <= i < front.len() ==> goes(#[trigger] front[i]),
        trim_start(text, goes).len() > 0 ==> !goes(trim_start(text, goes).first()),
    decreases text.len(),
{
    if text.len() > 0 && goes(text.first()) {
        let rest = lemma_trim_start_split(text.drop_first(), goes);
        let front = seq![text.first()] + rest;
        let kept = trim_start(text, goes);
        assert(text =~= seq![text.first()] + text.drop_first());
        assert(seq![text.first()] + (rest + kept) =~= front + kept);
        assert forall|i: int| 0 <= i < front.len() implies goes(#[trigger] front[i]) by {
            if i > 0 {
                assert(front[i] == rest[i - 1]);
            }
        }
        front
    } else {
        assert(text =~= seq![] + text);
        seq![]
    }
}

proof fn lemma_trim_end_split(text: Seq<char>, goes: spec_fn(char) -> bool) -> (back: Seq<char>)
    ensures
        text == trim_end(text, goes) + back,
        forall|i: int| 0 <= i < back.len() ==> goes(#[trigger] back[i]),
        trim_end(text, goes).len() > 0 ==> !goes(trim_end(text, goes).last()),
    decreases text.len(),
{
    if text.len() > 0 && goes(text.last()) {
        let rest = lemma_trim_end_split(text.drop_last(), goes);
        let back = rest.push(text.last());
        let kept = trim_end(text, goes);
        assert(text =~= text.drop_last().push(text.last()));
        assert((kept + rest).push(text.last()) =~= kept + back);
        back
    } else {
        assert(text =~= text + seq![]);
        seq![]
    }
}

/// An entry of the list that is written as these four parts, one after the other, for
/// the extension `ext`: white space, dots, the extension in whatever case, and white
/// space.
pub open spec fn is_written_as(
    item: Seq<char>,
    before: Seq<char>,
    dots: Seq<char>,
    core: Seq<char>,
    after: Seq<char>,
    ext: Seq<char>,
) -> bool {
    &&& item == before + dots + core + after
    &&& forall|i: int| 0 <= i < before.len() ==> is_white_space(#[trigger] before[i])
    &&& forall|i: int| 0 <= i < dots.len() ==> #[trigger] dots[i] == '.'
    &&& forall|i: int| 0 <= i < after.len() ==> is_white_space(#[trigger] after[i])
    &&& core.len() > 0
    &&& core.first() != '.'
    &&& dots.len() == 0 ==> !is_white_space(core.first())
    &&& !is_white_space(core.last())
    &&& same_letters(core, ext)
}

/// An entry of the list that names the extension `ext`: but for white space around it,
/// dots in front of it and the case of ASCII letters it is that extension.
pub open spec fn names_extension(item: Seq<char>, ext: Seq<char>) -> bool {
    exists|before: Seq<char>, dots: Seq<char>, core: Seq<char>, after: Seq<char>| #[trigger]
        is_written_as(item, before, dots, core, after, ext)
}

proof fn lemma_names_extension(item: Seq<char>, ext: Seq<char>)
    ensures
        normalized(item).len() > 0 && normalized(item) == lower_text(ext) <==> names_extension(
            item,
            ext,
        ),
{
    let white = |c: char| is_white_space(c);
    let dot = |c: char| c == '.';
    assert(!is_white_space('.'));
    if normalized(item).len() > 0 && normalized(item) == lower_text(ext) {
        let started = trim_start(item, white);
        let trimmed = trim_end(started, white);
        let core = trim_start(trimmed, dot);
        let before = lemma_trim_start_split(item, white);
        let after = lemma_trim_end_split(started, white);
        let dots = lemma_trim_start_split(trimmed, dot);
        assert(lower_text(core).len() == core.len());
        assert(item =~= before + dots + core + after);
        assert(trimmed.last() == core.last());
        assert(trimmed.first() == started.first());
        law_lower_case_forgets_the_case(core, ext);
        assert(is_written_as(item, before, dots, core, after, ext));
    }
    if names_extension(item, ext) {
        let (before, dots, core, after) = choose|
            before: Seq<char>,
            dots: Seq<char>,
            core: Seq<char>,
            after: Seq<char>,
        | #[trigger]
            is_written_as(item, before, dots, core, after, ext);
        let middle = dots + core;
        assert(item =~= before + (middle + after));
        lemma_trim_start_all(before, middle + after, white);
        assert((middle + after).first() == if dots.len() > 0 {
            dots[0]
        } else {
            core.first()
        });
        lemma_trim_end_all(middle, after, white);
        assert(middle.last() == core.last());
        lemma_trim_start_all(dots, core, dot);
        law_lower_case_forgets_the_case(core, ext);
        assert(lower_text(core).len() == core.len());
    }
}

/// Which files are watched. A file is hidden if a directory on the way to it is, or if
/// its name is text that starts with a dot; hidden files are watched only if they are
/// included. If there is a list of extensions, the name of the file must have a dot that
/// is not its first character, and what follows its last dot must be text that some
/// entry of the list names.
pub proof fn law_which_files_are_watched(
    directory: Seq<u8>,
    stem: Seq<u8>,
    ext: Seq<u8>,
    name: Seq<u8>,
    config: ConfigView,
)
    requires
        is_entry_name(name),
    ensures
        stem.len() > 0 && !ext.contains(DOT) && name == stem.push(DOT) + ext ==> (is_watched(
            entry_path(directory, name),
            config,
        ) <==> {
            &&& config.include_hidden || !(is_hidden_path(directory) || name[0] == DOT
                && valid_utf8(name))
            &&& config.extensions.len() == 0 || valid_utf8(ext) && exists|i: int|
                0 <= i < config.extensions.len() && #[trigger] names_extension(
                    config.extensions[i],
                    decode_utf8(ext),
                )
        }),
        (forall|i: int| 0 < i < name.len() ==> name[i] != DOT) ==> (is_watched(
            entry_path(directory, name),
            config,
        ) <==> {
            &&& config.include_hidden || !(is_hidden_path(directory) || name[0] == DOT
                && valid_utf8(name))
            &&& config.extensions.len() == 0
        }),
{
    law_entry_of_a_directory(directory, name);
    law_extension_follows_the_last_dot(directory, stem, ext, name);
    if valid_utf8(ext) {
        let text = decode_utf8(ext);
        assert forall|i: int| 0 <= i < config.extensions.len() implies ({
            let entry = normalized(#[trigger] config.extensions[i]);
            entry.len() > 0 && entry == lower_text(text)
        } <==> names_extension(config.extensions[i], text)) by {
            lemma_names_extension(config.extensions[i], text);
        }
        if is_listed(text, config.extensions) {
            let i = choose|i: int|
                0 <= i < config.extensions.len() && {
                    let entry = normalized(#[trigger] config.extensions[i]);
                    entry.len() > 0 && entry == lower_text(text)
                };
            assert(names_extension(config.extensions[i], text));
        }
    }
}

proof fn lemma_dotted_text(stem: Seq<u8>, ext: Seq<u8>)
    requires
        valid_utf8(ext),
    ensures
        valid_utf8(stem.push(DOT) + ext) == valid_utf8(stem),
{
    let name = stem.push(DOT) + ext;
    let dot: Seq<u8> = seq![DOT];
    if valid_utf8(name) {
        let at = stem.len() as int;
        assert(name[at] == DOT);
        is_char_boundary_iff_not_is_continuation_byte(name, at);
        valid_utf8_split(name, at);
        assert(name.subrange(0, at) =~= stem);
    }
    if valid_utf8(stem) {
        assert(DOT & 0x7f == 0x2e) by (bit_vector);
        reveal_with_fuel(valid_utf8, 2);
        assert(pop_first_scalar(dot) =~= seq![]);
        assert(valid_utf8(dot));
        valid_utf8_concat(stem, dot);
        valid_utf8_concat(stem + dot, ext);
        assert(stem + dot =~= stem.push(DOT));
    }
}

/// The case of the letters of an extension makes no difference: two files whose
/// extensions are the same but for capital and small letters of the same place in the
/// alphabet are both watched, or neither is.
pub proof fn law_case_of_an_extension(
    directory: Seq<u8>,
    stem: Seq<u8>,
    ext: Seq<u8>,
    other: Seq<u8>,
    config: ConfigView,
)
    requires
        stem.len() > 0,
        !ext.contains(DOT),
        !other.contains(DOT),
        valid_utf8(ext),
        valid_utf8(other),
        is_entry_name(stem.push(DOT) + ext),
        is_entry_name(stem.push(DOT) + other),
        same_letters(decode_utf8(ext), decode_utf8(other)),
    ensures
        is_watched(entry_path(directory, stem.push(DOT) + ext), config) == is_watched(
            entry_path(directory, stem.push(DOT) + other),
            config,
        ),
{
    let (one, two) = (stem.push(DOT) + ext, stem.push(DOT) + other);
    law_entry_of_a_directory(directory, one);
    law_entry_of_a_directory(directory, two);
    assert(one[0] == stem[0] && two[0] == stem[0]);
    lemma_dotted_text(stem, ext);
    lemma_dotted_text(stem, other);
    law_extension_follows_the_last_dot(directory, stem, ext, one);
    law_extension_follows_the_last_dot(directory, stem, other, two);
    law_lower_case_forgets_the_case(decode_utf8(ext), decode_utf8(other));
}

/// Without a list of extensions every file is watched, but for hidden ones unless they
/// are included. How a path is written makes no difference as long as its components are
/// the same.
pub proof fn law_files_without_a_list(path: Seq<u8>, other: Seq<u8>, config: ConfigView)
    ensures
        config.extensions.len() == 0 ==> (is_watched(path, config) <==> config.include_hidden
            || !is_hidden_path(path)),
        names(path) == names(other) ==> is_watched(path, config) == is_watched(other, config),
{
    if names(path) == names(other) {
        law_only_components_count(path, other);
    }
}

} // verus!

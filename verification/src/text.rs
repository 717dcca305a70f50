//! Text: UTF-8, the order of strings, decimal numbers, case and white space.

use vstd::prelude::*;
use vstd::utf8::*;

verus! {

/// `String::push` appends the given `char` to the end of the string.
pub assume_specification[ String::push ](text: &mut String, c: char)
    ensures
        final(text)@ == old(text)@.push(c),
;

/// The characters with the Unicode property `White_Space`.
pub open spec fn is_white_space(c: char) -> bool {
    let u = c as u32;
    ||| 0x09 <= u <= 0x0d
    ||| u == 0x20
    ||| u == 0x85
    ||| u == 0xa0
    ||| u == 0x1680
    ||| 0x2000 <= u <= 0x200a
    ||| u == 0x2028
    ||| u == 0x2029
    ||| u == 0x202f
    ||| u == 0x205f
    ||| u == 0x3000
}

/// `char::is_whitespace` tells whether a character has the Unicode property
/// `White_Space`.
pub assume_specification[ char::is_whitespace ](c: char) -> (white: bool)
    ensures
        white == is_white_space(c),
;

/// How many bytes `String::from_utf8_lossy` replaces by one U+FFFD, at the front of
/// bytes that do not start with a character.
pub uninterp spec fn replaced_bytes(bytes: Seq<u8>) -> nat;

/// Where the first character from position `from` on starts, or the end.
pub open spec fn next_character(bytes: Seq<u8>, from: int) -> int
    decreases bytes.len() - from,
{
    if from >= bytes.len() || valid_first_scalar(bytes.skip(from)) {
        from
    } else {
        next_character(bytes, from + 1)
    }
}

/// How many bytes are no character at the front of `bytes`, as far as one U+FFFD takes
/// their place: `replaced` of them, but at least one, and none of the next character.
pub open spec fn no_character(bytes: Seq<u8>, replaced: nat) -> int {
    if replaced < 1 {
        1
    } else if replaced > next_character(bytes, 1) {
        next_character(bytes, 1)
    } else {
        replaced as int
    }
}

/// The text of `bytes`, with U+FFFD in place of each sequence that is not UTF-8. If
/// they start with such a sequence, U+FFFD takes the place of `replaced` bytes.
pub open spec fn lossy_from(bytes: Seq<u8>, replaced: nat) -> Seq<char>
    decreases bytes.len(),
{
    if bytes.len() == 0 {
        seq![]
    } else if valid_first_scalar(bytes) {
        let rest = pop_first_scalar(bytes);
        seq![decode_first_scalar(bytes) as char] + lossy_from(rest, replaced_bytes(rest))
    } else {
        proof {
            lemma_next_character(bytes, 1);
        }
        let rest = bytes.skip(no_character(bytes, replaced));
        seq!['\u{fffd}'] + lossy_from(rest, replaced_bytes(rest))
    }
}

/// What `String::from_utf8_lossy` makes of `bytes`: their text, with U+FFFD in place
/// of each sequence that is not UTF-8.
pub open spec fn lossy_utf8(bytes: Seq<u8>) -> Seq<char> {
    lossy_from(bytes, replaced_bytes(bytes))
}

/// No character starts before the next one.
pub proof fn lemma_next_character(bytes: Seq<u8>, from: int)
    requires
        0 <= from <= bytes.len(),
    ensures
        from <= next_character(bytes, from) <= bytes.len(),
        forall|i: int|
            from <= i < next_character(bytes, from) ==> !valid_first_scalar(#[trigger] bytes.skip(i)),
    decreases bytes.len() - from,
{
    if from < bytes.len() && !valid_first_scalar(bytes.skip(from)) {
        lemma_next_character(bytes, from + 1);
    }
}

/// `String::from_utf8_lossy` reads bytes as UTF-8: it keeps every character, and puts
/// U+FFFD in place of each sequence that is none. How long such a sequence is, is
/// left to `replaced_bytes`, but that it takes at least one byte and none of the
/// character that follows.
#[verifier::external_body]
pub(crate) fn lossy_text(bytes: &[u8]) -> (text: String)
    ensures
        text@ == lossy_from(bytes@, replaced_bytes(bytes@)),
{
    String::from_utf8_lossy(bytes).into_owned()
}

/// `std::str::from_utf8` gives the text of bytes that are valid UTF-8, and an
/// error for all others.
#[verifier::external_body]
pub(crate) fn utf8_text(bytes: &[u8]) -> (text: Option<String>)
    ensures
        text is Some <==> valid_utf8(bytes@),
        text matches Some(t) ==> t@ == decode_utf8(bytes@),
{
    std::str::from_utf8(bytes).ok().map(|text| text.to_string())
}

/// The text of `bytes`, where they are UTF-8.
pub open spec fn utf8(bytes: Seq<u8>) -> Option<Seq<char>> {
    if valid_utf8(bytes) {
        Some(decode_utf8(bytes))
    } else {
        None
    }
}

/// Bytes that are UTF-8 keep their text.
pub proof fn law_utf8_keeps_its_text(bytes: Seq<u8>)
    requires
        valid_utf8(bytes),
    ensures
        lossy_utf8(bytes) == decode_utf8(bytes),
    decreases bytes.len(),
{
    if bytes.len() > 0 {
        law_utf8_keeps_its_text(pop_first_scalar(bytes));
    }
}

/// How often `item` occurs.
pub open spec fn occurrences<A>(items: Seq<A>, item: A) -> nat
    decreases items.len(),
{
    if items.len() == 0 {
        0
    } else {
        occurrences(items.drop_first(), item) + if items[0] == item {
            1nat
        } else {
            0nat
        }
    }
}

/// What occurs in two sequences, one after the other.
pub proof fn lemma_occurrences_join<A>(a: Seq<A>, b: Seq<A>, item: A)
    ensures
        occurrences(a + b, item) == occurrences(a, item) + occurrences(b, item),
    decreases a.len(),
{
    if a.len() == 0 {
        assert(a + b =~= b);
    } else {
        assert((a + b).drop_first() =~= a.drop_first() + b);
        lemma_occurrences_join(a.drop_first(), b, item);
    }
}

/// What is not there does not occur.
pub proof fn lemma_no_occurrence<A>(items: Seq<A>, item: A)
    requires
        forall|i: int| 0 <= i < items.len() ==> #[trigger] items[i] != item,
    ensures
        occurrences(items, item) == 0,
    decreases items.len(),
{
    if items.len() > 0 {
        assert forall|i: int| 0 <= i < items.drop_first().len() implies #[trigger] items.drop_first()[i]
            != item by {
            assert(items.drop_first()[i] == items[i + 1]);
        }
        lemma_no_occurrence(items.drop_first(), item);
    }
}

proof fn lemma_wide_character(bytes: Seq<u8>)
    requires
        bytes.len() > 0,
        valid_first_scalar(bytes),
        length_of_first_scalar(bytes) > 1,
    ensures
        (decode_first_scalar(bytes) as char) as u32 >= 0x80,
{
    let c = decode_first_scalar(bytes);
    if length_of_first_scalar(bytes) == 2 {
        let (x, y) = (bytes[0], bytes[1]);
        assert(codepoint_width_2(x, y) <= 0x7ff) by (bit_vector);
    } else if length_of_first_scalar(bytes) == 3 {
        let (x, y, z) = (bytes[0], bytes[1], bytes[2]);
        assert(codepoint_width_3(x, y, z) <= 0xffff) by (bit_vector);
    }
    assert(0x80 <= c <= 0x10ffff);
    assert((c as char) as u32 == c);
}

/// An ASCII byte is the same character in the text too, and nothing else is.
pub proof fn law_ascii_stays(bytes: Seq<u8>, byte: u8)
    requires
        byte < 0x80,
    ensures
        occurrences(lossy_utf8(bytes), byte as char) == occurrences(bytes, byte),
    decreases bytes.len(),
{
    if bytes.len() > 0 {
        let front = if valid_first_scalar(bytes) {
            length_of_first_scalar(bytes)
        } else {
            lemma_next_character(bytes, 1);
            no_character(bytes, replaced_bytes(bytes))
        };
        let c = if valid_first_scalar(bytes) {
            decode_first_scalar(bytes) as char
        } else {
            '\u{fffd}'
        };
        let rest = bytes.skip(front);
        assert(bytes =~= bytes.take(front) + rest);
        lemma_occurrences_join(bytes.take(front), rest, byte);
        lemma_occurrences_join(seq![c], lossy_utf8(rest), byte as char);
        law_ascii_stays(rest, byte);
        reveal_with_fuel(occurrences, 2);
        assert(lossy_utf8(bytes) == seq![c] + lossy_utf8(rest));
        assert(seq![c].drop_first() =~= seq![]);
        if valid_first_scalar(bytes) && front == 1 {
            let b = bytes[0];
            assert(b <= 0x7f ==> b & 0x7f == b) by (bit_vector);
            assert(bytes.take(1) =~= seq![b]);
            assert(seq![b].drop_first() =~= seq![]);
        } else {
            if valid_first_scalar(bytes) {
                lemma_wide_character(bytes);
            }
            assert forall|i: int| 0 <= i < front implies #[trigger] bytes.take(front)[i] != byte by {
                if !valid_first_scalar(bytes) && bytes[i] == byte {
                    let b = bytes[i];
                    assert(b <= 0x7f ==> b & 0x7f == b) by (bit_vector);
                    assert(bytes.skip(i)[0] == b);
                    assert(valid_first_scalar(bytes.skip(i)));
                    assert(bytes.skip(0) =~= bytes);
                }
            }
            lemma_no_occurrence(bytes.take(front), byte);
        }
    }
}

/// A slash is a slash in the text too, and nothing else is one.
pub proof fn law_slashes_stay_slashes(bytes: Seq<u8>)
    ensures
        occurrences(lossy_utf8(bytes), '/') == occurrences(bytes, 0x2fu8),
{
    law_ascii_stays(bytes, 0x2fu8);
}

/// Two texts with the same encoding are the same text.
pub proof fn lemma_encoding_injective(a: Seq<char>, b: Seq<char>)
    requires
        encode_utf8(a) == encode_utf8(b),
    ensures
        a == b,
{
    encode_utf8_decode_utf8(a);
    encode_utf8_decode_utf8(b);
}

/// Tells whether two byte strings are equal.
pub(crate) fn same_bytes(a: &[u8], b: &[u8]) -> (same: bool)
    ensures
        same == (a@ == b@),
{
    if a.len() != b.len() {
        return false;
    }
    let mut i: usize = 0;
    while i < a.len()
        invariant
            i <= a.len(),
            a.len() == b.len(),
            a@.take(i as int) == b@.take(i as int),
        decreases a.len() - i,
    {
        if a[i] != b[i] {
            return false;
        }
        assert(a@.take(i + 1) =~= a@.take(i as int).push(a@[i as int]));
        assert(b@.take(i + 1) =~= b@.take(i as int).push(b@[i as int]));
        i = i + 1;
    }
    assert(a@.take(i as int) =~= a@);
    assert(b@.take(i as int) =~= b@);
    true
}

/// Tells whether two texts are equal.
pub(crate) fn same_text(a: &str, b: &str) -> (same: bool)
    ensures
        same == (a@ == b@),
{
    let same = same_bytes(a.as_bytes(), b.as_bytes());
    proof {
        if same {
            lemma_encoding_injective(a@, b@);
        }
    }
    same
}

/// `a` comes before `b` in the lexicographic order of byte strings: at the first
/// position where they differ, `a` has ended or has the smaller byte.
pub open spec fn bytes_before(a: Seq<u8>, b: Seq<u8>) -> bool {
    exists|i: int| first_difference(a, b, i)
}

/// `a` and `b` agree on their first `i` bytes, and at `i` comes what puts `a`
/// first.
pub open spec fn first_difference(a: Seq<u8>, b: Seq<u8>, i: int) -> bool {
    &&& 0 <= i <= a.len()
    &&& i < b.len()
    &&& forall|j: int| 0 <= j < i ==> a[j] == b[j]
    &&& i < a.len() ==> a[i] < b[i]
}

/// The order of strings: by their UTF-8 bytes, which is by code point.
pub open spec fn text_before(a: Seq<char>, b: Seq<char>) -> bool {
    bytes_before(encode_utf8(a), encode_utf8(b))
}

/// No text comes before itself.
pub proof fn lemma_order_irreflexive(a: Seq<char>)
    ensures
        !text_before(a, a),
{
}

/// The order of texts is transitive.
pub proof fn lemma_order_transitive(a: Seq<char>, b: Seq<char>, c: Seq<char>)
    requires
        text_before(a, b),
        text_before(b, c),
    ensures
        text_before(a, c),
{
    let (x, y, z) = (encode_utf8(a), encode_utf8(b), encode_utf8(c));
    let i = choose|i: int| first_difference(x, y, i);
    let j = choose|j: int| first_difference(y, z, j);
    if i < j {
        assert(first_difference(x, z, i));
    } else {
        assert(first_difference(x, z, j));
    }
}

/// Of two different texts one comes before the other.
pub proof fn lemma_order_total(a: Seq<char>, b: Seq<char>)
    requires
        a != b,
    ensures
        text_before(a, b) || text_before(b, a),
{
    if encode_utf8(a) == encode_utf8(b) {
        lemma_encoding_injective(a, b);
    }
    lemma_bytes_differ(encode_utf8(a), encode_utf8(b), 0);
}

proof fn lemma_bytes_differ(a: Seq<u8>, b: Seq<u8>, i: int)
    requires
        a != b,
        0 <= i <= a.len(),
        i <= b.len(),
        forall|j: int| 0 <= j < i ==> a[j] == b[j],
    ensures
        bytes_before(a, b) || bytes_before(b, a),
    decreases a.len() - i,
{
    if i == a.len() && i == b.len() {
        assert(a =~= b);
    } else if i == a.len() {
        assert(first_difference(a, b, i));
    } else if i == b.len() {
        assert(first_difference(b, a, i));
    } else if a[i] < b[i] {
        assert(first_difference(a, b, i));
    } else if b[i] < a[i] {
        assert(first_difference(b, a, i));
    } else {
        lemma_bytes_differ(a, b, i + 1);
    }
}

/// Tells whether `a` comes before `b`.
pub(crate) fn is_before(a: &str, b: &str) -> (before: bool)
    ensures
        before == text_before(a@, b@),
{
    let x = a.as_bytes();
    let y = b.as_bytes();
    let mut i: usize = 0;
    while i < x.len() && i < y.len() && x[i] == y[i]
        invariant
            i <= x.len(),
            i <= y.len(),
            forall|j: int| 0 <= j < i ==> x[j] == y[j],
        decreases x.len() - i,
    {
        i = i + 1;
    }
    let before = i < y.len() && (i == x.len() || x[i] < y[i]);
    proof {
        if before {
            assert(first_difference(x@, y@, i as int));
        } else if bytes_before(x@, y@) {
            let k = choose|k: int| first_difference(x@, y@, k);
            assert(k < i || k == i || k > i);
        }
    }
    before
}

/// A letter from `A` to `Z` in lower case; any other character as it is.
pub open spec fn lower(c: char) -> char {
    if 'A' <= c <= 'Z' {
        (c as u32 + 32) as char
    } else {
        c
    }
}

/// A text with its ASCII letters in lower case.
pub open spec fn lower_text(text: Seq<char>) -> Seq<char> {
    text.map_values(|c: char| lower(c))
}

fn lower_char(c: char) -> (l: char)
    ensures
        l == lower(c),
{
    if 'A' <= c && c <= 'Z' {
        ((c as u8) + 32) as char
    } else {
        c
    }
}

/// The characters of a text.
pub(crate) fn characters(text: &str) -> (chars: Vec<char>)
    ensures
        chars@ == text@,
{
    let mut chars: Vec<char> = Vec::new();
    for c in it: text.chars()
        invariant
            chars@ == it.seq().take(it.index() as int),
            it.seq() == text@,
    {
        chars.push(c);
    }
    chars
}

/// The characters `from..to` in lower case.
pub(crate) fn lower_characters(chars: &Vec<char>, from: usize, to: usize) -> (lowered: Vec<char>)
    requires
        from <= to <= chars.len(),
    ensures
        lowered@ == lower_text(chars@.subrange(from as int, to as int)),
{
    let mut lowered: Vec<char> = Vec::new();
    let mut i: usize = from;
    while i < to
        invariant
            from <= i <= to <= chars.len(),
            lowered@ == lower_text(chars@.subrange(from as int, i as int)),
        decreases to - i,
    {
        lowered.push(lower_char(chars[i]));
        i = i + 1;
        assert(lowered@ =~= lower_text(chars@.subrange(from as int, i as int)));
    }
    lowered
}

/// The decimal digit of a number below ten.
pub open spec fn digit(d: nat) -> char {
    (0x30 + d) as char
}

/// A number in decimal notation.
pub open spec fn decimal(n: nat) -> Seq<char>
    decreases n,
{
    if n < 10 {
        seq![digit(n)]
    } else {
        decimal(n / 10).push(digit(n % 10))
    }
}

/// Writes a number in decimal notation at the end of a text.
pub(crate) fn push_decimal(text: &mut String, n: u64)
    ensures
        final(text)@ == old(text)@ + decimal(n as nat),
    decreases n,
{
    if n >= 10 {
        push_decimal(text, n / 10);
    }
    let d: u8 = (n % 10) as u8;
    text.push((0x30 + d) as char);
    proof {
        assert(old(text)@ + decimal(n as nat) =~= if n < 10 {
            old(text)@.push(digit(n as nat))
        } else {
            (old(text)@ + decimal((n / 10) as nat)).push(digit((n % 10) as nat))
        });
    }
}

/// Two characters that are the same but for the case of an ASCII letter: they are
/// equal, or one is the letter at some place from `A` on and the other the letter at the
/// same place from `a` on.
pub open spec fn same_letter(a: char, b: char) -> bool {
    ||| a == b
    ||| 0x41 <= a as u32 <= 0x5a && b as u32 == a as u32 + 0x20
    ||| 0x41 <= b as u32 <= 0x5a && a as u32 == b as u32 + 0x20
}

/// Texts that are the same but for the case of ASCII letters.
pub open spec fn same_letters(a: Seq<char>, b: Seq<char>) -> bool {
    &&& a.len() == b.len()
    &&& forall|i: int| 0 <= i < a.len() ==> same_letter(#[trigger] a[i], b[i])
}

/// The capital letter at each of the 26 places of the alphabet becomes the small letter
/// at that place, and every other character stays as it is.
pub proof fn law_capital_letters_become_small(k: u32, c: char)
    ensures
        k < 26 ==> lower((0x41 + k) as char) == (0x61 + k) as char,
        !(0x41 <= c as u32 <= 0x5a) ==> lower(c) == c,
{
}

/// Two texts are the same in lower case if and only if they are the same but for the
/// case of ASCII letters.
pub proof fn law_lower_case_forgets_the_case(a: Seq<char>, b: Seq<char>)
    ensures
        lower_text(a) == lower_text(b) <==> same_letters(a, b),
{
    if lower_text(a) == lower_text(b) {
        assert(a.len() == lower_text(a).len() && b.len() == lower_text(b).len());
        assert forall|i: int| 0 <= i < a.len() implies same_letter(#[trigger] a[i], b[i]) by {
            assert(lower_text(a)[i] == lower(a[i]));
            assert(lower_text(b)[i] == lower(b[i]));
        }
    }
    if same_letters(a, b) {
        assert forall|i: int| 0 <= i < a.len() implies lower_text(a)[i] == lower_text(b)[i] by {
            assert(same_letter(a[i], b[i]));
        }
        assert(lower_text(a) =~= lower_text(b));
    }
}

/// The order of texts is that of their bytes: a text comes before each that starts with
/// it and goes on, and where two texts first differ the smaller byte comes first.
pub proof fn law_order_of_texts(a: Seq<char>, b: Seq<char>, front: Seq<u8>, x: u8, y: u8)
    requires
        front.is_prefix_of(encode_utf8(a)),
        front.is_prefix_of(encode_utf8(b)),
    ensures
        encode_utf8(a) == front && encode_utf8(b).len() > front.len() ==> text_before(a, b)
            && !text_before(b, a),
        front.push(x).is_prefix_of(encode_utf8(a)) && front.push(y).is_prefix_of(encode_utf8(b)) && x
            < y ==> text_before(a, b) && !text_before(b, a),
{
    let (p, q, n) = (encode_utf8(a), encode_utf8(b), front.len() as int);
    assert(p.take(n) =~= front);
    assert(q.take(n) =~= front);
    assert forall|j: int| 0 <= j < n implies p[j] == q[j] by {
        assert(p.take(n)[j] == q.take(n)[j]);
    }
    let shorter = p == front && q.len() > front.len();
    let smaller = front.push(x).is_prefix_of(p) && front.push(y).is_prefix_of(q) && x < y;
    if smaller {
        assert(front.push(x)[n] == x && front.push(y)[n] == y);
        assert(p[n] == x && q[n] == y);
    }
    if shorter || smaller {
        assert(first_difference(p, q, n));
        assert(text_before(a, b));
        if text_before(b, a) {
            lemma_order_transitive(a, b, a);
            lemma_order_irreflexive(a);
        }
    }
}

/// Decimal notation: a number below ten is written as its digit, and a larger one as
/// its tenth, followed by the digit that is left over. The digits are the characters
/// from `0` on.
pub proof fn law_decimal_notation(n: nat, d: nat)
    requires
        d < 10,
    ensures
        decimal(d) == seq![(0x30 + d) as char],
        n > 0 ==> decimal(10 * n + d) == decimal(n).push((0x30 + d) as char),
{
}

/// A text that is encoded as UTF-8 is read back as it was.
pub proof fn law_utf8_is_read_back(text: Seq<char>)
    ensures
        utf8(encode_utf8(text)) == Some(text),
        lossy_utf8(encode_utf8(text)) == text,
{
    encode_utf8_valid_utf8(text);
    encode_utf8_decode_utf8(text);
    law_utf8_keeps_its_text(encode_utf8(text));
}

} // verus!

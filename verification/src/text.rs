//! Strings as sequences of characters.
use vstd::prelude::*;
#[allow(unused_imports)]
use vstd::utf8::{encode_scalar, encode_utf8};

#[allow(unused_imports)]
use crate::seqs::{is_sublist, lemma_filter_is_sublist};

verus! {

/// `String::push`: the character is appended to the string.
pub assume_specification[ String::push ](s: &mut String, c: char)
    ensures
        final(s)@ == old(s)@.push(c),
;

/// `String::pop`: the last character is taken off the string, where there is one.
pub assume_specification[ String::pop ](s: &mut String) -> (last: Option<char>)
    ensures
        match last {
            Some(c) => old(s)@.len() > 0 && c == old(s)@.last() && final(s)@
                == old(s)@.drop_last(),
            None => old(s)@.len() == 0 && final(s)@ == old(s)@,
        },
;

/// The characters of a string, in order.
pub fn chars_of(s: &str) -> (chars: Vec<char>)
    ensures
        chars@ == s@,
{
    let mut chars: Vec<char> = Vec::new();
    for c in iter: s.chars()
        invariant
            chars@ == iter.seq().take(iter.index() as int),
            iter.seq() == s@,
    {
        chars.push(c);
    }
    chars
}

/// The text of the characters from `start` on.
pub fn string_from(chars: &Vec<char>, start: usize) -> (text: String)
    requires
        start <= chars@.len(),
    ensures
        text@ == chars@.skip(start as int),
{
    let mut text = String::new();
    let mut i = start;
    while i < chars.len()
        invariant
            start <= i <= chars@.len(),
            text@ == chars@.subrange(start as int, i as int),
        decreases chars@.len() - i,
    {
        text.push(chars[i]);
        assert(text@ =~= chars@.subrange(start as int, i + 1));
        i += 1;
    }
    assert(text@ =~= chars@.skip(start as int));
    text
}

/// Lexicographic order by code point: the order of `str`, whose UTF-8 bytes sort the same way.
pub open spec fn lex_lt(a: Seq<char>, b: Seq<char>) -> bool
    decreases a.len(),
{
    if b.len() == 0 {
        false
    } else if a.len() == 0 {
        true
    } else if a[0] != b[0] {
        a[0] < b[0]
    } else {
        lex_lt(a.drop_first(), b.drop_first())
    }
}

/// No text comes before itself, and of two texts at most one comes before the other.
pub proof fn lemma_lex_lt_asymmetric(a: Seq<char>, b: Seq<char>)
    ensures
        !(lex_lt(a, b) && lex_lt(b, a)),
    decreases a.len(),
{
    if a.len() > 0 && b.len() > 0 && a[0] == b[0] {
        lemma_lex_lt_asymmetric(a.drop_first(), b.drop_first());
    }
}

/// Of two different texts one comes before the other.
pub proof fn lemma_lex_lt_total(a: Seq<char>, b: Seq<char>)
    ensures
        lex_lt(a, b) || lex_lt(b, a) || a == b,
    decreases a.len(),
{
    if a.len() > 0 && b.len() > 0 {
        if a[0] == b[0] {
            lemma_lex_lt_total(a.drop_first(), b.drop_first());
            if a.drop_first() == b.drop_first() {
                assert(a =~= seq![a[0]] + a.drop_first());
                assert(b =~= seq![b[0]] + b.drop_first());
            }
        }
    } else if a.len() == 0 && b.len() == 0 {
        assert(a =~= b);
    }
}

/// The order of texts is transitive.
pub proof fn lemma_lex_lt_transitive(a: Seq<char>, b: Seq<char>, c: Seq<char>)
    requires
        lex_lt(a, b),
        lex_lt(b, c),
    ensures
        lex_lt(a, c),
    decreases a.len(),
{
    if a.len() > 0 && a[0] == b[0] && b[0] == c[0] {
        lemma_lex_lt_transitive(a.drop_first(), b.drop_first(), c.drop_first());
    }
}

/// Whether one text comes before another in lexicographic order.
pub fn text_before(a: &[char], b: &[char]) -> (before: bool)
    ensures
        before == lex_lt(a@, b@),
{
    let mut i: usize = 0;
    assert(a@.skip(0) =~= a@);
    assert(b@.skip(0) =~= b@);
    while i < a.len() && i < b.len()
        invariant
            i <= a@.len(),
            i <= b@.len(),
            lex_lt(a@, b@) == lex_lt(a@.skip(i as int), b@.skip(i as int)),
        decreases a@.len() - i,
    {
        proof {
            assert(a@.skip(i as int).drop_first() =~= a@.skip(i + 1));
            assert(b@.skip(i as int).drop_first() =~= b@.skip(i + 1));
        }
        if a[i] != b[i] {
            return a[i] < b[i];
        }
        i += 1;
    }
    i < b.len()
}

/// The texts of a list of strings.
pub open spec fn texts(strings: Seq<String>) -> Seq<Seq<char>> {
    strings.map_values(|s: String| s@)
}

/// A copy of a list of strings.
pub fn clone_strings(strings: &Vec<String>) -> (copy: Vec<String>)
    ensures
        texts(copy@) == texts(strings@),
{
    let mut copy: Vec<String> = Vec::new();
    let mut i: usize = 0;
    while i < strings.len()
        invariant
            i <= strings@.len(),
            texts(copy@) == texts(strings@).take(i as int),
        decreases strings@.len() - i,
    {
        let ghost copied = copy@;
        copy.push(strings[i].clone());
        assert(texts(copy@) =~= texts(copied).push(strings@[i as int]@));
        assert(texts(copy@) =~= texts(strings@).take(i + 1));
        i += 1;
    }
    copy
}

/// Whether a character has the Unicode property White_Space: the code points that the Unicode
/// Character Database lists for it.
pub open spec fn is_white_space(c: char) -> bool {
    let point = c as u32;
    ||| 0x9 <= point <= 0xd
    ||| point == 0x20
    ||| point == 0x85
    ||| point == 0xa0
    ||| point == 0x1680
    ||| 0x2000 <= point <= 0x200a
    ||| point == 0x2028
    ||| point == 0x2029
    ||| point == 0x202f
    ||| point == 0x205f
    ||| point == 0x3000
}

/// The lowercase equivalent of a text.
pub uninterp spec fn lowercase(s: Seq<char>) -> Seq<char>;

/// Whether a character has the Unicode property White_Space.
fn char_is_whitespace(c: char) -> (white: bool)
    ensures
        white == is_white_space(c),
{
    let point = c as u32;
    (0x9 <= point && point <= 0xd) || point == 0x20 || point == 0x85 || point == 0xa0 || point
        == 0x1680 || (0x2000 <= point && point <= 0x200a) || point == 0x2028 || point == 0x2029
        || point == 0x202f || point == 0x205f || point == 0x3000
}

/// `str::to_lowercase`: the lowercase equivalent of the text by Unicode's rules. The contract
/// names the outcome, which depends on the text alone.
#[verifier::external_body]
pub(crate) fn to_lowercase(s: &str) -> (lower: String)
    ensures
        lower@ == lowercase(s@),
{
    s.to_lowercase()
}

/// A text without the white space at its ends.
pub open spec fn trimmed(s: Seq<char>) -> Seq<char>
    decreases s.len(),
{
    if s.len() == 0 {
        s
    } else if is_white_space(s[0]) {
        trimmed(s.drop_first())
    } else if is_white_space(s.last()) {
        trimmed(s.drop_last())
    } else {
        s
    }
}

/// Trimming leaves nothing or a text without white space at its ends, and trimming again
/// changes nothing.
pub proof fn law_trimmed(s: Seq<char>)
    ensures
        trimmed(s).len() > 0 ==> !is_white_space(trimmed(s)[0]) && !is_white_space(
            trimmed(s).last(),
        ),
        trimmed(trimmed(s)) == trimmed(s),
    decreases s.len(),
{
    if s.len() > 0 {
        if is_white_space(s[0]) {
            law_trimmed(s.drop_first());
        } else if is_white_space(s.last()) {
            law_trimmed(s.drop_last());
        }
    }
}

/// A text without the white space at its ends.
pub fn trim(s: &str) -> (trim: String)
    ensures
        trim@ == trimmed(s@),
{
    let chars = chars_of(s);
    let mut start: usize = 0;
    let mut end: usize = chars.len();
    assert(chars@.subrange(0, end as int) =~= chars@);
    while start < end && char_is_whitespace(chars[start])
        invariant
            start <= end == chars@.len(),
            trimmed(chars@) == trimmed(chars@.subrange(start as int, end as int)),
        decreases end - start,
    {
        assert(chars@.subrange(start as int, end as int).drop_first() =~= chars@.subrange(
            start + 1,
            end as int,
        ));
        start += 1;
    }
    while start < end && char_is_whitespace(chars[end - 1])
        invariant
            start <= end <= chars@.len(),
            start < end ==> !is_white_space(chars@[start as int]),
            trimmed(chars@) == trimmed(chars@.subrange(start as int, end as int)),
        decreases end - start,
    {
        assert(chars@.subrange(start as int, end as int).drop_last() =~= chars@.subrange(
            start as int,
            end - 1,
        ));
        end -= 1;
    }
    let mut trim = String::new();
    let mut i = start;
    while i < end
        invariant
            start <= i <= end <= chars@.len(),
            trim@ == chars@.subrange(start as int, i as int),
        decreases end - i,
    {
        trim.push(chars[i]);
        assert(trim@ =~= chars@.subrange(start as int, i + 1));
        i += 1;
    }
    trim
}

/// The code point of a character, with the ASCII capitals folded onto the small letters.
pub open spec fn ascii_folded(c: char) -> u32 {
    if 'A' <= c && c <= 'Z' {
        ((c as u32) + 32) as u32
    } else {
        c as u32
    }
}

/// Whether two texts are the same but for the case of ASCII letters.
pub open spec fn ascii_matches(a: Seq<char>, b: Seq<char>) -> bool {
    a.len() == b.len() && forall|i: int|
        0 <= i < a.len() ==> ascii_folded(#[trigger] a[i]) == ascii_folded(b[i])
}

fn fold_ascii(c: char) -> (folded: u32)
    ensures
        folded == ascii_folded(c),
{
    if 'A' <= c && c <= 'Z' {
        c as u32 + 32
    } else {
        c as u32
    }
}

/// A character with the ASCII capitals turned into small letters.
pub open spec fn ascii_lowered_char(c: char) -> char {
    if 'A' <= c && c <= 'Z' {
        ((c as u32) + 32) as char
    } else {
        c
    }
}

/// A text with the ASCII capitals turned into small letters.
pub open spec fn ascii_lowered(s: Seq<char>) -> Seq<char> {
    s.map_values(|c: char| ascii_lowered_char(c))
}

/// Texts with the ASCII capitals turned into small letters.
pub open spec fn ascii_lowered_all(items: Seq<Seq<char>>) -> Seq<Seq<char>> {
    items.map_values(|item: Seq<char>| ascii_lowered(item))
}

/// The text with the ASCII capitals turned into small letters.
pub fn ascii_lowercase(s: &str) -> (lower: String)
    ensures
        lower@ == ascii_lowered(s@),
{
    let mut lower = String::new();
    for c in iter: s.chars()
        invariant
            iter.seq() == s@,
            lower@ == ascii_lowered(s@).take(iter.index() as int),
    {
        lower.push(
            if 'A' <= c && c <= 'Z' {
                (c as u8 + 32) as char
            } else {
                c
            },
        );
        assert(lower@ =~= ascii_lowered(s@).take(iter.index() + 1));
    }
    assert(lower@ =~= ascii_lowered(s@));
    lower
}

/// The texts with the ASCII capitals turned into small letters.
pub fn ascii_lowercase_strings(items: &Vec<String>) -> (lowered: Vec<String>)
    ensures
        lowered@.len() == items@.len(),
        texts(lowered@) == ascii_lowered_all(texts(items@)),
{
    let ghost all = ascii_lowered_all(texts(items@));
    let mut lowered: Vec<String> = Vec::new();
    let mut i: usize = 0;
    assert(texts(lowered@) =~= all.take(0));
    while i < items.len()
        invariant
            i <= items@.len(),
            all == ascii_lowered_all(texts(items@)),
            texts(lowered@) == all.take(i as int),
        decreases items@.len() - i,
    {
        let ghost earlier = lowered@;
        lowered.push(ascii_lowercase(items[i].as_str()));
        proof {
            assert(texts(lowered@) =~= texts(earlier).push(ascii_lowered(items@[i as int]@)));
            assert(texts(lowered@) =~= all.take(i + 1));
        }
        i += 1;
    }
    assert(all.take(i as int) =~= all);
    assert(lowered@.len() == texts(lowered@).len());
    lowered
}

/// Two texts are the same but for the case of ASCII letters exactly where they are the same with
/// the ASCII capitals turned into small letters.
pub proof fn law_ascii_lowering(a: Seq<char>, b: Seq<char>)
    ensures
        ascii_matches(a, b) <==> ascii_lowered(a) == ascii_lowered(b),
{
    if ascii_lowered(a) == ascii_lowered(b) {
        assert(ascii_lowered(a).len() == a.len() && ascii_lowered(b).len() == b.len());
        assert forall|i: int| 0 <= i < a.len() implies ascii_folded(#[trigger] a[i])
            == ascii_folded(b[i]) by {
            assert(ascii_lowered(a)[i] == ascii_lowered(b)[i]);
        }
    }
    if ascii_matches(a, b) {
        assert forall|i: int| 0 <= i < a.len() implies ascii_lowered_char(#[trigger] a[i])
            == ascii_lowered_char(b[i]) by {
            assert(ascii_folded(a[i]) == ascii_folded(b[i]));
        }
        assert(ascii_lowered(a) =~= ascii_lowered(b));
    }
}

/// Whether two texts are the same but for the case of ASCII letters.
pub fn eq_ignore_ascii_case(a: &str, b: &str) -> (same: bool)
    ensures
        same == ascii_matches(a@, b@),
{
    let left = chars_of(a);
    let right = chars_of(b);
    if left.len() != right.len() {
        return false;
    }
    let mut i: usize = 0;
    while i < left.len()
        invariant
            i <= left@.len() == right@.len(),
            left@ == a@,
            right@ == b@,
            forall|k: int| 0 <= k < i ==> ascii_folded(#[trigger] a@[k]) == ascii_folded(b@[k]),
        decreases left@.len() - i,
    {
        if fold_ascii(left[i]) != fold_ascii(right[i]) {
            return false;
        }
        i += 1;
    }
    true
}

/// The number of bytes of a text in UTF-8.
pub open spec fn byte_len(s: Seq<char>) -> nat {
    encode_utf8(s).len()
}

/// The byte at which the character `i` of a text starts.
pub open spec fn byte_offset(s: Seq<char>, i: int) -> nat {
    byte_len(s.take(i))
}

/// One more character adds its own bytes, one to four of them.
pub proof fn lemma_byte_len_push(s: Seq<char>, c: char)
    ensures
        byte_len(s.push(c)) == byte_len(s) + encode_scalar(c as u32).len(),
        1 <= encode_scalar(c as u32).len() <= 4,
    decreases s.len(),
{
    if s.len() == 0 {
        assert(s.push(c).drop_first() =~= s);
        assert(encode_utf8(s.push(c)) =~= encode_scalar(c as u32) + encode_utf8(s));
    } else {
        assert(s.push(c).drop_first() =~= s.drop_first().push(c));
        lemma_byte_len_push(s.drop_first(), c);
        assert(encode_utf8(s.push(c)) == encode_scalar(s[0] as u32) + encode_utf8(
            s.drop_first().push(c),
        ));
    }
}

/// Later characters start at later bytes, all within the text.
pub proof fn lemma_byte_offset(s: Seq<char>, i: int, j: int)
    requires
        0 <= i <= j <= s.len(),
    ensures
        byte_offset(s, i) + (j - i) <= byte_offset(s, j),
        byte_offset(s, j) <= byte_len(s),
    decreases s.len() - i,
{
    if i < j {
        assert(s.take(i + 1) =~= s.take(i).push(s[i]));
        lemma_byte_len_push(s.take(i), s[i]);
        lemma_byte_offset(s, i + 1, j);
    } else if j < s.len() {
        assert(s.take(j + 1) =~= s.take(j).push(s[j]));
        lemma_byte_len_push(s.take(j), s[j]);
        lemma_byte_offset(s, j + 1, j + 1);
    } else {
        assert(s.take(j) =~= s);
    }
}

/// The number of bytes of a character in UTF-8.
fn char_width(c: char) -> (width: usize)
    ensures
        width == encode_scalar(c as u32).len(),
{
    let code = c as u32;
    if code <= 0x7F {
        1
    } else if code <= 0x7FF {
        2
    } else if code <= 0xFFFF {
        3
    } else {
        4
    }
}

/// The byte at which each character of a text starts, and last the number of bytes.
pub fn byte_offsets(s: &str) -> (offsets: Vec<usize>)
    ensures
        offsets@.len() == s@.len() + 1,
        forall|i: int| 0 <= i <= s@.len() ==> #[trigger] offsets@[i] == byte_offset(s@, i),
{
    let bytes = s.as_bytes();
    let total = bytes.len();
    let chars = chars_of(s);
    let mut offsets: Vec<usize> = Vec::new();
    let mut at: usize = 0;
    offsets.push(at);
    let mut i: usize = 0;
    while i < chars.len()
        invariant
            i <= chars@.len(),
            chars@ == s@,
            total == byte_len(s@),
            at == byte_offset(s@, i as int),
            offsets@.len() == i + 1,
            forall|k: int| 0 <= k <= i ==> #[trigger] offsets@[k] == byte_offset(s@, k),
        decreases chars@.len() - i,
    {
        proof {
            assert(s@.take(i + 1) =~= s@.take(i as int).push(s@[i as int]));
            lemma_byte_len_push(s@.take(i as int), s@[i as int]);
            lemma_byte_offset(s@, i + 1, i + 1);
        }
        at += char_width(chars[i]);
        offsets.push(at);
        i += 1;
    }
    offsets
}

/// The parts of a text between the separators.
pub open spec fn split(s: Seq<char>, separator: char) -> Seq<Seq<char>>
    decreases s.len(),
{
    if s.len() == 0 {
        seq![seq![]]
    } else {
        let front = split(s.drop_last(), separator);
        if s.last() == separator {
            front.push(seq![])
        } else {
            front.drop_last().push(front.last().push(s.last()))
        }
    }
}

/// The parts of a text between the separators that are not empty.
pub open spec fn segments(s: Seq<char>, separator: char) -> Seq<Seq<char>> {
    split(s, separator).filter(|part: Seq<char>| part.len() > 0)
}

/// The given parts with the separator between them.
pub open spec fn joined(parts: Seq<Seq<char>>, separator: Seq<char>) -> Seq<char>
    decreases parts.len(),
{
    if parts.len() == 0 {
        seq![]
    } else if parts.len() == 1 {
        parts[0]
    } else {
        joined(parts.drop_last(), separator) + separator + parts.last()
    }
}

/// There is always a last part.
proof fn lemma_split_nonempty(s: Seq<char>, separator: char)
    ensures
        split(s, separator).len() > 0,
    decreases s.len(),
{
    if s.len() > 0 {
        lemma_split_nonempty(s.drop_last(), separator);
    }
}

/// The parts of a text between the separators that are not empty.
pub fn split_segments(s: &str, separator: char) -> (parts: Vec<String>)
    ensures
        texts(parts@) == segments(s@, separator),
{
    let chars = chars_of(s);
    let ghost visible = |part: Seq<char>| part.len() > 0;
    let mut parts: Vec<String> = Vec::new();
    let mut current = String::new();
    let mut i: usize = 0;
    proof {
        reveal(Seq::filter);
        assert(split(chars@.take(0), separator).drop_last() =~= seq![]);
        assert(texts(parts@) =~= split(chars@.take(0), separator).drop_last().filter(visible));
    }
    while i < chars.len()
        invariant
            i <= chars@.len(),
            visible == (|part: Seq<char>| part.len() > 0),
            split(chars@.take(i as int), separator).len() > 0,
            current@ == split(chars@.take(i as int), separator).last(),
            texts(parts@) == split(chars@.take(i as int), separator).drop_last().filter(visible),
        decreases chars@.len() - i,
    {
        let c = chars[i];
        let ghost earlier = split(chars@.take(i as int), separator);
        let ghost later = split(chars@.take(i + 1), separator);
        proof {
            assert(chars@.take(i + 1).drop_last() =~= chars@.take(i as int));
            assert(chars@.take(i + 1).last() == c);
        }
        if c == separator {
            proof {
                assert(later.drop_last() =~= earlier);
                assert(later.last() =~= seq![]);
                reveal(Seq::filter);
            }
            if !current.as_str().is_empty() {
                let ghost before = parts@;
                let ghost text = current@;
                parts.push(current);
                assert(texts(parts@) =~= texts(before).push(text));
            }
            current = String::new();
        } else {
            assert(later.drop_last() =~= earlier.drop_last());
            current.push(c);
        }
        i += 1;
    }
    proof {
        assert(chars@.take(i as int) =~= chars@);
        reveal(Seq::filter);
    }
    if !current.as_str().is_empty() {
        let ghost before = parts@;
        let ghost text = current@;
        parts.push(current);
        assert(texts(parts@) =~= texts(before).push(text));
    }
    parts
}

/// The given parts with the separator between them.
pub fn join(parts: &Vec<String>, separator: &str) -> (text: String)
    ensures
        text@ == joined(texts(parts@), separator@),
{
    let mut text = String::new();
    let mut i: usize = 0;
    assert(text@ =~= joined(texts(parts@).take(0), separator@));
    while i < parts.len()
        invariant
            i <= parts@.len(),
            text@ == joined(texts(parts@).take(i as int), separator@),
        decreases parts@.len() - i,
    {
        proof {
            assert(texts(parts@).take(i + 1).drop_last() =~= texts(parts@).take(i as int));
        }
        if i > 0 {
            text.append(separator);
        }
        text.append(parts[i].as_str());
        assert(text@ =~= joined(texts(parts@).take(i + 1), separator@));
        i += 1;
    }
    assert(texts(parts@).take(i as int) =~= texts(parts@));
    text
}

/// Whether a text starts with another one.
pub fn starts_with(s: &str, prefix: &str) -> (starts: bool)
    ensures
        starts == prefix@.is_prefix_of(s@),
{
    let text = chars_of(s);
    let start = chars_of(prefix);
    if start.len() > text.len() {
        return false;
    }
    let mut i: usize = 0;
    while i < start.len()
        invariant
            i <= start@.len() <= text@.len(),
            text@ == s@,
            start@ == prefix@,
            forall|k: int| 0 <= k < i ==> #[trigger] start@[k] == text@[k],
        decreases start@.len() - i,
    {
        if text[i] != start[i] {
            assert(text@.subrange(0, start@.len() as int)[i as int] != start@[i as int]);
            return false;
        }
        i += 1;
    }
    assert(start@ =~= text@.subrange(0, start@.len() as int));
    true
}

/// Whether the parts can be told apart in a path: none is empty or holds the separator.
pub open spec fn separable(parts: Seq<Seq<char>>, separator: char) -> bool {
    forall|i: int|
        0 <= i < parts.len() ==> (#[trigger] parts[i]).len() > 0 && !parts[i].contains(separator)
}

/// Adding a text without separators continues the last part.
proof fn lemma_split_continues(s: Seq<char>, part: Seq<char>, separator: char)
    requires
        !part.contains(separator),
    ensures
        split(s, separator).len() > 0,
        split(s + part, separator) == split(s, separator).drop_last().push(
            split(s, separator).last() + part,
        ),
    decreases part.len(),
{
    lemma_split_nonempty(s, separator);
    let before = split(s, separator);
    if part.len() == 0 {
        assert(s + part =~= s);
        assert(before.last() + part =~= before.last());
        assert(before =~= before.drop_last().push(before.last()));
    } else {
        let front = part.drop_last();
        assert forall|i: int| 0 <= i < front.len() implies front[i] != separator by {
            assert(part[i] == front[i]);
        }
        assert(part.contains(part[part.len() - 1]));
        lemma_split_continues(s, front, separator);
        assert((s + part).drop_last() =~= s + front);
        let middle = split(s + front, separator);
        assert(middle.drop_last() =~= before.drop_last());
        assert((before.last() + front).push(part.last()) =~= before.last() + part);
    }
}

/// Joining parts and splitting the path again gives back the parts, where they can be told
/// apart.
pub proof fn law_split_undoes_join(parts: Seq<Seq<char>>, separator: char)
    requires
        separable(parts, separator),
    ensures
        segments(joined(parts, seq![separator]), separator) == parts,
{
    let visible = |part: Seq<char>| part.len() > 0;
    if parts.len() == 0 {
        reveal(Seq::filter);
        let whole = split(joined(parts, seq![separator]), separator);
        assert(whole.drop_last() =~= seq![]);
        assert(whole.drop_last().filter(visible) =~= seq![]);
        assert(parts =~= seq![]);
    } else {
        lemma_split_joined(parts, separator);
        crate::seqs::lemma_filter_all(parts, visible);
    }
}

proof fn lemma_split_joined(parts: Seq<Seq<char>>, separator: char)
    requires
        parts.len() > 0,
        separable(parts, separator),
    ensures
        split(joined(parts, seq![separator]), separator) == parts,
    decreases parts.len(),
{
    let empty: Seq<char> = seq![];
    let last = parts.last();
    assert(parts[parts.len() - 1].len() > 0);
    if parts.len() == 1 {
        lemma_split_continues(empty, last, separator);
        assert(empty + last =~= last);
        assert(split(empty, separator) =~= seq![empty]);
        assert(split(last, separator) =~= parts);
    } else {
        let front = parts.drop_last();
        assert forall|i: int| 0 <= i < front.len() implies (#[trigger] front[i]).len() > 0
            && !front[i].contains(separator) by {
            assert(parts[i] == front[i]);
        }
        lemma_split_joined(front, separator);
        let text = joined(front, seq![separator]);
        let with_separator = text + seq![separator];
        assert(with_separator.drop_last() =~= text);
        assert(split(with_separator, separator) =~= front.push(empty));
        lemma_split_continues(with_separator, last, separator);
        assert(front.push(empty).drop_last() =~= front);
        assert(empty + last =~= last);
        assert(front.push(last) =~= parts);
    }
}

/// Whether two lists hold the same texts.
pub fn same_texts(a: &Vec<String>, b: &Vec<String>) -> (same: bool)
    ensures
        same == (texts(a@) == texts(b@)),
{
    if a.len() != b.len() {
        assert(texts(a@).len() != texts(b@).len());
        return false;
    }
    let mut i: usize = 0;
    while i < a.len()
        invariant
            i <= a@.len() == b@.len(),
            forall|k: int| 0 <= k < i ==> #[trigger] texts(a@)[k] == texts(b@)[k],
        decreases a@.len() - i,
    {
        if a[i] != b[i] {
            assert(texts(a@)[i as int] != texts(b@)[i as int]);
            return false;
        }
        assert(texts(a@)[i as int] == texts(b@)[i as int]);
        i += 1;
    }
    assert(texts(a@) =~= texts(b@));
    true
}

proof fn lemma_split_joined_by_separator(a: Seq<char>, b: Seq<char>, separator: char)
    ensures
        split(a + seq![separator] + b, separator) == split(a, separator) + split(b, separator),
    decreases b.len(),
{
    let whole = a + seq![separator] + b;
    lemma_split_nonempty(b, separator);
    if b.len() == 0 {
        assert(whole.drop_last() =~= a);
        assert(whole.last() == separator);
        assert(split(whole, separator) =~= split(a, separator) + split(b, separator));
    } else {
        let front = b.drop_last();
        lemma_split_joined_by_separator(a, front, separator);
        lemma_split_nonempty(front, separator);
        assert(whole.drop_last() =~= a + seq![separator] + front);
        assert(whole.last() == b.last());
        assert((split(a, separator) + split(front, separator)).drop_last() =~= split(a, separator)
            + split(front, separator).drop_last());
        assert(split(whole, separator) =~= split(a, separator) + split(b, separator));
    }
}

/// Splitting two texts with the separator between them gives the parts of the first and then
/// those of the second.
pub proof fn law_split_of_joined_texts(a: Seq<char>, b: Seq<char>, separator: char)
    ensures
        segments(a + seq![separator] + b, separator) == segments(a, separator) + segments(
            b,
            separator,
        ),
{
    lemma_split_joined_by_separator(a, b, separator);
    Seq::filter_distributes_over_add(
        split(a, separator),
        split(b, separator),
        |part: Seq<char>| part.len() > 0,
    );
}

/// The texts of a list are those of its strings, one by one.
pub proof fn law_texts(strings: Seq<String>)
    ensures
        texts(strings).len() == strings.len(),
        forall|i: int| 0 <= i < strings.len() ==> #[trigger] texts(strings)[i] == strings[i]@,
{
}

/// One text comes before another where it is a proper beginning of it, or where the first
/// character in which they differ is smaller.
pub proof fn law_text_order(a: Seq<char>, b: Seq<char>)
    ensures
        lex_lt(a, b) <==> exists|k: int| #[trigger] differ_from(a, b, k) && (if k < a.len() {
            k < b.len() && a[k] < b[k]
        } else {
            k < b.len()
        }),
    decreases a.len(),
{
    if b.len() > 0 && a.len() > 0 && a[0] == b[0] {
        let (x, y) = (a.drop_first(), b.drop_first());
        law_text_order(x, y);
        if lex_lt(a, b) {
            let k = choose|k: int| #[trigger] differ_from(x, y, k) && (if k < x.len() {
                k < y.len() && x[k] < y[k]
            } else {
                k < y.len()
            });
            assert(differ_from(a, b, k + 1)) by {
                assert forall|i: int| 0 <= i < k + 1 implies a[i] == b[i] by {
                    if i > 0 {
                        assert(x[i - 1] == y[i - 1]);
                    }
                }
            }
            assert(k < x.len() ==> x[k] == a[k + 1] && y[k] == b[k + 1]);
        }
        if exists|k: int| #[trigger] differ_from(a, b, k) && (if k < a.len() {
            k < b.len() && a[k] < b[k]
        } else {
            k < b.len()
        }) {
            let k = choose|k: int| #[trigger] differ_from(a, b, k) && (if k < a.len() {
                k < b.len() && a[k] < b[k]
            } else {
                k < b.len()
            });
            assert(k > 0);
            assert(differ_from(x, y, k - 1)) by {
                assert forall|i: int| 0 <= i < k - 1 implies x[i] == y[i] by {
                    assert(a[i + 1] == b[i + 1]);
                }
            }
            assert(k < a.len() ==> x[k - 1] == a[k] && y[k - 1] == b[k]);
        }
    } else if lex_lt(a, b) {
        assert(differ_from(a, b, 0));
    }
}

/// Whether two texts have the same first `k` characters, and both have that many.
pub open spec fn differ_from(a: Seq<char>, b: Seq<char>, k: int) -> bool {
    0 <= k <= a.len() && k <= b.len() && forall|i: int| 0 <= i < k ==> a[i] == b[i]
}

/// Whether the characters from `from` up to `to` are all white space.
pub open spec fn white_between(s: Seq<char>, from: int, to: int) -> bool {
    forall|k: int| from <= k < to ==> is_white_space(#[trigger] s[k])
}

/// Whether `rest` is what is left of `s` without white space in front of `i` and from `j` on.
pub open spec fn left_between(s: Seq<char>, i: int, j: int, rest: Seq<char>) -> bool {
    &&& 0 <= i <= j <= s.len()
    &&& rest == s.subrange(i, j)
    &&& white_between(s, 0, i)
    &&& white_between(s, j, s.len() as int)
}

proof fn lemma_left_behind_white(s: Seq<char>, i: int, j: int, rest: Seq<char>)
    requires
        s.len() > 0,
        is_white_space(s[0]),
        left_between(s.drop_first(), i, j, rest),
    ensures
        left_between(s, i + 1, j + 1, rest),
{
    let tail = s.drop_first();
    assert(rest =~= s.subrange(i + 1, j + 1));
    assert forall|k: int| 0 <= k < i + 1 implies is_white_space(#[trigger] s[k]) by {
        if k > 0 {
            assert(tail[k - 1] == s[k]);
        }
    }
    assert forall|k: int| j + 1 <= k < s.len() implies is_white_space(#[trigger] s[k]) by {
        assert(tail[k - 1] == s[k]);
    }
}

proof fn lemma_left_before_white(s: Seq<char>, i: int, j: int, rest: Seq<char>)
    requires
        s.len() > 0,
        is_white_space(s.last()),
        left_between(s.drop_last(), i, j, rest),
    ensures
        left_between(s, i, j, rest),
{
    let front = s.drop_last();
    assert(rest =~= s.subrange(i, j));
    assert forall|k: int| 0 <= k < i implies is_white_space(#[trigger] s[k]) by {
        assert(front[k] == s[k]);
    }
    assert forall|k: int| j <= k < s.len() implies is_white_space(#[trigger] s[k]) by {
        if k < front.len() {
            assert(front[k] == s[k]);
        }
    }
}

proof fn lemma_trimmed_left(s: Seq<char>) -> (place: (int, int))
    ensures
        left_between(s, place.0, place.1, trimmed(s)),
    decreases s.len(),
{
    if s.len() > 0 && is_white_space(s[0]) {
        let (i, j) = lemma_trimmed_left(s.drop_first());
        lemma_left_behind_white(s, i, j, trimmed(s));
        (i + 1, j + 1)
    } else if s.len() > 0 && is_white_space(s.last()) {
        let (i, j) = lemma_trimmed_left(s.drop_last());
        lemma_left_before_white(s, i, j, trimmed(s));
        (i, j)
    } else {
        assert(trimmed(s) =~= s.subrange(0, s.len() as int));
        (0, s.len() as int)
    }
}

/// Trimming takes white space off the front and off the end, and nothing else.
pub proof fn law_trimming_takes_white_space(s: Seq<char>)
    ensures
        exists|i: int, j: int| left_between(s, i, j, trimmed(s)),
        trimmed(s).len() > 0 ==> !is_white_space(trimmed(s)[0]) && !is_white_space(
            trimmed(s).last(),
        ),
{
    law_trimmed(s);
    let (i, j) = lemma_trimmed_left(s);
    assert(left_between(s, i, j, trimmed(s)));
}

/// Turning ASCII capitals into small letters keeps the length and every other character.
pub proof fn law_ascii_lowering_by_character(s: Seq<char>)
    ensures
        ascii_lowered(s).len() == s.len(),
        forall|i: int|
            0 <= i < s.len() ==> (#[trigger] ascii_lowered(s)[i]) as int == s[i] as int + (if 65
                <= s[i] as int <= 90 {
                32int
            } else {
                0
            }),
{
}

/// Whether two characters are the same or the two cases of an ASCII letter.
pub open spec fn same_letter(x: char, y: char) -> bool {
    ||| x == y
    ||| 65 <= x as int <= 90 && y as int == x as int + 32
    ||| 65 <= y as int <= 90 && x as int == y as int + 32
}

/// Two texts are the same but for the case of ASCII letters where they are as long, and each
/// character is the same or the other case of an ASCII letter.
pub proof fn law_ascii_matches_by_character(a: Seq<char>, b: Seq<char>)
    ensures
        ascii_matches(a, b) <==> a.len() == b.len() && forall|i: int|
            0 <= i < a.len() ==> same_letter(#[trigger] a[i], b[i]),
{
    assert forall|i: int| 0 <= i < a.len() implies (same_letter(#[trigger] a[i], b[i])
        <==> ascii_folded(a[i]) == ascii_folded(b[i])) by {
        lemma_same_letter(a[i], b[i]);
    }
}

proof fn lemma_same_letter(x: char, y: char)
    ensures
        same_letter(x, y) <==> ascii_folded(x) == ascii_folded(y),
{
}

/// Lists of texts are lowered one by one.
pub proof fn law_ascii_lowered_all(items: Seq<Seq<char>>)
    ensures
        ascii_lowered_all(items).len() == items.len(),
        forall|i: int|
            0 <= i < items.len() ==> #[trigger] ascii_lowered_all(items)[i] == ascii_lowered(
                items[i],
            ),
{
}

proof fn lemma_char_width(c: char)
    ensures
        encode_scalar(c as u32).len() == (if c as int <= 0x7f {
            1int
        } else if c as int <= 0x7ff {
            2
        } else if c as int <= 0xffff {
            3
        } else {
            4
        }),
{
}

/// A text starts at byte 0, and each character takes the bytes that UTF-8 has for it.
pub proof fn law_byte_offsets(s: Seq<char>, i: int)
    requires
        0 <= i < s.len(),
    ensures
        byte_offset(s, 0) == 0,
        byte_offset(s, i + 1) == byte_offset(s, i) + (if s[i] as int <= 0x7f {
            1int
        } else if s[i] as int <= 0x7ff {
            2
        } else if s[i] as int <= 0xffff {
            3
        } else {
            4
        }),
        byte_offset(s, s.len() as int) == byte_len(s),
{
    assert(s.take(0) =~= seq![]);
    assert(s.take(i + 1) =~= s.take(i).push(s[i]));
    lemma_byte_len_push(s.take(i), s[i]);
    lemma_char_width(s[i]);
    assert(s.take(s.len() as int) =~= s);
}

/// The parts between the separators hold no separator, and joined again they give the text.
pub proof fn law_split_is_undone_by_join(s: Seq<char>, separator: char)
    ensures
        split(s, separator).len() > 0,
        forall|i: int|
            0 <= i < split(s, separator).len() ==> !(#[trigger] split(s, separator)[i]).contains(
                separator,
            ),
        joined(split(s, separator), seq![separator]) == s,
    decreases s.len(),
{
    let parts = split(s, separator);
    let glue = seq![separator];
    if s.len() == 0 {
        assert(parts =~= seq![seq![]]);
        assert(parts[0].len() == 0);
    } else {
        let front = split(s.drop_last(), separator);
        law_split_is_undone_by_join(s.drop_last(), separator);
        if s.last() == separator {
            assert(parts.drop_last() =~= front);
            assert(parts.last() =~= seq![]);
            assert forall|i: int| 0 <= i < parts.len() implies !(#[trigger] parts[i]).contains(
                separator,
            ) by {
                if i < front.len() {
                    assert(parts[i] == front[i]);
                }
            }
            assert(joined(parts, glue) =~= s);
        } else {
            let last = front.last().push(s.last());
            assert(parts.drop_last() =~= front.drop_last());
            assert(parts.last() == last);
            assert(!front[front.len() - 1].contains(separator));
            crate::seqs::lemma_push_members(front.last(), s.last());
            assert forall|i: int| 0 <= i < parts.len() implies !(#[trigger] parts[i]).contains(
                separator,
            ) by {
                if i < front.len() - 1 {
                    assert(parts[i] == front[i]);
                }
            }
            if front.len() == 1 {
                assert(parts[0] == last);
                assert(front[0] == s.drop_last());
                assert(joined(parts, glue) =~= s);
            } else {
                assert(joined(parts, glue) =~= joined(front, glue).push(s.last()));
                assert(joined(parts, glue) =~= s);
            }
        }
    }
}

/// The parts of a text are those between its separators that are not empty, in order.
pub proof fn law_segments_are_the_parts_that_show(s: Seq<char>, separator: char)
    ensures
        is_sublist(
            split(s, separator),
            segments(s, separator),
            |i: int| split(s, separator)[i].len() > 0,
        ),
{
    lemma_filter_is_sublist(
        split(s, separator),
        |part: Seq<char>| part.len() > 0,
        |i: int| split(s, separator)[i].len() > 0,
    );
}

/// A text without separators is its only part, where it is not empty.
pub proof fn law_segments_of_one_part(s: Seq<char>, separator: char)
    requires
        !s.contains(separator),
    ensures
        segments(s, separator) == if s.len() > 0 {
            seq![s]
        } else {
            seq![]
        },
{
    let empty: Seq<char> = seq![];
    lemma_split_continues(empty, s, separator);
    assert(split(empty, separator) =~= seq![empty]);
    assert(empty + s =~= s);
    assert(split(s, separator) =~= seq![s]);
    reveal(Seq::filter);
    assert(seq![s].drop_last() =~= seq![]);
    let visible = |part: Seq<char>| part.len() > 0;
    assert(seq![s].drop_last().filter(visible) =~= seq![]);
    assert(segments(s, separator) =~= if s.len() > 0 { seq![s] } else { seq![] });
}

/// Joining one part gives the part, and joining two lists puts the separator between them.
pub proof fn law_joining_lists(a: Seq<Seq<char>>, b: Seq<Seq<char>>, separator: Seq<char>)
    ensures
        a.len() == 0 ==> joined(a, separator) == Seq::<char>::empty(),
        a.len() == 1 ==> joined(a, separator) == a[0],
        a.len() > 0 && b.len() > 0 ==> joined(a + b, separator) == joined(a, separator) + separator
            + joined(b, separator),
    decreases b.len(),
{
    if a.len() > 0 && b.len() > 0 {
        let whole = a + b;
        assert(whole.drop_last() =~= a + b.drop_last());
        assert(whole.last() == b.last());
        if b.len() == 1 {
            assert(a + b.drop_last() =~= a);
            assert(joined(whole, separator) =~= joined(a, separator) + separator + joined(
                b,
                separator,
            ));
        } else {
            law_joining_lists(a, b.drop_last(), separator);
            assert(joined(whole, separator) =~= joined(a, separator) + separator + joined(
                b,
                separator,
            ));
        }
    }
}

} // verus!

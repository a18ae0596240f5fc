//! Text as a sequence of Unicode scalar values.

use vstd::prelude::*;
use vstd::string::StringSliceAdditionalSpecFns;
use vstd::utf8::{
    decode_utf8, encode_scalar, encode_utf8, encode_utf8_decode_utf8, is_ascii_chars,
    leading_byte_width_2, leading_byte_width_3, leading_byte_width_4, valid_utf8,
};

use crate::numeral::{lemma_numeral, numeral};

verus! {

/// `String::push` appends the character to the end of the string.
pub assume_specification[ String::push ](text: &mut String, c: char)
    ensures
        final(text)@ == old(text)@.push(c),
;

/// How many bytes after the longest valid prefix of `data` can never be part of a character, where
/// `data` is no UTF-8; `None` if the bytes that are left could be the start of one.
pub uninterp spec fn utf8_error_len(data: Seq<u8>) -> Option<usize>;

/// The upper case of a character outside ASCII, which can be more than one character.
pub uninterp spec fn unicode_uppercase(c: char) -> Seq<char>;

/// The lower case of text that holds a character outside ASCII.
pub uninterp spec fn unicode_lowercase(text: Seq<char>) -> Seq<char>;

/// A character in quotes, escaped where it cannot be shown.
pub uninterp spec fn quoted(c: char) -> Seq<char>;

/// `std::str::from_utf8` takes exactly the valid UTF-8 and keeps the bytes. Otherwise `valid_up_to`
/// is the length of the longest prefix that is valid, and `error_len` is a function of the bytes
/// that is named, not described.
#[verifier::external_body]
pub(crate) fn from_utf8(data: &[u8]) -> (text: Result<&str, (usize, Option<usize>)>)
    ensures
        text is Ok <==> valid_utf8(data@),
        text matches Ok(t) ==> t.spec_bytes() == data@,
        text matches Err((valid_up_to, error_len)) ==> {
            &&& is_longest_valid_prefix(data@, valid_up_to as int)
            &&& error_len == utf8_error_len(data@)
        },
{
    match std::str::from_utf8(data) {
        Ok(text) => Ok(text),
        Err(e) => Err((e.valid_up_to(), e.error_len())),
    }
}

/// `char::to_uppercase` maps the ASCII letters `a` to `z` to `A` to `Z` and leaves the rest of ASCII
/// as it is. Outside ASCII the result is named, not described.
#[verifier::external_body]
pub(crate) fn to_uppercase(c: char) -> (upper: String)
    ensures
        (c as nat) < 128 ==> upper@ == seq![ascii_uppercase(c)],
        (c as nat) >= 128 ==> upper@ == unicode_uppercase(c),
{
    c.to_uppercase().to_string()
}

/// `str::to_lowercase` maps the ASCII letters `A` to `Z` to `a` to `z` and leaves the rest of ASCII
/// as it is. Of text that goes beyond ASCII the result is named, not described.
#[verifier::external_body]
pub(crate) fn to_lowercase(text: &str) -> (lower: String)
    ensures
        is_ascii_chars(text@) ==> lower@ == text@.map_values(|c: char| ascii_lowercase(c)),
        !is_ascii_chars(text@) ==> lower@ == unicode_lowercase(text@),
{
    text.to_lowercase()
}

/// `{:?}` of a `char`; the text is named, not described.
#[verifier::external_body]
pub(crate) fn quote(c: char) -> (text: String)
    ensures
        text@ == quoted(c),
{
    format!("{:?}", c)
}

/// `len` is the length of the longest prefix of `data` that is UTF-8.
pub open spec fn is_longest_valid_prefix(data: Seq<u8>, len: int) -> bool {
    &&& 0 <= len <= data.len()
    &&& valid_utf8(data.take(len))
    &&& forall|end: int| len < end <= data.len() ==> !valid_utf8(#[trigger] data.take(end))
}

/// The upper case of an ASCII letter; any other character as it is.
pub open spec fn ascii_uppercase(c: char) -> char {
    if 'a' <= c <= 'z' {
        (c as nat - 32) as char
    } else {
        c
    }
}

/// The lower case of an ASCII letter; any other character as it is.
pub open spec fn ascii_lowercase(c: char) -> char {
    if 'A' <= c <= 'Z' {
        (c as nat + 32) as char
    } else {
        c
    }
}

/// The upper case of a character.
pub open spec fn uppercase(c: char) -> Seq<char> {
    if (c as nat) < 128 {
        seq![ascii_uppercase(c)]
    } else {
        unicode_uppercase(c)
    }
}

/// The lower case of text.
pub open spec fn lowercase(text: Seq<char>) -> Seq<char> {
    if is_ascii_chars(text) {
        text.map_values(|c: char| ascii_lowercase(c))
    } else {
        unicode_lowercase(text)
    }
}

/// `text` begins with `prefix`.
pub open spec fn has_prefix(text: Seq<char>, prefix: Seq<char>) -> bool {
    prefix.len() <= text.len() && text.take(prefix.len() as int) == prefix
}

/// `text` without any occurrence of `pattern`, where occurrences are looked for from the left and
/// do not overlap.
pub open spec fn without(text: Seq<char>, pattern: Seq<char>) -> Seq<char>
    decreases text.len(),
{
    if pattern.len() == 0 || text.len() < pattern.len() {
        text
    } else if has_prefix(text, pattern) {
        without(text.skip(pattern.len() as int), pattern)
    } else {
        seq![text[0]] + without(text.skip(1), pattern)
    }
}

/// Where the first line of `text` ends: at its first line feed, or at the end.
pub open spec fn line_end(text: Seq<char>) -> nat
    decreases text.len(),
{
    if text.len() == 0 || text[0] == '\n' {
        0
    } else {
        1 + line_end(text.skip(1))
    }
}

/// A line without the carriage return that ends it, if one does.
pub open spec fn without_return(line: Seq<char>) -> Seq<char> {
    if line.len() > 0 && line.last() == '\r' {
        line.drop_last()
    } else {
        line
    }
}

/// The lines of `text`. A line ends with a line feed, or with a carriage return and a line feed,
/// neither of which belongs to it; the last line need not end with one.
pub open spec fn lines(text: Seq<char>) -> Seq<Seq<char>>
    decreases text.len(),
{
    let end = line_end(text);
    if text.len() == 0 {
        Seq::empty()
    } else if end >= text.len() {
        seq![text]
    } else {
        seq![without_return(text.take(end as int))] + lines(text.skip(end as int + 1))
    }
}

/// The views of strings.
pub open spec fn views(strings: Seq<String>) -> Seq<Seq<char>> {
    strings.map_values(|s: String| s@)
}

/// The decimal digits of `n`.
pub open spec fn decimal(n: nat) -> Seq<char> {
    if n == 0 {
        seq!['0']
    } else {
        numeral(n, 10).map_values(|d: nat| ('0' as nat + d) as char)
    }
}

/// Text that was read from bytes is what the bytes decode to.
pub proof fn lemma_text_of_bytes(text: &str)
    ensures
        decode_utf8(text.spec_bytes()) == text@,
{
    encode_utf8_decode_utf8(text@);
}

proof fn lemma_ascii_scalar(c: char)
    requires
        encode_scalar(c as u32)[0] < 128,
    ensures
        '\0' <= c <= '\u{7f}',
{
    let scalar = c as u32;
    assert(leading_byte_width_2(scalar) >= 0x80) by (bit_vector);
    assert(leading_byte_width_3(scalar) >= 0x80) by (bit_vector);
    assert(leading_byte_width_4(scalar) >= 0x80) by (bit_vector);
}

/// Text whose UTF-8 bytes are all ASCII is ASCII.
pub proof fn lemma_ascii_text_of_bytes(text: Seq<char>)
    requires
        forall|i: int| 0 <= i < encode_utf8(text).len() ==> #[trigger] encode_utf8(text)[i] < 128,
    ensures
        is_ascii_chars(text),
    decreases text.len(),
{
    if text.len() > 0 {
        let first = encode_scalar(text[0] as u32);
        let rest = text.drop_first();
        assert(encode_utf8(text)[0] == first[0]);
        lemma_ascii_scalar(text[0]);
        assert forall|i: int| 0 <= i < encode_utf8(rest).len() implies #[trigger] encode_utf8(
            rest,
        )[i] < 128 by {
            assert(encode_utf8(text)[first.len() + i] == encode_utf8(rest)[i]);
        }
        lemma_ascii_text_of_bytes(rest);
        assert forall|i: int| 0 <= i < text.len() implies '\0' <= #[trigger] text[i]
            <= '\u{7f}' by {
            if i > 0 {
                assert(rest[i - 1] == text[i]);
            }
        }
    }
}

/// What ends a line: a line feed, or a carriage return and a line feed.
pub open spec fn is_line_ending(ending: Seq<char>) -> bool {
    ending == seq!['\n'] || ending == seq!['\r', '\n']
}

/// A line that was written with a line ending after it is read back as it was, and so is what comes
/// after it. One that was written without a line ending is read back if nothing comes after it.
pub proof fn lemma_lines_of_written(line: Seq<char>, ending: Seq<char>, rest: Seq<char>)
    requires
        forall|i: int| 0 <= i < line.len() ==> #[trigger] line[i] != '\n',
        line.len() > 0 ==> line.last() != '\r',
    ensures
        is_line_ending(ending) ==> lines(line + ending + rest) == seq![line] + lines(rest),
        line.len() > 0 ==> lines(line) == seq![line],
{
    let text = line + ending + rest;
    if ending == seq!['\n'] {
        lemma_line_end(line, rest);
        assert(text.take(line.len() as int) =~= line);
        assert(text.skip(line.len() as int + 1) =~= rest);
    } else if ending == seq!['\r', '\n'] {
        let full = line.push('\r');
        lemma_line_end(full, rest);
        assert(text =~= full + seq!['\n'] + rest);
        assert(text.take(full.len() as int) =~= full);
        assert(text.skip(full.len() as int + 1) =~= rest);
        assert(full.drop_last() =~= line);
    }
    lemma_line_end_of_last(line);
}

proof fn lemma_line_end(line: Seq<char>, rest: Seq<char>)
    requires
        forall|i: int| 0 <= i < line.len() ==> #[trigger] line[i] != '\n',
    ensures
        line_end(line + seq!['\n'] + rest) == line.len(),
    decreases line.len(),
{
    let text = line + seq!['\n'] + rest;
    if line.len() > 0 {
        assert(text[0] == line[0]);
        assert(text.skip(1) =~= line.skip(1) + seq!['\n'] + rest);
        lemma_line_end(line.skip(1), rest);
    } else {
        assert(text[0] == '\n');
    }
}

proof fn lemma_line_end_of_last(line: Seq<char>)
    requires
        forall|i: int| 0 <= i < line.len() ==> #[trigger] line[i] != '\n',
    ensures
        line_end(line) == line.len(),
    decreases line.len(),
{
    if line.len() > 0 {
        lemma_line_end_of_last(line.skip(1));
    }
}

/// The characters of `text`.
pub(crate) fn to_chars(text: &str) -> (chars: Vec<char>)
    ensures
        chars@ == text@,
{
    let mut chars: Vec<char> = Vec::new();
    for c in it: text.chars()
        invariant
            it.seq() == text@,
            chars@ == text@.take(it.index() as int),
    {
        chars.push(c);
        assert(chars@ =~= text@.take(it.index() + 1));
    }
    assert(text@.take(text@.len() as int) =~= text@);
    chars
}

/// The characters from `start` up to `end` as a string.
pub(crate) fn slice_text(chars: &Vec<char>, start: usize, end: usize) -> (text: String)
    requires
        start <= end <= chars@.len(),
    ensures
        text@ == chars@.subrange(start as int, end as int),
{
    let mut text = String::new();
    let mut i: usize = start;
    while i < end
        invariant
            start <= i <= end <= chars@.len(),
            text@ =~= chars@.subrange(start as int, i as int),
        decreases end - i,
    {
        text.push(chars[i]);
        i += 1;
    }
    text
}

/// `pattern` stands in `chars` at `start`.
fn matches_at(chars: &Vec<char>, start: usize, pattern: &Vec<char>) -> (found: bool)
    requires
        start + pattern.len() <= chars.len(),
    ensures
        found == has_prefix(chars@.skip(start as int), pattern@),
{
    let ghost rest = chars@.skip(start as int);
    let mut i: usize = 0;
    while i < pattern.len()
        invariant
            i <= pattern@.len(),
            start + pattern.len() <= chars.len(),
            rest == chars@.skip(start as int),
            forall|k: int| 0 <= k < i ==> rest[k] == #[trigger] pattern@[k],
        decreases pattern@.len() - i,
    {
        if chars[start + i] != pattern[i] {
            assert(rest[i as int] != pattern@[i as int]);
            assert(rest.take(pattern@.len() as int)[i as int] == rest[i as int]);
            return false;
        }
        i += 1;
    }
    assert(rest.take(pattern@.len() as int) =~= pattern@);
    true
}

/// Takes every occurrence of `pattern` out of `text`.
pub(crate) fn remove_all(text: &str, pattern: &str) -> (rest: String)
    requires
        pattern@.len() > 0,
    ensures
        rest@ == without(text@, pattern@),
{
    let chars = to_chars(text);
    let pattern = to_chars(pattern);
    let mut rest = String::new();
    let mut i: usize = 0;
    assert(text@.skip(0) =~= text@);
    while i < chars.len()
        invariant
            i <= chars@.len(),
            chars@ == text@,
            pattern@.len() > 0,
            without(text@, pattern@) =~= rest@ + without(text@.skip(i as int), pattern@),
        decreases chars@.len() - i,
    {
        let ghost tail = text@.skip(i as int);
        if pattern.len() <= chars.len() - i && matches_at(&chars, i, &pattern) {
            assert(tail.skip(pattern@.len() as int) =~= text@.skip(i + pattern@.len()));
            i += pattern.len();
        } else {
            proof {
                assert(tail[0] == text@[i as int]);
                assert(tail.skip(1) =~= text@.skip(i + 1));
                if tail.len() < pattern@.len() {
                    assert(without(tail, pattern@) == tail);
                    assert(without(tail.skip(1), pattern@) == tail.skip(1));
                    assert(tail =~= seq![tail[0]] + tail.skip(1));
                }
            }
            rest.push(chars[i]);
            i += 1;
        }
    }
    assert(text@.skip(i as int) =~= Seq::<char>::empty());
    rest
}

/// Where the line that starts at `start` ends.
fn find_line_end(chars: &Vec<char>, start: usize) -> (end: usize)
    requires
        start <= chars@.len(),
    ensures
        start <= end <= chars@.len(),
        end == start + line_end(chars@.skip(start as int)),
        end < chars@.len() ==> chars@[end as int] == '\n',
{
    let mut end: usize = start;
    while end < chars.len() && chars[end] != '\n'
        invariant
            start <= end <= chars@.len(),
            start + line_end(chars@.skip(start as int)) == end + line_end(chars@.skip(end as int)),
        decreases chars@.len() - end,
    {
        assert(chars@.skip(end as int)[0] == chars@[end as int]);
        assert(chars@.skip(end as int).skip(1) =~= chars@.skip(end + 1));
        end += 1;
    }
    if end < chars.len() {
        assert(chars@.skip(end as int)[0] == chars@[end as int]);
    }
    end
}

/// Cuts `text` into lines.
pub(crate) fn split_lines(text: &str) -> (split: Vec<String>)
    ensures
        views(split@) == lines(text@),
{
    let chars = to_chars(text);
    let mut split: Vec<String> = Vec::new();
    let mut start: usize = 0;
    assert(text@.skip(0) =~= text@);
    assert(views(split@) =~= Seq::<Seq<char>>::empty());
    while start < chars.len()
        invariant
            start <= chars@.len(),
            chars@ == text@,
            lines(text@) =~= views(split@) + lines(text@.skip(start as int)),
        decreases chars@.len() - start,
    {
        let ghost tail = text@.skip(start as int);
        let ghost before = views(split@);
        let end = find_line_end(&chars, start);
        if end < chars.len() {
            let stop = if end > start && chars[end - 1] == '\r' {
                end - 1
            } else {
                end
            };
            let line = slice_text(&chars, start, stop);
            proof {
                let full = tail.take(end - start);
                assert(full =~= text@.subrange(start as int, end as int));
                if end > start {
                    assert(full.last() == text@[end - 1]);
                    assert(full.drop_last() =~= text@.subrange(start as int, end - 1));
                }
                assert(line@ =~= without_return(full));
                assert(tail.skip(end - start + 1) =~= text@.skip(end + 1));
            }
            split.push(line);
            assert(views(split@) =~= before.push(line@));
            start = end + 1;
        } else {
            let line = slice_text(&chars, start, end);
            proof {
                assert(line@ =~= tail);
                assert(text@.skip(end as int) =~= Seq::<char>::empty());
            }
            split.push(line);
            assert(views(split@) =~= before.push(line@));
            start = end;
        }
    }
    assert(text@.skip(start as int) =~= Seq::<char>::empty());
    split
}

/// Appends the decimal digits of `n`.
pub(crate) fn push_decimal(text: &mut String, n: usize)
    ensures
        final(text)@ == old(text)@ + decimal(n as nat),
    decreases n,
{
    let ghost start = text@;
    let digit: u8 = (n % 10) as u8;
    proof {
        lemma_numeral(n as nat / 10, 10);
    }
    if n >= 10 {
        push_decimal(text, n / 10);
    }
    let c: char = (48u8 + digit) as char;
    text.push(c);
    assert(text@ =~= start + decimal(n as nat));
}

/// Text begins with a prefix exactly if it is the prefix with more text after it.
pub proof fn lemma_has_prefix(text: Seq<char>, prefix: Seq<char>)
    ensures
        has_prefix(text, prefix) <==> exists|rest: Seq<char>| text == #[trigger] (prefix + rest),
{
    if has_prefix(text, prefix) {
        assert(text =~= prefix + text.skip(prefix.len() as int));
    }
    if exists|rest: Seq<char>| text == #[trigger] (prefix + rest) {
        assert(text.take(prefix.len() as int) =~= prefix);
    }
}

/// Text in which a pattern does not occur is left as it is.
pub proof fn lemma_without_absent(text: Seq<char>, pattern: Seq<char>)
    requires
        pattern.len() > 0,
        forall|i: int|
            0 <= i <= text.len() - pattern.len() ==> #[trigger] text.subrange(i, i + pattern.len())
                != pattern,
    ensures
        without(text, pattern) == text,
    decreases text.len(),
{
    if text.len() >= pattern.len() {
        let rest = text.skip(1);
        assert(text.take(pattern.len() as int) =~= text.subrange(0int, 0int + pattern.len()));
        assert forall|i: int| 0 <= i <= rest.len() - pattern.len() implies #[trigger] rest.subrange(
            i,
            i + pattern.len(),
        ) != pattern by {
            assert(rest.subrange(i, i + pattern.len()) =~= text.subrange(
                i + 1,
                i + 1 + pattern.len(),
            ));
        }
        lemma_without_absent(rest, pattern);
        assert(seq![text[0]] + rest =~= text);
    }
}

/// The first occurrence of a pattern is taken out, what stands before it is left as it is, and what
/// stands after it is looked through on its own.
pub proof fn lemma_without_first(before: Seq<char>, pattern: Seq<char>, after: Seq<char>)
    requires
        pattern.len() > 0,
        forall|i: int|
            0 <= i < before.len() ==> #[trigger] (before + pattern + after).subrange(
                i,
                i + pattern.len(),
            ) != pattern,
    ensures
        without(before + pattern + after, pattern) == before + without(after, pattern),
    decreases before.len(),
{
    let text = before + pattern + after;
    if before.len() > 0 {
        let tail = before.skip(1);
        let rest = tail + pattern + after;
        assert(text.skip(1) =~= rest);
        assert(text.take(pattern.len() as int) =~= text.subrange(0int, 0int + pattern.len()));
        assert forall|i: int| 0 <= i < tail.len() implies #[trigger] rest.subrange(
            i,
            i + pattern.len(),
        ) != pattern by {
            assert(rest.subrange(i, i + pattern.len()) =~= text.subrange(
                i + 1,
                i + 1 + pattern.len(),
            ));
        }
        lemma_without_first(tail, pattern, after);
        assert(seq![text[0]] + (tail + without(after, pattern)) =~= before + without(after, pattern));
    } else {
        assert(text.take(pattern.len() as int) =~= pattern);
        assert(text.skip(pattern.len() as int) =~= after);
        assert(before + without(after, pattern) =~= without(after, pattern));
    }
}

/// Text is cut at every line feed. A carriage return right before the line feed goes with it, but
/// only one. What comes after the last line feed is a line unless it is empty.
pub proof fn lemma_lines(line: Seq<char>, rest: Seq<char>)
    requires
        forall|i: int| 0 <= i < line.len() ==> #[trigger] line[i] != '\n',
    ensures
        lines(Seq::empty()) == Seq::<Seq<char>>::empty(),
        line.len() > 0 ==> lines(line) == seq![line],
        line.len() == 0 || line.last() != '\r' ==> lines(line + seq!['\n'] + rest) == seq![line]
            + lines(rest),
        lines(line + seq!['\r', '\n'] + rest) == seq![line] + lines(rest),
{
    let text = line + seq!['\n'] + rest;
    lemma_line_end(line, rest);
    assert(text.take(line.len() as int) =~= line);
    assert(text.skip(line.len() as int + 1) =~= rest);
    let full = line.push('\r');
    let returned = full + seq!['\n'] + rest;
    lemma_line_end(full, rest);
    assert(line + seq!['\r', '\n'] + rest =~= returned);
    assert(returned.take(full.len() as int) =~= full);
    assert(returned.skip(full.len() as int + 1) =~= rest);
    assert(full.drop_last() =~= line);
    lemma_line_end_of_last(line);
}

/// A number below ten has one decimal digit; any other has the decimal digits of its tenth, and
/// then that of the remainder.
pub proof fn lemma_decimal(n: nat)
    ensures
        n < 10 ==> decimal(n) == seq![('0' as nat + n) as char],
        n >= 10 ==> decimal(n) == decimal(n / 10) + decimal(n % 10),
{
    lemma_numeral(n / 10, 10);
    if n < 10 {
        assert(decimal(n) =~= seq![('0' as nat + n) as char]);
    } else {
        assert(numeral((n % 10) / 10, 10).len() == 0);
        assert(decimal(n) =~= decimal(n / 10) + decimal(n % 10));
    }
}

/// The cases of ASCII letters are 32 apart, and nothing else in ASCII has a case. Text that holds a
/// character outside ASCII is put in lower case as a whole.
pub proof fn lemma_cases(c: char, text: Seq<char>)
    ensures
        'A' <= c <= 'Z' ==> ascii_lowercase(c) as nat == c as nat + 32 && ascii_uppercase(c) == c,
        'a' <= c <= 'z' ==> ascii_uppercase(c) as nat == c as nat - 32 && ascii_lowercase(c) == c,
        !('A' <= c <= 'Z') && !('a' <= c <= 'z') ==> ascii_lowercase(c) == c && ascii_uppercase(c)
            == c,
        (c as nat) < 128 ==> uppercase(c) == seq![ascii_uppercase(c)],
        (c as nat) >= 128 ==> uppercase(c) == unicode_uppercase(c),
        is_ascii_chars(text) ==> {
            &&& lowercase(text).len() == text.len()
            &&& forall|i: int|
                0 <= i < text.len() ==> #[trigger] lowercase(text)[i] == ascii_lowercase(text[i])
        },
        !is_ascii_chars(text) ==> lowercase(text) == unicode_lowercase(text),
{
}

} // verus!

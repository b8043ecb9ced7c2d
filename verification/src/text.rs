//! Text primitives: characters, numbers, lines and words.
//!
//! Text is handled as a sequence of characters. The specification functions describe the result
//! of scanning from a position, so that they can be read from left to right like the text itself.
use vstd::prelude::*;
use vstd::string::*;

verus! {

/// `String::push` appends the given character to the end of the string.
pub assume_specification[ String::push ](s: &mut String, c: char)
    ensures
        final(s)@ == old(s)@.push(c),
;

/// Why a piece of text is not a number of the wanted type.
#[derive(Debug, Clone, Copy, PartialEq, Eq, Structural)]
pub enum NumberError {
    Empty,
    InvalidDigit,
    TooLarge,
    TooSmall,
}

/// A decimal digit.
pub open spec fn is_digit(c: char) -> bool {
    '0' <= c <= '9'
}

/// The number that a digit stands for.
pub open spec fn digit_value(c: char) -> nat {
    (c as u32 - 48) as nat
}

/// The character that stands for a number below ten.
pub open spec fn digit_char(d: nat) -> char {
    (d + 48) as char
}

/// Characters with the Unicode property `White_Space`.
pub open spec fn is_space(c: char) -> bool {
    ||| '\t' <= c <= '\r'
    ||| c == ' '
    ||| c == '\u{85}'
    ||| c == '\u{A0}'
    ||| c == '\u{1680}'
    ||| '\u{2000}' <= c <= '\u{200A}'
    ||| c == '\u{2028}'
    ||| c == '\u{2029}'
    ||| c == '\u{202F}'
    ||| c == '\u{205F}'
    ||| c == '\u{3000}'
}

/// The character with ASCII capitals made small.
pub open spec fn ascii_lower(c: char) -> char {
    if 'A' <= c <= 'Z' {
        (c as u32 + 32) as char
    } else {
        c
    }
}

/// `text` with ASCII capitals made small.
pub open spec fn lowered(text: Seq<char>) -> Seq<char> {
    Seq::new(text.len(), |i: int| ascii_lower(text[i]))
}

/// `n` in decimal, without leading zeros.
pub open spec fn decimal(n: nat) -> Seq<char>
    decreases n,
{
    if n < 10 {
        seq![digit_char(n)]
    } else {
        decimal(n / 10).push(digit_char(n % 10))
    }
}

/// `count` copies of `c`.
pub open spec fn repeated(c: char, count: int) -> Seq<char> {
    Seq::new(if count > 0 { count as nat } else { 0 }, |i: int| c)
}

/// `n` in decimal, filled with zeros on the left up to `width` characters.
pub open spec fn zero_padded(n: nat, width: nat) -> Seq<char> {
    repeated('0', width - decimal(n).len()) + decimal(n)
}

/// A signed number filled with zeros between its sign and its digits.
pub open spec fn signed_padded(n: int, width: nat) -> Seq<char> {
    if n < 0 {
        seq!['-'] + zero_padded((-n) as nat, (if width > 0 { width - 1 } else { 0 }) as nat)
    } else {
        zero_padded(n as nat, width)
    }
}

/// `text` filled with spaces on the right up to `width` characters.
pub open spec fn padded(text: Seq<char>, width: nat) -> Seq<char> {
    text + repeated(' ', width - text.len())
}

/// The pieces with `separator` between each two of them.
pub open spec fn joined(pieces: Seq<Seq<char>>, separator: Seq<char>) -> Seq<char>
    decreases pieces.len(),
{
    if pieces.len() == 0 {
        Seq::empty()
    } else if pieces.len() == 1 {
        pieces[0]
    } else {
        joined(pieces.drop_last(), separator) + separator + pieces.last()
    }
}

/// The first position from `i` on that holds `c`, or the length.
pub open spec fn find_from(text: Seq<char>, c: char, i: int) -> int
    decreases text.len() - i,
{
    if i < 0 || i >= text.len() {
        text.len() as int
    } else if text[i] == c {
        i
    } else {
        find_from(text, c, i + 1)
    }
}

/// Whether `pattern` stands in `text` at position `i`.
pub open spec fn matches_at(text: Seq<char>, pattern: Seq<char>, i: int) -> bool {
    &&& 0 <= i
    &&& i + pattern.len() <= text.len()
    &&& text.subrange(i, i + pattern.len()) == pattern
}

/// Whether `pattern` stands anywhere in `text`.
pub open spec fn contains(text: Seq<char>, pattern: Seq<char>) -> bool {
    exists|i: int| matches_at(text, pattern, i)
}

/// `text` from `i` on, with each occurrence of `pattern`, taken from the left, replaced.
pub open spec fn replaced_from(
    text: Seq<char>,
    pattern: Seq<char>,
    by: Seq<char>,
    i: int,
) -> Seq<char>
    decreases text.len() - i,
{
    if i < 0 || i >= text.len() {
        Seq::empty()
    } else if pattern.len() > 0 && matches_at(text, pattern, i) {
        by + replaced_from(text, pattern, by, i + pattern.len())
    } else {
        seq![text[i]] + replaced_from(text, pattern, by, i + 1)
    }
}

/// `text` with each occurrence of `pattern` replaced.
pub open spec fn replaced(text: Seq<char>, pattern: Seq<char>, by: Seq<char>) -> Seq<char> {
    replaced_from(text, pattern, by, 0)
}

/// The first position from `i` on that holds no white space, or the length.
pub open spec fn space_end(text: Seq<char>, i: int) -> int
    decreases text.len() - i,
{
    if i < 0 || i >= text.len() {
        text.len() as int
    } else if is_space(text[i]) {
        space_end(text, i + 1)
    } else {
        i
    }
}

/// The first position from `i` on that holds white space, or the length.
pub open spec fn word_end(text: Seq<char>, i: int) -> int
    decreases text.len() - i,
{
    if i < 0 || i >= text.len() {
        text.len() as int
    } else if is_space(text[i]) {
        i
    } else {
        word_end(text, i + 1)
    }
}

/// Where `text[..end]` ends once the white space at its end is left out.
pub open spec fn last_word_end(text: Seq<char>, end: int) -> int
    decreases end,
{
    if end <= 0 || end > text.len() {
        0
    } else if is_space(text[end - 1]) {
        last_word_end(text, end - 1)
    } else {
        end
    }
}

/// `text` without the white space at both ends.
pub open spec fn trimmed(text: Seq<char>) -> Seq<char> {
    let start = space_end(text, 0);
    let end = last_word_end(text, text.len() as int);
    if start < end {
        text.subrange(start, end)
    } else {
        Seq::empty()
    }
}

/// A line that was ended by a line feed, without the carriage return before it.
pub open spec fn without_return(line: Seq<char>) -> Seq<char> {
    if line.len() > 0 && line.last() == '\r' {
        line.drop_last()
    } else {
        line
    }
}

/// The lines of `text` from `i` on; the last line may lack its line feed.
pub open spec fn lines_from(text: Seq<char>, i: int) -> Seq<Seq<char>>
    decreases text.len() - i,
    via lines_from_decreases
{
    if i < 0 || i >= text.len() {
        Seq::empty()
    } else {
        let end = find_from(text, '\n', i);
        if end >= text.len() {
            seq![text.subrange(i, text.len() as int)]
        } else {
            seq![without_return(text.subrange(i, end))] + lines_from(text, end + 1)
        }
    }
}

#[via_fn]
proof fn lines_from_decreases(text: Seq<char>, i: int) {
    if 0 <= i < text.len() {
        lemma_find_from(text, '\n', i);
    }
}

/// The lines of `text`.
pub open spec fn lines(text: Seq<char>) -> Seq<Seq<char>> {
    lines_from(text, 0)
}

/// The words of `text` from `i` on.
pub open spec fn words_from(text: Seq<char>, i: int) -> Seq<Seq<char>>
    decreases text.len() - i,
    via words_from_decreases
{
    if i < 0 || i >= text.len() {
        Seq::empty()
    } else if is_space(text[i]) {
        words_from(text, i + 1)
    } else {
        seq![text.subrange(i, word_end(text, i))] + words_from(text, word_end(text, i))
    }
}

#[via_fn]
proof fn words_from_decreases(text: Seq<char>, i: int) {
    if 0 <= i < text.len() {
        lemma_word_end(text, i);
    }
}

/// The pieces of `text` between white space.
pub open spec fn words(text: Seq<char>) -> Seq<Seq<char>> {
    words_from(text, 0)
}

/// The number that the digits of `text` from `i` on add to `value`.
pub open spec fn digits_from(text: Seq<char>, i: int, value: nat, max: nat) -> Result<
    nat,
    NumberError,
>
    decreases text.len() - i,
{
    if i < 0 || i >= text.len() {
        Ok(value)
    } else if !is_digit(text[i]) {
        Err(NumberError::InvalidDigit)
    } else if value * 10 + digit_value(text[i]) > max {
        Err(NumberError::TooLarge)
    } else {
        digits_from(text, i + 1, value * 10 + digit_value(text[i]), max)
    }
}

/// An unsigned number: an optional plus sign, then digits only.
pub open spec fn unsigned(text: Seq<char>, max: nat) -> Result<nat, NumberError> {
    if text.len() == 0 {
        Err(NumberError::Empty)
    } else if text[0] == '+' && text.len() > 1 {
        digits_from(text, 1, 0, max)
    } else {
        digits_from(text, 0, 0, max)
    }
}

/// A signed number: an optional sign, then digits only.
pub open spec fn signed(text: Seq<char>, min: int, max: nat) -> Result<int, NumberError> {
    if text.len() > 1 && text[0] == '-' {
        match digits_from(text, 1, 0, (-min) as nat) {
            Ok(value) => Ok(-(value as int)),
            Err(NumberError::TooLarge) => Err(NumberError::TooSmall),
            Err(error) => Err(error),
        }
    } else {
        match unsigned(text, max) {
            Ok(value) => Ok(value as int),
            Err(error) => Err(error),
        }
    }
}

/// The characters of each piece.
pub open spec fn pieces(list: Seq<Vec<char>>) -> Seq<Seq<char>> {
    Seq::new(list.len(), |i: int| list[i]@)
}

/// The characters of each string.
pub open spec fn strings(list: Seq<String>) -> Seq<Seq<char>> {
    Seq::new(list.len(), |i: int| list[i]@)
}

/// The characters of an optional string.
pub open spec fn optional(value: Option<String>) -> Option<Seq<char>> {
    match value {
        Some(text) => Some(text@),
        None => None,
    }
}

/// What is found is the first position that holds `c`.
pub(crate) proof fn lemma_find_from(text: Seq<char>, c: char, i: int)
    requires
        0 <= i <= text.len(),
    ensures
        i <= find_from(text, c, i) <= text.len(),
        find_from(text, c, i) < text.len() ==> text[find_from(text, c, i)] == c,
        forall|j: int| i <= j < find_from(text, c, i) ==> text[j] != c,
    decreases text.len() - i,
{
    if i < text.len() && text[i] != c {
        lemma_find_from(text, c, i + 1);
    }
}

/// A position that holds `c` with none before it is the one that is found.
pub(crate) proof fn lemma_find_from_is(text: Seq<char>, c: char, i: int, at: int)
    requires
        0 <= i <= at < text.len(),
        text[at] == c,
        forall|j: int| i <= j < at ==> text[j] != c,
    ensures
        find_from(text, c, i) == at,
    decreases at - i,
{
    if i < at {
        lemma_find_from_is(text, c, i + 1, at);
    }
}

proof fn lemma_word_end(text: Seq<char>, i: int)
    requires
        0 <= i <= text.len(),
    ensures
        i <= word_end(text, i) <= text.len(),
        i < text.len() && !is_space(text[i]) ==> i < word_end(text, i),
    decreases text.len() - i,
{
    if i < text.len() && !is_space(text[i]) {
        lemma_word_end(text, i + 1);
    }
}

/// The characters of `s`.
pub fn chars_of(s: &str) -> (v: Vec<char>)
    ensures
        v@ == s@,
{
    let mut v: Vec<char> = Vec::new();
    for c in it: s.chars()
        invariant
            v@ == s@.take(it.index()),
            it.seq() == s@,
    {
        v.push(c);
    }
    assert(s@.take(s@.len() as int) =~= s@);
    v
}

/// The string made of the characters of `v`.
pub fn string_of(v: &Vec<char>) -> (s: String)
    ensures
        s@ == v@,
{
    let mut s = String::new();
    for i in 0..v.len()
        invariant
            s@ == v@.take(i as int),
    {
        s.push(v[i]);
    }
    assert(v@.take(v@.len() as int) =~= v@);
    s
}

/// Whether two texts are the same.
pub fn same_text(a: &str, b: &str) -> (r: bool)
    ensures
        r == (a@ == b@),
{
    a.to_owned() == b.to_owned()
}

/// Whether two character lists are the same.
pub fn same_chars(a: &Vec<char>, b: &Vec<char>) -> (r: bool)
    ensures
        r == (a@ == b@),
{
    if a.len() != b.len() {
        return false;
    }
    for i in 0..a.len()
        invariant
            a.len() == b.len(),
            forall|j: int| 0 <= j < i ==> a@[j] == b@[j],
    {
        if a[i] != b[i] {
            return false;
        }
    }
    assert(a@ =~= b@);
    true
}

/// The part of `v` from `start` up to `end`.
pub fn part(v: &Vec<char>, start: usize, end: usize) -> (r: Vec<char>)
    requires
        start <= end <= v.len(),
    ensures
        r@ == v@.subrange(start as int, end as int),
{
    let mut r: Vec<char> = Vec::new();
    for i in start..end
        invariant
            start <= end <= v.len(),
            r@ == v@.subrange(start as int, i as int),
    {
        r.push(v[i]);
        assert(r@ =~= v@.subrange(start as int, i + 1));
    }
    r
}

/// Whether the character is white space.
pub fn space(c: char) -> (r: bool)
    ensures
        r == is_space(c),
{
    ('\t' <= c && c <= '\r') || c == ' ' || c == '\u{85}' || c == '\u{A0}' || c == '\u{1680}' || (
    '\u{2000}' <= c && c <= '\u{200A}') || c == '\u{2028}' || c == '\u{2029}' || c == '\u{202F}'
        || c == '\u{205F}' || c == '\u{3000}'
}

/// `c` with ASCII capitals made small.
pub fn lower(c: char) -> (r: char)
    ensures
        r == ascii_lower(c),
{
    if 'A' <= c && c <= 'Z' {
        ((c as u8) + 32) as char
    } else {
        c
    }
}

/// `text` with ASCII capitals made small.
pub fn lower_text(text: &Vec<char>) -> (r: Vec<char>)
    ensures
        r@ == lowered(text@),
{
    let mut r: Vec<char> = Vec::new();
    for i in 0..text.len()
        invariant
            r@.len() == i,
            forall|j: int| 0 <= j < i ==> r@[j] == ascii_lower(text@[j]),
    {
        r.push(lower(text[i]));
    }
    assert(r@ =~= lowered(text@));
    r
}

/// Whether `pattern` stands in `text` at position `i`.
pub fn match_at(text: &Vec<char>, pattern: &Vec<char>, i: usize) -> (r: bool)
    requires
        i <= text.len(),
    ensures
        r == matches_at(text@, pattern@, i as int),
{
    if pattern.len() > text.len() - i {
        return false;
    }
    for j in 0..pattern.len()
        invariant
            i + pattern.len() <= text.len(),
            forall|k: int| 0 <= k < j ==> text@[i + k] == pattern@[k],
    {
        if text[i + j] != pattern[j] {
            assert(text@.subrange(i as int, i + pattern@.len())[j as int] != pattern@[j as int]);
            return false;
        }
    }
    assert(text@.subrange(i as int, i + pattern@.len()) =~= pattern@);
    true
}

/// Whether `pattern` stands anywhere in `text`.
pub fn contains_text(text: &Vec<char>, pattern: &str) -> (r: bool)
    ensures
        r == contains(text@, pattern@),
{
    let wanted = chars_of(pattern);
    for i in 0..text.len()
        invariant
            wanted@ == pattern@,
            forall|j: int| 0 <= j < i ==> !matches_at(text@, pattern@, j),
    {
        if match_at(text, &wanted, i) {
            return true;
        }
    }
    match_at(text, &wanted, text.len())
}

/// Whether `text` starts with `prefix`.
pub fn starts_with(text: &Vec<char>, prefix: &str) -> (r: bool)
    ensures
        r == matches_at(text@, prefix@, 0),
{
    match_at(text, &chars_of(prefix), 0)
}

/// `text` with each occurrence of `pattern` replaced.
pub fn replace(text: &Vec<char>, pattern: &Vec<char>, by: &Vec<char>) -> (r: Vec<char>)
    requires
        pattern.len() > 0,
    ensures
        r@ == replaced(text@, pattern@, by@),
{
    let mut r: Vec<char> = Vec::new();
    let mut i: usize = 0;
    while i < text.len()
        invariant
            i <= text.len(),
            pattern.len() > 0,
            r@ + replaced_from(text@, pattern@, by@, i as int) == replaced(text@, pattern@, by@),
        decreases text.len() - i,
    {
        let ghost before = r@;
        if match_at(text, pattern, i) {
            for j in 0..by.len()
                invariant
                    r@ == before + by@.take(j as int),
            {
                r.push(by[j]);
                assert(r@ =~= before + by@.take(j + 1));
            }
            assert(by@.take(by@.len() as int) =~= by@);
            proof {
                let rest = replaced_from(text@, pattern@, by@, i + pattern@.len());
                assert((before + by@) + rest =~= before + (by@ + rest));
            }
            i = i + pattern.len();
        } else {
            r.push(text[i]);
            proof {
                let rest = replaced_from(text@, pattern@, by@, i + 1);
                assert(before.push(text@[i as int]) + rest =~= before + (seq![text@[i as int]]
                    + rest));
            }
            i = i + 1;
        }
    }
    assert(r@ + replaced_from(text@, pattern@, by@, i as int) =~= r@);
    r
}

/// The first position from `start` on that holds `c`, or the length.
pub fn find(text: &Vec<char>, c: char, start: usize) -> (r: usize)
    requires
        start <= text.len(),
    ensures
        r == find_from(text@, c, start as int),
        start <= r <= text.len(),
{
    let mut i: usize = start;
    while i < text.len() && text[i] != c
        invariant
            start <= i <= text.len(),
            find_from(text@, c, start as int) == find_from(text@, c, i as int),
        decreases text.len() - i,
    {
        i = i + 1;
    }
    i
}

/// `text` without the white space at both ends.
pub fn trim(text: &Vec<char>) -> (r: Vec<char>)
    ensures
        r@ == trimmed(text@),
{
    let mut start: usize = 0;
    while start < text.len() && space(text[start])
        invariant
            start <= text.len(),
            space_end(text@, 0) == space_end(text@, start as int),
        decreases text.len() - start,
    {
        start = start + 1;
    }
    let mut end: usize = text.len();
    while end > 0 && space(text[end - 1])
        invariant
            end <= text.len(),
            last_word_end(text@, text@.len() as int) == last_word_end(text@, end as int),
        decreases end,
    {
        end = end - 1;
    }
    if start < end {
        part(text, start, end)
    } else {
        Vec::new()
    }
}

/// The lines of `text`.
pub fn split_lines(text: &Vec<char>) -> (r: Vec<Vec<char>>)
    ensures
        pieces(r@) == lines(text@),
{
    let mut r: Vec<Vec<char>> = Vec::new();
    let mut i: usize = 0;
    assert(pieces(r@) =~= Seq::<Seq<char>>::empty());
    assert(pieces(r@) + lines_from(text@, 0) =~= lines(text@));
    while i < text.len()
        invariant
            i <= text.len(),
            pieces(r@) + lines_from(text@, i as int) == lines(text@),
        decreases text.len() - i,
    {
        let end = find(text, '\n', i);
        let ghost before = r@;
        if end >= text.len() {
            let line = part(text, i, end);
            r.push(line);
            assert(pieces(r@) =~= pieces(before).push(line@));
            assert(pieces(r@) =~= pieces(before) + lines_from(text@, i as int));
            return r;
        }
        let stop = if end > i && text[end - 1] == '\r' {
            end - 1
        } else {
            end
        };
        let line = part(text, i, stop);
        assert(line@ =~= without_return(text@.subrange(i as int, end as int)));
        r.push(line);
        proof {
            assert(pieces(r@) =~= pieces(before).push(line@));
            let rest = lines_from(text@, end + 1);
            assert(pieces(before).push(line@) + rest =~= pieces(before) + (seq![line@] + rest));
        }
        i = end + 1;
    }
    assert(pieces(r@) + lines_from(text@, i as int) =~= pieces(r@));
    r
}

/// The pieces of `text` between white space.
pub fn split_words(text: &Vec<char>) -> (r: Vec<Vec<char>>)
    ensures
        pieces(r@) == words(text@),
{
    let mut r: Vec<Vec<char>> = Vec::new();
    let mut i: usize = 0;
    assert(pieces(r@) =~= Seq::<Seq<char>>::empty());
    assert(pieces(r@) + words_from(text@, 0) =~= words(text@));
    while i < text.len()
        invariant
            i <= text.len(),
            pieces(r@) + words_from(text@, i as int) == words(text@),
        decreases text.len() - i,
    {
        if space(text[i]) {
            i = i + 1;
        } else {
            let mut end: usize = i + 1;
            while end < text.len() && !space(text[end])
                invariant
                    i < end <= text.len(),
                    word_end(text@, i as int) == word_end(text@, end as int),
                decreases text.len() - end,
            {
                end = end + 1;
            }
            let ghost before = r@;
            let word = part(text, i, end);
            r.push(word);
            proof {
                assert(pieces(r@) =~= pieces(before).push(word@));
                let rest = words_from(text@, end as int);
                assert(pieces(before).push(word@) + rest =~= pieces(before) + (seq![word@] + rest));
            }
            i = end;
        }
    }
    assert(pieces(r@) + words_from(text@, i as int) =~= pieces(r@));
    r
}

/// The number that the digits of `text` from `start` on make.
fn read_digits(text: &Vec<char>, start: usize, max: u64) -> (r: Result<u64, NumberError>)
    requires
        start <= text.len(),
    ensures
        match digits_from(text@, start as int, 0, max as nat) {
            Ok(value) => r == Ok::<u64, NumberError>(value as u64) && value <= max,
            Err(error) => r == Err::<u64, NumberError>(error),
        },
{
    let mut value: u64 = 0;
    let mut i: usize = start;
    while i < text.len()
        invariant
            start <= i <= text.len(),
            value <= max,
            digits_from(text@, start as int, 0, max as nat) == digits_from(
                text@,
                i as int,
                value as nat,
                max as nat,
            ),
        decreases text.len() - i,
    {
        let c = text[i];
        if !('0' <= c && c <= '9') {
            return Err(NumberError::InvalidDigit);
        }
        let digit: u64 = c as u64 - 48;
        if value > max / 10 || digit > max - value * 10 {
            return Err(NumberError::TooLarge);
        }
        value = value * 10 + digit;
        i = i + 1;
    }
    Ok(value)
}

/// Reads an unsigned number no larger than `max`.
pub fn read_unsigned(text: &Vec<char>, max: u64) -> (r: Result<u64, NumberError>)
    ensures
        match unsigned(text@, max as nat) {
            Ok(value) => r == Ok::<u64, NumberError>(value as u64) && value <= max,
            Err(error) => r == Err::<u64, NumberError>(error),
        },
{
    if text.len() == 0 {
        Err(NumberError::Empty)
    } else if text[0] == '+' && text.len() > 1 {
        read_digits(text, 1, max)
    } else {
        read_digits(text, 0, max)
    }
}

/// Reads a 32-bit unsigned number.
pub fn read_u32(text: &Vec<char>) -> (r: Result<u32, NumberError>)
    ensures
        match unsigned(text@, u32::MAX as nat) {
            Ok(value) => r == Ok::<u32, NumberError>(value as u32) && value <= u32::MAX,
            Err(error) => r == Err::<u32, NumberError>(error),
        },
{
    match read_unsigned(text, u32::MAX as u64) {
        Ok(value) => Ok(value as u32),
        Err(error) => Err(error),
    }
}

/// Reads a 32-bit signed number.
pub fn read_i32(text: &Vec<char>) -> (r: Result<i32, NumberError>)
    ensures
        match signed(text@, i32::MIN as int, i32::MAX as nat) {
            Ok(value) => r == Ok::<i32, NumberError>(value as i32) && i32::MIN <= value <= i32::MAX,
            Err(error) => r == Err::<i32, NumberError>(error),
        },
{
    if text.len() > 1 && text[0] == '-' {
        match read_digits(text, 1, 2_147_483_648) {
            Ok(value) => Ok((-(value as i64)) as i32),
            Err(NumberError::TooLarge) => Err(NumberError::TooSmall),
            Err(error) => Err(error),
        }
    } else {
        match read_unsigned(text, i32::MAX as u64) {
            Ok(value) => Ok(value as i32),
            Err(error) => Err(error),
        }
    }
}

/// Appends `n` in decimal.
pub fn push_decimal(out: &mut String, n: u64)
    ensures
        final(out)@ == old(out)@ + decimal(n as nat),
    decreases n,
{
    if n >= 10 {
        push_decimal(out, n / 10);
    }
    let digit: u8 = (n % 10) as u8 + 48;
    assert(digit as char == digit_char((n % 10) as nat));
    out.push(digit as char);
    assert(out@ =~= old(out)@ + decimal(n as nat));
}

/// `n` in decimal.
pub fn decimal_text(n: u64) -> (r: String)
    ensures
        r@ == decimal(n as nat),
{
    let mut r = String::new();
    push_decimal(&mut r, n);
    assert(r@ =~= decimal(n as nat));
    r
}

/// Appends `count` copies of `c`.
fn push_repeated(out: &mut String, c: char, count: usize)
    ensures
        final(out)@ == old(out)@ + repeated(c, count as int),
{
    let ghost before = out@;
    for i in 0..count
        invariant
            out@ == before + repeated(c, i as int),
    {
        out.push(c);
        assert(out@ =~= before + repeated(c, i + 1));
    }
}

/// Appends `n` in decimal, filled with zeros on the left.
pub fn push_zero_padded(out: &mut String, n: u64, width: usize)
    ensures
        final(out)@ == old(out)@ + zero_padded(n as nat, width as nat),
{
    let digits = decimal_text(n);
    let length = digits.as_str().unicode_len();
    if width > length {
        push_repeated(out, '0', width - length);
    }
    out.append(digits.as_str());
    assert(out@ =~= old(out)@ + zero_padded(n as nat, width as nat));
}

/// Appends a signed number, filled with zeros between its sign and its digits.
pub fn push_signed_padded(out: &mut String, n: i64, width: usize)
    ensures
        final(out)@ == old(out)@ + signed_padded(n as int, width as nat),
{
    if n < 0 {
        out.push('-');
        let magnitude: u64 = (-(n + 1)) as u64 + 1;
        push_zero_padded(out, magnitude, if width > 0 { width - 1 } else { 0 });
        assert(out@ =~= old(out)@ + signed_padded(n as int, width as nat));
    } else {
        push_zero_padded(out, n as u64, width);
    }
}

/// Appends `text`, filled with spaces on the right.
pub fn push_padded(out: &mut String, text: &str, width: usize)
    ensures
        final(out)@ == old(out)@ + padded(text@, width as nat),
{
    out.append(text);
    let length = text.unicode_len();
    if width > length {
        push_repeated(out, ' ', width - length);
    }
    assert(out@ =~= old(out)@ + padded(text@, width as nat));
}

/// The pieces with `separator` between each two of them.
pub fn join(list: &Vec<String>, separator: &str) -> (r: String)
    ensures
        r@ == joined(strings(list@), separator@),
{
    let mut r = String::new();
    let ghost all = strings(list@);
    for i in 0..list.len()
        invariant
            all == strings(list@),
            r@ == joined(all.take(i as int), separator@),
    {
        assert(all.take(i + 1).drop_last() =~= all.take(i as int));
        if i > 0 {
            r.append(separator);
        }
        r.append(list[i].as_str());
        assert(r@ =~= joined(all.take(i + 1), separator@));
    }
    assert(all.take(list.len() as int) =~= all);
    r
}

/// A copy of each string.
pub fn copy_strings(list: &Vec<String>) -> (r: Vec<String>)
    ensures
        r@ == list@,
{
    let mut r: Vec<String> = Vec::new();
    for i in 0..list.len()
        invariant
            r@ == list@.take(i as int),
    {
        r.push(list[i].clone());
    }
    assert(list@.take(list@.len() as int) =~= list@);
    r
}

proof fn lemma_digits_bound(text: Seq<char>, i: int, value: nat, max: nat)
    requires
        value <= max,
        digits_from(text, i, value, max) is Ok,
    ensures
        digits_from(text, i, value, max)->Ok_0 <= max,
    decreases text.len() - i,
{
    if 0 <= i < text.len() {
        lemma_digits_bound(text, i + 1, value * 10 + digit_value(text[i]), max);
    }
}

/// A number that was read is no larger than the type allows.
pub(crate) proof fn lemma_unsigned_bound(text: Seq<char>, max: nat)
    requires
        unsigned(text, max) is Ok,
    ensures
        unsigned(text, max)->Ok_0 <= max,
{
    lemma_digits_bound(text, if text[0] == '+' && text.len() > 1 { 1 } else { 0 }, 0, max);
}

/// A decimal form has digits, and nothing else.
pub(crate) proof fn lemma_decimal_nonempty(n: nat)
    ensures
        decimal(n).len() > 0,
        forall|i: int| 0 <= i < decimal(n).len() ==> is_digit(#[trigger] decimal(n)[i]),
    decreases n,
{
    assert(is_digit(digit_char(n % 10)));
    if n >= 10 {
        lemma_decimal_nonempty(n / 10);
    }
}

/// Digits after a read prefix: reading goes on from the value of the prefix.
proof fn lemma_digits_push(text: Seq<char>, i: int, value: nat, max: nat, c: char)
    requires
        0 <= i <= text.len(),
        is_digit(c),
        digits_from(text, i, value, max) is Ok,
    ensures
        digits_from(text.push(c), i, value, max) == ({
            let read = digits_from(text, i, value, max)->Ok_0;
            if read * 10 + digit_value(c) > max {
                Err::<nat, NumberError>(NumberError::TooLarge)
            } else {
                Ok::<nat, NumberError>(read * 10 + digit_value(c))
            }
        }),
    decreases text.len() - i,
{
    if i < text.len() {
        assert(text.push(c)[i] == text[i]);
        lemma_digits_push(text, i + 1, value * 10 + digit_value(text[i]), max, c);
    } else {
        assert(text.push(c)[i] == c);
        let next = value * 10 + digit_value(c);
        if next <= max {
            assert(digits_from(text.push(c), i + 1, next, max) == Ok::<nat, NumberError>(next));
        }
    }
}

proof fn lemma_digits_of_decimal(n: nat, max: nat)
    requires
        n <= max,
    ensures
        digits_from(decimal(n), 0, 0, max) == Ok::<nat, NumberError>(n),
    decreases n,
{
    assert(is_digit(digit_char(n % 10)) && digit_value(digit_char(n % 10)) == n % 10);
    if n < 10 {
        reveal_with_fuel(digits_from, 2);
    } else {
        lemma_digits_of_decimal(n / 10, max);
        lemma_digits_push(decimal(n / 10), 0, 0, max, digit_char(n % 10));
    }
}

/// Reading a number back from its decimal form gives the number.
pub proof fn decimal_reads_back(n: nat, max: nat)
    requires
        n <= max,
    ensures
        unsigned(decimal(n), max) == Ok::<nat, NumberError>(n),
{
    lemma_digits_of_decimal(n, max);
    lemma_decimal_nonempty(n);
    assert(is_digit(decimal(n)[0]));
}

/// Different numbers have different decimal forms.
pub proof fn decimal_is_injective(a: nat, b: nat)
    ensures
        decimal(a) == decimal(b) ==> a == b,
{
    let max = if a < b { b } else { a };
    decimal_reads_back(a, max);
    decimal_reads_back(b, max);
}

// ---- What the primitives promise ----

/// The digits in their order.
pub open spec fn ten_digits() -> Seq<char> {
    seq!['0', '1', '2', '3', '4', '5', '6', '7', '8', '9']
}

/// A number is written digit by digit, the ones last.
pub proof fn numbers_are_written_digit_by_digit(n: nat, d: nat)
    requires
        d < 10,
    ensures
        decimal(d) == seq![ten_digits()[d as int]],
        n > 0 ==> decimal(10 * n + d) == decimal(n).push(ten_digits()[d as int]),
{
    assert(digit_char(d) == ten_digits()[d as int]);
    if n > 0 {
        assert((10 * n + d) / 10 == n && (10 * n + d) % 10 == d);
    }
}

proof fn lemma_digits_err(text: Seq<char>, i: int, value: nat, max: nat, c: char)
    requires
        0 <= i <= text.len(),
        digits_from(text, i, value, max) is Err,
    ensures
        digits_from(text.push(c), i, value, max) == digits_from(text, i, value, max),
    decreases text.len() - i,
{
    if i < text.len() {
        assert(text.push(c)[i] == text[i]);
        if is_digit(text[i]) && value * 10 + digit_value(text[i]) <= max {
            lemma_digits_err(text, i + 1, value * 10 + digit_value(text[i]), max, c);
        }
    }
}

proof fn lemma_digits_bad(text: Seq<char>, i: int, value: nat, max: nat, c: char)
    requires
        0 <= i <= text.len(),
        !is_digit(c),
        digits_from(text, i, value, max) is Ok,
    ensures
        digits_from(text.push(c), i, value, max) == Err::<nat, NumberError>(
            NumberError::InvalidDigit,
        ),
    decreases text.len() - i,
{
    if i < text.len() {
        assert(text.push(c)[i] == text[i]);
        lemma_digits_bad(text, i + 1, value * 10 + digit_value(text[i]), max, c);
    } else {
        assert(text.push(c)[i] == c);
    }
}

/// A number is read digit by digit: a further digit counts ten times what was there before and
/// itself, as far as the type reaches.
pub proof fn numbers_are_read_digit_by_digit(text: Seq<char>, d: nat, max: nat)
    requires
        d < 10,
    ensures
        unsigned(Seq::empty(), max) == Err::<nat, NumberError>(NumberError::Empty),
        unsigned(seq![ten_digits()[d as int]], max) == if d <= max {
            Ok::<nat, NumberError>(d)
        } else {
            Err::<nat, NumberError>(NumberError::TooLarge)
        },
        unsigned(text, max) is Ok ==> unsigned(text.push(ten_digits()[d as int]), max) == ({
            let value = 10 * unsigned(text, max)->Ok_0 + d;
            if value <= max {
                Ok::<nat, NumberError>(value)
            } else {
                Err::<nat, NumberError>(NumberError::TooLarge)
            }
        }),
{
    let c = ten_digits()[d as int];
    assert(is_digit(c) && digit_value(c) == d && c != '+');
    reveal_with_fuel(digits_from, 2);
    if unsigned(text, max) is Ok {
        let start = if text[0] == '+' && text.len() > 1 {
            1int
        } else {
            0
        };
        assert(text[0] != '+' || text.len() > 1);
        lemma_digits_push(text, start, 0, max, c);
        assert(text.push(c)[0] == text[0]);
    }
}

/// Nothing but digits makes a number: a text that is none does not become one by what follows it,
/// and any other character spoils one. Only a plus sign may stand before the digits, and changes
/// nothing.
pub proof fn only_digits_make_a_number(text: Seq<char>, c: char, max: nat)
    ensures
        text.len() > 0 && text != seq!['+'] && unsigned(text, max) is Err ==> unsigned(
            text.push(c),
            max,
        ) == unsigned(text, max),
        !ten_digits().contains(c) && (text.len() == 0 || unsigned(text, max) is Ok) ==> unsigned(
            text.push(c),
            max,
        ) == Err::<nat, NumberError>(NumberError::InvalidDigit),
        text.len() > 0 && text[0] != '+' ==> unsigned(seq!['+'] + text, max) == unsigned(text, max),
{
    assert(text.push(c)[0] == if text.len() > 0 {
        text[0]
    } else {
        c
    });
    if text.len() > 0 && text != seq!['+'] && unsigned(text, max) is Err {
        if text.len() == 1 {
            assert(text =~= seq![text[0]]);
        }
        let start = if text[0] == '+' && text.len() > 1 {
            1int
        } else {
            0
        };
        lemma_digits_err(text, start, 0, max, c);
    }
    if !ten_digits().contains(c) {
        if is_digit(c) {
            assert(ten_digits()[digit_value(c) as int] == c);
        }
        if text.len() == 0 {
            assert(text.push(c) =~= seq![c]);
        } else if unsigned(text, max) is Ok {
            let start = if text[0] == '+' && text.len() > 1 {
                1int
            } else {
                0
            };
            assert(text[0] != '+' || text.len() > 1);
            lemma_digits_bad(text, start, 0, max, c);
        }
    }
    if text.len() > 0 && text[0] != '+' {
        lemma_digits_shift(seq!['+'], text, 0, 0, max);
    }
}

proof fn lemma_digits_shift(before: Seq<char>, text: Seq<char>, i: int, value: nat, max: nat)
    requires
        0 <= i <= text.len(),
    ensures
        digits_from(before + text, before.len() + i, value, max) == digits_from(text, i, value, max),
    decreases text.len() - i,
{
    if i < text.len() {
        assert((before + text)[before.len() + i] == text[i]);
        if is_digit(text[i]) && value * 10 + digit_value(text[i]) <= max {
            lemma_digits_shift(before, text, i + 1, value * 10 + digit_value(text[i]), max);
        }
    }
}

/// A minus sign before the digits makes the number negative, down to the least one of the type; all
/// else is read as without a sign.
pub proof fn a_minus_sign_makes_a_number_negative(text: Seq<char>, min: int, max: nat)
    requires
        min <= 0,
        text.len() > 0,
    ensures
        text[0] != '+' ==> signed(seq!['-'] + text, min, max) == match unsigned(
            text,
            (-min) as nat,
        ) {
            Ok(value) => Ok::<int, NumberError>(-(value as int)),
            Err(NumberError::TooLarge) => Err::<int, NumberError>(NumberError::TooSmall),
            Err(error) => Err::<int, NumberError>(error),
        },
        text[0] != '-' ==> signed(text, min, max) == match unsigned(text, max) {
            Ok(value) => Ok::<int, NumberError>(value as int),
            Err(error) => Err::<int, NumberError>(error),
        },
{
    lemma_digits_shift(seq!['-'], text, 0, 0, (-min) as nat);
}

/// The usual white space counts as such, and nothing else in ASCII does; beyond it, white space is
/// what Unicode calls so.
pub proof fn blanks_are_space_and_letters_are_not(c: char)
    ensures
        is_space(' ') && is_space('\t') && is_space('\n') && is_space('\r'),
        '!' <= c <= '~' ==> !is_space(c),
        c < '\t' ==> !is_space(c),
        '\r' < c < ' ' ==> !is_space(c),
        c > '~' ==> is_space(c) == ({
            let n = c as int;
            n == 0x85 || n == 0xa0 || n == 0x1680 || 0x2000 <= n <= 0x200a || n == 0x2028 || n
                == 0x2029 || n == 0x202f || n == 0x205f || n == 0x3000
        }),
{
}

proof fn lemma_space_end(text: Seq<char>, i: int, at: int)
    requires
        0 <= i <= at <= text.len(),
        forall|j: int| i <= j < at ==> is_space(#[trigger] text[j]),
        at < text.len() ==> !is_space(text[at]),
    ensures
        space_end(text, i) == at,
    decreases at - i,
{
    if i < at {
        assert(is_space(text[i]));
        lemma_space_end(text, i + 1, at);
    }
}

proof fn lemma_last_word_end(text: Seq<char>, end: int, at: int)
    requires
        0 <= at <= end <= text.len(),
        forall|j: int| at <= j < end ==> is_space(#[trigger] text[j]),
        at > 0 ==> !is_space(text[at - 1]),
    ensures
        last_word_end(text, end) == at,
    decreases end - at,
{
    if at < end {
        assert(is_space(text[end - 1]));
        lemma_last_word_end(text, end - 1, at);
    }
}

/// Trimming takes the white space off both ends and leaves all else.
pub proof fn trimming_takes_off_the_ends(before: Seq<char>, text: Seq<char>, after: Seq<char>)
    requires
        forall|i: int| 0 <= i < before.len() ==> is_space(#[trigger] before[i]),
        forall|i: int| 0 <= i < after.len() ==> is_space(#[trigger] after[i]),
        text.len() > 0 ==> !is_space(text[0]) && !is_space(text.last()),
    ensures
        trimmed(before + text + after) == text,
{
    let all = before + text + after;
    assert forall|j: int| 0 <= j < before.len() implies is_space(#[trigger] all[j]) by {
        assert(all[j] == before[j]);
    }
    assert forall|j: int| before.len() + text.len() <= j < all.len() implies is_space(
        #[trigger] all[j],
    ) by {
        assert(all[j] == after[j - before.len() - text.len()]);
    }
    if text.len() > 0 {
        let end = (before.len() + text.len()) as int;
        assert(all[before.len() as int] == text[0]);
        assert(all[end - 1] == text.last());
        lemma_space_end(all, 0, before.len() as int);
        lemma_last_word_end(all, all.len() as int, end);
        assert(all.subrange(before.len() as int, end) =~= text);
    } else {
        lemma_space_end(all, 0, all.len() as int);
        lemma_last_word_end(all, all.len() as int, 0);
        assert(text =~= Seq::empty());
    }
}

proof fn lemma_find_shift(before: Seq<char>, text: Seq<char>, c: char, i: int)
    requires
        0 <= i <= text.len(),
    ensures
        find_from(before + text, c, before.len() + i) == before.len() + find_from(text, c, i),
    decreases text.len() - i,
{
    if i < text.len() {
        assert((before + text)[before.len() + i] == text[i]);
        if text[i] != c {
            lemma_find_shift(before, text, c, i + 1);
        }
    }
}

proof fn lemma_lines_shift(before: Seq<char>, text: Seq<char>, i: int)
    requires
        0 <= i <= text.len(),
    ensures
        lines_from(before + text, before.len() + i) == lines_from(text, i),
    decreases text.len() - i,
{
    let all = before + text;
    if i < text.len() {
        lemma_find_shift(before, text, '\n', i);
        lemma_find_from(text, '\n', i);
        let end = find_from(text, '\n', i);
        if end < text.len() {
            assert(all.subrange(before.len() + i, before.len() + end) =~= text.subrange(i, end));
            lemma_lines_shift(before, text, end + 1);
        } else {
            assert(all.subrange(before.len() + i, all.len() as int) =~= text.subrange(
                i,
                text.len() as int,
            ));
        }
    }
}

/// A text is cut into lines at its line feeds; a carriage return before one belongs to the line's
/// end, and what follows the last one is a line unless it is empty.
pub proof fn lines_end_at_line_feeds(line: Seq<char>, rest: Seq<char>)
    requires
        forall|i: int| 0 <= i < line.len() ==> line[i] != '\n',
    ensures
        lines(Seq::empty()) == Seq::<Seq<char>>::empty(),
        line.len() > 0 ==> lines(line) == seq![line],
        lines(line + seq!['\n'] + rest) == seq![
            if line.len() > 0 && line.last() == '\r' {
                line.drop_last()
            } else {
                line
            },
        ] + lines(rest),
{
    let all = line + seq!['\n'] + rest;
    let end = line.len() as int;
    assert(all[end] == '\n');
    assert forall|j: int| 0 <= j < end implies all[j] != '\n' by {
        assert(all[j] == line[j]);
    }
    lemma_find_from_is(all, '\n', 0, end);
    assert(all.subrange(0, end) =~= line);
    lemma_lines_shift(line + seq!['\n'], rest, 0);
    if line.len() > 0 {
        lemma_find_from(line, '\n', 0);
        assert(line.subrange(0, end) =~= line);
    }
}

proof fn lemma_word_end_before_space(text: Seq<char>, more: Seq<char>, i: int)
    requires
        0 <= i <= text.len(),
        more.len() > 0 && is_space(more[0]),
    ensures
        word_end(text + more, i) == word_end(text, i),
    decreases text.len() - i,
{
    if i < text.len() {
        assert((text + more)[i] == text[i]);
        if !is_space(text[i]) {
            lemma_word_end_before_space(text, more, i + 1);
        }
    } else {
        assert((text + more)[i] == more[0]);
    }
}

proof fn lemma_word_end_shift(before: Seq<char>, text: Seq<char>, i: int)
    requires
        0 <= i <= text.len(),
    ensures
        word_end(before + text, before.len() + i) == before.len() + word_end(text, i),
    decreases text.len() - i,
{
    if i < text.len() {
        assert((before + text)[before.len() + i] == text[i]);
        if !is_space(text[i]) {
            lemma_word_end_shift(before, text, i + 1);
        }
    }
}

proof fn lemma_words_shift(before: Seq<char>, text: Seq<char>, i: int)
    requires
        0 <= i <= text.len(),
    ensures
        words_from(before + text, before.len() + i) == words_from(text, i),
    decreases text.len() - i,
{
    let all = before + text;
    if i < text.len() {
        assert(all[before.len() + i] == text[i]);
        if is_space(text[i]) {
            lemma_words_shift(before, text, i + 1);
        } else {
            lemma_word_end_shift(before, text, i);
            lemma_word_end(text, i);
            let end = word_end(text, i);
            assert(all.subrange(before.len() + i, before.len() + end) =~= text.subrange(i, end));
            lemma_words_shift(before, text, end);
        }
    }
}

proof fn lemma_words_until(text: Seq<char>, c: char, rest: Seq<char>, i: int)
    requires
        0 <= i <= text.len(),
        is_space(c),
    ensures
        words_from(text + (seq![c] + rest), i) == words_from(text, i) + words(rest),
    decreases text.len() - i,
{
    let more = seq![c] + rest;
    let all = text + more;
    if i < text.len() {
        assert(all[i] == text[i]);
        if is_space(text[i]) {
            lemma_words_until(text, c, rest, i + 1);
        } else {
            lemma_word_end_before_space(text, more, i);
            lemma_word_end(text, i);
            let end = word_end(text, i);
            assert(all.subrange(i, end) =~= text.subrange(i, end));
            lemma_words_until(text, c, rest, end);
            assert(words_from(all, i) =~= words_from(text, i) + words(rest));
        }
    } else {
        assert(all[i] == c);
        assert(text + seq![c] + rest =~= all);
        lemma_words_shift(text + seq![c], rest, 0);
        assert(words_from(text, i) + words(rest) =~= words(rest));
    }
}

proof fn lemma_whole_word(word: Seq<char>, i: int)
    requires
        0 <= i <= word.len(),
        forall|j: int| 0 <= j < word.len() ==> !is_space(#[trigger] word[j]),
    ensures
        word_end(word, i) == word.len(),
    decreases word.len() - i,
{
    if i < word.len() {
        assert(!is_space(word[i]));
        lemma_whole_word(word, i + 1);
    }
}

/// White space separates words, and nothing else does.
pub proof fn words_stand_between_space(text: Seq<char>, c: char, rest: Seq<char>)
    requires
        is_space(c),
    ensures
        words(Seq::empty()) == Seq::<Seq<char>>::empty(),
        words(text.push(c) + rest) == words(text) + words(rest),
        text.len() > 0 && (forall|j: int| 0 <= j < text.len() ==> !is_space(#[trigger] text[j]))
            ==> words(text) == seq![text],
{
    lemma_words_until(text, c, rest, 0);
    assert(text.push(c) + rest =~= text + (seq![c] + rest));
    if text.len() > 0 && (forall|j: int|
        0 <= j < text.len() ==> !is_space(#[trigger] text[j])) {
        assert(!is_space(text[0]));
        lemma_whole_word(text, 0);
        assert(text.subrange(0, text.len() as int) =~= text);
        assert(words_from(text, text.len() as int) =~= Seq::empty());
        assert(words(text) =~= seq![text]);
    }
}

/// A character is found where it first stands; the length tells that it stands nowhere.
pub proof fn the_first_place_is_found(text: Seq<char>, c: char, i: int, at: int)
    requires
        0 <= i <= at <= text.len(),
        at < text.len() ==> text[at] == c,
        forall|j: int| i <= j < at ==> text[j] != c,
    ensures
        find_from(text, c, i) == at,
{
    lemma_find_from(text, c, i);
}

/// A pattern is found in a text just when the text is made of something, the pattern and something.
pub proof fn patterns_are_found_anywhere(before: Seq<char>, pattern: Seq<char>, after: Seq<char>)
    ensures
        matches_at(before + pattern + after, pattern, before.len() as int),
        contains(before + pattern + after, pattern),
        matches_at(pattern + after, pattern, 0),
{
    let all = before + pattern + after;
    assert(all.subrange(before.len() as int, (before.len() + pattern.len()) as int) =~= pattern);
    assert((pattern + after).subrange(0, pattern.len() as int) =~= pattern);
    assert(matches_at(all, pattern, before.len() as int));
}

/// What is found in a text stands there.
pub proof fn found_patterns_stand_there(text: Seq<char>, pattern: Seq<char>) -> (r: (
    Seq<char>,
    Seq<char>,
))
    requires
        contains(text, pattern),
    ensures
        text == r.0 + pattern + r.1,
{
    let i = choose|i: int| matches_at(text, pattern, i);
    let before = text.take(i);
    let after = text.skip(i + pattern.len());
    assert forall|j: int| 0 <= j < text.len() implies text[j] == (before + pattern + after)[j] by {
        if i <= j < i + pattern.len() {
            assert(text.subrange(i, i + pattern.len())[j - i] == text[j]);
        }
    }
    assert(text =~= before + pattern + after);
    (before, after)
}

proof fn lemma_matches_shift(before: Seq<char>, text: Seq<char>, pattern: Seq<char>, i: int)
    requires
        0 <= i,
    ensures
        matches_at(before + text, pattern, before.len() + i) == matches_at(text, pattern, i),
{
    if i + pattern.len() <= text.len() {
        assert((before + text).subrange(before.len() + i, before.len() + i + pattern.len())
            =~= text.subrange(i, i + pattern.len()));
    }
}

proof fn lemma_replaced_shift(
    before: Seq<char>,
    text: Seq<char>,
    pattern: Seq<char>,
    by: Seq<char>,
    i: int,
)
    requires
        0 <= i <= text.len(),
    ensures
        replaced_from(before + text, pattern, by, before.len() + i) == replaced_from(
            text,
            pattern,
            by,
            i,
        ),
    decreases text.len() - i,
{
    if i < text.len() {
        lemma_matches_shift(before, text, pattern, i);
        assert((before + text)[before.len() + i] == text[i]);
        if pattern.len() > 0 && matches_at(text, pattern, i) {
            lemma_replaced_shift(before, text, pattern, by, i + pattern.len());
        } else {
            lemma_replaced_shift(before, text, pattern, by, i + 1);
        }
    }
}

proof fn lemma_replaced_after(
    text: Seq<char>,
    pattern: Seq<char>,
    by: Seq<char>,
    i: int,
    at: int,
)
    requires
        0 <= i <= at <= text.len(),
        forall|j: int| i <= j < at ==> !matches_at(text, pattern, j),
    ensures
        replaced_from(text, pattern, by, i) == text.subrange(i, at) + replaced_from(
            text,
            pattern,
            by,
            at,
        ),
    decreases at - i,
{
    if i < at {
        lemma_replaced_after(text, pattern, by, i + 1, at);
        assert(!matches_at(text, pattern, i));
        assert(text.subrange(i, at) =~= seq![text[i]] + text.subrange(i + 1, at));
        assert(seq![text[i]] + (text.subrange(i + 1, at) + replaced_from(text, pattern, by, at))
            =~= text.subrange(i, at) + replaced_from(text, pattern, by, at));
    } else {
        assert(text.subrange(i, at) + replaced_from(text, pattern, by, at) =~= replaced_from(
            text,
            pattern,
            by,
            at,
        ));
    }
}

/// The first occurrence of a pattern is replaced, and then those in what follows it; a text in which
/// the pattern does not occur stays as it is.
pub proof fn occurrences_are_replaced_from_the_left(
    before: Seq<char>,
    pattern: Seq<char>,
    after: Seq<char>,
    by: Seq<char>,
)
    requires
        pattern.len() > 0,
        forall|j: int|
            0 <= j < before.len() ==> !matches_at(before + pattern + after, pattern, j),
    ensures
        replaced(before + pattern + after, pattern, by) == before + by + replaced(
            after,
            pattern,
            by,
        ),
        !contains(before, pattern) ==> replaced(before, pattern, by) == before,
{
    let all = before + pattern + after;
    let at = before.len() as int;
    lemma_replaced_after(all, pattern, by, 0, at);
    assert(all.subrange(0, at) =~= before);
    patterns_are_found_anywhere(before, pattern, after);
    lemma_replaced_shift(before + pattern, after, pattern, by, 0);
    assert(before + (by + replaced(after, pattern, by)) =~= before + by + replaced(
        after,
        pattern,
        by,
    ));
    if !contains(before, pattern) {
        lemma_replaced_after(before, pattern, by, 0, at);
        assert(before.subrange(0, at) + replaced_from(before, pattern, by, at) =~= before);
    }
}

/// Making capitals small changes the letters from A to Z, each into its small form, and nothing else.
pub proof fn capitals_are_made_small(text: Seq<char>, i: int)
    requires
        0 <= i < text.len(),
    ensures
        lowered(text).len() == text.len(),
        'A' <= text[i] <= 'Z' ==> 'a' <= lowered(text)[i] <= 'z' && lowered(text)[i] as int
            - text[i] as int == 32,
        !('A' <= text[i] <= 'Z') ==> lowered(text)[i] == text[i],
{
}

/// Padding keeps the text and adds nothing but spaces behind it, up to the width and not beyond.
pub proof fn padding_fills_up_with_spaces(text: Seq<char>, width: nat)
    ensures
        padded(text, width).len() == if text.len() < width {
            width
        } else {
            text.len()
        },
        padded(text, width).take(text.len() as int) == text,
        forall|i: int|
            text.len() <= i < padded(text, width).len() ==> #[trigger] padded(text, width)[i] == ' ',
{
    assert(padded(text, width).take(text.len() as int) =~= text);
}

/// A number that is filled with zeros ends in its digits and has nothing but zeros before them, up
/// to the width and not beyond; a negative one has its sign before the zeros.
pub proof fn numbers_are_filled_up_with_zeros(n: nat, width: nat)
    ensures
        ({
            let digits = decimal(n);
            let text = zero_padded(n, width);
            &&& text.len() == if digits.len() < width {
                width
            } else {
                digits.len()
            }
            &&& text.skip(text.len() - digits.len()) == digits
            &&& forall|i: int| 0 <= i < text.len() - digits.len() ==> #[trigger] text[i] == '0'
        }),
        signed_padded(n as int, width) == zero_padded(n, width),
        n > 0 && width > 0 ==> signed_padded(-(n as int), width) == seq!['-'] + zero_padded(
            n,
            (width - 1) as nat,
        ),
        n > 0 ==> signed_padded(-(n as int), 0) == seq!['-'] + decimal(n),
{
    let digits = decimal(n);
    let text = zero_padded(n, width);
    assert(text.skip(text.len() - digits.len()) =~= digits);
    assert(zero_padded(n, 0) =~= digits);
}

/// Two digits stand for a number below a hundred that is filled up to two.
pub proof fn two_digits(tens: nat, ones: nat)
    requires
        tens < 10,
        ones < 10,
    ensures
        zero_padded(10 * tens + ones, 2) == seq![
            ten_digits()[tens as int],
            ten_digits()[ones as int],
        ],
{
    numbers_are_written_digit_by_digit(tens, ones);
    numbers_are_written_digit_by_digit(1, tens);
    if tens == 0 {
        assert(decimal(ones).len() == 1);
    } else {
        assert(decimal(tens).len() == 1);
    }
    assert(zero_padded(10 * tens + ones, 2) =~= seq![
        ten_digits()[tens as int],
        ten_digits()[ones as int],
    ]);
}

/// Joining puts the separator between each two pieces, and nowhere else.
pub proof fn joining_separates_the_pieces(pieces: Seq<Seq<char>>, last: Seq<char>, by: Seq<char>)
    ensures
        joined(Seq::empty(), by) == Seq::<char>::empty(),
        joined(seq![last], by) == last,
        pieces.len() > 0 ==> joined(pieces.push(last), by) == joined(pieces, by) + by + last,
{
    if pieces.len() > 0 {
        assert(pieces.push(last).drop_last() =~= pieces);
    }
}

/// The views of lists and options hold what is in them.
pub proof fn views_of_texts_are_faithful(
    list: Seq<String>,
    rows: Seq<Vec<char>>,
    value: Option<String>,
    i: int,
)
    ensures
        strings(list).len() == list.len(),
        0 <= i < list.len() ==> strings(list)[i] == list[i]@,
        pieces(rows).len() == rows.len(),
        0 <= i < rows.len() ==> pieces(rows)[i] == rows[i]@,
        optional(value) is Some == value is Some,
        value is Some ==> optional(value)->0 == value->0@,
{
}

} // verus!

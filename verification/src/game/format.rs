//! Scanning the text of a level: whitespace, tokens, numbers and the marker
//! that opens the grid.

use vstd::prelude::*;

verus! {

/// Whether `c` is white space in the sense of Unicode's `White_Space`
/// property.
pub open spec fn is_whitespace(c: char) -> bool {
    let n = c as u32;
    ||| 0x09 <= n <= 0x0D
    ||| n == 0x20
    ||| n == 0x85
    ||| n == 0xA0
    ||| n == 0x1680
    ||| 0x2000 <= n <= 0x200A
    ||| n == 0x2028
    ||| n == 0x2029
    ||| n == 0x202F
    ||| n == 0x205F
    ||| n == 0x3000
}

/// Tests a character for white space.
pub fn whitespace(c: char) -> (b: bool)
    ensures
        b == is_whitespace(c),
{
    let n: u32 = c as u32;
    (0x09 <= n && n <= 0x0D) || n == 0x20 || n == 0x85 || n == 0xA0 || n == 0x1680 || (0x2000 <= n
        && n <= 0x200A) || n == 0x2028 || n == 0x2029 || n == 0x202F || n == 0x205F || n == 0x3000
}

/// The characters of a text, one by one.
pub fn chars_of(text: &str) -> (chars: Vec<char>)
    ensures
        chars@ == text@,
{
    let mut chars: Vec<char> = Vec::new();
    for c in it: text.chars()
        invariant
            chars@ == it.seq().take(it.index() as int),
            it.seq() == text@,
    {
        chars.push(c);
    }
    chars
}

/// The length of the longest run of characters other than white space that
/// starts at `i`.
pub open spec fn word_len(s: Seq<char>, i: int) -> nat
    decreases s.len() - i,
{
    if 0 <= i < s.len() && !is_whitespace(s[i]) {
        1 + word_len(s, i + 1)
    } else {
        0
    }
}

/// The tokens of `s` from index `i` on: the maximal runs of characters other
/// than white space, in the order in which they stand.
pub open spec fn tokens_from(s: Seq<char>, i: int) -> Seq<Seq<char>>
    decreases s.len() - i,
{
    if i < 0 || i >= s.len() {
        Seq::empty()
    } else if is_whitespace(s[i]) {
        tokens_from(s, i + 1)
    } else {
        proof {
            lemma_word_len(s, i);
        }
        seq![s.subrange(i, i + word_len(s, i))] + tokens_from(s, i + word_len(s, i))
    }
}

/// The text split at white space.
pub open spec fn tokens(s: Seq<char>) -> Seq<Seq<char>> {
    tokens_from(s, 0)
}

/// A run that `word_len` measures lies within the text and holds no white
/// space, and what follows it, if anything does, is white space.
pub proof fn lemma_word_len(s: Seq<char>, i: int)
    requires
        0 <= i <= s.len(),
    ensures
        i + word_len(s, i) <= s.len(),
        forall|j: int| i <= j < i + word_len(s, i) ==> !is_whitespace(#[trigger] s[j]),
        i + word_len(s, i) < s.len() ==> is_whitespace(s[i + word_len(s, i)]),
    decreases s.len() - i,
{
    if i < s.len() && !is_whitespace(s[i]) {
        lemma_word_len(s, i + 1);
    }
}

/// Whether `token` holds a character and no white space.
pub open spec fn is_word(token: Seq<char>) -> bool {
    token.len() > 0 && forall|j: int| 0 <= j < token.len() ==> !is_whitespace(#[trigger] token[j])
}

/// Every token holds a character, and none holds white space.
pub proof fn lemma_tokens_are_words(s: Seq<char>, i: int)
    requires
        0 <= i,
    ensures
        forall|k: int|
            0 <= k < tokens_from(s, i).len() ==> is_word(#[trigger] tokens_from(s, i)[k]),
    decreases s.len() - i,
{
    if i < s.len() {
        if is_whitespace(s[i]) {
            lemma_tokens_are_words(s, i + 1);
            assert(tokens_from(s, i) == tokens_from(s, i + 1));
        } else {
            lemma_word_len(s, i);
            let end = i + word_len(s, i);
            let word = s.subrange(i, end);
            lemma_tokens_are_words(s, end);
            assert(is_word(word)) by {
                assert forall|j: int| 0 <= j < word.len() implies !is_whitespace(
                    #[trigger] word[j],
                ) by {
                    assert(word[j] == s[i + j]);
                }
            }
            assert forall|k: int| 0 <= k < tokens_from(s, i).len() implies is_word(
                #[trigger] tokens_from(s, i)[k],
            ) by {
                if k == 0 {
                    assert(tokens_from(s, i)[0] == word);
                } else {
                    assert(tokens_from(s, i)[k] == tokens_from(s, end)[k - 1]);
                }
            }
        }
    } else {
        assert(tokens_from(s, i).len() == 0);
    }
}

/// The first token at or after `from`, as the range of indices it fills:
/// it starts at the first character from `from` on that is no white space
/// and ends before the next white space. There is none where only white
/// space is left.
pub fn next_token(chars: &Vec<char>, from: usize) -> (token: Option<(usize, usize)>)
    requires
        from <= chars.len(),
    ensures
        match token {
            Some((start, end)) => {
                &&& from <= start < end <= chars.len()
                &&& forall|j: int| from <= j < start ==> is_whitespace(#[trigger] chars@[j])
                &&& end - start == word_len(chars@, start as int)
                &&& tokens_from(chars@, from as int) == seq![
                    chars@.subrange(start as int, end as int),
                ] + tokens_from(chars@, end as int)
            },
            None => {
                &&& forall|j: int| from <= j < chars.len() ==> is_whitespace(#[trigger] chars@[j])
                &&& tokens_from(chars@, from as int) == Seq::<Seq<char>>::empty()
            },
        },
{
    let mut start = from;
    while start < chars.len() && whitespace(chars[start])
        invariant
            from <= start <= chars.len(),
            forall|j: int| from <= j < start ==> is_whitespace(#[trigger] chars@[j]),
            tokens_from(chars@, from as int) == tokens_from(chars@, start as int),
        decreases chars.len() - start,
    {
        start += 1;
    }
    if start >= chars.len() {
        return None;
    }
    let mut end = start + 1;
    while end < chars.len() && !whitespace(chars[end])
        invariant
            start < end <= chars.len(),
            !is_whitespace(chars@[start as int]),
            word_len(chars@, start as int) == (end - start) + word_len(chars@, end as int),
        decreases chars.len() - end,
    {
        end += 1;
    }
    Some((start, end))
}

/// Whether `c` is one of the ten decimal digits.
pub open spec fn is_digit(c: char) -> bool {
    '0' <= c <= '9'
}

/// Whether `s` holds decimal digits only.
pub open spec fn all_digits(s: Seq<char>) -> bool {
    forall|i: int| 0 <= i < s.len() ==> is_digit(#[trigger] s[i])
}

/// The number that a run of decimal digits writes.
pub open spec fn decimal(digits: Seq<char>) -> int
    decreases digits.len(),
{
    if digits.len() == 0 {
        0
    } else {
        10 * decimal(digits.drop_last()) + (digits.last() as int - '0' as int)
    }
}

/// The number that `digits` writes, where it is one or more decimal digits
/// and the number is at most `limit`.
pub open spec fn bounded_decimal(digits: Seq<char>, limit: int) -> Option<int> {
    if digits.len() > 0 && all_digits(digits) && decimal(digits) <= limit {
        Some(decimal(digits))
    } else {
        None
    }
}

/// What a token says as an unsigned 32-bit number: an optional `+`, then
/// decimal digits.
pub open spec fn u32_of(token: Seq<char>) -> Option<u32> {
    let digits = if token.len() > 0 && token[0] == '+' {
        token.skip(1)
    } else {
        token
    };
    match bounded_decimal(digits, u32::MAX as int) {
        Some(n) => Some(n as u32),
        None => None,
    }
}

/// What a token says as a signed 64-bit number: an optional `+` or `-`,
/// then decimal digits.
pub open spec fn i64_of(token: Seq<char>) -> Option<i64> {
    if token.len() > 0 && token[0] == '-' {
        match bounded_decimal(token.skip(1), -(i64::MIN as int)) {
            Some(n) => Some((-n) as i64),
            None => None,
        }
    } else {
        let digits = if token.len() > 0 && token[0] == '+' {
            token.skip(1)
        } else {
            token
        };
        match bounded_decimal(digits, i64::MAX as int) {
            Some(n) => Some(n as i64),
            None => None,
        }
    }
}

/// A beginning of a run of digits writes no more than the whole run.
pub proof fn lemma_decimal_prefix(digits: Seq<char>, k: int)
    requires
        all_digits(digits),
        0 <= k <= digits.len(),
    ensures
        0 <= decimal(digits.take(k)) <= decimal(digits),
    decreases digits.len(),
{
    if k == digits.len() {
        assert(digits.take(k) == digits);
        if digits.len() > 0 {
            lemma_decimal_prefix(digits.drop_last(), k - 1);
            assert(is_digit(digits[digits.len() - 1]));
        }
    } else {
        lemma_decimal_prefix(digits.drop_last(), k);
        assert(digits.drop_last().take(k) == digits.take(k));
        assert(is_digit(digits[digits.len() - 1]));
    }
}

/// Reads the characters from `start` up to `end` as a decimal number of at
/// most `limit`.
pub fn read_decimal(chars: &Vec<char>, start: usize, end: usize, limit: u64) -> (value: Option<u64>)
    requires
        start <= end <= chars.len(),
    ensures
        match value {
            Some(n) => bounded_decimal(chars@.subrange(start as int, end as int), limit as int)
                == Some(n as int),
            None => bounded_decimal(chars@.subrange(start as int, end as int), limit as int)
                is None,
        },
{
    let ghost digits = chars@.subrange(start as int, end as int);
    if start == end {
        return None;
    }
    let mut total: u64 = 0;
    let mut at = start;
    while at < end
        invariant
            start <= at <= end <= chars.len(),
            digits == chars@.subrange(start as int, end as int),
            all_digits(digits.take(at - start)),
            total == decimal(digits.take(at - start)),
            total <= limit,
        decreases end - at,
    {
        let c = chars[at];
        let ghost seen = digits.take(at - start);
        let ghost next = digits.take(at - start + 1);
        assert(next.drop_last() == seen);
        assert(next.last() == c);
        if !('0' <= c && c <= '9') {
            assert(!is_digit(digits[at - start]));
            return None;
        }
        let digit: u128 = (c as u32 - '0' as u32) as u128;
        assert(all_digits(next)) by {
            assert forall|i: int| 0 <= i < next.len() implies is_digit(#[trigger] next[i]) by {
                if i < seen.len() {
                    assert(next[i] == seen[i]);
                }
            }
        }
        let longer: u128 = total as u128 * 10 + digit;
        if longer > limit as u128 {
            proof {
                if all_digits(digits) {
                    lemma_decimal_prefix(digits, at - start + 1);
                }
            }
            return None;
        }
        total = longer as u64;
        at += 1;
    }
    assert(digits.take(end - start) == digits);
    Some(total)
}

/// Reads the characters from `start` up to `end` as an unsigned 32-bit
/// number.
pub fn read_u32(chars: &Vec<char>, start: usize, end: usize) -> (value: Option<u32>)
    requires
        start <= end <= chars.len(),
    ensures
        value == u32_of(chars@.subrange(start as int, end as int)),
{
    let ghost token = chars@.subrange(start as int, end as int);
    let from = if start < end && chars[start] == '+' {
        start + 1
    } else {
        start
    };
    assert(chars@.subrange(from as int, end as int) == if token.len() > 0 && token[0] == '+' {
        token.skip(1)
    } else {
        token
    });
    match read_decimal(chars, from, end, 0xffff_ffff) {
        Some(n) => Some(n as u32),
        None => None,
    }
}

/// Reads the characters from `start` up to `end` as a signed 64-bit number.
pub fn read_i64(chars: &Vec<char>, start: usize, end: usize) -> (value: Option<i64>)
    requires
        start <= end <= chars.len(),
    ensures
        value == i64_of(chars@.subrange(start as int, end as int)),
{
    let ghost token = chars@.subrange(start as int, end as int);
    if start < end && chars[start] == '-' {
        assert(chars@.subrange(start + 1, end as int) == token.skip(1));
        match read_decimal(chars, start + 1, end, 0x8000_0000_0000_0000) {
            Some(n) => {
                if n == 0x8000_0000_0000_0000 {
                    Some(i64::MIN)
                } else {
                    Some(-(n as i64))
                }
            },
            None => None,
        }
    } else {
        let from = if start < end && chars[start] == '+' {
            start + 1
        } else {
            start
        };
        assert(chars@.subrange(from as int, end as int) == if token.len() > 0 && token[0] == '+' {
            token.skip(1)
        } else {
            token
        });
        match read_decimal(chars, from, end, 0x7fff_ffff_ffff_ffff) {
            Some(n) => Some(n as i64),
            None => None,
        }
    }
}

/// Whether the three letters `MAP` stand in `s` from index `i` on.
pub open spec fn marker_at(s: Seq<char>, i: int) -> bool {
    0 <= i && i + 3 <= s.len() && s[i] == 'M' && s[i + 1] == 'A' && s[i + 2] == 'P'
}

/// Whether the marker `MAP` occurs in `s`.
pub open spec fn has_marker(s: Seq<char>) -> bool {
    exists|i: int| marker_at(s, i)
}

/// Whether the first occurrence of the marker in `s` is the one at `i`.
pub open spec fn is_first_marker(s: Seq<char>, i: int) -> bool {
    marker_at(s, i) && forall|j: int| 0 <= j < i ==> !marker_at(s, j)
}

/// Where the marker first occurs in a text that holds it.
pub open spec fn first_marker(s: Seq<char>) -> int
    recommends
        has_marker(s),
{
    choose|i: int| is_first_marker(s, i)
}

/// What stands between the first occurrence of the marker and the next
/// one, or the end of the text where there is no other.
pub open spec fn body_text(s: Seq<char>) -> Seq<char>
    recommends
        has_marker(s),
{
    let rest = s.skip(first_marker(s) + 3);
    if has_marker(rest) {
        rest.take(first_marker(rest))
    } else {
        rest
    }
}

/// `s` without the white space at its beginning.
pub open spec fn trim_start(s: Seq<char>) -> Seq<char>
    decreases s.len(),
{
    if s.len() > 0 && is_whitespace(s.first()) {
        trim_start(s.drop_first())
    } else {
        s
    }
}

/// `s` without the white space at its end.
pub open spec fn trim_end(s: Seq<char>) -> Seq<char>
    decreases s.len(),
{
    if s.len() > 0 && is_whitespace(s.last()) {
        trim_end(s.drop_last())
    } else {
        s
    }
}

/// `s` without the white space at either end.
pub open spec fn trim(s: Seq<char>) -> Seq<char> {
    trim_end(trim_start(s))
}

/// What `trim_start` leaves does not begin with white space.
pub proof fn lemma_trim_start(s: Seq<char>)
    ensures
        trim_start(s).len() > 0 ==> !is_whitespace(trim_start(s).first()),
    decreases s.len(),
{
    if s.len() > 0 && is_whitespace(s.first()) {
        lemma_trim_start(s.drop_first());
    }
}

/// What `trim_end` leaves does not end with white space, and begins as
/// the text did.
pub proof fn lemma_trim_end(s: Seq<char>)
    ensures
        trim_end(s).len() > 0 ==> !is_whitespace(trim_end(s).last()),
        trim_end(s).len() > 0 ==> trim_end(s).first() == s.first(),
    decreases s.len(),
{
    if s.len() > 0 && is_whitespace(s.last()) {
        lemma_trim_end(s.drop_last());
    }
}

/// What `trim` leaves neither begins nor ends with white space.
pub proof fn lemma_trim(s: Seq<char>)
    ensures
        trim(s).len() > 0 ==> !is_whitespace(trim(s).first()) && !is_whitespace(trim(s).last()),
{
    lemma_trim_start(s);
    lemma_trim_end(trim_start(s));
}

/// Whether `c` is a line feed or a carriage return.
pub open spec fn is_line_break(c: char) -> bool {
    c == '\n' || c == '\r'
}

/// `s` without its line feeds and carriage returns.
pub open spec fn without_line_breaks(s: Seq<char>) -> Seq<char> {
    s.filter(|c: char| !is_line_break(c))
}

/// The characters of the grid that a level's text describes, row after
/// row.
pub open spec fn grid_text(s: Seq<char>) -> Seq<char>
    recommends
        has_marker(s),
{
    without_line_breaks(trim(body_text(s)))
}

/// The grid of a level holds no line break.
pub proof fn lemma_grid_has_no_line_break(s: Seq<char>)
    ensures
        forall|i: int| 0 <= i < grid_text(s).len() ==> !is_line_break(#[trigger] grid_text(s)[i]),
{
    let keep = |c: char| !is_line_break(c);
    let body = trim(body_text(s));
    assert forall|i: int| 0 <= i < grid_text(s).len() implies !is_line_break(
        #[trigger] grid_text(s)[i],
    ) by {
        body.lemma_filter_pred(keep, i);
    }
}

/// The first occurrence of the marker at or after `from`.
pub fn find_marker(chars: &Vec<char>, from: usize) -> (found: Option<usize>)
    requires
        from <= chars.len(),
    ensures
        match found {
            Some(i) => from <= i && marker_at(chars@, i as int) && forall|j: int|
                from <= j < i ==> !marker_at(chars@, j),
            None => forall|j: int| from <= j ==> !marker_at(chars@, j),
        },
{
    let mut at = from;
    while chars.len() - at >= 3
        invariant
            from <= at <= chars.len(),
            forall|j: int| from <= j < at ==> !marker_at(chars@, j),
        decreases chars.len() - at,
    {
        if chars[at] == 'M' && chars[at + 1] == 'A' && chars[at + 2] == 'P' {
            return Some(at);
        }
        at += 1;
    }
    None
}

/// The marker occurs in what follows index `k` of `s` exactly where it
/// occurs in `s` itself, `k` places further on.
pub proof fn lemma_marker_after(s: Seq<char>, k: int)
    requires
        0 <= k <= s.len(),
    ensures
        forall|j: int| marker_at(s.skip(k), j) <==> (0 <= j && marker_at(s, k + j)),
{
    assert forall|j: int| marker_at(s.skip(k), j) <==> (0 <= j && marker_at(s, k + j)) by {
        if 0 <= j && j + 3 <= s.len() - k {
            assert(s.skip(k)[j] == s[k + j]);
            assert(s.skip(k)[j + 1] == s[k + j + 1]);
            assert(s.skip(k)[j + 2] == s[k + j + 2]);
        }
    }
}

/// The range of indices that the body of the level fills: from the end of
/// the first marker to the next marker, or to the end of the text.
pub fn body_range(chars: &Vec<char>) -> (range: (usize, usize))
    requires
        has_marker(chars@),
    ensures
        range.0 == first_marker(chars@) + 3,
        range.0 <= range.1 <= chars.len(),
        chars@.subrange(range.0 as int, range.1 as int) == body_text(chars@),
{
    let ghost s = chars@;
    let first = match find_marker(chars, 0) {
        Some(i) => i,
        None => {
            assert(false);
            0
        },
    };
    assert(is_first_marker(s, first as int));
    assert(first_marker(s) == first);
    assert(first + 3 <= chars.len());
    let start = first + 3;
    let ghost rest = s.skip(start as int);
    proof {
        lemma_marker_after(s, start as int);
    }
    match find_marker(chars, start) {
        Some(next) => {
            assert(marker_at(rest, next - start));
            assert(is_first_marker(rest, next - start));
            assert(first_marker(rest) == next - start);
            assert(rest.take(next - start) == s.subrange(start as int, next as int));
            (start, next)
        },
        None => {
            assert(!has_marker(rest));
            assert(rest == s.subrange(start as int, s.len() as int));
            (start, chars.len())
        },
    }
}

/// Tells whether a text holds the marker that opens the grid.
pub fn holds_marker(chars: &Vec<char>) -> (held: bool)
    ensures
        held == has_marker(chars@),
{
    find_marker(chars, 0).is_some()
}

/// The range of indices that is left of the range from `start` up to `end`
/// once the white space at either end is taken off.
pub fn trim_range(chars: &Vec<char>, start: usize, end: usize) -> (range: (usize, usize))
    requires
        start <= end <= chars.len(),
    ensures
        start <= range.0 <= range.1 <= end,
        forall|j: int| start <= j < range.0 ==> is_whitespace(#[trigger] chars@[j]),
        forall|j: int| range.1 <= j < end ==> is_whitespace(#[trigger] chars@[j]),
        range.0 < end ==> !is_whitespace(chars@[range.0 as int]),
        range.0 < range.1 ==> !is_whitespace(chars@[range.1 - 1]),
        chars@.subrange(range.0 as int, range.1 as int) == trim(
            chars@.subrange(start as int, end as int),
        ),
{
    let ghost s = chars@;
    let mut low = start;
    while low < end && whitespace(chars[low])
        invariant
            start <= low <= end <= chars.len(),
            s == chars@,
            forall|j: int| start <= j < low ==> is_whitespace(#[trigger] s[j]),
            trim_start(s.subrange(start as int, end as int)) == trim_start(
                s.subrange(low as int, end as int),
            ),
        decreases end - low,
    {
        assert(s.subrange(low as int, end as int).drop_first() == s.subrange(low + 1, end as int));
        low += 1;
    }
    assert(trim_start(s.subrange(start as int, end as int)) == s.subrange(low as int, end as int));
    let mut high = end;
    while low < high && whitespace(chars[high - 1])
        invariant
            low <= high <= end <= chars.len(),
            s == chars@,
            forall|j: int| high <= j < end ==> is_whitespace(#[trigger] s[j]),
            trim_end(s.subrange(low as int, end as int)) == trim_end(
                s.subrange(low as int, high as int),
            ),
        decreases high - low,
    {
        assert(s.subrange(low as int, high as int).drop_last() == s.subrange(low as int, high - 1));
        high -= 1;
    }
    assert(trim_end(s.subrange(low as int, end as int)) == s.subrange(low as int, high as int));
    (low, high)
}

/// Copies the characters from `start` up to `end`, leaving out line feeds
/// and carriage returns.
pub fn copy_without_line_breaks(chars: &Vec<char>, start: usize, end: usize) -> (kept: Vec<char>)
    requires
        start <= end <= chars.len(),
    ensures
        kept@ == without_line_breaks(chars@.subrange(start as int, end as int)),
{
    let ghost source = chars@.subrange(start as int, end as int);
    let ghost keep = |c: char| !is_line_break(c);
    let mut kept: Vec<char> = Vec::new();
    let mut at = start;
    proof {
        reveal(Seq::filter);
    }
    while at < end
        invariant
            start <= at <= end <= chars.len(),
            source == chars@.subrange(start as int, end as int),
            keep == |c: char| !is_line_break(c),
            kept@ == source.take(at - start).filter(keep),
        decreases end - at,
    {
        let c = chars[at];
        proof {
            reveal(Seq::filter);
            let next = source.take(at - start + 1);
            assert(next.drop_last() == source.take(at - start));
            assert(next.last() == c);
        }
        if c != '\n' && c != '\r' {
            kept.push(c);
        }
        at += 1;
    }
    assert(source.take(end - start) == source);
    kept
}

/// The characters of the grid that a level's text describes.
pub fn grid_of(chars: &Vec<char>) -> (grid: Vec<char>)
    requires
        has_marker(chars@),
    ensures
        grid@ == grid_text(chars@),
{
    let (start, end) = body_range(chars);
    let (low, high) = trim_range(chars, start, end);
    copy_without_line_breaks(chars, low, high)
}

} // verus!

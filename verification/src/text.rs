//! Text: order of strings, words, white space, decimal numerals.

use vstd::prelude::*;
use vstd::string::*;

verus! {

/// Lexicographic order of strings by code point.
pub open spec fn precedes(a: Seq<char>, b: Seq<char>) -> bool
    decreases a.len(),
{
    if b.len() == 0 {
        false
    } else if a.len() == 0 {
        true
    } else if a[0] != b[0] {
        (a[0] as int) < (b[0] as int)
    } else {
        precedes(a.skip(1), b.skip(1))
    }
}

/// The decimal numeral of `n`, without leading zeros.
pub open spec fn decimal(n: nat) -> Seq<char>
    decreases n,
{
    if n < 10 {
        seq![digit(n)]
    } else {
        decimal(n / 10).push(digit(n % 10))
    }
}

/// The digit that stands for `n`.
pub open spec fn digit(n: nat) -> char {
    (48 + n) as char
}

/// The characters of a string.
pub fn chars_of(s: &str) -> (chars: Vec<char>)
    ensures
        chars@ == s@,
{
    let mut chars: Vec<char> = Vec::new();
    for c in it: s.chars()
        invariant
            it.seq() == s@,
            chars@ == s@.take(it.index() as int),
    {
        chars.push(c);
    }
    assert(s@.take(s@.len() as int) == s@);
    chars
}

/// Whether `a` comes before `b` in lexicographic order.
pub fn comes_before(a: &str, b: &str) -> (answer: bool)
    ensures
        answer == precedes(a@, b@),
{
    let x = chars_of(a);
    let y = chars_of(b);
    let mut i: usize = 0;
    assert(x@.skip(0) == x@);
    assert(y@.skip(0) == y@);
    while i < x.len() && i < y.len()
        invariant
            i <= x.len(),
            i <= y.len(),
            x@ == a@,
            y@ == b@,
            precedes(x@, y@) == precedes(x@.skip(i as int), y@.skip(i as int)),
        decreases x.len() - i,
    {
        if x[i] != y[i] {
            return x[i] < y[i];
        }
        assert(x@.skip(i as int).skip(1) == x@.skip(i + 1));
        assert(y@.skip(i as int).skip(1) == y@.skip(i + 1));
        i = i + 1;
    }
    i < y.len()
}

/// Nothing precedes itself.
pub proof fn lemma_precedes_irreflexive(a: Seq<char>)
    ensures
        !precedes(a, a),
    decreases a.len(),
{
    if a.len() > 0 {
        lemma_precedes_irreflexive(a.skip(1));
    }
}

/// The order is transitive.
pub proof fn lemma_precedes_transitive(a: Seq<char>, b: Seq<char>, c: Seq<char>)
    requires
        precedes(a, b),
        precedes(b, c),
    ensures
        precedes(a, c),
    decreases a.len(),
{
    if a.len() > 0 && a[0] == b[0] && b[0] == c[0] {
        lemma_precedes_transitive(a.skip(1), b.skip(1), c.skip(1));
    }
}

/// Of two different strings one precedes the other.
pub proof fn lemma_precedes_total(a: Seq<char>, b: Seq<char>)
    requires
        a != b,
    ensures
        precedes(a, b) || precedes(b, a),
    decreases a.len(),
{
    if a.len() > 0 && b.len() > 0 && a[0] == b[0] {
        if a.skip(1) == b.skip(1) {
            assert(a =~= seq![a[0]] + a.skip(1));
            assert(b =~= seq![b[0]] + b.skip(1));
        }
        lemma_precedes_total(a.skip(1), b.skip(1));
    } else if a.len() == 0 && b.len() == 0 {
        assert(a =~= b);
    }
}

/// Appends one digit.
pub(crate) fn append_digit(text: &mut String, n: u64)
    requires
        n < 10,
    ensures
        final(text)@ == old(text)@.push(digit(n as nat)),
{
    proof {
        reveal_strlit("0");
        reveal_strlit("1");
        reveal_strlit("2");
        reveal_strlit("3");
        reveal_strlit("4");
        reveal_strlit("5");
        reveal_strlit("6");
        reveal_strlit("7");
        reveal_strlit("8");
        reveal_strlit("9");
    }
    let piece: &str = if n == 0 {
        "0"
    } else if n == 1 {
        "1"
    } else if n == 2 {
        "2"
    } else if n == 3 {
        "3"
    } else if n == 4 {
        "4"
    } else if n == 5 {
        "5"
    } else if n == 6 {
        "6"
    } else if n == 7 {
        "7"
    } else if n == 8 {
        "8"
    } else {
        "9"
    };
    assert(piece@ == seq![digit(n as nat)]);
    text.append(piece);
    assert(text@ == old(text)@.push(digit(n as nat)));
}

/// Appends the decimal numeral of `n`.
pub fn append_decimal(text: &mut String, n: u64)
    ensures
        final(text)@ == old(text)@ + decimal(n as nat),
    decreases n,
{
    if n >= 10 {
        append_decimal(text, n / 10);
    }
    append_digit(text, n % 10);
    assert(text@ == old(text)@ + decimal(n as nat));
}

/// The characters that separate words: those with the Unicode property
/// `White_Space`.
pub open spec fn white(c: char) -> bool {
    ||| '\u{9}' <= c <= '\u{D}'
    ||| c == ' '
    ||| c == '\u{85}'
    ||| c == '\u{A0}'
    ||| c == '\u{1680}'
    ||| '\u{2000}' <= c <= '\u{200A}'
    ||| c == '\u{2028}'
    ||| c == '\u{2029}'
    ||| c == '\u{202F}'
    ||| c == '\u{205F}'
    ||| c == '\u{3000}'
}

/// Whether the character is white space.
pub fn is_white(c: char) -> (answer: bool)
    ensures
        answer == white(c),
{
    ('\u{9}' <= c && c <= '\u{D}') || c == ' ' || c == '\u{85}' || c == '\u{A0}' || c
        == '\u{1680}' || ('\u{2000}' <= c && c <= '\u{200A}') || c == '\u{2028}' || c
        == '\u{2029}' || c == '\u{202F}' || c == '\u{205F}' || c == '\u{3000}'
}

/// The number of characters before the first white one.
pub open spec fn word_length(s: Seq<char>) -> nat
    decreases s.len(),
{
    if s.len() == 0 || white(s[0]) {
        0
    } else {
        1 + word_length(s.skip(1))
    }
}

/// A word has at most the characters of the text, and a text that starts with a
/// character that is not white starts with a word.
pub proof fn lemma_word_length(s: Seq<char>)
    ensures
        word_length(s) <= s.len(),
        s.len() > 0 && !white(s[0]) ==> word_length(s) > 0,
    decreases s.len(),
{
    if s.len() > 0 && !white(s[0]) {
        lemma_word_length(s.skip(1));
    }
}

/// Whether the text is one word.
pub open spec fn is_word(s: Seq<char>) -> bool {
    s.len() > 0 && forall|i: int| 0 <= i < s.len() ==> !white(#[trigger] s[i])
}

proof fn lemma_word_length_of(word: Seq<char>, tail: Seq<char>)
    requires
        forall|i: int| 0 <= i < word.len() ==> !white(#[trigger] word[i]),
        tail.len() == 0 || white(tail[0]),
    ensures
        word_length(word + tail) == word.len(),
    decreases word.len(),
{
    let s = word + tail;
    if word.len() == 0 {
        assert(s =~= tail);
    } else {
        assert(!white(word[0]));
        assert forall|i: int| 0 <= i < word.skip(1).len() implies !white(
            #[trigger] word.skip(1)[i],
        ) by {
            assert(!white(word[i + 1]));
        }
        lemma_word_length_of(word.skip(1), tail);
        assert(s.skip(1) =~= word.skip(1) + tail);
    }
}

/// A word before white space is the first of the words.
pub proof fn lemma_first_word(word: Seq<char>, tail: Seq<char>)
    requires
        is_word(word),
        tail.len() == 0 || white(tail[0]),
    ensures
        words(word + tail) == seq![word] + words(tail),
{
    let s = word + tail;
    lemma_word_length_of(word, tail);
    assert(!white(word[0]));
    assert(s.take(word.len() as int) =~= word);
    assert(s.skip(word.len() as int) =~= tail);
}

/// The words of a text: its longest runs without white space.
pub open spec fn words(s: Seq<char>) -> Seq<Seq<char>>
    decreases s.len(),
{
    if s.len() == 0 {
        Seq::empty()
    } else if white(s[0]) {
        words(s.skip(1))
    } else {
        proof {
            lemma_word_length(s);
        }
        let n = word_length(s) as int;
        seq![s.take(n)] + words(s.skip(n))
    }
}

/// Finds the next word at or after position `from`: its first position and the
/// one behind its last. Both are the end of the text where no word is left.
pub fn next_word(chars: &Vec<char>, from: usize) -> (range: (usize, usize))
    requires
        from <= chars@.len(),
    ensures
        from <= range.0 <= range.1 <= chars@.len(),
        range.0 == range.1 ==> words(chars@.skip(from as int)) =~= Seq::empty(),
        range.0 < range.1 ==> words(chars@.skip(from as int)) == seq![
            chars@.subrange(range.0 as int, range.1 as int),
        ] + words(chars@.skip(range.1 as int)),
{
    let ghost all = words(chars@.skip(from as int));
    let mut start: usize = from;
    while start < chars.len() && is_white(chars[start])
        invariant
            from <= start <= chars@.len(),
            words(chars@.skip(start as int)) == all,
        decreases chars.len() - start,
    {
        assert(chars@.skip(start as int).skip(1) =~= chars@.skip(start + 1));
        start = start + 1;
    }
    let ghost tail = chars@.skip(start as int);
    let mut end: usize = start;
    assert(tail.skip(0) =~= tail);
    while end < chars.len() && !is_white(chars[end])
        invariant
            start <= end <= chars@.len(),
            tail == chars@.skip(start as int),
            word_length(tail) == (end - start) + word_length(tail.skip(end - start)),
        decreases chars.len() - end,
    {
        let ghost rest = tail.skip(end - start);
        assert(rest[0] == chars@[end as int]);
        assert(rest.skip(1) =~= tail.skip(end + 1 - start));
        end = end + 1;
    }
    assert(end < chars@.len() ==> tail.skip(end - start)[0] == chars@[end as int]);
    assert(word_length(tail) == end - start);
    if start < end {
        assert(tail[0] == chars@[start as int]);
        proof {
            if white(tail[0]) {
                assert(word_length(tail) == 0);
            }
        }
        assert(tail.take(end - start) =~= chars@.subrange(start as int, end as int));
        assert(tail.skip(end - start) =~= chars@.skip(end as int));
    } else if start < chars.len() {
        assert(tail[0] == chars@[start as int]);
        proof {
            lemma_word_length(tail);
        }
    }
    (start, end)
}

/// The text without leading white space.
pub open spec fn trim_start(s: Seq<char>) -> Seq<char>
    decreases s.len(),
{
    if s.len() > 0 && white(s[0]) {
        trim_start(s.skip(1))
    } else {
        s
    }
}

/// The text without trailing white space.
pub open spec fn trim_end(s: Seq<char>) -> Seq<char>
    decreases s.len(),
{
    if s.len() > 0 && white(s.last()) {
        trim_end(s.drop_last())
    } else {
        s
    }
}

/// The text without white space around it.
pub open spec fn trim(s: Seq<char>) -> Seq<char> {
    trim_end(trim_start(s))
}

proof fn lemma_trim_end_front(c: char, s: Seq<char>)
    ensures
        trim_end(seq![c] + s) == if trim_end(s).len() == 0 && white(c) {
            Seq::empty()
        } else {
            seq![c] + trim_end(s)
        },
    decreases s.len(),
{
    let whole = seq![c] + s;
    if s.len() == 0 {
        assert(whole =~= seq![c]);
        assert(s =~= Seq::empty());
        assert(trim_end(s) == s);
        assert(whole.drop_last() =~= s);
    } else if white(s.last()) {
        assert(whole.drop_last() =~= seq![c] + s.drop_last());
        lemma_trim_end_front(c, s.drop_last());
    }
}

/// White space is taken off the two ends independently.
pub proof fn lemma_trim_ends(s: Seq<char>)
    ensures
        trim_start(trim_end(s)) == trim(s),
        trim_end(trim_end(s)) == trim_end(s),
        trim(trim_end(s)) == trim(s),
    decreases s.len(),
{
    lemma_trim_end_twice(s);
    if s.len() > 0 {
        let rest = s.skip(1);
        lemma_trim_ends(rest);
        lemma_trim_end_front(s[0], rest);
        assert(s =~= seq![s[0]] + rest);
        let kept = trim_end(s);
        if white(s[0]) {
            if trim_end(rest).len() > 0 {
                assert(kept.skip(1) =~= trim_end(rest));
            } else {
                assert(trim_start(trim_end(rest)) == trim_end(rest));
                assert(kept =~= trim_end(rest));
            }
        } else {
            assert(kept[0] == s[0]);
        }
    }
    lemma_trim_end_twice(trim_start(s));
}

proof fn lemma_trim_end_twice(s: Seq<char>)
    ensures
        trim_end(trim_end(s)) == trim_end(s),
    decreases s.len(),
{
    if s.len() > 0 && white(s.last()) {
        lemma_trim_end_twice(s.drop_last());
    }
}

/// Behind a character that is not white, only what follows it is trimmed.
pub proof fn lemma_trim_end_join(a: Seq<char>, b: Seq<char>)
    requires
        a.len() > 0,
        !white(a.last()),
    ensures
        trim_end(a + b) == a + trim_end(b),
    decreases b.len(),
{
    if b.len() == 0 {
        assert(a + b =~= a);
    } else if white(b.last()) {
        assert((a + b).drop_last() =~= a + b.drop_last());
        lemma_trim_end_join(a, b.drop_last());
    }
}

/// Copies the characters without white space around them.
pub fn trimmed(chars: &Vec<char>) -> (result: Vec<char>)
    ensures
        result@ == trim(chars@),
{
    let mut start: usize = 0;
    assert(chars@.skip(0) =~= chars@);
    while start < chars.len() && is_white(chars[start])
        invariant
            start <= chars@.len(),
            trim_start(chars@.skip(start as int)) == trim_start(chars@),
        decreases chars.len() - start,
    {
        assert(chars@.skip(start as int).skip(1) =~= chars@.skip(start + 1));
        start = start + 1;
    }
    let ghost body = trim_start(chars@);
    assert(start < chars@.len() ==> chars@.skip(start as int)[0] == chars@[start as int]);
    assert(body == chars@.skip(start as int));
    let mut end: usize = chars.len();
    assert(chars@.subrange(start as int, end as int) =~= body);
    while end > start && is_white(chars[end - 1])
        invariant
            start <= end <= chars@.len(),
            trim_end(chars@.subrange(start as int, end as int)) == trim_end(body),
        decreases end,
    {
        assert(chars@.subrange(start as int, end as int).drop_last() =~= chars@.subrange(
            start as int,
            end - 1,
        ));
        end = end - 1;
    }
    let ghost kept = chars@.subrange(start as int, end as int);
    assert(end > start ==> kept.last() == chars@[end - 1]);
    copy_range(chars, start, end)
}

/// Copies the characters from `start` to before `end`.
pub fn copy_range(chars: &Vec<char>, start: usize, end: usize) -> (result: Vec<char>)
    requires
        start <= end <= chars@.len(),
    ensures
        result@ == chars@.subrange(start as int, end as int),
{
    let mut result: Vec<char> = Vec::new();
    let mut i: usize = start;
    while i < end
        invariant
            start <= i <= end <= chars@.len(),
            result@ == chars@.subrange(start as int, i as int),
        decreases end - i,
    {
        result.push(chars[i]);
        i = i + 1;
        assert(result@ =~= chars@.subrange(start as int, i as int));
    }
    result
}

/// The lower-case form of an ASCII letter; other characters as they are.
pub open spec fn lower(c: char) -> char {
    if 'A' <= c <= 'Z' {
        (c as int + 32) as char
    } else {
        c
    }
}

/// The text with its ASCII letters in lower case.
pub open spec fn lowercase(s: Seq<char>) -> Seq<char> {
    s.map_values(|c: char| lower(c))
}

proof fn lemma_trim_start_lowercase(s: Seq<char>)
    ensures
        trim_start(lowercase(s)) == lowercase(trim_start(s)),
    decreases s.len(),
{
    if s.len() > 0 && white(s[0]) {
        assert(lowercase(s).skip(1) =~= lowercase(s.skip(1)));
        lemma_trim_start_lowercase(s.skip(1));
    }
}

proof fn lemma_trim_end_lowercase(s: Seq<char>)
    ensures
        trim_end(lowercase(s)) == lowercase(trim_end(s)),
    decreases s.len(),
{
    if s.len() > 0 && white(s.last()) {
        assert(lowercase(s).drop_last() =~= lowercase(s.drop_last()));
        lemma_trim_end_lowercase(s.drop_last());
    }
}

/// Trimming and lower case do not disturb each other.
pub proof fn lemma_trim_lowercase(s: Seq<char>)
    ensures
        trim(lowercase(s)) == lowercase(trim(s)),
{
    lemma_trim_start_lowercase(s);
    lemma_trim_end_lowercase(trim_start(s));
}

/// The characters with ASCII letters in lower case.
pub fn lowercased(chars: &Vec<char>) -> (result: Vec<char>)
    ensures
        result@ == lowercase(chars@),
{
    let mut result: Vec<char> = Vec::new();
    let mut i: usize = 0;
    while i < chars.len()
        invariant
            i <= chars@.len(),
            result@ == lowercase(chars@.take(i as int)),
        decreases chars.len() - i,
    {
        result.push(to_lower(chars[i]));
        i = i + 1;
        assert(result@ =~= lowercase(chars@.take(i as int)));
    }
    assert(chars@.take(chars@.len() as int) =~= chars@);
    result
}

fn to_lower(c: char) -> (result: char)
    ensures
        result == lower(c),
{
    if 'A' <= c && c <= 'Z' {
        (c as u8 + 32) as char
    } else {
        c
    }
}

/// Whether two texts are the same.
pub fn equals(a: &str, b: &str) -> (answer: bool)
    ensures
        answer == (a@ == b@),
{
    a.to_owned() == b.to_owned()
}

/// Whether a text starts with another.
pub open spec fn starts_with(s: Seq<char>, prefix: Seq<char>) -> bool {
    prefix.len() <= s.len() && s.take(prefix.len() as int) == prefix
}

/// Whether the text starts with the prefix.
pub fn has_prefix(chars: &Vec<char>, prefix: &str) -> (answer: bool)
    ensures
        answer == starts_with(chars@, prefix@),
{
    let start = chars_of(prefix);
    if start.len() > chars.len() {
        return false;
    }
    let mut i: usize = 0;
    while i < start.len()
        invariant
            i <= start@.len() <= chars@.len(),
            start@ == prefix@,
            forall|j: int| 0 <= j < i ==> chars@[j] == start@[j],
        decreases start.len() - i,
    {
        if chars[i] != start[i] {
            assert(chars@.take(prefix@.len() as int)[i as int] != prefix@[i as int]);
            return false;
        }
        i = i + 1;
    }
    assert(chars@.take(prefix@.len() as int) =~= prefix@);
    true
}

/// Whether the character is a decimal digit.
pub open spec fn is_digit(c: char) -> bool {
    '0' <= c <= '9'
}

/// The value of a row of digits.
pub open spec fn digits_value(s: Seq<char>) -> nat
    decreases s.len(),
{
    if s.len() == 0 {
        0
    } else {
        (10 * digits_value(s.drop_last()) + (s.last() as int - '0' as int)) as nat
    }
}

/// The digits of a numeral: an optional plus sign stands before them.
pub open spec fn digits(s: Seq<char>) -> Seq<char> {
    if s.len() > 0 && s[0] == '+' {
        s.skip(1)
    } else {
        s
    }
}

/// The number that a text is the decimal numeral of, if it is one and the
/// number does not exceed `max`.
pub open spec fn numeral(s: Seq<char>, max: nat) -> Option<nat> {
    let row = digits(s);
    if row.len() > 0 && (forall|i: int| 0 <= i < row.len() ==> is_digit(#[trigger] row[i]))
        && digits_value(row) <= max {
        Some(digits_value(row))
    } else {
        None
    }
}

/// Lower case does not matter to a numeral.
pub proof fn lemma_numeral_lowercase(s: Seq<char>, max: nat)
    ensures
        numeral(lowercase(s), max) == numeral(s, max),
{
    let row = digits(s);
    let low = digits(lowercase(s));
    assert(low =~= lowercase(row));
    if forall|i: int| 0 <= i < row.len() ==> is_digit(#[trigger] row[i]) {
        assert(low =~= row);
    } else {
        let i = choose|i: int| 0 <= i < row.len() && !is_digit(#[trigger] row[i]);
        assert(!is_digit(low[i]));
    }
}

/// Reads a decimal numeral of at most `max`.
pub fn parse_numeral(chars: &Vec<char>, max: u64) -> (number: Option<u64>)
    ensures
        match number {
            Some(n) => numeral(chars@, max as nat) == Some(n as nat),
            None => numeral(chars@, max as nat) is None,
        },
{
    let start: usize = if chars.len() > 0 && chars[0] == '+' {
        1
    } else {
        0
    };
    let ghost row = digits(chars@);
    assert(start == 0 ==> row == chars@);
    assert(row.len() == chars@.len() - start);
    assert(forall|j: int| 0 <= j < row.len() ==> row[j] == chars@[j + start]);
    if start == chars.len() {
        return None;
    }
    let mut n: u64 = 0;
    let mut i: usize = start;
    assert(row.take(0) =~= Seq::empty());
    while i < chars.len()
        invariant
            start <= i <= chars@.len(),
            row == digits(chars@),
            row.len() == chars@.len() - start,
            row.len() > 0,
            forall|j: int| 0 <= j < row.len() ==> row[j] == chars@[j + start],
            forall|j: int| 0 <= j < i - start ==> is_digit(#[trigger] row[j]),
            n == digits_value(row.take(i - start)),
            n <= max,
        decreases chars.len() - i,
    {
        let c = chars[i];
        assert(row[i - start] == c);
        if !('0' <= c && c <= '9') {
            return None;
        }
        let d: u64 = digit_value(c);
        assert(row.take(i + 1 - start).drop_last() =~= row.take(i - start));
        assert(digits_value(row.take(i + 1 - start)) == 10 * n + d);
        if n > max / 10 || d > max - 10 * n {
            proof {
                lemma_digits_value_grows(row, i + 1 - start);
            }
            return None;
        }
        n = 10 * n + d;
        i = i + 1;
    }
    assert(row.take(row.len() as int) =~= row);
    Some(n)
}

fn digit_value(c: char) -> (d: u64)
    requires
        is_digit(c),
    ensures
        d == c as int - '0' as int,
        d < 10,
{
    c as u64 - 48
}

/// More digits make no smaller number, as long as they are digits.
proof fn lemma_digits_value_grows(row: Seq<char>, n: int)
    requires
        0 <= n <= row.len(),
    ensures
        (forall|i: int| 0 <= i < row.len() ==> is_digit(#[trigger] row[i])) ==> digits_value(
            row.take(n),
        ) <= digits_value(row),
    decreases row.len(),
{
    if n == row.len() {
        assert(row.take(n) =~= row);
    } else {
        let most = row.drop_last();
        lemma_digits_value_grows(most, n);
        assert(most.take(n) =~= row.take(n));
        if forall|i: int| 0 <= i < row.len() ==> is_digit(#[trigger] row[i]) {
            assert forall|i: int| 0 <= i < most.len() implies is_digit(#[trigger] most[i]) by {
                assert(is_digit(row[i]));
            }
            assert(is_digit(row[row.len() - 1]));
        }
    }
}

/// The numeral of a number reads back as the number.
pub proof fn lemma_numeral_of_decimal(n: nat, max: nat)
    requires
        n <= max,
    ensures
        numeral(decimal(n), max) == Some(n),
{
    lemma_decimal(n);
    assert(decimal(n)[0] != '+');
}

/// The numeral of a number is a row of digits with that value.
pub proof fn lemma_decimal(n: nat)
    ensures
        decimal(n).len() > 0,
        forall|i: int| 0 <= i < decimal(n).len() ==> is_digit(#[trigger] decimal(n)[i]),
        digits_value(decimal(n)) == n,
    decreases n,
{
    if n < 10 {
        assert(decimal(n).drop_last() =~= Seq::empty());
        assert(digits_value(Seq::empty()) == 0);
    } else {
        lemma_decimal(n / 10);
        assert(decimal(n).drop_last() =~= decimal(n / 10));
    }
}

/// Lexicographic order: the first place at which two strings differ decides, by
/// the code points there; a string that ends first comes first.
pub proof fn lemma_first_difference_decides(a: Seq<char>, b: Seq<char>, k: int)
    requires
        0 <= k <= a.len(),
        k <= b.len(),
        forall|i: int| 0 <= i < k ==> a[i] == b[i],
        k < a.len() && k < b.len() ==> a[k] != b[k],
    ensures
        precedes(a, b) <==> k < b.len() && (k == a.len() || (a[k] as int) < (b[k] as int)),
    decreases k,
{
    if k > 0 {
        assert(a[0] == b[0]);
        assert forall|i: int| 0 <= i < k - 1 implies a.skip(1)[i] == b.skip(1)[i] by {
            assert(a[i + 1] == b[i + 1]);
        }
        lemma_first_difference_decides(a.skip(1), b.skip(1), k - 1);
    }
}

/// Numerals are written digit by digit, the last one for the units.
pub proof fn lemma_decimal_digits(n: nat)
    ensures
        n < 10 ==> decimal(n) == seq![('0' as int + n) as char],
        n >= 10 ==> decimal(n) == decimal(n / 10) + decimal(n % 10),
{
    if n >= 10 {
        assert(decimal(n % 10) =~= seq![digit(n % 10)]);
        assert(decimal(n) =~= decimal(n / 10) + decimal(n % 10));
    }
}

/// White space before the words does not matter, and a text without characters
/// has no words.
pub proof fn lemma_words_skip_white(c: char, s: Seq<char>)
    requires
        white(c),
    ensures
        words(seq![c] + s) == words(s),
        words(Seq::empty()) == Seq::<Seq<char>>::empty(),
{
    assert((seq![c] + s).skip(1) =~= s);
}

/// Leading white space is trimmed.
pub proof fn lemma_trim_start_join(lead: Seq<char>, s: Seq<char>)
    requires
        forall|i: int| 0 <= i < lead.len() ==> white(#[trigger] lead[i]),
    ensures
        trim_start(lead + s) == trim_start(s),
        trim(lead + s) == trim(s),
    decreases lead.len(),
{
    if lead.len() == 0 {
        assert(lead + s =~= s);
    } else {
        assert(white(lead[0]));
        assert((lead + s).skip(1) =~= lead.skip(1) + s);
        assert forall|i: int| 0 <= i < lead.skip(1).len() implies white(
            #[trigger] lead.skip(1)[i],
        ) by {
            assert(white(lead[i + 1]));
        }
        lemma_trim_start_join(lead.skip(1), s);
    }
}

/// Nothing is left of white space.
pub proof fn lemma_trim_white(s: Seq<char>)
    requires
        forall|i: int| 0 <= i < s.len() ==> white(#[trigger] s[i]),
    ensures
        trim(s).len() == 0,
{
    lemma_trim_start_join(s, Seq::empty());
    assert(s + Seq::<char>::empty() =~= s);
}

/// Trimming keeps a text that starts and ends with characters that are not white,
/// and takes off the white space around it.
pub proof fn lemma_trim_around(lead: Seq<char>, s: Seq<char>, trail: Seq<char>)
    requires
        forall|i: int| 0 <= i < lead.len() ==> white(#[trigger] lead[i]),
        forall|i: int| 0 <= i < trail.len() ==> white(#[trigger] trail[i]),
        s.len() > 0,
        !white(s[0]),
        !white(s.last()),
    ensures
        trim(lead + s + trail) == s,
{
    assert(lead + s + trail =~= lead + (s + trail));
    lemma_trim_start_join(lead, s + trail);
    assert((s + trail)[0] == s[0]);
    lemma_trim_end_join(s, trail);
    lemma_trim_end_white(trail);
    assert(s + Seq::<char>::empty() =~= s);
}

proof fn lemma_trim_end_white(s: Seq<char>)
    requires
        forall|i: int| 0 <= i < s.len() ==> white(#[trigger] s[i]),
    ensures
        trim_end(s) == Seq::<char>::empty(),
    decreases s.len(),
{
    if s.len() > 0 {
        assert(white(s[s.len() - 1]));
        assert forall|i: int| 0 <= i < s.drop_last().len() implies white(
            #[trigger] s.drop_last()[i],
        ) by {
            assert(white(s[i]));
        }
        lemma_trim_end_white(s.drop_last());
    } else {
        assert(s =~= Seq::empty());
    }
}

/// Lower case changes the letters from `A` to `Z` to those from `a` to `z`, place
/// by place, and nothing else.
pub proof fn lemma_lowercase(s: Seq<char>)
    ensures
        lowercase(s).len() == s.len(),
        forall|i: int|
            0 <= i < s.len() ==> (#[trigger] lowercase(s)[i]) as int == if 'A' <= s[i] <= 'Z' {
                s[i] as int + ('a' as int - 'A' as int)
            } else {
                s[i] as int
            },
{
}

/// A text starts with a prefix exactly if it is the prefix and a rest.
pub proof fn lemma_starts_with(s: Seq<char>, prefix: Seq<char>, rest: Seq<char>)
    ensures
        starts_with(prefix + rest, prefix),
        starts_with(s, prefix) ==> s == prefix + s.skip(prefix.len() as int),
{
    assert((prefix + rest).take(prefix.len() as int) =~= prefix);
    if starts_with(s, prefix) {
        assert(s =~= s.take(prefix.len() as int) + s.skip(prefix.len() as int));
    }
}

/// The limit decides whether a numeral is accepted, not what it stands for.
pub proof fn lemma_numeral_limit(s: Seq<char>, max: nat, other: nat)
    ensures
        numeral(s, max) matches Some(n) ==> n <= max && numeral(s, other) == if n <= other {
            Some(n)
        } else {
            None::<nat>
        },
{
}

/// A numeral is a row of decimal digits, at least one, with a plus sign or
/// without.
pub proof fn lemma_numeral_shape(s: Seq<char>, max: nat)
    requires
        numeral(s, max) is Some,
    ensures
        s.len() > 0,
        '0' <= s[0] <= '9' || (s[0] == '+' && s.len() > 1),
        forall|i: int| 1 <= i < s.len() ==> '0' <= #[trigger] s[i] <= '9',
{
    let row = digits(s);
    assert(is_digit(row[0]));
    assert forall|i: int| 1 <= i < s.len() implies '0' <= #[trigger] s[i] <= '9' by {
        if s[0] == '+' {
            assert(is_digit(row[i - 1]));
        } else {
            assert(is_digit(row[i]));
        }
    }
}

/// A single digit is a numeral for what it stands for, also behind a plus sign.
pub proof fn lemma_numeral_digit(c: char, max: nat)
    requires
        '0' <= c <= '9',
        c as int - '0' as int <= max,
    ensures
        numeral(seq![c], max) == Some((c as int - '0' as int) as nat),
        numeral(seq!['+', c], max) == Some((c as int - '0' as int) as nat),
{
    let row = seq![c];
    assert(row.drop_last() =~= Seq::empty());
    assert(digits_value(Seq::empty()) == 0);
    assert(digits(row) == row);
    assert(digits(seq!['+', c]) =~= row);
    assert(is_digit(row[0]));
}

/// One digit more makes ten times as much and the digit.
pub proof fn lemma_numeral_push(s: Seq<char>, c: char, max: nat)
    requires
        numeral(s, max) is Some,
        '0' <= c <= '9',
        10 * numeral(s, max)->0 + (c as int - '0' as int) <= max,
    ensures
        numeral(s.push(c), max) == Some(
            (10 * numeral(s, max)->0 + (c as int - '0' as int)) as nat,
        ),
{
    let row = digits(s);
    let more = digits(s.push(c));
    assert(more =~= row.push(c));
    assert(more.drop_last() =~= row);
    assert forall|i: int| 0 <= i < more.len() implies is_digit(#[trigger] more[i]) by {
        if i < row.len() {
            assert(is_digit(row[i]));
        }
    }
}

/// A word has characters, and none of them is white.
pub proof fn lemma_word(s: Seq<char>)
    ensures
        is_word(s) <==> s.len() > 0 && forall|i: int|
            0 <= i < s.len() ==> !white(#[trigger] s[i]),
{
}

} // verus!

//! Text as sequences of characters: searching, trimming, splitting into
//! words and reading decimal numbers, each with its meaning as a function on
//! `Seq<char>`.

use vstd::prelude::*;
use vstd::slice::slice_subrange;
use vstd::string::*;

verus! {

/// What `str::to_uppercase` makes of `s`: the upper-case mapping of every
/// character, as the Unicode tables of the standard library give it.
pub uninterp spec fn uppercase(s: Seq<char>) -> Seq<char>;

/// `str::to_uppercase` returns the upper-case equivalent of the string as a
/// new `String`. It depends on nothing but the characters of `s`, and
/// [`uppercase`] is the name of what it returns; nothing more is claimed.
pub assume_specification[ str::to_uppercase ](s: &str) -> (r: String)
    ensures
        r@ == uppercase(s@),
;

/// `String::push` appends one character to the end of the string.
pub assume_specification[ String::push ](s: &mut String, c: char)
    ensures
        final(s)@ == old(s)@.push(c),
;

/// What `char::is_alphanumeric` says of `c`: whether Unicode counts it among
/// the letters or the numbers.
pub uninterp spec fn alphanumeric(c: char) -> bool;

/// `char::is_alphanumeric` tells whether the character is alphabetic or
/// numeric as the Unicode tables of the standard library have it. It depends
/// on nothing but the character, and [`alphanumeric`] is the name of what it
/// returns; nothing more is claimed.
pub assume_specification[ char::is_alphanumeric ](c: char) -> (r: bool)
    ensures
        r == alphanumeric(c),
;

/// The characters with the Unicode property `White_Space`.
pub open spec fn spec_is_whitespace(c: char) -> bool {
    let u = c as u32;
    ||| 0x09 <= u <= 0x0D
    ||| u == 0x20
    ||| u == 0x85
    ||| u == 0xA0
    ||| u == 0x1680
    ||| 0x2000 <= u <= 0x200A
    ||| u == 0x2028
    ||| u == 0x2029
    ||| u == 0x202F
    ||| u == 0x205F
    ||| u == 0x3000
}

/// Whether `c` is white space.
#[verifier::when_used_as_spec(spec_is_whitespace)]
pub fn is_whitespace(c: char) -> (r: bool)
    ensures
        r == spec_is_whitespace(c),
{
    let u = c as u32;
    (0x09 <= u && u <= 0x0D) || u == 0x20 || u == 0x85 || u == 0xA0 || u == 0x1680 || (0x2000 <= u
        && u <= 0x200A) || u == 0x2028 || u == 0x2029 || u == 0x202F || u == 0x205F || u == 0x3000
}

/// The decimal digits `0` to `9`.
pub open spec fn spec_is_digit(c: char) -> bool {
    '0' <= c <= '9'
}

/// Whether `c` is a decimal digit.
#[verifier::when_used_as_spec(spec_is_digit)]
pub fn is_digit(c: char) -> (r: bool)
    ensures
        r == spec_is_digit(c),
{
    let u = c as u32;
    48 <= u && u <= 57
}

/// The number that a digit stands for; zero for any other character.
pub open spec fn digit_value(c: char) -> nat {
    if is_digit(c) {
        (c as u32 - '0' as u32) as nat
    } else {
        0
    }
}

/// Where the run of characters that `keep` holds of, starting at `from`,
/// ends.
pub open spec fn scan(s: Seq<char>, keep: spec_fn(char) -> bool, from: int) -> int
    decreases s.len() - from,
{
    if from >= s.len() {
        s.len() as int
    } else if !keep(s[from]) {
        from
    } else {
        scan(s, keep, from + 1)
    }
}

/// The characters other than `c`.
pub open spec fn other_than(c: char) -> spec_fn(char) -> bool {
    |x: char| x != c
}

/// The characters that are white space (`space`), or those that are not
/// (`!space`).
pub open spec fn of_kind(space: bool) -> spec_fn(char) -> bool {
    |x: char| is_whitespace(x) == space
}

/// The decimal digits.
pub open spec fn digits() -> spec_fn(char) -> bool {
    |x: char| is_digit(x)
}

/// The letters and numbers.
pub open spec fn letters_and_numbers() -> spec_fn(char) -> bool {
    |x: char| alphanumeric(x)
}

/// The first position from `from` on at which `s` holds `c`, and the length
/// of `s` where there is none.
pub open spec fn index_of(s: Seq<char>, c: char, from: int) -> int {
    scan(s, other_than(c), from)
}

/// The part of `s` in front of the first `c`; all of `s` where it holds none.
pub open spec fn before(s: Seq<char>, c: char) -> Seq<char> {
    s.take(index_of(s, c, 0))
}

/// Where the run of characters that starts at `from` ends, the run being of
/// white space (`space`) or of anything else (`!space`).
pub open spec fn run_end(s: Seq<char>, space: bool, from: int) -> int {
    scan(s, of_kind(space), from)
}

/// Where the run of decimal digits that starts at `from` ends.
pub open spec fn digits_end(s: Seq<char>, from: int) -> int {
    scan(s, digits(), from)
}

/// Where the run of letters and numbers that starts at `from` ends.
pub open spec fn name_end(s: Seq<char>, from: int) -> int {
    scan(s, letters_and_numbers(), from)
}

/// The length of `s` without the white space at its end.
pub open spec fn content_end(s: Seq<char>) -> int
    decreases s.len(),
{
    if s.len() == 0 {
        0
    } else if is_whitespace(s.last()) {
        content_end(s.drop_last())
    } else {
        s.len() as int
    }
}

/// `s` without the white space at its two ends.
pub open spec fn trimmed(s: Seq<char>) -> Seq<char> {
    let kept = s.take(content_end(s));
    kept.skip(run_end(kept, true, 0))
}

/// The words of `s` from `from` on: the longest runs of characters that are
/// not white space, in order.
pub open spec fn words_from(s: Seq<char>, from: int) -> Seq<Seq<char>>
    decreases s.len() - from,
{
    let start = run_end(s, true, from);
    if from < 0 || start >= s.len() {
        Seq::empty()
    } else {
        let end = run_end(s, false, start);
        proof {
            if from <= s.len() {
                lemma_run_end(s, true, from);
            }
            lemma_run_end(s, false, start);
        }
        seq![s.subrange(start, end)] + words_from(s, end)
    }
}

/// The words of `s`.
pub open spec fn words(s: Seq<char>) -> Seq<Seq<char>> {
    words_from(s, 0)
}

/// Every character of `s` is a decimal digit.
pub open spec fn all_digits(s: Seq<char>) -> bool {
    forall|i: int| 0 <= i < s.len() ==> is_digit(#[trigger] s[i])
}

/// The number that the digits of `s` spell in base ten.
pub open spec fn decimal(s: Seq<char>) -> nat
    decreases s.len(),
{
    if s.len() == 0 {
        0
    } else {
        decimal(s.drop_last()) * 10 + digit_value(s.last())
    }
}

/// The number that `s` spells as an unsigned literal: one or more decimal
/// digits, with at most one `+` in front. Anything else spells none.
pub open spec fn unsigned(s: Seq<char>) -> Option<nat> {
    let digits = if s.len() > 0 && s[0] == '+' {
        s.skip(1)
    } else {
        s
    };
    if digits.len() > 0 && all_digits(digits) {
        Some(decimal(digits))
    } else {
        None
    }
}

/// The digits that spell `n` in base ten, without leading zeros.
pub open spec fn digits_of(n: nat) -> Seq<char>
    decreases n,
{
    if n < 10 {
        seq![('0' as u32 + n) as char]
    } else {
        digits_of(n / 10).push(('0' as u32 + n % 10) as char)
    }
}

/// What each string of `v` holds.
pub open spec fn texts(v: Seq<String>) -> Seq<Seq<char>> {
    Seq::new(v.len(), |i: int| v[i]@)
}

/// `scan` ends the run: `keep` holds of all of the run, and not of what
/// follows it.
pub proof fn lemma_scan(s: Seq<char>, keep: spec_fn(char) -> bool, from: int)
    requires
        0 <= from <= s.len(),
    ensures
        from <= scan(s, keep, from) <= s.len(),
        scan(s, keep, from) < s.len() ==> !keep(s[scan(s, keep, from)]),
        forall|i: int| from <= i < scan(s, keep, from) ==> keep(s[i]),
    decreases s.len() - from,
{
    if from < s.len() && keep(s[from]) {
        lemma_scan(s, keep, from + 1);
    }
}

/// The run ends at the position `at` in front of which `keep` holds of all,
/// and at which it does not hold or `s` ends.
pub proof fn lemma_scan_is(s: Seq<char>, keep: spec_fn(char) -> bool, from: int, at: int)
    requires
        0 <= from <= at <= s.len(),
        forall|i: int| from <= i < at ==> keep(s[i]),
        at < s.len() ==> !keep(s[at]),
    ensures
        scan(s, keep, from) == at,
    decreases at - from,
{
    if from < at {
        lemma_scan_is(s, keep, from + 1, at);
    }
}

/// `index_of` finds the first `c`: nothing in front of it is `c`.
pub proof fn lemma_index_of(s: Seq<char>, c: char, from: int)
    requires
        0 <= from <= s.len(),
    ensures
        from <= index_of(s, c, from) <= s.len(),
        index_of(s, c, from) < s.len() ==> s[index_of(s, c, from)] == c,
        forall|i: int| from <= i < index_of(s, c, from) ==> s[i] != c,
{
    lemma_scan(s, other_than(c), from);
}

/// A position that holds `c`, with no `c` between `from` and it, is the one
/// that `index_of` finds; and so is the end of `s` where no `c` follows
/// `from`.
pub proof fn lemma_index_of_is(s: Seq<char>, c: char, from: int, at: int)
    requires
        0 <= from <= at <= s.len(),
        forall|i: int| from <= i < at ==> s[i] != c,
        at < s.len() ==> s[at] == c,
    ensures
        index_of(s, c, from) == at,
{
    lemma_scan_is(s, other_than(c), from, at);
}

/// `run_end` ends the run: all of the run is of the kind asked for, and what
/// follows it, if anything, is not.
pub proof fn lemma_run_end(s: Seq<char>, space: bool, from: int)
    requires
        0 <= from <= s.len(),
    ensures
        from <= run_end(s, space, from) <= s.len(),
        run_end(s, space, from) < s.len() ==> is_whitespace(s[run_end(s, space, from)]) != space,
        forall|i: int| from <= i < run_end(s, space, from) ==> is_whitespace(s[i]) == space,
{
    lemma_scan(s, of_kind(space), from);
}

/// The end of a run is the position `at` in front of which all is of the
/// kind, and at which the kind changes or `s` ends.
pub proof fn lemma_run_end_is(s: Seq<char>, space: bool, from: int, at: int)
    requires
        0 <= from <= at <= s.len(),
        forall|i: int| from <= i < at ==> is_whitespace(s[i]) == space,
        at < s.len() ==> is_whitespace(s[at]) != space,
    ensures
        run_end(s, space, from) == at,
{
    lemma_scan_is(s, of_kind(space), from, at);
}

/// `content_end` cuts off white space only, and all of it.
pub proof fn lemma_content_end(s: Seq<char>)
    ensures
        0 <= content_end(s) <= s.len(),
        content_end(s) > 0 ==> !is_whitespace(s[content_end(s) - 1]),
        forall|i: int| content_end(s) <= i < s.len() ==> is_whitespace(s[i]),
    decreases s.len(),
{
    if s.len() > 0 && is_whitespace(s.last()) {
        lemma_content_end(s.drop_last());
        assert forall|i: int| content_end(s) <= i < s.len() implies is_whitespace(s[i]) by {
            if i < s.len() - 1 {
                assert(s[i] == s.drop_last()[i]);
            }
        }
    }
}

/// The content of `s` ends at `at` where all behind `at` is white space and
/// the character in front of it, if there is one, is not.
pub proof fn lemma_content_end_is(s: Seq<char>, at: int)
    requires
        0 <= at <= s.len(),
        forall|i: int| at <= i < s.len() ==> is_whitespace(s[i]),
        at > 0 ==> !is_whitespace(s[at - 1]),
    ensures
        content_end(s) == at,
    decreases s.len(),
{
    if at < s.len() {
        lemma_content_end_is(s.drop_last(), at);
    }
}

/// A trimmed text has no white space at either end, and trimming it again
/// changes nothing.
pub proof fn lemma_trimmed(s: Seq<char>)
    ensures
        trimmed(s).len() > 0 ==> !is_whitespace(trimmed(s).first()) && !is_whitespace(
            trimmed(s).last(),
        ),
        trimmed(trimmed(s)) == trimmed(s),
{
    let kept = s.take(content_end(s));
    let t = trimmed(s);
    lemma_content_end(s);
    lemma_run_end(kept, true, 0);
    if t.len() > 0 {
        lemma_content_end_is(t, t.len() as int);
        lemma_run_end_is(t, true, 0, 0);
    }
}

/// A text that starts with a character that is not white space has a first
/// word, and that word starts the text.
pub proof fn lemma_first_word(s: Seq<char>)
    requires
        s.len() > 0,
        !is_whitespace(s[0]),
    ensures
        words(s).len() > 0,
        words(s)[0] == s.take(run_end(s, false, 0)),
        words(s)[0].len() > 0,
{
    lemma_run_end(s, false, 0);
}

/// A longer prefix never spells a smaller number.
pub proof fn lemma_decimal_grows(s: Seq<char>, k: int)
    requires
        0 <= k <= s.len(),
    ensures
        decimal(s.take(k)) <= decimal(s),
    decreases s.len() - k,
{
    if k < s.len() {
        lemma_decimal_grows(s, k + 1);
        assert(s.take(k + 1).drop_last() =~= s.take(k));
    } else {
        assert(s.take(k) =~= s);
    }
}

/// The digits of `n` are digits, and they spell `n`.
pub proof fn lemma_digits_of(n: nat)
    ensures
        digits_of(n).len() > 0,
        all_digits(digits_of(n)),
        decimal(digits_of(n)) == n,
        digits_of(n)[0] != '+',
    decreases n,
{
    if n < 10 {
        let s = digits_of(n);
        assert(decimal(s.drop_last()) == 0);
    } else {
        lemma_digits_of(n / 10);
        let init = digits_of(n / 10);
        let s = digits_of(n);
        assert(s.drop_last() =~= init);
        assert forall|i: int| 0 <= i < s.len() implies is_digit(#[trigger] s[i]) by {}
    }
}

/// The characters of `s`.
pub fn to_chars(s: &str) -> (v: Vec<char>)
    ensures
        v@ == s@,
{
    let mut v: Vec<char> = Vec::new();
    for c in it: s.chars()
        invariant
            v@ == it.seq().take(it.index() as int),
            it.seq() == s@,
    {
        v.push(c);
    }
    v
}

/// A string of the characters of `s`.
pub fn string_of(s: &[char]) -> (r: String)
    ensures
        r@ == s@,
{
    let mut r = String::new();
    let mut i: usize = 0;
    while i < s.len()
        invariant
            i <= s.len(),
            r@ == s@.take(i as int),
        decreases s.len() - i,
    {
        r.push(s[i]);
        i += 1;
    }
    r
}

/// The position of the first `c` in `s` from `from` on; the length of `s`
/// where there is none.
pub fn find(s: &[char], c: char, from: usize) -> (at: usize)
    requires
        from <= s.len(),
    ensures
        at == index_of(s@, c, from as int),
        from <= at <= s.len(),
{
    let mut at = from;
    while at < s.len() && s[at] != c
        invariant
            from <= at <= s.len(),
            forall|i: int| from <= i < at ==> s@[i] != c,
        decreases s.len() - at,
    {
        at += 1;
    }
    proof {
        lemma_index_of_is(s@, c, from as int, at as int);
    }
    at
}

/// The end of the run of white space (`space`) or of other characters
/// (`!space`) that starts at `from`.
pub fn skip_run(s: &[char], space: bool, from: usize) -> (at: usize)
    requires
        from <= s.len(),
    ensures
        at == run_end(s@, space, from as int),
        from <= at <= s.len(),
{
    let mut at = from;
    while at < s.len() && is_whitespace(s[at]) == space
        invariant
            from <= at <= s.len(),
            forall|i: int| from <= i < at ==> is_whitespace(s@[i]) == space,
        decreases s.len() - at,
    {
        at += 1;
    }
    proof {
        lemma_run_end_is(s@, space, from as int, at as int);
    }
    at
}

/// The end of the run of decimal digits that starts at `from`.
pub fn skip_digits(s: &[char], from: usize) -> (at: usize)
    requires
        from <= s.len(),
    ensures
        at == digits_end(s@, from as int),
        from <= at <= s.len(),
{
    let mut at = from;
    while at < s.len() && is_digit(s[at])
        invariant
            from <= at <= s.len(),
            forall|i: int| from <= i < at ==> is_digit(s@[i]),
        decreases s.len() - at,
    {
        at += 1;
    }
    proof {
        lemma_scan_is(s@, digits(), from as int, at as int);
    }
    at
}

/// The end of the run of letters and numbers that starts at `from`.
pub fn skip_name(s: &[char], from: usize) -> (at: usize)
    requires
        from <= s.len(),
    ensures
        at == name_end(s@, from as int),
        from <= at <= s.len(),
{
    let mut at = from;
    while at < s.len() && s[at].is_alphanumeric()
        invariant
            from <= at <= s.len(),
            forall|i: int| from <= i < at ==> alphanumeric(s@[i]),
        decreases s.len() - at,
    {
        at += 1;
    }
    proof {
        lemma_scan_is(s@, letters_and_numbers(), from as int, at as int);
    }
    at
}

/// `s` without the white space at its two ends.
pub fn trim<'a>(s: &'a [char]) -> (r: &'a [char])
    ensures
        r@ == trimmed(s@),
{
    let mut end = s.len();
    while end > 0 && is_whitespace(s[end - 1])
        invariant
            end <= s.len(),
            forall|i: int| end <= i < s.len() ==> is_whitespace(s@[i]),
        decreases end,
    {
        end -= 1;
    }
    proof {
        lemma_content_end_is(s@, end as int);
    }
    let kept = slice_subrange(s, 0, end);
    let start = skip_run(kept, true, 0);
    let r = slice_subrange(kept, start, end);
    r
}

/// The words of `s`, each as a string.
pub fn split_words(s: &[char]) -> (out: Vec<String>)
    ensures
        texts(out@) == words(s@),
{
    let mut out: Vec<String> = Vec::new();
    let mut from: usize = 0;
    loop
        invariant_except_break
            from <= s.len(),
            words(s@) == texts(out@) + words_from(s@, from as int),
        ensures
            texts(out@) == words(s@),
        decreases s.len() - from,
    {
        let start = skip_run(s, true, from);
        if start >= s.len() {
            break ;
        }
        let end = skip_run(s, false, start);
        proof {
            lemma_run_end(s@, false, start as int);
        }
        out.push(string_of(slice_subrange(s, start, end)));
        from = end;
    }
    out
}

/// The number that the digits of `s` spell, where `s` is one or more digits
/// and the number is no larger than `limit`.
pub fn parse_digits(s: &[char], limit: u64) -> (r: Option<u64>)
    ensures
        r == (if s.len() > 0 && all_digits(s@) && decimal(s@) <= limit {
            Some(decimal(s@) as u64)
        } else {
            None
        }),
{
    if s.len() == 0 {
        return None;
    }
    let mut value: u64 = 0;
    let mut i: usize = 0;
    while i < s.len()
        invariant
            i <= s.len(),
            value <= limit,
            value == decimal(s@.take(i as int)),
            all_digits(s@.take(i as int)),
        decreases s.len() - i,
    {
        let c = s[i];
        if !is_digit(c) {
            return None;
        }
        let digit = (c as u32 - 48) as u64;
        proof {
            assert(s@.take(i + 1).drop_last() =~= s@.take(i as int));
            lemma_decimal_grows(s@, i + 1);
        }
        if digit > limit || value > (limit - digit) / 10 {
            return None;
        }
        value = value * 10 + digit;
        i += 1;
    }
    assert(s@.take(i as int) =~= s@);
    Some(value)
}

/// The number that `s` spells as an unsigned literal, where it spells one
/// that is no larger than `limit`.
pub fn parse_unsigned(s: &[char], limit: u64) -> (r: Option<u64>)
    ensures
        r == (match unsigned(s@) {
            Some(n) if n <= limit => Some(n as u64),
            _ => None::<u64>,
        }),
{
    let first: usize = if s.len() > 0 && s[0] == '+' {
        1
    } else {
        0
    };
    let digits = slice_subrange(s, first, s.len());
    assert(s@.skip(0) =~= s@);
    parse_digits(digits, limit)
}

} // verus!

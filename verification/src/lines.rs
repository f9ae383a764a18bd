//! Taking text apart: lines, words, fields and numbers.

use vstd::prelude::*;
use vstd::string::StrSliceExecFns;
use crate::text::{digit_char, digits};
use crate::views::texts;

verus! {

broadcast use vstd::string::axiom_spec_iter;

/// Gives the characters of a string.
pub fn chars_of(s: &str) -> (r: Vec<char>)
    ensures
        r@ == s@,
{
    let mut out: Vec<char> = Vec::new();
    for c in it: s.chars()
        invariant
            it.seq() == s@,
            out@ == s@.take(it.index()),
    {
        let ghost k = it.index();
        out.push(c);
        proof {
            assert(s@.take(k + 1) =~= s@.take(k).push(s@[k]));
        }
    }
    assert(s@.take(s@.len() as int) =~= s@);
    out
}

/// Whether a character is white space.
pub open spec fn is_space(c: char) -> bool {
    let n = c as u32;
    ||| 9 <= n <= 13
    ||| n == 32
    ||| n == 0x85
    ||| n == 0xa0
    ||| n == 0x1680
    ||| 0x2000 <= n <= 0x200a
    ||| n == 0x2028
    ||| n == 0x2029
    ||| n == 0x202f
    ||| n == 0x205f
    ||| n == 0x3000
}

fn is_white(c: char) -> (r: bool)
    ensures
        r == is_space(c),
{
    let n: u32 = c as u32;
    (9 <= n && n <= 13) || n == 32 || n == 0x85 || n == 0xa0 || n == 0x1680 || (0x2000 <= n && n
        <= 0x200a) || n == 0x2028 || n == 0x2029 || n == 0x202f || n == 0x205f || n == 0x3000
}

/// How many characters at the start of a text are white space.
pub open spec fn leading_spaces(s: Seq<char>) -> nat
    decreases s.len(),
{
    if s.len() > 0 && is_space(s[0]) {
        1 + leading_spaces(s.drop_first())
    } else {
        0
    }
}

/// How many characters at the start of a text are not white space.
pub open spec fn leading_word(s: Seq<char>) -> nat
    decreases s.len(),
{
    if s.len() > 0 && !is_space(s[0]) {
        1 + leading_word(s.drop_first())
    } else {
        0
    }
}

/// A text without the white space at its end.
pub open spec fn without_tail(s: Seq<char>) -> Seq<char>
    decreases s.len(),
{
    if s.len() > 0 && is_space(s.last()) {
        without_tail(s.drop_last())
    } else {
        s
    }
}

/// A text without the white space at its ends.
pub open spec fn trimmed(s: Seq<char>) -> Seq<char> {
    without_tail(s.skip(leading_spaces(s) as int))
}

/// The words of a text: its longest stretches without white space.
pub open spec fn words(s: Seq<char>) -> Seq<Seq<char>>
    decreases s.len(),
    via words_decreases
{
    let t = s.skip(leading_spaces(s) as int);
    if t.len() == 0 {
        Seq::empty()
    } else {
        let n = leading_word(t) as int;
        seq![t.take(n)] + words(t.skip(n))
    }
}

#[via_fn]
proof fn words_decreases(s: Seq<char>) {
    lemma_leading(s);
    lemma_leading(s.skip(leading_spaces(s) as int));
}

/// Where the leading stretches end.
pub proof fn lemma_leading(s: Seq<char>)
    ensures
        leading_spaces(s) <= s.len(),
        leading_word(s) <= s.len(),
        forall|i: int| 0 <= i < leading_spaces(s) ==> is_space(#[trigger] s[i]),
        forall|i: int| 0 <= i < leading_word(s) ==> !is_space(#[trigger] s[i]),
        leading_spaces(s) < s.len() ==> !is_space(s[leading_spaces(s) as int]),
        leading_word(s) < s.len() ==> is_space(s[leading_word(s) as int]),
        leading_spaces(s) == s.len() || leading_word(s.skip(leading_spaces(s) as int)) > 0,
    decreases s.len(),
{
    if s.len() > 0 {
        let rest = s.drop_first();
        lemma_leading(rest);
        assert forall|i: int| 0 <= i < leading_spaces(s) implies is_space(#[trigger] s[i]) by {
            if i > 0 {
                assert(s[i] == rest[i - 1]);
            }
        }
        assert forall|i: int| 0 <= i < leading_word(s) implies !is_space(#[trigger] s[i]) by {
            if i > 0 {
                assert(s[i] == rest[i - 1]);
            }
        }
        let n = leading_spaces(s) as int;
        if n < s.len() {
            assert(s.skip(n)[0] == s[n]);
        }
    }
}

/// A stretch that starts a text and ends before a character of the other kind is the leading
/// stretch.
proof fn lemma_leading_is(s: Seq<char>, n: int)
    requires
        0 <= n <= s.len(),
    ensures
        (forall|i: int| 0 <= i < n ==> is_space(#[trigger] s[i])) && (n < s.len() ==> !is_space(
            s[n],
        )) ==> leading_spaces(s) == n,
        (forall|i: int| 0 <= i < n ==> !is_space(#[trigger] s[i])) && (n < s.len() ==> is_space(
            s[n],
        )) ==> leading_word(s) == n,
    decreases s.len(),
{
    if n > 0 {
        let rest = s.drop_first();
        lemma_leading_is(rest, n - 1);
        assert(s[0] == s[0]);
        if forall|i: int| 0 <= i < n ==> is_space(#[trigger] s[i]) {
            assert(forall|i: int| 0 <= i < n - 1 ==> #[trigger] rest[i] == s[i + 1]);
            assert(is_space(s[0]));
        }
        if forall|i: int| 0 <= i < n ==> !is_space(#[trigger] s[i]) {
            assert(forall|i: int| 0 <= i < n - 1 ==> #[trigger] rest[i] == s[i + 1]);
            assert(!is_space(s[0]));
        }
    }
}

proof fn lemma_without_tail_is(s: Seq<char>, n: int)
    requires
        0 <= n <= s.len(),
        forall|i: int| n <= i < s.len() ==> is_space(#[trigger] s[i]),
        n > 0 ==> !is_space(s[n - 1]),
    ensures
        without_tail(s) == s.take(n),
    decreases s.len(),
{
    if n < s.len() {
        let rest = s.drop_last();
        assert(forall|i: int| n <= i < rest.len() ==> #[trigger] rest[i] == s[i]);
        lemma_without_tail_is(rest, n);
        assert(rest.take(n) =~= s.take(n));
    } else {
        assert(s.take(n) =~= s);
    }
}

/// A trimmed text neither starts nor ends with white space.
pub proof fn trimmed_has_no_spaces_around(s: Seq<char>)
    ensures
        trimmed(s).len() > 0 ==> !is_space(trimmed(s)[0]) && !is_space(trimmed(s).last()),
{
    let t = s.skip(leading_spaces(s) as int);
    lemma_leading(s);
    lemma_without_tail(t);
    if trimmed(s).len() > 0 {
        assert(trimmed(s)[0] == t[0]);
        assert(t[0] == s[leading_spaces(s) as int]);
    }
}

proof fn lemma_without_tail(s: Seq<char>)
    ensures
        without_tail(s).len() <= s.len(),
        without_tail(s) == s.take(without_tail(s).len() as int),
        without_tail(s).len() > 0 ==> !is_space(without_tail(s).last()),
    decreases s.len(),
{
    if s.len() > 0 && is_space(s.last()) {
        lemma_without_tail(s.drop_last());
        assert(s.drop_last().take(without_tail(s).len() as int) =~= s.take(
            without_tail(s).len() as int,
        ));
    } else {
        assert(s.take(s.len() as int) =~= s);
    }
}

/// Gives a text without the white space at its ends.
pub fn trim(s: &str) -> (r: &str)
    ensures
        r@ == trimmed(s@),
{
    let chars = chars_of(s);
    let n: usize = chars.len();
    let mut a: usize = 0;
    while a < n && is_white(chars[a])
        invariant
            a <= n,
            n == chars@.len(),
            forall|i: int| 0 <= i < a ==> is_space(#[trigger] chars@[i]),
        decreases n - a,
    {
        a += 1;
    }
    let ghost t = s@.skip(a as int);
    proof {
        lemma_leading_is(s@, a as int);
    }
    let mut b: usize = n;
    while b > a && is_white(chars[b - 1])
        invariant
            a <= b <= n,
            n == chars@.len(),
            forall|i: int| b <= i < n ==> is_space(#[trigger] chars@[i]),
        decreases b,
    {
        b -= 1;
    }
    proof {
        assert forall|i: int| b - a <= i < t.len() implies is_space(#[trigger] t[i]) by {
            assert(t[i] == chars@[i + a]);
        }
        if b > a {
            assert(t[b - a - 1] == chars@[b - 1]);
        }
        lemma_without_tail_is(t, b - a);
        assert(s@.subrange(a as int, b as int) =~= t.take(b - a));
    }
    s.substring_char(a, b)
}

/// Takes a text apart into its words.
pub fn split_words(s: &str) -> (r: Vec<String>)
    ensures
        texts(r@) == words(s@),
{
    let chars = chars_of(s);
    let n: usize = chars.len();
    let mut out: Vec<String> = Vec::new();
    let mut at: usize = 0;
    proof {
        assert(s@.skip(0) =~= s@);
        assert(texts(out@) + words(s@) =~= words(s@));
    }
    loop
        invariant
            chars@ == s@,
            n == chars@.len(),
            at <= n,
            texts(out@) + words(s@.skip(at as int)) == words(s@),
        decreases n - at,
    {
        let ghost rest = s@.skip(at as int);
        let mut a: usize = at;
        while a < n && is_white(chars[a])
            invariant
                at <= a <= n,
                n == chars@.len(),
                forall|i: int| at <= i < a ==> is_space(#[trigger] chars@[i]),
            decreases n - a,
        {
            a += 1;
        }
        proof {
            assert forall|i: int| 0 <= i < a - at implies is_space(#[trigger] rest[i]) by {
                assert(rest[i] == chars@[i + at]);
            }
            if a < n {
                assert(rest[a - at] == chars@[a as int]);
            }
            lemma_leading_is(rest, a - at);
            assert(rest.skip(a - at) =~= s@.skip(a as int));
        }
        if a >= n {
            proof {
                assert(words(rest) =~= Seq::<Seq<char>>::empty());
                assert(texts(out@) + words(rest) =~= texts(out@));
            }
            return out;
        }
        let ghost t = s@.skip(a as int);
        let mut b: usize = a;
        while b < n && !is_white(chars[b])
            invariant
                a <= b <= n,
                n == chars@.len(),
                forall|i: int| a <= i < b ==> !is_space(#[trigger] chars@[i]),
                a < n ==> !is_space(chars@[a as int]),
            decreases n - b,
        {
            b += 1;
        }
        let word = s.substring_char(a, b);
        proof {
            assert forall|i: int| 0 <= i < b - a implies !is_space(#[trigger] t[i]) by {
                assert(t[i] == chars@[i + a]);
            }
            if b < n {
                assert(t[b - a] == chars@[b as int]);
            }
            lemma_leading_is(t, b - a);
            assert(t.take(b - a) =~= word@);
            assert(t.skip(b - a) =~= s@.skip(b as int));
            assert(t.len() > 0);
            if b == a {
                assert(t[0] == chars@[a as int]);
                lemma_leading(rest);
                assert(false);
            }
        }
        let ghost before = out@;
        out.push(word.to_owned());
        proof {
            assert(texts(out@) =~= texts(before).push(word@));
            assert(texts(out@) + words(s@.skip(b as int)) =~= texts(before) + words(rest));
        }
        at = b;
    }
}

/// Where a character comes first in a text; the text's length where it does not come.
pub open spec fn find(s: Seq<char>, c: char) -> nat
    decreases s.len(),
{
    if s.len() == 0 || s[0] == c {
        0
    } else {
        1 + find(s.drop_first(), c)
    }
}

/// The first place of a character is what it is called.
pub proof fn find_is_first(s: Seq<char>, c: char)
    ensures
        find(s, c) <= s.len(),
        forall|i: int| 0 <= i < find(s, c) ==> #[trigger] s[i] != c,
        find(s, c) < s.len() ==> s[find(s, c) as int] == c,
    decreases s.len(),
{
    if s.len() > 0 && s[0] != c {
        let rest = s.drop_first();
        find_is_first(rest, c);
        assert forall|i: int| 0 <= i < find(s, c) implies #[trigger] s[i] != c by {
            if i > 0 {
                assert(s[i] == rest[i - 1]);
            }
        }
    }
}

proof fn lemma_find_is(s: Seq<char>, c: char, n: int)
    requires
        0 <= n <= s.len(),
        forall|i: int| 0 <= i < n ==> #[trigger] s[i] != c,
        n < s.len() ==> s[n] == c,
    ensures
        find(s, c) == n,
    decreases s.len(),
{
    if n > 0 {
        let rest = s.drop_first();
        assert(s[0] != c);
        assert(forall|i: int| 0 <= i < rest.len() ==> #[trigger] rest[i] == s[i + 1]);
        lemma_find_is(rest, c, n - 1);
    }
}

/// Finds a character in a part of a text.
pub fn find_char(chars: &[char], from: usize, to: usize, c: char) -> (r: usize)
    requires
        from <= to <= chars@.len(),
    ensures
        from <= r <= to,
        r - from == find(chars@.subrange(from as int, to as int), c),
{
    let ghost part = chars@.subrange(from as int, to as int);
    let mut i: usize = from;
    while i < to && chars[i] != c
        invariant
            from <= i <= to <= chars@.len(),
            part == chars@.subrange(from as int, to as int),
            forall|k: int| 0 <= k < i - from ==> #[trigger] part[k] != c,
        decreases to - i,
    {
        assert(part[i - from] == chars@[i as int]);
        i += 1;
    }
    proof {
        if i < to {
            assert(part[i - from] == chars@[i as int]);
        }
        lemma_find_is(part, c, i - from);
    }
    i
}

/// The parts of a text between a character.
pub open spec fn split_on(s: Seq<char>, c: char) -> Seq<Seq<char>>
    decreases s.len(),
    via split_on_decreases
{
    let n = find(s, c) as int;
    if n >= s.len() {
        seq![s]
    } else {
        seq![s.take(n)] + split_on(s.skip(n + 1), c)
    }
}

#[via_fn]
proof fn split_on_decreases(s: Seq<char>, c: char) {
    find_is_first(s, c);
}

/// A line without the carriage return before its line feed.
pub open spec fn without_return(s: Seq<char>) -> Seq<char> {
    if s.len() > 0 && s.last() == '\r' {
        s.drop_last()
    } else {
        s
    }
}

/// The lines of a text. Each ends with a line feed, and a carriage return before it is no part of
/// the line; the last may end without one.
pub open spec fn lines_of(s: Seq<char>) -> Seq<Seq<char>>
    decreases s.len(),
    via lines_decreases
{
    let n = find(s, '\n') as int;
    if s.len() == 0 {
        Seq::empty()
    } else if n >= s.len() {
        seq![s]
    } else {
        seq![without_return(s.take(n))] + lines_of(s.skip(n + 1))
    }
}

#[via_fn]
proof fn lines_decreases(s: Seq<char>) {
    find_is_first(s, '\n');
}

/// The number that decimal digits stand for; nothing where there is another character.
pub open spec fn digits_value(s: Seq<char>) -> Option<nat>
    decreases s.len(),
{
    if s.len() == 0 {
        Some(0)
    } else {
        match digits_value(s.drop_last()) {
            Some(v) if '0' <= s.last() <= '9' => Some(10 * v + (s.last() as nat - '0' as nat) as nat),
            _ => None,
        }
    }
}

/// The unsigned number that a text stands for: digits, with a plus sign before them or not.
pub open spec fn number_of(s: Seq<char>) -> Option<nat> {
    let d = if s.len() > 0 && s[0] == '+' {
        s.drop_first()
    } else {
        s
    };
    if d.len() == 0 {
        None
    } else {
        digits_value(d)
    }
}

/// The number that a text stands for, where it is one of 64 bits.
pub open spec fn u64_of(s: Seq<char>) -> Option<u64> {
    match number_of(s) {
        Some(v) if v <= u64::MAX => Some(v as u64),
        _ => None,
    }
}

proof fn lemma_digits_grow(s: Seq<char>, n: int)
    requires
        0 <= n <= s.len(),
        digits_value(s) is Some,
    ensures
        digits_value(s.take(n)) is Some,
        digits_value(s.take(n))->0 <= digits_value(s)->0,
    decreases s.len(),
{
    if n < s.len() {
        lemma_digits_grow(s.drop_last(), n);
        assert(s.drop_last().take(n) =~= s.take(n));
    } else {
        assert(s.take(n) =~= s);
    }
}

/// Reads a part of a text as an unsigned number.
pub fn parse_u64(chars: &[char], from: usize, to: usize) -> (r: Option<u64>)
    requires
        from <= to <= chars@.len(),
    ensures
        r == u64_of(chars@.subrange(from as int, to as int)),
{
    let ghost part = chars@.subrange(from as int, to as int);
    let start: usize = if from < to && chars[from] == '+' {
        from + 1
    } else {
        from
    };
    let ghost d = chars@.subrange(start as int, to as int);
    proof {
        if from < to {
            assert(part[0] == chars@[from as int]);
            assert(part.drop_first() =~= chars@.subrange(from + 1, to as int));
        }
    }
    if start >= to {
        return None;
    }
    let mut value: u64 = 0;
    let mut i: usize = start;
    proof {
        assert(d.take(0) =~= Seq::<char>::empty());
    }
    while i < to
        invariant
            from <= start <= i <= to <= chars@.len(),
            start < to,
            d == chars@.subrange(start as int, to as int),
            part == chars@.subrange(from as int, to as int),
            number_of(part) == digits_value(d),
            digits_value(d.take(i - start)) == Some(value as nat),
        decreases to - i,
    {
        let c: char = chars[i];
        let ghost next = d.take(i - start + 1);
        proof {
            assert(next.drop_last() =~= d.take(i - start));
            assert(next.last() == c);
            if digits_value(d) is Some {
                lemma_digits_grow(d, i - start + 1);
            }
        }
        if !('0' <= c && c <= '9') {
            return None;
        }
        let digit: u64 = (c as u64) - ('0' as u64);
        match value.checked_mul(10) {
            Some(tens) => match tens.checked_add(digit) {
                Some(v) => {
                    value = v;
                },
                None => {
                    return None;
                },
            },
            None => {
                return None;
            },
        }
        i += 1;
    }
    assert(d.take(d.len() as int) =~= d);
    Some(value)
}

/// A number is read back from its decimal notation.
pub proof fn printed_number_is_read_back(n: nat)
    ensures
        number_of(digits(n)) == Some(n),
{
    lemma_digits_value(n);
    let s = digits(n);
    assert(s[0] != '+') by {
        lemma_first_digit(n);
    }
}

proof fn lemma_digits_value(n: nat)
    ensures
        digits(n).len() > 0,
        digits_value(digits(n)) == Some(n),
    decreases n,
{
    reveal_with_fuel(digits_value, 2);
    if n < 10 {
        assert(digits(n).drop_last() =~= Seq::<char>::empty());
        assert(digits(n).last() == digit_char(n as int));
    } else {
        lemma_digits_value(n / 10);
        assert(digits(n).drop_last() =~= digits(n / 10));
        assert(digits(n).last() == digit_char((n % 10) as int));
    }
}

proof fn lemma_first_digit(n: nat)
    ensures
        digits(n).len() > 0,
        '0' <= digits(n)[0] <= '9',
    decreases n,
{
    if n >= 10 {
        lemma_first_digit(n / 10);
    }
}

/// The parts of a text that bounds mark.
pub open spec fn parts_of(s: Seq<char>, bounds: Seq<(usize, usize)>) -> Seq<Seq<char>> {
    bounds.map_values(|b: (usize, usize)| s.subrange(b.0 as int, b.1 as int))
}

/// Whether bounds lie within a text.
pub open spec fn bounds_within(bounds: Seq<(usize, usize)>, len: int) -> bool {
    forall|i: int| 0 <= i < bounds.len() ==> (#[trigger] bounds[i]).0 <= bounds[i].1 <= len
}

/// Marks the parts of a text between a character.
pub fn split_bounds(chars: &[char], from: usize, to: usize, c: char) -> (r: Vec<(usize, usize)>)
    requires
        from <= to <= chars@.len(),
    ensures
        bounds_within(r@, chars@.len() as int),
        parts_of(chars@, r@) == split_on(chars@.subrange(from as int, to as int), c),
{
    let ghost s = chars@;
    let ghost all = split_on(s.subrange(from as int, to as int), c);
    let mut out: Vec<(usize, usize)> = Vec::new();
    let mut at: usize = from;
    assert(parts_of(s, out@) + all =~= all);
    loop
        invariant
            from <= at <= to <= chars@.len(),
            s == chars@,
            all == split_on(s.subrange(from as int, to as int), c),
            bounds_within(out@, s.len() as int),
            parts_of(s, out@) + split_on(s.subrange(at as int, to as int), c) == all,
        decreases to - at,
    {
        let ghost rest = s.subrange(at as int, to as int);
        let end: usize = find_char(chars, at, to, c);
        let ghost before = out@;
        out.push((at, end));
        proof {
            assert(rest.take(end - at) =~= s.subrange(at as int, end as int));
            assert(parts_of(s, out@) =~= parts_of(s, before).push(
                s.subrange(at as int, end as int),
            ));
            find_is_first(rest, c);
        }
        if end >= to {
            proof {
                assert(rest.take(end - at) =~= rest);
                assert(parts_of(s, out@) =~= all);
            }
            return out;
        }
        proof {
            assert(rest.skip(end - at + 1) =~= s.subrange(end + 1, to as int));
            assert(parts_of(s, out@) + split_on(s.subrange(end + 1, to as int), c) =~= all);
        }
        at = end + 1;
    }
}

/// Marks the lines of a text.
pub fn line_bounds(chars: &[char]) -> (r: Vec<(usize, usize)>)
    ensures
        bounds_within(r@, chars@.len() as int),
        parts_of(chars@, r@) == lines_of(chars@),
{
    let ghost s = chars@;
    let ghost all = lines_of(s);
    let to: usize = chars.len();
    let mut out: Vec<(usize, usize)> = Vec::new();
    let mut at: usize = 0;
    proof {
        assert(s.subrange(0, to as int) =~= s);
        assert(parts_of(s, out@) + all =~= all);
    }
    while at < to
        invariant
            at <= to == chars@.len(),
            s == chars@,
            bounds_within(out@, s.len() as int),
            parts_of(s, out@) + lines_of(s.subrange(at as int, to as int)) == all,
        decreases to - at,
    {
        let ghost rest = s.subrange(at as int, to as int);
        let end: usize = find_char(chars, at, to, '\n');
        let ghost before = out@;
        let stop: usize = if end < to && end > at && chars[end - 1] == '\r' {
            end - 1
        } else {
            end
        };
        out.push((at, stop));
        proof {
            find_is_first(rest, '\n');
            assert(parts_of(s, out@) =~= parts_of(s, before).push(
                s.subrange(at as int, stop as int),
            ));
            if end < to {
                let line = rest.take(end - at);
                assert(line =~= s.subrange(at as int, end as int));
                if end > at {
                    assert(line.last() == s[end - 1]);
                }
                assert(without_return(line) =~= s.subrange(at as int, stop as int));
                assert(rest.skip(end - at + 1) =~= s.subrange(end + 1, to as int));
                assert(parts_of(s, out@) + lines_of(s.subrange(end + 1, to as int)) =~= all);
            } else {
                assert(rest =~= s.subrange(at as int, stop as int));
                assert(s.subrange(to as int, to as int) =~= Seq::<char>::empty());
                assert(parts_of(s, out@) + lines_of(s.subrange(to as int, to as int)) =~= all);
            }
        }
        if end >= to {
            at = to;
        } else {
            at = end + 1;
        }
    }
    proof {
        assert(s.subrange(to as int, to as int) =~= Seq::<char>::empty());
        assert(parts_of(s, out@) + lines_of(Seq::<char>::empty()) =~= parts_of(s, out@));
    }
    out
}

/// Whether a part of a text is the same as another text.
pub fn is_part(chars: &[char], from: usize, to: usize, text: &str) -> (r: bool)
    requires
        from <= to <= chars@.len(),
    ensures
        r == (chars@.subrange(from as int, to as int) == text@),
{
    let other = chars_of(text);
    let ghost part = chars@.subrange(from as int, to as int);
    if to - from != other.len() {
        return false;
    }
    let mut i: usize = 0;
    while i < other.len()
        invariant
            i <= other@.len(),
            to - from == other@.len(),
            to <= chars@.len(),
            other@ == text@,
            part == chars@.subrange(from as int, to as int),
            part.take(i as int) == other@.take(i as int),
        decreases other@.len() - i,
    {
        proof {
            assert(part[i as int] == chars@[from + i]);
        }
        if chars[from + i] != other[i] {
            assert(part != text@);
            return false;
        }
        proof {
            assert(part.take(i + 1) =~= part.take(i as int).push(part[i as int]));
            assert(other@.take(i + 1) =~= other@.take(i as int).push(other@[i as int]));
        }
        i += 1;
    }
    proof {
        assert(part.take(i as int) =~= part);
        assert(other@.take(i as int) =~= other@);
    }
    true
}

/// Whether a part of a text starts with another text.
pub fn starts_with(chars: &[char], from: usize, to: usize, prefix: &str) -> (r: bool)
    requires
        from <= to <= chars@.len(),
    ensures
        r == prefix@.is_prefix_of(chars@.subrange(from as int, to as int)),
{
    let n: usize = prefix.unicode_len();
    if to - from < n {
        return false;
    }
    proof {
        assert(chars@.subrange(from as int, to as int).take(n as int) =~= chars@.subrange(
            from as int,
            from + n,
        ));
        assert(chars@.subrange(from as int, to as int).take(n as int) =~= chars@.subrange(
            from as int,
            to as int,
        ).subrange(0, n as int));
    }
    is_part(chars, from, from + n, prefix)
}

/// A text is split behind a part that the character does not come in.
pub proof fn lemma_split_front(a: Seq<char>, c: char, b: Seq<char>)
    requires
        !a.contains(c),
    ensures
        split_on(a.push(c) + b, c) == seq![a] + split_on(b, c),
{
    let s = a.push(c) + b;
    assert forall|i: int| 0 <= i < a.len() implies #[trigger] s[i] != c by {
        assert(s[i] == a[i]);
        assert(a.contains(a[i]));
    }
    lemma_find_is(s, c, a.len() as int);
    assert(s.take(a.len() as int) =~= a);
    assert(s.skip(a.len() as int + 1) =~= b);
}

/// A text that a character does not come in has one part.
pub proof fn lemma_split_whole(a: Seq<char>, c: char)
    requires
        !a.contains(c),
    ensures
        split_on(a, c) == seq![a],
        find(a, c) == a.len(),
{
    assert forall|i: int| 0 <= i < a.len() implies #[trigger] a[i] != c by {
        assert(a.contains(a[i]));
    }
    lemma_find_is(a, c, a.len() as int);
}

/// A line feed ends a line.
pub proof fn lemma_one_line(a: Seq<char>)
    requires
        a.len() > 0,
        !a.contains('\n'),
        a.last() != '\r',
    ensures
        lines_of(a.push('\n')) == seq![a],
{
    let s = a.push('\n');
    assert forall|i: int| 0 <= i < a.len() implies #[trigger] s[i] != '\n' by {
        assert(s[i] == a[i]);
        assert(a.contains(a[i]));
    }
    lemma_find_is(s, '\n', a.len() as int);
    assert(s.take(a.len() as int) =~= a);
    assert(s.skip(a.len() as int + 1) =~= Seq::<char>::empty());
    reveal_with_fuel(lines_of, 2);
    assert(without_return(a) == a);
    assert(lines_of(s) =~= seq![a]);
}

/// A name, an equals sign and a value are found again.
pub proof fn lemma_find_pair(a: Seq<char>, b: Seq<char>)
    requires
        !a.contains('='),
    ensures
        find(a.push('=') + b, '=') == a.len(),
        (a.push('=') + b).take(a.len() as int) == a,
        (a.push('=') + b).skip(a.len() as int + 1) == b,
{
    let s = a.push('=') + b;
    assert forall|i: int| 0 <= i < a.len() implies #[trigger] s[i] != '=' by {
        assert(s[i] == a[i]);
        assert(a.contains(a[i]));
    }
    lemma_find_is(s, '=', a.len() as int);
    assert(s.take(a.len() as int) =~= a);
    assert(s.skip(a.len() as int + 1) =~= b);
}

/// Decimal notation holds digits only.
pub proof fn lemma_digits_are_digits(n: nat)
    ensures
        forall|i: int| 0 <= i < digits(n).len() ==> '0' <= #[trigger] digits(n)[i] <= '9',
    decreases n,
{
    if n >= 10 {
        lemma_digits_are_digits(n / 10);
        assert forall|i: int| 0 <= i < digits(n).len() implies '0' <= #[trigger] digits(n)[i]
            <= '9' by {
            if i < digits(n / 10).len() {
                assert(digits(n)[i] == digits(n / 10)[i]);
            } else {
                assert(digits(n)[i] == digit_char((n % 10) as int));
            }
        }
    }
}

} // verus!

//! How text is cut into lines, words, fields and numbers.

use vstd::prelude::*;
use crate::lines::{digits_value, find, find_is_first, is_space, lemma_leading, lines_of, split_on, trimmed, trimmed_has_no_spaces_around, u64_of, without_return, without_tail, words};
use crate::protocol::answered_number;
use crate::text::digits;
use crate::text_laws::{digits_stand_for_the_number, numeral_value};

verus! {

/// The characters that are white space, by their numbers.
pub open spec fn white_space() -> Seq<u32> {
    seq![
        0x9u32,
        0xa,
        0xb,
        0xc,
        0xd,
        0x20,
        0x85,
        0xa0,
        0x1680,
        0x2000,
        0x2001,
        0x2002,
        0x2003,
        0x2004,
        0x2005,
        0x2006,
        0x2007,
        0x2008,
        0x2009,
        0x200a,
        0x2028,
        0x2029,
        0x202f,
        0x205f,
        0x3000,
    ]
}

/// White space is what Unicode calls so.
pub proof fn white_space_is_listed(c: char)
    ensures
        is_space(c) <==> white_space().contains(c as u32),
{
    let n = c as u32;
    let all = white_space();
    if is_space(c) {
        let i: int = if 9 <= n <= 13 {
            n - 9
        } else if n == 0x20 {
            5
        } else if n == 0x85 {
            6
        } else if n == 0xa0 {
            7
        } else if n == 0x1680 {
            8
        } else if 0x2000 <= n <= 0x200a {
            9 + (n - 0x2000)
        } else if n == 0x2028 {
            20
        } else if n == 0x2029 {
            21
        } else if n == 0x202f {
            22
        } else if n == 0x205f {
            23
        } else {
            24
        };
        assert(all[i] == n);
    }
    if all.contains(n) {
        let i = choose|i: int| 0 <= i < all.len() && all[i] == n;
        assert(all[i] == n);
    }
}

/// Whether a text is nothing but white space.
pub open spec fn is_blank(s: Seq<char>) -> bool {
    forall|i: int| 0 <= i < s.len() ==> is_space(#[trigger] s[i])
}

/// Whether a text holds no white space.
pub open spec fn is_word(s: Seq<char>) -> bool {
    s.len() > 0 && forall|i: int| 0 <= i < s.len() ==> !is_space(#[trigger] s[i])
}

proof fn lemma_tail_is_blank(s: Seq<char>)
    ensures
        without_tail(s).len() <= s.len(),
        without_tail(s) == s.take(without_tail(s).len() as int),
        is_blank(s.skip(without_tail(s).len() as int)),
    decreases s.len(),
{
    if s.len() > 0 && is_space(s.last()) {
        let init = s.drop_last();
        let n = without_tail(s).len() as int;
        lemma_tail_is_blank(init);
        assert(init.take(n) =~= s.take(n));
        assert forall|i: int| 0 <= i < s.skip(n).len() implies is_space(#[trigger] s.skip(n)[i]) by {
            if i < init.skip(n).len() {
                assert(s.skip(n)[i] == init.skip(n)[i]);
            }
        }
    } else {
        assert(s.take(s.len() as int) =~= s);
    }
}

/// Trimming takes white space off both ends and nothing else: the text is what is left, with blanks
/// around it, and what is left does not start or end with white space.
pub proof fn trimming_takes_off_blanks(s: Seq<char>)
    ensures
        exists|before: Seq<char>, after: Seq<char>|
            s == before + trimmed(s) + after && #[trigger] is_blank(before) && #[trigger] is_blank(
                after,
            ),
        trimmed(s).len() > 0 ==> !is_space(trimmed(s)[0]) && !is_space(trimmed(s).last()),
{
    trimmed_has_no_spaces_around(s);
    lemma_leading(s);
    let n = crate::lines::leading_spaces(s) as int;
    let t = s.skip(n);
    lemma_tail_is_blank(t);
    let before = s.take(n);
    let after = t.skip(trimmed(s).len() as int);
    assert(is_blank(before));
    assert(is_blank(after));
    assert(s =~= before + trimmed(s) + after);
}

proof fn lemma_leading_spaces(s: Seq<char>, n: int)
    requires
        0 <= n <= s.len(),
        is_blank(s.take(n)),
        n < s.len() ==> !is_space(s[n]),
    ensures
        crate::lines::leading_spaces(s) == n,
{
    lemma_leading(s);
    let m = crate::lines::leading_spaces(s) as int;
    if m < n {
        assert(s.take(n)[m] == s[m]);
    }
    if n < m {
        assert(is_space(s[n]));
    }
}

proof fn lemma_leading_word(s: Seq<char>, n: int)
    requires
        0 <= n <= s.len(),
        forall|i: int| 0 <= i < n ==> !is_space(#[trigger] s[i]),
        n < s.len() ==> is_space(s[n]),
    ensures
        crate::lines::leading_word(s) == n,
    decreases s.len(),
{
    if n > 0 {
        let rest = s.drop_first();
        assert forall|i: int| 0 <= i < n - 1 implies !is_space(#[trigger] rest[i]) by {
            assert(rest[i] == s[i + 1]);
        }
        assert(!is_space(s[0]));
        lemma_leading_word(rest, n - 1);
    }
}

/// The words of a text are what white space leaves apart: white space in front changes nothing, a
/// word in front of white space is the first one, and a blank text has none.
pub proof fn words_stand_between_white_space(word: Seq<char>, c: char, rest: Seq<char>)
    requires
        is_word(word),
        is_space(c),
    ensures
        words(Seq::empty()) == Seq::<Seq<char>>::empty(),
        words(seq![c] + rest) == words(rest),
        words(word) == seq![word],
        words(word + seq![c] + rest) == seq![word] + words(seq![c] + rest),
{
    let none = Seq::<char>::empty();
    lemma_leading_spaces(none, 0);
    assert(none.skip(0) =~= none);
    let a = seq![c] + rest;
    lemma_leading(rest);
    let n = crate::lines::leading_spaces(rest) as int;
    assert forall|i: int| 0 <= i < a.take(n + 1).len() implies is_space(
        #[trigger] a.take(n + 1)[i],
    ) by {
        if i > 0 {
            assert(a[i] == rest[i - 1]);
        }
    }
    lemma_leading_spaces(a, n + 1);
    assert(a.skip(n + 1) =~= rest.skip(n));
    assert(word[0] == word.take(word.len() as int)[0]);
    lemma_leading_spaces(word, 0);
    assert(word.skip(0) =~= word);
    lemma_leading_word(word, word.len() as int);
    assert(word.take(word.len() as int) =~= word);
    assert(word.skip(word.len() as int) =~= none);
    assert(words(none) =~= Seq::<Seq<char>>::empty());
    assert(words(word) == seq![word] + words(none));
    assert(words(word) =~= seq![word]);
    let s = word + seq![c] + rest;
    assert(s[0] == word[0]);
    lemma_leading_spaces(s, 0);
    assert(s.skip(0) =~= s);
    assert forall|i: int| 0 <= i < word.len() implies !is_space(#[trigger] s[i]) by {
        assert(s[i] == word[i]);
    }
    lemma_leading_word(s, word.len() as int);
    assert(s.take(word.len() as int) =~= word);
    assert(s.skip(word.len() as int) =~= a);
}

/// Texts one after the other with a character between them.
pub open spec fn with_between(parts: Seq<Seq<char>>, c: char) -> Seq<char>
    decreases parts.len(),
{
    if parts.len() == 0 {
        Seq::empty()
    } else if parts.len() == 1 {
        parts[0]
    } else {
        parts[0] + seq![c] + with_between(parts.drop_first(), c)
    }
}

/// Cutting a text at a character gives parts without it, which make up the text with the character
/// between them.
pub proof fn cutting_is_undone_by_joining(s: Seq<char>, c: char)
    ensures
        with_between(split_on(s, c), c) == s,
        split_on(s, c).len() > 0,
        forall|i: int| 0 <= i < split_on(s, c).len() ==> !(#[trigger] split_on(s, c)[i]).contains(c),
    decreases s.len(),
{
    find_is_first(s, c);
    let n = find(s, c) as int;
    let parts = split_on(s, c);
    if n >= s.len() {
        assert(parts =~= seq![s]);
        if s.contains(c) {
            let i = choose|i: int| 0 <= i < s.len() && s[i] == c;
            assert(s[i] != c);
        }
    } else {
        let rest = s.skip(n + 1);
        let more = split_on(rest, c);
        cutting_is_undone_by_joining(rest, c);
        assert(parts == seq![s.take(n)] + more);
        assert(parts.drop_first() =~= more);
        assert(with_between(parts, c) == s.take(n) + seq![c] + rest);
        assert(s =~= s.take(n) + seq![c] + rest);
        assert forall|i: int| 0 <= i < parts.len() implies !(#[trigger] parts[i]).contains(c) by {
            if i == 0 {
                if s.take(n).contains(c) {
                    let j = choose|j: int| 0 <= j < s.take(n).len() && s.take(n)[j] == c;
                    assert(s[j] != c);
                }
            } else {
                assert(parts[i] == more[i - 1]);
            }
        }
    }
}

/// The lines of a text end at line feeds, before which a carriage return does not count. What is
/// behind the last line feed is a line where it is not empty.
pub proof fn lines_end_at_line_feeds(line: Seq<char>, rest: Seq<char>)
    requires
        !line.contains('\n'),
    ensures
        lines_of(Seq::empty()) == Seq::<Seq<char>>::empty(),
        line.len() > 0 ==> lines_of(line) == seq![line],
        lines_of(line + seq!['\n'] + rest) == seq![
            if line.len() > 0 && line.last() == '\r' {
                line.drop_last()
            } else {
                line
            },
        ] + lines_of(rest),
{
    find_is_first(line, '\n');
    if find(line, '\n') < line.len() {
        assert(line.contains(line[find(line, '\n') as int]));
    }
    let s = line + seq!['\n'] + rest;
    find_is_first(s, '\n');
    let n = find(s, '\n') as int;
    assert(s[line.len() as int] == '\n');
    if n < line.len() {
        assert(s[n] == line[n]);
        assert(line.contains(line[n]));
    }
    assert(n == line.len());
    assert(s.take(n) =~= line);
    assert(s.skip(n + 1) =~= rest);
    assert(without_return(line) == (if line.len() > 0 && line.last() == '\r' {
        line.drop_last()
    } else {
        line
    }));
}

/// Whether a text is made of decimal digits.
pub open spec fn all_digits(s: Seq<char>) -> bool {
    forall|i: int| 0 <= i < s.len() ==> '0' <= #[trigger] s[i] <= '9'
}

proof fn lemma_digits_value(s: Seq<char>)
    ensures
        digits_value(s) is Some <==> all_digits(s),
        all_digits(s) ==> digits_value(s) == Some(numeral_value(s)),
    decreases s.len(),
{
    if s.len() > 0 {
        let init = s.drop_last();
        lemma_digits_value(init);
        if all_digits(s) {
            assert forall|i: int| 0 <= i < init.len() implies '0' <= #[trigger] init[i] <= '9' by {
                assert(init[i] == s[i]);
            }
            assert('0' <= s[s.len() - 1] <= '9');
        }
        if all_digits(init) && '0' <= s.last() <= '9' {
            assert forall|i: int| 0 <= i < s.len() implies '0' <= #[trigger] s[i] <= '9' by {
                if i < init.len() {
                    assert(s[i] == init[i]);
                }
            }
        }
    }
}

/// A number is read from decimal digits, with a plus before them or without, and from nothing else.
pub proof fn numbers_are_read_from_digits(s: Seq<char>, n: u64)
    ensures
        u64_of(s) == Some(n) <==> ({
            let d = if s.len() > 0 && s[0] == '+' {
                s.skip(1)
            } else {
                s
            };
            d.len() > 0 && all_digits(d) && numeral_value(d) == n
        }),
{
    let d = if s.len() > 0 && s[0] == '+' {
        s.skip(1)
    } else {
        s
    };
    if s.len() > 0 && s[0] == '+' {
        assert(s.drop_first() =~= s.skip(1));
    }
    lemma_digits_value(d);
}

proof fn lemma_trimmed_is(before: Seq<char>, s: Seq<char>, after: Seq<char>)
    requires
        is_blank(before),
        is_blank(after),
        s.len() > 0,
        !is_space(s[0]),
        !is_space(s.last()),
    ensures
        trimmed(before + s + after) == s,
{
    let all = before + s + after;
    assert(all[before.len() as int] == s[0]);
    assert(all.take(before.len() as int) =~= before);
    lemma_leading_spaces(all, before.len() as int);
    let t = all.skip(before.len() as int);
    assert(t =~= s + after);
    lemma_without_tail_is(s, after);
}

proof fn lemma_without_tail_is(s: Seq<char>, after: Seq<char>)
    requires
        is_blank(after),
        s.len() > 0,
        !is_space(s.last()),
    ensures
        without_tail(s + after) == s,
    decreases after.len(),
{
    if after.len() == 0 {
        assert(s + after =~= s);
    } else {
        let all = s + after;
        assert(all.last() == after[after.len() - 1]);
        assert(all.drop_last() =~= s + after.drop_last());
        assert forall|i: int| 0 <= i < after.drop_last().len() implies is_space(
            #[trigger] after.drop_last()[i],
        ) by {
            assert(after.drop_last()[i] == after[i]);
        }
        lemma_without_tail_is(s, after.drop_last());
    }
}

/// An answer that is a number, with blanks around it, is understood as that number, unless it is
/// larger than any that may come.
pub proof fn answers_are_understood(before: Seq<char>, n: nat, after: Seq<char>, most: nat)
    requires
        is_blank(before),
        is_blank(after),
        n <= u64::MAX,
    ensures
        answered_number(before + digits(n) + after, most) == (if n <= most {
            Some(n)
        } else {
            None
        }),
{
    let d = digits(n);
    digits_stand_for_the_number(n);
    assert('0' <= d[0] <= '9');
    assert('0' <= d[d.len() - 1] <= '9');
    lemma_trimmed_is(before, d, after);
    numbers_are_read_from_digits(d, n as u64);
}

/// An answer is understood only where it is a number with blanks around it.
pub proof fn only_numbers_are_understood(line: Seq<char>, most: nat, n: nat)
    requires
        answered_number(line, most) == Some(n),
    ensures
        n <= most,
        n <= u64::MAX,
        u64_of(trimmed(line)) == Some(n as u64),
{
}

} // verus!

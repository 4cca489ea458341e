//! Splitting and joining of character sequences, and the string primitives
//! the rest of the crate is built from.

use vstd::prelude::*;
use vstd::string::StringExecFns;

verus! {

/// The pieces of `s` between separators, in order. A sequence with `n`
/// separators has `n + 1` pieces; pieces may be empty.
pub open spec fn split(s: Seq<char>, seps: Set<char>) -> Seq<Seq<char>>
    decreases s.len(),
{
    if s.len() == 0 {
        seq![Seq::<char>::empty()]
    } else {
        let before = split(s.drop_last(), seps);
        if seps.contains(s.last()) {
            before.push(Seq::<char>::empty())
        } else {
            before.drop_last().push(before.last().push(s.last()))
        }
    }
}

/// The pieces glued back together with `sep` between neighbours.
pub open spec fn join(parts: Seq<Seq<char>>, sep: Seq<char>) -> Seq<char>
    decreases parts.len(),
{
    if parts.len() == 0 {
        Seq::<char>::empty()
    } else if parts.len() == 1 {
        parts[0]
    } else {
        join(parts.drop_last(), sep) + sep + parts.last()
    }
}

/// The newline character as a one-element separator set.
pub open spec fn newline() -> Set<char> {
    set!['\n']
}

/// The lines of a text: its pieces between newlines.
pub open spec fn lines_of(s: Seq<char>) -> Seq<Seq<char>> {
    split(s, newline())
}

/// The text made of the given lines, one newline between neighbours.
pub open spec fn text_of(lines: Seq<Seq<char>>) -> Seq<char> {
    join(lines, seq!['\n'])
}

/// No character of `s` is a separator.
pub open spec fn free_of(s: Seq<char>, seps: Set<char>) -> bool {
    forall|i: int| 0 <= i < s.len() ==> !seps.contains(#[trigger] s[i])
}

/// Every piece is free of separators.
pub open spec fn all_free_of(parts: Seq<Seq<char>>, seps: Set<char>) -> bool {
    forall|k: int| 0 <= k < parts.len() ==> free_of(#[trigger] parts[k], seps)
}

/// A split always yields at least one piece, and no piece holds a separator.
pub proof fn lemma_split_shape(s: Seq<char>, seps: Set<char>)
    ensures
        split(s, seps).len() >= 1,
        all_free_of(split(s, seps), seps),
    decreases s.len(),
{
    if s.len() > 0 {
        lemma_split_shape(s.drop_last(), seps);
    }
}

/// Joining the pieces of a split with the one separator it was split on
/// gives the sequence back.
pub proof fn lemma_join_split(s: Seq<char>, sep: char)
    ensures
        join(split(s, set![sep]), seq![sep]) == s,
    decreases s.len(),
{
    let seps = set![sep];
    let glue = seq![sep];
    if s.len() > 0 {
        let init = s.drop_last();
        let before = split(init, seps);
        lemma_split_shape(init, seps);
        lemma_join_split(init, sep);
        if seps.contains(s.last()) {
            let parts = before.push(Seq::<char>::empty());
            assert(parts.drop_last() =~= before);
            assert(join(parts, glue) =~= join(before, glue) + glue);
            assert(init + glue =~= s);
        } else {
            let grown = before.last().push(s.last());
            let parts = before.drop_last().push(grown);
            assert(parts.drop_last() =~= before.drop_last());
            if before.len() == 1 {
                assert(join(parts, glue) =~= s);
            } else {
                assert(join(parts, glue) =~= join(before.drop_last(), glue) + glue + grown);
                assert(join(before, glue) =~= join(before.drop_last(), glue) + glue
                    + before.last());
                assert(join(parts, glue) =~= join(before, glue).push(s.last()));
                assert(init.push(s.last()) =~= s);
            }
        }
    } else {
        assert(join(split(s, seps), glue) =~= s);
    }
}

/// Appending a separator-free tail to a sequence extends the last piece.
pub proof fn lemma_split_append_free(s: Seq<char>, tail: Seq<char>, seps: Set<char>)
    requires
        free_of(tail, seps),
    ensures
        split(s + tail, seps) == split(s, seps).drop_last().push(split(s, seps).last() + tail),
    decreases tail.len(),
{
    lemma_split_shape(s, seps);
    if tail.len() == 0 {
        assert(s + tail =~= s);
        assert(split(s, seps).last() + tail =~= split(s, seps).last());
        assert(split(s, seps).drop_last().push(split(s, seps).last()) =~= split(s, seps));
    } else {
        let shorter = tail.drop_last();
        lemma_split_append_free(s, shorter, seps);
        assert((s + tail).drop_last() =~= s + shorter);
        assert((s + tail).last() == tail.last());
        let before = split(s + shorter, seps);
        assert(before.drop_last() =~= split(s, seps).drop_last());
        assert(before.last().push(tail.last()) =~= split(s, seps).last() + tail);
    }
}

/// Splitting a join of separator-free pieces gives the pieces back.
pub proof fn lemma_split_join(parts: Seq<Seq<char>>, sep: char)
    requires
        parts.len() >= 1,
        all_free_of(parts, set![sep]),
    ensures
        split(join(parts, seq![sep]), set![sep]) == parts,
    decreases parts.len(),
{
    let seps = set![sep];
    let glue = seq![sep];
    if parts.len() == 1 {
        lemma_split_append_free(Seq::<char>::empty(), parts[0], seps);
        assert(Seq::<char>::empty() + parts[0] =~= parts[0]);
        assert(split(Seq::<char>::empty(), seps) =~= seq![Seq::<char>::empty()]);
        assert(split(parts[0], seps) =~= parts);
    } else {
        let init = parts.drop_last();
        lemma_split_join(init, sep);
        let head = join(init, glue) + glue;
        assert(head.drop_last() =~= join(init, glue));
        assert(seps.contains(head.last()));
        assert(split(head, seps) == init.push(Seq::<char>::empty()));
        lemma_split_append_free(head, parts.last(), seps);
        assert(join(parts, glue) =~= head + parts.last());
        assert(Seq::<char>::empty() + parts.last() =~= parts.last());
        assert(init.push(Seq::<char>::empty()).drop_last() =~= init);
        assert(init.push(parts.last()) =~= parts);
    }
}

/// The characters of an optional string.
pub open spec fn opt_view(found: Option<String>) -> Option<Seq<char>> {
    match found {
        Some(s) => Some(s@),
        None => None,
    }
}

/// The characters of an optional string slice.
pub open spec fn opt_str_view(found: Option<&str>) -> Option<Seq<char>> {
    match found {
        Some(s) => Some(s@),
        None => None,
    }
}

/// A text is the lines it splits into, joined again.
pub proof fn lemma_text_of_lines(text: Seq<char>)
    ensures
        text_of(lines_of(text)) == text,
{
    lemma_join_split(text, '\n');
}

/// Splitting a text, joining the lines and splitting again gives the same
/// lines.
pub proof fn lemma_lines_round_trip(text: Seq<char>)
    ensures
        lines_of(text_of(lines_of(text))) == lines_of(text),
{
    lemma_text_of_lines(text);
}

/// Lines that hold no newline are the lines of their joined text.
pub proof fn lemma_lines_of_text(lines: Seq<Seq<char>>)
    requires
        lines.len() >= 1,
        all_free_of(lines, newline()),
    ensures
        lines_of(text_of(lines)) == lines,
{
    lemma_split_join(lines, '\n');
}

/// `String::push` of the standard library: the character is appended at the
/// end and nothing else changes.
pub assume_specification[ String::push ](s: &mut String, ch: char)
    ensures
        final(s)@ == old(s)@.push(ch),
;

/// Equality of string slices in the standard library: two slices are equal
/// exactly when they hold the same characters.
pub assume_specification[ <str as PartialEq>::eq ](a: &str, b: &str) -> (r: bool)
    ensures
        r == (a@ == b@),
;

/// Splits `text` at every occurrence of `first` or `second`.
pub fn split_text(text: &str, first: char, second: char) -> (parts: Vec<String>)
    ensures
        parts.deep_view() == split(text@, set![first, second]),
{
    let ghost seps = set![first, second];
    let mut parts: Vec<String> = Vec::new();
    let mut current = String::new();
    assert(parts.deep_view().push(current@) =~= split(text@.take(0), seps));
    for c in it: text.chars()
        invariant
            it.seq() == text@,
            seps == set![first, second],
            parts.deep_view().push(current@) == split(text@.take(it.index() as int), seps),
    {
        let ghost i = it.index() as int;
        let ghost before = split(text@.take(i), seps);
        proof {
            assert(text@.take(i + 1).drop_last() =~= text@.take(i));
            assert(text@.take(i + 1).last() == c);
        }
        if c == first || c == second {
            parts.push(current);
            current = String::new();
            proof {
                assert(parts.deep_view() =~= before);
            }
        } else {
            proof {
                assert(before.drop_last() =~= parts.deep_view());
                assert(before.last() == current@);
            }
            current.push(c);
        }
    }
    proof {
        assert(text@.take(text@.len() as int) =~= text@);
    }
    let ghost done = parts.deep_view();
    parts.push(current);
    proof {
        assert(parts.deep_view() =~= done.push(current@));
    }
    parts
}

/// Glues `parts` together with `sep` between neighbours.
pub fn join_text(parts: &Vec<String>, sep: &str) -> (out: String)
    ensures
        out@ == join(parts.deep_view(), sep@),
{
    let mut out = String::new();
    let mut i: usize = 0;
    while i < parts.len()
        invariant
            i <= parts.len(),
            out@ == join(parts.deep_view().take(i as int), sep@),
        decreases parts.len() - i,
    {
        let ghost sofar = parts.deep_view().take(i as int);
        let ghost next = parts.deep_view().take(i + 1);
        proof {
            assert(next.drop_last() =~= sofar);
            assert(next.last() == parts[i as int]@);
        }
        if i > 0 {
            out.append(sep);
        } else {
            proof {
                assert(out@ + parts[i as int]@ =~= parts[i as int]@);
            }
        }
        out.append(parts[i].as_str());
        i = i + 1;
    }
    proof {
        assert(parts.deep_view().take(parts.len() as int) =~= parts.deep_view());
    }
    out
}

/// Whether `c` is one of the ten decimal digits.
pub open spec fn is_digit(c: char) -> bool {
    '0' <= c <= '9'
}

/// The value of a decimal digit.
pub open spec fn digit_value(c: char) -> nat {
    (c as nat - '0' as nat) as nat
}

/// The decimal digit that stands for `d`, for `d` below ten.
pub open spec fn digit_char(d: nat) -> char {
    (d + '0' as nat) as char
}

/// Every character is a decimal digit.
pub open spec fn all_digits(s: Seq<char>) -> bool {
    forall|i: int| 0 <= i < s.len() ==> is_digit(#[trigger] s[i])
}

/// The number that a sequence of decimal digits stands for.
pub open spec fn decimal_value(s: Seq<char>) -> nat
    decreases s.len(),
{
    if s.len() == 0 {
        0
    } else {
        decimal_value(s.drop_last()) * 10 + digit_value(s.last())
    }
}

/// The number written in `s`: `s` must be one or more decimal digits.
pub open spec fn number_of(s: Seq<char>) -> Option<nat> {
    if s.len() > 0 && all_digits(s) {
        Some(decimal_value(s))
    } else {
        None
    }
}

/// The decimal digits of `n`, without leading zeros.
pub open spec fn digits_of(n: nat) -> Seq<char>
    decreases n,
{
    if n < 10 {
        seq![digit_char(n)]
    } else {
        digits_of(n / 10).push(digit_char(n % 10))
    }
}

/// Reading the digits of a number gives the number back.
pub proof fn lemma_digits_round_trip(n: nat)
    ensures
        number_of(digits_of(n)) == Some(n),
    decreases n,
{
    if n < 10 {
        assert(digits_of(n).drop_last() =~= Seq::<char>::empty());
        assert(decimal_value(Seq::<char>::empty()) == 0);
    } else {
        lemma_digits_round_trip(n / 10);
        let shorter = digits_of(n / 10);
        assert(digits_of(n).drop_last() =~= shorter);
        assert(digits_of(n).last() == digit_char(n % 10));
        assert forall|i: int| 0 <= i < digits_of(n).len() implies is_digit(
            #[trigger] digits_of(n)[i],
        ) by {
            if i < shorter.len() {
                assert(digits_of(n)[i] == shorter[i]);
            }
        }
    }
}

/// The number written in `text`, if `text` is one or more decimal digits
/// and the number fits the machine.
pub fn parse_decimal(text: &str) -> (r: Option<usize>)
    ensures
        match r {
            Some(n) => number_of(text@) == Some(n as nat),
            None => number_of(text@) is None || number_of(text@)->Some_0 > usize::MAX,
        },
{
    let mut value: usize = 0;
    let mut seen = false;
    for c in it: text.chars()
        invariant
            it.seq() == text@,
            seen == (it.index() > 0),
            all_digits(text@.take(it.index() as int)),
            value == decimal_value(text@.take(it.index() as int)),
    {
        let ghost i = it.index() as int;
        proof {
            assert(text@.take(i + 1).drop_last() =~= text@.take(i));
            assert(text@.take(i + 1).last() == c);
        }
        if c < '0' || c > '9' {
            assert(!is_digit(text@[i]));
            return None;
        }
        let digit = (c as u32 - '0' as u32) as usize;
        if value > (usize::MAX - digit) / 10 {
            proof {
                lemma_value_grows(text@, i + 1);
            }
            return None;
        }
        value = value * 10 + digit;
        seen = true;
        proof {
            assert forall|j: int| 0 <= j < i + 1 implies is_digit(
                #[trigger] text@.take(i + 1)[j],
            ) by {
                if j < i {
                    assert(text@.take(i + 1)[j] == text@.take(i)[j]);
                }
            }
        }
    }
    proof {
        assert(text@.take(text@.len() as int) =~= text@);
    }
    if seen {
        Some(value)
    } else {
        None
    }
}

/// A number does not get smaller when more digits follow.
pub proof fn lemma_value_grows(s: Seq<char>, n: int)
    requires
        0 <= n <= s.len(),
    ensures
        decimal_value(s.take(n)) <= decimal_value(s),
    decreases s.len() - n,
{
    if n < s.len() {
        lemma_value_grows(s, n + 1);
        assert(s.take(n + 1).drop_last() =~= s.take(n));
    } else {
        assert(s.take(n) =~= s);
    }
}

/// The decimal digit that stands for `d`.
fn digit_of(d: usize) -> (c: char)
    requires
        d < 10,
    ensures
        c == digit_char(d as nat),
{
    (d as u8 + 48u8) as char
}

/// `n` written in decimal digits.
pub fn decimal(n: usize) -> (out: String)
    ensures
        out@ == digits_of(n as nat),
    decreases n,
{
    if n < 10 {
        let mut out = String::new();
        out.push(digit_of(n));
        assert(out@ =~= seq![digit_char(n as nat)]);
        out
    } else {
        let mut out = decimal(n / 10);
        out.push(digit_of(n % 10));
        out
    }
}

} // verus!

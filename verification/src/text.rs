//! Lines of space-separated fields and unsigned decimal numbers.

use vstd::prelude::*;

verus! {

/// The fields of a line: the runs of characters between single spaces, in
/// order. A line with `k` spaces has `k + 1` fields, some of them possibly
/// empty; the empty line has one empty field.
pub open spec fn fields(line: Seq<char>) -> Seq<Seq<char>>
    decreases line.len(),
{
    if line.len() == 0 {
        seq![Seq::<char>::empty()]
    } else {
        let before = fields(line.drop_last());
        if line.last() == ' ' {
            before.push(Seq::<char>::empty())
        } else {
            before.drop_last().push(before.last().push(line.last()))
        }
    }
}

/// The contents of a vector of character vectors.
pub open spec fn contents(v: Seq<Vec<char>>) -> Seq<Seq<char>> {
    Seq::new(v.len(), |i: int| v[i]@)
}

/// The number of spaces in a line.
pub open spec fn count_spaces(line: Seq<char>) -> nat
    decreases line.len(),
{
    if line.len() == 0 {
        0
    } else if line.last() == ' ' {
        count_spaces(line.drop_last()) + 1
    } else {
        count_spaces(line.drop_last())
    }
}

/// Fields written one after the other with a single space between each two.
pub open spec fn joined(parts: Seq<Seq<char>>) -> Seq<char>
    decreases parts.len(),
{
    if parts.len() == 0 {
        Seq::<char>::empty()
    } else if parts.len() == 1 {
        parts[0]
    } else {
        joined(parts.drop_last()) + seq![' '] + parts.last()
    }
}

/// A line has one field more than it has spaces.
pub proof fn law_field_count(line: Seq<char>)
    ensures
        fields(line).len() == count_spaces(line) + 1,
    decreases line.len(),
{
    if line.len() > 0 {
        law_field_count(line.drop_last());
    }
}

/// No field holds a space.
pub proof fn law_fields_hold_no_space(line: Seq<char>)
    ensures
        forall|i: int, j: int|
            0 <= i < fields(line).len() && 0 <= j < fields(line)[i].len() ==> fields(
                line,
            )[i][j] != ' ',
    decreases line.len(),
{
    if line.len() > 0 {
        law_fields_hold_no_space(line.drop_last());
        law_field_count(line.drop_last());
    }
}

/// The fields of a line, joined by single spaces, are the line again.
pub proof fn law_fields_join_to_the_line(line: Seq<char>)
    ensures
        joined(fields(line)) == line,
    decreases line.len(),
{
    if line.len() == 0 {
        assert(joined(fields(line)) =~= line);
    } else {
        let rest = line.drop_last();
        let before = fields(rest);
        law_fields_join_to_the_line(rest);
        law_field_count(rest);
        if line.last() == ' ' {
            let all = before.push(Seq::<char>::empty());
            assert(all.drop_last() =~= before);
            assert(joined(all) =~= rest + seq![' ']);
            assert(rest + seq![' '] =~= line);
        } else {
            let grown = before.last().push(line.last());
            let all = before.drop_last().push(grown);
            if before.len() == 1 {
                assert(joined(all) =~= before[0].push(line.last()));
            } else {
                assert(all.drop_last() =~= before.drop_last());
                assert(joined(all) =~= (joined(before.drop_last()) + seq![' '] + before.last()).push(
                    line.last(),
                ));
            }
            assert(rest.push(line.last()) =~= line);
        }
    }
}

/// The characters of a string, in order.
pub fn chars_of(line: &str) -> (out: Vec<char>)
    ensures
        out@ == line@,
{
    let mut out: Vec<char> = Vec::new();
    for c in it: line.chars()
        invariant
            it.seq() == line@,
            out@ == line@.take(it.index() as int),
    {
        out.push(c);
        assert(line@.take(it.index() + 1) =~= line@.take(it.index() as int).push(c));
    }
    assert(line@.take(line@.len() as int) =~= line@);
    out
}

/// Splits a line into its fields.
pub fn split_fields(line: &str) -> (out: Vec<Vec<char>>)
    ensures
        contents(out@) == fields(line@),
{
    let mut done: Vec<Vec<char>> = Vec::new();
    let mut current: Vec<char> = Vec::new();
    for c in it: line.chars()
        invariant
            it.seq() == line@,
            contents(done@).push(current@) == fields(line@.take(it.index() as int)),
    {
        let ghost seen = line@.take(it.index() as int);
        let ghost next = line@.take(it.index() + 1);
        assert(next.drop_last() =~= seen);
        assert(next.last() == c);
        if c == ' ' {
            done.push(current);
            current = Vec::new();
            assert(contents(done@).push(current@) =~= fields(seen).push(Seq::<char>::empty()));
        } else {
            current.push(c);
            assert(contents(done@).push(current@) =~= fields(seen).drop_last().push(
                fields(seen).last().push(c),
            ));
        }
    }
    assert(line@.take(line@.len() as int) =~= line@);
    done.push(current);
    assert(contents(done@) =~= fields(line@));
    done
}

/// Whether a character is one of the ten ASCII digits.
pub open spec fn is_digit(c: char) -> bool {
    '0' as u32 <= c as u32 <= '9' as u32
}

/// The number that an ASCII digit stands for.
pub open spec fn digit_value(c: char) -> nat {
    (c as u32 - '0' as u32) as nat
}

/// Whether every character of a sequence is an ASCII digit.
pub open spec fn all_digits(s: Seq<char>) -> bool {
    forall|i: int| 0 <= i < s.len() ==> is_digit(#[trigger] s[i])
}

/// The number that a sequence of digits writes in base ten, most significant
/// digit first. Leading zeros do not change it.
pub open spec fn decimal_value(digits: Seq<char>) -> nat
    decreases digits.len(),
{
    if digits.len() == 0 {
        0
    } else {
        decimal_value(digits.drop_last()) * 10 + digit_value(digits.last())
    }
}

/// A token without its optional leading plus sign.
pub open spec fn unsigned_part(token: Seq<char>) -> Seq<char> {
    if token.len() > 0 && token[0] == '+' {
        token.skip(1)
    } else {
        token
    }
}

/// The unsigned 32-bit number that a token writes, if it writes one: an
/// optional plus sign, then one or more ASCII digits whose value fits.
/// Anything else (an empty token, a lone sign, a minus sign, a space, a
/// letter, a value above `u32::MAX`) writes no number.
pub open spec fn decimal_u32(token: Seq<char>) -> Option<u32> {
    let digits = unsigned_part(token);
    if digits.len() > 0 && all_digits(digits) && decimal_value(digits) <= u32::MAX {
        Some(decimal_value(digits) as u32)
    } else {
        None
    }
}

/// Appending digits never makes the value smaller.
pub proof fn lemma_decimal_value_grows(digits: Seq<char>, n: int)
    requires
        0 <= n <= digits.len(),
    ensures
        decimal_value(digits.take(n)) <= decimal_value(digits),
    decreases digits.len() - n,
{
    if n == digits.len() {
        assert(digits.take(n) =~= digits);
    } else {
        lemma_decimal_value_grows(digits, n + 1);
        assert(digits.take(n + 1).drop_last() =~= digits.take(n));
    }
}

/// Reads a token as an unsigned 32-bit decimal number.
pub fn parse_u32(token: &Vec<char>) -> (out: Option<u32>)
    ensures
        out == decimal_u32(token@),
{
    let n = token.len();
    let start: usize = if n > 0 && token[0] == '+' { 1 } else { 0 };
    if start == n {
        return None;
    }
    let ghost digits = unsigned_part(token@);
    assert(digits =~= token@.skip(start as int));
    let mut value: u64 = 0;
    let mut i: usize = start;
    while i < n
        invariant
            start <= i <= n,
            n == token@.len(),
            digits == unsigned_part(token@),
            digits == token@.skip(start as int),
            all_digits(digits.take(i - start)),
            value == decimal_value(digits.take(i - start)),
            value <= u32::MAX,
        decreases n - i,
    {
        let c = token[i];
        let ghost seen = digits.take(i - start);
        let ghost next = digits.take(i + 1 - start);
        assert(next.drop_last() =~= seen);
        assert(next.last() == c);
        let code: u32 = c as u32;
        if code < '0' as u32 || code > '9' as u32 {
            assert(!is_digit(digits[i - start]));
            return None;
        }
        value = value * 10 + (code - '0' as u32) as u64;
        if value > u32::MAX as u64 {
            proof {
                lemma_decimal_value_grows(digits, i + 1 - start);
            }
            return None;
        }
        i += 1;
    }
    assert(digits.take(n - start) =~= digits);
    Some(value as u32)
}

} // verus!

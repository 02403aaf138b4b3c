//! Text formats of the public datasets: lines, separated fields and
//! unsigned decimal numbers.

use vstd::prelude::*;
use crate::text::{chars_of, string_of};
use crate::vault::string_views;

verus! {

/// `s` split at every `sep`: one piece more than there are separators, empty
/// pieces kept.
pub open spec fn split_on(s: Seq<char>, sep: char) -> Seq<Seq<char>>
    decreases s.len(),
{
    if s.len() == 0 {
        seq![Seq::empty()]
    } else {
        let rest = split_on(s.drop_last(), sep);
        if s.last() == sep {
            rest.push(Seq::empty())
        } else {
            rest.update(rest.len() - 1, rest.last().push(s.last()))
        }
    }
}

/// A line without the `\r` of a `\r\n` ending.
pub open spec fn strip_cr(l: Seq<char>) -> Seq<char> {
    if l.len() > 0 && l.last() == '\r' {
        l.drop_last()
    } else {
        l
    }
}

/// The lines of a text: split at `\n`, a `\r` before the `\n` dropped; the
/// final line ending is optional, and an empty text has no lines.
pub open spec fn text_lines(s: Seq<char>) -> Seq<Seq<char>> {
    let p = split_on(s, '\n');
    let ended = p.drop_last().map_values(|l: Seq<char>| strip_cr(l));
    if p.last().len() == 0 {
        ended
    } else {
        ended.push(p.last())
    }
}

proof fn lemma_split_len(s: Seq<char>, sep: char)
    ensures
        split_on(s, sep).len() >= 1,
    decreases s.len(),
{
    if s.len() > 0 {
        lemma_split_len(s.drop_last(), sep);
    }
}

/// Splits `t[from..to]` at every `sep`.
fn split_range(t: &Vec<char>, from: usize, to: usize, sep: char) -> (pieces: Vec<String>)
    requires
        from <= to <= t.len(),
    ensures
        string_views(pieces@) == split_on(t@.subrange(from as int, to as int), sep),
{
    let mut pieces: Vec<String> = Vec::new();
    let mut start = from;
    let mut j = from;
    assert(t@.subrange(from as int, from as int) =~= Seq::<char>::empty());
    assert(string_views(pieces@) =~= Seq::<Seq<char>>::empty());
    assert(split_on(Seq::<char>::empty(), sep) =~= seq![Seq::<char>::empty()]);
    while j < to
        invariant
            from <= start <= j <= to,
            to <= t.len(),
            split_on(t@.subrange(from as int, j as int), sep) == string_views(pieces@).push(
                t@.subrange(start as int, j as int),
            ),
        decreases to - j,
    {
        let ghost s = t@.subrange(from as int, j + 1);
        assert(s.drop_last() =~= t@.subrange(from as int, j as int));
        proof {
            lemma_split_len(s.drop_last(), sep);
        }
        if t[j] == sep {
            let piece = string_of(t, start, j);
            let ghost before = string_views(pieces@);
            pieces.push(piece);
            assert(string_views(pieces@) =~= before.push(t@.subrange(start as int, j as int)));
            start = j + 1;
            assert(t@.subrange(start as int, j + 1) =~= Seq::<char>::empty());
        } else {
            assert(t@.subrange(start as int, j + 1) =~= t@.subrange(start as int, j as int).push(t@[j as int]));
        }
        j = j + 1;
    }
    let piece = string_of(t, start, to);
    let ghost before = string_views(pieces@);
    pieces.push(piece);
    assert(string_views(pieces@) =~= before.push(t@.subrange(start as int, to as int)));
    pieces
}

/// The fields of a line separated by `sep` (as `str::split` with a char gives them).
pub fn split_fields(line: &str, sep: char) -> (fields: Vec<String>)
    ensures
        string_views(fields@) == split_on(line@, sep),
{
    let t = chars_of(line);
    let fields = split_range(&t, 0, t.len(), sep);
    assert(t@.subrange(0, t.len() as int) =~= t@);
    fields
}

/// The lines of a text (as `str::lines` gives them).
pub fn split_lines(text: &str) -> (lines: Vec<String>)
    ensures
        string_views(lines@) == text_lines(text@),
{
    let t = chars_of(text);
    let n = t.len();
    let mut lines: Vec<String> = Vec::new();
    let ghost mut raw: Seq<Seq<char>> = Seq::empty();
    let mut start: usize = 0;
    let mut j: usize = 0;
    assert(t@.take(0) =~= Seq::<char>::empty());
    assert(t@.subrange(0, 0) =~= Seq::<char>::empty());
    assert(string_views(lines@) =~= Seq::<Seq<char>>::empty());
    assert(raw.map_values(|l: Seq<char>| strip_cr(l)) =~= Seq::<Seq<char>>::empty());
    assert(split_on(Seq::<char>::empty(), '\n') =~= seq![Seq::<char>::empty()]);
    while j < n
        invariant
            start <= j <= n,
            n == t.len(),
            split_on(t@.take(j as int), '\n') == raw.push(t@.subrange(start as int, j as int)),
            string_views(lines@) == raw.map_values(|l: Seq<char>| strip_cr(l)),
        decreases n - j,
    {
        let ghost s = t@.take(j + 1);
        assert(s.drop_last() =~= t@.take(j as int));
        proof {
            lemma_split_len(s.drop_last(), '\n');
        }
        if t[j] == '\n' {
            let end = if j > start && t[j - 1] == '\r' {
                j - 1
            } else {
                j
            };
            let line = string_of(&t, start, end);
            let ghost piece = t@.subrange(start as int, j as int);
            assert(line@ == strip_cr(piece)) by {
                if j > start && t@[j - 1] == '\r' {
                    assert(piece.drop_last() =~= t@.subrange(start as int, end as int));
                } else {
                    assert(piece =~= t@.subrange(start as int, end as int));
                }
            }
            let ghost before = string_views(lines@);
            lines.push(line);
            proof {
                raw = raw.push(piece);
                assert(string_views(lines@) =~= before.push(line@));
                assert(raw.map_values(|l: Seq<char>| strip_cr(l)) =~= before.push(strip_cr(piece)));
            }
            start = j + 1;
            assert(t@.subrange(start as int, j + 1) =~= Seq::<char>::empty());
        } else {
            assert(t@.subrange(start as int, j + 1) =~= t@.subrange(start as int, j as int).push(t@[j as int]));
        }
        j = j + 1;
    }
    assert(t@.take(n as int) =~= t@);
    proof {
        let p = split_on(t@, '\n');
        assert(p.drop_last() =~= raw);
        assert(p.last() == t@.subrange(start as int, n as int));
    }
    if start < n {
        let last = string_of(&t, start, n);
        let ghost before = string_views(lines@);
        lines.push(last);
        assert(string_views(lines@) =~= before.push(last@));
    }
    lines
}

/// An ASCII decimal digit.
pub open spec fn is_digit(c: char) -> bool {
    '0' <= c && c <= '9'
}

/// The value of a string of decimal digits.
pub open spec fn digits_value(s: Seq<char>) -> int
    decreases s.len(),
{
    if s.len() == 0 {
        0
    } else {
        digits_value(s.drop_last()) * 10 + (s.last() as int - '0' as int)
    }
}

/// `s` without one leading `+`.
pub open spec fn unsigned_body(s: Seq<char>) -> Seq<char> {
    if s.len() > 0 && s[0] == '+' {
        s.drop_first()
    } else {
        s
    }
}

/// Every char of `s` is a decimal digit.
pub open spec fn all_digits(s: Seq<char>) -> bool {
    forall|i: int| 0 <= i < s.len() ==> is_digit(#[trigger] s[i])
}

/// What parsing an unsigned number at most `max` gives: an optional `+`,
/// then one or more decimal digits whose value is at most `max`.
pub open spec fn parse_unsigned(s: Seq<char>, max: int) -> Option<int> {
    let body = unsigned_body(s);
    if body.len() > 0 && all_digits(body) && digits_value(body) <= max {
        Some(digits_value(body))
    } else {
        None
    }
}

proof fn lemma_digits_grow(s: Seq<char>)
    requires
        forall|i: int| 0 <= i < s.len() ==> is_digit(#[trigger] s[i]),
    ensures
        0 <= digits_value(s),
        forall|k: int| 0 <= k <= s.len() ==> digits_value(#[trigger] s.take(k)) <= digits_value(s),
    decreases s.len(),
{
    if s.len() > 0 {
        let p = s.drop_last();
        lemma_digits_grow(p);
        assert forall|k: int| 0 <= k <= s.len() implies digits_value(#[trigger] s.take(k)) <= digits_value(s) by {
            if k < s.len() {
                assert(s.take(k) =~= p.take(k));
            } else {
                assert(s.take(k) =~= s);
            }
        }
    }
}

/// Parses an unsigned decimal number no larger than `max` (as `str::parse`
/// does for unsigned integer types: an optional `+`, then digits only).
pub fn parse_decimal(s: &str, max: u64) -> (r: Option<u64>)
    ensures
        r is Some <==> parse_unsigned(s@, max as int) is Some,
        r matches Some(v) ==> parse_unsigned(s@, max as int) == Some(v as int),
{
    let t = chars_of(s);
    let n = t.len();
    let mut i: usize = 0;
    if n > 0 && t[0] == '+' {
        i = 1;
    }
    let ghost body = t@.subrange(i as int, n as int);
    proof {
        if n > 0 && t@[0] == '+' {
            assert(body =~= t@.drop_first());
        } else {
            assert(body =~= t@);
        }
    }
    if i == n {
        assert(unsigned_body(s@).len() == 0);
        return None;
    }
    let start = i;
    let mut value: u64 = 0;
    while i < n
        invariant
            start <= i <= n,
            n == t.len(),
            start < n,
            t@ == s@,
            body == t@.subrange(start as int, n as int),
            body == unsigned_body(s@),
            forall|k: int| start <= k < i ==> is_digit(#[trigger] t@[k]),
            value == digits_value(t@.subrange(start as int, i as int)),
            value <= max,
        decreases n - i,
    {
        let c = t[i];
        if !('0' <= c && c <= '9') {
            proof {
                assert(body[i - start] == t@[i as int]);
                assert(!is_digit(body[i - start]));
                assert(!all_digits(body));
                assert(parse_unsigned(s@, max as int) is None);
            }
            return None;
        }
        let d = (c as u32 - '0' as u32) as u64;
        assert(t@.subrange(start as int, i + 1).drop_last() =~= t@.subrange(start as int, i as int));
        if d > max || value > (max - d) / 10 {
            proof {
                let pre = t@.subrange(start as int, i + 1);
                assert(digits_value(pre) == value * 10 + d);
                assert(value * 10 + d > max) by (nonlinear_arith)
                    requires
                        d > max || value > (max - d) / 10,
                        d <= 9,
                ;
                if all_digits(body) {
                    lemma_digits_grow(body);
                    assert(body.take(i + 1 - start) =~= pre);
                    assert(digits_value(body.take(i + 1 - start)) <= digits_value(body));
                    assert(digits_value(body) > max);
                }
                assert(parse_unsigned(s@, max as int) is None);
            }
            return None;
        }
        proof {
            assert(value * 10 + d <= max) by (nonlinear_arith)
                requires
                    value <= (max - d) / 10,
                    d <= max,
            ;
        }
        value = value * 10 + d;
        i = i + 1;
    }
    assert(t@.subrange(start as int, n as int) =~= body);
    assert(t@ == s@);
    Some(value)
}

} // verus!

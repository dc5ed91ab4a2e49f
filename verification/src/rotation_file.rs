//! The rotation schedule file: lines of unsigned decimal numbers separated by
//! single spaces, read four at a time as (first axis, second axis, global flag,
//! turn divisor).
use vstd::prelude::*;

verus! {

pub const NEWLINE: u8 = 10;

pub const CARRIAGE_RETURN: u8 = 13;

pub const SPACE: u8 = 32;

pub const PLUS: u8 = 43;

/// The pieces of `t` between occurrences of `sep`: always one more piece than
/// there are separators, empty pieces included.
pub open spec fn pieces(t: Seq<u8>, sep: u8) -> Seq<Seq<u8>>
    decreases t.len(),
{
    if t.len() == 0 {
        seq![Seq::<u8>::empty()]
    } else {
        let p = pieces(t.drop_last(), sep);
        if t.last() == sep {
            p.push(Seq::<u8>::empty())
        } else {
            p.update(p.len() - 1, p.last().push(t.last()))
        }
    }
}

pub proof fn lemma_pieces_nonempty(t: Seq<u8>, sep: u8)
    ensures
        pieces(t, sep).len() >= 1,
    decreases t.len(),
{
    if t.len() > 0 {
        lemma_pieces_nonempty(t.drop_last(), sep);
    }
}

pub open spec fn strip_carriage_return(line: Seq<u8>) -> Seq<u8> {
    if line.len() > 0 && line.last() == CARRIAGE_RETURN {
        line.drop_last()
    } else {
        line
    }
}

/// The lines of a text: split at each newline, a carriage return just before a
/// newline dropped, and no empty last line after a final newline.
pub open spec fn text_lines(text: Seq<u8>) -> Seq<Seq<u8>> {
    let p = pieces(text, NEWLINE);
    let complete = p.drop_last().map_values(|l: Seq<u8>| strip_carriage_return(l));
    if p.last().len() == 0 {
        complete
    } else {
        complete.push(p.last())
    }
}

pub open spec fn is_digit(b: u8) -> bool {
    48 <= b <= 57
}

pub open spec fn all_digits(s: Seq<u8>) -> bool {
    forall|i: int| 0 <= i < s.len() ==> is_digit(#[trigger] s[i])
}

/// The number that a string of decimal digits denotes.
pub open spec fn decimal_value(digits: Seq<u8>) -> nat
    decreases digits.len(),
{
    if digits.len() == 0 {
        0
    } else {
        decimal_value(digits.drop_last()) * 10 + (digits.last() - 48) as nat
    }
}

/// A token without the one plus sign that may lead it.
pub open spec fn unsigned_digits(token: Seq<u8>) -> Seq<u8> {
    if token.len() > 1 && token[0] == PLUS {
        token.drop_first()
    } else {
        token
    }
}

/// An unsigned machine integer written in decimal, with an optional leading
/// plus sign; `None` for anything else, and for a value that does not fit.
pub open spec fn parse_usize_token(token: Seq<u8>) -> Option<usize> {
    let d = unsigned_digits(token);
    if d.len() > 0 && all_digits(d) && decimal_value(d) <= usize::MAX {
        Some(decimal_value(d) as usize)
    } else {
        None
    }
}

pub open spec fn parse_tokens(tokens: Seq<Seq<u8>>) -> Option<Seq<usize>>
    decreases tokens.len(),
{
    if tokens.len() == 0 {
        Some(Seq::<usize>::empty())
    } else {
        match (parse_tokens(tokens.drop_last()), parse_usize_token(tokens.last())) {
            (Some(vs), Some(v)) => Some(vs.push(v)),
            _ => None,
        }
    }
}

/// A line of two numbers gets a 0 appended, a line of three numbers a 1.
pub open spec fn pad_line(values: Seq<usize>) -> Seq<usize> {
    if values.len() == 2 {
        values.push(0)
    } else if values.len() == 3 {
        values.push(1)
    } else {
        values
    }
}

pub open spec fn line_values(line: Seq<u8>) -> Option<Seq<usize>> {
    match parse_tokens(pieces(line, SPACE)) {
        Some(vs) => Some(pad_line(vs)),
        None => None,
    }
}

pub open spec fn lines_values(lines: Seq<Seq<u8>>) -> Option<Seq<usize>>
    decreases lines.len(),
{
    if lines.len() == 0 {
        Some(Seq::<usize>::empty())
    } else {
        match (lines_values(lines.drop_last()), line_values(lines.last())) {
            (Some(a), Some(b)) => Some(a + b),
            _ => None,
        }
    }
}

/// All numbers of a rotation schedule, in order, each line padded; `None` when
/// a token of some line is not an unsigned number.
pub open spec fn rotation_file_values(text: Seq<u8>) -> Option<Seq<usize>> {
    lines_values(text_lines(text))
}

proof fn lemma_decimal_value_prefix(s: Seq<u8>, k: int)
    requires
        0 <= k <= s.len(),
        all_digits(s),
    ensures
        decimal_value(s.take(k)) <= decimal_value(s),
    decreases s.len(),
{
    if k < s.len() {
        assert(all_digits(s.drop_last())) by {
            assert forall|i: int| 0 <= i < s.drop_last().len() implies is_digit(
                #[trigger] s.drop_last()[i],
            ) by {
                assert(s.drop_last()[i] == s[i]);
            }
        }
        lemma_decimal_value_prefix(s.drop_last(), k);
        assert(s.drop_last().take(k) =~= s.take(k));
    } else {
        assert(s.take(k) =~= s);
    }
}

/// Reads the token `text[start..end]` as an unsigned number.
fn parse_token(text: &[u8], start: usize, end: usize) -> (result: Option<usize>)
    requires
        start <= end <= text.len(),
    ensures
        result == parse_usize_token(text@.subrange(start as int, end as int)),
{
    let ghost tok = text@.subrange(start as int, end as int);
    let first: usize = if end - start > 1 && text[start] == PLUS {
        start + 1
    } else {
        start
    };
    let ghost d = unsigned_digits(tok);
    assert(d =~= text@.subrange(first as int, end as int));
    if first == end {
        return None;
    }
    let mut value: usize = 0;
    let mut i: usize = first;
    assert(text@.subrange(first as int, first as int) =~= Seq::<u8>::empty());
    while i < end
        invariant
            start <= first <= i <= end <= text.len(),
            d == text@.subrange(first as int, end as int),
            d == unsigned_digits(text@.subrange(start as int, end as int)),
            value as nat == decimal_value(text@.subrange(first as int, i as int)),
            forall|j: int| first <= j < i ==> is_digit(#[trigger] text@[j]),
        decreases end - i,
    {
        let b = text[i];
        if b < 48 || b > 57 {
            assert(d[i - first] == b);
            return None;
        }
        let digit: usize = (b - 48) as usize;
        let ghost next = text@.subrange(first as int, i + 1);
        assert(next.drop_last() =~= text@.subrange(first as int, i as int));
        assert(next.last() == b);
        assert(decimal_value(next) == value * 10 + digit);
        if value > (usize::MAX - digit) / 10 {
            assert(value * 10 + digit > usize::MAX) by (nonlinear_arith)
                requires
                    value > (usize::MAX - digit) / 10,
                    digit <= 9,
            ;
            proof {
                if all_digits(d) {
                    assert(d.take(i + 1 - first) =~= next);
                    lemma_decimal_value_prefix(d, (i + 1 - first) as int);
                }
            }
            return None;
        }
        assert(value * 10 + digit <= usize::MAX) by (nonlinear_arith)
            requires
                value <= (usize::MAX - digit) / 10,
                digit <= 9,
        ;
        value = value * 10 + digit;
        i = i + 1;
    }
    assert(text@.subrange(first as int, i as int) == d);
    assert(all_digits(d)) by {
        assert forall|j: int| 0 <= j < d.len() implies is_digit(#[trigger] d[j]) by {
            assert(d[j] == text@[first + j]);
        }
    }
    Some(value)
}

/// The numbers of the line `text[start..end]`, padded as `pad_line` says;
/// `None` when one of its tokens is not an unsigned number.
fn parse_line(text: &[u8], start: usize, end: usize) -> (result: Option<Vec<usize>>)
    requires
        start <= end <= text.len(),
    ensures
        result is Some <==> line_values(text@.subrange(start as int, end as int)) is Some,
        result matches Some(v) ==> line_values(text@.subrange(start as int, end as int)) == Some(
            v@,
        ),
{
    let mut values: Vec<usize> = Vec::new();
    let mut ok = true;
    let mut token_start: usize = start;
    let mut j: usize = start;
    let ghost mut done: Seq<Seq<u8>> = Seq::empty();
    assert(text@.subrange(start as int, start as int) =~= Seq::<u8>::empty());
    assert(pieces(Seq::<u8>::empty(), SPACE) =~= done.push(
        text@.subrange(token_start as int, j as int),
    ));
    while j < end
        invariant
            start <= token_start <= j <= end <= text.len(),
            pieces(text@.subrange(start as int, j as int), SPACE) == done.push(
                text@.subrange(token_start as int, j as int),
            ),
            ok <==> parse_tokens(done) is Some,
            ok ==> parse_tokens(done) == Some(values@),
        decreases end - j,
    {
        let ghost prefix = text@.subrange(start as int, j + 1);
        assert(prefix.drop_last() =~= text@.subrange(start as int, j as int));
        assert(prefix.last() == text@[j as int]);
        if text[j] == SPACE {
            let ghost tok = text@.subrange(token_start as int, j as int);
            if ok {
                match parse_token(text, token_start, j) {
                    Some(v) => {
                        values.push(v);
                    },
                    None => {
                        ok = false;
                    },
                }
            }
            proof {
                let nd = done.push(tok);
                assert(nd.drop_last() =~= done);
                assert(nd.last() == tok);
                done = nd;
                assert(text@.subrange(j + 1, j + 1) =~= Seq::<u8>::empty());
            }
            token_start = j + 1;
        } else {
            proof {
                assert(text@.subrange(token_start as int, j + 1) =~= text@.subrange(
                    token_start as int,
                    j as int,
                ).push(text@[j as int]));
                lemma_pieces_nonempty(text@.subrange(start as int, j as int), SPACE);
                assert(done.push(text@.subrange(token_start as int, j as int)).update(
                    done.len() as int,
                    text@.subrange(token_start as int, j + 1),
                ) =~= done.push(text@.subrange(token_start as int, j + 1)));
            }
        }
        j = j + 1;
    }
    let ghost last = text@.subrange(token_start as int, end as int);
    let ghost all = done.push(last);
    assert(all.drop_last() =~= done);
    assert(all.last() == last);
    if !ok {
        return None;
    }
    match parse_token(text, token_start, end) {
        Some(v) => {
            values.push(v);
        },
        None => {
            return None;
        },
    }
    assert(parse_tokens(all) == Some(values@));
    if values.len() == 2 {
        values.push(0);
    } else if values.len() == 3 {
        values.push(1);
    }
    Some(values)
}

/// All numbers of a rotation schedule (the bytes of the file), line by line,
/// padded as `pad_line` says; `None` exactly when some token is not an
/// unsigned number.
pub fn parse_rotation_values(text: &[u8]) -> (result: Option<Vec<usize>>)
    ensures
        result is Some <==> rotation_file_values(text@) is Some,
        result matches Some(v) ==> rotation_file_values(text@) == Some(v@),
{
    let mut values: Vec<usize> = Vec::new();
    let mut ok = true;
    let mut line_start: usize = 0;
    let mut i: usize = 0;
    let ghost mut done: Seq<Seq<u8>> = Seq::empty();
    assert(text@.subrange(0, 0) =~= Seq::<u8>::empty());
    assert(pieces(Seq::<u8>::empty(), NEWLINE) =~= done.push(
        text@.subrange(line_start as int, i as int),
    ));
    while i < text.len()
        invariant
            line_start <= i <= text.len(),
            pieces(text@.subrange(0, i as int), NEWLINE) == done.push(
                text@.subrange(line_start as int, i as int),
            ),
            ok <==> lines_values(done.map_values(|l: Seq<u8>| strip_carriage_return(l))) is Some,
            ok ==> lines_values(done.map_values(|l: Seq<u8>| strip_carriage_return(l))) == Some(
                values@,
            ),
        decreases text.len() - i,
    {
        let ghost prefix = text@.subrange(0, i + 1);
        assert(prefix.drop_last() =~= text@.subrange(0, i as int));
        assert(prefix.last() == text@[i as int]);
        if text[i] == NEWLINE {
            let ghost raw = text@.subrange(line_start as int, i as int);
            let line_end: usize = if i > line_start && text[i - 1] == CARRIAGE_RETURN {
                i - 1
            } else {
                i
            };
            assert(strip_carriage_return(raw) =~= text@.subrange(
                line_start as int,
                line_end as int,
            ));
            let ghost old_lines = done.map_values(|l: Seq<u8>| strip_carriage_return(l));
            if ok {
                match parse_line(text, line_start, line_end) {
                    Some(lv) => {
                        let mut lv = lv;
                        values.append(&mut lv);
                    },
                    None => {
                        ok = false;
                    },
                }
            }
            proof {
                let nd = done.push(raw);
                let new_lines = nd.map_values(|l: Seq<u8>| strip_carriage_return(l));
                assert(new_lines =~= old_lines.push(strip_carriage_return(raw)));
                assert(new_lines.drop_last() =~= old_lines);
                done = nd;
                assert(text@.subrange(i + 1, i + 1) =~= Seq::<u8>::empty());
            }
            line_start = i + 1;
        } else {
            proof {
                assert(text@.subrange(line_start as int, i + 1) =~= text@.subrange(
                    line_start as int,
                    i as int,
                ).push(text@[i as int]));
                assert(done.push(text@.subrange(line_start as int, i as int)).update(
                    done.len() as int,
                    text@.subrange(line_start as int, i + 1),
                ) =~= done.push(text@.subrange(line_start as int, i + 1)));
            }
        }
        i = i + 1;
    }
    let ghost last = text@.subrange(line_start as int, text.len() as int);
    let ghost complete = done.map_values(|l: Seq<u8>| strip_carriage_return(l));
    assert(text@.subrange(0, text.len() as int) =~= text@);
    assert(done.push(last).drop_last() =~= done);
    assert(text_lines(text@) == (if last.len() == 0 {
        complete
    } else {
        complete.push(last)
    }));
    if !ok {
        proof {
            if last.len() > 0 {
                assert(complete.push(last).drop_last() =~= complete);
            }
        }
        return None;
    }
    if line_start < text.len() {
        assert(complete.push(last).drop_last() =~= complete);
        match parse_line(text, line_start, text.len()) {
            Some(lv) => {
                let mut lv = lv;
                values.append(&mut lv);
            },
            None => {
                return None;
            },
        }
    }
    Some(values)
}

/// Law: a line of three numbers stands for a whole turn: it is read as the
/// same line with a fourth number 1.
pub proof fn lemma_three_numbers_mean_whole_turn(line: Seq<u8>)
    requires
        line_values(line) is Some,
        parse_tokens(pieces(line, SPACE)).unwrap().len() == 3,
    ensures
        line_values(line.push(SPACE).push(49u8)) == line_values(line),
{
    let with_space = line.push(SPACE);
    let extended = with_space.push(49u8);
    assert(with_space.drop_last() =~= line);
    assert(extended.drop_last() =~= with_space);
    lemma_pieces_nonempty(line, SPACE);
    let p = pieces(line, SPACE);
    let q = pieces(extended, SPACE);
    assert(pieces(with_space, SPACE) == p.push(Seq::<u8>::empty()));
    assert(q =~= p.push(seq![49u8]));
    assert(q.drop_last() =~= p);
    let one = seq![49u8];
    assert(unsigned_digits(one) =~= one);
    assert(one.drop_last() =~= Seq::<u8>::empty());
    assert(decimal_value(Seq::<u8>::empty()) == 0);
    assert(one.last() == 49u8);
    assert(decimal_value(one) == decimal_value(one.drop_last()) * 10 + (one.last() - 48) as nat);
    assert(decimal_value(one) == 1);
    assert(parse_usize_token(one) == Some(1usize));
}

/// Appending bytes without a separator to a text only lengthens its last
/// piece.
pub proof fn lemma_pieces_append_plain(t: Seq<u8>, s: Seq<u8>, sep: u8)
    requires
        forall|i: int| 0 <= i < s.len() ==> s[i] != sep,
    ensures
        pieces(t + s, sep) == pieces(t, sep).update(
            pieces(t, sep).len() - 1,
            pieces(t, sep).last() + s,
        ),
    decreases s.len(),
{
    lemma_pieces_nonempty(t, sep);
    let p = pieces(t, sep);
    if s.len() == 0 {
        assert(t + s =~= t);
        assert(p.last() + s =~= p.last());
        assert(p.update(p.len() - 1, p.last() + s) =~= p);
    } else {
        lemma_pieces_append_plain(t, s.drop_last(), sep);
        assert((t + s).drop_last() =~= t + s.drop_last());
        assert((t + s).last() == s.last());
        assert(s.last() != sep);
        let q = p.update(p.len() - 1, p.last() + s.drop_last());
        assert((p.last() + s.drop_last()).push(s.last()) =~= p.last() + s);
        assert(q.update(q.len() - 1, q.last().push(s.last())) =~= p.update(
            p.len() - 1,
            p.last() + s,
        ));
    }
}

/// Law: the values of a schedule are those of its lines, in order: adding a
/// line (and its newline) after whole lines appends the line's padded values
/// to the values of the text before it, and the schedule is readable exactly
/// when both parts are.
pub proof fn lemma_schedule_line_by_line(text: Seq<u8>, line: Seq<u8>)
    requires
        text.len() == 0 || text.last() == NEWLINE,
        forall|i: int| 0 <= i < line.len() ==> line[i] != NEWLINE,
    ensures
        rotation_file_values(text + line.push(NEWLINE)) == (match (
            rotation_file_values(text),
            line_values(strip_carriage_return(line)),
        ) {
            (Some(a), Some(b)) => Some(a + b),
            _ => None,
        }),
        rotation_file_values(text + line.push(NEWLINE)) is Some ==> rotation_file_values(
            text + line.push(NEWLINE),
        ).unwrap().len() == rotation_file_values(text).unwrap().len() + line_values(
            strip_carriage_return(line),
        ).unwrap().len(),
{
    lemma_pieces_nonempty(text, NEWLINE);
    let p = pieces(text, NEWLINE);
    if text.len() == 0 {
        assert(p =~= seq![Seq::<u8>::empty()]);
    } else {
        assert(text.drop_last().push(NEWLINE) =~= text);
        lemma_pieces_nonempty(text.drop_last(), NEWLINE);
    }
    assert(p.last() =~= Seq::<u8>::empty());
    lemma_pieces_append_plain(text, line, NEWLINE);
    let with_line = text + line;
    let q = pieces(with_line, NEWLINE);
    assert(p.last() + line =~= line);
    assert(q =~= p.drop_last().push(line));
    let full = text + line.push(NEWLINE);
    assert(full =~= with_line.push(NEWLINE));
    assert(full.drop_last() =~= with_line);
    let r = pieces(full, NEWLINE);
    assert(r == q.push(Seq::<u8>::empty()));
    let before = p.drop_last().map_values(|l: Seq<u8>| strip_carriage_return(l));
    assert(text_lines(text) == before);
    assert(r.drop_last() =~= p.drop_last().push(line));
    assert(r.drop_last().map_values(|l: Seq<u8>| strip_carriage_return(l)) =~= before.push(
        strip_carriage_return(line),
    ));
    assert(text_lines(full) == before.push(strip_carriage_return(line)));
    assert(before.push(strip_carriage_return(line)).drop_last() =~= before);
}

/// Law: a carriage return before a newline changes nothing, and the newline
/// after the last line may be left out (unless that line ends in a carriage
/// return, which then stays part of its last number).
pub proof fn lemma_line_endings(text: Seq<u8>, line: Seq<u8>)
    requires
        text.len() == 0 || text.last() == NEWLINE,
        forall|i: int| 0 <= i < line.len() ==> line[i] != NEWLINE,
        line.len() == 0 || line.last() != CARRIAGE_RETURN,
    ensures
        rotation_file_values(text + line.push(CARRIAGE_RETURN).push(NEWLINE))
            == rotation_file_values(text + line.push(NEWLINE)),
        line.len() > 0 ==> rotation_file_values(text + line) == rotation_file_values(
            text + line.push(NEWLINE),
        ),
{
    let cr_line = line.push(CARRIAGE_RETURN);
    assert forall|i: int| 0 <= i < cr_line.len() implies cr_line[i] != NEWLINE by {
        if i < line.len() {
            assert(cr_line[i] == line[i]);
        }
    }
    lemma_schedule_line_by_line(text, cr_line);
    lemma_schedule_line_by_line(text, line);
    assert(cr_line.drop_last() =~= line);
    assert(strip_carriage_return(cr_line) == line);
    assert(strip_carriage_return(line) == line);
    if line.len() > 0 {
        lemma_pieces_nonempty(text, NEWLINE);
        let p = pieces(text, NEWLINE);
        if text.len() == 0 {
            assert(p =~= seq![Seq::<u8>::empty()]);
        } else {
            assert(text.drop_last().push(NEWLINE) =~= text);
            lemma_pieces_nonempty(text.drop_last(), NEWLINE);
        }
        assert(p.last() =~= Seq::<u8>::empty());
        lemma_pieces_append_plain(text, line, NEWLINE);
        let q = pieces(text + line, NEWLINE);
        assert(p.last() + line =~= line);
        assert(q =~= p.drop_last().push(line));
        assert(q.drop_last() =~= p.drop_last());
        let before = p.drop_last().map_values(|l: Seq<u8>| strip_carriage_return(l));
        assert(text_lines(text) == before);
        assert(text_lines(text + line) == before.push(line));
        assert(before.push(line).drop_last() =~= before);
    }
}

/// Law: a text without a newline is a single line, and an empty text holds
/// no values.
pub proof fn lemma_schedule_single_line(line: Seq<u8>)
    requires
        forall|i: int| 0 <= i < line.len() ==> line[i] != NEWLINE,
    ensures
        line.len() > 0 ==> rotation_file_values(line) == line_values(line),
        line.len() == 0 ==> rotation_file_values(line) == Some(Seq::<usize>::empty()),
{
    lemma_pieces_append_plain(Seq::<u8>::empty(), line, NEWLINE);
    assert(Seq::<u8>::empty() + line =~= line);
    let p = pieces(line, NEWLINE);
    assert(pieces(Seq::<u8>::empty(), NEWLINE) =~= seq![Seq::<u8>::empty()]);
    assert(Seq::<u8>::empty() + line =~= line);
    assert(p =~= seq![line]);
    assert(p.drop_last() =~= Seq::<Seq<u8>>::empty());
    assert(p.drop_last().map_values(|l: Seq<u8>| strip_carriage_return(l)) =~= Seq::<
        Seq<u8>,
    >::empty());
    if line.len() > 0 {
        assert(p.last() == line);
        assert(text_lines(line) =~= seq![line]);
        assert(seq![line].drop_last() =~= Seq::<Seq<u8>>::empty());
        assert(seq![line].last() == line);
        assert(lines_values(Seq::<Seq<u8>>::empty()) == Some(Seq::<usize>::empty()));
        match line_values(line) {
            Some(b) => {
                assert(Seq::<usize>::empty() + b =~= b);
            },
            None => {},
        }
    } else {
        assert(text_lines(line) =~= Seq::<Seq<u8>>::empty());
    }
}

/// Law: a string of decimal digits, with or without one plus sign before it,
/// reads as the number it denotes when that fits, and not when it does not; a
/// token with any other byte after its first, or that starts with neither a
/// digit nor a plus sign, or is empty or a lone plus sign, does not read.
pub proof fn lemma_token_reading(digits: Seq<u8>)
    ensures
        digits.len() > 0 && all_digits(digits) && decimal_value(digits) <= usize::MAX ==> {
            &&& parse_usize_token(digits) == Some(decimal_value(digits) as usize)
            &&& parse_usize_token(seq![PLUS] + digits) == Some(decimal_value(digits) as usize)
        },
        digits.len() > 0 && all_digits(digits) && decimal_value(digits) > usize::MAX ==> {
            &&& parse_usize_token(digits) is None
            &&& parse_usize_token(seq![PLUS] + digits) is None
        },
        (exists|i: int| 1 <= i < digits.len() && !is_digit(#[trigger] digits[i])) ==> {
            &&& parse_usize_token(digits) is None
            &&& parse_usize_token(seq![PLUS] + digits) is None
        },
        digits.len() > 0 && !is_digit(digits[0]) && digits[0] != PLUS ==> {
            &&& parse_usize_token(digits) is None
            &&& parse_usize_token(seq![PLUS] + digits) is None
        },
        parse_usize_token(Seq::<u8>::empty()) is None,
        parse_usize_token(seq![PLUS]) is None,
{
    let plus = seq![PLUS] + digits;
    assert(plus[0] == PLUS);
    assert(seq![PLUS].len() == 1);
    if digits.len() > 0 {
        assert(plus.drop_first() =~= digits);
        assert(unsigned_digits(plus) == digits);
        if digits[0] != PLUS {
            assert(unsigned_digits(digits) == digits);
        }
    } else {
        assert(plus =~= seq![PLUS]);
        assert(!is_digit(PLUS));
    }
    if exists|i: int| 1 <= i < digits.len() && !is_digit(#[trigger] digits[i]) {
        let i = choose|i: int| 1 <= i < digits.len() && !is_digit(#[trigger] digits[i]);
        let d = unsigned_digits(digits);
        if d == digits {
            assert(!is_digit(d[i]));
        } else {
            assert(d =~= digits.drop_first());
            assert(d[i - 1] == digits[i]);
            assert(!is_digit(d[i - 1]));
        }
        assert(!all_digits(d));
        assert(!is_digit(unsigned_digits(plus)[i]));
    }
    if digits.len() > 0 && !is_digit(digits[0]) && digits[0] != PLUS {
        assert(unsigned_digits(digits) == digits);
        assert(!is_digit(unsigned_digits(plus)[0]));
    }
}

/// Law: a line of whole numbers separated by single spaces reads as those
/// numbers, with a 1 appended after three and a 0 after two.
pub proof fn lemma_line_reading(a: Seq<u8>, b: Seq<u8>, c: Seq<u8>, d: Seq<u8>)
    requires
        parse_usize_token(a) is Some,
        parse_usize_token(b) is Some,
        parse_usize_token(c) is Some,
        parse_usize_token(d) is Some,
        forall|i: int| 0 <= i < a.len() ==> a[i] != SPACE,
        forall|i: int| 0 <= i < b.len() ==> b[i] != SPACE,
        forall|i: int| 0 <= i < c.len() ==> c[i] != SPACE,
        forall|i: int| 0 <= i < d.len() ==> d[i] != SPACE,
    ensures
        line_values(a + seq![SPACE] + b) == Some(
            seq![parse_usize_token(a).unwrap(), parse_usize_token(b).unwrap(), 0usize],
        ),
        line_values(a + seq![SPACE] + b + seq![SPACE] + c) == Some(
            seq![
                parse_usize_token(a).unwrap(),
                parse_usize_token(b).unwrap(),
                parse_usize_token(c).unwrap(),
                1usize,
            ],
        ),
        line_values(a + seq![SPACE] + b + seq![SPACE] + c + seq![SPACE] + d) == Some(
            seq![
                parse_usize_token(a).unwrap(),
                parse_usize_token(b).unwrap(),
                parse_usize_token(c).unwrap(),
                parse_usize_token(d).unwrap(),
            ],
        ),
{
    let e = Seq::<u8>::empty();
    lemma_pieces_append_plain(e, a, SPACE);
    assert(e + a =~= a);
    assert(pieces(e, SPACE) =~= seq![e]);
    assert(e + a =~= a);
    let pa = pieces(a, SPACE);
    assert(pa =~= seq![a]);
    let t1 = a + seq![SPACE];
    assert(t1.drop_last() =~= a);
    assert(pieces(t1, SPACE) =~= seq![a, e]);
    let t2 = t1 + b;
    lemma_pieces_append_plain(t1, b, SPACE);
    assert(e + b =~= b);
    assert(pieces(t2, SPACE) =~= seq![a, b]);
    assert(a + seq![SPACE] + b =~= t2);
    let t3 = t2 + seq![SPACE];
    assert(t3.drop_last() =~= t2);
    assert(pieces(t3, SPACE) =~= seq![a, b, e]);
    let t4 = t3 + c;
    lemma_pieces_append_plain(t3, c, SPACE);
    assert(e + c =~= c);
    assert(pieces(t4, SPACE) =~= seq![a, b, c]);
    assert(a + seq![SPACE] + b + seq![SPACE] + c =~= t4);
    let t5 = t4 + seq![SPACE];
    assert(t5.drop_last() =~= t4);
    assert(pieces(t5, SPACE) =~= seq![a, b, c, e]);
    let t6 = t5 + d;
    lemma_pieces_append_plain(t5, d, SPACE);
    assert(e + d =~= d);
    assert(pieces(t6, SPACE) =~= seq![a, b, c, d]);
    assert(a + seq![SPACE] + b + seq![SPACE] + c + seq![SPACE] + d =~= t6);
    let va = parse_usize_token(a).unwrap();
    let vb = parse_usize_token(b).unwrap();
    let vc = parse_usize_token(c).unwrap();
    let vd = parse_usize_token(d).unwrap();
    assert(seq![a].drop_last() =~= Seq::<Seq<u8>>::empty());
    assert(seq![a].last() == a);
    assert(parse_tokens(Seq::<Seq<u8>>::empty()) == Some(Seq::<usize>::empty()));
    assert(parse_tokens(seq![a]) == Some(seq![va])) by {
        assert(Seq::<usize>::empty().push(va) =~= seq![va]);
    }
    assert(seq![a, b].drop_last() =~= seq![a]);
    assert(seq![a, b].last() == b);
    assert(parse_tokens(seq![a, b]) == Some(seq![va, vb])) by {
        assert(seq![va].push(vb) =~= seq![va, vb]);
    }
    assert(seq![a, b, c].drop_last() =~= seq![a, b]);
    assert(seq![a, b, c].last() == c);
    assert(parse_tokens(seq![a, b, c]) == Some(seq![va, vb, vc])) by {
        assert(seq![va, vb].push(vc) =~= seq![va, vb, vc]);
    }
    assert(seq![a, b, c, d].drop_last() =~= seq![a, b, c]);
    assert(seq![a, b, c, d].last() == d);
    assert(parse_tokens(seq![a, b, c, d]) == Some(seq![va, vb, vc, vd])) by {
        assert(seq![va, vb, vc].push(vd) =~= seq![va, vb, vc, vd]);
    }
    assert(seq![va, vb].push(0usize) =~= seq![va, vb, 0usize]);
    assert(seq![va, vb, vc].push(1usize) =~= seq![va, vb, vc, 1usize]);
}

/// One rotation of the recorded sequence: the plane of the two axes, whether it
/// is applied in world space (global) rather than in the shape's own space,
/// and the divisor of a full turn that the whole recording covers.
#[derive(Clone, Copy, Debug, PartialEq, Eq, Structural)]
pub struct Rotation {
    pub first_axis: usize,
    pub second_axis: usize,
    pub global: bool,
    pub turn_divisor: usize,
}

pub open spec fn rotation_at(values: Seq<usize>, k: int) -> Rotation {
    Rotation {
        first_axis: values[4 * k],
        second_axis: values[4 * k + 1],
        global: values[4 * k + 2] == 1,
        turn_divisor: values[4 * k + 3],
    }
}

/// Groups the numbers of a schedule four by four into rotations.
pub fn rotations_from_values(values: &Vec<usize>) -> (result: Vec<Rotation>)
    requires
        values.len() % 4 == 0,
    ensures
        result.len() == values.len() / 4,
        forall|k: int| 0 <= k < result.len() ==> #[trigger] result[k] == rotation_at(values@, k),
        forall|k: int|
            0 <= k < result.len() ==> {
                &&& (#[trigger] result[k]).first_axis == values@[4 * k]
                &&& result[k].second_axis == values@[4 * k + 1]
                &&& result[k].global == (values@[4 * k + 2] == 1)
                &&& result[k].turn_divisor == values@[4 * k + 3]
            },
{
    let mut result: Vec<Rotation> = Vec::new();
    let mut i: usize = 0;
    while i < values.len()
        invariant
            values.len() % 4 == 0,
            i % 4 == 0,
            i <= values.len(),
            result.len() == i / 4,
            forall|k: int| 0 <= k < result.len() ==> #[trigger] result[k] == rotation_at(
                values@,
                k,
            ),
        decreases values.len() - i,
    {
        let r = Rotation {
            first_axis: values[i],
            second_axis: values[i + 1],
            global: values[i + 2] == 1,
            turn_divisor: values[i + 3],
        };
        result.push(r);
        i = i + 4;
    }
    result
}

} // verus!

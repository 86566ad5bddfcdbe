//! The plain-text puzzle format: one line per row, comma-separated values,
//! 0 for an unknown cell.  Spaces are ignored, an empty token ends a row
//! early, and empty rows are dropped.  The writer emits one digit per cell,
//! comma-separated, each row newline-terminated.

use vstd::prelude::*;

use crate::grid::GridValues;
use crate::model::wf_grid;

verus! {

pub const NEWLINE: u8 = 10;
pub const COMMA: u8 = 44;
pub const SPACE: u8 = 32;

/// An ASCII decimal digit.
pub open spec fn is_digit(b: u8) -> bool {
    48 <= b <= 57
}

/// First position of `sep` at or after `j`, or the length if none.
pub open spec fn first_sep(s: Seq<u8>, sep: u8, j: int) -> int
    decreases s.len() - j,
{
    if j < 0 || j >= s.len() {
        s.len() as int
    } else if s[j] == sep {
        j
    } else {
        first_sep(s, sep, j + 1)
    }
}

pub proof fn lemma_first_sep_bounds(s: Seq<u8>, sep: u8, j: int)
    requires
        0 <= j <= s.len(),
    ensures
        j <= first_sep(s, sep, j) <= s.len(),
        first_sep(s, sep, j) < s.len() ==> s[first_sep(s, sep, j)] == sep,
        forall|k: int| j <= k < first_sep(s, sep, j) ==> s[k] != sep,
    decreases s.len() - j,
{
    if j < s.len() && s[j] != sep {
        lemma_first_sep_bounds(s, sep, j + 1);
    }
}

pub proof fn lemma_first_sep_skip(s: Seq<u8>, sep: u8, j: int)
    requires
        0 <= j <= s.len(),
        forall|k: int| 0 <= k < j ==> s[k] != sep,
    ensures
        first_sep(s, sep, 0) == first_sep(s, sep, j),
    decreases j,
{
    if j > 0 {
        lemma_first_sep_skip(s, sep, j - 1);
    }
}

/// The sequence without its space bytes.
pub open spec fn strip_spaces(s: Seq<u8>) -> Seq<u8> {
    s.filter(|b: u8| b != SPACE)
}

/// The numeric value of a token of decimal digits, accumulated left to
/// right; `None` on a non-digit or a value that does not fit in a byte.
pub open spec fn token_value_from(t: Seq<u8>, j: int, acc: int) -> Option<u8>
    decreases t.len() - j,
{
    if j < 0 || acc < 0 || acc > 255 {
        None
    } else if j >= t.len() {
        Some(acc as u8)
    } else if !is_digit(t[j]) {
        None
    } else {
        let acc2 = acc * 10 + (t[j] - 48);
        if acc2 > 255 {
            None
        } else {
            token_value_from(t, j + 1, acc2)
        }
    }
}

/// The numeric value of a non-empty all-digit token that fits in a byte.
pub open spec fn token_value(t: Seq<u8>) -> Option<u8> {
    if t.len() == 0 {
        None
    } else {
        token_value_from(t, 0, 0)
    }
}

/// One row parsed from a space-stripped line: comma-separated tokens, an
/// empty token ending the row early.
pub open spec fn parse_row(line: Seq<u8>) -> Option<Seq<u8>>
    decreases line.len(),
{
    let p = first_sep(line, COMMA, 0);
    if !(0 <= p <= line.len()) {
        None
    } else {
        let tok = line.subrange(0, p);
        if tok.len() == 0 {
            Some(Seq::empty())
        } else {
            match token_value(tok) {
                None => None,
                Some(v) => {
                    if p == line.len() {
                        Some(seq![v])
                    } else {
                        match parse_row(line.subrange(p + 1, line.len() as int)) {
                            None => None,
                            Some(rest) => Some(seq![v] + rest),
                        }
                    }
                },
            }
        }
    }
}

/// The whole text parsed into rows: newline-separated lines, spaces
/// stripped, empty rows dropped.
pub open spec fn parse_text(s: Seq<u8>) -> Option<Seq<Seq<u8>>>
    decreases s.len(),
{
    let p = first_sep(s, NEWLINE, 0);
    if !(0 <= p <= s.len()) {
        None
    } else {
        match parse_row(strip_spaces(s.subrange(0, p))) {
            None => None,
            Some(row) => {
                let rest = if p == s.len() {
                    Some(Seq::<Seq<u8>>::empty())
                } else {
                    parse_text(s.subrange(p + 1, s.len() as int))
                };
                match rest {
                    None => None,
                    Some(rest) => {
                        if row.len() > 0 {
                            Some(seq![row] + rest)
                        } else {
                            Some(rest)
                        }
                    },
                }
            },
        }
    }
}

/// One row rendered: one digit per cell, comma-separated.
pub open spec fn render_row(row: Seq<u8>) -> Seq<u8>
    decreases row.len(),
{
    if row.len() == 0 {
        Seq::empty()
    } else if row.len() == 1 {
        seq![(48 + row[0]) as u8]
    } else {
        seq![(48 + row[0]) as u8, COMMA] + render_row(row.drop_first())
    }
}

/// The whole board rendered: each row newline-terminated.
pub open spec fn render_text(g: Seq<Seq<u8>>) -> Seq<u8>
    decreases g.len(),
{
    if g.len() == 0 {
        Seq::empty()
    } else {
        render_row(g[0]) + seq![NEWLINE] + render_text(g.drop_first())
    }
}

/// The text does not parse: a token is not a number fitting one byte.
#[derive(Debug, Clone, Copy, PartialEq, Eq, Structural)]
pub struct SudokuParseError;

/// Stripping distributes over appending one byte.
proof fn lemma_strip_push(s: Seq<u8>, b: u8)
    ensures
        strip_spaces(s.push(b)) == (if b != SPACE {
            strip_spaces(s).push(b)
        } else {
            strip_spaces(s)
        }),
{
    reveal(Seq::filter);
    assert(s.push(b).drop_last() =~= s);
    assert(s.push(b).last() == b);
}

/// Finds the next separator byte at or after `start`, or the end of the text.
fn find_sep(text: &Vec<u8>, sep: u8, start: usize) -> (p: usize)
    requires
        start <= text@.len(),
    ensures
        start <= p <= text@.len(),
        p - start == first_sep(text@.subrange(start as int, text@.len() as int), sep, 0),
        p < text@.len() ==> text@[p as int] == sep,
        forall|k: int| start <= k < p ==> text@[k] != sep,
{
    let ghost sub = text@.subrange(start as int, text@.len() as int);
    let mut cur: usize = start;
    while cur < text.len()
        invariant
            start <= cur <= text@.len(),
            sub == text@.subrange(start as int, text@.len() as int),
            forall|k: int| start <= k < cur ==> text@[k] != sep,
        decreases text@.len() - cur,
    {
        if text[cur] == sep {
            proof {
                assert forall|k: int| 0 <= k < cur - start implies sub[k] != sep by {
                    assert(sub[k] == text@[start + k]);
                }
                lemma_first_sep_skip(sub, sep, cur as int - start as int);
                assert(sub[cur as int - start as int] == sep);
            }
            return cur;
        }
        cur += 1;
    }
    proof {
        assert forall|k: int| 0 <= k < sub.len() implies sub[k] != sep by {
            assert(sub[k] == text@[start + k]);
        }
        lemma_first_sep_skip(sub, sep, sub.len() as int);
    }
    text.len()
}

/// Copies the bytes of `[start, end)` with every space left out.
fn strip_range(text: &Vec<u8>, start: usize, end: usize) -> (r: Vec<u8>)
    requires
        start <= end <= text@.len(),
    ensures
        r@ == strip_spaces(text@.subrange(start as int, end as int)),
{
    let mut r: Vec<u8> = Vec::new();
    proof {
        reveal(Seq::filter);
        assert(text@.subrange(start as int, start as int) =~= Seq::<u8>::empty());
    }
    let mut cur: usize = start;
    while cur < end
        invariant
            start <= cur <= end <= text@.len(),
            r@ == strip_spaces(text@.subrange(start as int, cur as int)),
        decreases end - cur,
    {
        let b = text[cur];
        proof {
            assert(text@.subrange(start as int, cur as int + 1) =~= text@.subrange(
                start as int,
                cur as int,
            ).push(b));
            lemma_strip_push(text@.subrange(start as int, cur as int), b);
        }
        if b != SPACE {
            r.push(b);
        }
        cur += 1;
    }
    r
}

/// Parses one all-digit token as a byte value.
fn parse_token(tok: &Vec<u8>) -> (r: Option<u8>)
    ensures
        r == token_value(tok@),
{
    if tok.len() == 0 {
        return None;
    }
    let mut acc: u32 = 0;
    let mut j: usize = 0;
    while j < tok.len()
        invariant
            j <= tok@.len(),
            tok@.len() > 0,
            acc <= 255,
            token_value(tok@) == token_value_from(tok@, j as int, acc as int),
        decreases tok@.len() - j,
    {
        let b = tok[j];
        if b < 48 || b > 57 {
            return None;
        }
        let acc2 = acc * 10 + (b - 48) as u32;
        if acc2 > 255 {
            return None;
        }
        acc = acc2;
        j += 1;
    }
    Some(acc as u8)
}

/// Copies the bytes of `[start, end)`.
fn copy_range(text: &Vec<u8>, start: usize, end: usize) -> (r: Vec<u8>)
    requires
        start <= end <= text@.len(),
    ensures
        r@ == text@.subrange(start as int, end as int),
{
    let mut r: Vec<u8> = Vec::new();
    let mut cur: usize = start;
    while cur < end
        invariant
            start <= cur <= end <= text@.len(),
            r@ =~= text@.subrange(start as int, cur as int),
        decreases end - cur,
    {
        r.push(text[cur]);
        cur += 1;
    }
    proof {
        assert(r@ =~= text@.subrange(start as int, end as int));
    }
    r
}

/// Parses one space-stripped line as a row of values.
fn parse_line_row(line: &Vec<u8>) -> (r: Option<Vec<u8>>)
    ensures
        r is Some <==> parse_row(line@) is Some,
        r is Some ==> r->0@ == parse_row(line@)->Some_0,
{
    let mut row: Vec<u8> = Vec::new();
    let mut tstart: usize = 0;
    proof {
        assert(line@.subrange(0, line@.len() as int) =~= line@);
        if parse_row(line@) is Some {
            assert(Seq::<u8>::empty() + parse_row(line@)->Some_0 =~= parse_row(line@)->Some_0);
        }
    }
    loop
        invariant
            tstart <= line@.len(),
            parse_row(line@) == (match parse_row(line@.subrange(tstart as int, line@.len() as int)) {
                None => None::<Seq<u8>>,
                Some(rest) => Some(row@ + rest),
            }),
        decreases line@.len() - tstart,
    {
        let ghost suffix = line@.subrange(tstart as int, line@.len() as int);
        let q = find_sep(line, COMMA, tstart);
        proof {
            assert(suffix.subrange(0, q as int - tstart as int) =~= line@.subrange(
                tstart as int,
                q as int,
            ));
        }
        let tok = copy_range(line, tstart, q);

        if tok.len() == 0 {
            proof {
                assert(parse_row(suffix) == Some(Seq::<u8>::empty()));
                assert(row@ + Seq::<u8>::empty() =~= row@);
            }
            return Some(row);
        }

        let v = match parse_token(&tok) {
            Some(v) => v,
            None => {
                proof {
                    assert(parse_row(suffix) is None);
                }
                return None;
            },
        };

        row.push(v);

        if q == line.len() {
            proof {
                assert(parse_row(suffix) == Some(seq![v]));
                assert(row@ =~= row@.subrange(0, row@.len() - 1) + seq![v]);
            }
            return Some(row);
        }

        proof {
            let next = line@.subrange(q as int + 1, line@.len() as int);
            assert(suffix.subrange(
                q as int - tstart as int + 1,
                suffix.len() as int,
            ) =~= next);
            assert(parse_row(suffix) == (match parse_row(next) {
                None => None::<Seq<u8>>,
                Some(rest) => Some(seq![v] + rest),
            }));
            assert forall|rest: Seq<u8>| true implies row@ + rest =~= (row@.subrange(
                0,
                row@.len() - 1,
            ) + (seq![v] + rest)) by {}
        }
        tstart = q + 1;
    }
}

/// Parses the whole text as a board: one row per non-empty line.
pub fn parse_grid_text(text: &Vec<u8>) -> (r: Result<GridValues, SudokuParseError>)
    ensures
        r is Ok <==> parse_text(text@) is Some,
        r is Ok ==> r->Ok_0.deep_view() == parse_text(text@)->Some_0,
{
    let mut values: GridValues = Vec::new();
    let mut start: usize = 0;
    proof {
        assert(text@.subrange(0, text@.len() as int) =~= text@);
        assert(values.deep_view() =~= Seq::<Seq<u8>>::empty());
        if parse_text(text@) is Some {
            assert(values.deep_view() + parse_text(text@)->Some_0 =~= parse_text(text@)->Some_0);
        }
    }
    loop
        invariant
            start <= text@.len(),
            parse_text(text@) == (match parse_text(
                text@.subrange(start as int, text@.len() as int),
            ) {
                None => None::<Seq<Seq<u8>>>,
                Some(rest) => Some(values.deep_view() + rest),
            }),
        decreases text@.len() - start,
    {
        let ghost suffix = text@.subrange(start as int, text@.len() as int);
        let p = find_sep(text, NEWLINE, start);
        proof {
            assert(suffix.subrange(0, p as int - start as int) =~= text@.subrange(
                start as int,
                p as int,
            ));
        }
        let line = strip_range(text, start, p);

        let row = match parse_line_row(&line) {
            Some(row) => row,
            None => {
                proof {
                    assert(parse_text(suffix) is None);
                }
                return Err(SudokuParseError);
            },
        };

        let ghost values_before = values.deep_view();
        if row.len() > 0 {
            values.push(row);
        }

        if p == text.len() {
            proof {
                assert(parse_text(suffix) is Some);
                if parse_row(line@)->Some_0.len() > 0 {
                    assert(parse_text(suffix)->Some_0 =~= seq![parse_row(line@)->Some_0]);
                    assert(values.deep_view() =~~= values_before + seq![parse_row(line@)->Some_0]);
                    assert(values_before + parse_text(suffix)->Some_0 =~= values.deep_view());
                } else {
                    assert(values_before + parse_text(suffix)->Some_0 =~= values.deep_view());
                }
                assert(values.deep_view() + Seq::<Seq<u8>>::empty() =~= values.deep_view());
            }
            return Ok(values);
        }

        proof {
            let next = text@.subrange(p as int + 1, text@.len() as int);
            assert(suffix.subrange(p as int - start as int + 1, suffix.len() as int) =~= next);
            let row_s = parse_row(line@)->Some_0;
            if row_s.len() > 0 {
                assert(values.deep_view() =~~= values_before.push(row@));
                assert(row@ == row_s);
                assert forall|rest: Seq<Seq<u8>>| true implies values_before + (seq![row_s]
                    + rest) =~= values.deep_view() + rest by {}
            }
        }
        start = p + 1;
    }
}

/// Renders the board in the external format: one digit per cell, commas
/// between cells, each row ended by a newline.
pub fn render_grid(values: &GridValues) -> (r: Vec<u8>)
    requires
        wf_grid(values.deep_view()),
    ensures
        r@ == render_text(values.deep_view()),
{
    let ghost g = values.deep_view();
    let mut out: Vec<u8> = Vec::new();
    proof {
        assert(g.subrange(0, 9) =~= g);
        assert(Seq::<u8>::empty() + render_text(g) =~= render_text(g));
    }
    let mut i: usize = 0;
    while i < 9
        invariant
            i <= 9,
            wf_grid(g),
            g == values.deep_view(),
            render_text(g) == out@ + render_text(g.subrange(i as int, 9)),
        decreases 9 - i,
    {
        let ghost grest = g.subrange(i as int, 9);
        proof {
            assert(grest[0] == g[i as int]);
            assert(grest.drop_first() =~= g.subrange(i as int + 1, 9));
            assert(values@[i as int]@ =~= g[i as int]);
            assert(g[i as int].subrange(0, 9) =~= g[i as int]);
            assert(render_text(grest) == render_row(g[i as int]) + seq![NEWLINE] + render_text(
                g.subrange(i as int + 1, 9),
            ));
            assert(out@ + render_text(grest) =~= out@ + render_row(
                g[i as int].subrange(0, 9),
            ) + seq![NEWLINE] + render_text(g.subrange(i as int + 1, 9)));
        }
        let row = &values[i];
        let ghost rowv = g[i as int];
        let mut j: usize = 0;
        while j < 9
            invariant
                i < 9,
                j <= 9,
                wf_grid(g),
                g == values.deep_view(),
                row@ == rowv,
                rowv == g[i as int],
                rowv.len() == 9,
                render_text(g) == out@ + render_row(rowv.subrange(j as int, 9)) + seq![NEWLINE]
                    + render_text(g.subrange(i as int + 1, 9)),
            decreases 9 - j,
        {
            let ghost rrest = rowv.subrange(j as int, 9);
            proof {
                assert(rrest[0] == rowv[j as int]);
                assert(rowv[j as int] <= 9);
                if j < 8 {
                    assert(rrest.drop_first() =~= rowv.subrange(j as int + 1, 9));
                    assert(render_row(rrest) == seq![(48 + rrest[0]) as u8, COMMA] + render_row(
                        rowv.subrange(j as int + 1, 9),
                    ));
                } else {
                    assert(rrest.len() == 1);
                }
            }
            out.push(48 + row[j]);
            if j < 8 {
                out.push(COMMA);
            }
            proof {
                if j < 8 {
                    assert(out@ + render_row(rowv.subrange(j as int + 1, 9)) =~= (out@.subrange(
                        0,
                        out@.len() - 2,
                    ) + render_row(rrest)));
                } else {
                    assert(rowv.subrange(9, 9) =~= Seq::<u8>::empty());
                    assert(render_row(rrest) =~= seq![(48 + rowv[8]) as u8]);
                    assert(out@ + render_row(rowv.subrange(9, 9)) =~= (out@.subrange(
                        0,
                        out@.len() - 1,
                    ) + render_row(rrest)));
                }
            }
            j += 1;
        }
        out.push(NEWLINE);
        proof {
            assert(rowv.subrange(9, 9) =~= Seq::<u8>::empty());
            assert(render_row(rowv.subrange(9, 9)) =~= Seq::<u8>::empty());
            assert(out@ + render_text(g.subrange(i as int + 1, 9)) =~= (out@.subrange(
                0,
                out@.len() - 1,
            ) + render_row(rowv.subrange(9, 9)) + seq![NEWLINE] + render_text(
                g.subrange(i as int + 1, 9),
            )));
        }
        i += 1;
    }
    proof {
        assert(g.subrange(9, 9) =~= Seq::<Seq<u8>>::empty());
        assert(render_text(g.subrange(9, 9)) =~= Seq::<u8>::empty());
        assert(out@ =~= render_text(g));
    }
    out
}

/// Every byte of a rendered row is a digit or a comma.
proof fn lemma_render_row_bytes(row: Seq<u8>)
    requires
        forall|k: int| 0 <= k < row.len() ==> #[trigger] row[k] <= 9,
    ensures
        render_row(row).len() == (if row.len() == 0 {
            0int
        } else {
            2 * row.len() - 1
        }),
        forall|k: int|
            0 <= k < render_row(row).len() ==> (is_digit(#[trigger] render_row(row)[k])
                || render_row(row)[k] == COMMA),
    decreases row.len(),
{
    if row.len() > 1 {
        lemma_render_row_bytes(row.drop_first());
        let head = seq![(48 + row[0]) as u8, COMMA];
        let tail = render_row(row.drop_first());
        assert forall|k: int|
            0 <= k < render_row(row).len() implies (is_digit(#[trigger] render_row(row)[k])
            || render_row(row)[k] == COMMA) by {
            if k >= 2 {
                assert(render_row(row)[k] == tail[k - 2]);
            }
        }
    }
}

/// A sequence without spaces is unchanged by space stripping.
proof fn lemma_strip_no_space(s: Seq<u8>)
    requires
        forall|k: int| 0 <= k < s.len() ==> #[trigger] s[k] != SPACE,
    ensures
        strip_spaces(s) == s,
    decreases s.len(),
{
    reveal(Seq::filter);
    if s.len() > 0 {
        lemma_strip_no_space(s.drop_last());
        assert(strip_spaces(s) =~= s);
    }
}

/// In `a + [sep] + b` with `a` free of the separator, the first separator
/// stands right after `a`.
proof fn lemma_first_sep_concat(a: Seq<u8>, b: Seq<u8>, sep: u8)
    requires
        forall|k: int| 0 <= k < a.len() ==> #[trigger] a[k] != sep,
    ensures
        first_sep(a + seq![sep] + b, sep, 0) == a.len(),
{
    let s = a + seq![sep] + b;
    assert forall|k: int| 0 <= k < a.len() implies s[k] != sep by {
        assert(s[k] == a[k]);
    }
    lemma_first_sep_skip(s, sep, a.len() as int);
    assert(s[a.len() as int] == sep);
}

/// A single rendered digit parses back to its value.
proof fn lemma_token_single_digit(v: u8)
    requires
        v <= 9,
    ensures
        token_value(seq![(48 + v) as u8]) == Some(v),
{
    let t = seq![(48 + v) as u8];
    assert(is_digit(t[0]));
    assert(token_value_from(t, 0, 0) == token_value_from(t, 1, v as int));
}

/// A rendered row parses back to the row itself.
proof fn lemma_parse_render_row(row: Seq<u8>)
    requires
        row.len() >= 1,
        forall|k: int| 0 <= k < row.len() ==> #[trigger] row[k] <= 9,
    ensures
        parse_row(render_row(row)) == Some(row),
    decreases row.len(),
{
    let s = render_row(row);
    lemma_render_row_bytes(row);
    if row.len() == 1 {
        assert(s == seq![(48 + row[0]) as u8]);
        assert(s[0] != COMMA);
        lemma_first_sep_bounds(s, COMMA, 0);
        assert(first_sep(s, COMMA, 0) == 1);
        assert(s.subrange(0, 1) =~= s);
        lemma_token_single_digit(row[0]);
        assert(seq![row[0]] =~= row);
    } else {
        let rest = row.drop_first();
        lemma_parse_render_row(rest);
        lemma_render_row_bytes(rest);
        let a = seq![(48 + row[0]) as u8];
        let tail = render_row(rest);
        assert(s == seq![(48 + row[0]) as u8, COMMA] + tail);
        assert(s =~= a + seq![COMMA] + tail);
        lemma_first_sep_concat(a, tail, COMMA);
        assert(first_sep(s, COMMA, 0) == 1);
        let p = first_sep(s, COMMA, 0);
        assert(s.subrange(0, 1) =~= a);
        lemma_token_single_digit(row[0]);
        assert(token_value(a) == Some(row[0]));
        assert(s.len() == 2 * row.len() - 1);
        assert(p < s.len());
        assert(s.subrange(2, s.len() as int) =~= tail);
        assert(parse_row(tail) == Some(rest));
        assert(seq![row[0]] + rest =~= row);
    }
}

/// Reading back a rendered board reproduces it exactly: the writer and the
/// parser agree on every board whose rows are non-empty with values at most 9.
pub proof fn lemma_parse_render_text(g: Seq<Seq<u8>>)
    requires
        forall|i: int|
            0 <= i < g.len() ==> (#[trigger] g[i]).len() >= 1 && forall|k: int|
                0 <= k < g[i].len() ==> #[trigger] g[i][k] <= 9,
    ensures
        parse_text(render_text(g)) == Some(g),
    decreases g.len(),
{
    if g.len() == 0 {
        let s = render_text(g);
        assert(s.len() == 0);
        assert(first_sep(s, NEWLINE, 0) == 0);
        assert(s.subrange(0, 0) =~= Seq::<u8>::empty());
        assert(strip_spaces(Seq::<u8>::empty()) =~= Seq::<u8>::empty()) by {
            reveal(Seq::filter);
        }
        assert(parse_row(Seq::<u8>::empty()) == Some(Seq::<u8>::empty()));
        assert(Some(Seq::<Seq<u8>>::empty()) == Some(g)) by {
            assert(Seq::<Seq<u8>>::empty() =~= g);
        }
    } else {
        let row = g[0];
        let rest = g.drop_first();
        lemma_parse_render_text(rest);
        lemma_render_row_bytes(row);
        let a = render_row(row);
        let b = render_text(rest);
        let s = render_text(g);
        assert(s == a + seq![NEWLINE] + b);
        assert forall|k: int| 0 <= k < a.len() implies #[trigger] a[k] != NEWLINE by {
            assert(is_digit(a[k]) || a[k] == COMMA);
        }
        lemma_first_sep_concat(a, b, NEWLINE);
        let p = first_sep(s, NEWLINE, 0);
        assert(p == a.len());
        assert(s.subrange(0, p) =~= a);
        assert forall|k: int| 0 <= k < a.len() implies #[trigger] a[k] != SPACE by {
            assert(is_digit(a[k]) || a[k] == COMMA);
        }
        lemma_strip_no_space(a);
        lemma_parse_render_row(row);
        assert(parse_row(strip_spaces(s.subrange(0, p))) == Some(row));
        assert(p < s.len());
        assert(s.subrange(p + 1, s.len() as int) =~= b);
        assert(parse_text(b) == Some(rest));
        assert(row.len() > 0);
        assert(seq![row] + rest =~= g);
    }
}

} // verus!

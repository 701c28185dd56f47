//! The delimited text form of an escape field: one line per row, the row's
//! values in fixed-point decimal separated by commas, each line ended by a
//! newline.
use vstd::prelude::*;
use crate::decimal::{
    decimal_text, dec_digits, is_digit, lemma_dec_digits, lemma_digits_end_digits,
    lemma_parse_decimal_text, parse_decimal, parse_decimal_at, push_decimal, MINUS,
};

verus! {

pub const COMMA: u8 = 44;
pub const NEWLINE: u8 = 10;

/// The text does not spell a grid.
#[derive(Debug, Clone, Copy, PartialEq, Eq)]
pub struct MalformedGrid;

/// A grid of values seen as a sequence of rows.
pub open spec fn grid_view(g: Seq<Vec<i64>>) -> Seq<Seq<i64>> {
    g.map_values(|r: Vec<i64>| r@)
}

/// The line of one row, newline included.
pub open spec fn line_text(r: Seq<i64>) -> Seq<u8>
    decreases r.len(),
{
    if r.len() == 0 {
        seq![NEWLINE]
    } else if r.len() == 1 {
        decimal_text(r[0] as int) + seq![NEWLINE]
    } else {
        decimal_text(r[0] as int) + seq![COMMA] + line_text(r.drop_first())
    }
}

/// The text of a grid: the lines of its rows, in order.
pub open spec fn grid_text(g: Seq<Seq<i64>>) -> Seq<u8>
    decreases g.len(),
{
    if g.len() == 0 {
        seq![]
    } else {
        line_text(g[0]) + grid_text(g.drop_first())
    }
}

pub open spec fn prepend_values(
    acc: Seq<i64>,
    r: Option<(Seq<i64>, int)>,
) -> Option<(Seq<i64>, int)> {
    match r {
        Some((vs, e)) => Some((acc + vs, e)),
        None => None,
    }
}

pub open spec fn prepend_rows(acc: Seq<Seq<i64>>, r: Option<Seq<Seq<i64>>>) -> Option<
    Seq<Seq<i64>>,
> {
    match r {
        Some(g) => Some(acc + g),
        None => None,
    }
}

/// Reads one or more comma-separated values ended by a newline at `pos`.
pub open spec fn parse_values(s: Seq<u8>, pos: int) -> Option<(Seq<i64>, int)>
    decreases s.len() - pos,
{
    match parse_decimal(s, pos) {
        Some((v, p)) => {
            if pos < p < s.len() && s[p] == NEWLINE {
                Some((seq![v], p + 1))
            } else if pos < p < s.len() && s[p] == COMMA {
                prepend_values(seq![v], parse_values(s, p + 1))
            } else {
                None
            }
        },
        None => None,
    }
}

/// Reads one line at `pos`: a bare newline is an empty row.
pub open spec fn parse_line(s: Seq<u8>, pos: int) -> Option<(Seq<i64>, int)> {
    if 0 <= pos < s.len() && s[pos] == NEWLINE {
        Some((seq![], pos + 1))
    } else {
        parse_values(s, pos)
    }
}

/// Reads lines from `pos` to the end of the text.
pub open spec fn parse_grid(s: Seq<u8>, pos: int) -> Option<Seq<Seq<i64>>>
    decreases s.len() - pos,
{
    if pos >= s.len() {
        Some(seq![])
    } else {
        match parse_line(s, pos) {
            Some((row, e)) => if pos < e <= s.len() {
                prepend_rows(seq![row], parse_grid(s, e))
            } else {
                None
            },
            None => None,
        }
    }
}

proof fn lemma_parse_decimal_advances(s: Seq<u8>, pos: int)
    requires
        parse_decimal(s, pos) is Some,
    ensures
        pos < parse_decimal(s, pos).unwrap().1 <= s.len(),
{
    let neg = pos < s.len() && s[pos] == MINUS;
    let start = if neg {
        pos + 1
    } else {
        pos
    };
    lemma_digits_end_digits(s, start);
}

proof fn lemma_decimal_text_start(v: int)
    ensures
        decimal_text(v).len() >= 1,
        decimal_text(v)[0] == MINUS || is_digit(decimal_text(v)[0]),
{
    let m = if v < 0 {
        -v
    } else {
        v
    };
    lemma_dec_digits((m / 1_000_000) as nat);
    let d = dec_digits((m / 1_000_000) as nat);
    if v >= 0 {
        assert(decimal_text(v)[0] == d[0]);
    }
}

proof fn lemma_parse_values_text(s: Seq<u8>, pos: int, r: Seq<i64>)
    requires
        r.len() >= 1,
        0 <= pos,
        pos + line_text(r).len() <= s.len(),
        s.subrange(pos, pos + line_text(r).len()) == line_text(r),
    ensures
        parse_values(s, pos) == Some((r, pos + line_text(r).len())),
    decreases r.len(),
{
    let t = line_text(r);
    let d = decimal_text(r[0] as int);
    let q = pos + d.len();
    assert forall|j: int| 0 <= j < d.len() implies #[trigger] s.subrange(pos, q)[j] == d[j] by {
        assert(s[pos + j] == t[j]);
    }
    assert(s.subrange(pos, q) =~= d);
    lemma_parse_decimal_text(s, pos, r[0]);
    lemma_decimal_text_start(r[0] as int);
    assert(s[q] == t[d.len() as int]);
    if r.len() == 1 {
        assert(r =~= seq![r[0]]);
    } else {
        let rest = r.drop_first();
        let tr = line_text(rest);
        assert forall|j: int| 0 <= j < tr.len() implies #[trigger] s.subrange(
            q + 1,
            q + 1 + tr.len(),
        )[j] == tr[j] by {
            assert(s[q + 1 + j] == t[d.len() + 1 + j]);
        }
        assert(s.subrange(q + 1, q + 1 + tr.len()) =~= tr);
        lemma_parse_values_text(s, q + 1, rest);
        assert(seq![r[0]] + rest =~= r);
    }
}

proof fn lemma_parse_line_text(s: Seq<u8>, pos: int, r: Seq<i64>)
    requires
        0 <= pos,
        pos + line_text(r).len() <= s.len(),
        s.subrange(pos, pos + line_text(r).len()) == line_text(r),
    ensures
        parse_line(s, pos) == Some((r, pos + line_text(r).len())),
{
    if r.len() == 0 {
        assert(s[pos] == line_text(r)[0]);
        assert(r =~= seq![]);
    } else {
        lemma_decimal_text_start(r[0] as int);
        assert(s[pos] == line_text(r)[0]);
        assert(line_text(r)[0] == decimal_text(r[0] as int)[0]);
        lemma_parse_values_text(s, pos, r);
    }
}

proof fn lemma_line_text_len(r: Seq<i64>)
    ensures
        line_text(r).len() >= 1,
    decreases r.len(),
{
    if r.len() > 1 {
        lemma_line_text_len(r.drop_first());
    }
}

proof fn lemma_parse_grid_text(s: Seq<u8>, pos: int, g: Seq<Seq<i64>>)
    requires
        0 <= pos <= s.len(),
        s.subrange(pos, s.len() as int) == grid_text(g),
    ensures
        parse_grid(s, pos) == Some(g),
    decreases g.len(),
{
    if g.len() == 0 {
        assert(s.subrange(pos, s.len() as int).len() == 0);
        assert(g =~= seq![]);
    } else {
        let t = grid_text(g);
        let l = line_text(g[0]);
        lemma_line_text_len(g[0]);
        let e = pos + l.len();
        assert(t == l + grid_text(g.drop_first()));
        assert forall|j: int| 0 <= j < l.len() implies #[trigger] s.subrange(pos, e)[j] == l[j] by {
            assert(s[pos + j] == s.subrange(pos, s.len() as int)[j]);
            assert(s[pos + j] == t[j]);
        }
        assert(s.subrange(pos, e) =~= l);
        lemma_parse_line_text(s, pos, g[0]);
        let rt = grid_text(g.drop_first());
        assert forall|j: int| 0 <= j < rt.len() implies #[trigger] s.subrange(
            e,
            s.len() as int,
        )[j] == rt[j] by {
            assert(s[e + j] == s.subrange(pos, s.len() as int)[l.len() + j]);
            assert(t[l.len() + j] == rt[j]);
        }
        assert(s.subrange(e, s.len() as int) =~= rt);
        lemma_parse_grid_text(s, e, g.drop_first());
        assert(seq![g[0]] + g.drop_first() =~= g);
    }
}

/// Reading the text of a grid gives that grid back.
pub proof fn lemma_grid_text_round_trip(g: Seq<Seq<i64>>)
    ensures
        parse_grid(grid_text(g), 0) == Some(g),
{
    assert(grid_text(g).subrange(0, grid_text(g).len() as int) =~= grid_text(g));
    lemma_parse_grid_text(grid_text(g), 0, g);
}

/// Decoding the text of a grid gives that grid back: no other grid has the
/// same text.
pub proof fn lemma_grid_text_injective(a: Seq<Seq<i64>>, b: Seq<Seq<i64>>)
    requires
        grid_text(a) == grid_text(b),
    ensures
        a == b,
{
    lemma_grid_text_round_trip(a);
    lemma_grid_text_round_trip(b);
}

fn push_line(out: &mut Vec<u8>, r: &Vec<i64>)
    ensures
        final(out)@ == old(out)@ + line_text(r@),
{
    if r.len() == 0 {
        out.push(NEWLINE);
        assert(final(out)@ =~= old(out)@ + line_text(r@));
        return;
    }
    let mut j: usize = 0;
    assert(r@.skip(0) =~= r@);
    while j < r.len()
        invariant
            j <= r@.len(),
            r@.len() >= 1,
            j == r@.len() ==> out@ == old(out)@ + line_text(r@),
            j < r@.len() ==> out@ + line_text(r@.skip(j as int)) == old(out)@ + line_text(r@),
        decreases r@.len() - j,
    {
        let ghost before = out@;
        let ghost rest = r@.skip(j as int);
        push_decimal(out, r[j]);
        if j + 1 == r.len() {
            out.push(NEWLINE);
            assert(rest.len() == 1);
            assert(out@ =~= before + line_text(rest));
        } else {
            out.push(COMMA);
            assert(rest.drop_first() =~= r@.skip(j + 1));
            assert(out@ + line_text(r@.skip(j + 1)) =~= before + line_text(rest));
        }
        j = j + 1;
    }
}

/// The text of a grid, row after row.
pub fn encode_grid(g: &Vec<Vec<i64>>) -> (r: Vec<u8>)
    ensures
        r@ == grid_text(grid_view(g@)),
{
    let ghost gv = grid_view(g@);
    let mut out: Vec<u8> = Vec::new();
    let mut i: usize = 0;
    assert(gv.skip(0) =~= gv);
    assert(out@ + grid_text(gv.skip(0)) =~= grid_text(gv));
    while i < g.len()
        invariant
            i <= g@.len(),
            gv == grid_view(g@),
            out@ + grid_text(gv.skip(i as int)) == grid_text(gv),
        decreases g@.len() - i,
    {
        let ghost before = out@;
        push_line(&mut out, &g[i]);
        assert(gv.skip(i as int).drop_first() =~= gv.skip(i + 1));
        assert(gv.skip(i as int)[0] == g@[i as int]@);
        assert(out@ + grid_text(gv.skip(i + 1)) =~= before + grid_text(gv.skip(i as int)));
        i = i + 1;
    }
    assert(gv.skip(i as int) =~= seq![]);
    assert(out@ =~= out@ + grid_text(gv.skip(i as int)));
    out
}

fn parse_line_at(s: &[u8], pos: usize) -> (r: Option<(Vec<i64>, usize)>)
    requires
        pos <= s@.len(),
    ensures
        match r {
            Some((row, e)) => parse_line(s@, pos as int) == Some((row@, e as int)),
            None => parse_line(s@, pos as int) is None,
        },
{
    let len = s.len();
    if pos < len && s[pos] == NEWLINE {
        return Some((Vec::new(), pos + 1));
    }
    let mut row: Vec<i64> = Vec::new();
    let mut p = pos;
    assert(prepend_values(row@, parse_values(s@, pos as int)) =~= parse_values(s@, pos as int))
        by {
        match parse_values(s@, pos as int) {
            Some((vs, e)) => {
                assert(row@ + vs =~= vs);
            },
            None => {},
        }
    }
    loop
        invariant
            p <= len == s@.len(),
            pos <= p,
            parse_line(s@, pos as int) == parse_values(s@, pos as int),
            parse_values(s@, pos as int) == prepend_values(row@, parse_values(s@, p as int)),
        decreases len - p,
    {
        match parse_decimal_at(s, p) {
            None => {
                return None;
            },
            Some((v, q)) => {
                proof {
                    lemma_parse_decimal_advances(s@, p as int);
                }
                let ghost acc = row@;
                if q < len && s[q] == NEWLINE {
                    row.push(v);
                    assert(acc + seq![v] =~= row@);
                    return Some((row, q + 1));
                } else if q < len && s[q] == COMMA {
                    row.push(v);
                    proof {
                        match parse_values(s@, q + 1) {
                            Some((vs, e)) => {
                                assert(acc + (seq![v] + vs) =~= row@ + vs);
                            },
                            None => {},
                        }
                    }
                    p = q + 1;
                } else {
                    return None;
                }
            },
        }
    }
}

fn parse_grid_at(s: &[u8]) -> (r: Option<Vec<Vec<i64>>>)
    ensures
        match r {
            Some(g) => parse_grid(s@, 0) == Some(grid_view(g@)),
            None => parse_grid(s@, 0) is None,
        },
{
    let len = s.len();
    let mut rows: Vec<Vec<i64>> = Vec::new();
    let mut p: usize = 0;
    assert(prepend_rows(grid_view(rows@), parse_grid(s@, 0)) =~= parse_grid(s@, 0)) by {
        match parse_grid(s@, 0) {
            Some(g) => {
                assert(grid_view(rows@) + g =~= g);
            },
            None => {},
        }
    }
    while p < len
        invariant
            p <= len == s@.len(),
            parse_grid(s@, 0) == prepend_rows(grid_view(rows@), parse_grid(s@, p as int)),
        decreases len - p,
    {
        match parse_line_at(s, p) {
            None => {
                return None;
            },
            Some((row, e)) => {
                if e <= p || e > len {
                    return None;
                }
                let ghost acc = grid_view(rows@);
                let ghost rv = row@;
                rows.push(row);
                assert(grid_view(rows@) =~= acc + seq![rv]);
                proof {
                    match parse_grid(s@, e as int) {
                        Some(g) => {
                            assert(acc + (seq![rv] + g) =~= grid_view(rows@) + g);
                        },
                        None => {},
                    }
                }
                p = e;
            },
        }
    }
    assert(grid_view(rows@) + seq![] =~= grid_view(rows@));
    Some(rows)
}

fn same_bytes(a: &Vec<u8>, b: &[u8]) -> (r: bool)
    ensures
        r == (a@ == b@),
{
    if a.len() != b.len() {
        return false;
    }
    let mut i: usize = 0;
    while i < a.len()
        invariant
            i <= a@.len() == b@.len(),
            forall|j: int| 0 <= j < i ==> a@[j] == b@[j],
        decreases a@.len() - i,
    {
        if a[i] != b[i] {
            return false;
        }
        i = i + 1;
    }
    assert(a@ =~= b@);
    true
}

/// Reads a grid from its text. Succeeds exactly on the texts that some grid
/// encodes to, and gives that grid.
pub fn decode_grid(text: &[u8]) -> (r: Result<Vec<Vec<i64>>, MalformedGrid>)
    ensures
        match r {
            Ok(g) => grid_text(grid_view(g@)) == text@,
            Err(_) => forall|g: Seq<Seq<i64>>| grid_text(g) != text@,
        },
{
    match parse_grid_at(text) {
        None => {
            proof {
                assert forall|g: Seq<Seq<i64>>| grid_text(g) != text@ by {
                    if grid_text(g) == text@ {
                        lemma_grid_text_round_trip(g);
                    }
                }
            }
            Err(MalformedGrid)
        },
        Some(g) => {
            let t = encode_grid(&g);
            if same_bytes(&t, text) {
                Ok(g)
            } else {
                proof {
                    assert forall|h: Seq<Seq<i64>>| grid_text(h) != text@ by {
                        if grid_text(h) == text@ {
                            lemma_grid_text_round_trip(h);
                        }
                    }
                }
                Err(MalformedGrid)
            }
        },
    }
}

} // verus!

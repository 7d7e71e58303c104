//! Fixed-width rendering of a parsed table: a summary line, then every row
//! boxed between horizontal borders, each field left-aligned and padded to
//! its column's tracked width.

use vstd::prelude::*;

use crate::mycsv::{MyCsv, TableModel};
use crate::text::views_of;

verus! {

/// Relies on `String::push`: appends the given character to the end of the
/// string.
pub assume_specification[ String::push ](s: &mut String, c: char)
    ensures
        final(s)@ == old(s)@.push(c),
;

/// The decimal digit character for `d` (meaningful for `0 <= d <= 9`).
pub open spec fn digit_char(d: int) -> char {
    ((48 + d) as u8) as char
}

/// The decimal numeral of `n`, most significant digit first.
pub open spec fn dec_str(n: nat) -> Seq<char>
    decreases n,
{
    if n < 10 {
        seq![digit_char(n as int)]
    } else {
        dec_str(n / 10).push(digit_char((n % 10) as int))
    }
}

/// `n` spaces.
pub open spec fn spaces(n: nat) -> Seq<char> {
    Seq::new(n, |i: int| ' ')
}

/// `n` dashes.
pub open spec fn dashes(n: nat) -> Seq<char> {
    Seq::new(n, |i: int| '-')
}

/// The sum of a sequence of widths.
pub open spec fn sum_sizes(s: Seq<int>) -> int
    decreases s.len(),
{
    if s.len() == 0 {
        0
    } else {
        sum_sizes(s.drop_last()) + s.last()
    }
}

/// A prefix of nonnegative widths never sums to more than the whole.
pub proof fn lemma_sum_take_le(s: Seq<int>, i: int)
    requires
        0 <= i <= s.len(),
        forall|k: int| 0 <= k < s.len() ==> s[k] >= 0,
    ensures
        sum_sizes(s.take(i)) <= sum_sizes(s),
    decreases s.len(),
{
    if i == s.len() {
        assert(s.take(i) =~= s);
    } else {
        assert(s.take(i) =~= s.drop_last().take(i));
        lemma_sum_take_le(s.drop_last(), i);
    }
}

/// The length of the border line: one dash per column, plus the width sum,
/// plus one.
pub open spec fn border_len(m: TableModel) -> int {
    m.columns_count + sum_sizes(m.sizes) + 1
}

/// A field left-aligned in its column: padded on the right with spaces up to
/// the column width, and never truncated.
pub open spec fn pad_field(f: Seq<char>, w: int) -> Seq<char> {
    if f.len() >= w {
        f
    } else {
        f + spaces((w - f.len()) as nat)
    }
}

/// The row's cells from column `c` on: each field padded to its width and
/// closed by a vertical bar.
pub open spec fn cells_text(row: Seq<Seq<char>>, sizes: Seq<int>, c: int) -> Seq<char>
    decreases row.len() - c,
{
    if c < 0 || c >= row.len() {
        Seq::empty()
    } else {
        pad_field(row[c], sizes[c]) + seq!['|'] + cells_text(row, sizes, c + 1)
    }
}

/// One rendered row: a leading bar, the padded cells, then a fresh border
/// line on the next line.
pub open spec fn row_text(row: Seq<Seq<char>>, sizes: Seq<int>, border: Seq<char>) -> Seq<char> {
    seq!['|'] + cells_text(row, sizes, 0) + seq!['\n'] + border + seq!['\n']
}

/// The rendered rows from index `i` on.
pub open spec fn rows_text(
    rows: Seq<Seq<Seq<char>>>,
    sizes: Seq<int>,
    border: Seq<char>,
    i: int,
) -> Seq<char>
    decreases rows.len() - i,
{
    if i < 0 || i >= rows.len() {
        Seq::empty()
    } else {
        row_text(rows[i], sizes, border) + rows_text(rows, sizes, border, i + 1)
    }
}

/// The summary line: the data-row count and the column count.
pub open spec fn summary_text(m: TableModel) -> Seq<char> {
    "Total lines: "@ + dec_str(m.lines_count as nat) + ", Total columns: "@ + dec_str(
        m.columns_count as nat,
    ) + seq!['\n']
}

/// The whole rendered table: the summary, a border line, then every row
/// (the schema-defining first row included) each followed by a border line.
pub open spec fn render_model(m: TableModel) -> Seq<char> {
    summary_text(m) + dashes(border_len(m) as nat) + seq!['\n'] + rows_text(
        m.rows,
        m.sizes,
        dashes(border_len(m) as nat),
        0,
    )
}

/// Appends the decimal numeral of `n`.
fn push_u64(out: String, n: u64) -> (r: String)
    ensures
        r@ == out@ + dec_str(n as nat),
{
    if n == 0 {
        let ghost base = out@;
        let mut out = out;
        out.push('0');
        proof {
            assert(digit_char(0) == '0');
            assert(dec_str(0nat) =~= seq!['0']);
            assert(out@ =~= base + dec_str(0nat));
        }
        return out;
    }
    let mut digits: Vec<char> = Vec::new();
    let mut m: u64 = n;
    proof {
        assert(digits@.reverse() =~= Seq::<char>::empty());
        assert(dec_str(n as nat) + digits@.reverse() =~= dec_str(n as nat));
    }
    while m > 0
        invariant
            n > 0,
            m > 0 ==> dec_str(n as nat) == dec_str(m as nat) + digits@.reverse(),
            m == 0 ==> dec_str(n as nat) == digits@.reverse(),
        decreases m,
    {
        let ghost digits0 = digits@;
        let ghost m0 = m as nat;
        let d: u8 = (m % 10) as u8;
        let c: char = (48 + d) as char;
        digits.push(c);
        m = m / 10;
        proof {
            assert(c == digit_char((m0 % 10) as int));
            assert(digits@.reverse() =~= seq![c] + digits0.reverse());
            if m0 >= 10 {
                assert(dec_str(m0) == dec_str(m0 / 10).push(digit_char((m0 % 10) as int)));
                assert(dec_str(m0) =~= dec_str(m0 / 10) + seq![c]);
                assert(dec_str(m0 / 10) + seq![c] + digits0.reverse() =~= dec_str(m0 / 10) + (
                seq![c] + digits0.reverse()));
                assert(m as nat == m0 / 10);
            } else {
                assert(dec_str(m0) =~= seq![c]);
                assert(m == 0);
                assert(dec_str(n as nat) =~= seq![c] + digits0.reverse());
            }
        }
    }
    let mut out = out;
    let ghost base = out@;
    let mut k: usize = digits.len();
    proof {
        assert(digits@.subrange(0int, k as int) =~= digits@);
    }
    while k > 0
        invariant
            k <= digits@.len(),
            digits@.reverse() == dec_str(n as nat),
            out@ + digits@.subrange(0int, k as int).reverse() == base + dec_str(n as nat),
        decreases k,
    {
        let ghost out0 = out@;
        k = k - 1;
        out.push(digits[k]);
        proof {
            assert(digits@.subrange(0int, k + 1int).reverse() =~= seq![digits@[k as int]]
                + digits@.subrange(0int, k as int).reverse());
            assert(out@ =~= out0 + seq![digits@[k as int]]);
            assert(out@ + digits@.subrange(0int, k as int).reverse() =~= out0 + digits@.subrange(
                0int,
                k + 1int,
            ).reverse());
        }
    }
    proof {
        assert(digits@.subrange(0int, 0int).reverse() =~= Seq::<char>::empty());
        assert(out@ + digits@.subrange(0int, 0int).reverse() =~= out@);
    }
    out
}

/// Appends `n` dashes.
fn push_dashes(out: String, n: usize) -> (r: String)
    ensures
        r@ == out@ + dashes(n as nat),
{
    let mut out = out;
    let ghost base = out@;
    let mut i: usize = 0;
    proof {
        assert(base + dashes(0nat) =~= base);
    }
    while i < n
        invariant
            i <= n,
            out@ == base + dashes(i as nat),
        decreases n - i,
    {
        let ghost out0 = out@;
        out.push('-');
        i = i + 1;
        proof {
            assert(out@ =~= out0.push('-'));
            assert(base + dashes(i as nat) =~= (base + dashes((i - 1) as nat)).push('-'));
        }
    }
    out
}

/// Appends one rendered row: bar, padded cells, newline, border, newline.
fn push_row(out: String, row: &Vec<String>, sizes: &Vec<usize>, border_n: usize) -> (r: String)
    requires
        row@.len() == sizes@.len(),
    ensures
        r@ == out@ + row_text(
            views_of(row@),
            sizes@.map_values(|w: usize| w as int),
            dashes(border_n as nat),
        ),
{
    let ghost rv = views_of(row@);
    let ghost sz = sizes@.map_values(|w: usize| w as int);
    let mut out = out;
    let ghost base = out@;
    out.push('|');
    proof {
        assert(out@ =~= base + seq!['|']);
        assert(out@ + cells_text(rv, sz, 0) =~= base + seq!['|'] + cells_text(rv, sz, 0));
    }
    let mut c: usize = 0;
    while c < row.len()
        invariant
            c <= row@.len(),
            row@.len() == sizes@.len(),
            rv == views_of(row@),
            sz == sizes@.map_values(|w: usize| w as int),
            out@ + cells_text(rv, sz, c as int) == base + seq!['|'] + cells_text(rv, sz, 0),
        decreases row@.len() - c,
    {
        let ghost out0 = out@;
        out.append(row[c].as_str());
        proof {
            assert(rv[c as int] == row@[c as int]@);
            assert(sz[c as int] == sizes@[c as int] as int);
        }
        let flen: usize = row[c].as_str().unicode_len();
        let width: usize = sizes[c];
        let ghost out1 = out@;
        let mut p: usize = flen;
        proof {
            assert(out@ =~= out1 + spaces(0nat));
        }
        while p < width
            invariant
                flen <= p,
                p <= width || p == flen,
                out@ == out1 + spaces((p - flen) as nat),
            decreases width - p,
        {
            let ghost outp = out@;
            out.push(' ');
            p = p + 1;
            proof {
                assert(outp.push(' ') =~= out1 + spaces((p - flen) as nat));
            }
        }
        out.push('|');
        proof {
            assert(flen as int == rv[c as int].len());
            if flen >= width {
                assert(spaces(((p - flen)) as nat) =~= Seq::<char>::empty());
                assert(out1 + spaces(0nat) =~= out1);
                assert(out@ =~= out0 + pad_field(rv[c as int], sz[c as int]) + seq!['|']);
            } else {
                assert(out@ =~= out0 + pad_field(rv[c as int], sz[c as int]) + seq!['|']);
            }
            assert(cells_text(rv, sz, c as int) == pad_field(rv[c as int], sz[c as int]) + seq![
                '|',
            ] + cells_text(rv, sz, c + 1int));
            assert(out@ + cells_text(rv, sz, c + 1int) =~= out0 + cells_text(rv, sz, c as int));
        }
        c = c + 1;
    }
    proof {
        assert(cells_text(rv, sz, row@.len() as int) =~= Seq::<char>::empty());
        assert(out@ =~= base + seq!['|'] + cells_text(rv, sz, 0));
    }
    let ghost out2 = out@;
    out.push('\n');
    let mut out = push_dashes(out, border_n);
    let ghost out3 = out@;
    out.push('\n');
    proof {
        assert(out@ =~= base + row_text(rv, sz, dashes(border_n as nat)));
    }
    out
}

impl MyCsv {
    /// Renders the table: a pure projection of its state, producing the same
    /// text however often it is called. The border-length formula
    /// (`columns_count + sum(column_widths) + 1`) must fit in a machine word.
    pub fn render(&self) -> (r: String)
        requires
            self.wf(),
            border_len(self@) <= usize::MAX,
        ensures
            r@ == render_model(self@),
    {
        let ghost m = self@;
        let mut out = String::new();
        out.append("Total lines: ");
        let mut out = push_u64(out, self.lines_count as u64);
        out.append(", Total columns: ");
        let mut out = push_u64(out, self.columns_count as u64);
        out.push('\n');
        proof {
            assert(out@ =~= summary_text(m));
        }
        let mut total: usize = self.columns_count;
        let mut i: usize = 0;
        proof {
            assert forall|k: int| 0 <= k < m.sizes.len() implies m.sizes[k] >= 0 by {
                assert(m.sizes[k] == self.sizes@[k] as int);
            }
            assert(m.sizes.take(0int) =~= Seq::<int>::empty());
        }
        while i < self.sizes.len()
            invariant
                i <= self.sizes@.len(),
                m == self@,
                m.sizes.len() == self.sizes@.len(),
                forall|k: int| 0 <= k < m.sizes.len() ==> m.sizes[k] >= 0,
                total as int == m.columns_count + sum_sizes(m.sizes.take(i as int)),
                border_len(m) <= usize::MAX,
            decreases self.sizes@.len() - i,
        {
            proof {
                assert(m.sizes.take(i + 1int).drop_last() =~= m.sizes.take(i as int));
                assert(m.sizes.take(i + 1int).last() == m.sizes[i as int]);
                lemma_sum_take_le(m.sizes, i + 1int);
                assert(m.sizes[i as int] == self.sizes@[i as int] as int);
            }
            total = total + self.sizes[i];
            i = i + 1;
        }
        proof {
            assert(m.sizes.take(m.sizes.len() as int) =~= m.sizes);
        }
        total = total + 1;
        let ghost border = dashes(total as nat);
        let mut out = push_dashes(out, total);
        let ghost out1 = out@;
        out.push('\n');
        proof {
            assert(total as int == border_len(m));
            assert(out@ =~= summary_text(m) + dashes(border_len(m) as nat) + seq!['\n']);
            assert(out@ + rows_text(m.rows, m.sizes, border, 0) =~= render_model(m));
        }
        let mut r1: usize = 0;
        while r1 < self.lines.len()
            invariant
                r1 <= self.lines@.len(),
                m == self@,
                self.wf(),
                m.rows.len() == self.lines@.len(),
                total as int == border_len(m),
                border == dashes(total as nat),
                out@ + rows_text(m.rows, m.sizes, border, r1 as int) == render_model(m),
            decreases self.lines@.len() - r1,
        {
            let ghost out0 = out@;
            let row = &self.lines[r1];
            proof {
                assert(views_of(row@) == m.rows[r1 as int]);
                assert(m.rows[r1 as int].len() == m.columns_count);
                assert(views_of(row@).len() == row@.len());
                assert(self.sizes@.map_values(|w: usize| w as int) == m.sizes);
                assert(row@.len() == self.sizes@.len());
            }
            out = push_row(out, row, &self.sizes, total);
            proof {
                assert(rows_text(m.rows, m.sizes, border, r1 as int) == row_text(
                    m.rows[r1 as int],
                    m.sizes,
                    border,
                ) + rows_text(m.rows, m.sizes, border, r1 + 1int));
                assert(out@ + rows_text(m.rows, m.sizes, border, r1 + 1int) =~= out0 + rows_text(
                    m.rows,
                    m.sizes,
                    border,
                    r1 as int,
                ));
            }
            r1 = r1 + 1;
        }
        proof {
            assert(rows_text(m.rows, m.sizes, border, m.rows.len() as int) =~= Seq::<
                char,
            >::empty());
            assert(out@ =~= render_model(m));
        }
        out
    }
}

} // verus!

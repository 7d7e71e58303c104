//! The table's laws, proved once and for all over the parse model: the
//! schema is locked in by the first line, tracked widths only grow and are
//! exactly the column maxima, a halted pass keeps exactly the rows before
//! the failing line, a mismatching line halts without being added, and a
//! uniform input parses whole.

use vstd::prelude::*;

use crate::mycsv::{
    col_max, fresh_table, is_terminal_line, model_wf, run_model, step_model, strip_crlf,
    ParseError, TableModel,
};
use crate::text::split_fields;

verus! {

/// Once the schema is established it never changes: however the remaining
/// lines look, the pass keeps the same column count.
pub proof fn lemma_run_keeps_schema(t: TableModel, lines: Seq<Seq<char>>)
    requires
        t.initialized,
    ensures
        run_model(t, lines).0.initialized,
        run_model(t, lines).0.columns_count == t.columns_count,
        run_model(t, lines).0.separator == t.separator,
    decreases lines.len(),
{
    if lines.len() > 0 {
        match step_model(t, lines[0]) {
            Err(_) => {},
            Ok(t2) => {
                lemma_run_keeps_schema(t2, lines.drop_first());
            },
        }
    }
}

/// Schema lock-in: for any sequence of lines whose first line parses, the
/// table's column count equals the first line's field count, regardless of
/// all later content.
pub proof fn lemma_schema_lock_in(file_name: Seq<char>, sep: char, lines: Seq<Seq<char>>)
    requires
        lines.len() >= 1,
        step_model(fresh_table(file_name, sep), lines[0]) is Ok,
    ensures
        run_model(fresh_table(file_name, sep), lines).0.columns_count == split_fields(
            strip_crlf(lines[0]),
            sep,
        ).len(),
{
    let t0 = fresh_table(file_name, sep);
    let t1 = step_model(t0, lines[0])->Ok_0;
    lemma_run_keeps_schema(t1, lines.drop_first());
}

/// Width monotonicity, step form: a successfully parsed line never shrinks
/// any tracked column width.
pub proof fn lemma_step_widths_monotonic(t: TableModel, raw: Seq<char>)
    requires
        t.initialized,
        step_model(t, raw) is Ok,
    ensures
        step_model(t, raw)->Ok_0.sizes.len() == t.sizes.len(),
        forall|i: int|
            0 <= i < t.sizes.len() ==> #[trigger] step_model(t, raw)->Ok_0.sizes[i] >= t.sizes[i],
{
}

/// Width monotonicity, pass form: however many further lines are parsed, no
/// tracked column width ever shrinks.
pub proof fn lemma_run_widths_monotonic(t: TableModel, lines: Seq<Seq<char>>)
    requires
        t.initialized,
    ensures
        run_model(t, lines).0.sizes.len() == t.sizes.len(),
        forall|i: int|
            0 <= i < t.sizes.len() ==> #[trigger] run_model(t, lines).0.sizes[i] >= t.sizes[i],
    decreases lines.len(),
{
    if lines.len() > 0 {
        match step_model(t, lines[0]) {
            Err(_) => {},
            Ok(t2) => {
                lemma_step_widths_monotonic(t, lines[0]);
                lemma_run_widths_monotonic(t2, lines.drop_first());
            },
        }
    }
}

/// One parse step preserves well-formedness; with it, every tracked width
/// stays exactly the maximum field length seen in its column.
pub proof fn lemma_step_wf(t: TableModel, raw: Seq<char>)
    requires
        model_wf(t),
        step_model(t, raw) is Ok,
    ensures
        model_wf(step_model(t, raw)->Ok_0),
{
    let m = step_model(t, raw)->Ok_0;
    let fields = split_fields(strip_crlf(raw), t.separator);
    if !t.initialized {
        assert forall|rr: int| 0 <= rr < m.rows.len() implies (#[trigger] m.rows[rr]).len()
            == m.columns_count by {
            assert(m.rows[rr] == fields);
        }
        assert forall|i: int| 0 <= i < m.sizes.len() implies #[trigger] m.sizes[i] == col_max(
            m.rows,
            i,
        ) by {
            assert(m.rows.drop_last() =~= Seq::<Seq<Seq<char>>>::empty());
            assert(m.rows.last() == fields);
            assert(col_max(Seq::<Seq<Seq<char>>>::empty(), i) == 0);
        }
    } else {
        assert forall|rr: int| 0 <= rr < m.rows.len() implies (#[trigger] m.rows[rr]).len()
            == m.columns_count by {
            if rr < t.rows.len() {
                assert(t.rows[rr].len() == t.columns_count);
            } else {
                assert(m.rows[rr] == fields);
            }
        }
        assert forall|i: int| 0 <= i < m.sizes.len() implies #[trigger] m.sizes[i] == col_max(
            m.rows,
            i,
        ) by {
            assert(m.rows.drop_last() =~= t.rows);
            assert(m.rows.last() == fields);
            assert(t.sizes[i] == col_max(t.rows, i));
        }
    }
}

/// A whole pass preserves well-formedness: in the resulting table every row
/// has exactly the schema's field count and every tracked width is exactly
/// its column's maximum field length.
pub proof fn lemma_run_wf(t: TableModel, lines: Seq<Seq<char>>)
    requires
        model_wf(t),
    ensures
        model_wf(run_model(t, lines).0),
    decreases lines.len(),
{
    if lines.len() > 0 {
        match step_model(t, lines[0]) {
            Err(_) => {},
            Ok(t2) => {
                lemma_step_wf(t, lines[0]);
                lemma_run_wf(t2, lines.drop_first());
            },
        }
    }
}

/// Partial success: a pass that fails did so at some line `m`; the resulting
/// table is exactly the one built from the lines before `m` (all of which
/// parsed), and line `m` is the failing one.
pub proof fn lemma_partial_success(t: TableModel, lines: Seq<Seq<char>>)
    requires
        run_model(t, lines).1 is Err,
    ensures
        exists|m: int|
            0 <= m < lines.len() && #[trigger] run_model(t, lines.take(m)).1 is Ok && run_model(
                t,
                lines,
            ).0 == run_model(t, lines.take(m)).0 && step_model(run_model(t, lines.take(m)).0, lines[m])
                == Err::<TableModel, ParseError>(run_model(t, lines).1->Err_0),
    decreases lines.len(),
{
    match step_model(t, lines[0]) {
        Err(e) => {
            let m = 0int;
            assert(lines.take(m) =~= Seq::<Seq<char>>::empty());
            assert(run_model(t, lines.take(m)).1 is Ok);
            assert(run_model(t, lines.take(m)).0 == t);
        },
        Ok(t2) => {
            lemma_partial_success(t2, lines.drop_first());
            let m2 = choose|m2: int|
                0 <= m2 < lines.drop_first().len() && #[trigger] run_model(
                    t2,
                    lines.drop_first().take(m2),
                ).1 is Ok && run_model(t2, lines.drop_first()).0 == run_model(
                    t2,
                    lines.drop_first().take(m2),
                ).0 && step_model(
                    run_model(t2, lines.drop_first().take(m2)).0,
                    lines.drop_first()[m2],
                ) == Err::<TableModel, ParseError>(run_model(t2, lines.drop_first()).1->Err_0);
            let m = m2 + 1;
            assert(lines.take(m)[0] == lines[0]);
            assert(lines.take(m).drop_first() =~= lines.drop_first().take(m2));
            assert(run_model(t, lines.take(m)) == run_model(t2, lines.drop_first().take(m2)));
            assert(lines[m] == lines.drop_first()[m2]);
            assert(run_model(t, lines.take(m)).1 is Ok);
        },
    }
}

/// Mismatch detection: a line whose field count disagrees with the
/// established schema always halts the pass with a column-count mismatch and
/// is not added to the rows — the table stays exactly as it was.
pub proof fn lemma_mismatch_detected(t: TableModel, raw: Seq<char>, rest: Seq<Seq<char>>)
    requires
        t.initialized,
        !is_terminal_line(raw),
        split_fields(strip_crlf(raw), t.separator).len() != t.columns_count,
    ensures
        run_model(t, seq![raw] + rest).0 == t,
        run_model(t, seq![raw] + rest).1 == Err::<(), ParseError>(
            (ParseError::ColumnCountMismatch {
                expected: t.columns_count as usize,
                actual: split_fields(strip_crlf(raw), t.separator).len() as usize,
            }),
        ),
{
    assert((seq![raw] + rest)[0] == raw);
    assert((seq![raw] + rest).len() >= 1);
}

proof fn lemma_uniform_run(t: TableModel, lines: Seq<Seq<char>>, k: int)
    requires
        t.initialized,
        t.columns_count == k,
        forall|i: int| 0 <= i < lines.len() ==> !is_terminal_line(#[trigger] lines[i]),
        forall|i: int|
            0 <= i < lines.len() ==> split_fields(strip_crlf(#[trigger] lines[i]), t.separator).len()
                == k,
    ensures
        run_model(t, lines).1 is Ok,
        run_model(t, lines).0.rows.len() == t.rows.len() + lines.len(),
        run_model(t, lines).0.lines_count == t.lines_count + lines.len(),
        run_model(t, lines).0.columns_count == k,
    decreases lines.len(),
{
    if lines.len() > 0 {
        let t2 = step_model(t, lines[0])->Ok_0;
        assert forall|i: int| 0 <= i < lines.drop_first().len() implies !is_terminal_line(
            #[trigger] lines.drop_first()[i],
        ) && split_fields(strip_crlf(lines.drop_first()[i]), t2.separator).len() == k by {
            assert(lines.drop_first()[i] == lines[i + 1]);
        }
        lemma_uniform_run(t2, lines.drop_first(), k);
    }
}

/// Round trip on uniform input: `N` lines, each with exactly `k` fields under
/// the chosen separator and none of them the terminal sentinel, parse without
/// error into a table with `N` rows, `N - 1` data rows and `k` columns.
pub proof fn lemma_uniform_round_trip(
    file_name: Seq<char>,
    sep: char,
    lines: Seq<Seq<char>>,
    k: int,
)
    requires
        lines.len() >= 1,
        forall|i: int| 0 <= i < lines.len() ==> !is_terminal_line(#[trigger] lines[i]),
        forall|i: int|
            0 <= i < lines.len() ==> split_fields(strip_crlf(#[trigger] lines[i]), sep).len() == k,
    ensures
        run_model(fresh_table(file_name, sep), lines).1 is Ok,
        run_model(fresh_table(file_name, sep), lines).0.rows.len() == lines.len(),
        run_model(fresh_table(file_name, sep), lines).0.lines_count == lines.len() - 1,
        run_model(fresh_table(file_name, sep), lines).0.columns_count == k,
{
    let t0 = fresh_table(file_name, sep);
    let t1 = step_model(t0, lines[0])->Ok_0;
    assert(t1.rows.len() == 1);
    assert(t1.lines_count == 0);
    assert forall|i: int| 0 <= i < lines.drop_first().len() implies !is_terminal_line(
        #[trigger] lines.drop_first()[i],
    ) && split_fields(strip_crlf(lines.drop_first()[i]), t1.separator).len() == k by {
        assert(lines.drop_first()[i] == lines[i + 1]);
    }
    lemma_uniform_run(t1, lines.drop_first(), k);
}

} // verus!

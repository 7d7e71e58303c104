//! The tabular parser: a schema-validating, width-tracking table built line
//! by line from separated text, modelled by `TableModel` and the pure
//! functions `step_model` / `run_model`.

use vstd::pervasive::unreached;
use vstd::prelude::*;

use crate::text::{split_fields, split_fields_exec, views_of};

verus! {

/// Why a parse pass halted.
#[derive(Clone, Copy, Debug, PartialEq, Eq, Structural)]
pub enum ParseError {
    /// The named input could not be opened or read; no rows were parsed.
    SourceUnavailable,
    /// A line's field count disagrees with the established schema.
    ColumnCountMismatch { expected: usize, actual: usize },
    /// A line holding only a line terminator: the end-of-input sentinel.
    EmptyTerminalLine,
}

/// The mathematical state of a table: what `MyCsv` means.
#[verifier::ext_equal]
pub ghost struct TableModel {
    pub separator: char,
    pub lines_count: int,
    pub columns_count: int,
    pub rows: Seq<Seq<Seq<char>>>,
    pub sizes: Seq<int>,
    pub initialized: bool,
    pub file_name: Seq<char>,
}

/// A line holding exactly a carriage return and a newline: the terminal
/// sentinel of the input.
pub open spec fn is_terminal_line(s: Seq<char>) -> bool {
    s.len() == 2 && s[0] == '\r' && s[1] == '\n'
}

/// The line with one trailing carriage-return-newline pair removed, if it
/// ends in one.
pub open spec fn strip_crlf(s: Seq<char>) -> Seq<char> {
    if s.len() >= 2 && s[s.len() - 2] == '\r' && s[s.len() - 1] == '\n' {
        s.take(s.len() - 2)
    } else {
        s
    }
}

/// Column widths seeded from the first parsed line: each column is as wide
/// as its field.
pub open spec fn seeded_sizes(fields: Seq<Seq<char>>) -> Seq<int> {
    Seq::new(fields.len(), |i: int| fields[i].len() as int)
}

/// Column widths grown by one more row: each column keeps the wider of its
/// old width and the new field's length.
pub open spec fn grown_sizes(sizes: Seq<int>, fields: Seq<Seq<char>>) -> Seq<int> {
    Seq::new(
        sizes.len(),
        |i: int|
            if fields[i].len() > sizes[i] {
                fields[i].len() as int
            } else {
                sizes[i]
            },
    )
}

/// One line of the parse pass: reject the terminal sentinel, strip a
/// trailing carriage-return-newline pair, split on the separator, then
/// either establish the schema from the first line or validate against it
/// and grow the widths.
pub open spec fn step_model(t: TableModel, raw: Seq<char>) -> Result<TableModel, ParseError> {
    if is_terminal_line(raw) {
        Err(ParseError::EmptyTerminalLine)
    } else {
        let fields = split_fields(strip_crlf(raw), t.separator);
        if t.initialized && fields.len() != t.columns_count {
            Err(
                ParseError::ColumnCountMismatch {
                    expected: t.columns_count as usize,
                    actual: fields.len() as usize,
                },
            )
        } else if !t.initialized {
            Ok(
                TableModel {
                    columns_count: fields.len() as int,
                    sizes: seeded_sizes(fields),
                    rows: t.rows.push(fields),
                    initialized: true,
                    ..t
                },
            )
        } else {
            Ok(
                TableModel {
                    sizes: grown_sizes(t.sizes, fields),
                    rows: t.rows.push(fields),
                    lines_count: t.lines_count + 1,
                    ..t
                },
            )
        }
    }
}

/// The whole parse pass over a sequence of raw lines: steps through them in
/// order and stops at the first failing line, keeping the rows parsed before
/// it. Returns the final state and the outcome of the pass.
pub open spec fn run_model(t: TableModel, lines: Seq<Seq<char>>) -> (TableModel, Result<
    (),
    ParseError,
>)
    decreases lines.len(),
{
    if lines.len() == 0 {
        (t, Ok(()))
    } else {
        match step_model(t, lines[0]) {
            Err(e) => (t, Err(e)),
            Ok(t2) => run_model(t2, lines.drop_first()),
        }
    }
}

/// The widest field seen in column `i` over `rows` (zero when there are no
/// rows).
pub open spec fn col_max(rows: Seq<Seq<Seq<char>>>, i: int) -> int
    decreases rows.len(),
{
    if rows.len() == 0 {
        0
    } else {
        let prev = col_max(rows.drop_last(), i);
        let cur = rows.last()[i].len() as int;
        if cur > prev {
            cur
        } else {
            prev
        }
    }
}

/// Well-formedness of a table state: the schema, the rows and the tracked
/// widths agree. In particular every row has exactly `columns_count` fields
/// and every tracked width is exactly the column's maximum field length.
pub open spec fn model_wf(m: TableModel) -> bool {
    &&& m.columns_count >= 0
    &&& m.lines_count >= 0
    &&& m.sizes.len() == if m.initialized {
        m.columns_count
    } else {
        0int
    }
    &&& (!m.initialized ==> m.columns_count == 0 && m.rows.len() == 0 && m.lines_count == 0)
    &&& (m.initialized ==> m.rows.len() == m.lines_count + 1)
    &&& (forall|r: int| 0 <= r < m.rows.len() ==> (#[trigger] m.rows[r]).len() == m.columns_count)
    &&& (forall|i: int| 0 <= i < m.sizes.len() ==> #[trigger] m.sizes[i] == col_max(m.rows, i))
}

/// The separator a table is built with: the given one, or a comma.
pub open spec fn chosen_separator(sep: Option<char>) -> char {
    match sep {
        Some(c) => c,
        None => ',',
    }
}

/// The state of a freshly constructed table: no schema, no rows, no widths.
pub open spec fn fresh_table(file_name: Seq<char>, sep: char) -> TableModel {
    TableModel {
        separator: sep,
        lines_count: 0,
        columns_count: 0,
        rows: Seq::empty(),
        sizes: Seq::empty(),
        initialized: false,
        file_name: file_name,
    }
}

/// The views of a sequence of parsed rows.
pub open spec fn row_views(rows: Seq<Vec<String>>) -> Seq<Seq<Seq<char>>> {
    rows.map_values(|row: Vec<String>| views_of(row@))
}

/// A schema-validating table of separated fields, with per-column maximum
/// widths tracked for later rendering.
pub struct MyCsv {
    pub separator: char,
    pub lines_count: u32,
    pub columns_count: usize,
    pub lines: Vec<Vec<String>>,
    pub sizes: Vec<usize>,
    pub initialized: bool,
    pub file_name: String,
}

impl View for MyCsv {
    type V = TableModel;

    open spec fn view(&self) -> TableModel {
        TableModel {
            separator: self.separator,
            lines_count: self.lines_count as int,
            columns_count: self.columns_count as int,
            rows: row_views(self.lines@),
            sizes: self.sizes@.map_values(|w: usize| w as int),
            initialized: self.initialized,
            file_name: self.file_name@,
        }
    }
}

impl MyCsv {
    pub open spec fn wf(self) -> bool {
        model_wf(self@)
    }

    /// Constructs an empty table bound to a source name and a separator
    /// (comma when none is given).
    pub fn new(filename: String, sep: Option<char>) -> (r: Result<MyCsv, ParseError>)
        ensures
            (r matches Ok(t) && t@ == fresh_table(filename@, chosen_separator(sep)) && t.wf()),
    {
        let separator = match sep {
            Some(c) => c,
            None => ',',
        };
        let s = MyCsv {
            separator,
            lines_count: 0,
            columns_count: 0,
            lines: Vec::new(),
            sizes: Vec::new(),
            initialized: false,
            file_name: filename,
        };
        proof {
            assert(row_views(s.lines@) =~= Seq::<Seq<Seq<char>>>::empty());
            assert(s.sizes@.map_values(|w: usize| w as int) =~= Seq::<int>::empty());
            assert(s@ =~~= fresh_table(s.file_name@, chosen_separator(sep)));
        }
        Ok(s)
    }

    /// Parses one raw line into the table, exactly as `step_model` says: on
    /// success the schema, widths, rows and data-row count advance; on
    /// failure the table is untouched.
    pub fn parse_line(&mut self, input: &str) -> (r: Result<(), ParseError>)
        requires
            old(self).wf(),
            old(self)@.lines_count < u32::MAX,
        ensures
            final(self).wf(),
            match step_model(old(self)@, input@) {
                Ok(m) => r == Ok::<(), ParseError>(()) && final(self)@ == m,
                Err(e) => r == Err::<(), ParseError>(e) && final(self)@ == old(self)@,
            },
    {
        let n: usize = input.unicode_len();
        if n == 2 && input.get_char(0) == '\r' && input.get_char(1) == '\n' {
            return Err(ParseError::EmptyTerminalLine);
        }
        let stripped: &str = if n >= 2 && input.get_char(n - 2) == '\r' && input.get_char(n - 1)
            == '\n' {
            input.substring_char(0, n - 2)
        } else {
            input
        };
        proof {
            assert(stripped@ =~= strip_crlf(input@));
        }
        let fields = split_fields_exec(stripped, self.separator);
        let ghost fields_spec = split_fields(strip_crlf(input@), old(self)@.separator);
        proof {
            assert(views_of(fields@) == fields_spec);
            assert(fields@.len() == fields_spec.len());
        }
        if self.initialized && fields.len() != self.columns_count {
            return Err(
                ParseError::ColumnCountMismatch {
                    expected: self.columns_count,
                    actual: fields.len(),
                },
            );
        }
        if !self.initialized {
            self.columns_count = fields.len();
            self.initialized = true;
            let mut i: usize = 0;
            while i < fields.len()
                invariant
                    i <= fields@.len(),
                    views_of(fields@) == fields_spec,
                    self.sizes@.map_values(|w: usize| w as int) =~= seeded_sizes(fields_spec).take(
                        i as int,
                    ),
                    self.lines@ == old(self).lines@,
                    self.initialized,
                    self.columns_count == fields@.len(),
                    self.lines_count == old(self).lines_count,
                    self.separator == old(self).separator,
                    self.file_name@ == old(self).file_name@,
                decreases fields@.len() - i,
            {
                let ghost old_sizes = self.sizes@;
                let w: usize = fields[i].as_str().unicode_len();
                self.sizes.push(w);
                proof {
                    assert(fields_spec[i as int] == fields@[i as int]@);
                    assert(self.sizes@.map_values(|w: usize| w as int) =~= old_sizes.map_values(
                        |w: usize| w as int,
                    ).push(w as int));
                    assert(seeded_sizes(fields_spec).take(i + 1int) =~= seeded_sizes(
                        fields_spec,
                    ).take(i as int).push(fields_spec[i as int].len() as int));
                }
                i = i + 1;
            }
            let ghost old_rows = self.lines@;
            self.lines.push(fields);
            proof {
                assert(seeded_sizes(fields_spec).take(fields_spec.len() as int) =~= seeded_sizes(
                    fields_spec,
                ));
                assert(row_views(self.lines@) =~= row_views(old_rows).push(fields_spec));
                let m = step_model(old(self)@, input@)->Ok_0;
                assert(self@ =~~= m);
                assert forall|rr: int| 0 <= rr < m.rows.len() implies (#[trigger] m.rows[rr]).len()
                    == m.columns_count by {
                    assert(m.rows[rr] == fields_spec);
                }
                assert forall|k: int| 0 <= k < m.sizes.len() implies #[trigger] m.sizes[k]
                    == col_max(m.rows, k) by {
                    assert(m.rows.drop_last() =~= Seq::<Seq<Seq<char>>>::empty());
                    assert(m.rows.last() == fields_spec);
                    assert(col_max(Seq::<Seq<Seq<char>>>::empty(), k) == 0);
                }
            }
            Ok(())
        } else {
            let ghost pre = self@;
            let mut i: usize = 0;
            while i < fields.len()
                invariant
                    i <= fields@.len(),
                    fields@.len() == self.columns_count,
                    views_of(fields@) == fields_spec,
                    self.sizes@.len() == self.columns_count,
                    pre.sizes.len() == fields@.len(),
                    self.columns_count == pre.columns_count,
                    self.separator == pre.separator,
                    self.initialized == pre.initialized,
                    self.lines_count as int == pre.lines_count,
                    row_views(self.lines@) == pre.rows,
                    self.file_name@ == pre.file_name,
                    forall|k: int|
                        0 <= k < i ==> (#[trigger] self.sizes@[k]) as int == grown_sizes(
                            pre.sizes,
                            fields_spec,
                        )[k],
                    forall|k: int|
                        i <= k < self.sizes@.len() ==> (#[trigger] self.sizes@[k]) as int
                            == pre.sizes[k],
                decreases fields@.len() - i,
            {
                let w: usize = fields[i].as_str().unicode_len();
                proof {
                    assert(fields_spec[i as int] == fields@[i as int]@);
                    assert(pre.sizes[i as int] == self.sizes@[i as int] as int);
                }
                if w > self.sizes[i] {
                    self.sizes.set(i, w);
                }
                proof {
                    assert(w as int == fields_spec[i as int].len() as int);
                    assert(self.sizes@[i as int] as int == grown_sizes(pre.sizes, fields_spec)[
                        i as int
                    ]);
                }
                i = i + 1;
            }
            self.lines.push(fields);
            self.lines_count = self.lines_count + 1;
            proof {
                assert(row_views(self.lines@) =~= pre.rows.push(fields_spec));
                let m = step_model(old(self)@, input@)->Ok_0;
                assert(self.sizes@.map_values(|w: usize| w as int) =~= grown_sizes(
                    pre.sizes,
                    fields_spec,
                ));
                assert(self@ =~~= m);
                assert forall|rr: int| 0 <= rr < m.rows.len() implies (#[trigger] m.rows[rr]).len()
                    == m.columns_count by {
                    if rr < pre.rows.len() {
                        assert(pre.rows[rr].len() == pre.columns_count);
                    } else {
                        assert(m.rows[rr] == fields_spec);
                    }
                }
                assert forall|k: int| 0 <= k < m.sizes.len() implies #[trigger] m.sizes[k]
                    == col_max(m.rows, k) by {
                    assert(m.rows.drop_last() =~= pre.rows);
                    assert(m.rows.last() == fields_spec);
                    assert(pre.sizes[k] == col_max(pre.rows, k));
                }
            }
            Ok(())
        }
    }

    /// Parses raw lines in order until the input is exhausted or a line
    /// fails, exactly as `run_model` says: the rows parsed before a failing
    /// line are kept, and the first failure is returned.
    pub fn parse_csv(&mut self, lines: &Vec<String>) -> (r: Result<(), ParseError>)
        requires
            old(self).wf(),
            old(self)@.lines_count + lines@.len() <= u32::MAX,
        ensures
            final(self).wf(),
            final(self)@ == run_model(old(self)@, views_of(lines@)).0,
            r == run_model(old(self)@, views_of(lines@)).1,
    {
        let ghost all = views_of(lines@);
        let mut idx: usize = 0;
        proof {
            assert(all.skip(0int) =~= all);
        }
        while idx < lines.len()
            invariant
                idx <= lines@.len(),
                all == views_of(lines@),
                self.wf(),
                self@.lines_count <= old(self)@.lines_count + idx,
                old(self)@.lines_count + lines@.len() <= u32::MAX,
                run_model(old(self)@, all) == run_model(self@, all.skip(idx as int)),
            decreases lines@.len() - idx,
        {
            let ghost pre = self@;
            let ghost suffix = all.skip(idx as int);
            proof {
                assert(suffix.len() == all.len() - idx);
                assert(suffix[0] == lines@[idx as int]@);
            }
            let r = self.parse_line(lines[idx].as_str());
            if let Err(e) = r {
                proof {
                    assert(run_model(pre, suffix) == (pre, Err::<(), ParseError>(e)));
                }
                return Err(e);
            }
            proof {
                let m = step_model(pre, suffix[0])->Ok_0;
                assert(self@ == m);
                assert(m.lines_count <= pre.lines_count + 1);
                assert(suffix.drop_first() =~= all.skip(idx + 1int));
                assert(run_model(pre, suffix) == run_model(m, suffix.drop_first()));
            }
            idx = idx + 1;
        }
        proof {
            assert(all.skip(lines@.len() as int) =~= Seq::<Seq<char>>::empty());
        }
        Ok(())
    }
}

/// Builds a table named after its source and parses the given raw lines into
/// it. The table is returned even when the pass halts early, holding the
/// rows parsed before the failing line, beside the pass's outcome.
pub fn parse_csv(file_name: String, lines: &Vec<String>, separator: Option<char>) -> (r: (
    MyCsv,
    Result<(), ParseError>,
))
    requires
        lines@.len() <= u32::MAX,
    ensures
        r.0.wf(),
        r.0@ == run_model(fresh_table(file_name@, chosen_separator(separator)), views_of(lines@)).0,
        r.1 == run_model(fresh_table(file_name@, chosen_separator(separator)), views_of(lines@)).1,
{
    let table = MyCsv::new(file_name, separator);
    let mut table = match table {
        Ok(t) => t,
        Err(_) => {
            proof {
                assert(false);
            }
            unreached()
        },
    };
    let outcome = table.parse_csv(lines);
    (table, outcome)
}

} // verus!

//! The engine's universal tabular value and the data-source contract.
//!
//! `Records` pairs an ordered field-name list with row data; every row is as
//! wide as the field-name list. A `Source` is anything that can produce the
//! complete record set for one logical table. `records_from_text` turns
//! delimited text (a header line and zero or more data lines) into `Records`
//! and is the whole parsing half of a delimited-file source; reading the
//! backing resource itself is the caller's business.

use vstd::prelude::*;

use crate::text::{
    char_run_end, lemma_char_run_end, lemma_names_model_push, names_model, not_char_p, scan_until,
};

verus! {

/// A field-name list plus aligned row data.
#[derive(Debug, PartialEq, Eq, Clone)]
pub struct Records {
    pub field_names: Vec<String>,
    pub data: Vec<Vec<String>>,
}

/// Mathematical value of a record set: all text as character sequences.
#[verifier::ext_equal]
pub struct RecordsModel {
    pub field_names: Seq<Seq<char>>,
    pub data: Seq<Seq<Seq<char>>>,
}

/// The rows a vector of rows stands for.
pub open spec fn rows_model(rows: Seq<Vec<String>>) -> Seq<Seq<Seq<char>>> {
    rows.map_values(|r: Vec<String>| names_model(r@))
}

impl View for Records {
    type V = RecordsModel;

    open spec fn view(&self) -> RecordsModel {
        RecordsModel { field_names: names_model(self.field_names@), data: rows_model(self.data@) }
    }
}

/// Every row is exactly as wide as the field-name list.
pub open spec fn records_wf(r: RecordsModel) -> bool {
    forall|k: int| 0 <= k < r.data.len() ==> (#[trigger] r.data[k]).len() == r.field_names.len()
}

/// A data-source failure: the backing resource is unreadable, has no header
/// line, or has a data row (0-based index) of the wrong width.
#[derive(Debug, PartialEq, Eq, Clone)]
pub enum SourceError {
    Unreadable(String),
    NoHeaderRow,
    RaggedRow { row: usize },
}

/// Anything that can produce the complete record set for one logical table.
/// An implementation may fail (its backing resource may be unreadable or
/// malformed), but whatever record set it produces is well-formed.
pub trait Source {
    fn records(&self) -> (r: Result<Records, SourceError>)
        ensures
            r matches Ok(recs) ==> records_wf(recs@),
    ;
}

/// The pieces of `s[i..]` split on `sep`: maximal separator-free spans, one
/// more piece than there are separators.
pub open spec fn chunks_from(s: Seq<char>, i: int, sep: char) -> Seq<Seq<char>>
    decreases s.len() - i
        when 0 <= i <= s.len()
        via chunks_from_decreases
{
    let j = char_run_end(s, i, not_char_p(sep));
    if j < s.len() {
        seq![s.subrange(i, j)] + chunks_from(s, j + 1, sep)
    } else {
        seq![s.subrange(i, s.len() as int)]
    }
}

#[via_fn]
proof fn chunks_from_decreases(s: Seq<char>, i: int, sep: char) {
    if 0 <= i <= s.len() {
        lemma_char_run_end(s, i, not_char_p(sep));
    }
}

/// Whether the text ends with a newline (the final line ending is optional).
pub open spec fn ends_nl(s: Seq<char>) -> bool {
    s.len() > 0 && s.last() == '\n'
}

/// Drops one trailing carriage return, so that a `\r\n` line ending reads
/// the same as `\n`. Applied only to pieces that a newline terminated: a
/// carriage return at the very end of the text is ordinary text.
pub open spec fn strip_cr(line: Seq<char>) -> Seq<char> {
    if line.len() > 0 && line.last() == '\r' {
        line.drop_last()
    } else {
        line
    }
}

/// The lines of `s[i..]`: newline-separated pieces, a trailing empty piece
/// after a final newline dropped, and a carriage return stripped from each
/// newline-terminated piece — the unterminated final piece, if any, is kept
/// as it stands.
pub open spec fn lines_from(s: Seq<char>, i: int) -> Seq<Seq<char>> {
    let cs = chunks_from(s, i, '\n');
    if ends_nl(s) {
        cs.drop_last().map_values(|l: Seq<char>| strip_cr(l))
    } else {
        cs.drop_last().map_values(|l: Seq<char>| strip_cr(l)).push(cs.last())
    }
}

/// The lines of a whole text; an empty text has none.
pub open spec fn spec_lines(s: Seq<char>) -> Seq<Seq<char>> {
    if s.len() == 0 {
        Seq::empty()
    } else {
        lines_from(s, 0)
    }
}

proof fn lemma_lines_from_step(s: Seq<char>, i: int)
    requires
        0 <= i <= s.len(),
        s.len() > 0,
        i == s.len() ==> ends_nl(s),
    ensures
        ({
            let j = char_run_end(s, i, not_char_p('\n'));
            &&& (j < s.len() ==> lines_from(s, i) == seq![strip_cr(s.subrange(i, j))]
                + lines_from(s, j + 1))
            &&& (j == s.len() && !ends_nl(s) ==> lines_from(s, i) == seq![s.subrange(i, j)])
            &&& (j == s.len() && ends_nl(s) ==> lines_from(s, i) == Seq::<Seq<char>>::empty())
        }),
{
    lemma_char_run_end(s, i, not_char_p('\n'));
    let j = char_run_end(s, i, not_char_p('\n'));
    let f = |l: Seq<char>| strip_cr(l);
    if j < s.len() {
        let rest = chunks_from(s, j + 1, '\n');
        assert(chunks_from(s, i, '\n') == seq![s.subrange(i, j)] + rest);
        assert(rest.len() >= 1);
        assert((seq![s.subrange(i, j)] + rest).drop_last() =~= seq![s.subrange(i, j)]
            + rest.drop_last());
        assert((seq![s.subrange(i, j)] + rest.drop_last()).map_values(f) =~= seq![
            strip_cr(s.subrange(i, j)),
        ] + rest.drop_last().map_values(f));
        if ends_nl(s) {
        } else {
            assert((seq![s.subrange(i, j)] + rest).last() == rest.last());
            assert((seq![strip_cr(s.subrange(i, j))] + rest.drop_last().map_values(f)).push(
                rest.last(),
            ) =~= seq![strip_cr(s.subrange(i, j))] + rest.drop_last().map_values(f).push(
                rest.last(),
            ));
        }
    } else {
        assert(chunks_from(s, i, '\n') == seq![s.subrange(i, s.len() as int)]);
        if ends_nl(s) {
            assert(i == s.len()) by {
                if i < s.len() {
                    assert((not_char_p('\n'))(s[s.len() - 1]));
                }
            }
            assert(lines_from(s, i) =~= Seq::<Seq<char>>::empty());
        } else {
            let cs = chunks_from(s, i, '\n');
            assert(cs.drop_last() =~= Seq::<Seq<char>>::empty());
            assert(cs.drop_last().map_values(f) =~= Seq::<Seq<char>>::empty());
            assert(lines_from(s, i) =~= seq![s.subrange(i, s.len() as int)]);
        }
    }
}

/// Splits a text into its lines.
fn split_lines(text: &str) -> (lines: Vec<String>)
    ensures
        names_model(lines@) == spec_lines(text@),
{
    let ghost s = text@;
    let n = text.unicode_len();
    let mut lines: Vec<String> = Vec::new();
    if n == 0 {
        proof {
            assert(names_model(lines@) =~= spec_lines(s));
        }
        return lines;
    }
    let ends_with_nl = text.get_char(n - 1) == '\n';
    let mut i: usize = 0;
    loop
        invariant
            n == s.len(),
            s == text@,
            n > 0,
            0 <= i <= n,
            ends_with_nl == ends_nl(s),
            i == n ==> ends_nl(s),
            spec_lines(s) == names_model(lines@) + lines_from(s, i as int),
        decreases n - i,
    {
        let j = scan_until(text, i, n, '\n');
        let ghost lines0 = lines@;
        proof {
            lemma_lines_from_step(s, i as int);
            lemma_char_run_end(s, i as int, not_char_p('\n'));
        }
        if j < n {
            proof {
                assert(!((not_char_p('\n'))(s[j as int])));
                assert(s[j as int] == '\n');
            }
            let end = if j > i && text.get_char(j - 1) == '\r' {
                j - 1
            } else {
                j
            };
            proof {
                assert(s.subrange(i as int, end as int) =~= strip_cr(
                    s.subrange(i as int, j as int),
                ));
            }
            let line = text.substring_char(i, end).to_owned();
            lines.push(line);
            proof {
                lemma_names_model_push(lines0, lines@.last());
                assert(names_model(lines0) + (seq![strip_cr(s.subrange(i as int, j as int))]
                    + lines_from(s, j + 1)) =~= names_model(lines@) + lines_from(s, j + 1));
            }
            i = j + 1;
        } else {
            if !ends_with_nl {
                let line = text.substring_char(i, j).to_owned();
                lines.push(line);
                proof {
                    lemma_names_model_push(lines0, lines@.last());
                    assert(names_model(lines0) + seq![s.subrange(i as int, j as int)]
                        =~= names_model(lines@));
                    assert(names_model(lines@) + Seq::<Seq<char>>::empty() =~= names_model(
                        lines@,
                    ));
                }
            } else {
                proof {
                    assert(names_model(lines@) + Seq::<Seq<char>>::empty() =~= names_model(
                        lines@,
                    ));
                }
            }
            return lines;
        }
    }
}

/// Splits one line into its fields on the separator.
fn split_chunks(line: &str, sep: char) -> (v: Vec<String>)
    ensures
        names_model(v@) == chunks_from(line@, 0, sep),
{
    let ghost s = line@;
    let n = line.unicode_len();
    let mut v: Vec<String> = Vec::new();
    let mut i: usize = 0;
    loop
        invariant
            n == s.len(),
            s == line@,
            0 <= i <= n,
            chunks_from(s, 0, sep) == names_model(v@) + chunks_from(s, i as int, sep),
        decreases n - i,
    {
        let j = scan_until(line, i, n, sep);
        let ghost v0 = v@;
        let piece = line.substring_char(i, j).to_owned();
        v.push(piece);
        proof {
            lemma_names_model_push(v0, v@.last());
        }
        if j < n {
            proof {
                assert(names_model(v0) + (seq![s.subrange(i as int, j as int)] + chunks_from(
                    s,
                    j + 1,
                    sep,
                )) =~= names_model(v@) + chunks_from(s, j + 1, sep));
            }
            i = j + 1;
        } else {
            proof {
                assert(names_model(v0) + seq![s.subrange(i as int, n as int)] =~= names_model(v@));
                assert(chunks_from(s, 0, sep) =~= names_model(v@));
            }
            return v;
        }
    }
}

/// Index of the first row whose width differs from `w`.
pub open spec fn first_ragged(rows: Seq<Seq<Seq<char>>>, w: int) -> int
    decreases rows.len(),
{
    if rows.len() == 0 {
        0
    } else if rows[0].len() != w {
        0
    } else {
        1 + first_ragged(rows.drop_first(), w)
    }
}

proof fn lemma_first_ragged_is(rows: Seq<Seq<Seq<char>>>, w: int, k: int)
    requires
        0 <= k < rows.len(),
        forall|m: int| 0 <= m < k ==> (#[trigger] rows[m]).len() == w,
        rows[k].len() != w,
    ensures
        first_ragged(rows, w) == k,
    decreases k,
{
    if k > 0 {
        assert(rows[0].len() == w);
        assert forall|m: int| 0 <= m < k - 1 implies (#[trigger] rows.drop_first()[m]).len() == w by {
            assert(rows.drop_first()[m] == rows[m + 1]);
        }
        assert(rows.drop_first()[k - 1] == rows[k]);
        lemma_first_ragged_is(rows.drop_first(), w, k - 1);
    }
}

/// Every line after the header, split into fields on the separator.
pub open spec fn split_rows(lines: Seq<Seq<char>>, sep: char) -> Seq<Seq<Seq<char>>> {
    lines.subrange(1, lines.len() as int).map_values(|l: Seq<char>| chunks_from(l, 0, sep))
}

/// What reading delimited text produces: the first line, split on the
/// separator, names the fields; every further line, split the same way, is a
/// row. An empty text has no header; a row of the wrong width is an error
/// naming the first such row.
pub open spec fn spec_records_from_text(s: Seq<char>, sep: char) -> Result<
    RecordsModel,
    SourceError,
> {
    let lines = spec_lines(s);
    if lines.len() == 0 {
        Err(SourceError::NoHeaderRow)
    } else {
        let names = chunks_from(lines[0], 0, sep);
        let rows = split_rows(lines, sep);
        if exists|k: int| 0 <= k < rows.len() && (#[trigger] rows[k]).len() != names.len() {
            Err(SourceError::RaggedRow { row: first_ragged(rows, names.len() as int) as usize })
        } else {
            Ok(RecordsModel { field_names: names, data: rows })
        }
    }
}

/// Reads delimited text into records, exactly as `spec_records_from_text`
/// says: header line into field names, every other line into a row, all split
/// on the separator; the record set is well-formed.
pub fn records_from_text(text: &str, separator: char) -> (r: Result<Records, SourceError>)
    ensures
        (r is Ok) == (spec_records_from_text(text@, separator) is Ok),
        r matches Ok(recs) ==> (recs@ == spec_records_from_text(text@, separator)->Ok_0
            && records_wf(recs@)),
        r matches Err(e) ==> e == spec_records_from_text(text@, separator)->Err_0,
{
    let ghost s = text@;
    let lines = split_lines(text);
    if lines.len() == 0 {
        proof {
            assert(spec_lines(s).len() == 0);
        }
        return Err(SourceError::NoHeaderRow);
    }
    let ghost speclines = spec_lines(s);
    let ghost names = chunks_from(speclines[0], 0, separator);
    let ghost rows = split_rows(speclines, separator);
    proof {
        assert(speclines[0] == lines@[0]@);
    }
    let field_names = split_chunks(lines[0].as_str(), separator);
    let width = field_names.len();
    let mut data: Vec<Vec<String>> = Vec::new();
    let mut t: usize = 1;
    while t < lines.len()
        invariant
            speclines == spec_lines(text@),
            names == chunks_from(speclines[0], 0, separator),
            names_model(lines@) == speclines,
            speclines.len() == lines@.len(),
            1 <= t <= lines@.len(),
            names == names_model(field_names@),
            width == field_names@.len(),
            rows == split_rows(speclines, separator),
            rows.len() == speclines.len() - 1,
            rows_model(data@) =~= rows.take(t - 1),
            data@.len() == t - 1,
            forall|m: int| 0 <= m < t - 1 ==> (#[trigger] rows[m]).len() == width,
        decreases lines@.len() - t,
    {
        proof {
            assert(speclines[t as int] == lines@[t as int]@);
            assert(rows[t - 1] == chunks_from(speclines[t as int], 0, separator));
        }
        let row = split_chunks(lines[t].as_str(), separator);
        if row.len() != width {
            proof {
                assert(rows[t - 1].len() != names.len());
                assert(exists|k: int| 0 <= k < rows.len() && (#[trigger] rows[k]).len()
                    != names.len());
                lemma_first_ragged_is(rows, width as int, t - 1);
            }
            return Err(SourceError::RaggedRow { row: t - 1 });
        }
        let ghost data0 = data@;
        data.push(row);
        proof {
            assert(rows_model(data@) =~= rows_model(data0).push(names_model(data@.last()@)));
            assert(rows_model(data@) =~= rows.take(t as int));
        }
        t += 1;
    }
    proof {
        assert(rows.take(t - 1) =~= rows);
        assert(!(exists|k: int| 0 <= k < rows.len() && (#[trigger] rows[k]).len() != names.len()));
    }
    let recs = Records { field_names, data };
    proof {
        assert(recs@ =~~= spec_records_from_text(s, separator)->Ok_0);
    }
    Ok(recs)
}

/// An in-memory data source: delimited text held directly, read on demand.
/// Additional source kinds (say, one backed by a file) implement `Source` the
/// same way and need no change to the executor.
#[derive(Debug, PartialEq, Eq, Clone)]
pub struct TextSource {
    pub text: String,
    pub separator: char,
}

impl Source for TextSource {
    /// Reads the held text exactly as `spec_records_from_text` says: the
    /// first line names the fields, every further line is a row.
    fn records(&self) -> (r: Result<Records, SourceError>)
        ensures
            (r is Ok) == (spec_records_from_text(self.text@, self.separator) is Ok),
            r matches Ok(recs) ==> recs@ == spec_records_from_text(self.text@, self.separator)->Ok_0,
            r matches Err(e) ==> e == spec_records_from_text(self.text@, self.separator)->Err_0,
    {
        records_from_text(self.text.as_str(), self.separator)
    }
}

} // verus!

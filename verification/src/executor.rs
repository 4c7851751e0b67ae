//! Execution: walks the logical plan, resolves table references against a
//! registry of named data sources, and applies operator semantics.
//!
//! A scan looks its table up in the registry (a missing entry is an error
//! naming the table) and returns the source's records verbatim. A projection
//! evaluates its input and rearranges columns: the output field names are the
//! requested names in requested order (duplicates allowed, each resolved
//! independently), the row count is unchanged, and every cell value is the
//! input row's value at the requested column; a name absent from the input is
//! an error naming the first such column. `run_query` chains all four stages.

use vstd::prelude::*;

use crate::parser::{parse, spec_parse_query, ParseError};
use crate::planner::{plan, spec_plan, PlanModel, PlanNode};
use crate::records::{records_wf, Records, Source, SourceError};
use crate::text::{lemma_names_model_push, names_model};

verus! {

/// An execution failure: the scanned table is absent from the registry, a
/// projected column is absent from the input, or the data source itself
/// failed.
#[derive(Debug, PartialEq, Eq, Clone)]
pub enum ExecError {
    SchemaNotFound(String),
    UnknownColumn(String),
    Source(SourceError),
}

/// A failure anywhere in the pipeline.
#[derive(Debug, PartialEq, Eq, Clone)]
pub enum QueryError {
    Parse(ParseError),
    Exec(ExecError),
}

/// Index of the first occurrence of `f` in `names`.
pub open spec fn first_idx(names: Seq<Seq<char>>, f: Seq<char>) -> int
    decreases names.len(),
{
    if names.len() == 0 {
        0
    } else if names[0] == f {
        0
    } else {
        1 + first_idx(names.drop_first(), f)
    }
}

proof fn lemma_first_idx_is(names: Seq<Seq<char>>, f: Seq<char>, t: int)
    requires
        0 <= t < names.len(),
        names[t] == f,
        forall|u: int| 0 <= u < t ==> names[u] != f,
    ensures
        first_idx(names, f) == t,
        names.contains(f),
    decreases t,
{
    if t > 0 {
        assert(names.drop_first()[t - 1] == names[t]);
        assert forall|u: int| 0 <= u < t - 1 implies names.drop_first()[u] != f by {
            assert(names.drop_first()[u] == names[u + 1]);
        }
        lemma_first_idx_is(names.drop_first(), f, t - 1);
    }
}

/// Every requested field occurs among the input's field names.
pub open spec fn fields_present(fields: Seq<Seq<char>>, names: Seq<Seq<char>>) -> bool {
    forall|k: int| 0 <= k < fields.len() ==> names.contains(#[trigger] fields[k])
}

/// The first requested field that is absent from the input's field names.
pub open spec fn first_missing(fields: Seq<Seq<char>>, names: Seq<Seq<char>>) -> Seq<char>
    decreases fields.len(),
{
    if fields.len() == 0 {
        Seq::empty()
    } else if !names.contains(fields[0]) {
        fields[0]
    } else {
        first_missing(fields.drop_first(), names)
    }
}

proof fn lemma_first_missing_is(fields: Seq<Seq<char>>, names: Seq<Seq<char>>, k: int)
    requires
        0 <= k < fields.len(),
        forall|m: int| 0 <= m < k ==> names.contains(#[trigger] fields[m]),
        !names.contains(fields[k]),
    ensures
        first_missing(fields, names) == fields[k],
        !fields_present(fields, names),
    decreases k,
{
    if k > 0 {
        assert(names.contains(fields[0]));
        assert forall|m: int| 0 <= m < k - 1 implies names.contains(
            #[trigger] fields.drop_first()[m],
        ) by {
            assert(fields.drop_first()[m] == fields[m + 1]);
        }
        assert(fields.drop_first()[k - 1] == fields[k]);
        lemma_first_missing_is(fields.drop_first(), names, k - 1);
    }
}

/// One projected row: the input row's cell at the first occurrence of each
/// requested field, in requested order.
pub open spec fn project_row(
    fields: Seq<Seq<char>>,
    names: Seq<Seq<char>>,
    row: Seq<Seq<char>>,
) -> Seq<Seq<char>> {
    fields.map_values(|f: Seq<char>| row[first_idx(names, f)])
}

/// Every row projected the same way.
pub open spec fn project_rows(
    fields: Seq<Seq<char>>,
    names: Seq<Seq<char>>,
    rows: Seq<Seq<Seq<char>>>,
) -> Seq<Seq<Seq<char>>> {
    rows.map_values(|row: Seq<Seq<char>>| project_row(fields, names, row))
}

/// The projected record set: the requested names become the field names and
/// every row is reduced to the requested columns, count unchanged.
pub open spec fn spec_project(
    fields: Seq<Seq<char>>,
    recs: crate::records::RecordsModel,
) -> crate::records::RecordsModel {
    crate::records::RecordsModel {
        field_names: fields,
        data: project_rows(fields, recs.field_names, recs.data),
    }
}

/// What projecting `fields` out of `input` must return: the exact projected
/// record set when every field is present, and otherwise an `UnknownColumn`
/// error naming the first absent field.
pub open spec fn project_post(
    fields: Seq<Seq<char>>,
    input: Records,
    r: Result<Records, ExecError>,
) -> bool {
    if fields_present(fields, input@.field_names) {
        r matches Ok(out) && out@ == spec_project(fields, input@) && records_wf(out@)
    } else {
        r matches Err(e) && e matches ExecError::UnknownColumn(c) && c@ == first_missing(
            fields,
            input@.field_names,
        )
    }
}

/// Finds the first field of `names` equal to `target`.
fn find_field(names: &Vec<String>, target: &String) -> (r: Option<usize>)
    ensures
        r matches Some(t) ==> (t < names@.len() && names_model(names@).contains(target@)
            && t as int == first_idx(names_model(names@), target@)),
        r is None ==> !names_model(names@).contains(target@),
{
    let ghost nm = names_model(names@);
    let mut t: usize = 0;
    while t < names.len()
        invariant
            nm == names_model(names@),
            t <= names@.len(),
            forall|u: int| 0 <= u < t ==> nm[u] != target@,
        decreases names@.len() - t,
    {
        if names[t] == *target {
            proof {
                lemma_first_idx_is(nm, target@, t as int);
            }
            return Some(t);
        }
        t += 1;
    }
    proof {
        assert forall|u: int| 0 <= u < nm.len() implies nm[u] != target@ by {}
    }
    None
}

/// Projects the requested fields out of a record set. Succeeds if and only if
/// every requested field names an input column; then the output field names
/// are the requested names in requested order, the row count is unchanged,
/// and every cell is the input row's value for the requested column. A
/// missing field yields `UnknownColumn` naming the first one.
pub fn project(fields: &Vec<String>, input: Records) -> (r: Result<Records, ExecError>)
    requires
        records_wf(input@),
    ensures
        project_post(names_model(fields@), input, r),
{
    let ghost fm = names_model(fields@);
    let ghost nm = input@.field_names;
    let mut idxs: Vec<usize> = Vec::new();
    let mut k: usize = 0;
    while k < fields.len()
        invariant
            fm == names_model(fields@),
            nm == input@.field_names,
            records_wf(input@),
            k <= fields@.len(),
            idxs@.len() == k,
            forall|m: int| 0 <= m < k ==> nm.contains(#[trigger] fm[m]),
            forall|m: int| 0 <= m < k ==> (#[trigger] idxs@[m]) as int == first_idx(nm, fm[m])
                && idxs@[m] < nm.len(),
        decreases fields@.len() - k,
    {
        match find_field(&input.field_names, &fields[k]) {
            Some(t) => {
                idxs.push(t);
            },
            None => {
                proof {
                    lemma_first_missing_is(fm, nm, k as int);
                }
                return Err(ExecError::UnknownColumn(fields[k].clone()));
            },
        }
        k += 1;
    }
    let mut data: Vec<Vec<String>> = Vec::new();
    let mut r_i: usize = 0;
    while r_i < input.data.len()
        invariant
            fm == names_model(fields@),
            nm == input@.field_names,
            records_wf(input@),
            idxs@.len() == fields@.len(),
            forall|m: int| 0 <= m < fields@.len() ==> nm.contains(#[trigger] fm[m]),
            forall|m: int| 0 <= m < fields@.len() ==> (#[trigger] idxs@[m]) as int == first_idx(
                nm,
                fm[m],
            ) && idxs@[m] < nm.len(),
            r_i <= input.data@.len(),
            data@.len() == r_i,
            crate::records::rows_model(data@) =~= project_rows(fm, nm, input@.data).take(
                r_i as int,
            ),
        decreases input.data@.len() - r_i,
    {
        let row = &input.data[r_i];
        proof {
            assert(input@.data[r_i as int] == names_model(row@));
            assert(input@.data[r_i as int].len() == nm.len());
        }
        let ghost rowm = names_model(row@);
        let mut out_row: Vec<String> = Vec::new();
        let mut j: usize = 0;
        while j < idxs.len()
            invariant
                fm == names_model(fields@),
                nm == input@.field_names,
                rowm == names_model(row@),
                rowm.len() == nm.len(),
                idxs@.len() == fields@.len(),
                forall|m: int| 0 <= m < fields@.len() ==> (#[trigger] idxs@[m]) as int == first_idx(
                    nm,
                    fm[m],
                ) && idxs@[m] < nm.len(),
                j <= idxs@.len(),
                names_model(out_row@) =~= project_row(fm, nm, rowm).take(j as int),
            decreases idxs@.len() - j,
        {
            let ghost out0 = out_row@;
            out_row.push(row[idxs[j]].clone());
            proof {
                lemma_names_model_push(out0, out_row@.last());
                assert(project_row(fm, nm, rowm)[j as int] == rowm[first_idx(nm, fm[j as int])]);
                assert(names_model(out_row@) =~= project_row(fm, nm, rowm).take(j + 1));
            }
            j += 1;
        }
        let ghost data0 = data@;
        data.push(out_row);
        proof {
            assert(names_model(data@.last()@) =~= project_row(fm, nm, rowm));
            assert(crate::records::rows_model(data@) =~= crate::records::rows_model(data0).push(
                names_model(data@.last()@),
            ));
            assert(project_rows(fm, nm, input@.data)[r_i as int] == project_row(
                fm,
                nm,
                input@.data[r_i as int],
            ));
            assert(crate::records::rows_model(data@) =~= project_rows(fm, nm, input@.data).take(
                r_i + 1,
            ));
        }
        r_i += 1;
    }
    let mut out_names: Vec<String> = Vec::new();
    let mut m: usize = 0;
    while m < fields.len()
        invariant
            fm == names_model(fields@),
            m <= fields@.len(),
            names_model(out_names@) =~= fm.take(m as int),
        decreases fields@.len() - m,
    {
        let ghost names0 = out_names@;
        out_names.push(fields[m].clone());
        proof {
            lemma_names_model_push(names0, out_names@.last());
            assert(names_model(out_names@) =~= fm.take(m + 1));
        }
        m += 1;
    }
    let out = Records { field_names: out_names, data };
    proof {
        assert(names_model(out.field_names@) =~= fm);
        assert(crate::records::rows_model(out.data@) =~= project_rows(fm, nm, input@.data));
        assert(out@ =~~= spec_project(fm, input@));
        assert forall|q: int| 0 <= q < out@.data.len() implies (#[trigger] out@.data[q]).len()
            == out@.field_names.len() by {
            assert(out@.data[q] == project_row(fm, nm, input@.data[q]));
        }
    }
    Ok(out)
}

/// Whether some registry entry carries this table name.
pub open spec fn contains_key(keys: Seq<Seq<char>>, name: Seq<char>) -> bool {
    exists|k: int| 0 <= k < keys.len() && keys[k] == name
}

/// The table names a registry binds, in order.
pub open spec fn schema_keys<S>(schemas: Seq<(String, S)>) -> Seq<Seq<char>> {
    schemas.map_values(|p: (String, S)| p.0@)
}

/// How a projection node's result relates to its input's result: an input
/// error is returned unchanged; an input record set is projected exactly.
pub open spec fn project_mid_post(
    fields: Seq<Seq<char>>,
    mid: Result<Records, ExecError>,
    r: Result<Records, ExecError>,
) -> bool {
    match mid {
        Ok(recs) => project_post(fields, recs, r),
        Err(e) => r == Err::<Records, ExecError>(e),
    }
}

/// What executing a plan against a registry with the given table names must
/// return. A scan of an unbound table is a `SchemaNotFound` error naming it;
/// a scan of a bound table returns whatever well-formed record set the source
/// produced, or the source's own error. A projection first evaluates its
/// input; an input error is returned unchanged, and an input record set is
/// projected exactly (`project_post`).
pub open spec fn exec_post(
    keys: Seq<Seq<char>>,
    node: PlanModel,
    r: Result<Records, ExecError>,
) -> bool
    decreases node,
{
    match node {
        PlanModel::Scan { from } => {
            if contains_key(keys, from) {
                (r matches Ok(recs) ==> records_wf(recs@)) && (r matches Err(e) ==> e is Source)
            } else {
                r matches Err(e) && e matches ExecError::SchemaNotFound(n) && n@ == from
            }
        },
        PlanModel::Project { fields, input } => {
            exists|mid: Result<Records, ExecError>|
                exec_post(keys, *input, mid) && #[trigger] project_mid_post(fields, mid, r)
        },
    }
}

/// Resolves table references and applies operator semantics over a plan tree.
pub struct Executor<S: Source> {
    pub schemas: Vec<(String, S)>,
}

impl<S: Source> Executor<S> {
    /// The table names this executor's registry binds.
    pub open spec fn keys(&self) -> Seq<Seq<char>> {
        schema_keys(self.schemas@)
    }

    /// The registry is a mapping: it binds each table name at most once, as
    /// the caller constructs it.
    pub open spec fn wf(&self) -> bool {
        forall|k1: int, k2: int|
            0 <= k1 < k2 < self.keys().len() ==> self.keys()[k1] != self.keys()[k2]
    }

    /// Finds the first registry entry bound to this table name.
    fn find_source(&self, name: &String) -> (r: Option<usize>)
        ensures
            r matches Some(i) ==> (i < self.schemas@.len() && self.keys()[i as int] == name@
                && contains_key(self.keys(), name@)),
            r is None ==> !contains_key(self.keys(), name@),
    {
        let mut k: usize = 0;
        while k < self.schemas.len()
            invariant
                k <= self.schemas@.len(),
                forall|m: int| 0 <= m < k ==> self.keys()[m] != name@,
            decreases self.schemas@.len() - k,
        {
            if self.schemas[k].0 == *name {
                proof {
                    assert(self.keys()[k as int] == name@);
                }
                return Some(k);
            }
            k += 1;
        }
        proof {
            assert forall|m: int| 0 <= m < self.keys().len() implies self.keys()[m] != name@ by {}
        }
        None
    }

    /// Evaluates a plan: scans resolve their table against the registry and
    /// ask the bound source for records; projections rearrange their input's
    /// columns. Returns exactly what `exec_post` admits.
    pub fn execute(&self, node: PlanNode) -> (r: Result<Records, ExecError>)
        requires
            self.wf(),
        ensures
            exec_post(self.keys(), node@, r),
            r matches Ok(recs) ==> records_wf(recs@),
        decreases node,
    {
        let ghost nodem = node@;
        match node {
            PlanNode::Scan { from } => {
                let ghost fromm = from@;
                proof {
                    assert(nodem == PlanModel::Scan { from: fromm });
                }
                match self.find_source(&from) {
                    Some(i) => {
                        match self.schemas[i].1.records() {
                            Ok(recs) => Ok(recs),
                            Err(e) => Err(ExecError::Source(e)),
                        }
                    },
                    None => Err(ExecError::SchemaNotFound(from)),
                }
            },
            PlanNode::Project { fields, input } => {
                let ghost inputm = crate::planner::plan_model(*input);
                proof {
                    assert(nodem == PlanModel::Project {
                        fields: names_model(fields@),
                        input: Box::new(inputm),
                    });
                }
                let mid = self.execute(*input);
                let ghost gmid = mid;
                match mid {
                    Ok(recs) => {
                        let r = project(&fields, recs);
                        proof {
                            assert(*(nodem->Project_input) == inputm);
                            assert(exec_post(self.keys(), *(nodem->Project_input), gmid));
                            assert(project_mid_post(nodem->Project_fields, gmid, r));
                            assert(exec_post(self.keys(), nodem, r));
                        }
                        r
                    },
                    Err(e) => {
                        let r = Err::<Records, ExecError>(e);
                        proof {
                            assert(*(nodem->Project_input) == inputm);
                            assert(exec_post(self.keys(), *(nodem->Project_input), gmid));
                            assert(project_mid_post(nodem->Project_fields, gmid, r));
                            assert(exec_post(self.keys(), nodem, r));
                        }
                        r
                    },
                }
            },
        }
    }
}

/// What running a whole query must return: a parse failure is returned as
/// `Parse` with exactly the grammar's error; otherwise the parsed statement
/// is lowered (`spec_plan`) and executed, and the result is what `exec_post`
/// admits for that plan, execution errors wrapped in `Exec`.
pub open spec fn run_post(
    keys: Seq<Seq<char>>,
    s: Seq<char>,
    r: Result<Records, QueryError>,
) -> bool {
    match spec_parse_query(s) {
        Err(e) => r == Err::<Records, QueryError>(QueryError::Parse(e)),
        Ok(sel) => {
            &&& (r matches Ok(recs) ==> exec_post(keys, spec_plan(sel), Ok(recs)))
            &&& (r matches Err(qe) ==> (qe matches QueryError::Exec(e) && exec_post(
                keys,
                spec_plan(sel),
                Err(e),
            )))
        },
    }
}

/// The four-stage pipeline on one query string: lex, parse, plan, execute.
pub fn run_query<S: Source>(query: &str, executor: &Executor<S>) -> (r: Result<
    Records,
    QueryError,
>)
    requires
        executor.wf(),
    ensures
        run_post(executor.keys(), query@, r),
{
    let sel = match parse(query) {
        Ok(sel) => sel,
        Err(e) => {
            return Err(QueryError::Parse(e));
        },
    };
    let p = plan(sel);
    match executor.execute(p) {
        Ok(recs) => Ok(recs),
        Err(e) => Err(QueryError::Exec(e)),
    }
}

} // verus!

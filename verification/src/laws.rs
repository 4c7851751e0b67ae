//! The pipeline's governing laws, stated once over the specifications and
//! proved for all inputs: the grammar accepts exactly its own sentences, a
//! parsed sentence lowers to the expected plan, and projection preserves row
//! count and cell values.

use vstd::prelude::*;

use crate::executor::{first_idx, spec_project};
use crate::lexer::TokenModel;
use crate::parser::{
    spec_parse, spec_parse_from, spec_parse_items, spec_parse_list, ParseError, SelectListModel,
    SelectModel,
};
use crate::planner::{spec_plan, PlanModel};
use crate::records::RecordsModel;

verus! {

/// The token spelling of a comma-separated identifier list.
pub open spec fn items_tokens(items: Seq<Seq<char>>) -> Seq<TokenModel>
    decreases items.len(),
{
    if items.len() == 0 {
        Seq::empty()
    } else if items.len() == 1 {
        seq![TokenModel::Identifier(items[0])]
    } else {
        seq![TokenModel::Identifier(items[0]), TokenModel::Comma] + items_tokens(
            items.drop_first(),
        )
    }
}

/// The token spelling of a whole statement:
/// `SELECT {* | col[, col...]} FROM table`.
pub open spec fn select_tokens(q: SelectModel) -> Seq<TokenModel> {
    seq![TokenModel::Select] + (match q.select_list {
        SelectListModel::All => seq![TokenModel::Asterisk],
        SelectListModel::Subset(items) => items_tokens(items),
    }) + seq![TokenModel::From, TokenModel::Identifier(q.table)]
}

/// A statement the grammar can spell at all: a subset names at least one
/// column.
pub open spec fn wf_select(q: SelectModel) -> bool {
    q.select_list matches SelectListModel::Subset(items) ==> items.len() >= 1
}

proof fn lemma_items_tokens_len(items: Seq<Seq<char>>)
    ensures
        items.len() >= 1 ==> items_tokens(items).len() == 2 * items.len() - 1,
        items.len() == 0 ==> items_tokens(items).len() == 0,
    decreases items.len(),
{
    if items.len() > 1 {
        lemma_items_tokens_len(items.drop_first());
    }
}

proof fn lemma_parse_items_on(ts: Seq<TokenModel>, i: int, items: Seq<Seq<char>>, tail: Seq<
    TokenModel,
>)
    requires
        items.len() >= 1,
        0 <= i <= ts.len(),
        ts.subrange(i, ts.len() as int) == items_tokens(items) + seq![TokenModel::From] + tail,
    ensures
        spec_parse_items(ts, i) == Ok::<(Seq<Seq<char>>, int), ParseError>(
            (items, i + items_tokens(items).len()),
        ),
    decreases items.len(),
{
    lemma_items_tokens_len(items);
    let sub = ts.subrange(i, ts.len() as int);
    assert(sub.len() == ts.len() - i);
    assert(ts[i] == sub[0]);
    if items.len() == 1 {
        assert(ts[i] == TokenModel::Identifier(items[0]));
        assert(ts[i + 1] == sub[1]);
        assert(sub[1] == TokenModel::From);
        assert(spec_parse_items(ts, i) == Ok::<(Seq<Seq<char>>, int), ParseError>(
            (seq![items[0]], i + 1),
        ));
        assert(seq![items[0]] =~= items);
    } else {
        let rest = items.drop_first();
        assert(ts[i] == TokenModel::Identifier(items[0]));
        assert(ts[i + 1] == sub[1]);
        assert(sub[1] == TokenModel::Comma);
        assert(ts.subrange(i + 2, ts.len() as int) =~= items_tokens(rest) + seq![TokenModel::From]
            + tail) by {
            let sub2 = ts.subrange(i + 2, ts.len() as int);
            assert forall|k: int| 0 <= k < sub2.len() implies sub2[k] == (items_tokens(rest)
                + seq![TokenModel::From] + tail)[k] by {
                assert(sub2[k] == ts[i + 2 + k]);
                assert(ts[i + 2 + k] == sub[2 + k]);
                assert(sub[2 + k] == (items_tokens(items) + seq![TokenModel::From] + tail)[2 + k]);
            }
        }
        lemma_parse_items_on(ts, i + 2, rest, tail);
        assert(seq![items[0]] + rest =~= items);
        lemma_items_tokens_len(rest);
    }
}

/// Parsing is total over the grammar: every sentence the grammar can spell
/// parses successfully, to exactly the statement it spells, whatever tokens
/// follow it.
pub proof fn lemma_parse_total_on_grammar(q: SelectModel, tail: Seq<TokenModel>)
    requires
        wf_select(q),
    ensures
        spec_parse(select_tokens(q) + tail) == Ok::<SelectModel, ParseError>(q),
{
    let ts = select_tokens(q) + tail;
    match q.select_list {
        SelectListModel::All => {
            assert(ts =~= seq![
                TokenModel::Select,
                TokenModel::Asterisk,
                TokenModel::From,
                TokenModel::Identifier(q.table),
            ] + tail);
            assert(spec_parse_list(ts) == Ok::<(SelectListModel, int), ParseError>(
                (SelectListModel::All, 2),
            ));
            assert(spec_parse_from(ts, 2) == Ok::<(Seq<char>, int), ParseError>((q.table, 4)));
            assert(spec_parse(ts)->Ok_0 =~= q);
        },
        SelectListModel::Subset(items) => {
            lemma_items_tokens_len(items);
            let itoks = items_tokens(items);
            assert(ts.subrange(1, ts.len() as int) =~= itoks + seq![TokenModel::From] + (seq![
                TokenModel::Identifier(q.table),
            ] + tail)) by {
                let sub = ts.subrange(1, ts.len() as int);
                assert forall|k: int| 0 <= k < sub.len() implies sub[k] == (itoks + seq![
                    TokenModel::From,
                ] + (seq![TokenModel::Identifier(q.table)] + tail))[k] by {
                    assert(sub[k] == ts[1 + k]);
                }
            }
            lemma_parse_items_on(ts, 1, items, seq![TokenModel::Identifier(q.table)] + tail);
            let next: int = 1 + itoks.len() as int;
            assert(ts[0] == TokenModel::Select);
            assert(ts[1] == TokenModel::Identifier(items[0]));
            assert(spec_parse_list(ts) == Ok::<(SelectListModel, int), ParseError>(
                (SelectListModel::Subset(items), next),
            ));
            assert(ts[next] == TokenModel::From);
            assert(ts[next + 1] == TokenModel::Identifier(q.table));
            assert(spec_parse_from(ts, next) == Ok::<(Seq<char>, int), ParseError>(
                (q.table, next + 2),
            ));
            assert(spec_parse(ts)->Ok_0 =~= q);
        },
    }
}

proof fn lemma_parse_items_shape(ts: Seq<TokenModel>, i: int)
    requires
        0 <= i,
        spec_parse_items(ts, i) is Ok,
    ensures
        ({
            let (items, next) = spec_parse_items(ts, i)->Ok_0;
            &&& items.len() >= 1
            &&& i < next < ts.len()
            &&& ts.subrange(i, next) == items_tokens(items)
            &&& ts[next] is From
        }),
    decreases ts.len() - i,
{
    let (items, next) = spec_parse_items(ts, i)->Ok_0;
    assert(i < ts.len());
    assert(ts[i] is Identifier);
    let name = ts[i]->Identifier_0;
    if i + 1 < ts.len() && ts[i + 1] is Comma {
        lemma_parse_items_shape(ts, i + 2);
        let (items2, next2) = spec_parse_items(ts, i + 2)->Ok_0;
        assert(items == seq![name] + items2);
        assert(items.drop_first() =~= items2);
        assert(items[0] == name);
        assert(ts.subrange(i, next) =~= seq![
            TokenModel::Identifier(name),
            TokenModel::Comma,
        ] + items_tokens(items2)) by {
            assert(ts.subrange(i + 2, next2) == items_tokens(items2));
            assert forall|k: int| 0 <= k < next - i implies ts.subrange(i, next)[k] == (seq![
                TokenModel::Identifier(name),
                TokenModel::Comma,
            ] + items_tokens(items2))[k] by {
                assert(ts.subrange(i, next)[k] == ts[i + k]);
                if k >= 2 {
                    assert(ts[i + k] == ts.subrange(i + 2, next2)[k - 2]);
                }
            }
        }
    } else {
        assert(i + 1 < ts.len() && ts[i + 1] is From);
        assert(items == seq![name]);
        assert(ts.subrange(i, i + 1) =~= seq![TokenModel::Identifier(name)]);
    }
}

/// The parser accepts nothing outside the grammar: whenever a token sequence
/// parses successfully, it is a sentence the grammar can spell — the spelling
/// of the returned statement — followed by tokens the parser ignores.
pub proof fn lemma_parse_only_grammar(ts: Seq<TokenModel>)
    requires
        spec_parse(ts) is Ok,
    ensures
        ({
            let q = spec_parse(ts)->Ok_0;
            &&& wf_select(q)
            &&& exists|tail: Seq<TokenModel>| ts == #[trigger] (select_tokens(q) + tail)
        }),
{
    let q = spec_parse(ts)->Ok_0;
    assert(ts[0] is Select);
    let (list, next) = spec_parse_list(ts)->Ok_0;
    let (table, end) = spec_parse_from(ts, next)->Ok_0;
    assert(q == SelectModel { select_list: list, table });
    if ts[1] is Asterisk {
        assert(list == SelectListModel::All && next == 2);
        assert(ts[2] is From && ts[3] is Identifier);
        let tail = ts.subrange(4, ts.len() as int);
        assert(ts =~= select_tokens(q) + tail);
    } else {
        assert(ts[1] is Identifier);
        lemma_parse_items_shape(ts, 1);
        let (items, nx) = spec_parse_items(ts, 1)->Ok_0;
        assert(list == SelectListModel::Subset(items) && next == nx);
        assert(ts[next] is From && ts[next + 1] is Identifier);
        let tail = ts.subrange(next + 2, ts.len() as int);
        assert(ts =~= select_tokens(q) + tail) by {
            assert(ts.subrange(1, next) == items_tokens(items));
            assert forall|k: int| 0 <= k < ts.len() implies ts[k] == (select_tokens(q) + tail)[k]
                by {
                if 1 <= k < next {
                    assert(ts[k] == ts.subrange(1, next)[k - 1]);
                }
                if k >= next + 2 {
                    assert((select_tokens(q) + tail)[k] == tail[k - next - 2]);
                }
            }
        }
    }
}

/// Round trip: a `SELECT * FROM t` sentence plans to a bare scan of `t`; a
/// `SELECT a, b, ... FROM t` sentence plans to a projection of exactly those
/// columns, in order, over a scan of `t`.
pub proof fn lemma_plan_roundtrip(q: SelectModel, tail: Seq<TokenModel>)
    requires
        wf_select(q),
    ensures
        q.select_list is All ==> spec_plan(spec_parse(select_tokens(q) + tail)->Ok_0)
            == (PlanModel::Scan { from: q.table }),
        q.select_list matches SelectListModel::Subset(items) ==> spec_plan(
            spec_parse(select_tokens(q) + tail)->Ok_0,
        ) == (PlanModel::Project {
            fields: items,
            input: Box::new(PlanModel::Scan { from: q.table }),
        }),
{
    lemma_parse_total_on_grammar(q, tail);
}

/// The first occurrence of a present field really is an occurrence: the
/// column a projection copies carries exactly the requested name.
pub proof fn lemma_first_idx_finds(names: Seq<Seq<char>>, f: Seq<char>)
    requires
        names.contains(f),
    ensures
        0 <= first_idx(names, f) < names.len(),
        names[first_idx(names, f)] == f,
    decreases names.len(),
{
    if names.len() > 0 && names[0] != f {
        assert(names.drop_first().contains(f)) by {
            let w = choose|w: int| 0 <= w < names.len() && names[w] == f;
            assert(names.drop_first()[w - 1] == f);
        }
        lemma_first_idx_finds(names.drop_first(), f);
    }
}

/// Projection preserves the row count, takes the requested names (in
/// requested order) as the output field names, and fills every cell with the
/// input row's value at the first column carrying the requested name —
/// reordering and narrowing columns without altering any cell value.
pub proof fn lemma_project_preserves_rows(fields: Seq<Seq<char>>, recs: RecordsModel)
    ensures
        spec_project(fields, recs).field_names == fields,
        spec_project(fields, recs).data.len() == recs.data.len(),
        forall|i: int, j: int|
            0 <= i < recs.data.len() && 0 <= j < fields.len()
                ==> #[trigger] spec_project(fields, recs).data[i][j] == recs.data[i][first_idx(
                recs.field_names,
                fields[j],
            )],
{
    assert forall|i: int, j: int|
        0 <= i < recs.data.len() && 0 <= j < fields.len()
            implies #[trigger] spec_project(fields, recs).data[i][j] == recs.data[i][first_idx(
            recs.field_names,
            fields[j],
        )] by {
        assert(spec_project(fields, recs).data[i] == crate::executor::project_row(
            fields,
            recs.field_names,
            recs.data[i],
        ));
    }
}

} // verus!

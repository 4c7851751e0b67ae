//! Logical planning: lowers the abstract syntax tree into a tree of plan
//! operators. `SELECT *` lowers to a bare scan; a column subset wraps the scan
//! in a projection node. The transform is total over every valid tree.

use vstd::prelude::*;

use crate::parser::{Select, SelectList, SelectListModel, SelectModel};
use crate::text::names_model;

verus! {

/// A logical plan operator. `Scan` references a table by name; `Project`
/// narrows and reorders the columns of its single input.
#[derive(Debug, PartialEq, Eq)]
pub enum PlanNode {
    Scan { from: String },
    Project { fields: Vec<String>, input: Box<PlanNode> },
}

/// Mathematical value of a plan tree.
#[verifier::ext_equal]
pub enum PlanModel {
    Scan { from: Seq<char> },
    Project { fields: Seq<Seq<char>>, input: Box<PlanModel> },
}

/// The plan tree a `PlanNode` stands for.
pub open spec fn plan_model(n: PlanNode) -> PlanModel
    decreases n,
{
    match n {
        PlanNode::Scan { from } => PlanModel::Scan { from: from@ },
        PlanNode::Project { fields, input } => PlanModel::Project {
            fields: names_model(fields@),
            input: Box::new(plan_model(*input)),
        },
    }
}

impl View for PlanNode {
    type V = PlanModel;

    open spec fn view(&self) -> PlanModel {
        plan_model(*self)
    }
}

/// The lowering rule: every column (`All`) becomes a bare scan of the table;
/// a subset becomes a projection of the requested names, in their original
/// order, over that scan.
pub open spec fn spec_plan(q: SelectModel) -> PlanModel {
    match q.select_list {
        SelectListModel::All => PlanModel::Scan { from: q.table },
        SelectListModel::Subset(names) => PlanModel::Project {
            fields: names,
            input: Box::new(PlanModel::Scan { from: q.table }),
        },
    }
}

/// Lowers a parsed statement into its logical plan; returns exactly what the
/// lowering rule (`spec_plan`) says.
pub fn plan(query: Select) -> (r: PlanNode)
    ensures
        r@ == spec_plan(query@),
{
    match query.select_list {
        SelectList::All => PlanNode::Scan { from: query.from.table },
        SelectList::Subset(items) => {
            let mut fields: Vec<String> = Vec::new();
            let mut k: usize = 0;
            while k < items.len()
                invariant
                    k <= items@.len(),
                    names_model(fields@) =~= crate::parser::items_model(items@).take(k as int),
                decreases items@.len() - k,
            {
                let ghost fields0 = fields@;
                fields.push(items[k].name.clone());
                proof {
                    crate::text::lemma_names_model_push(fields0, fields@.last());
                    assert(names_model(fields@) =~= crate::parser::items_model(items@).take(
                        k + 1,
                    ));
                }
                k += 1;
            }
            proof {
                assert(crate::parser::items_model(items@).take(items@.len() as int)
                    =~= crate::parser::items_model(items@));
            }
            let scan = PlanNode::Scan { from: query.from.table };
            let ghost scanm = plan_model(scan);
            let r = PlanNode::Project { fields, input: Box::new(scan) };
            proof {
                assert(plan_model(r) == PlanModel::Project {
                    fields: names_model(r->Project_fields@),
                    input: Box::new(scanm),
                });
                assert(r@ =~~= spec_plan(query@));
            }
            r
        },
    }
}

} // verus!

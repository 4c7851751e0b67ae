use minisql::parser::parse;
use minisql::planner::{plan, PlanNode};

#[test]
fn parse_select() {
    let sql_input = "SELECT * FROM fishes";
    let plan = plan(parse(sql_input).unwrap());
    assert_eq!(
        plan,
        PlanNode::Scan {
            from: String::from("fishes")
        }
    )
}

#[test]
fn plan_star_roundtrip() {
    let p = plan(parse("SELECT * FROM t").unwrap());
    assert_eq!(
        p,
        PlanNode::Scan {
            from: String::from("t")
        }
    );
}

#[test]
fn plan_subset_roundtrip() {
    let p = plan(parse("SELECT a, b FROM t").unwrap());
    assert_eq!(
        p,
        PlanNode::Project {
            fields: vec![String::from("a"), String::from("b")],
            input: Box::new(PlanNode::Scan {
                from: String::from("t")
            }),
        }
    );
}

#[test]
fn plan_keeps_requested_order() {
    let p = plan(parse("SELECT City, Name FROM people").unwrap());
    assert_eq!(
        p,
        PlanNode::Project {
            fields: vec![String::from("City"), String::from("Name")],
            input: Box::new(PlanNode::Scan {
                from: String::from("people")
            }),
        }
    );
}

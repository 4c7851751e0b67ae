use minisql::executor::{project, run_query, ExecError, Executor, QueryError};
use minisql::planner::PlanNode;
use minisql::records::{records_from_text, Records, Source, SourceError, TextSource};

fn s(v: &str) -> String {
    String::from(v)
}

fn sample_records() -> Records {
    Records {
        field_names: vec![s("Name"), s("Age"), s("City")],
        data: vec![vec![s("Rex"), s("3"), s("NYC")]],
    }
}

#[test]
fn project_reorders_and_narrows() {
    let out = project(&vec![s("City"), s("Name")], sample_records()).unwrap();
    assert_eq!(out.field_names, vec![s("City"), s("Name")]);
    assert_eq!(out.data, vec![vec![s("NYC"), s("Rex")]]);
}

#[test]
fn project_preserves_row_count() {
    let input = Records {
        field_names: vec![s("a"), s("b")],
        data: vec![
            vec![s("1"), s("2")],
            vec![s("3"), s("4")],
            vec![s("5"), s("6")],
        ],
    };
    let out = project(&vec![s("b")], input).unwrap();
    assert_eq!(out.data.len(), 3);
    assert_eq!(out.data, vec![vec![s("2")], vec![s("4")], vec![s("6")]]);
}

#[test]
fn project_duplicate_fields_each_resolve() {
    let out = project(&vec![s("Name"), s("Name")], sample_records()).unwrap();
    assert_eq!(out.field_names, vec![s("Name"), s("Name")]);
    assert_eq!(out.data, vec![vec![s("Rex"), s("Rex")]]);
}

#[test]
fn project_unknown_column_fails() {
    let r = project(&vec![s("City"), s("Breed")], sample_records());
    assert_eq!(r, Err(ExecError::UnknownColumn(s("Breed"))));
}

#[test]
fn execute_unknown_table_fails() {
    let executor: Executor<TextSource> = Executor { schemas: vec![] };
    let r = executor.execute(PlanNode::Scan { from: s("missing") });
    assert_eq!(r, Err(ExecError::SchemaNotFound(s("missing"))));
}

#[test]
fn execute_scan_returns_source_records() {
    let executor = Executor {
        schemas: vec![(
            s("fish"),
            TextSource {
                text: s("Name,Age\nRex,3"),
                separator: ',',
            },
        )],
    };
    let recs = executor.execute(PlanNode::Scan { from: s("fish") }).unwrap();
    assert_eq!(recs.field_names, vec![s("Name"), s("Age")]);
    assert_eq!(recs.data, vec![vec![s("Rex"), s("3")]]);
}

#[test]
fn end_to_end_projection() {
    let executor = Executor {
        schemas: vec![(
            s("fish"),
            TextSource {
                text: s("Name,Age\nRex,3"),
                separator: ',',
            },
        )],
    };
    let recs = run_query("SELECT Name FROM fish", &executor).unwrap();
    assert_eq!(recs.field_names, vec![s("Name")]);
    assert_eq!(recs.data, vec![vec![s("Rex")]]);
}

#[test]
fn end_to_end_select_star() {
    let executor = Executor {
        schemas: vec![(
            s("fish"),
            TextSource {
                text: s("Name,Age\nRex,3\nMolly,1"),
                separator: ',',
            },
        )],
    };
    let recs = run_query("SELECT * FROM fish", &executor).unwrap();
    assert_eq!(recs.field_names, vec![s("Name"), s("Age")]);
    assert_eq!(
        recs.data,
        vec![vec![s("Rex"), s("3")], vec![s("Molly"), s("1")]]
    );
}

#[test]
fn end_to_end_table_names_are_case_sensitive() {
    let executor = Executor {
        schemas: vec![(
            s("fish"),
            TextSource {
                text: s("Name\nRex"),
                separator: ',',
            },
        )],
    };
    let r = run_query("SELECT * FROM Fish", &executor);
    assert_eq!(
        r,
        Err(QueryError::Exec(ExecError::SchemaNotFound(s("Fish"))))
    );
}

#[test]
fn end_to_end_unknown_column() {
    let executor = Executor {
        schemas: vec![(
            s("fish"),
            TextSource {
                text: s("Name,Age\nRex,3"),
                separator: ',',
            },
        )],
    };
    let r = run_query("SELECT Breed FROM fish", &executor);
    assert_eq!(
        r,
        Err(QueryError::Exec(ExecError::UnknownColumn(s("Breed"))))
    );
}

#[test]
fn records_from_text_splits_header_and_rows() {
    let recs = records_from_text("Name,Age\nRex,3\nMolly,1\n", ',').unwrap();
    assert_eq!(recs.field_names, vec![s("Name"), s("Age")]);
    assert_eq!(
        recs.data,
        vec![vec![s("Rex"), s("3")], vec![s("Molly"), s("1")]]
    );
}

#[test]
fn records_from_text_handles_crlf() {
    let recs = records_from_text("a,b\r\nx,y\r\n", ',').unwrap();
    assert_eq!(recs.field_names, vec![s("a"), s("b")]);
    assert_eq!(recs.data, vec![vec![s("x"), s("y")]]);
}

#[test]
fn records_from_text_keeps_bare_trailing_cr() {
    let recs = records_from_text("a,b\nx,y\r", ',').unwrap();
    assert_eq!(recs.field_names, vec![s("a"), s("b")]);
    assert_eq!(recs.data, vec![vec![s("x"), s("y\r")]]);
}

#[test]
fn records_from_text_empty_has_no_header() {
    assert_eq!(records_from_text("", ','), Err(SourceError::NoHeaderRow));
}

#[test]
fn records_from_text_ragged_row_fails() {
    assert_eq!(
        records_from_text("a,b\nx\n", ','),
        Err(SourceError::RaggedRow { row: 0 })
    );
    assert_eq!(
        records_from_text("a,b\nx,y\nz\n", ','),
        Err(SourceError::RaggedRow { row: 1 })
    );
}

#[test]
fn text_source_produces_records() {
    let source = TextSource {
        text: s("Name;Age\nRex;3"),
        separator: ';',
    };
    let recs = source.records().unwrap();
    assert_eq!(recs.field_names, vec![s("Name"), s("Age")]);
    assert_eq!(recs.data, vec![vec![s("Rex"), s("3")]]);
}

#[test]
fn end_to_end_failing_source_is_reported() {
    let executor = Executor {
        schemas: vec![(
            s("fish"),
            TextSource {
                text: s("Name,Age\nRex"),
                separator: ',',
            },
        )],
    };
    let r = run_query("SELECT * FROM fish", &executor);
    assert_eq!(
        r,
        Err(QueryError::Exec(ExecError::Source(SourceError::RaggedRow {
            row: 0
        })))
    );
}

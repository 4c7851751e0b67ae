use minisql::parser::{parse, FromClause, ParseError, Select, SelectList, SelectListItem};

#[test]
fn parse_select_star() {
    let sql = "SELECT * FROM fish";
    let query = parse(sql).unwrap();
    assert_eq!(
        query,
        Select {
            select_list: SelectList::All,
            from: FromClause {
                table: String::from("fish")
            },
        }
    )
}

#[test]
fn parse_select_projection() {
    let sql = "SELECT Name FROM fish";
    let query = parse(sql).unwrap();
    assert_eq!(
        query,
        Select {
            select_list: SelectList::Subset(vec![SelectListItem {
                name: String::from("Name")
            }]),
            from: FromClause {
                table: String::from("fish")
            },
        }
    )
}

#[test]
fn parse_select_projections() {
    let sql = r##"SELECT Name, "Unique Entry ID", "#" FROM fish"##;
    let query = parse(sql).unwrap();
    assert_eq!(
        query,
        Select {
            select_list: SelectList::Subset(vec![
                SelectListItem {
                    name: String::from("Name"),
                },
                SelectListItem {
                    name: String::from("Unique Entry ID")
                },
                SelectListItem {
                    name: String::from("#")
                }
            ]),
            from: FromClause {
                table: String::from("fish")
            },
        }
    )
}

#[test]
fn parse_empty_select_list_fails() {
    let r = parse("SELECT FROM fish");
    assert_eq!(r, Err(ParseError::ExpectedSelectList));
}

#[test]
fn parse_must_start_with_select() {
    assert_eq!(parse("FROM fish"), Err(ParseError::ExpectedSelect));
    assert_eq!(parse(""), Err(ParseError::ExpectedSelect));
}

#[test]
fn parse_star_needs_from() {
    assert_eq!(parse("SELECT * fish"), Err(ParseError::StarWithoutFrom));
    assert_eq!(parse("SELECT *"), Err(ParseError::StarWithoutFrom));
}

#[test]
fn parse_trailing_comma_fails() {
    assert_eq!(parse("SELECT a, FROM t"), Err(ParseError::ExpectedIdentifier));
}

#[test]
fn parse_list_needs_comma_or_from() {
    assert_eq!(parse("SELECT a b"), Err(ParseError::ExpectedCommaOrFrom));
    assert_eq!(parse("SELECT a"), Err(ParseError::ExpectedCommaOrFrom));
}

#[test]
fn parse_list_ending_at_comma_misses_from() {
    assert_eq!(parse("SELECT a,"), Err(ParseError::MissingFrom));
}

#[test]
fn parse_from_needs_table() {
    assert_eq!(parse("SELECT a FROM"), Err(ParseError::ExpectedTableName));
    assert_eq!(parse("SELECT a FROM *"), Err(ParseError::ExpectedTableName));
}

#[test]
fn parse_reports_lex_errors() {
    let r = parse("SELECT ? FROM t");
    assert!(matches!(r, Err(ParseError::Lex(_))));
}

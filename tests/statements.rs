use mini_sql::common::{add_all_fields, format_to_csv, get_required_fields, validate_table};
use mini_sql::delete::execute_delete_statement;
use mini_sql::error::MiniSQLError;
use mini_sql::insert::{execute_insert_statement, format_new_line};
use mini_sql::select::execute_select_statement;
use mini_sql::statement::{decode_statement, standardize_sentence, Statement};
use mini_sql::table::Table;
use mini_sql::text::{decimal_text, parse_i32};
use mini_sql::update::{execute_update_statement, update_line};

fn row(parts: &[&str]) -> Vec<String> {
    parts.iter().map(|s| s.to_string()).collect()
}

fn people() -> Table {
    Table {
        header: row(&["id", "name", "age"]),
        rows: vec![row(&["1", "Ann", "30"]), row(&["2", "Bob", "25"])],
    }
}

fn decode(sql: &str) -> Result<Statement, MiniSQLError> {
    decode_statement(standardize_sentence(sql.to_string()))
}

fn select(sql: &str, table: &Table) -> Result<Vec<Vec<String>>, MiniSQLError> {
    match decode(sql)? {
        Statement::Select(s) => execute_select_statement(&s, table),
        _ => panic!("not a SELECT"),
    }
}

fn update(sql: &str, table: &Table) -> Result<Table, MiniSQLError> {
    match decode(sql)? {
        Statement::Update(u) => execute_update_statement(&u, table),
        _ => panic!("not an UPDATE"),
    }
}

fn delete(sql: &str, table: &Table) -> Result<Table, MiniSQLError> {
    match decode(sql)? {
        Statement::Delete(d) => execute_delete_statement(&d, table),
        _ => panic!("not a DELETE"),
    }
}

fn insert(sql: &str, table: &Table) -> Result<Table, MiniSQLError> {
    match decode(sql)? {
        Statement::Insert(i) => execute_insert_statement(&i, table),
        _ => panic!("not an INSERT"),
    }
}

#[test]
fn scenario_select_with_filter() {
    assert_eq!(select("SELECT name FROM t WHERE age > 26", &people()), Ok(vec![row(&["Ann"])]));
}

#[test]
fn scenario_update_matching_row() {
    let t = update("UPDATE t SET age = 31 WHERE id = 1", &people()).unwrap();
    assert_eq!(t.header, row(&["id", "name", "age"]));
    assert_eq!(t.rows, vec![row(&["1", "Ann", "31"]), row(&["2", "Bob", "25"])]);
}

#[test]
fn scenario_delete_matching_row() {
    let t = delete("DELETE FROM t WHERE id = 2", &people()).unwrap();
    assert_eq!(t.header, row(&["id", "name", "age"]));
    assert_eq!(t.rows, vec![row(&["1", "Ann", "30"])]);
}

#[test]
fn scenario_insert_partial_row() {
    let t = insert("INSERT INTO t (id,name) VALUES (3,Cid)", &people()).unwrap();
    assert_eq!(
        t.rows,
        vec![row(&["1", "Ann", "30"]), row(&["2", "Bob", "25"]), row(&["3", "Cid", ""])]
    );
}

#[test]
fn scenario_select_or() {
    assert_eq!(
        select("SELECT * FROM t WHERE age < 10 OR name = 'Ann'", &people()),
        Ok(vec![row(&["1", "Ann", "30"])])
    );
}

#[test]
fn scenario_select_not() {
    assert_eq!(
        select("SELECT * FROM t WHERE NOT ( age > 26 )", &people()),
        Ok(vec![row(&["2", "Bob", "25"])])
    );
}

#[test]
fn projection_keeps_requested_order() {
    assert_eq!(
        select("SELECT age, name FROM t", &people()),
        Ok(vec![row(&["30", "Ann"]), row(&["25", "Bob"])])
    );
    assert_eq!(
        select("SELECT * FROM t WHERE id = 2", &people()),
        Ok(vec![row(&["2", "Bob", "25"])])
    );
}

#[test]
fn select_missing_column_is_invalid_column() {
    assert!(matches!(
        select("SELECT nope FROM t", &people()),
        Err(MiniSQLError::InvalidColumn(_))
    ));
}

fn orders() -> Table {
    Table {
        header: row(&["id", "kind", "qty"]),
        rows: vec![
            row(&["1", "b", "5"]),
            row(&["2", "a", "10"]),
            row(&["3", "b", "7"]),
            row(&["4", "a", "9"]),
            row(&["5", "c", "10"]),
        ],
    }
}

#[test]
fn order_by_is_stable_ascending() {
    assert_eq!(
        select("SELECT id FROM t ORDER BY kind", &orders()),
        Ok(vec![row(&["2"]), row(&["4"]), row(&["1"]), row(&["3"]), row(&["5"])])
    );
}

#[test]
fn order_by_is_stable_descending() {
    assert_eq!(
        select("SELECT id FROM t ORDER BY kind DESC", &orders()),
        Ok(vec![row(&["5"]), row(&["1"]), row(&["3"]), row(&["2"]), row(&["4"])])
    );
}

#[test]
fn order_by_numeric_column_sorts_numerically() {
    assert_eq!(
        select("SELECT id FROM t ORDER BY qty ASC", &orders()),
        Ok(vec![row(&["1"]), row(&["3"]), row(&["4"]), row(&["2"]), row(&["5"])])
    );
    assert_eq!(
        select("SELECT qty FROM t WHERE kind = a ORDER BY qty DESC", &orders()),
        Ok(vec![row(&["10"]), row(&["9"])])
    );
}

#[test]
fn order_by_errors() {
    assert!(matches!(
        select("SELECT id FROM t ORDER BY kind UP", &orders()),
        Err(MiniSQLError::InvalidSyntax(_))
    ));
    assert!(matches!(
        select("SELECT id FROM t ORDER BY kind ASC x", &orders()),
        Err(MiniSQLError::InvalidTable(_))
    ));
    assert!(matches!(
        select("SELECT id FROM t ORDER BY nope", &orders()),
        Err(MiniSQLError::InvalidSyntax(_))
    ));
}

#[test]
fn update_keeps_row_count_and_header() {
    let t = update("UPDATE t SET qty = 0, kind = z WHERE kind = b", &orders()).unwrap();
    assert_eq!(t.header, orders().header);
    assert_eq!(t.rows.len(), 5);
    assert_eq!(t.rows[0], row(&["1", "z", "0"]));
    assert_eq!(t.rows[1], row(&["2", "a", "10"]));
    assert_eq!(t.rows[2], row(&["3", "z", "0"]));
}

#[test]
fn update_errors() {
    assert!(matches!(
        update("UPDATE t SET nope = 1", &orders()),
        Err(MiniSQLError::InvalidSyntax(_))
    ));
    assert_eq!(
        update("UPDATE t SET qty 1", &orders()).err(),
        Some(MiniSQLError::InvalidSyntax(
            "Invalid syntax for update, should be a asignation symbol: 1 ".to_string()
        ))
    );
    assert!(matches!(
        update("UPDATE t SET qty = 1 kind = 2", &orders()),
        Err(MiniSQLError::InvalidSyntax(_))
    ));
    assert!(matches!(
        update("UPDATE SET qty = 1", &orders()),
        Err(MiniSQLError::InvalidTable(_))
    ));
}

#[test]
fn delete_keeps_columns_and_order() {
    let t = delete("DELETE FROM t WHERE qty >= 9", &orders()).unwrap();
    assert_eq!(t.header, orders().header);
    assert_eq!(t.rows, vec![row(&["1", "b", "5"]), row(&["3", "b", "7"])]);
    let all = delete("DELETE FROM t", &orders()).unwrap();
    assert!(all.rows.is_empty());
}

#[test]
fn insert_keeps_prior_rows_and_round_trips() {
    let before = people();
    let after = insert("INSERT INTO t (name, id) VALUES ('Dee', 4), (Eve, 5)", &before).unwrap();
    assert_eq!(after.rows[..2], before.rows[..]);
    assert_eq!(
        select("SELECT * FROM t", &after),
        Ok(vec![
            row(&["1", "Ann", "30"]),
            row(&["2", "Bob", "25"]),
            row(&["4", "Dee", ""]),
            row(&["5", "Eve", ""]),
        ])
    );
}

#[test]
fn insert_errors() {
    assert_eq!(
        insert("INSERT INTO t (id, name) VALUES (1)", &people()).err(),
        Some(MiniSQLError::InvalidSyntax(
            "Invalid sentence VALUE, wrong number of arguments: 1 . 2 were required but sent 1 "
                .to_string()
        ))
    );
    assert!(matches!(
        insert("INSERT INTO t (id, nope) VALUES (1, 2)", &people()),
        Err(MiniSQLError::Generic(_))
    ));
    assert!(matches!(
        insert("INSERT INTO t VALUES (1, 2)", &people()),
        Err(MiniSQLError::InvalidSyntax(_))
    ));
    assert_eq!(
        insert("INSERT INTO (id) VALUES (1)", &people()).err(),
        Some(MiniSQLError::InvalidTable("no table was given ".to_string()))
    );
}

#[test]
fn statement_kind_and_table_errors() {
    assert!(matches!(decode("DROP TABLE t"), Err(MiniSQLError::InvalidSyntax(_))));
    assert!(matches!(decode(""), Err(MiniSQLError::InvalidTable(_))));
    assert_eq!(
        decode("SELECT * WHERE id = 5").err(),
        Some(MiniSQLError::InvalidTable("no table was given ".to_string()))
    );
    assert_eq!(
        decode("DELETE FROM a b").err(),
        Some(MiniSQLError::InvalidTable("multiple references for table: a b ".to_string()))
    );
    assert!(matches!(decode("DELETE x FROM t"), Err(MiniSQLError::InvalidSyntax(_))));
    assert!(matches!(decode("select * from t"), Ok(Statement::Select(_))));
}

#[test]
fn tokenizer_splits_statements() {
    assert_eq!(
        standardize_sentence("SELECT a,b FROM t WHERE x = 'hello world' AND (y>=2);\n".to_string()),
        row(&["SELECT", "a", ",", "b", "FROM", "t", "WHERE", "x", "=", "hello world", "AND", "(", "y>=2", ")"])
    );
    assert_eq!(standardize_sentence("  \t ".to_string()), Vec::<String>::new());
}

#[test]
fn header_and_line_helpers() {
    assert_eq!(format_to_csv("a,,b".to_string()), row(&["a", "", "b"]));
    let header = row(&["id", "name\n"]);
    let map = add_all_fields(&header);
    assert_eq!(map.get("name"), Some(1));
    assert_eq!(map.get("id"), Some(0));
    assert_eq!(map.get("age"), None);
    assert_eq!(get_required_fields(&row(&["*"]), &header), Ok(vec![0, 1]));
    assert_eq!(get_required_fields(&row(&["name", ",", "id"]), &header), Ok(vec![1, 0]));
    assert_eq!(validate_table(row(&["t"])), Ok("t".to_string()));
    assert_eq!(
        validate_table(vec![]).err().map(|e| e.describe()),
        Some("[INVALID_TABLE]: [no table was given ]".to_string())
    );
}

#[test]
fn integer_parsing_edges() {
    assert_eq!(parse_i32("+5"), Some(5));
    assert_eq!(parse_i32("-2147483648"), Some(i32::MIN));
    assert_eq!(parse_i32("2147483647"), Some(i32::MAX));
    assert_eq!(parse_i32("2147483648"), None);
    assert_eq!(parse_i32("-"), None);
    assert_eq!(parse_i32(""), None);
    assert_eq!(parse_i32("1a"), None);
}

#[test]
fn decimal_text_renders_counts() {
    assert_eq!(decimal_text(0), "0");
    assert_eq!(decimal_text(7), "7");
    assert_eq!(decimal_text(10), "10");
    assert_eq!(decimal_text(12345), "12345");
}

#[test]
fn update_line_rewrites_assigned_positions() {
    assert_eq!(
        update_line(&row(&["1", "a", "x"]), &[2, 0, 2], &row(&["p", "q", "r"])),
        Ok(row(&["q", "a", "r"]))
    );
    assert!(matches!(
        update_line(&row(&["1"]), &[0], &row(&[])),
        Err(MiniSQLError::Generic(_))
    ));
}

#[test]
fn format_new_line_fills_unnamed_columns() {
    assert_eq!(format_new_line(&row(&["v1", "v2"]), &[2, 0], 3), Ok(row(&["v2", "", "v1"])));
    assert!(matches!(
        format_new_line(&row(&["v1"]), &[0, 1], 3),
        Err(MiniSQLError::Generic(_))
    ));
}

#[test]
fn missing_table_messages_for_every_statement() {
    let no_table = Some(MiniSQLError::InvalidTable("no table was given ".to_string()));
    assert_eq!(decode("UPDATE SET email = 'x' WHERE id = 4").err(), no_table);
    assert_eq!(decode("DELETE FROM WHERE id_cliente = 107").err(), no_table);
    assert_eq!(
        decode("INSERT INTO (id, id_cliente, producto, cantidad) VALUES (111, 6, 'Laptop', 3)").err(),
        no_table
    );
    assert_eq!(
        decode("SELECT id FROM t ORDER BY a b c").err(),
        Some(MiniSQLError::InvalidTable("multiple references for table".to_string()))
    );
}

#[test]
fn missing_column_message_names_first_missing() {
    assert_eq!(
        select("SELECT name, nope, other FROM t", &people()),
        Err(MiniSQLError::InvalidColumn("requested field [ nope ] could not be found".to_string()))
    );
}

#[test]
fn set_list_needs_assignments_without_trailing_comma() {
    assert_eq!(
        update("UPDATE t SET qty = 1 , WHERE id = 1", &orders()).err(),
        Some(MiniSQLError::InvalidSyntax(
            "Invalid syntax for update, assignment list ends with a separator: , ".to_string()
        ))
    );
    assert!(matches!(
        update("UPDATE t SET WHERE id = 1", &orders()),
        Err(MiniSQLError::InvalidSyntax(_))
    ));
    assert!(matches!(update("UPDATE t WHERE id = 1", &orders()), Err(MiniSQLError::InvalidSyntax(_))));
    assert!(matches!(update("UPDATE t SET qty = 1 , kind", &orders()), Err(MiniSQLError::InvalidSyntax(_))));
    assert!(update("UPDATE t SET qty = 1 , kind = x", &orders()).is_ok());
}

#[test]
fn insert_needs_a_closed_values_group() {
    for sql in [
        "INSERT INTO t (id, name)",
        "INSERT INTO t",
        "INSERT INTO t (id) VALUES (1",
        "INSERT INTO t (id) VALUES (1),",
        "INSERT INTO t (id) VALUES",
    ] {
        assert!(matches!(insert(sql, &people()), Err(MiniSQLError::InvalidSyntax(_))), "{}", sql);
    }
    assert!(insert("INSERT INTO t (id) VALUES (1), (2)", &people()).is_ok());
}

#[test]
fn select_needs_fields_and_an_order_column() {
    for sql in ["SELECT FROM t", "SELECT , FROM t", "SELECT id FROM t ORDER BY", "SELECT id FROM t ORDER"] {
        assert!(matches!(select(sql, &people()), Err(MiniSQLError::InvalidSyntax(_))), "{}", sql);
    }
}

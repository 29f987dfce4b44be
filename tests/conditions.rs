use mini_sql::common::FieldIndexMap;
use mini_sql::conditions::{execute_binary_condition, execute_unary_condition, get_query};
use mini_sql::error::MiniSQLError;

fn field_map(pairs: &[(&str, usize)]) -> FieldIndexMap {
    let mut map = FieldIndexMap::new();
    for (name, position) in pairs {
        map.insert(name.to_string(), *position);
    }
    map
}

fn tokens(parts: &[&str]) -> Vec<String> {
    parts.iter().map(|s| s.to_string()).collect()
}

#[test]
fn test_execute_unary_condition_true() {
    let condition = vec!["true".to_string()];
    let result = execute_unary_condition(&condition, 0, 1);
    assert_eq!(result, Ok(true));
}

#[test]
fn test_execute_unary_condition_false() {
    let condition = vec!["false".to_string()];
    let result = execute_unary_condition(&condition, 0, 1);
    assert_eq!(result, Ok(false));
}

#[test]
fn test_execute_unary_condition_invalid() {
    let condition = vec!["nombre".to_string()];
    let result = execute_unary_condition(&condition, 0, 1);
    assert_eq!(
        result,
        Err(MiniSQLError::InvalidSyntax(format!(
            "program was unable to parse query on alone condition: {} ",
            &condition[0..1].join(" ")
        )))
    );
}

#[test]
fn test_execute_unary_condition_empty() {
    let condition: Vec<String> = vec![];
    let result = execute_unary_condition(&condition, 0, 0);
    assert_eq!(
        result,
        Err(MiniSQLError::InvalidSyntax(format!(
            "program found unexpected error while parsing query on condition: {} ",
            &condition[0..0].join(" ")
        )))
    );
}

#[test]
fn test_execute_binary_condition_hardcoded_equal_numbers() {
    let condition = vec!["1".to_string(), "=".to_string(), "1".to_string()];
    let indexes = FieldIndexMap::new();
    let line: Vec<String> = vec![];
    let result = execute_binary_condition(&condition, 0, 2, &line, &indexes);
    assert_eq!(result, Ok(true));
}

#[test]
fn test_execute_binary_condition_hardcoded_not_equal_numbers() {
    let condition = vec!["1".to_string(), "=".to_string(), "2".to_string()];
    let indexes = FieldIndexMap::new();
    let line: Vec<String> = vec![];
    let result = execute_binary_condition(&condition, 0, 2, &line, &indexes);
    assert_eq!(result, Ok(false));
}

#[test]
fn test_execute_binary_condition_hardcoded_equal_strings() {
    let condition = vec!["'Pepe'".to_string(), "=".to_string(), "'Pepe'".to_string()];
    let indexes = FieldIndexMap::new();
    let line: Vec<String> = vec![];
    let result = execute_binary_condition(&condition, 0, 2, &line, &indexes);
    assert_eq!(result, Ok(true));
}

#[test]
fn test_execute_binary_condition_hardcoded_not_equal_strings() {
    let condition = vec!["'Pepe'".to_string(), "=".to_string(), "'Pablo'".to_string()];
    let indexes = FieldIndexMap::new();
    let line: Vec<String> = vec![];
    let result = execute_binary_condition(&condition, 0, 2, &line, &indexes);
    assert_eq!(result, Ok(false));
}

#[test]
fn test_execute_binary_condition_equal_values() {
    let condition = vec!["Nombre".to_string(), "=".to_string(), "'Pepe'".to_string()];
    let indexes = field_map(&[("ID", 0), ("Nombre", 1), ("Edad", 2)]);
    let line: &[String] = &vec!["1002".to_string(), "Pepe".to_string(), "19".to_string()];
    let result = execute_binary_condition(&condition, 0, 2, &line, &indexes);
    assert_eq!(result, Ok(true));
}

#[test]
fn test_execute_binary_condition_equal_values_number() {
    let condition = vec!["Edad".to_string(), "=".to_string(), "19".to_string()];
    let indexes = field_map(&[("ID", 0), ("Nombre", 1), ("Edad", 2)]);
    let line: &[String] = &vec!["1002".to_string(), "Pepe".to_string(), "19".to_string()];
    let result = execute_binary_condition(&condition, 0, 2, &line, &indexes);
    assert_eq!(result, Ok(true));
}

#[test]
fn test_execute_binary_condition_row_equals_row() {
    let condition = vec![
        "Nombre".to_string(),
        "=".to_string(),
        "Apellido".to_string(),
    ];
    let indexes = field_map(&[("ID", 0), ("Nombre", 1), ("Apellido", 2), ("Edad", 3)]);
    let line: &[String] = &vec![
        "1002".to_string(),
        "Natalia".to_string(),
        "Natalia".to_string(),
        "19".to_string(),
    ];
    let result = execute_binary_condition(&condition, 0, 2, &line, &indexes);
    assert_eq!(result, Ok(true));
}

fn eval(parts: &[&str]) -> Result<bool, MiniSQLError> {
    let condition = tokens(parts);
    let indexes = field_map(&[("id", 0), ("name", 1), ("age", 2)]);
    let line = tokens(&["1", "Ann", "30"]);
    get_query(&condition, 0, condition.len(), &indexes, &line)
}

#[test]
fn empty_condition_matches_every_row() {
    let condition: Vec<String> = vec![];
    let indexes = FieldIndexMap::new();
    let line = tokens(&["x"]);
    assert_eq!(get_query(&condition, 0, 0, &indexes, &line), Ok(true));
    assert_eq!(eval(&[]), Ok(true));
}

#[test]
fn numbers_compare_numerically() {
    assert_eq!(eval(&["10", ">", "9"]), Ok(true));
    assert_eq!(eval(&["age", ">=", "30"]), Ok(true));
    assert_eq!(eval(&["age", "<", "100"]), Ok(true));
    assert_eq!(eval(&["-5", "<", "+3"]), Ok(true));
    assert_eq!(eval(&["007", "=", "7"]), Ok(true));
}

#[test]
fn strings_compare_ordinally() {
    assert_eq!(eval(&["b", ">", "abc"]), Ok(true));
    assert_eq!(eval(&["abc", "<", "abd"]), Ok(true));
    assert_eq!(eval(&["name", "<>", "'Bob'"]), Ok(true));
    assert_eq!(eval(&["ab", "<=", "a"]), Ok(false));
    // too large for i32, so both sides are text
    assert_eq!(eval(&["2147483648", "<", "abc"]), Ok(true));
    assert!(matches!(eval(&["2147483648", "<", "3"]), Err(MiniSQLError::InvalidSyntax(_))));
}

#[test]
fn mixed_comparison_is_a_type_error() {
    for op in ["=", "!=", "<", ">", "<=", ">=", "<>"] {
        assert_eq!(
            eval(&["age", op, "'x'"]),
            Err(MiniSQLError::InvalidSyntax(
                "invalid type comparison, number and string literal".to_string()
            ))
        );
    }
}

#[test]
fn unknown_operator_is_a_syntax_error() {
    assert_eq!(
        eval(&["age", "~", "3"]),
        Err(MiniSQLError::InvalidSyntax("invalid operand for comparison: ~ ".to_string()))
    );
}

#[test]
fn double_negation_is_transparent() {
    assert_eq!(eval(&["NOT", "NOT", "age", ">", "26"]), eval(&["age", ">", "26"]));
    assert_eq!(eval(&["NOT", "NOT", "false"]), Ok(false));
    assert_eq!(eval(&["NOT", "age", ">", "26"]), Ok(false));
}

#[test]
fn parentheses_are_transparent() {
    assert_eq!(eval(&["(", "age", ">", "26", ")"]), eval(&["age", ">", "26"]));
    assert_eq!(
        eval(&["(", "id", "=", "2", "OR", "age", "=", "30", ")", "AND", "name", "=", "Ann"]),
        Ok(true)
    );
    assert_eq!(eval(&["(", "(", "true", ")", ")"]), Ok(true));
}

#[test]
fn or_binds_looser_than_and() {
    // false AND true OR true == (false AND true) OR true
    assert_eq!(eval(&["id", "=", "2", "AND", "age", "=", "30", "OR", "name", "=", "Ann"]), Ok(true));
    assert_eq!(eval(&["id", "=", "2", "AND", "age", "=", "30", "OR", "false"]), Ok(false));
}

#[test]
fn malformed_conditions_are_syntax_errors() {
    assert!(matches!(eval(&["age", ")"]), Err(MiniSQLError::InvalidSyntax(_))));
    assert!(matches!(eval(&["(", "age", ">", "3"]), Err(MiniSQLError::InvalidSyntax(_))));
    assert!(matches!(eval(&["age", ">"]), Err(MiniSQLError::InvalidSyntax(_))));
    assert!(matches!(eval(&["age", "OR", "true"]), Err(MiniSQLError::InvalidSyntax(_))));
    assert!(matches!(eval(&["nope"]), Err(MiniSQLError::InvalidSyntax(_))));
    assert_eq!(
        eval(&[")", "true"]),
        Err(MiniSQLError::InvalidSyntax("invalid parenthesis combination: ) true ".to_string()))
    );
}

#[test]
fn comparison_needs_three_tokens() {
    let condition = tokens(&["a", "="]);
    let indexes = FieldIndexMap::new();
    let line: Vec<String> = vec![];
    assert!(matches!(
        execute_binary_condition(&condition, 0, 1, &line, &indexes),
        Err(MiniSQLError::InvalidSyntax(_))
    ));
}

#[test]
fn comparison_on_short_row_is_an_error() {
    let condition = tokens(&["age", "=", "3"]);
    let indexes = field_map(&[("age", 5)]);
    let line = tokens(&["1"]);
    assert!(matches!(
        execute_binary_condition(&condition, 0, 2, &line, &indexes),
        Err(MiniSQLError::InvalidSyntax(_))
    ));
}

#[test]
fn double_negation_and_parentheses_of_whole_conditions() {
    for p in [vec!["age", ">", "26"], vec!["id", "=", "2", "OR", "name", "=", "Ann"], vec!["nope"]] {
        let mut not_not = vec!["NOT", "NOT"];
        not_not.extend(p.iter());
        assert_eq!(eval(&not_not), eval(&p));
        let mut wrapped = vec!["("];
        wrapped.extend(p.iter());
        wrapped.push(")");
        assert_eq!(eval(&wrapped), eval(&p));
    }
}

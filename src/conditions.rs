//! The WHERE-condition evaluator. A condition is a range of tokens; it is
//! split at its leftmost top-level `OR`, else at its leftmost top-level `AND`,
//! else resolved as a leaf: `NOT` followed by a condition, a parenthesised
//! condition, a `true` / `false` literal, or a comparison `value OP value`.
use vstd::prelude::*;
use crate::common::FieldIndexMap;
use crate::error::{ErrorKind, MiniSQLError};
use crate::text::{compare_text, join_tokens, lex_lt, parse_i32, parse_i32_spec, unquote, unquoted, views};

verus! {

/// The parenthesis nesting depth just before position `k`, counting from `start`.
pub open spec fn depth(t: Seq<Seq<char>>, start: int, k: int) -> int
    decreases k - start,
{
    if k <= start {
        0
    } else {
        let d = depth(t, start, k - 1);
        if t[k - 1] == "("@ {
            d + 1
        } else if t[k - 1] == ")"@ {
            d - 1
        } else {
            d
        }
    }
}

/// No `)` in `[start, end)` closes more parentheses than were opened.
pub open spec fn scope_ok(t: Seq<Seq<char>>, start: int, end: int) -> bool {
    forall|k: int| start <= k < end && #[trigger] t[k] == ")"@ ==> depth(t, start, k) > 0
}

/// The first position in `[k, end)` at nesting depth zero holding the token `w`.
pub open spec fn first_connective(t: Seq<Seq<char>>, start: int, k: int, end: int, w: Seq<char>) -> Option<int>
    decreases end - k,
{
    if k >= end {
        None
    } else if t[k] == w && depth(t, start, k) == 0 {
        Some(k)
    } else {
        first_connective(t, start, k + 1, end, w)
    }
}

/// The value a comparison operand stands for: the row's value when the token
/// names a column, else the token's text without its quote marks.
pub open spec fn resolve_value(tok: Seq<char>, m: Map<Seq<char>, usize>, row: Seq<Seq<char>>) -> Option<Seq<char>> {
    if m.contains_key(tok) {
        if (m[tok] as int) < row.len() {
            Some(row[m[tok] as int])
        } else {
            None
        }
    } else {
        Some(unquoted(tok))
    }
}

/// The sign of comparing two integers.
pub open spec fn sign_int(a: int, b: int) -> int {
    if a < b {
        -1
    } else if a == b {
        0
    } else {
        1
    }
}

/// The sign of comparing two strings ordinally.
pub open spec fn sign_text(a: Seq<char>, b: Seq<char>) -> int {
    if lex_lt(a, b) {
        -1
    } else if a == b {
        0
    } else {
        1
    }
}

/// What the comparison operator `op` says of two operands whose comparison
/// has sign `sign`; nothing for an unknown operator.
pub open spec fn apply_operator(op: Seq<char>, sign: int) -> Option<bool> {
    if op == "="@ {
        Some(sign == 0)
    } else if op == "!="@ || op == "<>"@ {
        Some(sign != 0)
    } else if op == ">"@ {
        Some(sign > 0)
    } else if op == ">="@ {
        Some(sign >= 0)
    } else if op == "<"@ {
        Some(sign < 0)
    } else if op == "<="@ {
        Some(sign <= 0)
    } else {
        None
    }
}

/// Compares two resolved values: numerically when both parse as `i32`,
/// ordinally when neither does; a mix of the two is an error.
pub open spec fn compare_values(x: Seq<char>, op: Seq<char>, y: Seq<char>) -> Option<bool> {
    match (parse_i32_spec(x), parse_i32_spec(y)) {
        (Some(a), Some(b)) => apply_operator(op, sign_int(a as int, b as int)),
        (None, None) => apply_operator(op, sign_text(x, y)),
        _ => None,
    }
}

/// The outcome of the comparison `a op b` on a row.
pub open spec fn compare_tokens(
    a: Seq<char>,
    op: Seq<char>,
    b: Seq<char>,
    m: Map<Seq<char>, usize>,
    row: Seq<Seq<char>>,
) -> Option<bool> {
    match (resolve_value(a, m, row), resolve_value(b, m, row)) {
        (Some(x), Some(y)) => compare_values(x, op, y),
        _ => None,
    }
}

/// The value of the condition held by the non-empty token range
/// `[start, end)` on a row; nothing when the range is malformed.
pub open spec fn eval_condition(
    t: Seq<Seq<char>>,
    start: int,
    end: int,
    m: Map<Seq<char>, usize>,
    row: Seq<Seq<char>>,
) -> Option<bool>
    decreases end - start,
{
    if !(0 <= start < end <= t.len()) {
        None
    } else if !scope_ok(t, start, end) {
        None
    } else {
        match first_connective(t, start, start, end, "OR"@) {
            Some(p) => if start <= p < end {
                match (eval_condition(t, start, p, m, row), eval_condition(t, p + 1, end, m, row)) {
                    (Some(a), Some(b)) => Some(a || b),
                    _ => None,
                }
            } else {
                None
            },
            None => match first_connective(t, start, start, end, "AND"@) {
                Some(p) => if start <= p < end {
                    match (eval_condition(t, start, p, m, row), eval_condition(t, p + 1, end, m, row)) {
                        (Some(a), Some(b)) => Some(a && b),
                        _ => None,
                    }
                } else {
                    None
                },
                None => if t[start] == "NOT"@ {
                    match eval_condition(t, start + 1, end, m, row) {
                        Some(b) => Some(!b),
                        None => None,
                    }
                } else if t[start] == "("@ {
                    if t[end - 1] == ")"@ {
                        eval_condition(t, start + 1, end - 1, m, row)
                    } else {
                        None
                    }
                } else if end - start == 1 {
                    if t[start] == "true"@ {
                        Some(true)
                    } else if t[start] == "false"@ {
                        Some(false)
                    } else {
                        None
                    }
                } else if end - start == 3 {
                    compare_tokens(t[start], t[start + 1], t[start + 2], m, row)
                } else {
                    None
                },
            },
        }
    }
}

/// The value of a WHERE condition `[start, end)` on a row: an empty range
/// matches every row.
pub open spec fn condition_holds(
    t: Seq<Seq<char>>,
    start: int,
    end: int,
    m: Map<Seq<char>, usize>,
    row: Seq<Seq<char>>,
) -> Option<bool> {
    if start == end {
        Some(true)
    } else {
        eval_condition(t, start, end, m, row)
    }
}

/// The message of a syntax error on the token range `[start, end)`.
fn range_error(prefix: &str, condition: &[String], start: usize, end: usize) -> (r: MiniSQLError)
    requires
        start <= end <= condition@.len(),
    ensures
        r.kind() == ErrorKind::InvalidSyntax,
        r.msg() == prefix@ + crate::text::joined(views(condition@.subrange(start as int, end as int)), " "@)
            + " "@,
{
    let mut msg = String::from_str(prefix);
    let part = slice_range(condition, start, end);
    msg.append(join_tokens(part.as_slice()).as_str());
    msg.append(" ");
    MiniSQLError::InvalidSyntax(msg)
}

/// A copy of the tokens in `[start, end)`.
fn slice_range(condition: &[String], start: usize, end: usize) -> (r: Vec<String>)
    requires
        start <= end <= condition@.len(),
    ensures
        r@ == condition@.subrange(start as int, end as int),
{
    let mut r: Vec<String> = Vec::new();
    let mut i: usize = start;
    while i < end
        invariant
            start <= i <= end <= condition@.len(),
            r@ == condition@.subrange(start as int, i as int),
        decreases end - i,
    {
        r.push(condition[i].clone());
        i = i + 1;
        proof {
            assert(r@ =~= condition@.subrange(start as int, i as int));
        }
    }
    r
}

/// The nesting depth before each position of `[start, end)`, or an error
/// when a `)` has no `(` to close.
pub fn calculate_scope(condition: &[String], start: usize, end: usize) -> (r: Result<Vec<usize>, MiniSQLError>)
    requires
        start <= end <= condition@.len(),
    ensures
        r is Ok <==> scope_ok(views(condition@), start as int, end as int),
        r matches Ok(d) ==> d@.len() == end - start && forall|k: int|
            start <= k < end ==> d@[k - start] as int == depth(views(condition@), start as int, k),
        r matches Err(e) ==> e.kind() == ErrorKind::InvalidSyntax,
{
    let ghost t = views(condition@);
    proof {
        reveal_strlit("(");
        reveal_strlit(")");
    }
    let mut depths: Vec<usize> = Vec::new();
    let mut cur: usize = 0;
    let mut i: usize = start;
    while i < end
        invariant
            t == views(condition@),
            start <= i <= end <= condition@.len(),
            cur as int == depth(t, start as int, i as int),
            cur <= i - start,
            depths@.len() == i - start,
            forall|k: int| start <= k < i ==> depths@[k - start] as int == depth(t, start as int, k),
            forall|k: int| start <= k < i && #[trigger] t[k] == ")"@ ==> depth(t, start as int, k) > 0,
        decreases end - i,
    {
        depths.push(cur);
        let ghost d0 = cur;
        let tok = condition[i].as_str();
        if compare_text(tok, "(") == 0 {
            cur = cur + 1;
        } else if compare_text(tok, ")") == 0 {
            if cur == 0 {
                proof {
                    assert(t[i as int] == ")"@);
                }
                return Err(range_error("invalid parenthesis combination: ", condition, start, end));
            }
            cur = cur - 1;
        }
        proof {
            reveal_strlit("(");
            reveal_strlit(")");
            assert(t[i as int] == tok@);
            assert(d0 == depth(t, start as int, i as int));
            assert(tok@ == ")"@ ==> d0 > 0);
        }
        i = i + 1;
    }
    Ok(depths)
}

/// The first position of `[start, end)` at depth zero holding `word`.
fn find_connective(condition: &[String], depths: &Vec<usize>, start: usize, end: usize, word: &str) -> (r: Option<usize>)
    requires
        start <= end <= condition@.len(),
        depths@.len() == end - start,
        forall|k: int|
            start <= k < end ==> depths@[k - start] as int == depth(views(condition@), start as int, k),
    ensures
        r matches Some(p) ==> first_connective(views(condition@), start as int, start as int, end as int, word@) == Some(p as int),
        r is None ==> first_connective(views(condition@), start as int, start as int, end as int, word@) is None,
{
    let ghost t = views(condition@);
    let mut k: usize = start;
    while k < end
        invariant
            t == views(condition@),
            start <= k <= end <= condition@.len(),
            depths@.len() == end - start,
            forall|j: int| start <= j < end ==> depths@[j - start] as int == depth(t, start as int, j),
            first_connective(t, start as int, start as int, end as int, word@)
                == first_connective(t, start as int, k as int, end as int, word@),
        decreases end - k,
    {
        if depths[k - start] == 0 && compare_text(condition[k].as_str(), word) == 0 {
            return Some(k);
        }
        k = k + 1;
    }
    None
}

/// A single-token condition: the literal `true` or `false`.
pub fn execute_unary_condition(condition: &[String], start: usize, end: usize) -> (r: Result<bool, MiniSQLError>)
    requires
        start <= end <= condition@.len(),
    ensures
        start < condition@.len() && condition@[start as int]@ == "true"@ ==> r == Ok::<bool, MiniSQLError>(true),
        start < condition@.len() && condition@[start as int]@ == "false"@ ==> r == Ok::<bool, MiniSQLError>(false),
        r is Ok ==> start < condition@.len() && (condition@[start as int]@ == "true"@
            || condition@[start as int]@ == "false"@),
        r matches Err(e) ==> e.kind() == ErrorKind::InvalidSyntax && e.msg() == (if start < condition@.len() {
            "program was unable to parse query on alone condition: "@
        } else {
            "program found unexpected error while parsing query on condition: "@
        }) + crate::text::joined(views(condition@.subrange(start as int, end as int)), " "@) + " "@,
{
    proof {
        reveal_strlit("true");
        reveal_strlit("false");
    }
    if start < condition.len() {
        let tok = condition[start].as_str();
        if compare_text(tok, "true") == 0 {
            Ok(true)
        } else if compare_text(tok, "false") == 0 {
            Ok(false)
        } else {
            Err(range_error("program was unable to parse query on alone condition: ", condition, start, end))
        }
    } else {
        Err(range_error("program found unexpected error while parsing query on condition: ", condition, start, end))
    }
}

/// The value a comparison operand stands for on `line`: the line's value
/// under the column that the token names, else the token without quote marks.
pub fn get_cond_value(condition: &[String], index: usize, indexes: &FieldIndexMap, line: &[String]) -> (r: Result<String, MiniSQLError>)
    ensures
        index >= condition@.len() ==> r is Err,
        index < condition@.len() ==> {
            &&& (r matches Ok(v) ==> resolve_value(condition@[index as int]@, indexes@, views(line@)) == Some(v@))
            &&& (r is Err ==> resolve_value(condition@[index as int]@, indexes@, views(line@)) is None)
        },
        r matches Err(e) ==> e.kind() == ErrorKind::InvalidSyntax,
{
    if index >= condition.len() {
        return Err(MiniSQLError::InvalidSyntax(
            String::from_str("program found unexpected error while replacing value from condition"),
        ));
    }
    let tok = condition[index].as_str();
    match indexes.get(tok) {
        Some(p) => {
            if p < line.len() {
                Ok(line[p].clone())
            } else {
                Err(MiniSQLError::InvalidSyntax(
                    String::from_str("program found unexpected error while replacing value from condition"),
                ))
            }
        },
        None => Ok(unquote(tok)),
    }
}

/// What operator `op` says of operands whose comparison has sign `sign`.
fn apply_operator_exec(op: &str, sign: i8) -> (r: Option<bool>)
    ensures
        r == apply_operator(op@, sign as int),
{
    if compare_text(op, "=") == 0 {
        Some(sign == 0)
    } else if compare_text(op, "!=") == 0 || compare_text(op, "<>") == 0 {
        Some(sign != 0)
    } else if compare_text(op, ">") == 0 {
        Some(sign > 0)
    } else if compare_text(op, ">=") == 0 {
        Some(sign >= 0)
    } else if compare_text(op, "<") == 0 {
        Some(sign < 0)
    } else if compare_text(op, "<=") == 0 {
        Some(sign <= 0)
    } else {
        None
    }
}

/// The comparison `value OP value` held by the three tokens from `start`
/// (`end` is the position of the last one): numeric when both
/// resolved values parse as `i32`, ordinal when neither does, and an error
/// for a mix of the two or an unknown operator.
pub fn execute_binary_condition(
    condition: &[String],
    start: usize,
    end: usize,
    line: &[String],
    indexes: &FieldIndexMap,
) -> (r: Result<bool, MiniSQLError>)
    ensures
        start + 2 >= condition@.len() ==> r is Err,
        start + 2 < condition@.len() ==> {
            let verdict = compare_tokens(
                condition@[start as int]@,
                condition@[start + 1]@,
                condition@[start + 2]@,
                indexes@,
                views(line@),
            );
            &&& (r matches Ok(b) ==> verdict == Some(b))
            &&& (r is Err ==> verdict is None)
        },
        r matches Err(e) ==> e.kind() == ErrorKind::InvalidSyntax,
{
    if start >= condition.len() || condition.len() - start <= 2 {
        return Err(MiniSQLError::InvalidSyntax(
            String::from_str("program found unexpected error while replacing value from condition"),
        ));
    }
    let val1 = match get_cond_value(condition, start, indexes, line) {
        Ok(v) => v,
        Err(e) => return Err(e),
    };
    let val2 = match get_cond_value(condition, start + 2, indexes, line) {
        Ok(v) => v,
        Err(e) => return Err(e),
    };
    let op = condition[start + 1].as_str();
    let sign: i8 = match (parse_i32(val1.as_str()), parse_i32(val2.as_str())) {
        (Some(a), Some(b)) => if a < b {
            -1
        } else if a == b {
            0
        } else {
            1
        },
        (None, None) => {
            let c = compare_text(val1.as_str(), val2.as_str());
            if c < 0 {
                -1
            } else if c == 0 {
                0
            } else {
                1
            }
        },
        _ => {
            return Err(MiniSQLError::InvalidSyntax(
                String::from_str("invalid type comparison, number and string literal"),
            ));
        },
    };
    match apply_operator_exec(op, sign) {
        Some(b) => Ok(b),
        None => {
            let mut msg = String::from_str("invalid operand for comparison: ");
            msg.append(op);
            msg.append(" ");
            Err(MiniSQLError::InvalidSyntax(msg))
        },
    }
}

proof fn lemma_first_connective_range(t: Seq<Seq<char>>, start: int, k: int, end: int, w: Seq<char>)
    ensures
        first_connective(t, start, k, end, w) matches Some(p) ==> k <= p < end && t[p] == w && depth(t, start, p) == 0,
    decreases end - k,
{
    if k < end {
        lemma_first_connective_range(t, start, k + 1, end, w);
    }
}

/// Evaluates the non-empty condition range `[start, end)` on `line`.
fn evaluate_condition(
    condition: &[String],
    start: usize,
    end: usize,
    indexes: &FieldIndexMap,
    line: &[String],
) -> (r: Result<bool, MiniSQLError>)
    requires
        start <= end <= condition@.len(),
    ensures
        r matches Ok(b) ==> eval_condition(views(condition@), start as int, end as int, indexes@, views(line@)) == Some(b),
        r is Err ==> eval_condition(views(condition@), start as int, end as int, indexes@, views(line@)) is None,
        r matches Err(e) ==> e.kind() == ErrorKind::InvalidSyntax,
    decreases end - start,
{
    let ghost t = views(condition@);
    if start == end {
        return Err(range_error("program was unable to parse query on condition: ", condition, start, end));
    }
    let depths = match calculate_scope(condition, start, end) {
        Ok(d) => d,
        Err(e) => return Err(e),
    };
    if let Some(p) = find_connective(condition, &depths, start, end, "OR") {
        proof {
            lemma_first_connective_range(t, start as int, start as int, end as int, "OR"@);
        }
        let left = match evaluate_condition(condition, start, p, indexes, line) {
            Ok(b) => b,
            Err(e) => return Err(e),
        };
        let right = match evaluate_condition(condition, p + 1, end, indexes, line) {
            Ok(b) => b,
            Err(e) => return Err(e),
        };
        return Ok(left || right);
    }
    if let Some(p) = find_connective(condition, &depths, start, end, "AND") {
        proof {
            lemma_first_connective_range(t, start as int, start as int, end as int, "AND"@);
        }
        let left = match evaluate_condition(condition, start, p, indexes, line) {
            Ok(b) => b,
            Err(e) => return Err(e),
        };
        let right = match evaluate_condition(condition, p + 1, end, indexes, line) {
            Ok(b) => b,
            Err(e) => return Err(e),
        };
        return Ok(left && right);
    }
    proof {
        reveal_strlit("(");
        reveal_strlit(")");
    }
    let first = condition[start].as_str();
    if compare_text(first, "NOT") == 0 {
        match evaluate_condition(condition, start + 1, end, indexes, line) {
            Ok(b) => Ok(!b),
            Err(e) => Err(e),
        }
    } else if compare_text(first, "(") == 0 {
        if compare_text(condition[end - 1].as_str(), ")") == 0 {
            evaluate_condition(condition, start + 1, end - 1, indexes, line)
        } else {
            Err(range_error("missing closing parenthesis in condition: ", condition, start, end))
        }
    } else if end - start == 1 {
        execute_unary_condition(condition, start, end)
    } else if end - start == 3 {
        execute_binary_condition(condition, start, start + 2, line, indexes)
    } else {
        Err(range_error("program was unable to parse query on condition: ", condition, start, end))
    }
}

/// Evaluates the WHERE condition held by `condition[start..end]` on `line`,
/// whose columns `indexes` maps. An empty range matches every row; a
/// malformed condition is an `InvalidSyntax` error.
pub fn get_query(
    condition: &[String],
    start: usize,
    end: usize,
    indexes: &FieldIndexMap,
    line: &[String],
) -> (r: Result<bool, MiniSQLError>)
    requires
        start <= end <= condition@.len(),
    ensures
        r matches Ok(b) ==> condition_holds(views(condition@), start as int, end as int, indexes@, views(line@)) == Some(b),
        r is Err ==> condition_holds(views(condition@), start as int, end as int, indexes@, views(line@)) is None,
        r matches Err(e) ==> e.kind() == ErrorKind::InvalidSyntax,
{
    if start == end {
        return Ok(true);
    }
    evaluate_condition(condition, start, end, indexes, line)
}

/// A token that shapes a condition rather than standing for a value.
pub open spec fn is_structural(tok: Seq<char>) -> bool {
    tok == "NOT"@ || tok == "("@ || tok == ")"@ || tok == "AND"@ || tok == "OR"@
}

/// A comparison `a op b` whose tokens are all values and an operator
/// compares numerically when both operands resolve to `i32` text, ordinally
/// when neither does, and fails when exactly one does, whatever the operator.
pub proof fn lemma_comparison_typing(
    a: Seq<char>,
    op: Seq<char>,
    b: Seq<char>,
    m: Map<Seq<char>, usize>,
    row: Seq<Seq<char>>,
)
    requires
        !is_structural(a),
        !is_structural(op),
        !is_structural(b),
    ensures
        ({
            let r = eval_condition(seq![a, op, b], 0, 3, m, row);
            match (resolve_value(a, m, row), resolve_value(b, m, row)) {
                (Some(x), Some(y)) => match (parse_i32_spec(x), parse_i32_spec(y)) {
                    (Some(i), Some(j)) => r == apply_operator(op, sign_int(i as int, j as int)),
                    (None, None) => r == apply_operator(op, sign_text(x, y)),
                    _ => r is None,
                },
                _ => r is None,
            }
        }),
{
    let t = seq![a, op, b];
    assert(t[0] == a && t[1] == op && t[2] == b);
    assert(depth(t, 0, 0) == 0);
    assert(depth(t, 0, 1) == 0);
    assert(depth(t, 0, 2) == 0);
    assert(scope_ok(t, 0, 3));
    assert(first_connective(t, 0, 3, 3, "OR"@) is None);
    assert(first_connective(t, 0, 3, 3, "AND"@) is None);
    assert(first_connective(t, 0, 2, 3, "OR"@) is None);
    assert(first_connective(t, 0, 1, 3, "OR"@) is None);
    assert(first_connective(t, 0, 0, 3, "OR"@) is None);
    assert(first_connective(t, 0, 2, 3, "AND"@) is None);
    assert(first_connective(t, 0, 1, 3, "AND"@) is None);
    assert(first_connective(t, 0, 0, 3, "AND"@) is None);
}

/// An empty WHERE condition matches every row.
pub proof fn lemma_empty_condition_matches(t: Seq<Seq<char>>, k: int, m: Map<Seq<char>, usize>, row: Seq<Seq<char>>)
    ensures
        condition_holds(t, k, k, m, row) == Some(true),
        condition_holds(Seq::empty(), 0, 0, m, row) == Some(true),
{
}

/// The structural tokens are pairwise distinct.
proof fn lemma_structural_distinct()
    ensures
        "NOT"@ != "("@,
        "NOT"@ != ")"@,
        "NOT"@ != "AND"@,
        "NOT"@ != "OR"@,
        "("@ != ")"@,
        "("@ != "AND"@,
        "("@ != "OR"@,
        ")"@ != "AND"@,
        ")"@ != "OR"@,
        "AND"@ != "OR"@,
{
    reveal_strlit("NOT");
    reveal_strlit("(");
    reveal_strlit(")");
    reveal_strlit("OR");
    reveal_strlit("AND");
    assert("NOT"@[0] != "AND"@[0]);
    assert("("@[0] != ")"@[0]);
    assert("NOT"@.len() != "("@.len());
    assert("NOT"@.len() != "OR"@.len());
    assert("AND"@.len() != "OR"@.len());
    assert("("@.len() != "OR"@.len());
    assert(")"@.len() != "OR"@.len());
    assert("("@.len() != "AND"@.len());
    assert(")"@.len() != "AND"@.len());
    assert("NOT"@.len() != ")"@.len());
}

proof fn lemma_depth_split(t: Seq<Seq<char>>, a: int, j: int, k: int)
    requires
        a <= j <= k,
    ensures
        depth(t, a, k) == depth(t, a, j) + depth(t, j, k),
    decreases k - j,
{
    if k > j {
        lemma_depth_split(t, a, j, k - 1);
    }
}

/// The tokens of `[a, j)` neither open nor close a parenthesis and are not `w`.
pub open spec fn neutral_prefix(t: Seq<Seq<char>>, a: int, j: int, w: Seq<char>) -> bool {
    forall|i: int| a <= i < j ==> #[trigger] t[i] != "("@ && t[i] != ")"@ && t[i] != w
}

proof fn lemma_neutral_depth_zero(t: Seq<Seq<char>>, a: int, j: int, w: Seq<char>)
    requires
        a <= j,
        neutral_prefix(t, a, j, w),
    ensures
        depth(t, a, j) == 0,
    decreases j - a,
{
    if j > a {
        lemma_neutral_depth_zero(t, a, j - 1, w);
        assert(t[j - 1] != "("@ && t[j - 1] != ")"@);
    }
}

proof fn lemma_connective_from(t: Seq<Seq<char>>, a: int, j: int, k: int, e: int, w: Seq<char>)
    requires
        a <= j <= k,
        neutral_prefix(t, a, j, w),
    ensures
        first_connective(t, a, k, e, w) == first_connective(t, j, k, e, w),
    decreases e - k,
{
    if k < e {
        lemma_neutral_depth_zero(t, a, j, w);
        lemma_depth_split(t, a, j, k);
        lemma_connective_from(t, a, j, k + 1, e, w);
    }
}

proof fn lemma_connective_skip(t: Seq<Seq<char>>, a: int, i: int, j: int, e: int, w: Seq<char>)
    requires
        a <= i <= j <= e,
        neutral_prefix(t, a, j, w),
    ensures
        first_connective(t, a, i, e, w) == first_connective(t, a, j, e, w),
    decreases j - i,
{
    if i < j {
        assert(t[i] != w);
        lemma_connective_skip(t, a, i + 1, j, e, w);
    }
}

/// Skipping a neutral prefix `[a, j)` keeps the scope check and the first
/// top-level `w`.
proof fn lemma_neutral_prefix(t: Seq<Seq<char>>, a: int, j: int, e: int, w: Seq<char>)
    requires
        a <= j <= e,
        neutral_prefix(t, a, j, w),
    ensures
        scope_ok(t, a, e) == scope_ok(t, j, e),
        first_connective(t, a, a, e, w) == first_connective(t, j, j, e, w),
{
    lemma_neutral_depth_zero(t, a, j, w);
    assert forall|k: int| j <= k implies depth(t, a, k) == depth(t, j, k) by {
        lemma_depth_split(t, a, j, k);
    }
    assert(scope_ok(t, a, e) == scope_ok(t, j, e)) by {
        if scope_ok(t, j, e) {
            assert forall|k: int| a <= k < e && #[trigger] t[k] == ")"@ implies depth(t, a, k) > 0 by {
                if k < j {
                    assert(t[k] != ")"@);
                }
            }
        }
    }
    lemma_connective_skip(t, a, a, j, e, w);
    lemma_connective_from(t, a, j, j, e, w);
}

/// `NOT NOT P` evaluates as `P` does: both give the same value, or both fail.
pub proof fn lemma_double_negation(
    t: Seq<Seq<char>>,
    s: int,
    e: int,
    m: Map<Seq<char>, usize>,
    row: Seq<Seq<char>>,
)
    requires
        0 <= s,
        s + 2 <= e <= t.len(),
        t[s] == "NOT"@,
        t[s + 1] == "NOT"@,
    ensures
        eval_condition(t, s, e, m, row) == eval_condition(t, s + 2, e, m, row),
    decreases e - s,
{
    lemma_structural_distinct();
    assert(neutral_prefix(t, s, s + 2, "OR"@));
    assert(neutral_prefix(t, s, s + 2, "AND"@));
    assert(neutral_prefix(t, s + 1, s + 2, "OR"@));
    assert(neutral_prefix(t, s + 1, s + 2, "AND"@));
    lemma_neutral_prefix(t, s, s + 2, e, "OR"@);
    lemma_neutral_prefix(t, s, s + 2, e, "AND"@);
    lemma_neutral_prefix(t, s + 1, s + 2, e, "OR"@);
    lemma_neutral_prefix(t, s + 1, s + 2, e, "AND"@);
    lemma_first_connective_range(t, s + 2, s + 2, e, "OR"@);
    lemma_first_connective_range(t, s + 2, s + 2, e, "AND"@);
    if e == s + 2 {
        assert(eval_condition(t, s + 2, e, m, row) is None);
        assert(eval_condition(t, s + 1, e, m, row) is None);
    } else {
        match first_connective(t, s + 2, s + 2, e, "OR"@) {
            Some(p) => {
                lemma_double_negation(t, s, p, m, row);
            },
            None => match first_connective(t, s + 2, s + 2, e, "AND"@) {
                Some(p) => {
                    lemma_double_negation(t, s, p, m, row);
                },
                None => {
                    assert(eval_condition(t, s + 1, e, m, row) == match eval_condition(t, s + 2, e, m, row) {
                        Some(b) => Some(!b),
                        None => None,
                    });
                },
            },
        }
    }
}

proof fn lemma_no_connective_inside(t: Seq<Seq<char>>, s: int, k: int, e: int, w: Seq<char>)
    requires
        s < k,
        forall|i: int| s < i < e ==> depth(t, s, i) >= 1,
    ensures
        first_connective(t, s, k, e, w) is None,
    decreases e - k,
{
    if k < e {
        lemma_no_connective_inside(t, s, k + 1, e, w);
    }
}

/// A parenthesised condition `( P )`, whose opening parenthesis is closed by
/// its last token, evaluates as `P` does.
pub proof fn lemma_parentheses_transparent(
    t: Seq<Seq<char>>,
    s: int,
    e: int,
    m: Map<Seq<char>, usize>,
    row: Seq<Seq<char>>,
)
    requires
        0 <= s,
        s + 2 <= e <= t.len(),
        t[s] == "("@,
        t[e - 1] == ")"@,
        forall|k: int| s < k < e ==> depth(t, s, k) >= 1,
    ensures
        eval_condition(t, s, e, m, row) == eval_condition(t, s + 1, e - 1, m, row),
{
    lemma_structural_distinct();
    assert(scope_ok(t, s, e)) by {
        assert forall|k: int| s <= k < e && #[trigger] t[k] == ")"@ implies depth(t, s, k) > 0 by {
            if k == s {
                assert(t[s] != ")"@);
            }
        }
    }
    lemma_no_connective_inside(t, s, s + 1, e, "OR"@);
    lemma_no_connective_inside(t, s, s + 1, e, "AND"@);
    assert(t[s] != "OR"@);
    assert(t[s] != "AND"@);
    assert(first_connective(t, s, s, e, "OR"@) is None);
    assert(first_connective(t, s, s, e, "AND"@) is None);
}

/// `u` holds at `[s + d, e + d)` the tokens that `t` holds at `[s, e)`.
pub open spec fn same_window(u: Seq<Seq<char>>, t: Seq<Seq<char>>, s: int, e: int, d: int) -> bool {
    &&& 0 <= s <= e <= t.len()
    &&& 0 <= s + d
    &&& e + d <= u.len()
    &&& forall|i: int| s <= i < e ==> #[trigger] u[i + d] == t[i]
}

proof fn lemma_depth_shift(u: Seq<Seq<char>>, t: Seq<Seq<char>>, s: int, k: int, e: int, d: int)
    requires
        same_window(u, t, s, e, d),
        s <= k <= e,
    ensures
        depth(u, s + d, k + d) == depth(t, s, k),
    decreases k - s,
{
    if k > s {
        lemma_depth_shift(u, t, s, k - 1, e, d);
        assert(u[(k - 1) + d] == t[k - 1]);
    }
}

proof fn lemma_scope_shift(u: Seq<Seq<char>>, t: Seq<Seq<char>>, s: int, e: int, d: int)
    requires
        same_window(u, t, s, e, d),
    ensures
        scope_ok(u, s + d, e + d) == scope_ok(t, s, e),
{
    if scope_ok(t, s, e) {
        assert forall|k: int| s + d <= k < e + d && #[trigger] u[k] == ")"@ implies depth(u, s + d, k) > 0 by {
            assert(u[(k - d) + d] == t[k - d]);
            lemma_depth_shift(u, t, s, k - d, e, d);
        }
    }
    if scope_ok(u, s + d, e + d) {
        assert forall|k: int| s <= k < e && #[trigger] t[k] == ")"@ implies depth(t, s, k) > 0 by {
            assert(u[k + d] == t[k]);
            lemma_depth_shift(u, t, s, k, e, d);
        }
    }
}

proof fn lemma_connective_shift(u: Seq<Seq<char>>, t: Seq<Seq<char>>, s: int, k: int, e: int, d: int, w: Seq<char>)
    requires
        same_window(u, t, s, e, d),
        s <= k <= e,
    ensures
        first_connective(u, s + d, k + d, e + d, w) == match first_connective(t, s, k, e, w) {
            Some(p) => Some(p + d),
            None => None,
        },
    decreases e - k,
{
    if k < e {
        assert(u[k + d] == t[k]);
        lemma_depth_shift(u, t, s, k, e, d);
        lemma_connective_shift(u, t, s, k + 1, e, d, w);
    }
}

/// A condition evaluates the same wherever its tokens stand: only the tokens
/// of the range matter.
pub proof fn lemma_eval_shift(
    u: Seq<Seq<char>>,
    t: Seq<Seq<char>>,
    s: int,
    e: int,
    d: int,
    m: Map<Seq<char>, usize>,
    row: Seq<Seq<char>>,
)
    requires
        same_window(u, t, s, e, d),
    ensures
        eval_condition(u, s + d, e + d, m, row) == eval_condition(t, s, e, m, row),
    decreases e - s,
{
    if s < e {
        lemma_structural_distinct();
        lemma_scope_shift(u, t, s, e, d);
        lemma_connective_shift(u, t, s, s, e, d, "OR"@);
        lemma_connective_shift(u, t, s, s, e, d, "AND"@);
        lemma_first_connective_range(t, s, s, e, "OR"@);
        lemma_first_connective_range(t, s, s, e, "AND"@);
        assert(u[s + d] == t[s]);
        assert(u[(e - 1) + d] == t[e - 1]);
        match first_connective(t, s, s, e, "OR"@) {
            Some(p) => {
                lemma_eval_shift(u, t, s, p, d, m, row);
                lemma_eval_shift(u, t, p + 1, e, d, m, row);
            },
            None => match first_connective(t, s, s, e, "AND"@) {
                Some(p) => {
                    lemma_eval_shift(u, t, s, p, d, m, row);
                    lemma_eval_shift(u, t, p + 1, e, d, m, row);
                },
                None => {
                    lemma_eval_shift(u, t, s + 1, e, d, m, row);
                    if s + 1 <= e - 1 {
                        lemma_eval_shift(u, t, s + 1, e - 1, d, m, row);
                    }
                    if e - s == 3 {
                        assert(u[(s + 1) + d] == t[s + 1]);
                        assert(u[(s + 2) + d] == t[s + 2]);
                    }
                },
            },
        }
    }
}

/// `NOT NOT P` evaluates as `P` does, for any non-empty condition `P`.
pub proof fn lemma_double_negation_list(p: Seq<Seq<char>>, m: Map<Seq<char>, usize>, row: Seq<Seq<char>>)
    requires
        p.len() > 0,
    ensures
        condition_holds(seq!["NOT"@, "NOT"@] + p, 0, p.len() + 2 as int, m, row) == condition_holds(p, 0, p.len() as int, m, row),
{
    let u = seq!["NOT"@, "NOT"@] + p;
    lemma_double_negation(u, 0, p.len() + 2 as int, m, row);
    assert forall|i: int| 0 <= i < p.len() implies #[trigger] u[i + 2] == p[i] by {}
    lemma_eval_shift(u, p, 0, p.len() as int, 2, m, row);
}

/// Every prefix of `p` closes no more parentheses than it opens, and `p`
/// closes all it opens.
pub open spec fn balanced(p: Seq<Seq<char>>) -> bool {
    &&& forall|k: int| 0 <= k <= p.len() ==> #[trigger] depth(p, 0, k) >= 0
    &&& depth(p, 0, p.len() as int) == 0
}

/// `( P )` evaluates as `P` does, for any non-empty condition `P` whose
/// parentheses balance.
pub proof fn lemma_parentheses_list(p: Seq<Seq<char>>, m: Map<Seq<char>, usize>, row: Seq<Seq<char>>)
    requires
        p.len() > 0,
        balanced(p),
    ensures
        condition_holds(seq!["("@] + p + seq![")"@], 0, p.len() + 2 as int, m, row) == condition_holds(p, 0, p.len() as int, m, row),
{
    let u = seq!["("@] + p + seq![")"@];
    let e = p.len() + 2 as int;
    assert forall|i: int| 0 <= i < p.len() implies #[trigger] u[i + 1] == p[i] by {}
    assert(same_window(u, p, 0, p.len() as int, 1));
    assert(u[0] == "("@);
    assert(u[e - 1] == ")"@);
    assert(depth(u, 0, 0) == 0);
    assert(depth(u, 0, 1) == 1);
    assert forall|k: int| 0 < k < e implies depth(u, 0, k) >= 1 by {
        lemma_depth_split(u, 0, 1, k);
        lemma_depth_shift(u, p, 0, k - 1, p.len() as int, 1);
        assert(depth(p, 0, k - 1) >= 0);
    }
    lemma_parentheses_transparent(u, 0, e, m, row);
    lemma_eval_shift(u, p, 0, p.len() as int, 1, m, row);
}

} // verus!

//! UPDATE: decoding the statement's tokens, and running it over a table.
use vstd::prelude::*;
use crate::common::{
    add_all_fields, header_map, table_error_message, table_ok, validate_table, FieldIndexMap,
};
use crate::conditions::{condition_holds, get_query};
use crate::error::{ErrorKind, MiniSQLError};
use crate::table::{assigned_value, clone_row, find_assigned, pairs_of, rows_view, Table};
use crate::text::{compare_text, is_keyword, join_tokens, keyword_match, views};

verus! {

/// Which part of an UPDATE statement the tokens being read belong to.
#[derive(PartialEq, Eq, Structural, Clone, Copy, Debug)]
pub enum UpdateSegment {
    Start,
    Table,
    Assignments,
    Condition,
}

/// The token buffers of an UPDATE statement.
pub struct UpdateParts {
    pub segment: UpdateSegment,
    pub from: Seq<Seq<char>>,
    pub fields: Seq<Seq<char>>,
    pub condition: Seq<Seq<char>>,
}

/// Reading one more token of an UPDATE statement.
pub open spec fn update_step(p: UpdateParts, tok: Seq<char>) -> Option<UpdateParts> {
    if keyword_match(tok, "UPDATE"@) {
        Some(UpdateParts { segment: UpdateSegment::Table, ..p })
    } else if keyword_match(tok, "SET"@) {
        Some(UpdateParts { segment: UpdateSegment::Assignments, ..p })
    } else if keyword_match(tok, "WHERE"@) {
        Some(UpdateParts { segment: UpdateSegment::Condition, ..p })
    } else {
        match p.segment {
            UpdateSegment::Table => Some(UpdateParts { from: p.from.push(tok), ..p }),
            UpdateSegment::Assignments => Some(UpdateParts { fields: p.fields.push(tok), ..p }),
            UpdateSegment::Condition => Some(UpdateParts { condition: p.condition.push(tok), ..p }),
            _ => None,
        }
    }
}

/// The segments of an UPDATE statement's tokens, read left to right.
pub open spec fn scan_update(t: Seq<Seq<char>>) -> Option<UpdateParts>
    decreases t.len(),
{
    if t.len() == 0 {
        Some(
            UpdateParts {
                segment: UpdateSegment::Start,
                from: Seq::empty(),
                fields: Seq::empty(),
                condition: Seq::empty(),
            },
        )
    } else {
        match scan_update(t.drop_last()) {
            Some(p) => update_step(p, t.last()),
            None => None,
        }
    }
}

/// The SET tokens are one or more `col = val` groups separated by `,`.
pub open spec fn assignment_shape_ok(raw: Seq<Seq<char>>) -> bool {
    &&& raw.len() % 4 == 3
    &&& forall|k: int| 0 <= k && 4 * k + 1 < raw.len() ==> #[trigger] raw[4 * k + 1] == "="@
    &&& forall|k: int| 0 <= k && 4 * k + 3 < raw.len() ==> #[trigger] raw[4 * k + 3] == ","@
}

/// The `(column, value)` pairs of well-shaped SET tokens.
pub open spec fn assignments_of(raw: Seq<Seq<char>>) -> Seq<(Seq<char>, Seq<char>)> {
    Seq::new(((raw.len() + 1) / 4) as nat, |k: int| (raw[4 * k], raw[4 * k + 2]))
}

/// The character sequences of a list of string pairs.
pub open spec fn pair_views(v: Seq<(String, String)>) -> Seq<(Seq<char>, Seq<char>)> {
    Seq::new(v.len(), |i: int| (v[i].0@, v[i].1@))
}

/// A decoded UPDATE statement.
pub struct Update {
    pub target_table: String,
    /// The assignments `(column, value)`, in the order written.
    pub fields: Vec<(String, String)>,
    pub condition: Vec<String>,
}

proof fn lemma_scan_update_stuck(t: Seq<Seq<char>>, i: int)
    requires
        0 <= i < t.len(),
        scan_update(t.take(i + 1)) is None,
    ensures
        scan_update(t) is None,
    decreases t.len(),
{
    if i + 1 == t.len() {
        assert(t.take(i + 1) =~= t);
    } else {
        assert(t.drop_last().take(i + 1) =~= t.take(i + 1));
        lemma_scan_update_stuck(t.drop_last(), i);
    }
}

/// Splits the tokens of an UPDATE statement into its table, SET and
/// condition segments.
fn match_fields_update(sentence_parts: &Vec<String>) -> (r: Result<
    (Vec<String>, Vec<String>, Vec<String>),
    MiniSQLError,
>)
    ensures
        scan_update(views(sentence_parts@)) is None <==> r is Err,
        r matches Err(e) ==> e.kind() == ErrorKind::InvalidSyntax,
        r matches Ok((from, fields, condition)) ==> {
            let p = scan_update(views(sentence_parts@))->0;
            &&& views(from@) == p.from
            &&& views(fields@) == p.fields
            &&& views(condition@) == p.condition
        },
{
    let ghost t = views(sentence_parts@);
    let mut segment = UpdateSegment::Start;
    let mut from: Vec<String> = Vec::new();
    let mut fields: Vec<String> = Vec::new();
    let mut condition: Vec<String> = Vec::new();
    let mut i: usize = 0;
    proof {
        assert(t.take(0) =~= Seq::<Seq<char>>::empty());
    }
    while i < sentence_parts.len()
        invariant
            t == views(sentence_parts@),
            i <= t.len(),
            scan_update(t.take(i as int)) matches Some(p) && p.segment == segment && views(from@)
                == p.from && views(fields@) == p.fields && views(condition@) == p.condition,
        decreases t.len() - i,
    {
        proof {
            assert(t.take(i + 1).drop_last() =~= t.take(i as int));
        }
        let part = sentence_parts[i].as_str();
        if is_keyword(part, "UPDATE") {
            segment = UpdateSegment::Table;
        } else if is_keyword(part, "SET") {
            segment = UpdateSegment::Assignments;
        } else if is_keyword(part, "WHERE") {
            segment = UpdateSegment::Condition;
        } else {
            match segment {
                UpdateSegment::Table => {
                    proof {
                        assert(views(from@.push(sentence_parts@[i as int])) =~~= views(from@).push(part@));
                    }
                    from.push(sentence_parts[i].clone());
                },
                UpdateSegment::Assignments => {
                    proof {
                        assert(views(fields@.push(sentence_parts@[i as int])) =~~= views(fields@).push(part@));
                    }
                    fields.push(sentence_parts[i].clone());
                },
                UpdateSegment::Condition => {
                    proof {
                        assert(views(condition@.push(sentence_parts@[i as int])) =~~= views(condition@).push(part@));
                    }
                    condition.push(sentence_parts[i].clone());
                },
                _ => {
                    let mut msg = String::from_str("Invalid sentence: ");
                    msg.append(join_tokens(sentence_parts.as_slice()).as_str());
                    msg.append(" ");
                    proof {
                        lemma_scan_update_stuck(t, i as int);
                    }
                    return Err(MiniSQLError::InvalidSyntax(msg));
                },
            }
        }
        i = i + 1;
    }
    proof {
        assert(t.take(t.len() as int) =~= t);
    }
    Ok((from, fields, condition))
}

/// Groups the SET tokens into `(column, value)` pairs. Anything but one or
/// more `col = val` groups separated by `,` is an `InvalidSyntax` error
/// naming the offending token: a missing `=` or `,`, an incomplete last
/// group, a trailing `,`, or no assignment at all.
fn format_fields_to_update(raw_fields: Vec<String>) -> (r: Result<Vec<(String, String)>, MiniSQLError>)
    ensures
        r is Ok <==> assignment_shape_ok(views(raw_fields@)),
        r matches Ok(a) ==> pair_views(a@) == assignments_of(views(raw_fields@)),
        r matches Err(e) ==> e.kind() == ErrorKind::InvalidSyntax,
{
    let ghost raw = views(raw_fields@);
    let n = raw_fields.len();
    let mut pairs: Vec<(String, String)> = Vec::new();
    let mut pos: usize = 0;
    while pos < n
        invariant
            raw == views(raw_fields@),
            n == raw.len(),
            pos % 4 == 0,
            pos <= n,
            pairs@.len() == pos / 4,
            forall|k: int| 0 <= k && 4 * k + 1 < pos ==> #[trigger] raw[4 * k + 1] == "="@,
            forall|k: int| 0 <= k && 4 * k + 3 < pos ==> #[trigger] raw[4 * k + 3] == ","@,
            forall|k: int| 0 <= k < pairs@.len() ==> #[trigger] pair_views(pairs@)[k] == (raw[4 * k], raw[4 * k + 2]),
        decreases n - pos,
    {
        let ghost k = pos / 4;
        if pos + 1 >= n {
            let mut msg = String::from_str("Invalid syntax for update, assignment is missing its value: ");
            msg.append(raw_fields[pos].as_str());
            msg.append(" ");
            return Err(MiniSQLError::InvalidSyntax(msg));
        }
        if compare_text(raw_fields[pos + 1].as_str(), "=") != 0 {
            let mut msg = String::from_str("Invalid syntax for update, should be a asignation symbol: ");
            msg.append(raw_fields[pos + 1].as_str());
            msg.append(" ");
            proof {
                assert(raw[4 * k + 1] != "="@);
            }
            return Err(MiniSQLError::InvalidSyntax(msg));
        }
        if pos + 2 >= n {
            let mut msg = String::from_str("Invalid syntax for update, assignment is missing its value: ");
            msg.append(raw_fields[pos].as_str());
            msg.append(" ");
            return Err(MiniSQLError::InvalidSyntax(msg));
        }
        let ghost before = pairs@;
        pairs.push((raw_fields[pos].clone(), raw_fields[pos + 2].clone()));
        proof {
            assert forall|j: int| 0 <= j < pairs@.len() implies #[trigger] pair_views(pairs@)[j] == (raw[4 * j], raw[4 * j + 2]) by {
                if j < k {
                    assert(pairs@[j] == before[j]);
                    assert(pair_views(before)[j] == (raw[4 * j], raw[4 * j + 2]));
                }
            }
        }
        if pos + 3 >= n {
            proof {
                assert forall|j: int| 0 <= j && 4 * j + 1 < n implies #[trigger] raw[4 * j + 1] == "="@ by {
                    if j < k {
                    } else {
                        assert(j == k);
                    }
                }
                assert(pair_views(pairs@) =~= assignments_of(raw));
            }
            return Ok(pairs);
        }
        if compare_text(raw_fields[pos + 3].as_str(), ",") != 0 {
            let mut msg = String::from_str(
                "Invalid syntax for update, sentence should follow KEY = VALUE format, but has a fourth part: ",
            );
            msg.append(raw_fields[pos + 3].as_str());
            msg.append(" ");
            proof {
                assert(raw[4 * k + 3] != ","@);
            }
            return Err(MiniSQLError::InvalidSyntax(msg));
        }
        if pos + 4 >= n {
            let mut msg = String::from_str("Invalid syntax for update, assignment list ends with a separator: ");
            msg.append(raw_fields[pos + 3].as_str());
            msg.append(" ");
            return Err(MiniSQLError::InvalidSyntax(msg));
        }
        pos = pos + 4;
        proof {
            assert forall|j: int| 0 <= j && 4 * j + 1 < pos implies #[trigger] raw[4 * j + 1] == "="@ by {
                if j < k {
                } else {
                    assert(j == k);
                }
            }
            assert forall|j: int| 0 <= j && 4 * j + 3 < pos implies #[trigger] raw[4 * j + 3] == ","@ by {
                if j < k {
                } else {
                    assert(j == k);
                }
            }
        }
    }
    Err(MiniSQLError::InvalidSyntax(String::from_str("Invalid syntax for update, no assignment was given")))
}

/// What decoding the tokens `t` of an UPDATE statement gives.
pub open spec fn update_outcome(t: Seq<Seq<char>>, r: Result<Update, MiniSQLError>) -> bool {
    match scan_update(t) {
        None => r matches Err(e) && e.kind() == ErrorKind::InvalidSyntax,
        Some(p) => if !table_ok(p.from) {
            r matches Err(e) && e.kind() == ErrorKind::InvalidTable && e.msg() == table_error_message(
                p.from,
            )
        } else if !assignment_shape_ok(p.fields) {
            r matches Err(e) && e.kind() == ErrorKind::InvalidSyntax
        } else {
            r matches Ok(u) && u.target_table@ == p.from[0] && views(u.condition@) == p.condition
                && pair_views(u.fields@) == assignments_of(p.fields)
        },
    }
}

/// Decodes the tokens of an UPDATE statement. Errors: a token outside any
/// segment or a malformed SET list (`InvalidSyntax`); no table, an empty
/// table name or several (`InvalidTable`).
pub fn new_update(sentence_parts: Vec<String>) -> (r: Result<Update, MiniSQLError>)
    ensures
        update_outcome(views(sentence_parts@), r),
{
    decode_update(sentence_parts)
}

fn decode_update(sentence_parts: Vec<String>) -> (r: Result<Update, MiniSQLError>)
    ensures
        update_outcome(views(sentence_parts@), r),
{
    let (from, fields, condition) = match match_fields_update(&sentence_parts) {
        Ok(parts) => parts,
        Err(e) => return Err(e),
    };
    let target_table = match validate_table(from) {
        Ok(t) => t,
        Err(e) => return Err(e),
    };
    let formatted = match format_fields_to_update(fields) {
        Ok(f) => f,
        Err(e) => return Err(e),
    };
    Ok(Update { target_table, fields: formatted, condition })
}

/// `row` with each assigned position replaced by its value.
pub open spec fn updated_row(row: Seq<Seq<char>>, assigns: Seq<(usize, Seq<char>)>) -> Seq<Seq<char>> {
    Seq::new(
        row.len(),
        |i: int|
            match assigned_value(assigns, i) {
                Some(v) => v,
                None => row[i],
            },
    )
}

/// The rows after an UPDATE: each row on which the condition holds is
/// rewritten, the others stay; nothing when the condition fails on a row.
pub open spec fn update_rows(
    cond: Seq<Seq<char>>,
    m: Map<Seq<char>, usize>,
    rows: Seq<Seq<Seq<char>>>,
    assigns: Seq<(usize, Seq<char>)>,
) -> Option<Seq<Seq<Seq<char>>>>
    decreases rows.len(),
{
    if rows.len() == 0 {
        Some(Seq::empty())
    } else {
        match (update_rows(cond, m, rows.drop_last(), assigns), condition_holds(cond, 0, cond.len() as int, m, rows.last())) {
            (Some(f), Some(b)) => Some(f.push(if b {
                updated_row(rows.last(), assigns)
            } else {
                rows.last()
            })),
            _ => None,
        }
    }
}

/// Every assigned column is in `m`.
pub open spec fn assignments_resolve(fields: Seq<(Seq<char>, Seq<char>)>, m: Map<Seq<char>, usize>) -> bool {
    forall|k: int| 0 <= k < fields.len() ==> m.contains_key(#[trigger] fields[k].0)
}

/// The assignments with each column replaced by its position under `m`.
pub open spec fn resolved_assignments(fields: Seq<(Seq<char>, Seq<char>)>, m: Map<Seq<char>, usize>) -> Seq<(usize, Seq<char>)> {
    Seq::new(fields.len(), |k: int| (m[fields[k].0], fields[k].1))
}

/// The positions and values of the assignments, in order. A column missing
/// from `mapped_fields` is an `InvalidSyntax` error.
fn get_fields_to_update(fields: &Vec<(String, String)>, mapped_fields: &FieldIndexMap) -> (r: Result<
    (Vec<usize>, Vec<String>),
    MiniSQLError,
>)
    ensures
        r is Ok <==> assignments_resolve(pair_views(fields@), mapped_fields@),
        r matches Ok((ix, vs)) ==> ix@.len() == vs@.len() && pairs_of(ix@, views(vs@))
            == resolved_assignments(pair_views(fields@), mapped_fields@),
        r matches Err(e) ==> e.kind() == ErrorKind::InvalidSyntax,
{
    let ghost fv = pair_views(fields@);
    let ghost m = mapped_fields@;
    let mut indexes: Vec<usize> = Vec::new();
    let mut values: Vec<String> = Vec::new();
    let mut k: usize = 0;
    while k < fields.len()
        invariant
            fv == pair_views(fields@),
            m == mapped_fields@,
            k <= fields@.len(),
            indexes@.len() == k,
            values@.len() == k,
            forall|j: int| 0 <= j < k ==> m.contains_key(#[trigger] fv[j].0),
            forall|j: int| 0 <= j < k ==> #[trigger] indexes@[j] == m[fv[j].0] && values@[j]@ == fv[j].1,
        decreases fields@.len() - k,
    {
        match mapped_fields.get(fields[k].0.as_str()) {
            Some(p) => {
                indexes.push(p);
                values.push(fields[k].1.clone());
            },
            None => {
                let mut msg = String::from_str("Invalid sentence field ");
                msg.append(fields[k].0.as_str());
                msg.append(" was not found in table.");
                proof {
                    assert(!m.contains_key(fv[k as int].0));
                }
                return Err(MiniSQLError::InvalidSyntax(msg));
            },
        }
        k = k + 1;
    }
    proof {
        assert(pairs_of(indexes@, views(values@)) =~= resolved_assignments(fv, m));
    }
    Ok((indexes, values))
}

/// `line` with each position of `indexes_to_modify` replaced by the value
/// paired with it (the last one, for a position named twice). Lists of
/// different lengths are a `Generic` error.
pub fn update_line(line: &Vec<String>, indexes_to_modify: &[usize], values: &[String]) -> (r: Result<
    Vec<String>,
    MiniSQLError,
>)
    ensures
        r is Err <==> indexes_to_modify@.len() != values@.len(),
        r matches Ok(l) ==> views(l@) == updated_row(views(line@), pairs_of(indexes_to_modify@, views(values@))),
        r matches Err(e) ==> e.kind() == ErrorKind::Generic,
{
    if indexes_to_modify.len() != values.len() {
        return Err(MiniSQLError::Generic(
            String::from_str("program found unexpected error while updating a line"),
        ));
    }
    let ghost a = pairs_of(indexes_to_modify@, views(values@));
    let mut out: Vec<String> = Vec::new();
    let mut i: usize = 0;
    while i < line.len()
        invariant
            a == pairs_of(indexes_to_modify@, views(values@)),
            indexes_to_modify@.len() == values@.len(),
            i <= line@.len(),
            out@.len() == i,
            forall|j: int| 0 <= j < i ==> #[trigger] views(out@)[j] == updated_row(views(line@), a)[j],
        decreases line@.len() - i,
    {
        let v = match find_assigned(indexes_to_modify, values, i) {
            Some(k) => values[k].clone(),
            None => line[i].clone(),
        };
        let ghost before = out@;
        out.push(v);
        proof {
            assert forall|j: int| 0 <= j < i + 1 implies #[trigger] views(out@)[j] == updated_row(views(line@), a)[j] by {
                if j < i {
                    assert(out@[j] == before[j]);
                    assert(views(before)[j] == updated_row(views(line@), a)[j]);
                }
            }
        }
        i = i + 1;
    }
    proof {
        assert(views(out@) =~~= updated_row(views(line@), a));
    }
    Ok(out)
}

proof fn lemma_update_rows_stuck(
    cond: Seq<Seq<char>>,
    m: Map<Seq<char>, usize>,
    rows: Seq<Seq<Seq<char>>>,
    a: Seq<(usize, Seq<char>)>,
    i: int,
)
    requires
        0 <= i < rows.len(),
        update_rows(cond, m, rows.take(i + 1), a) is None,
    ensures
        update_rows(cond, m, rows, a) is None,
    decreases rows.len(),
{
    if i + 1 == rows.len() {
        assert(rows.take(i + 1) =~= rows);
    } else {
        assert(rows.drop_last().take(i + 1) =~= rows.take(i + 1));
        lemma_update_rows_stuck(cond, m, rows.drop_last(), a, i);
    }
}

/// Runs an UPDATE over `table`: the header and every row are kept, and on
/// each row where the condition holds the assigned columns take their new
/// values. Errors: an assignment to a column missing from the header, or a
/// condition that fails on some row (`InvalidSyntax`).
pub fn execute_update_statement(update: &Update, table: &Table) -> (r: Result<Table, MiniSQLError>)
    ensures
        ({
            let m = header_map(table.header@);
            let fv = pair_views(update.fields@);
            if !assignments_resolve(fv, m) {
                r matches Err(e) && e.kind() == ErrorKind::InvalidSyntax
            } else {
                match update_rows(views(update.condition@), m, rows_view(table.rows@), resolved_assignments(fv, m)) {
                    None => r matches Err(e) && e.kind() == ErrorKind::InvalidSyntax,
                    Some(new_rows) => r matches Ok(t) && t.header@ == table.header@ && rows_view(t.rows@)
                        == new_rows,
                }
            }
        }),
        r matches Ok(t) ==> t.header@ == table.header@ && t.rows@.len() == table.rows@.len(),
{
    let map = add_all_fields(table.header.as_slice());
    let (indexes, values) = match get_fields_to_update(&update.fields, &map) {
        Ok(iv) => iv,
        Err(e) => return Err(e),
    };
    let ghost t = views(update.condition@);
    let ghost all = rows_view(table.rows@);
    let ghost a = pairs_of(indexes@, views(values@));
    let mut rows: Vec<Vec<String>> = Vec::new();
    let mut i: usize = 0;
    proof {
        assert(all.take(0) =~= Seq::<Seq<Seq<char>>>::empty());
        assert(rows_view(rows@) =~~= Seq::<Seq<Seq<char>>>::empty());
    }
    while i < table.rows.len()
        invariant
            t == views(update.condition@),
            all == rows_view(table.rows@),
            a == pairs_of(indexes@, views(values@)),
            map@ == header_map(table.header@),
            assignments_resolve(pair_views(update.fields@), map@),
            a == resolved_assignments(pair_views(update.fields@), map@),
            indexes@.len() == values@.len(),
            i <= table.rows@.len(),
            rows@.len() == i,
            update_rows(t, map@, all.take(i as int), a) == Some(rows_view(rows@)),
        decreases table.rows@.len() - i,
    {
        proof {
            assert(all.take(i + 1).drop_last() =~= all.take(i as int));
            assert(all.take(i + 1).last() == views(table.rows@[i as int]@));
        }
        let line = &table.rows[i];
        match get_query(update.condition.as_slice(), 0, update.condition.len(), &map, line.as_slice()) {
            Ok(b) => {
                let new_line = if b {
                    match update_line(line, indexes.as_slice(), values.as_slice()) {
                        Ok(l) => l,
                        Err(e) => return Err(e),
                    }
                } else {
                    clone_row(line)
                };
                proof {
                    assert(rows_view(rows@.push(new_line)) =~~= rows_view(rows@).push(views(new_line@)));
                }
                rows.push(new_line);
            },
            Err(e) => {
                proof {
                    lemma_update_rows_stuck(t, map@, all, a, i as int);
                }
                return Err(e);
            },
        }
        i = i + 1;
    }
    proof {
        assert(all.take(table.rows@.len() as int) =~= all);
    }
    let header = clone_row(&table.header);
    Ok(Table { header, rows })
}

} // verus!

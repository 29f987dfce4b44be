//! DELETE: decoding the statement's tokens, and running it over a table.
use vstd::prelude::*;
use crate::common::{add_all_fields, header_map, table_error_message, table_ok, validate_table};
use crate::error::{ErrorKind, MiniSQLError};
use crate::table::{clone_row, filter_rows, filter_table_rows, rows_view, Table};
use crate::text::{is_keyword, join_tokens, keyword_match, views};

verus! {

/// Which part of a DELETE statement the tokens being read belong to.
#[derive(PartialEq, Eq, Structural, Clone, Copy, Debug)]
pub enum DeleteSegment {
    Start,
    From,
    Condition,
}

/// The token buffers of a DELETE statement.
pub struct DeleteParts {
    pub segment: DeleteSegment,
    pub from: Seq<Seq<char>>,
    pub condition: Seq<Seq<char>>,
}

/// Reading one more token of a DELETE statement.
pub open spec fn delete_step(p: DeleteParts, tok: Seq<char>) -> Option<DeleteParts> {
    if keyword_match(tok, "DELETE"@) {
        Some(DeleteParts { segment: DeleteSegment::Start, ..p })
    } else if keyword_match(tok, "FROM"@) {
        Some(DeleteParts { segment: DeleteSegment::From, ..p })
    } else if keyword_match(tok, "WHERE"@) {
        Some(DeleteParts { segment: DeleteSegment::Condition, ..p })
    } else {
        match p.segment {
            DeleteSegment::From => Some(DeleteParts { from: p.from.push(tok), ..p }),
            DeleteSegment::Condition => Some(DeleteParts { condition: p.condition.push(tok), ..p }),
            _ => None,
        }
    }
}

/// The segments of a DELETE statement's tokens, read left to right.
pub open spec fn scan_delete(t: Seq<Seq<char>>) -> Option<DeleteParts>
    decreases t.len(),
{
    if t.len() == 0 {
        Some(DeleteParts { segment: DeleteSegment::Start, from: Seq::empty(), condition: Seq::empty() })
    } else {
        match scan_delete(t.drop_last()) {
            Some(p) => delete_step(p, t.last()),
            None => None,
        }
    }
}

/// A decoded DELETE statement.
pub struct Delete {
    pub target_table: String,
    pub condition: Vec<String>,
}

proof fn lemma_scan_delete_stuck(t: Seq<Seq<char>>, i: int)
    requires
        0 <= i < t.len(),
        scan_delete(t.take(i + 1)) is None,
    ensures
        scan_delete(t) is None,
    decreases t.len(),
{
    if i + 1 == t.len() {
        assert(t.take(i + 1) =~= t);
    } else {
        assert(t.drop_last().take(i + 1) =~= t.take(i + 1));
        lemma_scan_delete_stuck(t.drop_last(), i);
    }
}

/// Splits the tokens of a DELETE statement into its condition and table segments.
fn match_fields_delete(sentence_parts: &Vec<String>) -> (r: Result<(Vec<String>, Vec<String>), MiniSQLError>)
    ensures
        scan_delete(views(sentence_parts@)) is None <==> r is Err,
        r matches Err(e) ==> e.kind() == ErrorKind::InvalidSyntax,
        r matches Ok((condition, from)) ==> {
            let p = scan_delete(views(sentence_parts@))->0;
            &&& views(condition@) == p.condition
            &&& views(from@) == p.from
        },
{
    let ghost t = views(sentence_parts@);
    let mut segment = DeleteSegment::Start;
    let mut condition: Vec<String> = Vec::new();
    let mut from: Vec<String> = Vec::new();
    let mut i: usize = 0;
    proof {
        assert(t.take(0) =~= Seq::<Seq<char>>::empty());
    }
    while i < sentence_parts.len()
        invariant
            t == views(sentence_parts@),
            i <= t.len(),
            scan_delete(t.take(i as int)) matches Some(p) && p.segment == segment && views(condition@)
                == p.condition && views(from@) == p.from,
        decreases t.len() - i,
    {
        proof {
            assert(t.take(i + 1).drop_last() =~= t.take(i as int));
        }
        let part = sentence_parts[i].as_str();
        if is_keyword(part, "DELETE") {
            segment = DeleteSegment::Start;
        } else if is_keyword(part, "FROM") {
            segment = DeleteSegment::From;
        } else if is_keyword(part, "WHERE") {
            segment = DeleteSegment::Condition;
        } else {
            match segment {
                DeleteSegment::Condition => {
                    proof {
                        assert(views(condition@.push(sentence_parts@[i as int])) =~~= views(condition@).push(part@));
                    }
                    condition.push(sentence_parts[i].clone());
                },
                DeleteSegment::From => {
                    proof {
                        assert(views(from@.push(sentence_parts@[i as int])) =~~= views(from@).push(part@));
                    }
                    from.push(sentence_parts[i].clone());
                },
                _ => {
                    let mut msg = String::from_str("Invalid sentence: ");
                    msg.append(join_tokens(sentence_parts.as_slice()).as_str());
                    msg.append(" ");
                    proof {
                        lemma_scan_delete_stuck(t, i as int);
                    }
                    return Err(MiniSQLError::InvalidSyntax(msg));
                },
            }
        }
        i = i + 1;
    }
    proof {
        assert(t.take(t.len() as int) =~= t);
    }
    Ok((condition, from))
}

/// What decoding the tokens `t` of a DELETE statement gives.
pub open spec fn delete_outcome(t: Seq<Seq<char>>, r: Result<Delete, MiniSQLError>) -> bool {
    match scan_delete(t) {
        None => r matches Err(e) && e.kind() == ErrorKind::InvalidSyntax,
        Some(p) => if !table_ok(p.from) {
            r matches Err(e) && e.kind() == ErrorKind::InvalidTable && e.msg() == table_error_message(
                p.from,
            )
        } else {
            r matches Ok(d) && d.target_table@ == p.from[0] && views(d.condition@) == p.condition
        },
    }
}

/// Decodes the tokens of a DELETE statement. Errors: a token outside any
/// segment (`InvalidSyntax`); no table, an empty table name or several
/// (`InvalidTable`).
pub fn new_delete(sentence_parts: Vec<String>) -> (r: Result<Delete, MiniSQLError>)
    ensures
        delete_outcome(views(sentence_parts@), r),
{
    let (condition, table) = match decode_delete(sentence_parts) {
        Ok(parts) => parts,
        Err(e) => return Err(e),
    };
    Ok(Delete { target_table: table, condition })
}

fn decode_delete(sentence_parts: Vec<String>) -> (r: Result<(Vec<String>, String), MiniSQLError>)
    ensures
        match scan_delete(views(sentence_parts@)) {
            None => r matches Err(e) && e.kind() == ErrorKind::InvalidSyntax,
            Some(p) => if !table_ok(p.from) {
                r matches Err(e) && e.kind() == ErrorKind::InvalidTable && e.msg() == table_error_message(
                    p.from,
                )
            } else {
                r matches Ok((c, t)) && t@ == p.from[0] && views(c@) == p.condition
            },
        },
{
    let (condition, from) = match match_fields_delete(&sentence_parts) {
        Ok(parts) => parts,
        Err(e) => return Err(e),
    };
    let table = match validate_table(from) {
        Ok(t) => t,
        Err(e) => return Err(e),
    };
    Ok((condition, table))
}

/// `r` is one of `rows`.
pub open spec fn is_row_of(r: Seq<Seq<char>>, rows: Seq<Seq<Seq<char>>>) -> bool {
    exists|j: int| 0 <= j < rows.len() && rows[j] == r
}

proof fn lemma_filter_keeps_input_rows(
    cond: Seq<Seq<char>>,
    m: Map<Seq<char>, usize>,
    rows: Seq<Seq<Seq<char>>>,
    keep: bool,
)
    requires
        filter_rows(cond, m, rows, keep) is Some,
    ensures
        ({
            let f = filter_rows(cond, m, rows, keep)->0;
            forall|i: int| 0 <= i < f.len() ==> is_row_of(#[trigger] f[i], rows)
        }),
    decreases rows.len(),
{
    if rows.len() > 0 {
        lemma_filter_keeps_input_rows(cond, m, rows.drop_last(), keep);
        let f0 = filter_rows(cond, m, rows.drop_last(), keep)->0;
        let f = filter_rows(cond, m, rows, keep)->0;
        assert forall|i: int| 0 <= i < f.len() implies is_row_of(#[trigger] f[i], rows) by {
            if i < f0.len() {
                assert(is_row_of(f0[i], rows.drop_last()));
                let j = choose|j: int| 0 <= j < rows.drop_last().len() && rows.drop_last()[j] == f0[i];
                assert(rows[j] == f[i]);
            } else {
                assert(rows[rows.len() - 1] == f[i]);
            }
        }
    }
}

/// Runs a DELETE over `table`: the header is kept, and so is every row on
/// which the condition does not hold, in order. A condition that fails on
/// some row is an `InvalidSyntax` error.
pub fn execute_delete_statement(delete: &Delete, table: &Table) -> (r: Result<Table, MiniSQLError>)
    ensures
        match filter_rows(views(delete.condition@), header_map(table.header@), rows_view(table.rows@), false) {
            None => r matches Err(e) && e.kind() == ErrorKind::InvalidSyntax,
            Some(kept) => r matches Ok(t) && t.header@ == table.header@ && rows_view(t.rows@) == kept,
        },
        r matches Ok(t) ==> t.header@ == table.header@ && forall|i: int|
            0 <= i < t.rows@.len() ==> is_row_of(#[trigger] rows_view(t.rows@)[i], rows_view(table.rows@)),
{
    let map = add_all_fields(table.header.as_slice());
    let rows = match filter_table_rows(&delete.condition, &map, &table.rows, false) {
        Ok(k) => k,
        Err(e) => return Err(e),
    };
    proof {
        let all = rows_view(table.rows@);
        lemma_filter_keeps_input_rows(views(delete.condition@), map@, all, false);

    }
    let header = clone_row(&table.header);
    Ok(Table { header, rows })
}

} // verus!

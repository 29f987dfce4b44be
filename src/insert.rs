//! INSERT: decoding the statement's tokens, and building the rows it appends.
use vstd::prelude::*;
use crate::common::{
    add_all_fields, all_positions, all_resolve, column_names, header_map, lemma_index_map_position,
    resolve_all, table_error_message, table_ok, validate_table,
};
use crate::conditions::condition_holds;
use crate::error::{ErrorKind, MiniSQLError};
use crate::select::project_all;
use crate::table::{assigned_value, clone_row, filter_rows, find_assigned, pairs_of, rows_view, Table};
use crate::text::{compare_text, decimal_text, is_keyword, join_tokens, keyword_match, views};

verus! {

/// Which part of an INSERT statement the tokens being read belong to.
#[derive(PartialEq, Eq, Structural, Clone, Copy, Debug)]
pub enum InsertSegment {
    Start,
    Into,
    Table,
    FieldsOpen,
    FieldsClosed,
    Values,
    ValuesOpen,
    ValuesClosed,
}

/// The token buffers of an INSERT statement: the table segment, the column
/// list, the value rows read so far and the value row being read.
pub struct InsertParts {
    pub segment: InsertSegment,
    pub from: Seq<Seq<char>>,
    pub fields: Seq<Seq<char>>,
    pub values: Seq<Seq<Seq<char>>>,
    pub current: Seq<Seq<char>>,
}

/// Reading one more token of an INSERT statement.
pub open spec fn insert_step(p: InsertParts, tok: Seq<char>) -> Option<InsertParts> {
    if keyword_match(tok, "INSERT"@) {
        Some(InsertParts { segment: InsertSegment::Into, ..p })
    } else if keyword_match(tok, "INTO"@) {
        if p.segment == InsertSegment::Into {
            Some(InsertParts { segment: InsertSegment::Table, ..p })
        } else {
            Some(p)
        }
    } else if tok == "("@ {
        if p.segment == InsertSegment::Table {
            Some(InsertParts { segment: InsertSegment::FieldsOpen, ..p })
        } else if p.segment == InsertSegment::Values {
            Some(InsertParts { segment: InsertSegment::ValuesOpen, ..p })
        } else {
            Some(p)
        }
    } else if tok == ")"@ {
        if p.segment == InsertSegment::FieldsOpen {
            Some(InsertParts { segment: InsertSegment::FieldsClosed, ..p })
        } else if p.segment == InsertSegment::ValuesOpen {
            Some(
                InsertParts {
                    segment: InsertSegment::ValuesClosed,
                    values: p.values.push(p.current),
                    current: Seq::empty(),
                    ..p
                },
            )
        } else {
            Some(p)
        }
    } else if tok == ","@ {
        if p.segment == InsertSegment::ValuesClosed {
            Some(InsertParts { segment: InsertSegment::ValuesOpen, ..p })
        } else {
            Some(p)
        }
    } else if keyword_match(tok, "VALUES"@) {
        if p.segment == InsertSegment::FieldsClosed {
            Some(InsertParts { segment: InsertSegment::Values, ..p })
        } else {
            None
        }
    } else {
        match p.segment {
            InsertSegment::Table => Some(InsertParts { from: p.from.push(tok), ..p }),
            InsertSegment::FieldsOpen => Some(InsertParts { fields: p.fields.push(tok), ..p }),
            InsertSegment::ValuesOpen => Some(InsertParts { current: p.current.push(tok), ..p }),
            _ => None,
        }
    }
}

/// The segments of an INSERT statement's tokens, read left to right.
pub open spec fn scan_insert(t: Seq<Seq<char>>) -> Option<InsertParts>
    decreases t.len(),
{
    if t.len() == 0 {
        Some(
            InsertParts {
                segment: InsertSegment::Start,
                from: Seq::empty(),
                fields: Seq::empty(),
                values: Seq::empty(),
                current: Seq::empty(),
            },
        )
    } else {
        match scan_insert(t.drop_last()) {
            Some(p) => insert_step(p, t.last()),
            None => None,
        }
    }
}

/// Every value row has as many values as there are columns.
pub open spec fn arity_ok(fields: Seq<Seq<char>>, values: Seq<Seq<Seq<char>>>) -> bool {
    forall|i: int| 0 <= i < values.len() ==> (#[trigger] values[i]).len() == fields.len()
}

/// A decoded INSERT statement: every value row has one value per column.
pub struct Insert {
    pub target_table: String,
    pub fields: Vec<String>,
    pub values: Vec<Vec<String>>,
}

proof fn lemma_scan_insert_stuck(t: Seq<Seq<char>>, i: int)
    requires
        0 <= i < t.len(),
        scan_insert(t.take(i + 1)) is None,
    ensures
        scan_insert(t) is None,
    decreases t.len(),
{
    if i + 1 == t.len() {
        assert(t.take(i + 1) =~= t);
    } else {
        assert(t.drop_last().take(i + 1) =~= t.take(i + 1));
        lemma_scan_insert_stuck(t.drop_last(), i);
    }
}

fn invalid_sentence(prefix: &str, sentence_parts: &Vec<String>) -> (r: MiniSQLError)
    ensures
        r.kind() == ErrorKind::InvalidSyntax,
{
    let mut msg = String::from_str(prefix);
    msg.append(join_tokens(sentence_parts.as_slice()).as_str());
    msg.append(" ");
    MiniSQLError::InvalidSyntax(msg)
}

/// Splits the tokens of an INSERT statement into its table segment, column
/// list and value rows, and checks that each value row has one value per
/// column.
fn match_fields_insert(sentence_parts: &Vec<String>) -> (r: Result<
    (Vec<String>, Vec<String>, Vec<Vec<String>>),
    MiniSQLError,
>)
    ensures
        r is Ok <==> (scan_insert(views(sentence_parts@)) matches Some(p) && p.segment
            == InsertSegment::ValuesClosed && arity_ok(p.fields, p.values)),
        r matches Err(e) ==> e.kind() == ErrorKind::InvalidSyntax,
        r matches Ok((from, fields, values)) ==> {
            let p = scan_insert(views(sentence_parts@))->0;
            &&& views(from@) == p.from
            &&& views(fields@) == p.fields
            &&& rows_view(values@) == p.values
        },
{
    let ghost t = views(sentence_parts@);
    proof {
        reveal_strlit("(");
        reveal_strlit(")");
        reveal_strlit(",");
    }
    let mut segment = InsertSegment::Start;
    let mut from: Vec<String> = Vec::new();
    let mut fields: Vec<String> = Vec::new();
    let mut values: Vec<Vec<String>> = Vec::new();
    let mut current: Vec<String> = Vec::new();
    let mut i: usize = 0;
    proof {
        assert(t.take(0) =~= Seq::<Seq<char>>::empty());
        assert(rows_view(values@) =~~= Seq::<Seq<Seq<char>>>::empty());
    }
    while i < sentence_parts.len()
        invariant
            t == views(sentence_parts@),
            i <= t.len(),
            scan_insert(t.take(i as int)) matches Some(p) && p.segment == segment && views(from@)
                == p.from && views(fields@) == p.fields && rows_view(values@) == p.values
                && views(current@) == p.current,
        decreases t.len() - i,
    {
        proof {
            assert(t.take(i + 1).drop_last() =~= t.take(i as int));
        }
        let part = sentence_parts[i].as_str();
        if is_keyword(part, "INSERT") {
            segment = InsertSegment::Into;
        } else if is_keyword(part, "INTO") {
            if segment == InsertSegment::Into {
                segment = InsertSegment::Table;
            }
        } else if compare_text(part, "(") == 0 {
            if segment == InsertSegment::Table {
                segment = InsertSegment::FieldsOpen;
            } else if segment == InsertSegment::Values {
                segment = InsertSegment::ValuesOpen;
            }
        } else if compare_text(part, ")") == 0 {
            if segment == InsertSegment::FieldsOpen {
                segment = InsertSegment::FieldsClosed;
            } else if segment == InsertSegment::ValuesOpen {
                segment = InsertSegment::ValuesClosed;
                proof {
                    assert(rows_view(values@.push(current)) =~~= rows_view(values@).push(views(current@)));
                }
                values.push(current);
                current = Vec::new();
                proof {
                    assert(views(current@) =~~= Seq::<Seq<char>>::empty());
                }
            }
        } else if compare_text(part, ",") == 0 {
            if segment == InsertSegment::ValuesClosed {
                segment = InsertSegment::ValuesOpen;
            }
        } else if is_keyword(part, "VALUES") {
            if segment != InsertSegment::FieldsClosed {
                proof {
                    lemma_scan_insert_stuck(t, i as int);
                }
                return Err(
                    invalid_sentence(
                        "Invalid sentence VALUES were given but missing fields to be replaced: ",
                        sentence_parts,
                    ),
                );
            }
            segment = InsertSegment::Values;
        } else {
            match segment {
                InsertSegment::Table => {
                    proof {
                        assert(views(from@.push(sentence_parts@[i as int])) =~~= views(from@).push(part@));
                    }
                    from.push(sentence_parts[i].clone());
                },
                InsertSegment::FieldsOpen => {
                    proof {
                        assert(views(fields@.push(sentence_parts@[i as int])) =~~= views(fields@).push(part@));
                    }
                    fields.push(sentence_parts[i].clone());
                },
                InsertSegment::ValuesOpen => {
                    proof {
                        assert(views(current@.push(sentence_parts@[i as int])) =~~= views(current@).push(part@));
                    }
                    current.push(sentence_parts[i].clone());
                },
                _ => {
                    proof {
                        lemma_scan_insert_stuck(t, i as int);
                    }
                    return Err(invalid_sentence("Invalid sentence: ", sentence_parts));
                },
            }
        }
        i = i + 1;
    }
    proof {
        assert(t.take(t.len() as int) =~= t);
    }
    if segment != InsertSegment::ValuesClosed {
        return Err(
            invalid_sentence("Invalid sentence, VALUES must end with a closed group of values: ", sentence_parts),
        );
    }
    let mut j: usize = 0;
    while j < values.len()
        invariant
            j <= values@.len(),
            t == views(sentence_parts@),
            scan_insert(t) matches Some(p) && views(fields@) == p.fields && rows_view(values@) == p.values,
            forall|k: int| 0 <= k < j ==> (#[trigger] values@[k])@.len() == fields@.len(),
        decreases values@.len() - j,
    {
        if values[j].len() != fields.len() {
            let mut msg = String::from_str("Invalid sentence VALUE, wrong number of arguments: ");
            msg.append(join_tokens(values[j].as_slice()).as_str());
            msg.append(" . ");
            msg.append(decimal_text(fields.len()).as_str());
            msg.append(" were required but sent ");
            msg.append(decimal_text(values[j].len()).as_str());
            msg.append(" ");
            proof {
                assert(rows_view(values@)[j as int].len() != views(fields@).len());
            }
            return Err(MiniSQLError::InvalidSyntax(msg));
        }
        j = j + 1;
    }
    proof {
        assert(arity_ok(views(fields@), rows_view(values@)));
    }
    Ok((from, fields, values))
}

/// What decoding the tokens `t` of an INSERT statement gives.
pub open spec fn insert_outcome(t: Seq<Seq<char>>, r: Result<Insert, MiniSQLError>) -> bool {
    match scan_insert(t) {
        None => r matches Err(e) && e.kind() == ErrorKind::InvalidSyntax,
        Some(p) => if p.segment != InsertSegment::ValuesClosed || !arity_ok(p.fields, p.values) {
            r matches Err(e) && e.kind() == ErrorKind::InvalidSyntax
        } else if !table_ok(p.from) {
            r matches Err(e) && e.kind() == ErrorKind::InvalidTable && e.msg() == table_error_message(
                p.from,
            )
        } else {
            r matches Ok(ins) && ins.target_table@ == p.from[0] && views(ins.fields@) == p.fields
                && rows_view(ins.values@) == p.values
        },
    }
}

/// Decodes the tokens of an INSERT statement. Errors: a token outside any
/// segment, VALUES before a closed column list, a statement that does not
/// end with a closed group of values, or a value row whose length differs
/// from the column list's (`InvalidSyntax`); then no table, an empty table
/// name or several (`InvalidTable`).
pub fn new_insert(sentence_parts: Vec<String>) -> (r: Result<Insert, MiniSQLError>)
    ensures
        insert_outcome(views(sentence_parts@), r),
{
    decode_insert(sentence_parts)
}

fn decode_insert(sentence_parts: Vec<String>) -> (r: Result<Insert, MiniSQLError>)
    ensures
        insert_outcome(views(sentence_parts@), r),
{
    let (from, fields, values) = match match_fields_insert(&sentence_parts) {
        Ok(parts) => parts,
        Err(e) => return Err(e),
    };
    let target_table = match validate_table(from) {
        Ok(t) => t,
        Err(e) => return Err(e),
    };
    Ok(Insert { target_table, fields, values })
}

/// A full-width row holding each value at its column's position and the
/// empty string in every column not named.
pub open spec fn new_row(values: Seq<Seq<char>>, positions: Seq<usize>, width: nat) -> Seq<Seq<char>> {
    Seq::new(
        width,
        |i: int|
            match assigned_value(pairs_of(positions, values), i) {
                Some(v) => v,
                None => Seq::empty(),
            },
    )
}

/// The rows an INSERT appends, one per value row.
pub open spec fn inserted_rows(values: Seq<Seq<Seq<char>>>, positions: Seq<usize>, width: nat) -> Seq<Seq<Seq<char>>> {
    Seq::new(values.len(), |k: int| new_row(values[k], positions, width))
}

/// A row of `line_size` columns holding each value of `line` at the
/// position paired with it and the empty string elsewhere. Lists of
/// different lengths are a `Generic` error.
pub fn format_new_line(line: &[String], positions: &[usize], line_size: usize) -> (r: Result<
    Vec<String>,
    MiniSQLError,
>)
    ensures
        r is Err <==> positions@.len() != line@.len(),
        r matches Ok(l) ==> views(l@) == new_row(views(line@), positions@, line_size as nat),
        r matches Err(e) ==> e.kind() == ErrorKind::Generic,
{
    if positions.len() != line.len() {
        return Err(MiniSQLError::Generic(
            String::from_str("program found unexpected error while inserting new lines"),
        ));
    }
    let mut out: Vec<String> = Vec::new();
    let mut i: usize = 0;
    while i < line_size
        invariant
            positions@.len() == line@.len(),
            i <= line_size,
            out@.len() == i,
            forall|j: int| 0 <= j < i ==> #[trigger] views(out@)[j] == new_row(views(line@), positions@, line_size as nat)[j],
        decreases line_size - i,
    {
        let v = match find_assigned(positions, line, i) {
            Some(k) => line[k].clone(),
            None => String::new(),
        };
        let ghost before = out@;
        out.push(v);
        proof {
            assert forall|j: int| 0 <= j < i + 1 implies #[trigger] views(out@)[j] == new_row(views(line@), positions@, line_size as nat)[j] by {
                if j < i {
                    assert(out@[j] == before[j]);
                    assert(views(before)[j] == new_row(views(line@), positions@, line_size as nat)[j]);
                }
            }
        }
        i = i + 1;
    }
    proof {
        assert(views(out@) =~~= new_row(views(line@), positions@, line_size as nat));
    }
    Ok(out)
}

/// Runs an INSERT against `table`: the header and the existing rows are kept
/// as they are, and one full-width row per value row is appended. A column
/// missing from the header, or a value row whose length differs from the
/// column list's, is a `Generic` error: decoding rules out the second.
pub fn execute_insert_statement(insert: &Insert, table: &Table) -> (r: Result<Table, MiniSQLError>)
    ensures
        ({
            let m = header_map(table.header@);
            let fv = views(insert.fields@);
            let vs = rows_view(insert.values@);
            if !all_resolve(fv, m) || !arity_ok(fv, vs) {
                r matches Err(e) && e.kind() == ErrorKind::Generic
            } else {
                r matches Ok(t) && t.header@ == table.header@ && rows_view(t.rows@) == rows_view(table.rows@)
                    + inserted_rows(vs, resolve_all(fv, m), table.header@.len())
            }
        }),
        r matches Ok(t) ==> t.header@ == table.header@ && rows_view(t.rows@).take(table.rows@.len() as int)
            == rows_view(table.rows@),
{
    let map = add_all_fields(table.header.as_slice());
    let ghost m = header_map(table.header@);
    let ghost fv = views(insert.fields@);
    let mut positions: Vec<usize> = Vec::new();
    let mut k: usize = 0;
    while k < insert.fields.len()
        invariant
            map@ == m,
            m == header_map(table.header@),
            fv == views(insert.fields@),
            k <= fv.len(),
            positions@.len() == k,
            forall|j: int| 0 <= j < k ==> m.contains_key(#[trigger] fv[j]),
            forall|j: int| 0 <= j < k ==> #[trigger] positions@[j] == m[fv[j]],
        decreases fv.len() - k,
    {
        match map.get(insert.fields[k].as_str()) {
            Some(p) => positions.push(p),
            None => {
                let mut msg = String::from_str("program found unexpected error while inserting new lines: ");
                msg.append(join_tokens(insert.fields.as_slice()).as_str());
                msg.append(" ");
                proof {
                    assert(!m.contains_key(fv[k as int]));
                }
                return Err(MiniSQLError::Generic(msg));
            },
        }
        k = k + 1;
    }
    proof {
        assert(positions@ =~= resolve_all(fv, m));
    }
    let ghost vs = rows_view(insert.values@);
    let width = table.header.len();
    let mut rows: Vec<Vec<String>> = Vec::new();
    let mut i: usize = 0;
    while i < table.rows.len()
        invariant
            i <= table.rows@.len(),
            rows@.len() == i,
            forall|j: int| 0 <= j < i ==> #[trigger] rows_view(rows@)[j] == rows_view(table.rows@)[j],
        decreases table.rows@.len() - i,
    {
        let row = clone_row(&table.rows[i]);
        let ghost before = rows@;
        rows.push(row);
        proof {
            assert forall|j: int| 0 <= j < i + 1 implies #[trigger] rows_view(rows@)[j] == rows_view(table.rows@)[j] by {
                if j < i {
                    assert(rows@[j] == before[j]);
                    assert(rows_view(before)[j] == rows_view(table.rows@)[j]);
                }
            }
        }
        i = i + 1;
    }
    let ghost old_rows = rows_view(table.rows@);
    let ghost added = inserted_rows(vs, positions@, width as nat);
    let mut v: usize = 0;
    while v < insert.values.len()
        invariant
            vs == rows_view(insert.values@),
            fv == views(insert.fields@),
            positions@.len() == fv.len(),
            added == inserted_rows(vs, positions@, width as nat),
            old_rows == rows_view(table.rows@),
            v <= vs.len(),
            rows@.len() == old_rows.len() + v,
            forall|j: int| 0 <= j < v ==> vs[j].len() == fv.len(),
            forall|j: int| 0 <= j < old_rows.len() ==> #[trigger] rows_view(rows@)[j] == old_rows[j],
            forall|j: int| 0 <= j < v ==> #[trigger] rows_view(rows@)[old_rows.len() + j] == added[j],
        decreases vs.len() - v,
    {
        if insert.values[v].len() != insert.fields.len() {
            let mut msg = String::from_str("program found unexpected error while inserting new lines: ");
            msg.append(join_tokens(insert.values[v].as_slice()).as_str());
            msg.append(" ");
            proof {
                assert(vs[v as int].len() != fv.len());
            }
            return Err(MiniSQLError::Generic(msg));
        }
        let row = match format_new_line(insert.values[v].as_slice(), positions.as_slice(), width) {
            Ok(l) => l,
            Err(e) => return Err(e),
        };
        let ghost before = rows@;
        rows.push(row);
        proof {
            assert forall|j: int| 0 <= j < old_rows.len() implies #[trigger] rows_view(rows@)[j] == old_rows[j] by {
                assert(rows@[j] == before[j]);
                assert(rows_view(before)[j] == old_rows[j]);
            }
            assert forall|j: int| 0 <= j < v + 1 implies #[trigger] rows_view(rows@)[old_rows.len() + j] == added[j] by {
                if j < v {
                    assert(rows@[old_rows.len() + j] == before[old_rows.len() + j]);
                    assert(rows_view(before)[old_rows.len() + j] == added[j]);
                }
            }
        }
        v = v + 1;
    }
    proof {
        assert(arity_ok(fv, vs));
        let joined_rows = old_rows + added;
        assert forall|j: int| 0 <= j < joined_rows.len() implies #[trigger] rows_view(rows@)[j] == joined_rows[j] by {
            if j < old_rows.len() {
                assert(rows_view(rows@)[j] == old_rows[j]);
            } else {
                let k = j - old_rows.len();
                assert(rows_view(rows@)[old_rows.len() + k] == added[k]);
            }
        }
        assert(rows_view(rows@) =~~= joined_rows);
        assert(rows_view(rows@).take(old_rows.len() as int) =~~= old_rows);
    }
    let header = clone_row(&table.header);
    Ok(Table { header, rows })
}

proof fn lemma_no_condition_keeps_all(m: Map<Seq<char>, usize>, rows: Seq<Seq<Seq<char>>>)
    ensures
        filter_rows(Seq::empty(), m, rows, true) == Some(rows),
    decreases rows.len(),
{
    if rows.len() > 0 {
        lemma_no_condition_keeps_all(m, rows.drop_last());
        assert(condition_holds(Seq::empty(), 0, 0, m, rows.last()) == Some(true));
        assert(rows.drop_last().push(rows.last()) =~= rows);
    }
}

proof fn lemma_unassigned(assigns: Seq<(usize, Seq<char>)>, i: int)
    requires
        forall|j: int| 0 <= j < assigns.len() ==> (#[trigger] assigns[j]).0 as int != i,
    ensures
        assigned_value(assigns, i) is None,
    decreases assigns.len(),
{
    if assigns.len() > 0 {
        lemma_unassigned(assigns.drop_last(), i);
    }
}

/// After an INSERT, a `SELECT *` without condition shows every row of the
/// table, the inserted ones after the earlier ones; each inserted row holds
/// the value given for each named column and the empty string in every
/// column the statement does not name; with no column named twice, each
/// named column holds its inserted value.
pub proof fn lemma_insert_then_select_all(
    header: Seq<String>,
    rows: Seq<Seq<Seq<char>>>,
    fields: Seq<Seq<char>>,
    values: Seq<Seq<Seq<char>>>,
)
    requires
        header.len() <= usize::MAX,
        all_resolve(fields, header_map(header)),
        arity_ok(fields, values),
    ensures
        ({
            let m = header_map(header);
            let ps = resolve_all(fields, m);
            let w = header.len();
            let after = rows + inserted_rows(values, ps, w);
            let shown = project_all(after, all_positions(w));
            &&& filter_rows(Seq::empty(), m, after, true) == Some(after)
            &&& shown.len() == rows.len() + values.len()
            &&& forall|k: int, i: int|
                0 <= k < values.len() && 0 <= i < w ==> #[trigger] shown[rows.len() + k][i] == match assigned_value(
                    pairs_of(ps, values[k]),
                    i,
                ) {
                    Some(v) => v,
                    None => Seq::empty(),
                }
            &&& forall|k: int, i: int|
                0 <= k < values.len() && 0 <= i < w && (forall|j: int| 0 <= j < ps.len() ==> ps[j] != i)
                    ==> #[trigger] shown[rows.len() + k][i] == Seq::<char>::empty()
            &&& forall|j: int| 0 <= j < fields.len() ==> #[trigger] ps[j] < w && column_names(views(header))[ps[j] as int] == fields[j]
            &&& distinct_names(fields) ==> forall|k: int, j: int|
                0 <= k < values.len() && 0 <= j < fields.len() ==> #[trigger] shown[rows.len() + k][ps[j] as int]
                    == values[k][j]
        }),
{
    let m = header_map(header);
    let ps = resolve_all(fields, m);
    let w = header.len();
    let after = rows + inserted_rows(values, ps, w);
    let shown = project_all(after, all_positions(w));
    lemma_no_condition_keeps_all(m, after);
    assert forall|k: int, i: int|
        0 <= k < values.len() && 0 <= i < w implies #[trigger] shown[rows.len() + k][i] == match assigned_value(
            pairs_of(ps, values[k]),
            i,
        ) {
            Some(v) => v,
            None => Seq::empty(),
        } by {
        assert(after[rows.len() + k] == new_row(values[k], ps, w));
        assert(all_positions(w)[i] as int == i);
    }
    assert forall|k: int, i: int|
        0 <= k < values.len() && 0 <= i < w && (forall|j: int| 0 <= j < ps.len() ==> ps[j] != i)
            implies #[trigger] shown[rows.len() + k][i] == Seq::<char>::empty() by {
        let a = pairs_of(ps, values[k]);
        assert forall|j: int| 0 <= j < a.len() implies (#[trigger] a[j]).0 as int != i by {
            assert(a[j].0 == ps[j]);
        }
        lemma_unassigned(a, i);
        assert(after[rows.len() + k] == new_row(values[k], ps, w));
        assert(all_positions(w)[i] as int == i);
    }
    assert forall|j: int| 0 <= j < fields.len() implies #[trigger] ps[j] < w && column_names(views(header))[ps[j] as int] == fields[j] by {
        assert(m.contains_key(fields[j]));
        lemma_index_map_position(column_names(views(header)), fields[j]);
    }
    if distinct_names(fields) {
        assert forall|k: int, j: int|
            0 <= k < values.len() && 0 <= j < fields.len() implies #[trigger] shown[rows.len() + k][ps[j] as int]
                == values[k][j] by {
            let a = pairs_of(ps, values[k]);
            assert(values[k].len() == fields.len());
            assert forall|x: int| 0 <= x < a.len() && x != j implies (#[trigger] a[x]).0 != a[j].0 by {
                assert(fields[x] != fields[j]);
                assert(column_names(views(header))[ps[x] as int] == fields[x]);
                assert(column_names(views(header))[ps[j] as int] == fields[j]);
            }
            lemma_assigned_unique(a, j);
            assert(after[rows.len() + k] == new_row(values[k], ps, w));
            assert(all_positions(w)[ps[j] as int] as int == ps[j] as int);
        }
    }
}

/// No name occurs twice in `names`.
pub open spec fn distinct_names(names: Seq<Seq<char>>) -> bool {
    forall|x: int, y: int| 0 <= x < y < names.len() ==> names[x] != names[y]
}

proof fn lemma_assigned_unique(a: Seq<(usize, Seq<char>)>, j: int)
    requires
        0 <= j < a.len(),
        forall|x: int| 0 <= x < a.len() && x != j ==> (#[trigger] a[x]).0 != a[j].0,
    ensures
        assigned_value(a, a[j].0 as int) == Some(a[j].1),
    decreases a.len(),
{
    if j < a.len() - 1 {
        assert(a.last().0 != a[j].0);
        assert(a.drop_last()[j] == a[j]);
        assert forall|x: int| 0 <= x < a.drop_last().len() && x != j implies (#[trigger] a.drop_last()[x]).0
            != a.drop_last()[j].0 by {
            assert(a.drop_last()[x] == a[x]);
        }
        lemma_assigned_unique(a.drop_last(), j);
    }
}

} // verus!

//! SELECT: decoding the statement's tokens, and running it over a table.
use vstd::prelude::*;
use crate::common::{
    add_all_fields, all_positions, all_resolve, column_names, get_required_fields, header_map,
    is_separator_token, lemma_index_map_position, missing_field_message, required_positions,
    selects_all, strip_separators, table_error_message, table_ok, validate_table,
};
use crate::error::{ErrorKind, MiniSQLError};
use crate::table::{
    cell, cell_text, filter_rows, filter_table_rows, is_stable_order, order_rows, project, project_row,
    rows_view, Table,
};
use crate::text::{
    compare_text, is_keyword, join_tokens, keyword_match, parse_i32, parse_i32_spec, views,
};

verus! {

/// Which part of a SELECT statement the tokens being read belong to.
#[derive(PartialEq, Eq, Structural, Clone, Copy, Debug)]
pub enum SelectSegment {
    Start,
    Fields,
    Condition,
    From,
    Order,
    OrderBy,
}

/// The token buffers of a SELECT statement, one per segment.
pub struct SelectParts {
    pub segment: SelectSegment,
    pub fields: Seq<Seq<char>>,
    pub condition: Seq<Seq<char>>,
    pub from: Seq<Seq<char>>,
    pub order: Seq<Seq<char>>,
    /// An `ORDER` keyword has been read.
    pub ordered: bool,
}

/// Reading one more token: a keyword switches the segment and is dropped,
/// any other token joins the current segment's buffer; a token outside any
/// segment is an error.
pub open spec fn select_step(p: SelectParts, tok: Seq<char>) -> Option<SelectParts> {
    if keyword_match(tok, "SELECT"@) {
        Some(SelectParts { segment: SelectSegment::Fields, ..p })
    } else if keyword_match(tok, "WHERE"@) {
        Some(SelectParts { segment: SelectSegment::Condition, ..p })
    } else if keyword_match(tok, "FROM"@) {
        Some(SelectParts { segment: SelectSegment::From, ..p })
    } else if keyword_match(tok, "ORDER"@) {
        Some(SelectParts { segment: SelectSegment::Order, ordered: true, ..p })
    } else if keyword_match(tok, "BY"@) {
        if p.segment == SelectSegment::Order {
            Some(SelectParts { segment: SelectSegment::OrderBy, ..p })
        } else {
            Some(p)
        }
    } else {
        match p.segment {
            SelectSegment::Fields => Some(SelectParts { fields: p.fields.push(tok), ..p }),
            SelectSegment::Condition => Some(SelectParts { condition: p.condition.push(tok), ..p }),
            SelectSegment::From => Some(SelectParts { from: p.from.push(tok), ..p }),
            SelectSegment::OrderBy => Some(SelectParts { order: p.order.push(tok), ..p }),
            _ => None,
        }
    }
}

/// The segments of a SELECT statement's tokens, read left to right.
pub open spec fn scan_select(t: Seq<Seq<char>>) -> Option<SelectParts>
    decreases t.len(),
{
    if t.len() == 0 {
        Some(
            SelectParts {
                segment: SelectSegment::Start,
                fields: Seq::empty(),
                condition: Seq::empty(),
                from: Seq::empty(),
                order: Seq::empty(),
                ordered: false,
            },
        )
    } else {
        match scan_select(t.drop_last()) {
            Some(p) => select_step(p, t.last()),
            None => None,
        }
    }
}

/// The columns a SELECT shows.
pub enum Projection {
    /// `*`: every column, in header order.
    AllColumns,
    /// The named columns, in the order requested.
    Columns(Vec<String>),
}

/// The ORDER BY clause of a SELECT.
pub struct OrderBy {
    pub column: String,
    pub descending: bool,
}

/// A decoded SELECT statement.
pub struct Select {
    pub target_table: String,
    pub projection: Projection,
    pub condition: Vec<String>,
    pub order: Option<OrderBy>,
}

/// `sel` is what the segments `p` decode to.
pub open spec fn select_decodes(sel: Select, p: SelectParts) -> bool {
    &&& sel.target_table@ == p.from[0]
    &&& views(sel.condition@) == p.condition
    &&& if selects_all(p.fields) {
        sel.projection is AllColumns
    } else {
        sel.projection matches Projection::Columns(c) && views(c@) == strip_separators(p.fields)
    }
    &&& if p.order.len() == 0 {
        sel.order is None
    } else {
        sel.order matches Some(o) && o.column@ == p.order[0] && o.descending == (p.order.len() == 2
            && p.order[1] == "DESC"@)
    }
}

/// The ORDER BY segment is at most a column and a direction, `ASC` or `DESC`.
pub open spec fn order_ok(order: Seq<Seq<char>>) -> bool {
    order.len() <= 2 && (order.len() == 2 ==> (order[1] == "ASC"@ || order[1] == "DESC"@))
}

/// Splits the tokens of a SELECT statement into its segments.
fn match_fields_select(sentence_parts: &Vec<String>) -> (r: Result<
    (Vec<String>, Vec<String>, Vec<String>, Vec<String>, bool),
    MiniSQLError,
>)
    ensures
        scan_select(views(sentence_parts@)) is None <==> r is Err,
        r matches Err(e) ==> e.kind() == ErrorKind::InvalidSyntax,
        r matches Ok((fields, condition, from, order, ordered)) ==> {
            let p = scan_select(views(sentence_parts@))->0;
            &&& views(fields@) == p.fields
            &&& views(condition@) == p.condition
            &&& views(from@) == p.from
            &&& views(order@) == p.order
            &&& ordered == p.ordered
        },
{
    let ghost t = views(sentence_parts@);
    let mut segment = SelectSegment::Start;
    let mut fields: Vec<String> = Vec::new();
    let mut condition: Vec<String> = Vec::new();
    let mut from: Vec<String> = Vec::new();
    let mut order: Vec<String> = Vec::new();
    let mut ordered = false;
    let mut i: usize = 0;
    proof {
        assert(t.take(0) =~= Seq::<Seq<char>>::empty());
    }
    while i < sentence_parts.len()
        invariant
            t == views(sentence_parts@),
            i <= t.len(),
            scan_select(t.take(i as int)) matches Some(p) && p.segment == segment && views(fields@)
                == p.fields && views(condition@) == p.condition && views(from@) == p.from && views(
                order@,
            ) == p.order && ordered == p.ordered,
        decreases t.len() - i,
    {
        proof {
            assert(t.take(i + 1).drop_last() =~= t.take(i as int));
        }
        let part = sentence_parts[i].as_str();
        if is_keyword(part, "SELECT") {
            segment = SelectSegment::Fields;
        } else if is_keyword(part, "WHERE") {
            segment = SelectSegment::Condition;
        } else if is_keyword(part, "FROM") {
            segment = SelectSegment::From;
        } else if is_keyword(part, "ORDER") {
            segment = SelectSegment::Order;
            ordered = true;
        } else if is_keyword(part, "BY") {
            if segment == SelectSegment::Order {
                segment = SelectSegment::OrderBy;
            }
        } else {
            match segment {
                SelectSegment::Fields => {
                    proof {
                        assert(views(fields@.push(sentence_parts@[i as int])) =~~= views(fields@).push(part@));
                    }
                    fields.push(sentence_parts[i].clone());
                },
                SelectSegment::Condition => {
                    proof {
                        assert(views(condition@.push(sentence_parts@[i as int])) =~~= views(condition@).push(part@));
                    }
                    condition.push(sentence_parts[i].clone());
                },
                SelectSegment::From => {
                    proof {
                        assert(views(from@.push(sentence_parts@[i as int])) =~~= views(from@).push(part@));
                    }
                    from.push(sentence_parts[i].clone());
                },
                SelectSegment::OrderBy => {
                    proof {
                        assert(views(order@.push(sentence_parts@[i as int])) =~~= views(order@).push(part@));
                    }
                    order.push(sentence_parts[i].clone());
                },
                _ => {
                    let mut msg = String::from_str("Invalid sentence: ");
                    msg.append(join_tokens(sentence_parts.as_slice()).as_str());
                    msg.append(" ");
                    proof {
                        lemma_scan_select_stuck(t, i as int);
                    }
                    return Err(MiniSQLError::InvalidSyntax(msg));
                },
            }
        }
        i = i + 1;
    }
    proof {
        assert(t.take(t.len() as int) =~= t);
    }
    Ok((fields, condition, from, order, ordered))
}

proof fn lemma_scan_select_stuck(t: Seq<Seq<char>>, i: int)
    requires
        0 <= i < t.len(),
        scan_select(t.take(i + 1)) is None,
    ensures
        scan_select(t) is None,
    decreases t.len(),
{
    if i + 1 == t.len() {
        assert(t.take(i + 1) =~= t);
    } else {
        assert(t.drop_last().take(i + 1) =~= t.take(i + 1));
        lemma_scan_select_stuck(t.drop_last(), i);
    }
}

/// What decoding the tokens `t` of a SELECT statement gives.
pub open spec fn select_outcome(t: Seq<Seq<char>>, r: Result<Select, MiniSQLError>) -> bool {
    match scan_select(t) {
        None => r matches Err(e) && e.kind() == ErrorKind::InvalidSyntax,
        Some(p) => if !table_ok(p.from) {
            r matches Err(e) && e.kind() == ErrorKind::InvalidTable && e.msg() == table_error_message(
                p.from,
            )
        } else if p.order.len() > 2 {
            r matches Err(e) && e.kind() == ErrorKind::InvalidTable && e.msg()
                == "multiple references for table"@
        } else if !order_ok(p.order) || (p.ordered && p.order.len() == 0) {
            r matches Err(e) && e.kind() == ErrorKind::InvalidSyntax
        } else if !selects_all(p.fields) && strip_separators(p.fields).len() == 0 {
            r matches Err(e) && e.kind() == ErrorKind::InvalidSyntax
        } else {
            r matches Ok(sel) && select_decodes(sel, p)
        },
    }
}

/// Decodes the tokens of a SELECT statement. Errors: a token outside any
/// segment (`InvalidSyntax`); no table, an empty table name or several
/// (`InvalidTable`); an ORDER BY of more than two tokens (`InvalidTable`),
/// with a direction other than `ASC` / `DESC`, or without a column, and a
/// statement that requests no field (`InvalidSyntax`).
pub fn new_select(sentence_parts: Vec<String>) -> (r: Result<Select, MiniSQLError>)
    ensures
        select_outcome(views(sentence_parts@), r),
{
    decode_select(sentence_parts)
}

fn decode_select(sentence_parts: Vec<String>) -> (r: Result<Select, MiniSQLError>)
    ensures
        select_outcome(views(sentence_parts@), r),
{
    let (fields, condition, from, order, ordered) = match match_fields_select(&sentence_parts) {
        Ok(parts) => parts,
        Err(e) => return Err(e),
    };
    let ghost p = scan_select(views(sentence_parts@))->0;
    let target_table = match validate_table(from) {
        Ok(t) => t,
        Err(e) => return Err(e),
    };
    if order.len() > 2 {
        return Err(MiniSQLError::InvalidTable(String::from_str("multiple references for table")));
    }
    let order_by = if order.len() == 0 {
        if ordered {
            return Err(MiniSQLError::InvalidSyntax(String::from_str("ORDER BY needs a column to order by")));
        }
        None
    } else {
        let mut descending = false;
        if order.len() == 2 {
            let direction = order[1].as_str();
            if compare_text(direction, "DESC") == 0 {
                descending = true;
            } else if compare_text(direction, "ASC") != 0 {
                let mut msg = String::from_str("Invalid order type (must be ASC/DESC): ");
                msg.append(direction);
                msg.append(" ");
                return Err(MiniSQLError::InvalidSyntax(msg));
            }
        }
        Some(OrderBy { column: order[0].clone(), descending })
    };
    let projection = if fields.len() == 1 && compare_text(fields[0].as_str(), "*") == 0 {
        Projection::AllColumns
    } else {
        let columns = strip_separator_tokens(&fields);
        if columns.len() == 0 {
            return Err(MiniSQLError::InvalidSyntax(String::from_str("no field was requested")));
        }
        Projection::Columns(columns)
    };
    Ok(Select { target_table, projection, condition, order: order_by })
}

/// The tokens of `q` without the `(`, `)` and `,` tokens between names.
pub fn strip_separator_tokens(q: &Vec<String>) -> (r: Vec<String>)
    ensures
        views(r@) == strip_separators(views(q@)),
{
    let ghost t = views(q@);
    let mut r: Vec<String> = Vec::new();
    let mut i: usize = 0;
    proof {
        assert(t.take(0) =~= Seq::<Seq<char>>::empty());
    }
    while i < q.len()
        invariant
            t == views(q@),
            i <= t.len(),
            views(r@) == strip_separators(t.take(i as int)),
        decreases t.len() - i,
    {
        proof {
            assert(t.take(i + 1).drop_last() =~= t.take(i as int));
        }
        if !is_separator_token(q[i].as_str()) {
            proof {
                assert(views(r@.push(q@[i as int])) =~~= views(r@).push(q@[i as int]@));
            }
            r.push(q[i].clone());
        }
        i = i + 1;
    }
    proof {
        assert(t.take(t.len() as int) =~= t);
    }
    r
}

/// The header positions a projection shows, in display order.
pub open spec fn select_positions(projection: Projection, header: Seq<String>) -> Option<Seq<usize>> {
    match projection {
        Projection::AllColumns => Some(all_positions(header.len())),
        Projection::Columns(c) => required_positions(views(c@), header),
    }
}

/// Every row of `rows` projected onto the columns `ps`.
pub open spec fn project_all(rows: Seq<Seq<Seq<char>>>, ps: Seq<usize>) -> Seq<Seq<Seq<char>>> {
    Seq::new(rows.len(), |i: int| project(rows[i], ps))
}

/// Every row of `rows` projected onto the columns `positions`.
pub fn project_rows(rows: &Vec<Vec<String>>, positions: &Vec<usize>) -> (r: Vec<Vec<String>>)
    ensures
        rows_view(r@) == project_all(rows_view(rows@), positions@),
{
    let mut out: Vec<Vec<String>> = Vec::new();
    let mut i: usize = 0;
    while i < rows.len()
        invariant
            i <= rows@.len(),
            out@.len() == i,
            forall|k: int| 0 <= k < i ==> #[trigger] rows_view(out@)[k] == project(rows_view(rows@)[k], positions@),
        decreases rows@.len() - i,
    {
        let row = project_row(&rows[i], positions);
        let ghost before = out@;
        out.push(row);
        proof {
            assert forall|k: int| 0 <= k < i + 1 implies #[trigger] rows_view(out@)[k] == project(rows_view(rows@)[k], positions@) by {
                if k < i {
                    assert(out@[k] == before[k]);
                    assert(rows_view(before)[k] == project(rows_view(rows@)[k], positions@));
                }
            }
        }
        i = i + 1;
    }
    proof {
        assert(rows_view(out@) =~~= project_all(rows_view(rows@), positions@));
    }
    out
}

/// Runs a SELECT over `table`: keeps the rows on which the condition holds,
/// orders them when an ORDER BY is given (stably; numerically when the first
/// kept row's value at the order column parses as `i32`; skipped for fewer
/// than two rows), and projects each onto the requested columns in the order
/// requested. Errors: a requested column missing from the header
/// (`InvalidColumn`, naming the first such column); a condition that fails on some row, or an order column
/// missing from the header (`InvalidSyntax`).
pub fn execute_select_statement(select: &Select, table: &Table) -> (r: Result<Vec<Vec<String>>, MiniSQLError>)
    ensures
        select_positions(select.projection, table.header@) is None ==> (r matches Err(e) && e.kind()
            == ErrorKind::InvalidColumn),
        select.projection matches Projection::Columns(c) ==> (required_positions(views(c@), table.header@)
            is None ==> (r matches Err(e) && e.msg() == missing_field_message(views(c@), table.header@))),
        select_positions(select.projection, table.header@) matches Some(ps) ==> {
            let m = header_map(table.header@);
            match filter_rows(views(select.condition@), m, rows_view(table.rows@), true) {
                None => r matches Err(e) && e.kind() == ErrorKind::InvalidSyntax,
                Some(kept) => match select.order {
                    None => r matches Ok(out) && rows_view(out@) == project_all(kept, ps),
                    Some(o) => if !m.contains_key(o.column@) {
                        r matches Err(e) && e.kind() == ErrorKind::InvalidSyntax
                    } else if kept.len() < 2 {
                        r matches Ok(out) && rows_view(out@) == project_all(kept, ps)
                    } else {
                        let col = m[o.column@] as int;
                        let numeric = parse_i32_spec(cell(kept[0], col)) is Some;
                        r matches Ok(out) && exists|sorted: Seq<Seq<Seq<char>>>, perm: Seq<int>|
                            is_stable_order(sorted, kept, perm, col, numeric, o.descending) && rows_view(
                                out@,
                            ) == project_all(sorted, ps)
                    },
                },
            }
        },
{
    let positions = match &select.projection {
        Projection::AllColumns => {
            let mut all: Vec<usize> = Vec::new();
            let mut i: usize = 0;
            while i < table.header.len()
                invariant
                    i <= table.header@.len(),
                    all@ == all_positions(i as nat),
                decreases table.header@.len() - i,
            {
                all.push(i);
                i = i + 1;
                proof {
                    assert(all@ =~= all_positions(i as nat));
                }
            }
            all
        },
        Projection::Columns(c) => match get_required_fields(c.as_slice(), table.header.as_slice()) {
            Ok(ps) => ps,
            Err(e) => return Err(e),
        },
    };
    let map = add_all_fields(table.header.as_slice());
    let kept = match filter_table_rows(&select.condition, &map, &table.rows, true) {
        Ok(k) => k,
        Err(e) => return Err(e),
    };
    match &select.order {
        None => Ok(project_rows(&kept, &positions)),
        Some(o) => {
            let col = match map.get(o.column.as_str()) {
                Some(c) => c,
                None => {
                    let mut msg = String::from_str("Invalid field to order: ");
                    msg.append(o.column.as_str());
                    msg.append(" ");
                    return Err(MiniSQLError::InvalidSyntax(msg));
                },
            };
            if kept.len() < 2 {
                return Ok(project_rows(&kept, &positions));
            }
            let numeric = parse_i32(cell_text(&kept[0], col)).is_some();
            let ordered = order_rows(&kept, col, numeric, o.descending);
            let out = project_rows(&ordered, &positions);
            proof {
                let kv = rows_view(kept@);
                let perm = choose|perm: Seq<int>|
                    is_stable_order(rows_view(ordered@), kv, perm, col as int, numeric, o.descending);
                assert(is_stable_order(rows_view(ordered@), kv, perm, col as int, numeric, o.descending)
                    && rows_view(out@) == project_all(rows_view(ordered@), positions@));
            }
            Ok(out)
        },
    }
}

/// An explicit projection shows, in the order requested, the value under
/// each requested column: the `j`-th value shown comes from the header
/// column named by the `j`-th requested name, whatever the header's order.
pub proof fn lemma_projection_keeps_request_order(row: Seq<Seq<char>>, requested: Seq<Seq<char>>, header: Seq<String>)
    requires
        header.len() <= usize::MAX,
        !selects_all(requested),
        all_resolve(strip_separators(requested), header_map(header)),
    ensures
        ({
            let names = strip_separators(requested);
            let ps = required_positions(requested, header)->0;
            &&& project(row, ps).len() == names.len()
            &&& forall|j: int|
                0 <= j < names.len() ==> {
                    let p = #[trigger] ps[j] as int;
                    &&& 0 <= p < header.len()
                    &&& column_names(views(header))[p] == names[j]
                    &&& project(row, ps)[j] == cell(row, p)
                }
        }),
{
    let names = strip_separators(requested);
    let ps = required_positions(requested, header)->0;
    assert forall|j: int| 0 <= j < names.len() implies {
        let p = #[trigger] ps[j] as int;
        &&& 0 <= p < header.len()
        &&& column_names(views(header))[p] == names[j]
        &&& project(row, ps)[j] == cell(row, p)
    } by {
        assert(header_map(header).contains_key(names[j]));
        lemma_index_map_position(column_names(views(header)), names[j]);
    }
}

/// `SELECT *` shows each full-width row unchanged: every column, in header order.
pub proof fn lemma_select_all_keeps_header_order(row: Seq<Seq<char>>, header: Seq<String>)
    requires
        header.len() <= usize::MAX,
        row.len() == header.len(),
    ensures
        project(row, all_positions(header.len())) == row,
{
    assert forall|i: int| 0 <= i < row.len() implies #[trigger] project(row, all_positions(header.len()))[i] == row[i] by {
        assert(all_positions(header.len())[i] as int == i);
    }
    assert(project(row, all_positions(header.len())) =~= row);
}

/// The rows a SELECT with an explicit column list shows: row `i` holds, at
/// place `j`, the value of kept row `i` under the header column named by the
/// `j`-th requested name, in the order requested.
pub proof fn lemma_selected_rows_keep_request_order(
    rows: Seq<Seq<Seq<char>>>,
    requested: Seq<Seq<char>>,
    header: Seq<String>,
)
    requires
        header.len() <= usize::MAX,
        !selects_all(requested),
        all_resolve(strip_separators(requested), header_map(header)),
    ensures
        ({
            let names = strip_separators(requested);
            let ps = required_positions(requested, header)->0;
            let shown = project_all(rows, ps);
            &&& ps.len() == names.len()
            &&& forall|j: int|
                0 <= j < names.len() ==> 0 <= #[trigger] ps[j] < header.len() && column_names(
                    views(header),
                )[ps[j] as int] == names[j]
            &&& shown.len() == rows.len()
            &&& forall|i: int| 0 <= i < rows.len() ==> (#[trigger] shown[i]).len() == names.len()
            &&& forall|i: int, j: int|
                0 <= i < rows.len() && 0 <= j < names.len() ==> #[trigger] shown[i][j] == cell(
                    rows[i],
                    ps[j] as int,
                )
        }),
{
    let names = strip_separators(requested);
    let ps = required_positions(requested, header)->0;
    let shown = project_all(rows, ps);
    lemma_projection_keeps_request_order(Seq::empty(), requested, header);
    assert forall|j: int| 0 <= j < names.len() implies 0 <= #[trigger] ps[j] < header.len() && column_names(
        views(header),
    )[ps[j] as int] == names[j] by {
        let p = ps[j] as int;
        assert(0 <= p < header.len() && column_names(views(header))[p] == names[j]);
    }
    assert forall|i: int| 0 <= i < rows.len() implies (#[trigger] shown[i]).len() == names.len() by {
        assert(shown[i] == project(rows[i], ps));
    }
    assert forall|i: int, j: int| 0 <= i < rows.len() && 0 <= j < names.len() implies #[trigger] shown[i][j]
        == cell(rows[i], ps[j] as int) by {
        assert(shown[i] == project(rows[i], ps));
    }
}

/// `SELECT *` shows full-width rows unchanged: every column, in header order.
pub proof fn lemma_select_all_rows_keep_header_order(rows: Seq<Seq<Seq<char>>>, header: Seq<String>)
    requires
        header.len() <= usize::MAX,
        forall|i: int| 0 <= i < rows.len() ==> (#[trigger] rows[i]).len() == header.len(),
    ensures
        project_all(rows, all_positions(header.len())) == rows,
{
    assert forall|i: int| 0 <= i < rows.len() implies #[trigger] project_all(rows, all_positions(header.len()))[i]
        == rows[i] by {
        lemma_select_all_keeps_header_order(rows[i], header);
    }
    assert(project_all(rows, all_positions(header.len())) =~= rows);
}

} // verus!

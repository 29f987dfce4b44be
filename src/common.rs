//! The field index map built from a table's header, and the helpers shared
//! by the statement kinds: splitting a line into fields, resolving the
//! requested columns and validating the target table.
use vstd::prelude::*;
use crate::error::{ErrorKind, MiniSQLError};
use crate::text::{chars_of, join_tokens, joined, split_on, split_text, views};

verus! {

/// The map from each entry's name to its position; a later entry for the
/// same name replaces an earlier one.
pub open spec fn entries_map(entries: Seq<(String, usize)>) -> Map<Seq<char>, usize>
    decreases entries.len(),
{
    if entries.len() == 0 {
        Map::empty()
    } else {
        entries_map(entries.drop_last()).insert(entries.last().0@, entries.last().1)
    }
}

/// Maps column names to their zero-based positions in a table's header.
pub struct FieldIndexMap {
    entries: Vec<(String, usize)>,
}

impl View for FieldIndexMap {
    type V = Map<Seq<char>, usize>;

    closed spec fn view(&self) -> Map<Seq<char>, usize> {
        entries_map(self.entries@)
    }
}

proof fn lemma_entries_map_unchanged(entries: Seq<(String, usize)>, k: int, name: Seq<char>)
    requires
        0 <= k <= entries.len(),
        forall|j: int| k <= j < entries.len() ==> (#[trigger] entries[j]).0@ != name,
    ensures
        entries_map(entries).contains_key(name) == entries_map(entries.take(k)).contains_key(name),
        entries_map(entries)[name] == entries_map(entries.take(k))[name],
    decreases entries.len(),
{
    if k == entries.len() {
        assert(entries.take(k) =~= entries);
    } else {
        assert(entries.drop_last().take(k) =~= entries.take(k));
        lemma_entries_map_unchanged(entries.drop_last(), k, name);
    }
}

impl FieldIndexMap {
    /// An empty map.
    pub fn new() -> (r: FieldIndexMap)
        ensures
            r@ == Map::<Seq<char>, usize>::empty(),
    {
        FieldIndexMap { entries: Vec::new() }
    }

    /// Maps `name` to `position`, replacing any earlier position of `name`.
    pub fn insert(&mut self, name: String, position: usize)
        ensures
            final(self)@ == old(self)@.insert(name@, position),
    {
        let ghost before = self.entries@;
        self.entries.push((name, position));
        proof {
            assert(self.entries@.drop_last() =~= before);
        }
    }

    /// The position of `name`, if the map holds it.
    pub fn get(&self, name: &str) -> (r: Option<usize>)
        ensures
            r == (if self@.contains_key(name@) {
                Some(self@[name@])
            } else {
                None
            }),
    {
        let mut i: usize = self.entries.len();
        while i > 0
            invariant
                i <= self.entries@.len(),
                forall|j: int| i <= j < self.entries@.len() ==> (#[trigger] self.entries@[j]).0@ != name@,
            decreases i,
        {
            if crate::text::compare_text(self.entries[i - 1].0.as_str(), name) == 0 {
                proof {
                    let es = self.entries@;
                    lemma_entries_map_unchanged(es, i as int, name@);
                    assert(es.take(i as int).drop_last() =~= es.take(i - 1));
                }
                return Some(self.entries[i - 1].1);
            }
            i = i - 1;
        }
        proof {
            lemma_entries_map_unchanged(self.entries@, 0, name@);
        }
        None
    }
}

/// `s` without one trailing line terminator.
pub open spec fn strip_terminator(s: Seq<char>) -> Seq<char> {
    if s.len() > 0 && s.last() == '\n' {
        s.drop_last()
    } else {
        s
    }
}

/// The column names of a header: its fields, the last one without a
/// trailing line terminator.
pub open spec fn column_names(header: Seq<Seq<char>>) -> Seq<Seq<char>> {
    if header.len() == 0 {
        header
    } else {
        header.update(header.len() - 1, strip_terminator(header.last()))
    }
}

/// Each name mapped to its position; for a repeated name the last position.
pub open spec fn index_map(names: Seq<Seq<char>>) -> Map<Seq<char>, usize>
    decreases names.len(),
{
    if names.len() == 0 {
        Map::empty()
    } else {
        index_map(names.drop_last()).insert(names.last(), (names.len() - 1) as usize)
    }
}

/// The table segment names exactly one non-empty table.
pub open spec fn table_ok(from: Seq<Seq<char>>) -> bool {
    from.len() == 1 && from[0].len() > 0
}

/// The message of the error for a table segment `from` that does not name
/// exactly one non-empty table.
pub open spec fn table_error_message(from: Seq<Seq<char>>) -> Seq<char> {
    if from.len() > 1 {
        "multiple references for table: "@ + joined(from, " "@) + " "@
    } else {
        "no table was given "@
    }
}

/// The field index map of a header row.
pub open spec fn header_map(header: Seq<String>) -> Map<Seq<char>, usize> {
    index_map(column_names(views(header)))
}

/// The fields of a data or header line.
pub open spec fn line_fields(line: Seq<char>) -> Seq<Seq<char>> {
    split_on(line, ',')
}

pub open spec fn is_separator(t: Seq<char>) -> bool {
    t == "("@ || t == ")"@ || t == ","@
}

/// The requested names without the `(`, `)` and `,` tokens between them.
pub open spec fn strip_separators(q: Seq<Seq<char>>) -> Seq<Seq<char>>
    decreases q.len(),
{
    if q.len() == 0 {
        q
    } else if is_separator(q.last()) {
        strip_separators(q.drop_last())
    } else {
        strip_separators(q.drop_last()).push(q.last())
    }
}

/// A projection of exactly `*`.
pub open spec fn selects_all(q: Seq<Seq<char>>) -> bool {
    q.len() == 1 && q[0] == "*"@
}

/// The positions `0 .. n`, in order.
pub open spec fn all_positions(n: nat) -> Seq<usize> {
    Seq::new(n, |i: int| i as usize)
}

/// Every name of `cols` is in `m`.
pub open spec fn all_resolve(cols: Seq<Seq<char>>, m: Map<Seq<char>, usize>) -> bool {
    forall|i: int| 0 <= i < cols.len() ==> m.contains_key(#[trigger] cols[i])
}

/// The positions of `cols` under `m`, in the order requested.
pub open spec fn resolve_all(cols: Seq<Seq<char>>, m: Map<Seq<char>, usize>) -> Seq<usize> {
    Seq::new(cols.len(), |i: int| m[cols[i]])
}

/// What resolving the requested columns `q` against `header` gives.
pub open spec fn required_positions(q: Seq<Seq<char>>, header: Seq<String>) -> Option<Seq<usize>> {
    if selects_all(q) {
        Some(all_positions(header.len()))
    } else if all_resolve(strip_separators(q), header_map(header)) {
        Some(resolve_all(strip_separators(q), header_map(header)))
    } else {
        None
    }
}

/// The position a name maps to holds that name.
pub proof fn lemma_index_map_position(names: Seq<Seq<char>>, k: Seq<char>)
    requires
        index_map(names).contains_key(k),
        names.len() <= usize::MAX,
    ensures
        (index_map(names)[k] as int) < names.len(),
        names[index_map(names)[k] as int] == k,
    decreases names.len(),
{
    if names.len() > 0 && names.last() != k {
        lemma_index_map_position(names.drop_last(), k);
    }
}

/// The first name of `cols` that `m` lacks (empty when there is none).
pub open spec fn first_missing(cols: Seq<Seq<char>>, m: Map<Seq<char>, usize>) -> Seq<char>
    decreases cols.len(),
{
    if cols.len() == 0 {
        Seq::empty()
    } else if !m.contains_key(cols[0]) {
        cols[0]
    } else {
        first_missing(cols.drop_first(), m)
    }
}

/// The message of the error for requested columns `q` that `header` does
/// not all hold: it names the first missing one.
pub open spec fn missing_field_message(q: Seq<Seq<char>>, header: Seq<String>) -> Seq<char> {
    "requested field [ "@ + first_missing(strip_separators(q), header_map(header))
        + " ] could not be found"@
}

proof fn lemma_strip_separators_concat(a: Seq<Seq<char>>, b: Seq<Seq<char>>)
    ensures
        strip_separators(a + b) == strip_separators(a) + strip_separators(b),
    decreases b.len(),
{
    if b.len() == 0 {
        assert(a + b =~= a);
        assert(strip_separators(a) + strip_separators(b) =~= strip_separators(a));
    } else {
        assert((a + b).drop_last() =~= a + b.drop_last());
        assert((a + b).last() == b.last());
        lemma_strip_separators_concat(a, b.drop_last());
        if !is_separator(b.last()) {
            assert(strip_separators(a) + strip_separators(b.drop_last()).push(b.last()) =~= (
            strip_separators(a) + strip_separators(b.drop_last())).push(b.last()));
        }
    }
}

proof fn lemma_first_missing_at(a: Seq<Seq<char>>, x: Seq<char>, rest: Seq<Seq<char>>, m: Map<Seq<char>, usize>)
    requires
        all_resolve(a, m),
        !m.contains_key(x),
    ensures
        first_missing(a + seq![x] + rest, m) == x,
    decreases a.len(),
{
    let whole = a + seq![x] + rest;
    if a.len() == 0 {
        assert(whole[0] == x);
    } else {
        assert(whole[0] == a[0]);
        assert(m.contains_key(a[0]));
        assert(whole.drop_first() =~= a.drop_first() + seq![x] + rest);
        assert(all_resolve(a.drop_first(), m)) by {
            assert forall|i: int| 0 <= i < a.drop_first().len() implies m.contains_key(
                #[trigger] a.drop_first()[i],
            ) by {
                assert(a.drop_first()[i] == a[i + 1]);
            }
        }
        lemma_first_missing_at(a.drop_first(), x, rest, m);
    }
}

proof fn lemma_index_map_bound(names: Seq<Seq<char>>, k: Seq<char>)
    requires
        index_map(names).contains_key(k),
    ensures
        (index_map(names)[k] as int) < names.len(),
    decreases names.len(),
{
    if names.len() > 0 && names.last() != k {
        lemma_index_map_bound(names.drop_last(), k);
    }
}

/// `s` without one trailing line terminator.
pub fn strip_line_end(s: &str) -> (r: String)
    ensures
        r@ == strip_terminator(s@),
{
    let cs = chars_of(s);
    let n = cs.len();
    if n > 0 && cs[n - 1] == '\n' {
        proof {
            assert(s@.subrange(0, n - 1) =~= s@.drop_last());
        }
        String::from_str(s.substring_char(0, n - 1))
    } else {
        String::from_str(s)
    }
}

/// Splits a line into its comma-separated fields.
pub fn format_to_csv(buffer: String) -> (r: Vec<String>)
    ensures
        views(r@) == line_fields(buffer@),
{
    split_text(buffer.as_str(), ',')
}

/// Builds the field index map of a header row: each column name maps to
/// its position, the last name taken without a trailing line terminator.
pub fn add_all_fields(headers: &[String]) -> (r: FieldIndexMap)
    ensures
        r@ == header_map(headers@),
{
    let ghost names = column_names(views(headers@));
    let n = headers.len();
    let mut r = FieldIndexMap::new();
    let mut i: usize = 0;
    proof {
        assert(names.take(0).len() == 0);
    }
    while i < n
        invariant
            n == headers@.len(),
            names == column_names(views(headers@)),
            i <= n,
            r@ == index_map(names.take(i as int)),
        decreases n - i,
    {
        let name = if i + 1 == n {
            strip_line_end(headers[i].as_str())
        } else {
            headers[i].clone()
        };
        proof {
            assert(names.take(i + 1).drop_last() =~= names.take(i as int));
            assert(names[i as int] == name@);
        }
        r.insert(name, i);
        i = i + 1;
    }
    proof {
        assert(names.take(n as int) =~= names);
    }
    r
}

/// The target table of a statement: its table segment must hold exactly one
/// non-empty token.
pub fn validate_table(from: Vec<String>) -> (r: Result<String, MiniSQLError>)
    ensures
        r is Ok <==> from@.len() == 1 && from@[0]@.len() > 0,
        r matches Ok(t) ==> t@ == from@[0]@,
        r matches Err(e) ==> e.kind() == ErrorKind::InvalidTable && e.msg() == table_error_message(
            views(from@),
        ),
{
    if from.len() > 1 {
        let mut msg = String::from_str("multiple references for table: ");
        msg.append(join_tokens(from.as_slice()).as_str());
        msg.append(" ");
        return Err(MiniSQLError::InvalidTable(msg));
    }
    if from.len() == 0 || from[0].as_str().unicode_len() == 0 {
        return Err(MiniSQLError::InvalidTable(String::from_str("no table was given ")));
    }
    Ok(from[0].clone())
}

/// Whether `t` is one of the `(`, `)`, `,` tokens that may stand between
/// requested names.
pub fn is_separator_token(t: &str) -> (r: bool)
    ensures
        r == is_separator(t@),
{
    crate::text::compare_text(t, "(") == 0 || crate::text::compare_text(t, ")") == 0
        || crate::text::compare_text(t, ",") == 0
}

/// The header positions of the requested columns, in the order requested:
/// every position for `*`, else the position of each requested name after
/// dropping separator tokens. A name missing from the header is an
/// `InvalidColumn` error naming the first such name.
pub fn get_required_fields(query_fields: &[String], headers: &[String]) -> (r: Result<
    Vec<usize>,
    MiniSQLError,
>)
    ensures
        selects_all(views(query_fields@)) ==> (r matches Ok(ps) && ps@ == all_positions(
            headers@.len(),
        )),
        !selects_all(views(query_fields@)) ==> {
            let cols = strip_separators(views(query_fields@));
            let m = header_map(headers@);
            &&& (r is Ok <==> all_resolve(cols, m))
            &&& (r matches Ok(ps) ==> ps@ == resolve_all(cols, m))
        },
        r matches Ok(ps) ==> forall|i: int| 0 <= i < ps@.len() ==> (ps@[i] as int) < headers@.len(),
        r matches Err(e) ==> e.kind() == ErrorKind::InvalidColumn && e.msg() == missing_field_message(
            views(query_fields@),
            headers@,
        ),
        r is Err <==> required_positions(views(query_fields@), headers@) is None,
        r matches Ok(ps) ==> required_positions(views(query_fields@), headers@) == Some(ps@),
{
    let n = headers.len();
    if query_fields.len() == 1 && crate::text::compare_text(query_fields[0].as_str(), "*") == 0 {
        let mut all: Vec<usize> = Vec::new();
        let mut i: usize = 0;
        while i < n
            invariant
                i <= n,
                n == headers@.len(),
                all@ == all_positions(i as nat),
            decreases n - i,
        {
            all.push(i);
            i = i + 1;
            proof {
                assert(all@ =~= all_positions(i as nat));
            }
        }
        proof {
            assert(selects_all(views(query_fields@)));
        }
        return Ok(all);
    }
    let map = add_all_fields(headers);
    let ghost q = views(query_fields@);
    let ghost m = header_map(headers@);
    assert(!selects_all(q));
    let mut ps: Vec<usize> = Vec::new();
    let mut i: usize = 0;
    while i < query_fields.len()
        invariant
            q == views(query_fields@),
            !selects_all(q),
            m == header_map(headers@),
            map@ == m,
            n == headers@.len(),
            i <= query_fields@.len(),
            all_resolve(strip_separators(q.take(i as int)), m),
            ps@ == resolve_all(strip_separators(q.take(i as int)), m),
            forall|j: int| 0 <= j < ps@.len() ==> (ps@[j] as int) < n,
        decreases query_fields@.len() - i,
    {
        proof {
            assert(q.take(i + 1).drop_last() =~= q.take(i as int));
        }
        let field = query_fields[i].as_str();
        if !is_separator_token(field) {
            match map.get(field) {
                Some(p) => {
                    proof {
                        lemma_index_map_bound(column_names(views(headers@)), field@);
                        assert(resolve_all(strip_separators(q.take(i + 1)), m) =~= ps@.push(p));
                    }
                    ps.push(p);
                },
                None => {
                    let mut msg = String::from_str("requested field [ ");
                    msg.append(field);
                    msg.append(" ] could not be found");
                    proof {
                        lemma_missing_stays_missing(q, i as int, m);
                        let x = q[i as int];
                        assert(x == field@);
                        assert(q =~= q.take(i as int) + (seq![x] + q.skip(i + 1)));
                        lemma_strip_separators_concat(q.take(i as int), seq![x] + q.skip(i + 1));
                        lemma_strip_separators_concat(seq![x], q.skip(i + 1));
                        assert(seq![x].drop_last() =~= Seq::<Seq<char>>::empty());
                        assert(strip_separators(Seq::<Seq<char>>::empty()) == Seq::<Seq<char>>::empty());
                        assert(!is_separator(x));
                        assert(seq![x].last() == x);
                        assert(strip_separators(seq![x]) == Seq::<Seq<char>>::empty().push(x));
                        assert(strip_separators(seq![x]) =~= seq![x]);
                        let a = strip_separators(q.take(i as int));
                        let b = strip_separators(q.skip(i + 1));
                        assert(strip_separators(q) =~= a + seq![x] + b);
                        lemma_first_missing_at(a, x, b, m);
                    }
                    return Err(MiniSQLError::InvalidColumn(msg));
                },
            }
        }
        i = i + 1;
    }
    proof {
        assert(q.take(query_fields@.len() as int) =~= q);
    }
    Ok(ps)
}

proof fn lemma_missing_stays_missing(q: Seq<Seq<char>>, i: int, m: Map<Seq<char>, usize>)
    requires
        0 <= i < q.len(),
        !is_separator(q[i]),
        !m.contains_key(q[i]),
    ensures
        !all_resolve(strip_separators(q), m),
    decreases q.len(),
{
    if i == q.len() - 1 {
        let s = strip_separators(q);
        assert(s.last() == q[i]);
    } else {
        lemma_missing_stays_missing(q.drop_last(), i, m);
        let s0 = strip_separators(q.drop_last());
        let j = choose|j: int| 0 <= j < s0.len() && !m.contains_key(#[trigger] s0[j]);
        let s = strip_separators(q);
        assert(s[j] == s0[j]);
    }
}

} // verus!

//! Whole statements: splitting a raw statement into tokens, and deciding
//! which kind of statement the tokens hold.
use vstd::prelude::*;
use crate::delete::{delete_outcome, new_delete, Delete};
use crate::error::{ErrorKind, MiniSQLError};
use crate::insert::{insert_outcome, new_insert, Insert};
use crate::select::{new_select, select_outcome, Select};
use crate::text::{is_keyword, keyword_match, split_on, split_text, views};
use crate::update::{new_update, update_outcome, Update};

verus! {

/// A character that separates tokens and is dropped: ASCII whitespace or `;`.
pub open spec fn is_break(c: char) -> bool {
    c == ' ' || c == '\t' || c == '\n' || c == '\r' || c == '\u{c}' || c == ';'
}

/// A character that forms a token of its own: `(`, `)` or `,`.
pub open spec fn is_punct(c: char) -> bool {
    c == '(' || c == ')' || c == ','
}

pub open spec fn is_word_char(c: char) -> bool {
    !is_break(c) && !is_punct(c)
}

/// The tokens of unquoted text: maximal runs of word characters, and each
/// `(`, `)`, `,` on its own, in order.
pub open spec fn seg_tokens(s: Seq<char>) -> Seq<Seq<char>>
    decreases s.len(),
{
    if s.len() == 0 {
        Seq::empty()
    } else {
        let w = seg_tokens(s.drop_last());
        let c = s.last();
        if is_break(c) {
            w
        } else if is_punct(c) {
            w.push(seq![c])
        } else if s.len() >= 2 && is_word_char(s[s.len() - 2]) {
            w.update(w.len() - 1, w.last().push(c))
        } else {
            w.push(seq![c])
        }
    }
}

/// The tokens of the `k`-th piece between single quotes: a quoted piece
/// (odd `k`) is one token as it stands.
pub open spec fn part_tokens(p: Seq<char>, k: int) -> Seq<Seq<char>> {
    if k % 2 == 0 {
        seg_tokens(p)
    } else {
        seq![p]
    }
}

pub open spec fn tokens_of_parts(parts: Seq<Seq<char>>) -> Seq<Seq<char>>
    decreases parts.len(),
{
    if parts.len() == 0 {
        Seq::empty()
    } else {
        tokens_of_parts(parts.drop_last()) + part_tokens(parts.last(), parts.len() - 1)
    }
}

/// The tokens of a raw statement.
pub open spec fn statement_tokens(s: Seq<char>) -> Seq<Seq<char>> {
    tokens_of_parts(split_on(s, '\''))
}

proof fn lemma_seg_tokens_nonempty(s: Seq<char>)
    requires
        s.len() > 0,
        is_word_char(s.last()),
    ensures
        seg_tokens(s).len() > 0,
    decreases s.len(),
{
    if s.len() >= 2 && is_word_char(s[s.len() - 2]) {
        assert(s.drop_last().last() == s[s.len() - 2]);
        lemma_seg_tokens_nonempty(s.drop_last());
    }
}

/// Appends the tokens of the unquoted text `s` to `out`.
fn push_segment_tokens(s: &str, out: &mut Vec<String>)
    ensures
        views(final(out)@) == views(old(out)@) + seg_tokens(s@),
{
    let ghost base = views(out@);
    let cs = crate::text::chars_of(s);
    let n = cs.len();
    let mut in_word = false;
    let mut ws: usize = 0;
    let mut i: usize = 0;
    proof {
        assert(s@.take(0) =~= Seq::<char>::empty());
        assert(views(out@) + Seq::<Seq<char>>::empty() =~~= base + seg_tokens(s@.take(0)));
    }
    while i < n
        invariant
            cs@ == s@,
            n == s@.len(),
            i <= n,
            ws <= i,
            in_word <==> (i > 0 && is_word_char(s@[i - 1])),
            views(out@) + (if in_word {
                seq![s@.subrange(ws as int, i as int)]
            } else {
                Seq::empty()
            }) == base + seg_tokens(s@.take(i as int)),
        decreases n - i,
    {
        let c = cs[i];
        let ghost t = s@.take(i + 1);
        proof {
            assert(t.drop_last() =~= s@.take(i as int));
            assert(t.last() == c);
            if i > 0 {
                assert(t[t.len() - 2] == s@[i - 1]);
            }
        }
        if c == ' ' || c == '\t' || c == '\n' || c == '\r' || c == '\u{c}' || c == ';' {
            if in_word {
                let w = String::from_str(s.substring_char(ws, i));
                proof {
                    assert(views(out@.push(w)) =~~= views(out@).push(w@));
                    assert(views(out@).push(w@) + Seq::<Seq<char>>::empty() =~~= views(out@) + seq![w@]);
                }
                out.push(w);
            } else {
                proof {
                    assert(views(out@) + Seq::<Seq<char>>::empty() =~~= views(out@));
                }
            }
            in_word = false;
        } else if c == '(' || c == ')' || c == ',' {
            let ghost before = views(out@) + (if in_word {
                seq![s@.subrange(ws as int, i as int)]
            } else {
                Seq::empty()
            });
            if in_word {
                let w = String::from_str(s.substring_char(ws, i));
                proof {
                    assert(views(out@.push(w)) =~~= views(out@).push(w@));
                    assert(views(out@) + seq![w@] =~~= views(out@).push(w@));
                }
                out.push(w);
            } else {
                proof {
                    assert(views(out@) + Seq::<Seq<char>>::empty() =~~= views(out@));
                }
            }
            let p = String::from_str(s.substring_char(i, i + 1));
            proof {
                assert(p@ =~= seq![c]);
                assert(views(out@.push(p)) =~~= views(out@).push(p@));
                assert(views(out@.push(p)) + Seq::<Seq<char>>::empty() =~~= before.push(seq![c]));
                assert(base + seg_tokens(s@.take(i as int)).push(seq![c]) =~~= (base + seg_tokens(s@.take(i as int))).push(seq![c]));
            }
            out.push(p);
            in_word = false;
        } else {
            if in_word {
                proof {
                    lemma_seg_tokens_nonempty(s@.take(i as int));
                    let w = seg_tokens(s@.take(i as int));
                    let lhs = views(out@) + seq![s@.subrange(ws as int, i as int)];
                    assert(lhs.last() == s@.subrange(ws as int, i as int));
                    assert((base + w).last() == w.last());
                    assert(s@.subrange(ws as int, i + 1) =~= s@.subrange(ws as int, i as int).push(c));
                    assert(views(out@) + seq![s@.subrange(ws as int, i + 1)] =~~= (base + w).update(
                        (base + w).len() - 1,
                        w.last().push(c),
                    ));
                    assert((base + w).update((base + w).len() - 1, w.last().push(c)) =~~= base + w.update(
                        w.len() - 1,
                        w.last().push(c),
                    ));
                }
            } else {
                ws = i;
                proof {
                    assert(s@.subrange(i as int, i + 1) =~= seq![c]);
                    assert(views(out@) + Seq::<Seq<char>>::empty() =~~= views(out@));
                    assert(views(out@) + seq![seq![c]] =~~= views(out@).push(seq![c]));
                    assert(base + seg_tokens(s@.take(i as int)).push(seq![c]) =~~= (base + seg_tokens(
                        s@.take(i as int),
                    )).push(seq![c]));
                }
            }
            in_word = true;
        }
        i = i + 1;
    }
    proof {
        assert(s@.take(n as int) =~= s@);
    }
    if in_word {
        let w = String::from_str(s.substring_char(ws, n));
        proof {
            assert(views(out@.push(w)) =~~= views(out@).push(w@));
            assert(views(out@) + seq![w@] =~~= views(out@).push(w@));
        }
        out.push(w);
    } else {
        proof {
            assert(views(out@) + Seq::<Seq<char>>::empty() =~~= views(out@));
        }
    }
}

/// Splits a raw statement into tokens. Text between single quotes is one
/// token, without its quotes; elsewhere ASCII whitespace and `;` separate
/// tokens, and each `(`, `)` and `,` is a token of its own.
pub fn standardize_sentence(sentence: String) -> (r: Vec<String>)
    ensures
        views(r@) == statement_tokens(sentence@),
{
    let parts = split_text(sentence.as_str(), '\'');
    let ghost ps = views(parts@);
    let mut out: Vec<String> = Vec::new();
    let mut k: usize = 0;
    proof {
        assert(ps.take(0) =~= Seq::<Seq<char>>::empty());
        assert(views(out@) =~~= Seq::<Seq<char>>::empty());
    }
    while k < parts.len()
        invariant
            ps == views(parts@),
            ps == split_on(sentence@, '\''),
            k <= ps.len(),
            views(out@) == tokens_of_parts(ps.take(k as int)),
        decreases ps.len() - k,
    {
        proof {
            assert(ps.take(k + 1).drop_last() =~= ps.take(k as int));
            assert(ps.take(k + 1).last() == parts@[k as int]@);
        }
        if k % 2 == 0 {
            push_segment_tokens(parts[k].as_str(), &mut out);
        } else {
            let ghost before = views(out@);
            out.push(parts[k].clone());
            proof {
                assert(views(out@) =~~= before + seq![parts@[k as int]@]);
            }
        }
        k = k + 1;
    }
    proof {
        assert(ps.take(ps.len() as int) =~= ps);
    }
    out
}

/// A decoded statement of one of the four kinds.
pub enum Statement {
    Select(Select),
    Insert(Insert),
    Update(Update),
    Delete(Delete),
}

/// Decodes a statement's tokens by its first token, `SELECT`, `INSERT`,
/// `UPDATE` or `DELETE` in any ASCII case. No token is an `InvalidTable`
/// error, any other first token an `InvalidSyntax` error.
pub fn decode_statement(sentence: Vec<String>) -> (r: Result<Statement, MiniSQLError>)
    ensures
        sentence@.len() == 0 ==> (r matches Err(e) && e.kind() == ErrorKind::InvalidTable),
        sentence@.len() > 0 ==> {
            let t = views(sentence@);
            if keyword_match(t[0], "SELECT"@) {
                match r {
                    Ok(Statement::Select(s)) => select_outcome(t, Ok(s)),
                    Ok(_) => false,
                    Err(e) => select_outcome(t, Err(e)),
                }
            } else if keyword_match(t[0], "DELETE"@) {
                match r {
                    Ok(Statement::Delete(d)) => delete_outcome(t, Ok(d)),
                    Ok(_) => false,
                    Err(e) => delete_outcome(t, Err(e)),
                }
            } else if keyword_match(t[0], "INSERT"@) {
                match r {
                    Ok(Statement::Insert(i)) => insert_outcome(t, Ok(i)),
                    Ok(_) => false,
                    Err(e) => insert_outcome(t, Err(e)),
                }
            } else if keyword_match(t[0], "UPDATE"@) {
                match r {
                    Ok(Statement::Update(u)) => update_outcome(t, Ok(u)),
                    Ok(_) => false,
                    Err(e) => update_outcome(t, Err(e)),
                }
            } else {
                r matches Err(e) && e.kind() == ErrorKind::InvalidSyntax
            }
        },
{
    if sentence.len() == 0 {
        return Err(MiniSQLError::InvalidTable(String::from_str("Empty statement")));
    }
    let first = sentence[0].as_str();
    if is_keyword(first, "SELECT") {
        match new_select(sentence) {
            Ok(s) => Ok(Statement::Select(s)),
            Err(e) => Err(e),
        }
    } else if is_keyword(first, "DELETE") {
        match new_delete(sentence) {
            Ok(d) => Ok(Statement::Delete(d)),
            Err(e) => Err(e),
        }
    } else if is_keyword(first, "INSERT") {
        match new_insert(sentence) {
            Ok(i) => Ok(Statement::Insert(i)),
            Err(e) => Err(e),
        }
    } else if is_keyword(first, "UPDATE") {
        match new_update(sentence) {
            Ok(u) => Ok(Statement::Update(u)),
            Err(e) => Err(e),
        }
    } else {
        let mut msg = String::from_str("Unable recognize statement: ");
        msg.append(first);
        Err(MiniSQLError::InvalidSyntax(msg))
    }
}

} // verus!

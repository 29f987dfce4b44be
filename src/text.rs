//! Character-level helpers on strings: views of token lists, joining,
//! splitting on a delimiter, quote removal, keyword matching, integer parsing
//! and ordinal comparison.
use vstd::prelude::*;

verus! {

/// The character sequences of a list of strings.
pub open spec fn views(v: Seq<String>) -> Seq<Seq<char>> {
    Seq::new(v.len(), |i: int| v[i]@)
}

/// `parts` joined with `sep` between consecutive elements.
pub open spec fn joined(parts: Seq<Seq<char>>, sep: Seq<char>) -> Seq<char>
    decreases parts.len(),
{
    if parts.len() == 0 {
        Seq::empty()
    } else if parts.len() == 1 {
        parts[0]
    } else {
        joined(parts.drop_last(), sep) + sep + parts.last()
    }
}

/// The pieces of `s` between occurrences of `sep` (one piece more than
/// there are separators).
pub open spec fn split_on(s: Seq<char>, sep: char) -> Seq<Seq<char>>
    decreases s.len(),
{
    if s.len() == 0 {
        seq![Seq::empty()]
    } else {
        let p = split_on(s.drop_last(), sep);
        if s.last() == sep {
            p.push(Seq::empty())
        } else {
            p.update(p.len() - 1, p.last().push(s.last()))
        }
    }
}

/// `s` with every single-quote character removed.
pub open spec fn unquoted(s: Seq<char>) -> Seq<char>
    decreases s.len(),
{
    if s.len() == 0 {
        s
    } else if s.last() == '\'' {
        unquoted(s.drop_last())
    } else {
        unquoted(s.drop_last()).push(s.last())
    }
}

/// `t` spells the upper-case ASCII keyword `kw`, ignoring ASCII case.
pub open spec fn keyword_match(t: Seq<char>, kw: Seq<char>) -> bool {
    &&& t.len() == kw.len()
    &&& forall|i: int|
        0 <= i < t.len() ==> #[trigger] t[i] == kw[i] || ('A' <= kw[i] <= 'Z' && t[i] as u32
            == kw[i] as u32 + 32)
}

/// Strict ordinal (code point by code point) order on character sequences.
pub open spec fn lex_lt(a: Seq<char>, b: Seq<char>) -> bool
    decreases a.len(),
{
    if a.len() == 0 {
        b.len() > 0
    } else if b.len() == 0 {
        false
    } else if a[0] != b[0] {
        a[0] < b[0]
    } else {
        lex_lt(a.drop_first(), b.drop_first())
    }
}

pub open spec fn is_digit(c: char) -> bool {
    '0' <= c <= '9'
}

pub open spec fn all_digits(s: Seq<char>) -> bool {
    forall|i: int| 0 <= i < s.len() ==> is_digit(#[trigger] s[i])
}

/// The decimal value of a string of digits.
pub open spec fn digits_value(s: Seq<char>) -> int
    decreases s.len(),
{
    if s.len() == 0 {
        0
    } else {
        digits_value(s.drop_last()) * 10 + (s.last() as u32 - '0' as u32)
    }
}

/// The integer that `s` spells: an optional `+` or `-` followed by one or
/// more decimal digits.
pub open spec fn int_text_value(s: Seq<char>) -> Option<int> {
    if s.len() > 1 && s[0] == '-' && all_digits(s.drop_first()) {
        Some(-digits_value(s.drop_first()))
    } else if s.len() > 1 && s[0] == '+' && all_digits(s.drop_first()) {
        Some(digits_value(s.drop_first()))
    } else if s.len() > 0 && all_digits(s) {
        Some(digits_value(s))
    } else {
        None
    }
}

/// What parsing `s` as a signed 32-bit integer gives: the value it spells
/// when that fits in `i32`, else nothing.
pub open spec fn parse_i32_spec(s: Seq<char>) -> Option<i32> {
    match int_text_value(s) {
        Some(v) => if i32::MIN <= v <= i32::MAX {
            Some(v as i32)
        } else {
            None
        },
        None => None,
    }
}

/// The characters of `s`, one per element.
pub fn chars_of(s: &str) -> (r: Vec<char>)
    ensures
        r@ == s@,
{
    let n = s.unicode_len();
    let mut r: Vec<char> = Vec::new();
    let mut i: usize = 0;
    while i < n
        invariant
            n == s@.len(),
            i <= n,
            r@ == s@.take(i as int),
        decreases n - i,
    {
        r.push(s.get_char(i));
        i = i + 1;
    }
    r
}

proof fn lemma_joined_push(parts: Seq<Seq<char>>, sep: Seq<char>, x: Seq<char>)
    requires
        parts.len() > 0,
    ensures
        joined(parts.push(x), sep) == joined(parts, sep) + sep + x,
{
    assert(parts.push(x).drop_last() =~= parts);
}

/// The strings of `parts` joined with `sep` between consecutive elements.
pub fn join_with(parts: &[String], sep: &str) -> (r: String)
    ensures
        r@ == joined(views(parts@), sep@),
{
    let mut out = String::new();
    let mut i: usize = 0;
    while i < parts.len()
        invariant
            i <= parts@.len(),
            out@ == joined(views(parts@.take(i as int)), sep@),
        decreases parts@.len() - i,
    {
        proof {
            assert(views(parts@.take(i + 1)) =~= views(parts@.take(i as int)).push(parts@[i as int]@));
            if i > 0 {
                lemma_joined_push(views(parts@.take(i as int)), sep@, parts@[i as int]@);
            } else {
                assert(views(parts@.take(1)).len() == 1);
            }
        }
        if i > 0 {
            out.append(sep);
        }
        out.append(parts[i].as_str());
        i = i + 1;
    }
    proof {
        assert(parts@.take(parts@.len() as int) =~= parts@);
    }
    out
}

/// The tokens of `parts` joined by single spaces, as error messages quote them.
pub fn join_tokens(parts: &[String]) -> (r: String)
    ensures
        r@ == joined(views(parts@), " "@),
{
    join_with(parts, " ")
}

/// The pieces of `s` between occurrences of `sep`, in order.
pub fn split_text(s: &str, sep: char) -> (r: Vec<String>)
    ensures
        views(r@) == split_on(s@, sep),
{
    let cs = chars_of(s);
    let n = cs.len();
    let mut r: Vec<String> = Vec::new();
    let mut start: usize = 0;
    let mut i: usize = 0;
    proof {
        assert(s@.take(0) =~= Seq::<char>::empty());
        assert(views(r@).push(s@.subrange(0, 0)) =~~= seq![Seq::<char>::empty()]);
    }
    while i < n
        invariant
            cs@ == s@,
            n == s@.len(),
            start <= i <= n,
            views(r@).push(s@.subrange(start as int, i as int)) == split_on(s@.take(i as int), sep),
        decreases n - i,
    {
        proof {
            assert(s@.take(i + 1).drop_last() =~= s@.take(i as int));
        }
        if cs[i] == sep {
            let piece = String::from_str(s.substring_char(start, i));
            proof {
                assert(views(r@.push(piece)) =~~= views(r@).push(piece@));
                assert(views(r@.push(piece)).push(s@.subrange(i + 1, i + 1)) =~~= views(r@).push(
                    s@.subrange(start as int, i as int),
                ).push(Seq::empty()));
            }
            r.push(piece);
            start = i + 1;
        } else {
            proof {
                let p = views(r@).push(s@.subrange(start as int, i as int));
                assert(p.update(p.len() - 1, p.last().push(s@[i as int])) =~~= views(r@).push(
                    s@.subrange(start as int, i + 1),
                ));
            }
        }
        i = i + 1;
    }
    let piece = String::from_str(s.substring_char(start, n));
    proof {
        assert(s@.take(n as int) =~= s@);
        assert(views(r@.push(piece)) =~~= views(r@).push(piece@));
    }
    r.push(piece);
    r
}

/// `s` with every single-quote character removed.
pub fn unquote(s: &str) -> (r: String)
    ensures
        r@ == unquoted(s@),
{
    let cs = chars_of(s);
    let n = cs.len();
    let mut out = String::new();
    let mut start: usize = 0;
    let mut i: usize = 0;
    while i < n
        invariant
            cs@ == s@,
            n == s@.len(),
            start <= i <= n,
            out@ + s@.subrange(start as int, i as int) == unquoted(s@.take(i as int)),
        decreases n - i,
    {
        proof {
            assert(s@.take(i + 1).drop_last() =~= s@.take(i as int));
        }
        if cs[i] == '\'' {
            out.append(s.substring_char(start, i));
            proof {
                assert(out@ + s@.subrange(i + 1, i + 1) =~= out@);
            }
            start = i + 1;
        } else {
            proof {
                assert(s@.subrange(start as int, i + 1) =~= s@.subrange(start as int, i as int).push(
                    s@[i as int],
                ));
                assert(out@ + s@.subrange(start as int, i + 1) =~= (out@ + s@.subrange(
                    start as int,
                    i as int,
                )).push(s@[i as int]));
            }
        }
        i = i + 1;
    }
    out.append(s.substring_char(start, n));
    proof {
        assert(s@.take(n as int) =~= s@);
    }
    out
}

/// Whether `t` spells the upper-case ASCII keyword `kw`, ignoring ASCII case.
pub fn is_keyword(t: &str, kw: &str) -> (r: bool)
    ensures
        r == keyword_match(t@, kw@),
{
    let tc = chars_of(t);
    let kc = chars_of(kw);
    if tc.len() != kc.len() {
        return false;
    }
    let mut i: usize = 0;
    while i < tc.len()
        invariant
            tc@ == t@,
            kc@ == kw@,
            tc@.len() == kc@.len(),
            i <= tc@.len(),
            forall|j: int|
                0 <= j < i ==> #[trigger] t@[j] == kw@[j] || ('A' <= kw@[j] <= 'Z' && t@[j] as u32
                    == kw@[j] as u32 + 32),
        decreases tc@.len() - i,
    {
        let a = tc[i];
        let b = kc[i];
        if !(a == b || ('A' <= b && b <= 'Z' && a as u32 == b as u32 + 32)) {
            return false;
        }
        i = i + 1;
    }
    true
}

proof fn lemma_lex_step(a: Seq<char>, b: Seq<char>, i: int)
    requires
        0 <= i < a.len(),
        i < b.len(),
        a[i] == b[i],
    ensures
        lex_lt(a.skip(i), b.skip(i)) == lex_lt(a.skip(i + 1), b.skip(i + 1)),
{
    assert(a.skip(i).drop_first() =~= a.skip(i + 1));
    assert(b.skip(i).drop_first() =~= b.skip(i + 1));
}

/// Compares `a` and `b` ordinally: negative when `a` comes first, zero when
/// they are equal, positive when `b` comes first.
pub fn compare_text(a: &str, b: &str) -> (r: i8)
    ensures
        (r < 0) == lex_lt(a@, b@),
        (r == 0) == (a@ == b@),
        (r > 0) == lex_lt(b@, a@),
{
    let ac = chars_of(a);
    let bc = chars_of(b);
    let mut i: usize = 0;
    proof {
        assert(a@.skip(0) =~= a@);
        assert(b@.skip(0) =~= b@);
    }
    while i < ac.len() && i < bc.len() && ac[i] == bc[i]
        invariant
            ac@ == a@,
            bc@ == b@,
            i <= a@.len(),
            i <= b@.len(),
            a@.take(i as int) == b@.take(i as int),
            lex_lt(a@, b@) == lex_lt(a@.skip(i as int), b@.skip(i as int)),
            lex_lt(b@, a@) == lex_lt(b@.skip(i as int), a@.skip(i as int)),
        decreases a@.len() - i,
    {
        proof {
            lemma_lex_step(a@, b@, i as int);
            lemma_lex_step(b@, a@, i as int);
            assert(a@.take(i + 1) =~= a@.take(i as int).push(a@[i as int]));
            assert(b@.take(i + 1) =~= b@.take(i as int).push(b@[i as int]));
        }
        i = i + 1;
    }
    proof {
        assert(a@.skip(0) =~= a@);
        assert(b@.skip(0) =~= b@);
    }
    if i == ac.len() && i == bc.len() {
        proof {
            assert(a@ =~= a@.take(i as int));
            assert(b@ =~= b@.take(i as int));
        }
        0
    } else if i == ac.len() {
        proof {
            assert(a@ =~= a@.take(i as int));
            assert(b@ != a@) by {
                assert(b@.len() != a@.len());
            }
        }
        -1
    } else if i == bc.len() {
        proof {
            assert(b@ =~= b@.take(i as int));
            assert(b@.len() != a@.len());
        }
        1
    } else if ac[i] < bc[i] {
        proof {
            assert(a@[i as int] != b@[i as int]);
        }
        -1
    } else {
        proof {
            assert(a@[i as int] != b@[i as int]);
            assert(a@.skip(i as int)[0] == a@[i as int]);
            assert(b@.skip(i as int)[0] == b@[i as int]);
        }
        1
    }
}

proof fn lemma_digits_prefix(t: Seq<char>, k: int)
    requires
        all_digits(t),
        0 <= k <= t.len(),
    ensures
        0 <= digits_value(t.take(k)) <= digits_value(t),
    decreases t.len(),
{
    if k == t.len() {
        assert(t.take(k) =~= t);
        if t.len() > 0 {
            lemma_digits_prefix(t.drop_last(), k - 1);
            assert(t.drop_last().take(k - 1) =~= t.drop_last());
        }
    } else {
        assert(t.drop_last().take(k) =~= t.take(k));
        lemma_digits_prefix(t.drop_last(), k);
        assert(is_digit(t[t.len() - 1]));
    }
}

/// Parses `s` as a signed 32-bit decimal integer: an optional `+` or `-`
/// followed by one or more digits, with a value that fits in `i32`.
pub fn parse_i32(s: &str) -> (r: Option<i32>)
    ensures
        r == parse_i32_spec(s@),
{
    let cs = chars_of(s);
    let n = cs.len();
    if n == 0 {
        return None;
    }
    let mut negative = false;
    let mut start: usize = 0;
    if cs[0] == '-' {
        negative = true;
        start = 1;
    } else if cs[0] == '+' {
        start = 1;
    }
    if start == n {
        return None;
    }
    let ghost digits = s@.subrange(start as int, n as int);
    proof {
        if start == 1 {
            assert(digits =~= s@.drop_first());
        } else {
            assert(digits =~= s@);
        }
    }
    let mut acc: i64 = 0;
    let mut i: usize = start;
    proof {
        assert(s@.subrange(start as int, start as int) =~= Seq::<char>::empty());
    }
    while i < n
        invariant
            cs@ == s@,
            n == s@.len(),
            start <= i <= n,
            start < n,
            start == 0 || start == 1,
            start == 1 <==> (s@[0] == '-' || s@[0] == '+'),
            negative <==> s@[0] == '-',
            digits == s@.subrange(start as int, n as int),
            start == 1 ==> digits == s@.drop_first(),
            start == 0 ==> digits == s@,
            all_digits(s@.subrange(start as int, i as int)),
            acc == digits_value(s@.subrange(start as int, i as int)),
            0 <= acc <= 2147483648,
        decreases n - i,
    {
        let c = cs[i];
        if !('0' <= c && c <= '9') {
            proof {
                assert(!is_digit(digits[i - start]));
                if start == 0 {
                    assert(!all_digits(s@));
                } else {
                    assert(!all_digits(s@.drop_first()));
                    assert(!is_digit(s@[0]));
                    assert(!all_digits(s@));
                }
            }
            return None;
        }
        let d: i64 = (c as u32 - '0' as u32) as i64;
        proof {
            let sub = s@.subrange(start as int, i + 1);
            assert(sub.drop_last() =~= s@.subrange(start as int, i as int));
            assert(sub.last() == c);
        }
        let next: i64 = acc * 10 + d;
        if next > 2147483648 {
            proof {
                if all_digits(digits) {
                    assert(digits.take(i + 1 - start) =~= s@.subrange(start as int, i + 1));
                    lemma_digits_prefix(digits, i + 1 - start);
                }
                if start == 1 {
                    assert(!is_digit(s@[0]));
                    assert(!all_digits(s@));
                }
            }
            return None;
        }
        acc = next;
        i = i + 1;
    }
    proof {
        assert(s@.subrange(start as int, n as int) == digits);
        if start == 1 {
            assert(!is_digit(s@[0]));
            assert(!all_digits(s@));
        }
    }
    if negative {
        Some((-acc) as i32)
    } else if acc <= 2147483647 {
        Some(acc as i32)
    } else {
        None
    }
}

/// The ordinal order is a strict total order: irreflexive, asymmetric and
/// total on distinct sequences.
pub proof fn lemma_lex_total(a: Seq<char>, b: Seq<char>)
    ensures
        !lex_lt(a, a),
        !(lex_lt(a, b) && lex_lt(b, a)),
        a != b ==> (lex_lt(a, b) || lex_lt(b, a)),
    decreases a.len(),
{
    if a.len() == 0 {
        if b.len() == 0 {
            assert(a =~= b);
        }
    } else {
        lemma_lex_total(a.drop_first(), a.drop_first());
        if b.len() > 0 {
            lemma_lex_total(a.drop_first(), b.drop_first());
            if a[0] == b[0] && a.drop_first() == b.drop_first() {
                assert forall|i: int| 0 <= i < a.len() implies a[i] == b[i] by {
                    if i > 0 {
                        assert(a[i] == a.drop_first()[i - 1]);
                        assert(b[i] == b.drop_first()[i - 1]);
                    }
                }
                assert(a =~= b);
            }
        }
    }
}

/// The decimal digits of `n`, most significant first.
pub open spec fn decimal(n: nat) -> Seq<char>
    decreases n,
{
    if n < 10 {
        seq!["0123456789"@[n as int]]
    } else {
        decimal(n / 10) + seq!["0123456789"@[(n % 10) as int]]
    }
}

/// The decimal text of `n`.
pub fn decimal_text(n: usize) -> (r: String)
    ensures
        r@ == decimal(n as nat),
    decreases n,
{
    proof {
        reveal_strlit("0123456789");
    }
    let digits = "0123456789";
    if n < 10 {
        String::from_str(digits.substring_char(n, n + 1))
    } else {
        let mut out = decimal_text(n / 10);
        let d = n % 10;
        let last = digits.substring_char(d, d + 1);
        proof {
            assert(last@ =~= seq!["0123456789"@[d as int]]);
        }
        out.append(last);
        out
    }
}

} // verus!

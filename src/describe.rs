//! Human-readable text for conditions, such as `country == "IN" and tier == "gold"`.
use vstd::prelude::*;
use vstd::string::{StrSliceExecFns, StringExecFns};
use crate::json::{Json, JsonV, views, member_views, lemma_views, lemma_member_views, index_of, find_member};
use crate::text::{text_of, to_text};
use crate::priority::var_key;
use crate::predicate::{op_in, op_and, string_chars};

verus! {

pub open spec fn invalid_text() -> Seq<char> {
    seq!['I', 'n', 'v', 'a', 'l', 'i', 'd', ' ', 'C', 'o', 'n', 'd', 'i', 't', 'i', 'o', 'n']
}

pub open spec fn and_text() -> Seq<char> {
    seq![' ', 'a', 'n', 'd', ' ']
}

/// A string operand in double quotes (as it is, unescaped); any other
/// operand as its compact JSON text.
pub open spec fn operand_text(v: JsonV) -> Seq<char> {
    match v {
        JsonV::Str(s) => seq!['"'] + s + seq!['"'],
        _ => text_of(v),
    }
}

/// The dimension that an operand names, when it is an object whose `var`
/// member is a string.
pub open spec fn var_name(v: JsonV) -> Option<Seq<char>> {
    match v {
        JsonV::Object(ms) => {
            let i = index_of(ms, var_key());
            if i >= 0 {
                match ms[i].1 {
                    JsonV::Str(s) => Some(s),
                    _ => None,
                }
            } else {
                None
            }
        },
        _ => None,
    }
}

/// The operands of a clause: its first member's value when that is an
/// array, else none.
pub open spec fn operands_of(ms: Seq<(Seq<char>, JsonV)>) -> Seq<JsonV> {
    match ms[0].1 {
        JsonV::Array(a) => a,
        _ => Seq::empty(),
    }
}

/// An `in` clause has at least two operands.
pub open spec fn formattable(c: JsonV) -> bool {
    match c {
        JsonV::Object(ms) => ms.len() > 0 && ms[0].0 == op_in() ==> operands_of(ms).len() >= 2,
        _ => true,
    }
}

/// One clause as text: `value in dimension` for an `in` whose second
/// operand names a dimension, else `dimension op value` when the first
/// operand names a dimension and a second follows, else `Invalid Condition`.
pub open spec fn clause_text(c: JsonV) -> Seq<char> {
    match c {
        JsonV::Object(ms) => if ms.len() == 0 {
            invalid_text()
        } else {
            let op = ms[0].0;
            let xs = operands_of(ms);
            if op == op_in() && var_name(xs[1]) is Some {
                operand_text(xs[0]) + seq![' '] + op + seq![' '] + var_name(xs[1])->Some_0
            } else if xs.len() >= 2 && var_name(xs[0]) is Some {
                var_name(xs[0])->Some_0 + seq![' '] + op + seq![' '] + operand_text(xs[1])
            } else {
                invalid_text()
            }
        },
        _ => invalid_text(),
    }
}

/// The texts of the clauses, joined by ` and `.
pub open spec fn clauses_text(cs: Seq<JsonV>) -> Seq<char>
    decreases cs.len(),
{
    if cs.len() == 0 {
        Seq::empty()
    } else if cs.len() == 1 {
        clause_text(cs[0])
    } else {
        clauses_text(cs.drop_last()) + and_text() + clause_text(cs.last())
    }
}

/// The clauses of an `and` member, when there is one; `None` otherwise.
pub open spec fn and_clauses(c: JsonV) -> Option<Seq<JsonV>> {
    match c {
        JsonV::Object(ms) => {
            let i = index_of(ms, op_and());
            if i < 0 {
                None
            } else {
                Some(
                    match ms[i].1 {
                        JsonV::Array(a) => a,
                        _ => Seq::empty(),
                    },
                )
            }
        },
        _ => None,
    }
}

/// Every clause that will be formatted is formattable.
pub open spec fn condition_formattable(c: JsonV) -> bool {
    match and_clauses(c) {
        Some(cs) => forall|i: int| 0 <= i < cs.len() ==> formattable(#[trigger] cs[i]),
        None => formattable(c),
    }
}

/// The text of a condition: its `and` clauses joined by ` and `, or the
/// condition as one clause.
pub open spec fn condition_text(c: JsonV) -> Seq<char> {
    match and_clauses(c) {
        Some(cs) => clauses_text(cs),
        None => clause_text(c),
    }
}

/// Relies on `FromIterator<char>` for `String`: the string of these
/// characters, in order.
#[verifier::external_body]
fn string_of_chars(cs: &Vec<char>) -> (r: String)
    ensures
        r@ == cs@,
{
    cs.iter().collect()
}

fn push_seq(out: &mut Vec<char>, s: &[char])
    ensures
        final(out)@ == old(out)@ + s@,
{
    let mut i: usize = 0;
    while i < s.len()
        invariant
            i <= s.len(),
            out@ == old(out)@ + s@.subrange(0, i as int),
        decreases s.len() - i,
    {
        out.push(s[i]);
        i = i + 1;
        assert(out@ =~= old(out)@ + s@.subrange(0, i as int));
    }
    assert(s@.subrange(0, s.len() as int) =~= s@);
}

fn write_operand(v: &Json, out: &mut Vec<char>)
    ensures
        final(out)@ == old(out)@ + operand_text(v@),
{
    match v {
        Json::Str(s) => {
            let cs = string_chars(s);
            out.push('"');
            push_seq(out, cs.as_slice());
            out.push('"');
            assert(final(out)@ =~= old(out)@ + operand_text(v@));
        },
        _ => {
            let t = to_text(v);
            push_seq(out, t.as_slice());
        },
    }
}

fn var_of(v: &Json) -> (r: Option<&String>)
    ensures
        r matches Some(s) ==> var_name(v@) == Some(s@),
        r is None ==> var_name(v@) is None,
{
    match v {
        Json::Object(ms) => {
            let name = String::from_str("var");
            proof {
                reveal_strlit("var");
                assert(name@ =~= var_key());
                lemma_member_views(ms@);
            }
            match find_member(ms, &name) {
                Some(i) => match &ms[i].value {
                    Json::Str(s) => Some(s),
                    _ => None,
                },
                None => None,
            }
        },
        _ => None,
    }
}

fn equals_chars(s: &String, lit: &[char]) -> (r: bool)
    ensures
        r == (s@ == lit@),
{
    let t = s.as_str();
    let n = t.unicode_len();
    if n != lit.len() {
        return false;
    }
    let mut i: usize = 0;
    while i < n
        invariant
            i <= n,
            n == s@.len(),
            n == lit@.len(),
            t@ == s@,
            forall|j: int| 0 <= j < i ==> s@[j] == lit@[j],
        decreases n - i,
    {
        if t.get_char(i) != lit[i] {
            return false;
        }
        i = i + 1;
    }
    assert(s@ =~= lit@);
    true
}

fn write_clause(c: &Json, out: &mut Vec<char>)
    requires
        formattable(c@),
    ensures
        final(out)@ == old(out)@ + clause_text(c@),
{
    let invalid = ['I', 'n', 'v', 'a', 'l', 'i', 'd', ' ', 'C', 'o', 'n', 'd', 'i', 't', 'i', 'o', 'n'];
    assert(invalid@ =~= invalid_text());
    let ms = match c {
        Json::Object(ms) => ms,
        _ => {
            push_seq(out, &invalid);
            return;
        },
    };
    proof {
        lemma_member_views(ms@);
    }
    if ms.len() == 0 {
        push_seq(out, &invalid);
        return;
    }
    let op = &ms[0].key;
    let empty: Vec<Json> = Vec::new();
    let xs: &Vec<Json> = match &ms[0].value {
        Json::Array(a) => a,
        _ => &empty,
    };
    proof {
        lemma_views(xs@);
        assert(views(empty@) =~= Seq::<JsonV>::empty());
        assert(operands_of(member_views(ms@)) == views(xs@));
    }
    let opc = string_chars(op);
    let is_in = equals_chars(op, &['i', 'n']);
    assert(is_in == (op@ == op_in())) by {
        if op@ == op_in() {
            assert(op@ =~= seq!['i', 'n']);
        }
    }
    if is_in {
        match var_of(&xs[1]) {
            Some(d) => {
                write_operand(&xs[0], out);
                out.push(' ');
                push_seq(out, opc.as_slice());
                out.push(' ');
                let dc = string_chars(d);
                push_seq(out, dc.as_slice());
                assert(final(out)@ =~= old(out)@ + clause_text(c@));
                return;
            },
            None => {},
        }
    }
    if xs.len() >= 2 {
        match var_of(&xs[0]) {
            Some(d) => {
                let dc = string_chars(d);
                push_seq(out, dc.as_slice());
                out.push(' ');
                push_seq(out, opc.as_slice());
                out.push(' ');
                write_operand(&xs[1], out);
                assert(final(out)@ =~= old(out)@ + clause_text(c@));
                return;
            },
            None => {},
        }
    }
    push_seq(out, &invalid);
}

/// Formats a condition for display: the clauses of its `and` member joined
/// by ` and `, or the condition as a single clause.
pub fn extract_and_format(condition: &Json) -> (r: String)
    requires
        condition_formattable(condition@),
    ensures
        r@ == condition_text(condition@),
{
    let mut out: Vec<char> = Vec::new();
    let and_items: Option<&Vec<Json>> = match condition {
        Json::Object(ms) => {
            let name = String::from_str("and");
            proof {
                reveal_strlit("and");
                assert(name@ =~= op_and());
                lemma_member_views(ms@);
            }
            match find_member(ms, &name) {
                Some(i) => match &ms[i].value {
                    Json::Array(a) => Some(a),
                    _ => None,
                },
                None => None,
            }
        },
        _ => None,
    };
    let empty: Vec<Json> = Vec::new();
    let is_and: bool = match condition {
        Json::Object(ms) => {
            let name = String::from_str("and");
            proof {
                reveal_strlit("and");
                assert(name@ =~= op_and());
            }
            find_member(ms, &name).is_some()
        },
        _ => false,
    };
    if is_and {
        let items: &Vec<Json> = match and_items {
            Some(a) => a,
            None => &empty,
        };
        let ghost cs = views(items@);
        proof {
            lemma_views(items@);
            assert(views(empty@) =~= Seq::<JsonV>::empty());
            assert(and_clauses(condition@) == Some(cs));
            assert(condition_formattable(condition@));
            assert forall|j: int| 0 <= j < cs.len() implies formattable(#[trigger] cs[j]) by {
                let cs0 = and_clauses(condition@)->Some_0;
                assert(cs0 == cs);
                assert(formattable(cs0[j]));
            }
            assert(cs.subrange(0, 0) =~= Seq::<JsonV>::empty());
        }
        let mut i: usize = 0;
        while i < items.len()
            invariant
                i <= items.len(),
                cs == views(items@),
                cs.len() == items.len(),
                forall|j: int| 0 <= j < items.len() ==> #[trigger] cs[j] == items@[j]@,
                forall|j: int| 0 <= j < cs.len() ==> formattable(#[trigger] cs[j]),
                out@ == clauses_text(cs.subrange(0, i as int)),
            decreases items.len() - i,
        {
            let ghost post = cs.subrange(0, i as int + 1);
            proof {
                assert(post.drop_last() =~= cs.subrange(0, i as int));
                assert(post.last() == cs[i as int]);
            }
            if i > 0 {
                let sep = vec![' ', 'a', 'n', 'd', ' '];
                assert(sep@ =~= and_text());
                push_seq(&mut out, sep.as_slice());
            }
            assert(formattable(items@[i as int]@));
            write_clause(&items[i], &mut out);
            proof {
                if i == 0 {
                    assert(post[0] == cs[0]);
                }
                assert(out@ =~= clauses_text(post));
            }
            i = i + 1;
        }
        assert(cs.subrange(0, items.len() as int) =~= cs);
    } else {
        write_clause(condition, &mut out);
        assert(out@ =~= condition_text(condition@));
    }
    string_of_chars(&out)
}


/// `pat` occurs in `s` at position `i`.
pub open spec fn occurs_at(s: Seq<char>, pat: Seq<char>, i: int) -> bool {
    0 <= i && i + pat.len() <= s.len() && s.subrange(i, i + pat.len()) == pat
}

/// The first position from `i` on where `pat` occurs in `s`, or -1.
pub open spec fn find_from(s: Seq<char>, pat: Seq<char>, i: int) -> int
    decreases s.len() + 1 - i,
{
    if i < 0 || i + pat.len() > s.len() {
        -1
    } else if occurs_at(s, pat, i) {
        i
    } else {
        find_from(s, pat, i + 1)
    }
}

/// The pieces of `s` between the occurrences of a non-empty `pat`, found
/// from left to right without overlap.
pub open spec fn split(s: Seq<char>, pat: Seq<char>) -> Seq<Seq<char>>
    decreases s.len(),
{
    let i = find_from(s, pat, 0);
    if pat.len() == 0 || i < 0 || i + pat.len() > s.len() {
        seq![s]
    } else {
        seq![s.subrange(0, i)] + split(s.subrange(i + pat.len(), s.len() as int), pat)
    }
}

/// The characters with the Unicode `White_Space` property.
pub open spec fn is_space(c: char) -> bool {
    ('\t' <= c && c <= '\r') || c == ' ' || c == '\u{85}' || c == '\u{a0}' || c == '\u{1680}' || (
    '\u{2000}' <= c && c <= '\u{200a}') || c == '\u{2028}' || c == '\u{2029}' || c == '\u{202f}'
        || c == '\u{205f}' || c == '\u{3000}'
}

pub open spec fn trim_start(s: Seq<char>) -> Seq<char>
    decreases s.len(),
{
    if s.len() > 0 && is_space(s[0]) {
        trim_start(s.drop_first())
    } else {
        s
    }
}

pub open spec fn trim_end(s: Seq<char>) -> Seq<char>
    decreases s.len(),
{
    if s.len() > 0 && is_space(s.last()) {
        trim_end(s.drop_last())
    } else {
        s
    }
}

/// `s` without leading and trailing white space.
pub open spec fn trim(s: Seq<char>) -> Seq<char> {
    trim_end(trim_start(s))
}

pub open spec fn op_eq_text() -> Seq<char> {
    seq!['=', '=']
}

pub open spec fn op_ne_text() -> Seq<char> {
    seq!['!', '=']
}

/// The operator a clause uses: the first of `==`, `in`, `!=` that occurs in it.
pub open spec fn clause_operator(c: Seq<char>) -> Option<Seq<char>> {
    if find_from(c, op_eq_text(), 0) >= 0 {
        Some(op_eq_text())
    } else if find_from(c, op_in(), 0) >= 0 {
        Some(op_in())
    } else if find_from(c, op_ne_text(), 0) >= 0 {
        Some(op_ne_text())
    } else {
        None
    }
}

/// A clause `dimension op value`, when splitting at its operator gives
/// exactly two pieces; both are trimmed.
pub open spec fn parse_clause(c: Seq<char>) -> Option<(Seq<char>, Seq<char>, Seq<char>)> {
    match clause_operator(c) {
        Some(op) => {
            let parts = split(c, op);
            if parts.len() == 2 {
                Some((trim(parts[0]), op, trim(parts[1])))
            } else {
                None
            }
        },
        None => None,
    }
}

/// The clauses that parse, in order.
pub open spec fn parse_clauses(pieces: Seq<Seq<char>>) -> Seq<(Seq<char>, Seq<char>, Seq<char>)>
    decreases pieces.len(),
{
    if pieces.len() == 0 {
        Seq::empty()
    } else {
        let rest = parse_clauses(pieces.drop_last());
        match parse_clause(pieces.last()) {
            Some(t) => rest.push(t),
            None => rest,
        }
    }
}

/// The clauses of a condition written as text, split at every `and`.
pub open spec fn parsed_conditions(input: Seq<char>) -> Seq<(Seq<char>, Seq<char>, Seq<char>)> {
    parse_clauses(split(input, and_word()))
}

pub open spec fn and_word() -> Seq<char> {
    seq!['a', 'n', 'd']
}

/// The first position where `pat` occurs in `s`.
fn find_text(s: &Vec<char>, pat: &[char]) -> (r: Option<usize>)
    ensures
        r matches Some(i) ==> i as int == find_from(s@, pat@, 0) && i + pat@.len() <= s@.len(),
        r is None ==> find_from(s@, pat@, 0) == -1,
{
    if pat.len() > s.len() {
        return None;
    }
    let last = s.len() - pat.len();
    let mut i: usize = 0;
    while i <= last
        invariant
            pat.len() <= s.len(),
            last == s.len() - pat.len(),
            i <= last + 1,
            find_from(s@, pat@, 0) == find_from(s@, pat@, i as int),
        decreases last + 1 - i,
    {
        let mut j: usize = 0;
        let mut same = true;
        while j < pat.len()
            invariant
                i + pat.len() <= s.len(),
                j <= pat.len(),
                same ==> forall|k: int| 0 <= k < j ==> s@[i + k] == pat@[k],
                !same ==> s@.subrange(i as int, i + pat.len()) != pat@,
            decreases pat.len() - j,
        {
            if s[i + j] != pat[j] {
                same = false;
                assert(s@.subrange(i as int, i + pat.len())[j as int] != pat@[j as int]);
            }
            j = j + 1;
        }
        if same {
            assert(s@.subrange(i as int, i + pat.len()) =~= pat@);
            return Some(i);
        }
        if i == last {
            assert(find_from(s@, pat@, i as int + 1) == -1);
            return None;
        }
        i = i + 1;
    }
    None
}

fn subrange_of(s: &Vec<char>, from: usize, to: usize) -> (r: Vec<char>)
    requires
        from <= to <= s.len(),
    ensures
        r@ == s@.subrange(from as int, to as int),
{
    let mut out: Vec<char> = Vec::new();
    let mut k: usize = from;
    while k < to
        invariant
            from <= k <= to <= s.len(),
            out@ == s@.subrange(from as int, k as int),
        decreases to - k,
    {
        out.push(s[k]);
        k = k + 1;
        assert(out@ =~= s@.subrange(from as int, k as int));
    }
    out
}

/// The pieces of `s` between the occurrences of `pat`.
fn split_text(s: &Vec<char>, pat: &[char]) -> (r: Vec<Vec<char>>)
    requires
        pat@.len() > 0,
    ensures
        r@.len() == split(s@, pat@).len(),
        forall|i: int| 0 <= i < r@.len() ==> #[trigger] r@[i]@ == split(s@, pat@)[i],
{
    let mut out: Vec<Vec<char>> = Vec::new();
    let mut rest: Vec<char> = subrange_of(s, 0, s.len());
    assert(s@.subrange(0, s@.len() as int) =~= s@);
    let ghost done: Seq<Seq<char>> = Seq::empty();
    loop
        invariant
            pat@.len() > 0,
            out@.len() == done.len(),
            forall|i: int| 0 <= i < done.len() ==> #[trigger] out@[i]@ == done[i],
            done + split(rest@, pat@) == split(s@, pat@),
        decreases rest@.len(),
    {
        match find_text(&rest, pat) {
            None => {
                let ghost last = rest@;
                out.push(rest);
                proof {
                    assert(split(last, pat@) == seq![last]);
                    assert(done.push(last) =~= done + split(last, pat@));
                    done = done.push(last);
                }
                assert(done == split(s@, pat@));
                return out;
            },
            Some(i) => {
                assert(i + pat@.len() <= rest@.len());
                assert(pat@.len() == pat.len());
                assert(rest@.len() == rest.len());
                assert(i + pat.len() <= rest.len());
                let piece = subrange_of(&rest, 0, i);
                let next = subrange_of(&rest, i + pat.len(), rest.len());
                proof {
                    assert(split(rest@, pat@) == seq![piece@] + split(next@, pat@));
                    assert(done + split(rest@, pat@) =~= done.push(piece@) + split(next@, pat@));
                    done = done.push(piece@);
                }
                out.push(piece);
                rest = next;
            },
        }
    }
}

fn is_space_char(c: char) -> (r: bool)
    ensures
        r == is_space(c),
{
    ('\t' <= c && c <= '\r') || c == ' ' || c == '\u{85}' || c == '\u{a0}' || c == '\u{1680}' || (
    '\u{2000}' <= c && c <= '\u{200a}') || c == '\u{2028}' || c == '\u{2029}' || c == '\u{202f}'
        || c == '\u{205f}' || c == '\u{3000}'
}

/// `s` without leading and trailing white space.
fn trim_text(s: &Vec<char>) -> (r: Vec<char>)
    ensures
        r@ == trim(s@),
{
    let mut a: usize = 0;
    assert(s@.subrange(0, s@.len() as int) =~= s@);
    while a < s.len() && is_space_char(s[a])
        invariant
            a <= s.len(),
            trim_start(s@) == trim_start(s@.subrange(a as int, s@.len() as int)),
        decreases s.len() - a,
    {
        assert(s@.subrange(a as int, s@.len() as int).drop_first() =~= s@.subrange(a as int + 1, s@.len() as int));
        a = a + 1;
    }
    let ghost t = s@.subrange(a as int, s@.len() as int);
    assert(trim_start(s@) == t);
    let mut b: usize = s.len();
    assert(t.subrange(0, t.len() as int) =~= t);
    while b > a && is_space_char(s[b - 1])
        invariant
            a <= b <= s.len(),
            t == s@.subrange(a as int, s@.len() as int),
            trim_end(t) == trim_end(s@.subrange(a as int, b as int)),
        decreases b,
    {
        assert(s@.subrange(a as int, b as int).drop_last() =~= s@.subrange(a as int, b as int - 1));
        b = b - 1;
    }
    subrange_of(s, a, b)
}

fn op_text(code: u8) -> (r: (Vec<char>, String))
    requires
        code < 3,
    ensures
        r.0@ == r.1@,
        code == 0 ==> r.1@ == op_eq_text(),
        code == 1 ==> r.1@ == op_in(),
        code == 2 ==> r.1@ == op_ne_text(),
{
    let cs = if code == 0 {
        vec!['=', '=']
    } else if code == 1 {
        vec!['i', 'n']
    } else {
        vec!['!', '=']
    };
    let s = string_of_chars(&cs);
    proof {
        if code == 0 {
            assert(s@ =~= op_eq_text());
        } else if code == 1 {
            assert(s@ =~= op_in());
        } else {
            assert(s@ =~= op_ne_text());
        }
    }
    (cs, s)
}

/// Parses a condition written as clauses `dimension op value` joined by
/// `and`, with `op` one of `==`, `in`, `!=`; a piece without exactly one
/// occurrence of its operator is left out.
pub fn parse_conditions(input: String) -> (r: Vec<(String, String, String)>)
    ensures
        r@.len() == parsed_conditions(input@).len(),
        forall|i: int|
            0 <= i < r@.len() ==> (#[trigger] r@[i]).0@ == parsed_conditions(input@)[i].0
                && r@[i].1@ == parsed_conditions(input@)[i].1 && r@[i].2@ == parsed_conditions(
                input@,
            )[i].2,
{
    let chars = string_chars(&input);
    let pieces = split_text(&chars, &['a', 'n', 'd']);
    let ghost ps = split(input@, and_word());
    assert(ps.len() == pieces@.len());
    let mut out: Vec<(String, String, String)> = Vec::new();
    let mut i: usize = 0;
    assert(ps.subrange(0, 0) =~= Seq::<Seq<char>>::empty());
    while i < pieces.len()
        invariant
            i <= pieces.len(),
            ps.len() == pieces@.len(),
            ps == split(input@, and_word()),
            forall|j: int| 0 <= j < pieces@.len() ==> #[trigger] pieces@[j]@ == ps[j],
            out@.len() == parse_clauses(ps.subrange(0, i as int)).len(),
            forall|j: int|
                0 <= j < out@.len() ==> (#[trigger] out@[j]).0@ == parse_clauses(ps.subrange(0, i as int))[j].0
                    && out@[j].1@ == parse_clauses(ps.subrange(0, i as int))[j].1 && out@[j].2@
                    == parse_clauses(ps.subrange(0, i as int))[j].2,
        decreases pieces.len() - i,
    {
        let piece = &pieces[i];
        let ghost c = ps[i as int];
        let ghost post = ps.subrange(0, i as int + 1);
        let ghost before = parse_clauses(ps.subrange(0, i as int));
        proof {
            assert(post.drop_last() =~= ps.subrange(0, i as int));
            assert(post.last() == c);
        }
        let mut code: u8 = 3;
        let mut k: u8 = 0;
        while k < 3
            invariant
                k <= 3,
                code == 3 || code < k,
                piece@ == c,
                k >= 1 && code == 3 ==> find_from(c, op_eq_text(), 0) < 0,
                k >= 2 && code == 3 ==> find_from(c, op_in(), 0) < 0,
                code == 0 ==> find_from(c, op_eq_text(), 0) >= 0,
                code == 1 ==> find_from(c, op_eq_text(), 0) < 0 && find_from(c, op_in(), 0) >= 0,
                code == 2 ==> find_from(c, op_eq_text(), 0) < 0 && find_from(c, op_in(), 0) < 0
                    && find_from(c, op_ne_text(), 0) >= 0,
                k == 3 && code == 3 ==> find_from(c, op_ne_text(), 0) < 0,
            decreases 3 - k,
        {
            if code == 3 {
                let (oc, _) = op_text(k);
                if find_text(piece, oc.as_slice()).is_some() {
                    code = k;
                }
            }
            k = k + 1;
        }
        if code < 3 {
            let (oc, os) = op_text(code);
            let parts = split_text(piece, oc.as_slice());
            if parts.len() == 2 {
                let left = trim_text(&parts[0]);
                let right = trim_text(&parts[1]);
                let t = (string_of_chars(&left), os, string_of_chars(&right));
                proof {
                    assert(clause_operator(c) == Some(os@));
                }
                out.push(t);
            } else {
                proof {
                    assert(clause_operator(c) == Some(os@));
                }
            }
        }
        proof {
            assert(parse_clauses(post) == match parse_clause(c) {
                Some(t) => before.push(t),
                None => before,
            });
            assert forall|j: int| 0 <= j < out@.len() implies (#[trigger] out@[j]).0@ == parse_clauses(post)[j].0
                && out@[j].1@ == parse_clauses(post)[j].1 && out@[j].2@ == parse_clauses(post)[j].2 by {
                if j < before.len() {
                    assert(parse_clauses(post)[j] == before[j]);
                }
            }
        }
        i = i + 1;
    }
    assert(ps.subrange(0, pieces.len() as int) =~= ps);
    out
}

} // verus!

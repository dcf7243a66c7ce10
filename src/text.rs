//! The compact JSON text of a document: no whitespace, members in the order
//! they were written, strings escaped as RFC 8259 requires. Equal documents
//! have equal text, which makes the text fit for content hashing.
//!
//! The writer lives here rather than going through `serde_json::to_string`
//! because it must follow this library's member order (a `serde_json::Map`
//! sorts keys) and because its result is what ids are hashed from, so its
//! exact characters are part of the contracts.
use vstd::prelude::*;
use vstd::string::StrSliceExecFns;
use crate::json::{Json, JsonV, views, member_views, lemma_views, lemma_member_views};

verus! {

/// The hexadecimal digit of `n` (lower case), for `n < 16`.
pub open spec fn hex_digit(n: int) -> char {
    if n == 0 { '0' } else if n == 1 { '1' } else if n == 2 { '2' } else if n == 3 { '3' }
    else if n == 4 { '4' } else if n == 5 { '5' } else if n == 6 { '6' } else if n == 7 { '7' }
    else if n == 8 { '8' } else if n == 9 { '9' } else if n == 10 { 'a' } else if n == 11 { 'b' }
    else if n == 12 { 'c' } else if n == 13 { 'd' } else if n == 14 { 'e' } else { 'f' }
}

/// The decimal digits of `n`, most significant first.
pub open spec fn nat_text(n: nat) -> Seq<char>
    decreases n,
{
    if n < 10 {
        seq![hex_digit(n as int)]
    } else {
        nat_text(n / 10).push(hex_digit((n % 10) as int))
    }
}

pub open spec fn int_text(n: int) -> Seq<char> {
    if n < 0 {
        seq!['-'] + nat_text((-n) as nat)
    } else {
        nat_text(n as nat)
    }
}

/// How one character of a string appears between the quotes.
pub open spec fn escape(c: char) -> Seq<char> {
    if c == '"' {
        seq!['\\', '"']
    } else if c == '\\' {
        seq!['\\', '\\']
    } else if c == '\n' {
        seq!['\\', 'n']
    } else if c == '\r' {
        seq!['\\', 'r']
    } else if c == '\t' {
        seq!['\\', 't']
    } else if c == '\x08' {
        seq!['\\', 'b']
    } else if c == '\x0c' {
        seq!['\\', 'f']
    } else if (c as u32) < 0x20 {
        seq!['\\', 'u', '0', '0', hex_digit((c as u32) as int / 16), hex_digit((c as u32) as int % 16)]
    } else {
        seq![c]
    }
}

pub open spec fn escaped(s: Seq<char>) -> Seq<char>
    decreases s.len(),
{
    if s.len() == 0 {
        Seq::empty()
    } else {
        escaped(s.drop_last()) + escape(s.last())
    }
}

pub open spec fn quoted(s: Seq<char>) -> Seq<char> {
    seq!['"'] + escaped(s) + seq!['"']
}

/// The text of a document.
pub open spec fn text_of(j: JsonV) -> Seq<char>
    decreases j,
{
    match j {
        JsonV::Null => seq!['n', 'u', 'l', 'l'],
        JsonV::Bool(b) => if b { seq!['t', 'r', 'u', 'e'] } else { seq!['f', 'a', 'l', 's', 'e'] },
        JsonV::Int(n) => int_text(n),
        JsonV::Str(s) => quoted(s),
        JsonV::Array(items) => seq!['['] + items_text(items) + seq![']'],
        JsonV::Object(ms) => seq!['{'] + members_text(ms) + seq!['}'],
    }
}

/// The texts of `items`, separated by commas.
pub open spec fn items_text(items: Seq<JsonV>) -> Seq<char>
    decreases items,
{
    if items.len() == 0 {
        Seq::empty()
    } else if items.len() == 1 {
        text_of(items[0])
    } else {
        items_text(items.drop_last()) + seq![','] + text_of(items.last())
    }
}

/// The `"key":value` texts of `ms`, separated by commas.
pub open spec fn members_text(ms: Seq<(Seq<char>, JsonV)>) -> Seq<char>
    decreases ms,
{
    if ms.len() == 0 {
        Seq::empty()
    } else if ms.len() == 1 {
        quoted(ms[0].0) + seq![':'] + text_of(ms[0].1)
    } else {
        members_text(ms.drop_last()) + seq![','] + quoted(ms.last().0) + seq![':'] + text_of(ms.last().1)
    }
}

fn push_all(out: &mut Vec<char>, s: &[char])
    ensures
        final(out)@ == old(out)@ + s@,
{
    let mut i: usize = 0;
    while i < s.len()
        invariant
            i <= s.len(),
            out@ == old(out)@ + s@.subrange(0, i as int),
        decreases s.len() - i,
    {
        out.push(s[i]);
        i = i + 1;
        assert(out@ =~= old(out)@ + s@.subrange(0, i as int));
    }
    assert(s@.subrange(0, s.len() as int) =~= s@);
}

fn hex_char(n: u32) -> (c: char)
    requires
        n < 16,
    ensures
        c == hex_digit(n as int),
{
    if n == 0 { '0' } else if n == 1 { '1' } else if n == 2 { '2' } else if n == 3 { '3' }
    else if n == 4 { '4' } else if n == 5 { '5' } else if n == 6 { '6' } else if n == 7 { '7' }
    else if n == 8 { '8' } else if n == 9 { '9' } else if n == 10 { 'a' } else if n == 11 { 'b' }
    else if n == 12 { 'c' } else if n == 13 { 'd' } else if n == 14 { 'e' } else { 'f' }
}

fn write_nat(n: u64, out: &mut Vec<char>)
    ensures
        final(out)@ == old(out)@ + nat_text(n as nat),
    decreases n,
{
    if n >= 10 {
        write_nat(n / 10, out);
    }
    let d = hex_char((n % 10) as u32);
    out.push(d);
    proof {
        if n >= 10 {
            assert(final(out)@ =~= old(out)@ + nat_text(n as nat));
        } else {
            assert(final(out)@ =~= old(out)@ + nat_text(n as nat));
        }
    }
}

fn write_int(n: i64, out: &mut Vec<char>)
    ensures
        final(out)@ == old(out)@ + int_text(n as int),
{
    if n < 0 {
        out.push('-');
        let m: u64 = (0i128 - (n as i128)) as u64;
        write_nat(m, out);
        assert(final(out)@ =~= old(out)@ + int_text(n as int));
    } else {
        write_nat(n as u64, out);
    }
}

fn write_escaped_char(c: char, out: &mut Vec<char>)
    ensures
        final(out)@ == old(out)@ + escape(c),
{
    if c == '"' {
        push_all(out, &['\\', '"']);
    } else if c == '\\' {
        push_all(out, &['\\', '\\']);
    } else if c == '\n' {
        push_all(out, &['\\', 'n']);
    } else if c == '\r' {
        push_all(out, &['\\', 'r']);
    } else if c == '\t' {
        push_all(out, &['\\', 't']);
    } else if c == '\x08' {
        push_all(out, &['\\', 'b']);
    } else if c == '\x0c' {
        push_all(out, &['\\', 'f']);
    } else if (c as u32) < 0x20 {
        let hi = hex_char((c as u32) / 16);
        let lo = hex_char((c as u32) % 16);
        push_all(out, &['\\', 'u', '0', '0', hi, lo]);
    } else {
        out.push(c);
    }
    assert(final(out)@ =~= old(out)@ + escape(c));
}

fn write_quoted(s: &String, out: &mut Vec<char>)
    ensures
        final(out)@ == old(out)@ + quoted(s@),
{
    out.push('"');
    let t = s.as_str();
    let n = t.unicode_len();
    let mut i: usize = 0;
    let ghost start = out@;
    while i < n
        invariant
            i <= n,
            n == s@.len(),
            t@ == s@,
            start == old(out)@.push('"'),
            out@ == start + escaped(s@.subrange(0, i as int)),
        decreases n - i,
    {
        let c = t.get_char(i);
        write_escaped_char(c, out);
        proof {
            assert(s@.subrange(0, i as int + 1).drop_last() =~= s@.subrange(0, i as int));
            assert(out@ =~= start + escaped(s@.subrange(0, i as int + 1)));
        }
        i = i + 1;
    }
    out.push('"');
    assert(s@.subrange(0, n as int) =~= s@);
    assert(out@ =~= old(out)@ + quoted(s@));
}


/// Appends the text of `j` to `out`.
#[verifier::loop_isolation(false)]
pub fn write_text(j: &Json, out: &mut Vec<char>)
    ensures
        final(out)@ == old(out)@ + text_of(j@),
    decreases j,
{
    match j {
        Json::Null => push_all(out, &['n', 'u', 'l', 'l']),
        Json::Bool(b) => {
            if *b {
                push_all(out, &['t', 'r', 'u', 'e']);
            } else {
                push_all(out, &['f', 'a', 'l', 's', 'e']);
            }
        },
        Json::Int(n) => write_int(*n, out),
        Json::Str(s) => write_quoted(s, out),
        Json::Array(v) => {
            out.push('[');
            let ghost start = out@;
            proof {
                lemma_views(v@);
                assert(views(v@).subrange(0, 0) =~= Seq::<JsonV>::empty());
            }
            let mut i: usize = 0;
            while i < v.len()
                invariant
                    i <= v.len(),
                    out@ == start + items_text(views(v@).subrange(0, i as int)),
                decreases v.len() - i,
            {
                let ghost pre = views(v@).subrange(0, i as int);
                let ghost post = views(v@).subrange(0, i as int + 1);
                proof {
                    assert(post.drop_last() =~= pre);
                    assert(decreases_to!(*v => v[i as int]));
                }
                if i > 0 {
                    out.push(',');
                }
                write_text(&v[i], out);
                proof {
                    if i == 0 {
                        assert(post[0] == v@[0]@);
                    }
                    assert(out@ =~= start + items_text(post));
                }
                i = i + 1;
            }
            out.push(']');
            proof {
                assert(views(v@).subrange(0, v.len() as int) =~= views(v@));
                assert(out@ =~= old(out)@ + text_of(j@));
            }
        },
        Json::Object(ms) => {
            out.push('{');
            let ghost start = out@;
            proof {
                lemma_member_views(ms@);
                assert(member_views(ms@).subrange(0, 0) =~= Seq::<(Seq<char>, JsonV)>::empty());
            }
            let mut i: usize = 0;
            while i < ms.len()
                invariant
                    i <= ms.len(),
                    out@ == start + members_text(member_views(ms@).subrange(0, i as int)),
                decreases ms.len() - i,
            {
                let ghost pre = member_views(ms@).subrange(0, i as int);
                let ghost post = member_views(ms@).subrange(0, i as int + 1);
                proof {
                    assert(post.drop_last() =~= pre);
                    assert(decreases_to!(*ms => ms[i as int]));
                }
                if i > 0 {
                    out.push(',');
                }
                write_quoted(&ms[i].key, out);
                out.push(':');
                write_text(&ms[i].value, out);
                proof {
                    assert(post.last() == (ms@[i as int].key@, ms@[i as int].value@));
                    if i == 0 {
                        assert(post[0] == post.last());
                    }
                    assert(out@ =~= start + members_text(post));
                }
                i = i + 1;
            }
            out.push('}');
            proof {
                assert(member_views(ms@).subrange(0, ms.len() as int) =~= member_views(ms@));
                assert(out@ =~= old(out)@ + text_of(j@));
            }
        },
    }
    proof {
        assert(final(out)@ =~= old(out)@ + text_of(j@));
    }
}

/// The text of `j`.
pub fn to_text(j: &Json) -> (r: Vec<char>)
    ensures
        r@ == text_of(j@),
{
    let mut out: Vec<char> = Vec::new();
    write_text(j, &mut out);
    assert(out@ =~= text_of(j@));
    out
}

} // verus!

//! Evaluation of a condition against a runtime context.
use vstd::prelude::*;
use vstd::string::StrSliceExecFns;
use crate::json::{Json, JsonV, Member, views, member_views, lemma_views, lemma_member_views, deep_eq, index_of, find_member};
use crate::priority::var_key;

verus! {

/// The value of dimension `d` in the context; null when absent.
pub open spec fn lookup(ctx: Seq<(Seq<char>, JsonV)>, d: Seq<char>) -> JsonV {
    let i = index_of(ctx, d);
    if i < 0 {
        JsonV::Null
    } else {
        ctx[i].1
    }
}

/// Deep JSON equality: arrays compare element by element, objects as maps
/// from key to value (the value of a key is that of its first member, and
/// the order of members does not matter), anything else by value.
pub open spec fn json_equiv(a: JsonV, b: JsonV) -> bool
    decreases a,
{
    match a {
        JsonV::Array(x) => match b {
            JsonV::Array(y) => x.len() == y.len() && items_equiv(x, y),
            _ => false,
        },
        JsonV::Object(x) => match b {
            JsonV::Object(y) => members_covered(x, x, y) && keys_within(y, x),
            _ => false,
        },
        _ => a == b,
    }
}

/// Element by element, over the common length.
pub open spec fn items_equiv(x: Seq<JsonV>, y: Seq<JsonV>) -> bool
    decreases x,
{
    if x.len() == 0 || y.len() < x.len() {
        x.len() == 0
    } else {
        items_equiv(x.drop_last(), y.subrange(0, x.len() - 1)) && json_equiv(x.last(), y[x.len() - 1])
    }
}

/// Each member of the prefix `p` of `x` that is the first of its key in
/// `x` has a member of that key in `y` with an equal value.
pub open spec fn members_covered(
    x: Seq<(Seq<char>, JsonV)>,
    p: Seq<(Seq<char>, JsonV)>,
    y: Seq<(Seq<char>, JsonV)>,
) -> bool
    decreases p,
{
    if p.len() == 0 {
        true
    } else {
        members_covered(x, p.drop_last(), y) && (index_of(x, p.last().0) == p.len() - 1 ==> (
        index_of(y, p.last().0) >= 0 && json_equiv(p.last().1, y[index_of(y, p.last().0)].1)))
    }
}

/// Every key of `y` is a key of `x`.
pub open spec fn keys_within(y: Seq<(Seq<char>, JsonV)>, x: Seq<(Seq<char>, JsonV)>) -> bool {
    forall|j: int| 0 <= j < y.len() ==> index_of(x, (#[trigger] y[j]).0) >= 0
}

/// Some element of `h` equals `x` (by `json_equiv`).
pub open spec fn has_equal(h: Seq<JsonV>, x: JsonV) -> bool {
    exists|k: int| 0 <= k < h.len() && json_equiv(x, #[trigger] h[k])
}

/// `n` occurs in `h` as a contiguous run.
pub open spec fn is_substring(n: Seq<char>, h: Seq<char>) -> bool {
    exists|i: int| 0 <= i && i + n.len() <= h.len() && #[trigger] h.subrange(i, i + n.len()) == n
}

pub open spec fn op_and() -> Seq<char> { seq!['a', 'n', 'd'] }
pub open spec fn op_or() -> Seq<char> { seq!['o', 'r'] }
pub open spec fn op_eq() -> Seq<char> { seq!['=', '='] }
pub open spec fn op_ne() -> Seq<char> { seq!['!', '='] }
pub open spec fn op_in() -> Seq<char> { seq!['i', 'n'] }
pub open spec fn op_lt() -> Seq<char> { seq!['<'] }
pub open spec fn op_gt() -> Seq<char> { seq!['>'] }
pub open spec fn op_le() -> Seq<char> { seq!['<', '='] }
pub open spec fn op_ge() -> Seq<char> { seq!['>', '='] }

/// An operator other than `and`, `or` and `var` applied to the values of
/// its arguments; `None` for an unknown operator or a wrong number of
/// arguments.
pub open spec fn apply_op(op: Seq<char>, vs: Seq<JsonV>) -> Option<JsonV> {
    if vs.len() != 2 {
        None
    } else if op == op_eq() {
        Some(JsonV::Bool(json_equiv(vs[0], vs[1])))
    } else if op == op_ne() {
        Some(JsonV::Bool(!json_equiv(vs[0], vs[1])))
    } else if op == op_in() {
        Some(
            JsonV::Bool(
                match vs[1] {
                    JsonV::Array(h) => has_equal(h, vs[0]),
                    JsonV::Str(h) => match vs[0] {
                        JsonV::Str(n) => is_substring(n, h),
                        _ => false,
                    },
                    _ => false,
                },
            ),
        )
    } else if op == op_lt() || op == op_gt() || op == op_le() || op == op_ge() {
        Some(
            JsonV::Bool(
                match (vs[0], vs[1]) {
                    (JsonV::Int(a), JsonV::Int(b)) => if op == op_lt() {
                        a < b
                    } else if op == op_gt() {
                        a > b
                    } else if op == op_le() {
                        a <= b
                    } else {
                        a >= b
                    },
                    _ => false,
                },
            ),
        )
    } else {
        None
    }
}

/// The value of an expression in a context; `None` when it cannot be
/// evaluated. An object of one member `op: args` applies an operator, where
/// `var` takes a dimension name and every other operator an array of
/// arguments; any other document stands for itself.
pub open spec fn eval(ctx: Seq<(Seq<char>, JsonV)>, e: JsonV) -> Option<JsonV>
    decreases e,
{
    match e {
        JsonV::Object(ms) => if ms.len() != 1 {
            None
        } else if ms[0].0 == var_key() {
            match ms[0].1 {
                JsonV::Str(d) => Some(lookup(ctx, d)),
                _ => None,
            }
        } else {
            match ms[0].1 {
                JsonV::Array(args) => if ms[0].0 == op_and() {
                    eval_and(ctx, args)
                } else if ms[0].0 == op_or() {
                    eval_or(ctx, args)
                } else {
                    match eval_all(ctx, args) {
                        Some(vs) => apply_op(ms[0].0, vs),
                        None => None,
                    }
                },
                _ => None,
            }
        },
        _ => Some(e),
    }
}

/// `and` from left to right: the first argument that is not `true` makes
/// it `false`, and later arguments are not evaluated.
pub open spec fn eval_and(ctx: Seq<(Seq<char>, JsonV)>, args: Seq<JsonV>) -> Option<JsonV>
    decreases args,
{
    if args.len() == 0 {
        Some(JsonV::Bool(true))
    } else {
        match eval(ctx, args[0]) {
            None => None,
            Some(v) => if v != JsonV::Bool(true) {
                Some(JsonV::Bool(false))
            } else {
                eval_and(ctx, args.drop_first())
            },
        }
    }
}

/// `or` from left to right: the first argument that is `true` makes it
/// `true`, and later arguments are not evaluated.
pub open spec fn eval_or(ctx: Seq<(Seq<char>, JsonV)>, args: Seq<JsonV>) -> Option<JsonV>
    decreases args,
{
    if args.len() == 0 {
        Some(JsonV::Bool(false))
    } else {
        match eval(ctx, args[0]) {
            None => None,
            Some(v) => if v == JsonV::Bool(true) {
                Some(JsonV::Bool(true))
            } else {
                eval_or(ctx, args.drop_first())
            },
        }
    }
}

/// The values of all arguments, or `None` when one fails.
pub open spec fn eval_all(ctx: Seq<(Seq<char>, JsonV)>, args: Seq<JsonV>) -> Option<Seq<JsonV>>
    decreases args,
{
    if args.len() == 0 {
        Some(Seq::empty())
    } else {
        match eval_all(ctx, args.drop_last()) {
            None => None,
            Some(vs) => match eval(ctx, args.last()) {
                None => None,
                Some(v) => Some(vs.push(v)),
            },
        }
    }
}

/// A condition holds in a context when it evaluates to `true`.
pub open spec fn holds(ctx: Seq<(Seq<char>, JsonV)>, cond: JsonV) -> bool {
    eval(ctx, cond) == Some(JsonV::Bool(true))
}

fn equals_lit(s: &String, lit: &[char]) -> (r: bool)
    ensures
        r == (s@ == lit@),
{
    let t = s.as_str();
    let n = t.unicode_len();
    if n != lit.len() {
        return false;
    }
    let mut i: usize = 0;
    while i < n
        invariant
            i <= n,
            n == s@.len(),
            n == lit@.len(),
            t@ == s@,
            forall|j: int| 0 <= j < i ==> s@[j] == lit@[j],
        decreases n - i,
    {
        if t.get_char(i) != lit[i] {
            return false;
        }
        i = i + 1;
    }
    assert(s@ =~= lit@);
    true
}

/// Whether `n` occurs in `h` as a contiguous run.
pub fn contains_run(n: &Vec<char>, h: &Vec<char>) -> (r: bool)
    ensures
        r == is_substring(n@, h@),
{
    if n.len() > h.len() {
        return false;
    }
    if n.len() == 0 {
        assert(h@.subrange(0, 0 + n@.len() as int) =~= n@);
        return true;
    }
    let mut i: usize = 0;
    let last = h.len() - n.len();
    while i <= last
        invariant
            n.len() <= h.len(),
            n.len() >= 1,
            last == h.len() - n.len(),
            i <= last + 1,
            forall|k: int| 0 <= k < i ==> #[trigger] h@.subrange(k, k + n.len()) != n@,
        decreases last + 1 - i,
    {
        let mut j: usize = 0;
        let mut same = true;
        while j < n.len()
            invariant
                i + n.len() <= h.len(),
                j <= n.len(),
                same ==> forall|k: int| 0 <= k < j ==> h@[i + k] == n@[k],
                !same ==> h@.subrange(i as int, i + n.len()) != n@,
            decreases n.len() - j,
        {
            if h[i + j] != n[j] {
                same = false;
                assert(h@.subrange(i as int, i + n.len())[j as int] != n@[j as int]);
            }
            j = j + 1;
        }
        if same {
            assert(h@.subrange(i as int, i + n.len()) =~= n@);
            return true;
        }
        i = i + 1;
    }
    proof {
        assert forall|k: int| 0 <= k && k + n.len() <= h.len() implies #[trigger] h@.subrange(k, k + n.len()) != n@ by {}
    }
    false
}

pub fn string_chars(s: &String) -> (r: Vec<char>)
    ensures
        r@ == s@,
{
    let t = s.as_str();
    let n = t.unicode_len();
    let mut out: Vec<char> = Vec::new();
    let mut i: usize = 0;
    while i < n
        invariant
            i <= n,
            n == s@.len(),
            t@ == s@,
            out@ == s@.subrange(0, i as int),
        decreases n - i,
    {
        out.push(t.get_char(i));
        i = i + 1;
        assert(out@ =~= s@.subrange(0, i as int));
    }
    assert(out@ =~= s@);
    out
}


fn is_single(s: &String, c: char) -> (r: bool)
    ensures
        r == (s@ == seq![c]),
{
    let t = s.as_str();
    let r = t.unicode_len() == 1 && t.get_char(0) == c;
    proof {
        if r {
            assert(s@ =~= seq![c]);
        }
    }
    r
}

/// Whether `h` holds a document equal to `x` (by `json_equiv`).
fn array_contains(h: &Vec<Json>, x: &Json) -> (r: bool)
    ensures
        r == has_equal(views(h@), x@),
{
    proof {
        lemma_views(h@);
    }
    let mut i: usize = 0;
    while i < h.len()
        invariant
            i <= h.len(),
            views(h@).len() == h.len(),
            forall|j: int| 0 <= j < h.len() ==> #[trigger] views(h@)[j] == h@[j]@,
            forall|j: int| 0 <= j < i ==> !json_equiv(x@, #[trigger] views(h@)[j]),
        decreases h.len() - i,
    {
        if json_equal(x, &h[i]) {
            assert(json_equiv(x@, views(h@)[i as int]));
            return true;
        }
        i = i + 1;
    }
    false
}

/// Deep JSON equality of two documents, by `json_equiv`.
#[verifier::loop_isolation(false)]
pub fn json_equal(a: &Json, b: &Json) -> (r: bool)
    ensures
        r == json_equiv(a@, b@),
    decreases a,
{
    match (a, b) {
        (Json::Array(x), Json::Array(y)) => {
            let ghost xv = views(x@);
            let ghost yv = views(y@);
            proof {
                lemma_views(x@);
                lemma_views(y@);
            }
            assert(a@ == JsonV::Array(xv) && b@ == JsonV::Array(yv));
            if x.len() != y.len() {
                return false;
            }
            let mut i: usize = 0;
            assert(xv.subrange(0, 0).len() == 0);
            while i < x.len()
                invariant
                    i <= x.len(),
                    x.len() == y.len(),
                    items_equiv(xv.subrange(0, i as int), yv.subrange(0, i as int)),
                decreases x.len() - i,
            {
                let ghost px = xv.subrange(0, i as int + 1);
                let ghost py = yv.subrange(0, i as int + 1);
                proof {
                    assert(decreases_to!(*x => x[i as int]));
                    assert(px.drop_last() =~= xv.subrange(0, i as int));
                    assert(py.subrange(0, i as int) =~= yv.subrange(0, i as int));
                }
                if !json_equal(&x[i], &y[i]) {
                    proof {
                        assert(px.last() == xv[i as int] && py[i as int] == yv[i as int]);
                        assert(!items_equiv(px, py));
                        lemma_items_prefix(xv, yv, i as int + 1);
                    }
                    return false;
                }
                proof {
                    assert(px.last() == xv[i as int] && py[i as int] == yv[i as int]);
                }
                i = i + 1;
            }
            assert(xv.subrange(0, x.len() as int) =~= xv);
            assert(yv.subrange(0, y.len() as int) =~= yv);
            true
        },
        (Json::Object(x), Json::Object(y)) => {
            let ghost xv = member_views(x@);
            let ghost yv = member_views(y@);
            proof {
                lemma_member_views(x@);
                lemma_member_views(y@);
            }
            assert(a@ == JsonV::Object(xv) && b@ == JsonV::Object(yv));
            let mut i: usize = 0;
            assert(xv.subrange(0, 0).len() == 0);
            while i < x.len()
                invariant
                    i <= x.len(),
                    members_covered(xv, xv.subrange(0, i as int), yv),
                decreases x.len() - i,
            {
                let ghost p = xv.subrange(0, i as int + 1);
                proof {
                    assert(p.drop_last() =~= xv.subrange(0, i as int));
                    assert(p.last() == xv[i as int]);
                    assert(xv[i as int] == (x@[i as int].key@, x@[i as int].value@));
                }
                let first = find_member(x, &x[i].key);
                if first == Some(i) {
                    match find_member(y, &x[i].key) {
                        None => {
                            proof {
                                lemma_covered_prefix(xv, yv, i as int + 1);
                            }
                            return false;
                        },
                        Some(m) => {
                            proof {
                                assert(decreases_to!(*x => x[i as int]));
                                assert(yv[m as int] == (y@[m as int].key@, y@[m as int].value@));
                            }
                            if !json_equal(&x[i].value, &y[m].value) {
                                proof {
                                    lemma_covered_prefix(xv, yv, i as int + 1);
                                }
                                return false;
                            }
                        },
                    }
                }
                i = i + 1;
            }
            assert(xv.subrange(0, x.len() as int) =~= xv);
            let mut j: usize = 0;
            while j < y.len()
                invariant
                    j <= y.len(),
                    members_covered(xv, xv, yv),
                    forall|k: int| 0 <= k < j ==> index_of(xv, (#[trigger] yv[k]).0) >= 0,
                decreases y.len() - j,
            {
                assert(yv[j as int] == (y@[j as int].key@, y@[j as int].value@));
                if find_member(x, &y[j].key).is_none() {
                    assert(!keys_within(yv, xv)) by {
                        assert(index_of(xv, yv[j as int].0) < 0);
                    }
                    return false;
                }
                j = j + 1;
            }
            true
        },
        (Json::Array(_), _) => false,
        (Json::Object(_), _) => false,
        (_, _) => deep_eq(a, b),
    }
}

/// A failing prefix makes the whole element-wise comparison fail.
proof fn lemma_items_prefix(x: Seq<JsonV>, y: Seq<JsonV>, n: int)
    requires
        0 <= n <= x.len(),
        x.len() == y.len(),
        !items_equiv(x.subrange(0, n), y.subrange(0, n)),
    ensures
        !items_equiv(x, y),
    decreases x.len() - n,
{
    if n < x.len() {
        assert(x.subrange(0, n + 1).drop_last() =~= x.subrange(0, n));
        assert(y.subrange(0, n + 1).subrange(0, n) =~= y.subrange(0, n));
        lemma_items_prefix(x, y, n + 1);
    } else {
        assert(x.subrange(0, n) =~= x);
        assert(y.subrange(0, n) =~= y);
    }
}

/// A failing prefix makes the whole member comparison fail.
proof fn lemma_covered_prefix(x: Seq<(Seq<char>, JsonV)>, y: Seq<(Seq<char>, JsonV)>, n: int)
    requires
        0 <= n <= x.len(),
        !members_covered(x, x.subrange(0, n), y),
    ensures
        !members_covered(x, x, y),
    decreases x.len() - n,
{
    if n < x.len() {
        assert(x.subrange(0, n + 1).drop_last() =~= x.subrange(0, n));
        lemma_covered_prefix(x, y, n + 1);
    } else {
        assert(x.subrange(0, n) =~= x);
    }
}

/// Applies an operator other than `and`, `or` and `var` to argument values.
fn apply_operator(op: &String, vs: &Vec<Json>) -> (r: Option<Json>)
    ensures
        r matches Some(v) ==> apply_op(op@, views(vs@)) == Some(v@),
        r is None ==> apply_op(op@, views(vs@)) is None,
{
    proof {
        lemma_views(vs@);
    }
    if vs.len() != 2 {
        return None;
    }
    let a = &vs[0];
    let b = &vs[1];
    assert(views(vs@)[0] == a@ && views(vs@)[1] == b@);
    if equals_lit(op, &['=', '=']) {
        assert(op@ =~= op_eq());
        let e = json_equal(a, b);
        assert(Some(JsonV::Bool(e)) == apply_op(op@, views(vs@)));
        Some(Json::Bool(e))
    } else if equals_lit(op, &['!', '=']) {
        assert(op@ =~= op_ne());
        Some(Json::Bool(!json_equal(a, b)))
    } else if equals_lit(op, &['i', 'n']) {
        assert(op@ =~= op_in());
        let found = match b {
            Json::Array(h) => {
                assert(b@ == JsonV::Array(views(h@)));
                array_contains(h, a)
            },
            Json::Str(h) => match a {
                Json::Str(n) => {
                    let nc = string_chars(n);
                    let hc = string_chars(h);
                    contains_run(&nc, &hc)
                },
                _ => false,
            },
            _ => false,
        };
        assert(Some(JsonV::Bool(found)) == apply_op(op@, views(vs@)));
        Some(Json::Bool(found))
    } else {
        let lt = is_single(op, '<');
        let gt = is_single(op, '>');
        let le = equals_lit(op, &['<', '=']);
        let ge = equals_lit(op, &['>', '=']);
        proof {
            assert(lt == (op@ == op_lt())) by {
                if op@ == op_lt() {
                    assert(op@ =~= seq!['<']);
                }
            }
            assert(gt == (op@ == op_gt())) by {
                if op@ == op_gt() {
                    assert(op@ =~= seq!['>']);
                }
            }
            assert(le == (op@ == op_le())) by {
                if op@ == op_le() {
                    assert(op@ =~= seq!['<', '=']);
                }
            }
            assert(ge == (op@ == op_ge())) by {
                if op@ == op_ge() {
                    assert(op@ =~= seq!['>', '=']);
                }
            }
            assert(op@ != op_eq() && op@ != op_ne() && op@ != op_in()) by {
                if op@ == op_eq() { assert(op@ =~= seq!['=', '=']); }
                if op@ == op_ne() { assert(op@ =~= seq!['!', '=']); }
                if op@ == op_in() { assert(op@ =~= seq!['i', 'n']); }
            }
        }
        if !(lt || gt || le || ge) {
            return None;
        }
        let res = match (a, b) {
            (Json::Int(x), Json::Int(y)) => if lt {
                *x < *y
            } else if gt {
                *x > *y
            } else if le {
                *x <= *y
            } else {
                *x >= *y
            },
            _ => false,
        };
        Some(Json::Bool(res))
    }
}

/// Evaluates `e` in the context `ctx`.
#[verifier::loop_isolation(false)]
pub fn evaluate(ctx: &Vec<Member>, e: &Json) -> (r: Option<Json>)
    ensures
        r matches Some(v) ==> eval(member_views(ctx@), e@) == Some(v@),
        r is None ==> eval(member_views(ctx@), e@) is None,
    decreases e,
{
    match e {
        Json::Object(ms) => {
            proof {
                lemma_member_views(ms@);
            }
            if ms.len() != 1 {
                return None;
            }
            proof {
                assert(decreases_to!(*ms => ms[0]));
            }
            let op = &ms[0].key;
            let arg = &ms[0].value;
            assert(member_views(ms@)[0] == (op@, arg@));
            if equals_lit(op, &['v', 'a', 'r']) {
                assert(op@ =~= var_key());
                match arg {
                    Json::Str(d) => {
                        proof {
                            lemma_member_views(ctx@);
                        }
                        match find_member(ctx, d) {
                            Some(i) => Some(ctx[i].value.copy()),
                            None => Some(Json::Null),
                        }
                    },
                    _ => None,
                }
            } else {
                assert(op@ != var_key()) by {
                    if op@ == var_key() { assert(op@ =~= seq!['v', 'a', 'r']); }
                }
                match arg {
                    Json::Array(args) => {
                        let is_and = equals_lit(op, &['a', 'n', 'd']);
                        let is_or = equals_lit(op, &['o', 'r']);
                        proof {
                            assert(is_and == (op@ == op_and())) by {
                                if op@ == op_and() { assert(op@ =~= seq!['a', 'n', 'd']); }
                            }
                            assert(is_or == (op@ == op_or())) by {
                                if op@ == op_or() { assert(op@ =~= seq!['o', 'r']); }
                            }
                        }
                        if is_and {
                            evaluate_and_or(ctx, args, true)
                        } else if is_or {
                            evaluate_and_or(ctx, args, false)
                        } else {
                            match evaluate_all(ctx, args) {
                                None => None,
                                Some(vs) => apply_operator(op, &vs),
                            }
                        }
                    },
                    _ => None,
                }
            }
        },
        _ => Some(e.copy()),
    }
}

/// Evaluates `and` (when `conj`) or `or` over `args`, from left to right.
#[verifier::loop_isolation(false)]
fn evaluate_and_or(ctx: &Vec<Member>, args: &Vec<Json>, conj: bool) -> (r: Option<Json>)
    ensures
        conj ==> (r matches Some(v) ==> eval_and(member_views(ctx@), views(args@)) == Some(v@)),
        conj ==> (r is None ==> eval_and(member_views(ctx@), views(args@)) is None),
        !conj ==> (r matches Some(v) ==> eval_or(member_views(ctx@), views(args@)) == Some(v@)),
        !conj ==> (r is None ==> eval_or(member_views(ctx@), views(args@)) is None),
    decreases args,
{
    let ghost c = member_views(ctx@);
    let ghost all = views(args@);
    proof {
        lemma_views(args@);
        assert(all.subrange(0, all.len() as int) =~= all);
    }
    let mut i: usize = 0;
    while i < args.len()
        invariant
            i <= args.len(),
            all.len() == args.len(),
            conj ==> eval_and(c, all) == eval_and(c, all.subrange(i as int, all.len() as int)),
            !conj ==> eval_or(c, all) == eval_or(c, all.subrange(i as int, all.len() as int)),
        decreases args.len() - i,
    {
        let ghost rest = all.subrange(i as int, all.len() as int);
        proof {
            assert(rest[0] == args@[i as int]@);
            assert(rest.drop_first() =~= all.subrange(i as int + 1, all.len() as int));
            assert(decreases_to!(*args => args[i as int]));
        }
        match evaluate(ctx, &args[i]) {
            None => {
                return None;
            },
            Some(v) => {
                let is_true = match v {
                    Json::Bool(b) => b,
                    _ => false,
                };
                assert(is_true == (v@ == JsonV::Bool(true)));
                if conj && !is_true {
                    return Some(Json::Bool(false));
                }
                if !conj && is_true {
                    return Some(Json::Bool(true));
                }
            },
        }
        i = i + 1;
    }
    proof {
        assert(all.subrange(args.len() as int, all.len() as int) =~= Seq::<JsonV>::empty());
    }
    Some(Json::Bool(conj))
}

/// Evaluates every argument; `None` when one fails.
#[verifier::loop_isolation(false)]
fn evaluate_all(ctx: &Vec<Member>, args: &Vec<Json>) -> (r: Option<Vec<Json>>)
    ensures
        r matches Some(vs) ==> eval_all(member_views(ctx@), views(args@)) == Some(views(vs@)),
        r is None ==> eval_all(member_views(ctx@), views(args@)) is None,
    decreases args,
{
    let ghost c = member_views(ctx@);
    let ghost all = views(args@);
    proof {
        lemma_views(args@);
        assert(all.subrange(0, 0) =~= Seq::<JsonV>::empty());
        assert(views(Seq::<Json>::empty()) =~= Seq::<JsonV>::empty());
    }
    let mut out: Vec<Json> = Vec::new();
    let mut i: usize = 0;
    while i < args.len()
        invariant
            i <= args.len(),
            all.len() == args.len(),
            eval_all(c, all.subrange(0, i as int)) == Some(views(out@)),
        decreases args.len() - i,
    {
        let ghost post = all.subrange(0, i as int + 1);
        proof {
            assert(post.drop_last() =~= all.subrange(0, i as int));
            assert(post.last() == args@[i as int]@);
            assert(decreases_to!(*args => args[i as int]));
        }
        match evaluate(ctx, &args[i]) {
            None => {
                proof {
                    lemma_eval_all_none_stays(c, all, i as int + 1);
                }
                return None;
            },
            Some(v) => {
                let ghost before = out@;
                out.push(v);
                proof {
                    assert(out@.drop_last() =~= before);
                }
            },
        }
        i = i + 1;
    }
    proof {
        assert(all.subrange(0, args.len() as int) =~= all);
    }
    Some(out)
}

proof fn lemma_eval_all_none_stays(c: Seq<(Seq<char>, JsonV)>, args: Seq<JsonV>, n: int)
    requires
        0 <= n <= args.len(),
        eval_all(c, args.subrange(0, n)) is None,
    ensures
        eval_all(c, args) is None,
    decreases args.len() - n,
{
    if n < args.len() {
        assert(args.subrange(0, n + 1).drop_last() =~= args.subrange(0, n));
        lemma_eval_all_none_stays(c, args, n + 1);
    } else {
        assert(args.subrange(0, n) =~= args);
    }
}

} // verus!

//! The dimensions that a condition references, and the priority that they
//! give it.
use vstd::prelude::*;
use vstd::string::StrSliceExecFns;
use crate::json::{Json, JsonV, views, member_views, lemma_views, lemma_member_views};
use crate::config::{Dimension, dim_pos, dims_wf, find_dimension, lemma_dim_pos};
use crate::error::{ContextError, ErrorKind};

verus! {

pub open spec fn var_key() -> Seq<char> {
    seq!['v', 'a', 'r']
}

/// The dimension references of a condition, in document order: each member
/// `"var": name` gives `Some(name)`, a `"var"` member whose value is no string
/// gives `None`; every other member value and every array element is
/// searched in turn.
pub open spec fn extract(j: JsonV) -> Seq<Option<Seq<char>>>
    decreases j,
{
    match j {
        JsonV::Object(ms) => extract_members(ms),
        JsonV::Array(items) => extract_items(items),
        _ => Seq::empty(),
    }
}

pub open spec fn extract_items(items: Seq<JsonV>) -> Seq<Option<Seq<char>>>
    decreases items,
{
    if items.len() == 0 {
        Seq::empty()
    } else {
        extract_items(items.drop_last()) + extract(items.last())
    }
}

pub open spec fn extract_members(ms: Seq<(Seq<char>, JsonV)>) -> Seq<Option<Seq<char>>>
    decreases ms,
{
    if ms.len() == 0 {
        Seq::empty()
    } else {
        extract_members(ms.drop_last()) + if ms.last().0 == var_key() {
            match ms.last().1 {
                JsonV::Str(n) => seq![Some(n)],
                _ => seq![None],
            }
        } else {
            extract(ms.last().1)
        }
    }
}

/// The model of a list of references.
pub open spec fn ref_views(s: Seq<Option<String>>) -> Seq<Option<Seq<char>>> {
    Seq::new(
        s.len(),
        |i: int|
            match s[i] {
                Some(n) => Some(n@),
                None => None,
            },
    )
}

/// Adding up the priorities of the references from left to right: the
/// first malformed or unknown reference, or the first partial sum that
/// exceeds `i32::MAX`, is an error.
pub open spec fn checked_sum(ds: Seq<Dimension>, refs: Seq<Option<Seq<char>>>) -> Result<
    int,
    (ErrorKind, Seq<char>),
>
    decreases refs.len(),
{
    if refs.len() == 0 {
        Ok(0)
    } else {
        match checked_sum(ds, refs.drop_last()) {
            Err(e) => Err(e),
            Ok(a) => match refs.last() {
                None => Err((ErrorKind::MalformedPredicate, Seq::empty())),
                Some(n) => {
                    let i = dim_pos(ds, n);
                    if i < 0 {
                        Err((ErrorKind::UnknownDimension, n))
                    } else if a + ds[i].priority > i32::MAX {
                        Err((ErrorKind::PriorityOverflow, Seq::empty()))
                    } else {
                        Ok(a + ds[i].priority)
                    }
                },
            },
        }
    }
}

/// The priority of a condition: the checked sum over its references, which
/// must not be zero.
pub open spec fn priority_of(ds: Seq<Dimension>, cond: JsonV) -> Result<int, (ErrorKind, Seq<char>)> {
    match checked_sum(ds, extract(cond)) {
        Ok(p) => if p == 0 {
            Err((ErrorKind::NoDimensionInContext, Seq::empty()))
        } else {
            Ok(p)
        },
        Err(e) => Err(e),
    }
}

/// Every reference names a registered dimension.
pub open spec fn all_known(ds: Seq<Dimension>, refs: Seq<Option<Seq<char>>>) -> bool {
    forall|i: int|
        0 <= i < refs.len() ==> (#[trigger] refs[i]) is Some && dim_pos(ds, refs[i]->Some_0) >= 0
}

/// The plain sum of the priorities of known references.
pub open spec fn priority_sum(ds: Seq<Dimension>, refs: Seq<Option<Seq<char>>>) -> int
    decreases refs.len(),
{
    if refs.len() == 0 {
        0
    } else {
        priority_sum(ds, refs.drop_last()) + match refs.last() {
            Some(n) => ds[dim_pos(ds, n)].priority as int,
            None => 0,
        }
    }
}

/// A successful checked sum is the plain sum of the priorities of the
/// referenced dimensions, every one of which is registered.
pub proof fn lemma_checked_sum(ds: Seq<Dimension>, refs: Seq<Option<Seq<char>>>)
    requires
        dims_wf(ds),
    ensures
        checked_sum(ds, refs) matches Ok(p) ==> p == priority_sum(ds, refs) && all_known(ds, refs)
            && 0 <= p <= i32::MAX,
    decreases refs.len(),
{
    if refs.len() > 0 {
        lemma_checked_sum(ds, refs.drop_last());
        if let Ok(p) = checked_sum(ds, refs) {
            assert forall|i: int| 0 <= i < refs.len() implies (#[trigger] refs[i]) is Some
                && dim_pos(ds, refs[i]->Some_0) >= 0 by {
                if i < refs.len() - 1 {
                    assert(refs.drop_last()[i] == refs[i]);
                }
            }
            lemma_dim_pos(ds, refs.last()->Some_0);
        }
    }
}

/// The priority law: a condition that is accepted has as its priority the
/// sum of the priorities of the dimensions that it references (each
/// reference counted), and that priority is positive.
pub proof fn lemma_priority_is_sum(ds: Seq<Dimension>, cond: JsonV)
    requires
        dims_wf(ds),
    ensures
        priority_of(ds, cond) matches Ok(p) ==> p == priority_sum(ds, extract(cond)) && p > 0
            && all_known(ds, extract(cond)),
{
    lemma_checked_sum(ds, extract(cond));
}

fn is_var_key(s: &String) -> (r: bool)
    ensures
        r == (s@ == var_key()),
{
    let t = s.as_str();
    if t.unicode_len() != 3 {
        return false;
    }
    let r = t.get_char(0) == 'v' && t.get_char(1) == 'a' && t.get_char(2) == 'r';
    proof {
        if r {
            assert(s@ =~= var_key());
        }
    }
    r
}

/// Appends the references of `j` to `out`.
#[verifier::loop_isolation(false)]
pub fn extract_refs(j: &Json, out: &mut Vec<Option<String>>)
    ensures
        ref_views(final(out)@) == ref_views(old(out)@) + extract(j@),
    decreases j,
{
    match j {
        Json::Array(v) => {
            let ghost start = ref_views(out@);
            proof {
                lemma_views(v@);
                assert(views(v@).subrange(0, 0) =~= Seq::<JsonV>::empty());
                assert(start =~= start + extract_items(Seq::<JsonV>::empty()));
            }
            let mut i: usize = 0;
            while i < v.len()
                invariant
                    i <= v.len(),
                    ref_views(out@) == start + extract_items(views(v@).subrange(0, i as int)),
                decreases v.len() - i,
            {
                let ghost post = views(v@).subrange(0, i as int + 1);
                proof {
                    assert(post.drop_last() =~= views(v@).subrange(0, i as int));
                    assert(decreases_to!(*v => v[i as int]));
                }
                extract_refs(&v[i], out);
                proof {
                    assert(ref_views(out@) =~= start + extract_items(post));
                }
                i = i + 1;
            }
            proof {
                assert(views(v@).subrange(0, v.len() as int) =~= views(v@));
            }
        },
        Json::Object(ms) => {
            let ghost start = ref_views(out@);
            proof {
                lemma_member_views(ms@);
                assert(member_views(ms@).subrange(0, 0) =~= Seq::<(Seq<char>, JsonV)>::empty());
                assert(start =~= start + extract_members(Seq::<(Seq<char>, JsonV)>::empty()));
            }
            let mut i: usize = 0;
            while i < ms.len()
                invariant
                    i <= ms.len(),
                    ref_views(out@) == start + extract_members(
                        member_views(ms@).subrange(0, i as int),
                    ),
                decreases ms.len() - i,
            {
                let ghost post = member_views(ms@).subrange(0, i as int + 1);
                let ghost before = ref_views(out@);
                proof {
                    assert(post.drop_last() =~= member_views(ms@).subrange(0, i as int));
                    assert(post.last() == (ms@[i as int].key@, ms@[i as int].value@));
                    assert(decreases_to!(*ms => ms[i as int]));
                }
                if is_var_key(&ms[i].key) {
                    match &ms[i].value {
                        Json::Str(n) => out.push(Some(n.clone())),
                        _ => out.push(None),
                    }
                    proof {
                        assert(ref_views(out@) =~= before + ref_views(seq![out@.last()]));
                    }
                } else {
                    extract_refs(&ms[i].value, out);
                }
                proof {
                    assert(ref_views(out@) =~= start + extract_members(post));
                }
                i = i + 1;
            }
            proof {
                assert(member_views(ms@).subrange(0, ms.len() as int) =~= member_views(ms@));
            }
        },
        _ => {},
    }
    proof {
        assert(ref_views(final(out)@) =~= ref_views(old(out)@) + extract(j@));
    }
}

/// Computes the priority of a condition from the registered dimensions.
pub fn compute_priority(ds: &Vec<Dimension>, cond: &Json) -> (r: Result<i32, ContextError>)
    requires
        dims_wf(ds@),
    ensures
        r matches Ok(p) ==> priority_of(ds@, cond@) == Ok::<int, (ErrorKind, Seq<char>)>(p as int),
        r matches Err(e) ==> priority_of(ds@, cond@) == Err::<int, (ErrorKind, Seq<char>)>(e@),
{
    let mut refs: Vec<Option<String>> = Vec::new();
    extract_refs(cond, &mut refs);
    proof {
        assert(ref_views(refs@) =~= extract(cond@));
        assert(ref_views(refs@).subrange(0, 0) =~= Seq::<Option<Seq<char>>>::empty());
    }
    let ghost all = ref_views(refs@);
    let mut acc: i32 = 0;
    let mut i: usize = 0;
    while i < refs.len()
        invariant
            i <= refs.len(),
            all == ref_views(refs@),
            all == extract(cond@),
            acc >= 0,
            dims_wf(ds@),
            checked_sum(ds@, all.subrange(0, i as int)) == Ok::<int, (ErrorKind, Seq<char>)>(
                acc as int,
            ),
        decreases refs.len() - i,
    {
        let ghost post = all.subrange(0, i as int + 1);
        proof {
            assert(post.drop_last() =~= all.subrange(0, i as int));
            assert(post.last() == all[i as int]);
        }
        match &refs[i] {
            None => {
                proof {
                    lemma_sum_error_stays(ds@, all, i as int + 1);
                }
                return Err(ContextError::new(ErrorKind::MalformedPredicate, String::new()));
            },
            Some(name) => {
                match find_dimension(ds, name) {
                    None => {
                        proof {
                            lemma_sum_error_stays(ds@, all, i as int + 1);
                        }
                        return Err(ContextError::new(ErrorKind::UnknownDimension, name.clone()));
                    },
                    Some(k) => {
                        let p = ds[k].priority;
                        assert(ds@[k as int].priority > 0);
                        if (acc as i64) + (p as i64) > i32::MAX as i64 {
                            proof {
                                lemma_sum_error_stays(ds@, all, i as int + 1);
                            }
                            return Err(ContextError::new(ErrorKind::PriorityOverflow, String::new()));
                        }
                        acc = acc + p;
                    },
                }
            },
        }
        i = i + 1;
    }
    proof {
        assert(all.subrange(0, refs.len() as int) =~= all);
    }
    if acc == 0 {
        return Err(ContextError::new(ErrorKind::NoDimensionInContext, String::new()));
    }
    Ok(acc)
}

/// Once a prefix of the references fails, the whole sum fails the same way.
proof fn lemma_sum_error_stays(ds: Seq<Dimension>, refs: Seq<Option<Seq<char>>>, n: int)
    requires
        0 <= n <= refs.len(),
        checked_sum(ds, refs.subrange(0, n)) is Err,
    ensures
        checked_sum(ds, refs) == checked_sum(ds, refs.subrange(0, n)),
    decreases refs.len() - n,
{
    if n < refs.len() {
        assert(refs.subrange(0, n + 1).drop_last() =~= refs.subrange(0, n));
        lemma_sum_error_stays(ds, refs, n + 1);
    } else {
        assert(refs.subrange(0, n) =~= refs);
    }
}


/// Two dimension lists that know the same referenced names, with the same
/// priorities, give the same checked sum.
pub proof fn lemma_checked_sum_same(ds1: Seq<Dimension>, ds2: Seq<Dimension>, refs: Seq<Option<Seq<char>>>)
    requires
        forall|k: int|
            0 <= k < refs.len() && (#[trigger] refs[k]) is Some ==> ((dim_pos(ds1, refs[k]->Some_0) < 0)
                == (dim_pos(ds2, refs[k]->Some_0) < 0) && (dim_pos(ds1, refs[k]->Some_0) >= 0
                ==> ds1[dim_pos(ds1, refs[k]->Some_0)].priority == ds2[dim_pos(
                ds2,
                refs[k]->Some_0,
            )].priority)),
    ensures
        checked_sum(ds1, refs) == checked_sum(ds2, refs),
    decreases refs.len(),
{
    if refs.len() > 0 {
        assert forall|k: int|
            0 <= k < refs.drop_last().len() && (#[trigger] refs.drop_last()[k]) is Some implies ((dim_pos(
                ds1,
                refs.drop_last()[k]->Some_0,
            ) < 0) == (dim_pos(ds2, refs.drop_last()[k]->Some_0) < 0) && (dim_pos(
                ds1,
                refs.drop_last()[k]->Some_0,
            ) >= 0 ==> ds1[dim_pos(ds1, refs.drop_last()[k]->Some_0)].priority == ds2[dim_pos(
                ds2,
                refs.drop_last()[k]->Some_0,
            )].priority)) by {
            assert(refs.drop_last()[k] == refs[k]);
        }
        lemma_checked_sum_same(ds1, ds2, refs.drop_last());
        assert(refs.last() == refs[refs.len() - 1]);
    }
}

} // verus!

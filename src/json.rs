//! A JSON value that verified code can read, together with its mathematical
//! model, deep copy, deep equality and RFC 7396 merge patch.
use vstd::prelude::*;

verus! {

/// One `"key": value` entry of a JSON object, in the order it was written.
#[derive(Debug)]
pub struct Member {
    pub key: String,
    pub value: Json,
}

/// A JSON document. Numbers are integers.
#[derive(Debug)]
pub enum Json {
    Null,
    Bool(bool),
    Int(i64),
    Str(String),
    Array(Vec<Json>),
    Object(Vec<Member>),
}

/// The mathematical model of a JSON document.
pub enum JsonV {
    Null,
    Bool(bool),
    Int(int),
    Str(Seq<char>),
    Array(Seq<JsonV>),
    Object(Seq<(Seq<char>, JsonV)>),
}

/// The models of a sequence of documents, element by element.
pub open spec fn views(s: Seq<Json>) -> Seq<JsonV>
    decreases s,
{
    if s.len() == 0 {
        Seq::empty()
    } else {
        views(s.drop_last()).push(s.last().view())
    }
}

/// The models of a sequence of object members, entry by entry.
pub open spec fn member_views(s: Seq<Member>) -> Seq<(Seq<char>, JsonV)>
    decreases s,
{
    if s.len() == 0 {
        Seq::empty()
    } else {
        member_views(s.drop_last()).push((s.last().key@, s.last().value.view()))
    }
}

impl Json {
    pub open spec fn view(self) -> JsonV
        decreases self,
    {
        match self {
            Json::Null => JsonV::Null,
            Json::Bool(b) => JsonV::Bool(b),
            Json::Int(n) => JsonV::Int(n as int),
            Json::Str(s) => JsonV::Str(s@),
            Json::Array(v) => JsonV::Array(views(v@)),
            Json::Object(ms) => JsonV::Object(member_views(ms@)),
        }
    }
}


/// The model of a sequence of documents has one entry per document.
pub proof fn lemma_views(s: Seq<Json>)
    ensures
        views(s).len() == s.len(),
        forall|i: int| 0 <= i < s.len() ==> #[trigger] views(s)[i] == s[i].view(),
    decreases s.len(),
{
    if s.len() > 0 {
        lemma_views(s.drop_last());
    }
}

/// The model of a sequence of members has one entry per member.
pub proof fn lemma_member_views(s: Seq<Member>)
    ensures
        member_views(s).len() == s.len(),
        forall|i: int|
            0 <= i < s.len() ==> #[trigger] member_views(s)[i] == (s[i].key@, s[i].value.view()),
    decreases s.len(),
{
    if s.len() > 0 {
        lemma_member_views(s.drop_last());
    }
}

impl Json {
    /// A deep copy: the result has the same model.
    #[verifier::loop_isolation(false)]
    pub fn copy(&self) -> (r: Json)
        ensures
            r@ == self@,
        decreases self,
    {
        match self {
            Json::Null => Json::Null,
            Json::Bool(b) => Json::Bool(*b),
            Json::Int(n) => Json::Int(*n),
            Json::Str(s) => Json::Str(s.clone()),
            Json::Array(v) => {
                let mut out: Vec<Json> = Vec::new();
                let mut i: usize = 0;
                while i < v.len()
                    invariant
                        i <= v.len(),
                        out@.len() == i,
                        forall|j: int| 0 <= j < i ==> #[trigger] out@[j]@ == v@[j]@,
                    decreases v.len() - i,
                {
                    proof {
                        assert(decreases_to!(*v => v[i as int]));
                    }
                    let c = v[i].copy();
                    out.push(c);
                    i = i + 1;
                }
                proof {
                    lemma_views(out@);
                    lemma_views(v@);
                    assert(views(out@) =~= views(v@));
                }
                Json::Array(out)
            },
            Json::Object(ms) => {
                let out = copy_members(ms);
                Json::Object(out)
            },
        }
    }
}

/// A deep copy of a member list: the result has the same model.
pub fn copy_members(ms: &Vec<Member>) -> (r: Vec<Member>)
    ensures
        member_views(r@) == member_views(ms@),
    decreases ms,
{
    let mut out: Vec<Member> = Vec::new();
    let mut i: usize = 0;
    while i < ms.len()
        invariant
            i <= ms.len(),
            out@.len() == i,
            forall|j: int|
                0 <= j < i ==> #[trigger] out@[j].key@ == ms@[j].key@ && out@[j].value@
                    == ms@[j].value@,
        decreases ms.len() - i,
    {
        proof {
            assert(decreases_to!(*ms => ms[i as int]));
        }
        let v = ms[i].value.copy();
        out.push(Member { key: ms[i].key.clone(), value: v });
        i = i + 1;
    }
    proof {
        lemma_member_views(out@);
        lemma_member_views(ms@);
        assert(member_views(out@) =~= member_views(ms@));
    }
    out
}

/// Deep equality of two documents, by their models.
#[verifier::loop_isolation(false)]
pub fn deep_eq(a: &Json, b: &Json) -> (r: bool)
    ensures
        r == (a@ == b@),
    decreases a,
{
    match (a, b) {
        (Json::Null, Json::Null) => true,
        (Json::Bool(x), Json::Bool(y)) => *x == *y,
        (Json::Int(x), Json::Int(y)) => *x == *y,
        (Json::Str(x), Json::Str(y)) => *x == *y,
        (Json::Array(x), Json::Array(y)) => {
            proof {
                lemma_views(x@);
                lemma_views(y@);
            }
            if x.len() != y.len() {
                assert(views(x@).len() != views(y@).len());
                return false;
            }
            let mut i: usize = 0;
            while i < x.len()
                invariant
                    i <= x.len(),
                    x.len() == y.len(),
                    views(x@).len() == x.len(),
                    views(y@).len() == y.len(),
                    forall|j: int| 0 <= j < x.len() ==> #[trigger] views(x@)[j] == x@[j]@,
                    forall|j: int| 0 <= j < y.len() ==> #[trigger] views(y@)[j] == y@[j]@,
                    forall|j: int| 0 <= j < i ==> #[trigger] x@[j]@ == y@[j]@,
                decreases x.len() - i,
            {
                proof {
                    assert(decreases_to!(*x => x[i as int]));
                }
                if !deep_eq(&x[i], &y[i]) {
                    assert(views(x@)[i as int] != views(y@)[i as int]);
                    return false;
                }
                i = i + 1;
            }
            assert(views(x@) =~= views(y@));
            true
        },
        (Json::Object(x), Json::Object(y)) => {
            proof {
                lemma_member_views(x@);
                lemma_member_views(y@);
            }
            if x.len() != y.len() {
                assert(member_views(x@).len() != member_views(y@).len());
                return false;
            }
            let mut i: usize = 0;
            while i < x.len()
                invariant
                    i <= x.len(),
                    x.len() == y.len(),
                    member_views(x@).len() == x.len(),
                    member_views(y@).len() == y.len(),
                    forall|j: int|
                        0 <= j < x.len() ==> #[trigger] member_views(x@)[j] == (
                        x@[j].key@,
                        x@[j].value@,
                    ),
                    forall|j: int|
                        0 <= j < y.len() ==> #[trigger] member_views(y@)[j] == (
                        y@[j].key@,
                        y@[j].value@,
                    ),
                    forall|j: int| 0 <= j < i ==> #[trigger] member_views(x@)[j] == member_views(y@)[j],
                decreases x.len() - i,
            {
                proof {
                    assert(decreases_to!(*x => x[i as int]));
                }
                let same_key: bool = x[i].key == y[i].key;
                let same_value: bool = deep_eq(&x[i].value, &y[i].value);
                if !same_key || !same_value {
                    assert(member_views(x@)[i as int] != member_views(y@)[i as int]);
                    return false;
                }
                assert(member_views(x@)[i as int] == member_views(y@)[i as int]);
                i = i + 1;
            }
            assert(member_views(x@) =~= member_views(y@));
            true
        },
        _ => {
            assert(a@ != b@);
            false
        },
    }
}


/// Position of the first member named `k`, or -1 when there is none.
pub open spec fn index_of(ms: Seq<(Seq<char>, JsonV)>, k: Seq<char>) -> int
    decreases ms.len(),
{
    if ms.len() == 0 {
        -1
    } else if ms[0].0 == k {
        0
    } else {
        let r = index_of(ms.drop_first(), k);
        if r < 0 {
            -1
        } else {
            r + 1
        }
    }
}

pub proof fn lemma_index_of(ms: Seq<(Seq<char>, JsonV)>, k: Seq<char>)
    ensures
        -1 <= index_of(ms, k) < ms.len(),
        index_of(ms, k) >= 0 ==> ms[index_of(ms, k)].0 == k,
        forall|j: int| 0 <= j < ms.len() && (index_of(ms, k) < 0 || j < index_of(ms, k)) ==> #[trigger] ms[j].0 != k,
    decreases ms.len(),
{
    if ms.len() > 0 {
        lemma_index_of(ms.drop_first(), k);
        assert forall|j: int|
            0 <= j < ms.len() && (index_of(ms, k) < 0 || j < index_of(ms, k)) implies #[trigger] ms[j].0
            != k by {
            if j > 0 {
                assert(ms[j] == ms.drop_first()[j - 1]);
            }
        }
    }
}

/// What the members of `t` become when the members of `p` are applied to
/// them one after the other, as RFC 7396 prescribes: a null removes the key,
/// anything else is merged into the member of that name, which is added at
/// the end when absent.
pub open spec fn merge_members(t: Seq<(Seq<char>, JsonV)>, p: Seq<(Seq<char>, JsonV)>) -> Seq<
    (Seq<char>, JsonV),
>
    decreases p,
{
    if p.len() == 0 {
        t
    } else {
        let rest = merge_members(t, p.drop_last());
        let k = p.last().0;
        let v = p.last().1;
        let i = index_of(rest, k);
        if v is Null {
            if i < 0 {
                rest
            } else {
                rest.remove(i)
            }
        } else if i < 0 {
            rest.push((k, merge_patch(JsonV::Null, v)))
        } else {
            rest.update(i, (k, merge_patch(rest[i].1, v)))
        }
    }
}

/// RFC 7396 (JSON Merge Patch): an object patch is applied member by member
/// onto the target's members (an empty object when the target is no object);
/// any other patch replaces the target.
pub open spec fn merge_patch(target: JsonV, patch: JsonV) -> JsonV
    decreases patch,
{
    match patch {
        JsonV::Object(p) => {
            let t = match target {
                JsonV::Object(t) => t,
                _ => Seq::empty(),
            };
            JsonV::Object(merge_members(t, p))
        },
        _ => patch,
    }
}

proof fn lemma_member_views_remove(s: Seq<Member>, i: int)
    requires
        0 <= i < s.len(),
    ensures
        member_views(s.remove(i)) == member_views(s).remove(i),
{
    lemma_member_views(s);
    lemma_member_views(s.remove(i));
    assert(member_views(s.remove(i)) =~= member_views(s).remove(i));
}

proof fn lemma_member_views_update(s: Seq<Member>, i: int, m: Member)
    requires
        0 <= i < s.len(),
    ensures
        member_views(s.update(i, m)) == member_views(s).update(i, (m.key@, m.value@)),
{
    lemma_member_views(s);
    lemma_member_views(s.update(i, m));
    assert(member_views(s.update(i, m)) =~= member_views(s).update(i, (m.key@, m.value@)));
}

proof fn lemma_member_views_push(s: Seq<Member>, m: Member)
    ensures
        member_views(s.push(m)) == member_views(s).push((m.key@, m.value@)),
{
    assert(s.push(m).drop_last() =~= s);
}

/// Position of the first member named `k` in `ms`, if any.
pub fn find_member(ms: &Vec<Member>, k: &String) -> (r: Option<usize>)
    ensures
        r matches Some(i) ==> i < ms.len() && i as int == index_of(member_views(ms@), k@),
        r is None ==> index_of(member_views(ms@), k@) == -1,
{
    proof {
        lemma_member_views(ms@);
        lemma_index_of(member_views(ms@), k@);
    }
    let mut i: usize = 0;
    while i < ms.len()
        invariant
            i <= ms.len(),
            member_views(ms@).len() == ms.len(),
            forall|j: int| 0 <= j < ms.len() ==> #[trigger] member_views(ms@)[j].0 == ms@[j].key@,
            forall|j: int| 0 <= j < i ==> ms@[j].key@ != k@,
            -1 <= index_of(member_views(ms@), k@) < ms.len(),
            index_of(member_views(ms@), k@) >= 0 ==> member_views(ms@)[index_of(member_views(ms@), k@)].0 == k@,
            forall|j: int| 0 <= j < ms.len() && (index_of(member_views(ms@), k@) < 0 || j < index_of(member_views(ms@), k@)) ==> #[trigger] member_views(ms@)[j].0 != k@,
        decreases ms.len() - i,
    {
        if ms[i].key == *k {
            assert(member_views(ms@)[i as int].0 == k@);
            return Some(i);
        }
        assert(member_views(ms@)[i as int].0 != k@);
        i = i + 1;
    }
    proof {
        if index_of(member_views(ms@), k@) >= 0 {
            let x = index_of(member_views(ms@), k@);
            assert(member_views(ms@)[x].0 == ms@[x].key@);
        }
    }
    None
}

/// Applies `patch` to `target` by RFC 7396 and returns the result.
///
/// Written and proved here rather than calling `json_patch::merge`: that
/// function works on `serde_json::Value`, whose maps sort their keys, while
/// this library keeps members in written order (the order that content
/// hashes are taken over), and RFC 7396 is a definition of a few lines,
/// stated above as `merge_patch`.
#[verifier::loop_isolation(false)]
pub fn merged(target: Json, patch: &Json) -> (r: Json)
    ensures
        r@ == merge_patch(target@, patch@),
    decreases patch,
{
    match patch {
        Json::Object(p) => {
            let mut ms: Vec<Member> = match target {
                Json::Object(t) => t,
                _ => Vec::new(),
            };
            let ghost t0 = member_views(ms@);
            proof {
                lemma_member_views(p@);
                assert(member_views(Seq::<Member>::empty()) =~= Seq::<(Seq<char>, JsonV)>::empty());
                assert(member_views(p@).subrange(0, 0) =~= Seq::<(Seq<char>, JsonV)>::empty());
            }
            let mut i: usize = 0;
            while i < p.len()
                invariant
                    i <= p.len(),
                    member_views(ms@) == merge_members(t0, member_views(p@).subrange(0, i as int)),
                decreases p.len() - i,
            {
                let ghost pre = member_views(p@).subrange(0, i as int);
                let ghost post = member_views(p@).subrange(0, i as int + 1);
                proof {
                    assert(post.drop_last() =~= pre);
                    assert(post.last() == member_views(p@)[i as int]);
                    assert(decreases_to!(*p => p[i as int]));
                }
                let ghost rest = member_views(ms@);
                let ghost k = p@[i as int].key@;
                let ghost v = p@[i as int].value@;
                proof {
                    lemma_member_views(ms@);
                    lemma_index_of(rest, k);
                    assert(post.last() == (k, v));
                    assert(merge_members(t0, post) == {
                        let idx = index_of(rest, k);
                        if v is Null {
                            if idx < 0 {
                                rest
                            } else {
                                rest.remove(idx)
                            }
                        } else if idx < 0 {
                            rest.push((k, merge_patch(JsonV::Null, v)))
                        } else {
                            rest.update(idx, (k, merge_patch(rest[idx].1, v)))
                        }
                    });
                }
                let found = find_member(&ms, &p[i].key);
                match &p[i].value {
                    Json::Null => {
                        match found {
                            Some(idx) => {
                                proof {
                                    lemma_member_views_remove(ms@, idx as int);
                                }
                                ms.remove(idx);
                            },
                            None => {},
                        }
                    },
                    _ => {
                        match found {
                            Some(idx) => {
                                let ghost before = ms@;
                                let m = ms.remove(idx);
                                let nv = merged(m.value, &p[i].value);
                                let nm = Member { key: m.key, value: nv };
                                proof {
                                    assert(before.remove(idx as int).insert(idx as int, nm)
                                        =~= before.update(idx as int, nm));
                                    lemma_member_views_update(before, idx as int, nm);
                                }
                                ms.insert(idx, nm);
                            },
                            None => {
                                let nv = merged(Json::Null, &p[i].value);
                                let nm = Member { key: p[i].key.clone(), value: nv };
                                proof {
                                    lemma_member_views_push(ms@, nm);
                                }
                                ms.push(nm);
                            },
                        }
                    },
                }
                i = i + 1;
            }
            proof {
                assert(member_views(p@).subrange(0, p.len() as int) =~= member_views(p@));
            }
            Json::Object(ms)
        },
        _ => patch.copy(),
    }
}

} // verus!

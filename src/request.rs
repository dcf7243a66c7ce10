//! Building the body of a context request from simple clauses.
use vstd::prelude::*;
use vstd::string::StringExecFns;
use crate::json::{Json, JsonV, Member, views, member_views, lemma_views, lemma_member_views};
use crate::priority::var_key;
use crate::predicate::op_and;

verus! {

pub open spec fn override_field() -> Seq<char> {
    seq!['o', 'v', 'e', 'r', 'r', 'i', 'd', 'e']
}

pub open spec fn context_field() -> Seq<char> {
    seq!['c', 'o', 'n', 't', 'e', 'x', 't']
}

/// The clause `{op: [{"var": dimension}, value]}`.
pub open spec fn clause(c: (Seq<char>, Seq<char>, Seq<char>)) -> JsonV {
    JsonV::Object(
        seq![
            (
                c.1,
                JsonV::Array(
                    seq![JsonV::Object(seq![(var_key(), JsonV::Str(c.0))]), JsonV::Str(c.2)],
                ),
            ),
        ],
    )
}

pub open spec fn clauses_view(s: Seq<(String, String, String)>) -> Seq<(Seq<char>, Seq<char>, Seq<char>)> {
    Seq::new(s.len(), |i: int| (s[i].0@, s[i].1@, s[i].2@))
}

/// The request body: the override, and as context the one clause, or the
/// `and` of all clauses when there are none or several.
pub open spec fn request_payload(
    ov: Seq<(Seq<char>, JsonV)>,
    cs: Seq<(Seq<char>, Seq<char>, Seq<char>)>,
) -> JsonV {
    let context = if cs.len() == 1 {
        clause(cs[0])
    } else {
        JsonV::Object(seq![(op_and(), JsonV::Array(Seq::new(cs.len(), |i: int| clause(cs[i]))))])
    };
    JsonV::Object(seq![(override_field(), JsonV::Object(ov)), (context_field(), context)])
}

fn make_clause(c: &(String, String, String)) -> (r: Json)
    ensures
        r@ == clause((c.0@, c.1@, c.2@)),
{
    proof {
        reveal_strlit("var");
    }
    let var_name = String::from_str("var");
    assert(var_name@ =~= var_key());
    let var = Member { key: var_name, value: Json::Str(c.0.clone()) };
    let mut inner: Vec<Member> = Vec::new();
    inner.push(var);
    let mut args: Vec<Json> = Vec::new();
    args.push(Json::Object(inner));
    args.push(Json::Str(c.2.clone()));
    let mut outer: Vec<Member> = Vec::new();
    outer.push(Member { key: c.1.clone(), value: Json::Array(args) });
    proof {
        lemma_member_views(inner@);
        lemma_views(args@);
        lemma_member_views(outer@);
        assert(member_views(inner@) =~= seq![(var_key(), JsonV::Str(c.0@))]);
        assert(views(args@) =~= seq![
            JsonV::Object(seq![(var_key(), JsonV::Str(c.0@))]),
            JsonV::Str(c.2@),
        ]);
        assert(member_views(outer@) =~= seq![
            (
                c.1@,
                JsonV::Array(
                    seq![JsonV::Object(seq![(var_key(), JsonV::Str(c.0@))]), JsonV::Str(c.2@)],
                ),
            ),
        ]);
    }
    Json::Object(outer)
}

/// Builds the body of a context request from an override and clauses
/// `(dimension, operator, value)`.
pub fn construct_request_payload(overrides: Vec<Member>, conditions: Vec<(String, String, String)>) -> (r: Json)
    ensures
        r@ == request_payload(member_views(overrides@), clauses_view(conditions@)),
{
    let ghost cv = clauses_view(conditions@);
    let context = if conditions.len() == 1 {
        make_clause(&conditions[0])
    } else {
        let mut items: Vec<Json> = Vec::new();
        let mut i: usize = 0;
        while i < conditions.len()
            invariant
                i <= conditions.len(),
                cv == clauses_view(conditions@),
                items@.len() == i,
                forall|j: int| 0 <= j < i ==> #[trigger] items@[j]@ == clause(cv[j]),
            decreases conditions.len() - i,
        {
            items.push(make_clause(&conditions[i]));
            i = i + 1;
        }
        proof {
            reveal_strlit("and");
            lemma_views(items@);
            assert(views(items@) =~= Seq::new(cv.len(), |i: int| clause(cv[i])));
        }
        let mut m: Vec<Member> = Vec::new();
        let and_name = String::from_str("and");
        assert(and_name@ =~= op_and());
        m.push(Member { key: and_name, value: Json::Array(items) });
        proof {
            lemma_member_views(m@);
            assert(member_views(m@) =~= seq![(op_and(), JsonV::Array(Seq::new(cv.len(), |i: int| clause(cv[i]))))]);
        }
        Json::Object(m)
    };
    proof {
        reveal_strlit("override");
        reveal_strlit("context");
    }
    let mut body: Vec<Member> = Vec::new();
    let override_name = String::from_str("override");
    let context_name = String::from_str("context");
    assert(override_name@ =~= override_field());
    assert(context_name@ =~= context_field());
    body.push(Member { key: override_name, value: Json::Object(overrides) });
    body.push(Member { key: context_name, value: context });
    proof {
        lemma_member_views(body@);
        assert(member_views(body@) =~= seq![
            (override_field(), JsonV::Object(member_views(overrides@))),
            (context_field(), context@),
        ]);
    }
    Json::Object(body)
}

} // verus!

//! Dimensions, default configuration entries, and the validation of an
//! override against the schemas of the default configuration.
use vstd::prelude::*;
use crate::json::{Json, JsonV, Member, member_views, lemma_member_views};
use crate::text::{text_of, to_text};
use crate::error::{ContextError, ErrorKind};
use crate::predicate::{is_substring, contains_run};

verus! {

/// A runtime variable that conditions may reference, with its priority.
#[derive(Debug)]
pub struct Dimension {
    pub name: String,
    pub priority: i32,
}

/// A configuration key with its default value and its JSON schema.
#[derive(Debug)]
pub struct DefaultEntry {
    pub key: String,
    pub value: Json,
    pub schema: Json,
}

/// A request to create or replace a default configuration entry: its value
/// and its JSON schema (an object).
#[derive(Debug)]
pub struct CreateReq {
    pub value: Json,
    pub schema: Vec<Member>,
}

/// Position of the first element of `s` that satisfies `p`, or -1.
pub open spec fn first_where<A>(s: Seq<A>, p: spec_fn(A) -> bool) -> int
    decreases s.len(),
{
    if s.len() == 0 {
        -1
    } else if p(s[0]) {
        0
    } else {
        let r = first_where(s.drop_first(), p);
        if r < 0 {
            -1
        } else {
            r + 1
        }
    }
}

pub proof fn lemma_first_where<A>(s: Seq<A>, p: spec_fn(A) -> bool)
    ensures
        -1 <= first_where(s, p) < s.len(),
        first_where(s, p) >= 0 ==> p(s[first_where(s, p)]),
        forall|j: int|
            0 <= j < s.len() && (first_where(s, p) < 0 || j < first_where(s, p)) ==> !p(
                #[trigger] s[j],
            ),
    decreases s.len(),
{
    if s.len() > 0 {
        lemma_first_where(s.drop_first(), p);
        assert forall|j: int|
            0 <= j < s.len() && (first_where(s, p) < 0 || j < first_where(s, p)) implies !p(
            #[trigger] s[j],
        ) by {
            if j > 0 {
                assert(s[j] == s.drop_first()[j - 1]);
            }
        }
    }
}

/// `first_where` is the one position that meets its characterisation.
pub proof fn lemma_first_where_is<A>(s: Seq<A>, p: spec_fn(A) -> bool, x: int)
    requires
        -1 <= x < s.len(),
        x >= 0 ==> p(s[x]),
        forall|j: int| 0 <= j < s.len() && (x < 0 || j < x) ==> !p(#[trigger] s[j]),
    ensures
        first_where(s, p) == x,
{
    lemma_first_where(s, p);
    let f = first_where(s, p);
    if f >= 0 && x >= 0 {
        if f < x {
            assert(!p(s[f]));
        } else if x < f {
            assert(!p(s[x]));
        }
    } else if f >= 0 {
        assert(!p(s[f]));
    } else if x >= 0 {
        assert(!p(s[x]));
    }
}

/// Position of the dimension named `name`, or -1.
pub open spec fn dim_pos(ds: Seq<Dimension>, name: Seq<char>) -> int {
    first_where(ds, has_name(name))
}

/// The test for the dimension named `name`.
pub open spec fn has_name(name: Seq<char>) -> spec_fn(Dimension) -> bool {
    |d: Dimension| d.name@ == name
}

pub proof fn lemma_dim_pos(ds: Seq<Dimension>, name: Seq<char>)
    ensures
        -1 <= dim_pos(ds, name) < ds.len(),
        dim_pos(ds, name) >= 0 ==> ds[dim_pos(ds, name)].name@ == name,
        forall|j: int|
            0 <= j < ds.len() && (dim_pos(ds, name) < 0 || j < dim_pos(ds, name)) ==> (
            #[trigger] ds[j]).name@ != name,
{
    lemma_first_where(ds, has_name(name));
}

pub proof fn lemma_dim_pos_is(ds: Seq<Dimension>, name: Seq<char>, x: int)
    requires
        -1 <= x < ds.len(),
        x >= 0 ==> ds[x].name@ == name,
        forall|j: int| 0 <= j < ds.len() && (x < 0 || j < x) ==> (#[trigger] ds[j]).name@ != name,
    ensures
        dim_pos(ds, name) == x,
{
    lemma_first_where_is(ds, has_name(name), x);
}

/// Position of the default entry of `key`, or -1.
pub open spec fn default_pos(cs: Seq<DefaultEntry>, key: Seq<char>) -> int {
    first_where(cs, has_key(key))
}

/// The test for the default entry of `key`.
pub open spec fn has_key(key: Seq<char>) -> spec_fn(DefaultEntry) -> bool {
    |c: DefaultEntry| c.key@ == key
}

pub proof fn lemma_default_pos(cs: Seq<DefaultEntry>, key: Seq<char>)
    ensures
        -1 <= default_pos(cs, key) < cs.len(),
        default_pos(cs, key) >= 0 ==> cs[default_pos(cs, key)].key@ == key,
        forall|j: int|
            0 <= j < cs.len() && (default_pos(cs, key) < 0 || j < default_pos(cs, key)) ==> (
            #[trigger] cs[j]).key@ != key,
{
    lemma_first_where(cs, has_key(key));
}

pub proof fn lemma_default_pos_is(cs: Seq<DefaultEntry>, key: Seq<char>, x: int)
    requires
        -1 <= x < cs.len(),
        x >= 0 ==> cs[x].key@ == key,
        forall|j: int| 0 <= j < cs.len() && (x < 0 || j < x) ==> (#[trigger] cs[j]).key@ != key,
    ensures
        default_pos(cs, key) == x,
{
    lemma_first_where_is(cs, has_key(key), x);
}

/// Dimension names are unique and priorities positive.
pub open spec fn dims_wf(ds: Seq<Dimension>) -> bool {
    &&& forall|i: int| 0 <= i < ds.len() ==> #[trigger] ds[i].priority > 0
    &&& forall|i: int, j: int|
        0 <= i < j < ds.len() ==> #[trigger] ds[i].name@ != #[trigger] ds[j].name@
}

/// Finds the dimension named `name`.
#[verifier::loop_isolation(false)]
pub fn find_dimension(ds: &Vec<Dimension>, name: &String) -> (r: Option<usize>)
    ensures
        r matches Some(i) ==> i < ds.len() && i as int == dim_pos(ds@, name@),
        r is None ==> dim_pos(ds@, name@) == -1,
{
    let ghost p = has_name(name@);
    proof {
        lemma_first_where(ds@, p);
    }
    let mut i: usize = 0;
    while i < ds.len()
        invariant
            i <= ds.len(),
            dim_pos(ds@, name@) == first_where(ds@, p),
            forall|j: int| 0 <= j < i ==> !p(#[trigger] ds@[j]),
        decreases ds.len() - i,
    {
        if ds[i].name == *name {
            return Some(i);
        }
        i = i + 1;
    }
    None
}

/// Finds the default entry of `key`.
#[verifier::loop_isolation(false)]
pub fn find_default(cs: &Vec<DefaultEntry>, key: &String) -> (r: Option<usize>)
    ensures
        r matches Some(i) ==> i < cs.len() && i as int == default_pos(cs@, key@),
        r is None ==> default_pos(cs@, key@) == -1,
{
    let ghost p = has_key(key@);
    proof {
        lemma_first_where(cs@, p);
    }
    let mut i: usize = 0;
    while i < cs.len()
        invariant
            i <= cs.len(),
            default_pos(cs@, key@) == first_where(cs@, p),
            forall|j: int| 0 <= j < i ==> !p(#[trigger] cs@[j]),
        decreases cs.len() - i,
    {
        if cs[i].key == *key {
            return Some(i);
        }
        i = i + 1;
    }
    None
}

/// The schema text holds neither `$ref` nor a `\u` escape. A member named
/// `$ref` can only be read from a text that holds `$ref` itself or spells a
/// character of it with a `\u` escape; so `serde_json` reads no `$ref`
/// from such a text, and validating against it never follows a reference.
pub open spec fn schema_text_safe(t: Seq<char>) -> bool {
    !is_substring(seq!['$', 'r', 'e', 'f'], t) && !is_substring(seq!['\\', 'u'], t)
}

/// Every default entry has a schema text without references.
pub open spec fn defaults_safe(cs: Seq<DefaultEntry>) -> bool {
    forall|i: int| 0 <= i < cs.len() ==> schema_text_safe(text_of(#[trigger] cs[i].schema@))
}

/// Whether a schema text holds neither `$ref` nor a `\u` escape.
pub fn schema_text_is_safe(t: &Vec<char>) -> (r: bool)
    ensures
        r == schema_text_safe(t@),
{
    let reference = vec!['$', 'r', 'e', 'f'];
    let escape = vec!['\\', 'u'];
    assert(reference@ =~= seq!['$', 'r', 'e', 'f']);
    assert(escape@ =~= seq!['\\', 'u']);
    !contains_run(&reference, t) && !contains_run(&escape, t)
}

/// Whether the document with this text compiles as a Draft 7 JSON schema.
pub uninterp spec fn draft7_compiles(schema: Seq<char>) -> bool;

/// Whether the schema with the first text compiles as Draft 7 and accepts the
/// document with the second text.
pub uninterp spec fn draft7_accepts(schema: Seq<char>, instance: Seq<char>) -> bool;

/// Relies on `jsonschema::CompilationOptions::compile` with `Draft::Draft7`, on
/// the value that `serde_json::from_str` reads from the text (a text it cannot
/// read, including one nested deeper than its limit of 128, does not
/// compile): the outcome depends on the text alone.
#[verifier::external_body]
pub(crate) fn compiles_as_draft7(schema: &Vec<char>) -> (r: bool)
    ensures
        r == draft7_compiles(schema@),
{
    let s: String = schema.iter().collect();
    match serde_json::from_str::<serde_json::Value>(&s) {
        Ok(v) => jsonschema::JSONSchema::options().with_draft(jsonschema::Draft::Draft7).compile(
            &v,
        ).is_ok(),
        Err(_) => false,
    }
}

/// Relies on `jsonschema::JSONSchema::is_valid` for the schema compiled as in
/// `compiles_as_draft7`, on the instance read by `serde_json::from_str` (when
/// either step fails, nothing is accepted): the outcome depends on the two
/// texts alone. jsonschema resolves a `$ref` only while validating, with no
/// check for cycles, so `{"$ref":"#"}` would never return; the schema text is
/// therefore required to hold no reference.
#[verifier::external_body]
pub(crate) fn accepted_by_draft7(schema: &Vec<char>, instance: &Vec<char>) -> (r: bool)
    requires
        schema_text_safe(schema@),
    ensures
        r == draft7_accepts(schema@, instance@),
{
    let s: String = schema.iter().collect();
    let i: String = instance.iter().collect();
    match (serde_json::from_str::<serde_json::Value>(&s), serde_json::from_str::<serde_json::Value>(&i)) {
        (Ok(sv), Ok(iv)) => match jsonschema::JSONSchema::options().with_draft(
            jsonschema::Draft::Draft7,
        ).compile(&sv) {
            Ok(compiled) => compiled.is_valid(&iv),
            Err(_) => false,
        },
        _ => false,
    }
}

/// The verdict on one override entry: its key must have a default entry,
/// whose schema must compile and accept the value.
pub open spec fn entry_error(cs: Seq<DefaultEntry>, key: Seq<char>, value: JsonV) -> Option<
    (ErrorKind, Seq<char>),
> {
    let i = default_pos(cs, key);
    if i < 0 {
        Some((ErrorKind::UnknownOverrideKey, key))
    } else if !draft7_compiles(text_of(cs[i].schema@)) {
        Some((ErrorKind::BadSchema, key))
    } else if !draft7_accepts(text_of(cs[i].schema@), text_of(value)) {
        Some((ErrorKind::SchemaValidation, key))
    } else {
        None
    }
}

/// The first failing entry of an override, in order, if any.
pub open spec fn override_error(cs: Seq<DefaultEntry>, ov: Seq<(Seq<char>, JsonV)>) -> Option<
    (ErrorKind, Seq<char>),
>
    decreases ov.len(),
{
    if ov.len() == 0 {
        None
    } else {
        match override_error(cs, ov.drop_last()) {
            Some(e) => Some(e),
            None => entry_error(cs, ov.last().0, ov.last().1),
        }
    }
}

/// Every key of an override has a default entry, whose schema compiles and
/// accepts the value.
pub open spec fn override_valid(cs: Seq<DefaultEntry>, ov: Seq<(Seq<char>, JsonV)>) -> bool {
    forall|i: int| 0 <= i < ov.len() ==> entry_error(cs, #[trigger] ov[i].0, ov[i].1) is None
}

/// An override passes validation exactly when each of its entries does.
pub proof fn lemma_override_error_none(cs: Seq<DefaultEntry>, ov: Seq<(Seq<char>, JsonV)>)
    ensures
        override_error(cs, ov) is None <==> override_valid(cs, ov),
    decreases ov.len(),
{
    if ov.len() > 0 {
        lemma_override_error_none(cs, ov.drop_last());
        if override_valid(cs, ov) {
            assert forall|i: int| 0 <= i < ov.drop_last().len() implies entry_error(
                cs,
                #[trigger] ov.drop_last()[i].0,
                ov.drop_last()[i].1,
            ) is None by {
                assert(ov.drop_last()[i] == ov[i]);
            }
            assert(entry_error(cs, ov[ov.len() - 1].0, ov[ov.len() - 1].1) is None);
        }
        if override_error(cs, ov) is None {
            assert forall|i: int| 0 <= i < ov.len() implies entry_error(
                cs,
                #[trigger] ov[i].0,
                ov[i].1,
            ) is None by {
                if i < ov.len() - 1 {
                    assert(ov.drop_last()[i] == ov[i]);
                }
            }
        }
    }
}

/// Once an error is found in a prefix, it is the error of the whole override.
proof fn lemma_override_error_prefix(cs: Seq<DefaultEntry>, ov: Seq<(Seq<char>, JsonV)>, n: int)
    requires
        0 <= n <= ov.len(),
        override_error(cs, ov.subrange(0, n)) is Some,
    ensures
        override_error(cs, ov) == override_error(cs, ov.subrange(0, n)),
    decreases ov.len() - n,
{
    if n < ov.len() {
        assert(ov.subrange(0, n + 1).drop_last() =~= ov.subrange(0, n));
        lemma_override_error_prefix(cs, ov, n + 1);
    } else {
        assert(ov.subrange(0, n) =~= ov);
    }
}

/// Checks every entry of `ov` against the schema of its key; reports the
/// first entry that fails.
pub fn validate_override(cs: &Vec<DefaultEntry>, ov: &Vec<Member>) -> (r: Result<(), ContextError>)
    requires
        defaults_safe(cs@),
    ensures
        r is Ok <==> override_error(cs@, member_views(ov@)) is None,
        r matches Err(e) ==> override_error(cs@, member_views(ov@)) == Some(e@),
{
    proof {
        lemma_member_views(ov@);
    }
    let mut i: usize = 0;
    while i < ov.len()
        invariant
            i <= ov.len(),
            member_views(ov@).len() == ov.len(),
            forall|j: int|
                0 <= j < ov.len() ==> #[trigger] member_views(ov@)[j] == (ov@[j].key@, ov@[j].value@),
            override_error(cs@, member_views(ov@).subrange(0, i as int)) is None,
            defaults_safe(cs@),
        decreases ov.len() - i,
    {
        let ghost post = member_views(ov@).subrange(0, i as int + 1);
        proof {
            assert(post.drop_last() =~= member_views(ov@).subrange(0, i as int));
        }
        let key = &ov[i].key;
        match find_default(cs, key) {
            None => {
                proof {
                    lemma_override_error_prefix(cs@, member_views(ov@), i as int + 1);
                }
                return Err(ContextError::new(ErrorKind::UnknownOverrideKey, key.clone()));
            },
            Some(k) => {
                let schema_text = to_text(&cs[k].schema);
                assert(schema_text_safe(text_of(cs@[k as int].schema@)));
                if !compiles_as_draft7(&schema_text) {
                    proof {
                    lemma_override_error_prefix(cs@, member_views(ov@), i as int + 1);
                }
                return Err(ContextError::new(ErrorKind::BadSchema, key.clone()));
                }
                let value_text = to_text(&ov[i].value);
                if !accepted_by_draft7(&schema_text, &value_text) {
                    proof {
                    lemma_override_error_prefix(cs@, member_views(ov@), i as int + 1);
                }
                return Err(ContextError::new(ErrorKind::SchemaValidation, key.clone()));
                }
            },
        }
        i = i + 1;
    }
    proof {
        assert(member_views(ov@).subrange(0, ov.len() as int) =~= member_views(ov@));
    }
    Ok(())
}

} // verus!

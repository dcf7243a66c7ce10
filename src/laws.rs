//! Laws of the registry, stated over the models and proved.
use vstd::prelude::*;
use crate::json::{JsonV, merge_patch, merge_members, index_of, lemma_index_of};
use crate::config::{Dimension, DefaultEntry, override_valid, lemma_first_where};
use crate::priority::{extract, priority_sum, all_known, lemma_priority_is_sum};
use crate::digest::hash_of;
use crate::registry::{
    Registry, RowV, row_pos, rows_wf, row_wf, members_of, put_result, move_result, new_row,
    lemma_put_wf,
};

verus! {

/// Every stored context is content addressed (its id and override id are
/// the hashes of its condition and override), has as its priority the
/// positive sum of the priorities of the dimensions its condition
/// references, each reference counted, and has an override whose every key
/// is configured and whose every value its key's schema accepts.
pub proof fn stored_context_laws(reg: Registry, i: int)
    requires
        reg.wf(),
        0 <= i < reg.rows().len(),
    ensures
        reg.rows()[i].id == hash_of(reg.rows()[i].condition),
        reg.rows()[i].override_id == hash_of(reg.rows()[i].override_),
        reg.rows()[i].priority == priority_sum(reg.dimensions@, extract(reg.rows()[i].condition)),
        reg.rows()[i].priority > 0,
        all_known(reg.dimensions@, extract(reg.rows()[i].condition)),
        override_valid(reg.defaults@, members_of(reg.rows()[i].override_)),
{
    let r = reg.rows()[i];
    assert(row_wf(reg.dimensions@, reg.defaults@, r));
    lemma_priority_is_sum(reg.dimensions@, r.condition);
}

/// With distinct ids, a row is found at its own position.
pub proof fn lemma_row_pos_of(rows: Seq<RowV>, i: int)
    requires
        0 <= i < rows.len(),
        forall|a: int, b: int| 0 <= a < b < rows.len() ==> #[trigger] rows[a].id != #[trigger] rows[b].id,
    ensures
        row_pos(rows, rows[i].id) == i,
{
    lemma_first_where(rows, |r: RowV| r.id == rows[i].id);
}

/// Round trip: after a successful PUT, the context stored under the
/// reported id has the condition that was put, and, unless a context with
/// that condition existed already (when the overrides merge), the override
/// that was put.
pub proof fn put_then_get(
    ds: Seq<Dimension>,
    cs: Seq<DefaultEntry>,
    rows: Seq<RowV>,
    ctx: Seq<(Seq<char>, JsonV)>,
    ov: Seq<(Seq<char>, JsonV)>,
    now: int,
    user: Seq<char>,
)
    requires
        rows_wf(ds, cs, rows),
        put_result(ds, cs, rows, ctx, ov, now, user) is Ok,
    ensures
        ({
            let pr = put_result(ds, cs, rows, ctx, ov, now, user)->Ok_0;
            &&& pr.1.id == hash_of(JsonV::Object(ctx))
            &&& pr.1.condition == JsonV::Object(ctx)
            &&& row_pos(pr.0, pr.1.id) >= 0
            &&& pr.0[row_pos(pr.0, pr.1.id)] == pr.1
            &&& rows_wf(ds, cs, pr.0)
            &&& row_pos(rows, pr.1.id) < 0 ==> pr.1.override_ == JsonV::Object(ov)
        }),
{
    let pr = put_result(ds, cs, rows, ctx, ov, now, user)->Ok_0;
    lemma_put_wf(ds, cs, rows, ctx, ov, now, user);
    let nr = new_row(ds, cs, ctx, ov, now, user)->Ok_0;
    lemma_first_where(rows, |r: RowV| r.id == nr.id);
    let k = if row_pos(rows, nr.id) < 0 { rows.len() as int } else { row_pos(rows, nr.id) };
    assert(pr.0[k] == pr.1);
    lemma_row_pos_of(pr.0, k);
}

/// Two PUTs of the same condition address one row: the second leaves the
/// number of rows as it was and merges its override into the stored one
/// (RFC 7396).
pub proof fn put_same_condition_merges(
    ds: Seq<Dimension>,
    cs: Seq<DefaultEntry>,
    rows: Seq<RowV>,
    ctx: Seq<(Seq<char>, JsonV)>,
    ov1: Seq<(Seq<char>, JsonV)>,
    ov2: Seq<(Seq<char>, JsonV)>,
    now1: int,
    now2: int,
    user1: Seq<char>,
    user2: Seq<char>,
)
    requires
        rows_wf(ds, cs, rows),
        put_result(ds, cs, rows, ctx, ov1, now1, user1) is Ok,
        put_result(ds, cs, put_result(ds, cs, rows, ctx, ov1, now1, user1)->Ok_0.0, ctx, ov2, now2, user2) is Ok,
    ensures
        ({
            let first = put_result(ds, cs, rows, ctx, ov1, now1, user1)->Ok_0;
            let second = put_result(ds, cs, first.0, ctx, ov2, now2, user2)->Ok_0;
            &&& second.1.id == first.1.id
            &&& second.0.len() == first.0.len()
            &&& second.1.override_ == merge_patch(first.1.override_, JsonV::Object(ov2))
            &&& second.0[row_pos(second.0, first.1.id)] == second.1
        }),
{
    let first = put_result(ds, cs, rows, ctx, ov1, now1, user1)->Ok_0;
    put_then_get(ds, cs, rows, ctx, ov1, now1, user1);
    put_then_get(ds, cs, first.0, ctx, ov2, now2, user2);
    let second = put_result(ds, cs, first.0, ctx, ov2, now2, user2)->Ok_0;
    let nr2 = new_row(ds, cs, ctx, ov2, now2, user2)->Ok_0;
    assert(nr2.id == first.1.id);
    let i = row_pos(first.0, nr2.id);
    lemma_first_where(first.0, |r: RowV| r.id == nr2.id);
    assert(i >= 0);
    assert(first.0[i] == first.1);
    assert(second.0 == first.0.update(i, second.1));
    lemma_row_pos_of(second.0, i);
}

/// MOVE re-keys a context: afterwards the new row is stored under the id of
/// its condition and nothing remains under the old id (when it differs);
/// when another context already had the new condition, the moved override
/// is merged into that context's override (RFC 7396) and one row fewer
/// remains.
#[verifier::rlimit(80)]
pub proof fn move_rekeys(
    ds: Seq<Dimension>,
    cs: Seq<DefaultEntry>,
    rows: Seq<RowV>,
    old_id: Seq<char>,
    ctx: Seq<(Seq<char>, JsonV)>,
    ov: Seq<(Seq<char>, JsonV)>,
    now: int,
    user: Seq<char>,
)
    requires
        rows_wf(ds, cs, rows),
        move_result(ds, cs, rows, old_id, ctx, ov, now, user) is Ok,
    ensures
        ({
            let pr = move_result(ds, cs, rows, old_id, ctx, ov, now, user)->Ok_0;
            let b = row_pos(rows, hash_of(JsonV::Object(ctx)));
            &&& pr.1.id == hash_of(JsonV::Object(ctx))
            &&& row_pos(pr.0, pr.1.id) >= 0
            &&& pr.0[row_pos(pr.0, pr.1.id)] == pr.1
            &&& old_id != pr.1.id ==> row_pos(pr.0, old_id) < 0
            &&& (b >= 0 && b != row_pos(rows, old_id)) ==> pr.1.override_ == merge_patch(
                rows[b].override_,
                JsonV::Object(ov),
            ) && pr.0.len() == rows.len() - 1
        }),
{
    let pr = move_result(ds, cs, rows, old_id, ctx, ov, now, user)->Ok_0;
    let nr = new_row(ds, cs, ctx, ov, now, user)->Ok_0;
    crate::registry::lemma_move_wf(ds, cs, rows, old_id, ctx, ov, now, user);
    lemma_first_where(rows, |r: RowV| r.id == old_id);
    lemma_first_where(rows, |r: RowV| r.id == nr.id);
    let a = row_pos(rows, old_id);
    let b = row_pos(rows, nr.id);
    if b < 0 || b == a {
        lemma_row_pos_of(pr.0, a);
        lemma_first_where(pr.0, |r: RowV| r.id == old_id);
        if old_id != nr.id {
            assert forall|j: int| 0 <= j < pr.0.len() implies pr.0[j].id != old_id by {
                if j != a {
                    assert(pr.0[j] == rows[j]);
                    if pr.0[j].id == old_id {
                        assert(rows[a].id == old_id);
                    }
                }
            }
            assert(row_pos(pr.0, old_id) < 0) by {
                if row_pos(pr.0, old_id) >= 0 {
                    let x = row_pos(pr.0, old_id);
                    assert(pr.0[x].id == old_id);
                }
            }
        }
    } else {
        let rest = rows.remove(a);
        let bb = if b < a { b } else { b - 1 };
        assert(rest[bb] == rows[b]);
        crate::registry::lemma_remove_wf(ds, cs, rows, a);
        lemma_row_pos_of(rest, bb);
        assert(pr.0[bb] == pr.1);
        lemma_row_pos_of(pr.0, bb);
        lemma_first_where(pr.0, |r: RowV| r.id == old_id);
        assert forall|j: int| 0 <= j < pr.0.len() implies pr.0[j].id != old_id by {
            if j != bb {
                let j0 = if j < a { j } else { j + 1 };
                assert(pr.0[j] == rest[j]);
                assert(rest[j] == rows[j0]);
                if rows[j0].id == old_id {
                    assert(rows[a].id == old_id);
                }
            } else {
                assert(rows[b].id == nr.id);
                if nr.id == old_id {
                    assert(rows[a].id == old_id);
                }
            }
        }
        assert(row_pos(pr.0, old_id) < 0) by {
            if row_pos(pr.0, old_id) >= 0 {
                let x = row_pos(pr.0, old_id);
                assert(pr.0[x].id == old_id);
            }
        }
    }
}


/// No object in the document has a `null` member value or a key twice.
pub open spec fn merge_stable(j: JsonV) -> bool
    decreases j,
{
    match j {
        JsonV::Object(ms) => keys_unique(ms) && values_stable(ms),
        _ => true,
    }
}

/// No key occurs twice.
pub open spec fn keys_unique(ms: Seq<(Seq<char>, JsonV)>) -> bool {
    forall|a: int, b: int| 0 <= a < b < ms.len() ==> #[trigger] ms[a].0 != #[trigger] ms[b].0
}

/// No member value is `null`, and each is itself `merge_stable`.
pub open spec fn values_stable(ms: Seq<(Seq<char>, JsonV)>) -> bool
    decreases ms,
{
    if ms.len() == 0 {
        true
    } else {
        values_stable(ms.drop_last()) && !(ms.last().1 is Null) && merge_stable(ms.last().1)
    }
}

proof fn lemma_values_stable_at(ms: Seq<(Seq<char>, JsonV)>, m: int)
    requires
        values_stable(ms),
        0 <= m < ms.len(),
    ensures
        !(ms[m].1 is Null),
        merge_stable(ms[m].1),
    decreases ms.len(),
{
    if m < ms.len() - 1 {
        lemma_values_stable_at(ms.drop_last(), m);
        assert(ms.drop_last()[m] == ms[m]);
    }
}

/// Idempotence of merging: a document without `null` member values and
/// without repeated keys, merged into itself (RFC 7396), is unchanged.
pub proof fn merge_with_itself(j: JsonV)
    requires
        merge_stable(j),
    ensures
        merge_patch(j, j) == j,
    decreases j, 0int,
{
    if let JsonV::Object(ms) = j {
        lemma_merge_members_self(ms, ms.len() as int);
        assert(ms.subrange(0, ms.len() as int) =~= ms);
    }
}

proof fn lemma_merge_members_self(t: Seq<(Seq<char>, JsonV)>, n: int)
    requires
        keys_unique(t),
        values_stable(t),
        0 <= n <= t.len(),
    ensures
        merge_members(t, t.subrange(0, n)) == t,
    decreases t, n,
{
    if n > 0 {
        lemma_merge_members_self(t, n - 1);
        let p = t.subrange(0, n);
        assert(p.drop_last() =~= t.subrange(0, n - 1));
        assert(p.last() == t[n - 1]);
        lemma_values_stable_at(t, n - 1);
        lemma_index_of(t, t[n - 1].0);
        assert(index_of(t, t[n - 1].0) == n - 1) by {
            let x = index_of(t, t[n - 1].0);
            if x >= 0 && x != n - 1 {
                if x < n - 1 {
                    assert(t[x].0 != t[n - 1].0);
                }
            }
        }
        assert(decreases_to!(t => t[n - 1]));
        merge_with_itself(t[n - 1].1);
        assert(t.update(n - 1, (t[n - 1].0, merge_patch(t[n - 1].1, t[n - 1].1))) =~= t);
    } else {
        assert(t.subrange(0, 0) =~= Seq::<(Seq<char>, JsonV)>::empty());
    }
}

/// Putting the same condition and override twice, where the condition was
/// new and the override has no `null` values or repeated keys, stores the
/// same override and override id as putting them once.
pub proof fn put_twice_keeps_override(
    ds: Seq<Dimension>,
    cs: Seq<DefaultEntry>,
    rows: Seq<RowV>,
    ctx: Seq<(Seq<char>, JsonV)>,
    ov: Seq<(Seq<char>, JsonV)>,
    now1: int,
    now2: int,
    user1: Seq<char>,
    user2: Seq<char>,
)
    requires
        rows_wf(ds, cs, rows),
        merge_stable(JsonV::Object(ov)),
        row_pos(rows, hash_of(JsonV::Object(ctx))) < 0,
        put_result(ds, cs, rows, ctx, ov, now1, user1) is Ok,
        put_result(ds, cs, put_result(ds, cs, rows, ctx, ov, now1, user1)->Ok_0.0, ctx, ov, now2, user2) is Ok,
    ensures
        ({
            let first = put_result(ds, cs, rows, ctx, ov, now1, user1)->Ok_0;
            let second = put_result(ds, cs, first.0, ctx, ov, now2, user2)->Ok_0;
            &&& second.1.override_ == first.1.override_
            &&& second.1.override_id == first.1.override_id
            &&& second.0.len() == first.0.len()
        }),
{
    put_then_get(ds, cs, rows, ctx, ov, now1, user1);
    put_same_condition_merges(ds, cs, rows, ctx, ov, ov, now1, now2, user1, user2);
    merge_with_itself(JsonV::Object(ov));
    let first = put_result(ds, cs, rows, ctx, ov, now1, user1)->Ok_0;
    let second = put_result(ds, cs, first.0, ctx, ov, now2, user2)->Ok_0;
    assert(first.1.override_ == JsonV::Object(ov));
    assert(second.1.override_ == JsonV::Object(ov));
    assert(second.1.override_id == hash_of(second.1.override_));
}

} // verus!

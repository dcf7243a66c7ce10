//! The context registry: rows keyed by the content hash of their condition,
//! with upsert-merge, move, delete and all-or-nothing batches.
use vstd::prelude::*;
use crate::json::{Json, JsonV, Member, member_views, lemma_member_views, merge_patch, merged, copy_members};
use crate::config::{
    Dimension, DefaultEntry, CreateReq, dims_wf, first_where, lemma_first_where, override_error,
    override_valid, lemma_override_error_none, validate_override, default_pos, find_default,
    entry_error, draft7_compiles, draft7_accepts, compiles_as_draft7, accepted_by_draft7,
    lemma_default_pos, lemma_default_pos_is, defaults_safe, schema_text_safe, schema_text_is_safe,
};
use crate::text::{text_of, to_text};
use crate::priority::{
    priority_of, compute_priority, extract, extract_refs, ref_views,
    lemma_checked_sum, lemma_checked_sum_same, all_known,
};
use crate::config::{dim_pos, lemma_dim_pos, lemma_dim_pos_is, find_dimension};
use crate::digest::{hash_of, content_hash, is_hex_id};
use crate::error::{ContextError, ErrorKind};

verus! {

/// A stored context.
#[derive(Debug)]
pub struct ContextRow {
    pub id: String,
    pub condition: Json,
    pub priority: i32,
    pub override_id: String,
    pub override_: Json,
    pub created_at: i64,
    pub created_by: String,
}

/// The model of a stored context.
pub struct RowV {
    pub id: Seq<char>,
    pub condition: JsonV,
    pub priority: int,
    pub override_id: Seq<char>,
    pub override_: JsonV,
    pub created_at: int,
    pub created_by: Seq<char>,
}

impl ContextRow {
    pub open spec fn view(&self) -> RowV {
        RowV {
            id: self.id@,
            condition: self.condition@,
            priority: self.priority as int,
            override_id: self.override_id@,
            override_: self.override_@,
            created_at: self.created_at as int,
            created_by: self.created_by@,
        }
    }

    /// A deep copy.
    pub fn copy(&self) -> (r: ContextRow)
        ensures
            r@ == self@,
    {
        ContextRow {
            id: self.id.clone(),
            condition: self.condition.copy(),
            priority: self.priority,
            override_id: self.override_id.clone(),
            override_: self.override_.copy(),
            created_at: self.created_at,
            created_by: self.created_by.clone(),
        }
    }
}

pub open spec fn rows_view(s: Seq<ContextRow>) -> Seq<RowV> {
    Seq::new(s.len(), |i: int| s[i]@)
}

/// A request to store a context: its condition (an object) and its override.
#[derive(Debug)]
pub struct PutReq {
    pub context: Vec<Member>,
    pub override_: Vec<Member>,
}

/// What a stored context is known by afterwards.
#[derive(Debug)]
pub struct PutResp {
    pub context_id: String,
    pub override_id: String,
    pub priority: i32,
}

impl PutResp {
    /// The response matches the row.
    pub open spec fn describes(&self, r: RowV) -> bool {
        self.context_id@ == r.id && self.override_id@ == r.override_id && self.priority as int
            == r.priority
    }
}

/// One action of a batch.
#[derive(Debug)]
pub enum ContextAction {
    Put(PutReq),
    Delete(String),
    Move(String, PutReq),
}

/// The outcome of one action of a batch.
#[derive(Debug)]
pub enum BulkResponse {
    Put(PutResp),
    Delete(String),
    Move(PutResp),
}

/// The members of an object; nothing for any other document.
pub open spec fn members_of(j: JsonV) -> Seq<(Seq<char>, JsonV)> {
    match j {
        JsonV::Object(ms) => ms,
        _ => Seq::empty(),
    }
}

/// Position of the row with this id, or -1.
pub open spec fn row_pos(rows: Seq<RowV>, id: Seq<char>) -> int {
    first_where(rows, |r: RowV| r.id == id)
}

/// The row that a request would store, or the first validation error: the
/// override is checked first, then the condition's priority.
pub open spec fn new_row(
    ds: Seq<Dimension>,
    cs: Seq<DefaultEntry>,
    ctx: Seq<(Seq<char>, JsonV)>,
    ov: Seq<(Seq<char>, JsonV)>,
    now: int,
    user: Seq<char>,
) -> Result<RowV, (ErrorKind, Seq<char>)> {
    match override_error(cs, ov) {
        Some(e) => Err(e),
        None => match priority_of(ds, JsonV::Object(ctx)) {
            Err(e) => Err(e),
            Ok(p) => Ok(
                RowV {
                    id: hash_of(JsonV::Object(ctx)),
                    condition: JsonV::Object(ctx),
                    priority: p,
                    override_id: hash_of(JsonV::Object(ov)),
                    override_: JsonV::Object(ov),
                    created_at: now,
                    created_by: user,
                },
            ),
        },
    }
}

/// The row `nr` takes the place of the row with the same id, whose
/// override it merges its own into (RFC 7396); the merged override must
/// still validate.
pub open spec fn merge_into(cs: Seq<DefaultEntry>, rows: Seq<RowV>, nr: RowV) -> Result<
    (Seq<RowV>, RowV),
    (ErrorKind, Seq<char>),
> {
    let i = row_pos(rows, nr.id);
    let m = merge_patch(rows[i].override_, nr.override_);
    match override_error(cs, members_of(m)) {
        Some(e) => Err(e),
        None => {
            let row = RowV { override_: m, override_id: hash_of(m), ..nr };
            Ok((rows.update(i, row), row))
        },
    }
}

/// PUT: insert the new row, or merge it into the row with the same condition.
pub open spec fn put_result(
    ds: Seq<Dimension>,
    cs: Seq<DefaultEntry>,
    rows: Seq<RowV>,
    ctx: Seq<(Seq<char>, JsonV)>,
    ov: Seq<(Seq<char>, JsonV)>,
    now: int,
    user: Seq<char>,
) -> Result<(Seq<RowV>, RowV), (ErrorKind, Seq<char>)> {
    match new_row(ds, cs, ctx, ov, now, user) {
        Err(e) => Err(e),
        Ok(nr) => if row_pos(rows, nr.id) < 0 {
            Ok((rows.push(nr), nr))
        } else {
            merge_into(cs, rows, nr)
        },
    }
}

/// MOVE: the row `old_id` is re-keyed to the new condition; when another
/// row already has that condition, `old_id` is deleted and the new row is
/// merged into that one.
pub open spec fn move_result(
    ds: Seq<Dimension>,
    cs: Seq<DefaultEntry>,
    rows: Seq<RowV>,
    old_id: Seq<char>,
    ctx: Seq<(Seq<char>, JsonV)>,
    ov: Seq<(Seq<char>, JsonV)>,
    now: int,
    user: Seq<char>,
) -> Result<(Seq<RowV>, RowV), (ErrorKind, Seq<char>)> {
    match new_row(ds, cs, ctx, ov, now, user) {
        Err(e) => Err(e),
        Ok(nr) => {
            let a = row_pos(rows, old_id);
            let b = row_pos(rows, nr.id);
            if a < 0 {
                Err((ErrorKind::NotFound, old_id))
            } else if b < 0 || b == a {
                Ok((rows.update(a, nr), nr))
            } else {
                merge_into(cs, rows.remove(a), nr)
            }
        },
    }
}

/// DELETE: remove the row with this id.
pub open spec fn delete_result(rows: Seq<RowV>, id: Seq<char>) -> Result<
    Seq<RowV>,
    (ErrorKind, Seq<char>),
> {
    let i = row_pos(rows, id);
    if i < 0 {
        Err((ErrorKind::NotFound, id))
    } else {
        Ok(rows.remove(i))
    }
}

/// The laws that every stored row obeys: its id and override id are the
/// content hashes of its condition and override, its priority is the one
/// its condition has, and its override is an object that validates.
pub open spec fn row_wf(ds: Seq<Dimension>, cs: Seq<DefaultEntry>, r: RowV) -> bool {
    &&& r.id == hash_of(r.condition)
    &&& r.override_id == hash_of(r.override_)
    &&& priority_of(ds, r.condition) == Ok::<int, (ErrorKind, Seq<char>)>(r.priority)
    &&& r.override_ is Object
    &&& override_valid(cs, members_of(r.override_))
}

pub open spec fn rows_wf(ds: Seq<Dimension>, cs: Seq<DefaultEntry>, rows: Seq<RowV>) -> bool {
    &&& forall|i: int| 0 <= i < rows.len() ==> row_wf(ds, cs, #[trigger] rows[i])
    &&& forall|i: int, j: int|
        0 <= i < j < rows.len() ==> #[trigger] rows[i].id != #[trigger] rows[j].id
}

/// The registry: dimensions, default configuration and stored contexts.
#[derive(Debug)]
pub struct Registry {
    pub dimensions: Vec<Dimension>,
    pub defaults: Vec<DefaultEntry>,
    pub contexts: Vec<ContextRow>,
}

impl Registry {
    pub open spec fn rows(&self) -> Seq<RowV> {
        rows_view(self.contexts@)
    }

    /// Dimensions are well formed and every row obeys the row laws.
    pub open spec fn wf(&self) -> bool {
        &&& dims_wf(self.dimensions@)
        &&& defaults_safe(self.defaults@)
        &&& rows_wf(self.dimensions@, self.defaults@, self.rows())
    }
}

/// Finds the row with this id.
#[verifier::loop_isolation(false)]
pub fn find_row(rows: &Vec<ContextRow>, id: &String) -> (r: Option<usize>)
    ensures
        r matches Some(i) ==> i < rows.len() && i as int == row_pos(rows_view(rows@), id@),
        r is None ==> row_pos(rows_view(rows@), id@) == -1,
{
    let ghost p = |r: RowV| r.id == id@;
    proof {
        lemma_first_where(rows_view(rows@), p);
    }
    let mut i: usize = 0;
    while i < rows.len()
        invariant
            i <= rows.len(),
            forall|j: int| 0 <= j < i ==> !p(#[trigger] rows_view(rows@)[j]),
        decreases rows.len() - i,
    {
        assert(rows_view(rows@)[i as int].id == rows@[i as int].id@);
        if rows[i].id == *id {
            return Some(i);
        }
        i = i + 1;
    }
    None
}

/// Builds the row that `req` asks for.
pub fn build_row(
    ds: &Vec<Dimension>,
    cs: &Vec<DefaultEntry>,
    req: &PutReq,
    now: i64,
    user: &String,
) -> (r: Result<ContextRow, ContextError>)
    requires
        dims_wf(ds@),
        defaults_safe(cs@),
    ensures
        r matches Ok(row) ==> is_hex_id(row.id@) && is_hex_id(row.override_id@),
        r matches Ok(row) ==> new_row(
            ds@,
            cs@,
            member_views(req.context@),
            member_views(req.override_@),
            now as int,
            user@,
        ) == Ok::<RowV, (ErrorKind, Seq<char>)>(row@),
        r matches Err(e) ==> new_row(
            ds@,
            cs@,
            member_views(req.context@),
            member_views(req.override_@),
            now as int,
            user@,
        ) == Err::<RowV, (ErrorKind, Seq<char>)>(e@),
{
    match validate_override(cs, &req.override_) {
        Err(e) => {
            return Err(e);
        },
        Ok(()) => {},
    }
    let condition = Json::Object(copy_members(&req.context));
    let priority = match compute_priority(ds, &condition) {
        Err(e) => {
            return Err(e);
        },
        Ok(p) => p,
    };
    let override_ = Json::Object(copy_members(&req.override_));
    let id = content_hash(&condition);
    let override_id = content_hash(&override_);
    Ok(
        ContextRow {
            id,
            condition,
            priority,
            override_id,
            override_,
            created_at: now,
            created_by: user.clone(),
        },
    )
}


/// Merges `nr` into the row at `i`, which has the same id.
fn merge_row_into(cs: &Vec<DefaultEntry>, rows: &mut Vec<ContextRow>, i: usize, nr: ContextRow) -> (r:
    Result<PutResp, ContextError>)
    requires
        defaults_safe(cs@),
        i < old(rows).len(),
        i as int == row_pos(rows_view(old(rows)@), nr@.id),
        nr@.override_ is Object,
        is_hex_id(nr@.id),
    ensures
        r matches Ok(resp) ==> is_hex_id(resp.context_id@) && is_hex_id(resp.override_id@),
        r matches Ok(resp) ==> (merge_into(cs@, rows_view(old(rows)@), nr@) matches Ok(pr)
            && rows_view(final(rows)@) == pr.0 && resp.describes(pr.1)),
        r matches Err(e) ==> merge_into(cs@, rows_view(old(rows)@), nr@) == Err::<
            (Seq<RowV>, RowV),
            (ErrorKind, Seq<char>),
        >(e@) && *final(rows) == *old(rows),
{
    let ghost before = rows_view(rows@);
    assert(before[i as int] == rows@[i as int]@);
    let m = merged(rows[i].override_.copy(), &nr.override_);
    match &m {
        Json::Object(ms) => {
            match validate_override(cs, ms) {
                Err(e) => {
                    return Err(e);
                },
                Ok(()) => {},
            }
        },
        _ => {
            proof {
                assert(false);
            }
            return Err(ContextError::new(ErrorKind::BadSchema, String::new()));
        },
    }
    let override_id = content_hash(&m);
    let row = ContextRow {
        id: nr.id,
        condition: nr.condition,
        priority: nr.priority,
        override_id,
        override_: m,
        created_at: nr.created_at,
        created_by: nr.created_by,
    };
    let resp = PutResp {
        context_id: row.id.clone(),
        override_id: row.override_id.clone(),
        priority: row.priority,
    };
    rows.remove(i);
    rows.insert(i, row);
    proof {
        assert(rows_view(rows@) =~= before.update(i as int, rows@[i as int]@));
    }
    Ok(resp)
}

/// Stores `req`: a new row, or a merge into the row with the same condition.
pub fn put_row(
    ds: &Vec<Dimension>,
    cs: &Vec<DefaultEntry>,
    rows: &mut Vec<ContextRow>,
    req: &PutReq,
    now: i64,
    user: &String,
) -> (r: Result<PutResp, ContextError>)
    requires
        dims_wf(ds@),
        defaults_safe(cs@),
    ensures
        r matches Ok(resp) ==> is_hex_id(resp.context_id@) && is_hex_id(resp.override_id@),
        r matches Ok(resp) ==> (put_result(
            ds@,
            cs@,
            rows_view(old(rows)@),
            member_views(req.context@),
            member_views(req.override_@),
            now as int,
            user@,
        ) matches Ok(pr) && rows_view(final(rows)@) == pr.0 && resp.describes(pr.1)),
        r matches Err(e) ==> put_result(
            ds@,
            cs@,
            rows_view(old(rows)@),
            member_views(req.context@),
            member_views(req.override_@),
            now as int,
            user@,
        ) == Err::<(Seq<RowV>, RowV), (ErrorKind, Seq<char>)>(e@) && *final(rows) == *old(rows),
{
    let nr = match build_row(ds, cs, req, now, user) {
        Err(e) => {
            return Err(e);
        },
        Ok(row) => row,
    };
    match find_row(rows, &nr.id) {
        None => {
            let resp = PutResp {
                context_id: nr.id.clone(),
                override_id: nr.override_id.clone(),
                priority: nr.priority,
            };
            let ghost before = rows_view(rows@);
            rows.push(nr);
            proof {
                assert(rows_view(rows@) =~= before.push(rows@.last()@));
            }
            Ok(resp)
        },
        Some(i) => merge_row_into(cs, rows, i, nr),
    }
}

/// Re-keys the row `old_id` to the condition of `req`.
pub fn move_row(
    ds: &Vec<Dimension>,
    cs: &Vec<DefaultEntry>,
    rows: &mut Vec<ContextRow>,
    old_id: &String,
    req: &PutReq,
    now: i64,
    user: &String,
) -> (r: Result<PutResp, ContextError>)
    requires
        dims_wf(ds@),
        defaults_safe(cs@),
    ensures
        r matches Ok(resp) ==> is_hex_id(resp.context_id@) && is_hex_id(resp.override_id@),
        r matches Ok(resp) ==> (move_result(
            ds@,
            cs@,
            rows_view(old(rows)@),
            old_id@,
            member_views(req.context@),
            member_views(req.override_@),
            now as int,
            user@,
        ) matches Ok(pr) && rows_view(final(rows)@) == pr.0 && resp.describes(pr.1)),
        r matches Err(e) ==> move_result(
            ds@,
            cs@,
            rows_view(old(rows)@),
            old_id@,
            member_views(req.context@),
            member_views(req.override_@),
            now as int,
            user@,
        ) == Err::<(Seq<RowV>, RowV), (ErrorKind, Seq<char>)>(e@) && *final(rows) == *old(rows),
{
    let nr = match build_row(ds, cs, req, now, user) {
        Err(e) => {
            return Err(e);
        },
        Ok(row) => row,
    };
    let ghost before = rows_view(rows@);
    let a = match find_row(rows, old_id) {
        None => {
            return Err(ContextError::new(ErrorKind::NotFound, old_id.clone()));
        },
        Some(a) => a,
    };
    let b = find_row(rows, &nr.id);
    let occupied = match b {
        Some(b) => b != a,
        None => false,
    };
    if !occupied {
        let resp = PutResp {
            context_id: nr.id.clone(),
            override_id: nr.override_id.clone(),
            priority: nr.priority,
        };
        rows.remove(a);
        rows.insert(a, nr);
        proof {
            assert(rows_view(rows@) =~= before.update(a as int, rows@[a as int]@));
        }
        Ok(resp)
    } else {
        let mut work: Vec<ContextRow> = copy_rows(rows);
        work.remove(a);
        proof {
            assert(rows_view(work@) =~= before.remove(a as int));
        }
        match find_row(&work, &nr.id) {
            None => {
                proof {
                    let bb = row_pos(before, nr@.id);
                    lemma_first_where(before, |r: RowV| r.id == nr@.id);
                    lemma_first_where(rows_view(work@), |r: RowV| r.id == nr@.id);
                    if bb < a {
                        assert(rows_view(work@)[bb].id == nr@.id);
                    } else {
                        assert(rows_view(work@)[bb - 1].id == nr@.id);
                    }
                    assert(false);
                }
                Err(ContextError::new(ErrorKind::NotFound, old_id.clone()))
            },
            Some(c) => {
                let res = merge_row_into(cs, &mut work, c, nr);
                match res {
                    Ok(resp) => {
                        *rows = work;
                        Ok(resp)
                    },
                    Err(e) => Err(e),
                }
            },
        }
    }
}

/// A deep copy of a list of rows.
pub fn copy_rows(rows: &Vec<ContextRow>) -> (r: Vec<ContextRow>)
    ensures
        rows_view(r@) == rows_view(rows@),
{
    let mut out: Vec<ContextRow> = Vec::new();
    let mut i: usize = 0;
    while i < rows.len()
        invariant
            i <= rows.len(),
            out@.len() == i,
            forall|j: int| 0 <= j < i ==> #[trigger] out@[j]@ == rows@[j]@,
        decreases rows.len() - i,
    {
        out.push(rows[i].copy());
        i = i + 1;
    }
    assert(rows_view(out@) =~= rows_view(rows@));
    out
}

/// Removes the row with this id.
pub fn delete_row(rows: &mut Vec<ContextRow>, id: &String) -> (r: Result<(), ContextError>)
    ensures
        r is Ok ==> delete_result(rows_view(old(rows)@), id@) == Ok::<
            Seq<RowV>,
            (ErrorKind, Seq<char>),
        >(rows_view(final(rows)@)),
        r matches Err(e) ==> delete_result(rows_view(old(rows)@), id@) == Err::<
            Seq<RowV>,
            (ErrorKind, Seq<char>),
        >(e@) && *final(rows) == *old(rows),
{
    let ghost before = rows_view(rows@);
    match find_row(rows, id) {
        None => Err(ContextError::new(ErrorKind::NotFound, id.clone())),
        Some(i) => {
            rows.remove(i);
            assert(rows_view(rows@) =~= before.remove(i as int));
            Ok(())
        },
    }
}


/// A row built from a request obeys the row laws.
proof fn lemma_new_row_wf(
    ds: Seq<Dimension>,
    cs: Seq<DefaultEntry>,
    ctx: Seq<(Seq<char>, JsonV)>,
    ov: Seq<(Seq<char>, JsonV)>,
    now: int,
    user: Seq<char>,
)
    ensures
        new_row(ds, cs, ctx, ov, now, user) matches Ok(nr) ==> row_wf(ds, cs, nr),
{
    lemma_override_error_none(cs, ov);
}

/// Merging into a row keeps the row laws.
proof fn lemma_merge_into_wf(ds: Seq<Dimension>, cs: Seq<DefaultEntry>, rows: Seq<RowV>, nr: RowV)
    requires
        rows_wf(ds, cs, rows),
        row_wf(ds, cs, nr),
        row_pos(rows, nr.id) >= 0,
    ensures
        merge_into(cs, rows, nr) matches Ok(pr) ==> rows_wf(ds, cs, pr.0) && row_wf(ds, cs, pr.1),
{
    lemma_first_where(rows, |r: RowV| r.id == nr.id);
    let i = row_pos(rows, nr.id);
    let m = merge_patch(rows[i].override_, nr.override_);
    lemma_override_error_none(cs, members_of(m));
    if let Ok(pr) = merge_into(cs, rows, nr) {
        assert(pr.0[i].id == rows[i].id);
        assert forall|a: int, b: int| 0 <= a < b < pr.0.len() implies #[trigger] pr.0[a].id
            != #[trigger] pr.0[b].id by {
            assert(pr.0[a].id == rows[a].id);
            assert(pr.0[b].id == rows[b].id);
        }
    }
}

/// A successful PUT keeps the row laws.
pub proof fn lemma_put_wf(
    ds: Seq<Dimension>,
    cs: Seq<DefaultEntry>,
    rows: Seq<RowV>,
    ctx: Seq<(Seq<char>, JsonV)>,
    ov: Seq<(Seq<char>, JsonV)>,
    now: int,
    user: Seq<char>,
)
    requires
        rows_wf(ds, cs, rows),
    ensures
        put_result(ds, cs, rows, ctx, ov, now, user) matches Ok(pr) ==> rows_wf(ds, cs, pr.0)
            && row_wf(ds, cs, pr.1),
{
    lemma_new_row_wf(ds, cs, ctx, ov, now, user);
    if let Ok(nr) = new_row(ds, cs, ctx, ov, now, user) {
        lemma_first_where(rows, |r: RowV| r.id == nr.id);
        if row_pos(rows, nr.id) < 0 {
            let nrows = rows.push(nr);
            assert forall|a: int, b: int| 0 <= a < b < nrows.len() implies #[trigger] nrows[a].id
                != #[trigger] nrows[b].id by {
                if b == rows.len() {
                    assert(nrows[a] == rows[a]);
                } else {
                    assert(nrows[a] == rows[a] && nrows[b] == rows[b]);
                }
            }
            assert forall|a: int| 0 <= a < nrows.len() implies row_wf(ds, cs, #[trigger] nrows[a]) by {
                if a < rows.len() {
                    assert(nrows[a] == rows[a]);
                }
            }
        } else {
            lemma_merge_into_wf(ds, cs, rows, nr);
        }
    }
}

/// A successful MOVE keeps the row laws.
pub proof fn lemma_move_wf(
    ds: Seq<Dimension>,
    cs: Seq<DefaultEntry>,
    rows: Seq<RowV>,
    old_id: Seq<char>,
    ctx: Seq<(Seq<char>, JsonV)>,
    ov: Seq<(Seq<char>, JsonV)>,
    now: int,
    user: Seq<char>,
)
    requires
        rows_wf(ds, cs, rows),
    ensures
        move_result(ds, cs, rows, old_id, ctx, ov, now, user) matches Ok(pr) ==> rows_wf(
            ds,
            cs,
            pr.0,
        ) && row_wf(ds, cs, pr.1),
{
    lemma_new_row_wf(ds, cs, ctx, ov, now, user);
    if let Ok(nr) = new_row(ds, cs, ctx, ov, now, user) {
        lemma_first_where(rows, |r: RowV| r.id == nr.id);
        lemma_first_where(rows, |r: RowV| r.id == old_id);
        let a = row_pos(rows, old_id);
        let b = row_pos(rows, nr.id);
        if a >= 0 {
            if b < 0 || b == a {
                let nrows = rows.update(a, nr);
                assert forall|x: int, y: int| 0 <= x < y < nrows.len() implies #[trigger] nrows[x].id
                    != #[trigger] nrows[y].id by {
                    if x == a {
                        assert(nrows[y] == rows[y]);
                    } else if y == a {
                        assert(nrows[x] == rows[x]);
                    } else {
                        assert(nrows[x] == rows[x] && nrows[y] == rows[y]);
                    }
                }
                assert forall|x: int| 0 <= x < nrows.len() implies row_wf(ds, cs, #[trigger] nrows[x]) by {
                    if x != a {
                        assert(nrows[x] == rows[x]);
                    }
                }
            } else {
                let rest = rows.remove(a);
                lemma_remove_wf(ds, cs, rows, a);
                let bb = if b < a { b } else { b - 1 };
                assert(rest[bb].id == nr.id);
                lemma_first_where(rest, |r: RowV| r.id == nr.id);
                lemma_merge_into_wf(ds, cs, rest, nr);
            }
        }
    }
}

/// A successful DELETE keeps the row laws.
pub proof fn lemma_delete_wf(ds: Seq<Dimension>, cs: Seq<DefaultEntry>, rows: Seq<RowV>, id: Seq<char>)
    requires
        rows_wf(ds, cs, rows),
    ensures
        delete_result(rows, id) matches Ok(nrows) ==> rows_wf(ds, cs, nrows),
{
    lemma_first_where(rows, |r: RowV| r.id == id);
    let a = row_pos(rows, id);
    if a >= 0 {
        lemma_remove_wf(ds, cs, rows, a);
    }
}

/// Removing a row keeps the row laws.
pub proof fn lemma_remove_wf(ds: Seq<Dimension>, cs: Seq<DefaultEntry>, rows: Seq<RowV>, a: int)
    requires
        rows_wf(ds, cs, rows),
        0 <= a < rows.len(),
    ensures
        rows_wf(ds, cs, rows.remove(a)),
{
    let rest = rows.remove(a);
    assert forall|x: int, y: int| 0 <= x < y < rest.len() implies #[trigger] rest[x].id
        != #[trigger] rest[y].id by {
        let x0 = if x < a { x } else { x + 1 };
        let y0 = if y < a { y } else { y + 1 };
        assert(rest[x] == rows[x0] && rest[y] == rows[y0]);
    }
    assert forall|x: int| 0 <= x < rest.len() implies row_wf(ds, cs, #[trigger] rest[x]) by {
        let x0 = if x < a { x } else { x + 1 };
        assert(rest[x] == rows[x0]);
    }
}


/// The model of a batch action.
pub enum ActionV {
    Put(Seq<(Seq<char>, JsonV)>, Seq<(Seq<char>, JsonV)>),
    Delete(Seq<char>),
    Move(Seq<char>, Seq<(Seq<char>, JsonV)>, Seq<(Seq<char>, JsonV)>),
}

impl ContextAction {
    pub open spec fn view(&self) -> ActionV {
        match self {
            ContextAction::Put(req) => ActionV::Put(
                member_views(req.context@),
                member_views(req.override_@),
            ),
            ContextAction::Delete(id) => ActionV::Delete(id@),
            ContextAction::Move(id, req) => ActionV::Move(
                id@,
                member_views(req.context@),
                member_views(req.override_@),
            ),
        }
    }
}

pub open spec fn actions_view(s: Seq<ContextAction>) -> Seq<ActionV> {
    Seq::new(s.len(), |i: int| s[i]@)
}

/// The model of the outcome of one batch action.
pub enum OutcomeV {
    Put(RowV),
    Delete(Seq<char>),
    Move(RowV),
}

impl BulkResponse {
    pub open spec fn describes(&self, o: OutcomeV) -> bool {
        match (self, o) {
            (BulkResponse::Put(resp), OutcomeV::Put(row)) => resp.describes(row),
            (BulkResponse::Delete(id), OutcomeV::Delete(d)) => id@ == d,
            (BulkResponse::Move(resp), OutcomeV::Move(row)) => resp.describes(row),
            _ => false,
        }
    }
}

/// One action of a batch applied to the rows.
pub open spec fn step_result(
    ds: Seq<Dimension>,
    cs: Seq<DefaultEntry>,
    rows: Seq<RowV>,
    a: ActionV,
    now: int,
    user: Seq<char>,
) -> Result<(Seq<RowV>, OutcomeV), (ErrorKind, Seq<char>)> {
    match a {
        ActionV::Put(ctx, ov) => match put_result(ds, cs, rows, ctx, ov, now, user) {
            Ok(pr) => Ok((pr.0, OutcomeV::Put(pr.1))),
            Err(e) => Err(e),
        },
        ActionV::Delete(id) => match delete_result(rows, id) {
            Ok(nrows) => Ok((nrows, OutcomeV::Delete(id))),
            Err(e) => Err(e),
        },
        ActionV::Move(id, ctx, ov) => match move_result(ds, cs, rows, id, ctx, ov, now, user) {
            Ok(pr) => Ok((pr.0, OutcomeV::Move(pr.1))),
            Err(e) => Err(e),
        },
    }
}

/// A batch applied in order; the first failing action fails the batch.
pub open spec fn bulk_result(
    ds: Seq<Dimension>,
    cs: Seq<DefaultEntry>,
    rows: Seq<RowV>,
    acts: Seq<ActionV>,
    now: int,
    user: Seq<char>,
) -> Result<(Seq<RowV>, Seq<OutcomeV>), (ErrorKind, Seq<char>)>
    decreases acts.len(),
{
    if acts.len() == 0 {
        Ok((rows, Seq::empty()))
    } else {
        match bulk_result(ds, cs, rows, acts.drop_last(), now, user) {
            Err(e) => Err(e),
            Ok(br) => match step_result(ds, cs, br.0, acts.last(), now, user) {
                Err(e) => Err(e),
                Ok(sr) => Ok((sr.0, br.1.push(sr.1))),
            },
        }
    }
}

/// A successful batch keeps the row laws.
pub proof fn lemma_bulk_wf(
    ds: Seq<Dimension>,
    cs: Seq<DefaultEntry>,
    rows: Seq<RowV>,
    acts: Seq<ActionV>,
    now: int,
    user: Seq<char>,
)
    requires
        rows_wf(ds, cs, rows),
    ensures
        bulk_result(ds, cs, rows, acts, now, user) matches Ok(br) ==> rows_wf(ds, cs, br.0),
    decreases acts.len(),
{
    if acts.len() > 0 {
        lemma_bulk_wf(ds, cs, rows, acts.drop_last(), now, user);
        if let Ok(br) = bulk_result(ds, cs, rows, acts.drop_last(), now, user) {
            match acts.last() {
                ActionV::Put(ctx, ov) => lemma_put_wf(ds, cs, br.0, ctx, ov, now, user),
                ActionV::Delete(id) => lemma_delete_wf(ds, cs, br.0, id),
                ActionV::Move(id, ctx, ov) => lemma_move_wf(ds, cs, br.0, id, ctx, ov, now, user),
            }
        }
    }
}

/// Once an action fails, the batch fails with its error.
proof fn lemma_bulk_error_stays(
    ds: Seq<Dimension>,
    cs: Seq<DefaultEntry>,
    rows: Seq<RowV>,
    acts: Seq<ActionV>,
    n: int,
    now: int,
    user: Seq<char>,
)
    requires
        0 <= n <= acts.len(),
        bulk_result(ds, cs, rows, acts.subrange(0, n), now, user) is Err,
    ensures
        bulk_result(ds, cs, rows, acts, now, user) == bulk_result(
            ds,
            cs,
            rows,
            acts.subrange(0, n),
            now,
            user,
        ),
    decreases acts.len() - n,
{
    if n < acts.len() {
        assert(acts.subrange(0, n + 1).drop_last() =~= acts.subrange(0, n));
        lemma_bulk_error_stays(ds, cs, rows, acts, n + 1, now, user);
    } else {
        assert(acts.subrange(0, n) =~= acts);
    }
}

/// Applies a batch to `rows` in place.
#[verifier::loop_isolation(false)]
fn apply_actions(
    ds: &Vec<Dimension>,
    cs: &Vec<DefaultEntry>,
    rows: &mut Vec<ContextRow>,
    actions: &Vec<ContextAction>,
    now: i64,
    user: &String,
) -> (r: Result<Vec<BulkResponse>, ContextError>)
    requires
        dims_wf(ds@),
        defaults_safe(cs@),
    ensures
        r matches Ok(resps) ==> (bulk_result(
            ds@,
            cs@,
            rows_view(old(rows)@),
            actions_view(actions@),
            now as int,
            user@,
        ) matches Ok(br) && rows_view(final(rows)@) == br.0 && resps@.len() == br.1.len()
            && forall|i: int| 0 <= i < br.1.len() ==> (#[trigger] resps@[i]).describes(br.1[i])),
        r matches Err(e) ==> bulk_result(
            ds@,
            cs@,
            rows_view(old(rows)@),
            actions_view(actions@),
            now as int,
            user@,
        ) == Err::<(Seq<RowV>, Seq<OutcomeV>), (ErrorKind, Seq<char>)>(e@),
{
    let ghost start = rows_view(rows@);
    let ghost acts = actions_view(actions@);
    let mut resps: Vec<BulkResponse> = Vec::new();
    let mut i: usize = 0;
    assert(acts.subrange(0, 0) =~= Seq::<ActionV>::empty());
    while i < actions.len()
        invariant
            i <= actions.len(),
            bulk_result(ds@, cs@, start, acts.subrange(0, i as int), now as int, user@) matches Ok(br)
                && rows_view(rows@) == br.0 && resps@.len() == br.1.len() && forall|j: int|
                0 <= j < br.1.len() ==> (#[trigger] resps@[j]).describes(br.1[j]),
        decreases actions.len() - i,
    {
        let ghost post = acts.subrange(0, i as int + 1);
        let ghost br = bulk_result(ds@, cs@, start, acts.subrange(0, i as int), now as int, user@)->Ok_0;
        proof {
            assert(post.drop_last() =~= acts.subrange(0, i as int));
            assert(post.last() == actions@[i as int]@);
        }
        let out = match &actions[i] {
            ContextAction::Put(req) => match put_row(ds, cs, rows, req, now, user) {
                Ok(resp) => BulkResponse::Put(resp),
                Err(e) => {
                    proof {
                        lemma_bulk_error_stays(ds@, cs@, start, acts, i as int + 1, now as int, user@);
                    }
                    return Err(e);
                },
            },
            ContextAction::Delete(id) => match delete_row(rows, id) {
                Ok(()) => BulkResponse::Delete(id.clone()),
                Err(e) => {
                    proof {
                        lemma_bulk_error_stays(ds@, cs@, start, acts, i as int + 1, now as int, user@);
                    }
                    return Err(e);
                },
            },
            ContextAction::Move(id, req) => match move_row(ds, cs, rows, id, req, now, user) {
                Ok(resp) => BulkResponse::Move(resp),
                Err(e) => {
                    proof {
                        lemma_bulk_error_stays(ds@, cs@, start, acts, i as int + 1, now as int, user@);
                    }
                    return Err(e);
                },
            },
        };
        resps.push(out);
        proof {
            let nb = bulk_result(ds@, cs@, start, post, now as int, user@)->Ok_0;
            assert forall|j: int| 0 <= j < nb.1.len() implies (#[trigger] resps@[j]).describes(nb.1[j]) by {
                if j < br.1.len() {
                    assert(nb.1[j] == br.1[j]);
                }
            }
        }
        i = i + 1;
    }
    proof {
        assert(acts.subrange(0, actions.len() as int) =~= acts);
    }
    Ok(resps)
}

impl Registry {
    /// A registry with these dimensions and defaults and no contexts; `None`
    /// when a priority is not positive, two dimensions share a name, or a
    /// default schema may hold a reference (see `schema_text_safe`).
    pub fn new(dimensions: Vec<Dimension>, defaults: Vec<DefaultEntry>) -> (r: Option<Registry>)
        ensures
            r is Some <==> dims_wf(dimensions@) && defaults_safe(defaults@),
            r matches Some(reg) ==> reg.wf() && reg.dimensions@ == dimensions@ && reg.defaults@
                == defaults@ && reg.contexts@.len() == 0,
    {
        let mut i: usize = 0;
        while i < dimensions.len()
            invariant
                i <= dimensions.len(),
                forall|a: int| 0 <= a < i ==> #[trigger] dimensions@[a].priority > 0,
                forall|a: int, b: int|
                    0 <= a < b < i ==> #[trigger] dimensions@[a].name@ != #[trigger] dimensions@[b].name@,
            decreases dimensions.len() - i,
        {
            if dimensions[i].priority <= 0 {
                return None;
            }
            let mut j: usize = 0;
            while j < i
                invariant
                    j <= i < dimensions.len(),
                    forall|a: int| 0 <= a < j ==> #[trigger] dimensions@[a].name@ != dimensions@[i as int].name@,
                decreases i - j,
            {
                if dimensions[j].name == dimensions[i].name {
                    return None;
                }
                j = j + 1;
            }
            i = i + 1;
        }
        let mut k: usize = 0;
        while k < defaults.len()
            invariant
                k <= defaults.len(),
                forall|a: int| 0 <= a < k ==> schema_text_safe(text_of(#[trigger] defaults@[a].schema@)),
            decreases defaults.len() - k,
        {
            let t = to_text(&defaults[k].schema);
            if !schema_text_is_safe(&t) {
                return None;
            }
            k = k + 1;
        }
        let reg = Registry { dimensions, defaults, contexts: Vec::new() };
        assert(reg.rows() =~= Seq::<RowV>::empty());
        Some(reg)
    }

    /// PUT: stores a context, or merges its override into the context with
    /// the same condition.
    pub fn put(&mut self, req: &PutReq, now: i64, user: &String) -> (r: Result<PutResp, ContextError>)
        requires
            old(self).wf(),
        ensures
            r matches Ok(resp) ==> resp.context_id@ == hash_of(
                JsonV::Object(member_views(req.context@)),
            ) && row_pos(final(self).rows(), resp.context_id@) >= 0 && final(self).rows()[row_pos(
                final(self).rows(),
                resp.context_id@,
            )].condition == JsonV::Object(member_views(req.context@)),
            r matches Ok(resp) ==> is_hex_id(resp.context_id@) && is_hex_id(resp.override_id@),
            final(self).wf(),
            final(self).dimensions == old(self).dimensions,
            final(self).defaults == old(self).defaults,
            r matches Ok(resp) ==> (put_result(
                old(self).dimensions@,
                old(self).defaults@,
                old(self).rows(),
                member_views(req.context@),
                member_views(req.override_@),
                now as int,
                user@,
            ) matches Ok(pr) && final(self).rows() == pr.0 && resp.describes(pr.1)),
            r matches Err(e) ==> put_result(
                old(self).dimensions@,
                old(self).defaults@,
                old(self).rows(),
                member_views(req.context@),
                member_views(req.override_@),
                now as int,
                user@,
            ) == Err::<(Seq<RowV>, RowV), (ErrorKind, Seq<char>)>(e@) && *final(self) == *old(self),
    {
        proof {
            lemma_put_wf(
                self.dimensions@,
                self.defaults@,
                self.rows(),
                member_views(req.context@),
                member_views(req.override_@),
                now as int,
                user@,
            );
        }
        let ghost rows = self.rows();
        let r = put_row(&self.dimensions, &self.defaults, &mut self.contexts, req, now, user);
        proof {
            if r is Ok {
                crate::laws::put_then_get(
                    self.dimensions@,
                    self.defaults@,
                    rows,
                    member_views(req.context@),
                    member_views(req.override_@),
                    now as int,
                    user@,
                );
            }
        }
        r
    }

    /// MOVE: re-keys the context `old_id` to the condition of `req`, merging
    /// into the context that already has that condition, if any.
    pub fn move_context(&mut self, old_id: &String, req: &PutReq, now: i64, user: &String) -> (r:
        Result<PutResp, ContextError>)
        requires
            old(self).wf(),
        ensures
            r matches Ok(resp) ==> resp.context_id@ == hash_of(
                JsonV::Object(member_views(req.context@)),
            ) && row_pos(final(self).rows(), resp.context_id@) >= 0 && (old_id@ != resp.context_id@
                ==> row_pos(final(self).rows(), old_id@) < 0),
            r matches Ok(resp) ==> is_hex_id(resp.context_id@) && is_hex_id(resp.override_id@),
            final(self).wf(),
            final(self).dimensions == old(self).dimensions,
            final(self).defaults == old(self).defaults,
            r matches Ok(resp) ==> (move_result(
                old(self).dimensions@,
                old(self).defaults@,
                old(self).rows(),
                old_id@,
                member_views(req.context@),
                member_views(req.override_@),
                now as int,
                user@,
            ) matches Ok(pr) && final(self).rows() == pr.0 && resp.describes(pr.1)),
            r matches Err(e) ==> move_result(
                old(self).dimensions@,
                old(self).defaults@,
                old(self).rows(),
                old_id@,
                member_views(req.context@),
                member_views(req.override_@),
                now as int,
                user@,
            ) == Err::<(Seq<RowV>, RowV), (ErrorKind, Seq<char>)>(e@) && *final(self) == *old(self),
    {
        proof {
            lemma_move_wf(
                self.dimensions@,
                self.defaults@,
                self.rows(),
                old_id@,
                member_views(req.context@),
                member_views(req.override_@),
                now as int,
                user@,
            );
        }
        let ghost rows = self.rows();
        let r = move_row(&self.dimensions, &self.defaults, &mut self.contexts, old_id, req, now, user);
        proof {
            if r is Ok {
                crate::laws::move_rekeys(
                    self.dimensions@,
                    self.defaults@,
                    rows,
                    old_id@,
                    member_views(req.context@),
                    member_views(req.override_@),
                    now as int,
                    user@,
                );
            }
        }
        r
    }

    /// DELETE: removes the context with this id.
    pub fn delete_context(&mut self, id: &String) -> (r: Result<(), ContextError>)
        requires
            old(self).wf(),
        ensures
            final(self).wf(),
            final(self).dimensions == old(self).dimensions,
            final(self).defaults == old(self).defaults,
            r is Ok ==> delete_result(old(self).rows(), id@) == Ok::<
                Seq<RowV>,
                (ErrorKind, Seq<char>),
            >(final(self).rows()),
            r matches Err(e) ==> delete_result(old(self).rows(), id@) == Err::<
                Seq<RowV>,
                (ErrorKind, Seq<char>),
            >(e@) && *final(self) == *old(self),
    {
        proof {
            lemma_delete_wf(self.dimensions@, self.defaults@, self.rows(), id@);
        }
        delete_row(&mut self.contexts, id)
    }

    /// GET: a copy of the context with this id.
    pub fn get_context(&self, id: &String) -> (r: Result<ContextRow, ContextError>)
        ensures
            r matches Ok(row) ==> row_pos(self.rows(), id@) >= 0 && row@ == self.rows()[row_pos(
                self.rows(),
                id@,
            )],
            r matches Err(e) ==> row_pos(self.rows(), id@) < 0 && e@ == (ErrorKind::NotFound, id@),
    {
        match find_row(&self.contexts, id) {
            None => Err(ContextError::new(ErrorKind::NotFound, id.clone())),
            Some(i) => Ok(self.contexts[i].copy()),
        }
    }

    /// BULK: applies the actions in order, all or nothing: when one fails,
    /// the registry is left exactly as it was.
    pub fn bulk_operations(&mut self, actions: &Vec<ContextAction>, now: i64, user: &String) -> (r:
        Result<Vec<BulkResponse>, ContextError>)
        requires
            old(self).wf(),
        ensures
            final(self).wf(),
            final(self).dimensions == old(self).dimensions,
            final(self).defaults == old(self).defaults,
            r matches Ok(resps) ==> (bulk_result(
                old(self).dimensions@,
                old(self).defaults@,
                old(self).rows(),
                actions_view(actions@),
                now as int,
                user@,
            ) matches Ok(br) && final(self).rows() == br.0 && resps@.len() == br.1.len()
                && forall|i: int| 0 <= i < br.1.len() ==> (#[trigger] resps@[i]).describes(br.1[i])),
            r matches Err(e) ==> bulk_result(
                old(self).dimensions@,
                old(self).defaults@,
                old(self).rows(),
                actions_view(actions@),
                now as int,
                user@,
            ) == Err::<(Seq<RowV>, Seq<OutcomeV>), (ErrorKind, Seq<char>)>(e@) && *final(self)
                == *old(self),
    {
        proof {
            lemma_bulk_wf(
                self.dimensions@,
                self.defaults@,
                self.rows(),
                actions_view(actions@),
                now as int,
                user@,
            );
        }
        let mut work = copy_rows(&self.contexts);
        match apply_actions(&self.dimensions, &self.defaults, &mut work, actions, now, user) {
            Ok(resps) => {
                self.contexts = work;
                Ok(resps)
            },
            Err(e) => Err(e),
        }
    }
}


/// Every stored override entry for `key` is accepted by the schema with
/// this text.
pub open spec fn overrides_accept(rows: Seq<RowV>, key: Seq<char>, schema_text: Seq<char>) -> bool {
    forall|r: int, m: int|
        0 <= r < rows.len() && 0 <= m < members_of(rows[r].override_).len() && (#[trigger] members_of(
            rows[r].override_,
        )[m]).0 == key ==> draft7_accepts(schema_text, text_of(members_of(rows[r].override_)[m].1))
}

/// Why a default entry for `key` with this schema and value cannot be
/// stored: the schema must hold no reference, compile, accept the value,
/// and accept every stored override value for `key`.
pub open spec fn upsert_error(rows: Seq<RowV>, key: Seq<char>, schema: JsonV, value: JsonV) -> Option<
    (ErrorKind, Seq<char>),
> {
    let st = text_of(schema);
    if !schema_text_safe(st) {
        Some((ErrorKind::SchemaReference, key))
    } else if !draft7_compiles(st) {
        Some((ErrorKind::BadSchema, key))
    } else if !draft7_accepts(st, text_of(value)) {
        Some((ErrorKind::SchemaValidation, key))
    } else if !overrides_accept(rows, key, st) {
        Some((ErrorKind::SchemaValidation, key))
    } else {
        None
    }
}

/// Replacing or adding the default entry of a key whose schema compiles and
/// accepts every stored override value for it keeps the row laws.
proof fn lemma_upsert_wf(
    ds: Seq<Dimension>,
    cs: Seq<DefaultEntry>,
    rows: Seq<RowV>,
    e: DefaultEntry,
    cs2: Seq<DefaultEntry>,
)
    requires
        rows_wf(ds, cs, rows),
        draft7_compiles(text_of(e.schema@)),
        overrides_accept(rows, e.key@, text_of(e.schema@)),
        cs2 == (if default_pos(cs, e.key@) < 0 {
            cs.push(e)
        } else {
            cs.update(default_pos(cs, e.key@), e)
        }),
    ensures
        rows_wf(ds, cs2, rows),
{
    let key = e.key@;
    lemma_default_pos(cs, key);
    let i = default_pos(cs, key);
    let n = if i < 0 { cs.len() as int } else { i };
    assert forall|j: int| 0 <= j < cs2.len() && j != n implies #[trigger] cs2[j] == cs[j] by {}
    assert(cs2[n] == e);
    lemma_default_pos_is(cs2, key, n);
    assert forall|r: int| 0 <= r < rows.len() implies row_wf(ds, cs2, #[trigger] rows[r]) by {
        assert(row_wf(ds, cs, rows[r]));
        let ov = members_of(rows[r].override_);
        assert forall|m: int| 0 <= m < ov.len() implies entry_error(cs2, #[trigger] ov[m].0, ov[m].1) is None by {
            let k = ov[m].0;
            assert(entry_error(cs, ov[m].0, ov[m].1) is None);
            if k != key {
                lemma_default_pos(cs, k);
                let x = default_pos(cs, k);
                assert(x >= 0);
                assert(x != n);
                assert(cs2[x] == cs[x]);
                lemma_default_pos_is(cs2, k, x);
            } else {
                assert(members_of(rows[r].override_)[m].0 == key);
            }
        }
    }
}

/// Whether every stored override value for `key` is accepted by the schema
/// with this text.
#[verifier::loop_isolation(false)]
fn check_overrides_accept(rows: &Vec<ContextRow>, key: &String, st: &Vec<char>) -> (r: bool)
    requires
        schema_text_safe(st@),
    ensures
        r == overrides_accept(rows_view(rows@), key@, st@),
{
    let ghost rv = rows_view(rows@);
    let mut i: usize = 0;
    while i < rows.len()
        invariant
            i <= rows.len(),
            forall|r: int, m: int|
                0 <= r < i && 0 <= m < members_of(rv[r].override_).len() && (#[trigger] members_of(
                    rv[r].override_,
                )[m]).0 == key@ ==> draft7_accepts(st@, text_of(members_of(rv[r].override_)[m].1)),
        decreases rows.len() - i,
    {
        assert(rv[i as int] == rows@[i as int]@);
        match &rows[i].override_ {
            Json::Object(ms) => {
                proof {
                    lemma_member_views(ms@);
                }
                let mut k: usize = 0;
                while k < ms.len()
                    invariant
                        k <= ms.len(),
                        members_of(rv[i as int].override_) == member_views(ms@),
                        forall|m: int|
                            0 <= m < k && (#[trigger] member_views(ms@)[m]).0 == key@ ==> draft7_accepts(
                                st@,
                                text_of(member_views(ms@)[m].1),
                            ),
                    decreases ms.len() - k,
                {
                    if ms[k].key == *key {
                        let vt = to_text(&ms[k].value);
                        if !accepted_by_draft7(st, &vt) {
                            assert(members_of(rv[i as int].override_)[k as int].0 == key@);
                            return false;
                        }
                    }
                    k = k + 1;
                }
            },
            _ => {},
        }
        i = i + 1;
    }
    true
}

impl Registry {
    /// Creates or replaces the default entry of `key`. The schema must hold
    /// no reference, compile as Draft 7 and accept both the value and every stored
    /// override value for `key`; then the entry takes the place of the old
    /// one, or is added at the end.
    pub fn upsert_default(&mut self, key: &String, req: CreateReq) -> (r: Result<(), ContextError>)
        requires
            old(self).wf(),
        ensures
            final(self).wf(),
            final(self).dimensions == old(self).dimensions,
            final(self).contexts == old(self).contexts,
            r is Ok <==> upsert_error(
                old(self).rows(),
                key@,
                JsonV::Object(member_views(req.schema@)),
                req.value@,
            ) is None,
            r matches Err(e) ==> upsert_error(
                old(self).rows(),
                key@,
                JsonV::Object(member_views(req.schema@)),
                req.value@,
            ) == Some(e@) && *final(self) == *old(self),
            r is Ok ==> ({
                let i = default_pos(old(self).defaults@, key@);
                let n = if i < 0 {
                    old(self).defaults@.len() as int
                } else {
                    i
                };
                &&& final(self).defaults@.len() == if i < 0 {
                    old(self).defaults@.len() + 1
                } else {
                    old(self).defaults@.len() + 0
                }
                &&& final(self).defaults@[n].key@ == key@
                &&& final(self).defaults@[n].value@ == req.value@
                &&& final(self).defaults@[n].schema@ == JsonV::Object(member_views(req.schema@))
                &&& forall|j: int|
                    0 <= j < final(self).defaults@.len() && j != n ==> #[trigger] final(self).defaults@[j]
                        == old(self).defaults@[j]
            }),
    {
        let schema = Json::Object(req.schema);
        let st = to_text(&schema);
        if !schema_text_is_safe(&st) {
            return Err(ContextError::new(ErrorKind::SchemaReference, key.clone()));
        }
        if !compiles_as_draft7(&st) {
            return Err(ContextError::new(ErrorKind::BadSchema, key.clone()));
        }
        let vt = to_text(&req.value);
        if !accepted_by_draft7(&st, &vt) {
            return Err(ContextError::new(ErrorKind::SchemaValidation, key.clone()));
        }
        if !check_overrides_accept(&self.contexts, key, &st) {
            return Err(ContextError::new(ErrorKind::SchemaValidation, key.clone()));
        }
        let entry = DefaultEntry { key: key.clone(), value: req.value, schema };
        let ghost old_cs = self.defaults@;
        match find_default(&self.defaults, key) {
            Some(i) => {
                self.defaults.remove(i);
                self.defaults.insert(i, entry);
                assert(self.defaults@ =~= old_cs.update(i as int, self.defaults@[i as int]));
            },
            None => {
                self.defaults.push(entry);
            },
        }
        proof {
            let e = if default_pos(old_cs, key@) < 0 {
                self.defaults@.last()
            } else {
                self.defaults@[default_pos(old_cs, key@)]
            };
            lemma_upsert_wf(self.dimensions@, old_cs, self.rows(), e, self.defaults@);
            assert forall|j: int| 0 <= j < self.defaults@.len() implies schema_text_safe(
                text_of(#[trigger] self.defaults@[j].schema@),
            ) by {
                if j < old_cs.len() && self.defaults@[j] == old_cs[j] {
                } else {
                    assert(self.defaults@[j] == e);
                }
            }
        }
        Ok(())
    }
}


/// Some stored condition references the dimension `name`.
pub open spec fn referenced(rows: Seq<RowV>, name: Seq<char>) -> bool {
    exists|r: int, k: int|
        0 <= r < rows.len() && 0 <= k < extract(rows[r].condition).len() && #[trigger] extract(
            rows[r].condition,
        )[k] == Some(name)
}

/// Stored rows keep their laws under new dimensions that still know every
/// referenced dimension, with its priority.
proof fn lemma_dims_change_wf(ds: Seq<Dimension>, ds2: Seq<Dimension>, cs: Seq<DefaultEntry>, rows: Seq<RowV>)
    requires
        dims_wf(ds),
        rows_wf(ds, cs, rows),
        forall|r: int, k: int|
            0 <= r < rows.len() && 0 <= k < extract(rows[r].condition).len() && (#[trigger] extract(
                rows[r].condition,
            )[k]) is Some && dim_pos(ds, extract(rows[r].condition)[k]->Some_0) >= 0 ==> dim_pos(
                ds2,
                extract(rows[r].condition)[k]->Some_0,
            ) >= 0 && ds2[dim_pos(ds2, extract(rows[r].condition)[k]->Some_0)].priority == ds[dim_pos(
                ds,
                extract(rows[r].condition)[k]->Some_0,
            )].priority,
    ensures
        rows_wf(ds2, cs, rows),
{
    assert forall|r: int| 0 <= r < rows.len() implies row_wf(ds2, cs, #[trigger] rows[r]) by {
        assert(row_wf(ds, cs, rows[r]));
        let refs = extract(rows[r].condition);
        lemma_checked_sum(ds, refs);
        assert forall|k: int| 0 <= k < refs.len() && (#[trigger] refs[k]) is Some implies ((dim_pos(
            ds,
            refs[k]->Some_0,
        ) < 0) == (dim_pos(ds2, refs[k]->Some_0) < 0) && (dim_pos(ds, refs[k]->Some_0) >= 0
            ==> ds[dim_pos(ds, refs[k]->Some_0)].priority == ds2[dim_pos(
            ds2,
            refs[k]->Some_0,
        )].priority)) by {
            assert(all_known(ds, refs));
            assert(dim_pos(ds, refs[k]->Some_0) >= 0);
        }
        lemma_checked_sum_same(ds, ds2, refs);
    }
}

/// Whether some stored condition references the dimension `name`.
#[verifier::loop_isolation(false)]
fn is_referenced(rows: &Vec<ContextRow>, name: &String) -> (r: bool)
    ensures
        r == referenced(rows_view(rows@), name@),
{
    let ghost rv = rows_view(rows@);
    let mut i: usize = 0;
    while i < rows.len()
        invariant
            i <= rows.len(),
            forall|r: int, k: int|
                0 <= r < i && 0 <= k < extract(rv[r].condition).len() ==> #[trigger] extract(
                    rv[r].condition,
                )[k] != Some(name@),
        decreases rows.len() - i,
    {
        assert(rv[i as int] == rows@[i as int]@);
        let mut refs: Vec<Option<String>> = Vec::new();
        extract_refs(&rows[i].condition, &mut refs);
        assert(ref_views(refs@) =~= extract(rv[i as int].condition));
        let mut k: usize = 0;
        while k < refs.len()
            invariant
                k <= refs.len(),
                ref_views(refs@) == extract(rv[i as int].condition),
                forall|q: int| 0 <= q < k ==> #[trigger] ref_views(refs@)[q] != Some(name@),
            decreases refs.len() - k,
        {
            let hit = match &refs[k] {
                Some(n) => *n == *name,
                None => false,
            };
            assert(hit == (ref_views(refs@)[k as int] == Some(name@)));
            if hit {
                assert(extract(rv[i as int].condition)[k as int] == Some(name@));
                return true;
            }
            k = k + 1;
        }
        proof {
            assert forall|k: int| 0 <= k < extract(rv[i as int].condition).len() implies #[trigger] extract(
                rv[i as int].condition,
            )[k] != Some(name@) by {
                assert(ref_views(refs@)[k] != Some(name@));
            }
        }
        i = i + 1;
    }
    false
}

impl Registry {
    /// Registers a dimension; its priority must be positive and its name new.
    pub fn create_dimension(&mut self, name: String, priority: i32) -> (r: Result<(), ContextError>)
        requires
            old(self).wf(),
        ensures
            final(self).wf(),
            final(self).defaults == old(self).defaults,
            final(self).contexts == old(self).contexts,
            r is Ok <==> priority > 0 && dim_pos(old(self).dimensions@, name@) < 0,
            r matches Err(e) ==> e@ == (ErrorKind::InvalidDimension, name@) && *final(self) == *old(self),
            r is Ok ==> final(self).dimensions@.len() == old(self).dimensions@.len() + 1
                && final(self).dimensions@.drop_last() == old(self).dimensions@
                && final(self).dimensions@.last().name@ == name@
                && final(self).dimensions@.last().priority == priority,
    {
        if priority <= 0 {
            return Err(ContextError::new(ErrorKind::InvalidDimension, name));
        }
        match find_dimension(&self.dimensions, &name) {
            Some(_) => {
                return Err(ContextError::new(ErrorKind::InvalidDimension, name));
            },
            None => {},
        }
        let ghost ds = self.dimensions@;
        proof {
            lemma_dim_pos(ds, name@);
        }
        self.dimensions.push(Dimension { name, priority });
        proof {
            let ds2 = self.dimensions@;
            assert(ds2.drop_last() =~= ds);
            let rows = self.rows();
            assert forall|r: int, k: int|
                0 <= r < rows.len() && 0 <= k < extract(rows[r].condition).len() && (#[trigger] extract(
                    rows[r].condition,
                )[k]) is Some && dim_pos(ds, extract(rows[r].condition)[k]->Some_0) >= 0 implies dim_pos(
                ds2,
                extract(rows[r].condition)[k]->Some_0,
            ) >= 0 && ds2[dim_pos(ds2, extract(rows[r].condition)[k]->Some_0)].priority == ds[dim_pos(
                ds,
                extract(rows[r].condition)[k]->Some_0,
            )].priority by {
                let n = extract(rows[r].condition)[k]->Some_0;
                lemma_dim_pos(ds, n);
                assert(ds2[dim_pos(ds, n)] == ds[dim_pos(ds, n)]);
                lemma_dim_pos_is(ds2, n, dim_pos(ds, n));
            }
            assert forall|a: int, b: int| 0 <= a < b < ds2.len() implies #[trigger] ds2[a].name@
                != #[trigger] ds2[b].name@ by {
                if b == ds.len() {
                    assert(ds2[a] == ds[a]);
                }
            }
            lemma_dims_change_wf(ds, ds2, self.defaults@, self.rows());
        }
        Ok(())
    }

    /// Removes a dimension that no stored condition references.
    pub fn delete_dimension(&mut self, name: &String) -> (r: Result<(), ContextError>)
        requires
            old(self).wf(),
        ensures
            final(self).wf(),
            final(self).defaults == old(self).defaults,
            final(self).contexts == old(self).contexts,
            dim_pos(old(self).dimensions@, name@) < 0 ==> (r matches Err(e) && e@ == (
                ErrorKind::NotFound,
                name@,
            )),
            dim_pos(old(self).dimensions@, name@) >= 0 && referenced(old(self).rows(), name@) ==> (
            r matches Err(e) && e@ == (ErrorKind::DimensionInUse, name@)),
            r is Err ==> *final(self) == *old(self),
            r is Ok <==> dim_pos(old(self).dimensions@, name@) >= 0 && !referenced(
                old(self).rows(),
                name@,
            ),
            r is Ok ==> final(self).dimensions@ == old(self).dimensions@.remove(
                dim_pos(old(self).dimensions@, name@),
            ),
    {
        let i = match find_dimension(&self.dimensions, name) {
            None => {
                return Err(ContextError::new(ErrorKind::NotFound, name.clone()));
            },
            Some(i) => i,
        };
        if is_referenced(&self.contexts, name) {
            return Err(ContextError::new(ErrorKind::DimensionInUse, name.clone()));
        }
        let ghost ds = self.dimensions@;
        let ghost rows = self.rows();
        proof {
            lemma_dim_pos(ds, name@);
        }
        self.dimensions.remove(i);
        proof {
            let ds2 = self.dimensions@;
            assert forall|a: int, b: int| 0 <= a < b < ds2.len() implies #[trigger] ds2[a].name@
                != #[trigger] ds2[b].name@ by {
                let a0 = if a < i { a } else { a + 1 };
                let b0 = if b < i { b } else { b + 1 };
                assert(ds2[a] == ds[a0] && ds2[b] == ds[b0]);
            }
            assert forall|a: int| 0 <= a < ds2.len() implies #[trigger] ds2[a].priority > 0 by {
                let a0 = if a < i { a } else { a + 1 };
                assert(ds2[a] == ds[a0]);
            }
            assert forall|r: int, k: int|
                0 <= r < rows.len() && 0 <= k < extract(rows[r].condition).len() && (#[trigger] extract(
                    rows[r].condition,
                )[k]) is Some && dim_pos(ds, extract(rows[r].condition)[k]->Some_0) >= 0 implies dim_pos(
                ds2,
                extract(rows[r].condition)[k]->Some_0,
            ) >= 0 && ds2[dim_pos(ds2, extract(rows[r].condition)[k]->Some_0)].priority == ds[dim_pos(
                ds,
                extract(rows[r].condition)[k]->Some_0,
            )].priority by {
                let n = extract(rows[r].condition)[k]->Some_0;
                lemma_dim_pos(ds, n);
                let x = dim_pos(ds, n);
                assert(x != i);
                let x2 = if x < i { x } else { x - 1 };
                assert(ds2[x2] == ds[x]);
                assert forall|j: int| 0 <= j < ds2.len() && j < x2 implies (#[trigger] ds2[j]).name@ != n by {
                    let j0 = if j < i { j } else { j + 1 };
                    assert(ds2[j] == ds[j0]);
                }
                lemma_dim_pos_is(ds2, n, x2);
            }
            lemma_dims_change_wf(ds, ds2, self.defaults@, rows);
        }
        Ok(())
    }
}


/// Some stored override has an entry for `key`.
pub open spec fn key_used(rows: Seq<RowV>, key: Seq<char>) -> bool {
    exists|r: int, m: int|
        0 <= r < rows.len() && 0 <= m < members_of(rows[r].override_).len() && (#[trigger] members_of(
            rows[r].override_,
        )[m]).0 == key
}

/// Whether some stored override has an entry for `key`.
#[verifier::loop_isolation(false)]
fn is_key_used(rows: &Vec<ContextRow>, key: &String) -> (r: bool)
    ensures
        r == key_used(rows_view(rows@), key@),
{
    let ghost rv = rows_view(rows@);
    let mut i: usize = 0;
    while i < rows.len()
        invariant
            i <= rows.len(),
            forall|r: int, m: int|
                0 <= r < i && 0 <= m < members_of(rv[r].override_).len() ==> (#[trigger] members_of(
                    rv[r].override_,
                )[m]).0 != key@,
        decreases rows.len() - i,
    {
        assert(rv[i as int] == rows@[i as int]@);
        match &rows[i].override_ {
            Json::Object(ms) => {
                proof {
                    lemma_member_views(ms@);
                }
                let mut k: usize = 0;
                while k < ms.len()
                    invariant
                        k <= ms.len(),
                        members_of(rv[i as int].override_) == member_views(ms@),
                        forall|m: int| 0 <= m < k ==> (#[trigger] member_views(ms@)[m]).0 != key@,
                    decreases ms.len() - k,
                {
                    if ms[k].key == *key {
                        assert(members_of(rv[i as int].override_)[k as int].0 == key@);
                        return true;
                    }
                    k = k + 1;
                }
            },
            _ => {},
        }
        i = i + 1;
    }
    false
}

impl Registry {
    /// Removes the default entry of `key`, which no stored override may use.
    pub fn delete_default(&mut self, key: &String) -> (r: Result<(), ContextError>)
        requires
            old(self).wf(),
        ensures
            final(self).wf(),
            final(self).dimensions == old(self).dimensions,
            final(self).contexts == old(self).contexts,
            default_pos(old(self).defaults@, key@) < 0 ==> (r matches Err(e) && e@ == (
                ErrorKind::NotFound,
                key@,
            )),
            default_pos(old(self).defaults@, key@) >= 0 && key_used(old(self).rows(), key@) ==> (
            r matches Err(e) && e@ == (ErrorKind::KeyInUse, key@)),
            r is Err ==> *final(self) == *old(self),
            r is Ok <==> default_pos(old(self).defaults@, key@) >= 0 && !key_used(old(self).rows(), key@),
            r is Ok ==> final(self).defaults@ == old(self).defaults@.remove(
                default_pos(old(self).defaults@, key@),
            ),
    {
        let i = match find_default(&self.defaults, key) {
            None => {
                return Err(ContextError::new(ErrorKind::NotFound, key.clone()));
            },
            Some(i) => i,
        };
        if is_key_used(&self.contexts, key) {
            return Err(ContextError::new(ErrorKind::KeyInUse, key.clone()));
        }
        let ghost cs = self.defaults@;
        let ghost rows = self.rows();
        proof {
            lemma_default_pos(cs, key@);
        }
        self.defaults.remove(i);
        proof {
            let cs2 = self.defaults@;
            assert forall|j: int| 0 <= j < cs2.len() implies schema_text_safe(
                text_of(#[trigger] cs2[j].schema@),
            ) by {
                let j0 = if j < i { j } else { j + 1 };
                assert(cs2[j] == cs[j0]);
            }
            assert forall|r: int| 0 <= r < rows.len() implies row_wf(
                self.dimensions@,
                cs2,
                #[trigger] rows[r],
            ) by {
                assert(row_wf(self.dimensions@, cs, rows[r]));
                let ov = members_of(rows[r].override_);
                assert forall|m: int| 0 <= m < ov.len() implies entry_error(cs2, #[trigger] ov[m].0, ov[m].1)
                    is None by {
                    let k = ov[m].0;
                    assert(entry_error(cs, ov[m].0, ov[m].1) is None);
                    assert(k != key@);
                    lemma_default_pos(cs, k);
                    let x = default_pos(cs, k);
                    assert(x != i);
                    let x2 = if x < i { x } else { x - 1 };
                    assert(cs2[x2] == cs[x]);
                    assert forall|j: int| 0 <= j < cs2.len() && j < x2 implies (#[trigger] cs2[j]).key@ != k by {
                        let j0 = if j < i { j } else { j + 1 };
                        assert(cs2[j] == cs[j0]);
                    }
                    lemma_default_pos_is(cs2, k, x2);
                }
            }
        }
        Ok(())
    }
}

} // verus!

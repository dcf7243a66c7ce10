//! Resolution: the default configuration with the overrides of every
//! matching context merged onto it, least specific first.
use vstd::prelude::*;
use vstd::string::StrSliceExecFns;
use crate::json::{Json, JsonV, Member, merge_patch, merged, member_views, lemma_member_views};
use crate::config::DefaultEntry;
use crate::error::{ContextError, ErrorKind};
use vstd::string::StringExecFns;
use crate::registry::{ContextRow, RowV, Registry, rows_view};
use crate::predicate::{holds, evaluate, is_substring, contains_run, string_chars};
use crate::json::{index_of, find_member};
use crate::text::{text_of, to_text};

verus! {

/// Lexicographic order of texts, by code point.
pub open spec fn str_less(a: Seq<char>, b: Seq<char>) -> bool
    decreases a.len(),
{
    if a.len() == 0 {
        b.len() > 0
    } else if b.len() == 0 {
        false
    } else if a[0] != b[0] {
        a[0] < b[0]
    } else {
        str_less(a.drop_first(), b.drop_first())
    }
}

pub proof fn lemma_str_less_trans(a: Seq<char>, b: Seq<char>, c: Seq<char>)
    requires
        str_less(a, b),
        str_less(b, c),
    ensures
        str_less(a, c),
    decreases a.len(),
{
    if a.len() > 0 && b.len() > 0 && c.len() > 0 && a[0] == b[0] && b[0] == c[0] {
        lemma_str_less_trans(a.drop_first(), b.drop_first(), c.drop_first());
    }
}

pub proof fn lemma_str_less_total(a: Seq<char>, b: Seq<char>)
    ensures
        a == b || str_less(a, b) || str_less(b, a),
        !(str_less(a, b) && str_less(b, a)),
        !str_less(a, a),
    decreases a.len(),
{
    if a.len() > 0 && b.len() > 0 {
        lemma_str_less_total(a.drop_first(), b.drop_first());
        lemma_str_less_total(a.drop_first(), a.drop_first());
        if a[0] == b[0] && a.drop_first() == b.drop_first() {
            assert(a =~= seq![a[0]] + a.drop_first());
            assert(b =~= seq![b[0]] + b.drop_first());
        }
    } else if a.len() > 0 {
        lemma_str_less_total(a.drop_first(), a.drop_first());
    } else if b.len() == 0 {
        assert(a =~= b);
    }
}

/// The order in which rows are applied: by priority, then creation time,
/// then id (then position, which never decides between rows of distinct ids).
pub open spec fn row_less(rows: Seq<RowV>, i: int, j: int) -> bool {
    let a = rows[i];
    let b = rows[j];
    a.priority < b.priority || (a.priority == b.priority && (a.created_at < b.created_at || (
    a.created_at == b.created_at && (str_less(a.id, b.id) || (a.id == b.id && i < j)))))
}

/// The order of listing: by creation time, then position.
pub open spec fn time_less(rows: Seq<RowV>, i: int, j: int) -> bool {
    rows[i].created_at < rows[j].created_at || (rows[i].created_at == rows[j].created_at && i < j)
}

/// Row order when `by_time` is false, listing order when it is true.
pub open spec fn before(rows: Seq<RowV>, by_time: bool, i: int, j: int) -> bool {
    if by_time {
        time_less(rows, i, j)
    } else {
        row_less(rows, i, j)
    }
}

pub proof fn lemma_before_order(rows: Seq<RowV>, by_time: bool, i: int, j: int, k: int)
    ensures
        i != j ==> before(rows, by_time, i, j) || before(rows, by_time, j, i),
        !(before(rows, by_time, i, j) && before(rows, by_time, j, i)),
        before(rows, by_time, i, j) && before(rows, by_time, j, k) ==> before(rows, by_time, i, k),
{
    lemma_row_less_order(rows, i, j, k);
}

pub proof fn lemma_row_less_order(rows: Seq<RowV>, i: int, j: int, k: int)
    ensures
        i != j ==> row_less(rows, i, j) || row_less(rows, j, i),
        !(row_less(rows, i, j) && row_less(rows, j, i)),
        row_less(rows, i, j) && row_less(rows, j, k) ==> row_less(rows, i, k),
{
    lemma_str_less_total(rows[i].id, rows[j].id);
    lemma_str_less_total(rows[j].id, rows[k].id);
    lemma_str_less_total(rows[i].id, rows[k].id);
    if str_less(rows[i].id, rows[j].id) && str_less(rows[j].id, rows[k].id) {
        lemma_str_less_trans(rows[i].id, rows[j].id, rows[k].id);
    }
}

/// `s` lists positions of rows in strictly increasing row order.
pub open spec fn in_order(rows: Seq<RowV>, s: Seq<int>) -> bool {
    in_order_by(rows, false, s)
}

/// `s` lists positions of rows in strictly increasing order of `before`.
pub open spec fn in_order_by(rows: Seq<RowV>, by_time: bool, s: Seq<int>) -> bool {
    &&& forall|a: int| 0 <= a < s.len() ==> 0 <= #[trigger] s[a] < rows.len()
    &&& forall|a: int, b: int|
        0 <= a < b < s.len() ==> before(rows, by_time, #[trigger] s[a], #[trigger] s[b])
}

pub open spec fn as_ints(s: Seq<usize>) -> Seq<int> {
    Seq::new(s.len(), |i: int| s[i] as int)
}

/// Whether `a` comes before `b` in the order of `str_less`.
fn text_less(a: &String, b: &String) -> (r: bool)
    ensures
        r == str_less(a@, b@),
{
    let ta = a.as_str();
    let tb = b.as_str();
    let na = ta.unicode_len();
    let nb = tb.unicode_len();
    let mut k: usize = 0;
    assert(a@.subrange(0, a@.len() as int) =~= a@);
    assert(b@.subrange(0, b@.len() as int) =~= b@);
    while k < na && k < nb
        invariant
            na == a@.len(),
            nb == b@.len(),
            ta@ == a@,
            tb@ == b@,
            k <= na,
            k <= nb,
            str_less(a@, b@) == str_less(
                a@.subrange(k as int, na as int),
                b@.subrange(k as int, nb as int),
            ),
        decreases na - k,
    {
        let x = ta.get_char(k);
        let y = tb.get_char(k);
        let ghost sa = a@.subrange(k as int, na as int);
        let ghost sb = b@.subrange(k as int, nb as int);
        assert(sa[0] == x && sb[0] == y);
        if x != y {
            return x < y;
        }
        assert(sa.drop_first() =~= a@.subrange(k as int + 1, na as int));
        assert(sb.drop_first() =~= b@.subrange(k as int + 1, nb as int));
        k = k + 1;
    }
    k == na && k < nb
}

fn row_lt(rows: &Vec<ContextRow>, by_time: bool, i: usize, j: usize) -> (r: bool)
    requires
        i < rows.len(),
        j < rows.len(),
    ensures
        r == before(rows_view(rows@), by_time, i as int, j as int),
{
    let a = &rows[i];
    let b = &rows[j];
    assert(rows_view(rows@)[i as int] == a@ && rows_view(rows@)[j as int] == b@);
    if by_time {
        return a.created_at < b.created_at || (a.created_at == b.created_at && i < j);
    }
    if a.priority != b.priority {
        return a.priority < b.priority;
    }
    if a.created_at != b.created_at {
        return a.created_at < b.created_at;
    }
    if text_less(&a.id, &b.id) {
        return true;
    }
    a.id == b.id && i < j
}

/// The positions of all rows, in row order (`by_time` false) or in listing
/// order (`by_time` true).
pub fn row_order(rows: &Vec<ContextRow>, by_time: bool) -> (r: Vec<usize>)
    ensures
        r@.len() == rows@.len(),
        in_order_by(rows_view(rows@), by_time, as_ints(r@)),
        forall|x: int| 0 <= x < rows@.len() ==> #[trigger] as_ints(r@).contains(x),
{
    let ghost rv = rows_view(rows@);
    let mut ord: Vec<usize> = Vec::new();
    let mut m: usize = 0;
    while m < rows.len()
        invariant
            m <= rows.len(),
            rv == rows_view(rows@),
            rv.len() == rows.len(),
            ord@.len() == m,
            in_order_by(rv, by_time, as_ints(ord@)),
            forall|x: int| 0 <= x < m ==> #[trigger] as_ints(ord@).contains(x),
            forall|a: int| 0 <= a < ord@.len() ==> #[trigger] ord@[a] < m,
        decreases rows.len() - m,
    {
        let ghost o = as_ints(ord@);
        let mut pos: usize = 0;
        while pos < ord.len() && !row_lt(rows, by_time, m, ord[pos])
            invariant
                pos <= ord.len(),
                m < rows.len(),
                rv == rows_view(rows@),
                o == as_ints(ord@),
                forall|a: int| 0 <= a < ord@.len() ==> #[trigger] ord@[a] < m,
                forall|a: int| 0 <= a < pos ==> !before(rv, by_time, m as int, #[trigger] o[a]),
            decreases ord.len() - pos,
        {
            pos = pos + 1;
        }
        proof {
            assert forall|a: int| 0 <= a < pos implies before(rv, by_time, #[trigger] o[a], m as int) by {
                lemma_before_order(rv, by_time, o[a], m as int, m as int);
                assert(ord@[a] < m);
            }
            if pos < ord.len() {
                assert forall|b: int| pos <= b < o.len() implies before(rv, by_time, m as int, #[trigger] o[b]) by {
                    if b > pos {
                        assert(before(rv, by_time, o[pos as int], o[b]));
                        lemma_before_order(rv, by_time, m as int, o[pos as int], o[b]);
                    }
                }
            }
        }
        ord.insert(pos, m);
        proof {
            let n = as_ints(ord@);
            assert(n =~= o.insert(pos as int, m as int));
            assert forall|a: int, b: int| 0 <= a < b < n.len() implies before(rv, by_time, #[trigger] n[a], #[trigger] n[b]) by {
                if b < pos {
                    assert(n[a] == o[a] && n[b] == o[b]);
                } else if b == pos {
                    assert(n[a] == o[a]);
                } else if a < pos {
                    assert(n[a] == o[a] && n[b] == o[b - 1]);
                    lemma_before_order(rv, by_time, o[a], m as int, o[b - 1]);
                } else if a == pos {
                    assert(n[b] == o[b - 1]);
                } else {
                    assert(n[a] == o[a - 1] && n[b] == o[b - 1]);
                }
            }
            assert forall|x: int| 0 <= x < m + 1 implies n.contains(x) by {
                if x == m {
                    assert(n[pos as int] == x);
                } else {
                    assert(o.contains(x));
                    let a = choose|a: int| 0 <= a < o.len() && o[a] == x;
                    if a < pos {
                        assert(n[a] == x);
                    } else {
                        assert(n[a + 1] == x);
                    }
                }
            }
            assert forall|a: int| 0 <= a < ord@.len() implies #[trigger] ord@[a] < m + 1 by {
                if a < pos {
                    assert(ord@[a] == o[a]);
                } else if a > pos {
                    assert(ord@[a] == o[a - 1]);
                }
            }
        }
        m = m + 1;
    }
    ord
}


pub open spec fn filter_view(f: Option<String>) -> Option<Seq<char>> {
    match f {
        Some(f) => Some(f@),
        None => None,
    }
}

/// A context that took part in a resolution.
#[derive(Debug)]
pub struct ResolvedContext {
    pub id: String,
    pub condition: Json,
    pub priority: i32,
    pub override_id: String,
}

impl ResolvedContext {
    pub open spec fn describes(&self, r: RowV) -> bool {
        self.id@ == r.id && self.condition@ == r.condition && self.priority as int == r.priority
            && self.override_id@ == r.override_id
    }
}

/// The effective configuration, the contexts applied (in order), and their
/// overrides by override id.
#[derive(Debug)]
pub struct Resolution {
    pub config: Json,
    pub contexts: Vec<ResolvedContext>,
    pub overrides: Vec<Member>,
}

/// The default configuration as one object, in registration order.
pub open spec fn default_config(cs: Seq<DefaultEntry>) -> JsonV {
    JsonV::Object(Seq::new(cs.len(), |i: int| (cs[i].key@, cs[i].value@)))
}

/// Row `i` takes part: its condition text contains the filter, if any, and
/// the condition holds in the context.
pub open spec fn selected(
    rows: Seq<RowV>,
    ctx: Seq<(Seq<char>, JsonV)>,
    filter: Option<Seq<char>>,
    i: int,
) -> bool {
    &&& (filter matches Some(f) ==> is_substring(f, text_of(rows[i].condition)))
    &&& holds(ctx, rows[i].condition)
}

/// The overrides of the rows at `s`, merged onto `base` one after the other.
pub open spec fn fold_overrides(rows: Seq<RowV>, base: JsonV, s: Seq<int>) -> JsonV
    decreases s.len(),
{
    if s.len() == 0 {
        base
    } else {
        merge_patch(fold_overrides(rows, base, s.drop_last()), rows[s.last()].override_)
    }
}

/// `r` is the resolution that applies the rows at `s`.
pub open spec fn resolved_by(
    rows: Seq<RowV>,
    cs: Seq<DefaultEntry>,
    ctx: Seq<(Seq<char>, JsonV)>,
    filter: Option<Seq<char>>,
    s: Seq<int>,
    r: Resolution,
) -> bool {
    &&& in_order(rows, s)
    &&& forall|x: int| 0 <= x < rows.len() ==> (#[trigger] s.contains(x) <==> selected(rows, ctx, filter, x))
    &&& r.config@ == fold_overrides(rows, default_config(cs), s)
    &&& r.contexts@.len() == s.len()
    &&& forall|a: int| 0 <= a < s.len() ==> (#[trigger] r.contexts@[a]).describes(rows[s[a]])
    &&& forall|a: int|
        0 <= a < r.overrides@.len() ==> exists|b: int|
            0 <= b < s.len() && #[trigger] member_views(r.overrides@)[a] == (
                rows[s[b]].override_id,
                rows[s[b]].override_,
            )
    &&& forall|b: int|
        0 <= b < s.len() ==> index_of(member_views(r.overrides@), #[trigger] rows[s[b]].override_id)
            >= 0
    &&& forall|a: int, b: int|
        0 <= a < b < r.overrides@.len() ==> #[trigger] r.overrides@[a].key@ != #[trigger] r.overrides@[b].key@
}

fn default_object(cs: &Vec<DefaultEntry>) -> (r: Json)
    ensures
        r@ == default_config(cs@),
{
    let mut ms: Vec<Member> = Vec::new();
    let mut i: usize = 0;
    while i < cs.len()
        invariant
            i <= cs.len(),
            ms@.len() == i,
            forall|j: int| 0 <= j < i ==> #[trigger] ms@[j].key@ == cs@[j].key@ && ms@[j].value@ == cs@[j].value@,
        decreases cs.len() - i,
    {
        ms.push(Member { key: cs[i].key.clone(), value: cs[i].value.copy() });
        i = i + 1;
    }
    proof {
        lemma_member_views(ms@);
        assert(member_views(ms@) =~= Seq::new(cs@.len(), |i: int| (cs@[i].key@, cs@[i].value@)));
    }
    Json::Object(ms)
}

impl Registry {
    /// Resolves the configuration for a runtime context: every stored
    /// context whose condition holds (and whose condition text contains
    /// `filter`, when given) has its override merged onto the default
    /// configuration, by RFC 7396, in ascending row order, so that the most
    /// specific context is applied last. A condition that cannot be evaluated
    /// does not hold.
    #[verifier::loop_isolation(false)]
    pub fn resolve(&self, ctx: &Vec<Member>, filter: &Option<String>) -> (r: Resolution)
        ensures
            exists|s: Seq<int>|
                #[trigger] resolved_by(
                    self.rows(),
                    self.defaults@,
                    member_views(ctx@),
                    filter_view(*filter),
                    s,
                    r,
                ),
    {
        let ghost rows = self.rows();
        let ghost c = member_views(ctx@);
        let ghost fv: Option<Seq<char>> = filter_view(*filter);
        let ord = row_order(&self.contexts, false);
        let ghost o = as_ints(ord@);
        let fchars: Option<Vec<char>> = match filter {
            Some(f) => Some(string_chars(f)),
            None => None,
        };
        let mut config = default_object(&self.defaults);
        let mut contexts: Vec<ResolvedContext> = Vec::new();
        let mut overrides: Vec<Member> = Vec::new();
        let ghost mut sel: Seq<int> = Seq::empty();
        let ghost mut src: Seq<int> = Seq::empty();
        let mut k: usize = 0;
        while k < ord.len()
            invariant
                k <= ord.len(),
                o == as_ints(ord@),
                rows == self.rows(),
                rows.len() == self.contexts@.len(),
                forall|a: int| 0 <= a < sel.len() ==> 0 <= #[trigger] sel[a] < rows.len(),
                forall|a: int, b: int| 0 <= a < b < sel.len() ==> row_less(rows, #[trigger] sel[a], #[trigger] sel[b]),
                forall|a: int, q: int| 0 <= a < sel.len() && k <= q < o.len() ==> row_less(rows, #[trigger] sel[a], #[trigger] o[q]),
                forall|a: int| 0 <= a < sel.len() ==> selected(rows, c, fv, #[trigger] sel[a]),
                forall|p: int| 0 <= p < k ==> selected(rows, c, fv, #[trigger] o[p]) ==> sel.contains(o[p]),
                config@ == fold_overrides(rows, default_config(self.defaults@), sel),
                contexts@.len() == sel.len(),
                forall|a: int| 0 <= a < sel.len() ==> (#[trigger] contexts@[a]).describes(rows[sel[a]]),
                src.len() == overrides@.len(),
                forall|a: int| 0 <= a < src.len() ==> 0 <= #[trigger] src[a] < sel.len() && member_views(overrides@)[a] == (rows[sel[src[a]]].override_id, rows[sel[src[a]]].override_),
                forall|b: int| 0 <= b < sel.len() ==> index_of(member_views(overrides@), #[trigger] rows[sel[b]].override_id) >= 0,
                forall|a: int, b: int| 0 <= a < b < overrides@.len() ==> #[trigger] overrides@[a].key@ != #[trigger] overrides@[b].key@,
            decreases ord.len() - k,
        {
            let i = ord[k];
            assert(o[k as int] == i as int);
            let row = &self.contexts[i];
            assert(rows[i as int] == row@);
            let pass_filter = match &fchars {
                None => true,
                Some(f) => {
                    let t = to_text(&row.condition);
                    contains_run(f, &t)
                },
            };
            if pass_filter {
                let holds_here = match evaluate(ctx, &row.condition) {
                    Some(Json::Bool(b)) => b,
                    _ => false,
                };
                if holds_here {
                    let ghost old_sel = sel;
                    let ghost old_ov = member_views(overrides@);
                    config = merged(config, &row.override_);
                    contexts.push(ResolvedContext {
                        id: row.id.clone(),
                        condition: row.condition.copy(),
                        priority: row.priority,
                        override_id: row.override_id.clone(),
                    });
                    proof {
                        sel = sel.push(i as int);
                        assert(sel.drop_last() =~= old_sel);
                        lemma_member_views(overrides@);
                    }
                    match find_member(&overrides, &row.override_id) {
                        Some(_) => {},
                        None => {
                            let ghost before_ov = overrides@;
                            proof {
                                lemma_member_views(before_ov);
                                crate::json::lemma_index_of(member_views(before_ov), row@.override_id);
                            }
                            overrides.push(Member { key: row.override_id.clone(), value: row.override_.copy() });
                            proof {
                                src = src.push(sel.len() - 1);
                                lemma_member_views(overrides@);
                                assert forall|a: int, b: int| 0 <= a < b < overrides@.len() implies #[trigger] overrides@[a].key@
                                    != #[trigger] overrides@[b].key@ by {
                                    assert(overrides@[a] == before_ov[a]);
                                    if b < before_ov.len() {
                                        assert(overrides@[b] == before_ov[b]);
                                    } else {
                                        assert(member_views(before_ov)[a].0 == before_ov[a].key@);
                                    }
                                }
                            }
                        },
                    }
                    proof {
                        let nov = member_views(overrides@);
                        lemma_member_views(overrides@);
                        crate::json::lemma_index_of(nov, row@.override_id);
                        crate::json::lemma_index_of(old_ov, row@.override_id);
                        assert forall|b: int| 0 <= b < sel.len() implies index_of(nov, #[trigger] rows[sel[b]].override_id) >= 0 by {
                            if b < old_sel.len() {
                                assert(sel[b] == old_sel[b]);
                                crate::json::lemma_index_of(old_ov, rows[old_sel[b]].override_id);
                                crate::json::lemma_index_of(nov, rows[old_sel[b]].override_id);
                                let x = index_of(old_ov, rows[old_sel[b]].override_id);
                                assert(nov[x] == old_ov[x]);
                            } else {
                                if index_of(old_ov, row@.override_id) < 0 {
                                    assert(nov[nov.len() - 1].0 == row@.override_id);
                                }
                            }
                        }
                        assert forall|p: int| 0 <= p < k + 1 implies (selected(rows, c, fv, #[trigger] o[p]) ==> sel.contains(o[p])) by {
                            if p < k && selected(rows, c, fv, o[p]) {
                                let a = choose|a: int| 0 <= a < old_sel.len() && old_sel[a] == o[p];
                                assert(sel[a] == o[p]);
                            } else if p == k {
                                assert(sel[sel.len() - 1] == o[p]);
                            }
                        }
                    }
                } else {
                    proof {
                        assert(!selected(rows, c, fv, o[k as int]));
                    }
                }
            } else {
                proof {
                    assert(!selected(rows, c, fv, o[k as int]));
                }
            }
            k = k + 1;
        }
        let r = Resolution { config, contexts, overrides };
        proof {
            assert forall|x: int| 0 <= x < rows.len() implies (#[trigger] sel.contains(x) <==> selected(rows, c, fv, x)) by {
                if selected(rows, c, fv, x) {
                    assert(o.contains(x));
                    let p = choose|p: int| 0 <= p < o.len() && o[p] == x;
                    assert(selected(rows, c, fv, o[p]));
                }
                if sel.contains(x) {
                    let a = choose|a: int| 0 <= a < sel.len() && sel[a] == x;
                    assert(selected(rows, c, fv, sel[a]));
                }
            }
            assert forall|a: int| 0 <= a < r.overrides@.len() implies exists|b: int|
                0 <= b < sel.len() && #[trigger] member_views(r.overrides@)[a] == (
                    rows[sel[b]].override_id,
                    rows[sel[b]].override_,
                ) by {
                assert(0 <= src[a] < sel.len());
            }
            assert(resolved_by(rows, self.defaults@, c, fv, sel, r));
        }
        r
    }
}


/// `list` is page `page` (from 1) of `size` rows in the listing order `ord`.
pub open spec fn listed(rows: Seq<RowV>, ord: Seq<int>, page: int, size: int, list: Seq<RowV>) -> bool {
    let start = if size * (page - 1) < rows.len() { size * (page - 1) } else { rows.len() as int };
    let end = if start + size < rows.len() { start + size } else { rows.len() as int };
    &&& ord.len() == rows.len()
    &&& in_order_by(rows, true, ord)
    &&& forall|x: int| 0 <= x < rows.len() ==> #[trigger] ord.contains(x)
    &&& list.len() == end - start
    &&& forall|a: int| 0 <= a < list.len() ==> #[trigger] list[a] == rows[ord[start + a]]
}

/// `list` is page `page` of `size` rows in listing order.
pub open spec fn is_page(rows: Seq<RowV>, page: int, size: int, list: Seq<RowV>) -> bool {
    exists|ord: Seq<int>| #[trigger] listed(rows, ord, page, size, list)
}

/// The page asked for; 1 when none is given.
pub open spec fn page_or_default(page: Option<i64>) -> int {
    match page {
        Some(p) => p as int,
        None => 1,
    }
}

/// The page size asked for; 20 when none is given.
pub open spec fn size_or_default(size: Option<i64>) -> int {
    match size {
        Some(z) => z as int,
        None => 20,
    }
}

pub open spec fn page_field() -> Seq<char> {
    seq!['p', 'a', 'g', 'e']
}

pub open spec fn size_field() -> Seq<char> {
    seq!['s', 'i', 'z', 'e']
}

impl Registry {
    /// LIST: page `page` (default 1) of `size` (default 20) contexts, by
    /// creation time.
    pub fn list_contexts(&self, page: Option<i64>, size: Option<i64>) -> (r: Result<
        Vec<ContextRow>,
        ContextError,
    >)
        ensures
            page_or_default(page) < 1 ==> (r matches Err(e) && e@ == (
                ErrorKind::BadPagination,
                page_field(),
            )),
            page_or_default(page) >= 1 && size_or_default(size) < 1 ==> (r matches Err(e) && e@ == (
                ErrorKind::BadPagination,
                size_field(),
            )),
            page_or_default(page) >= 1 && size_or_default(size) >= 1 ==> r is Ok,
            r matches Ok(list) ==> is_page(
                self.rows(),
                page_or_default(page),
                size_or_default(size),
                rows_view(list@),
            ),
    {
        let p: i64 = match page {
            Some(p) => p,
            None => 1,
        };
        let z: i64 = match size {
            Some(z) => z,
            None => 20,
        };
        if p < 1 {
            proof {
                reveal_strlit("page");
            }
            return Err(ContextError::new(ErrorKind::BadPagination, String::from_str("page")));
        }
        if z < 1 {
            proof {
                reveal_strlit("size");
            }
            return Err(ContextError::new(ErrorKind::BadPagination, String::from_str("size")));
        }
        let ghost rows = self.rows();
        let ord = row_order(&self.contexts, true);
        let n = self.contexts.len();
        assert(0 <= (z as int) * ((p as int) - 1) <= 0x7fff_ffff_ffff_ffffint * 0x7fff_ffff_ffff_ffffint)
            by (nonlinear_arith)
            requires
                1 <= z <= 0x7fff_ffff_ffff_ffffint,
                1 <= p <= 0x7fff_ffff_ffff_ffffint,
        ;
        let skip: i128 = (z as i128) * ((p as i128) - 1);
        let start: usize = if skip < n as i128 { skip as usize } else { n };
        let end: usize = if (start as i128) + (z as i128) < n as i128 { start + z as usize } else { n };
        let mut list: Vec<ContextRow> = Vec::new();
        let mut k: usize = start;
        while k < end
            invariant
                start <= k <= end,
                end <= n,
                n == self.contexts.len(),
                ord@.len() == n,
                rows == self.rows(),
                in_order_by(rows, true, as_ints(ord@)),
                list@.len() == k - start,
                forall|a: int| 0 <= a < list@.len() ==> #[trigger] list@[a]@ == rows[as_ints(ord@)[start + a]],
            decreases end - k,
        {
            let i = ord[k];
            assert(as_ints(ord@)[k as int] == i as int);
            assert(0 <= as_ints(ord@)[k as int] < rows.len());
            list.push(self.contexts[i].copy());
            k = k + 1;
        }
        proof {
            let o = as_ints(ord@);
            let ls = rows_view(list@);
            assert(skip == (z as int) * ((p as int) - 1));
            assert forall|a: int| 0 <= a < ls.len() implies #[trigger] ls[a] == rows[o[start + a]] by {
                assert(ls[a] == list@[a]@);
            }
            assert(ord@.len() == rows.len());
            assert(o.len() == rows.len());
            assert(listed(rows, o, p as int, z as int, ls));
            assert(page_or_default(page) == p as int);
            assert(size_or_default(size) == z as int);
            assert(listed(self.rows(), o, page_or_default(page), size_or_default(size), rows_view(list@)));
            assert(is_page(self.rows(), page_or_default(page), size_or_default(size), rows_view(list@)));
        }
        Ok(list)
    }
}

} // verus!

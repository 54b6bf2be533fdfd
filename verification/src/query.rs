//! The query engine: given a predicate (free text, failed-sessions toggle)
//! and a sort spec, computes the ordered list of store indices to display.

use vstd::prelude::*;
use vstd::seq_lib::group_to_multiset_ensures;
use crate::text::{lemma_lex_total, lemma_lex_trans, lex_le, lower, lower_trim, str_eq, str_le, trim_spec};
use crate::transaction::{field_of, req_matches, req_models, LogColumn, RadiusRequest, ReqModel};

verus! {

broadcast use group_to_multiset_ensures;

/// The sort spec: the column sorted by, and the direction.
pub struct SortSpec {
    pub col: LogColumn,
    pub desc: bool,
}

impl Default for SortSpec {
    /// The default sort: timestamp, newest first.
    fn default() -> (r: Self)
        ensures
            r.col == LogColumn::Timestamp,
            r.desc,
    {
        SortSpec { col: LogColumn::Timestamp, desc: true }
    }
}

impl SortSpec {
    /// A click on a column header: a repeated click on the current column
    /// flips the direction, a click on a new column sorts it ascending.
    pub fn click(&mut self, col: LogColumn)
        ensures
            final (self).col == col,
            final (self).desc == (old(self).col == col && !old(self).desc),
    {
        if self.col == col {
            self.desc = !self.desc;
        } else {
            self.col = col;
            self.desc = false;
        }
    }
}

/// Whether a session id belongs to a failed session: non-empty, and some
/// transaction of the store with that session id was rejected.
pub open spec fn failed_session(items: Seq<ReqModel>, sid: Seq<char>) -> bool {
    sid.len() > 0 && exists|i: int|
        0 <= i < items.len() && items[i].resp_type == "Access-Reject"@ && items[i].session_id
            == sid
}

/// Whether the transaction at index `i` passes the predicate. Under the
/// failed-sessions toggle only members of failed sessions pass, and pure
/// accept or accounting responses are suppressed even there; a non-empty
/// query must match case-insensitively.
pub open spec fn passes(items: Seq<ReqModel>, i: int, q: Seq<char>, failed_only: bool) -> bool {
    let m = items[i];
    &&& (failed_only ==> failed_session(items, m.session_id) && m.resp_type != "Access-Accept"@
        && m.resp_type != "Accounting-Response"@)
    &&& req_matches(m, q)
}

/// The indices below `n` that pass the predicate, in ascending order.
pub open spec fn filtered_upto(
    items: Seq<ReqModel>,
    q: Seq<char>,
    failed_only: bool,
    n: int,
) -> Seq<int>
    decreases n,
{
    if n <= 0 {
        Seq::empty()
    } else if passes(items, n - 1, q, failed_only) {
        filtered_upto(items, q, failed_only, n - 1).push(n - 1)
    } else {
        filtered_upto(items, q, failed_only, n - 1)
    }
}

/// All store indices that pass the predicate, in ascending order.
pub open spec fn filtered_ids(items: Seq<ReqModel>, q: Seq<char>, failed_only: bool) -> Seq<int> {
    filtered_upto(items, q, failed_only, items.len() as int)
}

/// The key a transaction is sorted by under a column. Only the reason
/// column has a fallback: the response type stands in for an empty reason.
pub open spec fn sort_key_of(m: ReqModel, col: LogColumn) -> Seq<char> {
    match col {
        LogColumn::Reason => if m.reason.len() == 0 {
            m.resp_type
        } else {
            m.reason
        },
        _ => field_of(m, col),
    }
}

/// The sort order between two transactions: ascending or descending
/// lexicographic comparison of their sort keys.
pub open spec fn le_models(a: ReqModel, b: ReqModel, col: LogColumn, desc: bool) -> bool {
    if desc {
        lex_le(sort_key_of(b, col), sort_key_of(a, col))
    } else {
        lex_le(sort_key_of(a, col), sort_key_of(b, col))
    }
}

/// The sort order between the transactions at two store indices.
pub open spec fn tx_le(items: Seq<ReqModel>, col: LogColumn, desc: bool, a: int, b: int) -> bool {
    le_models(items[a], items[b], col, desc)
}

/// The position at which an index is inserted into an already sorted run:
/// after every element that is less than or equal to it.
pub open spec fn insert_pos(
    items: Seq<ReqModel>,
    col: LogColumn,
    desc: bool,
    s: Seq<int>,
    x: int,
) -> int
    decreases s.len(),
{
    if s.len() == 0 {
        0
    } else if !tx_le(items, col, desc, s[0], x) {
        0
    } else {
        1 + insert_pos(items, col, desc, s.drop_first(), x)
    }
}

/// Inserting an index into a sorted run.
pub open spec fn insert_sorted(
    items: Seq<ReqModel>,
    col: LogColumn,
    desc: bool,
    s: Seq<int>,
    x: int,
) -> Seq<int> {
    s.insert(insert_pos(items, col, desc, s, x), x)
}

/// Insertion sort over store indices, left to right.
pub open spec fn sort_ids(
    items: Seq<ReqModel>,
    col: LogColumn,
    desc: bool,
    s: Seq<int>,
) -> Seq<int>
    decreases s.len(),
{
    if s.len() == 0 {
        Seq::empty()
    } else {
        insert_sorted(items, col, desc, sort_ids(items, col, desc, s.drop_last()), s.last())
    }
}

/// What one query pass computes: filter, then sort.
pub open spec fn spec_query(
    items: Seq<ReqModel>,
    q: Seq<char>,
    failed_only: bool,
    col: LogColumn,
    desc: bool,
) -> Seq<int> {
    sort_ids(items, col, desc, filtered_ids(items, q, failed_only))
}

/// The insertion position is the first place whose element does not sort at
/// or before the new one.
proof fn lemma_insert_pos(items: Seq<ReqModel>, col: LogColumn, desc: bool, s: Seq<int>, x: int)
    ensures
        0 <= insert_pos(items, col, desc, s, x) <= s.len(),
        forall|j: int|
            0 <= j < insert_pos(items, col, desc, s, x) ==> tx_le(items, col, desc, s[j], x),
        insert_pos(items, col, desc, s, x) < s.len() ==> !tx_le(
            items,
            col,
            desc,
            s[insert_pos(items, col, desc, s, x)],
            x,
        ),
    decreases s.len(),
{
    if s.len() > 0 && tx_le(items, col, desc, s[0], x) {
        lemma_insert_pos(items, col, desc, s.drop_first(), x);
        let p = insert_pos(items, col, desc, s, x);
        assert(forall|j: int| 1 <= j < p ==> s.drop_first()[j - 1] == s[j]);
    }
}

/// A run is sorted when every earlier element sorts at or before every later
/// one.
pub open spec fn sorted_run(
    items: Seq<ReqModel>,
    col: LogColumn,
    desc: bool,
    s: Seq<int>,
) -> bool {
    forall|p: int, r: int| 0 <= p < r < s.len() ==> tx_le(items, col, desc, s[p], s[r])
}

/// The sort order is total and transitive.
proof fn lemma_tx_le_total(items: Seq<ReqModel>, col: LogColumn, desc: bool, a: int, b: int)
    ensures
        tx_le(items, col, desc, a, b) || tx_le(items, col, desc, b, a),
{
    lemma_lex_total(sort_key_of(items[a], col), sort_key_of(items[b], col));
}

proof fn lemma_tx_le_trans(
    items: Seq<ReqModel>,
    col: LogColumn,
    desc: bool,
    a: int,
    b: int,
    c: int,
)
    requires
        tx_le(items, col, desc, a, b),
        tx_le(items, col, desc, b, c),
    ensures
        tx_le(items, col, desc, a, c),
{
    if desc {
        lemma_lex_trans(
            sort_key_of(items[c], col),
            sort_key_of(items[b], col),
            sort_key_of(items[a], col),
        );
    } else {
        lemma_lex_trans(
            sort_key_of(items[a], col),
            sort_key_of(items[b], col),
            sort_key_of(items[c], col),
        );
    }
}

/// Inserting into a sorted run keeps it sorted.
proof fn lemma_insert_sorted_sorted(
    items: Seq<ReqModel>,
    col: LogColumn,
    desc: bool,
    s: Seq<int>,
    x: int,
)
    requires
        sorted_run(items, col, desc, s),
    ensures
        sorted_run(items, col, desc, insert_sorted(items, col, desc, s, x)),
{
    let p = insert_pos(items, col, desc, s, x);
    lemma_insert_pos(items, col, desc, s, x);
    let t = s.insert(p, x);
    s.insert_ensures(p, x);
    if p < s.len() {
        lemma_tx_le_total(items, col, desc, s[p], x);
    }
    assert forall|i: int, j: int| 0 <= i < j < t.len() implies tx_le(items, col, desc, t[i], t[j]) by {
        if i < p && j < p {
        } else if i < p && j == p {
        } else if i < p && j > p {
        } else if i == p && j > p {
            // x sorts before s[j - 1]: x <= s[p] <= s[j - 1].
            if p < j - 1 {
                lemma_tx_le_trans(items, col, desc, x, s[p], s[j - 1]);
            }
        } else {
        }
    }
}

/// Insertion sort yields a sorted run.
proof fn lemma_sort_ids_sorted(items: Seq<ReqModel>, col: LogColumn, desc: bool, s: Seq<int>)
    ensures
        sorted_run(items, col, desc, sort_ids(items, col, desc, s)),
    decreases s.len(),
{
    if s.len() > 0 {
        lemma_sort_ids_sorted(items, col, desc, s.drop_last());
        lemma_insert_sorted_sorted(
            items,
            col,
            desc,
            sort_ids(items, col, desc, s.drop_last()),
            s.last(),
        );
    }
}

/// Insertion sort permutes its input.
proof fn lemma_sort_ids_multiset(items: Seq<ReqModel>, col: LogColumn, desc: bool, s: Seq<int>)
    ensures
        sort_ids(items, col, desc, s).to_multiset() == s.to_multiset(),
    decreases s.len(),
{
    if s.len() == 0 {
        assert(sort_ids(items, col, desc, s) =~= s);
    } else {
        let rest = s.drop_last();
        lemma_sort_ids_multiset(items, col, desc, rest);
        let sorted = sort_ids(items, col, desc, rest);
        let p = insert_pos(items, col, desc, sorted, s.last());
        lemma_insert_pos(items, col, desc, sorted, s.last());
        vstd::seq_lib::to_multiset_insert(sorted, p, s.last());
        assert(rest.push(s.last()) =~= s);
        assert(rest.push(s.last()).to_multiset() =~= rest.to_multiset().insert(s.last()));
    }
}

/// Every index the filter emits lies below `n`.
proof fn lemma_filtered_bounds(
    items: Seq<ReqModel>,
    q: Seq<char>,
    failed_only: bool,
    n: int,
)
    ensures
        forall|p: int|
            0 <= p < filtered_upto(items, q, failed_only, n).len() ==> 0 <= #[trigger] filtered_upto(
                items,
                q,
                failed_only,
                n,
            )[p] < n,
    decreases n,
{
    if n > 0 {
        lemma_filtered_bounds(items, q, failed_only, n - 1);
        let prev = filtered_upto(items, q, failed_only, n - 1);
        let cur = filtered_upto(items, q, failed_only, n);
        assert forall|p: int| 0 <= p < cur.len() implies 0 <= #[trigger] cur[p] < n by {
            if p < prev.len() {
                assert(cur[p] == prev[p]);
            }
        }
    }
}

/// Every index a query returns refers to a valid position of the store the
/// pass ran against.
pub proof fn lemma_query_indices_valid(
    items: Seq<ReqModel>,
    q: Seq<char>,
    failed_only: bool,
    col: LogColumn,
    desc: bool,
)
    ensures
        forall|p: int|
            0 <= p < spec_query(items, q, failed_only, col, desc).len() ==> 0 <= #[trigger] spec_query(
                items,
                q,
                failed_only,
                col,
                desc,
            )[p] < items.len(),
{
    let f = filtered_ids(items, q, failed_only);
    let r = spec_query(items, q, failed_only, col, desc);
    lemma_filtered_bounds(items, q, failed_only, items.len() as int);
    lemma_sort_ids_multiset(items, col, desc, f);
    assert forall|p: int| 0 <= p < r.len() implies 0 <= #[trigger] r[p] < items.len() by {
        assert(r.contains(r[p]));
        assert(r.to_multiset().count(r[p]) > 0);
        assert(f.contains(r[p]));
    }
}

/// A query's result is sorted by the requested key and direction, and is a
/// permutation of the indices that pass the predicate.
pub proof fn lemma_query_sorted_permutation(
    items: Seq<ReqModel>,
    q: Seq<char>,
    failed_only: bool,
    col: LogColumn,
    desc: bool,
)
    ensures
        sorted_run(items, col, desc, spec_query(items, q, failed_only, col, desc)),
        spec_query(items, q, failed_only, col, desc).to_multiset() == filtered_ids(
            items,
            q,
            failed_only,
        ).to_multiset(),
{
    lemma_sort_ids_sorted(items, col, desc, filtered_ids(items, q, failed_only));
    lemma_sort_ids_multiset(items, col, desc, filtered_ids(items, q, failed_only));
}

/// Re-running a query against an unchanged store with an unchanged predicate
/// and sort spec yields the identical index list.
pub proof fn lemma_query_idempotent(
    items: Seq<ReqModel>,
    q: Seq<char>,
    failed_only: bool,
    col: LogColumn,
    desc: bool,
    r1: Seq<int>,
    r2: Seq<int>,
)
    requires
        r1 == spec_query(items, q, failed_only, col, desc),
        r2 == spec_query(items, q, failed_only, col, desc),
    ensures
        r1 == r2,
{
}

/// The string a transaction is sorted by under a column.
fn sort_key_ref(r: &RadiusRequest, col: LogColumn) -> (k: &String)
    ensures
        k@ == sort_key_of(r@, col),
{
    match col {
        LogColumn::Timestamp => &r.timestamp,
        LogColumn::Type => &r.req_type,
        LogColumn::Server => &r.server,
        LogColumn::ApIp => &r.ap_ip,
        LogColumn::ApName => &r.ap_name,
        LogColumn::Mac => &r.mac,
        LogColumn::User => &r.user,
        LogColumn::ResponseType => &r.resp_type,
        LogColumn::Reason => if r.reason.as_str().is_empty() {
            &r.resp_type
        } else {
            &r.reason
        },
        LogColumn::Session => &r.session_id,
    }
}

/// Whether `a` sorts at or before `b` under the column and direction.
fn le_exec(a: &RadiusRequest, b: &RadiusRequest, col: LogColumn, desc: bool) -> (r: bool)
    ensures
        r == le_models(a@, b@, col, desc),
{
    if desc {
        str_le(sort_key_ref(b, col).as_str(), sort_key_ref(a, col).as_str())
    } else {
        str_le(sort_key_ref(a, col).as_str(), sort_key_ref(b, col).as_str())
    }
}

/// Whether a session id occurs in the collected list.
fn contains_session(sessions: &Vec<String>, sid: &str) -> (r: bool)
    ensures
        r == exists|j: int| 0 <= j < sessions@.len() && sessions@[j]@ == sid@,
{
    let n = sessions.len();
    let mut j: usize = 0;
    while j < n
        invariant
            n == sessions@.len(),
            0 <= j <= n,
            forall|k: int| 0 <= k < j ==> sessions@[k]@ != sid@,
        decreases n - j,
    {
        if str_eq(sessions[j].as_str(), sid) {
            return true;
        }
        j += 1;
    }
    false
}

/// One query pass: filter the store by the predicate, then sort the
/// surviving indices by the requested column and direction. The raw query is
/// trimmed and lowercased first; the result replaces any previous one in
/// full.
pub fn apply_filter_logic(
    items: &Vec<RadiusRequest>,
    query: &str,
    show_errors_only: bool,
    sort_col: LogColumn,
    sort_desc: bool,
) -> (ids: Vec<usize>)
    ensures
        ids@.map_values(|u: usize| u as int) == spec_query(
            req_models(items@),
            lower(trim_spec(query@)),
            show_errors_only,
            sort_col,
            sort_desc,
        ),
{
    let ghost models = req_models(items@);
    let q = lower_trim(query);
    let n = items.len();

    let mut sessions: Vec<String> = Vec::new();
    if show_errors_only {
        let mut i: usize = 0;
        while i < n
            invariant
                n == items@.len(),
                models == req_models(items@),
                0 <= i <= n,
                forall|j: int|
                    0 <= j < sessions@.len() ==> failed_session(models, #[trigger] sessions@[j]@),
                forall|k: int|
                    0 <= k < i && models[k].resp_type == "Access-Reject"@ && models[k].session_id.len()
                        > 0 ==> exists|j: int|
                        0 <= j < sessions@.len() && #[trigger] sessions@[j]@ == models[k].session_id,
            decreases n - i,
        {
            let it = &items[i];
            proof {
                assert(it@ == models[i as int]);
            }
            if str_eq(it.resp_type.as_str(), "Access-Reject") && !it.session_id.as_str().is_empty() {
                let ghost before = sessions@;
                sessions.push(it.session_id.clone());
                proof {
                    assert(sessions@[before.len() as int]@ == models[i as int].session_id);
                    assert(forall|j: int|
                        0 <= j < before.len() ==> sessions@[j] == before[j]);
                }
            }
            i += 1;
        }
    }
    proof {
        if show_errors_only {
            assert forall|sid: Seq<char>|
                (exists|j: int| 0 <= j < sessions@.len() && #[trigger] sessions@[j]@ == sid)
                    <==> failed_session(models, sid) by {
                if exists|j: int| 0 <= j < sessions@.len() && sessions@[j]@ == sid {
                    let j = choose|j: int| 0 <= j < sessions@.len() && sessions@[j]@ == sid;
                    assert(failed_session(models, sessions@[j]@));
                }
                if failed_session(models, sid) {
                    let k = choose|k: int|
                        0 <= k < models.len() && models[k].resp_type == "Access-Reject"@
                            && models[k].session_id == sid;
                }
            }
        }
    }

    let mut kept: Vec<usize> = Vec::new();
    let mut i: usize = 0;
    proof {
        assert(kept@.map_values(|u: usize| u as int) =~= filtered_upto(
            models,
            q@,
            show_errors_only,
            0,
        ));
    }
    while i < n
        invariant
            n == items@.len(),
            models == req_models(items@),
            q@ == lower(trim_spec(query@)),
            0 <= i <= n,
            show_errors_only ==> forall|sid: Seq<char>|
                (exists|j: int| 0 <= j < sessions@.len() && #[trigger] sessions@[j]@ == sid)
                    <==> failed_session(models, sid),
            kept@.map_values(|u: usize| u as int) == filtered_upto(
                models,
                q@,
                show_errors_only,
                i as int,
            ),
        decreases n - i,
    {
        let it = &items[i];
        proof {
            assert(it@ == models[i as int]);
        }
        let mut pass = true;
        if show_errors_only {
            if it.session_id.as_str().is_empty() {
                pass = false;
                proof {
                    assert(!failed_session(models, models[i as int].session_id));
                }
            } else if !contains_session(&sessions, it.session_id.as_str()) {
                pass = false;
            } else if str_eq(it.resp_type.as_str(), "Access-Accept") || str_eq(
                it.resp_type.as_str(),
                "Accounting-Response",
            ) {
                pass = false;
            }
        }
        if pass {
            pass = it.matches(q.as_str());
        }
        proof {
            assert(pass == passes(models, i as int, q@, show_errors_only));
        }
        let ghost kept_before = kept@;
        if pass {
            kept.push(i);
        }
        proof {
            assert(kept@.map_values(|u: usize| u as int) =~= filtered_upto(
                models,
                q@,
                show_errors_only,
                i + 1,
            ));
        }
        i += 1;
    }

    // Insertion sort of the surviving indices.
    let mut out: Vec<usize> = Vec::new();
    let ghost fseq = filtered_ids(models, q@, show_errors_only);
    proof {
        assert(fseq == kept@.map_values(|u: usize| u as int));
        lemma_filtered_bounds(models, q@, show_errors_only, n as int);
        assert(out@.map_values(|u: usize| u as int) =~= sort_ids(
            models,
            sort_col,
            sort_desc,
            fseq.take(0),
        ));
    }
    let m = kept.len();
    let mut t: usize = 0;
    while t < m
        invariant
            m == kept@.len(),
            n == items@.len(),
            models == req_models(items@),
            fseq == kept@.map_values(|u: usize| u as int),
            fseq.len() == m,
            forall|p: int| 0 <= p < m ==> 0 <= #[trigger] fseq[p] < n,
            0 <= t <= m,
            out@.map_values(|u: usize| u as int) == sort_ids(
                models,
                sort_col,
                sort_desc,
                fseq.take(t as int),
            ),
            forall|p: int| 0 <= p < out@.len() ==> #[trigger] out@[p] < n,
        decreases m - t,
    {
        let x = kept[t];
        proof {
            assert(fseq[t as int] == x as int);
        }
        let ghost sorted = out@.map_values(|u: usize| u as int);
        let ghost pos = insert_pos(models, sort_col, sort_desc, sorted, x as int);
        proof {
            lemma_insert_pos(models, sort_col, sort_desc, sorted, x as int);
        }
        let olen = out.len();
        let mut p: usize = 0;
        while p < olen
            invariant
                olen == out@.len(),
                n == items@.len(),
                models == req_models(items@),
                sorted == out@.map_values(|u: usize| u as int),
                forall|p2: int| 0 <= p2 < out@.len() ==> #[trigger] out@[p2] < n,
                x < n,
                0 <= p <= olen,
                forall|p2: int|
                    0 <= p2 < p ==> tx_le(models, sort_col, sort_desc, sorted[p2], x as int),
            ensures
                0 <= p <= olen,
                forall|p2: int|
                    0 <= p2 < p ==> tx_le(models, sort_col, sort_desc, sorted[p2], x as int),
                p < olen ==> !tx_le(models, sort_col, sort_desc, sorted[p as int], x as int),
            decreases olen - p,
        {
            if le_exec(&items[out[p]], &items[x], sort_col, sort_desc) {
                p += 1;
            } else {
                break;
            }
        }
        proof {
            assert(p == pos) by {
                if p < olen {
                    assert(!tx_le(models, sort_col, sort_desc, sorted[p as int], x as int));
                }
                if pos < p {
                    assert(tx_le(models, sort_col, sort_desc, sorted[pos], x as int));
                }
                if p < pos {
                    assert(tx_le(models, sort_col, sort_desc, sorted[p as int], x as int));
                }
            }
        }
        let ghost out_before = out@;
        out.insert(p, x);
        proof {
            assert(fseq.take(t + 1).drop_last() =~= fseq.take(t as int));
            assert(fseq.take(t + 1).last() == x as int);
            assert(out@.map_values(|u: usize| u as int) =~= sorted.insert(pos, x as int));
            assert forall|p2: int| 0 <= p2 < out@.len() implies #[trigger] out@[p2] < n by {
                assert(out@ =~= out_before.insert(p as int, x));
                out_before.insert_ensures(p as int, x);
                if p2 < p {
                    assert(out@[p2] == out_before[p2]);
                } else if p2 > p {
                    assert(out@[p2] == out_before[p2 - 1]);
                }
            }
        }
        t += 1;
    }
    proof {
        assert(fseq.take(m as int) =~= fseq);
    }
    out
}

/// Sorting by reason orders two transactions with empty reasons by their
/// response types: the fallback key is exactly the response type.
pub proof fn lemma_reason_sort_fallback(a: ReqModel, b: ReqModel, desc: bool)
    requires
        a.reason.len() == 0,
        b.reason.len() == 0,
    ensures
        le_models(a, b, LogColumn::Reason, desc) == if desc {
            lex_le(b.resp_type, a.resp_type)
        } else {
            lex_le(a.resp_type, b.resp_type)
        },
{
}

/// In a result sorted by reason, two transactions whose reasons are empty
/// stand ordered by their response types: the fallback key takes over.
pub proof fn lemma_reason_sort_orders_by_response(
    items: Seq<ReqModel>,
    q: Seq<char>,
    failed_only: bool,
    desc: bool,
    p1: int,
    p2: int,
)
    requires
        0 <= p1 < p2 < spec_query(items, q, failed_only, LogColumn::Reason, desc).len(),
        0 <= spec_query(items, q, failed_only, LogColumn::Reason, desc)[p1] < items.len(),
        0 <= spec_query(items, q, failed_only, LogColumn::Reason, desc)[p2] < items.len(),
        items[spec_query(items, q, failed_only, LogColumn::Reason, desc)[p1]].reason.len() == 0,
        items[spec_query(items, q, failed_only, LogColumn::Reason, desc)[p2]].reason.len() == 0,
    ensures
        ({
            let r = spec_query(items, q, failed_only, LogColumn::Reason, desc);
            if desc {
                lex_le(items[r[p2]].resp_type, items[r[p1]].resp_type)
            } else {
                lex_le(items[r[p1]].resp_type, items[r[p2]].resp_type)
            }
        }),
{
    let r = spec_query(items, q, failed_only, LogColumn::Reason, desc);
    lemma_query_sorted_permutation(items, q, failed_only, LogColumn::Reason, desc);
    assert(tx_le(items, LogColumn::Reason, desc, r[p1], r[p2]));
}

/// Under the failed-sessions toggle, a rejected transaction with a session
/// id passes whenever the text query matches it, while accept and
/// accounting responses never pass.
pub proof fn lemma_failed_filter(items: Seq<ReqModel>, i: int, q: Seq<char>)
    requires
        0 <= i < items.len(),
    ensures
        items[i].resp_type == "Access-Reject"@ && items[i].session_id.len() > 0 && req_matches(
            items[i],
            q,
        ) ==> passes(items, i, q, true),
        items[i].resp_type == "Access-Accept"@ || items[i].resp_type == "Accounting-Response"@
            ==> !passes(items, i, q, true),
{
    reveal_strlit("Access-Reject");
    reveal_strlit("Access-Accept");
    reveal_strlit("Accounting-Response");
    if items[i].resp_type == "Access-Reject"@ && items[i].session_id.len() > 0 {
        assert(failed_session(items, items[i].session_id));
    }
    assert("Access-Reject"@ != "Access-Accept"@) by {
        assert("Access-Reject"@[7] != "Access-Accept"@[7]);
    }
    assert("Access-Reject"@ != "Accounting-Response"@) by {
        assert("Access-Reject"@.len() != "Accounting-Response"@.len());
    }
}

} // verus!

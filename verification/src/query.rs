use vstd::prelude::*;
use crate::time::{instant_before, instant_lt, parse_rfc3339, rfc3339_instant};
use crate::types::{Message, MsgQuery};
use crate::strutil::str_eq;

verus! {

broadcast use vstd::seq_lib::group_to_multiset_ensures;

/// The hard cap on the number of returned messages.
pub const MAX_LIMIT: usize = 1000;

/// The number of returned messages when parameters are present but name no
/// limit.
pub const DEFAULT_LIMIT: usize = 100;

// ------------------------------------------------------------------
// What a query means: filter, order, limit.
// ------------------------------------------------------------------
/// Whether a message survives the query's filters: its id must exceed
/// `since_id` when given, and when `since_ts` is given and itself parses,
/// the message's own timestamp must parse and be strictly later.
pub open spec fn spec_keeps(m: Message, params: Option<MsgQuery>) -> bool {
    match params {
        None => true,
        Some(q) => {
            let id_ok = match q.since_id {
                Some(k) => m.id > k,
                None => true,
            };
            let ts_ok = match q.since_ts {
                Some(ts) => match rfc3339_instant(ts@) {
                    Some(t) => match rfc3339_instant(m.timestamp@) {
                        Some(mt) => instant_lt(t, mt),
                        None => false,
                    },
                    None => true,
                },
                None => true,
            };
            id_ok && ts_ok
        },
    }
}

/// The subsequence of `s` that survives the query's filters, in order.
pub open spec fn spec_filtered(s: Seq<Message>, params: Option<MsgQuery>) -> Seq<Message>
    decreases s.len(),
{
    if s.len() == 0 {
        Seq::empty()
    } else {
        let rest = spec_filtered(s.drop_last(), params);
        if spec_keeps(s.last(), params) {
            rest.push(s.last())
        } else {
            rest
        }
    }
}

pub open spec fn spec_by_ts(params: Option<MsgQuery>) -> bool {
    match params {
        None => false,
        Some(q) => match q.sort {
            Some(s) => s@ == "timestamp"@,
            None => false,
        },
    }
}

pub open spec fn spec_asc(params: Option<MsgQuery>) -> bool {
    match params {
        None => true,
        Some(q) => match q.order {
            Some(o) => o@ != "desc"@,
            None => true,
        },
    }
}

pub open spec fn spec_limit(params: Option<MsgQuery>) -> int {
    match params {
        None => MAX_LIMIT as int,
        Some(q) => {
            let l = match q.limit {
                Some(l) => l as int,
                None => DEFAULT_LIMIT as int,
            };
            if l > MAX_LIMIT as int {
                MAX_LIMIT as int
            } else {
                l
            }
        },
    }
}

/// Ascending order for one sort key: by id, or by parsed timestamp, where
/// a message whose timestamp does not parse orders after every message
/// with a valid timestamp, and two unparsable ones fall back to id order.
pub open spec fn base_le(a: Message, b: Message, by_ts: bool) -> bool {
    if by_ts {
        match (rfc3339_instant(a.timestamp@), rfc3339_instant(b.timestamp@)) {
            (Some(x), Some(y)) => !instant_lt(y, x),
            (Some(x), None) => true,
            (None, Some(y)) => false,
            (None, None) => a.id <= b.id,
        }
    } else {
        a.id <= b.id
    }
}

/// The query's ordering relation over messages.
pub open spec fn spec_le_msg(a: Message, b: Message, by_ts: bool, asc: bool) -> bool {
    if asc {
        base_le(a, b, by_ts)
    } else {
        base_le(b, a, by_ts)
    }
}

pub open spec fn spec_sorted(s: Seq<Message>, by_ts: bool, asc: bool) -> bool {
    forall|i: int, j: int|
        0 <= i < j < s.len() ==> spec_le_msg(#[trigger] s[i], #[trigger] s[j], by_ts, asc)
}

proof fn lemma_le_total(a: Message, b: Message, by_ts: bool, asc: bool)
    ensures
        spec_le_msg(a, b, by_ts, asc) || spec_le_msg(b, a, by_ts, asc),
{
}

proof fn lemma_le_trans(a: Message, b: Message, c: Message, by_ts: bool, asc: bool)
    requires
        spec_le_msg(a, b, by_ts, asc),
        spec_le_msg(b, c, by_ts, asc),
    ensures
        spec_le_msg(a, c, by_ts, asc),
{
}


/// Stable insertion of `m` into `s`: `m` goes after every element that
/// orders at or below it, so equal-key elements keep their relative order.
pub open spec fn spec_insert_msg(s: Seq<Message>, m: Message, by_ts: bool, asc: bool) -> Seq<
    Message,
>
    decreases s.len(),
{
    if s.len() > 0 && spec_le_msg(s[0], m, by_ts, asc) {
        seq![s[0]] + spec_insert_msg(s.skip(1), m, by_ts, asc)
    } else {
        seq![m] + s
    }
}

/// Stable insertion sort of `s` under the query's order: the one ordering
/// the engine returns, ties resolved by input position.
pub open spec fn spec_sort_msgs(s: Seq<Message>, by_ts: bool, asc: bool) -> Seq<Message>
    decreases s.len(),
{
    if s.len() == 0 {
        Seq::empty()
    } else {
        spec_insert_msg(spec_sort_msgs(s.drop_last(), by_ts, asc), s.last(), by_ts, asc)
    }
}

/// The position stable insertion puts `m` at: just after the last leading
/// element that orders at or below `m`.
pub open spec fn first_above(s: Seq<Message>, m: Message, by_ts: bool, asc: bool) -> int
    decreases s.len(),
{
    if s.len() > 0 && spec_le_msg(s[0], m, by_ts, asc) {
        1 + first_above(s.skip(1), m, by_ts, asc)
    } else {
        0
    }
}

proof fn lemma_first_above_props(s: Seq<Message>, m: Message, by_ts: bool, asc: bool)
    ensures
        0 <= first_above(s, m, by_ts, asc) <= s.len(),
        forall|i: int|
            0 <= i < first_above(s, m, by_ts, asc) ==> spec_le_msg(
                #[trigger] s[i],
                m,
                by_ts,
                asc,
            ),
        first_above(s, m, by_ts, asc) < s.len() ==> !spec_le_msg(
            s[first_above(s, m, by_ts, asc)],
            m,
            by_ts,
            asc,
        ),
    decreases s.len(),
{
    if s.len() > 0 && spec_le_msg(s[0], m, by_ts, asc) {
        lemma_first_above_props(s.skip(1), m, by_ts, asc);
        let p = first_above(s, m, by_ts, asc);
        assert forall|i: int| 0 <= i < p implies spec_le_msg(#[trigger] s[i], m, by_ts, asc) by {
            if i > 0 {
                assert(s.skip(1)[i - 1] == s[i]);
            }
        }
        if p < s.len() {
            assert(s.skip(1)[p - 1] == s[p]);
        }
    }
}

/// Inserting at the position the scan finds is inserting at that index.
proof fn lemma_insert_at(s: Seq<Message>, m: Message, by_ts: bool, asc: bool, p: int)
    requires
        0 <= p <= s.len(),
        forall|i: int| 0 <= i < p ==> spec_le_msg(#[trigger] s[i], m, by_ts, asc),
        p < s.len() ==> !spec_le_msg(s[p], m, by_ts, asc),
    ensures
        spec_insert_msg(s, m, by_ts, asc) == s.insert(p, m),
    decreases p,
{
    if p == 0 {
        if s.len() > 0 {
            assert(!spec_le_msg(s[0], m, by_ts, asc));
        }
        assert(spec_insert_msg(s, m, by_ts, asc) =~= s.insert(0, m));
    } else {
        assert(spec_le_msg(s[0], m, by_ts, asc));
        let t = s.skip(1);
        assert(forall|i: int| 0 <= i < p - 1 ==> #[trigger] t[i] == s[i + 1]);
        if p - 1 < t.len() {
            assert(t[p - 1] == s[p]);
        }
        lemma_insert_at(t, m, by_ts, asc, p - 1);
        assert(spec_insert_msg(s, m, by_ts, asc) == seq![s[0]] + t.insert(p - 1, m));
        assert(seq![s[0]] + t.insert(p - 1, m) =~= s.insert(p, m));
    }
}

proof fn lemma_insert_preserves_sorted(s: Seq<Message>, m: Message, by_ts: bool, asc: bool)
    requires
        spec_sorted(s, by_ts, asc),
    ensures
        spec_sorted(spec_insert_msg(s, m, by_ts, asc), by_ts, asc),
        spec_insert_msg(s, m, by_ts, asc).len() == s.len() + 1,
{
    let p = first_above(s, m, by_ts, asc);
    lemma_first_above_props(s, m, by_ts, asc);
    lemma_insert_at(s, m, by_ts, asc, p);
    let r = s.insert(p, m);
    if p < s.len() {
        lemma_le_total(s[p], m, by_ts, asc);
    }
    assert forall|i: int, j: int| 0 <= i < j < r.len() implies spec_le_msg(
        r[i],
        r[j],
        by_ts,
        asc,
    ) by {
        if i == p {
            lemma_le_trans(m, s[p], s[j - 1], by_ts, asc);
        } else if j == p {
        } else if i < p && j > p {
            assert(r[i] == s[i] && r[j] == s[j - 1]);
            if i < j - 1 {
            } else {
                assert(i == p - 1 && j == p + 1 && i < p);
            }
        }
    }
}

/// The sort keeps the length.
proof fn lemma_sort_len(s: Seq<Message>, by_ts: bool, asc: bool)
    ensures
        spec_sort_msgs(s, by_ts, asc).len() == s.len(),
        spec_sorted(spec_sort_msgs(s, by_ts, asc), by_ts, asc),
    decreases s.len(),
{
    if s.len() > 0 {
        lemma_sort_len(s.drop_last(), by_ts, asc);
        lemma_insert_preserves_sorted(
            spec_sort_msgs(s.drop_last(), by_ts, asc),
            s.last(),
            by_ts,
            asc,
        );
    }
}

/// Sorting an already ordered sequence hands it back unchanged.
proof fn lemma_sort_of_sorted(s: Seq<Message>, by_ts: bool, asc: bool)
    requires
        spec_sorted(s, by_ts, asc),
    ensures
        spec_sort_msgs(s, by_ts, asc) == s,
    decreases s.len(),
{
    if s.len() > 0 {
        let t = s.drop_last();
        assert(spec_sorted(t, by_ts, asc)) by {
            assert(forall|i: int| 0 <= i < t.len() ==> #[trigger] t[i] == s[i]);
        }
        lemma_sort_of_sorted(t, by_ts, asc);
        let p = first_above(t, s.last(), by_ts, asc);
        lemma_first_above_props(t, s.last(), by_ts, asc);
        assert(p == t.len()) by {
            if p < t.len() {
                assert(t[p] == s[p]);
                assert(spec_le_msg(s[p], s.last(), by_ts, asc));
            }
        }
        lemma_insert_at(t, s.last(), by_ts, asc, p);
        assert(t.insert(t.len() as int, s.last()) =~= s);
    }
}

// ------------------------------------------------------------------
// Executable counterparts.
// ------------------------------------------------------------------
fn keeps_exec(m: &Message, params: &Option<MsgQuery>) -> (r: bool)
    ensures
        r == spec_keeps(*m, *params),
{
    match params {
        None => true,
        Some(q) => {
            let id_ok = match q.since_id {
                Some(k) => m.id > k,
                None => true,
            };
            let ts_ok = match &q.since_ts {
                Some(ts) => match parse_rfc3339(ts.as_str()) {
                    Some(t) => match parse_rfc3339(m.timestamp.as_str()) {
                        Some(mt) => instant_before(t, mt),
                        None => false,
                    },
                    None => true,
                },
                None => true,
            };
            id_ok && ts_ok
        },
    }
}

fn le_msg(a: &Message, b: &Message, by_ts: bool, asc: bool) -> (r: bool)
    ensures
        r == spec_le_msg(*a, *b, by_ts, asc),
{
    let (p, q) = if asc {
        (a, b)
    } else {
        (b, a)
    };
    if by_ts {
        match (parse_rfc3339(p.timestamp.as_str()), parse_rfc3339(q.timestamp.as_str())) {
            (Some(x), Some(y)) => !instant_before(y, x),
            (Some(_), None) => true,
            (None, Some(_)) => false,
            (None, None) => p.id <= q.id,
        }
    } else {
        p.id <= q.id
    }
}

pub fn query_by_ts(params: &Option<MsgQuery>) -> (r: bool)
    ensures
        r == spec_by_ts(*params),
{
    match params {
        None => false,
        Some(q) => match &q.sort {
            Some(s) => str_eq(s.as_str(), "timestamp"),
            None => false,
        },
    }
}

pub fn query_asc(params: &Option<MsgQuery>) -> (r: bool)
    ensures
        r == spec_asc(*params),
{
    match params {
        None => true,
        Some(q) => match &q.order {
            Some(o) => !str_eq(o.as_str(), "desc"),
            None => true,
        },
    }
}

fn query_limit(params: &Option<MsgQuery>) -> (r: usize)
    ensures
        r as int == spec_limit(*params),
{
    match params {
        None => MAX_LIMIT,
        Some(q) => {
            let l = match q.limit {
                Some(l) => l,
                None => DEFAULT_LIMIT,
            };
            if l > MAX_LIMIT {
                MAX_LIMIT
            } else {
                l
            }
        },
    }
}

// ------------------------------------------------------------------
// Filtering and sorting.
// ------------------------------------------------------------------
fn filter_messages(v: Vec<Message>, params: &Option<MsgQuery>) -> (r: Vec<Message>)
    ensures
        r@ == spec_filtered(v@, *params),
{
    let ghost orig = v@;
    let mut rest = v;
    let mut out: Vec<Message> = Vec::new();
    let mut i: usize = 0;
    let n0 = rest.len();
    assert(spec_filtered(orig.take(0), *params) =~= Seq::<Message>::empty());
    while rest.len() > 0
        invariant
            0 <= i <= n0,
            n0 == orig.len(),
            rest@ == orig.skip(i as int),
            out@ == spec_filtered(orig.take(i as int), *params),
        decreases rest@.len(),
    {
        let m = rest.remove(0);
        assert(m == orig[i as int]);
        assert(rest@ =~= orig.skip(i + 1));
        let ghost t1 = orig.take(i + 1);
        assert(t1.drop_last() =~= orig.take(i as int));
        assert(t1.last() == orig[i as int]);
        assert(spec_filtered(t1, *params) == if spec_keeps(t1.last(), *params) {
            spec_filtered(t1.drop_last(), *params).push(t1.last())
        } else {
            spec_filtered(t1.drop_last(), *params)
        });
        if keeps_exec(&m, params) {
            out.push(m);
        }
        i = i + 1;
    }
    assert(orig.skip(i as int).len() == 0);
    assert(i == orig.len());
    assert(orig.take(i as int) =~= orig);
    out
}

/// Every message the filter keeps satisfies the filter predicate.
pub proof fn lemma_filtered_elems(s: Seq<Message>, params: Option<MsgQuery>)
    ensures
        forall|i: int|
            0 <= i < spec_filtered(s, params).len() ==> spec_keeps(
                #[trigger] spec_filtered(s, params)[i],
                params,
            ),
    decreases s.len(),
{
    if s.len() > 0 {
        lemma_filtered_elems(s.drop_last(), params);
        let f = spec_filtered(s, params);
        let fr = spec_filtered(s.drop_last(), params);
        assert forall|i: int| 0 <= i < f.len() implies spec_keeps(#[trigger] f[i], params) by {
            if spec_keeps(s.last(), params) {
                assert(f == fr.push(s.last()));
                if i < fr.len() {
                    assert(f[i] == fr[i]);
                } else {
                    assert(f[i] == s.last());
                }
            } else {
                assert(f == fr);
            }
        }
    }
}

/// Inserts `m` into an already ordered vector, keeping it ordered.
fn insert_sorted(out: &mut Vec<Message>, m: Message, by_ts: bool, asc: bool)
    requires
        spec_sorted(old(out)@, by_ts, asc),
    ensures
        final(out)@ == spec_insert_msg(old(out)@, m, by_ts, asc),
        final(out)@.to_multiset() == old(out)@.to_multiset().insert(m),
        spec_sorted(final(out)@, by_ts, asc),
{
    let mut p: usize = 0;
    let n = out.len();
    while p < n && le_msg(&out[p], &m, by_ts, asc)
        invariant
            n == out@.len(),
            0 <= p <= n,
            forall|i: int| 0 <= i < p ==> spec_le_msg(#[trigger] out@[i], m, by_ts, asc),
        decreases n - p,
    {
        p = p + 1;
    }
    proof {
        if p < n {
            lemma_le_total(out@[p as int], m, by_ts, asc);
        }
    }
    let ghost pre = out@;
    proof {
        lemma_insert_at(pre, m, by_ts, asc, p as int);
    }
    out.insert(p, m);
    proof {
        vstd::seq_lib::to_multiset_insert(pre, p as int, m);
        assert(out@ == pre.insert(p as int, m));
        assert forall|i: int, j: int| 0 <= i < j < out@.len() implies spec_le_msg(
            out@[i],
            out@[j],
            by_ts,
            asc,
        ) by {
            if i == p {
                // m against an element that followed the insertion point
                lemma_le_trans(m, pre[p as int], pre[j - 1], by_ts, asc);
            } else if j == p {
                // an element before the insertion point against m
            } else if i < p && j > p {
                assert(out@[i] == pre[i] && out@[j] == pre[j - 1]);
                if i < j - 1 {
                } else {
                    // adjacent across the insertion point
                    assert(i == p - 1 && j == p + 1 && i < p);
                }
            }
        }
    }
}

/// Orders the messages by the query's sort key and direction.
pub(crate) fn sort_messages(v: Vec<Message>, by_ts: bool, asc: bool) -> (r: Vec<Message>)
    ensures
        r@ == spec_sort_msgs(v@, by_ts, asc),
        r@.to_multiset() == v@.to_multiset(),
        spec_sorted(r@, by_ts, asc),
{
    let ghost orig = v@;
    let mut rest = v;
    let mut out: Vec<Message> = Vec::new();
    let mut i: usize = 0;
    let n0 = rest.len();
    assert(orig.take(0).to_multiset() =~= Seq::<Message>::empty().to_multiset());
    assert(spec_sort_msgs(orig.take(0), by_ts, asc) =~= Seq::<Message>::empty());
    while rest.len() > 0
        invariant
            0 <= i <= n0,
            n0 == orig.len(),
            rest@ == orig.skip(i as int),
            out@ == spec_sort_msgs(orig.take(i as int), by_ts, asc),
            out@.to_multiset() == orig.take(i as int).to_multiset(),
            spec_sorted(out@, by_ts, asc),
        decreases rest@.len(),
    {
        let m = rest.remove(0);
        assert(m == orig[i as int]);
        assert(rest@ =~= orig.skip(i + 1));
        let ghost t1 = orig.take(i + 1);
        assert(t1.drop_last() =~= orig.take(i as int));
        assert(t1.last() == orig[i as int]);
        assert(t1 =~= orig.take(i as int).push(m));
        insert_sorted(&mut out, m, by_ts, asc);
        i = i + 1;
    }
    assert(orig.skip(i as int).len() == 0);
    assert(orig.take(i as int) =~= orig);
    out
}

/// Filtering agrees with multiset filtering, so it depends only on which
/// messages are present, not on their order.
proof fn lemma_filtered_multiset(s: Seq<Message>, params: Option<MsgQuery>)
    ensures
        spec_filtered(s, params).to_multiset() == s.to_multiset().filter(
            (|m: Message| spec_keeps(m, params)),
        ),
    decreases s.len(),
{
    broadcast use vstd::multiset::group_multiset_axioms;

    let p = (|m: Message| spec_keeps(m, params));
    if s.len() == 0 {
        assert(spec_filtered(s, params).to_multiset() =~= s.to_multiset().filter(p));
    } else {
        let t = s.drop_last();
        let x = s.last();
        lemma_filtered_multiset(t, params);
        assert(t.push(x) =~= s);
        assert(s.to_multiset() == t.to_multiset().insert(x));
        if p(x) {
            assert(spec_filtered(s, params).to_multiset() == spec_filtered(
                t,
                params,
            ).to_multiset().insert(x));
        }
        assert(spec_filtered(s, params).to_multiset() =~= s.to_multiset().filter(p));
    }
}

/// Two message sets with the same contents filter to the same contents:
/// the filter's outcome does not depend on the order records were found in.
pub proof fn lemma_filtered_permutation(a: Seq<Message>, b: Seq<Message>, params: Option<MsgQuery>)
    requires
        a.to_multiset() == b.to_multiset(),
    ensures
        spec_filtered(a, params).to_multiset() == spec_filtered(b, params).to_multiset(),
{
    lemma_filtered_multiset(a, params);
    lemma_filtered_multiset(b, params);
}

/// The query engine as one function: filter, stable-sort under the
/// query's order, take the first `limit`.
pub open spec fn spec_query_result(msgs: Seq<Message>, params: Option<MsgQuery>) -> Seq<Message> {
    let f = spec_filtered(msgs, params);
    let s = spec_sort_msgs(f, spec_by_ts(params), spec_asc(params));
    s.take(vstd::math::min(f.len() as int, spec_limit(params)))
}

/// Two parameter sets that keep the same messages filter to the same
/// subsequence.
proof fn lemma_filtered_congruent(s: Seq<Message>, p1: Option<MsgQuery>, p2: Option<MsgQuery>)
    requires
        forall|m: Message| #[trigger] spec_keeps(m, p1) == spec_keeps(m, p2),
    ensures
        spec_filtered(s, p1) == spec_filtered(s, p2),
    decreases s.len(),
{
    if s.len() > 0 {
        lemma_filtered_congruent(s.drop_last(), p1, p2);
        assert(spec_keeps(s.last(), p1) == spec_keeps(s.last(), p2));
    }
}

/// The same query with `since_ts` removed.
pub open spec fn spec_without_since_ts(q: MsgQuery) -> MsgQuery {
    MsgQuery {
        sort: q.sort,
        order: q.order,
        since_id: q.since_id,
        since_ts: None,
        limit: q.limit,
    }
}

/// An unparsable `since_ts` is a no-op: the query returns exactly what
/// the same query without `since_ts` returns.
pub proof fn lemma_unparsable_since_ts_noop(msgs: Seq<Message>, q: MsgQuery)
    requires
        (match q.since_ts {
            Some(ts) => rfc3339_instant(ts@) is None,
            None => false,
        }),
    ensures
        spec_query_result(msgs, Some(q)) == spec_query_result(
            msgs,
            Some(spec_without_since_ts(q)),
        ),
{
    let q2 = spec_without_since_ts(q);
    assert forall|m: Message| #[trigger] spec_keeps(m, Some(q)) == spec_keeps(m, Some(q2)) by {}
    lemma_filtered_congruent(msgs, Some(q), Some(q2));
}

/// The parameterless read is idempotent: sorting ascending by id and
/// capping at `MAX_LIMIT` a second time changes nothing.
pub proof fn lemma_default_query_idempotent(msgs: Seq<Message>)
    ensures
        spec_query_result(spec_query_result(msgs, None), None) == spec_query_result(msgs, None),
{
    lemma_filtered_none(msgs);
    let s = spec_sort_msgs(msgs, false, true);
    lemma_sort_len(msgs, false, true);
    let k = vstd::math::min(msgs.len() as int, MAX_LIMIT as int);
    let r1 = s.take(k);
    assert(r1 == spec_query_result(msgs, None));
    assert(spec_sorted(r1, false, true)) by {
        assert(forall|i: int| 0 <= i < r1.len() ==> #[trigger] r1[i] == s[i]);
    }
    lemma_filtered_none(r1);
    lemma_sort_of_sorted(r1, false, true);
    assert(r1.len() <= MAX_LIMIT as int);
    assert(spec_sort_msgs(r1, false, true).take(
        vstd::math::min(r1.len() as int, MAX_LIMIT as int),
    ) =~= r1);
}

/// Evaluates a query against a loaded message set: filter by `since_id`
/// and `since_ts`, sort by id or by timestamp in the requested direction,
/// then keep the first `limit` entries. Absent parameters mean: ascending
/// by id, capped at `MAX_LIMIT`, no filtering.
pub fn apply_query(messages: Vec<Message>, params: Option<MsgQuery>) -> (r: Vec<Message>)
    ensures
        r@ == spec_query_result(messages@, params),
        spec_sorted(r@, spec_by_ts(params), spec_asc(params)),
        forall|i: int| 0 <= i < r@.len() ==> spec_keeps(#[trigger] r@[i], params),
        r@.len() == vstd::math::min(
            spec_filtered(messages@, params).len() as int,
            spec_limit(params),
        ),
        exists|s: Seq<Message>|
            s.to_multiset() == spec_filtered(messages@, params).to_multiset() && spec_sorted(
                s,
                spec_by_ts(params),
                spec_asc(params),
            ) && r@ == s.take(r@.len() as int),
{
    let ghost orig = messages@;
    let by_ts = query_by_ts(&params);
    let asc = query_asc(&params);
    let lim = query_limit(&params);
    let kept = filter_messages(messages, &params);
    let ghost keptv = kept@;
    let mut sorted = sort_messages(kept, by_ts, asc);
    let ghost sortedv = sorted@;
    proof {
        broadcast use vstd::seq_lib::group_to_multiset_ensures;

        vstd::seq_lib::to_multiset_len(sortedv);
        vstd::seq_lib::to_multiset_len(keptv);
        assert(sortedv.len() == keptv.len());
        lemma_filtered_elems(orig, params);
        assert forall|i: int| 0 <= i < sortedv.len() implies spec_keeps(
            #[trigger] sortedv[i],
            params,
        ) by {
            assert(sortedv.to_multiset().count(sortedv[i]) > 0);
            assert(keptv.to_multiset().count(sortedv[i]) > 0);
            assert(keptv.contains(sortedv[i]));
        }
    }
    if sorted.len() > lim {
        sorted.truncate(lim);
        assert(sorted@ =~= sortedv.take(lim as int));
    } else {
        assert(sorted@ =~= sortedv.take(sorted@.len() as int));
    }
    assert(spec_sorted(sorted@, spec_by_ts(params), spec_asc(params))) by {
        assert(forall|i: int|
            0 <= i < sorted@.len() ==> #[trigger] sorted@[i] == sortedv[i]);
    }
    assert(sorted@ == spec_query_result(orig, params));
    sorted
}

/// With no parameters nothing is filtered out: a query without
/// parameters returns the whole message set (sorted ascending by id and
/// capped at `MAX_LIMIT`, per `apply_query`'s contract).
pub proof fn lemma_filtered_none(s: Seq<Message>)
    ensures
        spec_filtered(s, None) == s,
    decreases s.len(),
{
    if s.len() > 0 {
        lemma_filtered_none(s.drop_last());
        assert(spec_filtered(s, None) =~= s);
    }
}

/// A read of no room at all: the empty result.
pub fn no_room() -> (r: Vec<Message>)
    ensures
        r@ == Seq::<Message>::empty(),
{
    let r: Vec<Message> = Vec::new();
    assert(r@ =~= Seq::<Message>::empty());
    r
}

} // verus!

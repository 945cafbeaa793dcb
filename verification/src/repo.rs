use vstd::prelude::*;
use crate::codec::{parse_message, spec_parse_fields};
use crate::numfmt::{parse_id_chars, spec_parse_id};
use crate::query::{
    apply_query, sort_messages, spec_asc, spec_by_ts, spec_filtered, spec_keeps, spec_limit,
    spec_sorted,
};
use crate::room::{spec_valid_room, validate_room};
use crate::strutil::{byte_len_exceeds, str_byte_len, str_to_chars};
use crate::time::{rfc3339_instant, utc_now_iso};
use crate::types::{msg_tuple, ApiError, Limits, Message, MsgQuery, NewMessage};

verus! {

// ------------------------------------------------------------------
// Identity allocation: a record's name carries its id.
// ------------------------------------------------------------------
/// Where a record name's stem ends: just before the last `.` that is not
/// the leading character, or the whole name when there is no such `.`.
pub open spec fn spec_cut(s: Seq<char>, j: nat) -> int
    decreases j,
{
    if j <= 1 {
        s.len() as int
    } else if s[j - 1] == '.' {
        j - 1
    } else {
        spec_cut(s, (j - 1) as nat)
    }
}

pub open spec fn spec_file_stem(s: Seq<char>) -> Seq<char> {
    s.take(spec_cut(s, s.len()))
}

/// The numeric identity token a record name carries, when it carries one.
pub open spec fn spec_id_of_name(name: Seq<char>) -> Option<usize> {
    spec_parse_id(spec_file_stem(name))
}

/// A name's id for the purpose of taking a maximum; a name with no id
/// counts as zero.
pub open spec fn id_val(name: Seq<char>) -> int {
    match spec_id_of_name(name) {
        Some(v) => v as int,
        None => 0,
    }
}

/// The greatest id among the record names, or zero when there is none.
pub open spec fn spec_max_id(names: Seq<String>) -> int
    decreases names.len(),
{
    if names.len() == 0 {
        0int
    } else {
        let rest = spec_max_id(names.drop_last());
        let last = id_val(names.last()@);
        if last > rest {
            last
        } else {
            rest
        }
    }
}

/// The id the next accepted message gets: one more than the greatest
/// existing id (one for an empty room), saturating at the type's limit.
pub open spec fn spec_next_id(names: Seq<String>) -> usize {
    if spec_max_id(names) >= usize::MAX as int {
        usize::MAX
    } else {
        (spec_max_id(names) + 1) as usize
    }
}

proof fn lemma_max_id_bounds(names: Seq<String>)
    ensures
        0 <= spec_max_id(names) <= usize::MAX as int,
    decreases names.len(),
{
    if names.len() > 0 {
        lemma_max_id_bounds(names.drop_last());
    }
}

/// The maximum dominates every name's id.
proof fn lemma_max_id_ge(names: Seq<String>, i: int)
    requires
        0 <= i < names.len(),
    ensures
        spec_max_id(names) >= id_val(names[i]@),
    decreases names.len(),
{
    if i == names.len() - 1 {
        assert(names.last() == names[i]);
    } else {
        lemma_max_id_ge(names.drop_last(), i);
        assert(names.drop_last()[i] == names[i]);
    }
}

/// A non-zero maximum is the id of some name.
proof fn lemma_max_id_in(names: Seq<String>)
    ensures
        spec_max_id(names) == 0 || exists|i: int|
            0 <= i < names.len() && id_val(#[trigger] names[i]@) == spec_max_id(names),
    decreases names.len(),
{
    if names.len() > 0 {
        let m = spec_max_id(names);
        if m == id_val(names.last()@) {
            assert(names[names.len() - 1] == names.last());
            assert(id_val(names[names.len() - 1]@) == m);
        } else {
            lemma_max_id_in(names.drop_last());
            if m != 0 {
                let i = choose|i: int|
                    0 <= i < names.drop_last().len() && id_val(
                        #[trigger] names.drop_last()[i]@,
                    ) == spec_max_id(names.drop_last());
                assert(names.drop_last()[i] == names[i]);
                assert(id_val(names[i]@) == m);
            }
        }
    }
}

/// Freshness of allocation: as long as ids have not reached the type's
/// limit, the id handed out collides with no id already stored. A writer
/// that serializes allocation and save per room (so that every earlier
/// save's record is among `names`) therefore never assigns a duplicate id.
pub proof fn lemma_next_id_fresh(names: Seq<String>)
    requires
        spec_max_id(names) < usize::MAX as int,
    ensures
        forall|i: int|
            0 <= i < names.len() && spec_id_of_name(#[trigger] names[i]@) is Some
                ==> (spec_id_of_name(names[i]@).unwrap() as int) < spec_next_id(names) as int,
{
    lemma_max_id_bounds(names);
    assert forall|i: int|
        0 <= i < names.len() && spec_id_of_name(#[trigger] names[i]@) is Some implies (
    spec_id_of_name(names[i]@).unwrap() as int) < spec_next_id(names) as int by {
        lemma_max_id_ge(names, i);
    }
}

/// Sequential creation hands out 1, 2, 3, ...: when the stored ids are
/// exactly 1 through k, the next message is assigned k + 1. By induction
/// over the creations, a room that starts empty and accepts n messages in
/// sequence returns exactly the ids 1 through n, in creation order.
pub proof fn lemma_sequential_next_id(names: Seq<String>, k: nat)
    requires
        k < usize::MAX as nat,
        forall|i: int| 0 <= i < names.len() ==> spec_id_of_name(#[trigger] names[i]@) is Some,
        forall|i: int|
            0 <= i < names.len() ==> 1 <= (spec_id_of_name(#[trigger] names[i]@).unwrap() as int)
                <= k as int,
        k >= 1 ==> exists|i: int|
            0 <= i < names.len() && (spec_id_of_name(#[trigger] names[i]@).unwrap() as int)
                == k as int,
    ensures
        spec_next_id(names) == k + 1,
{
    lemma_max_id_bounds(names);
    if k == 0 {
        assert(names.len() == 0) by {
            if names.len() > 0 {
                assert(spec_id_of_name(names[0]@) is Some);
            }
        }
    } else {
        let w = choose|i: int|
            0 <= i < names.len() && (spec_id_of_name(#[trigger] names[i]@).unwrap() as int)
                == k as int;
        lemma_max_id_ge(names, w);
        assert(id_val(names[w]@) == k as int);
        assert(spec_max_id(names) >= k as int);
        lemma_max_id_in(names);
        assert(spec_max_id(names) <= k as int) by {
            if spec_max_id(names) != 0 {
                let i = choose|i: int|
                    0 <= i < names.len() && id_val(#[trigger] names[i]@) == spec_max_id(names);
                assert(id_val(names[i]@) <= k as int);
            }
        }
    }
}

// ------------------------------------------------------------------
// Executable repository logic.
// ------------------------------------------------------------------
/// Where a record name's stem ends.
fn stem_cut(v: &Vec<char>) -> (c: usize)
    ensures
        c as int == spec_cut(v@, v@.len() as nat),
        c <= v@.len(),
{
    let mut j = v.len();
    while j > 1
        invariant
            0 <= j <= v@.len(),
            spec_cut(v@, v@.len() as nat) == spec_cut(v@, j as nat),
        decreases j,
    {
        if v[j - 1] == '.' {
            return j - 1;
        }
        j = j - 1;
    }
    v.len()
}

/// The id a record name carries: its stem read as a decimal number.
pub fn id_of_name(name: &str) -> (r: Option<usize>)
    ensures
        r == spec_id_of_name(name@),
{
    let v = str_to_chars(name);
    let c = stem_cut(&v);
    let r = parse_id_chars(&v, 0, c);
    assert(v@.subrange(0, c as int) =~= spec_file_stem(name@));
    r
}

/// The id for the next message of a room whose stored record names are
/// `names`: the greatest id carried by any of them plus one, or 1 when
/// none carries an id. Reading the names and saving the new record are
/// not atomic as a pair; see `lemma_next_id_fresh` for what serialized
/// use guarantees.
pub fn next_id(names: &Vec<String>) -> (r: usize)
    ensures
        r == spec_next_id(names@),
{
    let n = names.len();
    let mut cur: usize = 0;
    let mut i: usize = 0;
    assert(names@.take(0).len() == 0);
    while i < n
        invariant
            0 <= i <= n,
            n == names@.len(),
            cur as int == spec_max_id(names@.take(i as int)),
        decreases n - i,
    {
        let ghost t1 = names@.take(i + 1);
        assert(t1.drop_last() =~= names@.take(i as int));
        assert(t1.last() == names@[i as int]);
        let id = match id_of_name(names[i].as_str()) {
            Some(v) => v,
            None => 0,
        };
        assert(id as int == id_val(names@[i as int]@));
        if id > cur {
            cur = id;
        }
        i = i + 1;
    }
    assert(names@.take(n as int) =~= names@);
    if cur == usize::MAX {
        usize::MAX
    } else {
        cur + 1
    }
}

// ------------------------------------------------------------------
// Loading: decode every readable record, drop the rest, order by id.
// ------------------------------------------------------------------
/// The decoded contents of the given records, in the order given: each
/// record that parses contributes its fields, the rest are dropped.
pub open spec fn spec_decoded(records: Seq<String>) -> Seq<
    (usize, Seq<char>, Seq<char>, Seq<char>, Seq<char>, Seq<char>, Seq<char>),
>
    decreases records.len(),
{
    if records.len() == 0 {
        Seq::empty()
    } else {
        let rest = spec_decoded(records.drop_last());
        match spec_parse_fields(records.last()@) {
            Some(t) => rest.push(t),
            None => rest,
        }
    }
}

/// Decodes the stored records of a room and hands them back sorted by
/// ascending id. A record that does not parse is silently dropped: the
/// call never fails on account of a corrupt or half-written record.
pub fn load_messages(records: &Vec<String>) -> (r: Vec<Message>)
    ensures
        spec_sorted(r@, false, true),
        exists|d: Seq<Message>|
            #![trigger d.to_multiset()]
            d.map_values(|m: Message| msg_tuple(m)) == spec_decoded(records@)
                && r@.to_multiset() == d.to_multiset(),
{
    let n = records.len();
    let mut out: Vec<Message> = Vec::new();
    let mut i: usize = 0;
    assert(out@.map_values(|m: Message| msg_tuple(m)) =~= spec_decoded(records@.take(0)));
    while i < n
        invariant
            0 <= i <= n,
            n == records@.len(),
            out@.map_values(|m: Message| msg_tuple(m)) == spec_decoded(records@.take(i as int)),
        decreases n - i,
    {
        let ghost t1 = records@.take(i + 1);
        assert(t1.drop_last() =~= records@.take(i as int));
        assert(t1.last() == records@[i as int]);
        let ghost o0 = out@;
        match parse_message(records[i].as_str()) {
            Some(m) => {
                out.push(m);
                assert(out@.map_values(|m: Message| msg_tuple(m)) =~= o0.map_values(
                    |m: Message| msg_tuple(m),
                ).push(msg_tuple(m)));
            },
            None => {},
        }
        i = i + 1;
    }
    assert(records@.take(n as int) =~= records@);
    let ghost d = out@;
    let r = sort_messages(out, false, true);
    r
}

/// Reads a room: decode its records, then apply the query. The result is
/// the filtered set, ordered as asked, capped at the limit.
pub fn get_messages(records: &Vec<String>, params: Option<MsgQuery>) -> (r: Vec<Message>)
    ensures
        spec_sorted(r@, spec_by_ts(params), spec_asc(params)),
        forall|i: int| 0 <= i < r@.len() ==> spec_keeps(#[trigger] r@[i], params),
        exists|d: Seq<Message>|
            #![trigger spec_filtered(d, params)]
            d.map_values(|m: Message| msg_tuple(m)) == spec_decoded(records@) && r@.len()
                == vstd::math::min(spec_filtered(d, params).len() as int, spec_limit(params))
                && exists|s: Seq<Message>|
                #![trigger s.to_multiset()]
                s.to_multiset() == spec_filtered(d, params).to_multiset() && spec_sorted(
                    s,
                    spec_by_ts(params),
                    spec_asc(params),
                ) && r@ == s.take(r@.len() as int),
{
    let msgs = load_messages(records);
    let ghost loaded = msgs@;
    let r = apply_query(msgs, params);
    proof {
        let d = choose|d: Seq<Message>|
            #![trigger d.to_multiset()]
            d.map_values(|m: Message| msg_tuple(m)) == spec_decoded(records@)
                && loaded.to_multiset() == d.to_multiset();
        crate::query::lemma_filtered_permutation(loaded, d, params);
        vstd::seq_lib::to_multiset_len(spec_filtered(loaded, params));
        vstd::seq_lib::to_multiset_len(spec_filtered(d, params));
    }
    r
}

// ------------------------------------------------------------------
// Creation: validate, bound, assign identity, assemble.
// ------------------------------------------------------------------
/// Whether a new message breaks the configured per-field length bounds;
/// lengths are measured in bytes of the UTF-8 form.
pub open spec fn spec_oversize(nm: NewMessage, limits: Limits) -> bool {
    str_byte_len(nm.user@) > limits.max_user_len as int || str_byte_len(nm.user_iv@)
        > limits.max_iv_len as int || str_byte_len(nm.iv@) > limits.max_iv_len as int
        || str_byte_len(nm.content@) > limits.max_content_len as int
}

/// Accepts or rejects a write request. The room must be 16 lowercase hex digits
/// (else `InvalidRoom`), every field must be within its bound (else
/// `PayloadRejected`); an accepted message echoes the caller's fields
/// verbatim and gets the room's next id and a fresh RFC 3339 timestamp.
/// `names` are the record names currently stored for the room.
pub fn create_message(
    room: &str,
    new_message: NewMessage,
    limits: &Limits,
    names: &Vec<String>,
) -> (r: Result<Message, ApiError>)
    ensures
        r is Ok <==> spec_valid_room(room@) && !spec_oversize(new_message, *limits),
        r == Err::<Message, ApiError>(ApiError::InvalidRoom) <==> !spec_valid_room(room@),
        r == Err::<Message, ApiError>(ApiError::PayloadRejected) <==> spec_valid_room(room@)
            && spec_oversize(new_message, *limits),
        r matches Ok(m) ==> m.id == spec_next_id(names@) && m.room@ == room@ && m.user@
            == new_message.user@ && m.user_iv@ == new_message.user_iv@ && m.content@
            == new_message.content@ && m.iv@ == new_message.iv@ && rfc3339_instant(
            m.timestamp@,
        ) is Some,
{
    if !validate_room(room) {
        return Err(ApiError::InvalidRoom);
    }
    if byte_len_exceeds(new_message.user.as_str(), limits.max_user_len)
        || byte_len_exceeds(new_message.user_iv.as_str(), limits.max_iv_len)
        || byte_len_exceeds(new_message.iv.as_str(), limits.max_iv_len)
        || byte_len_exceeds(new_message.content.as_str(), limits.max_content_len) {
        return Err(ApiError::PayloadRejected);
    }
    let id = next_id(names);
    let timestamp = utc_now_iso();
    Ok(
        Message {
            id,
            room: String::from_str(room),
            user: new_message.user,
            user_iv: new_message.user_iv,
            content: new_message.content,
            iv: new_message.iv,
            timestamp,
        },
    )
}

} // verus!

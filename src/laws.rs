//! Properties that hold across the parser, the deduplicator, the grouping
//! and the statistics.
use vstd::prelude::*;
use crate::analyzer::{bucket_data, bucket_members, describes_bucket};
use crate::corpus::{dedup, seen_in};
use crate::date::timestamp_of;
use crate::grouping::{
    bucket_key, keys_in_order, lemma_pipe_join_injective, positions_with_key, Granularity,
};
use crate::log::{
    fields_of, identity, parse_line_spec, parsed_records, size_of, status_number, well_formed, LogView,
};
use crate::stats::{
    byte_total, error_count, ip_set, is_error, units_at, LogData, lemma_ip_set_finite, select, session_breaks, session_count,
    starts_new_session, user_count,
};

verus! {

/// A line gives either a well-formed record, every field of which comes
/// from the line, or no record at all.
pub proof fn lemma_parser_totality(line: Seq<char>, table: Map<Seq<char>, Seq<char>>)
    ensures
        parse_line_spec(line, table) matches Ok(v) ==> {
            &&& well_formed(v)
            &&& fields_of(line).len() == 9
            &&& v.ip == fields_of(line)[0]
            &&& v.client_id == fields_of(line)[1]
            &&& v.user_id == fields_of(line)[2]
            &&& v.time == fields_of(line)[3]
            &&& v.request == fields_of(line)[4]
            &&& table.contains_key(fields_of(line)[5])
            &&& v.code == status_number(fields_of(line)[5])
            &&& v.description == table[fields_of(line)[5]]
            &&& (v.size, v.size_scale) == size_of(fields_of(line)[6])
            &&& timestamp_of(fields_of(line)[3]) == Some((v.date, v.epoch))
        },
{
}

proof fn lemma_seen_push(t: Seq<LogView>, x: LogView, k: (Seq<char>, Seq<char>, Seq<char>, Seq<char>, u16))
    ensures
        seen_in(t.push(x), k) == (seen_in(t, k) || identity(x) == k),
{
    if seen_in(t, k) {
        let j = choose|j: int| 0 <= j < t.len() && identity(#[trigger] t[j]) == k;
        assert(t.push(x)[j] == t[j]);
    }
    if identity(x) == k {
        assert(t.push(x)[t.len() as int] == x);
    }
    if seen_in(t.push(x), k) {
        let j = choose|j: int| 0 <= j < t.len() + 1 && identity(#[trigger] t.push(x)[j]) == k;
        if j < t.len() {
            assert(t.push(x)[j] == t[j]);
        }
    }
}

proof fn lemma_dedup_seen(s: Seq<LogView>, k: (Seq<char>, Seq<char>, Seq<char>, Seq<char>, u16))
    ensures
        seen_in(dedup(s), k) == seen_in(s, k),
    decreases s.len(),
{
    if s.len() > 0 {
        let t = s.drop_last();
        let x = s.last();
        assert(s == t.push(x));
        lemma_dedup_seen(t, k);
        lemma_seen_push(t, x, k);
        if !seen_in(t, identity(x)) {
            lemma_seen_push(dedup(t), x, k);
        }
    }
}

/// No two records of `s` share an identity.
pub open spec fn identities_distinct(s: Seq<LogView>) -> bool {
    forall|i: int, j: int|
        0 <= i < j < s.len() ==> identity(#[trigger] s[i]) != identity(#[trigger] s[j])
}

proof fn lemma_dedup_distinct(s: Seq<LogView>)
    ensures
        identities_distinct(dedup(s)),
    decreases s.len(),
{
    if s.len() > 0 {
        let t = s.drop_last();
        let x = s.last();
        lemma_dedup_distinct(t);
        if !seen_in(t, identity(x)) {
            lemma_dedup_seen(t, identity(x));
            let d = dedup(t).push(x);
            assert forall|i: int, j: int| 0 <= i < j < d.len() implies identity(#[trigger] d[i])
                != identity(#[trigger] d[j]) by {
                if j == d.len() - 1 {
                    assert(d[i] == dedup(t)[i]);
                    if identity(d[i]) == identity(x) {
                        assert(seen_in(dedup(t), identity(x)));
                    }
                } else {
                    assert(d[i] == dedup(t)[i]);
                    assert(d[j] == dedup(t)[j]);
                }
            }
        }
    }
}

proof fn lemma_dedup_of_distinct(s: Seq<LogView>)
    requires
        identities_distinct(s),
    ensures
        dedup(s) == s,
    decreases s.len(),
{
    if s.len() > 0 {
        let t = s.drop_last();
        assert(identities_distinct(t)) by {
            assert forall|i: int, j: int| 0 <= i < j < t.len() implies identity(#[trigger] t[i])
                != identity(#[trigger] t[j]) by {
                assert(t[i] == s[i] && t[j] == s[j]);
            }
        }
        lemma_dedup_of_distinct(t);
        if seen_in(t, identity(s.last())) {
            let j = choose|j: int| 0 <= j < t.len() && identity(#[trigger] t[j]) == identity(s.last());
            assert(t[j] == s[j]);
            assert(s[s.len() - 1] == s.last());
        }
        assert(s =~= t.push(s.last()));
    }
}

/// Removing duplicates a second time changes nothing.
pub proof fn lemma_dedup_idempotent(s: Seq<LogView>)
    ensures
        dedup(dedup(s)) == dedup(s),
{
    lemma_dedup_distinct(s);
    lemma_dedup_of_distinct(dedup(s));
}

/// The positions of the records that no earlier record shares an identity with.
pub open spec fn first_positions(s: Seq<LogView>) -> Seq<int>
    decreases s.len(),
{
    if s.len() == 0 {
        Seq::empty()
    } else if seen_in(s.drop_last(), identity(s.last())) {
        first_positions(s.drop_last())
    } else {
        first_positions(s.drop_last()).push(s.len() - 1)
    }
}

/// Removing duplicates keeps exactly the first record of each identity,
/// in the order in which they occur.
pub proof fn lemma_dedup_keeps_first_in_order(s: Seq<LogView>)
    ensures
        dedup(s).len() == first_positions(s).len(),
        forall|k: int|
            0 <= k < dedup(s).len() ==> #[trigger] dedup(s)[k] == s[first_positions(s)[k]],
        forall|a: int, b: int|
            0 <= a < b < first_positions(s).len() ==> #[trigger] first_positions(s)[a]
                < #[trigger] first_positions(s)[b],
        forall|i: int|
            0 <= i < s.len() ==> (first_positions(s).contains(i) <==> !seen_in(
                s.take(i),
                identity(#[trigger] s[i]),
            )),
        forall|k: int|
            0 <= k < first_positions(s).len() ==> 0 <= #[trigger] first_positions(s)[k] < s.len(),
    decreases s.len(),
{
    if s.len() > 0 {
        let t = s.drop_last();
        let n = s.len() - 1;
        lemma_dedup_keeps_first_in_order(t);
        let fp = first_positions(t);
        assert forall|i: int| 0 <= i < n implies #[trigger] s.take(i) == t.take(i) by {
            assert(s.take(i) =~= t.take(i));
        }
        assert(s.take(n) =~= t);
        assert forall|i: int| 0 <= i < s.len() implies (first_positions(s).contains(i) <==> !seen_in(
            s.take(i),
            identity(#[trigger] s[i]),
        )) by {
            if i < n {
                assert(s[i] == t[i]);
                assert(s.take(i) == t.take(i));
                if !seen_in(t, identity(s.last())) {
                    let q = fp.push(n);
                    if q.contains(i) {
                        let w = choose|w: int| 0 <= w < q.len() && q[w] == i;
                        assert(w < fp.len());
                        assert(fp[w] == i);
                    }
                    if fp.contains(i) {
                        let w = choose|w: int| 0 <= w < fp.len() && fp[w] == i;
                        assert(q[w] == i);
                    }
                }
            } else {
                if !seen_in(t, identity(s.last())) {
                    assert(fp.push(n)[fp.len() as int] == n);
                } else {
                    if fp.contains(n) {
                        let w = choose|w: int| 0 <= w < fp.len() && fp[w] == n;
                    }
                }
            }
        }
        if !seen_in(t, identity(s.last())) {
            let q = fp.push(n);
            assert forall|k: int| 0 <= k < dedup(s).len() implies #[trigger] dedup(s)[k]
                == s[first_positions(s)[k]] by {
                if k < fp.len() {
                    assert(dedup(s)[k] == dedup(t)[k]);
                    assert(t[fp[k]] == s[fp[k]]);
                }
            }
        } else {
            assert forall|k: int| 0 <= k < dedup(s).len() implies #[trigger] dedup(s)[k]
                == s[first_positions(s)[k]] by {
                assert(t[fp[k]] == s[fp[k]]);
            }
        }
    }
}

/// Whether position `j` lies in the bucket with key `k`.
proof fn lemma_positions_member(s: Seq<LogView>, g: Granularity, k: Seq<char>, n: nat, j: int)
    requires
        n <= s.len(),
        s.len() <= usize::MAX,
    ensures
        positions_with_key(s, g, k, n).contains(j as usize) && 0 <= j <= usize::MAX <==> (0 <= j
            < n && bucket_key(s[j], g) == k),
    decreases n,
{
    if n > 0 {
        lemma_positions_member(s, g, k, (n - 1) as nat, j);
        lemma_positions_sorted(s, g, k, (n - 1) as nat);
        let p = positions_with_key(s, g, k, (n - 1) as nat);
        if bucket_key(s[n - 1], g) == k {
            let q = p.push((n - 1) as usize);
            if 0 <= j <= usize::MAX && q.contains(j as usize) {
                let w = choose|w: int| 0 <= w < q.len() && q[w] == j as usize;
                if w < p.len() {
                    assert(p[w] == j as usize);
                }
            }
            if 0 <= j < n - 1 && bucket_key(s[j], g) == k {
                let w = choose|w: int| 0 <= w < p.len() && p[w] == j as usize;
                assert(q[w] == j as usize);
            }
            if j == n - 1 {
                assert(q[p.len() as int] == j as usize);
            }
        }
    }
}

/// The positions of a bucket are increasing and lie below `n`.
proof fn lemma_positions_sorted(s: Seq<LogView>, g: Granularity, k: Seq<char>, n: nat)
    requires
        n <= s.len(),
        s.len() <= usize::MAX,
    ensures
        forall|a: int, b: int|
            0 <= a < b < positions_with_key(s, g, k, n).len() ==> #[trigger] positions_with_key(
                s,
                g,
                k,
                n,
            )[a] < #[trigger] positions_with_key(s, g, k, n)[b],
        forall|a: int|
            0 <= a < positions_with_key(s, g, k, n).len() ==> #[trigger] positions_with_key(
                s,
                g,
                k,
                n,
            )[a] < n,
    decreases n,
{
    if n > 0 {
        lemma_positions_sorted(s, g, k, (n - 1) as nat);
        let p = positions_with_key(s, g, k, (n - 1) as nat);
        if bucket_key(s[n - 1], g) == k {
            let q = p.push((n - 1) as usize);
            assert forall|a: int, b: int| 0 <= a < b < q.len() implies #[trigger] q[a]
                < #[trigger] q[b] by {
                assert(q[a] == p[a]);
                if b < p.len() {
                    assert(q[b] == p[b]);
                }
            }
            assert forall|a: int| 0 <= a < q.len() implies #[trigger] q[a] < n by {
                if a < p.len() {
                    assert(q[a] == p[a]);
                }
            }
        }
    }
}

proof fn lemma_keys_cover(s: Seq<LogView>, g: Granularity, n: nat, j: int)
    requires
        n <= s.len(),
        0 <= j < n,
    ensures
        keys_in_order(s, g, n).contains(bucket_key(s[j], g)),
    decreases n,
{
    let p = keys_in_order(s, g, (n - 1) as nat);
    if j < n - 1 {
        lemma_keys_cover(s, g, (n - 1) as nat, j);
        let w = choose|w: int| 0 <= w < p.len() && p[w] == bucket_key(s[j], g);
        if !p.contains(bucket_key(s[n - 1], g)) {
            assert(p.push(bucket_key(s[n - 1], g))[w] == bucket_key(s[j], g));
        }
    } else {
        if !p.contains(bucket_key(s[n - 1], g)) {
            assert(p.push(bucket_key(s[n - 1], g))[p.len() as int] == bucket_key(s[j], g));
        }
    }
}

proof fn lemma_keys_distinct(s: Seq<LogView>, g: Granularity, n: nat)
    ensures
        keys_in_order(s, g, n).no_duplicates(),
    decreases n,
{
    if n > 0 {
        lemma_keys_distinct(s, g, (n - 1) as nat);
    }
}

/// The positions of the `b`-th bucket when the records `s` are grouped by `g`.
pub open spec fn bucket_positions(s: Seq<LogView>, g: Granularity, b: int) -> Seq<usize> {
    positions_with_key(s, g, keys_in_order(s, g, s.len())[b], s.len())
}

/// The position, among the buckets of `g`, of the bucket that holds record `j`.
pub open spec fn bucket_index(s: Seq<LogView>, g: Granularity, j: int) -> int {
    choose|b: int|
        0 <= b < keys_in_order(s, g, s.len()).len() && keys_in_order(s, g, s.len())[b]
            == bucket_key(s[j], g)
}

/// Grouping places every record in exactly one bucket, and lists each
/// bucket's records once, in their order in the corpus.
pub proof fn lemma_bucket_closure(s: Seq<LogView>, g: Granularity)
    requires
        s.len() <= usize::MAX,
    ensures
        forall|j: int|
            0 <= j < s.len() ==> 0 <= #[trigger] bucket_index(s, g, j) < keys_in_order(
                s,
                g,
                s.len(),
            ).len() && bucket_positions(s, g, bucket_index(s, g, j)).contains(j as usize),
        forall|j: int, b1: int, b2: int|
            0 <= j < s.len() && 0 <= b1 < keys_in_order(s, g, s.len()).len() && 0 <= b2
                < keys_in_order(s, g, s.len()).len() && #[trigger] bucket_positions(s, g, b1).contains(
                j as usize,
            ) && #[trigger] bucket_positions(s, g, b2).contains(j as usize) ==> b1 == b2,
        forall|b: int, x: int, y: int|
            0 <= b < keys_in_order(s, g, s.len()).len() && 0 <= x < y < bucket_positions(
                s,
                g,
                b,
            ).len() ==> #[trigger] bucket_positions(s, g, b)[x] < #[trigger] bucket_positions(
                s,
                g,
                b,
            )[y],
        forall|b: int, x: int|
            0 <= b < keys_in_order(s, g, s.len()).len() && 0 <= x < bucket_positions(s, g, b).len()
                ==> #[trigger] bucket_positions(s, g, b)[x] < s.len(),
{
    let keys = keys_in_order(s, g, s.len());
    lemma_keys_distinct(s, g, s.len());
    assert forall|j: int| 0 <= j < s.len() implies 0 <= #[trigger] bucket_index(s, g, j)
        < keys.len() && bucket_positions(s, g, bucket_index(s, g, j)).contains(j as usize) by {
        lemma_keys_cover(s, g, s.len(), j);
        let b = bucket_index(s, g, j);
        lemma_positions_member(s, g, keys[b], s.len(), j);
    }
    assert forall|j: int, b1: int, b2: int|
        0 <= j < s.len() && 0 <= b1 < keys.len() && 0 <= b2 < keys.len()
            && #[trigger] bucket_positions(s, g, b1).contains(j as usize)
            && #[trigger] bucket_positions(s, g, b2).contains(j as usize) implies b1 == b2 by {
        lemma_positions_member(s, g, keys[b1], s.len(), j);
        lemma_positions_member(s, g, keys[b2], s.len(), j);
    }
    assert forall|b: int, x: int, y: int|
        0 <= b < keys.len() && 0 <= x < y < bucket_positions(s, g, b).len() implies #[trigger] bucket_positions(
        s,
        g,
        b,
    )[x] < #[trigger] bucket_positions(s, g, b)[y] by {
        lemma_positions_sorted(s, g, keys[b], s.len());
    }
    assert forall|b: int, x: int|
        0 <= b < keys.len() && 0 <= x < bucket_positions(s, g, b).len() implies #[trigger] bucket_positions(
        s,
        g,
        b,
    )[x] < s.len() by {
        lemma_positions_sorted(s, g, keys[b], s.len());
    }
}

/// Records that share a bucket at a finer granularity share one at any
/// coarser granularity.
proof fn lemma_finer_key_implies_coarser(a: LogView, b: LogView, fine: Granularity, coarse: Granularity)
    requires
        coarse.spec_prefix_len() <= fine.spec_prefix_len(),
        bucket_key(a, fine) == bucket_key(b, fine),
    ensures
        bucket_key(a, coarse) == bucket_key(b, coarse),
{
    let pf = fine.spec_prefix_len() as int;
    let pc = coarse.spec_prefix_len() as int;
    lemma_pipe_join_injective(a.date.parts().take(pf), b.date.parts().take(pf));
    assert(a.date.parts().take(pc) =~= a.date.parts().take(pf).take(pc));
    assert(b.date.parts().take(pc) =~= b.date.parts().take(pf).take(pc));
}

/// The records of the bucket of `g` that holds record `j`.
pub open spec fn bucket_of(s: Seq<LogView>, g: Granularity, j: int, n: nat) -> Seq<LogView> {
    select(s, positions_with_key(s, g, bucket_key(s[j], g), n))
}

proof fn lemma_select_push(s: Seq<LogView>, p: Seq<usize>, x: usize)
    ensures
        select(s, p.push(x)) == select(s, p).push(s[x as int]),
{
    assert(select(s, p.push(x)) =~= select(s, p).push(s[x as int]));
}

proof fn lemma_ip_set_push(t: Seq<LogView>, x: LogView)
    ensures
        ip_set(t.push(x)) == ip_set(t).insert(x.ip),
{
    assert(t.push(x).drop_last() =~= t);
}

proof fn lemma_dominates(s: Seq<LogView>, j: int, fine: Granularity, coarse: Granularity, n: nat, k: nat)
    requires
        coarse.spec_prefix_len() <= fine.spec_prefix_len(),
        0 <= j < s.len(),
        n <= s.len(),
    ensures
        bucket_of(s, fine, j, n).len() <= bucket_of(s, coarse, j, n).len(),
        byte_total(bucket_of(s, fine, j, n), k) <= byte_total(bucket_of(s, coarse, j, n), k),
        error_count(bucket_of(s, fine, j, n)) <= error_count(bucket_of(s, coarse, j, n)),
        ip_set(bucket_of(s, fine, j, n)).subset_of(ip_set(bucket_of(s, coarse, j, n))),
    decreases n,
{
    if n > 0 {
        lemma_dominates(s, j, fine, coarse, (n - 1) as nat, k);
        let kf = bucket_key(s[j], fine);
        let kc = bucket_key(s[j], coarse);
        let pf = positions_with_key(s, fine, kf, (n - 1) as nat);
        let pc = positions_with_key(s, coarse, kc, (n - 1) as nat);
        let x = s[n - 1];
        lemma_select_push(s, pf, (n - 1) as usize);
        lemma_select_push(s, pc, (n - 1) as usize);
        lemma_ip_set_push(select(s, pf), x);
        lemma_ip_set_push(select(s, pc), x);
        if bucket_key(x, fine) == kf {
            lemma_finer_key_implies_coarser(x, s[j], fine, coarse);
        }
        let f1 = bucket_of(s, fine, j, n);
        let c1 = bucket_of(s, coarse, j, n);
        if bucket_key(x, fine) == kf {
            assert(f1.drop_last() =~= select(s, pf));
            assert(c1.drop_last() =~= select(s, pc));
        } else if bucket_key(x, coarse) == kc {
            assert(c1.drop_last() =~= select(s, pc));
        }
    }
}

/// Coarsening the granularity merges buckets: the bucket that holds a record
/// at a coarser granularity has at least as many records, bytes, errors and
/// users as the one that holds it at a finer granularity (bytes in any
/// common unit `10^-k`).
pub proof fn lemma_coarser_bucket_dominates(
    s: Seq<LogView>,
    j: int,
    fine: Granularity,
    coarse: Granularity,
    k: nat,
)
    requires
        coarse.spec_prefix_len() <= fine.spec_prefix_len(),
        0 <= j < s.len(),
    ensures
        bucket_of(s, fine, j, s.len()).len() <= bucket_of(s, coarse, j, s.len()).len(),
        byte_total(bucket_of(s, fine, j, s.len()), k) <= byte_total(bucket_of(s, coarse, j, s.len()), k),
        error_count(bucket_of(s, fine, j, s.len())) <= error_count(
            bucket_of(s, coarse, j, s.len()),
        ),
        user_count(bucket_of(s, fine, j, s.len())) <= user_count(bucket_of(s, coarse, j, s.len())),
{
    lemma_dominates(s, j, fine, coarse, s.len(), k);
    lemma_ip_set_finite(bucket_of(s, coarse, j, s.len()));
    vstd::set_lib::lemma_len_subset(
        ip_set(bucket_of(s, fine, j, s.len())),
        ip_set(bucket_of(s, coarse, j, s.len())),
    );
}

/// Whether record `i` comes more than the session gap after the previous
/// record of its address.
pub open spec fn long_gap_at(s: Seq<LogView>, i: int) -> bool {
    starts_new_session(s.take(i + 1))
}

/// Every address has at least one session; there are exactly as many
/// sessions as addresses when no address has a gap above the session gap
/// between consecutive records.
pub proof fn lemma_session_bound(s: Seq<LogView>)
    ensures
        session_count(s) >= user_count(s),
        session_count(s) == user_count(s) <==> forall|i: int|
            0 <= i < s.len() ==> !#[trigger] long_gap_at(s, i),
    decreases s.len(),
{
    if s.len() > 0 {
        let t = s.drop_last();
        lemma_session_bound(t);
        let n = s.len() - 1;
        assert forall|i: int| 0 <= i < n implies #[trigger] long_gap_at(s, i) == long_gap_at(t, i) by {
            assert(s.take(i + 1) =~= t.take(i + 1));
        }
        assert(s.take(n + 1) =~= s);
        if session_breaks(s) == 0 {
            assert forall|i: int| 0 <= i < s.len() implies !#[trigger] long_gap_at(s, i) by {
                if i < n {
                    assert(!long_gap_at(t, i));
                }
            }
        }
        if forall|i: int| 0 <= i < s.len() ==> !#[trigger] long_gap_at(s, i) {
            assert forall|i: int| 0 <= i < t.len() implies !#[trigger] long_gap_at(t, i) by {
                assert(!long_gap_at(s, i));
            }
            assert(!long_gap_at(s, n));
        }
    }
}

/// A per-record quantity summed over `s`.
pub open spec fn measure(s: Seq<LogView>, m: spec_fn(LogView) -> nat) -> nat
    decreases s.len(),
{
    if s.len() == 0 {
        0
    } else {
        measure(s.drop_last(), m) + m(s.last())
    }
}

/// `m` summed over the buckets of `fine` whose keys in `keys` satisfy `under`,
/// each bucket taken over the first `n` records.
pub open spec fn fine_sum(
    s: Seq<LogView>,
    fine: Granularity,
    keys: Seq<Seq<char>>,
    under: spec_fn(Seq<char>) -> bool,
    m: spec_fn(LogView) -> nat,
    n: nat,
) -> nat
    decreases keys.len(),
{
    if keys.len() == 0 {
        0
    } else {
        fine_sum(s, fine, keys.drop_last(), under, m, n) + if under(keys.last()) {
            measure(select(s, positions_with_key(s, fine, keys.last(), n)), m)
        } else {
            0
        }
    }
}

/// The fine keys whose records fall in the coarse bucket with key `kc`.
pub open spec fn fine_keys_under(
    s: Seq<LogView>,
    fine: Granularity,
    coarse: Granularity,
    kc: Seq<char>,
) -> spec_fn(Seq<char>) -> bool {
    |kf: Seq<char>|
        exists|i: int|
            0 <= i < s.len() && #[trigger] bucket_key(s[i], fine) == kf && bucket_key(s[i], coarse)
                == kc
}

proof fn lemma_bucket_measure_step(s: Seq<LogView>, g: Granularity, k: Seq<char>, m: spec_fn(LogView) -> nat, n: nat)
    requires
        0 < n <= s.len(),
        s.len() <= usize::MAX,
    ensures
        measure(select(s, positions_with_key(s, g, k, n)), m) == measure(
            select(s, positions_with_key(s, g, k, (n - 1) as nat)),
            m,
        ) + if bucket_key(s[n - 1], g) == k {
            m(s[n - 1])
        } else {
            0
        },
{
    let p = positions_with_key(s, g, k, (n - 1) as nat);
    if bucket_key(s[n - 1], g) == k {
        lemma_select_push(s, p, (n - 1) as usize);
        assert(select(s, p.push((n - 1) as usize)).drop_last() =~= select(s, p));
    }
}

proof fn lemma_fine_sum_step(
    s: Seq<LogView>,
    fine: Granularity,
    keys: Seq<Seq<char>>,
    under: spec_fn(Seq<char>) -> bool,
    m: spec_fn(LogView) -> nat,
    n: nat,
)
    requires
        0 < n <= s.len(),
        s.len() <= usize::MAX,
        keys.no_duplicates(),
    ensures
        fine_sum(s, fine, keys, under, m, n) == fine_sum(s, fine, keys, under, m, (n - 1) as nat)
            + if keys.contains(bucket_key(s[n - 1], fine)) && under(bucket_key(s[n - 1], fine)) {
            m(s[n - 1])
        } else {
            0
        },
    decreases keys.len(),
{
    if keys.len() > 0 {
        let t = keys.drop_last();
        assert(t.no_duplicates());
        lemma_fine_sum_step(s, fine, t, under, m, n);
        lemma_bucket_measure_step(s, fine, keys.last(), m, n);
        let kf = bucket_key(s[n - 1], fine);
        assert(keys.contains(kf) == (t.contains(kf) || keys.last() == kf)) by {
            if keys.contains(kf) {
                let w = choose|w: int| 0 <= w < keys.len() && keys[w] == kf;
                if w < t.len() {
                    assert(t[w] == kf);
                }
            }
            if t.contains(kf) {
                let w = choose|w: int| 0 <= w < t.len() && t[w] == kf;
                assert(keys[w] == kf);
            }
        }
        if keys.last() == kf && t.contains(kf) {
            let w = choose|w: int| 0 <= w < t.len() && t[w] == kf;
            assert(keys[w] == keys[keys.len() - 1]);
        }
    }
}

proof fn lemma_merge_upto(
    s: Seq<LogView>,
    fine: Granularity,
    coarse: Granularity,
    kc: Seq<char>,
    m: spec_fn(LogView) -> nat,
    n: nat,
)
    requires
        coarse.spec_prefix_len() <= fine.spec_prefix_len(),
        n <= s.len(),
        s.len() <= usize::MAX,
    ensures
        measure(select(s, positions_with_key(s, coarse, kc, n)), m) == fine_sum(
            s,
            fine,
            keys_in_order(s, fine, n),
            fine_keys_under(s, fine, coarse, kc),
            m,
            n,
        ),
    decreases n,
{
    let under = fine_keys_under(s, fine, coarse, kc);
    if n == 0 {
        assert(select(s, positions_with_key(s, coarse, kc, 0)) =~= Seq::<LogView>::empty());
    } else {
        let n1 = (n - 1) as nat;
        lemma_merge_upto(s, fine, coarse, kc, m, n1);
        lemma_bucket_measure_step(s, coarse, kc, m, n);
        let r = s[n - 1];
        let kf = bucket_key(r, fine);
        assert(under(kf) == (bucket_key(r, coarse) == kc)) by {
            if under(kf) {
                let i = choose|i: int|
                    0 <= i < s.len() && #[trigger] bucket_key(s[i], fine) == kf && bucket_key(
                        s[i],
                        coarse,
                    ) == kc;
                lemma_finer_key_implies_coarser(r, s[i], fine, coarse);
            }
            if bucket_key(r, coarse) == kc {
                assert(bucket_key(s[n - 1], fine) == kf);
            }
        }
        let k1 = keys_in_order(s, fine, n1);
        lemma_keys_distinct(s, fine, n1);
        lemma_fine_sum_step(s, fine, k1, under, m, n);
        if !k1.contains(kf) {
            let k2 = k1.push(kf);
            assert(k2.drop_last() =~= k1);
            crate::grouping::lemma_positions_absent(s, fine, kf, n1);
            lemma_bucket_measure_step(s, fine, kf, m, n);
            assert(select(s, Seq::<usize>::empty()) =~= Seq::<LogView>::empty());
        }
    }
}

/// Coarsening the granularity merges buckets: summed over the records, a
/// quantity of a coarse bucket equals its sum over the fine buckets whose
/// records fall in it. Records, bytes and errors are such quantities.
pub proof fn lemma_coarse_bucket_is_merge(
    s: Seq<LogView>,
    fine: Granularity,
    coarse: Granularity,
    kc: Seq<char>,
    k: nat,
)
    requires
        coarse.spec_prefix_len() <= fine.spec_prefix_len(),
        s.len() <= usize::MAX,
    ensures
        select(s, positions_with_key(s, coarse, kc, s.len())).len() == fine_sum(
            s,
            fine,
            keys_in_order(s, fine, s.len()),
            fine_keys_under(s, fine, coarse, kc),
            |v: LogView| 1nat,
            s.len(),
        ),
        byte_total(select(s, positions_with_key(s, coarse, kc, s.len())), k) == fine_sum(
            s,
            fine,
            keys_in_order(s, fine, s.len()),
            fine_keys_under(s, fine, coarse, kc),
            |v: LogView| units_at(v, k),
            s.len(),
        ),
        error_count(select(s, positions_with_key(s, coarse, kc, s.len()))) == fine_sum(
            s,
            fine,
            keys_in_order(s, fine, s.len()),
            fine_keys_under(s, fine, coarse, kc),
            |v: LogView| if is_error(v) { 1nat } else { 0nat },
            s.len(),
        ),
{
    let b = select(s, positions_with_key(s, coarse, kc, s.len()));
    lemma_merge_upto(s, fine, coarse, kc, |v: LogView| 1nat, s.len());
    lemma_merge_upto(s, fine, coarse, kc, |v: LogView| units_at(v, k), s.len());
    lemma_merge_upto(s, fine, coarse, kc, |v: LogView| if is_error(v) { 1nat } else { 0nat }, s.len());
    lemma_measure_forms(b, k);
}

proof fn lemma_measure_forms(s: Seq<LogView>, k: nat)
    ensures
        measure(s, |v: LogView| 1nat) == s.len(),
        measure(s, |v: LogView| units_at(v, k)) == byte_total(s, k),
        measure(s, |v: LogView| if is_error(v) { 1nat } else { 0nat }) == error_count(s),
    decreases s.len(),
{
    if s.len() > 0 {
        lemma_measure_forms(s.drop_last(), k);
    }
}

/// The lines that split into nine fields.
pub open spec fn nine_field_lines(ls: Seq<Seq<char>>) -> Seq<Seq<char>>
    decreases ls.len(),
{
    if ls.len() == 0 {
        ls
    } else if fields_of(ls.last()).len() == 9 {
        nine_field_lines(ls.drop_last()).push(ls.last())
    } else {
        nine_field_lines(ls.drop_last())
    }
}

/// Lines that do not split into nine fields contribute nothing: parsing
/// only the nine-field lines gives the same records.
pub proof fn lemma_malformed_lines_ignored(ls: Seq<Seq<char>>, table: Map<Seq<char>, Seq<char>>)
    ensures
        parsed_records(nine_field_lines(ls), table) == parsed_records(ls, table),
    decreases ls.len(),
{
    if ls.len() > 0 {
        lemma_malformed_lines_ignored(ls.drop_last(), table);
        if fields_of(ls.last()).len() == 9 {
            let w = nine_field_lines(ls.drop_last()).push(ls.last());
            assert(w.drop_last() =~= nine_field_lines(ls.drop_last()));
        }
    }
}

proof fn lemma_parsed_concat(a: Seq<Seq<char>>, b: Seq<Seq<char>>, table: Map<Seq<char>, Seq<char>>)
    ensures
        parsed_records(a + b, table) == parsed_records(a, table) + parsed_records(b, table),
    decreases b.len(),
{
    if b.len() == 0 {
        assert(a + b =~= a);
        assert(parsed_records(a, table) + parsed_records(b, table) =~= parsed_records(a, table));
    } else {
        lemma_parsed_concat(a, b.drop_last(), table);
        assert((a + b).drop_last() =~= a + b.drop_last());
        assert((a + b).last() == b.last());
        let pa = parsed_records(a, table);
        let pb = parsed_records(b.drop_last(), table);
        if let Ok(v) = parse_line_spec(b.last(), table) {
            assert(pa + pb.push(v) =~= (pa + pb).push(v));
        }
    }
}

proof fn lemma_dedup_seen_suffix(xs: Seq<LogView>, ys: Seq<LogView>)
    requires
        forall|j: int| 0 <= j < ys.len() ==> seen_in(xs, identity(#[trigger] ys[j])),
    ensures
        dedup(xs + ys) == dedup(xs),
    decreases ys.len(),
{
    if ys.len() == 0 {
        assert(xs + ys =~= xs);
    } else {
        let t = ys.drop_last();
        assert forall|j: int| 0 <= j < t.len() implies seen_in(xs, identity(#[trigger] t[j])) by {
            assert(t[j] == ys[j]);
        }
        lemma_dedup_seen_suffix(xs, t);
        assert((xs + ys).drop_last() =~= xs + t);
        assert((xs + ys).last() == ys[ys.len() - 1]);
        let k = identity(ys[ys.len() - 1]);
        let w = choose|w: int| 0 <= w < xs.len() && identity(#[trigger] xs[w]) == k;
        assert((xs + t)[w] == xs[w]);
    }
}

/// Parsing a text twice over gives what parsing it once gives: the second
/// copy holds only duplicates.
pub proof fn lemma_reparse_twice(ls: Seq<Seq<char>>, table: Map<Seq<char>, Seq<char>>)
    ensures
        dedup(parsed_records(ls + ls, table)) == dedup(parsed_records(ls, table)),
{
    let p = parsed_records(ls, table);
    lemma_parsed_concat(ls, ls, table);
    assert forall|j: int| 0 <= j < p.len() implies seen_in(p, identity(#[trigger] p[j])) by {}
    lemma_dedup_seen_suffix(p, p);
}

/// Tied to the statistics of two groupings of one corpus: for every fine
/// bucket, the coarse bucket that holds its first record has at least as
/// many records, bytes, errors and users.
pub proof fn lemma_coarser_statistics_dominate(
    s: Seq<LogView>,
    fine: Granularity,
    coarse: Granularity,
    k: u32,
    fine_data: Seq<LogData>,
    coarse_data: Seq<LogData>,
    i: int,
)
    requires
        coarse.spec_prefix_len() <= fine.spec_prefix_len(),
        s.len() <= usize::MAX,
        bucket_data(fine_data, s, fine, k),
        bucket_data(coarse_data, s, coarse, k),
        0 <= i < fine_data.len(),
    ensures
        ({
            let j = bucket_index(s, coarse, bucket_members(s, fine, i)[0] as int);
            &&& 0 <= j < coarse_data.len()
            &&& coarse_data[j].log_count >= fine_data[i].log_count
            &&& coarse_data[j].total_bytes >= fine_data[i].total_bytes
            &&& coarse_data[j].errors >= fine_data[i].errors
            &&& coarse_data[j].users >= fine_data[i].users
        }),
{
    assert(describes_bucket(fine_data[i], s, fine, i, k));
    let kf = keys_in_order(s, fine, s.len())[i];
    let members = bucket_members(s, fine, i);
    let r = members[0] as int;
    assert(members.contains(members[0]));
    lemma_positions_member(s, fine, kf, s.len(), r);
    lemma_bucket_closure(s, coarse);
    lemma_keys_cover(s, coarse, s.len(), r);
    let j = bucket_index(s, coarse, r);
    assert(keys_in_order(s, coarse, s.len())[j] == bucket_key(s[r], coarse));
    assert(0 <= j < coarse_data.len());
    assert(describes_bucket(coarse_data[j], s, coarse, j, k));
    assert(bucket_of(s, fine, r, s.len()) == select(s, members));
    assert(bucket_of(s, coarse, r, s.len()) == select(s, bucket_members(s, coarse, j)));
    lemma_coarser_bucket_dominates(s, r, fine, coarse, k as nat);
}

} // verus!

//! Statistics of a whole corpus and of each of its buckets.
use vstd::prelude::*;
use crate::grouping::{
    bucket_key, group_logs_by, grouped, keys_in_order, positions_with_key, Granularity,
};
use crate::log::{all_well_formed, exec_pow10, views, Log, LogView};
use crate::stats::{bytes_fit, describes, select, summarize, units_at, LogData};

verus! {

/// The records of a corpus, to be summarised by granularity.
pub struct LogAnalyzer {
    pub logs: Vec<Log>,
}

/// The earliest epoch of a nonempty `s`.
pub open spec fn min_epoch(s: Seq<LogView>) -> int
    decreases s.len(),
{
    if s.len() <= 1 {
        if s.len() == 1 {
            s[0].epoch
        } else {
            0
        }
    } else if s.last().epoch < min_epoch(s.drop_last()) {
        s.last().epoch
    } else {
        min_epoch(s.drop_last())
    }
}

/// The latest epoch of a nonempty `s`.
pub open spec fn max_epoch(s: Seq<LogView>) -> int
    decreases s.len(),
{
    if s.len() <= 1 {
        if s.len() == 1 {
            s[0].epoch
        } else {
            0
        }
    } else if s.last().epoch > max_epoch(s.drop_last()) {
        s.last().epoch
    } else {
        max_epoch(s.drop_last())
    }
}

/// The positions of the records of the `b`-th bucket.
pub open spec fn bucket_members(s: Seq<LogView>, g: Granularity, b: int) -> Seq<usize> {
    positions_with_key(s, g, keys_in_order(s, g, s.len())[b], s.len())
}

/// `d` holds the statistics of the `b`-th bucket; its time is the gap from
/// the corpus's earliest record to the bucket's first record.
pub open spec fn describes_bucket(d: LogData, s: Seq<LogView>, g: Granularity, b: int, k: u32) -> bool {
    &&& bucket_members(s, g, b).len() > 0
    &&& describes(
        d,
        select(s, bucket_members(s, g, b)),
        s[bucket_members(s, g, b)[0] as int].epoch - min_epoch(s),
        g.spec_seconds(),
        k,
    )
}

/// The most decimal places of any record's size.
pub open spec fn max_scale(s: Seq<LogView>) -> nat
    decreases s.len(),
{
    if s.len() == 0 {
        0
    } else if s.last().size_scale > max_scale(s.drop_last()) {
        s.last().size_scale as nat
    } else {
        max_scale(s.drop_last())
    }
}

/// Most decimal places of a byte unit that statistics use.
pub const MAX_BYTE_SCALE: u32 = 12;

/// The byte unit of a corpus's statistics, as decimal places: those of its
/// most precise size, where that is at most `MAX_BYTE_SCALE` and every
/// size is a whole number of such units that fits 64 bits; else nothing.
pub open spec fn corpus_scale(s: Seq<LogView>) -> Option<u32> {
    if max_scale(s) <= MAX_BYTE_SCALE && bytes_fit(s, max_scale(s)) {
        Some(max_scale(s) as u32)
    } else {
        None
    }
}

/// Finds the byte unit of the corpus's statistics.
pub fn corpus_byte_scale(logs: &Vec<Log>) -> (r: Option<u32>)
    ensures
        r == corpus_scale(views(logs@)),
{
    let ghost s = views(logs@);
    let mut k: u32 = 0;
    let mut i: usize = 0;
    while i < logs.len()
        invariant
            i <= logs@.len(),
            s == views(logs@),
            k == max_scale(s.take(i as int)),
        decreases logs.len() - i,
    {
        assert(s.take(i + 1).drop_last() =~= s.take(i as int));
        assert(s.take(i + 1).last() == logs@[i as int]@);
        if logs[i].size_scale > k {
            k = logs[i].size_scale;
        }
        i = i + 1;
    }
    assert(s.take(logs@.len() as int) =~= s);
    if k > MAX_BYTE_SCALE {
        return None;
    }
    proof {
        lemma_max_scale(s);
    }
    let mut j: usize = 0;
    while j < logs.len()
        invariant
            j <= logs@.len(),
            s == views(logs@),
            k == max_scale(s),
            k <= MAX_BYTE_SCALE,
            forall|x: int| 0 <= x < s.len() ==> (#[trigger] s[x]).size_scale <= k,
            forall|x: int| 0 <= x < j ==> units_at(#[trigger] s[x], k as nat) <= u64::MAX,
        decreases logs.len() - j,
    {
        let v = &logs[j];
        assert(v@ == s[j as int]);
        let p: u128 = exec_pow10(k - v.size_scale);
        match v.size.checked_mul(p) {
            Some(u) => {
                if u > 0xFFFF_FFFF_FFFF_FFFF {
                    return None;
                }
            },
            None => {
                return None;
            },
        }
        j = j + 1;
    }
    Some(k)
}

proof fn lemma_max_scale(s: Seq<LogView>)
    ensures
        forall|x: int| 0 <= x < s.len() ==> (#[trigger] s[x]).size_scale <= max_scale(s),
    decreases s.len(),
{
    if s.len() > 0 {
        lemma_max_scale(s.drop_last());
        assert forall|x: int| 0 <= x < s.len() implies (#[trigger] s[x]).size_scale <= max_scale(s) by {
            if x < s.len() - 1 {
                assert(s[x] == s.drop_last()[x]);
            }
        }
    }
}

proof fn lemma_bytes_fit_select(s: Seq<LogView>, idx: Seq<usize>, k: nat)
    requires
        bytes_fit(s, k),
        forall|j: int| 0 <= j < idx.len() ==> #[trigger] idx[j] < s.len(),
    ensures
        bytes_fit(select(s, idx), k),
{
    assert forall|i: int| 0 <= i < select(s, idx).len() implies (#[trigger] select(s, idx)[i]).size_scale <= k
        && units_at(select(s, idx)[i], k) <= u64::MAX by {
        assert(select(s, idx)[i] == s[idx[i] as int]);
    }
}

/// The first `n` entries of `data` hold the statistics of the first `n` buckets.
pub open spec fn describes_buckets(data: Seq<LogData>, s: Seq<LogView>, g: Granularity, n: int, k: u32) -> bool {
    forall|b: int| 0 <= b < n ==> describes_bucket(#[trigger] data[b], s, g, b, k)
}

proof fn lemma_describes_push(data: Seq<LogData>, d: LogData, s: Seq<LogView>, g: Granularity, n: int, k: u32)
    requires
        0 <= n,
        data.len() == n,
        describes_buckets(data, s, g, n, k),
        describes_bucket(d, s, g, n, k),
    ensures
        describes_buckets(data.push(d), s, g, n + 1, k),
{
    assert forall|b: int| 0 <= b < n + 1 implies describes_bucket(#[trigger] data.push(d)[b], s, g, b, k) by {
        if b < n {
            assert(data.push(d)[b] == data[b]);
        }
    }
}

/// The statistics of every bucket, in bucket order.
pub open spec fn bucket_data(data: Seq<LogData>, s: Seq<LogView>, g: Granularity, k: u32) -> bool {
    &&& data.len() == keys_in_order(s, g, s.len()).len()
    &&& describes_buckets(data, s, g, data.len() as int, k)
}

proof fn lemma_epoch_bounds(s: Seq<LogView>, i: int)
    requires
        0 <= i < s.len(),
    ensures
        min_epoch(s) <= s[i].epoch <= max_epoch(s),
        exists|j: int| 0 <= j < s.len() && s[j].epoch == min_epoch(s),
        exists|j: int| 0 <= j < s.len() && s[j].epoch == max_epoch(s),
    decreases s.len(),
{
    if s.len() > 1 {
        if i < s.len() - 1 {
            lemma_epoch_bounds(s.drop_last(), i);
        } else {
            lemma_epoch_bounds(s.drop_last(), 0);
        }
        let j1 = choose|j: int| 0 <= j < s.len() - 1 && s.drop_last()[j].epoch == min_epoch(s.drop_last());
        let j2 = choose|j: int| 0 <= j < s.len() - 1 && s.drop_last()[j].epoch == max_epoch(s.drop_last());
        assert(s[j1] == s.drop_last()[j1]);
        assert(s[j2] == s.drop_last()[j2]);
        assert(s[s.len() - 1] == s.last());
    }
}

/// A key among the first `n` records' keys has a position below `n`.
proof fn lemma_key_has_positions(s: Seq<LogView>, g: Granularity, k: Seq<char>, n: nat)
    requires
        n <= s.len(),
        keys_in_order(s, g, n).contains(k),
    ensures
        positions_with_key(s, g, k, n).len() > 0,
        positions_with_key(s, g, k, n)[0] < n,
    decreases n,
{
    let p = keys_in_order(s, g, (n - 1) as nat);
    if p.contains(k) {
        lemma_key_has_positions(s, g, k, (n - 1) as nat);
    } else {
        assert(bucket_key(s[n - 1], g) == k) by {
            if bucket_key(s[n - 1], g) != k {
                assert(keys_in_order(s, g, n) == p);
            }
        }
        crate::grouping::lemma_positions_absent(s, g, k, (n - 1) as nat);
    }
}

proof fn lemma_positions_in_range(s: Seq<LogView>, g: Granularity, k: Seq<char>, n: nat)
    ensures
        forall|j: int|
            0 <= j < positions_with_key(s, g, k, n).len() ==> #[trigger] positions_with_key(
                s,
                g,
                k,
                n,
            )[j] < n,
    decreases n,
{
    if n > 0 {
        lemma_positions_in_range(s, g, k, (n - 1) as nat);
        let p = positions_with_key(s, g, k, (n - 1) as nat);
        assert forall|j: int|
            0 <= j < positions_with_key(s, g, k, n).len() implies #[trigger] positions_with_key(
            s,
            g,
            k,
            n,
        )[j] < n by {
            if j < p.len() {
                assert(positions_with_key(s, g, k, n)[j] == p[j]);
            }
        }
    }
}

fn epoch_range(logs: &Vec<Log>) -> (r: (i64, i64))
    requires
        logs@.len() > 0,
    ensures
        r.0 == min_epoch(views(logs@)),
        r.1 == max_epoch(views(logs@)),
{
    let ghost s = views(logs@);
    let mut lo: i64 = logs[0].epoch;
    let mut hi: i64 = logs[0].epoch;
    let mut i: usize = 1;
    while i < logs.len()
        invariant
            1 <= i <= logs@.len(),
            s == views(logs@),
            lo == min_epoch(s.take(i as int)),
            hi == max_epoch(s.take(i as int)),
        decreases logs.len() - i,
    {
        assert(s.take(i + 1).drop_last() =~= s.take(i as int));
        assert(s.take(i + 1).last() == logs@[i as int]@);
        let e: i64 = logs[i].epoch;
        if e < lo {
            lo = e;
        }
        if e > hi {
            hi = e;
        }
        i = i + 1;
    }
    assert(s.take(logs@.len() as int) =~= s);
    (lo, hi)
}

fn all_positions(n: usize) -> (r: Vec<usize>)
    ensures
        r@.len() == n,
        forall|k: int| 0 <= k < n ==> #[trigger] r@[k] == k,
{
    let mut out: Vec<usize> = Vec::new();
    let mut i: usize = 0;
    while i < n
        invariant
            i <= n,
            out@.len() == i,
            forall|k: int| 0 <= k < i ==> #[trigger] out@[k] == k,
        decreases n - i,
    {
        out.push(i);
        i = i + 1;
    }
    out
}

impl LogAnalyzer {
    /// Statistics of the whole corpus, its time being the span from the
    /// earliest to the latest record, its bytes counted in the corpus's byte
    /// unit; nothing for an empty corpus or one without a byte unit.
    pub fn get_total_data(&self, time: Granularity) -> (r: Option<LogData>)
        requires
            all_well_formed(views(self.logs@)),
        ensures
            r is Some <==> self.logs@.len() > 0 && corpus_scale(views(self.logs@)) is Some,
            r matches Some(d) ==> describes(
                d,
                views(self.logs@),
                max_epoch(views(self.logs@)) - min_epoch(views(self.logs@)),
                time.spec_seconds(),
                corpus_scale(views(self.logs@))->Some_0,
            ),
    {
        if self.logs.len() == 0 {
            return None;
        }
        let scale: u32 = match corpus_byte_scale(&self.logs) {
            Some(k) => k,
            None => {
                return None;
            },
        };
        let (lo, hi) = epoch_range(&self.logs);
        proof {
            lemma_epoch_bounds(views(self.logs@), 0);
        }
        let span: u64 = (hi as i128 - lo as i128) as u64;
        let all = all_positions(self.logs.len());
        assert(select(views(self.logs@), all@) =~= views(self.logs@));
        Some(summarize(&self.logs, &all, span, time.seconds(), scale))
    }

    /// Statistics of each bucket of granularity `time`, in bucket order,
    /// and of the whole corpus, bytes counted in the corpus's byte unit;
    /// nothing for an empty corpus or one without a byte unit.
    pub fn get_data(&self, time: Granularity) -> (r: Option<(Vec<LogData>, LogData)>)
        requires
            all_well_formed(views(self.logs@)),
        ensures
            r is Some <==> self.logs@.len() > 0 && corpus_scale(views(self.logs@)) is Some,
            r matches Some(p) ==> bucket_data(
                p.0@,
                views(self.logs@),
                time,
                corpus_scale(views(self.logs@))->Some_0,
            ) && describes(
                p.1,
                views(self.logs@),
                max_epoch(views(self.logs@)) - min_epoch(views(self.logs@)),
                time.spec_seconds(),
                corpus_scale(views(self.logs@))->Some_0,
            ),
    {
        let total = match self.get_total_data(time) {
            Some(t) => t,
            None => {
                return None;
            },
        };
        let ghost s = views(self.logs@);
        let scale: u32 = total.byte_scale;
        let (lo, _) = epoch_range(&self.logs);
        let groups = group_logs_by(&self.logs, time);
        let unit: u64 = time.seconds();
        let mut data: Vec<LogData> = Vec::new();
        let mut b: usize = 0;
        while b < groups.len()
            invariant
                s == views(self.logs@),
                s.len() > 0,
                lo == min_epoch(s),
                unit == time.spec_seconds(),
                corpus_scale(s) == Some(scale),
                grouped(groups@, s, time),
                b <= groups@.len(),
                data@.len() == b,
                describes_buckets(data@, s, time, b as int, scale),
            decreases groups.len() - b,
        {
            let ghost keys = keys_in_order(s, time, s.len());
            let bucket = &groups[b].members;
            proof {
                assert(keys.contains(keys[b as int]));
                lemma_key_has_positions(s, time, keys[b as int], s.len());
                lemma_positions_in_range(s, time, keys[b as int], s.len());
                lemma_epoch_bounds(s, bucket@[0] as int);
            }
            assert(bucket@ == positions_with_key(s, time, keys[b as int], s.len()));
            let first: i64 = self.logs[bucket[0]].epoch;
            assert(first == s[bucket@[0] as int].epoch);
            assert(0 <= first - lo <= u64::MAX);
            let offset: u64 = (first as i128 - lo as i128) as u64;
            assert(offset == s[bucket@[0] as int].epoch - min_epoch(s));
            proof {
                lemma_bytes_fit_select(s, bucket@, scale as nat);
            }
            let d = summarize(&self.logs, bucket, offset, unit, scale);
            let ghost before = data@;
            let ghost old_b = b;
            data.push(d);
            b = b + 1;
            proof {
                lemma_describes_push(before, d, s, time, old_b as int, scale);
                assert(data@ == before.push(d));
            }
        }
        assert(data@.len() == keys_in_order(s, time, s.len()).len());
        Some((data, total))
    }
}

/// Whole units of the granularity from the corpus's earliest record to the group's first record.
pub open spec fn time_units(d: LogData) -> int {
    d.time as int / d.time_unit as int
}

pub open spec fn sorted_by_units(s: Seq<LogData>) -> bool {
    forall|a: int, b: int| 0 <= a < b < s.len() ==> time_units(#[trigger] s[a]) <= time_units(#[trigger] s[b])
}

pub(crate) proof fn lemma_swap_multiset<A>(s: Seq<A>, i: int, j: int)
    requires
        0 <= i < s.len(),
        0 <= j < s.len(),
        i != j,
    ensures
        s.update(i, s[j]).update(j, s[i]).to_multiset() == s.to_multiset(),
{
    broadcast use vstd::seq_lib::to_multiset_update;
    broadcast use vstd::multiset::group_multiset_axioms;
    broadcast use vstd::seq_lib::to_multiset_contains;
    let s1 = s.update(i, s[j]);
    let m = s.to_multiset();
    assert(s1[j] == s[j]);
    assert(s.contains(s[i]));
    assert(m.count(s[i]) > 0);
    let m1 = m.insert(s[j]).remove(s[i]);
    assert(s1.to_multiset() == m1);
    assert(s1.update(j, s[i]).to_multiset() == m1.insert(s[i]).remove(s[j]));
    assert(m1.insert(s[i]).remove(s[j]) =~= m);
}

/// The groups of `s` whose whole time units are `u`, in order.
pub open spec fn with_units(s: Seq<LogData>, u: int) -> Seq<LogData>
    decreases s.len(),
{
    if s.len() == 0 {
        s
    } else if time_units(s.last()) == u {
        with_units(s.drop_last(), u).push(s.last())
    } else {
        with_units(s.drop_last(), u)
    }
}

proof fn lemma_with_units_add(a: Seq<LogData>, b: Seq<LogData>, u: int)
    ensures
        with_units(a + b, u) == with_units(a, u) + with_units(b, u),
    decreases b.len(),
{
    if b.len() == 0 {
        assert(a + b =~= a);
        assert(with_units(a, u) + with_units(b, u) =~= with_units(a, u));
    } else {
        lemma_with_units_add(a, b.drop_last(), u);
        assert((a + b).drop_last() =~= a + b.drop_last());
        assert((a + b).last() == b.last());
        if time_units(b.last()) == u {
            assert(with_units(a, u) + with_units(b.drop_last(), u).push(b.last()) =~= (with_units(
                a,
                u,
            ) + with_units(b.drop_last(), u)).push(b.last()));
        }
    }
}

/// Swapping neighbours with different units keeps every unit's groups in order.
proof fn lemma_swap_keeps_units(s: Seq<LogData>, j: int, u: int)
    requires
        1 <= j < s.len(),
        time_units(s[j - 1]) != time_units(s[j]),
    ensures
        with_units(s.update(j - 1, s[j]).update(j, s[j - 1]), u) == with_units(s, u),
{
    let x = s[j - 1];
    let y = s[j];
    let a = s.take(j - 1);
    let b = s.skip(j + 1);
    let t = s.update(j - 1, y).update(j, x);
    assert(s =~= a + seq![x, y] + b);
    assert(t =~= a + seq![y, x] + b);
    lemma_with_units_add(a + seq![x, y], b, u);
    lemma_with_units_add(a, seq![x, y], u);
    lemma_with_units_add(a + seq![y, x], b, u);
    lemma_with_units_add(a, seq![y, x], u);
    assert(seq![x, y].drop_last() =~= seq![x]);
    assert(seq![y, x].drop_last() =~= seq![y]);
    assert(seq![x].drop_last() =~= Seq::<LogData>::empty());
    assert(seq![y].drop_last() =~= Seq::<LogData>::empty());
    let e = Seq::<LogData>::empty();
    assert(with_units(e, u) == e);
    assert(seq![x, y].last() == y && seq![y, x].last() == x);
    assert(seq![x].last() == x && seq![y].last() == y);
    let wx = with_units(seq![x], u);
    let wy = with_units(seq![y], u);
    assert(wx == if time_units(x) == u { e.push(x) } else { e });
    assert(wy == if time_units(y) == u { e.push(y) } else { e });
    assert(with_units(seq![x, y], u) == if time_units(y) == u { wx.push(y) } else { wx });
    assert(with_units(seq![y, x], u) == if time_units(x) == u { wy.push(x) } else { wy });
    assert(with_units(seq![x, y], u) =~= with_units(seq![y, x], u));
}

/// Orders groups by their whole time units, earliest first; groups with
/// equal units keep their relative order.
pub fn sort_by_time(data: &mut Vec<LogData>)
    requires
        forall|k: int| 0 <= k < old(data)@.len() ==> (#[trigger] old(data)@[k]).time_unit > 0,
    ensures
        final(data)@.to_multiset() == old(data)@.to_multiset(),
        sorted_by_units(final(data)@),
        forall|u: int| #[trigger] with_units(final(data)@, u) == with_units(old(data)@, u),
{
    let n: usize = data.len();
    if n < 2 {
        return;
    }
    let mut i: usize = 1;
    while i < n
        invariant
            1 <= i <= n,
            n == data@.len(),
            data@.to_multiset() == old(data)@.to_multiset(),
            forall|u: int| #[trigger] with_units(data@, u) == with_units(old(data)@, u),
            forall|k: int| 0 <= k < n ==> (#[trigger] data@[k]).time_unit > 0,
            forall|a: int, b: int|
                0 <= a < b < i ==> time_units(#[trigger] data@[a]) <= time_units(#[trigger] data@[b]),
        decreases n - i,
    {
        let mut j: usize = i;
        while j > 0 && data[j - 1].time / data[j - 1].time_unit > data[j].time / data[j].time_unit
            invariant
                0 <= j <= i < n,
                n == data@.len(),
                data@.to_multiset() == old(data)@.to_multiset(),
                forall|u: int| #[trigger] with_units(data@, u) == with_units(old(data)@, u),
                forall|k: int| 0 <= k < n ==> (#[trigger] data@[k]).time_unit > 0,
                forall|a: int, b: int|
                    0 <= a < b <= i && a != j && b != j ==> time_units(#[trigger] data@[a])
                        <= time_units(#[trigger] data@[b]),
                forall|b: int| j < b <= i ==> time_units(data@[j as int]) < time_units(#[trigger] data@[b]),
            decreases j,
        {
            let x = data[j - 1];
            let y = data[j];
            proof {
                lemma_swap_multiset(data@, j - 1, j as int);
                assert forall|u: int| #[trigger] with_units(
                    data@.update(j - 1, data@[j as int]).update(j as int, data@[j - 1]),
                    u,
                ) == with_units(data@, u) by {
                    lemma_swap_keeps_units(data@, j as int, u);
                }
            }
            data[j - 1] = y;
            data[j] = x;
            j = j - 1;
        }
        i = i + 1;
    }
}

} // verus!

//! Statistics of a group of records: counts, bytes, users, sessions and
//! the gaps between records.
use vstd::prelude::*;
use crate::keyindex::{add_key, key_order, key_position, new_key_index};
use crate::log::{exec_pow10, pow10, views, Log, LogView};

verus! {

/// A user's records more than this many seconds apart start a new session.
pub const SESSION_GAP: i64 = 7200;

/// Statistics of a group of records. Means are left as their sums and
/// counts so that they stay exact.
#[derive(Clone, Copy, Debug, PartialEq, Eq, Structural)]
pub struct LogData {
    /// Seconds from the corpus's earliest record to the group's first
    /// record; for the whole corpus, from its earliest to its latest record.
    pub time: u64,
    /// Seconds in one unit of the chosen granularity.
    pub time_unit: u64,
    /// Distinct client addresses.
    pub users: usize,
    pub sessions: usize,
    /// Bytes sent, summed, in units of `10^-byte_scale` bytes.
    pub total_bytes: u128,
    /// Decimal places of the byte unit.
    pub byte_scale: u32,
    pub log_count: usize,
    /// Records with a status code of 400 or more.
    pub errors: usize,
    /// Absolute gaps between consecutive records, summed, in seconds.
    pub gap_sum: u128,
    /// Absolute gaps between consecutive error records, summed, in seconds.
    pub error_gap_sum: u128,
}

/// The records of `s` at the positions `idx`, in that order.
pub open spec fn select(s: Seq<LogView>, idx: Seq<usize>) -> Seq<LogView> {
    idx.map_values(|i: usize| s[i as int])
}

pub open spec fn is_error(v: LogView) -> bool {
    v.code >= 400
}

pub open spec fn abs(x: int) -> nat {
    if x < 0 {
        (-x) as nat
    } else {
        x as nat
    }
}

pub open spec fn error_count(s: Seq<LogView>) -> nat
    decreases s.len(),
{
    if s.len() == 0 {
        0
    } else {
        error_count(s.drop_last()) + if is_error(s.last()) {
            1nat
        } else {
            0nat
        }
    }
}

/// The bytes of a record in units of `10^-k` bytes (for `k` at least the
/// record's own scale).
pub open spec fn units_at(v: LogView, k: nat) -> nat {
    v.size as nat * pow10((k - v.size_scale) as nat)
}

/// Whether every record's bytes are a whole number of `10^-k` byte units
/// that fits 64 bits.
pub open spec fn bytes_fit(s: Seq<LogView>, k: nat) -> bool {
    forall|i: int| 0 <= i < s.len() ==> (#[trigger] s[i]).size_scale <= k && units_at(s[i], k) <= u64::MAX
}

/// Bytes sent, summed, in units of `10^-k` bytes.
pub open spec fn byte_total(s: Seq<LogView>, k: nat) -> nat
    decreases s.len(),
{
    if s.len() == 0 {
        0
    } else {
        byte_total(s.drop_last(), k) + units_at(s.last(), k)
    }
}

/// The client addresses of `s`.
pub open spec fn ip_set(s: Seq<LogView>) -> Set<Seq<char>>
    decreases s.len(),
{
    if s.len() == 0 {
        Set::empty()
    } else {
        ip_set(s.drop_last()).insert(s.last().ip)
    }
}

/// The number of distinct client addresses.
pub open spec fn user_count(s: Seq<LogView>) -> nat {
    ip_set(s).len()
}

/// Absolute gaps between consecutive records, summed.
pub open spec fn gap_total(s: Seq<LogView>) -> nat
    decreases s.len(),
{
    if s.len() < 2 {
        0
    } else {
        gap_total(s.drop_last()) + abs(s.last().epoch - s[s.len() - 2].epoch)
    }
}

/// The error records of `s`, in order.
pub open spec fn error_records(s: Seq<LogView>) -> Seq<LogView>
    decreases s.len(),
{
    if s.len() == 0 {
        s
    } else if is_error(s.last()) {
        error_records(s.drop_last()).push(s.last())
    } else {
        error_records(s.drop_last())
    }
}

/// The epoch of the last record of `s` from address `ip`.
pub open spec fn last_epoch_of(s: Seq<LogView>, ip: Seq<char>) -> Option<int>
    decreases s.len(),
{
    if s.len() == 0 {
        None
    } else if s.last().ip == ip {
        Some(s.last().epoch)
    } else {
        last_epoch_of(s.drop_last(), ip)
    }
}

/// Whether the last record of `s` comes more than `SESSION_GAP` seconds
/// after or before the previous record of the same address.
pub open spec fn starts_new_session(s: Seq<LogView>) -> bool {
    s.len() > 0 && match last_epoch_of(s.drop_last(), s.last().ip) {
        Some(e) => abs(s.last().epoch - e) > SESSION_GAP,
        None => false,
    }
}

/// How many records start a new session of an address already seen.
pub open spec fn session_breaks(s: Seq<LogView>) -> nat
    decreases s.len(),
{
    if s.len() == 0 {
        0
    } else {
        session_breaks(s.drop_last()) + if starts_new_session(s) {
            1nat
        } else {
            0nat
        }
    }
}

/// One session per address, plus one for every gap above `SESSION_GAP`
/// between consecutive records of the same address.
pub open spec fn session_count(s: Seq<LogView>) -> nat {
    user_count(s) + session_breaks(s)
}

/// `d` holds the statistics of the records `s`, with the given time offset
/// and unit, its bytes counted in units of `10^-scale` bytes.
pub open spec fn describes(d: LogData, s: Seq<LogView>, offset: int, unit: u64, scale: u32) -> bool {
    &&& d.time == offset
    &&& d.time_unit == unit
    &&& d.byte_scale == scale
    &&& d.users == user_count(s)
    &&& d.sessions == session_count(s)
    &&& d.total_bytes == byte_total(s, scale as nat)
    &&& d.log_count == s.len()
    &&& d.errors == error_count(s)
    &&& d.gap_sum == gap_total(s)
    &&& d.error_gap_sum == gap_total(error_records(s))
}

proof fn lemma_ip_set_last_epoch(s: Seq<LogView>, ip: Seq<char>)
    ensures
        ip_set(s).contains(ip) <==> last_epoch_of(s, ip) is Some,
    decreases s.len(),
{
    if s.len() > 0 {
        lemma_ip_set_last_epoch(s.drop_last(), ip);
    }
}

proof fn lemma_error_records_len(s: Seq<LogView>)
    ensures
        error_records(s).len() == error_count(s),
        error_count(s) <= s.len(),
    decreases s.len(),
{
    if s.len() > 0 {
        lemma_error_records_len(s.drop_last());
    }
}

fn gap(a: i64, b: i64) -> (r: u128)
    ensures
        r == abs(a - b),
        r <= 0xFFFF_FFFF_FFFF_FFFF,
{
    let d: i128 = a as i128 - b as i128;
    if d < 0 {
        (-d) as u128
    } else {
        d as u128
    }
}

/// Distinct addresses and session breaks of the records at `members`.
fn user_sessions(logs: &Vec<Log>, members: &Vec<usize>) -> (r: (usize, usize))
    requires
        forall|k: int| 0 <= k < members@.len() ==> #[trigger] members@[k] < logs@.len(),
    ensures
        r.0 == user_count(select(views(logs@), members@)),
        r.1 == session_breaks(select(views(logs@), members@)),
{
    let ghost s = views(logs@);
    let ghost sel = select(s, members@);
    let mut index = new_key_index();
    let mut last_seen: Vec<i64> = Vec::new();
    let mut breaks: usize = 0;
    let mut k: usize = 0;
    proof {
        assert(key_order(index).to_set() =~= Set::empty());
    }
    while k < members.len()
        invariant
            k <= members@.len(),
            forall|j: int| 0 <= j < members@.len() ==> #[trigger] members@[j] < logs@.len(),
            s == views(logs@),
            sel == select(s, members@),
            sel.len() == members@.len(),
            key_order(index).no_duplicates(),
            key_order(index).to_set() == ip_set(sel.take(k as int)),
            last_seen@.len() == key_order(index).len(),
            forall|u: int|
                0 <= u < last_seen@.len() ==> last_epoch_of(sel.take(k as int), key_order(index)[u])
                    == Some(#[trigger] last_seen@[u] as int),
            breaks == session_breaks(sel.take(k as int)),
            breaks <= k,
        decreases members.len() - k,
    {
        let ghost t = sel.take(k as int);
        let ghost t1 = sel.take(k + 1);
        assert(t1.drop_last() =~= t);
        assert(t1.last() == sel[k as int]);
        let rec = &logs[members[k]];
        assert(rec@ == sel[k as int]);
        let e: i64 = rec.epoch;
        let ghost keys = key_order(index);
        match key_position(&index, &rec.ip) {
            Some(u) => {
                assert(last_epoch_of(t, rec.ip@) == Some(last_seen@[u as int] as int));
                if gap(e, last_seen[u]) > SESSION_GAP as u128 {
                    breaks = breaks + 1;
                }
                last_seen[u] = e;
                proof {
                    assert(keys.to_set().contains(rec.ip@));
                    assert(ip_set(t1) =~= ip_set(t));
                    assert forall|w: int| 0 <= w < last_seen@.len() implies last_epoch_of(
                        t1,
                        key_order(index)[w],
                    ) == Some(#[trigger] last_seen@[w] as int) by {
                        if w != u {
                            assert(keys[w] != keys[u as int]);
                        }
                    }
                }
            },
            None => {
                proof {
                    assert(!ip_set(t).contains(rec.ip@)) by {
                        if ip_set(t).contains(rec.ip@) {
                            assert(keys.to_set().contains(rec.ip@));
                        }
                    }
                    lemma_ip_set_last_epoch(t, rec.ip@);
                }
                add_key(&mut index, rec.ip.clone());
                last_seen.push(e);
                proof {
                    assert(key_order(index) == keys.push(rec.ip@));
                    Seq::<Seq<char>>::lemma_to_set_insert_commutes(keys, rec.ip@);
                    assert(keys + seq![rec.ip@] == keys.push(rec.ip@));
                    assert(key_order(index).to_set() =~= ip_set(t1));
                    assert forall|w: int| 0 <= w < last_seen@.len() implies last_epoch_of(
                        t1,
                        key_order(index)[w],
                    ) == Some(#[trigger] last_seen@[w] as int) by {
                        if w < keys.len() {
                            assert(keys[w] != rec.ip@) by {
                                if keys[w] == rec.ip@ {
                                    assert(keys.to_set().contains(rec.ip@));
                                }
                            }
                        }
                    }
                    assert(key_order(index).no_duplicates()) by {
                        assert forall|a: int, b: int|
                            0 <= a < b < key_order(index).len() implies key_order(index)[a]
                            != key_order(index)[b] by {
                            if b == keys.len() {
                                if keys[a] == rec.ip@ {
                                    assert(keys.to_set().contains(rec.ip@));
                                }
                            }
                        }
                    }
                }
            },
        }
        k = k + 1;
    }
    proof {
        assert(sel.take(members@.len() as int) =~= sel);
        key_order(index).unique_seq_to_set();
    }
    (last_seen.len(), breaks)
}

/// Errors, bytes, record gaps and error gaps of the records at `members`.
fn tallies(logs: &Vec<Log>, members: &Vec<usize>, scale: u32) -> (r: (usize, u128, u128, u128))
    requires
        forall|k: int| 0 <= k < members@.len() ==> #[trigger] members@[k] < logs@.len(),
        scale <= 38,
        bytes_fit(select(views(logs@), members@), scale as nat),
    ensures
        r.0 == error_count(select(views(logs@), members@)),
        r.1 == byte_total(select(views(logs@), members@), scale as nat),
        r.2 == gap_total(select(views(logs@), members@)),
        r.3 == gap_total(error_records(select(views(logs@), members@))),
{
    let ghost s = views(logs@);
    let ghost sel = select(s, members@);
    let mut errors: usize = 0;
    let mut bytes: u128 = 0;
    let mut gaps: u128 = 0;
    let mut error_gaps: u128 = 0;
    let mut prev: i64 = 0;
    let mut prev_error: Option<i64> = None;
    let mut k: usize = 0;
    while k < members.len()
        invariant
            k <= members@.len(),
            forall|j: int| 0 <= j < members@.len() ==> #[trigger] members@[j] < logs@.len(),
            s == views(logs@),
            sel == select(s, members@),
            sel.len() == members@.len(),
            errors == error_count(sel.take(k as int)),
            errors <= k,
            scale <= 38,
            bytes_fit(sel, scale as nat),
            bytes == byte_total(sel.take(k as int), scale as nat),
            bytes <= k * 0xFFFF_FFFF_FFFF_FFFFnat,
            gaps == gap_total(sel.take(k as int)),
            gaps <= k * 0xFFFF_FFFF_FFFF_FFFFnat,
            k > 0 ==> prev == sel[k - 1].epoch,
            error_gaps == gap_total(error_records(sel.take(k as int))),
            error_gaps <= k * 0xFFFF_FFFF_FFFF_FFFFnat,
            match prev_error {
                Some(e) => error_records(sel.take(k as int)).len() > 0 && e == error_records(
                    sel.take(k as int),
                ).last().epoch,
                None => error_records(sel.take(k as int)).len() == 0,
            },
        decreases members.len() - k,
    {
        let ghost t = sel.take(k as int);
        let ghost t1 = sel.take(k + 1);
        assert(t1.drop_last() =~= t);
        assert(t1.last() == sel[k as int]);
        let rec = &logs[members[k]];
        assert(rec@ == sel[k as int]);
        let e: i64 = rec.epoch;
        if rec.status_code.0 >= 400 {
            errors = errors + 1;
            let ghost er = error_records(t);
            assert(error_records(t1) == er.push(rec@));
            assert(error_records(t1).drop_last() =~= er);
            match prev_error {
                Some(p) => {
                    let g: u128 = gap(e, p);
                    assert(gap_total(error_records(t1)) == gap_total(er) + g);
                    error_gaps = error_gaps + g;
                },
                None => {
                    assert(gap_total(error_records(t1)) == 0);
                },
            }
            prev_error = Some(e);
        } else {
            assert(error_records(t1) == error_records(t));
        }
        assert(rec.size_scale <= scale && units_at(rec@, scale as nat) <= u64::MAX);
        let p: u128 = exec_pow10(scale - rec.size_scale);
        assert(rec.size as int * p as int == units_at(rec@, scale as nat));
        let units: u128 = rec.size * p;
        bytes = bytes + units;
        if k > 0 {
            let g: u128 = gap(e, prev);
            assert(t1[k - 1] == sel[k - 1]);
            gaps = gaps + g;
        }
        prev = e;
        k = k + 1;
    }
    assert(sel.take(members@.len() as int) =~= sel);
    (errors, bytes, gaps, error_gaps)
}

/// The statistics of the records of `logs` at the positions `members`.
pub fn summarize(logs: &Vec<Log>, members: &Vec<usize>, offset: u64, unit: u64, scale: u32) -> (r: LogData)
    requires
        forall|k: int| 0 <= k < members@.len() ==> #[trigger] members@[k] < logs@.len(),
        scale <= 38,
        bytes_fit(select(views(logs@), members@), scale as nat),
    ensures
        describes(r, select(views(logs@), members@), offset as int, unit, scale),
{
    let n: usize = members.len();
    let (users, breaks) = user_sessions(logs, members);
    let (errors, bytes, gaps, error_gaps) = tallies(logs, members, scale);
    proof {
        lemma_sessions_bound(select(views(logs@), members@));
        let sel = select(views(logs@), members@);
        assert(sel.len() == members@.len());
        assert(users + breaks == session_count(sel));
        assert(users + breaks <= members@.len());
    }
    LogData {
        time: offset,
        time_unit: unit,
        users,
        sessions: users + breaks,
        total_bytes: bytes,
        byte_scale: scale,
        log_count: n,
        errors,
        gap_sum: gaps,
        error_gap_sum: error_gaps,
    }
}

pub proof fn lemma_ip_set_finite(s: Seq<LogView>)
    ensures
        ip_set(s).finite(),
        ip_set(s).len() <= s.len(),
    decreases s.len(),
{
    if s.len() > 0 {
        lemma_ip_set_finite(s.drop_last());
    }
}

/// Each record adds at most one session.
pub proof fn lemma_sessions_bound(s: Seq<LogView>)
    ensures
        session_count(s) <= s.len(),
    decreases s.len(),
{
    lemma_ip_set_finite(s);
    if s.len() > 0 {
        let t = s.drop_last();
        lemma_sessions_bound(t);
        lemma_ip_set_finite(t);
        lemma_ip_set_last_epoch(t, s.last().ip);
        if ip_set(t).contains(s.last().ip) {
            assert(ip_set(s) =~= ip_set(t));
        } else {
            assert(!starts_new_session(s));
        }
    }
}

} // verus!

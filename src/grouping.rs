//! Grouping records into buckets by a truncated date.
use vstd::prelude::*;
use crate::date::DateTime;
use crate::keyindex::{add_key, key_order, key_position, new_key_index};
use crate::log::{all_well_formed, views, Log, LogView};
use crate::text::{
    chars_of, decimal, is_digit, lemma_decimal_digits, lemma_decimal_injective, lemma_join_split,
    push_decimal, string_of,
};

verus! {

/// The calendar unit by which records are grouped.
#[derive(Clone, Copy, Debug, PartialEq, Eq, Structural)]
pub enum Granularity {
    Year,
    Month,
    Day,
    Hour,
    Min,
    Sec,
}

impl Granularity {
    /// How many leading date components a bucket key keeps.
    pub open spec fn spec_prefix_len(self) -> nat {
        match self {
            Granularity::Year => 1,
            Granularity::Month => 2,
            Granularity::Day => 3,
            Granularity::Hour => 4,
            Granularity::Min => 5,
            Granularity::Sec => 6,
        }
    }

    /// How many leading date components a bucket key keeps.
    pub fn prefix_len(self) -> (r: usize)
        ensures
            r == self.spec_prefix_len(),
    {
        match self {
            Granularity::Year => 1,
            Granularity::Month => 2,
            Granularity::Day => 3,
            Granularity::Hour => 4,
            Granularity::Min => 5,
            Granularity::Sec => 6,
        }
    }

    pub open spec fn spec_seconds(self) -> u64 {
        match self {
            Granularity::Year => 31556952,
            Granularity::Month => 2629800,
            Granularity::Day => 86400,
            Granularity::Hour => 3600,
            Granularity::Min => 60,
            Granularity::Sec => 1,
        }
    }

    /// Seconds in one unit; a year and a month are averages of the Gregorian calendar.
    pub fn seconds(self) -> (r: u64)
        ensures
            r == self.spec_seconds(),
    {
        match self {
            Granularity::Year => 31556952,
            Granularity::Month => 2629800,
            Granularity::Day => 86400,
            Granularity::Hour => 3600,
            Granularity::Min => 60,
            Granularity::Sec => 1,
        }
    }

    /// The granularity that a name (`year`, `month`, `day`, `hour`, `min`, `sec`) denotes.
    pub open spec fn spec_named(s: Seq<char>) -> Option<Granularity> {
        if s == "year"@ {
            Some(Granularity::Year)
        } else if s == "month"@ {
            Some(Granularity::Month)
        } else if s == "day"@ {
            Some(Granularity::Day)
        } else if s == "hour"@ {
            Some(Granularity::Hour)
        } else if s == "min"@ {
            Some(Granularity::Min)
        } else if s == "sec"@ {
            Some(Granularity::Sec)
        } else {
            None
        }
    }

    /// The granularity that a name (`year`, `month`, `day`, `hour`, `min`, `sec`) denotes.
    pub fn from_name(s: &str) -> (r: Option<Granularity>)
        ensures
            r == Granularity::spec_named(s@),
    {
        if same_text(s, "year") {
            Some(Granularity::Year)
        } else if same_text(s, "month") {
            Some(Granularity::Month)
        } else if same_text(s, "day") {
            Some(Granularity::Day)
        } else if same_text(s, "hour") {
            Some(Granularity::Hour)
        } else if same_text(s, "min") {
            Some(Granularity::Min)
        } else if same_text(s, "sec") {
            Some(Granularity::Sec)
        } else {
            None
        }
    }
}

/// Whether two strings hold the same characters.
pub fn same_text(a: &str, b: &str) -> (r: bool)
    ensures
        r == (a@ == b@),
{
    let x = chars_of(a);
    let y = chars_of(b);
    if x.len() != y.len() {
        return false;
    }
    let mut i: usize = 0;
    while i < x.len()
        invariant
            i <= x@.len(),
            x@ == a@,
            y@ == b@,
            x@.len() == y@.len(),
            x@.subrange(0, i as int) =~= y@.subrange(0, i as int),
        decreases x.len() - i,
    {
        if x[i] != y[i] {
            assert(a@ != b@) by {
                if a@ == b@ {
                    assert(x@[i as int] == y@[i as int]);
                }
            }
            return false;
        }
        i = i + 1;
    }
    assert(x@ =~= x@.subrange(0, i as int));
    assert(y@ =~= y@.subrange(0, i as int));
    true
}

/// Decimal components joined by `|`.
pub open spec fn pipe_join(parts: Seq<u32>) -> Seq<char>
    decreases parts.len(),
{
    if parts.len() == 0 {
        Seq::empty()
    } else if parts.len() == 1 {
        decimal(parts[0] as nat)
    } else {
        pipe_join(parts.drop_last()) + seq!['|'] + decimal(parts.last() as nat)
    }
}

/// The key of the bucket that a date falls in.
pub open spec fn date_key(d: DateTime, g: Granularity) -> Seq<char> {
    pipe_join(d.parts().take(g.spec_prefix_len() as int))
}

pub open spec fn bucket_key(v: LogView, g: Granularity) -> Seq<char> {
    date_key(v.date, g)
}

proof fn lemma_no_pipe_in_decimal(n: nat)
    ensures
        !decimal(n).contains('|'),
{
    lemma_decimal_digits(n);
    if decimal(n).contains('|') {
        let j = choose|j: int| 0 <= j < decimal(n).len() && decimal(n)[j] == '|';
        assert(is_digit(decimal(n)[j]));
    }
}

/// Joins of equally many components are equal only for equal components.
pub proof fn lemma_pipe_join_injective(a: Seq<u32>, b: Seq<u32>)
    requires
        a.len() == b.len(),
        pipe_join(a) == pipe_join(b),
    ensures
        a == b,
    decreases a.len(),
{
    if a.len() == 1 {
        lemma_decimal_injective(a[0] as nat, b[0] as nat);
        assert(a =~= b);
    } else if a.len() > 1 {
        lemma_no_pipe_in_decimal(a.last() as nat);
        lemma_no_pipe_in_decimal(b.last() as nat);
        lemma_join_split(
            pipe_join(a.drop_last()),
            decimal(a.last() as nat),
            pipe_join(b.drop_last()),
            decimal(b.last() as nat),
            '|',
        );
        lemma_pipe_join_injective(a.drop_last(), b.drop_last());
        lemma_decimal_injective(a.last() as nat, b.last() as nat);
        assert(a =~= a.drop_last().push(a.last()));
        assert(b =~= b.drop_last().push(b.last()));
    } else {
        assert(a =~= b);
    }
}

/// The bucket key of a date, as a string.
pub fn key_for_date(d: &DateTime, g: Granularity) -> (r: String)
    ensures
        r@ == date_key(*d, g),
{
    let parts = d.get_parsed_date();
    let p: usize = g.prefix_len();
    let mut out: Vec<char> = Vec::new();
    push_decimal(&mut out, parts[0] as u64);
    let mut i: usize = 1;
    assert(parts@.take(1) =~= seq![parts@[0]]);
    while i < p
        invariant
            1 <= i <= p <= 6,
            parts@ == d.parts(),
            out@ == pipe_join(parts@.take(i as int)),
        decreases p - i,
    {
        out.push('|');
        push_decimal(&mut out, parts[i] as u64);
        assert(parts@.take(i + 1).drop_last() =~= parts@.take(i as int));
        i = i + 1;
    }
    string_of(out.as_slice())
}

/// A bucket: its key and the positions of its records in the corpus, in order.
pub struct Bucket {
    pub key: String,
    pub members: Vec<usize>,
}

/// The positions below `n` of records whose bucket key is `k`, in order.
pub open spec fn positions_with_key(s: Seq<LogView>, g: Granularity, k: Seq<char>, n: nat) -> Seq<
    usize,
>
    decreases n,
{
    if n == 0 {
        Seq::empty()
    } else {
        let p = positions_with_key(s, g, k, (n - 1) as nat);
        if bucket_key(s[n - 1], g) == k {
            p.push((n - 1) as usize)
        } else {
            p
        }
    }
}

/// The distinct bucket keys of the first `n` records, in order of first occurrence.
pub open spec fn keys_in_order(s: Seq<LogView>, g: Granularity, n: nat) -> Seq<Seq<char>>
    decreases n,
{
    if n == 0 {
        Seq::empty()
    } else {
        let p = keys_in_order(s, g, (n - 1) as nat);
        if p.contains(bucket_key(s[n - 1], g)) {
            p
        } else {
            p.push(bucket_key(s[n - 1], g))
        }
    }
}

/// What grouping `s` by `g` gives: per key, in order of first occurrence,
/// the positions of the records with that key.
pub open spec fn grouped(buckets: Seq<Bucket>, s: Seq<LogView>, g: Granularity) -> bool {
    let keys = keys_in_order(s, g, s.len());
    &&& buckets.len() == keys.len()
    &&& forall|b: int|
        0 <= b < buckets.len() ==> (#[trigger] buckets[b]).key@ == keys[b]
            && buckets[b].members@ == positions_with_key(s, g, keys[b], s.len())
}

/// Groups the records by the key of their date truncated to `time`; buckets
/// come in order of their first record.
pub fn group_logs_by(logs: &Vec<Log>, time: Granularity) -> (r: Vec<Bucket>)
    requires
        all_well_formed(views(logs@)),
    ensures
        grouped(r@, views(logs@), time),
{
    let ghost s = views(logs@);
    let mut index = new_key_index();
    let mut buckets: Vec<Bucket> = Vec::new();
    let mut i: usize = 0;
    while i < logs.len()
        invariant
            i <= logs@.len(),
            s == views(logs@),
            key_order(index) == keys_in_order(s, time, i as nat),
            key_order(index).no_duplicates(),
            buckets@.len() == key_order(index).len(),
            forall|b: int|
                0 <= b < buckets@.len() ==> (#[trigger] buckets@[b]).key@ == key_order(index)[b]
                    && buckets@[b].members@ == positions_with_key(
                    s,
                    time,
                    key_order(index)[b],
                    i as nat,
                ),
        decreases logs.len() - i,
    {
        let key = key_for_date(&logs[i].date, time);
        assert(key@ == bucket_key(s[i as int], time));
        let ghost keys = key_order(index);
        match key_position(&index, &key) {
            Some(b) => {
                let ghost before = buckets@;
                buckets[b].members.push(i);
                assert forall|c: int| 0 <= c < buckets@.len() implies (#[trigger] buckets@[c]).key@
                    == keys[c] && buckets@[c].members@ == positions_with_key(
                    s,
                    time,
                    keys[c],
                    (i + 1) as nat,
                ) by {
                    if c != b {
                        assert(buckets@[c] == before[c]);
                        assert(keys[c] != keys[b as int]);
                    }
                }
            },
            None => {
                let k2 = key.clone();
                add_key(&mut index, key);
                let mut m: Vec<usize> = Vec::new();
                m.push(i);
                buckets.push(Bucket { key: k2, members: m });
                proof {
                    assert(key_order(index) == keys.push(key@));
                    assert forall|c: int| 0 <= c < buckets@.len() implies (
                    #[trigger] buckets@[c]).key@ == key_order(index)[c]
                        && buckets@[c].members@ == positions_with_key(
                        s,
                        time,
                        key_order(index)[c],
                        (i + 1) as nat,
                    ) by {
                        if c < keys.len() {
                            assert(key_order(index)[c] == keys[c]);
                            assert(keys[c] != key@);
                        } else {
                            lemma_positions_absent(s, time, key@, i as nat);
                            assert(buckets@[c].members@ =~= seq![i]);
                        }
                    }
                    assert(key_order(index).no_duplicates());
                }
            },
        }
        i = i + 1;
    }
    buckets
}

/// A key that none of the first `n` records has has no positions among them.
pub proof fn lemma_positions_absent(s: Seq<LogView>, g: Granularity, k: Seq<char>, n: nat)
    requires
        n <= s.len(),
        !keys_in_order(s, g, n).contains(k),
    ensures
        positions_with_key(s, g, k, n) == Seq::<usize>::empty(),
    decreases n,
{
    if n > 0 {
        let p = keys_in_order(s, g, (n - 1) as nat);
        if !p.contains(bucket_key(s[n - 1], g)) {
            assert(keys_in_order(s, g, n)[p.len() as int] == bucket_key(s[n - 1], g));
        }
        assert forall|x: Seq<char>| p.contains(x) implies keys_in_order(s, g, n).contains(x) by {
            let j = choose|j: int| 0 <= j < p.len() && p[j] == x;
            assert(keys_in_order(s, g, n)[j] == x);
        }
        lemma_positions_absent(s, g, k, (n - 1) as nat);
    }
}

} // verus!

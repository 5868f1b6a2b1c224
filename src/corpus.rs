//! The record corpus: parsing a whole text and removing duplicate records.
use vstd::prelude::*;
use crate::codes::CodeTable;
use crate::keyindex::{add_key, key_order, key_position, new_key_index};
use crate::log::{
    all_well_formed, identity, identity_text, lemma_identity_text, parse_records, parsed_records, views, Log,
    LogView,
};
use crate::text::lines_of;

verus! {

/// Whether some record of `s` has identity `k`.
pub open spec fn seen_in(s: Seq<LogView>, k: (Seq<char>, Seq<char>, Seq<char>, Seq<char>, u16)) -> bool {
    exists|j: int| 0 <= j < s.len() && identity(#[trigger] s[j]) == k
}

/// `s` with every record dropped whose identity an earlier record already has.
pub open spec fn dedup(s: Seq<LogView>) -> Seq<LogView>
    decreases s.len(),
{
    if s.len() == 0 {
        s
    } else if seen_in(s.drop_last(), identity(s.last())) {
        dedup(s.drop_last())
    } else {
        dedup(s.drop_last()).push(s.last())
    }
}

/// Keeps the first record of each identity, in order.
pub fn dedup_logs(logs: &Vec<Log>) -> (r: Vec<Log>)
    ensures
        views(r@) == dedup(views(logs@)),
        all_well_formed(views(logs@)) ==> all_well_formed(views(r@)),
{
    let ghost s = views(logs@);
    let mut seen = new_key_index();
    let mut out: Vec<Log> = Vec::new();
    let mut i: usize = 0;
    while i < logs.len()
        invariant
            i <= logs@.len(),
            s == views(logs@),
            views(out@) =~= dedup(s.subrange(0, i as int)),
            forall|t: Seq<char>|
                key_order(seen).contains(t) <==> exists|j: int|
                    0 <= j < i && identity_text(#[trigger] s[j]) == t,
        decreases logs.len() - i,
    {
        let ghost pre = s.subrange(0, i as int);
        assert(s.subrange(0, i + 1).drop_last() =~= pre);
        assert(s.subrange(0, i + 1).last() == s[i as int]);
        let key = logs[i].get_values_string();
        proof {
            assert(seen_in(pre, identity(s[i as int])) <==> key_order(seen).contains(key@)) by {
                if seen_in(pre, identity(s[i as int])) {
                    let j = choose|j: int| 0 <= j < pre.len() && identity(#[trigger] pre[j]) == identity(s[i as int]);
                    lemma_identity_text(pre[j], s[i as int]);
                    assert(s[j] == pre[j]);
                }
                if key_order(seen).contains(key@) {
                    let j = choose|j: int| 0 <= j < i && identity_text(#[trigger] s[j]) == key@;
                    lemma_identity_text(s[j], s[i as int]);
                    assert(pre[j] == s[j]);
                }
            }
        }
        match key_position(&seen, &key) {
            Some(_) => {},
            None => {
                let ghost before = key_order(seen);
                assert(forall|t: Seq<char>|
                    before.contains(t) <==> exists|j: int|
                        0 <= j < i && identity_text(#[trigger] s[j]) == t);
                add_key(&mut seen, key);
                assert(key_order(seen) == before.push(identity_text(s[i as int])));
                out.push(logs[i].copied());
                proof {
                    assert forall|t: Seq<char>|
                        key_order(seen).contains(t) <==> exists|j: int|
                            0 <= j < i + 1 && identity_text(#[trigger] s[j]) == t by {
                        if key_order(seen).contains(t) && t != identity_text(s[i as int]) {
                            let k = choose|k: int| 0 <= k < key_order(seen).len() && key_order(seen)[k] == t;
                            assert(before[k] == t);
                            assert(before.contains(t));
                        }
                        if t == identity_text(s[i as int]) {
                            assert(key_order(seen)[before.len() as int] == t);
                        }
                        if exists|j: int| 0 <= j < i + 1 && identity_text(#[trigger] s[j]) == t {
                            let j = choose|j: int| 0 <= j < i + 1 && identity_text(#[trigger] s[j]) == t;
                            if j < i {
                                assert(before.contains(t));
                                let k = choose|k: int| 0 <= k < before.len() && before[k] == t;
                                assert(key_order(seen)[k] == t);
                            }
                        }
                    }
                }
            },
        }
        i = i + 1;
    }
    assert(s.subrange(0, logs.len() as int) =~= s);
    proof {
        lemma_dedup_from(s);
    }
    out
}

/// Every record that survives deduplication is a record of the input.
pub proof fn lemma_dedup_from(s: Seq<LogView>)
    ensures
        forall|k: int| 0 <= k < dedup(s).len() ==> s.contains(#[trigger] dedup(s)[k]),
    decreases s.len(),
{
    if s.len() > 0 {
        let t = s.drop_last();
        lemma_dedup_from(t);
        assert forall|k: int| 0 <= k < dedup(s).len() implies s.contains(#[trigger] dedup(s)[k]) by {
            if k < dedup(t).len() {
                assert(dedup(s)[k] == dedup(t)[k]);
                let j = choose|j: int| 0 <= j < t.len() && t[j] == dedup(t)[k];
                assert(s[j] == t[j]);
            } else {
                assert(dedup(s)[k] == s.last());
                assert(s[s.len() - 1] == s.last());
            }
        }
    }
}

/// Parses every line of `contents` and keeps the first record of each identity.
pub fn parse_log(contents: &str, codes: &CodeTable) -> (r: Vec<Log>)
    ensures
        views(r@) == dedup(parsed_records(lines_of(contents@), codes@)),
        all_well_formed(views(r@)),
{
    let all = parse_records(contents, codes);
    dedup_logs(&all)
}

} // verus!

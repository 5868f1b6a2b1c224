//! The table of HTTP status codes and their descriptions.
use vstd::prelude::*;
use crate::text::{chars_of, lines_of, split_by, split_chars, split_lines, string_of};

verus! {

/// Status codes and descriptions, read from `code,description` lines. A
/// later entry for the same code replaces an earlier one.
pub struct CodeTable {
    pub entries: Vec<(String, String)>,
}

pub open spec fn pair_view(e: (String, String)) -> (Seq<char>, Seq<char>) {
    (e.0@, e.1@)
}

/// The map that inserting `s`'s pairs in order gives.
pub open spec fn entries_map(s: Seq<(Seq<char>, Seq<char>)>) -> Map<Seq<char>, Seq<char>>
    decreases s.len(),
{
    if s.len() == 0 {
        Map::empty()
    } else {
        entries_map(s.drop_last()).insert(s.last().0, s.last().1)
    }
}

impl View for CodeTable {
    type V = Map<Seq<char>, Seq<char>>;

    open spec fn view(&self) -> Map<Seq<char>, Seq<char>> {
        entries_map(self.entries@.map_values(|e: (String, String)| pair_view(e)))
    }
}

/// The code and description of one line: its first two comma-separated
/// fields; a line without a comma gives nothing.
pub open spec fn code_line(l: Seq<char>) -> Option<(Seq<char>, Seq<char>)> {
    let f = split_by(l, seq![',']);
    if f.len() >= 2 {
        Some((f[0], f[1]))
    } else {
        None
    }
}

/// The pairs of all lines that hold one, in order.
pub open spec fn code_pairs(ls: Seq<Seq<char>>) -> Seq<(Seq<char>, Seq<char>)>
    decreases ls.len(),
{
    if ls.len() == 0 {
        Seq::empty()
    } else {
        match code_line(ls.last()) {
            Some(p) => code_pairs(ls.drop_last()).push(p),
            None => code_pairs(ls.drop_last()),
        }
    }
}

/// The table that a `code,description` text describes.
pub open spec fn code_table(text: Seq<char>) -> Map<Seq<char>, Seq<char>> {
    entries_map(code_pairs(lines_of(text)))
}

proof fn lemma_entries_map_skip(s: Seq<(Seq<char>, Seq<char>)>, k: Seq<char>)
    requires
        s.len() > 0,
        s.last().0 != k,
    ensures
        entries_map(s).contains_key(k) == entries_map(s.drop_last()).contains_key(k),
        entries_map(s).contains_key(k) ==> entries_map(s)[k] == entries_map(s.drop_last())[k],
{
}

/// Reads a `code,description` text (one pair per line) into a table.
pub fn create_http_hashmap(codes: &str) -> (r: CodeTable)
    ensures
        r@ == code_table(codes@),
{
    let cs = chars_of(codes);
    let ls = split_lines(&cs);
    let ghost lv = lines_of(cs@);
    let comma = vec![','];
    assert(comma@ =~= seq![',']);
    let mut entries: Vec<(String, String)> = Vec::new();
    let mut i: usize = 0;
    while i < ls.len()
        invariant
            i <= ls@.len(),
            ls@.len() == lv.len(),
            forall|k: int| 0 <= k < ls@.len() ==> #[trigger] ls@[k]@ == lv[k],
            comma@ == seq![','],
            entries@.map_values(|e: (String, String)| pair_view(e)) =~= code_pairs(
                lv.subrange(0, i as int),
            ),
        decreases ls.len() - i,
    {
        assert(lv.subrange(0, i + 1).drop_last() =~= lv.subrange(0, i as int));
        let f = split_chars(&ls[i], &comma);
        if f.len() >= 2 {
            let code = string_of(f[0].as_slice());
            let desc = string_of(f[1].as_slice());
            entries.push((code, desc));
        }
        i = i + 1;
    }
    assert(lv.subrange(0, ls.len() as int) =~= lv);
    CodeTable { entries }
}

impl CodeTable {
    /// The description of `code`, where the table has it.
    pub fn lookup(&self, code: &String) -> (r: Option<String>)
        ensures
            match r {
                Some(d) => self@.contains_key(code@) && d@ == self@[code@],
                None => !self@.contains_key(code@),
            },
    {
        let ghost s = self.entries@.map_values(|e: (String, String)| pair_view(e));
        let mut i: usize = self.entries.len();
        assert(s.subrange(0, i as int) =~= s);
        while i > 0
            invariant
                i <= self.entries@.len(),
                s == self.entries@.map_values(|e: (String, String)| pair_view(e)),
                entries_map(s).contains_key(code@) == entries_map(s.subrange(0, i as int)).contains_key(code@),
                entries_map(s).contains_key(code@) ==> entries_map(s)[code@] == entries_map(
                    s.subrange(0, i as int),
                )[code@],
            decreases i,
        {
            let e = &self.entries[i - 1];
            if e.0 == *code {
                assert(s.subrange(0, i as int).last() == pair_view(*e));
                return Some(e.1.clone());
            }
            proof {
                lemma_entries_map_skip(s.subrange(0, i as int), code@);
                assert(s.subrange(0, i as int).drop_last() =~= s.subrange(0, i - 1));
            }
            i = i - 1;
        }
        None
    }
}

} // verus!

//! Character-level helpers: whitespace masking inside quoted or bracketed
//! regions, splitting on separator characters, and decimal numbers.
use vstd::prelude::*;

verus! {

/// Relies on `str::chars` collected into a `Vec`: the characters of `s`, in order.
#[verifier::external_body]
pub(crate) fn chars_of(s: &str) -> (r: Vec<char>)
    ensures
        r@ == s@,
{
    s.chars().collect()
}

/// Relies on `String`'s `FromIterator<char>`: the string made of `cs`, in order.
#[verifier::external_body]
pub(crate) fn string_of(cs: &[char]) -> (r: String)
    ensures
        r@ == cs@,
{
    cs.iter().collect()
}

/// Unicode `White_Space` characters, the set that `char::is_whitespace` tests.
pub open spec fn is_space(c: char) -> bool {
    let n: u32 = c as u32;
    (0x09 <= n && n <= 0x0D) || n == 0x20 || n == 0x85 || n == 0xA0 || n == 0x1680 || (0x2000
        <= n && n <= 0x200A) || n == 0x2028 || n == 0x2029 || n == 0x202F || n == 0x205F || n
        == 0x3000
}

pub fn is_space_char(c: char) -> (r: bool)
    ensures
        r == is_space(c),
{
    let n: u32 = c as u32;
    (0x09 <= n && n <= 0x0D) || n == 0x20 || n == 0x85 || n == 0xA0 || n == 0x1680 || (0x2000
        <= n && n <= 0x200A) || n == 0x2028 || n == 0x2029 || n == 0x202F || n == 0x205F || n
        == 0x3000
}

/// The characters that open and close a quoted or bracketed region.
pub open spec fn is_region_mark(c: char) -> bool {
    c == '[' || c == ']' || c == '"'
}

/// Whether a region is open after reading `s`: every mark toggles it.
pub open spec fn open_after(s: Seq<char>) -> bool
    decreases s.len(),
{
    if s.len() == 0 {
        false
    } else if is_region_mark(s.last()) {
        !open_after(s.drop_last())
    } else {
        open_after(s.drop_last())
    }
}

/// `s` with every whitespace character that stands inside a region replaced by `%`.
pub open spec fn masked(s: Seq<char>) -> Seq<char> {
    Seq::new(
        s.len(),
        |i: int|
            if open_after(s.subrange(0, i)) && is_space(s[i]) {
                '%'
            } else {
                s[i]
            },
    )
}

pub(crate) fn mask_chars(s: &Vec<char>) -> (r: Vec<char>)
    ensures
        r@ == masked(s@),
{
    let mut out: Vec<char> = Vec::new();
    let mut inside = false;
    let mut i: usize = 0;
    while i < s.len()
        invariant
            i <= s.len(),
            inside == open_after(s@.subrange(0, i as int)),
            out@ =~= masked(s@).subrange(0, i as int),
        decreases s.len() - i,
    {
        let c = s[i];
        assert(s@.subrange(0, i + 1).drop_last() =~= s@.subrange(0, i as int));
        if inside && is_space_char(c) {
            out.push('%');
        } else {
            out.push(c);
        }
        if c == '[' || c == ']' || c == '"' {
            inside = !inside;
        }
        i = i + 1;
    }
    out
}

/// Rewrites a log line so that splitting it on spaces keeps quoted and
/// bracketed fields whole: inside `[`, `]` or `"` regions (each of the three
/// toggles the region) whitespace becomes `%`.
pub fn make_log_parsable(log: &str) -> (r: String)
    ensures
        r@ == masked(log@),
{
    let cs = chars_of(log);
    let m = mask_chars(&cs);
    string_of(m.as_slice())
}

/// The pieces of `s` between separators in `seps`; `n` separators give `n + 1` pieces.
pub open spec fn split_by(s: Seq<char>, seps: Seq<char>) -> Seq<Seq<char>>
    decreases s.len(),
{
    if s.len() == 0 {
        seq![Seq::empty()]
    } else {
        let p = split_by(s.drop_last(), seps);
        if seps.contains(s.last()) {
            p.push(Seq::empty())
        } else {
            p.update(p.len() - 1, p.last().push(s.last()))
        }
    }
}

pub proof fn lemma_split_nonempty(s: Seq<char>, seps: Seq<char>)
    ensures
        split_by(s, seps).len() >= 1,
    decreases s.len(),
{
    if s.len() > 0 {
        lemma_split_nonempty(s.drop_last(), seps);
    }
}

/// No piece holds a separator.
pub proof fn lemma_split_pieces_clean(s: Seq<char>, seps: Seq<char>)
    ensures
        forall|i: int, j: int|
            0 <= i < split_by(s, seps).len() && 0 <= j < split_by(s, seps)[i].len()
                ==> !seps.contains(#[trigger] split_by(s, seps)[i][j]),
    decreases s.len(),
{
    if s.len() > 0 {
        lemma_split_nonempty(s.drop_last(), seps);
        lemma_split_pieces_clean(s.drop_last(), seps);
        let p = split_by(s.drop_last(), seps);
        assert forall|i: int, j: int|
            0 <= i < split_by(s, seps).len() && 0 <= j < split_by(s, seps)[i].len() implies !seps.contains(
            #[trigger] split_by(s, seps)[i][j]) by {
            if !seps.contains(s.last()) && i == p.len() - 1 && j < p.last().len() {
                assert(split_by(s, seps)[i][j] == p[i][j]);
            }
        }
    }
}

/// Splits `s` on the characters of `seps`.
pub(crate) fn split_chars(s: &Vec<char>, seps: &Vec<char>) -> (r: Vec<Vec<char>>)
    ensures
        r@.len() == split_by(s@, seps@).len(),
        forall|i: int| 0 <= i < r@.len() ==> #[trigger] r@[i]@ == split_by(s@, seps@)[i],
{
    let mut out: Vec<Vec<char>> = Vec::new();
    let mut cur: Vec<char> = Vec::new();
    let mut i: usize = 0;
    while i < s.len()
        invariant
            i <= s.len(),
            ({
                let p = split_by(s@.subrange(0, i as int), seps@);
                &&& out@.len() + 1 == p.len()
                &&& forall|k: int| 0 <= k < out@.len() ==> #[trigger] out@[k]@ == p[k]
                &&& cur@ == p.last()
            }),
        decreases s.len() - i,
    {
        proof {
            lemma_split_nonempty(s@.subrange(0, i as int), seps@);
        }
        let c = s[i];
        assert(s@.subrange(0, i + 1).drop_last() =~= s@.subrange(0, i as int));
        let mut is_sep = false;
        let mut k: usize = 0;
        while k < seps.len()
            invariant
                k <= seps.len(),
                is_sep == (exists|m: int| 0 <= m < k && seps@[m] == c),
            decreases seps.len() - k,
        {
            if seps[k] == c {
                is_sep = true;
            }
            k = k + 1;
        }
        assert(is_sep == seps@.contains(c));
        if is_sep {
            out.push(cur);
            cur = Vec::new();
        } else {
            cur.push(c);
        }
        i = i + 1;
    }
    assert(s@.subrange(0, s.len() as int) =~= s@);
    proof {
        lemma_split_nonempty(s@, seps@);
    }
    out.push(cur);
    out
}

pub open spec fn digit_value(c: char) -> nat {
    (c as u32 - '0' as u32) as nat
}

pub open spec fn is_digit(c: char) -> bool {
    '0' as u32 <= c as u32 && c as u32 <= '9' as u32
}

/// The value of a string of decimal digits.
pub open spec fn digits_value(s: Seq<char>) -> nat
    decreases s.len(),
{
    if s.len() == 0 {
        0
    } else {
        digits_value(s.drop_last()) * 10 + digit_value(s.last())
    }
}

/// A nonempty run of ASCII digits, read as a decimal number.
pub open spec fn decimal_value(s: Seq<char>) -> Option<nat> {
    if s.len() > 0 && (forall|i: int| 0 <= i < s.len() ==> is_digit(#[trigger] s[i])) {
        Some(digits_value(s))
    } else {
        None
    }
}

/// Reads `s` as a decimal number no larger than `limit`.
pub fn parse_decimal(s: &Vec<char>, limit: u128) -> (r: Option<u128>)
    ensures
        r == (match decimal_value(s@) {
            Some(v) => if v <= limit {
                Some(v as u128)
            } else {
                None
            },
            None => None,
        }),
{
    if s.len() == 0 {
        return None;
    }
    let mut value: u128 = 0;
    let mut over = false;
    let mut i: usize = 0;
    while i < s.len()
        invariant
            i <= s.len(),
            forall|k: int| 0 <= k < i ==> is_digit(#[trigger] s@[k]),
            !over ==> value as nat == digits_value(s@.subrange(0, i as int)),
            !over ==> value <= limit,
            over ==> digits_value(s@.subrange(0, i as int)) > limit,
        decreases s.len() - i,
    {
        let c = s[i];
        assert(s@.subrange(0, i + 1).drop_last() =~= s@.subrange(0, i as int));
        let n: u32 = c as u32;
        if n < 48 || n > 57 {
            return None;
        }
        let d: u128 = (n - 48) as u128;
        proof {
            let prev = digits_value(s@.subrange(0, i as int));
            assert(digits_value(s@.subrange(0, i + 1)) == prev * 10 + d);
            if over {
                assert(prev * 10 + d > limit) by (nonlinear_arith)
                    requires
                        prev > limit,
                ;
            }
        }
        if !over {
            if d > limit {
                over = true;
            } else if value > (limit - d) / 10 {
                proof {
                    assert(value * 10 + d > limit) by (nonlinear_arith)
                        requires
                            value > (limit - d) / 10,
                            d <= limit,
                    ;
                }
                over = true;
            } else {
                assert(value * 10 + d <= limit) by (nonlinear_arith)
                    requires
                        value <= (limit - d) / 10,
                        d <= limit,
                ;
                value = value * 10 + d;
            }
        }
        i = i + 1;
    }
    assert(s@.subrange(0, s.len() as int) =~= s@);
    if over {
        None
    } else {
        Some(value)
    }
}


/// `l` without one trailing carriage return.
pub open spec fn strip_cr(l: Seq<char>) -> Seq<char> {
    if l.len() > 0 && l.last() == '\r' {
        l.drop_last()
    } else {
        l
    }
}

/// The lines of `s`: pieces between `\n`, each without a trailing `\r`; a
/// final `\n` ends the last line rather than starting an empty one.
pub open spec fn lines_of(s: Seq<char>) -> Seq<Seq<char>> {
    let p = split_by(s, seq!['\n']);
    let q = if s.len() == 0 {
        Seq::empty()
    } else if s.last() == '\n' {
        p.drop_last()
    } else {
        p
    };
    q.map_values(|l: Seq<char>| strip_cr(l))
}

/// Splits `s` into its lines.
pub(crate) fn split_lines(s: &Vec<char>) -> (r: Vec<Vec<char>>)
    ensures
        r@.len() == lines_of(s@).len(),
        forall|i: int| 0 <= i < r@.len() ==> #[trigger] r@[i]@ == lines_of(s@)[i],
{
    let seps = vec!['\n'];
    let mut pieces = split_chars(s, &seps);
    proof {
        lemma_split_nonempty(s@, seps@);
    }
    let ghost p = split_by(s@, seq!['\n']);
    assert(seps@ =~= seq!['\n']);
    if s.len() == 0 {
        return Vec::new();
    }
    let mut n = pieces.len();
    if s[s.len() - 1] == '\n' {
        n = n - 1;
    }
    let ghost q = if s@.last() == '\n' {
        p.drop_last()
    } else {
        p
    };
    let mut out: Vec<Vec<char>> = Vec::new();
    let mut i: usize = 0;
    while i < n
        invariant
            n == q.len(),
            q.len() <= p.len(),
            p.len() == pieces@.len(),
            forall|k: int| 0 <= k < pieces@.len() ==> #[trigger] pieces@[k]@ == p[k],
            forall|k: int| 0 <= k < q.len() ==> #[trigger] q[k] == p[k],
            i <= n,
            out@.len() == i,
            forall|k: int| 0 <= k < i ==> #[trigger] out@[k]@ == strip_cr(q[k]),
        decreases n - i,
    {
        let mut l: Vec<char> = Vec::new();
        let src = &pieces[i];
        let mut end = src.len();
        if end > 0 && src[end - 1] == '\r' {
            end = end - 1;
        }
        let mut k: usize = 0;
        while k < end
            invariant
                end <= src@.len(),
                k <= end,
                l@ =~= src@.subrange(0, k as int),
            decreases end - k,
        {
            l.push(src[k]);
            k = k + 1;
        }
        assert(l@ =~= strip_cr(q[i as int]));
        out.push(l);
        i = i + 1;
    }
    out
}

/// The decimal digits of `n`, most significant first, without leading zeros.
pub open spec fn decimal(n: nat) -> Seq<char>
    decreases n,
{
    if n < 10 {
        seq![digit_char(n)]
    } else {
        decimal(n / 10).push(digit_char(n % 10))
    }
}

pub open spec fn digit_char(d: nat) -> char {
    (('0' as u32) + d) as char
}

proof fn lemma_digit_char(d: nat, e: nat)
    requires
        d < 10,
        e < 10,
    ensures
        is_digit(digit_char(d)),
        digit_char(d) == digit_char(e) ==> d == e,
{
    assert(digit_char(d) as u32 == 48 + d);
    assert(digit_char(e) as u32 == 48 + e);
}

/// Every character of `decimal(n)` is a digit.
pub proof fn lemma_decimal_digits(n: nat)
    ensures
        decimal(n).len() >= 1,
        forall|i: int| 0 <= i < decimal(n).len() ==> is_digit(#[trigger] decimal(n)[i]),
    decreases n,
{
    lemma_digit_char(n % 10, 0);
    if n >= 10 {
        lemma_decimal_digits(n / 10);
        assert forall|i: int| 0 <= i < decimal(n).len() implies is_digit(
            #[trigger] decimal(n)[i],
        ) by {
            if i < decimal(n / 10).len() {
                assert(decimal(n)[i] == decimal(n / 10)[i]);
            }
        }
    }
}

pub proof fn lemma_decimal_injective(n: nat, m: nat)
    requires
        decimal(n) == decimal(m),
    ensures
        n == m,
    decreases n,
{
    lemma_digit_char(n % 10, m % 10);
    if n >= 10 {
        lemma_decimal_digits(n / 10);
    }
    if m >= 10 {
        lemma_decimal_digits(m / 10);
    }
    if n >= 10 && m >= 10 {
        assert(decimal(n / 10) =~= decimal(n).drop_last());
        assert(decimal(m / 10) =~= decimal(m).drop_last());
        lemma_decimal_injective(n / 10, m / 10);
        assert(decimal(n).last() == digit_char(n % 10));
        assert(decimal(m).last() == digit_char(m % 10));
        assert(n == 10 * (n / 10) + n % 10);
        assert(m == 10 * (m / 10) + m % 10);
    } else if n < 10 && m < 10 {
        assert(seq![digit_char(n)][0] == digit_char(n));
        assert(seq![digit_char(m)][0] == digit_char(m));
        lemma_digit_char(n, m);
    } else if n < 10 {
        assert(decimal(n).len() == 1);
        assert(decimal(m).len() == decimal(m / 10).len() + 1);
    } else {
        assert(decimal(m).len() == 1);
        assert(decimal(n).len() == decimal(n / 10).len() + 1);
    }
}

/// Appends the decimal digits of `n` to `out`.
pub(crate) fn push_decimal(out: &mut Vec<char>, n: u64)
    ensures
        final(out)@ == old(out)@ + decimal(n as nat),
    decreases n,
{
    if n >= 10 {
        push_decimal(out, n / 10);
    }
    let d: u64 = n % 10;
    let c = char_of_digit(d);
    out.push(c);
    assert(final(out)@ =~= old(out)@ + decimal(n as nat));
}

fn char_of_digit(d: u64) -> (c: char)
    requires
        d < 10,
    ensures
        c == digit_char(d as nat),
{
    if d == 0 {
        '0'
    } else if d == 1 {
        '1'
    } else if d == 2 {
        '2'
    } else if d == 3 {
        '3'
    } else if d == 4 {
        '4'
    } else if d == 5 {
        '5'
    } else if d == 6 {
        '6'
    } else if d == 7 {
        '7'
    } else if d == 8 {
        '8'
    } else {
        '9'
    }
}

/// Two joins around one separator split apart again where the separator
/// occurs in neither left part, or in neither right part.
pub proof fn lemma_join_split(a: Seq<char>, b: Seq<char>, c: Seq<char>, d: Seq<char>, sep: char)
    requires
        a + seq![sep] + b == c + seq![sep] + d,
        (!a.contains(sep) && !c.contains(sep)) || (!b.contains(sep) && !d.contains(sep)),
    ensures
        a == c,
        b == d,
{
    let l = a + seq![sep] + b;
    let r = c + seq![sep] + d;
    assert(l.len() == r.len());
    if !a.contains(sep) && !c.contains(sep) {
        if a.len() < c.len() {
            assert(l[a.len() as int] == sep);
            assert(r[a.len() as int] == c[a.len() as int]);
            assert(false);
        }
        if c.len() < a.len() {
            assert(r[c.len() as int] == sep);
            assert(l[c.len() as int] == a[c.len() as int]);
            assert(false);
        }
    } else {
        if b.len() < d.len() {
            let k = a.len() as int;
            assert(l[k] == sep);
            assert(r[k] == d[k - c.len() - 1]);
            assert(false);
        }
        if d.len() < b.len() {
            let k = c.len() as int;
            assert(r[k] == sep);
            assert(l[k] == b[k - a.len() - 1]);
            assert(false);
        }
    }
    assert(a =~= l.subrange(0, a.len() as int));
    assert(c =~= r.subrange(0, c.len() as int));
    assert(b =~= l.subrange(a.len() as int + 1, l.len() as int));
    assert(d =~= r.subrange(c.len() as int + 1, r.len() as int));
}

} // verus!

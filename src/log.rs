//! One access-log record and the parser that reads it from a line.
use vstd::prelude::*;
use crate::codes::CodeTable;
use crate::date::{parse_timestamp, timestamp_of, DateTime};
use crate::text::{
    chars_of, decimal, decimal_value, digits_value, is_digit, lemma_decimal_digits, lemma_join_split,
    lines_of, mask_chars, masked, parse_decimal, push_decimal,
    split_by, split_chars, split_lines, string_of,
};

verus! {

/// One access-log record.
pub struct Log {
    pub ip: String,
    pub client_id: String,
    pub user_id: String,
    /// The timestamp field as it stands in the line (whitespace masked).
    pub time: String,
    pub request: String,
    /// The numeric status code and its description.
    pub status_code: (u16, String),
    /// Bytes sent, `size / 10^size_scale`.
    pub size: u128,
    pub size_scale: u32,
    /// The decoded timestamp.
    pub date: DateTime,
    /// The timestamp in seconds since the Unix epoch.
    pub epoch: i64,
}

/// The contents of a [`Log`].
pub struct LogView {
    pub ip: Seq<char>,
    pub client_id: Seq<char>,
    pub user_id: Seq<char>,
    pub time: Seq<char>,
    pub request: Seq<char>,
    pub code: u16,
    pub description: Seq<char>,
    pub size: u128,
    pub size_scale: u32,
    pub date: DateTime,
    pub epoch: int,
}

impl View for Log {
    type V = LogView;

    open spec fn view(&self) -> LogView {
        LogView {
            ip: self.ip@,
            client_id: self.client_id@,
            user_id: self.user_id@,
            time: self.time@,
            request: self.request@,
            code: self.status_code.0,
            description: self.status_code.1@,
            size: self.size,
            size_scale: self.size_scale,
            date: self.date,
            epoch: self.epoch as int,
        }
    }
}

/// Why a line gives no record.
#[derive(Clone, Copy, Debug, PartialEq, Eq, Structural)]
pub enum LineError {
    /// The line does not split into nine fields.
    FieldCount,
    /// The status field is not in the code table.
    UnknownStatus,
    /// The status code lies outside 100..=599.
    StatusOutOfRange,
    /// The timestamp is malformed or names no existing date.
    BadTimestamp,
}

/// Records that share these fields are duplicates of one another.
pub open spec fn identity(v: LogView) -> (Seq<char>, Seq<char>, Seq<char>, Seq<char>, u16) {
    (v.ip, v.time, v.client_id, v.user_id, v.code)
}

/// The fields of a line: split on single spaces after masking whitespace
/// inside quoted and bracketed regions.
pub open spec fn fields_of(line: Seq<char>) -> Seq<Seq<char>> {
    split_by(masked(line), seq![' '])
}

/// `s` without one leading `+`.
pub open spec fn unsigned_part(s: Seq<char>) -> Seq<char> {
    if s.len() > 0 && s[0] == '+' {
        s.drop_first()
    } else {
        s
    }
}

/// The numeric status code of the status field; 404 where it is not a
/// decimal number, optionally signed `+`, that fits 16 bits.
pub open spec fn status_number(s: Seq<char>) -> u16 {
    match decimal_value(unsigned_part(s)) {
        Some(v) => if v <= u16::MAX {
            v as u16
        } else {
            404
        },
        None => 404,
    }
}

/// Whether every character of `s` is a digit (so also where `s` is empty).
pub open spec fn digits_only(s: Seq<char>) -> bool {
    forall|i: int| 0 <= i < s.len() ==> is_digit(#[trigger] s[i])
}

pub open spec fn pow10(n: nat) -> nat
    decreases n,
{
    if n == 0 {
        1
    } else {
        10 * pow10((n - 1) as nat)
    }
}

/// A decimal integer with an optional `+` or `-` sign.
pub open spec fn signed_value(s: Seq<char>) -> Option<int> {
    if s.len() > 0 && s[0] == '-' {
        match decimal_value(s.drop_first()) {
            Some(v) => Some(-v),
            None => None,
        }
    } else {
        match decimal_value(unsigned_part(s)) {
            Some(v) => Some(v as int),
            None => None,
        }
    }
}

/// A real-number literal without a minus sign: an optional `+`, digits
/// with an optional `.` and fractional digits (at least one digit in all),
/// and an optional exponent `e` or `E` with an optional sign. Its value is
/// the returned digits times ten to the returned power.
pub open spec fn real_parts(s: Seq<char>) -> Option<(nat, int)> {
    let e = split_by(unsigned_part(s), seq!['e', 'E']);
    let m = split_by(e[0], seq!['.']);
    let fp = if m.len() == 2 {
        m[1]
    } else {
        Seq::empty()
    };
    let exp = if e.len() == 2 {
        signed_value(e[1])
    } else {
        Some(0)
    };
    if e.len() <= 2 && m.len() <= 2 && digits_only(m[0]) && digits_only(fp) && m[0].len()
        + fp.len() > 0 && exp is Some {
        Some((digits_value(m[0] + fp), exp->Some_0 - fp.len()))
    } else {
        None
    }
}

/// The size field in bytes, exactly, as a number of units and a scale:
/// the bytes are `units / 10^scale`. A field that is no real-number
/// literal, and a value whose units do not fit 128 bits or whose scale
/// exceeds 38, read as 0 (the size is never negative, so a `-` sign reads
/// as 0 too).
pub open spec fn size_of(s: Seq<char>) -> (u128, u32) {
    match real_parts(s) {
        Some((mv, e)) => if mv == 0 {
            (0, 0)
        } else if e >= 0 {
            if mv * pow10(e as nat) <= u128::MAX {
                ((mv * pow10(e as nat)) as u128, 0)
            } else {
                (0, 0)
            }
        } else {
            if mv <= u128::MAX && -e <= 38 {
                (mv as u128, (-e) as u32)
            } else {
                (0, 0)
            }
        },
        None => (0, 0),
    }
}

/// What the parser makes of one line, given the status-code table.
pub open spec fn parse_line_spec(line: Seq<char>, table: Map<Seq<char>, Seq<char>>) -> Result<
    LogView,
    LineError,
> {
    let f = fields_of(line);
    if f.len() != 9 {
        Err(LineError::FieldCount)
    } else if !table.contains_key(f[5]) {
        Err(LineError::UnknownStatus)
    } else if !(100 <= status_number(f[5]) <= 599) {
        Err(LineError::StatusOutOfRange)
    } else {
        match timestamp_of(f[3]) {
            None => Err(LineError::BadTimestamp),
            Some((dt, secs)) => Ok(
                LogView {
                    ip: f[0],
                    client_id: f[1],
                    user_id: f[2],
                    time: f[3],
                    request: f[4],
                    code: status_number(f[5]),
                    description: table[f[5]],
                    size: size_of(f[6]).0,
                    size_scale: size_of(f[6]).1,
                    date: dt,
                    epoch: secs,
                },
            ),
        }
    }
}

/// A record as the parser makes them: a status code in 100..=599, and a
/// date and epoch that are what its timestamp text decodes to.
pub open spec fn well_formed(v: LogView) -> bool {
    &&& 100 <= v.code <= 599
    &&& timestamp_of(v.time) == Some((v.date, v.epoch))
    &&& v.date.valid()
    &&& v.epoch == v.date.seconds()
}

/// Every record of `s` is well formed.
pub open spec fn all_well_formed(s: Seq<LogView>) -> bool {
    forall|i: int| 0 <= i < s.len() ==> well_formed(#[trigger] s[i])
}

/// A field prefixed by its length and a colon, so that fields written one
/// after another can be told apart again.
pub open spec fn framed(s: Seq<char>) -> Seq<char> {
    decimal(s.len()) + seq![':'] + s
}

/// The identity fields, each framed, then the status code in decimal.
pub open spec fn identity_text(v: LogView) -> Seq<char> {
    framed(v.ip) + (framed(v.time) + (framed(v.client_id) + (framed(v.user_id) + decimal(
        v.code as nat,
    ))))
}

proof fn lemma_no_colon_in_decimal(n: nat)
    ensures
        !decimal(n).contains(':'),
{
    lemma_decimal_digits(n);
    if decimal(n).contains(':') {
        let j = choose|j: int| 0 <= j < decimal(n).len() && decimal(n)[j] == ':';
        assert(is_digit(decimal(n)[j]));
    }
}

proof fn lemma_framed_prefix(a: Seq<char>, x: Seq<char>, b: Seq<char>, y: Seq<char>)
    requires
        framed(a) + x == framed(b) + y,
    ensures
        a == b,
        x == y,
{
    lemma_no_colon_in_decimal(a.len());
    lemma_no_colon_in_decimal(b.len());
    assert(framed(a) + x =~= decimal(a.len()) + seq![':'] + (a + x));
    assert(framed(b) + y =~= decimal(b.len()) + seq![':'] + (b + y));
    lemma_join_split(decimal(a.len()), a + x, decimal(b.len()), b + y, ':');
    crate::text::lemma_decimal_injective(a.len(), b.len());
    assert(a =~= (a + x).subrange(0, a.len() as int));
    assert(b =~= (b + y).subrange(0, b.len() as int));
    assert(x =~= (a + x).subrange(a.len() as int, (a + x).len() as int));
    assert(y =~= (b + y).subrange(b.len() as int, (b + y).len() as int));
}

/// Two records have the same identity text exactly when they have the same identity.
pub proof fn lemma_identity_text(a: LogView, b: LogView)
    ensures
        (identity_text(a) == identity_text(b)) == (identity(a) == identity(b)),
{
    if identity_text(a) == identity_text(b) {
        let ta = framed(a.user_id) + decimal(a.code as nat);
        let tb = framed(b.user_id) + decimal(b.code as nat);
        let sa = framed(a.client_id) + ta;
        let sb = framed(b.client_id) + tb;
        let ra = framed(a.time) + sa;
        let rb = framed(b.time) + sb;
        lemma_framed_prefix(a.ip, ra, b.ip, rb);
        lemma_framed_prefix(a.time, sa, b.time, sb);
        lemma_framed_prefix(a.client_id, ta, b.client_id, tb);
        lemma_framed_prefix(a.user_id, decimal(a.code as nat), b.user_id, decimal(b.code as nat));
        crate::text::lemma_decimal_injective(a.code as nat, b.code as nat);
    }
}

fn push_all(out: &mut Vec<char>, s: &String)
    ensures
        final(out)@ == old(out)@ + s@,
{
    let cs = chars_of(s.as_str());
    let mut i: usize = 0;
    while i < cs.len()
        invariant
            i <= cs@.len(),
            cs@ == s@,
            out@ =~= old(out)@ + cs@.subrange(0, i as int),
        decreases cs.len() - i,
    {
        out.push(cs[i]);
        i = i + 1;
    }
}

fn copy_chars(s: &Vec<char>) -> (r: String)
    ensures
        r@ == s@,
{
    string_of(s.as_slice())
}

fn push_framed(out: &mut Vec<char>, s: &String)
    ensures
        final(out)@ == old(out)@ + framed(s@),
{
    let cs = chars_of(s.as_str());
    push_decimal(out, cs.len() as u64);
    out.push(':');
    push_all(out, s);
    assert(final(out)@ =~= old(out)@ + framed(s@));
}

impl Log {
    /// The identity text: equal exactly for duplicates.
    pub fn get_values_string(&self) -> (r: String)
        ensures
            r@ == identity_text(self@),
    {
        let mut out: Vec<char> = Vec::new();
        push_framed(&mut out, &self.ip);
        push_framed(&mut out, &self.time);
        push_framed(&mut out, &self.client_id);
        push_framed(&mut out, &self.user_id);
        push_decimal(&mut out, self.status_code.0 as u64);
        proof {
            let v = self@;
            assert(out@ =~= framed(v.ip) + framed(v.time) + framed(v.client_id) + framed(v.user_id)
                + decimal(v.code as nat));
            assert(out@ =~= identity_text(v));
        }
        string_of(out.as_slice())
    }

    /// A copy of the record.
    pub fn copied(&self) -> (r: Log)
        ensures
            r@ == self@,
    {
        Log {
            ip: self.ip.clone(),
            client_id: self.client_id.clone(),
            user_id: self.user_id.clone(),
            time: self.time.clone(),
            request: self.request.clone(),
            status_code: (self.status_code.0, self.status_code.1.clone()),
            size: self.size,
            size_scale: self.size_scale,
            date: self.date,
            epoch: self.epoch,
        }
    }

    /// The six components of the decoded timestamp, year first.
    pub fn get_parsed_date(&self) -> (r: Vec<u32>)
        requires
            well_formed(self@),
        ensures
            r@ == self.date.parts(),
            timestamp_of(self.time@) matches Some(p) && r@ == p.0.parts(),
    {
        self.date.get_parsed_date()
    }

    /// Whether the record is well formed: its status code is in range and
    /// its date and epoch are what its timestamp text decodes to.
    pub fn is_well_formed(&self) -> (r: bool)
        ensures
            r == well_formed(self@),
    {
        if self.status_code.0 < 100 || self.status_code.0 > 599 {
            return false;
        }
        let t = chars_of(self.time.as_str());
        match parse_timestamp(&t) {
            Some((d, e)) => d == self.date && e == self.epoch,
            None => false,
        }
    }
}

impl PartialEq for Log {
    /// Records are equal when they are duplicates: same identity.
    fn eq(&self, other: &Log) -> (r: bool) {
        let a = self.get_values_string();
        let b = other.get_values_string();
        proof {
            lemma_identity_text(self@, other@);
        }
        a == b
    }
}

impl vstd::std_specs::cmp::PartialEqSpecImpl for Log {
    open spec fn obeys_eq_spec() -> bool {
        true
    }

    open spec fn eq_spec(&self, other: &Log) -> bool {
        identity(self@) == identity(other@)
    }
}

fn all_digits(s: &Vec<char>) -> (r: bool)
    ensures
        r == digits_only(s@),
{
    let mut i: usize = 0;
    while i < s.len()
        invariant
            i <= s@.len(),
            forall|k: int| 0 <= k < i ==> is_digit(#[trigger] s@[k]),
        decreases s.len() - i,
    {
        let n: u32 = s[i] as u32;
        if n < 48 || n > 57 {
            assert(!is_digit(s@[i as int]));
            return false;
        }
        i = i + 1;
    }
    true
}

fn without_plus(s: &Vec<char>) -> (r: Vec<char>)
    ensures
        r@ == unsigned_part(s@),
{
    let mut out: Vec<char> = Vec::new();
    let start: usize = if s.len() > 0 && s[0] == '+' {
        1
    } else {
        0
    };
    let mut i: usize = start;
    while i < s.len()
        invariant
            start <= i <= s@.len(),
            out@ =~= s@.subrange(start as int, i as int),
        decreases s.len() - i,
    {
        out.push(s[i]);
        i = i + 1;
    }
    assert(out@ =~= unsigned_part(s@));
    out
}

pub(crate) fn exec_pow10(n: u32) -> (r: u128)
    requires
        n <= 38,
    ensures
        r == pow10(n as nat),
{
    proof {
        lemma_pow10_38();
    }
    let mut p: u128 = 1;
    let mut i: u32 = 0;
    while i < n
        invariant
            i <= n <= 38,
            p == pow10(i as nat),
            pow10(38) == 100_000_000_000_000_000_000_000_000_000_000_000_000,
        decreases n - i,
    {
        proof {
            lemma_pow10_mono((i + 1) as nat, 38);
        }
        p = p * 10;
        i = i + 1;
    }
    p
}

pub proof fn lemma_pow10_mono(a: nat, b: nat)
    requires
        a <= b,
    ensures
        1 <= pow10(a) <= pow10(b),
    decreases b,
{
    if b > a {
        lemma_pow10_mono(a, (b - 1) as nat);
    } else if a > 0 {
        lemma_pow10_mono((a - 1) as nat, (a - 1) as nat);
    }
}

pub proof fn lemma_pow10_38()
    ensures
        pow10(38) == 100_000_000_000_000_000_000_000_000_000_000_000_000,
{
    reveal_with_fuel(pow10, 39);
}

proof fn lemma_pow10_large(n: nat)
    requires
        n >= 39,
    ensures
        pow10(n) > u128::MAX,
{
    lemma_pow10_38();
    lemma_pow10_mono(38, (n - 1) as nat);
}

/// A size whose power of ten lies beyond 38 either way reads as 0.
proof fn lemma_size_far(s: Seq<char>)
    requires
        real_parts(s) matches Some((mv, e)) && (e > 38 || e < -38),
    ensures
        size_of(s) == (0u128, 0u32),
{
    let (mv, e) = real_parts(s)->Some_0;
    if mv > 0 && e > 38 {
        lemma_pow10_large(e as nat);
        assert(mv * pow10(e as nat) >= pow10(e as nat)) by (nonlinear_arith)
            requires
                mv >= 1,
        ;
    }
}

/// Reads an optionally signed exponent; nothing where its magnitude
/// exceeds `2^100`, beyond which no size can reach.
fn read_exponent(s: &Vec<char>) -> (r: Option<i128>)
    ensures
        match r {
            Some(v) => signed_value(s@) == Some(v as int) && -0x10_0000_0000_0000_0000_0000_0000
                <= v <= 0x10_0000_0000_0000_0000_0000_0000,
            None => signed_value(s@) is None || (signed_value(s@) matches Some(v) && (v
                > 0x10_0000_0000_0000_0000_0000_0000 || v < -0x10_0000_0000_0000_0000_0000_0000)),
        },
{
    let negative = s.len() > 0 && s[0] == '-';
    let digits = if negative {
        let mut t: Vec<char> = Vec::new();
        let mut i: usize = 1;
        while i < s.len()
            invariant
                1 <= i <= s@.len(),
                t@ =~= s@.subrange(1, i as int),
            decreases s.len() - i,
        {
            t.push(s[i]);
            i = i + 1;
        }
        assert(t@ =~= s@.drop_first());
        t
    } else {
        without_plus(s)
    };
    match parse_decimal(&digits, 0x10_0000_0000_0000_0000_0000_0000) {
        Some(v) => if negative {
            Some(-(v as i128))
        } else {
            Some(v as i128)
        },
        None => None,
    }
}

fn read_size(s: &Vec<char>) -> (r: (u128, u32))
    ensures
        r == size_of(s@),
{
    let body = without_plus(s);
    let exp_marks = vec!['e', 'E'];
    assert(exp_marks@ =~= seq!['e', 'E']);
    let e = split_chars(&body, &exp_marks);
    proof {
        crate::text::lemma_split_nonempty(body@, seq!['e', 'E']);
    }
    if e.len() > 2 {
        return (0, 0);
    }
    let dot = vec!['.'];
    assert(dot@ =~= seq!['.']);
    let m = split_chars(&e[0], &dot);
    proof {
        crate::text::lemma_split_nonempty(e[0]@, seq!['.']);
    }
    if m.len() > 2 {
        return (0, 0);
    }
    let empty: Vec<char> = Vec::new();
    let ip: &Vec<char> = &m[0];
    let fp: &Vec<char> = if m.len() == 2 {
        &m[1]
    } else {
        &empty
    };
    assert(fp@ == (if m@.len() == 2 {
        m@[1]@
    } else {
        Seq::<char>::empty()
    }));
    if !all_digits(ip) || !all_digits(fp) || (ip.len() == 0 && fp.len() == 0) {
        return (0, 0);
    }
    let mut digits: Vec<char> = Vec::new();
    let mut i: usize = 0;
    while i < ip.len()
        invariant
            i <= ip@.len(),
            digits@ =~= ip@.subrange(0, i as int),
        decreases ip.len() - i,
    {
        digits.push(ip[i]);
        i = i + 1;
    }
    let mut j: usize = 0;
    while j < fp.len()
        invariant
            j <= fp@.len(),
            digits@ =~= ip@ + fp@.subrange(0, j as int),
        decreases fp.len() - j,
    {
        digits.push(fp[j]);
        j = j + 1;
    }
    assert(digits@ =~= ip@ + fp@);
    proof {
        assert forall|k: int| 0 <= k < digits@.len() implies is_digit(#[trigger] digits@[k]) by {
            if k >= ip@.len() {
                assert(digits@[k] == fp@[k - ip@.len()]);
            } else {
                assert(digits@[k] == ip@[k]);
            }
        }
    }
    let exp: i128 = if e.len() == 2 {
        match read_exponent(&e[1]) {
            Some(v) => v,
            None => {
                proof {
                    if signed_value(e@[1]@) is Some {
                        lemma_size_far(s@);
                    }
                }
                return (0, 0);
            },
        }
    } else {
        0
    };
    let fl: i128 = fp.len() as i128;
    let e10: i128 = exp - fl;
    let mv: u128 = match parse_decimal(&digits, 0xFFFF_FFFF_FFFF_FFFF_FFFF_FFFF_FFFF_FFFF) {
        Some(v) => v,
        None => {
            proof {
                if e10 >= 0 {
                    lemma_pow10_mono(0, e10 as nat);
                    assert(digits_value(digits@) * pow10(e10 as nat) >= digits_value(digits@))
                        by (nonlinear_arith)
                        requires
                            pow10(e10 as nat) >= 1,
                    ;
                }
            }
            return (0, 0);
        },
    };
    if mv == 0 {
        return (0, 0);
    }
    if e10 > 38 || e10 < -38 {
        proof {
            lemma_size_far(s@);
        }
        return (0, 0);
    }
    if e10 >= 0 {
        let p: u128 = exec_pow10(e10 as u32);
        match mv.checked_mul(p) {
            Some(u) => (u, 0),
            None => (0, 0),
        }
    } else {
        (mv, (-e10) as u32)
    }
}

pub(crate) fn parse_chars(line: &Vec<char>, codes: &CodeTable) -> (r: Result<Log, LineError>)
    ensures
        match r {
            Ok(l) => parse_line_spec(line@, codes@) == Ok::<LogView, LineError>(l@),
            Err(e) => parse_line_spec(line@, codes@) == Err::<LogView, LineError>(e),
        },
{
    let m = mask_chars(line);
    let space = vec![' '];
    assert(space@ =~= seq![' ']);
    let f = split_chars(&m, &space);
    if f.len() != 9 {
        return Err(LineError::FieldCount);
    }
    let status = copy_chars(&f[5]);
    let description = match codes.lookup(&status) {
        Some(d) => d,
        None => {
            return Err(LineError::UnknownStatus);
        },
    };
    let code: u16 = match parse_decimal(&without_plus(&f[5]), 0xFFFF) {
        Some(v) => v as u16,
        None => 404,
    };
    if code < 100 || code > 599 {
        return Err(LineError::StatusOutOfRange);
    }
    let (date, epoch) = match parse_timestamp(&f[3]) {
        Some(p) => p,
        None => {
            return Err(LineError::BadTimestamp);
        },
    };
    let (size, size_scale) = read_size(&f[6]);
    Ok(
        Log {
            ip: copy_chars(&f[0]),
            client_id: copy_chars(&f[1]),
            user_id: copy_chars(&f[2]),
            time: copy_chars(&f[3]),
            request: copy_chars(&f[4]),
            status_code: (code, description),
            size,
            size_scale,
            date,
            epoch,
        },
    )
}

/// Parses one log line into a record, or says why it gives none.
pub fn parse_line(line: &str, codes: &CodeTable) -> (r: Result<Log, LineError>)
    ensures
        match r {
            Ok(l) => parse_line_spec(line@, codes@) == Ok::<LogView, LineError>(l@),
            Err(e) => parse_line_spec(line@, codes@) == Err::<LogView, LineError>(e),
        },
{
    let cs = chars_of(line);
    parse_chars(&cs, codes)
}

/// The records of the lines that parse, in order.
pub open spec fn parsed_records(ls: Seq<Seq<char>>, table: Map<Seq<char>, Seq<char>>) -> Seq<
    LogView,
>
    decreases ls.len(),
{
    if ls.len() == 0 {
        Seq::empty()
    } else {
        match parse_line_spec(ls.last(), table) {
            Ok(v) => parsed_records(ls.drop_last(), table).push(v),
            Err(_) => parsed_records(ls.drop_last(), table),
        }
    }
}

pub open spec fn views(s: Seq<Log>) -> Seq<LogView> {
    s.map_values(|l: Log| l@)
}

/// Parses every line of `contents`, skipping the lines that give no record.
pub fn parse_records(contents: &str, codes: &CodeTable) -> (r: Vec<Log>)
    ensures
        views(r@) == parsed_records(lines_of(contents@), codes@),
        all_well_formed(views(r@)),
{
    let cs = chars_of(contents);
    let ls = split_lines(&cs);
    let ghost lv = lines_of(cs@);
    let mut out: Vec<Log> = Vec::new();
    let mut i: usize = 0;
    while i < ls.len()
        invariant
            i <= ls@.len(),
            ls@.len() == lv.len(),
            forall|k: int| 0 <= k < ls@.len() ==> #[trigger] ls@[k]@ == lv[k],
            views(out@) =~= parsed_records(lv.subrange(0, i as int), codes@),
        decreases ls.len() - i,
    {
        assert(lv.subrange(0, i + 1).drop_last() =~= lv.subrange(0, i as int));
        match parse_chars(&ls[i], codes) {
            Ok(l) => {
                out.push(l);
            },
            Err(_) => {},
        }
        i = i + 1;
    }
    assert(lv.subrange(0, ls.len() as int) =~= lv);
    proof {
        lemma_parsed_well_formed(lv, codes@);
    }
    out
}

/// Every record that the parser makes is well formed.
pub proof fn lemma_parsed_well_formed(ls: Seq<Seq<char>>, table: Map<Seq<char>, Seq<char>>)
    ensures
        all_well_formed(parsed_records(ls, table)),
    decreases ls.len(),
{
    if ls.len() > 0 {
        lemma_parsed_well_formed(ls.drop_last(), table);
        let p = parsed_records(ls.drop_last(), table);
        if let Ok(v) = parse_line_spec(ls.last(), table) {
            assert forall|i: int| 0 <= i < p.push(v).len() implies well_formed(#[trigger] p.push(v)[i]) by {
                if i < p.len() {
                    assert(p.push(v)[i] == p[i]);
                }
            }
        }
    }
}

} // verus!

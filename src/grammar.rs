use crate::options::Clause;
use vstd::prelude::*;

verus! {

/// The classes of bytes that the grammar reads in runs.
#[derive(Clone, Copy)]
pub enum ByteClass {
    /// Space, tab, carriage return or line feed.
    Space,
    /// An ASCII decimal digit.
    Digit,
}

pub open spec fn in_class(b: u8, c: ByteClass) -> bool {
    match c {
        ByteClass::Space => b == 0x20 || b == 0x09 || b == 0x0d || b == 0x0a,
        ByteClass::Digit => 0x30 <= b <= 0x39,
    }
}

fn is_in_class(b: u8, c: ByteClass) -> (r: bool)
    ensures
        r == in_class(b, c),
{
    match c {
        ByteClass::Space => b == 0x20 || b == 0x09 || b == 0x0d || b == 0x0a,
        ByteClass::Digit => 0x30 <= b && b <= 0x39,
    }
}

/// Length of the longest run of bytes of class `c` at the start of `t`.
pub open spec fn run_len(t: Seq<u8>, c: ByteClass) -> nat
    decreases t.len(),
{
    if t.len() > 0 && in_class(t[0], c) {
        1 + run_len(t.drop_first(), c)
    } else {
        0
    }
}

pub proof fn lemma_run_len_bound(t: Seq<u8>, c: ByteClass)
    ensures
        run_len(t, c) <= t.len(),
        forall|j: int| 0 <= j < run_len(t, c) ==> in_class(#[trigger] t[j], c),
    decreases t.len(),
{
    if t.len() > 0 && in_class(t[0], c) {
        lemma_run_len_bound(t.drop_first(), c);
        assert forall|j: int| 0 <= j < run_len(t, c) implies in_class(#[trigger] t[j], c) by {
            if j > 0 {
                assert(t[j] == t.drop_first()[j - 1]);
            }
        }
    }
}

/// Returns the end of the run of class `c` that starts at `p`.
pub fn run_end(s: &[u8], p: usize, c: ByteClass) -> (e: usize)
    requires
        p <= s.len(),
    ensures
        p <= e <= s@.len(),
        e - p == run_len(s@.skip(p as int), c),
{
    let mut i = p;
    while i < s.len() && is_in_class(s[i], c)
        invariant
            p <= i <= s@.len(),
            run_len(s@.skip(p as int), c) == (i - p) + run_len(s@.skip(i as int), c),
        decreases s@.len() - i,
    {
        assert(s@.skip(i as int).drop_first() =~= s@.skip(i as int + 1));
        i = i + 1;
    }
    i
}

/// Value of a sequence of decimal digits, most significant first.
pub open spec fn decimal_value(ds: Seq<u8>) -> nat
    decreases ds.len(),
{
    if ds.len() == 0 {
        0
    } else {
        decimal_value(ds.drop_last()) * 10 + (ds.last() - 0x30) as nat
    }
}

/// A prefix of a digit sequence is worth no more than the whole sequence.
pub proof fn lemma_decimal_prefix(ds: Seq<u8>, k: int)
    requires
        0 <= k <= ds.len(),
    ensures
        decimal_value(ds.take(k)) <= decimal_value(ds),
    decreases ds.len(),
{
    if k < ds.len() {
        lemma_decimal_prefix(ds.drop_last(), k);
        assert(ds.drop_last().take(k) =~= ds.take(k));
    } else {
        assert(ds.take(k) =~= ds);
    }
}

/// Reads the digits `s[p..e]` as a `u32`; `None` when the value does not fit.
pub fn decimal_u32(s: &[u8], p: usize, e: usize) -> (r: Option<u32>)
    requires
        p <= e <= s@.len(),
        forall|j: int| p <= j < e ==> in_class(#[trigger] s@[j], ByteClass::Digit),
    ensures
        match r {
            Some(v) => v as nat == decimal_value(s@.subrange(p as int, e as int)),
            None => decimal_value(s@.subrange(p as int, e as int)) > u32::MAX,
        },
{
    let mut v: u32 = 0;
    let mut i = p;
    assert(s@.subrange(p as int, p as int).len() == 0);
    while i < e
        invariant
            p <= i <= e <= s@.len(),
            forall|j: int| p <= j < e ==> in_class(#[trigger] s@[j], ByteClass::Digit),
            v as nat == decimal_value(s@.subrange(p as int, i as int)),
        decreases e - i,
    {
        let d = (s[i] - 0x30) as u32;
        let ghost next = s@.subrange(p as int, i + 1);
        assert(next.drop_last() =~= s@.subrange(p as int, i as int));
        assert(decimal_value(next) == v * 10 + d);
        proof {
            lemma_decimal_prefix(s@.subrange(p as int, e as int), i + 1 - p);
            assert(s@.subrange(p as int, e as int).take(i + 1 - p) =~= next);
        }
        match v.checked_mul(10) {
            Some(m) => match m.checked_add(d) {
                Some(n) => v = n,
                None => return None,
            },
            None => return None,
        }
        i = i + 1;
    }
    Some(v)
}

/// What a numeric argument at the start of a text yields.
pub enum Arg {
    /// A value that fits, and the number of bytes it takes.
    Num(int, nat),
    /// Digits whose value does not fit the target type.
    TooLarge,
    /// No digits where the number should start.
    Absent,
}

/// Executable form of [`Arg`].
pub enum Number {
    Value(i64, usize),
    TooLarge,
    Absent,
}

impl View for Number {
    type V = Arg;

    open spec fn view(&self) -> Arg {
        match self {
            Number::Value(v, n) => Arg::Num(*v as int, *n as nat),
            Number::TooLarge => Arg::TooLarge,
            Number::Absent => Arg::Absent,
        }
    }
}

/// An unsigned 32-bit number: the run of digits that starts `t`.
pub open spec fn unsigned_number(t: Seq<u8>) -> Arg {
    let k = run_len(t, ByteClass::Digit);
    let v = decimal_value(t.take(k as int));
    if k == 0 {
        Arg::Absent
    } else if v > u32::MAX {
        Arg::TooLarge
    } else {
        Arg::Num(v as int, k)
    }
}

/// A signed 32-bit number: an optional `-`, then a magnitude read as an
/// unsigned 32-bit number; the signed value must fit in 32 bits.
pub open spec fn signed_number(t: Seq<u8>) -> Arg {
    let neg = t.len() > 0 && t[0] == 0x2d;
    let m: nat = if neg { 1 } else { 0 };
    match unsigned_number(t.skip(m as int)) {
        Arg::Num(v, k) => {
            let x = if neg { -v } else { v };
            if i32::MIN <= x <= i32::MAX {
                Arg::Num(x, m + k)
            } else {
                Arg::TooLarge
            }
        },
        other => other,
    }
}

/// Reads the unsigned number that starts at `s[p..]`.
pub fn parse_u32_number(s: &[u8], p: usize) -> (r: Number)
    requires
        p <= s.len(),
    ensures
        r@ == unsigned_number(s@.skip(p as int)),
        r is Value ==> p + r->Value_1 <= s@.len(),
{
    let e = run_end(s, p, ByteClass::Digit);
    let ghost t = s@.skip(p as int);
    proof {
        lemma_run_len_bound(t, ByteClass::Digit);
        assert(t.take(e - p) =~= s@.subrange(p as int, e as int));
        assert forall|j: int| p <= j < e implies in_class(#[trigger] s@[j], ByteClass::Digit) by {
            assert(s@[j] == t[j - p]);
        }
    }
    if e == p {
        return Number::Absent;
    }
    match decimal_u32(s, p, e) {
        Some(v) => Number::Value(v as i64, e - p),
        None => Number::TooLarge,
    }
}

/// Reads the signed number that starts at `s[p..]`.
pub fn parse_i32_number(s: &[u8], p: usize) -> (r: Number)
    requires
        p <= s.len(),
    ensures
        r@ == signed_number(s@.skip(p as int)),
        r is Value ==> p + r->Value_1 <= s@.len(),
{
    let neg = p < s.len() && s[p] == 0x2d;
    let q = if neg { p + 1 } else { p };
    assert(s@.skip(p as int).skip(q - p) =~= s@.skip(q as int));
    match parse_u32_number(s, q) {
        Number::Value(v, k) => {
            let x: i64 = if neg { -v } else { v };
            if x < i32::MIN as i64 || x > i32::MAX as i64 {
                Number::TooLarge
            } else {
                Number::Value(x, q - p + k)
            }
        },
        other => other,
    }
}

/// The keywords of the option grammar.
#[derive(Clone, Copy, PartialEq, Eq)]
pub enum Keyword {
    BitstringOverflow,
    DoubleOverflow,
    OversizeLength,
    AbsoluteOffset,
    RelativeOffset,
}

/// The ASCII spelling of each keyword: `bitstring_overflow`, `double_overflow`,
/// `oversize_length`, `absolute_offset` and `relative_offset`.
pub open spec fn keyword_bytes(k: Keyword) -> Seq<u8> {
    match k {
        Keyword::BitstringOverflow => seq![0x62u8, 0x69u8, 0x74u8, 0x73u8, 0x74u8, 0x72u8, 0x69u8, 0x6eu8, 0x67u8, 0x5fu8, 0x6fu8, 0x76u8, 0x65u8, 0x72u8, 0x66u8, 0x6cu8, 0x6fu8, 0x77u8],
        Keyword::DoubleOverflow => seq![0x64u8, 0x6fu8, 0x75u8, 0x62u8, 0x6cu8, 0x65u8, 0x5fu8, 0x6fu8, 0x76u8, 0x65u8, 0x72u8, 0x66u8, 0x6cu8, 0x6fu8, 0x77u8],
        Keyword::OversizeLength => seq![0x6fu8, 0x76u8, 0x65u8, 0x72u8, 0x73u8, 0x69u8, 0x7au8, 0x65u8, 0x5fu8, 0x6cu8, 0x65u8, 0x6eu8, 0x67u8, 0x74u8, 0x68u8],
        Keyword::AbsoluteOffset => seq![0x61u8, 0x62u8, 0x73u8, 0x6fu8, 0x6cu8, 0x75u8, 0x74u8, 0x65u8, 0x5fu8, 0x6fu8, 0x66u8, 0x66u8, 0x73u8, 0x65u8, 0x74u8],
        Keyword::RelativeOffset => seq![0x72u8, 0x65u8, 0x6cu8, 0x61u8, 0x74u8, 0x69u8, 0x76u8, 0x65u8, 0x5fu8, 0x6fu8, 0x66u8, 0x66u8, 0x73u8, 0x65u8, 0x74u8],
    }
}

fn keyword(k: Keyword) -> (r: Vec<u8>)
    ensures
        r@ == keyword_bytes(k),
{
    match k {
        Keyword::BitstringOverflow => vec![0x62u8, 0x69u8, 0x74u8, 0x73u8, 0x74u8, 0x72u8, 0x69u8, 0x6eu8, 0x67u8, 0x5fu8, 0x6fu8, 0x76u8, 0x65u8, 0x72u8, 0x66u8, 0x6cu8, 0x6fu8, 0x77u8],
        Keyword::DoubleOverflow => vec![0x64u8, 0x6fu8, 0x75u8, 0x62u8, 0x6cu8, 0x65u8, 0x5fu8, 0x6fu8, 0x76u8, 0x65u8, 0x72u8, 0x66u8, 0x6cu8, 0x6fu8, 0x77u8],
        Keyword::OversizeLength => vec![0x6fu8, 0x76u8, 0x65u8, 0x72u8, 0x73u8, 0x69u8, 0x7au8, 0x65u8, 0x5fu8, 0x6cu8, 0x65u8, 0x6eu8, 0x67u8, 0x74u8, 0x68u8],
        Keyword::AbsoluteOffset => vec![0x61u8, 0x62u8, 0x73u8, 0x6fu8, 0x6cu8, 0x75u8, 0x74u8, 0x65u8, 0x5fu8, 0x6fu8, 0x66u8, 0x66u8, 0x73u8, 0x65u8, 0x74u8],
        Keyword::RelativeOffset => vec![0x72u8, 0x65u8, 0x6cu8, 0x61u8, 0x74u8, 0x69u8, 0x76u8, 0x65u8, 0x5fu8, 0x6fu8, 0x66u8, 0x66u8, 0x73u8, 0x65u8, 0x74u8],
    }
}

pub open spec fn starts_with(t: Seq<u8>, kw: Seq<u8>) -> bool {
    kw.len() <= t.len() && t.take(kw.len() as int) == kw
}

/// Tells whether `s[p..]` starts with `kw`.
fn has_prefix_at(s: &[u8], p: usize, kw: &[u8]) -> (r: bool)
    requires
        p <= s.len(),
    ensures
        r == starts_with(s@.skip(p as int), kw@),
{
    if kw.len() > s.len() - p {
        return false;
    }
    let mut j: usize = 0;
    while j < kw.len()
        invariant
            j <= kw@.len() <= s.len() - p,
            p <= s.len(),
            forall|m: int| 0 <= m < j ==> s@[p + m] == kw@[m],
        decreases kw@.len() - j,
    {
        if s[p + j] != kw[j] {
            assert(s@.skip(p as int).take(kw@.len() as int)[j as int] != kw@[j as int]);
            return false;
        }
        j = j + 1;
    }
    assert(s@.skip(p as int).take(kw@.len() as int) =~= kw@);
    true
}

/// The argument that follows a keyword in `t`: required whitespace, then a
/// number. The length counts the whitespace too.
pub open spec fn argument(t: Seq<u8>, signed: bool) -> Arg {
    let w = run_len(t, ByteClass::Space);
    let n = if signed {
        signed_number(t.skip(w as int))
    } else {
        unsigned_number(t.skip(w as int))
    };
    if w == 0 {
        Arg::Absent
    } else {
        match n {
            Arg::Num(v, k) => Arg::Num(v, w + k),
            other => other,
        }
    }
}

/// Outcome of matching one clause at the start of a text.
pub enum Scan {
    /// A clause, and the number of bytes it takes.
    Found(Clause, nat),
    /// A keyword whose numeric argument does not fit.
    Overflow,
    /// No clause starts here.
    Missing,
}

/// Executable form of [`Scan`].
pub enum ClauseScan {
    Found(Clause, usize),
    Overflow,
    Missing,
}

impl View for ClauseScan {
    type V = Scan;

    open spec fn view(&self) -> Scan {
        match self {
            ClauseScan::Found(c, n) => Scan::Found(*c, *n as nat),
            ClauseScan::Overflow => Scan::Overflow,
            ClauseScan::Missing => Scan::Missing,
        }
    }
}

/// A clause that takes a numeric argument, made from what the argument yields.
pub open spec fn argument_clause(k: Keyword, a: Arg) -> Scan {
    let n = keyword_bytes(k).len();
    match a {
        Arg::Num(v, m) => Scan::Found(
            match k {
                Keyword::OversizeLength => Clause::OversizeLength(v as u32),
                Keyword::AbsoluteOffset => Clause::AbsoluteOffset(v as u32),
                _ => Clause::RelativeOffset(v as i32),
            },
            n + m,
        ),
        Arg::TooLarge => Scan::Overflow,
        Arg::Absent => Scan::Missing,
    }
}

/// The clause that keyword `k` starts, when `k` takes a numeric argument.
pub open spec fn keyword_clause(t: Seq<u8>, k: Keyword) -> Scan {
    let rest = t.skip(keyword_bytes(k).len() as int);
    argument_clause(k, argument(rest, k == Keyword::RelativeOffset))
}

/// The first of the five clause shapes, in priority order, that matches at the start of `t`.
#[verifier::opaque]
pub open spec fn scan_clause(t: Seq<u8>) -> Scan {
    if starts_with(t, keyword_bytes(Keyword::BitstringOverflow)) {
        Scan::Found(Clause::BitstringOverflow, keyword_bytes(Keyword::BitstringOverflow).len())
    } else if starts_with(t, keyword_bytes(Keyword::DoubleOverflow)) {
        Scan::Found(Clause::DoubleOverflow, keyword_bytes(Keyword::DoubleOverflow).len())
    } else if starts_with(t, keyword_bytes(Keyword::OversizeLength)) {
        keyword_clause(t, Keyword::OversizeLength)
    } else if starts_with(t, keyword_bytes(Keyword::AbsoluteOffset)) {
        keyword_clause(t, Keyword::AbsoluteOffset)
    } else if starts_with(t, keyword_bytes(Keyword::RelativeOffset)) {
        keyword_clause(t, Keyword::RelativeOffset)
    } else {
        Scan::Missing
    }
}

/// `bitstring_overflow` has 18 bytes; every other keyword has 15.
pub proof fn lemma_keyword_len(k: Keyword)
    ensures
        keyword_bytes(k).len() == if k == Keyword::BitstringOverflow {
            18nat
        } else {
            15nat
        },
{
}

pub proof fn lemma_number_len(t: Seq<u8>, signed: bool)
    ensures
        !signed ==> (unsigned_number(t) matches Arg::Num(_, n) ==> 0 < n <= t.len()),
        signed ==> (signed_number(t) matches Arg::Num(_, n) ==> 0 < n <= t.len()),
{
    lemma_run_len_bound(t, ByteClass::Digit);
    assert(t.skip(0) =~= t);
    if t.len() > 0 {
        lemma_run_len_bound(t.skip(1), ByteClass::Digit);
    }
}

pub proof fn lemma_argument_len(t: Seq<u8>, signed: bool)
    ensures
        argument(t, signed) matches Arg::Num(_, n) ==> 0 < n <= t.len(),
{
    let w = run_len(t, ByteClass::Space);
    lemma_run_len_bound(t, ByteClass::Space);
    lemma_number_len(t.skip(w as int), signed);
}

/// A clause that is found takes at least one byte and no more than the text holds.
pub proof fn lemma_scan_len(t: Seq<u8>)
    ensures
        scan_clause(t) matches Scan::Found(_, n) ==> 0 < n <= t.len(),
{
    reveal(scan_clause);
    lemma_keyword_len(Keyword::BitstringOverflow);
    lemma_keyword_len(Keyword::DoubleOverflow);
    lemma_keyword_len(Keyword::OversizeLength);
    lemma_keyword_len(Keyword::AbsoluteOffset);
    lemma_keyword_len(Keyword::RelativeOffset);
    // Each keyword that takes an argument is 15 bytes long.
    lemma_argument_len(t.skip(15), false);
    lemma_argument_len(t.skip(15), true);
}

/// Reads the argument of a keyword that ends at `p`.
fn scan_argument(s: &[u8], p: usize, signed: bool) -> (r: Number)
    requires
        p <= s.len(),
    ensures
        r@ == argument(s@.skip(p as int), signed),
        r is Value ==> p + r->Value_1 <= s@.len(),
{
    let q = run_end(s, p, ByteClass::Space);
    assert(s@.skip(p as int).skip(q - p) =~= s@.skip(q as int));
    if q == p {
        return Number::Absent;
    }
    let n = if signed {
        parse_i32_number(s, q)
    } else {
        parse_u32_number(s, q)
    };
    match n {
        Number::Value(v, k) => Number::Value(v, q - p + k),
        other => other,
    }
}

/// Matches one clause at `s[p..]`.
pub fn scan_clause_at(s: &[u8], p: usize) -> (r: ClauseScan)
    requires
        p <= s.len(),
    ensures
        r@ == scan_clause(s@.skip(p as int)),
{
    reveal(scan_clause);
    let bitstring = keyword(Keyword::BitstringOverflow);
    if has_prefix_at(s, p, bitstring.as_slice()) {
        return ClauseScan::Found(Clause::BitstringOverflow, bitstring.len());
    }
    let double = keyword(Keyword::DoubleOverflow);
    if has_prefix_at(s, p, double.as_slice()) {
        return ClauseScan::Found(Clause::DoubleOverflow, double.len());
    }
    let oversize = keyword(Keyword::OversizeLength);
    let absolute = keyword(Keyword::AbsoluteOffset);
    let relative = keyword(Keyword::RelativeOffset);
    let (k, n) = if has_prefix_at(s, p, oversize.as_slice()) {
        (Keyword::OversizeLength, oversize.len())
    } else if has_prefix_at(s, p, absolute.as_slice()) {
        (Keyword::AbsoluteOffset, absolute.len())
    } else if has_prefix_at(s, p, relative.as_slice()) {
        (Keyword::RelativeOffset, relative.len())
    } else {
        return ClauseScan::Missing;
    };
    let q = p + n;
    assert(s@.skip(p as int).skip(n as int) =~= s@.skip(q as int));
    let signed = match k {
        Keyword::RelativeOffset => true,
        _ => false,
    };
    match scan_argument(s, q, signed) {
        Number::Value(v, m) => {
            let c = match k {
                Keyword::OversizeLength => Clause::OversizeLength(v as u32),
                Keyword::AbsoluteOffset => Clause::AbsoluteOffset(v as u32),
                _ => Clause::RelativeOffset(v as i32),
            };
            ClauseScan::Found(c, n + m)
        },
        Number::TooLarge => ClauseScan::Overflow,
        Number::Absent => ClauseScan::Missing,
    }
}

} // verus!

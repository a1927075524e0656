use crate::grammar::{
    in_class, lemma_run_len_bound, lemma_scan_len, run_end, run_len, scan_clause, scan_clause_at,
    ByteClass, ClauseScan, Scan,
};
use crate::options::DetectAsn1Data;
use vstd::prelude::*;
use vstd::string::StringSliceAdditionalSpecFns;

verus! {

/// Why an option text was rejected.
#[derive(Debug, Clone, Copy, PartialEq, Eq)]
pub enum Asn1ParseError {
    /// The text is empty.
    EmptyInput,
    /// No clause matches at byte `offset`; the rest of the text from there
    /// on, `&input[offset..]`, is what could not be read.
    UnrecognizedOption { offset: usize },
    /// A numeric argument does not fit its 32-bit field.
    NumericOverflow,
    /// The raw input is not well-formed UTF-8.
    InvalidEncoding,
}

/// Why a parse stops, over the text's bytes.
pub enum Failure {
    Empty,
    /// No clause matches; carries the text that was left at the start of that step.
    Unrecognized(Seq<u8>),
    Overflow,
}

/// Length of the separator at the start of `t`: a run of whitespace, else a
/// single comma, else nothing.
pub open spec fn separator_len(t: Seq<u8>) -> nat {
    let w = run_len(t, ByteClass::Space);
    if w > 0 {
        w
    } else if t.len() > 0 && t[0] == 0x2c {
        1
    } else {
        0
    }
}

/// Reads clauses from `t` into `d` until the text is used up. Each step skips
/// whitespace, reads one clause and then at most one separator.
pub open spec fn parse_clauses(t: Seq<u8>, d: DetectAsn1Data) -> Result<DetectAsn1Data, Failure>
    decreases t.len(),
    via parse_clauses_decreases
{
    if t.len() == 0 {
        Ok(d)
    } else {
        let u = t.skip(run_len(t, ByteClass::Space) as int);
        match scan_clause(u) {
            Scan::Found(c, n) => {
                let v = u.skip(n as int);
                parse_clauses(v.skip(separator_len(v) as int), d.with_clause(c))
            },
            Scan::Overflow => Err(Failure::Overflow),
            Scan::Missing => Err(Failure::Unrecognized(t)),
        }
    }
}

#[via_fn]
proof fn parse_clauses_decreases(t: Seq<u8>, d: DetectAsn1Data) {
    if t.len() > 0 {
        lemma_run_len_bound(t, ByteClass::Space);
        let u = t.skip(run_len(t, ByteClass::Space) as int);
        lemma_scan_len(u);
        if let Scan::Found(c, n) = scan_clause(u) {
            let v = u.skip(n as int);
            lemma_run_len_bound(v, ByteClass::Space);
        }
    }
}

/// The options that the text `t` gives, or why it is rejected.
pub open spec fn parse_options(t: Seq<u8>) -> Result<DetectAsn1Data, Failure> {
    if t.len() == 0 {
        Err(Failure::Empty)
    } else {
        parse_clauses(t, DetectAsn1Data::initial())
    }
}

/// The public result that corresponds to a parse of `t`.
pub open spec fn parse_result(t: Seq<u8>, r: Result<DetectAsn1Data, Asn1ParseError>) -> bool {
    match parse_options(t) {
        Ok(d) => r == Ok::<DetectAsn1Data, Asn1ParseError>(d),
        Err(Failure::Empty) => r == Err::<DetectAsn1Data, Asn1ParseError>(
            Asn1ParseError::EmptyInput,
        ),
        Err(Failure::Overflow) => r == Err::<DetectAsn1Data, Asn1ParseError>(
            Asn1ParseError::NumericOverflow,
        ),
        Err(Failure::Unrecognized(rest)) => r matches Err(
            Asn1ParseError::UnrecognizedOption { offset },
        ) && offset <= t.len() && t.skip(offset as int) == rest,
    }
}

/// Returns the end of the separator that starts at `p`.
fn separator_end(s: &[u8], p: usize) -> (e: usize)
    requires
        p <= s.len(),
    ensures
        e == p + separator_len(s@.skip(p as int)),
        e <= s.len(),
{
    let w = run_end(s, p, ByteClass::Space);
    if w > p {
        w
    } else if p < s.len() && s[p] == 0x2c {
        p + 1
    } else {
        p
    }
}

/// Parses the option text `s`.
pub fn parse_bytes(s: &[u8]) -> (r: Result<DetectAsn1Data, Asn1ParseError>)
    ensures
        parse_result(s@, r),
{
    if s.len() == 0 {
        return Err(Asn1ParseError::EmptyInput);
    }
    let mut d = DetectAsn1Data::default();
    let mut p: usize = 0;
    assert(s@.skip(0) =~= s@);
    while p < s.len()
        invariant
            p <= s.len(),
            parse_clauses(s@.skip(p as int), d) == parse_clauses(s@, DetectAsn1Data::initial()),
        decreases s.len() - p,
    {
        let ghost t = s@.skip(p as int);
        let q = run_end(s, p, ByteClass::Space);
        assert(t.skip(q - p) =~= s@.skip(q as int));
        let scan = scan_clause_at(s, q);
        proof {
            lemma_scan_len(s@.skip(q as int));
        }
        match scan {
            ClauseScan::Found(c, n) => {
                let e = q + n;
                assert(s@.skip(q as int).skip(n as int) =~= s@.skip(e as int));
                let f = separator_end(s, e);
                assert(s@.skip(e as int).skip(f - e) =~= s@.skip(f as int));
                d.apply(c);
                p = f;
            },
            ClauseScan::Overflow => {
                return Err(Asn1ParseError::NumericOverflow);
            },
            ClauseScan::Missing => {
                return Err(Asn1ParseError::UnrecognizedOption { offset: p });
            },
        }
    }
    assert(s@.skip(p as int).len() == 0);
    Ok(d)
}

/// Parses the options of the `asn1` keyword.
pub fn asn1_parse_rule(input: &str) -> (r: Result<DetectAsn1Data, Asn1ParseError>)
    ensures
        parse_result(input.spec_bytes(), r),
{
    parse_bytes(input.as_bytes())
}

} // verus!

use crate::grammar::{decimal_u32, decimal_value, lemma_run_len_bound, run_end, run_len, ByteClass};
use crate::options::DetectAsn1Data;
use crate::parser::{parse_options, parse_result, Asn1ParseError};
use vstd::prelude::*;
use vstd::string::StringSliceAdditionalSpecFns;
use vstd::utf8::valid_utf8;

verus! {

/// The frame count that a configured value gives, read the way `u16::from_str`
/// reads it: an optional `+`, then one or more decimal digits and nothing else,
/// worth at most 65535.
pub open spec fn max_frames_value(t: Seq<u8>) -> Option<u16> {
    let m = if t.len() > 0 && t[0] == 0x2b { 1int } else { 0int };
    let ds = t.skip(m);
    if ds.len() > 0 && run_len(ds, ByteClass::Digit) == ds.len() && decimal_value(ds) <= u16::MAX {
        Some(decimal_value(ds) as u16)
    } else {
        None
    }
}

/// The options once the configured frame count, if any, is applied. A value
/// that does not read as a frame count leaves the options unchanged.
pub open spec fn configured(d: DetectAsn1Data, conf: Option<&str>) -> DetectAsn1Data {
    match conf {
        Some(v) => match max_frames_value(v.spec_bytes()) {
            Some(m) => DetectAsn1Data { max_frames: m, ..d },
            None => d,
        },
        None => d,
    }
}

/// Reads a configured frame count.
pub fn parse_max_frames(v: &str) -> (r: Option<u16>)
    ensures
        r == max_frames_value(v.spec_bytes()),
{
    let s = v.as_bytes();
    let m: usize = if s.len() > 0 && s[0] == 0x2b {
        1
    } else {
        0
    };
    if m == s.len() {
        return None;
    }
    let e = run_end(s, m, ByteClass::Digit);
    let ghost ds = s@.skip(m as int);
    if e != s.len() {
        return None;
    }
    proof {
        lemma_run_len_bound(ds, ByteClass::Digit);
        assert(s@.subrange(m as int, e as int) =~= ds);
        assert forall|j: int| m <= j < e implies crate::grammar::in_class(
            #[trigger] s@[j],
            ByteClass::Digit,
        ) by {
            assert(s@[j] == ds[j - m]);
        }
    }
    match decimal_u32(s, m, e) {
        Some(x) => {
            if x <= 65535 {
                Some(x as u16)
            } else {
                None
            }
        },
        None => None,
    }
}

/// Applies a configured frame count to `d`, as [`configured`] says.
pub fn apply_max_frames(d: &mut DetectAsn1Data, conf: Option<&str>)
    ensures
        *final(d) == configured(*old(d), conf),
{
    if let Some(v) = conf {
        if let Some(m) = parse_max_frames(v) {
            d.max_frames = m;
        }
    }
}

/// Relies on `std::str::from_utf8`: it succeeds exactly on well-formed UTF-8,
/// and the text it returns holds the same bytes.
#[verifier::external_body]
fn utf8_text(b: &[u8]) -> (r: Option<&str>)
    ensures
        r is Some <==> valid_utf8(b@),
        r is Some ==> r->0.spec_bytes() == b@,
{
    std::str::from_utf8(b).ok()
}

/// Parses raw option bytes: rejects malformed UTF-8, parses the text, and on
/// success applies the configured frame count `max_frames_conf`.
pub fn detect_asn1_parse(input: &[u8], max_frames_conf: Option<&str>) -> (r: Result<
    DetectAsn1Data,
    Asn1ParseError,
>)
    ensures
        !valid_utf8(input@) ==> r == Err::<DetectAsn1Data, Asn1ParseError>(
            Asn1ParseError::InvalidEncoding,
        ),
        valid_utf8(input@) && parse_options(input@) is Ok ==> r == Ok::<
            DetectAsn1Data,
            Asn1ParseError,
        >(configured(parse_options(input@)->Ok_0, max_frames_conf)),
        valid_utf8(input@) && parse_options(input@) is Err ==> parse_result(input@, r),
{
    let text = match utf8_text(input) {
        Some(t) => t,
        None => return Err(Asn1ParseError::InvalidEncoding),
    };
    match crate::parser::asn1_parse_rule(text) {
        Ok(d) => {
            let mut d = d;
            apply_max_frames(&mut d, max_frames_conf);
            Ok(d)
        },
        Err(e) => Err(e),
    }
}

} // verus!

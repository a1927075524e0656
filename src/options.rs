use vstd::prelude::*;

verus! {

/// Number of ASN.1 frames inspected when the configuration does not say otherwise.
pub const ASN1_DEFAULT_MAX_FRAMES: u16 = 30;

/// Parsed options of the `asn1` keyword.
#[derive(Debug, Clone, Copy, PartialEq, Eq)]
pub struct DetectAsn1Data {
    pub bitstring_overflow: bool,
    pub double_overflow: bool,
    pub oversize_length: Option<u32>,
    pub absolute_offset: Option<u32>,
    pub relative_offset: Option<i32>,
    pub max_frames: u16,
}

/// One recognized clause of the option text, with its argument.
#[derive(Debug, Clone, Copy, PartialEq, Eq)]
pub enum Clause {
    BitstringOverflow,
    DoubleOverflow,
    OversizeLength(u32),
    AbsoluteOffset(u32),
    RelativeOffset(i32),
}

impl DetectAsn1Data {
    /// The options before any clause is applied.
    pub open spec fn initial() -> DetectAsn1Data {
        DetectAsn1Data {
            bitstring_overflow: false,
            double_overflow: false,
            oversize_length: None,
            absolute_offset: None,
            relative_offset: None,
            max_frames: ASN1_DEFAULT_MAX_FRAMES,
        }
    }

    /// The options after `c` is applied: the field that `c` names is overwritten.
    pub open spec fn with_clause(self, c: Clause) -> DetectAsn1Data {
        match c {
            Clause::BitstringOverflow => DetectAsn1Data { bitstring_overflow: true, ..self },
            Clause::DoubleOverflow => DetectAsn1Data { double_overflow: true, ..self },
            Clause::OversizeLength(v) => DetectAsn1Data { oversize_length: Some(v), ..self },
            Clause::AbsoluteOffset(v) => DetectAsn1Data { absolute_offset: Some(v), ..self },
            Clause::RelativeOffset(v) => DetectAsn1Data { relative_offset: Some(v), ..self },
        }
    }

    /// Records clause `c`, overwriting an earlier value of the same field.
    pub fn apply(&mut self, c: Clause)
        ensures
            *final(self) == old(self).with_clause(c),
    {
        match c {
            Clause::BitstringOverflow => self.bitstring_overflow = true,
            Clause::DoubleOverflow => self.double_overflow = true,
            Clause::OversizeLength(v) => self.oversize_length = Some(v),
            Clause::AbsoluteOffset(v) => self.absolute_offset = Some(v),
            Clause::RelativeOffset(v) => self.relative_offset = Some(v),
        }
    }
}

impl Default for DetectAsn1Data {
    fn default() -> (r: DetectAsn1Data)
        ensures
            r == DetectAsn1Data::initial(),
    {
        DetectAsn1Data {
            bitstring_overflow: false,
            double_overflow: false,
            oversize_length: None,
            absolute_offset: None,
            relative_offset: None,
            max_frames: ASN1_DEFAULT_MAX_FRAMES,
        }
    }
}

} // verus!

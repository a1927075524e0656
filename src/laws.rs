use crate::grammar::{
    argument, in_class, keyword_bytes, lemma_run_len_bound, run_len, scan_clause, signed_number,
    starts_with, unsigned_number, Arg, ByteClass, Keyword, Scan,
};
use crate::options::{Clause, DetectAsn1Data};
use crate::parser::{parse_clauses, parse_options, parse_result, separator_len, Asn1ParseError};
use vstd::prelude::*;

verus! {

/// `t` is exactly one clause, `c`, with nothing before or after it.
pub open spec fn single_clause(t: Seq<u8>, c: Clause) -> bool {
    scan_clause(t) == Scan::Found(c, t.len())
}

/// `sep` is one separator between two clauses: a run of whitespace, or a
/// comma followed by any whitespace.
pub open spec fn is_joiner(sep: Seq<u8>) -> bool {
    &&& sep.len() > 0
    &&& (in_class(sep[0], ByteClass::Space) || sep[0] == 0x2c)
    &&& forall|j: int| 1 <= j < sep.len() ==> in_class(#[trigger] sep[j], ByteClass::Space)
}

/// The field of the options that a clause sets.
pub open spec fn field_of(c: Clause) -> int {
    match c {
        Clause::BitstringOverflow => 0,
        Clause::DoubleOverflow => 1,
        Clause::OversizeLength(_) => 2,
        Clause::AbsoluteOffset(_) => 3,
        Clause::RelativeOffset(_) => 4,
    }
}

proof fn lemma_run_len_concat(a: Seq<u8>, b: Seq<u8>, c: ByteClass)
    ensures
        run_len(a + b, c) == if run_len(a, c) < a.len() {
            run_len(a, c)
        } else {
            a.len() + run_len(b, c)
        },
    decreases a.len(),
{
    lemma_run_len_bound(a, c);
    if a.len() == 0 {
        assert(a + b =~= b);
    } else {
        lemma_run_len_concat(a.drop_first(), b, c);
        assert((a + b).drop_first() =~= a.drop_first() + b);
    }
}

proof fn lemma_unsigned_frame(b: Seq<u8>, rest: Seq<u8>)
    requires
        unsigned_number(b) matches Arg::Num(_, n) && n == b.len(),
        rest.len() == 0 || !in_class(rest[0], ByteClass::Digit),
    ensures
        unsigned_number(b + rest) == unsigned_number(b),
{
    lemma_run_len_concat(b, rest, ByteClass::Digit);
    if rest.len() > 0 {
        assert(run_len(rest, ByteClass::Digit) == 0);
    }
    assert((b + rest).take(b.len() as int) =~= b.take(b.len() as int));
}

proof fn lemma_signed_frame(b: Seq<u8>, rest: Seq<u8>)
    requires
        signed_number(b) matches Arg::Num(_, n) && n == b.len(),
        rest.len() == 0 || !in_class(rest[0], ByteClass::Digit),
    ensures
        signed_number(b + rest) == signed_number(b),
{
    let neg = b.len() > 0 && b[0] == 0x2d;
    let m: int = if neg { 1 } else { 0 };
    crate::grammar::lemma_number_len(b.skip(m), false);
    assert((b + rest).skip(m) =~= b.skip(m) + rest);
    lemma_unsigned_frame(b.skip(m), rest);
}

proof fn lemma_argument_frame(a: Seq<u8>, rest: Seq<u8>, signed: bool)
    requires
        argument(a, signed) matches Arg::Num(_, n) && n == a.len(),
        rest.len() == 0 || !in_class(rest[0], ByteClass::Digit),
    ensures
        argument(a + rest, signed) == argument(a, signed),
{
    let w = run_len(a, ByteClass::Space);
    let b = a.skip(w as int);
    crate::grammar::lemma_number_len(b, signed);
    lemma_run_len_bound(a, ByteClass::Space);
    lemma_run_len_concat(a, rest, ByteClass::Space);
    assert((a + rest).skip(w as int) =~= b + rest);
    if signed {
        lemma_signed_frame(b, rest);
    } else {
        lemma_unsigned_frame(b, rest);
    }
}

proof fn lemma_keyword_heads()
    ensures
        keyword_bytes(Keyword::BitstringOverflow)[0] == 0x62,
        keyword_bytes(Keyword::DoubleOverflow)[0] == 0x64,
        keyword_bytes(Keyword::OversizeLength)[0] == 0x6f,
        keyword_bytes(Keyword::AbsoluteOffset)[0] == 0x61,
        keyword_bytes(Keyword::RelativeOffset)[0] == 0x72,
{
}

proof fn lemma_starts_head(t: Seq<u8>)
    ensures
        forall|k: Keyword| #[trigger]
            starts_with(t, keyword_bytes(k)) ==> t.len() > 0 && t[0] == keyword_bytes(k)[0],
{
    assert forall|k: Keyword| #[trigger] starts_with(t, keyword_bytes(k)) implies t.len() > 0
        && t[0] == keyword_bytes(k)[0] by {
        crate::grammar::lemma_keyword_len(k);
        assert(t.take(keyword_bytes(k).len() as int)[0] == t[0]);
    }
}

/// A whole clause followed by a byte that is not a digit scans the same way.
proof fn lemma_clause_frame(t: Seq<u8>, c: Clause, rest: Seq<u8>)
    requires
        single_clause(t, c),
        rest.len() == 0 || !in_class(rest[0], ByteClass::Digit),
    ensures
        scan_clause(t + rest) == scan_clause(t),
        t.len() > 0 && !in_class(t[0], ByteClass::Space),
{
    reveal(scan_clause);
    lemma_keyword_heads();
    crate::grammar::lemma_keyword_len(Keyword::BitstringOverflow);
    crate::grammar::lemma_keyword_len(Keyword::DoubleOverflow);
    crate::grammar::lemma_keyword_len(Keyword::OversizeLength);
    crate::grammar::lemma_keyword_len(Keyword::AbsoluteOffset);
    crate::grammar::lemma_keyword_len(Keyword::RelativeOffset);
    let x = t + rest;
    assert forall|k: Keyword| #[trigger] starts_with(t, keyword_bytes(k)) ==> starts_with(
        x,
        keyword_bytes(k),
    ) by {
        if starts_with(t, keyword_bytes(k)) {
            assert(x.take(keyword_bytes(k).len() as int) =~= t.take(
                keyword_bytes(k).len() as int,
            ));
        }
    }
    assert forall|k: Keyword| #[trigger] starts_with(x, keyword_bytes(k)) ==> starts_with(
        t,
        keyword_bytes(k),
    ) by {
        if starts_with(x, keyword_bytes(k)) {
            assert(x[0] == keyword_bytes(k)[0]);
            assert(t[0] == x[0]);
            assert(t.take(15)[0] == t[0]);
            assert(x.take(keyword_bytes(k).len() as int) =~= t.take(
                keyword_bytes(k).len() as int,
            ));
        }
    }
    // Each keyword that takes an argument is 15 bytes long.
    let a = t.skip(15);
    assert(x.skip(15) =~= a + rest);
    lemma_starts_head(t);
    if starts_with(t, keyword_bytes(Keyword::OversizeLength)) || starts_with(
        t,
        keyword_bytes(Keyword::AbsoluteOffset),
    ) {
        lemma_argument_frame(a, rest, false);
    }
    if starts_with(t, keyword_bytes(Keyword::RelativeOffset)) {
        lemma_argument_frame(a, rest, true);
    }
    assert(t[0] == t.take(15)[0]);
}

proof fn lemma_run_len_full(a: Seq<u8>, c: ByteClass)
    requires
        forall|j: int| 0 <= j < a.len() ==> in_class(#[trigger] a[j], c),
    ensures
        run_len(a, c) == a.len(),
    decreases a.len(),
{
    if a.len() > 0 {
        assert forall|j: int| 0 <= j < a.drop_first().len() implies in_class(
            #[trigger] a.drop_first()[j],
            c,
        ) by {
            assert(a.drop_first()[j] == a[j + 1]);
        }
        lemma_run_len_full(a.drop_first(), c);
    }
}

/// Whitespace and then one whole clause: the clause is applied and the text is used up.
proof fn lemma_parse_last(pre: Seq<u8>, t2: Seq<u8>, c2: Clause, d: DetectAsn1Data)
    requires
        forall|j: int| 0 <= j < pre.len() ==> in_class(#[trigger] pre[j], ByteClass::Space),
        single_clause(t2, c2),
    ensures
        parse_clauses(pre + t2, d) == Ok::<DetectAsn1Data, crate::parser::Failure>(
            d.with_clause(c2),
        ),
{
    let empty = Seq::<u8>::empty();
    lemma_clause_frame(t2, c2, empty);
    lemma_run_len_full(pre, ByteClass::Space);
    lemma_run_len_concat(pre, t2, ByteClass::Space);
    let y = pre + t2;
    assert(y.skip(pre.len() as int) =~= t2);
    let v = t2.skip(t2.len() as int);
    assert(v =~= empty);
    assert(separator_len(v) == 0);
    assert(v.skip(0) =~= empty);
    assert(parse_clauses(v.skip(0), d.with_clause(c2)) == Ok::<
        DetectAsn1Data,
        crate::parser::Failure,
    >(d.with_clause(c2)));
}

/// Two clauses joined by one separator give the defaults with the first clause
/// applied, then the second.
pub proof fn law_two_clauses(t1: Seq<u8>, c1: Clause, sep: Seq<u8>, t2: Seq<u8>, c2: Clause)
    requires
        single_clause(t1, c1),
        single_clause(t2, c2),
        is_joiner(sep),
    ensures
        parse_options(t1 + sep + t2) == Ok::<DetectAsn1Data, crate::parser::Failure>(
            DetectAsn1Data::initial().with_clause(c1).with_clause(c2),
        ),
{
    let d = DetectAsn1Data::initial();
    let x = t1 + sep + t2;
    let rest = sep + t2;
    assert(x =~= t1 + rest);
    assert(rest[0] == sep[0]);
    lemma_clause_frame(t1, c1, rest);
    assert(x[0] == t1[0]);
    assert(run_len(x, ByteClass::Space) == 0);
    assert(x.skip(0) =~= x);
    assert(x.skip(t1.len() as int) =~= rest);
    lemma_run_len_concat(sep, t2, ByteClass::Space);
    lemma_clause_frame(t2, c2, Seq::<u8>::empty());
    assert(t2 =~= t2 + Seq::<u8>::empty());
    if in_class(sep[0], ByteClass::Space) {
        lemma_run_len_full(sep, ByteClass::Space);
        assert(separator_len(rest) == sep.len());
        assert(rest.skip(sep.len() as int) =~= Seq::<u8>::empty() + t2);
        lemma_parse_last(Seq::<u8>::empty(), t2, c2, d.with_clause(c1));
    } else {
        let pre = sep.skip(1);
        assert(separator_len(rest) == 1);
        assert(rest.skip(1) =~= pre + t2);
        lemma_parse_last(pre, t2, c2, d.with_clause(c1));
    }
}

/// Which separator joins two clauses does not change the result.
pub proof fn law_separator_choice(
    t1: Seq<u8>,
    c1: Clause,
    sep_a: Seq<u8>,
    sep_b: Seq<u8>,
    t2: Seq<u8>,
    c2: Clause,
)
    requires
        single_clause(t1, c1),
        single_clause(t2, c2),
        is_joiner(sep_a),
        is_joiner(sep_b),
    ensures
        parse_options(t1 + sep_a + t2) == parse_options(t1 + sep_b + t2),
{
    law_two_clauses(t1, c1, sep_a, t2, c2);
    law_two_clauses(t1, c1, sep_b, t2, c2);
}

/// Two clauses that set different fields give the same options in either order.
pub proof fn law_order_independent(
    t1: Seq<u8>,
    c1: Clause,
    sep_a: Seq<u8>,
    sep_b: Seq<u8>,
    t2: Seq<u8>,
    c2: Clause,
)
    requires
        single_clause(t1, c1),
        single_clause(t2, c2),
        field_of(c1) != field_of(c2),
        is_joiner(sep_a),
        is_joiner(sep_b),
    ensures
        parse_options(t1 + sep_a + t2) == parse_options(t2 + sep_b + t1),
{
    law_two_clauses(t1, c1, sep_a, t2, c2);
    law_two_clauses(t2, c2, sep_b, t1, c1);
}

/// Parsing is deterministic: any two results that the contract of the parser
/// allows for one text are equal.
pub proof fn law_deterministic(
    t: Seq<u8>,
    r1: Result<DetectAsn1Data, Asn1ParseError>,
    r2: Result<DetectAsn1Data, Asn1ParseError>,
)
    requires
        parse_result(t, r1),
        parse_result(t, r2),
    ensures
        r1 == r2,
{
    if let Err(crate::parser::Failure::Unrecognized(rest)) = parse_options(t) {
        if let (
            Err(Asn1ParseError::UnrecognizedOption { offset: o1 }),
            Err(Asn1ParseError::UnrecognizedOption { offset: o2 }),
        ) = (r1, r2) {
            assert(t.skip(o1 as int).len() == t.skip(o2 as int).len());
        }
    }
}

} // verus!

//! The crate's assumptions about the outside crates it calls.
//!
//! Each item here either declares an outside type or wraps one outside call
//! and states, as a contract Verus believes without proof, what that call's
//! own source and documentation promise.

use vstd::prelude::*;

use crate::model::{all_digits, dec_value, find_byte, find_byte3};

verus! {

/// `shakmaty`'s parsed SAN-with-suffix value.  The reader carries it
/// opaquely: it is produced by `shakmaty`'s parser and handed to the visitor
/// unread.
#[verifier::external_type_specification]
#[verifier::external_body]
pub struct ExSanPlus(shakmaty::san::SanPlus);

/// Relies on `shakmaty::san::SanPlus`'s derived `Clone`: the type is `Copy`,
/// so cloning returns the value itself.
pub assume_specification[ <shakmaty::san::SanPlus as Clone>::clone ](
    v: &shakmaty::san::SanPlus,
) -> (r: shakmaty::san::SanPlus)
    ensures
        r == *v,
;

/// Whether `shakmaty`'s SAN parser accepts these bytes.  The parse is a
/// function of the bytes alone, so acceptance can be given a name even
/// though stating it exactly would reproduce the whole SAN grammar.
pub uninterp spec fn san_ok(s: Seq<u8>) -> bool;

/// Relies on `shakmaty::san::SanPlus::from_ascii`: parses an ASCII SAN token
/// with optional check or checkmate suffix; whether it succeeds depends on
/// the bytes alone.
#[verifier::external_body]
pub(crate) fn parse_san(tok: &[u8]) -> (r: Option<shakmaty::san::SanPlus>)
    ensures
        r is Some <==> san_ok(tok@),
{
    shakmaty::san::SanPlus::from_ascii(tok).ok()
}

/// Relies on `memchr::memchr`: returns the least index of `needle` in
/// `hay`, or `None` if `needle` does not occur.
#[verifier::external_body]
pub(crate) fn find_first(needle: u8, hay: &[u8]) -> (r: Option<usize>)
    ensures
        match r {
            Some(p) => p == find_byte(hay@, needle, 0) && p < hay@.len(),
            None => find_byte(hay@, needle, 0) == hay@.len(),
        },
{
    memchr::memchr(needle, hay)
}

/// Relies on `memchr::memchr3`: returns the least index in `hay` holding
/// any of the three needles, or `None` if none occurs.
#[verifier::external_body]
pub(crate) fn find_first3(n1: u8, n2: u8, n3: u8, hay: &[u8]) -> (r: Option<usize>)
    ensures
        match r {
            Some(p) => p == find_byte3(hay@, n1, n2, n3, 0) && p < hay@.len(),
            None => find_byte3(hay@, n1, n2, n3, 0) == hay@.len(),
        },
{
    memchr::memchr3(n1, n2, n3, hay)
}

/// Relies on `btoi::btou` at `u16`: succeeds exactly on a nonempty,
/// all-digit slice whose decimal value fits the type, and then returns that
/// value.
#[verifier::external_body]
pub(crate) fn parse_u16(digits: &[u8]) -> (r: Option<u16>)
    ensures
        match r {
            Some(v) => digits@.len() > 0 && all_digits(digits@) && dec_value(digits@) == v,
            None => !(digits@.len() > 0 && all_digits(digits@) && dec_value(digits@) <= u16::MAX),
        },
{
    btoi::btou(digits).ok()
}

} // verus!

//! Decoding a whole bencoded input.

use vstd::prelude::*;

use crate::data_type::DataType;
use crate::parser::{Parser, parse_value_at};
use crate::laws::lemma_parse_value_wf;
use crate::value::Value;

verus! {

/// The value at the start of the input; what follows it is ignored.
pub open spec fn spec_decode(s: Seq<u8>) -> Option<Value> {
    match parse_value_at(s, 0) {
        Some((v, _)) => Some(v),
        None => None,
    }
}

/// Decodes the value at the start of `s`.
pub fn decode(s: &[u8]) -> (res: DataType)
    requires
        spec_decode(s@) is Some,
    ensures
        spec_decode(s@) == Some(res@),
        res@.wf(),
{
    proof {
        lemma_parse_value_wf(s@, 0);
    }
    Parser { position: 0, input: s }.parse()
}

/// Decodes the value at the start of `s`; `None` where `s` does not start
/// with a complete value.
pub fn try_decode(s: &[u8]) -> (res: Option<DataType>)
    ensures
        res is Some <==> spec_decode(s@) is Some,
        res matches Some(v) ==> spec_decode(s@) == Some(v@) && v@.wf(),
{
    proof {
        lemma_parse_value_wf(s@, 0);
    }
    let mut parser = Parser { position: 0, input: s };
    parser.try_parse()
}

} // verus!

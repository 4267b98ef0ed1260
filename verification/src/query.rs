//! Building the query for the address records of a domain.

use crate::buffer::be16;
use crate::buffer::buffer_to_vec;
use crate::buffer::buffer_with_capacity;
use crate::buffer::put_slice;
use crate::buffer::put_u16;
use crate::error::DnsError;
use crate::message::CLASS_IN;
use crate::message::FLAGS_RECURSION_DESIRED;
use crate::message::TYPE_A;
use crate::name::encode_name;
use crate::name::encode_spec;
use crate::name::valid_name;
use vstd::prelude::*;
use vstd::string::StringSliceAdditionalSpecFns;

verus! {

/// The room that a query's buffer is given at first.
pub const QUERY_CAPACITY: usize = 512;

/// The flags of a query: a standard query, with the RD bit as asked for and
/// every other bit clear.
pub open spec fn query_flags(recursion_desired: bool) -> u16 {
    if recursion_desired {
        FLAGS_RECURSION_DESIRED
    } else {
        0
    }
}

/// The bytes of a query for the address records of `name`: the header with
/// the transaction id, the flags, one question and no other entry, then the
/// question with the encoded name, type A and class IN.
pub open spec fn query_bytes(name: Seq<u8>, transaction_id: u16, recursion_desired: bool) -> Seq<
    u8,
> {
    be16(transaction_id) + be16(query_flags(recursion_desired)) + be16(1) + be16(0) + be16(0)
        + be16(0) + encode_spec(name) + be16(TYPE_A) + be16(CLASS_IN)
}

/// Builds the query for the address records of `domain`. A domain that is
/// not a valid name is refused.
pub fn build_query(domain: &str, transaction_id: u16, recursion_desired: bool) -> (r: Result<
    Vec<u8>,
    DnsError,
>)
    ensures
        match r {
            Ok(bytes) => valid_name(domain.spec_bytes()) && bytes@ == query_bytes(
                domain.spec_bytes(),
                transaction_id,
                recursion_desired,
            ),
            Err(e) => !valid_name(domain.spec_bytes()) && e == DnsError::InvalidName,
        },
{
    let name = match encode_name(domain) {
        Ok(bytes) => bytes,
        Err(e) => {
            return Err(e);
        },
    };
    let flags = if recursion_desired {
        FLAGS_RECURSION_DESIRED
    } else {
        0
    };
    let mut packet = buffer_with_capacity(QUERY_CAPACITY);
    put_u16(&mut packet, transaction_id);
    put_u16(&mut packet, flags);
    put_u16(&mut packet, 1);
    put_u16(&mut packet, 0);
    put_u16(&mut packet, 0);
    put_u16(&mut packet, 0);
    put_slice(&mut packet, name.as_slice());
    put_u16(&mut packet, TYPE_A);
    put_u16(&mut packet, CLASS_IN);
    Ok(buffer_to_vec(&packet))
}

} // verus!

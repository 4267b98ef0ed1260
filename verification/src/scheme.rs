//! Taking the URL scheme off what the user typed.

use vstd::prelude::*;
use vstd::string::StringSliceAdditionalSpecFns;
use vstd::utf8::encode_utf8_valid_utf8;
use vstd::utf8::is_char_boundary;
use vstd::utf8::pop_first_scalar;
use vstd::utf8::valid_utf8;

verus! {

/// The length of the scheme prefix that is taken off.
pub const SCHEME_LEN: usize = 8;

/// The scheme prefix that is taken off a domain: the bytes of `https://`.
pub open spec fn scheme_prefix() -> Seq<u8> {
    seq![0x68u8, 0x74u8, 0x74u8, 0x70u8, 0x73u8, 0x3Au8, 0x2Fu8, 0x2Fu8]
}

/// Whether `input` begins with the scheme prefix.
pub open spec fn has_scheme(input: Seq<u8>) -> bool {
    input.len() >= SCHEME_LEN && input.take(SCHEME_LEN as int) == scheme_prefix()
}

/// The domain that is looked up for `input`: what follows the scheme
/// prefix where the input begins with it, else the input as it is. No
/// other scheme is taken off.
pub open spec fn strip_scheme_spec(input: Seq<u8>) -> Seq<u8> {
    if has_scheme(input) {
        input.skip(SCHEME_LEN as int)
    } else {
        input
    }
}

/// Behind a run of one-byte characters at its front, a text can be split.
proof fn lemma_boundary_behind_ascii(bytes: Seq<u8>, n: int)
    requires
        valid_utf8(bytes),
        0 <= n <= bytes.len(),
        forall|i: int| 0 <= i < n ==> bytes[i] < 0x80,
    ensures
        is_char_boundary(bytes, n),
    decreases n,
{
    if n > 0 {
        let rest = pop_first_scalar(bytes);
        assert(forall|i: int| 0 <= i < n - 1 ==> rest[i] == bytes[i + 1]);
        lemma_boundary_behind_ascii(rest, n - 1);
    }
}

/// Takes the scheme prefix `https://` off a domain that begins with it.
/// Any other input, one that begins with `http://` too, is handed back as
/// it is.
pub fn strip_scheme(input: &str) -> (domain: &str)
    ensures
        domain.spec_bytes() == strip_scheme_spec(input.spec_bytes()),
{
    let bytes = input.as_bytes();
    if bytes.len() >= SCHEME_LEN && bytes[0] == 0x68 && bytes[1] == 0x74 && bytes[2] == 0x74
        && bytes[3] == 0x70 && bytes[4] == 0x73 && bytes[5] == 0x3A && bytes[6] == 0x2F
        && bytes[7] == 0x2F {
        proof {
            encode_utf8_valid_utf8(input@);
            lemma_boundary_behind_ascii(bytes@, SCHEME_LEN as int);
            assert(bytes@.take(SCHEME_LEN as int) == scheme_prefix());
        }
        let (_, domain) = input.split_at(SCHEME_LEN);
        domain
    } else {
        input
    }
}

} // verus!

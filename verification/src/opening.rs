//! Deterministic opening move from an external token.
//!
//! When a fresh game starts, the first move comes from an opaque external
//! token (for example a commit hash): the hexadecimal digit values of the
//! token are summed and reduced modulo nine, and the result is decoded as a
//! row-major board position.  Identical tokens always map to the same
//! position.

use vstd::prelude::*;

verus! {

/// Whether `c` is a hexadecimal digit.
pub open spec fn is_hex_digit(c: char) -> bool {
    ('0' <= c && c <= '9') || ('a' <= c && c <= 'f') || ('A' <= c && c <= 'F')
}

/// The value of a hexadecimal digit.
pub open spec fn hex_val(c: char) -> nat {
    if '0' <= c && c <= '9' {
        (c as int - 48) as nat
    } else if 'a' <= c && c <= 'f' {
        (c as int - 97 + 10) as nat
    } else {
        (c as int - 65 + 10) as nat
    }
}

/// The sum of the hexadecimal digit values of a token.
pub open spec fn hex_sum(s: Seq<char>) -> nat
    decreases s.len(),
{
    if s.len() == 0 {
        0
    } else {
        hex_sum(s.drop_last()) + hex_val(s.last())
    }
}

/// Maps an external token to a board position: the sum of its hexadecimal
/// digit values modulo nine, decoded row-major.  The token must consist of
/// hexadecimal digits only and be short enough for the sum to fit a
/// machine word.
pub fn get_position(token: &str) -> (r: (u8, u8))
    requires
        forall|i: int| 0 <= i < token@.len() ==> is_hex_digit(#[trigger] token@[i]),
        token@.len() <= 0xFFFF_FFFF,
    ensures
        r.0 == (hex_sum(token@) % 9) / 3,
        r.1 == (hex_sum(token@) % 9) % 3,
        r.0 < 3 && r.1 < 3,
{
    proof {
        assert(vstd::string::is_ascii(token)) by {
            assert forall|i: int| 0 <= i < token@.len() implies '\0' <= #[trigger] token@[i]
                <= '\u{7f}' by {
                assert(is_hex_digit(token@[i]));
            }
        }
        broadcast use vstd::string::is_ascii_spec_bytes;

    }
    let bytes = token.as_bytes();
    let ghost tv = token@;
    let mut sum: u64 = 0;
    let mut i: usize = 0;
    while i < bytes.len()
        invariant
            bytes@.len() == tv.len(),
            forall|j: int| 0 <= j < tv.len() ==> bytes@[j] == #[trigger] tv[j] as u8,
            forall|j: int| 0 <= j < tv.len() ==> is_hex_digit(#[trigger] tv[j]),
            tv.len() <= 0xFFFF_FFFF,
            i <= tv.len(),
            sum as nat == hex_sum(tv.take(i as int)),
            sum <= 15 * i,
        decreases tv.len() - i,
    {
        let b = bytes[i];
        proof {
            let c = tv[i as int];
            assert(b == c as u8);
            assert(is_hex_digit(c));
            assert((48 <= b && b <= 57) || (97 <= b && b <= 102) || (65 <= b && b <= 70));
        }
        let v: u8 = if b >= 97 {
            b - 97 + 10
        } else if b >= 65 {
            b - 65 + 10
        } else {
            b - 48
        };
        proof {
            let c = tv[i as int];
            assert(b == c as u8);
            assert(v as nat == hex_val(c));
            assert(tv.take(i + 1).drop_last() =~= tv.take(i as int));
            assert(tv.take(i + 1).last() == c);
        }
        sum = sum + v as u64;
        i += 1;
    }
    proof {
        assert(tv.take(tv.len() as int) =~= tv);
    }
    let idx: u8 = (sum % 9) as u8;
    (idx / 3, idx % 3)
}

} // verus!

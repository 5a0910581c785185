//! Theme values computed before they are applied to the page.

use vstd::prelude::*;
use vstd::utf8::{encode_utf8, is_continuation_byte};
use crate::text::{from_chars, nat_decimal, push_decimal};

verus! {

/// `bytes` without its leading `#` bytes.
pub open spec fn strip_hashes(bytes: Seq<u8>) -> Seq<u8>
    decreases bytes.len(),
{
    if bytes.len() > 0 && bytes[0] == 35 {
        strip_hashes(bytes.drop_first())
    } else {
        bytes
    }
}

/// The value of an ASCII hexadecimal digit (either case).
pub open spec fn hex_digit_value(b: u8) -> Option<nat> {
    if 48 <= b <= 57 {
        Some((b - 48) as nat)
    } else if 97 <= b <= 102 {
        Some((b - 87) as nat)
    } else if 65 <= b <= 70 {
        Some((b - 55) as nat)
    } else {
        None
    }
}

/// A two-byte piece read as a base-16 `u8` (an optional leading `+`, then
/// digits), or 0 when it is not one.
pub open spec fn hex_pair_value(a: u8, b: u8) -> nat {
    if a == 43 {
        match hex_digit_value(b) {
            Some(v) => v,
            None => 0,
        }
    } else {
        match (hex_digit_value(a), hex_digit_value(b)) {
            (Some(x), Some(y)) => 16 * x + y,
            _ => 0,
        }
    }
}

/// `0, 0, 0`
pub open spec fn black_triplet() -> Seq<char> {
    seq!['0', ',', ' ', '0', ',', ' ', '0']
}

/// Three numbers as `r, g, b`.
pub open spec fn triplet_text(r: nat, g: nat, b: nat) -> Seq<char> {
    nat_decimal(r) + seq![',', ' '] + nat_decimal(g) + seq![',', ' '] + nat_decimal(b)
}

/// The `r, g, b` triplet of a `#rrggbb` colour: the UTF-8 bytes of `hex`
/// without leading `#`s must number six and split into three valid
/// two-byte pieces (no piece boundary inside a character); each piece is
/// read as base 16, counting 0 when it does not parse. Anything else is black.
pub open spec fn spec_hex_to_rgb_triplet(hex: Seq<char>) -> Seq<char> {
    let h = strip_hashes(encode_utf8(hex));
    if h.len() != 6 || is_continuation_byte(h[2]) || is_continuation_byte(h[4]) {
        black_triplet()
    } else {
        triplet_text(hex_pair_value(h[0], h[1]), hex_pair_value(h[2], h[3]), hex_pair_value(h[4], h[5]))
    }
}

fn hex_digit_value_exec(b: u8) -> (r: Option<u8>)
    ensures
        match r {
            Some(v) => hex_digit_value(b) == Some(v as nat) && v < 16,
            None => hex_digit_value(b) is None,
        },
{
    if 48 <= b && b <= 57 {
        Some(b - 48)
    } else if 97 <= b && b <= 102 {
        Some(b - 87)
    } else if 65 <= b && b <= 70 {
        Some(b - 55)
    } else {
        None
    }
}

fn hex_pair_value_exec(a: u8, b: u8) -> (r: u8)
    ensures
        r as nat == hex_pair_value(a, b),
{
    if a == 43 {
        match hex_digit_value_exec(b) {
            Some(v) => v,
            None => 0,
        }
    } else {
        match (hex_digit_value_exec(a), hex_digit_value_exec(b)) {
            (Some(x), Some(y)) => 16 * x + y,
            _ => 0,
        }
    }
}

/// Converts a `#rrggbb` colour to the `r, g, b` triplet CSS `rgba()` takes,
/// falling back to `0, 0, 0` for anything that is not six hex digits.
pub fn hex_to_rgb_triplet(hex: &str) -> (r: String)
    ensures
        r@ == spec_hex_to_rgb_triplet(hex@),
{
    let bytes = hex.as_bytes();
    let ghost all = bytes@;
    let n = bytes.len();
    let mut i: usize = 0;
    proof {
        assert(all.skip(0) =~= all);
    }
    while i < n && bytes[i] == 35
        invariant
            i <= n,
            n == all.len(),
            bytes@ == all,
            all == encode_utf8(hex@),
            strip_hashes(all.skip(i as int)) == strip_hashes(all),
        decreases n - i,
    {
        proof {
            assert(all.skip(i as int).drop_first() =~= all.skip(i + 1));
        }
        i = i + 1;
    }
    let ghost h = all.skip(i as int);
    proof {
        assert(strip_hashes(h) == h);
    }
    if n - i != 6 || (bytes[i + 2] >= 0x80 && bytes[i + 2] <= 0xbf) || (bytes[i + 4] >= 0x80
        && bytes[i + 4] <= 0xbf) {
        let out = vec!['0', ',', ' ', '0', ',', ' ', '0'];
        proof {
            assert(out@ =~= black_triplet());
        }
        return from_chars(&out);
    }
    let r = hex_pair_value_exec(bytes[i], bytes[i + 1]);
    let g = hex_pair_value_exec(bytes[i + 2], bytes[i + 3]);
    let b = hex_pair_value_exec(bytes[i + 4], bytes[i + 5]);
    let mut out: Vec<char> = Vec::new();
    push_decimal(&mut out, r as u64);
    out.push(',');
    out.push(' ');
    push_decimal(&mut out, g as u64);
    out.push(',');
    out.push(' ');
    push_decimal(&mut out, b as u64);
    proof {
        assert(h[0] == bytes@[i as int] && h[1] == bytes@[i + 1]);
        assert(h[2] == bytes@[i + 2] && h[3] == bytes@[i + 3]);
        assert(h[4] == bytes@[i + 4] && h[5] == bytes@[i + 5]);
        assert(out@ =~= triplet_text(r as nat, g as nat, b as nat));
    }
    from_chars(&out)
}

} // verus!

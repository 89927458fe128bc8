//! The hex-dump text of a buffer: address-prefixed rows of upper-case byte pairs.
use vstd::prelude::*;
use crate::text::{hex_text, push_hex, zero_padded};

verus! {

/// The text that byte `i` of `bytes` contributes: a new row header when `i` starts a row, then
/// the byte as two upper-case hex digits, and a space after every second byte.
pub open spec fn dump_cell(bytes: Seq<u8>, start: nat, per_row: nat, i: nat) -> Seq<char> {
    let header = if i % per_row == 0 {
        seq!['\n'] + zero_padded(hex_text(start + i, false), 8) + seq![':', ' ']
    } else {
        Seq::empty()
    };
    let sep = if i % 2 == 1 {
        seq![' ']
    } else {
        Seq::empty()
    };
    header + zero_padded(hex_text(bytes[i as int] as nat, true), 2) + sep
}

/// The hex dump of the first `n` bytes of `bytes`, whose first byte sits at address `start`.
pub open spec fn dump_prefix(bytes: Seq<u8>, start: nat, per_row: nat, n: nat) -> Seq<char>
    decreases n,
{
    if n == 0 {
        Seq::empty()
    } else {
        dump_prefix(bytes, start, per_row, (n - 1) as nat) + dump_cell(
            bytes,
            start,
            per_row,
            (n - 1) as nat,
        )
    }
}

/// The hex dump of all of `bytes`.
pub open spec fn hex_dump(bytes: Seq<u8>, start: nat, per_row: nat) -> Seq<char> {
    dump_prefix(bytes, start, per_row, bytes.len())
}

/// Appends the hex text of `n`, padded with zeros to at least `width` digits.
fn push_hex_padded(out: &mut String, n: u64, width: usize, upper: bool)
    ensures
        final(out)@ == old(out)@ + zero_padded(hex_text(n as nat, upper), width as nat),
{
    let mut digits = String::new();
    push_hex(&mut digits, n, upper);
    let ghost t = hex_text(n as nat, upper);
    assert(digits@ =~= t);
    let len = digits.as_str().unicode_len();
    let ghost before = out@;
    let mut k: usize = len;
    while k < width
        invariant
            len == t.len(),
            len <= k,
            k <= width || k == len,
            out@ == before + Seq::new((k - len) as nat, |j: int| '0'),
        decreases width - k,
    {
        proof {
            reveal_strlit("0");
        }
        out.append("0");
        proof {
            assert(out@ =~= before + Seq::new((k + 1 - len) as nat, |j: int| '0'));
        }
        k = k + 1;
    }
    out.append(digits.as_str());
    proof {
        if len >= width {
            assert(out@ =~= before + t);
        } else {
            assert(out@ =~= before + (Seq::new((width - len) as nat, |j: int| '0') + t));
        }
    }
}

/// Formats `bytes` as hex-dump rows of `bytes_per_row` bytes each; `start_offset` is the address
/// of the first byte. Each row begins on a new line with its address as eight or more
/// lower-case hex digits and `: `.
pub fn formatted_binary(bytes: &[u8], start_offset: usize, bytes_per_row: usize) -> (r: String)
    requires
        bytes_per_row > 0,
        start_offset + bytes@.len() <= usize::MAX + 1,
    ensures
        r@ == hex_dump(bytes@, start_offset as nat, bytes_per_row as nat),
{
    let mut out = String::new();
    let mut i: usize = 0;
    while i < bytes.len()
        invariant
            bytes_per_row > 0,
            start_offset + bytes@.len() <= usize::MAX + 1,
            i <= bytes@.len(),
            out@ == dump_prefix(bytes@, start_offset as nat, bytes_per_row as nat, i as nat),
        decreases bytes@.len() - i,
    {
        let ghost before = out@;
        if i % bytes_per_row == 0 {
            proof {
                reveal_strlit("\n");
                reveal_strlit(": ");
            }
            out.append("\n");
            push_hex_padded(&mut out, (start_offset + i) as u64, 8, false);
            out.append(": ");
        }
        push_hex_padded(&mut out, bytes[i] as u64, 2, true);
        if i % 2 == 1 {
            proof {
                reveal_strlit(" ");
            }
            out.append(" ");
        }
        proof {
            assert(out@ =~= before + dump_cell(
                bytes@,
                start_offset as nat,
                bytes_per_row as nat,
                i as nat,
            ));
        }
        i = i + 1;
    }
    out
}

} // verus!

//! Decoding a byte buffer against a list of field descriptors.
//!
//! A pass starts at a given offset and walks the descriptors in order; each value of a run
//! takes the next `width` bytes. The pass either yields the decimal text of every value or
//! fails, as a whole, at the first value that does not fit in what is left of the buffer.
use vstd::prelude::*;
use vstd::arithmetic::div_mod::lemma_fundamental_div_mod_converse;
use crate::kind::{MultipleParseChar, ParseChar, width_of, is_signed};
use crate::text::{int_text, push_decimal};

verus! {

/// The order in which the bytes of one value are laid out.
#[derive(PartialEq, Eq, Structural, Debug, Clone, Copy)]
pub enum ByteOrder {
    /// Least significant byte first.
    Little,
    /// Most significant byte first.
    Big,
}

/// Why a decode pass failed.
#[derive(PartialEq, Eq, Structural, Debug, Clone, Copy)]
pub enum DecodeError {
    /// A value of field `field_index` needed `requested` bytes where only `available` were left.
    InsufficientBytes { requested: usize, available: usize, field_index: usize },
}

pub open spec fn pow256(n: nat) -> nat
    decreases n,
{
    if n == 0 {
        1
    } else {
        256 * pow256((n - 1) as nat)
    }
}

/// The unsigned value of `b`, least significant byte first.
pub open spec fn le_value(b: Seq<u8>) -> nat
    decreases b.len(),
{
    if b.len() == 0 {
        0
    } else {
        b[0] as nat + 256 * le_value(b.drop_first())
    }
}

/// The unsigned value of `b`, most significant byte first.
pub open spec fn be_value(b: Seq<u8>) -> nat
    decreases b.len(),
{
    if b.len() == 0 {
        0
    } else {
        be_value(b.drop_last()) * 256 + b.last() as nat
    }
}

pub open spec fn raw_value(b: Seq<u8>, order: ByteOrder) -> nat {
    match order {
        ByteOrder::Little => le_value(b),
        ByteOrder::Big => be_value(b),
    }
}

/// The value that the bytes `b` hold as kind `k`: two's complement for the signed kinds.
pub open spec fn unit_value(k: ParseChar, b: Seq<u8>, order: ByteOrder) -> int {
    let u = raw_value(b, order);
    let full = pow256(width_of(k));
    if is_signed(k) && 2 * u >= full {
        u - full
    } else {
        u as int
    }
}

/// The text of the value of kind `k` whose bytes start at `pos`.
pub open spec fn unit_text(k: ParseChar, buf: Seq<u8>, pos: nat, order: ByteOrder) -> Seq<char> {
    int_text(unit_value(k, buf.subrange(pos as int, (pos + width_of(k)) as int), order))
}

/// The texts of `n` consecutive values of kind `k`, the first at `pos`.
pub open spec fn run_texts(k: ParseChar, buf: Seq<u8>, pos: nat, order: ByteOrder, n: nat) -> Seq<
    Seq<char>,
> {
    Seq::new(n, |t: int| unit_text(k, buf, (pos + t * width_of(k)) as nat, order))
}

/// The bytes left in `buf` from `pos` on.
pub open spec fn bytes_left(buf: Seq<u8>, pos: nat) -> nat {
    if pos <= buf.len() {
        (buf.len() - pos) as nat
    } else {
        0
    }
}

/// Decoding the run `d`, field number `idx`, from `pos`: its texts and the position after it,
/// or the error of the first value that does not fit. Of a run that does not fit, whole values
/// are read until fewer than `width` bytes are left, and those are the bytes available.
pub open spec fn field_outcome(
    d: MultipleParseChar,
    buf: Seq<u8>,
    pos: nat,
    order: ByteOrder,
    idx: nat,
) -> Result<(Seq<Seq<char>>, nat), DecodeError> {
    let w = width_of(d.kind);
    if d.count == 0 || pos + d.count * w <= buf.len() {
        Ok((run_texts(d.kind, buf, pos, order, d.count as nat), (pos + d.count * w) as nat))
    } else {
        Err(
            DecodeError::InsufficientBytes {
                requested: w as usize,
                available: (bytes_left(buf, pos) % w) as usize,
                field_index: idx as usize,
            },
        )
    }
}

/// Decoding the descriptors `ds` in order from `start`: all texts and the final position.
pub open spec fn decode_prefix(ds: Seq<MultipleParseChar>, buf: Seq<u8>, start: nat, order: ByteOrder) -> Result<
    (Seq<Seq<char>>, nat),
    DecodeError,
>
    decreases ds.len(),
{
    if ds.len() == 0 {
        Ok((Seq::empty(), start))
    } else {
        match decode_prefix(ds.drop_last(), buf, start, order) {
            Err(e) => Err(e),
            Ok((vs, pos)) => match field_outcome(
                ds.last(),
                buf,
                pos,
                order,
                (ds.len() - 1) as nat,
            ) {
                Err(e) => Err(e),
                Ok((ws, next)) => Ok((vs + ws, next)),
            },
        }
    }
}

/// The outcome of a whole decode pass.
pub open spec fn decoded(ds: Seq<MultipleParseChar>, buf: Seq<u8>, start: nat, order: ByteOrder) -> Result<
    Seq<Seq<char>>,
    DecodeError,
> {
    match decode_prefix(ds, buf, start, order) {
        Ok((vs, _)) => Ok(vs),
        Err(e) => Err(e),
    }
}

/// The character sequences of a list of strings.
pub open spec fn texts(v: Seq<String>) -> Seq<Seq<char>> {
    v.map_values(|s: String| s@)
}

proof fn lemma_pow256_small()
    ensures
        pow256(1) == 256,
        pow256(2) == 0x1_0000,
        pow256(4) == 0x1_0000_0000,
        pow256(8) == 0x1_0000_0000_0000_0000,
{
    reveal_with_fuel(pow256, 9);
}

proof fn lemma_le_value_bound(b: Seq<u8>)
    ensures
        le_value(b) < pow256(b.len()),
    decreases b.len(),
{
    if b.len() > 0 {
        lemma_le_value_bound(b.drop_first());
        let r = le_value(b.drop_first());
        let p = pow256(b.drop_first().len());
        assert(b[0] as nat + 256 * r < 256 * p) by (nonlinear_arith)
            requires r < p, b[0] < 256;
    }
}

proof fn lemma_be_value_bound(b: Seq<u8>)
    ensures
        be_value(b) < pow256(b.len()),
    decreases b.len(),
{
    if b.len() > 0 {
        lemma_be_value_bound(b.drop_last());
        let r = be_value(b.drop_last());
        let p = pow256(b.drop_last().len());
        assert(r * 256 + b.last() < 256 * p) by (nonlinear_arith)
            requires r < p, b.last() < 256;
    }
}

/// Reads the unsigned value of the `w` bytes of `buf` at `pos`.
fn read_raw(buf: &[u8], pos: usize, w: usize, order: ByteOrder) -> (r: u64)
    requires
        1 <= w <= 8,
        pos + w <= buf@.len(),
    ensures
        r == raw_value(buf@.subrange(pos as int, pos + w), order),
{
    let ghost b = buf@.subrange(pos as int, pos + w);
    proof {
        lemma_pow256_small();
        lemma_le_value_bound(b);
        lemma_be_value_bound(b);
    }
    let n = buf.len();
    let mut acc: u64 = 0;
    match order {
        ByteOrder::Little => {
            let mut t: usize = w;
            assert(b.subrange(w as int, w as int) =~= Seq::<u8>::empty());
            while t > 0
                invariant
                    1 <= w <= 8,
                    pos + w <= buf@.len(),
                    n == buf@.len(),
                    b == buf@.subrange(pos as int, pos + w),
                    t <= w,
                    acc == le_value(b.subrange(t as int, w as int)),
                decreases t,
            {
                let ghost rest = b.subrange(t as int, w as int);
                let ghost next = b.subrange(t - 1, w as int);
                proof {
                    assert(next.drop_first() =~= rest);
                    lemma_le_value_bound(next);
                    assert(pow256(next.len()) <= pow256(8)) by {
                        lemma_pow256_monotone(next.len(), 8);
                    }
                    lemma_pow256_small();
                }
                acc = buf[pos + t - 1] as u64 + 256 * acc;
                t = t - 1;
            }
            assert(b.subrange(0, w as int) =~= b);
        },
        ByteOrder::Big => {
            let mut t: usize = 0;
            assert(b.subrange(0, 0) =~= Seq::<u8>::empty());
            while t < w
                invariant
                    1 <= w <= 8,
                    pos + w <= buf@.len(),
                    n == buf@.len(),
                    b == buf@.subrange(pos as int, pos + w),
                    t <= w,
                    acc == be_value(b.subrange(0, t as int)),
                decreases w - t,
            {
                let ghost next = b.subrange(0, t + 1);
                proof {
                    assert(next.drop_last() =~= b.subrange(0, t as int));
                    lemma_be_value_bound(next);
                    assert(pow256(next.len()) <= pow256(8)) by {
                        lemma_pow256_monotone(next.len(), 8);
                    }
                    lemma_pow256_small();
                }
                acc = acc * 256 + buf[pos + t] as u64;
                t = t + 1;
            }
            assert(b.subrange(0, w as int) =~= b);
        },
    }
    acc
}

proof fn lemma_pow256_monotone(a: nat, b: nat)
    requires
        a <= b,
    ensures
        pow256(a) <= pow256(b),
    decreases b,
{
    if a < b {
        lemma_pow256_monotone(a, (b - 1) as nat);
    }
}

/// The decimal text of the value of kind `k` whose bytes start at `pos`.
fn read_unit(k: ParseChar, buf: &[u8], pos: usize, order: ByteOrder) -> (r: String)
    requires
        pos + width_of(k) <= buf@.len(),
    ensures
        r@ == unit_text(k, buf@, pos as nat, order),
{
    let w = k.width();
    let u = read_raw(buf, pos, w, order);
    let full: u128 = match k {
        ParseChar::I8 | ParseChar::U8 | ParseChar::Bool => 0x100,
        ParseChar::I16 | ParseChar::U16 => 0x1_0000,
        ParseChar::I32 | ParseChar::U32 => 0x1_0000_0000,
        ParseChar::I64 | ParseChar::U64 => 0x1_0000_0000_0000_0000,
    };
    proof {
        lemma_pow256_small();
        let b = buf@.subrange(pos as int, pos + w);
        lemma_le_value_bound(b);
        lemma_be_value_bound(b);
    }
    let mut out = String::new();
    if k.signed() && 2 * (u as u128) >= full {
        let magnitude = (full - u as u128) as u64;
        proof {
            reveal_strlit("-");
        }
        out.append("-");
        push_decimal(&mut out, magnitude);
    } else {
        push_decimal(&mut out, u);
    }
    out
}

/// Decodes `buffer` against `instructions` from offset `start`, reading each value in byte
/// order `order`. Yields the decimal text of every value, in order, or the error of the first
/// value that does not fit.
pub fn decode(
    instructions: &[MultipleParseChar],
    buffer: &[u8],
    start: usize,
    order: ByteOrder,
) -> (r: Result<Vec<String>, DecodeError>)
    ensures
        match r {
            Ok(v) => decoded(instructions@, buffer@, start as nat, order) == Ok::<
                Seq<Seq<char>>,
                DecodeError,
            >(texts(v@)),
            Err(e) => decoded(instructions@, buffer@, start as nat, order) == Err::<
                Seq<Seq<char>>,
                DecodeError,
            >(e),
        },
{
    let ghost ds = instructions@;
    let ghost buf = buffer@;
    let len = buffer.len();
    let mut out: Vec<String> = Vec::new();
    let mut cursor: usize = start;
    let mut i: usize = 0;
    assert(ds.take(0) =~= Seq::<MultipleParseChar>::empty());
    assert(texts(out@) =~= Seq::<Seq<char>>::empty());
    while i < instructions.len()
        invariant
            ds == instructions@,
            buf == buffer@,
            len == buf.len(),
            i <= ds.len(),
            decode_prefix(ds.take(i as int), buf, start as nat, order) == Ok::<
                (Seq<Seq<char>>, nat),
                DecodeError,
            >((texts(out@), cursor as nat)),
        decreases ds.len() - i,
    {
        let d = instructions[i];
        let w = d.kind.width();
        let ghost before = texts(out@);
        let ghost cursor0 = cursor as nat;
        let mut j: usize = 0;
        proof {
            assert(ds.take(i + 1).drop_last() =~= ds.take(i as int));
            assert(run_texts(d.kind, buf, cursor0, order, 0) =~= Seq::<Seq<char>>::empty());
            assert(before + Seq::<Seq<char>>::empty() =~= before);
        }
        while j < d.count
            invariant
                ds == instructions@,
                buf == buffer@,
                len == buf.len(),
                i < ds.len(),
                d == ds[i as int],
                w == width_of(d.kind),
                j <= d.count,
                cursor == cursor0 + j * w,
                j > 0 ==> cursor <= len,
                decode_prefix(ds.take(i as int), buf, start as nat, order) == Ok::<
                    (Seq<Seq<char>>, nat),
                    DecodeError,
                >((before, cursor0)),
                texts(out@) == before + run_texts(d.kind, buf, cursor0, order, j as nat),
            decreases d.count - j,
        {
            if cursor > len || len - cursor < w {
                let available: usize = if cursor > len {
                    0
                } else {
                    len - cursor
                };
                proof {
                    assert(cursor0 + d.count * w >= cursor0 + (j + 1) * w) by (nonlinear_arith)
                        requires j < d.count;
                    assert((j + 1) * w == j * w + w) by (nonlinear_arith);
                    if cursor0 <= len {
                        lemma_fundamental_div_mod_converse(
                            (len - cursor0) as int,
                            w as int,
                            j as int,
                            available as int,
                        );
                    }
                    assert(ds.take(i + 1).last() == d);
                    assert(ds.take(i + 1).drop_last() =~= ds.take(i as int));
                    assert(d.count != 0);
                    assert(cursor0 + d.count * w > len);
                    assert(bytes_left(buf, cursor0) % (w as nat) == available);
                    assert(field_outcome(d, buf, cursor0, order, i as nat) is Err);
                    assert(decode_prefix(ds.take(i + 1), buf, start as nat, order) == Err::<
                        (Seq<Seq<char>>, nat),
                        DecodeError,
                    >(DecodeError::InsufficientBytes { requested: w, available, field_index: i }));
                    lemma_error_persists(ds, buf, start as nat, order, i as nat + 1, ds.len());
                    assert(ds.take(ds.len() as int) =~= ds);
                }
                return Err(
                    DecodeError::InsufficientBytes {
                        requested: w,
                        available,
                        field_index: i,
                    },
                );
            }
            let s = read_unit(d.kind, buffer, cursor, order);
            proof {
                assert(texts(out@.push(s)) =~= texts(out@).push(s@));
                assert(run_texts(d.kind, buf, cursor0, order, (j + 1) as nat) =~= run_texts(
                    d.kind,
                    buf,
                    cursor0,
                    order,
                    j as nat,
                ).push(s@));
                assert((j + 1) * w == j * w + w) by (nonlinear_arith);
            }
            out.push(s);
            cursor = cursor + w;
            j = j + 1;
        }
        proof {
            assert(ds.take(i + 1).last() == d);
        }
        i = i + 1;
    }
    proof {
        assert(ds.take(ds.len() as int) =~= ds);
    }
    Ok(out)
}

/// Once a prefix of the descriptors fails, every longer prefix fails with the same error.
proof fn lemma_error_persists(
    ds: Seq<MultipleParseChar>,
    buf: Seq<u8>,
    start: nat,
    order: ByteOrder,
    i: nat,
    j: nat,
)
    requires
        i <= j <= ds.len(),
        decode_prefix(ds.take(i as int), buf, start, order) is Err,
    ensures
        decode_prefix(ds.take(j as int), buf, start, order) == decode_prefix(
            ds.take(i as int),
            buf,
            start,
            order,
        ),
    decreases j - i,
{
    if i < j {
        lemma_error_persists(ds, buf, start, order, i, (j - 1) as nat);
        assert(ds.take(j as int).drop_last() =~= ds.take(j - 1));
    }
}

/// A decode pass depends on nothing but its inputs: two passes over the same descriptors,
/// buffer, start and byte order have the same outcome.
pub proof fn lemma_decode_deterministic(
    ds: Seq<MultipleParseChar>,
    buf: Seq<u8>,
    start: nat,
    order: ByteOrder,
    first: Result<Seq<Seq<char>>, DecodeError>,
    second: Result<Seq<Seq<char>>, DecodeError>,
)
    requires
        first == decoded(ds, buf, start, order),
        second == decoded(ds, buf, start, order),
    ensures
        first == second,
{
}

/// Appending a run of `count` values of one kind to descriptors that decode succeeds exactly
/// when the run fits in what is left of the buffer; it then adds `count` texts, and moves the
/// cursor on by `count` times the kind's width.
pub proof fn lemma_run_advances_cursor(
    ds: Seq<MultipleParseChar>,
    d: MultipleParseChar,
    buf: Seq<u8>,
    start: nat,
    order: ByteOrder,
)
    requires
        decode_prefix(ds, buf, start, order) is Ok,
        d.wf(),
    ensures
        ({
            let (vs, pos) = decode_prefix(ds, buf, start, order)->Ok_0;
            let w = width_of(d.kind);
            &&& decode_prefix(ds.push(d), buf, start, order) is Ok <==> pos + d.count * w
                <= buf.len()
            &&& decode_prefix(ds.push(d), buf, start, order) is Ok ==> {
                let (vs2, pos2) = decode_prefix(ds.push(d), buf, start, order)->Ok_0;
                &&& vs2.len() == vs.len() + d.count
                &&& vs2.subrange(0, vs.len() as int) == vs
                &&& pos2 == pos + d.count * w
            }
        }),
{
    assert(ds.push(d).drop_last() =~= ds);
    let (vs, pos) = decode_prefix(ds, buf, start, order)->Ok_0;
    if let Ok((vs2, pos2)) = decode_prefix(ds.push(d), buf, start, order) {
        assert(vs2.subrange(0, vs.len() as int) =~= vs);
    }
}

} // verus!

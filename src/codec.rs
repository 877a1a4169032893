//! Decoding and encoding an unsigned integer field of any width at any
//! offset, in the byte order of a validated identification.

use vstd::prelude::*;
use vstd::arithmetic::div_mod::{
    lemma_basic_div, lemma_div_basics, lemma_div_denominator, lemma_div_non_zero,
};

use crate::header::{ElfError, ElfIdentification, Endianness};

verus! {

/// Widest field that `read_field` decodes: its value must fit in a `u64`.
pub const MAX_FIELD_WIDTH: usize = 8;

/// `256` to the power `n`: the number of values that `n` bytes can hold.
pub open spec fn pow256(n: nat) -> nat
    decreases n,
{
    if n == 0 {
        1
    } else {
        256 * pow256((n - 1) as nat)
    }
}

/// The number that the bytes `s` write, least-significant byte first.
pub open spec fn le_value(s: Seq<u8>) -> nat
    decreases s.len(),
{
    if s.len() == 0 {
        0
    } else {
        s[0] as nat + 256 * le_value(s.drop_first())
    }
}

/// The bytes `s` in the opposite order.
pub open spec fn reversed(s: Seq<u8>) -> Seq<u8> {
    Seq::new(s.len(), |i: int| s[s.len() - 1 - i])
}

/// The bytes `s`, written in the byte order `e`, put least-significant first.
/// Reversal is its own inverse, so the same function also turns
/// least-significant-first bytes into the order `e`.
pub open spec fn lsb_first(s: Seq<u8>, e: Endianness) -> Seq<u8> {
    match e {
        Endianness::Little => s,
        Endianness::Big => reversed(s),
    }
}

/// The value of the `width` bytes of `b` at `offset`, in the byte order `e`.
pub open spec fn field_value(b: Seq<u8>, offset: nat, width: nat, e: Endianness) -> nat {
    le_value(lsb_first(b.subrange(offset as int, (offset + width) as int), e))
}

/// The lowest `width` bytes of `v`, least-significant first.
pub open spec fn le_bytes(v: nat, width: nat) -> Seq<u8>
    decreases width,
{
    if width == 0 {
        seq![]
    } else {
        seq![(v % 256) as u8] + le_bytes(v / 256, (width - 1) as nat)
    }
}

/// The `width` bytes that stand for `v` in the byte order `e`.
pub open spec fn value_bytes(v: nat, width: nat, e: Endianness) -> Seq<u8> {
    lsb_first(le_bytes(v, width), e)
}

/// `b` with the `width` bytes at `offset` replaced by those of `v` in the
/// byte order `e`.
pub open spec fn with_field(b: Seq<u8>, offset: nat, width: nat, v: nat, e: Endianness) -> Seq<u8> {
    b.subrange(0, offset as int) + value_bytes(v, width, e) + b.subrange(
        (offset + width) as int,
        b.len() as int,
    )
}

/// Whether the `width` bytes at `offset` lie within a buffer of `len` bytes.
pub open spec fn field_in_bounds(len: nat, offset: nat, width: nat) -> bool {
    offset + width <= len
}

proof fn lemma_pow256_positive(n: nat)
    ensures
        pow256(n) > 0,
    decreases n,
{
    if n > 0 {
        lemma_pow256_positive((n - 1) as nat);
    }
}

proof fn lemma_pow256_monotonic(a: nat, b: nat)
    requires
        a <= b,
    ensures
        pow256(a) <= pow256(b),
    decreases b,
{
    if a < b {
        lemma_pow256_monotonic(a, (b - 1) as nat);
        lemma_pow256_positive((b - 1) as nat);
    }
}

proof fn lemma_pow256_max_width()
    ensures
        pow256(MAX_FIELD_WIDTH as nat) == 0x1_0000_0000_0000_0000,
{
    reveal_with_fuel(pow256, 9);
}

proof fn lemma_le_value_cons(x: u8, s: Seq<u8>)
    ensures
        le_value(seq![x] + s) == x as nat + 256 * le_value(s),
{
    assert((seq![x] + s).drop_first() =~= s);
}

proof fn lemma_le_value_bound(s: Seq<u8>)
    ensures
        le_value(s) < pow256(s.len()),
    decreases s.len(),
{
    if s.len() > 0 {
        lemma_le_value_bound(s.drop_first());
    }
}

proof fn lemma_le_bytes_len(v: nat, width: nat)
    ensures
        le_bytes(v, width).len() == width,
    decreases width,
{
    if width > 0 {
        lemma_le_bytes_len(v / 256, (width - 1) as nat);
    }
}

proof fn lemma_le_round_trip(v: nat, width: nat)
    requires
        v < pow256(width),
    ensures
        le_value(le_bytes(v, width)) == v,
    decreases width,
{
    if width == 0 {
        lemma_basic_div(v as int, 1);
    } else {
        let w1 = (width - 1) as nat;
        lemma_pow256_positive(w1);
        assert(v / 256 < pow256(w1)) by (nonlinear_arith)
            requires
                v < 256 * pow256(w1),
        ;
        lemma_le_round_trip(v / 256, w1);
        lemma_le_value_cons((v % 256) as u8, le_bytes(v / 256, w1));
    }
}

/// A field of `width` bytes holds a value below `pow256(width)`.
pub proof fn lemma_field_value_bound(b: Seq<u8>, offset: nat, width: nat, e: Endianness)
    requires
        field_in_bounds(b.len(), offset, width),
    ensures
        field_value(b, offset, width, e) < pow256(width),
{
    let s = b.subrange(offset as int, (offset + width) as int);
    lemma_lsb_first_len(s, e);
    lemma_le_value_bound(lsb_first(s, e));
}

proof fn lemma_reversed_twice(s: Seq<u8>)
    ensures
        reversed(reversed(s)) =~= s,
{
}

proof fn lemma_lsb_first_len(s: Seq<u8>, e: Endianness)
    ensures
        lsb_first(s, e).len() == s.len(),
{
}

/// Reads the `width` bytes of `bytes` at `offset` as an unsigned integer in
/// the byte order of `id`.
pub fn read_field(
    bytes: &[u8],
    id: ElfIdentification,
    offset: usize,
    width: usize,
) -> (r: Result<u64, ElfError>)
    requires
        width <= MAX_FIELD_WIDTH,
    ensures
        !field_in_bounds(bytes@.len(), offset as nat, width as nat) ==> r == Err::<u64, ElfError>(
            ElfError::BufferTooShort { offset, width, len: bytes@.len() as usize },
        ),
        field_in_bounds(bytes@.len(), offset as nat, width as nat) ==> r == Ok::<u64, ElfError>(
            field_value(bytes@, offset as nat, width as nat, id.endianness) as u64,
        ),
        r matches Ok(v) ==> v == field_value(bytes@, offset as nat, width as nat, id.endianness),
{
    if width > bytes.len() || offset > bytes.len() - width {
        return Err(ElfError::BufferTooShort { offset, width, len: bytes.len() });
    }
    let end = offset + width;
    let ghost field = bytes@.subrange(offset as int, end as int);
    proof {
        lemma_pow256_max_width();
    }
    let mut acc: u64 = 0;
    match id.endianness {
        Endianness::Little => {
            let mut i = end;
            while i > offset
                invariant
                    offset <= i <= end,
                    end == offset + width,
                    end <= bytes@.len(),
                    width <= MAX_FIELD_WIDTH,
                    pow256(MAX_FIELD_WIDTH as nat) == 0x1_0000_0000_0000_0000,
                    acc == le_value(bytes@.subrange(i as int, end as int)),
                decreases i,
            {
                let ghost rest = bytes@.subrange(i as int, end as int);
                i = i - 1;
                proof {
                    lemma_le_value_bound(rest);
                    lemma_pow256_monotonic((rest.len() + 1) as nat, MAX_FIELD_WIDTH as nat);
                    assert(acc * 256 + 255 < 0x1_0000_0000_0000_0000) by (nonlinear_arith)
                        requires
                            acc < pow256(rest.len()),
                            256 * pow256(rest.len()) <= 0x1_0000_0000_0000_0000,
                    ;
                    assert(bytes@.subrange(i as int, end as int) =~= seq![bytes@[i as int]] + rest);
                    lemma_le_value_cons(bytes@[i as int], rest);
                }
                acc = acc * 256 + bytes[i] as u64;
            }
            assert(bytes@.subrange(offset as int, end as int) =~= field);
        },
        Endianness::Big => {
            let mut i = offset;
            while i < end
                invariant
                    offset <= i <= end,
                    end == offset + width,
                    end <= bytes@.len(),
                    width <= MAX_FIELD_WIDTH,
                    pow256(MAX_FIELD_WIDTH as nat) == 0x1_0000_0000_0000_0000,
                    acc == le_value(reversed(bytes@.subrange(offset as int, i as int))),
                decreases end - i,
            {
                let ghost done = reversed(bytes@.subrange(offset as int, i as int));
                proof {
                    lemma_le_value_bound(done);
                    lemma_pow256_monotonic((done.len() + 1) as nat, MAX_FIELD_WIDTH as nat);
                    assert(acc * 256 + 255 < 0x1_0000_0000_0000_0000) by (nonlinear_arith)
                        requires
                            acc < pow256(done.len()),
                            256 * pow256(done.len()) <= 0x1_0000_0000_0000_0000,
                    ;
                    assert(reversed(bytes@.subrange(offset as int, i + 1)) =~= seq![bytes@[i as int]]
                        + done);
                    lemma_le_value_cons(bytes@[i as int], done);
                }
                acc = acc * 256 + bytes[i] as u64;
                i = i + 1;
            }
        },
    }
    Ok(acc)
}

/// Whether `value` can be written in `width` bytes.
fn fits_in_width(value: u64, width: usize) -> (r: bool)
    ensures
        r == (value < pow256(width as nat)),
{
    let mut rest = value;
    let mut i: usize = 0;
    assert(value as nat / pow256(0) == value) by {
        assert(pow256(0) == 1);
        lemma_div_basics(value as int);
    }
    while i < width
        invariant
            i <= width,
            rest == value as nat / pow256(i as nat),
        decreases width - i,
    {
        proof {
            lemma_pow256_positive(i as nat);
            lemma_div_denominator(value as int, pow256(i as nat) as int, 256);
            assert(pow256(i as nat) * 256 == pow256((i + 1) as nat));
        }
        rest = rest / 256;
        i = i + 1;
    }
    proof {
        lemma_pow256_positive(width as nat);
        if value < pow256(width as nat) {
            lemma_basic_div(value as int, pow256(width as nat) as int);
        } else {
            lemma_div_non_zero(value as int, pow256(width as nat) as int);
        }
    }
    rest == 0
}

/// Overwrites the `width` bytes of `bytes` at `offset` with the lowest
/// `width` bytes of `value`, in the byte order `e`.
pub(crate) fn store_field(bytes: &mut Vec<u8>, offset: usize, width: usize, value: u64, e: Endianness)
    requires
        field_in_bounds(old(bytes)@.len(), offset as nat, width as nat),
    ensures
        final(bytes)@ == with_field(old(bytes)@, offset as nat, width as nat, value as nat, e),
{
    let ghost start = bytes@;
    let ghost le = le_bytes(value as nat, width as nat);
    let ghost target = with_field(start, offset as nat, width as nat, value as nat, e);
    proof {
        lemma_le_bytes_len(value as nat, width as nat);
        lemma_lsb_first_len(le, e);
        assert forall|k: int| offset <= k < offset + width implies target[k] == match e {
            Endianness::Little => le[k - offset],
            Endianness::Big => le[offset + width - 1 - k],
        } by {}
    }
    let n = bytes.len();
    let mut cur = value;
    let mut i: usize = 0;
    while i < width
        invariant
            i <= width,
            n == start.len(),
            offset + width <= start.len(),
            bytes@.len() == start.len(),
            le.len() == width,
            target.len() == start.len(),
            le.subrange(i as int, width as int) == le_bytes(cur as nat, (width - i) as nat),
            forall|k: int|
                0 <= k < start.len() && !(offset <= k < offset + width) ==> target[k] == start[k],
            forall|k: int|
                offset <= k < offset + width ==> target[k] == match e {
                    Endianness::Little => le[k - offset],
                    Endianness::Big => le[offset + width - 1 - k],
                },
            forall|k: int|
                0 <= k < start.len() ==> bytes@[k] == if written(e, offset as int, width as int, i as int, k) {
                    target[k]
                } else {
                    start[k]
                },
        decreases width - i,
    {
        proof {
            lemma_le_bytes_len(cur as nat / 256, (width - i - 1) as nat);
            assert(le[i as int] == le.subrange(i as int, width as int)[0]);
            assert(le.subrange(i + 1, width as int) =~= le_bytes(cur as nat, (width - i) as nat).drop_first());
            assert(le_bytes(cur as nat, (width - i) as nat).drop_first() =~= le_bytes(cur as nat / 256, (width - i - 1) as nat));
        }
        let pos = match e {
            Endianness::Little => offset + i,
            Endianness::Big => offset + width - 1 - i,
        };
        bytes.set(pos, (cur % 256) as u8);
        cur = cur / 256;
        i = i + 1;
    }
    assert(bytes@ =~= target);
}

/// Whether position `k` is among the first `i` field bytes that
/// `store_field` writes, least-significant first.
spec fn written(e: Endianness, offset: int, width: int, i: int, k: int) -> bool {
    match e {
        Endianness::Little => offset <= k < offset + i,
        Endianness::Big => offset + width - i <= k < offset + width,
    }
}

/// Returns a copy of `bytes` whose `width` bytes at `offset` hold `value` in
/// the byte order of `id`; every other byte is copied unchanged.
///
/// A field that does not lie within `bytes` is refused first, then a value
/// that `width` bytes cannot hold. `bytes` itself is never changed.
pub fn write_field(
    bytes: &[u8],
    id: ElfIdentification,
    offset: usize,
    width: usize,
    value: u64,
) -> (r: Result<Vec<u8>, ElfError>)
    ensures
        !field_in_bounds(bytes@.len(), offset as nat, width as nat) ==> r == Err::<Vec<u8>, ElfError>(
            ElfError::BufferTooShort { offset, width, len: bytes@.len() as usize },
        ),
        field_in_bounds(bytes@.len(), offset as nat, width as nat) && value >= pow256(width as nat)
            ==> r == Err::<Vec<u8>, ElfError>(ElfError::ValueOutOfRange { value, width }),
        field_in_bounds(bytes@.len(), offset as nat, width as nat) && value < pow256(width as nat)
            ==> (r matches Ok(out) && out@ == with_field(
            bytes@,
            offset as nat,
            width as nat,
            value as nat,
            id.endianness,
        )),
        r matches Ok(out) ==> {
            &&& out@.len() == bytes@.len()
            &&& forall|k: int|
                0 <= k < bytes@.len() && !(offset <= k < offset + width) ==> out@[k] == bytes@[k]
            &&& field_value(out@, offset as nat, width as nat, id.endianness) == value
        },
{
    if width > bytes.len() || offset > bytes.len() - width {
        return Err(ElfError::BufferTooShort { offset, width, len: bytes.len() });
    }
    if !fits_in_width(value, width) {
        return Err(ElfError::ValueOutOfRange { value, width });
    }
    let mut out = vstd::slice::slice_to_vec(bytes);
    store_field(&mut out, offset, width, value, id.endianness);
    proof {
        lemma_non_interference(bytes@, offset as nat, width as nat, value as nat, id.endianness);
        lemma_round_trip(bytes@, offset as nat, width as nat, value as nat, id);
    }
    Ok(out)
}

/// Writing a field and reading it back gives the value written, for every
/// value that the field's width can hold and either byte order.
pub proof fn lemma_round_trip(b: Seq<u8>, offset: nat, width: nat, v: nat, id: ElfIdentification)
    requires
        field_in_bounds(b.len(), offset, width),
        v < pow256(width),
    ensures
        field_value(with_field(b, offset, width, v, id.endianness), offset, width, id.endianness)
            == v,
{
    let e = id.endianness;
    let le = le_bytes(v, width);
    lemma_le_bytes_len(v, width);
    lemma_lsb_first_len(le, e);
    let w = with_field(b, offset, width, v, e);
    assert(w.subrange(offset as int, (offset + width) as int) =~= value_bytes(v, width, e));
    if e == Endianness::Big {
        lemma_reversed_twice(le);
    }
    lemma_le_round_trip(v, width);
}

/// Writing a field leaves the length of the buffer and every byte outside
/// the field as they were.
pub proof fn lemma_non_interference(b: Seq<u8>, offset: nat, width: nat, v: nat, e: Endianness)
    requires
        field_in_bounds(b.len(), offset, width),
    ensures
        with_field(b, offset, width, v, e).len() == b.len(),
        forall|k: int|
            0 <= k < b.len() && !(offset <= k < offset + width) ==> #[trigger] with_field(
                b,
                offset,
                width,
                v,
                e,
            )[k] == b[k],
{
    lemma_le_bytes_len(v, width);
    lemma_lsb_first_len(le_bytes(v, width), e);
}

} // verus!

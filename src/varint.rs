//! Base-128 variable-length integers and the zig-zag map for signed values.
use vstd::prelude::*;

verus! {

/// Failures of decoding a byte stream.
#[derive(Debug, Clone, Copy, PartialEq, Eq, Structural)]
pub enum DecodeError {
    /// The input ended inside a varint or a length-delimited field.
    Truncated,
    /// A varint's value does not fit in 64 bits.
    Overflow,
    /// A field key names a wire type other than varint (0) or sized (2).
    UnknownWireType,
    /// A tagged union's tag names none of its variants.
    UnknownVariant,
}

/// Bytes of the base-128 little-endian encoding of `v`: seven payload bits
/// per byte, the high bit set on every byte but the last.
pub open spec fn varint_enc(v: nat) -> Seq<u8>
    decreases v,
{
    if v < 128 {
        seq![v as u8]
    } else {
        seq![((v % 128) + 128) as u8] + varint_enc(v / 128)
    }
}

/// Index of the first byte at or after `pos` whose high bit is clear, or -1.
pub open spec fn varint_end(s: Seq<u8>, pos: int) -> int
    decreases s.len() - pos,
{
    if pos < 0 || pos >= s.len() {
        -1
    } else if s[pos] < 128 {
        pos
    } else {
        varint_end(s, pos + 1)
    }
}

/// Value of the base-128 digits `s[i..=end]`, least significant first.
pub open spec fn digits_value(s: Seq<u8>, i: int, end: int) -> nat
    decreases end - i,
{
    if i >= end {
        (s[end] % 128) as nat
    } else {
        (s[i] % 128) as nat + 128 * digits_value(s, i + 1, end)
    }
}

/// The varint that starts at `pos`: its value and the position after it.
pub open spec fn varint_at(s: Seq<u8>, pos: int) -> Option<(nat, int)> {
    let end = varint_end(s, pos);
    if end < 0 {
        None
    } else {
        Some((digits_value(s, pos, end), end + 1))
    }
}

/// Reading a 64-bit varint at `pos`: its value and the position after it.
pub open spec fn read_u64(s: Seq<u8>, pos: int) -> Result<(u64, int), DecodeError> {
    match varint_at(s, pos) {
        None => Err(DecodeError::Truncated),
        Some((v, next)) => if v <= u64::MAX {
            Ok((v as u64, next))
        } else {
            Err(DecodeError::Overflow)
        },
    }
}

/// Zig-zag map: 0, -1, 1, -2, ... go to 0, 1, 2, 3, ...
pub open spec fn zigzag(x: int) -> nat {
    if x >= 0 {
        (2 * x) as nat
    } else {
        (-2 * x - 1) as nat
    }
}

/// Inverse of the zig-zag map.
pub open spec fn unzigzag(z: nat) -> int {
    if z % 2 == 0 {
        (z / 2) as int
    } else {
        -((z / 2) as int) - 1
    }
}

pub open spec fn pow128(k: nat) -> nat
    decreases k,
{
    if k == 0 {
        1
    } else {
        128 * pow128((k - 1) as nat)
    }
}

proof fn lemma_enc_len_below(v: nat, k: nat)
    requires
        k >= 1,
        v < pow128(k),
    ensures
        varint_enc(v).len() <= k,
    decreases k,
{
    if v >= 128 {
        assert(k >= 2) by {
            if k == 1 {
                assert(pow128(1) == 128 * pow128(0));
            }
        }
        let k1 = (k - 1) as nat;
        assert(pow128(k) == 128 * pow128(k1));
        assert(v / 128 < pow128(k1)) by (nonlinear_arith)
            requires
                v < 128 * pow128(k1),
        ;
        lemma_enc_len_below(v / 128, k1);
    }
}

/// A 64-bit value takes at most ten bytes.
pub proof fn lemma_enc_len_u64(v: u64)
    ensures
        1 <= varint_enc(v as nat).len() <= 10,
{
    reveal_with_fuel(pow128, 11);
    assert(pow128(10) > u64::MAX);
    lemma_enc_len_below(v as nat, 10);
}

/// Exact number of bytes that `encode_varint` writes for `v`.
pub fn varint_size(v: u64) -> (r: u32)
    ensures
        r as nat == varint_enc(v as nat).len(),
{
    proof {
        lemma_enc_len_u64(v);
    }
    let mut n: u32 = 1;
    let mut x: u64 = v;
    while x >= 128
        invariant
            n as nat + varint_enc(x as nat).len() == varint_enc(v as nat).len() + 1,
            varint_enc(v as nat).len() <= 10,
            varint_enc(x as nat).len() >= 1,
        decreases x,
    {
        proof {
            lemma_enc_len_u64(x / 128);
        }
        x = x / 128;
        n = n + 1;
    }
    n
}

/// Appends the varint encoding of `v`.
pub fn encode_varint(v: u64, out: &mut Vec<u8>)
    ensures
        final(out)@ == old(out)@ + varint_enc(v as nat),
{
    let mut x: u64 = v;
    while x >= 128
        invariant
            out@ + varint_enc(x as nat) == old(out)@ + varint_enc(v as nat),
        decreases x,
    {
        let b: u8 = ((x % 128) + 128) as u8;
        let ghost before = out@;
        out.push(b);
        assert(varint_enc(x as nat) == seq![b] + varint_enc((x / 128) as nat));
        assert(before + (seq![b] + varint_enc((x / 128) as nat)) =~= out@ + varint_enc(
            (x / 128) as nat,
        ));
        x = x / 128;
    }
    out.push(x as u8);
    assert(varint_enc(x as nat) == seq![x as u8]);
}

proof fn lemma_digits_mono(s: Seq<u8>, j: int, i: int, end: int)
    requires
        j <= i <= end,
    ensures
        digits_value(s, j, end) >= digits_value(s, i, end),
    decreases i - j,
{
    if j < i {
        lemma_digits_mono(s, j + 1, i, end);
    }
}

/// Reads the varint that starts at `pos`.
pub fn decode_varint(bytes: &Vec<u8>, pos: usize) -> (r: Result<(u64, usize), DecodeError>)
    ensures
        match r {
            Ok((v, next)) => read_u64(bytes@, pos as int) == Ok::<(u64, int), DecodeError>(
                (v, next as int),
            ) && pos < next <= bytes@.len(),
            Err(e) => read_u64(bytes@, pos as int) == Err::<(u64, int), DecodeError>(e),
        },
{
    let len = bytes.len();
    if pos >= len {
        return Err(DecodeError::Truncated);
    }
    let mut end: usize = pos;
    while end < len && bytes[end] >= 128
        invariant
            pos <= end <= len == bytes@.len(),
            varint_end(bytes@, pos as int) == varint_end(bytes@, end as int),
        decreases len - end,
    {
        end = end + 1;
    }
    if end >= len {
        return Err(DecodeError::Truncated);
    }
    let mut v: u64 = (bytes[end] % 128) as u64;
    let mut i: usize = end;
    while i > pos
        invariant
            pos <= i <= end < len == bytes@.len(),
            varint_end(bytes@, pos as int) == end,
            v as nat == digits_value(bytes@, i as int, end as int),
        decreases i,
    {
        i = i - 1;
        let d: u64 = (bytes[i] % 128) as u64;
        if v > (u64::MAX - d) / 128 {
            proof {
                assert(d + 128 * v > u64::MAX) by (nonlinear_arith)
                    requires
                        v > (u64::MAX - d) / 128,
                        d < 128,
                ;
                lemma_digits_mono(bytes@, pos as int, i as int, end as int);
            }
            return Err(DecodeError::Overflow);
        }
        assert(d + 128 * v <= u64::MAX) by (nonlinear_arith)
            requires
                v <= (u64::MAX - d) / 128,
                d < 128,
        ;
        v = d + 128 * v;
    }
    Ok((v, end + 1))
}

/// Decoding the encoding of `v`, wherever it stands, gives back `v` and the
/// position just past it.
pub proof fn lemma_varint_round_trip(pre: Seq<u8>, v: nat, rest: Seq<u8>)
    ensures
        varint_at(pre + varint_enc(v) + rest, pre.len() as int) == Some(
            (v, pre.len() + varint_enc(v).len() as int),
        ),
    decreases v,
{
    let s = pre + varint_enc(v) + rest;
    let pos = pre.len() as int;
    if v < 128 {
        assert(s[pos] == v as u8);
    } else {
        let b = ((v % 128) + 128) as u8;
        let pre2 = pre.push(b);
        lemma_varint_round_trip(pre2, v / 128, rest);
        assert(s =~= pre2 + varint_enc(v / 128) + rest);
        assert(s[pos] == b);
        let end = varint_end(s, pos + 1);
        assert(varint_end(s, pos) == end);
        assert(digits_value(s, pos, end) == (b % 128) as nat + 128 * digits_value(s, pos + 1, end));
    }
}

/// Zig-zag map of a 64-bit signed value.
pub fn zigzag_i64(x: i64) -> (r: u64)
    ensures
        r as nat == zigzag(x as int),
{
    if x >= 0 {
        (x as u64) * 2
    } else {
        ((-(x + 1)) as u64) * 2 + 1
    }
}

/// Inverse zig-zag map to a 64-bit signed value.
pub fn unzigzag_i64(z: u64) -> (r: i64)
    ensures
        r as int == unzigzag(z as nat),
{
    if z % 2 == 0 {
        (z / 2) as i64
    } else {
        -((z / 2) as i64) - 1
    }
}

/// The zig-zag map is inverted by `unzigzag`.
pub proof fn lemma_zigzag_round_trip(x: int)
    ensures
        unzigzag(zigzag(x)) == x,
{
}

} // verus!

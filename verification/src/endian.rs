//! Big-endian two's-complement encoding of fixed-width integers.

use vstd::prelude::*;

verus! {

/// The `width` bytes that hold `v` in big-endian two's complement.
pub open spec fn be_bytes(v: int, width: nat) -> Seq<u8>
    decreases width,
{
    if width == 0 {
        Seq::empty()
    } else {
        be_bytes(v / 256, (width - 1) as nat).push((v % 256) as u8)
    }
}

/// The unsigned number that `bytes` hold in big-endian order.
pub open spec fn be_value(bytes: Seq<u8>) -> int
    decreases bytes.len(),
{
    if bytes.len() == 0 {
        0
    } else {
        be_value(bytes.drop_last()) * 256 + bytes.last() as int
    }
}

/// 256 to the power `width`.
pub open spec fn radix_pow(width: nat) -> int
    decreases width,
{
    if width == 0 {
        1
    } else {
        256 * radix_pow((width - 1) as nat)
    }
}

/// The signed number that `bytes` hold in big-endian two's complement.
pub open spec fn be_signed_value(bytes: Seq<u8>) -> int {
    let n = be_value(bytes);
    if 2 * n >= radix_pow(bytes.len()) {
        n - radix_pow(bytes.len())
    } else {
        n
    }
}

/// The powers of 256 grow with the exponent.
pub proof fn lemma_radix_pow_monotonic(a: nat, b: nat)
    requires
        a <= b,
    ensures
        0 < radix_pow(a) <= radix_pow(b),
    decreases b,
{
    if a < b {
        lemma_radix_pow_monotonic(a, (b - 1) as nat);
    } else if a > 0 {
        lemma_radix_pow_monotonic((a - 1) as nat, (a - 1) as nat);
    }
}

/// An encoding has exactly `width` bytes.
pub proof fn lemma_be_bytes_len(v: int, width: nat)
    ensures
        be_bytes(v, width).len() == width,
    decreases width,
{
    if width > 0 {
        lemma_be_bytes_len(v / 256, (width - 1) as nat);
    }
}

/// The value of any byte string lies below 256 to the power of its length.
pub proof fn lemma_be_value_bound(bytes: Seq<u8>)
    ensures
        0 <= be_value(bytes) < radix_pow(bytes.len()),
    decreases bytes.len(),
{
    if bytes.len() > 0 {
        lemma_be_value_bound(bytes.drop_last());
    }
}

/// Decoding the encoding of an unsigned number that fits gives it back.
pub proof fn lemma_be_value_of_bytes(v: int, width: nat)
    requires
        0 <= v < radix_pow(width),
    ensures
        be_value(be_bytes(v, width)) == v,
    decreases width,
{
    if width > 0 {
        let rest = be_bytes(v / 256, (width - 1) as nat);
        assert(be_bytes(v, width).drop_last() =~= rest);
        lemma_be_value_of_bytes(v / 256, (width - 1) as nat);
    }
}

/// Encoding the value of a byte string gives the string back.
pub proof fn lemma_be_bytes_of_value(bytes: Seq<u8>)
    ensures
        be_bytes(be_value(bytes), bytes.len()) == bytes,
    decreases bytes.len(),
{
    if bytes.len() > 0 {
        let v = be_value(bytes);
        lemma_be_bytes_of_value(bytes.drop_last());
        assert(v / 256 == be_value(bytes.drop_last()));
        assert(v % 256 == bytes.last() as int);
        assert(be_bytes(v, bytes.len()) =~= bytes);
    } else {
        assert(be_bytes(0, 0) =~= bytes);
    }
}

/// A signed number and the unsigned number congruent to it modulo 256 to the
/// power `width` have the same encoding.
pub proof fn lemma_be_bytes_wrap(v: int, width: nat)
    ensures
        be_bytes(v + radix_pow(width), width) == be_bytes(v, width),
    decreases width,
{
    if width > 0 {
        let p = radix_pow((width - 1) as nat);
        assert((v + 256 * p) / 256 == v / 256 + p) by (nonlinear_arith);
        assert((v + 256 * p) % 256 == v % 256) by (nonlinear_arith);
        lemma_be_bytes_wrap(v / 256, (width - 1) as nat);
    }
}

/// Decoding the encoding of a signed number that fits gives it back.
pub proof fn lemma_be_signed_value_of_bytes(v: int, width: nat)
    requires
        width > 0,
        -radix_pow(width) <= 2 * v < radix_pow(width),
    ensures
        be_signed_value(be_bytes(v, width)) == v,
{
    lemma_be_bytes_len(v, width);
    if v < 0 {
        lemma_be_bytes_wrap(v, width);
        lemma_be_value_of_bytes(v + radix_pow(width), width);
    } else {
        lemma_be_value_of_bytes(v, width);
    }
}

/// Appends the `width` low bytes of `v`, most significant first.
pub fn put_unsigned(out: &mut Vec<u8>, v: u64, width: u8)
    ensures
        final(out)@ == old(out)@ + be_bytes(v as int, width as nat),
    decreases width,
{
    if width > 0 {
        put_unsigned(out, v / 256, width - 1);
        out.push((v % 256) as u8);
        assert(final(out)@ =~= old(out)@ + be_bytes(v as int, width as nat));
    } else {
        assert(out@ =~= old(out)@ + be_bytes(v as int, 0));
    }
}

/// Reads `width` bytes at `pos` as an unsigned big-endian number, or nothing
/// where fewer than `width` bytes are left.
pub fn get_unsigned(bytes: &[u8], pos: usize, width: u8) -> (r: Option<u64>)
    requires
        width <= 8,
    ensures
        r is Some <==> pos + width <= bytes@.len(),
        bytes@.len() <= usize::MAX,
        r is Some ==> r->0 == be_value(bytes@.subrange(pos as int, pos + width)),
{
    let n: usize = bytes.len();
    if pos > n || n - pos < width as usize {
        return None;
    }
    let mut acc: u64 = 0;
    let mut i: u8 = 0;
    while i < width
        invariant
            i <= width <= 8,
            pos + width <= n == bytes@.len(),
            acc == be_value(bytes@.subrange(pos as int, pos + i)),
            acc < radix_pow(i as nat),
        decreases width - i,
    {
        let b: u8 = bytes[pos + i as usize];
        proof {
            let next = bytes@.subrange(pos as int, pos + i + 1);
            assert(next.drop_last() =~= bytes@.subrange(pos as int, pos + i));
            assert(next.last() == b);
            lemma_be_value_bound(next);
            lemma_radix_pow_monotonic((i + 1) as nat, 8);
            assert(radix_pow(8) == 0x1_0000_0000_0000_0000) by {
                reveal_with_fuel(radix_pow, 9);
            }
            assert(be_value(next) == acc * 256 + b);
        }
        acc = acc * 256 + b as u64;
        i = i + 1;
    }
    Some(acc)
}

/// Appends `v` in big-endian two's complement.
pub fn put_i8(out: &mut Vec<u8>, v: i8)
    ensures
        final(out)@ == old(out)@ + be_bytes(v as int, 1),
{
    proof {
        reveal_with_fuel(radix_pow, 9);
        lemma_be_bytes_wrap(v as int, 1);
    }
    let u: u64 = if v < 0 {
        (v as i64 + 256) as u64
    } else {
        v as u64
    };
    put_unsigned(out, u, 1);
}

/// Reads a big-endian two's-complement `i8` at `pos`, or nothing where the
/// bytes run out.
pub fn get_i8(bytes: &[u8], pos: usize) -> (r: Option<i8>)
    ensures
        r is Some <==> pos + 1 <= bytes@.len(),
        bytes@.len() <= usize::MAX,
        r is Some ==> r->0 == be_signed_value(bytes@.subrange(pos as int, pos + 1)),
{
    proof {
        reveal_with_fuel(radix_pow, 9);
        if pos + 1 <= bytes@.len() {
            lemma_be_value_bound(bytes@.subrange(pos as int, pos + 1));
        }
    }
    match get_unsigned(bytes, pos, 1) {
        None => None,
        Some(n) => if n >= 128 {
            Some((n as i64 - 256) as i8)
        } else {
            Some(n as i8)
        },
    }
}

/// Appends `v` in big-endian two's complement.
pub fn put_i16(out: &mut Vec<u8>, v: i16)
    ensures
        final(out)@ == old(out)@ + be_bytes(v as int, 2),
{
    proof {
        reveal_with_fuel(radix_pow, 9);
        lemma_be_bytes_wrap(v as int, 2);
    }
    let u: u64 = if v < 0 {
        (v as i64 + 65536) as u64
    } else {
        v as u64
    };
    put_unsigned(out, u, 2);
}

/// Reads a big-endian two's-complement `i16` at `pos`, or nothing where the
/// bytes run out.
pub fn get_i16(bytes: &[u8], pos: usize) -> (r: Option<i16>)
    ensures
        r is Some <==> pos + 2 <= bytes@.len(),
        bytes@.len() <= usize::MAX,
        r is Some ==> r->0 == be_signed_value(bytes@.subrange(pos as int, pos + 2)),
{
    proof {
        reveal_with_fuel(radix_pow, 9);
        if pos + 2 <= bytes@.len() {
            lemma_be_value_bound(bytes@.subrange(pos as int, pos + 2));
        }
    }
    match get_unsigned(bytes, pos, 2) {
        None => None,
        Some(n) => if n >= 32768 {
            Some((n as i64 - 65536) as i16)
        } else {
            Some(n as i16)
        },
    }
}

/// Appends `v` in big-endian two's complement.
pub fn put_i32(out: &mut Vec<u8>, v: i32)
    ensures
        final(out)@ == old(out)@ + be_bytes(v as int, 4),
{
    proof {
        reveal_with_fuel(radix_pow, 9);
        lemma_be_bytes_wrap(v as int, 4);
    }
    let u: u64 = if v < 0 {
        (v as i64 + 4294967296) as u64
    } else {
        v as u64
    };
    put_unsigned(out, u, 4);
}

/// Reads a big-endian two's-complement `i32` at `pos`, or nothing where the
/// bytes run out.
pub fn get_i32(bytes: &[u8], pos: usize) -> (r: Option<i32>)
    ensures
        r is Some <==> pos + 4 <= bytes@.len(),
        bytes@.len() <= usize::MAX,
        r is Some ==> r->0 == be_signed_value(bytes@.subrange(pos as int, pos + 4)),
{
    proof {
        reveal_with_fuel(radix_pow, 9);
        if pos + 4 <= bytes@.len() {
            lemma_be_value_bound(bytes@.subrange(pos as int, pos + 4));
        }
    }
    match get_unsigned(bytes, pos, 4) {
        None => None,
        Some(n) => if n >= 2147483648 {
            Some((n as i64 - 4294967296) as i32)
        } else {
            Some(n as i32)
        },
    }
}

/// Appends `v` in big-endian two's complement.
pub fn put_i64(out: &mut Vec<u8>, v: i64)
    ensures
        final(out)@ == old(out)@ + be_bytes(v as int, 8),
{
    proof {
        reveal_with_fuel(radix_pow, 9);
        lemma_be_bytes_wrap(v as int, 8);
    }
    let u: u64 = if v < 0 {
        (v as i128 + 18446744073709551616) as u64
    } else {
        v as u64
    };
    put_unsigned(out, u, 8);
}

/// Reads a big-endian two's-complement `i64` at `pos`, or nothing where the
/// bytes run out.
pub fn get_i64(bytes: &[u8], pos: usize) -> (r: Option<i64>)
    ensures
        r is Some <==> pos + 8 <= bytes@.len(),
        bytes@.len() <= usize::MAX,
        r is Some ==> r->0 == be_signed_value(bytes@.subrange(pos as int, pos + 8)),
{
    proof {
        reveal_with_fuel(radix_pow, 9);
        if pos + 8 <= bytes@.len() {
            lemma_be_value_bound(bytes@.subrange(pos as int, pos + 8));
        }
    }
    match get_unsigned(bytes, pos, 8) {
        None => None,
        Some(n) => if n >= 9223372036854775808 {
            Some((n as i128 - 18446744073709551616) as i64)
        } else {
            Some(n as i64)
        },
    }
}

/// Appends `v` in big-endian order.
pub fn put_u8(out: &mut Vec<u8>, v: u8)
    ensures
        final(out)@ == old(out)@ + be_bytes(v as int, 1),
{
    put_unsigned(out, v as u64, 1);
}

/// Reads a big-endian `u8` at `pos`, or nothing where the bytes run out.
pub fn get_u8(bytes: &[u8], pos: usize) -> (r: Option<u8>)
    ensures
        r is Some <==> pos + 1 <= bytes@.len(),
        bytes@.len() <= usize::MAX,
        r is Some ==> r->0 == be_value(bytes@.subrange(pos as int, pos + 1)),
{
    proof {
        reveal_with_fuel(radix_pow, 9);
        if pos + 1 <= bytes@.len() {
            lemma_be_value_bound(bytes@.subrange(pos as int, pos + 1));
        }
    }
    match get_unsigned(bytes, pos, 1) {
        None => None,
        Some(n) => Some(n as u8),
    }
}

/// Appends `v` in big-endian order.
pub fn put_u16(out: &mut Vec<u8>, v: u16)
    ensures
        final(out)@ == old(out)@ + be_bytes(v as int, 2),
{
    put_unsigned(out, v as u64, 2);
}

/// Reads a big-endian `u16` at `pos`, or nothing where the bytes run out.
pub fn get_u16(bytes: &[u8], pos: usize) -> (r: Option<u16>)
    ensures
        r is Some <==> pos + 2 <= bytes@.len(),
        bytes@.len() <= usize::MAX,
        r is Some ==> r->0 == be_value(bytes@.subrange(pos as int, pos + 2)),
{
    proof {
        reveal_with_fuel(radix_pow, 9);
        if pos + 2 <= bytes@.len() {
            lemma_be_value_bound(bytes@.subrange(pos as int, pos + 2));
        }
    }
    match get_unsigned(bytes, pos, 2) {
        None => None,
        Some(n) => Some(n as u16),
    }
}

/// Appends `v` in big-endian order.
pub fn put_u32(out: &mut Vec<u8>, v: u32)
    ensures
        final(out)@ == old(out)@ + be_bytes(v as int, 4),
{
    put_unsigned(out, v as u64, 4);
}

/// Reads a big-endian `u32` at `pos`, or nothing where the bytes run out.
pub fn get_u32(bytes: &[u8], pos: usize) -> (r: Option<u32>)
    ensures
        r is Some <==> pos + 4 <= bytes@.len(),
        bytes@.len() <= usize::MAX,
        r is Some ==> r->0 == be_value(bytes@.subrange(pos as int, pos + 4)),
{
    proof {
        reveal_with_fuel(radix_pow, 9);
        if pos + 4 <= bytes@.len() {
            lemma_be_value_bound(bytes@.subrange(pos as int, pos + 4));
        }
    }
    match get_unsigned(bytes, pos, 4) {
        None => None,
        Some(n) => Some(n as u32),
    }
}

/// Appends `v` in big-endian order.
pub fn put_u64(out: &mut Vec<u8>, v: u64)
    ensures
        final(out)@ == old(out)@ + be_bytes(v as int, 8),
{
    put_unsigned(out, v, 8);
}

/// Reads a big-endian `u64` at `pos`, or nothing where the bytes run out.
pub fn get_u64(bytes: &[u8], pos: usize) -> (r: Option<u64>)
    ensures
        r is Some <==> pos + 8 <= bytes@.len(),
        bytes@.len() <= usize::MAX,
        r is Some ==> r->0 == be_value(bytes@.subrange(pos as int, pos + 8)),
{
    proof {
        reveal_with_fuel(radix_pow, 9);
        if pos + 8 <= bytes@.len() {
            lemma_be_value_bound(bytes@.subrange(pos as int, pos + 8));
        }
    }
    match get_unsigned(bytes, pos, 8) {
        None => None,
        Some(n) => Some(n),
    }
}

} // verus!

//! Byte-level helpers for event-log and calldata words: the value of a
//! big-endian byte string, and hex digits for rendering identifiers.

use vstd::prelude::*;

verus! {

/// Value of a big-endian byte string read as one unsigned integer.
pub open spec fn spec_be_val(s: Seq<u8>) -> int
    decreases s.len(),
{
    if s.len() == 0 {
        0
    } else {
        spec_be_val(s.drop_last()) * 256 + s.last()
    }
}

pub proof fn lemma_be_val_nonneg(s: Seq<u8>)
    ensures
        spec_be_val(s) >= 0,
    decreases s.len(),
{
    if s.len() > 0 {
        lemma_be_val_nonneg(s.drop_last());
    }
}

/// A big-endian byte string reads as zero exactly when every byte is zero.
pub proof fn lemma_be_val_zero_iff(s: Seq<u8>)
    ensures
        (spec_be_val(s) == 0) <==> (forall|i: int| 0 <= i < s.len() ==> s[i] == 0),
    decreases s.len(),
{
    if s.len() > 0 {
        lemma_be_val_zero_iff(s.drop_last());
        lemma_be_val_nonneg(s.drop_last());
        if spec_be_val(s) == 0 {
            assert(forall|i: int| 0 <= i < s.len() - 1 ==> s[i] == s.drop_last()[i]);
        }
        if forall|i: int| 0 <= i < s.len() ==> s[i] == 0 {
            assert(forall|i: int| 0 <= i < s.drop_last().len() ==> s.drop_last()[i] == 0);
        }
    }
}

/// True iff the byte range `start..end` of `data` holds a nonzero value.
pub fn range_is_nonzero(data: &Vec<u8>, start: usize, end: usize) -> (r: bool)
    requires
        start <= end <= data@.len(),
    ensures
        r == (spec_be_val(data@.subrange(start as int, end as int)) != 0),
{
    let ghost sub = data@.subrange(start as int, end as int);
    let mut i: usize = start;
    while i < end
        invariant
            start <= i <= end <= data@.len(),
            sub == data@.subrange(start as int, end as int),
            forall|j: int| start <= j < i ==> data@[j] == 0,
        decreases end - i,
    {
        if data[i] != 0 {
            proof {
                lemma_be_val_zero_iff(sub);
                assert(sub[i - start] == data@[i as int]);
            }
            return true;
        }
        i = i + 1;
    }
    proof {
        lemma_be_val_zero_iff(sub);
        assert(forall|k: int| 0 <= k < sub.len() ==> sub[k] == data@[start + k] && sub[k] == 0);
    }
    false
}

/// A fresh byte vector with the same contents.
pub fn copy_bytes(v: &Vec<u8>) -> (r: Vec<u8>)
    ensures
        r@ == v@,
{
    let n = v.len();
    let mut r: Vec<u8> = Vec::new();
    let mut i: usize = 0;
    while i < n
        invariant
            n == v@.len(),
            i <= n,
            r@ =~= v@.take(i as int),
        decreases n - i,
    {
        r.push(v[i]);
        i = i + 1;
    }
    proof {
        assert(v@.take(n as int) =~= v@);
    }
    r
}

pub open spec fn spec_pow256(k: nat) -> int
    decreases k,
{
    if k == 0 {
        1
    } else {
        256 * spec_pow256((k - 1) as nat)
    }
}

pub proof fn lemma_pow256_pos(k: nat)
    ensures
        spec_pow256(k) >= 1,
    decreases k,
{
    if k > 0 {
        lemma_pow256_pos((k - 1) as nat);
    }
}

pub proof fn lemma_pow256_increases(k1: nat, k2: nat)
    requires
        k1 <= k2,
    ensures
        spec_pow256(k1) <= spec_pow256(k2),
    decreases k2,
{
    if k1 < k2 {
        lemma_pow256_increases(k1, (k2 - 1) as nat);
        lemma_pow256_pos((k2 - 1) as nat);
    }
}

/// Byte `k` of a value, counting from the least significant byte.
pub open spec fn spec_be_byte(x: int, k: nat) -> u8 {
    ((x / spec_pow256(k)) % 256) as u8
}

/// A 32-bit value as 4 big-endian bytes.
pub open spec fn spec_be_bytes4(x: u32) -> Seq<u8> {
    Seq::new(4, |i: int| spec_be_byte(x as int, (3 - i) as nat))
}

/// A 128-bit value as 16 big-endian bytes.
pub open spec fn spec_be_bytes16(x: u128) -> Seq<u8> {
    Seq::new(16, |i: int| spec_be_byte(x as int, (15 - i) as nat))
}

/// A 128-bit value as one left-padded 32-byte word.
pub open spec fn spec_u128_word(x: u128) -> Seq<u8> {
    Seq::new(16, |i: int| 0u8) + spec_be_bytes16(x)
}

/// An address as one left-padded 32-byte word.
pub open spec fn spec_address_word(a: crate::types::Address) -> Seq<u8> {
    Seq::new(12, |i: int| 0u8) + spec_be_bytes4(a.hi) + spec_be_bytes16(a.lo)
}

/// A big-endian byte string's value is below 256 to its length.
pub proof fn lemma_be_val_bound(s: Seq<u8>)
    ensures
        spec_be_val(s) < spec_pow256(s.len()),
    decreases s.len(),
{
    if s.len() == 0 {
    } else {
        lemma_be_val_bound(s.drop_last());
        lemma_be_val_nonneg(s.drop_last());
        assert(spec_pow256(s.len()) == 256 * spec_pow256((s.len() - 1) as nat));
        assert(spec_be_val(s.drop_last()) <= spec_pow256((s.len() - 1) as nat) - 1);
        vstd::arithmetic::mul::lemma_mul_inequality(
            spec_be_val(s.drop_last()),
            spec_pow256((s.len() - 1) as nat) - 1,
            256,
        );
    }
}

/// Reads 4 bytes of `data` starting at `start` as one big-endian value.
pub fn u32_at(data: &Vec<u8>, start: usize) -> (r: u32)
    requires
        start + 4 <= data@.len(),
    ensures
        r == spec_be_val(data@.subrange(start as int, start + 4)),
{
    let ghost sub = data@.subrange(start as int, start + 4);
    let n = data.len();
    let mut acc: u32 = 0;
    let mut i: usize = 0;
    proof {
        reveal_with_fuel(spec_pow256, 5);
        assert(sub.subrange(0, 0) =~= Seq::<u8>::empty());
    }
    while i < 4
        invariant
            i <= 4,
            n == data@.len(),
            start + 4 <= n,
            sub == data@.subrange(start as int, start + 4),
            acc == spec_be_val(sub.subrange(0, i as int)),
            acc < spec_pow256(i as nat),
        decreases 4 - i,
    {
        let b = data[start + i];
        proof {
            reveal_with_fuel(spec_pow256, 5);
            lemma_pow256_increases((i + 1) as nat, 4);
            assert(spec_pow256((i + 1) as nat) == 256 * spec_pow256(i as nat));
            assert(acc <= spec_pow256(i as nat) - 1);
            vstd::arithmetic::mul::lemma_mul_inequality(
                acc as int,
                spec_pow256(i as nat) - 1,
                256,
            );
            assert(sub.subrange(0, i + 1).drop_last() =~= sub.subrange(0, i as int));
            assert(sub.subrange(0, i + 1).last() == data@[start + i]);
        }
        acc = acc * 256 + (b as u32);
        i = i + 1;
    }
    proof {
        assert(sub.subrange(0, 4) =~= sub);
    }
    acc
}

/// Reads 16 bytes of `data` starting at `start` as one big-endian value.
pub fn u128_at(data: &Vec<u8>, start: usize) -> (r: u128)
    requires
        start + 16 <= data@.len(),
    ensures
        r == spec_be_val(data@.subrange(start as int, start + 16)),
{
    let ghost sub = data@.subrange(start as int, start + 16);
    let n = data.len();
    let mut acc: u128 = 0;
    let mut i: usize = 0;
    proof {
        reveal_with_fuel(spec_pow256, 17);
        assert(sub.subrange(0, 0) =~= Seq::<u8>::empty());
    }
    while i < 16
        invariant
            i <= 16,
            n == data@.len(),
            start + 16 <= n,
            sub == data@.subrange(start as int, start + 16),
            acc == spec_be_val(sub.subrange(0, i as int)),
            acc < spec_pow256(i as nat),
        decreases 16 - i,
    {
        let b = data[start + i];
        proof {
            reveal_with_fuel(spec_pow256, 17);
            lemma_pow256_increases((i + 1) as nat, 16);
            assert(spec_pow256((i + 1) as nat) == 256 * spec_pow256(i as nat));
            assert(acc <= spec_pow256(i as nat) - 1);
            vstd::arithmetic::mul::lemma_mul_inequality(
                acc as int,
                spec_pow256(i as nat) - 1,
                256,
            );
            assert(sub.subrange(0, i + 1).drop_last() =~= sub.subrange(0, i as int));
            assert(sub.subrange(0, i + 1).last() == data@[start + i]);
        }
        acc = acc * 256 + (b as u128);
        i = i + 1;
    }
    proof {
        assert(sub.subrange(0, 16) =~= sub);
    }
    acc
}

/// The address held in the rightmost 20 bytes of the 32-byte word of `data`
/// starting at `start`.
pub open spec fn spec_address_at(data: Seq<u8>, start: int) -> crate::types::Address {
    crate::types::Address {
        hi: spec_be_val(data.subrange(start + 12, start + 16)) as u32,
        lo: spec_be_val(data.subrange(start + 16, start + 32)) as u128,
    }
}

/// Reads the address out of the rightmost 20 bytes of a 32-byte word.
pub fn address_at(data: &Vec<u8>, start: usize) -> (r: crate::types::Address)
    requires
        start + 32 <= data@.len(),
    ensures
        r == spec_address_at(data@, start as int),
{
    proof {
        reveal_with_fuel(spec_pow256, 17);
        lemma_be_val_bound(data@.subrange(start + 12, start + 16));
        lemma_be_val_nonneg(data@.subrange(start + 12, start + 16));
        lemma_be_val_bound(data@.subrange(start + 16, start + 32));
        lemma_be_val_nonneg(data@.subrange(start + 16, start + 32));
    }
    let n = data.len();
    proof {
        assert(n == data@.len());
    }
    let hi = u32_at(data, start + 12);
    let lo = u128_at(data, start + 16);
    crate::types::Address { hi, lo }
}

/// Appends `n` zero bytes.
pub fn push_zero_bytes(v: &mut Vec<u8>, n: usize)
    ensures
        final(v)@ == old(v)@ + Seq::new(n as nat, |i: int| 0u8),
{
    let ghost v0 = v@;
    let mut d: usize = 0;
    proof {
        assert(v@ =~= v0 + Seq::new(0nat, |i: int| 0u8));
    }
    while d < n
        invariant
            d <= n,
            v@ == v0 + Seq::new(d as nat, |i: int| 0u8),
        decreases n - d,
    {
        v.push(0);
        proof {
            assert(Seq::new((d + 1) as nat, |i: int| 0u8) =~= Seq::new(d as nat, |i: int| 0u8).push(
                0u8,
            ));
            assert(v@ =~= v0 + Seq::new((d + 1) as nat, |i: int| 0u8));
        }
        d = d + 1;
    }
}

/// Appends a 32-bit value as 4 big-endian bytes.
pub fn push_be_bytes4(v: &mut Vec<u8>, x: u32)
    ensures
        final(v)@ == old(v)@ + spec_be_bytes4(x),
{
    let ghost v0 = v@;
    let mut p: u32 = 0x100_0000;
    let mut d: usize = 0;
    proof {
        reveal_with_fuel(spec_pow256, 5);
        assert(spec_pow256(3) == 0x100_0000);
        assert(Seq::new(0nat, |i: int| spec_be_byte(x as int, (3 - i) as nat))
            =~= Seq::<u8>::empty());
        assert(v@ =~= v0 + Seq::new(0nat, |i: int| spec_be_byte(x as int, (3 - i) as nat)));
    }
    while d < 4
        invariant
            d <= 4,
            d < 4 ==> p == spec_pow256((3 - d) as nat),
            v@ == v0 + Seq::new(d as nat, |i: int| spec_be_byte(x as int, (3 - i) as nat)),
        decreases 4 - d,
    {
        proof {
            lemma_pow256_pos((3 - d) as nat);
        }
        let byte: u8 = ((x / p) % 256) as u8;
        v.push(byte);
        proof {
            assert(byte == spec_be_byte(x as int, (3 - d) as nat));
            assert(Seq::new((d + 1) as nat, |i: int| spec_be_byte(x as int, (3 - i) as nat))
                =~= Seq::new(d as nat, |i: int| spec_be_byte(x as int, (3 - i) as nat)).push(
                spec_be_byte(x as int, (3 - d) as nat),
            ));
            assert(v@ =~= v0 + Seq::new(
                (d + 1) as nat,
                |i: int| spec_be_byte(x as int, (3 - i) as nat),
            ));
            if d + 1 < 4 {
                assert(spec_pow256((3 - d) as nat) == 256 * spec_pow256((2 - d) as nat));
                lemma_pow256_pos((2 - d) as nat);
            }
        }
        p = p / 256;
        d = d + 1;
    }
    proof {
        assert(v@ =~= v0 + spec_be_bytes4(x));
    }
}

/// Appends a 128-bit value as 16 big-endian bytes.
pub fn push_be_bytes16(v: &mut Vec<u8>, x: u128)
    ensures
        final(v)@ == old(v)@ + spec_be_bytes16(x),
{
    let ghost v0 = v@;
    let mut p: u128 = 0x100_0000_0000_0000_0000_0000_0000_0000;
    let mut d: usize = 0;
    proof {
        reveal_with_fuel(spec_pow256, 17);
        assert(spec_pow256(15) == 0x100_0000_0000_0000_0000_0000_0000_0000);
        assert(Seq::new(0nat, |i: int| spec_be_byte(x as int, (15 - i) as nat))
            =~= Seq::<u8>::empty());
        assert(v@ =~= v0 + Seq::new(0nat, |i: int| spec_be_byte(x as int, (15 - i) as nat)));
    }
    while d < 16
        invariant
            d <= 16,
            d < 16 ==> p == spec_pow256((15 - d) as nat),
            v@ == v0 + Seq::new(d as nat, |i: int| spec_be_byte(x as int, (15 - i) as nat)),
        decreases 16 - d,
    {
        proof {
            lemma_pow256_pos((15 - d) as nat);
        }
        let byte: u8 = ((x / p) % 256) as u8;
        v.push(byte);
        proof {
            assert(byte == spec_be_byte(x as int, (15 - d) as nat));
            assert(Seq::new((d + 1) as nat, |i: int| spec_be_byte(x as int, (15 - i) as nat))
                =~= Seq::new(d as nat, |i: int| spec_be_byte(x as int, (15 - i) as nat)).push(
                spec_be_byte(x as int, (15 - d) as nat),
            ));
            assert(v@ =~= v0 + Seq::new(
                (d + 1) as nat,
                |i: int| spec_be_byte(x as int, (15 - i) as nat),
            ));
            if d + 1 < 16 {
                assert(spec_pow256((15 - d) as nat) == 256 * spec_pow256((14 - d) as nat));
                lemma_pow256_pos((14 - d) as nat);
            }
        }
        p = p / 256;
        d = d + 1;
    }
    proof {
        assert(v@ =~= v0 + spec_be_bytes16(x));
    }
}

/// Appends a 128-bit value as one left-padded 32-byte word.
pub fn push_u128_word(v: &mut Vec<u8>, x: u128)
    ensures
        final(v)@ == old(v)@ + spec_u128_word(x),
{
    let ghost v0 = v@;
    push_zero_bytes(v, 16);
    push_be_bytes16(v, x);
    proof {
        assert(v@ =~= v0 + spec_u128_word(x));
    }
}

/// Appends an address as one left-padded 32-byte word.
pub fn push_address_word(v: &mut Vec<u8>, a: crate::types::Address)
    ensures
        final(v)@ == old(v)@ + spec_address_word(a),
{
    let ghost v0 = v@;
    push_zero_bytes(v, 12);
    push_be_bytes4(v, a.hi);
    push_be_bytes16(v, a.lo);
    proof {
        assert(v@ =~= v0 + spec_address_word(a));
    }
}

/// The sixteen lowercase hex digits.
pub open spec fn spec_hex_digit(n: int) -> char {
    if n == 0 {
        '0'
    } else if n == 1 {
        '1'
    } else if n == 2 {
        '2'
    } else if n == 3 {
        '3'
    } else if n == 4 {
        '4'
    } else if n == 5 {
        '5'
    } else if n == 6 {
        '6'
    } else if n == 7 {
        '7'
    } else if n == 8 {
        '8'
    } else if n == 9 {
        '9'
    } else if n == 10 {
        'a'
    } else if n == 11 {
        'b'
    } else if n == 12 {
        'c'
    } else if n == 13 {
        'd'
    } else if n == 14 {
        'e'
    } else {
        'f'
    }
}

pub open spec fn spec_pow16(k: nat) -> int
    decreases k,
{
    if k == 0 {
        1
    } else {
        16 * spec_pow16((k - 1) as nat)
    }
}

pub proof fn lemma_pow16_pos(k: nat)
    ensures
        spec_pow16(k) >= 1,
    decreases k,
{
    if k > 0 {
        lemma_pow16_pos((k - 1) as nat);
    }
}

/// A 32-bit value rendered as `0x` and eight lowercase hex digits.
pub open spec fn spec_hex32(x: u32) -> Seq<char> {
    seq!['0', 'x'] + Seq::new(8, |i: int| spec_hex_digit(x as int / spec_pow16((7 - i) as nat) % 16))
}

/// One lowercase hex digit as a string.
pub fn hex_digit_str(n: u32) -> (r: &'static str)
    requires
        n < 16,
    ensures
        r@ == seq![spec_hex_digit(n as int)],
{
    proof {
        reveal_strlit("0");
        reveal_strlit("1");
        reveal_strlit("2");
        reveal_strlit("3");
        reveal_strlit("4");
        reveal_strlit("5");
        reveal_strlit("6");
        reveal_strlit("7");
        reveal_strlit("8");
        reveal_strlit("9");
        reveal_strlit("a");
        reveal_strlit("b");
        reveal_strlit("c");
        reveal_strlit("d");
        reveal_strlit("e");
        reveal_strlit("f");
    }
    match n {
        0 => "0",
        1 => "1",
        2 => "2",
        3 => "3",
        4 => "4",
        5 => "5",
        6 => "6",
        7 => "7",
        8 => "8",
        9 => "9",
        10 => "a",
        11 => "b",
        12 => "c",
        13 => "d",
        14 => "e",
        _ => "f",
    }
}

/// Appends the `0x`-prefixed hex form of `x`.
pub fn append_hex32(s: &mut String, x: u32)
    ensures
        final(s)@ == old(s)@ + spec_hex32(x),
{
    let ghost s0 = s@;
    proof {
        reveal_strlit("0x");
    }
    s.append("0x");
    let mut p: u32 = 0x1000_0000;
    let mut d: usize = 0;
    proof {
        reveal_with_fuel(spec_pow16, 9);
        assert(spec_pow16(7) == 0x1000_0000);
        assert(Seq::new(
            0nat,
            |i: int| spec_hex_digit(x as int / spec_pow16((7 - i) as nat) % 16),
        ) =~= Seq::<char>::empty());
        assert(s@ =~= s0 + seq!['0', 'x'] + Seq::new(
            0nat,
            |i: int| spec_hex_digit(x as int / spec_pow16((7 - i) as nat) % 16),
        ));
    }
    while d < 8
        invariant
            d <= 8,
            d < 8 ==> p == spec_pow16((7 - d) as nat),
            s@ == s0 + seq!['0', 'x'] + Seq::new(
                d as nat,
                |i: int| spec_hex_digit(x as int / spec_pow16((7 - i) as nat) % 16),
            ),
        decreases 8 - d,
    {
        proof {
            lemma_pow16_pos((7 - d) as nat);
        }
        let digit: u32 = (x / p) % 16;
        s.append(hex_digit_str(digit));
        proof {
            assert(Seq::new(
                (d + 1) as nat,
                |i: int| spec_hex_digit(x as int / spec_pow16((7 - i) as nat) % 16),
            ) =~= Seq::new(
                d as nat,
                |i: int| spec_hex_digit(x as int / spec_pow16((7 - i) as nat) % 16),
            ).push(spec_hex_digit(x as int / spec_pow16((7 - d) as nat) % 16)));
            assert(s@ =~= s0 + seq!['0', 'x'] + Seq::new(
                (d + 1) as nat,
                |i: int| spec_hex_digit(x as int / spec_pow16((7 - i) as nat) % 16),
            ));
            if d + 1 < 8 {
                assert(spec_pow16((7 - d) as nat) == 16 * spec_pow16((6 - d) as nat));
                lemma_pow16_pos((6 - d) as nat);
            }
        }
        p = p / 16;
        d = d + 1;
    }
    proof {
        assert(s@ =~= s0 + spec_hex32(x));
    }
}

/// A 128-bit value rendered as 32 lowercase hex digits, without a prefix.
pub open spec fn spec_hex_digits_u128(x: u128) -> Seq<char> {
    Seq::new(32, |i: int| spec_hex_digit(x as int / spec_pow16((31 - i) as nat) % 16))
}

/// Appends the 32 hex digits of a 128-bit value.
pub fn append_hex_u128(s: &mut String, x: u128)
    ensures
        final(s)@ == old(s)@ + spec_hex_digits_u128(x),
{
    let ghost s0 = s@;
    let mut p: u128 = 0x1000_0000_0000_0000_0000_0000_0000_0000;
    let mut d: usize = 0;
    proof {
        reveal_with_fuel(spec_pow16, 33);
        assert(spec_pow16(31) == 0x1000_0000_0000_0000_0000_0000_0000_0000);
        assert(Seq::new(0nat, |i: int| spec_hex_digit(x as int / spec_pow16((31 - i) as nat) % 16))
            =~= Seq::<char>::empty());
        assert(s@ =~= s0 + Seq::new(
            0nat,
            |i: int| spec_hex_digit(x as int / spec_pow16((31 - i) as nat) % 16),
        ));
    }
    while d < 32
        invariant
            d <= 32,
            d < 32 ==> p == spec_pow16((31 - d) as nat),
            s@ == s0 + Seq::new(
                d as nat,
                |i: int| spec_hex_digit(x as int / spec_pow16((31 - i) as nat) % 16),
            ),
        decreases 32 - d,
    {
        proof {
            lemma_pow16_pos((31 - d) as nat);
        }
        let digit: u32 = ((x / p) % 16) as u32;
        s.append(hex_digit_str(digit));
        proof {
            assert(Seq::new(
                (d + 1) as nat,
                |i: int| spec_hex_digit(x as int / spec_pow16((31 - i) as nat) % 16),
            ) =~= Seq::new(
                d as nat,
                |i: int| spec_hex_digit(x as int / spec_pow16((31 - i) as nat) % 16),
            ).push(spec_hex_digit(x as int / spec_pow16((31 - d) as nat) % 16)));
            assert(s@ =~= s0 + Seq::new(
                (d + 1) as nat,
                |i: int| spec_hex_digit(x as int / spec_pow16((31 - i) as nat) % 16),
            ));
            if d + 1 < 32 {
                assert(spec_pow16((31 - d) as nat) == 16 * spec_pow16((30 - d) as nat));
                lemma_pow16_pos((30 - d) as nat);
            }
        }
        p = p / 16;
        d = d + 1;
    }
    proof {
        assert(s@ =~= s0 + spec_hex_digits_u128(x));
    }
}

/// An address rendered as `0x` and 40 lowercase hex digits.
pub open spec fn spec_address_hex(a: crate::types::Address) -> Seq<char> {
    spec_hex32(a.hi) + spec_hex_digits_u128(a.lo)
}

pub fn address_to_hex(a: &crate::types::Address) -> (r: String)
    ensures
        r@ == spec_address_hex(*a),
{
    let mut s = String::new();
    append_hex32(&mut s, a.hi);
    append_hex_u128(&mut s, a.lo);
    proof {
        assert(s@ =~= spec_address_hex(*a));
    }
    s
}

} // verus!

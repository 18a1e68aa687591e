use vstd::prelude::*;

use crate::text::{
    bytes_equal, find_byte, first_index_of, last_index_of, parse_usize, parsed_usize, rfind_byte, split_bytes,
    split_on, views,
};

verus! {

/// The bit-reversal of a byte: bit `i` of the result is bit `7 - i` of `b`.
pub open spec fn reversed_bits(b: u8) -> u8 {
    (((b >> 0u8) & 1) << 7u8) | (((b >> 1u8) & 1) << 6u8) | (((b >> 2u8) & 1) << 5u8) | (((b
        >> 3u8) & 1) << 4u8) | (((b >> 4u8) & 1) << 3u8) | (((b >> 5u8) & 1) << 2u8) | (((b
        >> 6u8) & 1) << 1u8) | (((b >> 7u8) & 1) << 0u8)
}

pub proof fn lemma_reversed_bits_involution(b: u8)
    ensures
        reversed_bits(reversed_bits(b)) == b,
{
    assert(reversed_bits(reversed_bits(b)) == b) by (bit_vector);
}

fn reverse_byte(b: u8) -> (r: u8)
    ensures
        r == reversed_bits(b),
        forall|i: u8| i < 8 ==> #[trigger] ((r >> i) & 1) == (b >> (7 - i) as u8) & 1,
{
    let r = ((b & 1) << 7u8) | (((b >> 1u8) & 1) << 6u8) | (((b >> 2u8) & 1) << 5u8) | (((b
        >> 3u8) & 1) << 4u8) | (((b >> 4u8) & 1) << 3u8) | (((b >> 5u8) & 1) << 2u8) | (((b
        >> 6u8) & 1) << 1u8) | ((b >> 7u8) & 1);
    assert(r == reversed_bits(b)) by (bit_vector)
        requires
            r == ((b & 1) << 7u8) | (((b >> 1u8) & 1) << 6u8) | (((b >> 2u8) & 1) << 5u8) | (((b
                >> 3u8) & 1) << 4u8) | (((b >> 4u8) & 1) << 3u8) | (((b >> 5u8) & 1) << 2u8)
                | (((b >> 6u8) & 1) << 1u8) | ((b >> 7u8) & 1),
    ;
    assert(forall|i: u8| i < 8 ==> #[trigger] ((r >> i) & 1) == (b >> (7 - i) as u8) & 1)
        by (bit_vector)
        requires
            r == reversed_bits(b),
    ;
    r
}


/// The byte that the position-dependent operations mix into the byte at index `i`
/// of a chunk whose first byte has stream position `offset`.
pub open spec fn pos_byte(i: int, offset: int) -> int {
    (i + offset) % 256
}

pub open spec fn reverse_all(s: Seq<u8>) -> Seq<u8> {
    Seq::new(s.len(), |i: int| reversed_bits(s[i]))
}

pub open spec fn xor_all(s: Seq<u8>, n: u8) -> Seq<u8> {
    Seq::new(s.len(), |i: int| s[i] ^ n)
}

pub open spec fn xor_pos(s: Seq<u8>, offset: int) -> Seq<u8> {
    Seq::new(s.len(), |i: int| s[i] ^ (pos_byte(i, offset) as u8))
}

pub open spec fn add_all(s: Seq<u8>, n: u8) -> Seq<u8> {
    Seq::new(s.len(), |i: int| ((s[i] + n) % 256) as u8)
}

pub open spec fn sub_all(s: Seq<u8>, n: u8) -> Seq<u8> {
    Seq::new(s.len(), |i: int| ((s[i] - n) % 256) as u8)
}

pub open spec fn add_pos(s: Seq<u8>, offset: int) -> Seq<u8> {
    Seq::new(s.len(), |i: int| ((s[i] + pos_byte(i, offset)) % 256) as u8)
}

pub open spec fn sub_pos(s: Seq<u8>, offset: int) -> Seq<u8> {
    Seq::new(s.len(), |i: int| ((s[i] - pos_byte(i, offset)) % 256) as u8)
}

/// Reverses the bits of every byte.
pub fn revesebits(bytes: &mut [u8])
    ensures
        final(bytes)@ == reverse_all(old(bytes)@),
{
    let n = bytes.len();
    let mut i: usize = 0;
    while i < n
        invariant
            n == bytes@.len(),
            n == old(bytes)@.len(),
            i <= n,
            forall|j: int| 0 <= j < i ==> bytes@[j] == reversed_bits(old(bytes)@[j]),
            forall|j: int| i <= j < n ==> bytes@[j] == old(bytes)@[j],
        decreases n - i,
    {
        let b = reverse_byte(bytes[i]);
        bytes[i] = b;
        i = i + 1;
    }
    assert(bytes@ =~= reverse_all(old(bytes)@));
}

/// XORs every byte with `n`.
pub fn xorn(bytes: &mut [u8], n: u8)
    ensures
        final(bytes)@ == xor_all(old(bytes)@, n),
{
    let len = bytes.len();
    let mut i: usize = 0;
    while i < len
        invariant
            len == bytes@.len(),
            len == old(bytes)@.len(),
            i <= len,
            forall|j: int| 0 <= j < i ==> bytes@[j] == old(bytes)@[j] ^ n,
            forall|j: int| i <= j < len ==> bytes@[j] == old(bytes)@[j],
        decreases len - i,
    {
        let b = bytes[i] ^ n;
        bytes[i] = b;
        i = i + 1;
    }
    assert(bytes@ =~= xor_all(old(bytes)@, n));
}

/// XORs every byte with its position in the stream (modulo 256), the chunk
/// starting at stream position `offset`.
pub fn xorpos(bytes: &mut [u8], offset: usize)
    requires
        offset + old(bytes)@.len() <= usize::MAX + 1,
    ensures
        final(bytes)@ == xor_pos(old(bytes)@, offset as int),
{
    let len = bytes.len();
    let mut i: usize = 0;
    while i < len
        invariant
            len == bytes@.len(),
            len == old(bytes)@.len(),
            offset + len <= usize::MAX + 1,
            i <= len,
            forall|j: int|
                0 <= j < i ==> bytes@[j] == old(bytes)@[j] ^ (pos_byte(j, offset as int) as u8),
            forall|j: int| i <= j < len ==> bytes@[j] == old(bytes)@[j],
        decreases len - i,
    {
        let p: u8 = ((i + offset) % 256) as u8;
        let b = bytes[i] ^ p;
        bytes[i] = b;
        i = i + 1;
    }
    assert(bytes@ =~= xor_pos(old(bytes)@, offset as int));
}

/// Adds `n` to every byte, wrapping modulo 256.
pub fn addn(bytes: &mut [u8], n: u8)
    ensures
        final(bytes)@ == add_all(old(bytes)@, n),
{
    let len = bytes.len();
    let mut i: usize = 0;
    while i < len
        invariant
            len == bytes@.len(),
            len == old(bytes)@.len(),
            i <= len,
            forall|j: int| 0 <= j < i ==> bytes@[j] == ((old(bytes)@[j] + n) % 256) as u8,
            forall|j: int| i <= j < len ==> bytes@[j] == old(bytes)@[j],
        decreases len - i,
    {
        let b = bytes[i].wrapping_add(n);
        bytes[i] = b;
        i = i + 1;
    }
    assert(bytes@ =~= add_all(old(bytes)@, n));
}

/// Subtracts `n` from every byte, wrapping modulo 256.
pub fn subn(bytes: &mut [u8], n: u8)
    ensures
        final(bytes)@ == sub_all(old(bytes)@, n),
{
    let len = bytes.len();
    let mut i: usize = 0;
    while i < len
        invariant
            len == bytes@.len(),
            len == old(bytes)@.len(),
            i <= len,
            forall|j: int| 0 <= j < i ==> bytes@[j] == ((old(bytes)@[j] - n) % 256) as u8,
            forall|j: int| i <= j < len ==> bytes@[j] == old(bytes)@[j],
        decreases len - i,
    {
        let b = bytes[i].wrapping_sub(n);
        bytes[i] = b;
        i = i + 1;
    }
    assert(bytes@ =~= sub_all(old(bytes)@, n));
}

/// Adds to every byte its position in the stream, wrapping modulo 256.
pub fn addpos(bytes: &mut [u8], offset: usize)
    requires
        offset + old(bytes)@.len() <= usize::MAX + 1,
    ensures
        final(bytes)@ == add_pos(old(bytes)@, offset as int),
{
    let len = bytes.len();
    let mut i: usize = 0;
    while i < len
        invariant
            len == bytes@.len(),
            len == old(bytes)@.len(),
            offset + len <= usize::MAX + 1,
            i <= len,
            forall|j: int|
                0 <= j < i ==> bytes@[j] == ((old(bytes)@[j] + pos_byte(j, offset as int)) % 256) as u8,
            forall|j: int| i <= j < len ==> bytes@[j] == old(bytes)@[j],
        decreases len - i,
    {
        let p: u8 = ((i + offset) % 256) as u8;
        let b = bytes[i].wrapping_add(p);
        bytes[i] = b;
        i = i + 1;
    }
    assert(bytes@ =~= add_pos(old(bytes)@, offset as int));
}

/// Subtracts from every byte its position in the stream, wrapping modulo 256.
pub fn subpos(bytes: &mut [u8], offset: usize)
    requires
        offset + old(bytes)@.len() <= usize::MAX + 1,
    ensures
        final(bytes)@ == sub_pos(old(bytes)@, offset as int),
{
    let len = bytes.len();
    let mut i: usize = 0;
    while i < len
        invariant
            len == bytes@.len(),
            len == old(bytes)@.len(),
            offset + len <= usize::MAX + 1,
            i <= len,
            forall|j: int|
                0 <= j < i ==> bytes@[j] == ((old(bytes)@[j] - pos_byte(j, offset as int)) % 256) as u8,
            forall|j: int| i <= j < len ==> bytes@[j] == old(bytes)@[j],
        decreases len - i,
    {
        let p: u8 = ((i + offset) % 256) as u8;
        let b = bytes[i].wrapping_sub(p);
        bytes[i] = b;
        i = i + 1;
    }
    assert(bytes@ =~= sub_pos(old(bytes)@, offset as int));
}


/// One operation of a cipher spec.
#[derive(Debug, Clone, Copy, PartialEq, Eq, Structural)]
pub enum Op {
    Rev,
    Xorn(u8),
    Xorpos,
    Addn(u8),
    Addpos,
}

/// What the operation `op` does to a chunk starting at stream position `offset`
/// when the server encodes.
pub open spec fn apply_op(op: Op, s: Seq<u8>, offset: int) -> Seq<u8> {
    match op {
        Op::Rev => reverse_all(s),
        Op::Xorn(n) => xor_all(s, n),
        Op::Xorpos => xor_pos(s, offset),
        Op::Addn(n) => add_all(s, n),
        Op::Addpos => add_pos(s, offset),
    }
}

/// What each operation does to the byte at index `i` of a chunk starting at stream
/// position `offset`, when the server encodes: reversebits mirrors its bits,
/// xor(N) xors it with N, xorpos with its position (mod 256), add(N) adds N and
/// addpos its position, both modulo 256.
pub proof fn lemma_op_meaning(op: Op, s: Seq<u8>, offset: int, i: int)
    requires
        0 <= i < s.len(),
        offset >= 0,
    ensures
        apply_op(op, s, offset).len() == s.len(),
        op == Op::Rev ==> forall|b: u8|
            b < 8 ==> #[trigger] ((apply_op(op, s, offset)[i] >> b) & 1) == (s[i] >> (7 - b) as u8) & 1,
        op matches Op::Xorn(n) ==> apply_op(op, s, offset)[i] ^ s[i] == n,
        op == Op::Xorpos ==> apply_op(op, s, offset)[i] ^ s[i] == (i + offset) % 256,
        op matches Op::Addn(n) ==> (apply_op(op, s, offset)[i] - s[i] - n) % 256 == 0,
        op == Op::Addpos ==> (apply_op(op, s, offset)[i] - s[i] - (i + offset)) % 256 == 0,
{
    let r = apply_op(op, s, offset);
    let x = s[i];
    match op {
        Op::Rev => {
            let y = r[i];
            assert(y == reversed_bits(x));
            assert(forall|b: u8| b < 8 ==> #[trigger] ((y >> b) & 1) == (x >> (7 - b) as u8) & 1)
                by (bit_vector)
                requires
                    y == reversed_bits(x),
            ;
        },
        Op::Xorn(n) => {
            let y = r[i];
            assert(y == x ^ n);
            assert(y ^ x == n) by (bit_vector)
                requires
                    y == x ^ n,
            ;
        },
        Op::Xorpos => {
            let y = r[i];
            let p = ((i + offset) % 256) as u8;
            assert(y == x ^ p);
            assert(y ^ x == p) by (bit_vector)
                requires
                    y == x ^ p,
            ;
        },
        Op::Addn(n) => {
            let v = (x + n) % 256;
            assert(r[i] == v);
            assert((v - x - n) % 256 == 0) by (nonlinear_arith)
                requires
                    v == (x + n) % 256,
            ;
        },
        Op::Addpos => {
            let q = (i + offset) % 256;
            let v = (x + q) % 256;
            assert(r[i] == v);
            assert((v - x - (i + offset)) % 256 == 0) by (nonlinear_arith)
                requires
                    v == (x + q) % 256,
                    q == (i + offset) % 256,
            ;
        },
    }
}

/// What the operation `op` does to a chunk when the server decodes: the inverse of
/// `apply_op`.
pub open spec fn unapply_op(op: Op, s: Seq<u8>, offset: int) -> Seq<u8> {
    match op {
        Op::Rev => reverse_all(s),
        Op::Xorn(n) => xor_all(s, n),
        Op::Xorpos => xor_pos(s, offset),
        Op::Addn(n) => sub_all(s, n),
        Op::Addpos => sub_pos(s, offset),
    }
}

/// Encoding applies the operations in order, the first one first.
pub open spec fn encoded(ops: Seq<Op>, data: Seq<u8>, offset: int) -> Seq<u8>
    decreases ops.len(),
{
    if ops.len() == 0 {
        data
    } else {
        apply_op(ops.last(), encoded(ops.drop_last(), data, offset), offset)
    }
}

/// Decoding undoes the operations in reverse order, the last one first.
pub open spec fn decoded(ops: Seq<Op>, data: Seq<u8>, offset: int) -> Seq<u8>
    decreases ops.len(),
{
    if ops.len() == 0 {
        data
    } else {
        unapply_op(ops[0], decoded(ops.drop_first(), data, offset), offset)
    }
}


proof fn lemma_add_sub_mod(b: int, p: int)
    requires
        0 <= b < 256,
        0 <= p < 256,
    ensures
        (((b + p) % 256) - p) % 256 == b,
        (((b - p) % 256) + p) % 256 == b,
{
    if b + p < 256 {
        assert((b + p) % 256 == b + p);
    } else {
        assert((b + p) % 256 == b + p - 256);
        assert((b - 256) % 256 == b);
    }
    if b - p >= 0 {
        assert((b - p) % 256 == b - p);
    } else {
        assert((b - p) % 256 == b - p + 256);
        assert((b + 256) % 256 == b);
    }
}

proof fn lemma_op_inverse(op: Op, s: Seq<u8>, offset: int)
    ensures
        unapply_op(op, apply_op(op, s, offset), offset) == s,
        apply_op(op, unapply_op(op, s, offset), offset) == s,
{
    match op {
        Op::Rev => {
            assert forall|i: int| 0 <= i < s.len() implies reversed_bits(reversed_bits(s[i]))
                == s[i] by {
                lemma_reversed_bits_involution(s[i]);
            }
            assert(reverse_all(reverse_all(s)) =~= s);
        },
        Op::Xorn(n) => {
            assert forall|i: int| 0 <= i < s.len() implies (s[i] ^ n) ^ n == s[i] by {
                let b = s[i];
                assert((b ^ n) ^ n == b) by (bit_vector);
            }
            assert(xor_all(xor_all(s, n), n) =~= s);
        },
        Op::Xorpos => {
            assert forall|i: int| 0 <= i < s.len() implies (s[i] ^ (pos_byte(i, offset) as u8)) ^ (
            pos_byte(i, offset) as u8) == s[i] by {
                let b = s[i];
                let p = pos_byte(i, offset) as u8;
                assert((b ^ p) ^ p == b) by (bit_vector);
            }
            assert(xor_pos(xor_pos(s, offset), offset) =~= s);
        },
        Op::Addn(n) => {
            assert forall|i: int| 0 <= i < s.len() implies ((((s[i] + n) % 256) as u8 - n) % 256)
                as u8 == s[i] && ((((s[i] - n) % 256) as u8 + n) % 256) as u8 == s[i] by {
                lemma_add_sub_mod(s[i] as int, n as int);
            }
            assert(sub_all(add_all(s, n), n) =~= s);
            assert(add_all(sub_all(s, n), n) =~= s);
        },
        Op::Addpos => {
            assert forall|i: int| 0 <= i < s.len() implies ((((s[i] + pos_byte(i, offset)) % 256)
                as u8 - pos_byte(i, offset)) % 256) as u8 == s[i] && ((((s[i] - pos_byte(i, offset))
                % 256) as u8 + pos_byte(i, offset)) % 256) as u8 == s[i] by {
                lemma_add_sub_mod(s[i] as int, pos_byte(i, offset));
            }
            assert(sub_pos(add_pos(s, offset), offset) =~= s);
            assert(add_pos(sub_pos(s, offset), offset) =~= s);
        },
    }
}

proof fn lemma_decoded_last(ops: Seq<Op>, data: Seq<u8>, offset: int)
    requires
        ops.len() > 0,
    ensures
        decoded(ops, data, offset) == decoded(
            ops.drop_last(),
            unapply_op(ops.last(), data, offset),
            offset,
        ),
    decreases ops.len(),
{
    let x = unapply_op(ops.last(), data, offset);
    if ops.len() == 1 {
        assert(ops.drop_first().len() == 0);
        assert(ops.drop_last().len() == 0);
        assert(ops.last() == ops[0]);
        assert(decoded(ops.drop_first(), data, offset) == data);
        assert(decoded(ops.drop_last(), x, offset) == x);
    } else {
        lemma_decoded_last(ops.drop_first(), data, offset);
        assert(ops.drop_first().drop_last() =~= ops.drop_last().drop_first());
        assert(ops.drop_first().last() == ops.last());
        assert(ops.drop_last()[0] == ops[0]);
        assert(decoded(ops.drop_last(), x, offset) == unapply_op(
            ops[0],
            decoded(ops.drop_last().drop_first(), x, offset),
            offset,
        ));
    }
}

proof fn lemma_encoded_first(ops: Seq<Op>, data: Seq<u8>, offset: int)
    requires
        ops.len() > 0,
    ensures
        encoded(ops, data, offset) == encoded(
            ops.drop_first(),
            apply_op(ops[0], data, offset),
            offset,
        ),
    decreases ops.len(),
{
    let x = apply_op(ops[0], data, offset);
    if ops.len() == 1 {
        assert(ops.drop_first().len() == 0);
        assert(ops.drop_last().len() == 0);
        assert(ops.last() == ops[0]);
        assert(encoded(ops.drop_first(), x, offset) == x);
        assert(encoded(ops.drop_last(), data, offset) == data);
    } else {
        lemma_encoded_first(ops.drop_last(), data, offset);
        assert(ops.drop_first().drop_last() =~= ops.drop_last().drop_first());
        assert(ops.drop_first().last() == ops.last());
        assert(ops.drop_last()[0] == ops[0]);
        assert(encoded(ops.drop_first(), x, offset) == apply_op(
            ops.last(),
            encoded(ops.drop_first().drop_last(), x, offset),
            offset,
        ));
    }
}

pub proof fn lemma_coded_len(ops: Seq<Op>, data: Seq<u8>, offset: int)
    ensures
        encoded(ops, data, offset).len() == data.len(),
        decoded(ops, data, offset).len() == data.len(),
    decreases ops.len(),
{
    if ops.len() > 0 {
        lemma_coded_len(ops.drop_last(), data, offset);
        lemma_coded_len(ops.drop_first(), data, offset);
    }
}

/// Decoding what was encoded with the same cipher spec, at the same stream
/// position, gives back the same bytes.
pub proof fn lemma_decode_encode(ops: Seq<Op>, data: Seq<u8>, offset: int)
    ensures
        decoded(ops, encoded(ops, data, offset), offset) == data,
    decreases ops.len(),
{
    if ops.len() > 0 {
        let e = encoded(ops.drop_last(), data, offset);
        lemma_decoded_last(ops, encoded(ops, data, offset), offset);
        lemma_op_inverse(ops.last(), e, offset);
        lemma_decode_encode(ops.drop_last(), data, offset);
    }
}

/// Encoding what was decoded with the same cipher spec, at the same stream
/// position, gives back the same bytes.
pub proof fn lemma_encode_decode(ops: Seq<Op>, data: Seq<u8>, offset: int)
    ensures
        encoded(ops, decoded(ops, data, offset), offset) == data,
    decreases ops.len(),
{
    if ops.len() > 0 {
        let d = decoded(ops.drop_first(), data, offset);
        lemma_encoded_first(ops, decoded(ops, data, offset), offset);
        lemma_op_inverse(ops[0], d, offset);
        lemma_encode_decode(ops.drop_first(), data, offset);
    }
}


/// Decodes a chunk received from the client in place: undoes the operations of
/// `ops` from the last to the first; `offset` is the stream position of the
/// chunk's first byte.
pub fn decode(ops: &Vec<Op>, data: &mut [u8], offset: usize)
    requires
        offset + old(data)@.len() <= usize::MAX + 1,
    ensures
        final(data)@ == decoded(ops@, old(data)@, offset as int),
{
    let n = ops.len();
    let mut k: usize = n;
    while k > 0
        invariant
            n == ops@.len(),
            k <= n,
            data@.len() == old(data)@.len(),
            offset + data@.len() <= usize::MAX + 1,
            data@ == decoded(ops@.subrange(k as int, n as int), old(data)@, offset as int),
        decreases k,
    {
        let ghost prev = data@;
        k = k - 1;
        match ops[k] {
            Op::Rev => revesebits(data),
            Op::Xorn(x) => xorn(data, x),
            Op::Xorpos => xorpos(data, offset),
            Op::Addn(x) => subn(data, x),
            Op::Addpos => subpos(data, offset),
        }
        proof {
            let suffix = ops@.subrange(k as int, n as int);
            assert(suffix.drop_first() =~= ops@.subrange(k + 1, n as int));
            assert(suffix[0] == ops@[k as int]);
            assert(data@ == unapply_op(ops@[k as int], prev, offset as int));
        }
    }
    assert(ops@.subrange(0, n as int) =~= ops@);
}

/// Encodes a chunk to send to the client in place: applies the operations of
/// `ops` from the first to the last; `offset` is the stream position of the
/// chunk's first byte.
pub fn encode(ops: &Vec<Op>, data: &mut [u8], offset: usize)
    requires
        offset + old(data)@.len() <= usize::MAX + 1,
    ensures
        final(data)@ == encoded(ops@, old(data)@, offset as int),
{
    let n = ops.len();
    let mut k: usize = 0;
    while k < n
        invariant
            n == ops@.len(),
            k <= n,
            data@.len() == old(data)@.len(),
            offset + data@.len() <= usize::MAX + 1,
            data@ == encoded(ops@.take(k as int), old(data)@, offset as int),
        decreases n - k,
    {
        let ghost prev = data@;
        match ops[k] {
            Op::Rev => revesebits(data),
            Op::Xorn(x) => xorn(data, x),
            Op::Xorpos => xorpos(data, offset),
            Op::Addn(x) => addn(data, x),
            Op::Addpos => addpos(data, offset),
        }
        proof {
            let prefix = ops@.take(k + 1);
            assert(prefix.drop_last() =~= ops@.take(k as int));
            assert(prefix.last() == ops@[k as int]);
            assert(data@ == apply_op(ops@[k as int], prev, offset as int));
        }
        k = k + 1;
    }
    assert(ops@.take(n as int) =~= ops@);
}


pub const X_REVESEBITS: u8 = 0x01;

pub const X_XORN: u8 = 0x02;

pub const X_XORPOS: u8 = 0x03;

pub const X_ADDN: u8 = 0x04;

pub const X_ADDPOS: u8 = 0x05;

/// The operations that the cipher spec `s` lists from index `i` on, reading no op
/// byte at or past `end` (the argument byte of `xor(N)` and `add(N)` is taken
/// whatever its index); `None` where an argument byte is missing from `s`.
/// A zero op byte ends the list; unknown op bytes are skipped.
pub open spec fn ops_from(s: Seq<u8>, end: int, i: int) -> Option<Seq<Op>>
    decreases end + 1 - i,
{
    if i < 0 || i >= end || i >= s.len() {
        Some(Seq::empty())
    } else {
        let b = s[i];
        if b == X_XORN || b == X_ADDN {
            if i + 1 >= s.len() {
                None
            } else {
                let op = if b == X_XORN {
                    Op::Xorn(s[i + 1])
                } else {
                    Op::Addn(s[i + 1])
                };
                match ops_from(s, end, i + 2) {
                    Some(rest) => Some(seq![op] + rest),
                    None => None,
                }
            }
        } else if b == X_REVESEBITS || b == X_XORPOS || b == X_ADDPOS {
            let op = if b == X_REVESEBITS {
                Op::Rev
            } else if b == X_XORPOS {
                Op::Xorpos
            } else {
                Op::Addpos
            };
            match ops_from(s, end, i + 1) {
                Some(rest) => Some(seq![op] + rest),
                None => None,
            }
        } else if b == 0 {
            Some(Seq::empty())
        } else {
            ops_from(s, end, i + 1)
        }
    }
}

/// What each byte of a cipher spec means: 0x01 is reversebits, 0x02 N is xor(N),
/// 0x03 is xorpos, 0x04 N is add(N), 0x05 is addpos, each followed by the
/// operations after it; 0x00 ends the spec; any other byte is skipped.
pub proof fn lemma_op_bytes(s: Seq<u8>, end: int, i: int)
    requires
        0 <= i < end,
        i < s.len(),
    ensures
        s[i] == 0x01 ==> ops_from(s, end, i) == match ops_from(s, end, i + 1) {
            Some(rest) => Some(seq![Op::Rev] + rest),
            None => None,
        },
        s[i] == 0x02 && i + 1 < s.len() ==> ops_from(s, end, i) == match ops_from(s, end, i + 2) {
            Some(rest) => Some(seq![Op::Xorn(s[i + 1])] + rest),
            None => None,
        },
        s[i] == 0x03 ==> ops_from(s, end, i) == match ops_from(s, end, i + 1) {
            Some(rest) => Some(seq![Op::Xorpos] + rest),
            None => None,
        },
        s[i] == 0x04 && i + 1 < s.len() ==> ops_from(s, end, i) == match ops_from(s, end, i + 2) {
            Some(rest) => Some(seq![Op::Addn(s[i + 1])] + rest),
            None => None,
        },
        s[i] == 0x05 ==> ops_from(s, end, i) == match ops_from(s, end, i + 1) {
            Some(rest) => Some(seq![Op::Addpos] + rest),
            None => None,
        },
        (s[i] == 0x02 || s[i] == 0x04) && i + 1 >= s.len() ==> ops_from(s, end, i) is None,
        s[i] == 0x00 ==> ops_from(s, end, i) == Some(Seq::<Op>::empty()),
        s[i] > 0x05 ==> ops_from(s, end, i) == ops_from(s, end, i + 1),
{
}

/// Reading stops at `end` and at the end of the spec: nothing more is read there.
pub proof fn lemma_ops_stop(s: Seq<u8>, end: int, i: int)
    requires
        0 <= i,
        i >= end || i >= s.len(),
    ensures
        ops_from(s, end, i) == Some(Seq::<Op>::empty()),
{
}

/// Whether every `xor(N)` and `add(N)` in the first `end` bytes of `spec` has its
/// argument byte in `spec`, which `parse_ops` needs.
pub fn cipher_spec_complete(spec: &[u8], end: usize) -> (b: bool)
    requires
        end <= spec@.len(),
    ensures
        b == ops_from(spec@, end as int, 0) is Some,
{
    let mut i: usize = 0;
    while i < end
        invariant
            end <= spec@.len(),
            i <= end + 1,
            ops_from(spec@, end as int, 0) is Some <==> ops_from(spec@, end as int, i as int) is Some,
        decreases end + 1 - i,
    {
        let op = spec[i];
        if op == X_XORN || op == X_ADDN {
            if i + 1 >= spec.len() {
                return false;
            }
            i = i + 2;
        } else if op == 0 {
            return true;
        } else {
            i = i + 1;
        }
    }
    true
}

/// Reads a cipher spec: the operations that the first `end` bytes of `spec` list.
pub fn parse_ops(spec: &[u8], end: usize) -> (ops: Vec<Op>)
    requires
        end <= spec@.len(),
        ops_from(spec@, end as int, 0) is Some,
    ensures
        ops@ == ops_from(spec@, end as int, 0).unwrap(),
{
    let mut ops: Vec<Op> = Vec::new();
    let mut i: usize = 0;
    while i < end
        invariant_except_break
            end <= spec@.len(),
            i <= end + 1,
            ops_from(spec@, end as int, i as int) is Some,
            ops@ + ops_from(spec@, end as int, i as int).unwrap() == ops_from(
                spec@,
                end as int,
                0,
            ).unwrap(),
        ensures
            ops@ == ops_from(spec@, end as int, 0).unwrap(),
        decreases end + 1 - i,
    {
        let ghost rest = ops_from(spec@, end as int, i as int).unwrap();
        let op = spec[i];
        if op == X_REVESEBITS {
            ops.push(Op::Rev);
        } else if op == X_XORN {
            i = i + 1;
            let n = spec[i];
            ops.push(Op::Xorn(n));
        } else if op == X_XORPOS {
            ops.push(Op::Xorpos);
        } else if op == X_ADDN {
            i = i + 1;
            let n = spec[i];
            ops.push(Op::Addn(n));
        } else if op == X_ADDPOS {
            ops.push(Op::Addpos);
        } else if op == 0 {
            assert(rest =~= Seq::<Op>::empty());
            assert(ops@ + rest =~= ops@);
            break;
        }
        i = i + 1;
        proof {
            let tail = ops_from(spec@, end as int, i as int).unwrap();
            if op == X_REVESEBITS || op == X_XORN || op == X_XORPOS || op == X_ADDN || op == X_ADDPOS {
                assert(rest == seq![ops@.last()] + tail);
                assert(ops@ + tail =~= ops@.drop_last() + rest);
            }
        }
    }
    if i >= end {
        assert(ops@ + Seq::<Op>::empty() =~= ops@);
    }
    ops
}


/// The reply to a line of toy requests: the request with the most copies, followed
/// by a newline.
pub open spec fn most_copies_reply(line: Seq<u8>) -> Seq<u8> {
    let items = split_on(line, 44);
    items[choose|k: int| is_most_copies(items, k)].push(10)
}

pub proof fn lemma_most_copies_unique(items: Seq<Seq<u8>>, k1: int, k2: int)
    requires
        is_most_copies(items, k1),
        is_most_copies(items, k2),
    ensures
        k1 == k2,
{
    if k1 < k2 {
        assert(toy_count(items[k2]).unwrap() < toy_count(items[k1]).unwrap());
    } else if k2 < k1 {
        assert(toy_count(items[k1]).unwrap() < toy_count(items[k2]).unwrap());
    }
}

/// The number of copies that a toy request `item` (such as `10x toy car`) asks
/// for: the number before its first `x`.
pub open spec fn toy_count(item: Seq<u8>) -> Option<usize> {
    match first_index_of(item, 120) {
        Some(k) => parsed_usize(item.take(k)),
        None => None,
    }
}

/// A line of comma-separated toy requests, each with a number of copies.
pub open spec fn valid_toy_line(line: Seq<u8>) -> bool {
    forall|i: int|
        0 <= i < split_on(line, 44).len() ==> #[trigger] toy_count(split_on(line, 44)[i]) is Some
}

/// `k` is the index of the toy request of `items` with the most copies, the last
/// one where several have as many.
pub open spec fn is_most_copies(items: Seq<Seq<u8>>, k: int) -> bool {
    &&& 0 <= k < items.len()
    &&& forall|j: int|
        0 <= j < items.len() ==> #[trigger] toy_count(items[j]).unwrap() <= toy_count(
            items[k],
        ).unwrap()
    &&& forall|j: int|
        k < j < items.len() ==> #[trigger] toy_count(items[j]).unwrap() < toy_count(
            items[k],
        ).unwrap()
}

/// The number of copies that `item` asks for, if it says.
pub fn toy_copies(item: &[u8]) -> (r: Option<usize>)
    ensures
        r == toy_count(item@),
{
    match find_byte(item, 120) {
        Some(k) => {
            let prefix = &item[0..k];
            assert(prefix@ =~= item@.take(k as int));
            parse_usize(prefix)
        },
        None => None,
    }
}

/// Whether a line is a list of toy requests that `get_most_copies` can answer.
pub fn is_valid_toy_line(line: &[u8]) -> (b: bool)
    ensures
        b == valid_toy_line(line@),
{
    let items = split_bytes(line, 44);
    let mut i: usize = 0;
    while i < items.len()
        invariant
            views(items@) == split_on(line@, 44),
            i <= items@.len(),
            forall|j: int| 0 <= j < i ==> #[trigger] toy_count(split_on(line@, 44)[j]) is Some,
        decreases items@.len() - i,
    {
        if toy_copies(items[i].as_slice()).is_none() {
            assert(toy_count(split_on(line@, 44)[i as int]) is None);
            return false;
        }
        i = i + 1;
    }
    true
}

/// The answer to a line of toy requests: the request with the most copies,
/// followed by a newline.
pub fn get_most_copies(msg: &[u8]) -> (r: Vec<u8>)
    requires
        valid_toy_line(msg@),
    ensures
        r@ == most_copies_reply(msg@),
{
    let items = split_bytes(msg, 44);
    let ghost sp = split_on(msg@, 44);
    proof {
        crate::text::lemma_split_on_nonempty(msg@, 44);
    }
    assert(toy_count(sp[0]) is Some);
    let mut best: usize = 0;
    let mut best_count: usize = match toy_copies(items[0].as_slice()) {
        Some(c) => c,
        None => 0,
    };
    let mut i: usize = 1;
    while i < items.len()
        invariant
            views(items@) == sp,
            sp == split_on(msg@, 44),
            valid_toy_line(msg@),
            1 <= i <= items@.len(),
            best < i,
            best_count == toy_count(sp[best as int]).unwrap(),
            forall|j: int| 0 <= j < i ==> #[trigger] toy_count(sp[j]).unwrap() <= best_count,
            forall|j: int| best < j < i ==> #[trigger] toy_count(sp[j]).unwrap() < best_count,
        decreases items@.len() - i,
    {
        assert(toy_count(sp[i as int]) is Some);
        let c = match toy_copies(items[i].as_slice()) {
            Some(c) => c,
            None => 0,
        };
        if c >= best_count {
            best = i;
            best_count = c;
        }
        i = i + 1;
    }
    let mut r = items[best].clone();
    r.push(10);
    assert(is_most_copies(sp, best as int));
    proof {
        let k = choose|k: int| is_most_copies(sp, k);
        lemma_most_copies_unique(sp, k, best as int);
    }
    r
}


/// The state of a connection of the insecure sockets layer, between chunks.
pub struct IslConnection {
    /// Whether a chunk has already shown that the cipher is not a no-op.
    pub validated: bool,
    /// The stream position of the next byte from the client.
    pub in_cnt: usize,
    /// The stream position of the next byte to the client.
    pub out_cnt: usize,
    /// The decoded text received after the last newline.
    pub data_line: Vec<u8>,
}

impl IslConnection {
    pub fn new() -> (c: Self)
        ensures
            !c.validated,
            c.in_cnt == 0,
            c.out_cnt == 0,
            c.data_line@ == Seq::<u8>::empty(),
    {
        IslConnection { validated: false, in_cnt: 0, out_cnt: 0, data_line: Vec::new() }
    }

    /// Decodes a chunk from the client in place. Returns `false`, leaving the
    /// connection as it was, where this is the first chunk and decoding left it
    /// unchanged (a cipher that does nothing: the connection ends); otherwise the
    /// connection has counted the chunk's bytes.
    pub fn decode_chunk(&mut self, ops: &Vec<Op>, chunk: &mut Vec<u8>) -> (go_on: bool)
        requires
            old(self).in_cnt + old(chunk)@.len() <= usize::MAX,
        ensures
            final(chunk)@ == decoded(ops@, old(chunk)@, old(self).in_cnt as int),
            go_on == (old(self).validated || final(chunk)@ != old(chunk)@),
            go_on ==> final(self).validated && final(self).in_cnt == old(self).in_cnt + old(
                chunk,
            )@.len(),
            !go_on ==> final(self).validated == old(self).validated && final(self).in_cnt == old(
                self,
            ).in_cnt,
            final(self).out_cnt == old(self).out_cnt,
            final(self).data_line@ == old(self).data_line@,
    {
        let orig = chunk.clone();
        assert(orig@ =~= chunk@);
        decode(ops, chunk.as_mut_slice(), self.in_cnt);
        proof {
            lemma_coded_len(ops@, orig@, self.in_cnt as int);
        }
        let same = bytes_equal(chunk.as_slice(), orig.as_slice());
        if !self.validated && same {
            return false;
        }
        self.validated = true;
        self.in_cnt = self.in_cnt + chunk.len();
        true
    }

    /// Adds decoded text to the pending line and takes out the complete lines:
    /// everything up to the last newline, split at each newline; what follows the
    /// last newline stays pending.
    pub fn take_lines(&mut self, text: &[u8]) -> (lines: Vec<Vec<u8>>)
        ensures
            ({
                let all = old(self).data_line@ + text@;
                match last_index_of(all, 10) {
                    Some(k) => views(lines@) == split_on(all.take(k), 10) && final(self).data_line@
                        == all.skip(k + 1),
                    None => lines@.len() == 0 && final(self).data_line@ == all,
                }
            }),
            final(self).validated == old(self).validated,
            final(self).in_cnt == old(self).in_cnt,
            final(self).out_cnt == old(self).out_cnt,
    {
        let mut i: usize = 0;
        let ghost start = self.data_line@;
        while i < text.len()
            invariant
                i <= text@.len(),
                self.data_line@ == start + text@.take(i as int),
                self.validated == old(self).validated,
                self.in_cnt == old(self).in_cnt,
                self.out_cnt == old(self).out_cnt,
            decreases text@.len() - i,
        {
            self.data_line.push(text[i]);
            assert(start + text@.take(i + 1) =~= (start + text@.take(i as int)).push(text@[i as int]));
            i = i + 1;
        }
        assert(text@.take(text@.len() as int) =~= text@);
        let total = self.data_line.len();
        match rfind_byte(self.data_line.as_slice(), 10) {
            Some(k) => {
                let head = &self.data_line.as_slice()[0..k];
                assert(head@ =~= self.data_line@.take(k as int));
                let lines = split_bytes(head, 10);
                let ghost all = self.data_line@;
                let tail = self.data_line.split_off(k + 1);
                assert(tail@ =~= all.skip(k + 1));
                self.data_line = tail;
                lines
            },
            None => Vec::new(),
        }
    }

    /// The encoded reply to a complete line of toy requests; counts its bytes.
    pub fn respond(&mut self, ops: &Vec<Op>, line: &[u8]) -> (reply: Vec<u8>)
        requires
            valid_toy_line(line@),
            old(self).out_cnt + line@.len() + 1 <= usize::MAX,
        ensures
            reply@ == encoded(ops@, most_copies_reply(line@), old(self).out_cnt as int),
            final(self).out_cnt == old(self).out_cnt + reply@.len(),
            final(self).validated == old(self).validated,
            final(self).in_cnt == old(self).in_cnt,
            final(self).data_line@ == old(self).data_line@,
    {
        let mut resp = get_most_copies(line);
        proof {
            lemma_reply_len(line@);
        }
        let ghost plain = resp@;
        encode(ops, resp.as_mut_slice(), self.out_cnt);
        proof {
            lemma_coded_len(ops@, plain, self.out_cnt as int);
        }
        self.out_cnt = self.out_cnt + resp.len();
        resp
    }
}

proof fn lemma_most_copies_exists(items: Seq<Seq<u8>>)
    requires
        items.len() >= 1,
    ensures
        exists|k: int| is_most_copies(items, k),
    decreases items.len(),
{
    if items.len() == 1 {
        assert(is_most_copies(items, 0));
    } else {
        let prev = items.drop_last();
        lemma_most_copies_exists(prev);
        let k = choose|k: int| is_most_copies(prev, k);
        let n = items.len() - 1;
        assert(forall|j: int| 0 <= j < n ==> prev[j] == items[j]);
        if toy_count(items[n]).unwrap() >= toy_count(items[k]).unwrap() {
            assert(is_most_copies(items, n));
        } else {
            assert(is_most_copies(items, k));
        }
    }
}

proof fn lemma_reply_len(line: Seq<u8>)
    requires
        valid_toy_line(line),
    ensures
        most_copies_reply(line).len() <= line.len() + 1,
{
    let items = split_on(line, 44);
    crate::text::lemma_split_on_nonempty(line, 44);
    lemma_most_copies_exists(items);
    let k = choose|k: int| is_most_copies(items, k);
    crate::text::lemma_split_piece_len(line, 44, k);
}

} // verus!

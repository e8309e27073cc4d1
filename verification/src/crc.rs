//! The CRC-32 checksum of IEEE 802.3, by table.
use vstd::prelude::*;

verus! {

/// One step of the division: the lowest bit is shifted out, and the reversed
/// polynomial is added where it was set.
pub open spec fn bit_step(c: u32) -> u32 {
    if c & 1 != 0 {
        0xEDB88320u32 ^ (c >> 1)
    } else {
        c >> 1
    }
}

/// Eight steps of the division.
pub open spec fn byte_steps(c: u32) -> u32 {
    bit_step(bit_step(bit_step(bit_step(bit_step(bit_step(bit_step(bit_step(c))))))))
}

/// Some steps of the division.
pub open spec fn bit_steps(c: u32, n: nat) -> u32
    decreases n,
{
    if n == 0 {
        c
    } else {
        bit_step(bit_steps(c, (n - 1) as nat))
    }
}

/// The register after some bytes.
pub open spec fn register(s: Seq<u8>) -> u32
    decreases s.len(),
{
    if s.len() == 0 {
        0xFFFF_FFFFu32
    } else {
        byte_steps(register(s.drop_last()) ^ (s.last() as u32))
    }
}

/// The CRC-32 of some bytes.
pub open spec fn crc(s: Seq<u8>) -> u32 {
    register(s) ^ 0xFFFF_FFFFu32
}

proof fn lemma_bit_step_linear(a: u32, b: u32)
    ensures
        bit_step(a ^ b) == bit_step(a) ^ bit_step(b),
{
    assert(bit_step(a ^ b) == bit_step(a) ^ bit_step(b)) by (bit_vector);
}

proof fn lemma_bit_step_injective(a: u32, b: u32)
    requires
        bit_step(a) == bit_step(b),
    ensures
        a == b,
{
    assert(bit_step(a) == bit_step(b) ==> a == b) by (bit_vector);
}

proof fn lemma_byte_steps_linear(a: u32, b: u32)
    ensures
        byte_steps(a ^ b) == byte_steps(a) ^ byte_steps(b),
{
    let a1 = bit_step(a);
    let b1 = bit_step(b);
    let a2 = bit_step(a1);
    let b2 = bit_step(b1);
    let a3 = bit_step(a2);
    let b3 = bit_step(b2);
    let a4 = bit_step(a3);
    let b4 = bit_step(b3);
    let a5 = bit_step(a4);
    let b5 = bit_step(b4);
    let a6 = bit_step(a5);
    let b6 = bit_step(b5);
    let a7 = bit_step(a6);
    let b7 = bit_step(b6);
    lemma_bit_step_linear(a, b);
    lemma_bit_step_linear(a1, b1);
    lemma_bit_step_linear(a2, b2);
    lemma_bit_step_linear(a3, b3);
    lemma_bit_step_linear(a4, b4);
    lemma_bit_step_linear(a5, b5);
    lemma_bit_step_linear(a6, b6);
    lemma_bit_step_linear(a7, b7);
}

proof fn lemma_byte_steps_injective(a: u32, b: u32)
    requires
        byte_steps(a) == byte_steps(b),
    ensures
        a == b,
{
    let a1 = bit_step(a);
    let b1 = bit_step(b);
    let a2 = bit_step(a1);
    let b2 = bit_step(b1);
    let a3 = bit_step(a2);
    let b3 = bit_step(b2);
    let a4 = bit_step(a3);
    let b4 = bit_step(b3);
    let a5 = bit_step(a4);
    let b5 = bit_step(b4);
    let a6 = bit_step(a5);
    let b6 = bit_step(b5);
    let a7 = bit_step(a6);
    let b7 = bit_step(b6);
    lemma_bit_step_injective(a7, b7);
    lemma_bit_step_injective(a6, b6);
    lemma_bit_step_injective(a5, b5);
    lemma_bit_step_injective(a4, b4);
    lemma_bit_step_injective(a3, b3);
    lemma_bit_step_injective(a2, b2);
    lemma_bit_step_injective(a1, b1);
    lemma_bit_step_injective(a, b);
}

/// Eight steps shift a register whose lowest byte is zero.
proof fn lemma_shifted(c: u32)
    requires
        c & 0xff == 0,
    ensures
        byte_steps(c) == c >> 8,
{
    assert(bit_step(c) == c >> 1 && (c >> 1) & 0x7f == 0) by (bit_vector)
        requires
            c & 0xff == 0,
    ;
    let d = c >> 1;
    assert(bit_step(bit_step(d)) == d >> 2 && (d >> 2) & 0x1f == 0 && d >> 2 == c >> 3) by (bit_vector)
        requires
            d & 0x7f == 0,
            d == c >> 1,
    ;
    let e = d >> 2;
    assert(bit_step(bit_step(bit_step(bit_step(bit_step(e))))) == e >> 5 && e >> 5 == c >> 8) by (bit_vector)
        requires
            e & 0x1f == 0,
            e == c >> 3,
    ;
}

/// Eight steps on a register, by the steps on its lowest byte alone.
proof fn lemma_by_table(c: u32)
    ensures
        byte_steps(c) == (c >> 8) ^ byte_steps(c & 0xff),
{
    let low = c & 0xff;
    let high = c & 0xffffff00u32;
    assert(c == high ^ low && high & 0xff == 0 && high >> 8 == c >> 8) by (bit_vector)
        requires
            low == c & 0xff,
            high == c & 0xffffff00u32,
    ;
    lemma_byte_steps_linear(high, low);
    lemma_shifted(high);
}

/// The table of what eight steps make of each byte.
pub fn crc_table() -> (r: [u32; 256])
    ensures
        forall|i: int| 0 <= i < 256 ==> #[trigger] r@[i] == byte_steps(i as u32),
{
    let mut table = [0u32; 256];
    let mut i: usize = 0;
    while i < 256
        invariant
            i <= 256,
            forall|j: int| 0 <= j < i ==> #[trigger] table@[j] == byte_steps(j as u32),
        decreases 256 - i,
    {
        let mut c: u32 = i as u32;
        let mut bit: u32 = 0;
        while bit < 8
            invariant
                bit <= 8,
                c == bit_steps(i as u32, bit as nat),
            decreases 8 - bit,
        {
            c = if c & 1 != 0 {
                0xEDB88320u32 ^ (c >> 1)
            } else {
                c >> 1
            };
            bit = bit + 1;
        }
        assert(c == byte_steps(i as u32)) by {
            reveal_with_fuel(bit_steps, 9);
        }
        table[i] = c;
        i = i + 1;
    }
    table
}

/// The CRC-32 of some bytes.
pub fn crc32(data: &[u8]) -> (r: u32)
    ensures
        r == crc(data@),
{
    let table = crc_table();
    let mut c: u32 = 0xFFFF_FFFF;
    assert(data@.take(0) =~= Seq::empty());
    for i in 0..data.len()
        invariant
            forall|j: int| 0 <= j < 256 ==> #[trigger] table@[j] == byte_steps(j as u32),
            c == register(data@.take(i as int)),
    {
        let byte: u8 = data[i];
        let mixed: u32 = c ^ (byte as u32);
        let index: usize = (mixed & 0xff) as usize;
        proof {
            assert(mixed & 0xff < 256) by (bit_vector);
            lemma_by_table(mixed);
            assert(table@[index as int] == byte_steps(mixed & 0xff));
            assert(data@.take(i + 1).drop_last() =~= data@.take(i as int));
        }
        c = (c >> 8) ^ table[index];
        proof {
            let old_c = register(data@.take(i as int));
            assert(mixed >> 8 == old_c >> 8) by (bit_vector)
                requires
                    mixed == old_c ^ (byte as u32),
            ;
        }
    }
    assert(data@.take(data@.len() as int) =~= data@);
    c ^ 0xFFFF_FFFF
}

/// The CRC-32 of some bytes.
pub fn checksum(data: &[u8]) -> (r: u32)
    ensures
        r == crc(data@),
{
    crc32(data)
}

proof fn lemma_register_differs(s: Seq<u8>, i: int, b: u8)
    requires
        0 <= i < s.len(),
        s[i] != b,
    ensures
        register(s) != register(s.update(i, b)),
    decreases s.len(),
{
    let t = s.update(i, b);
    let n = s.len() - 1;
    let x = register(s.drop_last());
    let y = register(t.drop_last());
    let p = s.last();
    let q = t.last();
    if i == n {
        assert(t.drop_last() =~= s.drop_last());
        assert(x ^ (p as u32) != x ^ (q as u32)) by (bit_vector)
            requires
                p != q,
        ;
        if register(s) == register(t) {
            lemma_byte_steps_injective(x ^ (p as u32), y ^ (q as u32));
        }
    } else {
        assert(t.drop_last() =~= s.drop_last().update(i, b));
        lemma_register_differs(s.drop_last(), i, b);
        assert(x ^ (p as u32) != y ^ (p as u32)) by (bit_vector)
            requires
                x != y,
        ;
        if register(s) == register(t) {
            lemma_byte_steps_injective(x ^ (p as u32), y ^ (q as u32));
        }
    }
}

/// A single byte that is not what it was changes the checksum.
pub proof fn law_crc_detects_one_byte(s: Seq<u8>, i: int, b: u8)
    requires
        0 <= i < s.len(),
        s[i] != b,
    ensures
        crc(s) != crc(s.update(i, b)),
{
    lemma_register_differs(s, i, b);
    let x = register(s);
    let y = register(s.update(i, b));
    assert(x ^ 0xFFFF_FFFFu32 != y ^ 0xFFFF_FFFFu32) by (bit_vector)
        requires
            x != y,
    ;
}

/// The empty text has the checksum zero.
pub proof fn law_crc_of_nothing()
    ensures
        crc(Seq::empty()) == 0,
{
    assert(0xFFFF_FFFFu32 ^ 0xFFFF_FFFFu32 == 0) by (bit_vector);
}

proof fn lemma_register_affine(a: Seq<u8>, b: Seq<u8>, c: Seq<u8>, d: Seq<u8>)
    requires
        a.len() == b.len() == c.len() == d.len(),
        forall|i: int| 0 <= i < a.len() ==> #[trigger] d[i] == a[i] ^ b[i] ^ c[i],
    ensures
        register(d) == register(a) ^ register(b) ^ register(c),
    decreases a.len(),
{
    if a.len() == 0 {
        assert(0xFFFF_FFFFu32 == 0xFFFF_FFFFu32 ^ 0xFFFF_FFFFu32 ^ 0xFFFF_FFFFu32) by (bit_vector);
    } else {
        let n = a.len() - 1;
        let (p, q, r, s) = (a.drop_last(), b.drop_last(), c.drop_last(), d.drop_last());
        assert forall|i: int| 0 <= i < p.len() implies #[trigger] s[i] == p[i] ^ q[i] ^ r[i] by {
            assert(d[i] == a[i] ^ b[i] ^ c[i]);
        }
        lemma_register_affine(p, q, r, s);
        let (x, y, z, w) = (register(p), register(q), register(r), register(s));
        let (i, j, k, l) = (a[n], b[n], c[n], d[n]);
        assert(l == i ^ j ^ k);
        let (u, v, t) = (x ^ (i as u32), y ^ (j as u32), z ^ (k as u32));
        assert(w ^ (l as u32) == u ^ v ^ t) by (bit_vector)
            requires
                w == x ^ y ^ z,
                l == i ^ j ^ k,
                u == x ^ (i as u32),
                v == y ^ (j as u32),
                t == z ^ (k as u32),
        ;
        lemma_byte_steps_linear(u ^ v, t);
        lemma_byte_steps_linear(u, v);
    }
}

/// Checksums of texts of one length add up bit by bit as the texts do.
pub proof fn law_crc_adds_up(a: Seq<u8>, b: Seq<u8>, c: Seq<u8>)
    requires
        a.len() == b.len() == c.len(),
    ensures
        crc(Seq::new(a.len(), |i: int| a[i] ^ b[i] ^ c[i])) == crc(a) ^ crc(b) ^ crc(c),
{
    let d = Seq::new(a.len(), |i: int| a[i] ^ b[i] ^ c[i]);
    lemma_register_affine(a, b, c, d);
    let (x, y, z) = (register(a), register(b), register(c));
    assert((x ^ y ^ z) ^ 0xFFFF_FFFFu32 == (x ^ 0xFFFF_FFFFu32) ^ (y ^ 0xFFFF_FFFFu32) ^ (z
        ^ 0xFFFF_FFFFu32)) by (bit_vector);
}

/// One more byte is a step on what came before: the register is shifted by a
/// byte, and the byte that falls out is divided by the polynomial of CRC-32.
pub proof fn law_crc_of_one_more(s: Seq<u8>, b: u8)
    ensures
        ({
            let before = crc(s) ^ 0xFFFF_FFFFu32;
            crc(s.push(b)) == byte_steps(before ^ (b as u32)) ^ 0xFFFF_FFFFu32
        }),
{
    assert(s.push(b).drop_last() =~= s);
    let r = register(s);
    assert(r ^ 0xFFFF_FFFFu32 ^ 0xFFFF_FFFFu32 == r) by (bit_vector);
}

/// Eight steps with the remainder of a byte shifted out.
proof fn lemma_shift_out(x: u32, b: u32)
    requires
        (x ^ b) & 0xff == 0xff,
        b <= 0xff,
    ensures
        byte_steps(x ^ b) == (x >> 8) ^ byte_steps(0xff),
{
    let y = x ^ b;
    lemma_by_table(y);
    assert(y >> 8 == x >> 8) by (bit_vector)
        requires
            y == x ^ b,
            b <= 0xff,
    ;
}

/// A text with its own checksum behind it, lowest byte first, always has the
/// same checksum: the residue of CRC-32.
pub proof fn law_crc_residue(s: Seq<u8>)
    ensures
        ({
            let c = crc(s);
            let b0 = (c & 0xff) as u8;
            let b1 = ((c >> 8) & 0xff) as u8;
            let b2 = ((c >> 16) & 0xff) as u8;
            let b3 = ((c >> 24) & 0xff) as u8;
            crc(s.push(b0).push(b1).push(b2).push(b3)) == 0x2144DF1Cu32
        }),
{
    let r = register(s);
    let c = crc(s);
    let b0 = (c & 0xff) as u8;
    let b1 = ((c >> 8) & 0xff) as u8;
    let b2 = ((c >> 16) & 0xff) as u8;
    let b3 = ((c >> 24) & 0xff) as u8;
    let (s1, s2, s3, s4) = (
        s.push(b0),
        s.push(b0).push(b1),
        s.push(b0).push(b1).push(b2),
        s.push(b0).push(b1).push(b2).push(b3),
    );
    assert(s1.drop_last() =~= s && s2.drop_last() =~= s1 && s3.drop_last() =~= s2 && s4.drop_last()
        =~= s3);
    let (r8, r16, r24) = (r >> 8, r >> 16, r >> 24);
    let (w0, w1, w2, w3) = (b0 as u32, b1 as u32, b2 as u32, b3 as u32);
    assert((r ^ w0) & 0xff == 0xff && (r8 ^ w1) & 0xff == 0xff && (r16 ^ w2) & 0xff == 0xff && (r24
        ^ w3) & 0xff == 0xff && w0 <= 0xff && w1 <= 0xff && w2 <= 0xff && w3 <= 0xff && r8 >> 8 == r16
        && r16 >> 8 == r24 && r24 >> 8 == 0) by (bit_vector)
        requires
            c == r ^ 0xFFFF_FFFFu32,
            w0 == (c & 0xff) as u8 as u32,
            w1 == ((c >> 8) & 0xff) as u8 as u32,
            w2 == ((c >> 16) & 0xff) as u8 as u32,
            w3 == ((c >> 24) & 0xff) as u8 as u32,
            r8 == r >> 8,
            r16 == r >> 16,
            r24 == r >> 24,
    ;
    let t = byte_steps(0xff);
    let t1 = byte_steps(t);
    let t2 = byte_steps(t1);
    let t3 = byte_steps(t2);
    lemma_shift_out(r, w0);
    lemma_shift_out(r8, w1);
    lemma_shift_out(r16, w2);
    lemma_shift_out(r24, w3);
    assert(register(s1) == r8 ^ t);
    assert((r8 ^ t) ^ w1 == (r8 ^ w1) ^ t) by (bit_vector);
    lemma_byte_steps_linear(r8 ^ w1, t);
    assert(register(s2) == (r16 ^ t) ^ t1);
    assert(((r16 ^ t) ^ t1) ^ w2 == (r16 ^ w2) ^ (t ^ t1)) by (bit_vector);
    lemma_byte_steps_linear(r16 ^ w2, t ^ t1);
    lemma_byte_steps_linear(t, t1);
    assert(register(s3) == (r24 ^ t) ^ (t1 ^ t2));
    assert(((r24 ^ t) ^ (t1 ^ t2)) ^ w3 == (r24 ^ w3) ^ ((t ^ t1) ^ t2)) by (bit_vector);
    lemma_byte_steps_linear(r24 ^ w3, (t ^ t1) ^ t2);
    lemma_byte_steps_linear(t ^ t1, t2);
    assert(register(s4) == (0u32 ^ t) ^ ((t1 ^ t2) ^ t3));
    assert(byte_steps(0xff) == 0x2D02EF8Du32) by (bit_vector);
    assert(byte_steps(0x2D02EF8Du32) == 0x9324FD72u32) by (bit_vector);
    assert(byte_steps(0x9324FD72u32) == 0xBE9834EDu32) by (bit_vector);
    assert(byte_steps(0xBE9834EDu32) == 0xDE0506F1u32) by (bit_vector);
    assert((0u32 ^ 0x2D02EF8Du32) ^ ((0x9324FD72u32 ^ 0xBE9834EDu32) ^ 0xDE0506F1u32) ^ 0xFFFF_FFFFu32 == 0x2144DF1Cu32)
        by (bit_vector);
}

} // verus!

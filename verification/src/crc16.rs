//! Two stateless CRC16 checksums: a bit-serial CCITT-style variant (poly
//! 0x1021, init 0xFFFF, bits taken most-significant-first) that gates frame
//! acceptance, and a reflected Modbus-style variant (poly 0xA001, init
//! 0xFFFF).

use vstd::prelude::*;

verus! {

/// The bit of `byte` at position `7 - i`, so that `i = 0` selects the most
/// significant bit.
pub open spec fn byte_bit(byte: u8, i: int) -> u16 {
    ((byte >> ((7 - i) as u8)) & 1) as u16
}

/// One CCITT register update: XOR the incoming bit with the register's top
/// bit, shift the register left, and fold in the polynomial when that XOR
/// was one.
pub open spec fn ccitt_step(crc: u16, bit: u16) -> u16 {
    if (bit ^ ((crc >> 15) & 1)) == 1 {
        (crc << 1) ^ 0x1021
    } else {
        crc << 1
    }
}

/// The CCITT register after feeding the first `n` bits of `byte`,
/// most-significant-first, starting from `crc`.
pub open spec fn ccitt_bits(crc: u16, byte: u8, n: int) -> u16
    decreases n,
{
    if n <= 0 {
        crc
    } else {
        ccitt_step(ccitt_bits(crc, byte, n - 1), byte_bit(byte, n - 1))
    }
}

/// The CCITT register after feeding one whole byte.
pub open spec fn ccitt_byte(crc: u16, byte: u8) -> u16 {
    ccitt_bits(crc, byte, 8)
}

/// The CCITT register after feeding every byte of `s`, starting from `crc`.
pub open spec fn ccitt_from(crc: u16, s: Seq<u8>) -> u16
    decreases s.len(),
{
    if s.len() <= 0 {
        crc
    } else {
        ccitt_from(ccitt_byte(crc, s[0]), s.drop_first())
    }
}

/// The CCITT-variant checksum of a payload: register initialised to 0xFFFF,
/// every byte fed most-significant-bit first.
pub open spec fn ccitt_of(s: Seq<u8>) -> u16 {
    ccitt_from(0xFFFF, s)
}

/// One reflected register shift: shift right, folding in the polynomial when
/// the bit shifted out was one.
pub open spec fn modbus_shift(crc: u16) -> u16 {
    if crc & 1 == 1 {
        (crc >> 1) ^ 0xA001
    } else {
        crc >> 1
    }
}

/// `n` reflected register shifts in a row.
pub open spec fn modbus_shifts(crc: u16, n: int) -> u16
    decreases n,
{
    if n <= 0 {
        crc
    } else {
        modbus_shift(modbus_shifts(crc, n - 1))
    }
}

/// The Modbus register after one byte: XOR the byte into the low half, then
/// eight reflected shifts.
pub open spec fn modbus_byte(crc: u16, byte: u8) -> u16 {
    modbus_shifts(crc ^ (byte as u16), 8)
}

/// The Modbus register after feeding every byte of `s`, starting from `crc`.
pub open spec fn modbus_from(crc: u16, s: Seq<u8>) -> u16
    decreases s.len(),
{
    if s.len() <= 0 {
        crc
    } else {
        modbus_from(modbus_byte(crc, s[0]), s.drop_first())
    }
}

/// The Modbus-variant checksum of a payload, register initialised to 0xFFFF.
pub open spec fn modbus_of(s: Seq<u8>) -> u16 {
    modbus_from(0xFFFF, s)
}

proof fn lemma_ccitt_from_push(crc: u16, s: Seq<u8>, b: u8)
    ensures
        ccitt_from(crc, s.push(b)) == ccitt_byte(ccitt_from(crc, s), b),
    decreases s.len(),
{
    assert(s.push(b).len() == s.len() + 1);
    assert(ccitt_from(crc, s.push(b))
        == ccitt_from(ccitt_byte(crc, s.push(b)[0]), s.push(b).drop_first()));
    if s.len() == 0 {
        assert(s.push(b)[0] == b);
        assert(s.push(b).drop_first() =~= s);
        assert(ccitt_from(ccitt_byte(crc, b), s) == ccitt_byte(crc, b));
        assert(ccitt_from(crc, s) == crc);
    } else {
        assert(s.push(b)[0] == s[0]);
        assert(s.push(b).drop_first() =~= s.drop_first().push(b));
        lemma_ccitt_from_push(ccitt_byte(crc, s[0]), s.drop_first(), b);
        assert(ccitt_from(crc, s) == ccitt_from(ccitt_byte(crc, s[0]), s.drop_first()));
    }
}

proof fn lemma_modbus_from_push(crc: u16, s: Seq<u8>, b: u8)
    ensures
        modbus_from(crc, s.push(b)) == modbus_byte(modbus_from(crc, s), b),
    decreases s.len(),
{
    assert(s.push(b).len() == s.len() + 1);
    assert(modbus_from(crc, s.push(b))
        == modbus_from(modbus_byte(crc, s.push(b)[0]), s.push(b).drop_first()));
    if s.len() == 0 {
        assert(s.push(b)[0] == b);
        assert(s.push(b).drop_first() =~= s);
        assert(modbus_from(modbus_byte(crc, b), s) == modbus_byte(crc, b));
        assert(modbus_from(crc, s) == crc);
    } else {
        assert(s.push(b)[0] == s[0]);
        assert(s.push(b).drop_first() =~= s.drop_first().push(b));
        lemma_modbus_from_push(modbus_byte(crc, s[0]), s.drop_first(), b);
        assert(modbus_from(crc, s) == modbus_from(modbus_byte(crc, s[0]), s.drop_first()));
    }
}

/// The CCITT checksum: bit-serial, most-significant-bit first.
pub fn ccitt_16(data: &[u8]) -> (crc: u16)
    ensures
        crc == ccitt_of(data@),
{
    let mut crc: u16 = 0xFFFF;
    let mut i: usize = 0;
    while i < data.len()
        invariant
            i <= data@.len(),
            crc == ccitt_from(0xFFFF, data@.subrange(0, i as int)),
        decreases data@.len() - i,
    {
        let byte = data[i];
        let ghost entry = crc;
        let mut j: usize = 0;
        while j < 8
            invariant
                j <= 8,
                crc == ccitt_bits(entry, byte, j as int),
            decreases 8 - j,
        {
            let sh: u8 = (7 - j) as u8;
            let lsb: u16 = ((byte >> sh) & 1) as u16;
            let msb: u16 = (crc >> 15) & 1;
            crc = crc << 1;
            if lsb ^ msb == 1 {
                crc = crc ^ 0x1021;
            }
            proof {
                assert(lsb == byte_bit(byte, j as int));
                assert(ccitt_bits(entry, byte, j + 1)
                    == ccitt_step(ccitt_bits(entry, byte, j as int), byte_bit(byte, j as int)));
            }
            j += 1;
        }
        proof {
            lemma_ccitt_from_push(0xFFFF, data@.subrange(0, i as int), byte);
            assert(data@.subrange(0, i + 1) =~= data@.subrange(0, i as int).push(data@[i as int]));
        }
        i += 1;
    }
    proof {
        assert(data@.subrange(0, data@.len() as int) =~= data@);
    }
    crc
}

/// The Modbus checksum: reflected, least-significant-bit first.
pub fn crc_modbus(data: &[u8]) -> (crc: u16)
    ensures
        crc == modbus_of(data@),
{
    let mut crc: u16 = 0xFFFF;
    let mut i: usize = 0;
    while i < data.len()
        invariant
            i <= data@.len(),
            crc == modbus_from(0xFFFF, data@.subrange(0, i as int)),
        decreases data@.len() - i,
    {
        let byte = data[i];
        crc = crc ^ (byte as u16);
        let ghost entry = crc;
        let mut j: usize = 0;
        while j < 8
            invariant
                j <= 8,
                crc == modbus_shifts(entry, j as int),
            decreases 8 - j,
        {
            let ghost pre = crc;
            if crc & 1 > 0 {
                crc = (crc >> 1) ^ 0xA001;
            } else {
                crc = crc >> 1;
            }
            proof {
                assert((pre & 1 > 0) == (pre & 1 == 1)) by (bit_vector);
                assert(crc == modbus_shift(pre));
                assert(modbus_shifts(entry, j + 1) == modbus_shift(modbus_shifts(entry, j as int)));
            }
            j += 1;
        }
        proof {
            lemma_modbus_from_push(0xFFFF, data@.subrange(0, i as int), byte);
            assert(data@.subrange(0, i + 1) =~= data@.subrange(0, i as int).push(data@[i as int]));
        }
        i += 1;
    }
    proof {
        assert(data@.subrange(0, data@.len() as int) =~= data@);
    }
    crc
}

/// The checksum of zero bytes is the initial register value: an empty
/// payload always carries 0xFFFF as its expected checksum.
pub proof fn lemma_ccitt_empty()
    ensures
        ccitt_of(Seq::<u8>::empty()) == 0xFFFFu16,
{
}

/// Both checksums are functions of the payload alone: equal payloads always
/// give equal checksums, so repeated invocations on identical input are
/// stable.
pub proof fn lemma_crc_deterministic(p1: Seq<u8>, p2: Seq<u8>)
    requires
        p1 == p2,
    ensures
        ccitt_of(p1) == ccitt_of(p2),
        modbus_of(p1) == modbus_of(p2),
{
}

} // verus!

//! The address width and the wire format: ROM truncation to the width's
//! bound, and the flat little-endian address stream with no framing.

use vstd::prelude::*;
use vstd::arithmetic::div_mod::{
    lemma_fundamental_div_mod,
    lemma_div_denominator,
    lemma_multiply_divide_lt,
    lemma_small_mod,
};
use crate::region::{MemoryBlock, scan_addrs};
use crate::index::{addrs_holding, lemma_addrs_holding_sound};

verus! {

/// The address width: 16-bit or 32-bit units on the wire, which also bounds
/// the usable ROM length.
#[derive(Debug, Clone, Copy, PartialEq, Eq, Structural)]
pub enum Bittage {
    B16,
    B32,
}

/// Bytes per encoded unit: 2 for 16-bit addresses, 4 for 32-bit.
pub open spec fn unit_width(b: Bittage) -> int {
    match b {
        Bittage::B16 => 2,
        Bittage::B32 => 4,
    }
}

/// The largest usable ROM length under an address width: 65536 bytes for
/// 16-bit addressing, 4294967296 for 32-bit.
pub open spec fn max_rom_len(b: Bittage) -> int {
    match b {
        Bittage::B16 => 0x10000,
        Bittage::B32 => 0x1_0000_0000,
    }
}

/// The largest usable ROM length under an address width, as a value.
pub fn rom_size_limit(b: Bittage) -> (r: u64)
    ensures
        r == max_rom_len(b),
{
    match b {
        Bittage::B16 => 65536,
        Bittage::B32 => 4294967296,
    }
}

/// Truncates an oversized ROM to the address width's bound; a ROM within the
/// bound is kept whole. Both encoding and decoding paths must apply this
/// under the same width so addresses resolve against the same effective ROM.
pub fn truncate_rom(rom: &mut Vec<u8>, b: Bittage)
    ensures
        final(rom)@ == (if old(rom)@.len() <= max_rom_len(b) {
            old(rom)@
        } else {
            old(rom)@.subrange(0, max_rom_len(b))
        }),
        final(rom)@.len() <= max_rom_len(b),
{
    let limit = rom_size_limit(b);
    if rom.len() as u64 > limit {
        rom.truncate(limit as usize);
    }
}

/// The little-endian bytes of one encoded unit. An address beyond the
/// width's range wraps to its low-order bytes, as storing into the narrower
/// integer does.
pub open spec fn unit_bytes(b: Bittage, a: usize) -> Seq<u8> {
    match b {
        Bittage::B16 => seq![(a % 256) as u8, ((a / 256) % 256) as u8],
        Bittage::B32 => seq![
            (a % 256) as u8,
            ((a / 256) % 256) as u8,
            ((a / 0x10000) % 256) as u8,
            ((a / 0x1000000) % 256) as u8,
        ],
    }
}

/// The whole encoded stream: each address's unit bytes in order, with no
/// header, length prefix or separators.
pub open spec fn encoded_stream(b: Bittage, addrs: Seq<usize>) -> Seq<u8>
    decreases addrs.len(),
{
    if addrs.len() == 0 {
        Seq::empty()
    } else {
        encoded_stream(b, addrs.drop_last()) + unit_bytes(b, addrs.last())
    }
}

/// The addresses a byte stream parses to: one unit per full chunk of the
/// width's bytes, little endian; a trailing partial chunk is ignored.
pub open spec fn parsed_addrs(b: Bittage, bytes: Seq<u8>) -> Seq<usize> {
    match b {
        Bittage::B16 => Seq::new(
            (bytes.len() / 2) as nat,
            |i: int| (bytes[2 * i] + 256 * bytes[2 * i + 1]) as usize,
        ),
        Bittage::B32 => Seq::new(
            (bytes.len() / 4) as nat,
            |i: int|
                (bytes[4 * i] + 256 * bytes[4 * i + 1] + 0x10000 * bytes[4 * i + 2] + 0x1000000
                    * bytes[4 * i + 3]) as usize,
        ),
    }
}

/// Serializes an address sequence to the wire: the flat little-endian
/// stream of fixed-width units.
pub fn addresses_to_bytes(addrs: &Vec<usize>, b: Bittage) -> (out: Vec<u8>)
    ensures
        out@ == encoded_stream(b, addrs@),
{
    let mut out: Vec<u8> = Vec::new();
    let mut i: usize = 0;
    proof {
        assert(addrs@.take(0) =~= Seq::<usize>::empty());
    }
    while i < addrs.len()
        invariant
            i <= addrs@.len(),
            out@ == encoded_stream(b, addrs@.take(i as int)),
        decreases addrs@.len() - i,
    {
        let a = addrs[i];
        match b {
            Bittage::B16 => {
                out.push((a % 256) as u8);
                out.push((a / 256 % 256) as u8);
            },
            Bittage::B32 => {
                out.push((a % 256) as u8);
                out.push((a / 256 % 256) as u8);
                out.push((a / 0x10000 % 256) as u8);
                out.push((a / 0x1000000 % 256) as u8);
            },
        }
        proof {
            assert(addrs@.take(i + 1).drop_last() =~= addrs@.take(i as int));
            assert(addrs@.take(i + 1).last() == addrs@[i as int]);
            assert(out@ =~= encoded_stream(b, addrs@.take(i as int)) + unit_bytes(
                b,
                addrs@[i as int],
            ));
        }
        i = i + 1;
    }
    proof {
        assert(addrs@.take(addrs@.len() as int) =~= addrs@);
    }
    out
}

/// Parses the wire bytes back into addresses: one unit per full fixed-width
/// chunk, little endian, ignoring a trailing partial chunk.
pub fn bytes_to_addresses(bytes: &[u8], b: Bittage) -> (out: Vec<usize>)
    ensures
        out@ == parsed_addrs(b, bytes@),
{
    let mut out: Vec<usize> = Vec::new();
    match b {
        Bittage::B16 => {
            let total = bytes.len();
            let n = total / 2;
            let mut i: usize = 0;
            while i < n
                invariant
                    i <= n,
                    total == bytes@.len(),
                    n == bytes@.len() / 2,
                    out@.len() == i,
                    forall|j: int| 0 <= j < i ==> out@[j] == parsed_addrs(Bittage::B16, bytes@)[j],
                decreases n - i,
            {
                proof {
                    assert(2 * (i as int) + 2 <= bytes@.len());
                }
                let a = bytes[2 * i] as usize + 256 * (bytes[2 * i + 1] as usize);
                out.push(a);
                i = i + 1;
            }
            proof {
                assert(out@ =~= parsed_addrs(Bittage::B16, bytes@));
            }
        },
        Bittage::B32 => {
            let total = bytes.len();
            let n = total / 4;
            let mut i: usize = 0;
            while i < n
                invariant
                    i <= n,
                    total == bytes@.len(),
                    n == bytes@.len() / 4,
                    out@.len() == i,
                    forall|j: int| 0 <= j < i ==> out@[j] == parsed_addrs(Bittage::B32, bytes@)[j],
                decreases n - i,
            {
                proof {
                    assert(4 * (i as int) + 4 <= bytes@.len());
                }
                let a = bytes[4 * i] as usize + 256 * (bytes[4 * i + 1] as usize) + 0x10000 * (
                bytes[4 * i + 2] as usize) + 0x1000000 * (bytes[4 * i + 3] as usize);
                out.push(a);
                i = i + 1;
            }
            proof {
                assert(out@ =~= parsed_addrs(Bittage::B32, bytes@));
            }
        },
    }
    out
}

/// The length of the wire stream: exactly the unit width per address.
pub proof fn lemma_encoded_stream_len(b: Bittage, addrs: Seq<usize>)
    ensures
        encoded_stream(b, addrs).len() == unit_width(b) * addrs.len(),
    decreases addrs.len(),
{
    if addrs.len() != 0 {
        lemma_encoded_stream_len(b, addrs.drop_last());
        match b {
            Bittage::B16 => {
                assert(2 * addrs.len() == 2 * (addrs.len() - 1) + 2);
            },
            Bittage::B32 => {
                assert(4 * addrs.len() == 4 * (addrs.len() - 1) + 4);
            },
        }
    } else {
        match b {
            Bittage::B16 => {
            },
            Bittage::B32 => {
            },
        }
    }
}

/// One 16-bit unit's bytes reassemble to the address it was made from,
/// provided the address fits the width.
proof fn lemma_unit_value_16(a: usize)
    requires
        (a as int) < 0x10000,
    ensures
        unit_bytes(Bittage::B16, a)[0] + 256 * unit_bytes(Bittage::B16, a)[1] == a as int,
{
    let ai = a as int;
    lemma_multiply_divide_lt(ai, 256, 256);
    lemma_small_mod((ai / 256) as nat, 256);
    lemma_fundamental_div_mod(ai, 256);
}

/// One 32-bit unit's bytes reassemble to the address it was made from,
/// provided the address fits the width.
proof fn lemma_unit_value_32(a: usize)
    requires
        (a as int) < 0x1_0000_0000,
    ensures
        unit_bytes(Bittage::B32, a)[0] + 256 * unit_bytes(Bittage::B32, a)[1] + 0x10000
            * unit_bytes(Bittage::B32, a)[2] + 0x1000000 * unit_bytes(Bittage::B32, a)[3] == a as int,
{
    let ai = a as int;
    assert(0x1000000 * 256 == 0x1_0000_0000);
    lemma_multiply_divide_lt(ai, 0x1000000, 256);
    lemma_small_mod((ai / 0x1000000) as nat, 256);
    lemma_div_denominator(ai, 256, 256);
    assert(256 * 256 == 0x10000);
    lemma_div_denominator(ai, 0x10000, 256);
    assert(0x10000 * 256 == 0x1000000);
    lemma_fundamental_div_mod(ai, 256);
    lemma_fundamental_div_mod(ai / 256, 256);
    lemma_fundamental_div_mod(ai / 0x10000, 256);
}

/// The wire format is lossless: parsing the encoded stream of any address
/// sequence whose addresses fit the width yields that sequence again.
pub proof fn lemma_wire_round_trip(b: Bittage, addrs: Seq<usize>)
    requires
        forall|i: int| 0 <= i < addrs.len() ==> ((#[trigger] addrs[i]) as int) < max_rom_len(b),
    ensures
        parsed_addrs(b, encoded_stream(b, addrs)) == addrs,
    decreases addrs.len(),
{
    lemma_encoded_stream_len(b, addrs);
    let bytes = encoded_stream(b, addrs);
    if addrs.len() == 0 {
        assert(parsed_addrs(b, bytes) =~= addrs);
    } else {
        let n = addrs.len() as int;
        let pre = encoded_stream(b, addrs.drop_last());
        let ub = unit_bytes(b, addrs.last());
        assert forall|i: int| 0 <= i < addrs.drop_last().len() implies ((#[trigger] addrs.drop_last()[i]) as int)
            < max_rom_len(b) by {
            assert(addrs.drop_last()[i] == addrs[i]);
        }
        lemma_wire_round_trip(b, addrs.drop_last());
        lemma_encoded_stream_len(b, addrs.drop_last());
        match b {
            Bittage::B16 => {
                assert forall|j: int| 0 <= j < n implies parsed_addrs(Bittage::B16, bytes)[j]
                    == addrs[j] by {
                    if j < n - 1 {
                        assert(bytes[2 * j] == pre[2 * j]);
                        assert(bytes[2 * j + 1] == pre[2 * j + 1]);
                        assert(parsed_addrs(Bittage::B16, pre)[j] == addrs.drop_last()[j]);
                    } else {
                        assert(bytes[2 * j] == ub[0]);
                        assert(bytes[2 * j + 1] == ub[1]);
                        lemma_unit_value_16(addrs.last());
                    }
                }
                assert(parsed_addrs(Bittage::B16, bytes) =~= addrs);
            },
            Bittage::B32 => {
                assert forall|j: int| 0 <= j < n implies parsed_addrs(Bittage::B32, bytes)[j]
                    == addrs[j] by {
                    if j < n - 1 {
                        assert(bytes[4 * j] == pre[4 * j]);
                        assert(bytes[4 * j + 1] == pre[4 * j + 1]);
                        assert(bytes[4 * j + 2] == pre[4 * j + 2]);
                        assert(bytes[4 * j + 3] == pre[4 * j + 3]);
                        assert(parsed_addrs(Bittage::B32, pre)[j] == addrs.drop_last()[j]);
                    } else {
                        assert(bytes[4 * j] == ub[0]);
                        assert(bytes[4 * j + 1] == ub[1]);
                        assert(bytes[4 * j + 2] == ub[2]);
                        assert(bytes[4 * j + 3] == ub[3]);
                        lemma_unit_value_32(addrs.last());
                    }
                }
                assert(parsed_addrs(Bittage::B32, bytes) =~= addrs);
            },
        }
    }
}

/// After truncation to an address width's bound, no indexed address of any
/// byte value refers at or past that bound: the index only ever sees the
/// effective ROM.
pub proof fn lemma_truncated_index_bounded(
    rom: Seq<u8>,
    blocks: Seq<MemoryBlock>,
    b: Bittage,
    v: u8,
)
    requires
        rom.len() <= max_rom_len(b),
    ensures
        forall|i: int|
            0 <= i < addrs_holding(rom, scan_addrs(rom.len() as int, blocks), v).len() ==> (
            addrs_holding(rom, scan_addrs(rom.len() as int, blocks), v)[i] as int) < max_rom_len(b),
{
    lemma_addrs_holding_sound(rom, scan_addrs(rom.len() as int, blocks), v);
}

} // verus!

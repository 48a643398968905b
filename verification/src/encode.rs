//! The stochastic encoder: for every input unit whose converted byte value
//! occurs in the indexed ROM, one uniformly chosen address holding that value.
//! Units converting to absent values are dropped, not padded.

use vstd::prelude::*;
use crate::region::{MemoryBlock, scan_addrs};
use crate::index::{addrs_holding, rom_count, build_index, lemma_addrs_holding_sound};
use crate::convert::{Converter, convert_code, apply_converter};
use crate::decode::{decoded, valid_encoding, lemma_round_trip};

verus! {

/// The encoded addresses and the occurrence statistics of one encoding run.
pub struct ZosciiResult {
    /// One ROM address per successfully encoded input unit, in input order.
    pub addresses: Vec<usize>,
    /// For each byte value, how many encoded input units converted to it.
    pub input_counts: Vec<usize>,
    /// For each byte value, how often it occurs in the scanned ROM regions.
    pub rom_counts: Vec<usize>,
}

/// Each input character code after conversion: the candidate byte value
/// (or an out-of-range code, which no index entry can match).
pub open spec fn converted_seq(
    input: Seq<u32>,
    conv: Option<Converter>,
    unmappable_char: usize,
) -> Seq<usize> {
    Seq::new(input.len(), |i: int| convert_code(conv, input[i], unmappable_char))
}

/// The byte values that survive encoding, in input order: the converted
/// values below 256 with at least one occurrence over the scanned addresses.
pub open spec fn kept_bytes(rom: Seq<u8>, s: Seq<usize>, cs: Seq<usize>) -> Seq<u8>
    decreases cs.len(),
{
    if cs.len() == 0 {
        Seq::empty()
    } else {
        let rest = kept_bytes(rom, s, cs.drop_last());
        let c = cs.last();
        if c < 256 && rom_count(rom, s, c as u8) > 0 {
            rest.push(c as u8)
        } else {
            rest
        }
    }
}

/// How many converted values are dropped: those not below 256 or without
/// any occurrence over the scanned addresses.
pub open spec fn dropped_count(rom: Seq<u8>, s: Seq<usize>, cs: Seq<usize>) -> nat
    decreases cs.len(),
{
    if cs.len() == 0 {
        0
    } else {
        let rest = dropped_count(rom, s, cs.drop_last());
        let c = cs.last();
        if c < 256 && rom_count(rom, s, c as u8) > 0 {
            rest
        } else {
            rest + 1
        }
    }
}

/// How often byte value `v` occurs in `s`.
pub open spec fn occ(s: Seq<u8>, v: u8) -> nat
    decreases s.len(),
{
    if s.len() == 0 {
        0
    } else {
        occ(s.drop_last(), v) + (if s.last() == v {
            1nat
        } else {
            0nat
        })
    }
}

/// `addrs` was drawn from the index built over the scanned addresses `s`:
/// one listed address of its byte value per kept unit, in input order.
pub open spec fn encoded_from_index(
    rom: Seq<u8>,
    s: Seq<usize>,
    kept: Seq<u8>,
    addrs: Seq<usize>,
) -> bool {
    &&& addrs.len() == kept.len()
    &&& forall|i: int|
        0 <= i < addrs.len() ==> addrs_holding(rom, s, kept[i]).contains(#[trigger] addrs[i])
}

/// Converting one more input unit extends the kept bytes, or the drop count,
/// by exactly one, and never both.
pub proof fn lemma_convert_push(rom: Seq<u8>, s: Seq<usize>, cs: Seq<usize>, c: usize)
    ensures
        kept_bytes(rom, s, cs.push(c)) == (if c < 256 && rom_count(rom, s, c as u8) > 0 {
            kept_bytes(rom, s, cs).push(c as u8)
        } else {
            kept_bytes(rom, s, cs)
        }),
        dropped_count(rom, s, cs.push(c)) == (if c < 256 && rom_count(rom, s, c as u8) > 0 {
            dropped_count(rom, s, cs)
        } else {
            dropped_count(rom, s, cs) + 1
        }),
{
    assert(cs.push(c).drop_last() =~= cs);
    assert(cs.push(c).last() == c);
}

/// Appending a byte raises its own occurrence count by one and no other.
pub proof fn lemma_occ_push(s: Seq<u8>, x: u8, v: u8)
    ensures
        occ(s.push(x), v) == occ(s, v) + (if x == v {
            1nat
        } else {
            0nat
        }),
{
    assert(s.push(x).drop_last() =~= s);
    assert(s.push(x).last() == x);
}

/// A byte occurs at most as often as the sequence is long.
pub proof fn lemma_occ_le_len(s: Seq<u8>, v: u8)
    ensures
        occ(s, v) <= s.len(),
    decreases s.len(),
{
    if s.len() != 0 {
        lemma_occ_le_len(s.drop_last(), v);
    }
}

/// The drop accounting law: over any input, the kept units and the dropped
/// units partition it, so the encoded output's length is exactly the input's
/// length minus the number of units converting to absent values.
pub proof fn lemma_drop_accounting(rom: Seq<u8>, s: Seq<usize>, cs: Seq<usize>)
    ensures
        kept_bytes(rom, s, cs).len() + dropped_count(rom, s, cs) == cs.len(),
    decreases cs.len(),
{
    if cs.len() != 0 {
        lemma_drop_accounting(rom, s, cs.drop_last());
    }
}

/// When every converted value is present in the indexed ROM, nothing is
/// dropped: the kept bytes are exactly the converted values.
pub proof fn lemma_kept_all_present(rom: Seq<u8>, s: Seq<usize>, cs: Seq<usize>)
    requires
        forall|i: int|
            0 <= i < cs.len() ==> (#[trigger] cs[i]) < 256 && rom_count(rom, s, cs[i] as u8) > 0,
    ensures
        kept_bytes(rom, s, cs).len() == cs.len(),
        forall|i: int|
            0 <= i < cs.len() ==> kept_bytes(rom, s, cs)[i] == (#[trigger] cs[i]) as u8,
    decreases cs.len(),
{
    if cs.len() != 0 {
        assert forall|i: int|
            0 <= i < cs.drop_last().len() implies (#[trigger] cs.drop_last()[i]) < 256
            && rom_count(rom, s, cs.drop_last()[i] as u8) > 0 by {
            assert(cs.drop_last()[i] == cs[i]);
        }
        lemma_kept_all_present(rom, s, cs.drop_last());
        let kept = kept_bytes(rom, s, cs);
        let rest = kept_bytes(rom, s, cs.drop_last());
        assert(cs.last() == cs[cs.len() - 1]);
        assert forall|i: int| 0 <= i < cs.len() implies kept[i] == (#[trigger] cs[i]) as u8 by {
            if i < cs.len() - 1 {
                assert(kept[i] == rest[i]);
                assert(cs.drop_last()[i] == cs[i]);
            } else {
                assert(kept[i] == cs.last() as u8);
            }
        }
    }
}

/// Everything drawn from the index is a valid encoding of the kept bytes:
/// each chosen address is in range and the ROM holds the right byte there.
pub proof fn lemma_encoded_from_index_valid(
    rom: Seq<u8>,
    s: Seq<usize>,
    kept: Seq<u8>,
    addrs: Seq<usize>,
)
    requires
        encoded_from_index(rom, s, kept, addrs),
    ensures
        valid_encoding(rom, kept, addrs),
{
    assert forall|i: int| 0 <= i < addrs.len() implies ((#[trigger] addrs[i]) as int) < rom.len()
        && rom[addrs[i] as int] == kept[i] by {
        lemma_addrs_holding_sound(rom, s, kept[i]);
        let lst = addrs_holding(rom, s, kept[i]);
        let k = choose|k: int| 0 <= k < lst.len() && lst[k] == addrs[i];
        assert(lst[k] == addrs[i]);
    }
}

/// The encode-decode round trip: when every converted input value occurs at
/// least once over the scanned ROM addresses, nothing is dropped, and any
/// address stream the encoder may emit decodes, against the same ROM, to
/// exactly the converted input — whatever addresses the random draws chose.
pub proof fn lemma_encode_decode_round_trip(
    rom: Seq<u8>,
    s: Seq<usize>,
    cs: Seq<usize>,
    addrs: Seq<usize>,
)
    requires
        forall|i: int|
            0 <= i < cs.len() ==> (#[trigger] cs[i]) < 256 && rom_count(rom, s, cs[i] as u8) > 0,
        encoded_from_index(rom, s, kept_bytes(rom, s, cs), addrs),
    ensures
        decoded(rom, addrs).len() == cs.len(),
        forall|i: int| 0 <= i < cs.len() ==> decoded(rom, addrs)[i] == (#[trigger] cs[i]) as u8,
{
    lemma_kept_all_present(rom, s, cs);
    lemma_encoded_from_index_valid(rom, s, kept_bytes(rom, s, cs), addrs);
    lemma_round_trip(rom, kept_bytes(rom, s, cs), addrs);
}

/// Relies on rand::random_range over `0..n`: the result is drawn from the
/// range, so it lies below `n`; the range is non-empty, so the call returns.
#[verifier::external_body]
fn random_index(n: usize) -> (r: usize)
    requires
        n > 0,
    ensures
        r < n,
{
    rand::random_range(0..n)
}

/// Encodes a sequence of input character codes against the ROM regions:
/// builds the reverse index over `memory_blocks`, converts each unit through
/// `converter` (or takes the raw code), and for each unit whose byte value
/// occurs in the index emits one randomly chosen address holding that value.
/// Units converting to absent values are dropped; the output length is the
/// input length minus the dropped count. The result also reports, per byte
/// value, the ROM occurrence counts and the encoded input occurrence counts.
pub fn to_zoscii(
    binary_data: &[u8],
    input_codes: &[u32],
    memory_blocks: &[MemoryBlock],
    converter: Option<Converter>,
    unmappable_char: usize,
) -> (result: ZosciiResult)
    ensures
        ({
            let scan = scan_addrs(binary_data@.len() as int, memory_blocks@);
            let conv = converted_seq(input_codes@, converter, unmappable_char);
            let kept = kept_bytes(binary_data@, scan, conv);
            &&& encoded_from_index(binary_data@, scan, kept, result.addresses@)
            &&& valid_encoding(binary_data@, kept, result.addresses@)
            &&& result.addresses@.len() + dropped_count(binary_data@, scan, conv)
                == input_codes@.len()
            &&& result.rom_counts@.len() == 256
            &&& forall|v: int|
                0 <= v < 256 ==> result.rom_counts@[v] == rom_count(binary_data@, scan, v as u8)
            &&& result.input_counts@.len() == 256
            &&& forall|v: int| 0 <= v < 256 ==> result.input_counts@[v] == occ(kept, v as u8)
        }),
{
    let ghost g_rom = binary_data@;
    let ghost g_scan = scan_addrs(binary_data@.len() as int, memory_blocks@);
    let ghost conv = converted_seq(input_codes@, converter, unmappable_char);

    let idx = build_index(binary_data, memory_blocks);

    let mut input_counts: Vec<usize> = Vec::new();
    let mut v: usize = 0;
    while v < 256
        invariant
            v <= 256,
            input_counts@.len() == v,
            forall|w: int| 0 <= w < v ==> input_counts@[w] == 0,
        decreases 256 - v,
    {
        input_counts.push(0);
        v = v + 1;
    }

    let mut out: Vec<usize> = Vec::new();
    let mut i: usize = 0;
    proof {
        assert(conv.take(0) =~= Seq::<usize>::empty());
    }
    while i < input_codes.len()
        invariant
            i <= input_codes@.len(),
            g_rom == binary_data@,
            g_scan == scan_addrs(binary_data@.len() as int, memory_blocks@),
            conv == converted_seq(input_codes@, converter, unmappable_char),
            idx.wf(),
            idx.built_from(g_rom, memory_blocks@),
            input_counts@.len() == 256,
            encoded_from_index(
                g_rom,
                g_scan,
                kept_bytes(g_rom, g_scan, conv.take(i as int)),
                out@,
            ),
            out@.len() + dropped_count(g_rom, g_scan, conv.take(i as int)) == i,
            forall|w: int|
                0 <= w < 256 ==> input_counts@[w] == occ(
                    kept_bytes(g_rom, g_scan, conv.take(i as int)),
                    w as u8,
                ),
        decreases input_codes@.len() - i,
    {
        let code = input_codes[i];
        let b = apply_converter(converter, code, unmappable_char);
        let ghost kept_before = kept_bytes(g_rom, g_scan, conv.take(i as int));
        proof {
            assert(conv[i as int] == convert_code(converter, input_codes@[i as int],
                unmappable_char));
            assert(conv.take(i + 1).drop_last() =~= conv.take(i as int));
            assert(conv.take(i + 1).last() == conv[i as int]);
            lemma_convert_push(g_rom, g_scan, conv.take(i as int), b);
            assert(conv.take(i as int).push(b) =~= conv.take(i + 1));
        }
        if b < 256 && idx.counts[b] > 0 {
            proof {
                assert(idx.counts@[b as int] == idx.addresses@[b as int]@.len());
                assert(idx.addresses@[b as int]@ == addrs_holding(g_rom, g_scan, b as u8));
            }
            let lst = &idx.addresses[b];
            let pick = random_index(lst.len());
            let addr = lst[pick];
            out.push(addr);
            let cur = input_counts[b];
            proof {
                lemma_occ_le_len(kept_before, b as u8);
            }
            input_counts.set(b, cur + 1);
            proof {
                let kept_after = kept_bytes(g_rom, g_scan, conv.take(i + 1));
                assert(kept_after == kept_before.push(b as u8));
                assert(addrs_holding(g_rom, g_scan, b as u8)[pick as int] == addr);
                assert(addrs_holding(g_rom, g_scan, b as u8).contains(addr));
                assert forall|j: int| 0 <= j < out@.len() implies addrs_holding(
                    g_rom,
                    g_scan,
                    kept_after[j],
                ).contains(#[trigger] out@[j]) by {
                    if j < out@.len() - 1 {
                        assert(kept_after[j] == kept_before[j]);
                    } else {
                        assert(kept_after[j] == b as u8);
                        assert(out@[j] == addr);
                    }
                }
                assert forall|w: int| 0 <= w < 256 implies input_counts@[w] == occ(
                    kept_after,
                    w as u8,
                ) by {
                    lemma_occ_push(kept_before, b as u8, w as u8);
                }
            }
        } else {
            proof {
                assert(b < 256 ==> rom_count(g_rom, g_scan, b as u8) == 0) by {
                    if b < 256 {
                        assert(idx.counts@[b as int] == idx.addresses@[b as int]@.len());
                        assert(idx.addresses@[b as int]@ == addrs_holding(g_rom, g_scan, b as u8));
                    }
                }
                assert(kept_bytes(g_rom, g_scan, conv.take(i + 1)) == kept_before);
            }
        }
        i = i + 1;
    }
    proof {
        assert(conv.take(input_codes@.len() as int) =~= conv);
        lemma_encoded_from_index_valid(
            g_rom,
            g_scan,
            kept_bytes(g_rom, g_scan, conv),
            out@,
        );
    }

    ZosciiResult { addresses: out, input_counts, rom_counts: idx.counts }
}

} // verus!


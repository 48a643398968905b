//! The integer core of the strength analysis: occurrence counts, alphabet
//! utilization, and the combinatorial capacity model.
//!
//! The two reported strength figures are the base-10 logarithms of the two
//! capacities defined here: the general strength of `general_capacity` over
//! the ROM's counts, the per-file security margin of `file_capacity` over the
//! ROM's and the input's counts. The logarithms themselves are floating point
//! and live with the presentation layer; the laws below are stated of the
//! capacities, which determine them.

use vstd::prelude::*;
use vstd::arithmetic::power::pow;
use crate::encode::{occ, lemma_occ_push, lemma_occ_le_len};
use crate::region::full_scan;
use crate::index::{rom_count, lemma_addrs_holding_agree};

verus! {

/// When the whole ROM is scanned, the reverse index counts each byte value
/// exactly as often as it occurs in the ROM bytes: the analyzer's occurrence
/// counts and the index's counts agree.
pub proof fn lemma_rom_count_is_occ(rom: Seq<u8>, v: u8)
    requires
        rom.len() <= usize::MAX,
    ensures
        rom_count(rom, full_scan(rom.len()), v) == occ(rom, v),
    decreases rom.len(),
{
    if rom.len() != 0 {
        let n = rom.len() as int;
        let s = full_scan(rom.len());
        assert(s.drop_last() =~= full_scan((n - 1) as nat));
        assert(s.last() == (n - 1) as usize);
        lemma_rom_count_is_occ(rom.drop_last(), v);
        assert forall|j: int|
            0 <= j < full_scan((n - 1) as nat).len() implies ((#[trigger] full_scan(
            (n - 1) as nat,
        )[j]) as int) < rom.len() && (full_scan((n - 1) as nat)[j] as int)
            < rom.drop_last().len() && rom[full_scan((n - 1) as nat)[j] as int]
            == rom.drop_last()[full_scan((n - 1) as nat)[j] as int] by {
            assert(full_scan((n - 1) as nat)[j] == j as usize);
        }
        lemma_addrs_holding_agree(rom, rom.drop_last(), full_scan((n - 1) as nat), v);
        assert(rom[s.last() as int] == rom.last());
    }
}

/// Counts how often each of the 256 byte values occurs in `data`.
pub fn byte_counts(data: &[u8]) -> (counts: Vec<usize>)
    ensures
        counts@.len() == 256,
        forall|v: int| 0 <= v < 256 ==> counts@[v] == occ(data@, v as u8),
{
    let mut counts: Vec<usize> = Vec::new();
    let mut v: usize = 0;
    while v < 256
        invariant
            v <= 256,
            counts@.len() == v,
            forall|w: int| 0 <= w < v ==> counts@[w] == 0,
        decreases 256 - v,
    {
        counts.push(0);
        v = v + 1;
    }
    let total = data.len();
    let mut i: usize = 0;
    proof {
        assert(data@.take(0) =~= Seq::<u8>::empty());
    }
    while i < total
        invariant
            i <= total,
            total == data@.len(),
            counts@.len() == 256,
            forall|w: int| 0 <= w < 256 ==> counts@[w] == occ(data@.take(i as int), w as u8),
        decreases total - i,
    {
        let b = data[i] as usize;
        let cur = counts[b];
        proof {
            lemma_occ_le_len(data@.take(i as int), data@[i as int]);
        }
        counts.set(b, cur + 1);
        proof {
            assert(data@.take(i + 1).drop_last() =~= data@.take(i as int));
            assert(data@.take(i + 1).last() == data@[i as int]);
            assert(data@.take(i as int).push(data@[i as int]) =~= data@.take(i + 1));
            assert forall|w: int| 0 <= w < 256 implies counts@[w] == occ(
                data@.take(i + 1),
                w as u8,
            ) by {
                lemma_occ_push(data@.take(i as int), data@[i as int], w as u8);
            }
        }
        i = i + 1;
    }
    proof {
        assert(data@.take(data@.len() as int) =~= data@);
    }
    counts
}

/// How many entries of an occurrence table are non-zero: the number of
/// distinct byte values present.
pub open spec fn used_values(counts: Seq<usize>) -> nat
    decreases counts.len(),
{
    if counts.len() == 0 {
        0
    } else {
        used_values(counts.drop_last()) + (if counts.last() > 0 {
            1nat
        } else {
            0nat
        })
    }
}

/// At most as many values are present as the table has entries.
pub proof fn lemma_used_values_le_len(counts: Seq<usize>)
    ensures
        used_values(counts) <= counts.len(),
    decreases counts.len(),
{
    if counts.len() != 0 {
        lemma_used_values_le_len(counts.drop_last());
    }
}

/// Counts the byte values with at least one occurrence: the numerator of the
/// alphabet utilization, out of 256.
pub fn values_used(counts: &Vec<usize>) -> (n: usize)
    ensures
        n == used_values(counts@),
{
    let mut n: usize = 0;
    let mut i: usize = 0;
    proof {
        assert(counts@.take(0) =~= Seq::<usize>::empty());
    }
    while i < counts.len()
        invariant
            i <= counts@.len(),
            n == used_values(counts@.take(i as int)),
        decreases counts@.len() - i,
    {
        proof {
            lemma_used_values_le_len(counts@.take(i as int));
        }
        if counts[i] > 0 {
            n = n + 1;
        }
        proof {
            assert(counts@.take(i + 1).drop_last() =~= counts@.take(i as int));
            assert(counts@.take(i + 1).last() == counts@[i as int]);
        }
        i = i + 1;
    }
    proof {
        assert(counts@.take(counts@.len() as int) =~= counts@);
    }
    n
}

/// The ROM's permutation capacity: the product, over the byte values present
/// in the ROM, of their occurrence counts. The general strength is the
/// base-10 logarithm of this number.
pub open spec fn general_capacity(counts: Seq<usize>) -> nat
    decreases counts.len(),
{
    if counts.len() == 0 {
        1
    } else {
        general_capacity(counts.drop_last()) * (if counts.last() > 0 {
            counts.last() as nat
        } else {
            1nat
        })
    }
}

/// The file-specific capacity: the number of distinct address streams that
/// decode to one given input, the product over the byte values present in
/// both ROM and input of `rom_count ^ input_count`. The file security margin
/// is the base-10 logarithm of this number.
pub open spec fn file_capacity(rom_counts: Seq<usize>, input_counts: Seq<usize>) -> nat
    decreases rom_counts.len(),
{
    if rom_counts.len() == 0 || rom_counts.len() != input_counts.len() {
        1
    } else {
        file_capacity(rom_counts.drop_last(), input_counts.drop_last()) * (if rom_counts.last() > 0
            && input_counts.last() > 0 {
            pow(rom_counts.last() as int, input_counts.last() as nat) as nat
        } else {
            1nat
        })
    }
}

/// A capacity is never zero: every factor of the product is at least one.
pub proof fn lemma_general_capacity_pos(counts: Seq<usize>)
    ensures
        general_capacity(counts) >= 1,
    decreases counts.len(),
{
    if counts.len() != 0 {
        lemma_general_capacity_pos(counts.drop_last());
        let a = general_capacity(counts.drop_last());
        let f: nat = if counts.last() > 0 {
            counts.last() as nat
        } else {
            1nat
        };
        assert(a * f >= 1) by (nonlinear_arith)
            requires
                a >= 1,
                f >= 1,
        ;
    }
}

/// The strength monotonicity law, ROM side: raising the occurrence count of
/// a byte value already present in the ROM strictly increases the ROM's
/// permutation capacity, and so its general strength.
pub proof fn lemma_general_capacity_increases(counts: Seq<usize>, v: int, c: usize)
    requires
        0 <= v < counts.len(),
        counts[v] > 0,
        c > counts[v],
    ensures
        general_capacity(counts.update(v, c)) > general_capacity(counts),
    decreases counts.len(),
{
    let upd = counts.update(v, c);
    let a = general_capacity(counts.drop_last());
    if v == counts.len() - 1 {
        assert(upd.drop_last() =~= counts.drop_last());
        assert(upd.last() == c);
        lemma_general_capacity_pos(counts.drop_last());
        assert(a * (c as nat) > a * (counts.last() as nat)) by (nonlinear_arith)
            requires
                a >= 1,
                c > counts.last(),
                counts.last() > 0,
        ;
    } else {
        assert(upd.drop_last() =~= counts.drop_last().update(v, c));
        assert(upd.last() == counts.last());
        assert(counts.drop_last()[v] == counts[v]);
        lemma_general_capacity_increases(counts.drop_last(), v, c);
        let a2 = general_capacity(counts.drop_last().update(v, c));
        let f: nat = if counts.last() > 0 {
            counts.last() as nat
        } else {
            1nat
        };
        assert(a2 * f > a * f) by (nonlinear_arith)
            requires
                a2 > a,
                f >= 1,
        ;
    }
}

/// The strength monotonicity law, input side: a byte value with no
/// occurrence in the ROM contributes nothing to the file capacity — its
/// input count may change arbitrarily without changing the file security
/// margin.
pub proof fn lemma_file_capacity_absent_value(
    rom_counts: Seq<usize>,
    input_counts: Seq<usize>,
    v: int,
    k: usize,
)
    requires
        rom_counts.len() == input_counts.len(),
        0 <= v < rom_counts.len(),
        rom_counts[v] == 0,
    ensures
        file_capacity(rom_counts, input_counts.update(v, k)) == file_capacity(
            rom_counts,
            input_counts,
        ),
    decreases rom_counts.len(),
{
    let upd = input_counts.update(v, k);
    if v == rom_counts.len() - 1 {
        assert(upd.drop_last() =~= input_counts.drop_last());
        assert(rom_counts.last() == 0);
    } else {
        assert(upd.drop_last() =~= input_counts.drop_last().update(v, k));
        assert(upd.last() == input_counts.last());
        assert(rom_counts.drop_last()[v] == rom_counts[v]);
        lemma_file_capacity_absent_value(rom_counts.drop_last(), input_counts.drop_last(), v, k);
    }
}

} // verus!

//! The reverse index: for each byte value, the ordered list of ROM addresses
//! holding that value, built by scanning a list of memory regions.

use vstd::prelude::*;
use crate::region::{MemoryBlock, block_addrs, block_end, scan_addrs, lemma_scan_addrs_push};

verus! {

/// Of the scanned addresses `s`, those holding byte value `v` in `rom`,
/// in scan order.
pub open spec fn addrs_holding(rom: Seq<u8>, s: Seq<usize>, v: u8) -> Seq<usize>
    decreases s.len(),
{
    if s.len() == 0 {
        Seq::empty()
    } else {
        let rest = addrs_holding(rom, s.drop_last(), v);
        if (s.last() as int) < rom.len() && rom[s.last() as int] == v {
            rest.push(s.last())
        } else {
            rest
        }
    }
}

/// How often byte value `v` occurs over the scanned addresses `s` of `rom`.
pub open spec fn rom_count(rom: Seq<u8>, s: Seq<usize>, v: u8) -> nat {
    addrs_holding(rom, s, v).len()
}

/// Scanning one more address appends it to the list of its own byte value and
/// leaves every other list unchanged.
pub proof fn lemma_addrs_holding_push(rom: Seq<u8>, s: Seq<usize>, a: usize, v: u8)
    ensures
        addrs_holding(rom, s.push(a), v) == (if (a as int) < rom.len() && rom[a as int] == v {
            addrs_holding(rom, s, v).push(a)
        } else {
            addrs_holding(rom, s, v)
        }),
{
    assert(s.push(a).drop_last() =~= s);
    assert(s.push(a).last() == a);
}

/// Soundness of the index lists: every address listed for `v` is a valid
/// offset into the ROM and the ROM holds `v` there.
pub proof fn lemma_addrs_holding_sound(rom: Seq<u8>, s: Seq<usize>, v: u8)
    ensures
        forall|i: int|
            0 <= i < addrs_holding(rom, s, v).len() ==> (addrs_holding(rom, s, v)[i] as int)
                < rom.len() && rom[addrs_holding(rom, s, v)[i] as int] == v,
    decreases s.len(),
{
    if s.len() != 0 {
        lemma_addrs_holding_sound(rom, s.drop_last(), v);
        let lst = addrs_holding(rom, s, v);
        let rest = addrs_holding(rom, s.drop_last(), v);
        assert forall|i: int| 0 <= i < lst.len() implies (lst[i] as int) < rom.len()
            && rom[lst[i] as int] == v by {
            if i < rest.len() {
                assert(lst[i] == rest[i]);
            } else {
                assert(lst[i] == s.last());
            }
        }
    }
}

/// Completeness of the index lists: every scanned occurrence of `v` appears
/// in the list for `v`.
pub proof fn lemma_addrs_holding_complete(rom: Seq<u8>, s: Seq<usize>, v: u8)
    ensures
        forall|j: int|
            0 <= j < s.len() && (s[j] as int) < rom.len() && rom[s[j] as int] == v
                ==> addrs_holding(rom, s, v).contains(s[j]),
    decreases s.len(),
{
    if s.len() != 0 {
        lemma_addrs_holding_complete(rom, s.drop_last(), v);
        assert forall|j: int|
            0 <= j < s.len() && (s[j] as int) < rom.len() && rom[s[j] as int] == v implies addrs_holding(
            rom,
            s,
            v,
        ).contains(s[j]) by {
            let lst = addrs_holding(rom, s, v);
            let rest = addrs_holding(rom, s.drop_last(), v);
            if j < s.len() - 1 {
                assert(s.drop_last()[j] == s[j]);
                assert(rest.contains(s[j]));
                let k = choose|k: int| 0 <= k < rest.len() && rest[k] == s[j];
                assert(lst[k] == s[j]);
            } else {
                assert(lst.last() == s[j]);
            }
        }
    }
}

/// The lists depend on the ROM only at the scanned addresses: two ROMs that
/// agree on every scanned address yield the same lists.
pub proof fn lemma_addrs_holding_agree(rom1: Seq<u8>, rom2: Seq<u8>, s: Seq<usize>, v: u8)
    requires
        forall|j: int|
            0 <= j < s.len() ==> ((#[trigger] s[j]) as int) < rom1.len() && (s[j] as int)
                < rom2.len() && rom1[s[j] as int] == rom2[s[j] as int],
    ensures
        addrs_holding(rom1, s, v) == addrs_holding(rom2, s, v),
    decreases s.len(),
{
    if s.len() != 0 {
        assert forall|j: int|
            0 <= j < s.drop_last().len() implies ((#[trigger] s.drop_last()[j]) as int)
            < rom1.len() && (s.drop_last()[j] as int) < rom2.len() && rom1[s.drop_last()[j] as int]
            == rom2[s.drop_last()[j] as int] by {
            assert(s.drop_last()[j] == s[j]);
        }
        lemma_addrs_holding_agree(rom1, rom2, s.drop_last(), v);
        assert(s.last() == s[s.len() - 1]);
    }
}

/// The reverse index: one address list per byte value, plus the occurrence
/// count of each value, which always equals its list's length.
pub struct ReverseIndex {
    pub addresses: Vec<Vec<usize>>,
    pub counts: Vec<usize>,
}

impl ReverseIndex {
    /// Well-formedness: 256 lists, 256 counts, each count the length of its list.
    pub open spec fn wf(self) -> bool {
        &&& self.addresses@.len() == 256
        &&& self.counts@.len() == 256
        &&& forall|v: int| 0 <= v < 256 ==> self.counts@[v] == self.addresses@[v]@.len()
    }

    /// The index describes exactly the scan of `blocks` over `rom`: the list
    /// for each byte value holds, in scan order, the scanned addresses where
    /// `rom` holds that value.
    pub open spec fn built_from(self, rom: Seq<u8>, blocks: Seq<MemoryBlock>) -> bool {
        forall|v: int|
            0 <= v < 256 ==> self.addresses@[v]@ == addrs_holding(
                rom,
                scan_addrs(rom.len() as int, blocks),
                v as u8,
            )
    }
}

/// Builds the reverse index for `rom` restricted to the given memory blocks:
/// for every byte value the ordered list of scanned addresses holding it,
/// together with its occurrence count. The result is deterministic in
/// `rom` and `blocks`.
pub fn build_index(rom: &[u8], blocks: &[MemoryBlock]) -> (idx: ReverseIndex)
    ensures
        idx.wf(),
        idx.built_from(rom@, blocks@),
{
    let rom_len = rom.len();
    let ghost g_rom = rom@;

    let mut lists: Vec<Vec<usize>> = Vec::new();
    let mut v: usize = 0;
    while v < 256
        invariant
            lists@.len() == v,
            v <= 256,
            forall|w: int| 0 <= w < v ==> lists@[w]@ == Seq::<usize>::empty(),
        decreases 256 - v,
    {
        lists.push(Vec::new());
        v = v + 1;
    }

    let mut bi: usize = 0;
    let ghost mut scanned: Seq<usize> = Seq::empty();
    proof {
        assert(blocks@.take(0) =~= Seq::<MemoryBlock>::empty());
        assert(forall|w: int| 0 <= w < 256 ==> lists@[w]@ =~= addrs_holding(g_rom, scanned, w as u8));
    }
    while bi < blocks.len()
        invariant
            bi <= blocks.len(),
            rom_len == g_rom.len(),
            g_rom == rom@,
            lists@.len() == 256,
            scanned == scan_addrs(g_rom.len() as int, blocks@.take(bi as int)),
            forall|w: int| 0 <= w < 256 ==> lists@[w]@ == addrs_holding(g_rom, scanned, w as u8),
        decreases blocks.len() - bi,
    {
        let block = blocks[bi];
        let ghost scanned_at_entry = scanned;
        let end = if block.start >= rom_len {
            block.start
        } else if block.size < rom_len - block.start {
            block.start + block.size
        } else {
            rom_len
        };
        let mut addr = block.start;
        while addr < end
            invariant
                block.start <= addr <= end,
                end == (if block.start < block_end(g_rom.len() as int, block) {
                    block_end(g_rom.len() as int, block)
                } else {
                    block.start as int
                }),
                rom_len == g_rom.len(),
                g_rom == rom@,
                lists@.len() == 256,
                scanned == scanned_at_entry + block_addrs(g_rom.len() as int, block).take(
                    addr - block.start,
                ),
                forall|w: int| 0 <= w < 256 ==> lists@[w]@ == addrs_holding(g_rom, scanned, w as u8),
            decreases end - addr,
        {
            let b = rom[addr] as usize;
            lists[b].push(addr);
            proof {
                let ghost old_scanned = scanned;
                scanned = scanned.push(addr);
                assert(block_addrs(g_rom.len() as int, block)[addr - block.start] == addr);
                assert(scanned =~= scanned_at_entry + block_addrs(g_rom.len() as int, block).take(
                    addr + 1 - block.start,
                ));
                assert forall|w: int| 0 <= w < 256 implies lists@[w]@ == addrs_holding(
                    g_rom,
                    scanned,
                    w as u8,
                ) by {
                    lemma_addrs_holding_push(g_rom, old_scanned, addr, w as u8);
                }
            }
            addr = addr + 1;
        }
        proof {
            assert(block_addrs(g_rom.len() as int, block).take(end - block.start) =~= block_addrs(
                g_rom.len() as int,
                block,
            ));
            lemma_scan_addrs_push(g_rom.len() as int, blocks@.take(bi as int), block);
            assert(blocks@.take(bi as int).push(block) =~= blocks@.take(bi + 1));
        }
        bi = bi + 1;
    }
    proof {
        assert(blocks@.take(blocks@.len() as int) =~= blocks@);
    }

    let mut counts: Vec<usize> = Vec::new();
    let mut v2: usize = 0;
    while v2 < 256
        invariant
            v2 <= 256,
            counts@.len() == v2,
            lists@.len() == 256,
            forall|w: int| 0 <= w < v2 ==> counts@[w] == lists@[w]@.len(),
        decreases 256 - v2,
    {
        counts.push(lists[v2].len());
        v2 = v2 + 1;
    }

    ReverseIndex { addresses: lists, counts }
}

} // verus!

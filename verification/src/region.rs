//! Memory regions of the ROM and the order in which they are scanned.

use vstd::prelude::*;

verus! {

/// A contiguous span of the ROM to be indexed. A block whose end lies past
/// the ROM is clamped to the ROM's length; a block starting past the ROM
/// contributes nothing.
#[derive(Debug, Clone, Copy)]
pub struct MemoryBlock {
    pub start: usize,
    pub size: usize,
}

/// The clamped exclusive end of a block against a ROM of length `rom_len`.
pub open spec fn block_end(rom_len: int, b: MemoryBlock) -> int {
    if b.start + b.size < rom_len {
        b.start + b.size
    } else {
        rom_len
    }
}

/// The addresses a single block contributes, in ascending order:
/// `start, start + 1, ..., block_end - 1`.
pub open spec fn block_addrs(rom_len: int, b: MemoryBlock) -> Seq<usize> {
    if b.start < block_end(rom_len, b) {
        Seq::new((block_end(rom_len, b) - b.start) as nat, |i: int| (b.start + i) as usize)
    } else {
        Seq::empty()
    }
}

/// All addresses scanned over a list of blocks, block by block in the order
/// given, each block's span in ascending address order.
pub open spec fn scan_addrs(rom_len: int, blocks: Seq<MemoryBlock>) -> Seq<usize>
    decreases blocks.len(),
{
    if blocks.len() == 0 {
        Seq::empty()
    } else {
        scan_addrs(rom_len, blocks.drop_last()) + block_addrs(rom_len, blocks.last())
    }
}

/// The scan of a ROM covered whole: every address from 0 up to its length,
/// in order.
pub open spec fn full_scan(rom_len: nat) -> Seq<usize> {
    Seq::new(rom_len, |i: int| i as usize)
}

/// A single block starting at 0 and reaching at least to the ROM's end scans
/// exactly the whole ROM.
pub proof fn lemma_whole_rom_scan(rom_len: int, b: MemoryBlock)
    requires
        0 <= rom_len,
        b.start == 0,
        b.size >= rom_len,
    ensures
        scan_addrs(rom_len, seq![b]) == full_scan(rom_len as nat),
{
    assert(seq![b].drop_last() =~= Seq::<MemoryBlock>::empty());
    assert(seq![b].last() == b);
    assert(scan_addrs(rom_len, Seq::<MemoryBlock>::empty()) == Seq::<usize>::empty());
    assert(scan_addrs(rom_len, seq![b]) == Seq::<usize>::empty() + block_addrs(rom_len, b));
    assert(Seq::<usize>::empty() + block_addrs(rom_len, b) =~= block_addrs(rom_len, b));
    assert(block_addrs(rom_len, b) =~= full_scan(rom_len as nat));
}

/// Every scanned address lies below the ROM's length: regions reaching past
/// the ROM are clamped, so the scan never touches a byte that does not exist.
pub proof fn lemma_scan_addrs_bounded(rom_len: int, blocks: Seq<MemoryBlock>)
    requires
        rom_len >= 0,
    ensures
        forall|i: int|
            0 <= i < scan_addrs(rom_len, blocks).len() ==> (scan_addrs(
                rom_len,
                blocks,
            )[i] as int) < rom_len,
    decreases blocks.len(),
{
    if blocks.len() != 0 {
        lemma_scan_addrs_bounded(rom_len, blocks.drop_last());
        let s1 = scan_addrs(rom_len, blocks.drop_last());
        let s2 = block_addrs(rom_len, blocks.last());
        assert forall|i: int| 0 <= i < scan_addrs(rom_len, blocks).len() implies (scan_addrs(
            rom_len,
            blocks,
        )[i] as int) < rom_len by {
            if i < s1.len() {
                assert(scan_addrs(rom_len, blocks)[i] == s1[i]);
            } else {
                assert(scan_addrs(rom_len, blocks)[i] == s2[i - s1.len()]);
            }
        }
    }
}

/// Extending the block list by one block appends that block's span to the scan.
pub proof fn lemma_scan_addrs_push(rom_len: int, blocks: Seq<MemoryBlock>, b: MemoryBlock)
    ensures
        scan_addrs(rom_len, blocks.push(b)) == scan_addrs(rom_len, blocks) + block_addrs(
            rom_len,
            b,
        ),
{
    assert(blocks.push(b).drop_last() =~= blocks);
    assert(blocks.push(b).last() == b);
}

} // verus!

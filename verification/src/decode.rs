//! The decoder: a pure table lookup from an address stream and the raw ROM
//! bytes. Addresses out of range are skipped, never an error.

use vstd::prelude::*;

verus! {

/// The bytes an address stream decodes to against `rom`: for each address in
/// order, the ROM byte at that address if it is in range, nothing otherwise.
pub open spec fn decoded(rom: Seq<u8>, addrs: Seq<usize>) -> Seq<u8>
    decreases addrs.len(),
{
    if addrs.len() == 0 {
        Seq::empty()
    } else {
        let rest = decoded(rom, addrs.drop_last());
        if (addrs.last() as int) < rom.len() {
            rest.push(rom[addrs.last() as int])
        } else {
            rest
        }
    }
}

/// `addrs` is one possible encoding of the byte sequence `s` against `rom`:
/// one address per byte, each in range and each holding its byte. Every
/// output of the encoder satisfies this, whatever its random choices were.
pub open spec fn valid_encoding(rom: Seq<u8>, s: Seq<u8>, addrs: Seq<usize>) -> bool {
    &&& addrs.len() == s.len()
    &&& forall|i: int|
        0 <= i < addrs.len() ==> ((#[trigger] addrs[i]) as int) < rom.len() && rom[addrs[i] as int]
            == s[i]
}

/// Appending one in-range address appends its ROM byte to the decoded stream.
pub proof fn lemma_decoded_push(rom: Seq<u8>, addrs: Seq<usize>, a: usize)
    ensures
        decoded(rom, addrs.push(a)) == (if (a as int) < rom.len() {
            decoded(rom, addrs).push(rom[a as int])
        } else {
            decoded(rom, addrs)
        }),
{
    assert(addrs.push(a).drop_last() =~= addrs);
    assert(addrs.push(a).last() == a);
}

/// The round-trip law: decoding any valid encoding of `s` against the same
/// ROM reproduces `s` exactly, regardless of which addresses were chosen
/// for each byte.
pub proof fn lemma_round_trip(rom: Seq<u8>, s: Seq<u8>, addrs: Seq<usize>)
    requires
        valid_encoding(rom, s, addrs),
    ensures
        decoded(rom, addrs) == s,
    decreases addrs.len(),
{
    if addrs.len() != 0 {
        assert(valid_encoding(rom, s.drop_last(), addrs.drop_last())) by {
            assert forall|i: int|
                0 <= i < addrs.drop_last().len() implies ((addrs.drop_last()[i] as int) < rom.len()
                && rom[addrs.drop_last()[i] as int] == s.drop_last()[i]) by {
                assert(addrs.drop_last()[i] == addrs[i]);
                assert(s.drop_last()[i] == s[i]);
                assert((addrs[i] as int) < rom.len() && rom[addrs[i] as int] == s[i]);
            }
        }
        lemma_round_trip(rom, s.drop_last(), addrs.drop_last());
        let last = addrs.len() - 1;
        assert((addrs[last] as int) < rom.len() && rom[addrs[last] as int] == s[last]);
        assert(addrs.last() == addrs[last]);
        assert(s.last() == s[last]);
        assert(decoded(rom, addrs) =~= s);
    } else {
        assert(decoded(rom, addrs) =~= s);
    }
}

/// Decodes an address stream against the raw ROM bytes: for every in-range
/// address, in order, the ROM byte it points at; out-of-range addresses are
/// silently skipped.
pub fn decode(rom: &[u8], addrs: &Vec<usize>) -> (out: Vec<u8>)
    ensures
        out@ == decoded(rom@, addrs@),
{
    let mut out: Vec<u8> = Vec::new();
    let mut i: usize = 0;
    while i < addrs.len()
        invariant
            i <= addrs@.len(),
            out@ == decoded(rom@, addrs@.take(i as int)),
        decreases addrs@.len() - i,
    {
        let a = addrs[i];
        if a < rom.len() {
            out.push(rom[a]);
        }
        proof {
            assert(addrs@.take(i + 1).drop_last() =~= addrs@.take(i as int));
            assert(addrs@.take(i + 1).last() == addrs@[i as int]);
        }
        i = i + 1;
    }
    proof {
        assert(addrs@.take(addrs@.len() as int) =~= addrs@);
    }
    out
}

} // verus!


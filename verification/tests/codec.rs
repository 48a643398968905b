use zoscii::convert::{ebcdic_to_ascii, petscii_to_ascii, Converter};
use zoscii::decode::decode;
use zoscii::encode::to_zoscii;
use zoscii::index::build_index;
use zoscii::region::MemoryBlock;
use zoscii::strength::{byte_counts, values_used};
use zoscii::wire::{addresses_to_bytes, bytes_to_addresses, rom_size_limit, truncate_rom, Bittage};

fn whole_rom(rom: &[u8]) -> Vec<MemoryBlock> {
    vec![MemoryBlock { start: 0, size: rom.len() }]
}

fn codes(bytes: &[u8]) -> Vec<u32> {
    bytes.iter().map(|&b| b as u32).collect()
}

#[test]
fn scenario_aaab() {
    // ROM "AAAB", input "AB": the index must be 0x41 -> [0, 1, 2] and
    // 0x42 -> [3]; any encoding has 2 units, the second at address 3, the
    // first somewhere in {0, 1, 2}; decoding gives back "AB".
    let rom = b"AAAB";
    let idx = build_index(rom, &whole_rom(rom));
    assert_eq!(idx.addresses[0x41], vec![0, 1, 2]);
    assert_eq!(idx.addresses[0x42], vec![3]);
    assert_eq!(idx.counts[0x41], 3);
    assert_eq!(idx.counts[0x42], 1);

    let result = to_zoscii(rom, &codes(b"AB"), &whole_rom(rom), None, 0);
    assert_eq!(result.addresses.len(), 2);
    assert!(result.addresses[0] <= 2);
    assert_eq!(result.addresses[1], 3);
    assert_eq!(decode(rom, &result.addresses), b"AB".to_vec());
}

#[test]
fn round_trip_all_present() {
    // Every byte value of the input occurs in the ROM, so decoding any
    // encoder output reproduces the input exactly.
    let rom = b"The quick brown fox jumps over the lazy dog";
    let input = b"quoth the fox";
    for _ in 0..20 {
        let result = to_zoscii(rom, &codes(input), &whole_rom(rom), None, 0);
        assert_eq!(result.addresses.len(), input.len());
        for (i, &a) in result.addresses.iter().enumerate() {
            assert!(a < rom.len());
            assert_eq!(rom[a], input[i]);
        }
        assert_eq!(decode(rom, &result.addresses), input.to_vec());
    }
}

#[test]
fn drop_accounting() {
    // Input of length 5 where 2 units ('X' and 'Y') convert to values absent
    // from the ROM: the output has length exactly 5 - 2 = 3.
    let rom = b"AAAB";
    let input = codes(b"AXBYA");
    let result = to_zoscii(rom, &input, &whole_rom(rom), None, 0);
    assert_eq!(result.addresses.len(), 3);
    assert_eq!(decode(rom, &result.addresses), b"ABA".to_vec());
    assert_eq!(result.input_counts[0x41], 2);
    assert_eq!(result.input_counts[0x42], 1);
    assert_eq!(result.input_counts[0x58], 0);
}

#[test]
fn index_completeness() {
    let rom = b"hello, world";
    let idx = build_index(rom, &whole_rom(rom));
    let mut total = 0;
    for v in 0..256 {
        let occurrences = rom.iter().filter(|&&b| b as usize == v).count();
        assert_eq!(idx.counts[v], occurrences);
        assert_eq!(idx.addresses[v].len(), occurrences);
        for &a in &idx.addresses[v] {
            assert_eq!(rom[a] as usize, v);
        }
        total += occurrences;
    }
    assert_eq!(total, rom.len());
}

#[test]
fn empty_rom_empty_index() {
    let rom: &[u8] = &[];
    let idx = build_index(rom, &whole_rom(rom));
    for v in 0..256 {
        assert_eq!(idx.counts[v], 0);
        assert!(idx.addresses[v].is_empty());
    }
    let result = to_zoscii(rom, &codes(b"AB"), &whole_rom(rom), None, 0);
    assert!(result.addresses.is_empty());
}

#[test]
fn region_clamping() {
    // A block with start=10, size=1000 against a 20-byte ROM indexes only
    // offsets 10 through 19.
    let rom: Vec<u8> = (0..20).map(|i| if i < 10 { b'a' } else { b'z' }).collect();
    let blocks = vec![MemoryBlock { start: 10, size: 1000 }];
    let idx = build_index(&rom, &blocks);
    assert_eq!(idx.counts[b'a' as usize], 0);
    assert_eq!(idx.counts[b'z' as usize], 10);
    assert_eq!(idx.addresses[b'z' as usize], (10..20).collect::<Vec<usize>>());
}

#[test]
fn region_fully_outside_rom() {
    let rom = b"abc";
    let blocks = vec![MemoryBlock { start: 100, size: 50 }];
    let idx = build_index(rom, &blocks);
    for v in 0..256 {
        assert_eq!(idx.counts[v], 0);
    }
}

#[test]
fn overlapping_regions_index_twice() {
    let rom = b"AB";
    let blocks = vec![
        MemoryBlock { start: 0, size: 2 },
        MemoryBlock { start: 1, size: 1 },
    ];
    let idx = build_index(rom, &blocks);
    assert_eq!(idx.addresses[b'A' as usize], vec![0]);
    assert_eq!(idx.addresses[b'B' as usize], vec![1, 1]);
}

#[test]
fn truncation_16_bit() {
    // A 70000-byte ROM under 16-bit mode behaves as if only the first 65536
    // bytes existed: no index entry refers at or past 65536, and a byte value
    // occurring only past the bound is treated as absent.
    let mut rom = vec![b'A'; 70000];
    for a in rom.iter_mut().skip(65536) {
        *a = b'Q';
    }
    truncate_rom(&mut rom, Bittage::B16);
    assert_eq!(rom.len(), 65536);
    let idx = build_index(&rom, &whole_rom(&rom));
    assert_eq!(idx.counts[b'A' as usize], 65536);
    assert_eq!(idx.counts[b'Q' as usize], 0);
    for v in 0..256 {
        for &a in &idx.addresses[v] {
            assert!(a < 65536);
        }
    }
    let result = to_zoscii(&rom, &codes(b"Q"), &whole_rom(&rom), None, 0);
    assert!(result.addresses.is_empty());
}

#[test]
fn truncation_keeps_small_rom() {
    let mut rom = b"small".to_vec();
    truncate_rom(&mut rom, Bittage::B16);
    assert_eq!(rom, b"small".to_vec());
    let mut rom32 = vec![0u8; 70000];
    truncate_rom(&mut rom32, Bittage::B32);
    assert_eq!(rom32.len(), 70000);
}

#[test]
fn rom_size_limits() {
    assert_eq!(rom_size_limit(Bittage::B16), 65536);
    assert_eq!(rom_size_limit(Bittage::B32), 4294967296);
}

#[test]
fn petscii_passthrough_range() {
    // 32..=95 pass through unchanged; everything else is unmappable.
    assert_eq!(petscii_to_ascii(65, 63), 65);
    assert_eq!(petscii_to_ascii(32, 63), 32);
    assert_eq!(petscii_to_ascii(95, 63), 95);
    assert_eq!(petscii_to_ascii(31, 63), 63);
    assert_eq!(petscii_to_ascii(96, 63), 63);
    assert_eq!(petscii_to_ascii(10, 63), 63);
    assert_eq!(petscii_to_ascii(300, 63), 63);
}

#[test]
fn ebcdic_table_entries() {
    // Letters, digits and punctuation from the fixed EBCDIC table.
    assert_eq!(ebcdic_to_ascii(64, 63), 32); // space
    assert_eq!(ebcdic_to_ascii(129, 63), 97); // a
    assert_eq!(ebcdic_to_ascii(137, 63), 105); // i
    assert_eq!(ebcdic_to_ascii(145, 63), 106); // j
    assert_eq!(ebcdic_to_ascii(162, 63), 115); // s
    assert_eq!(ebcdic_to_ascii(169, 63), 122); // z
    assert_eq!(ebcdic_to_ascii(193, 63), 65); // A
    assert_eq!(ebcdic_to_ascii(209, 63), 74); // J
    assert_eq!(ebcdic_to_ascii(226, 63), 83); // S
    assert_eq!(ebcdic_to_ascii(233, 63), 90); // Z
    assert_eq!(ebcdic_to_ascii(240, 63), 48); // 0
    assert_eq!(ebcdic_to_ascii(249, 63), 57); // 9
    assert_eq!(ebcdic_to_ascii(75, 63), 46); // .
    assert_eq!(ebcdic_to_ascii(127, 63), 34); // "
    assert_eq!(ebcdic_to_ascii(0, 63), 63);
    assert_eq!(ebcdic_to_ascii(255, 63), 63);
    assert_eq!(ebcdic_to_ascii(256, 63), 63);
}

#[test]
fn encode_with_ebcdic_converter() {
    // EBCDIC 193/194 are 'A'/'B'; with the converter they encode against an
    // ASCII ROM and decode to ASCII "AB".
    let rom = b"AAAB";
    let input: Vec<u32> = vec![193, 194];
    let result = to_zoscii(rom, &input, &whole_rom(rom), Some(Converter::Ebcdic), 63);
    assert_eq!(result.addresses.len(), 2);
    assert_eq!(decode(rom, &result.addresses), b"AB".to_vec());
}

#[test]
fn encode_with_petscii_converter_drops_controls() {
    // PETSCII 13 (carriage return) is unmappable; with sentinel '?' absent
    // from the ROM the unit is dropped.
    let rom = b"AAAB";
    let input: Vec<u32> = vec![65, 13, 66];
    let result = to_zoscii(rom, &input, &whole_rom(rom), Some(Converter::Petscii), b'?' as usize);
    assert_eq!(result.addresses.len(), 2);
    assert_eq!(decode(rom, &result.addresses), b"AB".to_vec());
}

#[test]
fn wire_16_bit_exact_bytes() {
    let addrs = vec![0x1234usize, 3, 65535];
    let bytes = addresses_to_bytes(&addrs, Bittage::B16);
    assert_eq!(bytes, vec![0x34, 0x12, 3, 0, 0xFF, 0xFF]);
    assert_eq!(bytes_to_addresses(&bytes, Bittage::B16), addrs);
}

#[test]
fn wire_32_bit_exact_bytes() {
    let addrs = vec![0x01020304usize, 7];
    let bytes = addresses_to_bytes(&addrs, Bittage::B32);
    assert_eq!(bytes, vec![4, 3, 2, 1, 7, 0, 0, 0]);
    assert_eq!(bytes_to_addresses(&bytes, Bittage::B32), addrs);
}

#[test]
fn wire_ignores_trailing_partial_unit() {
    let bytes = vec![3, 0, 9];
    assert_eq!(bytes_to_addresses(&bytes, Bittage::B16), vec![3]);
    assert_eq!(bytes_to_addresses(&bytes, Bittage::B32), Vec::<usize>::new());
}

#[test]
fn decode_skips_out_of_range_addresses() {
    let rom = b"AB";
    let addrs = vec![1usize, 100, 0];
    assert_eq!(decode(rom, &addrs), b"BA".to_vec());
}

#[test]
fn byte_counts_exact() {
    let counts = byte_counts(b"abacus");
    assert_eq!(counts[b'a' as usize], 2);
    assert_eq!(counts[b'b' as usize], 1);
    assert_eq!(counts[b'c' as usize], 1);
    assert_eq!(counts[b'u' as usize], 1);
    assert_eq!(counts[b's' as usize], 1);
    assert_eq!(counts[b'z' as usize], 0);
    assert_eq!(values_used(&counts), 5);
    let empty = byte_counts(&[]);
    assert_eq!(values_used(&empty), 0);
}

#[test]
fn strength_monotonic_in_rom_counts() {
    // generalStrength = sum of log10 of the per-value ROM counts; adding one
    // more 'A' to the ROM strictly increases it. A value absent from the ROM
    // ('X' here) contributes nothing to the file strength.
    let general = |rom: &[u8]| -> f64 {
        byte_counts(rom)
            .iter()
            .filter(|&&c| c > 0)
            .map(|&c| (c as f64).log10())
            .sum()
    };
    let g1 = general(b"AAB");
    let g2 = general(b"AAAB");
    assert!(g2 > g1);

    let file_strength = |rom: &[u8], input: &[u8]| -> f64 {
        let rc = byte_counts(rom);
        let ic = byte_counts(input);
        (0..256)
            .filter(|&v| ic[v] > 0 && rc[v] > 0)
            .map(|v| ic[v] as f64 * (rc[v] as f64).log10())
            .sum()
    };
    let with_absent = file_strength(b"AAB", b"ABX");
    let without = file_strength(b"AAB", b"AB");
    assert_eq!(with_absent, without);
}

#[test]
fn input_and_rom_counts_reported() {
    let rom = b"AAAB";
    let result = to_zoscii(rom, &codes(b"ABA"), &whole_rom(rom), None, 0);
    assert_eq!(result.rom_counts[0x41], 3);
    assert_eq!(result.rom_counts[0x42], 1);
    assert_eq!(result.rom_counts[0x43], 0);
    assert_eq!(result.input_counts[0x41], 2);
    assert_eq!(result.input_counts[0x42], 1);
}

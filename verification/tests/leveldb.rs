use alts_checker::crc32c::{
    crc32c, crc32c_with_leading_byte, crc32c_with_trailing_byte, mask_crc32c,
    verify_wal_record_checksum,
};
use alts_checker::snappy::{snappy_copy_from_output, snappy_decompress};
use alts_checker::table::{
    decode_block_handle, parse_block_entries, parse_table_footer, read_table_block, BlockHandle,
    TABLE_MAGIC_NUMBER,
};
use alts_checker::varint::{read_varint32, read_varint64};
use alts_checker::viewer::{
    classify_file, file_kind_name, format_bytes_for_ui, has_extension, is_text_log_name,
    is_wal_log_name, parse_file, parse_ldb_file, parse_text_log_file, parse_wal_file,
    reading_order, scan_target, sort_key_for_path, truncate_chars, FileCategory, ParsedFileContent,
    TargetKind, WalOperationKind,
};
use alts_checker::wal::{
    assemble_wal_logical_records, parse_wal_physical_records, parse_write_batch,
    BatchOperationKind, WalPhysicalRecord, WalRecordType,
};

fn push_varint32(buf: &mut Vec<u8>, value: u32) {
    let mut value = value;
    while value >= 0x80 {
        buf.push((value as u8 & 0x7f) | 0x80);
        value >>= 7;
    }
    buf.push(value as u8);
}

fn push_varint64(buf: &mut Vec<u8>, value: u64) {
    let mut value = value;
    while value >= 0x80 {
        buf.push((value as u8 & 0x7f) | 0x80);
        value >>= 7;
    }
    buf.push(value as u8);
}

fn push_len_prefixed(buf: &mut Vec<u8>, bytes: &[u8]) {
    push_varint32(buf, bytes.len() as u32);
    buf.extend_from_slice(bytes);
}

fn record(kind: WalRecordType, payload: &[u8]) -> Vec<u8> {
    let byte = kind.as_byte();
    let mut out = Vec::new();
    let checksum = mask_crc32c(crc32c_with_leading_byte(byte, payload));
    out.extend_from_slice(&checksum.to_le_bytes());
    out.extend_from_slice(&(payload.len() as u16).to_le_bytes());
    out.push(byte);
    out.extend_from_slice(payload);
    out
}

fn batch(sequence: u64, puts: &[(&[u8], Option<&[u8]>)]) -> Vec<u8> {
    let mut payload = Vec::new();
    payload.extend_from_slice(&sequence.to_le_bytes());
    payload.extend_from_slice(&(puts.len() as u32).to_le_bytes());
    for (key, value) in puts {
        match value {
            Some(value) => {
                payload.push(1);
                push_len_prefixed(&mut payload, key);
                push_len_prefixed(&mut payload, value);
            }
            None => {
                payload.push(0);
                push_len_prefixed(&mut payload, key);
            }
        }
    }
    payload
}

fn block_with(entries: &[(u32, &[u8], &[u8])]) -> Vec<u8> {
    let mut block = Vec::new();
    for (shared, rest, value) in entries {
        push_varint32(&mut block, *shared);
        push_varint32(&mut block, rest.len() as u32);
        push_varint32(&mut block, value.len() as u32);
        block.extend_from_slice(rest);
        block.extend_from_slice(value);
    }
    block.extend_from_slice(&0u32.to_le_bytes());
    block.extend_from_slice(&1u32.to_le_bytes());
    block
}

fn append_block(table: &mut Vec<u8>, data: &[u8], compression: u8) -> BlockHandle {
    let handle = BlockHandle {
        offset: table.len() as u64,
        size: data.len() as u64,
    };
    table.extend_from_slice(data);
    table.push(compression);
    let checksum = mask_crc32c(crc32c_with_trailing_byte(data, compression));
    table.extend_from_slice(&checksum.to_le_bytes());
    handle
}

fn handle_bytes(handle: BlockHandle) -> Vec<u8> {
    let mut out = Vec::new();
    push_varint64(&mut out, handle.offset);
    push_varint64(&mut out, handle.size);
    out
}

fn finish_table(table: &mut Vec<u8>, metaindex: BlockHandle, index: BlockHandle) {
    let mut footer = handle_bytes(metaindex);
    footer.extend_from_slice(&handle_bytes(index));
    footer.resize(40, 0);
    footer.extend_from_slice(&TABLE_MAGIC_NUMBER.to_le_bytes());
    table.extend_from_slice(&footer);
}

fn internal_key(user_key: &[u8], sequence: u64, kind: u8) -> Vec<u8> {
    let mut key = user_key.to_vec();
    key.extend_from_slice(&((sequence << 8) | u64::from(kind)).to_le_bytes());
    key
}

fn sample_table() -> Vec<u8> {
    let mut table = Vec::new();
    let first = internal_key(b"apple", 5, 1);
    let second = internal_key(b"pear", 6, 0);
    let data = block_with(&[(0, &first, b"red"), (0, &second, b"")]);
    let data_handle = append_block(&mut table, &data, 0);
    let meta = block_with(&[]);
    let meta_handle = append_block(&mut table, &meta, 0);
    let index = block_with(&[(0, b"zzz", &handle_bytes(data_handle))]);
    let index_handle = append_block(&mut table, &index, 0);
    finish_table(&mut table, meta_handle, index_handle);
    table
}

#[test]
fn crc32c_matches_reference_vector() {
    assert_eq!(crc32c(b"123456789"), 0xe306_9283);
}

#[test]
fn write_batch_put_and_delete_parse() {
    let mut payload = Vec::new();
    payload.extend_from_slice(&7u64.to_le_bytes());
    payload.extend_from_slice(&2u32.to_le_bytes());

    payload.push(1);
    push_len_prefixed(&mut payload, b"alpha");
    push_len_prefixed(&mut payload, b"one");

    payload.push(0);
    push_len_prefixed(&mut payload, b"beta");

    let batch = parse_write_batch(&payload).expect("batch should parse");
    assert_eq!(batch.sequence, 7);
    assert_eq!(batch.declared_count, 2);
    assert_eq!(batch.operations.len(), 2);
    assert_eq!(batch.operations[0].kind, BatchOperationKind::Put);
    assert_eq!(batch.operations[0].key, b"alpha");
    assert_eq!(
        batch.operations[0].value.as_deref().expect("value missing"),
        b"one"
    );
    assert_eq!(batch.operations[1].kind, BatchOperationKind::Delete);
    assert_eq!(batch.operations[1].key, b"beta");
}

#[test]
fn logical_record_reassembly_for_fragments() {
    let physical = vec![
        WalPhysicalRecord {
            offset: 0,
            record_type: WalRecordType::First,
            payload: b"abc".to_vec(),
            checksum_ok: true,
        },
        WalPhysicalRecord {
            offset: 16,
            record_type: WalRecordType::Middle,
            payload: b"def".to_vec(),
            checksum_ok: true,
        },
        WalPhysicalRecord {
            offset: 32,
            record_type: WalRecordType::Last,
            payload: b"ghi".to_vec(),
            checksum_ok: true,
        },
    ];

    let logical = assemble_wal_logical_records(&physical);
    assert!(logical.warnings.is_empty());
    assert_eq!(logical.records.len(), 1);
    assert_eq!(logical.records[0].payload, b"abcdefghi");
    assert_eq!(logical.records[0].fragments, 3);
}

#[test]
fn physical_record_parse_full_record() {
    let payload = b"xyz".to_vec();
    let record_type = WalRecordType::Full.as_byte();
    let checksum = mask_crc32c(crc32c_with_leading_byte(record_type, &payload));

    let mut wal = Vec::new();
    wal.extend_from_slice(&checksum.to_le_bytes());
    wal.extend_from_slice(&(payload.len() as u16).to_le_bytes());
    wal.push(record_type);
    wal.extend_from_slice(&payload);

    let parsed = parse_wal_physical_records(&wal);
    assert!(parsed.warnings.is_empty());
    assert_eq!(parsed.records.len(), 1);
    assert_eq!(parsed.records[0].record_type, WalRecordType::Full);
    assert_eq!(parsed.records[0].payload, payload);
    assert!(parsed.records[0].checksum_ok);
}

#[test]
fn snappy_decompresses_literal_only_block() {
    let compressed = b"\x05\x10hello";
    let decoded = snappy_decompress(compressed).expect("snappy decode failed");
    assert_eq!(decoded, b"hello");
}

#[test]
fn block_entries_parse_restart_encoded_data() {
    let mut block = Vec::new();
    push_varint32(&mut block, 0);
    push_varint32(&mut block, 3);
    push_varint32(&mut block, 3);
    block.extend_from_slice(b"key");
    block.extend_from_slice(b"val");

    block.extend_from_slice(&0u32.to_le_bytes());
    block.extend_from_slice(&1u32.to_le_bytes());

    let entries = parse_block_entries(&block).expect("parse block entries failed");
    assert_eq!(entries.len(), 1);
    assert_eq!(entries[0].key, b"key");
    assert_eq!(entries[0].value, b"val");
}

#[test]
fn masked_checksum_has_the_stored_form() {
    assert_eq!(mask_crc32c(0), 0xa282_ead8);
    assert_eq!(mask_crc32c(1), 0x0002_0000u32.wrapping_add(0xa282_ead8));
    assert!(verify_wal_record_checksum(
        mask_crc32c(crc32c(b"\x01abc")),
        1,
        b"abc"
    ));
    assert!(!verify_wal_record_checksum(0, 1, b"abc"));
    assert_eq!(crc32c_with_trailing_byte(b"abc", 9), crc32c(b"abc\x09"));
}

#[test]
fn varints_read_back() {
    for value in [0u32, 1, 127, 128, 300, 16384, u32::MAX] {
        let mut buf = vec![9u8];
        push_varint32(&mut buf, value);
        buf.push(7);
        let mut pos = 1;
        assert_eq!(read_varint32(&buf, &mut pos), Ok(value));
        assert_eq!(pos, buf.len() - 1);
    }
    for value in [0u64, 1 << 40, u64::MAX] {
        let mut buf = Vec::new();
        push_varint64(&mut buf, value);
        let mut pos = 0;
        assert_eq!(read_varint64(&buf, &mut pos), Ok(value));
    }
}

#[test]
fn varint_errors_are_told_apart() {
    let mut pos = 0;
    assert_eq!(
        read_varint32(b"\x80\x80", &mut pos),
        Err("Unexpected end of payload while reading varint32.".to_string())
    );
    assert_eq!(pos, 2);
    let mut pos = 0;
    assert_eq!(
        read_varint32(b"\x80\x80\x80\x80\x80\x01", &mut pos),
        Err("Invalid varint32: too many continuation bytes.".to_string())
    );
    assert_eq!(pos, 5);
    let mut pos = 0;
    assert_eq!(
        read_varint64(&[0x80; 11], &mut pos),
        Err("Invalid varint64: too many continuation bytes.".to_string())
    );
    let mut pos = 3;
    assert_eq!(
        read_varint64(b"", &mut pos),
        Err("Unexpected end of payload while reading varint64.".to_string())
    );
    let mut pos = 0;
    assert_eq!(read_varint32(b"\xff\xff\xff\xff\x7f", &mut pos), Ok(u32::MAX));
}

#[test]
fn snappy_copies_repeat_the_output() {
    assert_eq!(
        snappy_decompress(b"\x08\x00a\x0d\x01").expect("copy with overlap"),
        b"aaaaaaaa"
    );
    assert_eq!(
        snappy_decompress(b"\x06\x08abc\x0a\x03\x00").expect("copy of two bytes of offset"),
        b"abcabc"
    );
    assert_eq!(
        snappy_decompress(b"\x06\x08abc\x0b\x03\x00\x00\x00").expect("copy of four bytes"),
        b"abcabc"
    );
}

#[test]
fn snappy_long_literal_has_its_length_behind_the_tag() {
    let mut input = Vec::new();
    push_varint64(&mut input, 100);
    input.push(60 << 2);
    input.push(99);
    input.extend_from_slice(&[7u8; 100]);
    assert_eq!(snappy_decompress(&input).expect("long literal"), vec![7u8; 100]);
}

#[test]
fn snappy_errors_are_told_apart() {
    let cases: [(&[u8], &str); 9] = [
        (b"", "Unexpected end of payload while reading varint64."),
        (
            b"\x05\xf0",
            "Unexpected end of input while reading Snappy literal length.",
        ),
        (b"\x05\x10hel", "Snappy literal overruns input: need 5, have 3."),
        (b"\x05\x01", "Unexpected end of input for Snappy COPY_1."),
        (b"\x05\x02\x01", "Unexpected end of input for Snappy COPY_2."),
        (b"\x05\x03\x01\x00\x00", "Unexpected end of input for Snappy COPY_4."),
        (b"\x05\x01\x00", "Snappy COPY with zero offset is invalid."),
        (b"\x05\x01\x05", "Snappy COPY offset 5 exceeds output size 0."),
        (
            b"\x05\x00a",
            "Snappy decoded length mismatch: expected 5, got 1.",
        ),
    ];
    for (input, error) in cases {
        assert_eq!(snappy_decompress(input), Err(error.to_string()));
    }
    let mut out = b"ab".to_vec();
    assert_eq!(snappy_copy_from_output(&mut out, 2, 3), Ok(()));
    assert_eq!(out, b"ababa");
}

#[test]
fn physical_records_warn_and_go_on() {
    let mut wal = record(WalRecordType::Full, b"one");
    let second = wal.len();
    let mut bad = record(WalRecordType::Full, b"two");
    bad[0] ^= 1;
    wal.extend_from_slice(&bad);
    let third = wal.len();
    let mut unknown = record(WalRecordType::Full, b"three");
    unknown[6] = 9;
    wal.extend_from_slice(&unknown);
    wal.extend_from_slice(&[0u8; 7]);
    let fourth = wal.len();
    wal.extend_from_slice(&record(WalRecordType::Full, b"four"));
    let fifth = wal.len();
    wal.extend_from_slice(&record(WalRecordType::Full, b"five")[..9]);

    let parsed = parse_wal_physical_records(&wal);
    assert_eq!(parsed.records.len(), 3);
    assert!(!parsed.records[1].checksum_ok);
    assert_eq!(parsed.records[1].offset, second);
    assert_eq!(parsed.records[2].offset, fourth);
    let stored = u32::from_le_bytes([bad[0], bad[1], bad[2], bad[3]]);
    assert_eq!(
        parsed.warnings,
        vec![
            format!(
                "Checksum mismatch at offset {second}: expected masked CRC {stored:08x}."
            ),
            format!("Unknown WAL record type 9 at offset {third}."),
            format!("Truncated physical record at offset {fifth} (declared 4 byte payload)."),
        ]
    );
}

#[test]
fn physical_record_does_not_cross_a_block() {
    let block = 32 * 1024;
    let mut wal = record(WalRecordType::Full, &vec![1u8; block - 7 - 17]);
    let at = wal.len();
    wal.extend_from_slice(&record(WalRecordType::Full, &[2u8; 20])[..17]);
    wal.extend_from_slice(&record(WalRecordType::Full, b"next"));
    let parsed = parse_wal_physical_records(&wal);
    assert_eq!(parsed.records.len(), 2);
    assert_eq!(parsed.records[1].offset, block);
    assert_eq!(
        parsed.warnings,
        vec![format!(
            "Physical record at offset {at} has invalid length 20 (block remainder 10)."
        )]
    );
}

#[test]
fn physical_records_skip_the_rest_of_a_block() {
    let filler = vec![5u8; 32 * 1024 - 7 - 3];
    let mut wal = record(WalRecordType::First, &filler);
    wal.extend_from_slice(&[0u8; 3]);
    wal.extend_from_slice(&record(WalRecordType::Last, b"end"));
    let parsed = parse_wal_physical_records(&wal);
    assert!(parsed.warnings.is_empty());
    assert_eq!(parsed.records.len(), 2);
    assert_eq!(parsed.records[1].offset, 32 * 1024);
    let logical = assemble_wal_logical_records(&parsed.records);
    assert_eq!(logical.records.len(), 1);
    assert_eq!(logical.records[0].payload.len(), filler.len() + 3);
    assert!(logical.records[0].checksum_ok);
}

#[test]
fn logical_records_warn_of_loose_fragments() {
    let part = |offset: usize, record_type: WalRecordType| WalPhysicalRecord {
        offset,
        record_type,
        payload: b"x".to_vec(),
        checksum_ok: offset != 3,
    };
    let logical = assemble_wal_logical_records(&[
        part(0, WalRecordType::Middle),
        part(1, WalRecordType::Last),
        part(2, WalRecordType::First),
        part(3, WalRecordType::Full),
        part(4, WalRecordType::First),
        part(5, WalRecordType::First),
    ]);
    assert_eq!(
        logical.warnings,
        vec![
            "Found MIDDLE fragment without FIRST at offset 0.",
            "Found LAST fragment without FIRST at offset 1.",
            "Unterminated fragmented record started at offset 2.",
            "Discarded unterminated fragmented record started at offset 4.",
            "WAL ended while a fragmented record from offset 5 was still open.",
        ]
    );
    assert_eq!(logical.records.len(), 1);
    assert!(!logical.records[0].checksum_ok);
}

#[test]
fn write_batch_errors_are_told_apart() {
    assert_eq!(
        parse_write_batch(b"short").err(),
        Some("WriteBatch payload too short: 5 bytes (minimum 12).".to_string())
    );
    let mut huge = vec![0u8; 8];
    huge.extend_from_slice(&1_000_001u32.to_le_bytes());
    assert_eq!(
        parse_write_batch(&huge).err(),
        Some("Declared entry count 1000001 is unreasonably large.".to_string())
    );
    let mut missing = vec![0u8; 8];
    missing.extend_from_slice(&1u32.to_le_bytes());
    assert_eq!(
        parse_write_batch(&missing).err(),
        Some("Unexpected end of payload before entry 1 tag.".to_string())
    );
    let mut unknown = missing.clone();
    unknown.extend_from_slice(b"\x07\x01k");
    assert_eq!(
        parse_write_batch(&unknown).err(),
        Some("Unknown WriteBatch operation tag 7 at entry 1.".to_string())
    );
    let mut cut = missing.clone();
    cut.extend_from_slice(b"\x01\x01k\x05ab");
    assert_eq!(
        parse_write_batch(&cut).err(),
        Some("Truncated value: declared 5 bytes, only 2 remain.".to_string())
    );
    let mut trailing = missing;
    trailing.extend_from_slice(b"\x00\x01kxyz");
    assert_eq!(parse_write_batch(&trailing).expect("trailing bytes").trailing_bytes, 3);
}

#[test]
fn cut_batch_is_refused_and_longer_batch_is_not() {
    let mut payload = 7u64.to_le_bytes().to_vec();
    payload.extend_from_slice(&2u32.to_le_bytes());
    payload.extend_from_slice(b"\x01\x01k\x03abc\x00\x02kk");
    let whole = parse_write_batch(&payload).expect("batch");
    assert_eq!(whole.trailing_bytes, 0);
    for length in 0..payload.len() {
        assert!(parse_write_batch(&payload[..length]).is_err());
    }
    for more in 1..5usize {
        let mut longer = payload.clone();
        longer.extend_from_slice(&vec![1u8; more]);
        let batch = parse_write_batch(&longer).expect("batch");
        assert_eq!(batch.trailing_bytes, more);
        assert_eq!(batch.sequence, 7);
        assert_eq!(batch.declared_count, 2);
        assert_eq!(batch.operations.len(), 2);
        assert_eq!(batch.operations[0].value, Some(b"abc".to_vec()));
        assert_eq!(batch.operations[1].key, b"kk");
    }
}

#[test]
fn block_entries_share_prefixes() {
    let block = block_with(&[(0, b"apple", b"1"), (3, b"ricot", b"2"), (0, b"b", b"")]);
    let entries = parse_block_entries(&block).expect("entries");
    assert_eq!(entries.len(), 3);
    assert_eq!(entries[1].key, b"appricot");
    assert_eq!(entries[1].value, b"2");
    assert_eq!(entries[2].key, b"b");
}

#[test]
fn block_entry_errors_are_told_apart() {
    assert_eq!(
        parse_block_entries(b"abc").err(),
        Some("Block is too short to contain restart metadata.".to_string())
    );
    assert_eq!(
        parse_block_entries(&9u32.to_le_bytes()).err(),
        Some("Invalid restart metadata: restarts=9, block_len=4.".to_string())
    );
    let shared = block_with(&[(4, b"k", b"v")]);
    assert_eq!(
        parse_block_entries(&shared).err(),
        Some("Shared key prefix 4 exceeds previous key length 0.".to_string())
    );
    let mut cut = vec![0u8, 9, 9, b'k'];
    cut.extend_from_slice(&0u32.to_le_bytes());
    assert_eq!(
        parse_block_entries(&cut).err(),
        Some("Truncated block entry: need 18 bytes, only 1 available in data area.".to_string())
    );
}

#[test]
fn table_footer_needs_its_magic_number() {
    assert_eq!(
        parse_table_footer(b"x").err(),
        Some("Table is smaller than the 48-byte footer.".to_string())
    );
    assert_eq!(
        parse_table_footer(&[0u8; 48]).err(),
        Some(
            "Invalid table magic number: expected db4775248b80fb57, got 0000000000000000."
                .to_string()
        )
    );
    let table = sample_table();
    let (_, index) = parse_table_footer(&table).expect("footer");
    assert!(read_table_block(&table, index).expect("index").checksum_ok);
}

#[test]
fn table_block_errors_are_told_apart() {
    let mut table = Vec::new();
    let handle = append_block(&mut table, b"data", 7);
    assert_eq!(
        read_table_block(&table, handle).err(),
        Some("Unsupported block compression type 7 at offset 0.".to_string())
    );
    assert_eq!(
        read_table_block(&table, BlockHandle { offset: 1, size: 100 }).err(),
        Some("Block (offset 1, size 100) exceeds file length 9.".to_string())
    );
    assert_eq!(
        read_table_block(&table, BlockHandle { offset: u64::MAX, size: 1 }).err(),
        Some("Block offset + size overflowed.".to_string())
    );
    assert_eq!(
        read_table_block(&table, BlockHandle { offset: u64::MAX - 1, size: 1 }).err(),
        Some("Block trailer overflowed.".to_string())
    );
    let mut packed = Vec::new();
    let handle = append_block(&mut packed, b"\x05\x10hello", 1);
    let block = read_table_block(&packed, handle).expect("snappy block");
    assert_eq!(block.data, b"hello");
    assert!(block.checksum_ok);
    assert_eq!(
        decode_block_handle(b"\x07\x03").expect("handle"),
        BlockHandle { offset: 7, size: 3 }
    );
}

#[test]
fn table_file_lists_its_entries() {
    let table = sample_table();
    let file = parse_ldb_file("000005.ldb", &table).expect("table");
    assert_eq!(file.index_entries, 1);
    assert_eq!(file.data_blocks, 1);
    assert!(file.warnings.is_empty());
    assert_eq!(file.entries.len(), 2);
    assert_eq!(file.entries[0].user_key, b"apple");
    assert_eq!(file.entries[0].sequence, 5);
    assert_eq!(file.entries[0].value_type, 1);
    assert_eq!(file.entries[0].value, b"red");
    assert_eq!(file.entries[1].value_type, 0);
    assert_eq!(
        parse_ldb_file("a.ldb", b"tiny").err(),
        Some("LDB file a.ldb is too small (4 bytes).".to_string())
    );
}

#[test]
fn table_file_warns_of_bad_checksums_and_short_keys() {
    let mut table = Vec::new();
    let data = block_with(&[(0, b"short", b"v")]);
    let data_handle = append_block(&mut table, &data, 0);
    table[data.len() + 1] ^= 1;
    let index = block_with(&[(0, b"zzz", &handle_bytes(data_handle))]);
    let index_handle = append_block(&mut table, &index, 0);
    finish_table(&mut table, BlockHandle { offset: 0, size: 0 }, index_handle);
    let file = parse_ldb_file("x.ldb", &table).expect("table");
    assert!(file.entries.is_empty());
    assert_eq!(
        file.warnings,
        vec![
            "Data block checksum mismatch for index entry 1 (offset 0).",
            "Skipped short internal key (5 bytes) in data block 1.",
        ]
    );
}

#[test]
fn wal_file_shows_batches() {
    let payload = batch(9, &[(b"k", Some(b"v")), (b"gone", None)]);
    let mut wal = record(WalRecordType::Full, &payload);
    wal.extend_from_slice(&record(WalRecordType::Full, b"bad"));
    let file = parse_wal_file("1.log", &wal).expect("wal");
    assert_eq!(file.physical_records, 2);
    assert_eq!(file.logical_records, 2);
    assert_eq!(file.batches[0].sequence, Some(9));
    assert_eq!(file.batches[0].operations.len(), 2);
    assert_eq!(file.batches[0].operations[0].kind, WalOperationKind::Put);
    assert_eq!(file.batches[0].operations[1].kind, WalOperationKind::Delete);
    assert_eq!(
        file.batches[1].parse_error,
        Some("WriteBatch payload too short: 3 bytes (minimum 12).".to_string())
    );
    assert_eq!(
        parse_wal_file("empty.log", b"").err(),
        Some("No valid WAL physical records were found in empty.log.".to_string())
    );
}

#[test]
fn file_names_decide_what_a_file_is() {
    assert!(is_text_log_name("log"));
    assert!(is_text_log_name("LOG.old"));
    assert!(!is_text_log_name("logs"));
    assert!(is_wal_log_name("000003.LOG"));
    assert!(!is_wal_log_name("LOG.log"));
    assert!(!is_wal_log_name("log"));
    assert!(has_extension("a.LDB", "ldb"));
    assert!(!has_extension(".ldb", "ldb"));
    assert_eq!(classify_file("000003.log"), FileCategory::Wal);
    assert_eq!(classify_file("LOG"), FileCategory::TextLog);
    assert_eq!(classify_file("x.ldb"), FileCategory::Ldb);
    assert_eq!(classify_file("MANIFEST"), FileCategory::Other);
    assert_eq!(sort_key_for_path("B.LDB"), (2, "b.ldb".to_string()));
    let names: Vec<String> = ["b.ldb", "MANIFEST", "2.log", "A.ldb", "LOG", "1.log"]
        .iter()
        .map(|name| name.to_string())
        .collect();
    assert_eq!(reading_order(&names), vec![4, 5, 2, 3, 0]);
}

#[test]
fn files_are_parsed_by_name() {
    let text = parse_file("d/LOG".to_string(), "LOG", Ok(b"a\r\nb\n".to_vec()));
    assert_eq!(file_kind_name(&text.content), "LOG");
    match text.content {
        ParsedFileContent::TextLog(log) => assert_eq!(log.lines, vec!["a", "b"]),
        _ => panic!("expected a text log"),
    }
    let failed = parse_file("d/1.log".to_string(), "1.log", Err("denied".to_string()));
    match failed.content {
        ParsedFileContent::Error(message) => {
            assert_eq!(message, "Failed to read WAL file d/1.log: denied")
        }
        _ => panic!("expected an error"),
    }
    let other = parse_file("x".to_string(), "x", Ok(Vec::new()));
    match other.content {
        ParsedFileContent::Error(message) => assert_eq!(message, "Unsupported file type."),
        _ => panic!("expected an error"),
    }
    assert_eq!(
        parse_text_log_file(b"caf\xe9\nok").lines,
        vec!["caf\u{fffd}", "ok"]
    );
}

#[test]
fn scan_of_a_target_ends_by_what_it_is() {
    assert_eq!(
        scan_target("/x", TargetKind::Missing, Vec::new()).err(),
        Some("Path does not exist: /x".to_string())
    );
    assert_eq!(
        scan_target("/x", TargetKind::Neither, Vec::new()).err(),
        Some("Path is neither file nor directory: /x".to_string())
    );
    let empty = scan_target("/x", TargetKind::Directory, Vec::new()).expect("directory");
    assert_eq!(
        empty.warnings,
        vec!["No supported files found in /x. Expected LOG*, *.log, *.ldb."]
    );
    let single = scan_target("/x", TargetKind::File, Vec::new()).expect("file");
    assert!(single.warnings.is_empty());
}

#[test]
fn bytes_are_shown_as_text_or_hex() {
    assert_eq!(format_bytes_for_ui(b"a\tb\n", 80, false), "\"a\\tb\\n\"");
    assert_eq!(format_bytes_for_ui(b"abcdef", 3, false), "\"abc\"... (6 bytes)");
    assert_eq!(format_bytes_for_ui(b"", 0, false), "\"\"");
    assert_eq!(format_bytes_for_ui(b"\x00\x01", 80, false), "0x0001 (2 bytes)");
    assert_eq!(format_bytes_for_ui(b"abc", 2, true), "0x61... (3 bytes)");
    assert_eq!(format_bytes_for_ui(b"\xff", 0, false), "0xff (1 bytes)");
    assert_eq!(truncate_chars("привет", 2), ("пр".to_string(), true));
    assert_eq!(truncate_chars("", 0), (String::new(), false));
}

#[test]
fn log_payloads_cross_blocks() {
    let block = 32 * 1024;
    let value = vec![7u8; 70_000];
    let large = batch(1, &[(b"large", Some(&value))]);
    let room = block - 7;
    let mut wal = record(WalRecordType::First, &large[..room]);
    wal.extend_from_slice(&record(WalRecordType::Middle, &large[room..2 * room]));
    wal.extend_from_slice(&record(WalRecordType::Last, &large[2 * room..]));
    let second = wal.len();
    let filler_key = vec![b'f'; block - second % block - 7 - 18 - 4];
    let filler = batch(2, &[(&filler_key, None)]);
    wal.extend_from_slice(&record(WalRecordType::Full, &filler));
    let left = block - wal.len() % block;
    assert!(left > 0 && left < 7);
    wal.resize(wal.len() + left, 0);
    let third = wal.len();
    wal.extend_from_slice(&record(WalRecordType::Full, &batch(3, &[(b"end", None)])));
    let file = parse_wal_file("2.log", &wal).expect("wal");
    assert!(file.warnings.is_empty());
    assert_eq!(file.physical_records, 5);
    assert_eq!(file.logical_records, 3);
    let found: Vec<(usize, usize, bool, Option<u64>)> = file
        .batches
        .iter()
        .map(|batch| (batch.offset, batch.fragments, batch.checksum_ok, batch.sequence))
        .collect();
    assert_eq!(
        found,
        vec![
            (0, 3, true, Some(1)),
            (second, 1, true, Some(2)),
            (third, 1, true, Some(3)),
        ]
    );
    assert_eq!(file.batches[0].operations[0].value, Some(value));
}

#[test]
fn table_blocks_are_read_in_order() {
    let mut table = Vec::new();
    let first = internal_key(b"apple", 5, 1);
    let plain = block_with(&[(0, &first, b"red")]);
    let plain_handle = append_block(&mut table, &plain, 0);
    let second = internal_key(b"pear", 6, 1);
    let third = internal_key(b"pears", 7, 1);
    let content = block_with(&[(0, &second, b"green"), (4, &third[4..], b"many")]);
    let mut packed = Vec::new();
    push_varint32(&mut packed, content.len() as u32);
    packed.push(60 << 2);
    packed.push((content.len() - 1) as u8);
    packed.extend_from_slice(&content);
    let packed_handle = append_block(&mut table, &packed, 1);
    let meta_handle = append_block(&mut table, b"anything", 0);
    let index = block_with(&[
        (0, b"m", &handle_bytes(plain_handle)),
        (0, b"z", &handle_bytes(packed_handle)),
    ]);
    let index_handle = append_block(&mut table, &index, 0);
    finish_table(&mut table, meta_handle, index_handle);
    let file = parse_ldb_file("7.ldb", &table).expect("table");
    assert!(file.warnings.is_empty());
    assert_eq!((file.index_entries, file.data_blocks), (2, 2));
    let found: Vec<(&[u8], u64, &[u8])> = file
        .entries
        .iter()
        .map(|entry| (entry.user_key.as_slice(), entry.sequence, entry.value.as_slice()))
        .collect();
    assert_eq!(
        found,
        vec![
            (&b"apple"[..], 5, &b"red"[..]),
            (&b"pear"[..], 6, &b"green"[..]),
            (&b"pears"[..], 7, &b"many"[..]),
        ]
    );
}

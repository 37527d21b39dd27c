//! Sorted tables: footer, blocks with their trailer, and the entries of a block.

use vstd::prelude::*;

use crate::bytes::{
    byte_range, copy_bytes, le_at, le_bytes, lemma_le_roundtrip, pow256, push_range, read_u32,
    read_u64,
};
use crate::crc32c::{crc, crc32c_with_trailing_byte, mask_crc32c, masked};
use crate::snappy::{decompressed, snappy_decompress};
use crate::text::{hex, number_text, push_hex, push_number, with_number};
use crate::varint::{
    law_varint32_roundtrip, lemma_varint_next, read_varint32, read_varint64, varint32, varint64,
    varint_bytes, varint_stop,
};
use crate::views::{push_view, views};

verus! {

pub const TABLE_FOOTER_SIZE: usize = 48;

pub const TABLE_MAGIC_NUMBER: u64 = 0xdb47_7524_8b80_fb57;

/// Where a block stands in a table.
#[derive(Debug, Clone, Copy, PartialEq, Eq, Structural)]
pub struct BlockHandle {
    pub offset: u64,
    pub size: u64,
}

#[derive(Debug)]
pub struct TableBlockRead {
    pub data: Vec<u8>,
    pub checksum_ok: bool,
}

#[derive(Debug, Clone)]
pub struct BlockEntry {
    pub key: Vec<u8>,
    pub value: Vec<u8>,
}

#[verifier::ext_equal]
pub struct EntryView {
    pub key: Seq<u8>,
    pub value: Seq<u8>,
}

impl View for BlockEntry {
    type V = EntryView;

    open spec fn view(&self) -> EntryView {
        EntryView { key: self.key@, value: self.value@ }
    }
}

// ---------------------------------------------------------------------------
// Handles and the footer
// ---------------------------------------------------------------------------

/// The handle at `pos`, two variable-length integers, and the index after it.
pub open spec fn block_handle(s: Seq<u8>, pos: int) -> Result<(BlockHandle, int), Seq<char>> {
    match varint64(s, pos) {
        Err(e) => Err(e),
        Ok((offset, middle)) => match varint64(s, middle) {
            Err(e) => Err(e),
            Ok((size, end)) => Ok((BlockHandle { offset, size }, end)),
        },
    }
}

/// The index at which a reader of a handle stops.
pub open spec fn handle_stop(s: Seq<u8>, pos: int) -> int {
    if varint64(s, pos) is Err {
        varint_stop(s, pos, 10)
    } else {
        varint_stop(s, varint_stop(s, pos, 10), 10)
    }
}

pub fn read_block_handle(input: &[u8], position: &mut usize) -> (r: Result<BlockHandle, String>)
    ensures
        match r {
            Ok(handle) => block_handle(input@, *old(position) as int) == Ok::<
                (BlockHandle, int),
                Seq<char>,
            >((handle, *final(position) as int)),
            Err(e) => block_handle(input@, *old(position) as int) == Err::<
                (BlockHandle, int),
                Seq<char>,
            >(e@) && *final(position) == handle_stop(input@, *old(position) as int),
        },
{
    let offset: u64 = match read_varint64(input, position) {
        Ok(v) => v,
        Err(e) => {
            return Err(e);
        },
    };
    let size: u64 = match read_varint64(input, position) {
        Ok(v) => v,
        Err(e) => {
            return Err(e);
        },
    };
    Ok(BlockHandle { offset, size })
}

/// The handle at the start of `value`.
pub open spec fn leading_handle(value: Seq<u8>) -> Result<BlockHandle, Seq<char>> {
    match block_handle(value, 0) {
        Ok((handle, _)) => Ok(handle),
        Err(e) => Err(e),
    }
}

pub fn decode_block_handle(value: &[u8]) -> (r: Result<BlockHandle, String>)
    ensures
        match r {
            Ok(handle) => leading_handle(value@) == Ok::<BlockHandle, Seq<char>>(handle),
            Err(e) => leading_handle(value@) == Err::<BlockHandle, Seq<char>>(e@),
        },
{
    let mut pos: usize = 0;
    read_block_handle(value, &mut pos)
}

/// The handles of the metaindex and of the index block, which the last 48 bytes
/// of a table hold before its magic number.
pub open spec fn table_footer(table: Seq<u8>) -> Result<(BlockHandle, BlockHandle), Seq<char>> {
    if table.len() < TABLE_FOOTER_SIZE {
        Err("Table is smaller than the 48-byte footer."@)
    } else {
        let footer = table.skip(table.len() - TABLE_FOOTER_SIZE);
        let magic = le_at(footer, 40, 8);
        if magic != TABLE_MAGIC_NUMBER {
            Err(
                "Invalid table magic number: expected "@ + hex(TABLE_MAGIC_NUMBER as nat, 16)
                    + ", got "@ + hex(magic, 16) + "."@,
            )
        } else {
            match block_handle(footer, 0) {
                Err(e) => Err(e),
                Ok((metaindex, pos)) => match block_handle(footer, pos) {
                    Err(e) => Err(e),
                    Ok((index, _)) => Ok((metaindex, index)),
                },
            }
        }
    }
}

pub fn parse_table_footer(table: &[u8]) -> (r: Result<(BlockHandle, BlockHandle), String>)
    ensures
        match r {
            Ok(handles) => table_footer(table@) == Ok::<(BlockHandle, BlockHandle), Seq<char>>(
                handles,
            ),
            Err(e) => table_footer(table@) == Err::<(BlockHandle, BlockHandle), Seq<char>>(e@),
        },
{
    if table.len() < TABLE_FOOTER_SIZE {
        return Err("Table is smaller than the 48-byte footer.".to_string());
    }
    let footer = byte_range(table, table.len() - TABLE_FOOTER_SIZE, table.len());
    assert(footer@ =~= table@.skip(table@.len() - TABLE_FOOTER_SIZE));
    let magic: u64 = read_u64(footer.as_slice(), 40);
    if magic != TABLE_MAGIC_NUMBER {
        let mut message = "Invalid table magic number: expected ".to_string();
        push_hex(&mut message, TABLE_MAGIC_NUMBER, 16);
        message.push_str(", got ");
        push_hex(&mut message, magic, 16);
        message.push_str(".");
        return Err(message);
    }
    let mut pos: usize = 0;
    let metaindex = match read_block_handle(footer.as_slice(), &mut pos) {
        Ok(handle) => handle,
        Err(e) => {
            return Err(e);
        },
    };
    let index = match read_block_handle(footer.as_slice(), &mut pos) {
        Ok(handle) => handle,
        Err(e) => {
            return Err(e);
        },
    };
    Ok((metaindex, index))
}

// ---------------------------------------------------------------------------
// Blocks
// ---------------------------------------------------------------------------

/// The content of a block and whether its checksum holds. A block is followed
/// by its compression type and the stored checksum of both.
pub open spec fn table_block(table: Seq<u8>, handle: BlockHandle) -> Result<
    (Seq<u8>, bool),
    Seq<char>,
> {
    let offset = handle.offset as int;
    let size = handle.size as int;
    if offset > usize::MAX {
        Err(with_number("Block offset does not fit usize: "@, offset as nat, ""@))
    } else if size > usize::MAX {
        Err(with_number("Block size does not fit usize: "@, size as nat, ""@))
    } else if offset + size > usize::MAX {
        Err("Block offset + size overflowed."@)
    } else if offset + size + 5 > usize::MAX {
        Err("Block trailer overflowed."@)
    } else if offset + size + 5 > table.len() {
        Err(
            with_number(
                with_number(
                    with_number("Block (offset "@, offset as nat, ", size "@),
                    size as nat,
                    ") exceeds file length "@,
                ),
                table.len(),
                "."@,
            ),
        )
    } else {
        let data = table.subrange(offset, offset + size);
        let compression = table[offset + size];
        let checksum_ok = le_at(table, offset + size + 1, 4) == masked(crc(data.push(compression)));
        if compression == 0 {
            Ok((data, checksum_ok))
        } else if compression == 1 {
            match decompressed(data) {
                Ok(content) => Ok((content, checksum_ok)),
                Err(e) => Err(e),
            }
        } else {
            Err(
                with_number(
                    with_number(
                        "Unsupported block compression type "@,
                        compression as nat,
                        " at offset "@,
                    ),
                    offset as nat,
                    "."@,
                ),
            )
        }
    }
}

pub fn read_table_block(table: &[u8], handle: BlockHandle) -> (r: Result<TableBlockRead, String>)
    ensures
        match r {
            Ok(block) => table_block(table@, handle) == Ok::<(Seq<u8>, bool), Seq<char>>(
                (block.data@, block.checksum_ok),
            ),
            Err(e) => table_block(table@, handle) == Err::<(Seq<u8>, bool), Seq<char>>(e@),
        },
{
    if handle.offset > usize::MAX as u64 {
        return Err(number_text("Block offset does not fit usize: ", handle.offset, ""));
    }
    if handle.size > usize::MAX as u64 {
        return Err(number_text("Block size does not fit usize: ", handle.size, ""));
    }
    let offset: usize = handle.offset as usize;
    let size: usize = handle.size as usize;
    let trailer: usize = match offset.checked_add(size) {
        Some(v) => v,
        None => {
            return Err("Block offset + size overflowed.".to_string());
        },
    };
    let end: usize = match trailer.checked_add(5) {
        Some(v) => v,
        None => {
            return Err("Block trailer overflowed.".to_string());
        },
    };
    if end > table.len() {
        let mut message = number_text("Block (offset ", offset as u64, ", size ");
        push_number(&mut message, size as u64, ") exceeds file length ");
        push_number(&mut message, table.len() as u64, ".");
        return Err(message);
    }
    let data = byte_range(table, offset, trailer);
    let compression: u8 = table[trailer];
    let checksum: u32 = read_u32(table, trailer + 1);
    let checksum_ok = checksum == mask_crc32c(
        crc32c_with_trailing_byte(data.as_slice(), compression),
    );
    if compression == 0 {
        Ok(TableBlockRead { data, checksum_ok })
    } else if compression == 1 {
        match snappy_decompress(data.as_slice()) {
            Ok(content) => Ok(TableBlockRead { data: content, checksum_ok }),
            Err(e) => Err(e),
        }
    } else {
        let mut message = number_text(
            "Unsupported block compression type ",
            compression as u64,
            " at offset ",
        );
        push_number(&mut message, offset as u64, ".");
        Err(message)
    }
}

/// A block with its trailer: what is stored, how it is compressed, and the
/// stored checksum of both.
pub open spec fn block_bytes(compression: u8, stored: Seq<u8>) -> Seq<u8> {
    stored.push(compression) + le_bytes(masked(crc(stored.push(compression))) as nat, 4)
}

/// `data` is stored as it is, or as something that decompresses to it.
pub open spec fn is_stored_as(data: Seq<u8>, compression: u8, stored: Seq<u8>) -> bool {
    ||| compression == 0 && stored == data
    ||| compression == 1 && decompressed(stored) == Ok::<Seq<u8>, Seq<char>>(data)
}

/// A stored block reads back, compressed or not, with its checksum confirmed,
/// wherever it stands.
pub proof fn law_table_block_roundtrip(
    before: Seq<u8>,
    data: Seq<u8>,
    compression: u8,
    stored: Seq<u8>,
    after: Seq<u8>,
)
    requires
        is_stored_as(data, compression, stored),
        (before + block_bytes(compression, stored) + after).len() <= usize::MAX,
    ensures
        table_block(
            before + block_bytes(compression, stored) + after,
            (BlockHandle { offset: before.len() as u64, size: stored.len() as u64 }),
        ) == Ok::<(Seq<u8>, bool), Seq<char>>((data, true)),
{
    let checksum = masked(crc(stored.push(compression))) as nat;
    reveal_with_fuel(pow256, 5);
    lemma_le_roundtrip(checksum, 4);
    let all = before + block_bytes(compression, stored) + after;
    let offset = before.len() as int;
    let size = stored.len() as int;
    assert(all.subrange(offset, offset + size) =~= stored);
    assert(all[offset + size] == compression);
    assert(all.subrange(offset + size + 1, offset + size + 5) =~= le_bytes(checksum, 4));
}

// ---------------------------------------------------------------------------
// Entries
// ---------------------------------------------------------------------------

/// The entries of the first `limit` bytes from `pos` on, after `done`. An entry
/// gives how much of the key before it, `last`, its own key starts with, the
/// length of the rest of the key and of the value, and then both.
pub open spec fn entries_from(
    block: Seq<u8>,
    limit: int,
    pos: int,
    last: Seq<u8>,
    done: Seq<EntryView>,
) -> Result<Seq<EntryView>, Seq<char>>
    decreases limit - pos,
    via entries_from_decreases
{
    if pos >= limit {
        Ok(done)
    } else {
        match varint32(block, pos) {
            Err(e) => Err(e),
            Ok((shared, pos1)) => match varint32(block, pos1) {
                Err(e) => Err(e),
                Ok((rest, pos2)) => match varint32(block, pos2) {
                    Err(e) => Err(e),
                    Ok((length, start)) => {
                        let key_end = start + rest;
                        let end = key_end + length;
                        if shared > last.len() {
                            Err(
                                with_number(
                                    with_number(
                                        "Shared key prefix "@,
                                        shared as nat,
                                        " exceeds previous key length "@,
                                    ),
                                    last.len(),
                                    "."@,
                                ),
                            )
                        } else if key_end > usize::MAX {
                            Err("Key length overflowed."@)
                        } else if end > usize::MAX {
                            Err("Value length overflowed."@)
                        } else if end > limit {
                            Err(
                                with_number(
                                    with_number(
                                        "Truncated block entry: need "@,
                                        (end - start) as nat,
                                        " bytes, only "@,
                                    ),
                                    if limit > start {
                                        (limit - start) as nat
                                    } else {
                                        0
                                    },
                                    " available in data area."@,
                                ),
                            )
                        } else {
                            let key = last.take(shared as int) + block.subrange(start, key_end);
                            let entry = EntryView { key, value: block.subrange(key_end, end) };
                            entries_from(block, limit, end, key, done.push(entry))
                        }
                    },
                },
            },
        }
    }
}

#[via_fn]
proof fn entries_from_decreases(
    block: Seq<u8>,
    limit: int,
    pos: int,
    last: Seq<u8>,
    done: Seq<EntryView>,
) {
    lemma_varint_next(block, pos, 5);
    if let Ok((_, pos1)) = varint32(block, pos) {
        lemma_varint_next(block, pos1, 5);
        if let Ok((_, pos2)) = varint32(block, pos1) {
            lemma_varint_next(block, pos2, 5);
        }
    }
}

/// The entries of a block. Its last four bytes count the restart points, of
/// four bytes each, that stand before them.
pub open spec fn block_entries(block: Seq<u8>) -> Result<Seq<EntryView>, Seq<char>> {
    if block.len() < 4 {
        Err("Block is too short to contain restart metadata."@)
    } else {
        let restarts = le_at(block, block.len() - 4, 4);
        let metadata = restarts * 4 + 4;
        if restarts * 4 > usize::MAX {
            Err("Restart array size overflowed."@)
        } else if metadata > usize::MAX {
            Err("Block metadata size overflowed."@)
        } else if metadata > block.len() {
            Err(
                with_number(
                    with_number(
                        "Invalid restart metadata: restarts="@,
                        restarts,
                        ", block_len="@,
                    ),
                    block.len(),
                    "."@,
                ),
            )
        } else {
            entries_from(block, block.len() - metadata, 0, Seq::empty(), Seq::empty())
        }
    }
}

pub fn parse_block_entries(block: &[u8]) -> (r: Result<Vec<BlockEntry>, String>)
    ensures
        match r {
            Ok(entries) => block_entries(block@) == Ok::<Seq<EntryView>, Seq<char>>(
                views(entries@),
            ),
            Err(e) => block_entries(block@) == Err::<Seq<EntryView>, Seq<char>>(e@),
        },
{
    if block.len() < 4 {
        return Err("Block is too short to contain restart metadata.".to_string());
    }
    let restarts: usize = read_u32(block, block.len() - 4) as usize;
    let restart_bytes: usize = match restarts.checked_mul(4) {
        Some(v) => v,
        None => {
            return Err("Restart array size overflowed.".to_string());
        },
    };
    let metadata: usize = match restart_bytes.checked_add(4) {
        Some(v) => v,
        None => {
            return Err("Block metadata size overflowed.".to_string());
        },
    };
    if metadata > block.len() {
        let mut message = number_text(
            "Invalid restart metadata: restarts=",
            restarts as u64,
            ", block_len=",
        );
        push_number(&mut message, block.len() as u64, ".");
        return Err(message);
    }
    let limit: usize = block.len() - metadata;
    let mut pos: usize = 0;
    let mut last: Vec<u8> = Vec::new();
    let mut entries: Vec<BlockEntry> = Vec::new();
    assert(views(entries@) =~= Seq::empty());
    assert(last@ =~= Seq::empty());
    while pos < limit
        invariant
            limit <= block@.len(),
            entries_from(block@, limit as int, pos as int, last@, views(entries@)) == block_entries(
                block@,
            ),
        decreases limit - pos,
    {
        let ghost here = pos as int;
        let shared: usize = match read_varint32(block, &mut pos) {
            Ok(v) => v as usize,
            Err(e) => {
                return Err(e);
            },
        };
        proof {
            lemma_varint_next(block@, here, 5);
            lemma_varint_next(block@, pos as int, 5);
        }
        let rest: usize = match read_varint32(block, &mut pos) {
            Ok(v) => v as usize,
            Err(e) => {
                return Err(e);
            },
        };
        proof {
            lemma_varint_next(block@, pos as int, 5);
        }
        let length: usize = match read_varint32(block, &mut pos) {
            Ok(v) => v as usize,
            Err(e) => {
                return Err(e);
            },
        };
        if shared > last.len() {
            let mut message = number_text(
                "Shared key prefix ",
                shared as u64,
                " exceeds previous key length ",
            );
            push_number(&mut message, last.len() as u64, ".");
            return Err(message);
        }
        let key_end: usize = match pos.checked_add(rest) {
            Some(v) => v,
            None => {
                return Err("Key length overflowed.".to_string());
            },
        };
        let end: usize = match key_end.checked_add(length) {
            Some(v) => v,
            None => {
                return Err("Value length overflowed.".to_string());
            },
        };
        if end > limit {
            let mut message = number_text(
                "Truncated block entry: need ",
                (end - pos) as u64,
                " bytes, only ",
            );
            let room: usize = limit.saturating_sub(pos);
            push_number(&mut message, room as u64, " available in data area.");
            return Err(message);
        }
        let mut key = byte_range(last.as_slice(), 0, shared);
        assert(last@.subrange(0, shared as int) =~= last@.take(shared as int));
        push_range(&mut key, block, pos, key_end);
        let value = byte_range(block, key_end, end);
        last = copy_bytes(key.as_slice());
        push_view(&mut entries, BlockEntry { key, value });
        pos = end;
    }
    Ok(entries)
}

/// An entry as written: how much of the key before it is left out, and the
/// entry itself.
pub struct StoredEntry {
    pub shared: nat,
    pub entry: EntryView,
}

/// The entry starts with the first `shared` bytes of the key before it, and its
/// lengths fit in 32 bits.
pub open spec fn storable(last: Seq<u8>, s: StoredEntry) -> bool {
    &&& s.shared <= last.len()
    &&& s.shared <= s.entry.key.len()
    &&& last.take(s.shared as int) == s.entry.key.take(s.shared as int)
    &&& s.entry.key.len() <= u32::MAX
    &&& s.entry.value.len() <= u32::MAX
}

/// The three lengths at the start of an entry.
pub open spec fn entry_lengths(shared: nat, rest: nat, length: nat) -> Seq<u8> {
    varint_bytes(shared) + varint_bytes(rest) + varint_bytes(length)
}

pub open spec fn stored_entry_bytes(s: StoredEntry) -> Seq<u8> {
    entry_lengths(s.shared, (s.entry.key.len() - s.shared) as nat, s.entry.value.len()) + s.entry.key.skip(s.shared as int) + s.entry.value
}

pub open spec fn stored_entries_bytes(s: Seq<StoredEntry>) -> Seq<u8>
    decreases s.len(),
{
    if s.len() == 0 {
        Seq::empty()
    } else {
        stored_entry_bytes(s[0]) + stored_entries_bytes(s.skip(1))
    }
}

/// Each entry can be stored after the one before it, the first after `last`.
pub open spec fn all_storable(last: Seq<u8>, s: Seq<StoredEntry>) -> bool
    decreases s.len(),
{
    s.len() > 0 ==> storable(last, s[0]) && all_storable(s[0].entry.key, s.skip(1))
}

pub open spec fn stored(s: Seq<StoredEntry>) -> Seq<EntryView> {
    s.map_values(|x: StoredEntry| x.entry)
}

proof fn lemma_entry_lengths(before: Seq<u8>, x: u32, y: u32, z: u32, after: Seq<u8>)
    ensures
        ({
            let all = before + entry_lengths(x as nat, y as nat, z as nat) + after;
            let p1 = (before.len() + varint_bytes(x as nat).len()) as int;
            let p2 = p1 + varint_bytes(y as nat).len();
            let p3 = p2 + varint_bytes(z as nat).len();
            &&& varint32(all, before.len() as int) == Ok::<(u32, int), Seq<char>>((x, p1))
            &&& varint32(all, p1) == Ok::<(u32, int), Seq<char>>((y, p2))
            &&& varint32(all, p2) == Ok::<(u32, int), Seq<char>>((z, p3))
            &&& before.len() < p3
        }),
{
    let all = before + entry_lengths(x as nat, y as nat, z as nat) + after;
    let a = varint_bytes(x as nat);
    let b = varint_bytes(y as nat);
    let c = varint_bytes(z as nat);
    assert(before + a + (b + c + after) =~= all) by {
        assert(entry_lengths(x as nat, y as nat, z as nat) =~= a + b + c);
    }
    law_varint32_roundtrip(x, before, b + c + after);
    assert((before + a) + b + (c + after) =~= all);
    law_varint32_roundtrip(y, before + a, c + after);
    assert((before + a + b) + c + after =~= all);
    law_varint32_roundtrip(z, before + a + b, after);
    lemma_varint_next(all, before.len() as int, 5);
}

proof fn lemma_parts(front: Seq<u8>, a: Seq<u8>, b: Seq<u8>, after: Seq<u8>)
    ensures
        ({
            let all = front + a + b + after;
            let start = front.len() as int;
            &&& all.subrange(start, start + a.len()) == a
            &&& all.subrange(start + a.len(), start + a.len() + b.len()) == b
        }),
{
    let all = front + a + b + after;
    let start = front.len() as int;
    assert(all.subrange(start, start + a.len()) =~= a);
    assert(all.subrange(start + a.len(), start + a.len() + b.len()) =~= b);
}

#[verifier::rlimit(60)]
proof fn lemma_stored_entry(
    before: Seq<u8>,
    s: StoredEntry,
    after: Seq<u8>,
    limit: int,
    last: Seq<u8>,
    done: Seq<EntryView>,
)
    requires
        storable(last, s),
        (before + stored_entry_bytes(s)).len() <= limit,
        limit <= usize::MAX,
    ensures
        entries_from(
            before + stored_entry_bytes(s) + after,
            limit,
            before.len() as int,
            last,
            done,
        ) == entries_from(
            before + stored_entry_bytes(s) + after,
            limit,
            (before + stored_entry_bytes(s)).len() as int,
            s.entry.key,
            done.push(s.entry),
        ),
{
    let all = before + stored_entry_bytes(s) + after;
    let tail = s.entry.key.skip(s.shared as int);
    let value = s.entry.value;
    let lengths = entry_lengths(s.shared, tail.len(), value.len());
    let start = (before + lengths).len() as int;
    let key_end = start + tail.len();
    let end = key_end + value.len();
    assert(before + lengths + (tail + value + after) =~= all);
    lemma_entry_lengths(
        before,
        s.shared as u32,
        tail.len() as u32,
        value.len() as u32,
        tail + value + after,
    );
    lemma_parts(before + lengths, tail, value, after);
    assert(before + lengths + tail + value + after =~= all);
    assert(last.take(s.shared as int) + tail =~= s.entry.key);
    assert(end == (before + stored_entry_bytes(s)).len());
    assert(s.entry == (EntryView { key: s.entry.key, value }));
}

proof fn lemma_stored_entries(
    before: Seq<u8>,
    s: Seq<StoredEntry>,
    after: Seq<u8>,
    last: Seq<u8>,
    done: Seq<EntryView>,
)
    requires
        all_storable(last, s),
        (before + stored_entries_bytes(s)).len() <= usize::MAX,
    ensures
        entries_from(
            before + stored_entries_bytes(s) + after,
            (before + stored_entries_bytes(s)).len() as int,
            before.len() as int,
            last,
            done,
        ) == Ok::<Seq<EntryView>, Seq<char>>(done + stored(s)),
    decreases s.len(),
{
    let all = before + stored_entries_bytes(s) + after;
    let limit = (before + stored_entries_bytes(s)).len() as int;
    if s.len() == 0 {
        assert(done + stored(s) =~= done);
    } else {
        let head = stored_entry_bytes(s[0]);
        let rest = stored_entries_bytes(s.skip(1));
        assert(before + head + (rest + after) =~= all);
        lemma_stored_entry(before, s[0], rest + after, limit, last, done);
        assert((before + head) + rest + after =~= all);
        assert((before + head) + rest =~= before + stored_entries_bytes(s));
        lemma_stored_entries(before + head, s.skip(1), after, s[0].entry.key, done.push(s[0].entry));
        assert(done.push(s[0].entry) + stored(s.skip(1)) =~= done + stored(s));
    }
}

/// The entries of a block read back from its bytes: key prefixes that were left
/// out are restored.
pub proof fn law_block_entries_roundtrip(s: Seq<StoredEntry>, restarts: Seq<u8>, count: nat)
    requires
        all_storable(Seq::empty(), s),
        count <= u32::MAX,
        restarts.len() == 4 * count,
        stored_entries_bytes(s).len() + restarts.len() + 4 <= usize::MAX,
    ensures
        block_entries(stored_entries_bytes(s) + restarts + le_bytes(count, 4)) == Ok::<
            Seq<EntryView>,
            Seq<char>,
        >(stored(s)),
{
    let empty = Seq::<u8>::empty();
    let data = stored_entries_bytes(s);
    let block = data + restarts + le_bytes(count, 4);
    reveal_with_fuel(pow256, 5);
    lemma_le_roundtrip(count, 4);
    assert(block.subrange(block.len() - 4, block.len() as int) =~= le_bytes(count, 4));
    lemma_stored_entries(empty, s, restarts + le_bytes(count, 4), empty, Seq::empty());
    assert(empty + data + (restarts + le_bytes(count, 4)) =~= block);
    assert((empty + data).len() == data.len());
    assert(Seq::<EntryView>::empty() + stored(s) =~= stored(s));
}

} // verus!

//! Decompression of Snappy blocks.

use vstd::prelude::*;

use crate::bytes::{
    le_at, le_bytes, lemma_le_roundtrip, lemma_usize_bits, pow256, push_range, read_le, to_usize_bits,
    usize_bits,
};
use crate::text::{number_text, push_number, with_number};
use crate::varint::{law_varint64_roundtrip, lemma_varint_next, read_varint64, varint64, varint_bytes};

verus! {

/// One element of a compressed stream.
pub enum SnappyElement {
    /// The bytes of the input from `from` up to `to`.
    Literal { from: int, to: int },
    /// `length` bytes, each taken from `offset` bytes before the end of the output.
    Repeat { offset: int, length: int },
}

/// The element at `pos` and the index after it.
pub open spec fn element(input: Seq<u8>, pos: int) -> Result<(SnappyElement, int), Seq<char>> {
    let tag = input[pos] as int;
    let at = pos + 1;
    if tag % 4 == 0 {
        if tag / 4 < 60 {
            literal(input, at, tag / 4 + 1)
        } else {
            let extra = tag / 4 - 59;
            if at + extra > input.len() {
                Err("Unexpected end of input while reading Snappy literal length."@)
            } else {
                literal(input, at + extra, (le_at(input, at, extra) + 1) as int)
            }
        }
    } else if tag % 4 == 1 {
        if at + 1 > input.len() {
            Err("Unexpected end of input for Snappy COPY_1."@)
        } else {
            Ok(
                (
                    SnappyElement::Repeat {
                        offset: (tag / 32) * 256 + input[at],
                        length: (tag / 4) % 8 + 4,
                    },
                    at + 1,
                ),
            )
        }
    } else if tag % 4 == 2 {
        if at + 2 > input.len() {
            Err("Unexpected end of input for Snappy COPY_2."@)
        } else {
            Ok(
                (
                    SnappyElement::Repeat { offset: le_at(input, at, 2) as int, length: tag / 4 + 1 },
                    at + 2,
                ),
            )
        }
    } else {
        if at + 4 > input.len() {
            Err("Unexpected end of input for Snappy COPY_4."@)
        } else {
            Ok(
                (
                    SnappyElement::Repeat { offset: le_at(input, at, 4) as int, length: tag / 4 + 1 },
                    at + 4,
                ),
            )
        }
    }
}

/// A literal of `length` bytes that starts at `from`.
pub open spec fn literal(input: Seq<u8>, from: int, length: int) -> Result<
    (SnappyElement, int),
    Seq<char>,
> {
    if from + length > input.len() {
        Err(
            with_number(
                with_number("Snappy literal overruns input: need "@, length as nat, ", have "@),
                (input.len() - from) as nat,
                "."@,
            ),
        )
    } else {
        Ok((SnappyElement::Literal { from, to: from + length }, from + length))
    }
}

/// `out` with `length` bytes added, each taken from `offset` bytes before the end.
pub open spec fn repeated(out: Seq<u8>, offset: int, length: int) -> Seq<u8>
    decreases length,
{
    if length <= 0 {
        out
    } else {
        repeated(out.push(out[out.len() - offset]), offset, length - 1)
    }
}

pub open spec fn repeat_result(out: Seq<u8>, offset: int, length: int) -> Result<
    Seq<u8>,
    Seq<char>,
> {
    if offset == 0 {
        Err("Snappy COPY with zero offset is invalid."@)
    } else if offset > out.len() {
        Err(
            with_number(
                with_number("Snappy COPY offset "@, offset as nat, " exceeds output size "@),
                out.len(),
                "."@,
            ),
        )
    } else {
        Ok(repeated(out, offset, length))
    }
}

/// `out` after an element.
pub open spec fn applied(input: Seq<u8>, out: Seq<u8>, e: SnappyElement) -> Result<
    Seq<u8>,
    Seq<char>,
> {
    match e {
        SnappyElement::Literal { from, to } => Ok(out + input.subrange(from, to)),
        SnappyElement::Repeat { offset, length } => repeat_result(out, offset, length),
    }
}

/// `out` after all the elements from `pos` on.
pub open spec fn elements(input: Seq<u8>, pos: int, out: Seq<u8>) -> Result<Seq<u8>, Seq<char>>
    decreases input.len() - pos,
{
    if pos < 0 || pos >= input.len() {
        Ok(out)
    } else {
        match element(input, pos) {
            Err(e) => Err(e),
            Ok((e, next)) => match applied(input, out, e) {
                Err(e) => Err(e),
                Ok(more) => elements(input, next, more),
            },
        }
    }
}

/// The content of a compressed block: its length as a variable-length integer,
/// then elements that make up exactly so many bytes.
pub open spec fn decompressed(input: Seq<u8>) -> Result<Seq<u8>, Seq<char>> {
    match varint64(input, 0) {
        Err(e) => Err(e),
        Ok((length, pos)) => match elements(input, pos, Seq::empty()) {
            Err(e) => Err(e),
            Ok(out) => if out.len() != usize_bits(length) {
                Err(
                    with_number(
                        with_number(
                            "Snappy decoded length mismatch: expected "@,
                            usize_bits(length),
                            ", got "@,
                        ),
                        out.len(),
                        "."@,
                    ),
                )
            } else {
                Ok(out)
            },
        },
    }
}

/// A repeat keeps what was there, adds `length` bytes, and each of them equals
/// the byte `offset` places before it.
pub proof fn law_repeated(out: Seq<u8>, offset: int, length: int)
    requires
        0 < offset <= out.len(),
        0 <= length,
    ensures
        repeated(out, offset, length).len() == out.len() + length,
        repeated(out, offset, length).take(out.len() as int) == out,
        forall|i: int|
            out.len() <= i < out.len() + length ==> #[trigger] repeated(out, offset, length)[i]
                == repeated(out, offset, length)[i - offset],
    decreases length,
{
    if length > 0 {
        let next = out.push(out[out.len() - offset]);
        law_repeated(next, offset, length - 1);
        let r = repeated(out, offset, length);
        assert(r.take(out.len() as int) =~= r.take(next.len() as int).take(out.len() as int));
        assert(next.take(out.len() as int) =~= out);
        assert(r[out.len() as int] == r.take(next.len() as int)[out.len() as int]);
        assert(r[out.len() - offset] == r.take(next.len() as int)[out.len() - offset]);
    } else {
        assert(out.take(out.len() as int) =~= out);
    }
}

/// A stream of literals, of at most 60 bytes each, that holds `data`.
pub open spec fn literal_stream(data: Seq<u8>) -> Seq<u8>
    decreases data.len(),
{
    if data.len() == 0 {
        Seq::empty()
    } else {
        let n = if data.len() < 60 {
            data.len() as int
        } else {
            60
        };
        seq![((n - 1) * 4) as u8] + data.take(n) + literal_stream(data.skip(n))
    }
}

proof fn lemma_literal_stream(before: Seq<u8>, data: Seq<u8>, out: Seq<u8>)
    ensures
        elements(before + literal_stream(data), before.len() as int, out) == Ok::<
            Seq<u8>,
            Seq<char>,
        >(out + data),
    decreases data.len(),
{
    let input = before + literal_stream(data);
    let pos = before.len() as int;
    if data.len() == 0 {
        assert(out + data =~= out);
    } else {
        let n = if data.len() < 60 {
            data.len() as int
        } else {
            60
        };
        let head = seq![((n - 1) * 4) as u8] + data.take(n);
        assert(input[pos] == ((n - 1) * 4) as u8);
        assert(input[pos] as int == (n - 1) * 4);
        assert(element(input, pos) == literal(input, pos + 1, n));
        assert(input.subrange(pos + 1, pos + 1 + n) =~= data.take(n));
        assert(before + head + literal_stream(data.skip(n)) =~= input);
        lemma_literal_stream(before + head, data.skip(n), out + data.take(n));
        assert(out + data.take(n) + data.skip(n) =~= out + data);
    }
}

/// Data written as its length and a stream of literals decompresses to itself.
pub proof fn law_literal_roundtrip(data: Seq<u8>)
    requires
        data.len() <= usize::MAX,
    ensures
        decompressed(varint_bytes(data.len()) + literal_stream(data)) == Ok::<Seq<u8>, Seq<char>>(
            data,
        ),
{
    let input = varint_bytes(data.len()) + literal_stream(data);
    let empty = Seq::<u8>::empty();
    law_varint64_roundtrip(data.len() as u64, empty, literal_stream(data));
    assert(empty + varint_bytes(data.len()) + literal_stream(data) =~= input);
    lemma_literal_stream(varint_bytes(data.len()), data, empty);
    assert(empty + data =~= data);
    lemma_usize_bits(data.len() as u64);
}

/// One piece of a compressed stream as an encoder writes it.
pub enum SnappyPiece {
    /// The bytes themselves, with their number in the tag or, where `extra` is
    /// not zero, in so many bytes behind it.
    Literal { bytes: Seq<u8>, extra: nat },
    /// A repeat whose offset takes three bits of the tag and one byte.
    Short { offset: int, length: int },
    /// A repeat whose offset takes two bytes.
    Medium { offset: int, length: int },
    /// A repeat whose offset takes four bytes.
    Long { offset: int, length: int },
}

/// How many bytes a piece stands for.
pub open spec fn piece_len(p: SnappyPiece) -> int {
    match p {
        SnappyPiece::Literal { bytes, extra } => bytes.len() as int,
        SnappyPiece::Short { offset, length } => length,
        SnappyPiece::Medium { offset, length } => length,
        SnappyPiece::Long { offset, length } => length,
    }
}

/// The numbers of a piece fit in the form in which it is written.
pub open spec fn fits_form(p: SnappyPiece) -> bool {
    match p {
        SnappyPiece::Literal { bytes, extra } => if extra == 0 {
            1 <= bytes.len() <= 60
        } else {
            extra <= 4 && 1 <= bytes.len() <= pow256(extra)
        },
        SnappyPiece::Short { offset, length } => 0 <= offset <= 2047 && 4 <= length <= 11,
        SnappyPiece::Medium { offset, length } => 0 <= offset <= 0xffff && 1 <= length <= 64,
        SnappyPiece::Long { offset, length } => 0 <= offset <= 0xffff_ffff && 1 <= length <= 64,
    }
}

/// The bytes in which a piece is written: a tag, whose two lowest bits tell the
/// form, and what belongs to it.
pub open spec fn piece_bytes(p: SnappyPiece) -> Seq<u8> {
    match p {
        SnappyPiece::Literal { bytes, extra } => if extra == 0 {
            seq![(4 * (bytes.len() - 1)) as u8] + bytes
        } else {
            seq![(4 * (59 + extra)) as u8] + le_bytes((bytes.len() - 1) as nat, extra) + bytes
        },
        SnappyPiece::Short { offset, length } => seq![
            (1 + 4 * (length - 4) + 32 * (offset / 256)) as u8,
            (offset % 256) as u8,
        ],
        SnappyPiece::Medium { offset, length } => seq![(2 + 4 * (length - 1)) as u8] + le_bytes(
            offset as nat,
            2,
        ),
        SnappyPiece::Long { offset, length } => seq![(3 + 4 * (length - 1)) as u8] + le_bytes(
            offset as nat,
            4,
        ),
    }
}

/// The bytes in which pieces are written, one after the other.
pub open spec fn stream_bytes(pieces: Seq<SnappyPiece>) -> Seq<u8>
    decreases pieces.len(),
{
    if pieces.len() == 0 {
        Seq::empty()
    } else {
        piece_bytes(pieces[0]) + stream_bytes(pieces.skip(1))
    }
}

/// Where in `data` every byte from `at` to `at + length` is the one `offset`
/// places before it.
pub open spec fn repeats(data: Seq<u8>, at: int, offset: int, length: int) -> bool {
    &&& 1 <= offset <= at
    &&& at + length <= data.len()
    &&& forall|i: int| at <= i < at + length ==> #[trigger] data[i] == data[i - offset]
}

/// The piece stands for the part of `data` that starts at `at`.
pub open spec fn describes(p: SnappyPiece, data: Seq<u8>, at: int) -> bool {
    match p {
        SnappyPiece::Literal { bytes, extra } => at + bytes.len() <= data.len() && data.subrange(
            at,
            (at + bytes.len()) as int,
        ) == bytes,
        SnappyPiece::Short { offset, length } => repeats(data, at, offset, length),
        SnappyPiece::Medium { offset, length } => repeats(data, at, offset, length),
        SnappyPiece::Long { offset, length } => repeats(data, at, offset, length),
    }
}

/// The pieces, each in a form that it fits, stand for `data` from `at` on.
pub open spec fn describe_from(pieces: Seq<SnappyPiece>, data: Seq<u8>, at: int) -> bool
    decreases pieces.len(),
{
    if pieces.len() == 0 {
        at == data.len()
    } else {
        &&& fits_form(pieces[0])
        &&& describes(pieces[0], data, at)
        &&& describe_from(pieces.skip(1), data, at + piece_len(pieces[0]))
    }
}

/// What a piece is read as, when its bytes end at `next`.
pub open spec fn piece_element(p: SnappyPiece, next: int) -> SnappyElement {
    match p {
        SnappyPiece::Literal { bytes, extra } => SnappyElement::Literal {
            from: next - bytes.len(),
            to: next,
        },
        SnappyPiece::Short { offset, length } => SnappyElement::Repeat { offset, length },
        SnappyPiece::Medium { offset, length } => SnappyElement::Repeat { offset, length },
        SnappyPiece::Long { offset, length } => SnappyElement::Repeat { offset, length },
    }
}

proof fn lemma_literal_reads(before: Seq<u8>, bytes: Seq<u8>, extra: nat, after: Seq<u8>)
    requires
        fits_form((SnappyPiece::Literal { bytes, extra })),
    ensures
        ({
            let own = piece_bytes((SnappyPiece::Literal { bytes, extra }));
            let input = before + own + after;
            let next = (before.len() + own.len()) as int;
            &&& element(input, before.len() as int) == Ok::<(SnappyElement, int), Seq<char>>(
                (SnappyElement::Literal { from: next - bytes.len(), to: next }, next),
            )
            &&& input.subrange(next - bytes.len(), next) == bytes
        }),
{
    let own = piece_bytes((SnappyPiece::Literal { bytes, extra }));
    let input = before + own + after;
    let pos = before.len() as int;
    let next = pos + own.len();
    assert(input[pos] == own[0]);
    if extra == 0 {
        assert(own[0] as int == 4 * (bytes.len() - 1));
        assert(own.len() == 1 + bytes.len());
        assert(element(input, pos) == literal(input, pos + 1, bytes.len() as int));
    } else {
        lemma_le_roundtrip((bytes.len() - 1) as nat, extra);
        assert(own[0] as int == 4 * (59 + extra));
        assert(own.len() == 1 + extra + bytes.len());
        assert(input.subrange(pos + 1, pos + 1 + extra) =~= le_bytes(
            (bytes.len() - 1) as nat,
            extra,
        ));
        assert(element(input, pos) == literal(input, pos + 1 + extra, bytes.len() as int));
    }
    assert(input.subrange(next - bytes.len(), next) =~= bytes);
}

proof fn lemma_short_reads(before: Seq<u8>, offset: int, length: int, after: Seq<u8>)
    requires
        fits_form((SnappyPiece::Short { offset, length })),
    ensures
        element(
            before + piece_bytes((SnappyPiece::Short { offset, length })) + after,
            before.len() as int,
        ) == Ok::<(SnappyElement, int), Seq<char>>(
            (SnappyElement::Repeat { offset, length }, (before.len() + 2) as int),
        ),
{
    let own = piece_bytes((SnappyPiece::Short { offset, length }));
    let input = before + own + after;
    let pos = before.len() as int;
    let high = offset / 256;
    lemma_short_tag(high, length - 4);
    assert(input[pos] == own[0]);
    assert(own[0] as int == 1 + 4 * (length - 4) + 32 * high);
    assert(input[pos + 1] == own[1]);
    assert(own[1] as int == offset % 256);
}

proof fn lemma_short_tag(high: int, low: int)
    requires
        0 <= high <= 7,
        0 <= low <= 7,
    ensures
        ({
            let tag = 1 + 4 * low + 32 * high;
            &&& 0 <= tag <= 255
            &&& tag % 4 == 1
            &&& tag / 32 == high
            &&& (tag / 4) % 8 == low
        }),
{
    let tag = 1 + 4 * low + 32 * high;
    assert(tag / 4 == low + 8 * high);
}

proof fn lemma_medium_reads(before: Seq<u8>, offset: int, length: int, after: Seq<u8>)
    requires
        fits_form((SnappyPiece::Medium { offset, length })),
    ensures
        element(
            before + piece_bytes((SnappyPiece::Medium { offset, length })) + after,
            before.len() as int,
        ) == Ok::<(SnappyElement, int), Seq<char>>(
            (SnappyElement::Repeat { offset, length }, (before.len() + 3) as int),
        ),
        piece_bytes((SnappyPiece::Medium { offset, length })).len() == 3,
{
    let own = piece_bytes((SnappyPiece::Medium { offset, length }));
    let input = before + own + after;
    let pos = before.len() as int;
    reveal_with_fuel(pow256, 3);
    lemma_le_roundtrip(offset as nat, 2);
    assert(input[pos] == own[0]);
    assert(own[0] as int == 2 + 4 * (length - 1));
    assert(input.subrange(pos + 1, pos + 3) =~= le_bytes(offset as nat, 2));
}

proof fn lemma_long_reads(before: Seq<u8>, offset: int, length: int, after: Seq<u8>)
    requires
        fits_form((SnappyPiece::Long { offset, length })),
    ensures
        element(
            before + piece_bytes((SnappyPiece::Long { offset, length })) + after,
            before.len() as int,
        ) == Ok::<(SnappyElement, int), Seq<char>>(
            (SnappyElement::Repeat { offset, length }, (before.len() + 5) as int),
        ),
        piece_bytes((SnappyPiece::Long { offset, length })).len() == 5,
{
    let own = piece_bytes((SnappyPiece::Long { offset, length }));
    let input = before + own + after;
    let pos = before.len() as int;
    reveal_with_fuel(pow256, 5);
    lemma_le_roundtrip(offset as nat, 4);
    assert(input[pos] == own[0]);
    assert(own[0] as int == 3 + 4 * (length - 1));
    assert(input.subrange(pos + 1, pos + 5) =~= le_bytes(offset as nat, 4));
}

/// The bytes of a piece read back as that piece.
proof fn lemma_piece_reads(before: Seq<u8>, p: SnappyPiece, after: Seq<u8>)
    requires
        fits_form(p),
    ensures
        ({
            let input = before + piece_bytes(p) + after;
            let next = (before.len() + piece_bytes(p).len()) as int;
            &&& piece_bytes(p).len() > 0
            &&& element(input, before.len() as int) == Ok::<(SnappyElement, int), Seq<char>>(
                (piece_element(p, next), next),
            )
            &&& p matches SnappyPiece::Literal { bytes, extra } ==> input.subrange(
                next - bytes.len(),
                next,
            ) == bytes
        }),
{
    match p {
        SnappyPiece::Literal { bytes, extra } => {
            lemma_literal_reads(before, bytes, extra, after);
        },
        SnappyPiece::Short { offset, length } => {
            lemma_short_reads(before, offset, length, after);
        },
        SnappyPiece::Medium { offset, length } => {
            lemma_medium_reads(before, offset, length, after);
        },
        SnappyPiece::Long { offset, length } => {
            lemma_long_reads(before, offset, length, after);
        },
    }
}

/// A piece that stands for a part of `data` adds that part.
proof fn lemma_piece_adds(input: Seq<u8>, p: SnappyPiece, next: int, data: Seq<u8>, at: int)
    requires
        0 <= at <= data.len(),
        fits_form(p),
        describes(p, data, at),
        p matches SnappyPiece::Literal { bytes, extra } ==> input.subrange(
            next - bytes.len(),
            next,
        ) == bytes,
    ensures
        at + piece_len(p) <= data.len(),
        applied(input, data.take(at), piece_element(p, next)) == Ok::<Seq<u8>, Seq<char>>(
            data.take(at + piece_len(p)),
        ),
{
    match p {
        SnappyPiece::Literal { bytes, extra } => {
            assert(data.take(at) + bytes =~= data.take(at + piece_len(p)));
        },
        SnappyPiece::Short { offset, length } => {
            lemma_repeat_adds(data, at, offset, length);
        },
        SnappyPiece::Medium { offset, length } => {
            lemma_repeat_adds(data, at, offset, length);
        },
        SnappyPiece::Long { offset, length } => {
            lemma_repeat_adds(data, at, offset, length);
        },
    }
}

/// What `data` repeats at `at` is what a repeat adds to its first `at` bytes.
proof fn lemma_repeat_adds(data: Seq<u8>, at: int, offset: int, length: int)
    requires
        0 <= length,
        repeats(data, at, offset, length),
    ensures
        repeated(data.take(at), offset, length) == data.take(at + length),
    decreases length,
{
    if length > 0 {
        assert(data[at] == data[at - offset]);
        assert(data.take(at).push(data[at]) =~= data.take(at + 1));
        assert(repeats(data, at + 1, offset, length - 1));
        lemma_repeat_adds(data, at + 1, offset, length - 1);
    }
}

/// Reading pieces reaches what stands behind them with their data.
proof fn lemma_stream_reaches(
    before: Seq<u8>,
    pieces: Seq<SnappyPiece>,
    data: Seq<u8>,
    at: int,
    behind: Seq<u8>,
)
    requires
        0 <= at <= data.len(),
        describe_from(pieces, data, at),
    ensures
        elements(before + stream_bytes(pieces) + behind, before.len() as int, data.take(at))
            == elements(
            before + stream_bytes(pieces) + behind,
            (before.len() + stream_bytes(pieces).len()) as int,
            data,
        ),
    decreases pieces.len(),
{
    let input = before + stream_bytes(pieces) + behind;
    if pieces.len() == 0 {
        assert(data.take(at) =~= data);
    } else {
        let p = pieces[0];
        let rest = pieces.skip(1);
        let head = before + piece_bytes(p);
        let next = head.len() as int;
        lemma_piece_reads(before, p, stream_bytes(rest) + behind);
        assert(before + piece_bytes(p) + (stream_bytes(rest) + behind) =~= input);
        lemma_piece_adds(input, p, next, data, at);
        lemma_stream_reaches(head, rest, data, at + piece_len(p), behind);
        assert(head + stream_bytes(rest) + behind =~= input);
        let out = data.take(at);
        assert(0 <= before.len() < input.len());
        assert(elements(input, before.len() as int, out) == elements(
            input,
            next,
            data.take(at + piece_len(p)),
        ));
    }
}

/// Data written as its length and as pieces that stand for it, literals and
/// repeats in any of their forms, decompresses to itself. With any other length
/// in front of them the block is refused.
pub proof fn law_stream_roundtrip(pieces: Seq<SnappyPiece>, data: Seq<u8>, declared: usize)
    requires
        describe_from(pieces, data, 0),
        data.len() <= usize::MAX,
    ensures
        decompressed(varint_bytes(data.len()) + stream_bytes(pieces)) == Ok::<Seq<u8>, Seq<char>>(
            data,
        ),
        declared != data.len() ==> decompressed(
            varint_bytes(declared as nat) + stream_bytes(pieces),
        ) is Err,
{
    lemma_stream_behind(pieces, data, data.len() as usize);
    lemma_stream_behind(pieces, data, declared);
}

proof fn lemma_stream_behind(pieces: Seq<SnappyPiece>, data: Seq<u8>, declared: usize)
    requires
        describe_from(pieces, data, 0),
    ensures
        ({
            let input = varint_bytes(declared as nat) + stream_bytes(pieces);
            &&& decompressed(input) is Ok <==> declared == data.len()
            &&& declared == data.len() ==> decompressed(input)->Ok_0 == data
        }),
{
    let head = varint_bytes(declared as nat);
    let empty = Seq::<u8>::empty();
    law_varint64_roundtrip(declared as u64, empty, stream_bytes(pieces));
    assert(empty + head + stream_bytes(pieces) =~= head + stream_bytes(pieces));
    assert(data.take(0) =~= empty);
    lemma_stream_reaches(head, pieces, data, 0, empty);
    assert(head + stream_bytes(pieces) + empty =~= head + stream_bytes(pieces));
    lemma_usize_bits(declared as u64);
}

/// The offset of a repeat.
pub open spec fn piece_offset(p: SnappyPiece) -> Option<int> {
    match p {
        SnappyPiece::Literal { bytes, extra } => None,
        SnappyPiece::Short { offset, length } => Some(offset),
        SnappyPiece::Medium { offset, length } => Some(offset),
        SnappyPiece::Long { offset, length } => Some(offset),
    }
}

/// A repeat of any form whose offset is zero, or reaches back before the first
/// byte, has the block refused, whatever stands behind it.
pub proof fn law_bad_repeat_refused(
    pieces: Seq<SnappyPiece>,
    data: Seq<u8>,
    declared: usize,
    bad: SnappyPiece,
    behind: Seq<u8>,
)
    requires
        describe_from(pieces, data, 0),
        fits_form(bad),
        piece_offset(bad) == Some(0int) || piece_offset(bad) is Some && piece_offset(bad)->0
            > data.len(),
    ensures
        decompressed(
            varint_bytes(declared as nat) + stream_bytes(pieces) + (piece_bytes(bad) + behind),
        ) is Err,
{
    let head = varint_bytes(declared as nat);
    let empty = Seq::<u8>::empty();
    let rest = piece_bytes(bad) + behind;
    let input = head + stream_bytes(pieces) + rest;
    law_varint64_roundtrip(declared as u64, empty, stream_bytes(pieces) + rest);
    assert(empty + head + (stream_bytes(pieces) + rest) =~= input);
    assert(data.take(0) =~= empty);
    lemma_stream_reaches(head, pieces, data, 0, rest);
    let front = head + stream_bytes(pieces);
    lemma_piece_reads(front, bad, behind);
    assert(front + piece_bytes(bad) + behind =~= input);
    assert(front.len() < input.len());
    assert(elements(input, front.len() as int, data) is Err);
}

/// Adds `length` bytes to `out`, each taken from `offset` bytes before its end.
pub fn snappy_copy_from_output(out: &mut Vec<u8>, offset: usize, length: usize) -> (r: Result<
    (),
    String,
>)
    ensures
        match r {
            Ok(_) => repeat_result(old(out)@, offset as int, length as int) == Ok::<
                Seq<u8>,
                Seq<char>,
            >(final(out)@),
            Err(e) => final(out)@ == old(out)@ && repeat_result(
                old(out)@,
                offset as int,
                length as int,
            ) == Err::<Seq<u8>, Seq<char>>(e@),
        },
{
    if offset == 0 {
        return Err("Snappy COPY with zero offset is invalid.".to_string());
    }
    if offset > out.len() {
        let mut message = number_text(
            "Snappy COPY offset ",
            offset as u64,
            " exceeds output size ",
        );
        push_number(&mut message, out.len() as u64, ".");
        return Err(message);
    }
    for i in 0..length
        invariant
            0 < offset <= out@.len(),
            repeated(out@, offset as int, length - i) == repeated(
                old(out)@,
                offset as int,
                length as int,
            ),
    {
        let byte: u8 = out[out.len() - offset];
        out.push(byte);
    }
    Ok(())
}

pub fn snappy_decompress(input: &[u8]) -> (r: Result<Vec<u8>, String>)
    ensures
        match r {
            Ok(out) => decompressed(input@) == Ok::<Seq<u8>, Seq<char>>(out@),
            Err(e) => decompressed(input@) == Err::<Seq<u8>, Seq<char>>(e@),
        },
{
    let mut pos: usize = 0;
    let expected_len: usize = match read_varint64(input, &mut pos) {
        Ok(v) => to_usize_bits(v),
        Err(e) => {
            return Err(e);
        },
    };
    proof {
        lemma_varint_next(input@, 0, 10);
    }
    let ghost start = pos as int;
    let mut out: Vec<u8> = Vec::new();
    while pos < input.len()
        invariant
            pos <= input@.len(),
            varint64(input@, 0) matches Ok(head) && head.1 == start && usize_bits(head.0)
                == expected_len,
            elements(input@, pos as int, out@) == elements(input@, start, Seq::empty()),
        decreases input@.len() - pos,
    {
        let ghost here = pos as int;
        let ghost before = out@;
        let tag: usize = input[pos] as usize;
        pos = pos + 1;
        let kind: usize = tag % 4;
        if kind == 0 {
            let mut literal_len: u64 = (tag / 4 + 1) as u64;
            if tag / 4 >= 60 {
                let extra: usize = tag / 4 - 59;
                if extra > input.len() - pos {
                    return Err(
                        "Unexpected end of input while reading Snappy literal length.".to_string(),
                    );
                }
                proof {
                    reveal_with_fuel(crate::bytes::pow256, 5);
                }
                literal_len = read_le(input, pos, extra) + 1;
                pos = pos + extra;
            }
            assert(element(input@, here) == literal(input@, pos as int, literal_len as int));
            if literal_len > (input.len() - pos) as u64 {
                let mut message = number_text(
                    "Snappy literal overruns input: need ",
                    literal_len,
                    ", have ",
                );
                push_number(&mut message, (input.len() - pos) as u64, ".");
                return Err(message);
            }
            let end: usize = pos + literal_len as usize;
            push_range(&mut out, input, pos, end);
            pos = end;
        } else {
            let width: usize = if kind == 3 {
                4
            } else {
                kind
            };
            if width > input.len() - pos {
                if kind == 1 {
                    return Err("Unexpected end of input for Snappy COPY_1.".to_string());
                } else if kind == 2 {
                    return Err("Unexpected end of input for Snappy COPY_2.".to_string());
                } else {
                    return Err("Unexpected end of input for Snappy COPY_4.".to_string());
                }
            }
            let length: usize = if kind == 1 {
                (tag / 4) % 8 + 4
            } else {
                tag / 4 + 1
            };
            let low: u64 = read_le(input, pos, width);
            let offset: usize = if kind == 1 {
                proof {
                    assert(input@.subrange(pos as int, pos + 1).skip(1) =~= Seq::<u8>::empty());
                    reveal_with_fuel(crate::bytes::le, 2);
                    assert(low == input@[pos as int]);
                }
                (tag / 32) * 256 + low as usize
            } else {
                proof {
                    reveal_with_fuel(crate::bytes::pow256, 5);
                }
                low as usize
            };
            pos = pos + width;
            match snappy_copy_from_output(&mut out, offset, length) {
                Ok(_) => {},
                Err(e) => {
                    return Err(e);
                },
            }
        }
    }
    if out.len() != expected_len {
        let mut message = number_text(
            "Snappy decoded length mismatch: expected ",
            expected_len as u64,
            ", got ",
        );
        push_number(&mut message, out.len() as u64, ".");
        return Err(message);
    }
    Ok(out)
}

} // verus!

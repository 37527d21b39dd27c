//! What the reading and showing of files promises: which files are read as what and
//! in which order, how a text falls into lines, and how bytes are shown.

use vstd::prelude::*;
use vstd::utf8::{encode_utf8, encode_utf8_decode_utf8, encode_utf8_valid_utf8, valid_utf8};

use crate::order::{bytes_before, diverges_at, precedes, text_before};
use crate::text::{
    contains, decimal, hex, last_at, law_split, lemma_last_at, lemma_split_whole, lines, lower,
    occurs_at, split, CharClass,
};
use crate::viewer::{
    category, displayable, escaped, file_content, hex_digits, hex_preview, ldb_file, read_before,
    scanned, shown_bytes, wal_file, ContentView, FileCategory, ParsedFileView, ScanResultView,
    TargetKind,
};

verus! {

// ---------------------------------------------------------------------------
// Order and lines
// ---------------------------------------------------------------------------

/// Of two texts, or two runs of bytes, that part somewhere the one with the smaller
/// character there comes first; a beginning comes before the whole.
pub proof fn law_order(
    common: Seq<char>,
    x: char,
    a: Seq<char>,
    y: char,
    b: Seq<char>,
    shared: Seq<u8>,
    p: u8,
    c: Seq<u8>,
    q: u8,
    d: Seq<u8>,
)
    ensures
        (x as u32) < (y as u32) ==> text_before(common.push(x) + a, common.push(y) + b),
        (x as u32) < (y as u32) ==> !text_before(common.push(y) + b, common.push(x) + a),
        text_before(common, common.push(x) + a),
        !text_before(common.push(x) + a, common),
        !text_before(common, common),
        p < q ==> bytes_before(shared.push(p) + c, shared.push(q) + d),
        p < q ==> !bytes_before(shared.push(q) + d, shared.push(p) + c),
        bytes_before(shared, shared.push(p) + c),
        !bytes_before(shared.push(p) + c, shared),
{
    let k = crate::order::char_codes(common);
    let kx = crate::order::char_codes(common.push(x) + a);
    let ky = crate::order::char_codes(common.push(y) + b);
    assert(kx =~= k.push(x as int) + crate::order::char_codes(a));
    assert(ky =~= k.push(y as int) + crate::order::char_codes(b));
    lemma_parts(k, x as int, crate::order::char_codes(a), y as int, crate::order::char_codes(b));
    let m = crate::order::byte_codes(shared);
    let mp = crate::order::byte_codes(shared.push(p) + c);
    let mq = crate::order::byte_codes(shared.push(q) + d);
    assert(mp =~= m.push(p as int) + crate::order::byte_codes(c));
    assert(mq =~= m.push(q as int) + crate::order::byte_codes(d));
    lemma_parts(m, p as int, crate::order::byte_codes(c), q as int, crate::order::byte_codes(d));
}

proof fn lemma_parts(common: Seq<int>, x: int, a: Seq<int>, y: int, b: Seq<int>)
    ensures
        x < y ==> precedes(common.push(x) + a, common.push(y) + b),
        x < y ==> !precedes(common.push(y) + b, common.push(x) + a),
        precedes(common, common.push(x) + a),
        !precedes(common.push(x) + a, common),
        !precedes(common, common),
{
    let s = common.push(x) + a;
    let t = common.push(y) + b;
    let n = common.len() as int;
    assert(s.take(n) =~= common && t.take(n) =~= common && common.take(n) =~= common);
    if x < y {
        assert(diverges_at(s, t, n));
        if precedes(t, s) {
            let k = choose|k: int| diverges_at(t, s, k);
            if k > n {
                assert(t.take(k)[n] == s.take(k)[n]);
            } else if k < n {
                assert(t[k] == common[k] && s[k] == common[k]);
            }
        }
    }
    assert(diverges_at(common, s, n));
    if precedes(s, common) {
        let k = choose|k: int| diverges_at(s, common, k);
        assert(s[k] == common[k]);
    }
    if precedes(common, common) {
        let k = choose|k: int| diverges_at(common, common, k);
    }
}

/// A line goes up to a line feed, without a carriage return before it; the rest
/// follows as other lines. Behind the last line feed stands a line where anything
/// stands there.
pub proof fn law_text_lines(line: Seq<char>, rest: Seq<char>)
    requires
        forall|i: int| 0 <= i < line.len() ==> #[trigger] line[i] != '\n',
    ensures
        line.len() == 0 || line.last() != '\r' ==> lines(line.push('\n') + rest) == seq![line]
            + lines(rest),
        lines(line.push('\r').push('\n') + rest) == seq![line] + lines(rest),
        line.len() > 0 ==> lines(line) == seq![line],
        line.len() == 0 ==> lines(line) == Seq::<Seq<char>>::empty(),
{
    let k = CharClass::Only('\n');
    assert forall|i: int| 0 <= i < line.len() implies !k.has(#[trigger] line[i]) by {
        assert(line[i] != '\n');
    }
    lemma_split_whole(line, k);
    assert(split(line, k).last() == line);
    if line.len() == 0 {
        assert(lines(line) =~= Seq::<Seq<char>>::empty());
    } else {
        assert(lines(line) =~= seq![line]);
    }
    lemma_line_first(line, rest);
    let returned = line.push('\r');
    assert forall|i: int| 0 <= i < returned.len() implies #[trigger] returned[i] != '\n' by {
        if i < line.len() {
            assert(returned[i] == line[i]);
        }
    }
    lemma_line_first(returned, rest);
    assert(returned.drop_last() =~= line);
}

proof fn lemma_line_first(line: Seq<char>, rest: Seq<char>)
    requires
        forall|i: int| 0 <= i < line.len() ==> #[trigger] line[i] != '\n',
    ensures
        lines(line.push('\n') + rest) == seq![crate::text::without_return(line)] + lines(rest),
{
    let k = CharClass::Only('\n');
    assert forall|i: int| 0 <= i < line.len() implies !k.has(#[trigger] line[i]) by {
        assert(line[i] != '\n');
    }
    law_split(line, '\n', rest, k);
    let all = split(line.push('\n') + rest, k);
    let behind = split(rest, k);
    assert(behind.len() >= 1) by {
        law_split(rest, '\n', Seq::empty(), k);
        lemma_pieces(rest, k);
    }
    assert(all.len() == 1 + behind.len());
    assert(all[0] == line);
    assert forall|i: int| 0 <= i < behind.len() implies all[i + 1] == behind[i] by {}
    assert(all.last() == behind.last());
    assert(lines(line.push('\n') + rest) =~= seq![crate::text::without_return(line)] + lines(rest));
}

proof fn lemma_pieces(s: Seq<char>, k: CharClass)
    ensures
        split(s, k).len() >= 1,
    decreases s.len(),
{
    if s.len() > 0 {
        lemma_pieces(s.drop_last(), k);
    }
}

// ---------------------------------------------------------------------------
// Files
// ---------------------------------------------------------------------------

/// Whether a name is that of a text log: `LOG`, or `LOG.` and anything, in any case.
pub open spec fn is_log_text(name: Seq<char>) -> bool {
    lower(name) == "log"@ || (name.len() >= 4 && lower(name.take(4)) == "log."@)
}

/// A file is read as what its name says, in any case: `LOG` and what begins with
/// `LOG.` as a text log, what else ends in `.log` as a write-ahead log, and what ends
/// in `.ldb` as a table; no other file is read.
pub proof fn law_file_kinds(name: Seq<char>, stem: Seq<char>, ext: Seq<char>)
    requires
        forall|i: int| 0 <= i < ext.len() ==> #[trigger] ext[i] != '.',
    ensures
        is_log_text(name) <==> category(name) == FileCategory::TextLog,
        name == stem.push('.') + ext && !is_log_text(name) ==> {
            &&& lower(ext) == "log"@ ==> category(name) == FileCategory::Wal
            &&& lower(ext) == "ldb"@ && stem.len() > 0 ==> category(name) == FileCategory::Ldb
            &&& lower(ext) != "log"@ && lower(ext) != "ldb"@ ==> category(name)
                == FileCategory::Other
        },
        !contains(name, "."@) && !is_log_text(name) ==> category(name) == FileCategory::Other,
{
    assert(lower("LOG"@) =~= "log"@) by {
        reveal_strlit("LOG");
        reveal_strlit("log");
    }
    assert(lower("LOG."@) =~= "log."@) by {
        reveal_strlit("LOG.");
        reveal_strlit("log.");
    }
    assert(lower("log"@) =~= "log"@) by {
        reveal_strlit("log");
    }
    assert(lower("ldb"@) =~= "ldb"@) by {
        reveal_strlit("ldb");
    }
    assert("ldb"@ != "log"@) by {
        reveal_strlit("log");
        reveal_strlit("ldb");
        assert("ldb"@[1] == 'd' && "log"@[1] == 'o');
    }
    if name == stem.push('.') + ext && !is_log_text(name) {
        let at = stem.len() as int;
        lemma_last_dot(stem, ext);
        assert(name.take(at) =~= stem);
        assert(name.skip(at + 1) =~= ext);
        if lower(stem) == "log"@ {
            assert(name.take(4) =~= stem.push('.')) by {
                reveal_strlit("log");
                assert(lower(stem).len() == stem.len());
            }
            assert(lower(stem.push('.')) =~= "log."@) by {
                reveal_strlit("log");
                reveal_strlit("log.");
                assert(lower(stem.push('.')) =~= lower(stem).push('.'));
            }
            assert(stem.len() == 3) by {
                reveal_strlit("log");
                assert(lower(stem).len() == stem.len());
            }
            assert(is_log_text(name));
        }
        if name == ".."@ {
            reveal_strlit("..");
            assert(at == 1) by {
                if at == 0 {
                    assert(ext[0] == name[1]);
                }
            }
            assert(ext =~= Seq::empty());
            assert(lower(ext).len() == 0);
            assert("log"@.len() == 3) by {
                reveal_strlit("log");
            }
            assert("ldb"@.len() == 3) by {
                reveal_strlit("ldb");
            }
        }
    }
}

proof fn lemma_last_dot(stem: Seq<char>, ext: Seq<char>)
    requires
        forall|i: int| 0 <= i < ext.len() ==> #[trigger] ext[i] != '.',
    ensures
        last_at(stem.push('.') + ext, "."@) == Some(stem.len() as int),
{
    reveal_strlit(".");
    let name = stem.push('.') + ext;
    let at = stem.len() as int;
    assert(name.subrange(at, at + 1) =~= "."@);
    assert(occurs_at(name, "."@, at));
    assert forall|j: int| at < j implies !occurs_at(name, "."@, j) by {
        if occurs_at(name, "."@, j) {
            assert(name.subrange(j, j + 1)[0] == name[j]);
            assert(name[j] == ext[j - at - 1]);
        }
    }
    assert(crate::text::is_last_at(name, "."@, at));
    lemma_last_at(name, "."@, at);
}

/// Text logs are read before write-ahead logs and those before tables; within a kind
/// the names decide, in lower case.
pub proof fn law_reading_order(names: Seq<Seq<char>>, i: int, j: int)
    requires
        0 <= i < names.len(),
        0 <= j < names.len(),
    ensures
        category(names[i]) is TextLog && category(names[j]) is Wal ==> read_before(names, i, j)
            && !read_before(names, j, i),
        category(names[i]) is TextLog && category(names[j]) is Ldb ==> read_before(names, i, j)
            && !read_before(names, j, i),
        category(names[i]) is Wal && category(names[j]) is Ldb ==> read_before(names, i, j)
            && !read_before(names, j, i),
        category(names[i]) == category(names[j]) && text_before(lower(names[i]), lower(names[j]))
            ==> read_before(names, i, j),
        category(names[i]) == category(names[j]) && lower(names[i]) == lower(names[j]) && i < j
            ==> read_before(names, i, j),
{
}

/// The outcome of a scan has what was asked for and every file that was parsed; where
/// a directory holds none, that is warned of, and what is neither file nor directory
/// is an error.
pub proof fn law_scan_outcome(target: Seq<char>, files: Seq<ParsedFileView>)
    ensures
        scanned(target, TargetKind::File, files) == Ok::<ScanResultView, Seq<char>>(
            (ScanResultView { target, files, warnings: Seq::empty() }),
        ),
        files.len() > 0 ==> scanned(target, TargetKind::Directory, files) == Ok::<
            ScanResultView,
            Seq<char>,
        >((ScanResultView { target, files, warnings: Seq::empty() })),
        files.len() == 0 ==> scanned(target, TargetKind::Directory, files) == Ok::<
            ScanResultView,
            Seq<char>,
        >(
            (ScanResultView {
                target,
                files,
                warnings: seq![
                    "No supported files found in "@ + target
                        + ". Expected LOG*, *.log, *.ldb."@,
                ],
            }),
        ),
        scanned(target, TargetKind::Missing, files) == Err::<ScanResultView, Seq<char>>(
            "Path does not exist: "@ + target,
        ),
        scanned(target, TargetKind::Neither, files) == Err::<ScanResultView, Seq<char>>(
            "Path is neither file nor directory: "@ + target,
        ),
{
}

/// A file is parsed as what its name says. One that could not be read or parsed is
/// shown with the reason.
pub proof fn law_file_content(path: Seq<char>, name: Seq<char>, bytes: Seq<u8>, error: Seq<char>)
    ensures
        ({
            let read = file_content(path, name, Ok(bytes));
            let failed = file_content(path, name, Err(error));
            &&& category(name) is TextLog ==> read == ContentView::TextLog(
                lines(crate::std_text::utf8_lossy(bytes)),
            ) && failed == ContentView::Error("Failed to read text log "@ + path + ": "@ + error)
            &&& category(name) is Wal ==> failed == ContentView::Error(
                "Failed to read WAL file "@ + path + ": "@ + error,
            )
            &&& category(name) is Wal && wal_file(path, bytes) is Ok ==> read == ContentView::Wal(
                wal_file(path, bytes)->Ok_0,
            )
            &&& category(name) is Wal && wal_file(path, bytes) is Err ==> read
                == ContentView::Error(wal_file(path, bytes)->Err_0)
            &&& category(name) is Ldb ==> failed == ContentView::Error(
                "Failed to read LDB file "@ + path + ": "@ + error,
            )
            &&& category(name) is Ldb && ldb_file(path, bytes) is Ok ==> read == ContentView::Ldb(
                ldb_file(path, bytes)->Ok_0,
            )
            &&& category(name) is Ldb && ldb_file(path, bytes) is Err ==> read
                == ContentView::Error(ldb_file(path, bytes)->Err_0)
            &&& category(name) is Other ==> read == ContentView::Error("Unsupported file type."@)
                && failed == read
        }),
        bytes.len() < 48 ==> ldb_file(path, bytes) == Err::<crate::viewer::LdbFileView, Seq<char>>(
            "LDB file "@ + path + " is too small ("@ + decimal(bytes.len()) + " bytes)."@,
        ),
        bytes.len() < 7 ==> wal_file(path, bytes) == Err::<crate::viewer::WalFileView, Seq<char>>(
            "No valid WAL physical records were found in "@ + path + "."@,
        ),
{
    if bytes.len() < 7 {
        assert(crate::wal::physical_records(bytes).records.len() == 0);
    }
}

// ---------------------------------------------------------------------------
// Bytes as text
// ---------------------------------------------------------------------------

/// Line breaks and tabs are written out, wherever they stand; all else is kept.
pub proof fn law_escaped(a: Seq<char>, b: Seq<char>, c: char)
    ensures
        escaped(a + b) == escaped(a) + escaped(b),
        escaped(seq!['\n']) == "\\n"@,
        escaped(seq!['\r']) == "\\r"@,
        escaped(seq!['\t']) == "\\t"@,
        c != '\n' && c != '\r' && c != '\t' ==> escaped(seq![c]) == seq![c],
    decreases b.len(),
{
    reveal_with_fuel(escaped, 2);
    reveal_strlit("\\n");
    reveal_strlit("\\r");
    reveal_strlit("\\t");
    assert(seq![c].drop_last() =~= Seq::empty());
    assert(seq!['\n'].drop_last() =~= Seq::empty());
    assert(seq!['\r'].drop_last() =~= Seq::empty());
    assert(seq!['\t'].drop_last() =~= Seq::empty());
    assert(escaped(seq!['\n']) =~= "\\n"@);
    assert(escaped(seq!['\r']) =~= "\\r"@);
    assert(escaped(seq!['\t']) =~= "\\t"@);
    assert(Seq::<char>::empty() + seq![c] =~= seq![c]);
    if b.len() == 0 {
        assert(a + b =~= a);
        assert(escaped(a) + escaped(b) =~= escaped(a));
    } else {
        law_escaped(a, b.drop_last(), c);
        assert((a + b).drop_last() =~= a + b.drop_last());
        assert((a + b).last() == b.last());
        assert(escaped(a + b) =~= escaped(a) + escaped(b));
    }
}

/// Each byte is written with two hexadecimal digits, the higher one first.
pub proof fn law_hex_digits(a: Seq<u8>, b: Seq<u8>, x: u8)
    ensures
        hex_digits(a + b) == hex_digits(a) + hex_digits(b),
        hex_digits(seq![x]) == seq![
            "0123456789abcdef"@[x as int / 16],
            "0123456789abcdef"@[x as int % 16],
        ],
    decreases b.len(),
{
    reveal_with_fuel(hex_digits, 2);
    reveal_with_fuel(hex, 3);
    assert(seq![x].drop_last() =~= Seq::empty());
    reveal_strlit("0123456789abcdef");
    assert(hex_digits(seq![x]) =~= seq![
        "0123456789abcdef"@[x as int / 16],
        "0123456789abcdef"@[x as int % 16],
    ]);
    if b.len() == 0 {
        assert(a + b =~= a);
        assert(hex_digits(a) + hex_digits(b) =~= hex_digits(a));
    } else {
        law_hex_digits(a, b.drop_last(), x);
        assert((a + b).drop_last() =~= a + b.drop_last());
        assert((a + b).last() == b.last());
        assert(hex_digits(a + b) =~= hex_digits(a) + hex_digits(b));
    }
}

/// Bytes that are a displayable text are shown as it, in quotes, and cut where it is
/// too long; others, and all where that is asked for, in hexadecimal, two digits for
/// each byte that there is room for.
pub proof fn law_shown_bytes(text: Seq<char>, data: Seq<u8>, max: nat)
    requires
        displayable(text),
    ensures
        ({
            let bytes = encode_utf8(text);
            let shown = shown_bytes(bytes, max, false);
            &&& escaped(text).len() <= max ==> shown == "\""@ + escaped(text) + "\""@
            &&& escaped(text).len() > max ==> shown == "\""@ + escaped(text).take(max as int)
                + "\"... ("@ + decimal(bytes.len()) + " bytes)"@
        }),
        shown_bytes(data, max, true) == hex_preview(data, max),
        !valid_utf8(data) ==> shown_bytes(data, max, false) == hex_preview(data, max),
        2 * data.len() <= max ==> hex_preview(data, max) == "0x"@ + hex_digits(data) + " ("@
            + decimal(data.len()) + " bytes)"@,
        max >= 2 && data.len() > max / 2 ==> hex_preview(data, max) == "0x"@ + hex_digits(
            data.take(max as int / 2),
        ) + "... ("@ + decimal(data.len()) + " bytes)"@,
{
    encode_utf8_valid_utf8(text);
    encode_utf8_decode_utf8(text);
    assert(data.take(data.len() as int) =~= data);
}

} // verus!

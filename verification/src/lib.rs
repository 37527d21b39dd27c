//! Finds game and chat accounts in what programs leave on a disk, and explains
//! where each one was seen.
//!
//! The modules split as follows:
//!
//! * [`views`], [`text`], [`text_bytes`], [`bytes`], [`order`], [`paths`] and
//!   [`time`] hold the primitives the rest is written in.
//! * [`std_text`], [`outside`] and [`json`] call the standard library, the regular
//!   expression engine, the gzip decoder, the clock and the JSON parser.
//! * [`crc32c`], [`varint`], [`snappy`], [`wal`], [`table`] and [`viewer`] read
//!   LevelDB files, [`readable`] and [`readable_records`] show what is in them, and
//!   [`roundtrip`] states that what was written is read.
//! * [`minecraft`] and [`minecraft_accounts`] find accounts of the game,
//!   [`discord_text`], [`discord_accounts`] and [`discord_scan`] those of Discord;
//!   [`profiles`] links both by user profile.
//! * [`usn_records`], [`usn_scan`], [`usn_journal`] and [`forensics`] read the change
//!   journals of the drives and say whether logs were tampered with.
//! * [`scan_session`] and [`scanner`] make one scan of all this, and [`app_state`]
//!   and [`theme`] what the window shows of it.
//! * [`detect`] describes running games, [`alts`] lists the accounts in their
//!   directories, and [`webview2`] decides whether the program can start.
//! * [`alts_laws`], [`detect_laws`], [`discord_laws`], [`discord_text_laws`],
//!   [`forensics_laws`], [`leveldb_laws`], [`minecraft_laws`], [`paths_laws`],
//!   [`readable_laws`], [`report_laws`], [`usn_laws`], [`viewer_laws`] and
//!   [`window_laws`] state what the parts promise of all their inputs.

pub mod alts;
pub mod alts_laws;
pub mod app_state;
pub mod bytes;
pub mod crc32c;
pub mod detect;
pub mod detect_laws;
pub mod discord_accounts;
pub mod discord_laws;
pub mod discord_scan;
pub mod discord_text;
pub mod discord_text_laws;
pub mod forensics;
pub mod forensics_laws;
pub mod json;
pub mod leveldb_laws;
pub mod minecraft;
pub mod minecraft_accounts;
pub mod minecraft_laws;
pub mod order;
pub mod outside;
pub mod paths;
pub mod paths_laws;
pub mod profiles;
pub mod readable;
pub mod readable_laws;
pub mod readable_records;
pub mod report_laws;
pub mod roundtrip;
pub mod scan_session;
pub mod scanner;
pub mod snappy;
pub mod std_text;
pub mod table;
pub mod text;
pub mod text_bytes;
pub mod theme;
pub mod time;
pub mod usn_journal;
pub mod usn_laws;
pub mod usn_records;
pub mod usn_scan;
pub mod varint;
pub mod viewer;
pub mod viewer_laws;
pub mod views;
pub mod wal;
pub mod webview2;
pub mod window_laws;

//! Tests of the library's functions on concrete values: formulas, edge
//! cases, errors, and the laws on examples.

use rpick::cache::{is_stale_by_metadata, DeletedHashes};
use rpick::commands::{cache_entry_usable, content_hash};
use rpick::filesystem::{
    clean_filename, corrected_duration_name, duplicates_to_move, duration_prefix_overflows,
    duration_prefixed_name, find_duplicates, folder_destination, is_fix_candidate,
    is_scan_candidate, special_fix_name, tag_lines, DatedPath, HashedFile,
};
use rpick::hexcode::HexError;
use rpick::ocr::{clean_ocr_text, search_ocr_results};
use rpick::paths::{join_path, path_file_name};
use rpick::ui::{format_duration, progress_line};
use rpick::video::{is_video_extension, Rect, VideoFileState};

// --- deleted hashes ----------------------------------------------------------

#[test]
fn deleted_hashes_insert_contains_len() {
    let mut dh = DeletedHashes::new();
    assert_eq!(dh.len(), 0);
    assert!(!dh.contains(&[1u8; 16]));
    dh.insert([1u8; 16]);
    assert!(dh.contains(&[1u8; 16]));
    assert!(!dh.contains(&[2u8; 16]));
    dh.insert([1u8; 16]);
    assert_eq!(dh.len(), 1, "the same hash counts once");
    dh.insert([2u8; 16]);
    assert_eq!(dh.len(), 2);
}

#[test]
fn deleted_hashes_parse_lines() {
    let text = "00112233445566778899aabbccddeeff\n\n  FFEEDDCCBBAA99887766554433221100  \r\nnothex\n";
    let (dh, warnings) = DeletedHashes::parse(text);
    assert_eq!(dh.len(), 2);
    assert!(dh.contains(&[
        0x00, 0x11, 0x22, 0x33, 0x44, 0x55, 0x66, 0x77, 0x88, 0x99, 0xaa, 0xbb, 0xcc, 0xdd, 0xee,
        0xff
    ]));
    assert!(dh.contains(&[
        0xff, 0xee, 0xdd, 0xcc, 0xbb, 0xaa, 0x99, 0x88, 0x77, 0x66, 0x55, 0x44, 0x33, 0x22, 0x11,
        0x00
    ]));
    assert_eq!(warnings.len(), 1);
    assert_eq!(warnings[0].line, "nothex");
    assert_eq!(warnings[0].error, HexError::InvalidStringLength);
}

#[test]
fn deleted_hashes_parse_errors() {
    let (dh, warnings) = DeletedHashes::parse("abc\n0011223344556677889900112233445g\n00\n");
    assert_eq!(dh.len(), 0);
    assert_eq!(warnings.len(), 3);
    assert_eq!(warnings[0].error, HexError::OddLength);
    assert_eq!(warnings[1].error, HexError::InvalidHexCharacter { c: 'g', index: 31 });
    assert_eq!(warnings[2].error, HexError::InvalidStringLength);
}

#[test]
fn deleted_hashes_text_roundtrip() {
    let mut dh = DeletedHashes::new();
    dh.insert([0xab; 16]);
    dh.insert([0x01; 16]);
    let text = dh.to_text();
    assert_eq!(text.len(), 66);
    assert!(text.contains("abababababababababababababababab\n"));
    assert!(text.contains("01010101010101010101010101010101\n"));
    let (back, warnings) = DeletedHashes::parse(&text);
    assert_eq!(back.len(), 2);
    assert!(back.contains(&[0xab; 16]));
    assert!(back.contains(&[0x01; 16]));
    assert!(warnings.is_empty());
}

#[test]
fn deleted_hashes_empty_text() {
    assert_eq!(DeletedHashes::new().to_text(), "");
    let (dh, warnings) = DeletedHashes::parse("");
    assert_eq!(dh.len(), 0);
    assert!(warnings.is_empty());
}

#[test]
fn staleness_from_metadata() {
    assert!(is_stale_by_metadata(None, 4, 10));
    assert!(!is_stale_by_metadata(Some((4, 10)), 4, 10));
    assert!(is_stale_by_metadata(Some((8, 10)), 4, 10));
    assert!(is_stale_by_metadata(Some((4, 11)), 4, 10));
}

// --- commands ------------------------------------------------------------------

#[test]
fn cache_entry_usable_cases() {
    assert!(!cache_entry_usable(None, false));
    assert!(!cache_entry_usable(Some((true, false)), false));
    assert!(cache_entry_usable(Some((false, true)), false));
    assert!(!cache_entry_usable(Some((false, true)), true));
    assert!(cache_entry_usable(Some((false, false)), true));
}

#[test]
fn content_hash_is_truncated_blake3_of_first_16k() {
    let data = b"hello".to_vec();
    let full = blake3::hash(&data);
    assert_eq!(&content_hash(&data)[..], &full.as_bytes()[..16]);

    let mut big = vec![7u8; 20000];
    let h1 = content_hash(&big);
    big[19999] = 8;
    assert_eq!(content_hash(&big), h1, "bytes past 16 KiB do not count");
    big[100] = 9;
    assert_ne!(content_hash(&big), h1);
    let prefix = blake3::hash(&vec![7u8; 16384]);
    assert_eq!(&h1[..], &prefix.as_bytes()[..16]);
}

// --- ui --------------------------------------------------------------------------

#[test]
fn format_duration_values() {
    assert_eq!(format_duration(123), "[02:03]");
    assert_eq!(format_duration(0), "[00:00]");
    assert_eq!(format_duration(59), "[00:59]");
    assert_eq!(format_duration(6000), "[100:00]");
}

#[test]
fn progress_line_values() {
    assert_eq!(progress_line(0, 10, "a.mp4"), "   1/10 a.mp4");
    assert_eq!(progress_line(12344, 20000, "b"), "12345/20000 b");
    assert_eq!(progress_line(998, 1000, ""), " 999/1000 ");
}

// --- video -------------------------------------------------------------------------

#[test]
fn video_extension_edge_cases() {
    assert!(!is_video_extension("mp4"));
    assert!(!is_video_extension(".mp4"));
    assert!(is_video_extension("dir.mp4/clip.TS"));
    assert!(is_video_extension("clip.mp4/"));
    assert!(!is_video_extension("clip.mp4/.."));
    assert!(!is_video_extension(""));
}

#[test]
fn video_types() {
    let r = Rect { x: 1, y: 2, width: 3, height: 4 };
    assert_eq!(r.width, 3);
    assert_eq!(VideoFileState::Active, VideoFileState::Active);
    assert_ne!(VideoFileState::Good, VideoFileState::Trashed);
}

// --- paths -------------------------------------------------------------------------

#[test]
fn path_pieces() {
    assert_eq!(path_file_name("/a/b/c.mp4").as_deref(), Some("c.mp4"));
    assert_eq!(path_file_name("a/b/.").as_deref(), Some("b"));
    assert_eq!(path_file_name("a/.."), None);
    assert_eq!(path_file_name("/"), None);
    assert_eq!(join_path("dir", "x"), "dir/x");
    assert_eq!(join_path("dir/", "x"), "dir/x");
    assert_eq!(join_path("", "x"), "x");
    assert_eq!(join_path("dir", "/abs"), "/abs");
}

// --- filesystem decisions ---------------------------------------------------------------

#[test]
fn scan_candidates() {
    assert!(is_scan_candidate("./test.mp4"));
    assert!(is_scan_candidate("./test.mov"));
    assert!(!is_scan_candidate("./test.txt"));
    assert!(!is_scan_candidate("./Good/good.mp4"));
    assert!(!is_scan_candidate("./FINE/a.mp4"));
    assert!(!is_scan_candidate("./a/Dupes/b/c.mkv"));
    assert!(!is_scan_candidate("/tmp/x/good/clip.webm"));
}

#[test]
fn scan_candidates_names_that_only_mention_organised_folders() {
    assert!(is_scan_candidate("./my_dupes.mp4"));
    assert!(is_scan_candidate("./goodbye.mp4"));
    assert!(is_scan_candidate("./good.mp4"), "a file named good is no folder");
    assert!(is_scan_candidate("/x/Refined/a.mp4"));
    assert!(is_scan_candidate("./Goodies/fine_cut.mov"));
}

#[test]
fn deleted_hashes_len_counts_distinct_inserts() {
    let mut dh = DeletedHashes::new();
    for h in [[3u8; 16], [4u8; 16], [3u8; 16], [5u8; 16], [4u8; 16]] {
        dh.insert(h);
    }
    assert_eq!(dh.len(), 3);
}

#[test]
fn fix_candidates() {
    assert!(is_fix_candidate("/x/test[1].mp4"));
    assert!(is_fix_candidate("/x/parts"), "matches the text ending `ts`");
    assert!(!is_fix_candidate("/x/good/a.mp4"));
    assert!(is_fix_candidate("/x/goodies/a.mp4"));
    assert!(!is_fix_candidate("/x/a.txt"));
}

#[test]
fn clean_filename_values() {
    assert_eq!(clean_filename("test[1].mp4"), "test(1).mp4");
    assert_eq!(clean_filename("clean.mp4"), "clean.mp4");
    assert_eq!(clean_filename("a & b.mp4"), "a and b.mp4");
    assert_eq!(clean_filename("#a!!b?.mp4"), "a_b_.mp4");
    assert_eq!(clean_filename("__x__"), "x");
    assert_eq!(clean_filename("say \"hi\"{2}"), "say 'hi'(2)");
    let once = clean_filename("@@weird##name$$.mkv");
    assert_eq!(clean_filename(&once), once, "cleaning twice changes nothing");
}

#[test]
fn special_fix_names() {
    assert_eq!(special_fix_name("/d/test[1].mp4", "test[1].mp4").as_deref(), Some("test(1).mp4"));
    assert_eq!(special_fix_name("/d/clean.mp4", "clean.mp4"), None);
    assert_eq!(special_fix_name("/d/a&b.txt", "a&b.txt"), None, "not a video");
    assert_eq!(special_fix_name("/d/good/a&b.mp4", "a&b.mp4"), None, "organised folder");
}

#[test]
fn duration_prefix_values() {
    assert_eq!(duration_prefixed_name("test.mp4", 123).as_deref(), Some("[02:03] test.mp4"));
    assert_eq!(duration_prefixed_name("[02:03] test.mp4", 123), None);
    assert_eq!(duration_prefixed_name("[a].mp4", 5).as_deref(), Some("[00:05] [a].mp4"));
    assert_eq!(duration_prefixed_name("x", 3600).as_deref(), Some("[60:00] x"));
}

#[test]
fn corrected_duration_values() {
    assert_eq!(
        corrected_duration_name("[01:00] test.mp4", 123).as_deref(),
        Some("[02:03] test.mp4")
    );
    assert_eq!(corrected_duration_name("[02:03] test.mp4", 123), None);
    assert_eq!(corrected_duration_name("[02:02] test.mp4", 123), None, "one second off is fine");
    assert_eq!(corrected_duration_name("test.mp4", 123), None);
    assert_eq!(corrected_duration_name("[0203] test.mp4", 123), None);
    assert_eq!(corrected_duration_name("[x:y]b", 10).as_deref(), Some("[00:10] b"));
    assert!(!duration_prefix_overflows("[01:00] a"));
    assert!(duration_prefix_overflows("[99999999999999999999:0] a") == false);
    assert!(duration_prefix_overflows("[999999999999999999:0] a"));
    let fixed = corrected_duration_name("[9:99]   clip.mkv", 61).unwrap();
    assert_eq!(fixed, "[01:01] clip.mkv");
    assert_eq!(corrected_duration_name(&fixed, 61), None);
}

#[test]
fn folder_destinations() {
    assert_eq!(folder_destination("/x/test.mp4", "/t", 0), "/t/test.mp4");
    assert_eq!(folder_destination("/x/test.mp4", "/t", 1), "/t/test_1.mp4");
    assert_eq!(folder_destination("/x/test.mp4", "/t/", 12), "/t/test_12.mp4");
    assert_eq!(folder_destination("/x/README", "../Dupes", 2), "../Dupes/README_2");
    assert_eq!(folder_destination("/x/.hidden", "d", 1), "d/.hidden_1");
    assert_eq!(folder_destination("/x/a.", "d", 1), "d/a_1");
    assert_eq!(folder_destination("/", "d", 0), "d/unknown");
    assert_eq!(folder_destination("/", "d", 3), "d/file_3");
}

#[test]
fn tag_lines_values() {
    assert_eq!(tag_lines("Red\n Purple \r\n"), vec!["Red".to_string(), "Purple".to_string()]);
    assert!(tag_lines("").is_empty());
    assert_eq!(tag_lines("\n"), vec!["".to_string()]);
}

#[test]
fn duplicates_keep_newest() {
    let group = vec![
        DatedPath { path: "a".to_string(), modified: Some(5) },
        DatedPath { path: "b".to_string(), modified: Some(9) },
        DatedPath { path: "c".to_string(), modified: None },
        DatedPath { path: "d".to_string(), modified: Some(9) },
    ];
    assert_eq!(duplicates_to_move(&group), vec!["d".to_string(), "a".to_string(), "c".to_string()]);
    assert!(duplicates_to_move(&[]).is_empty());
}

#[test]
fn duplicates_order_and_hex() {
    let files = vec![
        HashedFile { path: "x1".to_string(), hash: [1; 16] },
        HashedFile { path: "y1".to_string(), hash: [2; 16] },
        HashedFile { path: "z".to_string(), hash: [0; 16] },
        HashedFile { path: "z2".to_string(), hash: [0; 16] },
        HashedFile { path: "y2".to_string(), hash: [2; 16] },
        HashedFile { path: "x2".to_string(), hash: [1; 16] },
        HashedFile { path: "y3".to_string(), hash: [2; 16] },
    ];
    let d = find_duplicates(&files);
    assert_eq!(d.len(), 2, "zero hashes are not grouped");
    assert_eq!(d[0].0, "02020202020202020202020202020202");
    assert_eq!(d[0].1, vec!["y1".to_string(), "y2".to_string(), "y3".to_string()]);
    assert_eq!(d[1].0, "01010101010101010101010101010101");
    assert_eq!(d[1].1, vec!["x1".to_string(), "x2".to_string()]);
}

// --- ocr ---------------------------------------------------------------------------------

#[test]
fn ocr_search_and_cleaning() {
    let texts = vec!["ÄPFEL".to_string(), "apple pie".to_string(), "APPLE".to_string()];
    assert_eq!(search_ocr_results("apple", &texts), vec![1, 2]);
    assert_eq!(search_ocr_results("äpfel", &texts), vec![0]);
    assert_eq!(search_ocr_results("", &texts), vec![0, 1, 2]);

    assert_eq!(clean_ocr_text("  Hello,\tWorld! \n").as_deref(), Some("Hello,World!"));
    assert_eq!(clean_ocr_text("\u{2022}\u{2022}  \n"), None);
    assert_eq!(clean_ocr_text("Zoë 42").as_deref(), Some("Zoë 42"));
}

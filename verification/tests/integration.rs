//! Scenario tests: OCR search, duplicate groups and video extensions.

use rpick::filesystem::{find_duplicates, HashedFile};
use rpick::ocr::search_ocr_results;
use rpick::video::is_video_extension;

#[test]
fn test_search_ocr_results() {
    let results = vec!["Hello World".to_string(), "Goodbye".to_string()];

    let matches = search_ocr_results("hello", &results);
    assert_eq!(matches.len(), 1, "case-insensitive match");
    assert_eq!(results[matches[0]], "Hello World");

    let matches = search_ocr_results("xyz", &results);
    assert_eq!(matches.len(), 0);
}

#[test]
fn test_find_duplicates() {
    let vf1 = HashedFile { path: "/path/a.mp4".to_string(), hash: [0xAA; 16] };
    let vf2 = HashedFile { path: "/path/b.mp4".to_string(), hash: [0xAA; 16] };
    let vf3 = HashedFile { path: "/path/c.mp4".to_string(), hash: [0xBB; 16] };

    let dupes = find_duplicates(&[vf1, vf2, vf3]);
    assert_eq!(dupes.len(), 1, "one duplicate group");
    assert_eq!(dupes[0].1.len(), 2, "two files in group");
}

#[test]
fn test_find_duplicates_no_matches() {
    let vf1 = HashedFile { path: "/path/a.mp4".to_string(), hash: [0xAA; 16] };
    let vf2 = HashedFile { path: "/path/b.mp4".to_string(), hash: [0xBB; 16] };

    let dupes = find_duplicates(&[vf1, vf2]);
    assert_eq!(dupes.len(), 0, "no duplicates");
}

#[test]
fn test_is_video_extension() {
    assert!(is_video_extension("test.mp4"));
    assert!(is_video_extension("test.MOV"));
    assert!(is_video_extension("test.AVI"));
    assert!(is_video_extension("test.mkv"));
    assert!(is_video_extension("test.webm"));
    assert!(is_video_extension("test.flv"));

    assert!(!is_video_extension("test.txt"));
    assert!(!is_video_extension("test.jpg"));
    assert!(!is_video_extension("test.pdf"));
    assert!(!is_video_extension("test.mp4.txt"));
}

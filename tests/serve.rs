use chat_media_explorer::parser::is_message_shard;
use chat_media_explorer::serve::{guess_mime, mime_type_for_extension, percent_decode, percent_decode_bytes};

#[test]
fn percent_escapes_are_decoded() {
    assert_eq!(percent_decode("C%3A%5CUsers%5Cme%2Fa.jpg"), "C:\\Users\\me/a.jpg");
    assert_eq!(percent_decode("%E2%9C%93"), "\u{2713}");
    assert_eq!(percent_decode("plain"), "plain");
}

#[test]
fn incomplete_or_invalid_escapes_stay() {
    assert_eq!(percent_decode("50%"), "50%");
    assert_eq!(percent_decode("%4"), "%4");
    assert_eq!(percent_decode("%zz"), "%zz");
    assert_eq!(percent_decode_bytes("%+1"), vec![1u8]);
}

#[test]
fn invalid_utf8_is_replaced() {
    assert_eq!(percent_decode("%FF"), "\u{FFFD}");
}

#[test]
fn mime_types_by_extension() {
    assert_eq!(guess_mime("/a/b/photo.JPG"), "image/jpeg");
    assert_eq!(guess_mime("clip.mov"), "video/quicktime");
    assert_eq!(guess_mime("noext"), "application/octet-stream");
    assert_eq!(guess_mime("a.txt"), "application/octet-stream");
    assert_eq!(mime_type_for_extension("webm"), "video/webm");
    assert_eq!(mime_type_for_extension("MP4"), "application/octet-stream");
}

#[test]
fn shard_file_names() {
    assert!(is_message_shard("message_1.json"));
    assert!(is_message_shard("message_12.json"));
    assert!(!is_message_shard("message_1.txt"));
    assert!(!is_message_shard("photos.json"));
    assert!(!is_message_shard("message_"));
}

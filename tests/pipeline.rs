use chat_media_explorer::extract::{build_context, extract_media, get_display_text, media_uris, resolve_uri};
use chat_media_explorer::facebook::{FacebookExport, GifRef, MediaRef, Message, Participant};
use chat_media_explorer::messenger::{
    class_of_media_uri, classify_extension, collect_messenger_thread, title_from_thread_name, to_facebook_message,
    MediaClass, MessengerExport, MessengerMediaRef, MessengerMessage, MessengerReaction,
};
use chat_media_explorer::parser::{
    build_conversation, chat_type_for, collect_facebook_thread, detect_format, DataFormat, ExportLayout, ParseResult,
};
use chat_media_explorer::queries::{get_context, get_media, MediaFilters};
use chat_media_explorer::search::matches_whole_word;
use chat_media_explorer::store::Store;
use chat_media_explorer::summary::{get_conversations, get_import_status, get_senders, get_sources};
use chat_media_explorer::timeline::{format_month_label, get_timeline};
use chat_media_explorer::calendar::month_key;

fn text_message(sender: &str, ts: i64, text: &str) -> Message {
    Message {
        sender_name: sender.to_string(),
        timestamp_ms: ts,
        content: Some(text.to_string()),
        photos: None,
        videos: None,
        gifs: None,
        reactions: None,
        is_geoblocked_for_viewer: false,
        message_type: None,
    }
}

fn photo_message(sender: &str, ts: i64, uri: &str) -> Message {
    Message {
        sender_name: sender.to_string(),
        timestamp_ms: ts,
        content: None,
        photos: Some(vec![MediaRef { uri: uri.to_string(), creation_timestamp: Some(ts / 1000) }]),
        videos: None,
        gifs: None,
        reactions: None,
        is_geoblocked_for_viewer: false,
        message_type: None,
    }
}

fn shard(title: &str, participants: &[&str], messages: Vec<Message>) -> FacebookExport {
    FacebookExport {
        participants: participants.iter().map(|p| Participant { name: p.to_string() }).collect(),
        messages,
        title: title.to_string(),
        is_still_participant: true,
        thread_path: "inbox/friends_1".to_string(),
        image: None,
    }
}

fn filters(sort: &str) -> MediaFilters {
    MediaFilters {
        conversation_id: None,
        sender_id: None,
        file_type: None,
        month: None,
        search: None,
        sort: sort.to_string(),
        limit: None,
        offset: None,
    }
}

/// A Facebook export of one group chat in two shards, newest first, with one
/// photo in the middle of five messages.
fn group_export() -> Vec<FacebookExport> {
    let people = ["Ann", "Bob", "Cy"];
    let newer = shard(
        "Friends",
        &people,
        vec![text_message("Cy", 5000, "five"), text_message("Bob", 4000, "four")],
    );
    let older = shard(
        "Friends",
        &people,
        vec![photo_message("Ann", 3000, "photos/p.jpg"), text_message("Bob", 2000, "two"), text_message("Ann", 1000, "one")],
    );
    vec![newer, older]
}

fn import_group(store: &mut Store, source: &str) {
    let thread = collect_facebook_thread(group_export()).unwrap();
    let uris = media_uris(&thread.messages);
    let present = vec![true; uris.len()];
    let conv = build_conversation("/export", "friends_1".to_string(), thread, 2, "facebook", source, &present);
    let mut result = ParseResult::new();
    result.push_if_has_media(conv);
    store.add_source(&source.to_string(), &result).unwrap();
}

#[test]
fn end_to_end_group_import() {
    let mut store = Store::new();
    import_group(&mut store, "/export");
    assert_eq!(store.conversations.len(), 1);
    assert_eq!(store.conversations[0].chat_type, "group");
    assert_eq!(store.conversations[0].participant_count, 3);
    assert_eq!(store.media.len(), 1);
    assert_eq!(store.media[0].file_type, "image");
    let ctx = get_context(&store, store.media[0].id).unwrap();
    assert!(ctx.context_before.len() <= 2);
    assert!(ctx.context_after.len() <= 2);
    assert_eq!(ctx.context_before.len(), 2);
    assert_eq!(ctx.context_after.len(), 2);
    assert_eq!(ctx.context_before[0].content, "one");
    assert_eq!(ctx.context_before[1].content, "two");
    assert_eq!(ctx.context_after[0].content, "four");
    assert_eq!(ctx.context_after[1].content, "five");
    assert!(get_import_status(&store).unwrap().has_data);
}

#[test]
fn shards_are_concatenated_then_reversed() {
    let thread = collect_facebook_thread(group_export()).unwrap();
    let times: Vec<i64> = thread.messages.iter().map(|m| m.timestamp_ms).collect();
    assert_eq!(times, vec![1000, 2000, 3000, 4000, 5000]);
    assert_eq!(thread.title, "Friends");
    assert_eq!(thread.participants, vec!["Ann", "Bob", "Cy"]);
}

#[test]
fn no_shards_is_an_error() {
    assert!(collect_facebook_thread(Vec::new()).is_err());
}

#[test]
fn metadata_comes_from_first_titled_shard() {
    let first = shard("", &["X"], vec![]);
    let second = shard("Second", &["A", "B", "C"], vec![]);
    let thread = collect_facebook_thread(vec![first, second]).unwrap();
    assert_eq!(thread.title, "Second");
    assert_eq!(thread.participants.len(), 3);
}

#[test]
fn context_positions_are_stored_by_distance() {
    let mut store = Store::new();
    import_group(&mut store, "/export");
    let mut positions: Vec<i64> = store.context_messages.iter().map(|c| c.position).collect();
    positions.sort();
    assert_eq!(positions, vec![-2, -1, 1, 2]);
    let nearest_before = store.context_messages.iter().find(|c| c.position == -1).unwrap();
    assert_eq!(nearest_before.content, "two");
    let farthest_after = store.context_messages.iter().find(|c| c.position == 2).unwrap();
    assert_eq!(farthest_after.content, "five");
}

#[test]
fn context_is_clamped_at_stream_boundaries() {
    let messages = vec![photo_message("Ann", 1, "a.jpg"), text_message("Bob", 2, "hi")];
    assert_eq!(build_context(&messages, 0, 5, true).len(), 0);
    let after = build_context(&messages, 0, 5, false);
    assert_eq!(after.len(), 1);
    assert_eq!(after[0].content, "hi");
    assert_eq!(build_context(&messages, 1, 1, true)[0].content, "[Photo]");
}

#[test]
fn display_text_placeholders() {
    let mut m = text_message("Ann", 1, "");
    assert_eq!(get_display_text(&m), "[Message]");
    m.gifs = Some(vec![GifRef { uri: "g.gif".to_string() }]);
    assert_eq!(get_display_text(&m), "[GIF]");
    m.videos = Some(vec![MediaRef { uri: "v.mp4".to_string(), creation_timestamp: None }]);
    assert_eq!(get_display_text(&m), "[Video]");
    m.photos = Some(vec![MediaRef { uri: "p.jpg".to_string(), creation_timestamp: None }]);
    assert_eq!(get_display_text(&m), "[Photo]");
    m.content = Some("text".to_string());
    assert_eq!(get_display_text(&m), "text");
}

#[test]
fn missing_files_are_skipped() {
    let mut m = photo_message("Ann", 1, "a.jpg");
    m.videos = Some(vec![MediaRef { uri: "./v.mp4".to_string(), creation_timestamp: None }]);
    let messages = vec![m];
    let uris = media_uris(&messages);
    assert_eq!(uris, vec!["a.jpg", "./v.mp4"]);
    let media = extract_media("/root", &messages, 5, &vec![false, true]);
    assert_eq!(media.len(), 1);
    assert_eq!(media[0].file_type, "video");
    assert_eq!(media[0].relative_uri, "./v.mp4");
    assert_eq!(media[0].file_path, "/root/v.mp4");
}

#[test]
fn uri_resolution_strips_dot_slash() {
    assert_eq!(resolve_uri("/data/export", "./media/a.jpg"), "/data/export/media/a.jpg");
    assert_eq!(resolve_uri("/data/export", "photos/b.png"), "/data/export/photos/b.png");
}

#[test]
fn chat_type_follows_participant_count() {
    assert_eq!(chat_type_for(0), "dm");
    assert_eq!(chat_type_for(2), "dm");
    assert_eq!(chat_type_for(3), "group");
}

#[test]
fn format_detection_order() {
    let fb = ExportLayout { has_inbox_dir: true, has_media_dir: true, has_root_json: true };
    assert_eq!(detect_format(&fb), Ok(DataFormat::Facebook));
    let ms = ExportLayout { has_inbox_dir: false, has_media_dir: true, has_root_json: true };
    assert_eq!(detect_format(&ms), Ok(DataFormat::Messenger));
    let none = ExportLayout { has_inbox_dir: false, has_media_dir: true, has_root_json: false };
    assert!(detect_format(&none).is_err());
}

fn messenger_message(sender: &str, ts: i64, text: &str, media: &[&str]) -> MessengerMessage {
    MessengerMessage {
        sender_name: sender.to_string(),
        timestamp: ts,
        text: text.to_string(),
        media: media.iter().map(|u| MessengerMediaRef { uri: u.to_string() }).collect(),
        is_unsent: false,
        message_type: "text".to_string(),
        reactions: vec![MessengerReaction { actor: "Bob".to_string(), reaction: "+".to_string() }],
    }
}

#[test]
fn messenger_media_is_classified_by_extension() {
    let msg = messenger_message("Ann", 7, "", &["./media/a.JPG", "./media/b.mp4", "./media/c.gif", "./media/d.ogg", "./media/e.webp"]);
    let m = to_facebook_message(&msg);
    let photos: Vec<String> = m.photos.unwrap().into_iter().map(|p| p.uri).collect();
    assert_eq!(photos, vec!["./media/a.JPG", "./media/e.webp"]);
    assert_eq!(m.videos.unwrap().len(), 1);
    assert_eq!(m.gifs.unwrap()[0].uri, "./media/c.gif");
    assert!(m.content.is_none());
    assert_eq!(m.reactions.unwrap()[0].actor, "Bob");
    assert_eq!(m.message_type, Some("text".to_string()));
}

#[test]
fn extension_classes() {
    assert_eq!(classify_extension("jpeg"), Some(MediaClass::Photo));
    assert_eq!(classify_extension("png"), Some(MediaClass::Photo));
    assert_eq!(classify_extension("mp4"), Some(MediaClass::Video));
    assert_eq!(classify_extension("gif"), Some(MediaClass::Gif));
    assert_eq!(classify_extension("ogg"), None);
    assert_eq!(classify_extension("JPG"), None);
    assert_eq!(class_of_media_uri("x/Y.JPG"), Some(MediaClass::Photo));
    assert_eq!(class_of_media_uri("noext"), None);
}

#[test]
fn thread_name_suffix_is_stripped() {
    assert_eq!(title_from_thread_name("Alice Smith_1234567"), "Alice Smith");
    assert_eq!(title_from_thread_name("Team_chat"), "Team_chat");
    assert_eq!(title_from_thread_name("Plain"), "Plain");
    assert_eq!(title_from_thread_name("Trailing_"), "Trailing_");
}

#[test]
fn messenger_messages_are_sorted_by_time() {
    let export = MessengerExport {
        participants: vec!["Ann".to_string(), "Bob".to_string()],
        thread_name: "Ann_42".to_string(),
        messages: vec![
            messenger_message("Ann", 30, "c", &[]),
            messenger_message("Bob", 10, "a", &[]),
            messenger_message("Ann", 20, "b1", &[]),
            messenger_message("Bob", 20, "b2", &[]),
        ],
    };
    let thread = collect_messenger_thread(&export);
    let texts: Vec<String> = thread.messages.iter().map(|m| m.content.clone().unwrap()).collect();
    assert_eq!(texts, vec!["a", "b1", "b2", "c"]);
    assert_eq!(thread.title, "Ann");
    assert_eq!(thread.thread_path, "Ann_42");
}

#[test]
fn whole_word_search() {
    assert!(matches_whole_word("I have a cat.", "cat"));
    assert!(!matches_whole_word("concatenate", "cat"));
    assert!(matches_whole_word("\"Cat\", she said", "cat"));
    assert!(matches_whole_word("cat", "cat"));
}

fn store_with_three_media() -> Store {
    let mut store = Store::new();
    let messages = vec![
        text_message("Ann", 1_700_000_000_000, "I have a cat."),
        photo_message("Ann", 1_709_251_200_000, "p1.jpg"),
        photo_message("Bob", 1_709_337_600_000, "p2.jpg"),
        photo_message("Ann", 1_711_929_600_000, "p3.jpg"),
    ];
    let present = vec![true; 3];
    let thread = chat_media_explorer::parser::Thread {
        title: "Pets".to_string(),
        thread_path: "inbox/pets".to_string(),
        participants: vec!["Ann".to_string(), "Bob".to_string()],
        messages,
    };
    let conv = build_conversation("/e", "pets".to_string(), thread, 1, "facebook", "/e", &present);
    let mut result = ParseResult::new();
    result.push_if_has_media(conv);
    store.add_source(&"/e".to_string(), &result).unwrap();
    store
}

#[test]
fn pagination_defaults_and_second_row() {
    let store = store_with_three_media();
    let all = get_media(&store, &filters("date-desc")).unwrap();
    assert_eq!(all.len(), 3);
    assert!(all[0].timestamp_ms >= all[1].timestamp_ms && all[1].timestamp_ms >= all[2].timestamp_ms);
    let mut f = filters("date-desc");
    f.limit = Some(1);
    f.offset = Some(1);
    let second = get_media(&store, &f).unwrap();
    assert_eq!(second.len(), 1);
    assert_eq!(second[0].id, all[1].id);
}

#[test]
fn sort_orders() {
    let store = store_with_three_media();
    let asc = get_media(&store, &filters("date-asc")).unwrap();
    assert_eq!(asc[0].timestamp_ms, 1_709_251_200_000);
    let by_sender = get_media(&store, &filters("sender")).unwrap();
    let names: Vec<&str> = by_sender.iter().map(|m| m.sender_name.as_str()).collect();
    assert_eq!(names, vec!["Ann", "Ann", "Bob"]);
    assert!(by_sender[0].timestamp_ms > by_sender[1].timestamp_ms);
}

#[test]
fn search_reaches_context_and_names() {
    let store = store_with_three_media();
    let mut f = filters("date-asc");
    f.search = Some("cat".to_string());
    let hits = get_media(&store, &f).unwrap();
    assert_eq!(hits.len(), 1);
    assert_eq!(hits[0].timestamp_ms, 1_709_251_200_000);
    f.search = Some("bo".to_string());
    assert!(get_media(&store, &f).unwrap().len() >= 1);
    f.search = Some("PETS".to_string());
    assert_eq!(get_media(&store, &f).unwrap().len(), 3);
}

#[test]
fn month_filter_and_keys() {
    assert_eq!(month_key(1_709_251_200_000), Some("2024-03".to_string()));
    assert_eq!(month_key(0), Some("1970-01".to_string()));
    assert_eq!(month_key(-1), Some("1970-01".to_string()));
    assert_eq!(month_key(-1000), Some("1969-12".to_string()));
    let store = store_with_three_media();
    let mut f = filters("date-asc");
    f.month = Some("2024-03".to_string());
    assert_eq!(get_media(&store, &f).unwrap().len(), 2);
    f.file_type = Some("video".to_string());
    assert_eq!(get_media(&store, &f).unwrap().len(), 0);
}

#[test]
fn timeline_labels_and_counts() {
    assert_eq!(format_month_label("2024-03"), "Mar 2024");
    assert_eq!(format_month_label("2023-12"), "Dec 2023");
    assert_eq!(format_month_label("garbage"), "garbage");
    assert_eq!(format_month_label("2024-13"), "2024-13");
    assert_eq!(format_month_label("2024-00"), "2024-00");
    assert_eq!(format_month_label("-03"), "-03");
    assert_eq!(format_month_label("20x4-03"), "20x4-03");
    assert_eq!(format_month_label("a-b-c"), "a-b-c");
    let store = store_with_three_media();
    let t = get_timeline(&store).unwrap();
    assert_eq!(t.len(), 2);
    assert_eq!(t[0].month_key, "2024-04");
    assert_eq!(t[0].count, 1);
    assert_eq!(t[1].month_key, "2024-03");
    assert_eq!(t[1].label, "Mar 2024");
    assert_eq!(t[1].count, 2);
}

#[test]
fn context_of_unknown_media_is_an_error() {
    let store = store_with_three_media();
    assert!(get_context(&store, 999).is_err());
}

#[test]
fn reimport_keeps_row_counts() {
    let mut store = Store::new();
    import_group(&mut store, "/export");
    let counts = (store.conversations.len(), store.media.len(), store.context_messages.len(), store.senders.len(), store.participants.len());
    import_group(&mut store, "/export");
    let again = (store.conversations.len(), store.media.len(), store.context_messages.len(), store.senders.len(), store.participants.len());
    assert_eq!(counts, again);
    assert_eq!(counts, (1, 1, 4, 3, 3));
}

#[test]
fn removing_a_source_keeps_other_sources() {
    let mut store = Store::new();
    import_group(&mut store, "/one");
    let mut other = store_with_three_media();
    let pets = other.duplicate();
    import_group(&mut other, "/one");
    assert_eq!(other.conversations.len(), 2);
    other.remove_source("/one");
    assert_eq!(other.conversations.len(), 1);
    assert_eq!(other.conversations[0].source_path, "/e");
    assert_eq!(other.media.len(), pets.media.len());
    assert_eq!(other.context_messages.len(), pets.context_messages.len());
    // "Cy" only appeared in the removed source
    assert!(other.senders.iter().all(|s| s.name != "Cy"));
    assert!(other.senders.iter().any(|s| s.name == "Ann"));
}

#[test]
fn clear_all_empties_the_store() {
    let mut store = store_with_three_media();
    store.clear_all();
    let status = get_import_status(&store).unwrap();
    assert!(!status.has_data);
    assert_eq!(status.media_count, 0);
}

#[test]
fn listings_of_conversations_senders_and_sources() {
    let mut store = store_with_three_media();
    import_group(&mut store, "/a");
    let convs = get_conversations(&store).unwrap();
    let titles: Vec<&str> = convs.iter().map(|c| c.title.as_str()).collect();
    assert_eq!(titles, vec!["Friends", "Pets"]);
    assert_eq!(convs[0].media_count, 1);
    assert_eq!(convs[1].media_count, 3);
    assert_eq!(convs[0].chat_type, "group");
    assert_eq!(convs[1].chat_type, "dm");
    let senders = get_senders(&store).unwrap();
    let names: Vec<(&str, i64)> = senders.iter().map(|s| (s.name.as_str(), s.media_count)).collect();
    assert_eq!(names, vec![("Ann", 3), ("Bob", 1)]);
    let sources = get_sources(&store).unwrap();
    let rows: Vec<(&str, &str, i64, i64)> = sources
        .iter()
        .map(|s| (s.source_type.as_str(), s.source_path.as_str(), s.conversations, s.media_count))
        .collect();
    assert_eq!(rows, vec![("facebook", "/a", 1, 1), ("facebook", "/e", 1, 3)]);
}

#[test]
fn timeline_fails_outside_four_digit_years() {
    let mut store = store_with_three_media();
    store.media[0].timestamp_ms = i64::MAX;
    assert!(get_timeline(&store).is_err());
    assert_eq!(month_key(i64::MAX), None);
}

#[test]
fn exhausted_ids_fail_and_leave_the_store_unchanged() {
    let mut store = store_with_three_media();
    // the largest conversation id leaves no next id
    let old_id = store.conversations[0].id;
    store.conversations[0].id = i64::MAX - 1;
    for m in store.media.iter_mut() {
        if m.conversation_id == old_id {
            m.conversation_id = i64::MAX - 1;
        }
    }
    for l in store.participants.iter_mut() {
        if l.conversation_id == old_id {
            l.conversation_id = i64::MAX - 1;
        }
    }
    store.next_conversation_id = i64::MAX;
    let before = store.conversations.len();
    let thread = collect_facebook_thread(group_export()).unwrap();
    let present = vec![true; media_uris(&thread.messages).len()];
    let conv = build_conversation("/x", "f".to_string(), thread, 2, "facebook", "/x", &present);
    let mut result = ParseResult::new();
    result.push_if_has_media(conv);
    assert!(store.add_source(&"/x".to_string(), &result).is_err());
    assert_eq!(store.conversations.len(), before);
    assert_eq!(store.next_conversation_id, i64::MAX);
}

#[test]
fn conversations_without_media_are_dropped() {
    let thread = chat_media_explorer::parser::Thread {
        title: "Quiet".to_string(),
        thread_path: "inbox/quiet".to_string(),
        participants: vec!["Ann".to_string()],
        messages: vec![text_message("Ann", 1, "hello")],
    };
    let conv = build_conversation("/q", "quiet".to_string(), thread, 5, "facebook", "/q", &Vec::new());
    let mut result = ParseResult::new();
    result.push_if_has_media(conv);
    assert_eq!(result.conversations.len(), 0);
}

#[test]
fn a_repeated_source_folder_is_refused() {
    let mut store = Store::new();
    let mut result = ParseResult::new();
    for _ in 0..2 {
        let thread = collect_facebook_thread(group_export()).unwrap();
        let present = vec![true; media_uris(&thread.messages).len()];
        result.push_if_has_media(build_conversation("/r", "friends_1".to_string(), thread, 2, "facebook", "/r", &present));
    }
    let paths = vec!["/r".to_string(), "/r".to_string()];
    assert!(store.import(&paths, &result).is_err());
    assert_eq!(store.conversations.len(), 0);
    assert_eq!(store.media.len(), 0);
    assert_eq!(store.senders.len(), 0);
}

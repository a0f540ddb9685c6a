use vstd::prelude::*;

verus! {

/// Top-level structure of one Facebook message shard (`message_<n>.json`).
pub struct FacebookExport {
    pub participants: Vec<Participant>,
    pub messages: Vec<Message>,
    pub title: String,
    pub is_still_participant: bool,
    pub thread_path: String,
    pub image: Option<MediaRef>,
}

pub struct Participant {
    pub name: String,
}

/// One exported message, in the shape shared by both export formats.
pub struct Message {
    pub sender_name: String,
    pub timestamp_ms: i64,
    pub content: Option<String>,
    pub photos: Option<Vec<MediaRef>>,
    pub videos: Option<Vec<MediaRef>>,
    pub gifs: Option<Vec<GifRef>>,
    pub reactions: Option<Vec<Reaction>>,
    pub is_geoblocked_for_viewer: bool,
    pub message_type: Option<String>,
}

pub struct MediaRef {
    pub uri: String,
    pub creation_timestamp: Option<i64>,
}

pub struct GifRef {
    pub uri: String,
}

pub struct Reaction {
    pub reaction: String,
    pub actor: String,
}

/// A photo or video reference as plain values.
pub struct MediaRefView {
    pub uri: Seq<char>,
    pub creation_timestamp: Option<i64>,
}

/// The part of a message that the import reads; an absent media list and an
/// empty one are the same here.
pub struct MessageView {
    pub sender_name: Seq<char>,
    pub timestamp_ms: i64,
    pub content: Option<Seq<char>>,
    pub photos: Seq<MediaRefView>,
    pub videos: Seq<MediaRefView>,
    pub gifs: Seq<Seq<char>>,
}

impl View for MediaRef {
    type V = MediaRefView;

    open spec fn view(&self) -> MediaRefView {
        MediaRefView { uri: self.uri@, creation_timestamp: self.creation_timestamp }
    }
}

pub open spec fn opt_string_view(o: Option<String>) -> Option<Seq<char>> {
    match o {
        Some(s) => Some(s@),
        None => None,
    }
}

pub open spec fn refs_view(o: Option<Vec<MediaRef>>) -> Seq<MediaRefView> {
    match o {
        Some(v) => v@.map_values(|r: MediaRef| r@),
        None => Seq::empty(),
    }
}

pub open spec fn gifs_view(o: Option<Vec<GifRef>>) -> Seq<Seq<char>> {
    match o {
        Some(v) => v@.map_values(|g: GifRef| g.uri@),
        None => Seq::empty(),
    }
}

impl View for Message {
    type V = MessageView;

    open spec fn view(&self) -> MessageView {
        MessageView {
            sender_name: self.sender_name@,
            timestamp_ms: self.timestamp_ms,
            content: opt_string_view(self.content),
            photos: refs_view(self.photos),
            videos: refs_view(self.videos),
            gifs: gifs_view(self.gifs),
        }
    }
}

pub open spec fn messages_view(v: Seq<Message>) -> Seq<MessageView> {
    v.map_values(|m: Message| m@)
}

/// A message carries media when it has at least one photo, video or gif.
pub open spec fn carries_media(m: MessageView) -> bool {
    m.photos.len() > 0 || m.videos.len() > 0 || m.gifs.len() > 0
}

pub(crate) fn has_some_refs(o: &Option<Vec<MediaRef>>) -> (r: bool)
    ensures
        r == (refs_view(*o).len() > 0),
{
    match o {
        Some(v) => v.len() > 0,
        None => false,
    }
}

pub(crate) fn has_some_gifs(o: &Option<Vec<GifRef>>) -> (r: bool)
    ensures
        r == (gifs_view(*o).len() > 0),
{
    match o {
        Some(v) => v.len() > 0,
        None => false,
    }
}

impl Message {
    /// Returns true if this message contains any media (photo, video, or gif).
    pub fn has_media(&self) -> (r: bool)
        ensures
            r == carries_media(self@),
    {
        let has_photos = has_some_refs(&self.photos);
        let has_videos = has_some_refs(&self.videos);
        let has_gifs = has_some_gifs(&self.gifs);
        has_photos || has_videos || has_gifs
    }
}

} // verus!

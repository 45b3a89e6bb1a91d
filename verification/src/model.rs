use vstd::prelude::*;

verus! {

/// A raw image attached to a chat message: a stable identifier, a file
/// suffix inferred from the media type, and the binary payload (empty when
/// the caller did not ask for the bytes to be downloaded).
pub struct Image {
    pub id: String,
    pub extension: String,
    pub data: Vec<u8>,
}

/// The payload of a chat message: either plain text or an image.
pub enum Content {
    Message(String),
    Image(Image),
}

/// One chat message: who wrote it, when (seconds since the Unix epoch,
/// UTC), and what it holds.
pub struct Message {
    pub author: String,
    pub timestamp: i64,
    pub content: Content,
}

/// A chat room: its opaque identifier and, once resolved, its messages in
/// chronological order. `messages` is `None` until the message history has
/// been fetched; every export operation demands a resolved room.
pub struct Room {
    pub id: String,
    pub messages: Option<Vec<Message>>,
}

impl Room {
    /// Builds a resolved room from an identifier and its already-fetched
    /// message history.
    pub fn download(id: String, messages: Vec<Message>) -> (r: Room)
        ensures
            r.id == id,
            r.messages == Some(messages),
    {
        Room { id, messages: Some(messages) }
    }

    /// The resolved message list. Reading it before the history has been
    /// fetched is a contract violation, so a resolved room is required.
    pub fn messages(&self) -> (r: &Vec<Message>)
        requires
            self.messages is Some,
        ensures
            Some(*r) == self.messages,
    {
        self.messages.as_ref().unwrap()
    }
}

/// A saved post: its title, the display-prefixed community name
/// (for example "r/name"), the relative permalink, and the canonical
/// image URLs found in its preview data, in source order.
pub struct Post {
    pub title: String,
    pub subreddit_name: String,
    pub permalink: String,
    pub img_url: Vec<String>,
}

/// The view of a post: each field as a mathematical sequence.
#[verifier::ext_equal]
pub struct PostV {
    pub title: Seq<char>,
    pub subreddit_name: Seq<char>,
    pub permalink: Seq<char>,
    pub img_url: Seq<Seq<char>>,
}

impl View for Post {
    type V = PostV;

    open spec fn view(&self) -> PostV {
        PostV {
            title: self.title@,
            subreddit_name: self.subreddit_name@,
            permalink: self.permalink@,
            img_url: self.img_url@.map_values(|u: String| u@),
        }
    }
}

/// An ordered batch of saved posts, as returned by one whole fetch.
pub struct SavedList {
    pub posts: Vec<Post>,
}

} // verus!

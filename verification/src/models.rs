//! The messages of a chat completion request.
use vstd::prelude::*;

verus! {

/// One message: its role (`system`, `user`, `assistant`) and content.
#[derive(Debug, Clone)]
pub struct Message {
    pub role: String,
    pub content: Option<MessageContent>,
}

/// Message content: plain text or a list of parts.
#[derive(Debug, Clone)]
pub enum MessageContent {
    Text(String),
    Array(Vec<ContentPart>),
}

/// One part of a message: its type, text and image.
#[derive(Debug, Clone)]
pub struct ContentPart {
    pub content_type: String,
    pub text: Option<String>,
    pub image_url: Option<ImageUrl>,
}

/// The address of an image.
#[derive(Debug, Clone)]
pub struct ImageUrl {
    pub url: String,
}

} // verus!

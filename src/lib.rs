//! Conversational Markdown: a plain-text interchange format for conversations,
//! where each user message is a blockquote and the reply that follows is
//! ordinary markdown; and a terminal renderer for markdown.
pub mod text;
pub mod cmf;
pub mod layout;
pub mod terminal_renderer;
pub mod escapes;

pub use cmf::{ChatMessage, ContentPart, Document, Issue, ResponsesMessage, Turn, UserMessage};

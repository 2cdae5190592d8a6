//! Core logic of a desktop chat client: the WhatsApp-style markup parser that
//! turns message text into styled spans, and the state kept about chats,
//! contacts and the loaded message window.

pub mod rich_text;
pub mod markup_laws;
pub mod markup_cases;
pub mod storage;
pub mod chat_buffer;
pub mod session;
pub mod laws;

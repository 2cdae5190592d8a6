# quantumchat

The verified core of a desktop WhatsApp client.

- `src/rich_text.rs`: the message markup (`*bold*`, `_italic_`, `~strike~`,
  `` `mono` `` and emoji runs) turned into styled spans; `src/markup_laws.rs`
  holds what is proved of it for every text.
- `src/storage/`: contacts, chat order, pins and the saved configuration.
- `src/chat_buffer/`: the window of loaded messages of the open chat and the
  bookkeeping of a load from the database.
- `src/session.rs`: drafts, typing indicators, hover and chat-list lines.
- `src/laws.rs`: properties that span several operations.
- `app/`: the iced user interface, the SQLite database and the messaging
  service connection around the library.

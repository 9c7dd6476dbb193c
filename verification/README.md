# telegram_bot_rs

A Telegram bot that lays text out in monospace blocks, in one of four modes
(Word, Sentence, Paragraph, Full). Every block, and every message sent, is
within Telegram's limit of 4096 bytes: items too long for a block, and lines
too long for a message, are cut at character boundaries.

- `src/` is the library, verified with Verus:
  - `text.rs`: the character-level model (white space, UTF-8 byte length,
    `trim`, words, lines, blank-line separated pieces, cutting to size) and
    its executable counterparts.
  - `modes.rs`: the modes, the packing of items into blocks and the four
    layouts, with their properties (no content lost, size bounds, greedy
    packing, never an empty answer).
  - `delivery.rs`: cutting oversized blocks into messages for sending.
  - `replies.rs`: the greeting, settings page, statistics text and keyboards.
  - `routing.rs`: what a message or a button press asks for.
- `app/main.rs` is the bot itself: Telegram API, SQLite store, dispatch.
- `tests/` exercises the library, against std where std has the same
  operation.

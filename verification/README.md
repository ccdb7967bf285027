# rust_discord_bot

The logic of a Discord bot, verified with Verus, and the program around it.

- `src/` is the verified library:
  - `text`, `decimal`: string operations with Unicode white-space semantics and
    decimal rendering/parsing, each stated over `Seq<char>`.
  - `clock`: UTC instants, elapsed time, the daily schedule and the world clock.
  - `aydy`: the "Are you dead yet?" daily check-in: enrolment, check-ins,
    deaths after 48 hours of silence, the schedule, the leaderboard, the texts
    and the figures the web API shows.
  - `rag`: which channel messages get indexed, the backfill bookkeeping, and how
    search results are deduplicated, ordered and listed.
  - `chat`: how a conversation with the model is assembled, stored and read back.
  - `brain`: the long-term memory helpers.
  - `json`: reading single values and object keys out of JSON text by JSON
    Pointer; the model's streamed replies and the stored check-in records are
    read through it.
- `app/` is the bot itself: the Discord commands and events, the database, the
  HTTP calls to the model server, the vector store and the web API. The
  decisions it acts on and the texts built from data come from the library;
  `app/` keeps the fixed titles and replies of its commands, the permission
  computation of the chat service, and what involves floating point (scores,
  embeddings, fractional days).
- `tests/` runs the library on concrete values.

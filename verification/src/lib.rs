//! Core logic of the Rin Discord bot: text handling, the "Are you dead yet?"
//! check-in state machine, retrieval bookkeeping and chat-context assembly.
pub mod text;
pub mod decimal;
pub mod clock;
pub mod aydy;
pub mod rag;
pub mod chat;
pub mod brain;
pub mod json;

//! A multi-room message relay core: the directory of rooms by name with their holder counts,
//! each room's occupants and its fan-out, the transcript writer's phases, and the text
//! formats of transcript lines, outbound messages and transcript names.

pub mod registry;
pub mod room;
pub mod text;
pub mod users;
pub mod writer;

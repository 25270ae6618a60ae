//! Skill evolution: feedback on past reviews becomes proposed edits of a
//! skill's instructions.

pub mod mine;
pub mod replay;

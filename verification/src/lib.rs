pub mod commit;
pub mod diff;
pub mod host;
pub mod lexical;
pub mod ownership;
pub mod patch;
pub mod text;
pub mod verify;
pub mod worktree;

use vstd::prelude::*;

pub mod anim;
pub mod color;
pub mod text;
pub mod ansi;
pub mod terminal;
pub mod theme;
pub mod shell;
pub mod ipc;
pub mod settings;
pub mod atlas;
pub mod controls;

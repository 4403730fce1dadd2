//! The coding tools' logic — `read`, `edit`, `write`, `bash` — and the
//! workspace confinement they share. Each submodule holds the text and
//! decision logic of one tool; touching the file system and running
//! processes is the caller's part.

pub mod bash;
pub mod edit;
pub mod read;
pub mod workspace;
pub mod write;

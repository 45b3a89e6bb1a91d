pub mod export;
pub mod jsoncodec;
pub mod model;
pub mod rooms;
pub mod saved;
pub mod strutil;
pub mod timefmt;

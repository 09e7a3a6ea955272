pub mod containers;
pub mod dump_nbt;
pub mod nbt;
pub mod players;
pub mod snbt;
pub mod contraption;
pub mod json_dump;

//! Searching and indexing Minecraft storage dumps: backpacks, world containers
//! and player inventories, with a boolean text query language.

pub mod text;
pub mod model;
pub mod search;
pub mod nbt_value;
pub mod json_value;
pub mod parse;
pub mod store;
pub mod display;
pub mod settings;
pub mod assets;
pub mod color;
pub mod dumper;
pub mod report;
pub mod atlas;
pub mod profiles;
pub mod workspace;

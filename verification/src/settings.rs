//! What the viewer remembers between runs: the files it had open, the grid
//! width, the display mode, the texture atlas and the saved search presets.
//! Reading and writing the settings file is the application's part.
use vstd::prelude::*;
use crate::search::Filters;

verus! {

/// A file the user had open, and whether it was switched on.
pub struct SavedFile {
    pub path: String,
    pub enabled: bool,
    pub mode: String,
}

/// A named search form.
pub struct Preset {
    pub name: String,
    pub filters: Filters,
}

/// The remembered settings.
pub struct Settings {
    pub files: Vec<SavedFile>,
    pub cols: u32,
    pub mode: String,
    pub atlas: String,
    pub presets: Vec<Preset>,
}

/// A saved file whose `enabled` flag is missing from the settings file is on.
pub fn default_true() -> (r: bool)
    ensures
        r,
{
    true
}

/// The grid width when the settings file gives none.
pub fn default_cols() -> (r: u32)
    ensures
        r == 3,
{
    3
}

impl Default for Settings {
    /// No files, three columns, automatic mode, no atlas, no presets.
    fn default() -> (r: Settings)
        ensures
            r.files@.len() == 0,
            r.cols == 3,
            r.mode@ == "Auto"@,
            r.atlas@.len() == 0,
            r.presets@.len() == 0,
    {
        let mode = String::from_str("Auto");
        proof {
            reveal_strlit("Auto");
        }
        Settings {
            files: Vec::new(),
            cols: default_cols(),
            mode,
            atlas: String::new(),
            presets: Vec::new(),
        }
    }
}

} // verus!

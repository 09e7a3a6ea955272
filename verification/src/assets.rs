//! The files bundled with the viewer, found by name. The bytes themselves are
//! embedded by the application.
use vstd::prelude::*;

verus! {

/// A bundled file.
#[derive(Clone, Copy, Debug, PartialEq, Eq, Structural)]
pub enum Asset {
    FontJson,
    AsciiPng,
    GlintPng,
    Container9SlicePng,
    InventorySlotsPng,
    SlotsBackgroundPng,
}

impl Asset {
    /// The file name under which the asset is asked for.
    pub open spec fn name_of(self) -> Seq<char> {
        match self {
            Asset::FontJson => "font.json"@,
            Asset::AsciiPng => "ascii.png"@,
            Asset::GlintPng => "enchanted_glint_item.png"@,
            Asset::Container9SlicePng => "container_9_slice.png"@,
            Asset::InventorySlotsPng => "inventory_slots.png"@,
            Asset::SlotsBackgroundPng => "slots_background.png"@,
        }
    }

    /// The file name under which the asset is asked for.
    pub fn file_name(self) -> (r: &'static str)
        ensures
            r@ == self.name_of(),
    {
        match self {
            Asset::FontJson => "font.json",
            Asset::AsciiPng => "ascii.png",
            Asset::GlintPng => "enchanted_glint_item.png",
            Asset::Container9SlicePng => "container_9_slice.png",
            Asset::InventorySlotsPng => "inventory_slots.png",
            Asset::SlotsBackgroundPng => "slots_background.png",
        }
    }
}

/// The asset with the given file name, if there is one.
pub open spec fn asset_named(name: Seq<char>) -> Option<Asset> {
    if name == Asset::FontJson.name_of() {
        Some(Asset::FontJson)
    } else if name == Asset::AsciiPng.name_of() {
        Some(Asset::AsciiPng)
    } else if name == Asset::GlintPng.name_of() {
        Some(Asset::GlintPng)
    } else if name == Asset::Container9SlicePng.name_of() {
        Some(Asset::Container9SlicePng)
    } else if name == Asset::InventorySlotsPng.name_of() {
        Some(Asset::InventorySlotsPng)
    } else if name == Asset::SlotsBackgroundPng.name_of() {
        Some(Asset::SlotsBackgroundPng)
    } else {
        None
    }
}

/// Looks a bundled file up by its name.
pub fn get(name: &str) -> (r: Option<Asset>)
    ensures
        r == asset_named(name@),
{
    let all = [
        Asset::FontJson,
        Asset::AsciiPng,
        Asset::GlintPng,
        Asset::Container9SlicePng,
        Asset::InventorySlotsPng,
        Asset::SlotsBackgroundPng,
    ];
    let mut i: usize = 0;
    while i < 6
        invariant
            i <= 6,
            all@ == seq![
                Asset::FontJson,
                Asset::AsciiPng,
                Asset::GlintPng,
                Asset::Container9SlicePng,
                Asset::InventorySlotsPng,
                Asset::SlotsBackgroundPng,
            ],
            forall|j: int| 0 <= j < i ==> name@ != (#[trigger] all@[j]).name_of(),
        decreases 6 - i,
    {
        let a = all[i];
        if crate::text::str_eq(name, a.file_name()) {
            return Some(a);
        }
        i += 1;
    }
    None
}

/// Every asset is found again under its own file name.
pub proof fn law_asset_found_by_its_name(a: Asset)
    ensures
        asset_named(a.name_of()) == Some(a),
{
    reveal_strlit("font.json");
    reveal_strlit("ascii.png");
    reveal_strlit("enchanted_glint_item.png");
    reveal_strlit("container_9_slice.png");
    reveal_strlit("inventory_slots.png");
    reveal_strlit("slots_background.png");
    // The six names already differ in their first letter.
    assert(Asset::FontJson.name_of()[0] == 'f');
    assert(Asset::AsciiPng.name_of()[0] == 'a');
    assert(Asset::GlintPng.name_of()[0] == 'e');
    assert(Asset::Container9SlicePng.name_of()[0] == 'c');
    assert(Asset::InventorySlotsPng.name_of()[0] == 'i');
    assert(Asset::SlotsBackgroundPng.name_of()[0] == 's');
}

} // verus!

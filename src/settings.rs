use vstd::prelude::*;

verus! {

/// Options of one player.
#[derive(Debug, Clone, PartialEq, Eq)]
pub struct PlayerSetting {
    pub name: String,
    /// `false` when the computer plays this side.
    pub is_manual_control: bool,
}

/// Size of the playing fields.
#[derive(Debug, Clone, Copy, PartialEq, Eq)]
pub struct FieldSettings {
    pub width_field: usize,
    pub height_field: usize,
}

impl FieldSettings {
    /// The fixed 10x10 field.
    pub fn standard() -> (r: FieldSettings)
        ensures
            r.width_field == 10,
            r.height_field == 10,
    {
        FieldSettings { width_field: 10, height_field: 10 }
    }
}

} // verus!

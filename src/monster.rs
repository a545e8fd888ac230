//! A monster definition uploaded by a player, with the 3D model file that
//! shows it.
use vstd::prelude::*;

verus! {

pub struct Monster {
    pub id: String,
    pub name: String,
    pub max_hp: i64,
    pub short_range_attack_power: i64,
    pub long_range_attack_power: i64,
    pub defense_power: i64,
    pub move_speed: i64,
    pub attack_range: i64,
    pub attack_cooldown: i64,
    pub size_type: String,
    pub file_name: String,
    pub file_path: String,
    pub file_size: i64,
    pub mime_type: String,
    /// When the definition was uploaded, as an RFC 3339 timestamp.
    pub uploaded_at: String,
    /// Whether a match has taken the monster into use.
    pub is_used: bool,
}

/// Another name for a monster, as seen from its model file.
pub type Model3D = Monster;

/// Relies on chrono's `Utc::now` and `DateTime::to_rfc3339`: the current time,
/// of which nothing is promised.
#[verifier::external_body]
fn upload_timestamp() -> (r: String) {
    chrono::Utc::now().to_rfc3339()
}

impl Monster {
    /// A fresh, unused monster stamped with the current time.
    pub fn new(
        id: String,
        name: String,
        max_hp: i64,
        short_range_attack_power: i64,
        long_range_attack_power: i64,
        defense_power: i64,
        move_speed: i64,
        attack_range: i64,
        attack_cooldown: i64,
        size_type: String,
        file_name: String,
        file_path: String,
        file_size: i64,
        mime_type: String,
    ) -> (r: Monster)
        ensures
            r.id == id,
            r.name == name,
            r.max_hp == max_hp,
            r.short_range_attack_power == short_range_attack_power,
            r.long_range_attack_power == long_range_attack_power,
            r.defense_power == defense_power,
            r.move_speed == move_speed,
            r.attack_range == attack_range,
            r.attack_cooldown == attack_cooldown,
            r.size_type == size_type,
            r.file_name == file_name,
            r.file_path == file_path,
            r.file_size == file_size,
            r.mime_type == mime_type,
            !r.is_used,
    {
        Monster {
            id,
            name,
            max_hp,
            short_range_attack_power,
            long_range_attack_power,
            defense_power,
            move_speed,
            attack_range,
            attack_cooldown,
            size_type,
            file_name,
            file_path,
            file_size,
            mime_type,
            uploaded_at: upload_timestamp(),
            is_used: false,
        }
    }
}

} // verus!

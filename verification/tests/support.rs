//! The smaller library types: users, zones, tileset metadata and asset
//! paths.

use gatekeeper::assets::{image, images, tiles};
use gatekeeper::entity::null_id;
use gatekeeper::tileset::TilesetInfo;
use gatekeeper::user::User;
use gatekeeper::zone::{Zone, ZoneMap};

#[test]
fn user_load_and_rename() {
    let mut u = User::load(b"Anon", 0);
    assert_eq!(u.name, b"Anon".to_vec());
    assert_eq!(u.current_zone, 0);
    u.set_name(b"Alice");
    assert_eq!(u.name, b"Alice".to_vec());
}

#[test]
fn zone_directory_lookup() {
    let mut m = ZoneMap::new(b"Albion", b"a small world", 0);
    assert!(!m.valid_zone_id(0));
    m.add_zone(Zone::new(0, b"spawn", b"where it begins"));
    m.add_zone(Zone::new(1, b"forest", b"dark and quiet"));
    assert!(m.valid_zone_id(1));
    assert!(!m.valid_zone_id(2));
    assert_eq!(m.find_zone_from_name(b"forest"), Some(1));
    assert_eq!(m.find_zone_from_name(b"desert"), None);
}

#[test]
fn tileset_info_holds_geometry() {
    let info = TilesetInfo::new(b"grass", 64, 16);
    assert_eq!(info.name, b"grass".to_vec());
    assert_eq!(info.tile_width, 64);
    assert_eq!(info.tile_height, 16);
}

#[test]
fn asset_paths_join_under_the_root() {
    assert_eq!(images(b"assets"), b"assets/images".to_vec());
    assert_eq!(image(b"assets", b"logo.png"), b"assets/images/logo.png".to_vec());
    assert_eq!(tiles(b"assets"), b"assets/images/tiles".to_vec());
    assert_eq!(null_id(), 0);
}

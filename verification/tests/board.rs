use claymore::combat::types::Side;
use claymore::hex::Axial;
use claymore::hunt::{board_center, board_tiles};
use claymore::present::{archive_kind_for, ArchiveKind};

#[test]
fn archive_meshes_by_template() {
    assert_eq!(archive_kind_for("clare", Side::Enemy), Some(ArchiveKind::Vika));
    assert_eq!(archive_kind_for("deneve", Side::Player), Some(ArchiveKind::Vika));
    assert_eq!(archive_kind_for("yoma_stretch", Side::Player), Some(ArchiveKind::Valefor));
    assert_eq!(archive_kind_for("raki", Side::Player), None);
    assert_eq!(archive_kind_for("worm", Side::Enemy), Some(ArchiveKind::Valefor));
    assert_eq!(archive_kind_for("galatea", Side::Player), Some(ArchiveKind::Vika));
    assert_eq!(archive_kind_for("ogre", Side::Enemy), Some(ArchiveKind::Valefor));
}

#[test]
fn instances_match_tiles() {
    let tiles = board_tiles(11, 9);
    assert_eq!(tiles.len(), 11 * 9);
    assert_eq!(board_center(11, 9), Axial::new(5, 4));
    assert_eq!(tiles[0].hex, Axial::new(0, 0));
    assert_eq!(tiles[1].hex, Axial::new(0, 1));
    assert_eq!(tiles[9].hex, Axial::new(1, 0));
    assert!(tiles.iter().all(|t| t.terrain == "grass"));
    assert!(board_tiles(0, 5).is_empty());
    assert_eq!(board_center(-3, 7), Axial::new(-1, 3));
}

use cs_flythrough::bsp::parse::{
    choose_wad_paths, drawable_texture_names, find_slot, plan_face, read_entity_lump, resolve_wad_paths,
    wad_candidate_path,
};
use cs_flythrough::bsp::wad::AtlasSlot;

fn slot(name: &str) -> AtlasSlot {
    AtlasSlot { name: name.to_string(), x: 0, y: 0, width: 8, height: 8 }
}

#[test]
fn texture_names_lowercased_without_nodraw() {
    let raw: Vec<String> = ["AAATRIGGER", "Wall01", "clip", "SKY", "Null"].iter().map(|s| s.to_string()).collect();
    assert_eq!(drawable_texture_names(&raw), vec!["wall01".to_string(), "sky".to_string()]);
}

#[test]
fn faces_planned_by_texture_and_size() {
    let slots = vec![slot("wall01"), slot("skyblue"), slot("trigger")];
    let p = plan_face(false, "WALL01", &slots, 4).unwrap();
    assert_eq!(p.slot, 0);
    assert!(!p.shape.sky);
    assert_eq!(p.shape.vertex_count, 4);
    // sky by name, case-insensitively
    assert!(plan_face(false, "SkyBlue", &slots, 3).unwrap().shape.sky);
    // sky by surface flag
    assert!(plan_face(true, "wall01", &slots, 3).unwrap().shape.sky);
    // never drawn, even with a slot
    assert!(plan_face(false, "trigger", &slots, 4).is_none());
    // no slot in the atlas
    assert!(plan_face(false, "missing", &slots, 4).is_none());
    // degenerate polygon
    assert!(plan_face(false, "wall01", &slots, 2).is_none());
}

#[test]
fn last_slot_of_a_name() {
    let slots = vec![slot("a"), slot("b"), slot("a")];
    assert_eq!(find_slot(&slots, "a"), Some(2));
    assert_eq!(find_slot(&slots, "c"), None);
}

#[test]
fn entity_lump_bytes_decoded() {
    let mut raw = b"{\n\"classname\" \"worldspawn\"\n\"wad\" \"\\\\cs\\\\de_dust.wad;\\\\cs\\\\halflife.wad\"\n}\n".to_vec();
    for k in 0..4 {
        raw.extend_from_slice(format!("{{\n\"classname\" \"info_player_start\"\n\"origin\" \"{k} 0 0\"\n}}\n").as_bytes());
    }
    raw.push(0);
    let info = read_entity_lump(&raw);
    assert_eq!(info.wad_files, vec!["de_dust.wad".to_string(), "halflife.wad".to_string()]);
    let pts = info.waypoints.unwrap();
    assert_eq!(pts.len(), 4);
    assert_eq!(pts[3].x, "3");
}

#[test]
fn high_bit_bytes_fold_to_ascii() {
    // 0xFB is '{' (0x7B) with the high bit set; 0xE2 is 'b' (0x62) with it set
    let mut raw = Vec::new();
    for k in 0..4 {
        raw.push(0xFB);
        raw.extend_from_slice(format!("\n\"classname\" \"hostage_entity\"\n\"origin\" \"{k} 1 2\"\n}}\n").as_bytes());
    }
    let info = read_entity_lump(&raw);
    assert_eq!(info.waypoints.unwrap().len(), 4);
    assert!(info.wad_files.is_empty());
    let info = read_entity_lump(&[0xE2, 0x80]);
    assert_eq!(info.waypoints.unwrap_err(), 0);
}

#[test]
fn wad_paths_first_directory_wins() {
    assert_eq!(wad_candidate_path("/cs", 2, "halflife.wad"), "/cs/valve/halflife.wad");
    let files: Vec<String> = ["a.wad", "b.wad", "c.wad"].iter().map(|s| s.to_string()).collect();
    let exists = vec![[false, true, true], [false, false, false], [true, false, true]];
    assert_eq!(
        choose_wad_paths("/cs", &files, &exists),
        vec!["/cs/czero/a.wad".to_string(), "/cs/cstrike/c.wad".to_string()]
    );
}

#[test]
fn wad_paths_missing_install_finds_nothing() {
    let files = vec!["de_dust.wad".to_string()];
    assert!(resolve_wad_paths("/nonexistent/cs/install", &files).is_empty());
}

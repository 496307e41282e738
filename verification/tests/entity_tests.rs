use cs_flythrough::bsp::entity::{extract_waypoints, parse_value, OriginText};
use cs_flythrough::bsp::parse::{
    build_indices, find_worldspawn_wad, is_nodraw_name, is_sky_name, wad_file_names, FaceShape,
};

const SAMPLE_LUMP: &str = r#"
{
"classname" "worldspawn"
"sky" "desert"
}
{
"classname" "info_player_start"
"origin" "100 200 0"
}
{
"classname" "info_player_start"
"origin" "150 250 0"
}
{
"classname" "info_player_deathmatch"
"origin" "-100 -200 0"
}
{
"classname" "func_bombsite"
"origin" "400 400 0"
}
{
"classname" "light"
"origin" "0 0 128"
}
"#;

fn as_vec(o: &OriginText) -> [f32; 3] {
    [o.x.parse().unwrap(), o.y.parse().unwrap(), o.z.parse().unwrap()]
}

#[test]
fn test_extract_four_waypoints() {
    let pts = extract_waypoints(SAMPLE_LUMP).unwrap();
    assert_eq!(pts.len(), 4);
}

#[test]
fn test_worldspawn_excluded() {
    let pts = extract_waypoints(SAMPLE_LUMP).unwrap();
    assert!(pts.iter().all(|p| as_vec(p) != [0.0, 0.0, 0.0] || true)); // worldspawn has no origin in sample
}

#[test]
fn test_origin_parsed_correctly() {
    let pts: Vec<[f32; 3]> = extract_waypoints(SAMPLE_LUMP).unwrap().iter().map(as_vec).collect();
    assert!(pts.contains(&[100.0, 200.0, 0.0]));
    assert!(pts.contains(&[400.0, 400.0, 0.0]));
}

#[test]
fn test_fewer_than_four_returns_error() {
    let lump = r#"
{
"classname" "info_player_start"
"origin" "0 0 0"
}
"#;
    assert!(extract_waypoints(lump).is_err());
}

#[test]
fn test_empty_lump_returns_error() {
    assert!(extract_waypoints("").is_err());
}

#[test]
fn waypoints_keep_lump_order_and_skip_other_classes() {
    let pts: Vec<[f32; 3]> = extract_waypoints(SAMPLE_LUMP).unwrap().iter().map(as_vec).collect();
    assert_eq!(
        pts,
        vec![[100.0, 200.0, 0.0], [150.0, 250.0, 0.0], [-100.0, -200.0, 0.0], [400.0, 400.0, 0.0]]
    );
}

#[test]
fn too_few_reports_the_count() {
    let lump = "{\n\"classname\" \"hostage_entity\"\n\"origin\" \"1 2 3\"\n}\n{\n\"classname\" \"func_bombsite\"\n\"origin\" \"bad 2 3\"\n}\n";
    assert_eq!(extract_waypoints(lump).unwrap_err(), 1);
}

#[test]
fn worldspawn_wad_value() {
    let lump = "{\n\"classname\" \"worldspawn\"\n\"wad\" \"\\cs\\de_dust.wad;\\cs\\halflife.wad\"\n}\n";
    assert_eq!(find_worldspawn_wad(lump).as_deref(), Some("\\cs\\de_dust.wad;\\cs\\halflife.wad"));
    assert_eq!(find_worldspawn_wad("{\n\"classname\" \"light\"\n\"wad\" \"x.wad\"\n}\n"), None);
    assert_eq!(find_worldspawn_wad("{\n\"classname\" \"worldspawn\"\n}\n"), None);
}

#[test]
fn wad_names_take_the_file_part() {
    assert_eq!(
        wad_file_names("C:\\games\\cstrike\\de_dust.wad; /opt/hl/halflife.wad;;decals.wad"),
        vec!["de_dust.wad".to_string(), "halflife.wad".to_string(), "decals.wad".to_string()]
    );
    assert!(wad_file_names("").is_empty());
    assert!(wad_file_names("dir/").is_empty());
}

#[test]
fn nodraw_and_sky_names() {
    for n in ["aaatrigger", "trigger", "clip", "null", "hint", "skip", "nodraw"] {
        assert!(is_nodraw_name(n), "{n}");
    }
    assert!(!is_nodraw_name("clipboard"));
    assert!(!is_nodraw_name("CLIP"));
    assert!(is_sky_name("sky"));
    assert!(is_sky_name("SKYbox"));
    assert!(!is_sky_name("sk"));
    assert!(!is_sky_name("desert_sky"));
}

#[test]
fn fan_indices_geometry_then_sky() {
    let faces = vec![
        FaceShape { sky: false, vertex_count: 4 },
        FaceShape { sky: true, vertex_count: 3 },
        FaceShape { sky: false, vertex_count: 2 },
        FaceShape { sky: false, vertex_count: 3 },
    ];
    let m = build_indices(&faces);
    assert_eq!(m.geo_vertex_count, 7);
    assert_eq!(m.sky_index_offset, 9);
    assert_eq!(m.indices, vec![0, 2, 1, 0, 3, 2, 4, 6, 5, 7, 9, 8]);
    assert!(m.indices.iter().all(|&i| i < 10));
}

#[test]
fn no_faces_no_indices() {
    let m = build_indices(&Vec::new());
    assert!(m.indices.is_empty());
    assert_eq!(m.sky_index_offset, 0);
    assert_eq!(m.geo_vertex_count, 0);
}

#[test]
fn first_matching_key_value() {
    let block = "\"classname\" \"light\"\n  \"origin\"   \"1 2 3\"  \n\"origin\" \"4 5 6\"\nnot a pair\n";
    assert_eq!(parse_value(block, "origin").as_deref(), Some("1 2 3"));
    assert_eq!(parse_value(block, "classname").as_deref(), Some("light"));
    assert_eq!(parse_value(block, "target"), None);
    assert_eq!(parse_value("", "origin"), None);
}

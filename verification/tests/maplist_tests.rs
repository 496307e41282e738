use cs_flythrough::maplist::{
    bsp_candidate_path, choose_bsp, choose_nav, nav_candidate_paths, resolve_bsp, resolve_nav, Compatibility, MapRecord,
    MapStatus,
};

#[test]
fn test_set_ok_and_is_excluded() {
    let mut compat = Compatibility::default();
    compat.set_ok("de_dust2");
    assert!(!compat.is_excluded("de_dust2"));
}

#[test]
fn test_set_failed_and_is_excluded() {
    let mut compat = Compatibility::default();
    compat.set_failed("de_survivor", "missing WAD: halflife.wad".to_string());
    assert!(compat.is_excluded("de_survivor"));
}

#[test]
fn test_untested_map_is_not_excluded() {
    let compat = Compatibility::default();
    assert!(!compat.is_excluded("cs_militia"));
}

#[test]
fn test_resolve_bsp_returns_err_when_install_missing() {
    let result = resolve_bsp("/nonexistent/cs/install", "de_dust2");
    assert!(result.is_err());
    let msg = result.unwrap_err();
    assert!(msg.contains("de_dust2"), "error should mention map name");
}

#[test]
fn later_mark_replaces_earlier() {
    let mut compat = Compatibility::new();
    compat.set_failed("de_dust2", "boom".to_string());
    assert!(compat.is_excluded("de_dust2"));
    compat.set_ok("de_dust2");
    assert!(!compat.is_excluded("de_dust2"));
    assert_eq!(compat.entries().len(), 1);
    let rec = compat.get("de_dust2").unwrap();
    assert_eq!(rec.status, MapStatus::Passed);
    assert!(rec.reason.is_none());
}

#[test]
fn marking_one_map_leaves_others() {
    let mut compat = Compatibility::new();
    compat.set_failed("de_survivor", "bad".to_string());
    compat.set_ok("de_dust2");
    assert!(compat.is_excluded("de_survivor"));
    assert!(!compat.is_excluded("de_dust2"));
    assert_eq!(compat.get("de_survivor").unwrap().reason.as_deref(), Some("bad"));
    assert!(compat.get("cs_italy").is_none());
    assert_eq!(compat.entries().len(), 2);
}

#[test]
fn map_names_are_case_sensitive() {
    let mut compat = Compatibility::new();
    compat.set_failed("DE_DUST2", "x".to_string());
    assert!(!compat.is_excluded("de_dust2"));
}

#[test]
fn candidate_paths() {
    assert_eq!(bsp_candidate_path("/games/cs", 0, "de_dust2"), "/games/cs/cstrike/maps/de_dust2.bsp");
    assert_eq!(bsp_candidate_path("/games/cs/", 1, "de_dust2"), "/games/cs/czero/maps/de_dust2.bsp");
    assert_eq!(bsp_candidate_path("", 0, "x"), "cstrike/maps/x.bsp");
}

#[test]
fn choose_prefers_cstrike() {
    assert_eq!(choose_bsp("/cs", "m", &[true, true]), Ok("/cs/cstrike/maps/m.bsp".to_string()));
    assert_eq!(choose_bsp("/cs", "m", &[false, true]), Ok("/cs/czero/maps/m.bsp".to_string()));
    assert_eq!(
        choose_bsp("/cs", "m", &[false, false]),
        Err("BSP not found for map 'm' in /cs".to_string())
    );
}

#[test]
fn records_set_directly() {
    let mut compat = Compatibility::new();
    compat.set_record("cs_italy", MapRecord { status: MapStatus::Untested, reason: None });
    assert!(!compat.is_excluded("cs_italy"));
    compat.set_record("cs_italy", MapRecord { status: MapStatus::Failed, reason: Some("x".to_string()) });
    assert!(compat.is_excluded("cs_italy"));
    assert_eq!(compat.entries().len(), 1);
}

#[test]
fn nav_candidates_install_first_then_siblings() {
    let siblings = vec!["/steam/Half-Life 80".to_string()];
    assert_eq!(
        nav_candidate_paths("/steam/Half-Life", "de_dust2", &siblings),
        vec![
            "/steam/Half-Life/cstrike/maps/de_dust2.nav".to_string(),
            "/steam/Half-Life/czero/maps/de_dust2.nav".to_string(),
            "/steam/Half-Life 80/cstrike/maps/de_dust2.nav".to_string(),
            "/steam/Half-Life 80/czero/maps/de_dust2.nav".to_string(),
        ]
    );
}

#[test]
fn first_existing_nav_wins() {
    let c: Vec<String> = ["a", "b", "c"].iter().map(|s| s.to_string()).collect();
    assert_eq!(choose_nav(&c, &vec![false, true, true]), Some("b".to_string()));
    assert_eq!(choose_nav(&c, &vec![false, false, false]), None);
    assert_eq!(resolve_nav("/nonexistent/cs", "de_dust2", &vec![]), None);
}

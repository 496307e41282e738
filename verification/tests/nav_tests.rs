use cs_flythrough::bsp::nav::{dfs_order, order_waypoints, parse_nav, NavError, NavField, ReadKind, NAV_MAGIC};

/// Build a minimal NAV binary from a slice of area definitions.
/// Each area tuple: (nw[3], se[3], ne_z, sw_z)
fn make_nav_bytes(version: u32, areas: &[([f32; 3], [f32; 3], f32, f32)]) -> Vec<u8> {
    let mut buf: Vec<u8> = Vec::new();
    buf.extend_from_slice(&NAV_MAGIC.to_le_bytes());
    buf.extend_from_slice(&version.to_le_bytes());
    let area_count = areas.len() as u32;
    buf.extend_from_slice(&area_count.to_le_bytes());
    for (idx, (nw, se, ne_z, sw_z)) in areas.iter().enumerate() {
        buf.extend_from_slice(&(idx as u32 + 1).to_le_bytes());
        if version == 5 {
            buf.push(0u8);
        } else {
            buf.extend_from_slice(&0u32.to_le_bytes());
        }
        for &v in nw.iter() {
            buf.extend_from_slice(&v.to_le_bytes());
        }
        for &v in se.iter() {
            buf.extend_from_slice(&v.to_le_bytes());
        }
        buf.extend_from_slice(&ne_z.to_le_bytes());
        buf.extend_from_slice(&sw_z.to_le_bytes());
        for _ in 0..4u32 {
            buf.extend_from_slice(&0u32.to_le_bytes());
        }
        buf.push(0u8);
        buf.push(0u8);
        buf.extend_from_slice(&0u32.to_le_bytes());
        buf.extend_from_slice(&0u16.to_le_bytes());
    }
    buf
}

/// Parse, filter by extent and floor height, and order the area centres: the
/// floating-point glue around the verified parser and route.
fn load_waypoints(bytes: &[u8], min_extent: f32, min_z: f32) -> Result<Vec<[f32; 3]>, NavError> {
    let file = parse_nav(bytes)?;
    let mut centers = Vec::new();
    let mut keep = Vec::new();
    for a in &file.areas {
        let c: Vec<f32> = a.corners.iter().map(|b| f32::from_bits(*b)).collect();
        let center = [(c[0] + c[3]) / 2.0, (c[1] + c[4]) / 2.0, (c[2] + c[5] + c[6] + c[7]) / 4.0];
        let extent = (c[3] - c[0]).abs().min((c[4] - c[1]).abs());
        keep.push(extent >= min_extent && center[2] >= min_z);
        centers.push(center);
    }
    let order = order_waypoints(&file.areas, &keep)?;
    Ok(order.iter().map(|&i| centers[i]).collect())
}

#[test]
fn test_parse_minimal_nav() {
    let areas = [
        ([0.0f32, 0.0, 10.0], [100.0f32, 100.0, 10.0], 10.0f32, 10.0f32),
        ([200.0, 0.0, 20.0], [300.0, 100.0, 20.0], 20.0, 20.0),
        ([0.0, 200.0, 30.0], [100.0, 300.0, 30.0], 30.0, 30.0),
        ([200.0, 200.0, 40.0], [300.0, 300.0, 40.0], 40.0, 40.0),
    ];
    let bytes = make_nav_bytes(6, &areas);
    let waypoints = load_waypoints(&bytes, 0.0, f32::NEG_INFINITY).expect("should parse");
    assert_eq!(waypoints.len(), 4);
    assert!((waypoints[0][0] - 50.0).abs() < 1e-5, "area0 x");
    assert!((waypoints[0][1] - 50.0).abs() < 1e-5, "area0 y");
    assert!((waypoints[0][2] - 10.0).abs() < 1e-5, "area0 z");
    assert!((waypoints[1][0] - 250.0).abs() < 1e-5, "area1 x");
    assert!((waypoints[1][1] - 50.0).abs() < 1e-5, "area1 y");
    assert!((waypoints[1][2] - 20.0).abs() < 1e-5, "area1 z");
    assert!((waypoints[3][0] - 250.0).abs() < 1e-5, "area3 x");
    assert!((waypoints[3][1] - 250.0).abs() < 1e-5, "area3 y");
    assert!((waypoints[3][2] - 40.0).abs() < 1e-5, "area3 z");
}

#[test]
fn test_too_few_areas_returns_err() {
    let areas = [
        ([0.0f32, 0.0, 0.0], [10.0f32, 10.0, 0.0], 0.0f32, 0.0f32),
        ([20.0, 0.0, 0.0], [30.0, 10.0, 0.0], 0.0, 0.0),
        ([0.0, 20.0, 0.0], [10.0, 30.0, 0.0], 0.0, 0.0),
    ];
    let bytes = make_nav_bytes(6, &areas);
    let result = load_waypoints(&bytes, 0.0, f32::NEG_INFINITY);
    assert!(result.is_err(), "expected Err for 3 areas");
    let err = result.unwrap_err();
    assert_eq!(err, NavError::TooFewAreas(3));
    let msg = err.message();
    assert!(msg.contains("3"), "error should mention area count: {msg}");
}

#[test]
fn test_bad_magic_returns_err() {
    let mut bytes = make_nav_bytes(6, &[([0.0, 0.0, 0.0], [1.0, 1.0, 0.0], 0.0, 0.0)]);
    bytes[0] = 0xDE;
    bytes[1] = 0xAD;
    bytes[2] = 0xBE;
    bytes[3] = 0xEF;
    let result = load_waypoints(&bytes, 0.0, f32::NEG_INFINITY);
    assert!(result.is_err(), "expected Err for bad magic");
    let err = result.unwrap_err();
    assert_eq!(err, NavError::BadMagic(0xEFBE_ADDE));
    let msg = err.message();
    assert!(msg.contains("magic"), "error should mention magic: {msg}");
}

#[test]
fn test_z_height_averaging() {
    let areas = [
        ([0.0f32, 0.0, 0.0], [10.0f32, 10.0, 4.0], 8.0f32, 12.0f32),
        ([20.0, 0.0, 0.0], [30.0, 10.0, 0.0], 0.0, 0.0),
        ([0.0, 20.0, 0.0], [10.0, 30.0, 0.0], 0.0, 0.0),
        ([20.0, 20.0, 0.0], [30.0, 30.0, 0.0], 0.0, 0.0),
    ];
    let bytes = make_nav_bytes(6, &areas);
    let waypoints = load_waypoints(&bytes, 0.0, f32::NEG_INFINITY).expect("should parse");
    assert!((waypoints[0][2] - 6.0).abs() < 1e-5, "z average wrong: {}", waypoints[0][2]);
}

#[test]
fn test_hiding_and_approach_spots_skipped_correctly() {
    let areas = [
        ([0.0f32, 0.0, 0.0], [100.0f32, 100.0, 0.0], 0.0f32, 0.0f32),
        ([200.0, 0.0, 0.0], [300.0, 100.0, 0.0], 0.0, 0.0),
        ([0.0, 200.0, 0.0], [100.0, 300.0, 0.0], 0.0, 0.0),
        ([200.0, 200.0, 0.0], [300.0, 300.0, 0.0], 0.0, 0.0),
    ];
    let mut buf: Vec<u8> = Vec::new();
    buf.extend_from_slice(&NAV_MAGIC.to_le_bytes());
    buf.extend_from_slice(&6u32.to_le_bytes());
    buf.extend_from_slice(&(areas.len() as u32).to_le_bytes());
    for (idx, (nw, se, ne_z, sw_z)) in areas.iter().enumerate() {
        buf.extend_from_slice(&(idx as u32 + 1).to_le_bytes());
        buf.extend_from_slice(&0u32.to_le_bytes());
        for &v in nw {
            buf.extend_from_slice(&v.to_le_bytes());
        }
        for &v in se {
            buf.extend_from_slice(&v.to_le_bytes());
        }
        buf.extend_from_slice(&ne_z.to_le_bytes());
        buf.extend_from_slice(&sw_z.to_le_bytes());
        for _ in 0..4u32 {
            buf.extend_from_slice(&0u32.to_le_bytes());
        }
        if idx == 0 {
            buf.push(2u8);
            for spot_id in [101u32, 102u32] {
                buf.extend_from_slice(&spot_id.to_le_bytes());
                for _ in 0..3 {
                    buf.extend_from_slice(&0.0f32.to_le_bytes());
                }
                buf.push(0x01u8);
            }
            buf.push(1u8);
            buf.extend_from_slice(&2u32.to_le_bytes());
            buf.extend_from_slice(&3u32.to_le_bytes());
            buf.push(0u8);
            buf.extend_from_slice(&4u32.to_le_bytes());
            buf.push(0u8);
        } else {
            buf.push(0u8);
            buf.push(0u8);
        }
        buf.extend_from_slice(&0u32.to_le_bytes());
        buf.extend_from_slice(&0u16.to_le_bytes());
    }
    let waypoints = load_waypoints(&buf, 0.0, f32::NEG_INFINITY)
        .expect("should parse when hiding/approach spots are correctly sized");
    assert_eq!(waypoints.len(), 4, "all 4 areas should be parsed");
    assert!((waypoints[0][0] - 50.0).abs() < 1e-5, "area0 x after skip");
}

#[test]
fn old_versions_and_truncation_refused() {
    let bytes = make_nav_bytes(1, &[]);
    assert_eq!(parse_nav(&bytes).unwrap_err(), NavError::VersionTooOld(1));
    let bytes = make_nav_bytes(6, &[([0.0, 0.0, 0.0], [1.0, 1.0, 0.0], 0.0, 0.0)]);
    let cut = &bytes[..bytes.len() - 1];
    assert_eq!(
        parse_nav(cut).unwrap_err(),
        NavError::Truncated { field: NavField::PlaceId(0), kind: ReadKind::U16, offset: bytes.len() - 2, needed: 2 }
    );
    assert_eq!(
        parse_nav(cut).unwrap_err().message(),
        format!("area 0: place_id: unexpected EOF reading u16 at offset {}", bytes.len() - 2)
    );
    // Cut inside the corners of the first area (after id and flags).
    let cut = &bytes[..12 + 8 + 10];
    assert_eq!(
        parse_nav(cut).unwrap_err().message(),
        "area 0: nw_z: unexpected EOF reading f32 at offset 28"
    );
    assert_eq!(
        parse_nav(&[1, 2]).unwrap_err(),
        NavError::Truncated { field: NavField::Magic, kind: ReadKind::U32, offset: 0, needed: 4 }
    );
}

#[test]
fn parsed_areas_carry_ids_and_corner_bits() {
    let bytes = make_nav_bytes(6, &[([1.5, 2.0, 3.0], [4.0, 5.0, 6.0], 7.0, 8.0)]);
    let file = parse_nav(&bytes).unwrap();
    assert_eq!(file.version, 6);
    assert_eq!(file.areas.len(), 1);
    assert_eq!(file.areas[0].id, 1);
    let corners: Vec<f32> = file.areas[0].corners.iter().map(|b| f32::from_bits(*b)).collect();
    assert_eq!(corners, vec![1.5, 2.0, 3.0, 4.0, 5.0, 6.0, 7.0, 8.0]);
    assert!(file.areas[0].connections.is_empty());
}

#[test]
fn dfs_visits_every_node_once() {
    // 0 - 1 - 2, 3 isolated, 4 -> 0
    let adj = vec![vec![1], vec![2, 0], vec![], vec![], vec![0]];
    let order = dfs_order(&adj);
    assert_eq!(order, vec![0, 1, 2, 3, 4]);
    let adj = vec![vec![2, 1], vec![], vec![1]];
    assert_eq!(dfs_order(&adj), vec![0, 2, 1]);
}

#[test]
fn filtered_areas_are_left_out_of_the_route() {
    let areas = [
        ([0.0f32, 0.0, 0.0], [100.0f32, 100.0, 0.0], 0.0f32, 0.0f32),
        ([200.0, 0.0, 0.0], [210.0, 100.0, 0.0], 0.0, 0.0),
        ([0.0, 200.0, 0.0], [100.0, 300.0, 0.0], 0.0, 0.0),
        ([200.0, 200.0, 0.0], [300.0, 300.0, 0.0], 0.0, 0.0),
        ([400.0, 400.0, 0.0], [500.0, 500.0, 0.0], 0.0, 0.0),
    ];
    let bytes = make_nav_bytes(6, &areas);
    let waypoints = load_waypoints(&bytes, 50.0, f32::NEG_INFINITY).unwrap();
    assert_eq!(waypoints.len(), 4);
    assert!(waypoints.iter().all(|w| w[0] != 205.0));
}

#[test]
fn error_messages() {
    assert_eq!(
        NavError::BadMagic(0xEFBE_ADDE).message(),
        "invalid NAV magic: expected 0xFEEDFACE, got 0xEFBEADDE"
    );
    assert_eq!(NavError::BadMagic(0x1F).message(), "invalid NAV magic: expected 0xFEEDFACE, got 0x0000001F");
    assert_eq!(NavError::VersionTooOld(1).message(), "NAV version 1 is too old (need >= 2, CS 1.6 uses 6)");
    assert_eq!(
        NavError::TooFewAreas(3).message(),
        "NAV file has only 3 areas; at least 4 are required for the Catmull-Rom spline"
    );
    assert_eq!(
        NavError::Truncated { field: NavField::Corner(3, 4), kind: ReadKind::F32, offset: 120, needed: 4 }.message(),
        "area 3: se_y: unexpected EOF reading f32 at offset 120"
    );
    assert_eq!(
        NavError::Truncated { field: NavField::PathSpots(1, 2, 7), kind: ReadKind::Skip, offset: 90, needed: 35 }.message(),
        "area 1 path 2: skipping 7 spots: unexpected EOF skipping 35 bytes at offset 90"
    );
    assert_eq!(
        NavError::Truncated { field: NavField::PlaceNameLen(0), kind: ReadKind::U16, offset: 14, needed: 2 }.message(),
        "v5: place 0: reading name_len: unexpected EOF reading u16 at offset 14"
    );
    assert_eq!(
        NavError::Truncated { field: NavField::Magic, kind: ReadKind::U32, offset: 0, needed: 4 }.message(),
        "reading NAV magic: unexpected EOF reading u32 at offset 0"
    );
}

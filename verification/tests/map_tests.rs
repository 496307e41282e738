use cs_flythrough::bsp::map::{bsp30_is_readable, bsp_texture_names, plan_mesh, read_bsp, summary_is_wf, BspSummary};
use cs_flythrough::bsp::wad::AtlasSlot;

fn slot(name: &str, x: u32) -> AtlasSlot {
    AtlasSlot { name: name.to_string(), x, y: 0, width: 8, height: 8 }
}

fn summary() -> BspSummary {
    BspSummary {
        entities: b"{\n\"classname\" \"worldspawn\"\n}\n".to_vec(),
        textures: vec![Some("BRICK".to_string()), None, Some("stone".to_string())],
        tex_infos: vec![(0, Some("BRICK".to_string())), (4, Some("stone".to_string())), (0, None)],
        faces: vec![(0, 4), (1, 3), (0, 2), (2, 5), (0, 3)],
        world: Some((0, 4)),
    }
}

#[test]
fn garbage_is_not_a_bsp() {
    let r = read_bsp(b"abc");
    assert!(r.is_err());
    assert!(!r.unwrap_err().is_empty());
}

#[test]
fn texture_names_skip_empty_entries() {
    assert_eq!(bsp_texture_names(&summary()), vec!["BRICK".to_string(), "stone".to_string()]);
}

#[test]
fn well_formedness_of_the_world_model() {
    let mut s = summary();
    assert!(summary_is_wf(&s));
    s.world = Some((2, 4));
    assert!(!summary_is_wf(&s));
    s.world = Some((0, 4));
    s.faces[1].0 = 9;
    assert!(!summary_is_wf(&s));
    s.world = None;
    assert!(!summary_is_wf(&s));
}

#[test]
fn mesh_plan_of_the_world_faces() {
    let s = summary();
    let slots = vec![slot("brick", 0), slot("stone", 8)];
    let plan = plan_mesh(&s, &slots).unwrap();
    // Face 2 has two vertices, face 3 has no texture; face 4 lies outside the world model.
    assert_eq!(plan.faces.len(), 2);
    assert_eq!(plan.faces[0].face, 0);
    assert_eq!(plan.faces[0].plan.slot, 0);
    assert!(!plan.faces[0].plan.shape.sky);
    assert_eq!(plan.faces[1].face, 1);
    assert_eq!(plan.faces[1].plan.slot, 1);
    assert!(plan.faces[1].plan.shape.sky);
    assert_eq!(plan.indices.indices, vec![0, 2, 1, 0, 3, 2, 4, 6, 5]);
    assert_eq!(plan.indices.sky_index_offset, 6);
    assert_eq!(plan.indices.geo_vertex_count, 4);
}

#[test]
fn too_many_vertices_for_u32_indices() {
    let s = BspSummary {
        entities: vec![],
        textures: vec![],
        tex_infos: vec![(0, Some("brick".to_string()))],
        faces: vec![(0, 0x6000_0000)],
        world: Some((0, 1)),
    };
    assert!(plan_mesh(&s, &vec![slot("brick", 0)]).is_none());
}

/// A BSP30 file: the header's 15 lump entries, then `body`.
fn bsp30(entries: &[(u32, u32); 15], body: &[u8]) -> Vec<u8> {
    let mut b = vec![0x1E, 0, 0, 0];
    for (off, len) in entries {
        b.extend_from_slice(&off.to_le_bytes());
        b.extend_from_slice(&len.to_le_bytes());
    }
    b.extend_from_slice(body);
    b
}

#[test]
fn minimal_goldsrc_map_is_read() {
    // Entities "{}" at 124, an empty texture lump (count 0) at 126, one model at 130.
    let mut entries = [(124u32, 0u32); 15];
    entries[0] = (124, 2);
    entries[2] = (126, 4);
    entries[14] = (130, 64);
    let mut body = b"{}".to_vec();
    body.extend_from_slice(&0u32.to_le_bytes());
    let mut model = vec![0u8; 64];
    model[56..60].copy_from_slice(&0u32.to_le_bytes()); // first_face
    model[60..64].copy_from_slice(&0u32.to_le_bytes()); // num_faces
    body.extend_from_slice(&model);
    let file = bsp30(&entries, &body);
    assert!(bsp30_is_readable(&file));
    let s = read_bsp(&file).unwrap_or_else(|e| panic!("{e}"));
    assert_eq!(s.entities, b"{}".to_vec());
    assert!(s.textures.is_empty());
    assert!(s.faces.is_empty());
    assert_eq!(s.world, Some((0, 0)));
}

#[test]
fn parser_errors_come_back_as_text() {
    let file = bsp30(&[(124, 0); 15], &[]);
    assert!(bsp30_is_readable(&file));
    let e = read_bsp(&file).unwrap_err();
    assert!(!e.is_empty());
    assert_ne!(e, "unsupported BSP");
}

#[test]
fn files_the_parser_cannot_take_whole_are_refused() {
    // Not GoldSrc.
    assert_eq!(read_bsp(b"IBSP\x26\0\0\0").unwrap_err(), "unsupported BSP");
    // A planes lump of 13 bytes inside the file.
    let mut entries = [(124u32, 0u32); 15];
    entries[1] = (124, 13);
    let file = bsp30(&entries, &[0u8; 13]);
    assert!(!bsp30_is_readable(&file));
    assert_eq!(read_bsp(&file).unwrap_err(), "unsupported BSP");
    // The same length outside the file is left to the parser.
    let file = bsp30(&entries, &[]);
    assert!(bsp30_is_readable(&file));
    // A lump whose end overflows 32 bits.
    let mut entries = [(124u32, 0u32); 15];
    entries[4] = (0xffff_fff0, 0x20);
    assert!(!bsp30_is_readable(&bsp30(&entries, &[])));
    // A BSPX extension after the lumps.
    let file = bsp30(&[(124, 0); 15], b"BSPX");
    assert!(!bsp30_is_readable(&file));
    // A short header is left to the parser.
    assert!(bsp30_is_readable(&[0x1E, 0, 0, 0, 1]));
}

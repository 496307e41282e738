use cs_flythrough::bsp::wad::{
    blit_texture, collect_wad_textures, fallback_texture, find_texture, indexed_to_rgba, lump_data, load_textures,
    pack_atlas, place_textures, unique_name_positions, wad_textures, LoadedTexture, TextureError, ATLAS_SIZE,
};

/// A miptex lump: `w` by `h` pixels, level 0 filled with `fill`, a palette of
/// `colors`.
fn miptex(name: &str, w: u32, h: u32, fill: u8, colors: &[[u8; 3]]) -> Vec<u8> {
    let mut b = Vec::new();
    let mut n = [0u8; 16];
    n[..name.len()].copy_from_slice(name.as_bytes());
    b.extend_from_slice(&n);
    b.extend_from_slice(&w.to_le_bytes());
    b.extend_from_slice(&h.to_le_bytes());
    let sizes = [w * h, (w / 2) * (h / 2), (w / 4) * (h / 4), (w / 8) * (h / 8)];
    let mut off = 40u32;
    for s in sizes {
        b.extend_from_slice(&off.to_le_bytes());
        off += s;
    }
    for (level, s) in sizes.iter().enumerate() {
        for _ in 0..*s {
            b.push(if level == 0 { fill } else { 0 });
        }
    }
    b.extend_from_slice(&(colors.len() as u16).to_le_bytes());
    for c in colors {
        b.extend_from_slice(c);
    }
    b
}

/// A WAD3 file holding the given lumps: (name, type, compression, data).
fn wad(lumps: &[(&str, u8, u8, Vec<u8>)]) -> Vec<u8> {
    let mut data = Vec::new();
    let mut entries = Vec::new();
    let mut off = 12u32;
    for (name, ty, comp, bytes) in lumps {
        entries.push((off, bytes.len() as u32, *ty, *comp, *name));
        data.extend_from_slice(bytes);
        off += bytes.len() as u32;
    }
    let mut out = Vec::new();
    out.extend_from_slice(b"WAD3");
    out.extend_from_slice(&(lumps.len() as u32).to_le_bytes());
    out.extend_from_slice(&off.to_le_bytes());
    out.extend_from_slice(&data);
    for (o, size, ty, comp, name) in entries {
        out.extend_from_slice(&o.to_le_bytes());
        out.extend_from_slice(&size.to_le_bytes());
        out.extend_from_slice(&size.to_le_bytes());
        out.push(ty);
        out.push(comp);
        out.extend_from_slice(&0u16.to_le_bytes());
        let mut n = [0u8; 16];
        n[..name.len()].copy_from_slice(name.as_bytes());
        out.extend_from_slice(&n);
    }
    out
}

fn texture(name: &str, w: u32, h: u32, byte: u8) -> LoadedTexture {
    LoadedTexture { name: name.to_string(), pixels: vec![byte; (w * h * 4) as usize], width: w, height: h }
}

#[test]
fn palette_indices_to_rgba() {
    let palette = [[10u8, 20, 30], [40, 50, 60]];
    let out = indexed_to_rgba(&[0, 1, 255, 7, 0], &palette, 2, 2);
    assert_eq!(out, vec![10, 20, 30, 255, 40, 50, 60, 255, 0, 0, 0, 0, 0, 0, 0, 255]);
    // fewer indices than pixels
    assert_eq!(indexed_to_rgba(&[1], &palette, 2, 2), vec![40, 50, 60, 255]);
}

#[test]
fn names_deduplicated_by_lowercase() {
    let names: Vec<String> = ["Wall", "floor", "WALL", "sky", "Floor"].iter().map(|s| s.to_string()).collect();
    assert_eq!(unique_name_positions(&names), vec![0, 1, 3]);
}

#[test]
fn later_texture_of_a_name_wins() {
    let textures = vec![texture("a", 1, 1, 1), texture("b", 1, 1, 2), texture("a", 1, 1, 3)];
    assert_eq!(find_texture(&textures, "a"), Some(2));
    assert_eq!(find_texture(&textures, "b"), Some(1));
    assert_eq!(find_texture(&textures, "c"), None);
}

#[test]
fn blit_copies_into_the_rectangle() {
    let side = 4u32;
    let mut atlas = vec![0u8; (side * side * 4) as usize];
    let tex: Vec<u8> = (1u8..=8).collect(); // 2 by 1 pixels
    blit_texture(&mut atlas, side, &tex, 2, 1, 1, 2);
    let p = |x: usize, y: usize| atlas[(y * 4 + x) * 4..(y * 4 + x) * 4 + 4].to_vec();
    assert_eq!(p(1, 2), vec![1, 2, 3, 4]);
    assert_eq!(p(2, 2), vec![5, 6, 7, 8]);
    assert_eq!(p(0, 2), vec![0, 0, 0, 0]);
    assert_eq!(p(3, 2), vec![0, 0, 0, 0]);
    assert_eq!(atlas.iter().filter(|&&b| b != 0).count(), 8);
}

#[test]
fn place_given_spots() {
    let names = vec!["a".to_string(), "b".to_string(), "c".to_string()];
    let textures = vec![texture("a", 2, 2, 9), texture("b", 1, 1, 7)];
    let fallback = fallback_texture();
    let atlas = place_textures(&names, &textures, &fallback, &vec![Some(0), Some(1), None], &vec![Some((10, 20)), None, Some((0, 0))]);
    assert_eq!(atlas.side, ATLAS_SIZE);
    assert_eq!(atlas.pixels.len(), 4096 * 4096 * 4);
    assert_eq!(atlas.slots.len(), 1);
    assert_eq!(atlas.slots[0].name, "a");
    assert_eq!((atlas.slots[0].x, atlas.slots[0].y, atlas.slots[0].width, atlas.slots[0].height), (10, 20, 2, 2));
    let at = |x: usize, y: usize| atlas.pixels[(y * 4096 + x) * 4];
    assert_eq!(at(10, 20), 9);
    assert_eq!(at(11, 21), 9);
    assert_eq!(at(12, 20), 0);
}

#[test]
fn pack_gives_unknown_names_the_fallback_and_skips_duplicates() {
    let names: Vec<String> = ["Brick", "missing", "BRICK", "stone"].iter().map(|s| s.to_string()).collect();
    let textures = vec![texture("brick", 16, 8, 5), texture("stone", 4, 4, 6)];
    let atlas = pack_atlas(&names, &textures);
    assert_eq!(atlas.slots.len(), 3);
    assert_eq!(atlas.slots[0].name, "Brick");
    assert_eq!((atlas.slots[0].x, atlas.slots[0].y), (0, 0));
    assert_eq!((atlas.slots[0].width, atlas.slots[0].height), (16, 8));
    assert_eq!(atlas.slots[1].name, "missing");
    assert_eq!((atlas.slots[1].width, atlas.slots[1].height), (16, 16));
    assert_eq!(atlas.slots[2].name, "stone");
    for s in &atlas.slots {
        assert!(s.x + s.width <= ATLAS_SIZE && s.y + s.height <= ATLAS_SIZE);
        let at = ((s.y as usize) * 4096 + s.x as usize) * 4;
        let px = atlas.pixels[at..at + 4].to_vec();
        let want = match s.name.as_str() {
            "stone" => vec![6, 6, 6, 6],
            "missing" => vec![255, 0, 255, 255],
            _ => vec![5, 5, 5, 5],
        };
        assert_eq!(px, want);
    }
    for i in 0..atlas.slots.len() {
        for j in i + 1..atlas.slots.len() {
            let (a, b) = (&atlas.slots[i], &atlas.slots[j]);
            let overlap = a.x < b.x + b.width && b.x < a.x + a.width && a.y < b.y + b.height && b.y < a.y + a.height;
            assert!(!overlap);
        }
    }
}

#[test]
fn texture_in_no_wad_gets_a_magenta_tile() {
    let names = vec!["missing".to_string()];
    let (atlas, errors) = load_textures(&names, &vec![]);
    assert!(errors.is_empty());
    assert_eq!(atlas.slots.len(), 1);
    let s = &atlas.slots[0];
    assert_eq!(s.name, "missing");
    assert_eq!((s.x, s.y, s.width, s.height), (0, 0, 16, 16));
    for y in 0..16usize {
        for x in 0..16usize {
            let at = (y * 4096 + x) * 4;
            assert_eq!(&atlas.pixels[at..at + 4], &[255, 0, 255, 255]);
        }
    }
    assert_eq!(&atlas.pixels[(16 * 4)..(16 * 4 + 4)], &[0, 0, 0, 0]);
}

#[test]
fn fallback_tile_is_magenta() {
    let t = fallback_texture();
    assert_eq!((t.width, t.height), (16, 16));
    assert_eq!(t.pixels.len(), 16 * 16 * 4);
    assert!(t.pixels.chunks(4).all(|p| p == [255, 0, 255, 255]));
}

#[test]
fn texture_too_big_for_the_atlas_is_skipped() {
    let names = vec!["huge".to_string(), "small".to_string()];
    let textures = vec![texture("huge", 4097, 1, 1), texture("small", 2, 2, 3)];
    let atlas = pack_atlas(&names, &textures);
    assert_eq!(atlas.slots.len(), 1);
    assert_eq!(atlas.slots[0].name, "small");
    assert_eq!((atlas.slots[0].x, atlas.slots[0].y), (0, 0));
}

#[test]
fn textures_read_from_a_wad() {
    let lumps = vec![
        ("BRICK", 0x43u8, 0u8, miptex("BRICK", 8, 8, 1, &[[1, 2, 3], [4, 5, 6]])),
        ("skipme", 0x42, 0, miptex("skipme", 8, 8, 0, &[[0, 0, 0]])),
        ("packed", 0x43, 1, miptex("packed", 8, 8, 0, &[[0, 0, 0]])),
        ("", 0x43, 0, miptex("", 8, 8, 0, &[[0, 0, 0]])),
        ("empty", 0x43, 0, miptex("empty", 0, 8, 0, &[[0, 0, 0]])),
        ("bad", 0x43, 0, vec![1, 2, 3]),
    ];
    let data = wad(&lumps);
    let found = wad_textures(&data).unwrap();
    assert_eq!(found.len(), 1);
    assert_eq!(found[0].name, "brick");
    assert_eq!((found[0].width, found[0].height), (8, 8));
    assert_eq!(found[0].pixels.len(), 8 * 8 * 4);
    assert_eq!(&found[0].pixels[..4], &[4, 5, 6, 255]);
}

#[test]
fn bad_wads_reported_and_skipped() {
    assert!(matches!(wad_textures(b"WAD2\0\0\0\0\0\0\0\0"), Err(TextureError::BadWad(_))));
    assert!(matches!(wad_textures(b"WAD3"), Err(TextureError::BadWad(_))));
    let good = wad(&[("a", 0x43, 0, miptex("a", 8, 8, 0, &[[9, 9, 9]]))]);
    let wads = vec![b"junk".to_vec(), good];
    let (all, errors) = collect_wad_textures(&wads);
    assert_eq!(all.len(), 1);
    assert_eq!(errors.len(), 1);
    assert_eq!(errors[0].0, 0);
}

#[test]
fn atlas_built_from_wads_later_files_win() {
    let first = wad(&[("wall", 0x43, 0, miptex("wall", 8, 8, 0, &[[1, 1, 1]]))]);
    let second = wad(&[("WALL", 0x43, 0, miptex("WALL", 16, 16, 0, &[[2, 2, 2]]))]);
    let names = vec!["wall".to_string(), "sky".to_string()];
    let (atlas, errors) = load_textures(&names, &vec![first, second]);
    assert!(errors.is_empty());
    assert_eq!(atlas.slots.len(), 2);
    assert_eq!(atlas.slots[0].name, "wall");
    assert_eq!((atlas.slots[0].width, atlas.slots[0].height), (16, 16));
    let s = &atlas.slots[0];
    assert_eq!(atlas.pixels[((s.y as usize) * 4096 + s.x as usize) * 4], 2);
    let t = &atlas.slots[1];
    assert_eq!(t.name, "sky");
    let at = ((t.y as usize) * 4096 + t.x as usize) * 4;
    assert_eq!(&atlas.pixels[at..at + 4], &[255, 0, 255, 255]);
}

#[test]
fn lump_data_checks_its_range() {
    let data = [1u8, 2, 3, 4, 5];
    assert_eq!(lump_data(&data, 1, 3), Some(vec![2, 3, 4]));
    assert_eq!(lump_data(&data, 5, 0), Some(vec![]));
    assert_eq!(lump_data(&data, 4, 2), None);
}

use anim_engine::fixed::Fp;
use anim_engine::render::{DrawLayer, GameGraphics};
use anim_engine::sprites::{pack_handles, resolve_scale, SpriteGroup, SpriteInfo, SpriteLists};

fn fpval(f: Fp) -> f64 {
    f.num as f64 / f.den as f64
}

fn lists() -> SpriteLists {
    SpriteLists {
        gostek: vec![b"a.png".to_vec(), b"b.png".to_vec()],
        weapon: vec![b"w.png".to_vec()],
        spark: vec![],
        object: vec![b"o1.png".to_vec(), b"o2.png".to_vec(), b"o3.png".to_vec()],
        interface: vec![b"ui.png".to_vec()],
    }
}

#[test]
fn packer_yields_one_handle_per_sprite_in_order() {
    let empty: Vec<SpriteInfo> = Vec::new();
    assert_eq!(pack_handles(&empty), Vec::<usize>::new());
    let infos = vec![
        SpriteInfo { filename: b"x".to_vec(), scale: Fp { num: 1, den: 1 } },
        SpriteInfo { filename: b"y".to_vec(), scale: Fp { num: 1, den: 1 } },
        SpriteInfo { filename: b"z".to_vec(), scale: Fp { num: 1, den: 1 } },
    ];
    assert_eq!(pack_handles(&infos), vec![0, 1, 2]);
}

#[test]
fn handle_count_mismatch_is_rejected() {
    let l = lists();
    let mut g = GameGraphics::new();
    let short: Vec<usize> = vec![0, 1];
    let intf: Vec<usize> = vec![0];
    assert!(!g.bind_handles(&l, &short, &intf));
    assert_eq!(g.sprites.len(), 0);
    let main: Vec<usize> = (0..6).collect();
    assert!(g.bind_handles(&l, &main, &intf));
    assert_eq!(g.sprites.len(), 5);
}

#[test]
fn table_replays_enumeration_order() {
    let l = lists();
    let mut g = GameGraphics::new();
    let (main, intf) = g.load_sprites(&l, &Vec::new(), None);
    assert_eq!(main.len(), 6);
    assert_eq!(intf.len(), 1);
    assert_eq!(main[0].filename, b"a.png".to_vec());
    assert_eq!(main[2].filename, b"w.png".to_vec());
    assert_eq!(main[5].filename, b"o3.png".to_vec());
    assert_eq!(g.sprites[0], vec![0, 1]);
    assert_eq!(g.sprites[1], vec![2]);
    assert_eq!(g.sprites[2], Vec::<usize>::new());
    assert_eq!(g.sprites[3], vec![3, 4, 5]);
    assert_eq!(g.sprites[4], vec![0]);
}

#[test]
fn scale_overrides_resolve_by_priority() {
    let l = lists();
    let mut g = GameGraphics::new();
    let config = "[SCALE]\nDefaultScale=1.5\na.png=2.0\n";
    let (main, intf) = g.load_sprites(&l, &Vec::new(), Some(config));
    assert_eq!(fpval(main[0].scale), 2.0);
    assert_eq!(fpval(main[1].scale), 1.5);
    assert_eq!(fpval(intf[0].scale), 1.5);
}

#[test]
fn no_config_means_scale_one() {
    let l = lists();
    let mut g = GameGraphics::new();
    let (main, intf) = g.load_sprites(&l, &Vec::new(), None);
    for info in main.iter().chain(intf.iter()) {
        assert_eq!(fpval(info.scale), 1.0);
    }
}

#[test]
fn config_without_scale_section_means_scale_one() {
    let l = lists();
    let mut g = GameGraphics::new();
    let (main, _) = g.load_sprites(&l, &Vec::new(), Some("[OTHER]\na.png=9.0\n"));
    assert_eq!(fpval(main[0].scale), 1.0);
}

#[test]
fn malformed_scale_falls_back_to_default() {
    let l = lists();
    let mut g = GameGraphics::new();
    let config = "[SCALE]\nDefaultScale=1.5\na.png=oops\n";
    let (main, _) = g.load_sprites(&l, &Vec::new(), Some(config));
    assert_eq!(fpval(main[0].scale), 1.5);
}

#[test]
fn filename_overrides_apply_before_scales() {
    let l = lists();
    let mut g = GameGraphics::new();
    let overrides = vec![(b"a.png".to_vec(), b"mod/a.png".to_vec())];
    let config = "[SCALE]\nmod/a.png=3.0\n";
    let (main, _) = g.load_sprites(&l, &overrides, Some(config));
    assert_eq!(main[0].filename, b"mod/a.png".to_vec());
    assert_eq!(fpval(main[0].scale), 3.0);
    assert_eq!(main[1].filename, b"b.png".to_vec());
    assert_eq!(fpval(main[1].scale), 1.0);
}

#[test]
fn resolve_scale_reads_real_entries() {
    let entries = vec![
        (b"DefaultScale".to_vec(), b"0.5".to_vec()),
        (b"a.png".to_vec(), b"2.25".to_vec()),
    ];
    assert_eq!(fpval(resolve_scale(Some(&entries), &b"a.png".to_vec())), 2.25);
    assert_eq!(fpval(resolve_scale(Some(&entries), &b"b.png".to_vec())), 0.5);
    assert_eq!(fpval(resolve_scale(None, &b"a.png".to_vec())), 1.0);
}

#[test]
fn group_ids_follow_canonical_order() {
    let groups = SpriteGroup::values();
    assert_eq!(groups.len(), 5);
    for (i, g) in groups.iter().enumerate() {
        assert_eq!(g.id(), i);
    }
    assert_eq!(groups[0], SpriteGroup::Gostek);
    assert_eq!(groups[4], SpriteGroup::Interface);
}

#[test]
fn render_order_is_back_to_front_with_cursor_last() {
    let order = anim_engine::render::render_order();
    assert_eq!(
        order,
        vec![
            DrawLayer::Background,
            DrawLayer::PolysBack,
            DrawLayer::SceneryBack,
            DrawLayer::SpriteBatch,
            DrawLayer::SceneryMid,
            DrawLayer::PolysFront,
            DrawLayer::SceneryFront,
            DrawLayer::Cursor,
        ]
    );
}

#[test]
fn new_graphics_has_no_sprite_table() {
    let g = GameGraphics::new();
    assert!(g.sprites.is_empty());
}

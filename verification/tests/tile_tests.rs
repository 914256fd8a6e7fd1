use pathgame::board::PortsPerEdgeTileConfig;
use pathgame::tile::{BaseGAct, CycleGAct, DihedralGAct, RegularTile};

#[test]
fn test_square_tile_rotate_ccw() {
    let tile = RegularTile::<4>::new(vec![2, 3, 0, 1, 7, 6, 5, 4]);
    let expected = RegularTile::<4>::new(vec![7, 6, 4, 5, 2, 3, 1, 0]);
    assert_eq!(tile.rotate(1), expected);
}

#[test]
fn test_square_tile_rotate_cw() {
    let tile = RegularTile::<4>::new(vec![2, 3, 0, 1, 7, 6, 5, 4]);
    let expected = RegularTile::<4>::new(vec![6, 7, 5, 4, 3, 2, 0, 1]);
    assert_eq!(tile.rotate(-1), expected);
}

#[test]
fn test_triangle_tile_all() {
    let all = RegularTile::<3>::all(PortsPerEdgeTileConfig(2));
    assert_eq!(all.len(), 7);
}

#[test]
fn test_square_tile_single_port_all() {
    let all = RegularTile::<4>::all(PortsPerEdgeTileConfig(1));
    assert_eq!(all.len(), 2);
}

#[test]
fn test_square_tile_all() {
    let all = RegularTile::<4>::all(PortsPerEdgeTileConfig(2));
    assert_eq!(all.len(), 35);
}

#[test]
fn test_rotation_group_action() {
    let tile = RegularTile::<4>::new(vec![2, 3, 0, 1, 7, 6, 5, 4]);
    for a in 0..4 {
        for b in 0..4 {
            let two_steps = tile.rotate(a).rotate(b);
            let one_step = tile.rotate((a + b) % 4);
            assert_eq!(two_steps, one_step);
        }
    }
    assert_eq!(tile.rotate(0), tile);
}

#[test]
fn test_generated_tiles_are_matchings() {
    let all = RegularTile::<4>::all_including_rotations(PortsPerEdgeTileConfig(2));
    assert_eq!(all.len(), 105);
    for t in &all {
        for p in 0..8u32 {
            let out = t.output(p);
            assert!(out < 8);
            assert_ne!(out, p);
            assert_eq!(t.output(out), p);
        }
    }
}

#[test]
fn test_cycle_gact_compose() {
    let a = CycleGAct { rotation: 3, size: 4 };
    let b = CycleGAct { rotation: 2, size: 4 };
    let c = a.compose(&b);
    assert_eq!(c.rotation(), 1);
    assert_eq!(c.size(), 4);
}

#[test]
fn test_dihedral_gact_compose() {
    let a = DihedralGAct { rotation: 1, reflected: false, size: 4 };
    let b = DihedralGAct { rotation: 1, reflected: true, size: 4 };
    let c = a.compose(&b);
    // apply a then b: rotation negates under b's reflection
    assert_eq!(c.rotation(), 0);
    assert!(c.reflected());
    let d = c.compose(&c);
    assert_eq!(d.rotation(), 0);
    assert!(!d.reflected());
}

#[test]
fn test_base_gact_compose() {
    let a = BaseGAct::Cycle(CycleGAct { rotation: 1, size: 4 });
    let b = BaseGAct::Cycle(CycleGAct { rotation: 3, size: 4 });
    match a.compose(&b) {
        BaseGAct::Cycle(c) => {
            assert_eq!(c.rotation, 0);
            assert_eq!(c.size, 4);
        }
        _ => panic!("composing cyclic actions must stay cyclic"),
    }
}

#[test]
fn test_canonical_is_least_rotation() {
    let all = RegularTile::<4>::all(PortsPerEdgeTileConfig(2));
    for t in &all {
        // a catalogue tile is its own canonical representative
        assert_eq!(t.canonical(), *t);
        // rotations share the representative
        assert_eq!(t.rotate(1).canonical(), *t);
        assert_eq!(t.rotate(2).canonical(), *t);
        assert_eq!(t.rotate(3).canonical(), *t);
    }
}

#[test]
fn test_visibility_builder() {
    let tile = RegularTile::<4>::new(vec![1, 0, 3, 2, 5, 4, 7, 6]);
    assert!(tile.visible());
    let hidden = tile.with_visible(false);
    assert!(!hidden.visible());
    let mut again = hidden.duplicate();
    again.set_visible(true);
    assert!(again.visible());
    assert_eq!(again.ports_per_edge(), 2);
    assert_eq!(again.num_ports(), 8);
}

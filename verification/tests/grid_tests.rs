use atb::grid::{place_bases, safe_zone_bounds, BasePlacement, Grid};
use atb::tile::Tile;

#[test]
fn tile_walkability_and_team() {
    assert!(Tile::Free.is_walkable());
    assert!(!Tile::Obstacle.is_walkable());
    assert!(Tile::Base(1).is_walkable());
    assert!(Tile::SafeZone(2).is_walkable());
    assert_eq!(Tile::Free.team_id(), None);
    assert_eq!(Tile::Obstacle.team_id(), None);
    assert_eq!(Tile::Base(3).team_id(), Some(3));
    assert_eq!(Tile::SafeZone(0).team_id(), Some(0));
}

#[test]
fn new_grid_is_free_and_out_of_bounds_is_none() {
    let g = Grid::new(4, 3);
    assert_eq!(g.width, 4);
    assert_eq!(g.height, 3);
    assert_eq!(g.tiles.len(), 12);
    assert_eq!(g.get(0, 0), Some(Tile::Free));
    assert_eq!(g.get(3, 2), Some(Tile::Free));
    assert_eq!(g.get(4, 0), None);
    assert_eq!(g.get(0, 3), None);
    assert_eq!(g.get(-1, 0), None);
    assert!(g.in_bounds(3, 2));
    assert!(!g.in_bounds(3, 3));
}

#[test]
fn get_reads_back_what_set_wrote() {
    let mut g = Grid::new(5, 5);
    g.set(2, 3, Tile::Obstacle);
    assert_eq!(g.get(2, 3), Some(Tile::Obstacle));
    assert_eq!(g.tiles[3 * 5 + 2], Tile::Obstacle);
    assert_eq!(g.get(3, 2), Some(Tile::Free));
    // out of bounds: nothing changes
    let before = g.to_tiles();
    g.set(9, 9, Tile::Obstacle);
    assert_eq!(g.to_tiles(), before);
    assert_eq!(g.get(9, 9), None);
}

#[test]
fn clear_resets_every_cell() {
    let mut g = Grid::new(3, 3);
    g.set(0, 0, Tile::Obstacle);
    g.set(2, 2, Tile::Base(1));
    g.clear();
    assert!(g.to_tiles().iter().all(|t| *t == Tile::Free));
}

#[test]
fn tiles_round_trip_through_buffer() {
    let mut g = Grid::new(3, 2);
    g.set(1, 0, Tile::Obstacle);
    g.set(2, 1, Tile::SafeZone(1));
    let buf = g.to_tiles();
    assert_eq!(buf, vec![Tile::Free, Tile::Obstacle, Tile::Free, Tile::Free, Tile::Free, Tile::SafeZone(1)]);
    let mut h = Grid::new(3, 2);
    h.fill_from(&buf);
    assert_eq!(h.to_tiles(), buf);
    // a longer buffer: the extra tiles are ignored
    let mut longer = buf.clone();
    longer.push(Tile::Obstacle);
    let mut k = Grid::new(3, 2);
    k.fill_from(&longer);
    assert_eq!(k.to_tiles(), buf);
}

#[test]
fn stamp_safe_zone_marks_only_free_cells_around_base() {
    let mut g = Grid::new(5, 5);
    g.set(1, 1, Tile::Obstacle);
    g.set(3, 3, Tile::SafeZone(0));
    g.stamp_safe_zone(2, 2, 1, 1);
    for y in 0..5 {
        for x in 0..5 {
            let t = g.get(x, y).unwrap();
            let expected = if (x, y) == (1, 1) {
                Tile::Obstacle
            } else if (x, y) == (3, 3) {
                Tile::SafeZone(0)
            } else if (x, y) == (2, 2) {
                Tile::Free
            } else if (1..=3).contains(&x) && (1..=3).contains(&y) {
                Tile::SafeZone(1)
            } else {
                Tile::Free
            };
            assert_eq!(t, expected, "cell ({x}, {y})");
        }
    }
}

#[test]
fn stamp_safe_zone_clips_at_the_edge_and_negative_radius_does_nothing() {
    let mut g = Grid::new(3, 3);
    g.stamp_safe_zone(0, 0, 2, 1);
    assert_eq!(g.get(1, 0), Some(Tile::SafeZone(2)));
    assert_eq!(g.get(0, 1), Some(Tile::SafeZone(2)));
    assert_eq!(g.get(1, 1), Some(Tile::SafeZone(2)));
    assert_eq!(g.get(0, 0), Some(Tile::Free));
    assert_eq!(g.get(2, 2), Some(Tile::Free));
    let mut h = Grid::new(3, 3);
    h.stamp_safe_zone(1, 1, 0, -1);
    assert!(h.to_tiles().iter().all(|t| *t == Tile::Free));
}

#[test]
fn safe_zone_bounds_clamp_to_grid() {
    assert_eq!(safe_zone_bounds(5, 5, 3, 20, 20), (2, 2, 8, 8));
    assert_eq!(safe_zone_bounds(1, 18, 3, 20, 20), (0, 15, 4, 19));
    assert_eq!(safe_zone_bounds(0, 0, 0, 1, 1), (0, 0, 0, 0));
}

#[test]
fn safe_zone_border_encloses_stamped_cells() {
    let mut g = Grid::new(8, 6);
    g.stamp_safe_zone(6, 1, 0, 2);
    let (x0, y0, x1, y1) = safe_zone_bounds(6, 1, 2, 8, 6);
    for y in 0..6 {
        for x in 0..8 {
            if g.get(x, y) != Some(Tile::Free) {
                assert!(x0 <= x && x <= x1 && y0 <= y && y <= y1);
            }
        }
    }
}

#[test]
fn place_bases_stamps_zones_then_bases() {
    let mut g = Grid::new(7, 7);
    g.set(0, 0, Tile::Obstacle);
    let bases = vec![
        BasePlacement { x: 1, y: 1, team: 0 },
        BasePlacement { x: 5, y: 5, team: 1 },
        BasePlacement { x: 2, y: 2, team: 1 },
    ];
    place_bases(&mut g, &bases, 1);
    assert_eq!(g.get(1, 1), Some(Tile::Base(0)));
    assert_eq!(g.get(5, 5), Some(Tile::Base(1)));
    assert_eq!(g.get(2, 2), Some(Tile::Base(1)));
    assert_eq!(g.get(0, 0), Some(Tile::Obstacle));
    // team 0's zone is kept where team 1's square overlaps it
    assert_eq!(g.get(2, 1), Some(Tile::SafeZone(0)));
    assert_eq!(g.get(3, 3), Some(Tile::SafeZone(1)));
    assert_eq!(g.get(4, 4), Some(Tile::SafeZone(1)));
    assert_eq!(g.get(6, 6), Some(Tile::SafeZone(1)));
    assert_eq!(g.get(0, 6), Some(Tile::Free));
}

#[test]
fn a_base_overwrites_a_neighbouring_zone_at_its_centre() {
    let mut g = Grid::new(5, 5);
    let bases = vec![BasePlacement { x: 1, y: 1, team: 0 }, BasePlacement { x: 2, y: 1, team: 1 }];
    place_bases(&mut g, &bases, 1);
    assert_eq!(g.get(2, 1), Some(Tile::Base(1)));
    assert_eq!(g.get(1, 1), Some(Tile::Base(0)));
    assert_eq!(g.get(3, 1), Some(Tile::SafeZone(1)));
}

#[test]
fn border_rectangle_is_the_clipped_square() {
    let (w, h) = (9usize, 7usize);
    for (bx, by, r) in [(0, 0, 2), (8, 6, 3), (4, 3, 1), (2, 5, 0)] {
        let (x0, y0, x1, y1) = safe_zone_bounds(bx, by, r, w, h);
        for y in 0..h as i32 {
            for x in 0..w as i32 {
                let in_rect = x0 <= x && x <= x1 && y0 <= y && y <= y1;
                let in_square = (bx - r..=bx + r).contains(&x) && (by - r..=by + r).contains(&y);
                assert_eq!(in_rect, in_square);
            }
        }
    }
}

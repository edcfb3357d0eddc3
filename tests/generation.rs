use rand::rngs::StdRng;
use rand::{Rng, SeedableRng};
use tilemap::regions::{find_first, label_regions, merge_regions, project_label};
use tilemap::TileMap;

fn walls(rows: usize, cols: usize, value: bool) -> Vec<Vec<bool>> {
    vec![vec![value; cols]; rows]
}

fn wall_grids(width: usize, height: usize, wrap: bool, value: bool) -> (Vec<Vec<bool>>, Vec<Vec<bool>>) {
    if wrap {
        (walls(height, width, value), walls(height, width, value))
    } else {
        (walls(height, width - 1, value), walls(height - 1, width, value))
    }
}

fn random_walls(rng: &mut StdRng, width: usize, height: usize, wrap: bool, p: f64) -> (Vec<Vec<bool>>, Vec<Vec<bool>>) {
    let (vw, vh) = if wrap { (width, height) } else { (width - 1, height) };
    let (hw, hh) = if wrap { (width, height) } else { (width, height - 1) };
    let vertical = (0..vh).map(|_| (0..vw).map(|_| rng.gen_bool(p)).collect()).collect();
    let horizontal = (0..hh).map(|_| (0..hw).map(|_| rng.gen_bool(p)).collect()).collect();
    (vertical, horizontal)
}

fn seeded_map(seed: u64, width: usize, height: usize, wrap: bool, p: f64) -> TileMap {
    let mut rng = StdRng::seed_from_u64(seed);
    let (vertical, horizontal) = random_walls(&mut rng, width, height, wrap, p);
    let (mut labels, count) = label_regions(width, height, wrap, &vertical, &horizontal);
    let (positions, neighbors) = merge_regions(&mut labels, count, width, height, wrap);
    let picks: Vec<usize> = positions.iter().map(|cells| rng.gen_range(0..cells.len())).collect();
    TileMap::from_regions(width, height, wrap, &labels, &positions, &neighbors, &picks)
}

fn adjacent_cells(width: usize, height: usize, wrap: bool, x: usize, y: usize) -> Vec<(usize, usize)> {
    let mut out = Vec::new();
    if x > 0 {
        out.push((x - 1, y));
    } else if wrap {
        out.push((width - 1, y));
    }
    if x + 1 < width {
        out.push((x + 1, y));
    } else if wrap {
        out.push((0, y));
    }
    if y > 0 {
        out.push((x, y - 1));
    } else if wrap {
        out.push((x, height - 1));
    }
    if y + 1 < height {
        out.push((x, y + 1));
    } else if wrap {
        out.push((x, 0));
    }
    out
}

fn check_map(m: &TileMap) {
    let (width, height, wrap) = m.size();
    let cells = m.map();
    let tiles = m.tiles();
    assert_eq!(cells.len(), height);
    for row in cells {
        assert_eq!(row.len(), width);
        for &id in row {
            assert!(id < tiles.len());
        }
    }
    for (i, tile) in tiles.iter().enumerate() {
        assert_eq!(tile.id(), i);
        let (x, y) = tile.position();
        assert_eq!(cells[y][x], i);
        let nb = tile.neighbors();
        for w in nb.windows(2) {
            assert!(w[0] < w[1]);
        }
        assert!(!nb.contains(&i));
        for &j in nb {
            assert!(j < tiles.len());
            assert!(tiles[j].neighbors().contains(&i));
        }
    }
    // The neighbor lists are exactly the IDs met across shared edges.
    let mut expected = vec![Vec::new(); tiles.len()];
    for y in 0..height {
        for x in 0..width {
            for (ax, ay) in adjacent_cells(width, height, wrap, x, y) {
                let (a, b) = (cells[y][x], cells[ay][ax]);
                if a != b && !expected[a].contains(&b) {
                    expected[a].push(b);
                }
            }
        }
    }
    for (i, tile) in tiles.iter().enumerate() {
        let mut e = expected[i].clone();
        e.sort();
        assert_eq!(tile.neighbors(), &e);
    }
}

fn neighbor_counts(m: &TileMap) -> Vec<Vec<usize>> {
    let cells = m.map();
    let tiles = m.tiles();
    cells.iter().map(|row| row.iter().map(|&id| tiles[id].neighbors().len()).collect()).collect()
}

#[test]
fn random_maps_are_well_formed() {
    for seed in 0..40u64 {
        for &(w, h) in &[(1usize, 1usize), (1, 5), (5, 1), (2, 2), (4, 3), (7, 6)] {
            for &wrap in &[true, false] {
                for &p in &[0.0, 0.3, 0.5, 0.8, 1.0] {
                    check_map(&seeded_map(seed, w, h, wrap, p));
                }
            }
        }
    }
}

#[test]
fn thread_random_maps_are_well_formed() {
    let mut rng = StdRng::seed_from_u64(7);
    for &wrap in &[true, false] {
        for _ in 0..20 {
            let (vertical, horizontal) = random_walls(&mut rng, 6, 5, wrap, 0.5);
            check_map(&TileMap::from_walls(6, 5, wrap, &vertical, &horizontal));
        }
    }
}

#[test]
fn open_torus_is_one_tile() {
    let (vertical, horizontal) = wall_grids(5, 4, true, false);
    let m = TileMap::from_walls(5, 4, true, &vertical, &horizontal);
    assert_eq!(m.tiles().len(), 1);
    assert!(m.tiles()[0].neighbors().is_empty());
    assert!(m.map().iter().all(|row| row.iter().all(|&id| id == 0)));
}

#[test]
fn closed_three_by_three_is_nine_cells() {
    let (vertical, horizontal) = wall_grids(3, 3, false, true);
    let m = TileMap::from_walls(3, 3, false, &vertical, &horizontal);
    assert_eq!(m.tiles().len(), 9);
    assert_eq!(m.map(), &vec![vec![0, 1, 2], vec![3, 4, 5], vec![6, 7, 8]]);
    assert_eq!(neighbor_counts(&m), vec![vec![2, 3, 2], vec![3, 4, 3], vec![2, 3, 2]]);
    assert_eq!(m.tiles()[4].neighbors(), &vec![1, 3, 5, 7]);
    assert_eq!(m.tiles()[0].neighbors(), &vec![1, 3]);
    for t in m.tiles() {
        let (x, y) = t.position();
        assert_eq!(y * 3 + x, t.id());
    }
}

#[test]
fn four_by_four_open_torus_and_board() {
    for &wrap in &[true, false] {
        let (vertical, horizontal) = wall_grids(4, 4, wrap, false);
        let m = TileMap::from_walls(4, 4, wrap, &vertical, &horizontal);
        assert_eq!(m.tiles().len(), 1);
        assert_eq!(m.size(), (4, 4, wrap));
    }
}

#[test]
fn four_by_four_closed_board() {
    let (vertical, horizontal) = wall_grids(4, 4, false, true);
    let m = TileMap::from_walls(4, 4, false, &vertical, &horizontal);
    assert_eq!(m.tiles().len(), 16);
    let counts = neighbor_counts(&m);
    assert_eq!(counts[0][0], 2);
    assert_eq!(counts[0][3], 2);
    assert_eq!(counts[3][0], 2);
    assert_eq!(counts[3][3], 2);
    assert_eq!(counts[1][1], 4);
}

#[test]
fn closed_torus_cells_have_four_neighbors() {
    let (vertical, horizontal) = wall_grids(3, 3, true, true);
    let m = TileMap::from_walls(3, 3, true, &vertical, &horizontal);
    assert_eq!(m.tiles().len(), 9);
    assert_eq!(m.tiles()[0].neighbors(), &vec![1, 2, 3, 6]);
}

#[test]
fn single_cell_maps() {
    for &wrap in &[true, false] {
        for &closed in &[true, false] {
            let (vertical, horizontal) = wall_grids(1, 1, wrap, closed);
            let m = TileMap::from_walls(1, 1, wrap, &vertical, &horizontal);
            assert_eq!(m.tiles().len(), 1);
            assert_eq!(m.tiles()[0].position(), (0, 0));
            assert!(m.tiles()[0].neighbors().is_empty());
        }
    }
}

#[test]
fn strip_without_walls_is_one_tile() {
    let (vertical, horizontal) = wall_grids(6, 1, false, false);
    let m = TileMap::from_walls(6, 1, false, &vertical, &horizontal);
    assert_eq!(m.tiles().len(), 1);
}

#[test]
fn same_seed_same_map() {
    for seed in 0..10u64 {
        let a = seeded_map(seed, 8, 6, seed % 2 == 0, 0.4);
        let b = seeded_map(seed, 8, 6, seed % 2 == 0, 0.4);
        assert_eq!(a.map(), b.map());
        assert_eq!(a.tiles().len(), b.tiles().len());
        for (s, t) in a.tiles().iter().zip(b.tiles().iter()) {
            assert_eq!(s.position(), t.position());
            assert_eq!(s.id(), t.id());
            assert_eq!(s.neighbors(), t.neighbors());
        }
    }
}

#[test]
fn regions_are_numbered_in_scan_order() {
    // Walls split a bounded 3x2 board into columns {0}, {1, 2}.
    let vertical = vec![vec![true, false], vec![true, false]];
    let horizontal = vec![vec![false, false, false]];
    let (labels, count) = label_regions(3, 2, false, &vertical, &horizontal);
    assert_eq!(count, 2);
    assert_eq!(labels, vec![1, 2, 2, 1, 2, 2]);
}

#[test]
fn merge_renumbers_and_collects() {
    // Labels of three regions: a left column, a top right block, a bottom right block.
    let mut labels = vec![1, 2, 2, 1, 3, 3];
    let (positions, neighbors) = merge_regions(&mut labels, 3, 3, 2, false);
    assert_eq!(labels, vec![0, 1, 1, 0, 2, 2]);
    let mut cells0 = positions[0].clone();
    cells0.sort();
    assert_eq!(cells0, vec![0, 3]);
    let mut cells2 = positions[2].clone();
    cells2.sort();
    assert_eq!(cells2, vec![4, 5]);
    assert_eq!(neighbors, vec![vec![1, 2], vec![0, 2], vec![0, 1]]);
}

#[test]
fn picks_choose_the_representative() {
    let labels = vec![0, 0, 1, 1];
    let positions = vec![vec![0, 1], vec![2, 3]];
    let neighbors = vec![vec![1], vec![0]];
    let m = TileMap::from_regions(2, 2, false, &labels, &positions, &neighbors, &vec![1, 0]);
    assert_eq!(m.tiles()[0].position(), (1, 0));
    assert_eq!(m.tiles()[1].position(), (0, 1));
    assert_eq!(m.map(), &vec![vec![0, 0], vec![1, 1]]);
}

#[test]
fn representative_positions_vary() {
    // An open board is one tile; over many draws its representative is not
    // always the first cell.
    let (vertical, horizontal) = wall_grids(4, 4, true, false);
    let mut seen = std::collections::BTreeSet::new();
    for _ in 0..64 {
        let m = TileMap::from_walls(4, 4, true, &vertical, &horizontal);
        seen.insert(m.tiles()[0].position());
    }
    assert!(seen.len() > 1);
}

#[test]
fn final_ids_of_met_labels() {
    assert_eq!(project_label(0, 2), 0);
    assert_eq!(project_label(1, 2), 1);
    assert_eq!(project_label(2, 2), 2);
    assert_eq!(project_label(4, 2), 3);
    assert_eq!(project_label(9, 0), 8);
}

#[test]
fn first_cell_with_label() {
    assert_eq!(find_first(&vec![3, 1, 2, 1], 1), Some(1));
    assert_eq!(find_first(&vec![3, 1, 2, 1], 3), Some(0));
    assert_eq!(find_first(&vec![3, 1, 2, 1], 5), None);
    assert_eq!(find_first(&vec![], 0), None);
}

#[test]
fn open_edges_join_cells_and_walls_split_them() {
    let mut rng = StdRng::seed_from_u64(11);
    for &wrap in &[true, false] {
        for _ in 0..20 {
            let (w, h) = (6usize, 5usize);
            let (vertical, horizontal) = random_walls(&mut rng, w, h, wrap, 0.5);
            let m = TileMap::from_walls(w, h, wrap, &vertical, &horizontal);
            let cells = m.map();
            for y in 0..h {
                for x in 0..w {
                    let right = if x + 1 < w { Some(x + 1) } else if wrap { Some(0) } else { None };
                    if let Some(rx) = right {
                        if !vertical[y][x] {
                            assert_eq!(cells[y][x], cells[y][rx]);
                        }
                    }
                    let down = if y + 1 < h { Some(y + 1) } else if wrap { Some(0) } else { None };
                    if let Some(dy) = down {
                        if !horizontal[y][x] {
                            assert_eq!(cells[y][x], cells[dy][x]);
                        }
                    }
                }
            }
            // Tiles are numbered by the row-major order of their first cells.
            let mut next = 0;
            for row in cells {
                for &id in row {
                    assert!(id <= next);
                    if id == next {
                        next += 1;
                    }
                }
            }
            assert_eq!(next, m.tiles().len());
        }
    }
}

use svgen::algo::extract_outline;
use svgen::structs::TurnPolicy;
use svgen::vec2::IVec2;

fn grid(rows: &[&str]) -> (Vec<bool>, [usize; 2]) {
    // rows are given top first; row 0 of the grid is the bottom one
    let h = rows.len();
    let w = rows[0].len();
    let mut image = vec![false; w * h];
    for (ri, row) in rows.iter().enumerate() {
        let y = h - 1 - ri;
        for (x, ch) in row.chars().enumerate() {
            image[x + y * w] = ch == '#';
        }
    }
    (image, [w, h])
}

fn p(x: i32, y: i32) -> IVec2 {
    IVec2::new(x, y)
}

#[test]
fn empty_grid_has_no_outline() {
    let (image, size) = grid(&["...", "...", "..."]);
    let polys = extract_outline(&image, &size, TurnPolicy::Majority, true);
    assert!(polys.is_empty());
}

#[test]
fn filled_square_gives_one_four_point_polygon() {
    let (image, size) = grid(&["###", "###", "###"]);
    let polys = extract_outline(&image, &size, TurnPolicy::Majority, true);
    assert_eq!(polys.len(), 1);
    assert!(polys[0].0);
    assert_eq!(polys[0].1, vec![p(0, 0), p(0, 3), p(3, 3), p(3, 0)]);
}

#[test]
fn filled_square_unsimplified_walks_every_edge() {
    let (image, size) = grid(&["###", "###", "###"]);
    let polys = extract_outline(&image, &size, TurnPolicy::Majority, false);
    assert_eq!(polys.len(), 1);
    assert_eq!(polys[0].1.len(), 12);
    assert_eq!(polys[0].1[0], p(0, 0));
    assert_eq!(polys[0].1[1], p(0, 1));
    assert_eq!(polys[0].1[11], p(1, 0));
}

#[test]
fn plus_shape_gives_twelve_corners() {
    let (image, size) = grid(&[".#.", "###", ".#."]);
    let polys = extract_outline(&image, &size, TurnPolicy::Majority, true);
    assert_eq!(polys.len(), 1);
    assert!(polys[0].0);
    assert_eq!(
        polys[0].1,
        vec![
            p(1, 0),
            p(1, 1),
            p(0, 1),
            p(0, 2),
            p(1, 2),
            p(1, 3),
            p(2, 3),
            p(2, 2),
            p(3, 2),
            p(3, 1),
            p(2, 1),
            p(2, 0),
        ]
    );
}

#[test]
fn single_pixel_gives_unit_square() {
    let (image, size) = grid(&["#"]);
    let polys = extract_outline(&image, &size, TurnPolicy::Majority, true);
    assert_eq!(polys.len(), 1);
    assert_eq!(polys[0].1, vec![p(0, 0), p(0, 1), p(1, 1), p(1, 0)]);
}

#[test]
fn edge_count_matches_boundary() {
    // an L shape: 8 boundary edges on the outside of 3 cells
    let (image, size) = grid(&["#.", "##"]);
    let polys = extract_outline(&image, &size, TurnPolicy::Majority, false);
    let total: usize = polys.iter().map(|(_, poly)| poly.len()).sum();
    assert_eq!(total, 8);
}

#[test]
fn ring_gives_outer_and_inner_boundary() {
    let (image, size) = grid(&["###", "#.#", "###"]);
    let polys = extract_outline(&image, &size, TurnPolicy::Majority, false);
    assert_eq!(polys.len(), 2);
    let total: usize = polys.iter().map(|(_, poly)| poly.len()).sum();
    assert_eq!(total, 16);
}

#[test]
fn diagonal_touch_follows_turn_policy() {
    let (image, size) = grid(&[".#", "#."]);
    let black = extract_outline(&image, &size, TurnPolicy::Black, false);
    assert_eq!(
        black,
        vec![
            (true, vec![p(0, 0), p(0, 1), p(1, 1), p(1, 0)]),
            (true, vec![p(1, 1), p(1, 2), p(2, 2), p(2, 1)]),
        ]
    );
    let white = extract_outline(&image, &size, TurnPolicy::White, false);
    assert_eq!(
        white,
        vec![(
            true,
            vec![p(0, 0), p(0, 1), p(1, 1), p(1, 2), p(2, 2), p(2, 1), p(1, 1), p(1, 0)]
        )]
    );
}

#[test]
fn consecutive_points_are_unit_steps() {
    let (image, size) = grid(&["##.#", "#..#", "####"]);
    let polys = extract_outline(&image, &size, TurnPolicy::Minority, false);
    let mut total = 0;
    for (cyclic, poly) in &polys {
        assert!(*cyclic);
        total += poly.len();
        for i in 0..poly.len() {
            let a = poly[i];
            let b = poly[(i + 1) % poly.len()];
            assert_eq!((a.x - b.x).abs() + (a.y - b.y).abs(), 1);
            if i > 0 {
                assert_ne!(poly[i], poly[0]);
            }
        }
    }
    // 9 filled cells; count the sides that face an empty cell or the outside
    assert_eq!(total, 20);
}

fn perimeter(poly: &[IVec2]) -> i32 {
    let mut total = 0;
    for i in 0..poly.len() {
        let a = poly[i];
        let b = poly[(i + 1) % poly.len()];
        assert!(a.x == b.x || a.y == b.y);
        total += (a.x - b.x).abs() + (a.y - b.y).abs();
    }
    total
}

#[test]
fn simplified_perimeters_cover_every_edge() {
    let (image, size) = grid(&["##.#", "#..#", "####", ".##."]);
    let polys = extract_outline(&image, &size, TurnPolicy::Majority, true);
    let total: i32 = polys.iter().map(|(_, poly)| perimeter(poly)).sum();
    let unsimplified = extract_outline(&image, &size, TurnPolicy::Majority, false);
    let edges: usize = unsimplified.iter().map(|(_, poly)| poly.len()).sum();
    assert_eq!(total as usize, edges);
    assert_eq!(polys.len(), unsimplified.len());
    // filled cells: 3 + 2 + 4 + 2 = 11; sides facing empty cells or the outside
    assert_eq!(edges, 22);
}

#[test]
fn single_pixel_unsimplified_is_unit_square() {
    let (image, size) = grid(&["#"]);
    for policy in [TurnPolicy::Black, TurnPolicy::White, TurnPolicy::Majority, TurnPolicy::Minority] {
        let polys = extract_outline(&image, &size, policy, false);
        assert_eq!(polys, vec![(true, vec![p(0, 0), p(0, 1), p(1, 1), p(1, 0)])]);
    }
}

#[test]
fn steps_are_distinct_boundary_edges() {
    let (image, size) = grid(&["#.#", ".#.", "#.#"]);
    let polys = extract_outline(&image, &size, TurnPolicy::Majority, false);
    let mut steps = Vec::new();
    for (_, poly) in &polys {
        assert!(poly.len() >= 4 && poly.len() % 2 == 0);
        for i in 0..poly.len() {
            steps.push((poly[i], poly[(i + 1) % poly.len()]));
        }
    }
    let total = steps.len();
    steps.sort_by_key(|(a, b)| (a.x, a.y, b.x, b.y));
    steps.dedup();
    assert_eq!(steps.len(), total);
    // five isolated-by-side cells, four sides each
    assert_eq!(total, 20);
}

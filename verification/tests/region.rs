use pref_polys::region::{
    add_new_costs, lowered_constraint, print_intersections, AreaCalculator, Cut, CutError, NewCorner,
    Side,
};

const PRECISION: f64 = 0.00000001;

fn dot(constraint: &[i32], coords: &[f64]) -> f64 {
    constraint
        .iter()
        .zip(coords)
        .map(|(c, x)| *c as f64 * x)
        .sum()
}

fn side_of(dp: f64) -> Side {
    if dp > PRECISION {
        Side::Outside
    } else if dp >= 0. || -dp <= PRECISION {
        Side::Boundary
    } else {
        Side::Inside
    }
}

fn between(coords: &[Vec<f64>], dots: &[f64], corner: &NewCorner) -> Vec<f64> {
    let dot1 = dots[corner.inner];
    let dot2 = dots[corner.outer];
    let p = dot2 / (dot2 - dot1);
    (0..3)
        .map(|i| p * coords[corner.inner][i] + (1. - p) * coords[corner.outer][i])
        .collect()
}

/// Cheapest of the given cost vectors under a preference; the first one wins ties.
fn cheapest(paths: &[Vec<u32>], alpha: &[f64]) -> Vec<u32> {
    let mut best = &paths[0];
    let mut best_cost = f64::MAX;
    for p in paths {
        let cost: f64 = p.iter().zip(alpha).map(|(c, a)| *c as f64 * a).sum();
        if cost < best_cost - PRECISION {
            best_cost = cost;
            best = p;
        }
    }
    best.clone()
}

fn build_region(paths: &[Vec<u32>], own: Vec<u32>) -> (AreaCalculator, Vec<Vec<f64>>) {
    let mut calc = AreaCalculator::new(0, 1, own);
    let mut coords = vec![
        vec![1., 0., 0.],
        vec![0., 1., 0.],
        vec![0., 0., 1.],
    ];
    while let Some(corner) = calc.next_unchecked() {
        let best = cheapest(paths, &coords[corner]);
        calc.check_corner(corner);
        let cost_diff = calc.cost_difference(&best);
        if dot(&cost_diff, &coords[corner]) > PRECISION {
            let dots: Vec<f64> = coords.iter().map(|c| dot(&cost_diff, c)).collect();
            let sides: Vec<Side> = dots.iter().map(|d| side_of(*d)).collect();
            let cut = calc.cut(corner, cost_diff, &sides).unwrap();
            if let Some(new) = cut.left {
                assert_eq!(new.index, coords.len());
                coords.push(between(&coords, &dots, &new));
            }
            if let Some(new) = cut.right {
                assert_eq!(new.index, coords.len());
                coords.push(between(&coords, &dots, &new));
            }
        }
    }
    (calc, coords)
}

fn close(a: &[f64], b: &[f64]) -> bool {
    a.len() == b.len() && a.iter().zip(b).all(|(x, y)| (x - y).abs() < 0.000005)
}

#[test]
fn new_region_is_the_simplex() {
    let calc = AreaCalculator::new(3, 7, vec![4, 5, 6]);
    assert_eq!(calc.source(), 3);
    assert_eq!(calc.target(), 7);
    assert_eq!(calc.costs(), &vec![4, 5, 6]);
    assert_eq!(calc.ch_counter(), 0);
    assert_eq!(calc.corner_count(), 3);
    assert_eq!(calc.hull_indices(), &vec![0, 1, 2]);
    assert_eq!(
        calc.constraints(),
        &vec![vec![-1, 0, 0], vec![0, -1, 0], vec![0, 0, -1]]
    );
    for i in 0..3 {
        let c = calc.corner(i);
        assert!(!c.is_checked);
        assert_eq!((c.left, c.right), ((i + 1) % 3, (i + 2) % 3));
        assert_eq!((c.left_constraint, c.right_constraint), ((i + 2) % 3, (i + 1) % 3));
        assert!(calc.is_on_hull(i));
    }
    assert!(!calc.is_on_hull(3));
    assert_eq!(calc.next_unchecked(), Some(0));
}

#[test]
fn check_corner_counts_and_marks() {
    let mut calc = AreaCalculator::new(0, 1, vec![1, 0, 0]);
    calc.check_corner(0);
    assert_eq!(calc.ch_counter(), 1);
    assert!(calc.corner(0).is_checked);
    assert_eq!(calc.next_unchecked(), Some(1));
    calc.check_corner(1);
    calc.check_corner(2);
    assert_eq!(calc.ch_counter(), 3);
    assert_eq!(calc.next_unchecked(), None);
}

#[test]
fn cost_difference_is_signed() {
    let calc = AreaCalculator::new(0, 1, vec![1, 0, 7]);
    assert_eq!(calc.cost_difference(&vec![0, 1, 7]), vec![1, -1, 0]);
    assert_eq!(calc.cost_difference(&vec![3]), vec![-2]);
    let wide = AreaCalculator::new(0, 1, vec![u32::MAX, 5]);
    assert_eq!(wide.cost_difference(&vec![0, u32::MAX]), vec![-1, 6]);
}

#[test]
fn cut_through_two_inner_corners_adds_two() {
    let mut calc = AreaCalculator::new(0, 1, vec![1, 0, 0]);
    let sides = vec![Side::Outside, Side::Inside, Side::Inside];
    let cut = calc.cut(0, vec![2, -1, -1], &sides).unwrap();
    assert_eq!(
        cut,
        Cut {
            left: Some(NewCorner { index: 3, inner: 1, outer: 0 }),
            right: Some(NewCorner { index: 4, inner: 2, outer: 0 }),
        }
    );
    assert_eq!(calc.hull_indices(), &vec![1, 2, 3, 4]);
    assert_eq!(calc.corner_count(), 5);
    assert_eq!(calc.constraints().len(), 4);
    assert_eq!(calc.constraints()[3], vec![2, -1, -1]);
    // ring to the left: 1 -> 2 -> 4 -> 3 -> 1
    assert_eq!((calc.corner(1).left, calc.corner(1).right), (2, 3));
    assert_eq!((calc.corner(2).left, calc.corner(2).right), (4, 1));
    assert_eq!((calc.corner(4).left, calc.corner(4).right), (3, 2));
    assert_eq!((calc.corner(3).left, calc.corner(3).right), (1, 4));
    // constraints on both sides of the new corners
    assert_eq!((calc.corner(3).left_constraint, calc.corner(3).right_constraint), (2, 3));
    assert_eq!((calc.corner(4).left_constraint, calc.corner(4).right_constraint), (3, 1));
    // the corner that left keeps its data
    assert_eq!((calc.corner(0).left, calc.corner(0).right), (1, 2));
    assert!(!calc.is_on_hull(0));
    assert!(!calc.corner(3).is_checked && !calc.corner(4).is_checked);
}

#[test]
fn cut_through_boundary_corners_reuses_them() {
    let mut calc = AreaCalculator::new(0, 1, vec![1, 0, 0]);
    let sides = vec![Side::Outside, Side::Boundary, Side::Boundary];
    let cut = calc.cut(0, vec![1, 0, 0], &sides).unwrap();
    assert_eq!(cut, Cut { left: None, right: None });
    assert_eq!(calc.hull_indices(), &vec![1, 2]);
    assert_eq!(calc.corner_count(), 3);
    assert_eq!((calc.corner(1).left, calc.corner(1).right), (2, 2));
    assert_eq!((calc.corner(2).left, calc.corner(2).right), (1, 1));
    assert_eq!(calc.corner(1).right_constraint, 3);
    assert_eq!(calc.corner(2).left_constraint, 3);
}

#[test]
fn cut_that_leaves_nothing_is_refused() {
    let mut calc = AreaCalculator::new(0, 1, vec![1, 0, 0]);
    let sides = vec![Side::Outside, Side::Outside, Side::Outside];
    assert_eq!(calc.cut(0, vec![1, 1, 1], &sides), Err(CutError::NothingLeft));
    assert_eq!(calc.hull_indices(), &vec![0, 1, 2]);
    assert_eq!(calc.constraints().len(), 3);
}

#[test]
fn scattered_cut_is_refused() {
    let mut calc = AreaCalculator::new(0, 1, vec![1, 0, 0]);
    let first = vec![Side::Outside, Side::Inside, Side::Inside];
    calc.cut(0, vec![2, -1, -1], &first).unwrap();
    // hull ring is 1, 2, 4, 3: corners 1 and 4 are not neighbours
    let sides = vec![Side::Outside, Side::Outside, Side::Inside, Side::Inside, Side::Outside];
    assert_eq!(calc.cut(1, vec![0, 1, -1], &sides), Err(CutError::Scattered));
    assert_eq!(calc.hull_indices(), &vec![1, 2, 3, 4]);
    assert_eq!(calc.constraints().len(), 4);
    assert_eq!(calc.corner_count(), 5);
}

#[test]
fn unit_triangle_region() {
    let paths = vec![vec![1, 0, 0], vec![0, 1, 0], vec![0, 0, 1]];
    let (calc, coords) = build_region(&paths, vec![1, 0, 0]);
    let hull = calc.hull_indices().clone();
    assert_eq!(hull.len(), 3);
    let mut found: Vec<Vec<f64>> = hull.iter().map(|c| coords[*c].clone()).collect();
    found.sort_by(|a, b| a.partial_cmp(b).unwrap());
    assert!(close(&found[0], &[0., 0., 1.]));
    assert!(close(&found[1], &[0., 1., 0.]));
    assert!(close(&found[2], &[1. / 3., 1. / 3., 1. / 3.]));
    assert_eq!(calc.next_unchecked(), None);
    assert_eq!(calc.ch_counter(), 5);
    // every corner lies on both of its constraints
    for c in hull.iter() {
        let corner = calc.corner(*c);
        let left = &calc.constraints()[corner.left_constraint];
        let right = &calc.constraints()[corner.right_constraint];
        assert!(dot(left, &coords[*c]).abs() < PRECISION);
        assert!(dot(right, &coords[*c]).abs() < PRECISION);
        assert!(corner.left != corner.right && corner.left != *c && corner.right != *c);
        assert!(corner.left_constraint != corner.right_constraint);
        assert_eq!(calc.corner(corner.left).right, *c);
        assert_eq!(calc.corner(corner.right).left, *c);
    }
}

#[test]
fn intersections_walk_the_ring() {
    let mut calc = AreaCalculator::new(0, 1, vec![1, 0, 0]);
    assert_eq!(
        calc.get_intersections(),
        vec![
            vec![vec![0, 0, -1], vec![0, -1, 0]],
            vec![vec![-1, 0, 0], vec![0, 0, -1]],
            vec![vec![0, -1, 0], vec![-1, 0, 0]],
        ]
    );
    let sides = vec![Side::Outside, Side::Inside, Side::Inside];
    calc.cut(0, vec![2, -1, -1], &sides).unwrap();
    // from corner 1 to the left: 1, 2, 4, 3
    assert_eq!(
        calc.get_intersections(),
        vec![
            vec![vec![-1, 0, 0], vec![0, 0, -1]],
            vec![vec![0, -1, 0], vec![-1, 0, 0]],
            vec![vec![2, -1, -1], vec![0, -1, 0]],
            vec![vec![0, 0, -1], vec![2, -1, -1]],
        ]
    );
}

#[test]
fn hull_lines_name_places_in_the_hull() {
    let mut calc = AreaCalculator::new(0, 1, vec![1, 0, 0]);
    let sides = vec![Side::Outside, Side::Inside, Side::Inside];
    calc.cut(0, vec![2, -1, -1], &sides).unwrap();
    let lines = calc.hull_lines(0);
    let flat: Vec<(usize, usize, usize)> = lines.iter().map(|l| (l.corner, l.left, l.right)).collect();
    // hull is 1, 2, 3, 4 at places 0, 1, 2, 3
    assert_eq!(flat, vec![(1, 1, 2), (2, 3, 0), (3, 0, 3), (4, 2, 1)]);
    let shifted = calc.hull_lines(10);
    assert_eq!((shifted[0].left, shifted[0].right), (11, 12));
}

#[test]
fn lowered_constraint_drops_the_last_weight() {
    assert_eq!(lowered_constraint(&vec![3, -4, 2]), (1, -6, 2));
    // at weights 1, 2, 3 of 6 both forms have the same value
    let (first, second, last) = lowered_constraint(&vec![3, -4, 2]);
    assert_eq!(first * 1 + second * 2 + last * 6, 3 * 1 - 4 * 2 + 2 * 3);
    assert_eq!(
        lowered_constraint(&vec![i32::MAX, i32::MIN, i32::MIN]),
        (
            i32::MAX as i64 - i32::MIN as i64,
            0,
            i32::MIN as i64
        )
    );
}

#[test]
fn costs_across_a_constraint() {
    let mut calc = AreaCalculator::new(0, 1, vec![5, 7, 9]);
    let sides = vec![Side::Outside, Side::Inside, Side::Inside];
    calc.cut(0, vec![2, -1, -3], &sides).unwrap();
    assert_eq!(calc.costs_across(3), vec![3, 8, 12]);
}

#[test]
fn cost_vectors_are_remembered_once() {
    let mut known = vec![vec![1, 2, 3], vec![4, 5, 6]];
    assert!(!add_new_costs(&mut known, vec![4, 5, 6]));
    assert_eq!(known.len(), 2);
    assert!(!add_new_costs(&mut known, vec![1, 2, 3, 99]));
    assert!(add_new_costs(&mut known, vec![1, 2, 4]));
    assert_eq!(known, vec![vec![1, 2, 3], vec![4, 5, 6], vec![1, 2, 4]]);
    let mut empty: Vec<Vec<u32>> = vec![];
    assert!(add_new_costs(&mut empty, vec![0, 0, 0]));
    assert_eq!(empty, vec![vec![0, 0, 0]]);
}

#[test]
fn intersections_are_written_in_lowered_form() {
    let calc = AreaCalculator::new(0, 1, vec![1, 0, 0]);
    let one = calc.get_intersections();
    let text = print_intersections(&vec![one.clone(), vec![]]);
    assert_eq!(
        String::from_utf8(text).unwrap(),
        "2\n3 1 1 -1 0 -1 0 -1 0 0 1 1 -1 0 -1 0 -1 0 0\n0\n"
    );
    assert_eq!(String::from_utf8(print_intersections(&vec![])).unwrap(), "0\n");
    let wide = vec![vec![vec![vec![i32::MIN, i32::MAX, i32::MAX]]]];
    assert_eq!(
        String::from_utf8(print_intersections(&wide)).unwrap(),
        "1\n1 -4294967295 0 2147483647\n"
    );
}

/// A corner that carries everything itself, for the direct construction.
struct PlainCorner {
    coords: Vec<f64>,
    is_checked: bool,
    neighbor_indices: Vec<usize>,
    constraint_indices: Vec<usize>,
}

/// The region built directly on one arena of corners with coordinates.
struct PlainRegion {
    costs: Vec<u32>,
    corners: Vec<PlainCorner>,
    hull_indices: Vec<usize>,
    ch_counter: usize,
    constraints: Vec<Vec<i32>>,
}

impl PlainRegion {
    fn new(costs: Vec<u32>) -> Self {
        let mut corners = Vec::new();
        let mut hull_indices = Vec::new();
        let mut constraints = Vec::new();
        for i in 0..3 {
            let mut constraint = vec![0; 3];
            constraint[i] = -1;
            constraints.push(constraint);
            let mut coords = vec![0.; 3];
            coords[i] = 1.;
            corners.push(PlainCorner {
                coords,
                is_checked: false,
                neighbor_indices: vec![(i + 1) % 3, (i + 2) % 3],
                constraint_indices: vec![(i + 2) % 3, (i + 1) % 3],
            });
            hull_indices.push(i);
        }
        PlainRegion { costs, corners, hull_indices, ch_counter: 0, constraints }
    }

    /// The first corner that stays when walking from `from` to `side`, and
    /// whether it lies on the boundary.
    fn first_in(&self, from: usize, dots: &[f64], side: usize) -> (usize, bool) {
        let mut first_in = from;
        while dots[first_in] > PRECISION {
            first_in = self.corners[first_in].neighbor_indices[side];
        }
        (first_in, dots[first_in] >= 0. || -dots[first_in] <= PRECISION)
    }

    fn build(&mut self, paths: &[Vec<u32>]) {
        let mut hull_index = 0;
        while hull_index < self.hull_indices.len() {
            let corner_index = self.hull_indices[hull_index];
            let cost = cheapest(paths, &self.corners[corner_index].coords);
            self.ch_counter += 1;
            self.corners[corner_index].is_checked = true;
            let cost_diff: Vec<i32> = (0..cost.len())
                .map(|i| self.costs[i] as i32 - cost[i] as i32)
                .collect();
            if dot(&cost_diff, &self.corners[corner_index].coords) > PRECISION {
                let mut dots = vec![0.; self.corners.len()];
                let mut new_hull = Vec::new();
                for hi in &self.hull_indices {
                    dots[*hi] = dot(&cost_diff, &self.corners[*hi].coords);
                    if dots[*hi] <= PRECISION {
                        new_hull.push(*hi);
                    }
                }
                self.constraints.push(cost_diff);
                let newest = self.constraints.len() - 1;
                let count = self.corners.len();
                let index_right;
                match self.first_in(corner_index, &dots, 0) {
                    (reused, true) => index_right = reused,
                    (first_in, false) => {
                        index_right = count;
                        let out = self.corners[first_in].neighbor_indices[1];
                        let p = dots[out] / (dots[out] - dots[first_in]);
                        let coords = (0..3)
                            .map(|i| {
                                p * self.corners[first_in].coords[i]
                                    + (1. - p) * self.corners[out].coords[i]
                            })
                            .collect();
                        let corner = PlainCorner {
                            coords,
                            is_checked: false,
                            neighbor_indices: vec![first_in, usize::MAX],
                            constraint_indices: vec![self.corners[first_in].constraint_indices[1], newest],
                        };
                        self.corners[first_in].neighbor_indices[1] = index_right;
                        self.corners.push(corner);
                        new_hull.push(index_right);
                    }
                }
                let index_left;
                match self.first_in(corner_index, &dots, 1) {
                    (reused, true) => index_left = reused,
                    (first_in, false) => {
                        index_left = self.corners.len();
                        let out = self.corners[first_in].neighbor_indices[0];
                        let p = dots[out] / (dots[out] - dots[first_in]);
                        let coords = (0..3)
                            .map(|i| {
                                p * self.corners[first_in].coords[i]
                                    + (1. - p) * self.corners[out].coords[i]
                            })
                            .collect();
                        let corner = PlainCorner {
                            coords,
                            is_checked: false,
                            neighbor_indices: vec![usize::MAX, first_in],
                            constraint_indices: vec![newest, self.corners[first_in].constraint_indices[0]],
                        };
                        self.corners[first_in].neighbor_indices[0] = index_left;
                        self.corners.push(corner);
                        new_hull.push(index_left);
                    }
                }
                self.corners[index_left].neighbor_indices[0] = index_right;
                self.corners[index_left].constraint_indices[0] = newest;
                self.corners[index_right].neighbor_indices[1] = index_left;
                self.corners[index_right].constraint_indices[1] = newest;
                self.hull_indices = new_hull;
            }
            hull_index = 0;
            while hull_index < self.hull_indices.len()
                && self.corners[self.hull_indices[hull_index]].is_checked
            {
                hull_index += 1;
            }
        }
    }
}

/// Small numbers that look random and are the same in every run.
struct Numbers(u64);

impl Numbers {
    fn next(&mut self, below: u32) -> u32 {
        self.0 = self.0.wrapping_mul(6364136223846793005).wrapping_add(1442695040888963407);
        ((self.0 >> 33) % below as u64) as u32
    }
}

#[test]
fn region_matches_direct_construction() {
    let mut numbers = Numbers(20210819);
    let mut cuts = 0;
    for _ in 0..300 {
        let count = 2 + numbers.next(6) as usize;
        let paths: Vec<Vec<u32>> = (0..count)
            .map(|_| (0..3).map(|_| numbers.next(40)).collect())
            .collect();
        for own in &paths {
            // only paths that are optimal somewhere have a region
            let somewhere = [[1., 0., 0.], [0., 1., 0.], [0., 0., 1.], [0.4, 0.3, 0.3]]
                .iter()
                .any(|alpha| {
                    let mine: f64 = own.iter().zip(alpha).map(|(c, a)| *c as f64 * a).sum();
                    let best = cheapest(&paths, alpha);
                    let least: f64 = best.iter().zip(alpha).map(|(c, a)| *c as f64 * a).sum();
                    mine <= least + PRECISION
                });
            if !somewhere {
                continue;
            }
            let mut direct = PlainRegion::new(own.clone());
            direct.build(&paths);
            let (calc, coords) = build_region(&paths, own.clone());
            assert_eq!(calc.hull_indices(), &direct.hull_indices);
            assert_eq!(calc.constraints(), &direct.constraints);
            assert_eq!(calc.ch_counter(), direct.ch_counter);
            assert_eq!(calc.corner_count(), direct.corners.len());
            cuts += direct.constraints.len() - 3;
            for (i, plain) in direct.corners.iter().enumerate() {
                let corner = calc.corner(i);
                assert_eq!(corner.is_checked, plain.is_checked);
                assert_eq!(vec![corner.left, corner.right], plain.neighbor_indices);
                assert_eq!(
                    vec![corner.left_constraint, corner.right_constraint],
                    plain.constraint_indices
                );
                assert_eq!(coords[i], plain.coords);
            }
        }
    }
    assert!(cuts > 100);
}

use raytracer::aabb::Aabb;
use raytracer::builder::widest_axis;
use raytracer::bvh::{Bvh, BvhPrimitive};
use raytracer::nearest::get_closest_intersection;
use raytracer::objects::Sphere;
use raytracer::shading::in_shadow;
use raytracer::order::center_order;
use raytracer::scalar::Scalar;
use raytracer::vec3::Vec3;
use std::cmp::Ordering;

fn s(x: f32) -> Scalar {
    Scalar::from_bits(x.to_bits())
}

fn f(x: Scalar) -> f32 {
    f32::from_bits(x.bits)
}

fn v(x: f32, y: f32, z: f32) -> Vec3 {
    Vec3::new(s(x), s(y), s(z))
}

struct Ball {
    c: [f32; 3],
    r: f32,
}

fn ball_box(b: &Ball) -> Aabb {
    Aabb {
        min: v(b.c[0] - b.r, b.c[1] - b.r, b.c[2] - b.r),
        max: v(b.c[0] + b.r, b.c[1] + b.r, b.c[2] + b.r),
    }
}

fn center_of(b: &Aabb) -> Vec3 {
    v(
        (f(b.min.x) + f(b.max.x)) * 0.5,
        (f(b.min.y) + f(b.max.y)) * 0.5,
        (f(b.min.z) + f(b.max.z)) * 0.5,
    )
}

fn extent_of(b: Aabb) -> Vec3 {
    v(f(b.max.x) - f(b.min.x), f(b.max.y) - f(b.min.y), f(b.max.z) - f(b.min.z))
}

fn build(balls: &[Ball]) -> Bvh {
    let bounds: Vec<Aabb> = balls.iter().map(ball_box).collect();
    let centers: Vec<Vec3> = bounds.iter().map(center_of).collect();
    Bvh::build(&bounds, &centers, extent_of)
}

fn hit_ball(b: &Ball, o: [f32; 3], d: [f32; 3]) -> Option<Scalar> {
    let oc = [o[0] - b.c[0], o[1] - b.c[1], o[2] - b.c[2]];
    let a = d[0] * d[0] + d[1] * d[1] + d[2] * d[2];
    let h = 2.0 * (oc[0] * d[0] + oc[1] * d[1] + oc[2] * d[2]);
    let c = oc[0] * oc[0] + oc[1] * oc[1] + oc[2] * oc[2] - b.r * b.r;
    let disc = h * h - 4.0 * a * c;
    let near = (-h - disc.sqrt()) / (2.0 * a);
    let far = (-h + disc.sqrt()) / (2.0 * a);
    Sphere::intersect(s(disc), s(near), s(far))
}

fn enter_box(b: &Aabb, o: [f32; 3], d: [f32; 3]) -> Scalar {
    let inv = [1.0 / d[0], 1.0 / d[1], 1.0 / d[2]];
    Aabb::intersect(
        s((f(b.min.x) - o[0]) * inv[0]),
        s((f(b.max.x) - o[0]) * inv[0]),
        s((f(b.min.y) - o[1]) * inv[1]),
        s((f(b.max.y) - o[1]) * inv[1]),
        s((f(b.min.z) - o[2]) * inv[2]),
        s((f(b.max.z) - o[2]) * inv[2]),
    )
}

fn trace(bvh: &Bvh, balls: &[Ball], o: [f32; 3], d: [f32; 3]) -> Option<(usize, Scalar)> {
    bvh.intersect(|i: usize| enter_box(&bvh.nodes[i].aabb, o, d), |j: usize| hit_ball(&balls[j], o, d))
}

fn scan(balls: &[Ball], o: [f32; 3], d: [f32; 3]) -> Option<(usize, Scalar)> {
    get_closest_intersection(balls.len(), |j: usize| hit_ball(&balls[j], o, d))
}

fn cloud() -> Vec<Ball> {
    let mut balls = Vec::new();
    let mut seed: u32 = 12345;
    for _ in 0..40 {
        let mut c = [0.0f32; 3];
        for k in 0..3 {
            seed = seed.wrapping_mul(1664525).wrapping_add(1013904223);
            c[k] = ((seed >> 8) % 2000) as f32 / 100.0 - 10.0;
        }
        seed = seed.wrapping_mul(1664525).wrapping_add(1013904223);
        let r = 0.25 + ((seed >> 8) % 100) as f32 / 100.0;
        balls.push(Ball { c, r });
    }
    balls
}

fn sorted(mut xs: Vec<usize>) -> Vec<usize> {
    xs.sort();
    xs
}

#[test]
fn empty_scene_builds_a_single_root() {
    let bvh = build(&[]);
    assert_eq!(bvh.nodes.len(), 1);
    assert_eq!(bvh.nodes[0].count, 0);
    assert_eq!(bvh.nodes[0].left_first, 0);
    assert_eq!(bvh.nodes[0].aabb, Aabb::empty());
    assert!(bvh.prim_indices.is_empty());
    assert_eq!(trace(&bvh, &[], [0.0, 0.0, 0.0], [0.0, 0.0, 1.0]), None);
}

#[test]
fn single_primitive_builds_a_root_leaf() {
    let balls = [Ball { c: [0.0, 0.0, 0.0], r: 1.0 }];
    let bvh = build(&balls);
    assert_eq!(bvh.nodes.len(), 1);
    assert_eq!(bvh.nodes[0].count, 1);
    assert_eq!(bvh.nodes[0].left_first, 0);
    assert_eq!(bvh.nodes[0].aabb, ball_box(&balls[0]));
    assert_eq!(bvh.prim_indices, vec![0]);
}

#[test]
fn two_primitives_stay_in_one_leaf_in_scene_order() {
    let balls = [Ball { c: [5.0, 0.0, 0.0], r: 1.0 }, Ball { c: [-5.0, 0.0, 0.0], r: 1.0 }];
    let bvh = build(&balls);
    assert_eq!(bvh.nodes.len(), 1);
    assert_eq!(bvh.nodes[0].count, 2);
    assert_eq!(bvh.prim_indices, vec![0, 1]);
    assert_eq!(
        bvh.nodes[0].aabb,
        Aabb { min: v(-6.0, -1.0, -1.0), max: v(6.0, 1.0, 1.0) }
    );
}

#[test]
fn three_primitives_are_sorted_and_halved() {
    let balls = [
        Ball { c: [5.0, 0.0, 0.0], r: 0.5 },
        Ball { c: [1.0, 0.0, 0.0], r: 0.5 },
        Ball { c: [3.0, 0.0, 0.0], r: 0.5 },
    ];
    let bvh = build(&balls);
    assert_eq!(bvh.prim_indices, vec![1, 2, 0]);
    assert_eq!(bvh.nodes.len(), 3);
    assert_eq!((bvh.nodes[0].left_first, bvh.nodes[0].count), (1, 0));
    assert_eq!((bvh.nodes[1].left_first, bvh.nodes[1].count), (0, 1));
    assert_eq!((bvh.nodes[2].left_first, bvh.nodes[2].count), (1, 2));
    assert_eq!(bvh.nodes[0].aabb, Aabb { min: v(0.5, -0.5, -0.5), max: v(5.5, 0.5, 0.5) });
    assert_eq!(bvh.nodes[1].aabb, ball_box(&balls[1]));
    assert_eq!(bvh.nodes[2].aabb, Aabb { min: v(2.5, -0.5, -0.5), max: v(5.5, 0.5, 0.5) });
}

#[test]
fn equal_centres_keep_their_scene_order() {
    let balls = [
        Ball { c: [1.0, 0.0, 0.0], r: 0.5 },
        Ball { c: [0.0, 0.0, 0.0], r: 0.5 },
        Ball { c: [1.0, 0.0, 0.0], r: 0.25 },
        Ball { c: [0.0, 0.0, 0.0], r: 0.25 },
    ];
    let bvh = build(&balls);
    assert_eq!(bvh.prim_indices, vec![1, 3, 0, 2]);
    assert_eq!(bvh.nodes.len(), 3);
    assert_eq!((bvh.nodes[1].left_first, bvh.nodes[1].count), (0, 2));
    assert_eq!((bvh.nodes[2].left_first, bvh.nodes[2].count), (2, 2));
}

#[test]
fn split_follows_the_axis_of_greatest_extent() {
    let balls = [
        Ball { c: [0.0, 9.0, 0.0], r: 0.5 },
        Ball { c: [1.0, -9.0, 0.0], r: 0.5 },
        Ball { c: [2.0, 0.0, 0.0], r: 0.5 },
        Ball { c: [3.0, 3.0, 0.0], r: 0.5 },
        Ball { c: [4.0, -3.0, 0.0], r: 0.5 },
    ];
    let bvh = build(&balls);
    assert_eq!(sorted(bvh.prim_indices.clone()), vec![0, 1, 2, 3, 4]);
    assert_eq!(&bvh.prim_indices[0..2], &[1, 4]);
    assert_eq!(bvh.nodes.len(), 5);
    assert_eq!((bvh.nodes[0].left_first, bvh.nodes[0].count), (1, 0));
    assert_eq!((bvh.nodes[1].left_first, bvh.nodes[1].count), (0, 2));
    assert_eq!((bvh.nodes[2].left_first, bvh.nodes[2].count), (3, 0));
    assert_eq!((bvh.nodes[3].left_first, bvh.nodes[3].count), (2, 1));
    assert_eq!((bvh.nodes[4].left_first, bvh.nodes[4].count), (3, 2));
}

#[test]
fn index_array_is_a_permutation() {
    let balls = cloud();
    let bvh = build(&balls);
    assert_eq!(sorted(bvh.prim_indices.clone()), (0..balls.len()).collect::<Vec<usize>>());
}

#[test]
fn node_boxes_enclose_their_primitives() {
    let balls = cloud();
    let bvh = build(&balls);
    let mut seen = vec![false; balls.len()];
    for node in bvh.nodes.iter() {
        if node.count > 0 {
            let mut joined = Aabb::empty();
            for k in 0..node.count as usize {
                let j = bvh.prim_indices[node.left_first as usize + k];
                assert!(!seen[j]);
                seen[j] = true;
                joined = joined.union(&ball_box(&balls[j]));
            }
            assert_eq!(node.aabb, joined);
            assert!(node.count <= 2);
        } else {
            let l = &bvh.nodes[node.left_first as usize];
            let r = &bvh.nodes[node.left_first as usize + 1];
            assert_eq!(node.aabb, l.aabb.union(&r.aabb));
        }
    }
    assert!(seen.iter().all(|x| *x));
}

#[test]
fn rebuilding_gives_the_same_tree() {
    let balls = cloud();
    let a = build(&balls);
    let b = build(&balls);
    assert_eq!(a.prim_indices, b.prim_indices);
    assert_eq!(a.nodes.len(), b.nodes.len());
    for k in 0..a.nodes.len() {
        assert_eq!(a.nodes[k].aabb, b.nodes[k].aabb);
        assert_eq!(a.nodes[k].left_first, b.nodes[k].left_first);
        assert_eq!(a.nodes[k].count, b.nodes[k].count);
    }
}

#[test]
fn traversal_agrees_with_the_scan_of_all_objects() {
    let balls = cloud();
    let bvh = build(&balls);
    let mut hits = 0;
    for a in 0..24 {
        for b in 0..24 {
            let o = [-15.0, a as f32 - 12.0, b as f32 - 12.0];
            let d = [1.0, (b as f32 - 12.0) * 0.02, (a as f32 - 12.0) * 0.02];
            let fast = trace(&bvh, &balls, o, d);
            let slow = scan(&balls, o, d);
            assert_eq!(fast.is_some(), slow.is_some());
            if let (Some((_, t)), Some((_, u))) = (fast, slow) {
                assert_eq!(f(t), f(u));
                hits += 1;
            }
        }
    }
    assert!(hits > 50);
}

#[test]
fn traversal_agrees_for_axis_parallel_rays() {
    let balls = cloud();
    let bvh = build(&balls);
    for a in 0..20 {
        for b in 0..20 {
            let o = [a as f32 - 10.0, 30.0, b as f32 - 10.0];
            let d = [0.0, -1.0, 0.0];
            let fast = trace(&bvh, &balls, o, d);
            let slow = scan(&balls, o, d);
            assert_eq!(fast.map(|h| f(h.1)), slow.map(|h| f(h.1)));
        }
    }
}

#[test]
fn ray_at_a_sphere_centre_hits_at_distance_minus_radius() {
    let balls = [Ball { c: [0.0, 0.0, 0.0], r: 1.0 }, Ball { c: [0.0, 0.0, -4.0], r: 1.0 }];
    let bvh = build(&balls);
    let got = trace(&bvh, &balls, [0.0, 0.0, 6.0], [0.0, 0.0, -1.0]);
    assert_eq!(got, Some((0, s(5.0))));
    assert_eq!(scan(&balls, [0.0, 0.0, 6.0], [0.0, 0.0, -1.0]), Some((0, s(5.0))));
}

#[test]
fn nearest_of_many_is_found_behind_farther_boxes() {
    let mut balls = Vec::new();
    for k in 0..9 {
        balls.push(Ball { c: [0.0, 0.0, -3.0 * k as f32], r: 1.0 });
    }
    let bvh = build(&balls);
    let got = trace(&bvh, &balls, [0.0, 0.0, 10.0], [0.0, 0.0, -1.0]);
    assert_eq!(got, Some((0, s(9.0))));
    let back = trace(&bvh, &balls, [0.0, 0.0, -40.0], [0.0, 0.0, 1.0]);
    assert_eq!(back, Some((8, s(15.0))));
}

#[test]
fn a_ray_that_misses_everything_finds_nothing() {
    let balls = cloud();
    let bvh = build(&balls);
    assert_eq!(trace(&bvh, &balls, [0.0, 50.0, 0.0], [0.0, 1.0, 0.0]), None);
    assert_eq!(scan(&balls, [0.0, 50.0, 0.0], [0.0, 1.0, 0.0]), None);
}

#[test]
fn scan_keeps_the_first_of_equal_hits() {
    let table = [None, Some(s(4.0)), Some(s(2.0)), Some(s(2.0)), Some(s(3.0))];
    assert_eq!(get_closest_intersection(table.len(), |j: usize| table[j]), Some((2, s(2.0))));
}

#[test]
fn scan_ignores_hits_that_are_not_numbers_or_out_of_reach() {
    let table = [Some(s(f32::NAN)), Some(s(f32::MAX)), Some(s(f32::INFINITY))];
    assert_eq!(get_closest_intersection(table.len(), |j: usize| table[j]), None);
    assert_eq!(get_closest_intersection(0, |_j: usize| Some(s(1.0))), None);
}

#[test]
fn centres_compare_along_the_axis() {
    let a = BvhPrimitive { index: 0, aabb: Aabb::empty(), center: v(1.0, 5.0, f32::NAN) };
    let b = BvhPrimitive { index: 1, aabb: Aabb::empty(), center: v(2.0, 5.0, 0.0) };
    assert_eq!(center_order(&a, &b, 0), Ordering::Less);
    assert_eq!(center_order(&b, &a, 0), Ordering::Greater);
    assert_eq!(center_order(&a, &b, 1), Ordering::Equal);
    assert_eq!(center_order(&a, &b, 2), Ordering::Equal);
}

fn shadowed(balls: &[Ball], point: [f32; 3], light: [f32; 3]) -> bool {
    let bvh = build(balls);
    let to_light = [light[0] - point[0], light[1] - point[1], light[2] - point[2]];
    let dist_sq = to_light[0] * to_light[0] + to_light[1] * to_light[1] + to_light[2] * to_light[2];
    let dist = dist_sq.sqrt();
    let dir = [to_light[0] / dist, to_light[1] / dist, to_light[2] / dist];
    match trace(&bvh, balls, point, dir) {
        Some((_, t)) => in_shadow(s(f(t) * f(t)), s(0.0), s(dist_sq)),
        None => false,
    }
}

#[test]
fn an_occluder_between_point_and_light_shadows_the_point() {
    let floor = Ball { c: [0.0, -100.0, 0.0], r: 99.0 };
    let occluder = Ball { c: [0.0, 2.5, 0.0], r: 0.5 };
    assert!(shadowed(&[floor, occluder], [0.0, 0.0, 0.0], [0.0, 5.0, 0.0]));
    let floor = Ball { c: [0.0, -100.0, 0.0], r: 99.0 };
    assert!(!shadowed(&[floor], [0.0, 0.0, 0.0], [0.0, 5.0, 0.0]));
}

#[test]
fn a_sphere_behind_the_light_casts_no_shadow() {
    let behind = Ball { c: [0.0, 8.0, 0.0], r: 0.5 };
    assert!(!shadowed(&[behind], [0.0, 0.0, 0.0], [0.0, 5.0, 0.0]));
}

#[test]
fn try_build_refuses_what_build_does_not_take() {
    let b = Aabb { min: v(0.0, 0.0, 0.0), max: v(1.0, 1.0, 1.0) };
    let c = v(0.5, 0.5, 0.5);
    assert!(Bvh::try_build(&vec![b, b], &vec![c], extent_of).is_none());
    assert!(Bvh::try_build(&vec![b, b, b], &vec![c, v(0.5, f32::NAN, 0.5), c], extent_of).is_none());
    assert!(Bvh::try_build(&vec![], &vec![], extent_of).is_some());
    let built = Bvh::try_build(&vec![b], &vec![c], extent_of);
    assert_eq!(built.map(|t| t.prim_indices), Some(vec![0]));
    let sorted = Bvh::try_build(&vec![b, b, b], &vec![c, c, c], extent_of);
    assert_eq!(sorted.map(|t| t.prim_indices), Some(vec![0, 1, 2]));
}

#[test]
fn a_leaf_is_built_whatever_its_centres_are() {
    let b = Aabb { min: v(0.0, 0.0, 0.0), max: v(1.0, 1.0, 1.0) };
    let nan = v(f32::NAN, f32::NAN, f32::NAN);
    let one = Bvh::try_build(&vec![b], &vec![nan], extent_of).expect("one object");
    assert_eq!(one.prim_indices, vec![0]);
    assert_eq!((one.nodes.len(), one.nodes[0].count), (1, 1));
    let two = Bvh::try_build(&vec![b, b], &vec![nan, v(0.5, f32::NAN, 0.5)], extent_of)
        .expect("two objects");
    assert_eq!(two.prim_indices, vec![0, 1]);
    assert_eq!((two.nodes.len(), two.nodes[0].count), (1, 2));
    assert_eq!(two.nodes[0].aabb, b);
}

#[test]
fn three_primitives_are_sorted_along_the_widest_axis() {
    let balls = [
        Ball { c: [1.0, 0.0, 5.0], r: 1.0 },
        Ball { c: [0.0, 0.0, 10.0], r: 1.0 },
        Ball { c: [2.0, 0.0, 0.0], r: 1.0 },
    ];
    let bvh = build(&balls);
    assert_eq!(bvh.nodes.len(), 3);
    assert_eq!(bvh.prim_indices, vec![2, 0, 1]);
    assert_eq!(bvh.nodes[0].aabb, Aabb { min: v(-1.0, -1.0, -1.0), max: v(3.0, 1.0, 11.0) });
    assert_eq!((bvh.nodes[0].left_first, bvh.nodes[0].count), (1, 0));
    assert_eq!(bvh.nodes[1].aabb, Aabb { min: v(1.0, -1.0, -1.0), max: v(3.0, 1.0, 1.0) });
    assert_eq!((bvh.nodes[1].left_first, bvh.nodes[1].count), (0, 1));
    assert_eq!(bvh.nodes[2].aabb, Aabb { min: v(-1.0, -1.0, 4.0), max: v(2.0, 1.0, 11.0) });
    assert_eq!((bvh.nodes[2].left_first, bvh.nodes[2].count), (1, 2));
}

#[test]
fn spheres_in_a_row_along_z_are_sorted_along_z() {
    let balls = [
        Ball { c: [0.0, 0.0, 10.0], r: 1.0 },
        Ball { c: [0.0, 0.0, -10.0], r: 1.0 },
        Ball { c: [0.0, 0.0, 5.0], r: 1.0 },
        Ball { c: [0.0, 0.0, 20.0], r: 1.0 },
    ];
    assert_eq!(build(&balls).prim_indices, vec![1, 2, 0, 3]);
}

fn check_split(bvh: &Bvh, balls: &[Ball], node: usize, start: usize, count: usize) -> usize {
    let n = &bvh.nodes[node];
    if count <= 2 {
        assert_eq!((n.left_first as usize, n.count as usize), (start, count));
        return 0;
    }
    assert_eq!(n.count, 0);
    let axis = widest_axis(extent_of(n.aabb)) as usize;
    let mid = count / 2;
    for a in start..start + mid {
        for b in start + mid..start + count {
            assert!(balls[bvh.prim_indices[a]].c[axis] <= balls[bvh.prim_indices[b]].c[axis]);
        }
    }
    let left = n.left_first as usize;
    1 + check_split(bvh, balls, left, start, mid)
        + check_split(bvh, balls, left + 1, start + mid, count - mid)
}

#[test]
fn halves_of_a_split_are_ordered_along_the_widest_axis() {
    let balls = cloud();
    let bvh = build(&balls);
    let splits = check_split(&bvh, &balls, 0, 0, balls.len());
    assert_eq!(2 * splits + 1, bvh.nodes.len());
    assert!(splits >= 15);
}

#[test]
fn widest_axis_is_that_of_greatest_extent() {
    assert_eq!(widest_axis(v(4.0, 2.0, 12.0)), 2);
    assert_eq!(widest_axis(v(12.0, 2.0, 4.0)), 0);
    assert_eq!(widest_axis(v(4.0, 12.0, 2.0)), 1);
    assert_eq!(widest_axis(v(5.0, 5.0, 1.0)), 1);
    assert_eq!(widest_axis(v(5.0, 1.0, 5.0)), 2);
    assert_eq!(widest_axis(v(1.0, 5.0, 5.0)), 2);
    assert_eq!(widest_axis(v(3.0, 3.0, 3.0)), 2);
    assert_eq!(widest_axis(v(f32::NAN, 1.0, 0.0)), 1);
    assert_eq!(widest_axis(v(f32::NAN, f32::NAN, f32::NAN)), 2);
    assert_eq!(widest_axis(v(f32::NEG_INFINITY, f32::NEG_INFINITY, f32::NEG_INFINITY)), 2);
}

#[test]
fn a_ray_from_inside_a_sphere_hits_it_at_the_far_root() {
    let balls = [Ball { c: [0.0, 0.0, 0.0], r: 1.0 }];
    let bvh = build(&balls);
    assert_eq!(trace(&bvh, &balls, [0.0, 0.0, 0.0], [0.0, 0.0, 1.0]), Some((0, s(1.0))));
    assert_eq!(scan(&balls, [0.0, 0.0, 0.0], [0.0, 0.0, 1.0]), Some((0, s(1.0))));
    assert_eq!(trace(&bvh, &balls, [0.0, 0.5, 0.0], [0.0, -1.0, 0.0]), Some((0, s(1.5))));
}

#[test]
fn the_nearest_hit_does_not_depend_on_the_order_of_the_scene() {
    let balls = cloud();
    let mut turned = cloud();
    turned.reverse();
    turned.swap(3, 17);
    let a = build(&balls);
    let b = build(&turned);
    for i in 0..24 {
        for j in 0..24 {
            let o = [i as f32 - 12.0, j as f32 - 12.0, 15.0];
            let d = [(j as f32 - 12.0) * 0.02, (i as f32 - 12.0) * 0.02, -1.0];
            let one = trace(&a, &balls, o, d);
            let other = trace(&b, &turned, o, d);
            assert_eq!(one.map(|h| f(h.1)), other.map(|h| f(h.1)));
        }
    }
}

use pathtracer::image_writer::Image;
use pathtracer::axis::{arbitrary_orthogonal, longest_axis, Axis};
use pathtracer::coverage::{CoverageError, PixelCoverage};
use pathtracer::scene::{Scene, SceneError};
use pathtracer::schedule::{work_items, worker_count, WorkItem};
use pathtracer::settings::RenderSettings;
use pathtracer::transport::next_bounce_depth;
use pathtracer::tree::{
    build_tree_node, intersect_tree_node, join_halves, min_key, replaces_nearest, visit_order,
    ShapeHit, SlabCrossing, TreeBox, TreeBuildError, TreeNode, TreeShape, Visit, LEAF_CAPACITY,
};

/// An interval of a line, standing for a box.
#[derive(Clone, Copy, Debug, PartialEq)]
struct Span {
    lo: i64,
    hi: i64,
}

/// A ray along the line, from `origin` towards larger values.
struct Probe {
    origin: i64,
}

impl TreeBox for Span {
    type Ray = Probe;

    fn halves(&self) -> (Span, Span) {
        self.split_by_longest_axis()
    }

    fn too_small(&self, min_shape_diagonal: i64) -> bool {
        self.too_small_to_split(min_shape_diagonal)
    }

    fn crossing(&self, ray: Probe) -> SlabCrossing {
        self.intersects_ray(&ray)
    }

    fn split_by_longest_axis(&self) -> (Span, Span) {
        let middle = self.lo + (self.hi - self.lo) / 2;
        (Span { lo: self.lo, hi: middle }, Span { lo: middle, hi: self.hi })
    }

    fn too_small_to_split(&self, min_shape_diagonal: i64) -> bool {
        (self.hi - self.lo) * 4 < min_shape_diagonal || min_shape_diagonal < 1
    }

    fn intersects_ray(&self, ray: &Probe) -> SlabCrossing {
        let tmin = self.lo - ray.origin;
        let tmax = self.hi - ray.origin;
        SlabCrossing { tmin, tmax, ok: tmax >= 0 && tmin <= tmax }
    }
}

/// A segment of the line; a probe hits it where it starts.
struct Segment {
    lo: i64,
    hi: i64,
}

impl TreeShape<Span> for Segment {
    type Hit = i64;

    fn overlaps(&self, aabb: Span) -> bool {
        self.intersects_aabb(&aabb)
    }

    fn hit_at(&self, ray: Probe) -> Option<ShapeHit<i64>> {
        TreeShape::<Span>::intersect_ray(self, &ray)
    }

    fn intersects_aabb(&self, aabb: &Span) -> bool {
        self.lo <= aabb.hi && self.hi >= aabb.lo
    }

    fn diagonal_key(&self) -> i64 {
        TreeShape::<Span>::diagonal(self)
    }

    fn diagonal(&self) -> i64 {
        self.hi - self.lo
    }

    fn intersect_ray(&self, ray: &Probe) -> Option<ShapeHit<i64>> {
        if ray.origin <= self.lo {
            Some(ShapeHit { distance: self.lo - ray.origin, hit: self.lo })
        } else {
            None
        }
    }
}

/// A box whose halves lie elsewhere: every shape is lost when it splits.
#[derive(Clone, Copy)]
struct Drifting {
    lo: i64,
    hi: i64,
}

impl TreeBox for Drifting {
    type Ray = Probe;

    fn halves(&self) -> (Drifting, Drifting) {
        self.split_by_longest_axis()
    }

    fn too_small(&self, min_shape_diagonal: i64) -> bool {
        self.too_small_to_split(min_shape_diagonal)
    }

    fn crossing(&self, ray: Probe) -> SlabCrossing {
        self.intersects_ray(&ray)
    }

    fn split_by_longest_axis(&self) -> (Drifting, Drifting) {
        (Drifting { lo: 1000, hi: 1001 }, Drifting { lo: 2000, hi: 2001 })
    }

    fn too_small_to_split(&self, _min_shape_diagonal: i64) -> bool {
        false
    }

    fn intersects_ray(&self, _ray: &Probe) -> SlabCrossing {
        SlabCrossing { tmin: 0, tmax: 0, ok: false }
    }
}

impl TreeShape<Drifting> for Segment {
    type Hit = i64;

    fn overlaps(&self, aabb: Drifting) -> bool {
        self.intersects_aabb(&aabb)
    }

    fn hit_at(&self, ray: Probe) -> Option<ShapeHit<i64>> {
        TreeShape::<Drifting>::intersect_ray(self, &ray)
    }

    fn intersects_aabb(&self, aabb: &Drifting) -> bool {
        self.lo <= aabb.hi && self.hi >= aabb.lo
    }

    fn diagonal_key(&self) -> i64 {
        TreeShape::<Drifting>::diagonal(self)
    }

    fn diagonal(&self) -> i64 {
        self.hi - self.lo
    }

    fn intersect_ray(&self, _ray: &Probe) -> Option<ShapeHit<i64>> {
        None
    }
}

fn segments() -> Vec<Segment> {
    (0..8).map(|i| Segment { lo: i * 10, hi: i * 10 + 5 }).collect()
}

fn leaves_within_capacity(node: &TreeNode<Span>) -> bool {
    match node {
        TreeNode::Leaf { shape_indexes, .. } => !shape_indexes.is_empty(),
        TreeNode::Branch { left, right, .. } => {
            leaves_within_capacity(left) && leaves_within_capacity(right)
        }
    }
}

#[test]
fn it_works() {
    assert_eq!(2 + 2, 4);
}

#[test]
fn tree_finds_each_shape_from_its_start() {
    let shapes = segments();
    let all: Vec<usize> = (0..shapes.len()).collect();
    let tree = build_tree_node(&shapes, &all, Span { lo: 0, hi: 80 }).unwrap().unwrap();
    assert!(leaves_within_capacity(&tree));
    for (i, s) in shapes.iter().enumerate() {
        let found = intersect_tree_node(&shapes, &tree, &Probe { origin: s.lo }).unwrap();
        assert_eq!(found.nearest_shape_index, i);
        assert_eq!(found.hit, s.lo);
    }
}

#[test]
fn tree_returns_nearest_shape() {
    let shapes = segments();
    let all: Vec<usize> = (0..shapes.len()).collect();
    let tree = build_tree_node(&shapes, &all, Span { lo: 0, hi: 80 }).unwrap().unwrap();
    let found = intersect_tree_node(&shapes, &tree, &Probe { origin: 31 }).unwrap();
    assert_eq!(found.nearest_shape_index, 4);
    assert_eq!(found.hit, 40);
    assert!(intersect_tree_node(&shapes, &tree, &Probe { origin: 71 }).is_none());
}

#[test]
fn tree_with_few_shapes_is_one_leaf() {
    let shapes = segments();
    let some = vec![2, 5, 7];
    let tree = build_tree_node(&shapes, &some, Span { lo: 0, hi: 80 }).unwrap().unwrap();
    match tree {
        TreeNode::Leaf { shape_indexes, aabb } => {
            assert_eq!(shape_indexes, vec![2, 5, 7]);
            assert_eq!(aabb, Span { lo: 0, hi: 80 });
        }
        TreeNode::Branch { .. } => panic!("expected a leaf"),
    }
    assert_eq!(LEAF_CAPACITY, 3);
}

#[test]
fn tree_over_no_overlapping_shape_is_empty() {
    let shapes = segments();
    let all: Vec<usize> = (0..shapes.len()).collect();
    assert!(build_tree_node(&shapes, &all, Span { lo: 200, hi: 300 }).unwrap().is_none());
    assert!(build_tree_node(&shapes, &vec![], Span { lo: 0, hi: 80 }).unwrap().is_none());
}

#[test]
fn tree_build_reports_lost_shapes() {
    let shapes = segments();
    let all: Vec<usize> = (0..shapes.len()).collect();
    let r = build_tree_node(&shapes, &all, Drifting { lo: 0, hi: 80 });
    assert!(matches!(r, Err(TreeBuildError::ShapesDropped)));
}

#[test]
fn halves_join_into_branch_or_single_child() {
    let l = TreeNode::Leaf { aabb: Span { lo: 0, hi: 1 }, shape_indexes: vec![0] };
    let r = TreeNode::Leaf { aabb: Span { lo: 1, hi: 2 }, shape_indexes: vec![1] };
    let both = join_halves(Span { lo: 0, hi: 2 }, Some(l), Some(r)).unwrap();
    assert!(matches!(both, TreeNode::Branch { aabb: Span { lo: 0, hi: 2 }, .. }));
    let l = TreeNode::Leaf { aabb: Span { lo: 0, hi: 1 }, shape_indexes: vec![0] };
    match join_halves(Span { lo: 0, hi: 2 }, Some(l), None).unwrap() {
        TreeNode::Leaf { aabb, shape_indexes } => {
            assert_eq!(aabb, Span { lo: 0, hi: 1 });
            assert_eq!(shape_indexes, vec![0]);
        }
        TreeNode::Branch { .. } => panic!("expected the left leaf"),
    }
    let r = TreeNode::Leaf { aabb: Span { lo: 1, hi: 2 }, shape_indexes: vec![1] };
    match join_halves(Span { lo: 0, hi: 2 }, None, Some(r)).unwrap() {
        TreeNode::Leaf { shape_indexes, .. } => assert_eq!(shape_indexes, vec![1]),
        TreeNode::Branch { .. } => panic!("expected the right leaf"),
    }
    let none: Option<TreeNode<Span>> = None;
    assert!(matches!(
        join_halves(Span { lo: 0, hi: 2 }, none, None),
        Err(TreeBuildError::ShapesDropped)
    ));
}

#[test]
fn nearer_box_is_visited_first() {
    let near = SlabCrossing { tmin: -3, tmax: 4, ok: true };
    let far = SlabCrossing { tmin: 2, tmax: 9, ok: true };
    let missed = SlabCrossing { tmin: 5, tmax: 1, ok: false };
    assert_eq!(visit_order(&near, &far), Visit::LeftThenRight);
    assert_eq!(visit_order(&far, &near), Visit::RightThenLeft);
    assert_eq!(visit_order(&near, &near), Visit::RightThenLeft);
    assert_eq!(visit_order(&near, &missed), Visit::LeftOnly);
    assert_eq!(visit_order(&missed, &far), Visit::RightOnly);
    assert_eq!(visit_order(&missed, &missed), Visit::Neither);
}

#[test]
fn leaf_keeps_nearest_hit_within_its_crossing() {
    let crossing = SlabCrossing { tmin: 2, tmax: 10, ok: true };
    assert!(replaces_nearest(None, 2, &crossing));
    assert!(replaces_nearest(None, 10, &crossing));
    assert!(!replaces_nearest(None, 1, &crossing));
    assert!(!replaces_nearest(None, 11, &crossing));
    assert!(replaces_nearest(Some(7), 7, &crossing));
    assert!(replaces_nearest(Some(7), 3, &crossing));
    assert!(!replaces_nearest(Some(7), 8, &crossing));
}

#[test]
fn smallest_key_is_found() {
    assert_eq!(min_key(&vec![5, -2, 9, -2, 4]), -2);
    assert_eq!(min_key(&vec![7]), 7);
    assert_eq!(min_key(&vec![i64::MAX, i64::MIN]), i64::MIN);
}

#[test]
fn work_queue_lists_pixels_then_one_marker_per_worker() {
    let items = work_items(3, 2, 2);
    let expected = vec![
        WorkItem::Pixel { x_pixel: 0, y_pixel: 0 },
        WorkItem::Pixel { x_pixel: 1, y_pixel: 0 },
        WorkItem::Pixel { x_pixel: 2, y_pixel: 0 },
        WorkItem::Pixel { x_pixel: 0, y_pixel: 1 },
        WorkItem::Pixel { x_pixel: 1, y_pixel: 1 },
        WorkItem::Pixel { x_pixel: 2, y_pixel: 1 },
        WorkItem::Done,
        WorkItem::Done,
    ];
    assert_eq!(items, expected);
    assert_eq!(work_items(0, 5, 3), vec![WorkItem::Done; 3]);
}

#[test]
fn at_least_one_worker() {
    assert!(worker_count() >= 1);
}

#[test]
fn image_writes_one_pixel() {
    let mut image = Image::new(3, 2, 0u32);
    assert_eq!(image.width(), 3);
    assert_eq!(image.height(), 2);
    image.set(2, 1, 7);
    image.set(0, 1, 4);
    assert_eq!(image.get(2, 1), 7);
    assert_eq!(image.get(0, 1), 4);
    assert_eq!(image.colors(), &vec![0, 0, 0, 4, 0, 7]);
}

#[test]
fn no_bounce_left_means_black() {
    assert_eq!(next_bounce_depth(0), None);
    assert_eq!(next_bounce_depth(1), Some(0));
    assert_eq!(next_bounce_depth(5), Some(4));
    // With a depth of one, the material's recursive request has no bounce left.
    assert_eq!(next_bounce_depth(next_bounce_depth(1).unwrap()), None);
}

#[test]
fn orthogonal_axis_is_the_smallest_component() {
    assert_eq!(arbitrary_orthogonal(0, 1, 2), Axis::X);
    assert_eq!(arbitrary_orthogonal(3, -1, 2), Axis::Y);
    assert_eq!(arbitrary_orthogonal(3, 4, 2), Axis::Z);
    assert_eq!(arbitrary_orthogonal(1, 1, 2), Axis::Y);
    assert_eq!(arbitrary_orthogonal(1, 1, 1), Axis::Z);
    assert_eq!(arbitrary_orthogonal(1, 2, 1), Axis::Z);
}

#[test]
fn settings_need_positive_counts() {
    assert!(RenderSettings { bounce_depth: 5, samples_per_ray: 50 }.is_valid());
    assert!(!RenderSettings { bounce_depth: 0, samples_per_ray: 50 }.is_valid());
    assert!(!RenderSettings { bounce_depth: 5, samples_per_ray: 0 }.is_valid());
}

#[test]
fn scene_finds_material_of_hit_shape() {
    let materials = vec!["red", "green"];
    let scene = Scene::new(materials, segments(), vec![0, 1, 0, 1, 0, 1, 0, 1], Span { lo: 0, hi: 80 })
        .unwrap();
    let (t, m) = scene.intersect(&Probe { origin: 25 }).unwrap();
    assert_eq!(t.nearest_shape_index, 3);
    assert_eq!(*m, "green");
    assert!(scene.intersect(&Probe { origin: 75 }).is_none());
}

#[test]
fn scene_rejects_bad_material_map() {
    let r = Scene::new(vec!["red"], segments(), vec![0; 7], Span { lo: 0, hi: 80 });
    assert!(matches!(r, Err(SceneError::MaterialMapLength)));
    let r = Scene::new(vec!["red"], segments(), vec![0, 0, 0, 1, 0, 0, 0, 0], Span { lo: 0, hi: 80 });
    assert!(matches!(r, Err(SceneError::UnknownMaterial)));
    let r = Scene::new(vec!["red"], segments(), vec![0; 8], Span { lo: 500, hi: 600 });
    assert!(matches!(r, Err(SceneError::NoShapes)));
    let r = Scene::new(vec!["red"], segments(), vec![0; 8], Drifting { lo: 0, hi: 80 });
    assert!(matches!(r, Err(SceneError::ShapesDropped)));
}

#[test]
fn split_goes_along_longest_axis() {
    assert_eq!(longest_axis(5, 1, 2), Axis::X);
    assert_eq!(longest_axis(1, 5, 2), Axis::Y);
    assert_eq!(longest_axis(1, 2, 5), Axis::Z);
    assert_eq!(longest_axis(5, 5, 5), Axis::X);
    assert_eq!(longest_axis(1, 5, 5), Axis::Y);
    assert_eq!(longest_axis(5, 1, 5), Axis::X);
}

#[test]
fn coverage_accepts_each_pixel_once() {
    let mut coverage = PixelCoverage::new(2, 2);
    assert_eq!(coverage.remaining(), 4);
    assert!(!coverage.is_complete());
    assert_eq!(coverage.record(1, 0), Ok(()));
    assert_eq!(coverage.record(1, 0), Err(CoverageError::AlreadyWritten));
    assert_eq!(coverage.record(2, 0), Err(CoverageError::OutOfRange));
    assert_eq!(coverage.record(0, 2), Err(CoverageError::OutOfRange));
    assert_eq!(coverage.remaining(), 3);
    assert_eq!(coverage.record(0, 0), Ok(()));
    assert_eq!(coverage.record(0, 1), Ok(()));
    assert!(!coverage.is_complete());
    assert_eq!(coverage.record(1, 1), Ok(()));
    assert_eq!(coverage.remaining(), 0);
    assert!(coverage.is_complete());
}

#[test]
fn empty_image_is_complete_at_once() {
    assert!(PixelCoverage::new(0, 4).is_complete());
}

#[test]
fn shapes_sharing_a_point_stay_in_one_leaf() {
    let shapes: Vec<Segment> = (0..5).map(|_| Segment { lo: 40, hi: 40 }).collect();
    let all: Vec<usize> = (0..shapes.len()).collect();
    match build_tree_node(&shapes, &all, Span { lo: 0, hi: 80 }).unwrap().unwrap() {
        TreeNode::Leaf { shape_indexes, .. } => assert_eq!(shape_indexes, all),
        TreeNode::Branch { .. } => panic!("expected one leaf"),
    }
}

#[test]
fn four_shapes_are_split_into_two_leaves() {
    let shapes: Vec<Segment> = (0..4).map(|i| Segment { lo: i * 20 + 1, hi: i * 20 + 5 }).collect();
    let all: Vec<usize> = (0..shapes.len()).collect();
    match build_tree_node(&shapes, &all, Span { lo: 0, hi: 80 }).unwrap().unwrap() {
        TreeNode::Branch { aabb, left, right } => {
            assert_eq!(aabb, Span { lo: 0, hi: 80 });
            match (*left, *right) {
                (
                    TreeNode::Leaf { aabb: la, shape_indexes: ls },
                    TreeNode::Leaf { aabb: ra, shape_indexes: rs },
                ) => {
                    assert_eq!(la, Span { lo: 0, hi: 40 });
                    assert_eq!(ls, vec![0, 1]);
                    assert_eq!(ra, Span { lo: 40, hi: 80 });
                    assert_eq!(rs, vec![2, 3]);
                }
                _ => panic!("expected two leaves"),
            }
        }
        TreeNode::Leaf { .. } => panic!("expected a branch"),
    }
}

#[test]
fn hit_outside_leaf_box_is_ignored() {
    // The shape reaches past its leaf's box; a hit beyond the box does not count there.
    let shapes = vec![Segment { lo: 30, hi: 35 }];
    let leaf = TreeNode::Leaf { aabb: Span { lo: 0, hi: 20 }, shape_indexes: vec![0] };
    assert!(intersect_tree_node(&shapes, &leaf, &Probe { origin: 0 }).is_none());
    let wide = TreeNode::Leaf { aabb: Span { lo: 0, hi: 40 }, shape_indexes: vec![0] };
    let found = intersect_tree_node(&shapes, &wide, &Probe { origin: 0 }).unwrap();
    assert_eq!(found.distance, 30);
}

#[test]
fn equal_distances_keep_the_later_shape() {
    let shapes = vec![Segment { lo: 10, hi: 12 }, Segment { lo: 10, hi: 15 }];
    let leaf = TreeNode::Leaf { aabb: Span { lo: 0, hi: 40 }, shape_indexes: vec![0, 1] };
    let found = intersect_tree_node(&shapes, &leaf, &Probe { origin: 0 }).unwrap();
    assert_eq!(found.nearest_shape_index, 1);
    assert_eq!(found.distance, 10);
}

#[test]
fn orthogonal_axis_goes_by_magnitude() {
    // The key of -v is -1 minus the key of v: (0, 0, -1) picks Y, not Z.
    let one: i64 = 100;
    assert_eq!(arbitrary_orthogonal(0, 0, -1 - one), Axis::Y);
    assert_eq!(arbitrary_orthogonal(-1 - one, 5, 7), Axis::Y);
    assert_eq!(arbitrary_orthogonal(-1 - 2, 5, 7), Axis::X);
    assert_eq!(arbitrary_orthogonal(9, -1 - 9, 9), Axis::Z);
}

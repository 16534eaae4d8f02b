use vstd::prelude::*;
use crate::tree::{
    build_tree_node, built_ok, intersect_tree_node, overlapping, query_ok, splits_keep_shapes, TreeBox,
    ShapeHit, TreeBuildError, TreeNode, TreeNodeIntersection, TreeShape,
};

verus! {

/// Why a scene could not be built.
#[derive(Debug, Clone, Copy, PartialEq, Eq, Structural)]
pub enum SceneError {
    /// The shape-to-material map is not as long as the list of shapes.
    MaterialMapLength,
    /// A shape names a material that does not exist.
    UnknownMaterial,
    /// No shape overlaps the scene's box.
    NoShapes,
    /// The tree lost shapes while partitioning the box.
    ShapesDropped,
}

/// Flat arrays of materials and shapes, the material of each shape by index,
/// and the tree over the shapes. Built once, read-only afterwards.
#[verifier::reject_recursive_types(B)]
pub struct Scene<M, S, B> {
    materials: Vec<M>,
    shapes: Vec<S>,
    shape_material_indexes: Vec<usize>,
    tree: TreeNode<B>,
}

/// Every entry of the map names an existing material.
pub open spec fn materials_exist(map: Seq<usize>, n_materials: nat) -> bool {
    forall|k: int| 0 <= k < map.len() ==> #[trigger] map[k] < n_materials
}

/// The indexes `0..n`, in order.
fn all_indexes(n: usize) -> (r: Vec<usize>)
    ensures
        r@ == Seq::new(n as nat, |i: int| i as usize),
{
    let mut r: Vec<usize> = Vec::new();
    let mut i: usize = 0;
    while i < n
        invariant
            i <= n,
            r@ == Seq::new(i as nat, |k: int| k as usize),
        decreases n - i,
    {
        r.push(i);
        assert(r@ =~= Seq::new((i + 1) as nat, |k: int| k as usize));
        i = i + 1;
    }
    r
}

/// Whether every entry of the map is below `n_materials`.
fn materials_in_range(map: &Vec<usize>, n_materials: usize) -> (r: bool)
    ensures
        r == materials_exist(map@, n_materials as nat),
{
    let mut i: usize = 0;
    while i < map.len()
        invariant
            i <= map.len(),
            forall|k: int| 0 <= k < i ==> #[trigger] map@[k] < n_materials,
        decreases map.len() - i,
    {
        if map[i] >= n_materials {
            return false;
        }
        i = i + 1;
    }
    true
}

impl<M, S, B> Scene<M, S, B> {
    /// The map is parallel to the shapes and names existing materials, and
    /// the tree lists only existing shapes.
    pub closed spec fn wf(&self) -> bool {
        &&& self.shape_material_indexes.len() == self.shapes.len()
        &&& materials_exist(self.shape_material_indexes@, self.materials.len() as nat)
        &&& self.tree.wf(self.shapes.len() as nat)
    }

    pub closed spec fn spec_materials(&self) -> Seq<M> {
        self.materials@
    }

    pub closed spec fn spec_shapes(&self) -> Seq<S> {
        self.shapes@
    }

    pub closed spec fn spec_shape_material_indexes(&self) -> Seq<usize> {
        self.shape_material_indexes@
    }

    pub closed spec fn spec_tree(&self) -> TreeNode<B> {
        self.tree
    }
}

impl<M, S: TreeShape<B>, B: TreeBox> Scene<M, S, B> {
    /// Builds the scene and its tree over all shapes, with `aabb` as the
    /// root's box. Fails where the material map does not fit the shapes, or
    /// where the tree holds no shape or lost some.
    pub fn new(
        materials: Vec<M>,
        shapes: Vec<S>,
        shape_material_indexes: Vec<usize>,
        aabb: B,
    ) -> (r: Result<Scene<M, S, B>, SceneError>)
        ensures
            (r == Err::<Scene<M, S, B>, SceneError>(SceneError::MaterialMapLength)) <==> (
            shape_material_indexes.len() != shapes.len()),
            (r == Err::<Scene<M, S, B>, SceneError>(SceneError::UnknownMaterial)) <==> (
            shape_material_indexes.len() == shapes.len() && !materials_exist(
                shape_material_indexes@,
                materials.len() as nat,
            )),
            shape_material_indexes.len() == shapes.len() && materials_exist(
                shape_material_indexes@,
                materials.len() as nat,
            ) && splits_keep_shapes(shapes@) && (exists|i: int|
                0 <= i < shapes.len() && (#[trigger] shapes@[i]).overlaps(aabb)) ==> r is Ok,
            shape_material_indexes.len() == shapes.len() && materials_exist(
                shape_material_indexes@,
                materials.len() as nat,
            ) ==> ((r == Err::<Scene<M, S, B>, SceneError>(SceneError::NoShapes)) <==> (forall|
                i: int,
            | 0 <= i < shapes.len() ==> !(#[trigger] shapes@[i]).overlaps(aabb))),
            r == Err::<Scene<M, S, B>, SceneError>(SceneError::ShapesDropped) ==> !splits_keep_shapes(
                shapes@,
            ),
            r matches Ok(scene) ==> {
                &&& built_ok(
                    shapes@,
                    Seq::new(shapes.len() as nat, |i: int| i as usize),
                    aabb,
                    0,
                    Ok(Some(scene.spec_tree())),
                )
                &&& scene.wf()
                &&& scene.spec_materials() == materials@
                &&& scene.spec_shapes() == shapes@
                &&& scene.spec_shape_material_indexes() == shape_material_indexes@
                &&& forall|i: usize|
                    scene.spec_tree().holds(i) ==> i < shapes.len() && shapes@[i as int].overlaps(
                        aabb,
                    )
                &&& splits_keep_shapes(shapes@) ==> forall|i: usize|
                    i < shapes.len() && shapes@[i as int].overlaps(aabb) ==> scene.spec_tree().holds(
                        i,
                    )
            },
    {
        if shape_material_indexes.len() != shapes.len() {
            return Err(SceneError::MaterialMapLength);
        }
        if !materials_in_range(&shape_material_indexes, materials.len()) {
            return Err(SceneError::UnknownMaterial);
        }
        let candidates = all_indexes(shapes.len());
        assert forall|i: usize| overlapping(shapes@, candidates@, aabb, i) <==> (i < shapes.len()
            && shapes@[i as int].overlaps(aabb)) by {
            if i < shapes.len() {
                assert(candidates@[i as int] == i);
            }
        }
        let ghost all_shapes = shapes@;
        let built = build_tree_node(&shapes, &candidates, aabb);
        proof {
            if built == Ok::<Option<TreeNode<B>>, TreeBuildError>(None) {
                assert forall|i: int| 0 <= i < all_shapes.len() implies !(#[trigger] all_shapes[i]).overlaps(
                    aabb,
                ) by {
                    assert(!overlapping(all_shapes, candidates@, aabb, i as usize));
                }
            }
            if forall|i: int| 0 <= i < all_shapes.len() ==> !(#[trigger] all_shapes[i]).overlaps(aabb) {
                assert forall|i: usize| !overlapping(all_shapes, candidates@, aabb, i) by {
                    if i < all_shapes.len() {
                        assert(!all_shapes[i as int].overlaps(aabb));
                    }
                }
            }
        }
        match built {
            Ok(Some(tree)) => {
                proof {
                    if splits_keep_shapes(all_shapes) {
                        assert forall|i: usize|
                            i < all_shapes.len() && all_shapes[i as int].overlaps(
                                aabb,
                            ) implies tree.holds(i) by {
                            assert(overlapping(all_shapes, candidates@, aabb, i));
                        }
                    }
                }
                Ok(Scene { materials, shapes, shape_material_indexes, tree })
            },
            Ok(None) => Err(SceneError::NoShapes),
            Err(TreeBuildError::ShapesDropped) => Err(SceneError::ShapesDropped),
        }
    }

    /// The first surface the ray meets, with the material of its shape.
    pub fn intersect(&self, ray: &B::Ray) -> (r: Option<(TreeNodeIntersection<S::Hit>, &M)>)
        requires
            self.wf(),
        ensures
            r matches Some((t, m)) ==> {
                &&& t.nearest_shape_index < self.spec_shapes().len()
                &&& self.spec_shapes()[t.nearest_shape_index as int].hit_at(*ray) == Some(
                    ShapeHit { distance: t.distance, hit: t.hit },
                )
                &&& *m == self.spec_materials()[self.spec_shape_material_indexes()[t.nearest_shape_index as int] as int]
            },
            query_ok(
                self.spec_shapes(),
                self.spec_tree(),
                *ray,
                match r {
                    Some((t, _)) => Some((t.nearest_shape_index, t.distance)),
                    None => None,
                },
            ),
    {
        match intersect_tree_node(&self.shapes, &self.tree, ray) {
            Some(t) => {
                let material_index = self.shape_material_indexes[t.nearest_shape_index];
                Some((t, &self.materials[material_index]))
            },
            None => None,
        }
    }
}

} // verus!

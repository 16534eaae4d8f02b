use vstd::prelude::*;

verus! {

/// A leaf holds at most this many shapes before the tree tries to subdivide it.
pub const LEAF_CAPACITY: usize = 3;

/// Subdivision stops at this depth whatever the geometry, which bounds the
/// recursion of the build.
pub const MAX_DEPTH: usize = 256;

/// Where a ray crosses a box: the entry and exit parameters along the ray,
/// as order keys (integers ordered as the parameters they stand for), and
/// whether the ray meets the box at all (`tmin <= tmax`).
#[derive(Clone, Copy)]
pub struct SlabCrossing {
    pub tmin: i64,
    pub tmax: i64,
    pub ok: bool,
}

/// A ray's hit on one shape: the order key of its distance along the ray,
/// and what the shape reports of the hit.
pub struct ShapeHit<H> {
    pub distance: i64,
    pub hit: H,
}

/// The box that a tree node covers. Its methods are functions of their
/// arguments, which the spec functions name.
pub trait TreeBox: Sized {
    type Ray;

    /// The two halves of the box.
    spec fn halves(&self) -> (Self, Self);

    /// Whether the box is too small to split, given the shortest diagonal.
    spec fn too_small(&self, min_shape_diagonal: i64) -> bool;

    /// Where the ray crosses the box.
    spec fn crossing(&self, ray: Self::Ray) -> SlabCrossing;

    /// Splits the box at the midpoint of its longest axis into two halves
    /// that cover the full extent on the other two axes.
    fn split_by_longest_axis(&self) -> (r: (Self, Self))
        ensures
            r == self.halves(),
    ;

    /// Whether the box is already too small to be worth splitting, given the
    /// order key of the shortest bounding diagonal among the shapes it overlaps.
    fn too_small_to_split(&self, min_shape_diagonal: i64) -> (r: bool)
        ensures
            r == self.too_small(min_shape_diagonal),
    ;

    /// Where the ray crosses the box (the slab method).
    fn intersects_ray(&self, ray: &Self::Ray) -> (r: SlabCrossing)
        ensures
            r == self.crossing(*ray),
    ;
}

/// Anything that occupies space: it can be indexed in a tree of boxes and
/// can be intersected by rays. Its methods are functions of their arguments,
/// which the spec functions name.
pub trait TreeShape<B: TreeBox> {
    type Hit;

    /// Whether the shape overlaps the box.
    spec fn overlaps(&self, aabb: B) -> bool;

    /// The order key of the length of the diagonal of the shape's bounding box.
    spec fn diagonal_key(&self) -> i64;

    /// Where the ray first meets the shape, if it does.
    spec fn hit_at(&self, ray: B::Ray) -> Option<ShapeHit<Self::Hit>>;

    /// Whether the shape overlaps the box.
    fn intersects_aabb(&self, aabb: &B) -> (r: bool)
        ensures
            r == self.overlaps(*aabb),
    ;

    /// The order key of the length of the diagonal of the shape's bounding box.
    fn diagonal(&self) -> (r: i64)
        ensures
            r == self.diagonal_key(),
    ;

    /// Where the ray first meets the shape, if it does.
    fn intersect_ray(&self, ray: &B::Ray) -> (r: Option<ShapeHit<Self::Hit>>)
        ensures
            r == self.hit_at(*ray),
    ;
}

/// A node of the tree. A leaf lists the shapes that overlap its box; a
/// branch splits its box between two children.
#[verifier::reject_recursive_types(B)]
pub enum TreeNode<B> {
    Leaf { aabb: B, shape_indexes: Vec<usize> },
    Branch { aabb: B, left: Box<TreeNode<B>>, right: Box<TreeNode<B>> },
}

/// The error of a build that lost shapes: a box held some, yet neither of its
/// halves did.
#[derive(Debug, Clone, Copy, PartialEq, Eq, Structural)]
pub enum TreeBuildError {
    ShapesDropped,
}

impl<B> TreeNode<B> {
    /// Whether a leaf under this node lists the shape.
    pub open spec fn holds(&self, shape_index: usize) -> bool
        decreases self,
    {
        match self {
            TreeNode::Leaf { shape_indexes, .. } => shape_indexes@.contains(shape_index),
            TreeNode::Branch { left, right, .. } => left.holds(shape_index) || right.holds(shape_index),
        }
    }

    /// Every leaf lists at least one shape, and only shapes below `n_shapes`.
    pub open spec fn wf(&self, n_shapes: nat) -> bool
        decreases self,
    {
        match self {
            TreeNode::Leaf { shape_indexes, .. } => {
                &&& shape_indexes.len() >= 1
                &&& forall|k: int| 0 <= k < shape_indexes.len() ==> shape_indexes[k] < n_shapes
            },
            TreeNode::Branch { left, right, .. } => left.wf(n_shapes) && right.wf(n_shapes),
        }
    }

    /// The number of levels below this node.
    pub open spec fn height(&self) -> nat
        decreases self,
    {
        match self {
            TreeNode::Leaf { .. } => 0,
            TreeNode::Branch { left, right, .. } => {
                let l = left.height();
                let r = right.height();
                1 + if l >= r { l } else { r }
            },
        }
    }

    /// The box this node covers.
    pub open spec fn aabb_spec(&self) -> B {
        match self {
            TreeNode::Leaf { aabb, .. } => *aabb,
            TreeNode::Branch { aabb, .. } => *aabb,
        }
    }

    /// The box this node covers.
    pub fn aabb(&self) -> (r: &B)
        ensures
            *r == self.aabb_spec(),
    {
        match self {
            TreeNode::Leaf { aabb, .. } => aabb,
            TreeNode::Branch { aabb, .. } => aabb,
        }
    }
}

/// Puts the two halves of a box back under one node: a branch where both
/// halves hold shapes, the one half that does where only one does, and an
/// error where neither does.
pub fn join_halves<B>(aabb: B, left: Option<TreeNode<B>>, right: Option<TreeNode<B>>) -> (r: Result<
    TreeNode<B>,
    TreeBuildError,
>)
    ensures
        match (left, right) {
            (Some(l), Some(rt)) => r == Ok::<TreeNode<B>, TreeBuildError>(
                TreeNode::Branch { aabb, left: Box::new(l), right: Box::new(rt) },
            ),
            (Some(l), None) => r == Ok::<TreeNode<B>, TreeBuildError>(l),
            (None, Some(rt)) => r == Ok::<TreeNode<B>, TreeBuildError>(rt),
            (None, None) => r == Err::<TreeNode<B>, TreeBuildError>(TreeBuildError::ShapesDropped),
        },
{
    match (left, right) {
        (Some(l), Some(rt)) => Ok(TreeNode::Branch { aabb, left: Box::new(l), right: Box::new(rt) }),
        (Some(l), None) => Ok(l),
        (None, Some(rt)) => Ok(rt),
        (None, None) => Err(TreeBuildError::ShapesDropped),
    }
}

/// The smallest key of a nonempty list.
pub open spec fn is_min_key(keys: Seq<i64>, m: i64) -> bool {
    &&& keys.contains(m)
    &&& forall|k: int| 0 <= k < keys.len() ==> m <= keys[k]
}

/// The smallest of the keys.
pub fn min_key(keys: &Vec<i64>) -> (r: i64)
    requires
        keys.len() >= 1,
    ensures
        is_min_key(keys@, r),
{
    let mut m: i64 = keys[0];
    let ghost mut at: int = 0;
    let mut i: usize = 1;
    while i < keys.len()
        invariant
            1 <= i <= keys.len(),
            0 <= at < i,
            keys[at] == m,
            forall|k: int| 0 <= k < i ==> m <= keys[k],
        decreases keys.len() - i,
    {
        if keys[i] < m {
            m = keys[i];
            proof {
                at = i as int;
            }
        }
        i = i + 1;
    }
    assert(keys@[at] == m);
    m
}

/// Every entry is below `n`.
pub open spec fn all_below(indexes: Seq<usize>, n: nat) -> bool {
    forall|k: int| 0 <= k < indexes.len() ==> #[trigger] indexes[k] < n
}

/// Whether the shape is a candidate that overlaps the box.
pub open spec fn overlapping<B: TreeBox, S: TreeShape<B>>(
    shapes: Seq<S>,
    candidates: Seq<usize>,
    aabb: B,
    shape_index: usize,
) -> bool {
    candidates.contains(shape_index) && shapes[shape_index as int].overlaps(aabb)
}

/// The candidates, in their order, whose shapes overlap the box.
pub open spec fn overlapping_in<B: TreeBox, S: TreeShape<B>>(
    shapes: Seq<S>,
    candidates: Seq<usize>,
    aabb: B,
) -> Seq<usize>
    decreases candidates.len(),
{
    if candidates.len() == 0 {
        seq![]
    } else {
        let before = overlapping_in(shapes, candidates.drop_last(), aabb);
        if shapes[candidates.last() as int].overlaps(aabb) {
            before.push(candidates.last())
        } else {
            before
        }
    }
}

/// Every shape that overlaps a box overlaps one of its halves: splitting
/// loses no shape.
pub open spec fn splits_keep_shapes<B: TreeBox, S: TreeShape<B>>(shapes: Seq<S>) -> bool {
    forall|b: B, i: int|
        0 <= i < shapes.len() && #[trigger] shapes[i].overlaps(b) ==> shapes[i].overlaps(
            b.halves().0,
        ) || shapes[i].overlaps(b.halves().1)
}

/// The candidates, in their order, whose shapes overlap the box.
fn overlapping_shapes<B: TreeBox, S: TreeShape<B>>(
    shapes: &Vec<S>,
    candidates: &Vec<usize>,
    aabb: &B,
) -> (r: Vec<usize>)
    requires
        all_below(candidates@, shapes.len() as nat),
    ensures
        r@ == overlapping_in(shapes@, candidates@, *aabb),
        forall|i: usize| r@.contains(i) <==> overlapping(shapes@, candidates@, *aabb, i),
        all_below(r@, shapes.len() as nat),
        r.len() <= candidates.len(),
{
    let mut kept: Vec<usize> = Vec::new();
    let mut i: usize = 0;
    while i < candidates.len()
        invariant
            i <= candidates.len(),
            kept.len() <= i,
            all_below(candidates@, shapes.len() as nat),
            all_below(kept@, shapes.len() as nat),
            kept@ == overlapping_in(shapes@, candidates@.subrange(0, i as int), *aabb),
            forall|x: usize|
                kept@.contains(x) <==> overlapping(
                    shapes@,
                    candidates@.subrange(0, i as int),
                    *aabb,
                    x,
                ),
        decreases candidates.len() - i,
    {
        let shape_index = candidates[i];
        let keep = shapes[shape_index].intersects_aabb(aabb);
        let ghost before = kept@;
        if keep {
            kept.push(shape_index);
        }
        proof {
            let prev = candidates@.subrange(0, i as int);
            let next = candidates@.subrange(0, i + 1);
            assert(next =~= prev.push(shape_index));
            assert(next.drop_last() =~= prev);
            assert forall|x: usize|
                kept@.contains(x) <==> overlapping(shapes@, next, *aabb, x) by {
                if x == shape_index {
                    assert(next[i as int] == x);
                    if keep {
                        assert(kept@[kept.len() - 1] == x);
                    }
                } else {
                    if kept@.contains(x) {
                        let k = choose|k: int| 0 <= k < kept.len() && kept@[k] == x;
                        if keep {
                            assert(before[k] == x);
                        }
                    }
                    if before.contains(x) {
                        let k = choose|k: int| 0 <= k < before.len() && before[k] == x;
                        assert(kept@[k] == x);
                    }
                    if next.contains(x) {
                        let k = choose|k: int| 0 <= k < next.len() && next[k] == x;
                        assert(prev[k] == x);
                    }
                    if prev.contains(x) {
                        let k = choose|k: int| 0 <= k < prev.len() && prev[k] == x;
                        assert(next[k] == x);
                    }
                }
            }
        }
        i = i + 1;
    }
    assert(candidates@.subrange(0, candidates.len() as int) =~= candidates@);
    kept
}

/// The diagonal keys of the listed shapes, in their order.
pub open spec fn diagonals_of<B: TreeBox, S: TreeShape<B>>(shapes: Seq<S>, indexes: Seq<usize>) -> Seq<
    i64,
> {
    Seq::new(indexes.len(), |k: int| shapes[indexes[k] as int].diagonal_key())
}

/// The smallest of a nonempty list of keys.
pub open spec fn min_of(keys: Seq<i64>) -> i64 {
    choose|m: i64| is_min_key(keys, m)
}

proof fn lemma_min_of(keys: Seq<i64>, m: i64)
    requires
        is_min_key(keys, m),
    ensures
        min_of(keys) == m,
{
    let c = min_of(keys);
    assert(is_min_key(keys, c));
    let j = choose|j: int| 0 <= j < keys.len() && keys[j] == c;
    let k = choose|k: int| 0 <= k < keys.len() && keys[k] == m;
    assert(m <= keys[j] && c <= keys[k]);
}

/// A box holding the shapes `kept` is not split further: few enough shapes,
/// the depth limit reached, or a box too small for its smallest shape.
pub open spec fn stops<B: TreeBox, S: TreeShape<B>>(
    shapes: Seq<S>,
    kept: Seq<usize>,
    aabb: B,
    depth: nat,
) -> bool {
    ||| kept.len() <= LEAF_CAPACITY
    ||| depth >= MAX_DEPTH
    ||| aabb.too_small(min_of(diagonals_of(shapes, kept)))
}

/// What building the subtree for `aabb` from `candidates`, `depth` levels
/// below the root, gives. The candidates that overlap the box are kept; none
/// gives no node; where the box `stops`, a leaf over the box lists them in
/// order; otherwise both halves are built from them, one level down. A
/// failing half fails the build (the left one is built first); two empty
/// halves mean lost shapes; one empty half gives the other half's node; two
/// nodes give a branch over the box.
pub open spec fn built_ok<B: TreeBox, S: TreeShape<B>>(
    shapes: Seq<S>,
    candidates: Seq<usize>,
    aabb: B,
    depth: nat,
    r: Result<Option<TreeNode<B>>, TreeBuildError>,
) -> bool
    decreases MAX_DEPTH - depth,
{
    let kept = overlapping_in(shapes, candidates, aabb);
    let failed = Err::<Option<TreeNode<B>>, TreeBuildError>(TreeBuildError::ShapesDropped);
    let empty = Ok::<Option<TreeNode<B>>, TreeBuildError>(None);
    if kept.len() == 0 {
        r == empty
    } else if kept.len() <= LEAF_CAPACITY || depth >= MAX_DEPTH || aabb.too_small(
        min_of(diagonals_of(shapes, kept)),
    ) {
        r matches Ok(Some(TreeNode::Leaf { aabb: a, shape_indexes: v })) && a == aabb && v@ == kept
    } else {
        let (a, b) = aabb.halves();
        let d = depth + 1;
        if built_ok(shapes, kept, a, d, failed) {
            r == failed
        } else if built_ok(shapes, kept, b, d, failed) {
            r == failed
        } else if built_ok(shapes, kept, a, d, empty) && built_ok(shapes, kept, b, d, empty) {
            r == failed
        } else if built_ok(shapes, kept, a, d, empty) {
            built_ok(shapes, kept, b, d, r)
        } else if built_ok(shapes, kept, b, d, empty) {
            built_ok(shapes, kept, a, d, r)
        } else {
            r matches Ok(Some(TreeNode::Branch { aabb: x, left, right })) && x == aabb && built_ok(
                shapes,
                kept,
                a,
                d,
                Ok(Some(*left)),
            ) && built_ok(shapes, kept, b, d, Ok(Some(*right)))
        }
    }
}

/// Two outcomes of one build agree on whether it failed and on whether it
/// gave no node.
proof fn lemma_built_kind<B: TreeBox, S: TreeShape<B>>(
    shapes: Seq<S>,
    candidates: Seq<usize>,
    aabb: B,
    depth: nat,
    r1: Result<Option<TreeNode<B>>, TreeBuildError>,
    r2: Result<Option<TreeNode<B>>, TreeBuildError>,
)
    requires
        built_ok(shapes, candidates, aabb, depth, r1),
        built_ok(shapes, candidates, aabb, depth, r2),
    ensures
        r1 is Err <==> r2 is Err,
        r1 == Ok::<Option<TreeNode<B>>, TreeBuildError>(None) <==> r2 == Ok::<
            Option<TreeNode<B>>,
            TreeBuildError,
        >(None),
    decreases MAX_DEPTH - depth,
{
    let kept = overlapping_in(shapes, candidates, aabb);
    let failed = Err::<Option<TreeNode<B>>, TreeBuildError>(TreeBuildError::ShapesDropped);
    let empty = Ok::<Option<TreeNode<B>>, TreeBuildError>(None);
    if kept.len() == 0 {
    } else if kept.len() <= LEAF_CAPACITY || depth >= MAX_DEPTH || aabb.too_small(
        min_of(diagonals_of(shapes, kept)),
    ) {
    } else {
        let (a, b) = aabb.halves();
        let d = depth + 1;
        if built_ok(shapes, kept, a, d, failed) {
        } else if built_ok(shapes, kept, b, d, failed) {
        } else if built_ok(shapes, kept, a, d, empty) && built_ok(shapes, kept, b, d, empty) {
        } else if built_ok(shapes, kept, a, d, empty) {
            lemma_built_kind(shapes, kept, b, d, r1, r2);
        } else if built_ok(shapes, kept, b, d, empty) {
            lemma_built_kind(shapes, kept, a, d, r1, r2);
        } else {
        }
    }
}

/// The diagonal keys of the listed shapes, in their order.
fn shape_diagonals<B: TreeBox, S: TreeShape<B>>(shapes: &Vec<S>, indexes: &Vec<usize>) -> (r: Vec<
    i64,
>)
    requires
        all_below(indexes@, shapes.len() as nat),
    ensures
        r@ == diagonals_of(shapes@, indexes@),
{
    let mut diagonals: Vec<i64> = Vec::new();
    let mut i: usize = 0;
    while i < indexes.len()
        invariant
            i <= indexes.len(),
            diagonals@ == diagonals_of(shapes@, indexes@.subrange(0, i as int)),
            all_below(indexes@, shapes.len() as nat),
        decreases indexes.len() - i,
    {
        diagonals.push(shapes[indexes[i]].diagonal());
        assert(diagonals@ =~= diagonals_of(shapes@, indexes@.subrange(0, i + 1)));
        i = i + 1;
    }
    assert(indexes@.subrange(0, indexes.len() as int) =~= indexes@);
    diagonals
}

/// Builds the subtree for `aabb`, `depth` levels below the root.
fn build_at_depth<B: TreeBox, S: TreeShape<B>>(
    shapes: &Vec<S>,
    candidates: &Vec<usize>,
    aabb: B,
    depth: usize,
) -> (r: Result<Option<TreeNode<B>>, TreeBuildError>)
    requires
        depth <= MAX_DEPTH,
        all_below(candidates@, shapes.len() as nat),
    ensures
        built_ok(shapes@, candidates@, aabb, depth as nat, r),
        (r == Ok::<Option<TreeNode<B>>, TreeBuildError>(None)) <==> (forall|i: usize|
            !overlapping(shapes@, candidates@, aabb, i)),
        r matches Ok(Some(node)) ==> {
            &&& node.wf(shapes.len() as nat)
            &&& forall|i: usize| node.holds(i) ==> overlapping(shapes@, candidates@, aabb, i)
            &&& node.height() <= MAX_DEPTH - depth
        },
        splits_keep_shapes(shapes@) ==> r is Ok && forall|i: usize|
            overlapping(shapes@, candidates@, aabb, i) ==> (r matches Ok(Some(node)) && node.holds(i)),
    decreases MAX_DEPTH - depth,
{
    let shape_indexes = overlapping_shapes(shapes, candidates, &aabb);
    if shape_indexes.len() == 0 {
        assert forall|i: usize| !overlapping(shapes@, candidates@, aabb, i) by {
            assert(!shape_indexes@.contains(i));
        }
        return Ok(None);
    }
    assert(shape_indexes@.contains(shape_indexes@[0]));
    if shape_indexes.len() <= LEAF_CAPACITY || depth >= MAX_DEPTH {
        return Ok(Some(TreeNode::Leaf { aabb, shape_indexes }));
    }
    let diagonals = shape_diagonals(shapes, &shape_indexes);
    let min_shape_diagonal = min_key(&diagonals);
    proof {
        lemma_min_of(diagonals@, min_shape_diagonal);
    }
    if aabb.too_small_to_split(min_shape_diagonal) {
        return Ok(Some(TreeNode::Leaf { aabb, shape_indexes }));
    }
    let (a, b) = aabb.split_by_longest_axis();
    let left = build_at_depth(shapes, &shape_indexes, a, depth + 1);
    let left = match left {
        Ok(l) => l,
        Err(e) => return Err(e),
    };
    let right = build_at_depth(shapes, &shape_indexes, b, depth + 1);
    let right = match right {
        Ok(rt) => rt,
        Err(e) => return Err(e),
    };
    proof {
        if splits_keep_shapes(shapes@) {
            let i0 = shape_indexes@[0];
            assert(shapes@[i0 as int].overlaps(aabb));
            assert(overlapping(shapes@, shape_indexes@, a, i0) || overlapping(
                shapes@,
                shape_indexes@,
                b,
                i0,
            ));
            assert forall|i: usize| overlapping(shapes@, candidates@, aabb, i) implies overlapping(
                shapes@,
                shape_indexes@,
                a,
                i,
            ) || overlapping(shapes@, shape_indexes@, b, i) by {
                assert(shape_indexes@.contains(i));
                let k = choose|k: int| 0 <= k < candidates.len() && candidates@[k] == i;
                assert(shapes@[i as int].overlaps(aabb));
            }
        }
    }
    let ghost halves = (left, right);
    proof {
        let failed = Err::<Option<TreeNode<B>>, TreeBuildError>(TreeBuildError::ShapesDropped);
        if built_ok(shapes@, shape_indexes@, a, (depth + 1) as nat, failed) {
            lemma_built_kind(shapes@, shape_indexes@, a, (depth + 1) as nat, failed, Ok(halves.0));
        }
        if built_ok(shapes@, shape_indexes@, b, (depth + 1) as nat, failed) {
            lemma_built_kind(shapes@, shape_indexes@, b, (depth + 1) as nat, failed, Ok(halves.1));
        }
        let empty = Ok::<Option<TreeNode<B>>, TreeBuildError>(None);
        if built_ok(shapes@, shape_indexes@, a, (depth + 1) as nat, empty) {
            lemma_built_kind(shapes@, shape_indexes@, a, (depth + 1) as nat, empty, Ok(halves.0));
        }
        if built_ok(shapes@, shape_indexes@, b, (depth + 1) as nat, empty) {
            lemma_built_kind(shapes@, shape_indexes@, b, (depth + 1) as nat, empty, Ok(halves.1));
        }
    }
    let node = join_halves(aabb, left, right);
    proof {
        if node is Ok {
            let n = node->Ok_0;
            assert forall|i: usize| n.holds(i) implies overlapping(
                shapes@,
                candidates@,
                aabb,
                i,
            ) by {
                if let Some(l) = halves.0 {
                    if l.holds(i) {
                        assert(shape_indexes@.contains(i));
                    }
                }
                if let Some(rt) = halves.1 {
                    if rt.holds(i) {
                        assert(shape_indexes@.contains(i));
                    }
                }
            }
        }
    }
    match node {
        Ok(n) => Ok(Some(n)),
        Err(e) => Err(e),
    }
}

/// Builds a tree over the candidate shapes that overlap `aabb`, the box of
/// the root. The box is split at the midpoint of its longest axis until a
/// part overlaps at most `LEAF_CAPACITY` shapes, is too small for its
/// shapes, or lies `MAX_DEPTH` levels down. The tree holds only candidates
/// that overlap the box; it is empty exactly when none does; and where
/// splitting loses no shape, the build succeeds and holds them all.
pub fn build_tree_node<B: TreeBox, S: TreeShape<B>>(
    shapes: &Vec<S>,
    possible_shape_indexes: &Vec<usize>,
    aabb: B,
) -> (r: Result<Option<TreeNode<B>>, TreeBuildError>)
    requires
        all_below(possible_shape_indexes@, shapes.len() as nat),
    ensures
        built_ok(shapes@, possible_shape_indexes@, aabb, 0, r),
        (r == Ok::<Option<TreeNode<B>>, TreeBuildError>(None)) <==> (forall|i: usize|
            !overlapping(shapes@, possible_shape_indexes@, aabb, i)),
        r matches Ok(Some(node)) ==> {
            &&& node.wf(shapes.len() as nat)
            &&& forall|i: usize|
                node.holds(i) ==> overlapping(shapes@, possible_shape_indexes@, aabb, i)
            &&& node.height() <= MAX_DEPTH
        },
        splits_keep_shapes(shapes@) ==> r is Ok && forall|i: usize|
            overlapping(shapes@, possible_shape_indexes@, aabb, i) ==> (r matches Ok(Some(node))
                && node.holds(i)),
{
    build_at_depth(shapes, possible_shape_indexes, aabb, 0)
}

/// The nearest hit that a query found: what the shape reported, the order key
/// of the distance along the ray, and the index of the shape.
pub struct TreeNodeIntersection<H> {
    pub hit: H,
    pub distance: i64,
    pub nearest_shape_index: usize,
}

/// The children of a branch that a ray visits, and in which order.
#[derive(Debug, Clone, Copy, PartialEq, Eq, Structural)]
pub enum Visit {
    LeftThenRight,
    RightThenLeft,
    LeftOnly,
    RightOnly,
    Neither,
}

/// Both boxes met: the one entered first goes first (the right one on a tie).
/// One box met: that one alone. Neither: no visit.
pub open spec fn visit_for(left: SlabCrossing, right: SlabCrossing) -> Visit {
    if left.ok && right.ok {
        if left.tmin < right.tmin {
            Visit::LeftThenRight
        } else {
            Visit::RightThenLeft
        }
    } else if left.ok {
        Visit::LeftOnly
    } else if right.ok {
        Visit::RightOnly
    } else {
        Visit::Neither
    }
}

/// The order in which a ray visits a branch's children, from where it
/// crosses their boxes.
pub fn visit_order(left: &SlabCrossing, right: &SlabCrossing) -> (r: Visit)
    ensures
        r == visit_for(*left, *right),
{
    if left.ok && right.ok {
        if left.tmin < right.tmin {
            Visit::LeftThenRight
        } else {
            Visit::RightThenLeft
        }
    } else if left.ok {
        Visit::LeftOnly
    } else if right.ok {
        Visit::RightOnly
    } else {
        Visit::Neither
    }
}

/// A hit counts in a leaf when it lies within the leaf's own crossing, and
/// replaces the nearest so far when it is no farther.
pub open spec fn replaces(nearest: Option<i64>, distance: i64, crossing: SlabCrossing) -> bool {
    &&& crossing.tmin <= distance <= crossing.tmax
    &&& nearest matches Some(n) ==> distance <= n
}

/// Whether a hit at `distance` replaces the nearest hit found so far in a leaf.
pub fn replaces_nearest(nearest: Option<i64>, distance: i64, crossing: &SlabCrossing) -> (r: bool)
    ensures
        r == replaces(nearest, distance, *crossing),
{
    if distance < crossing.tmin || distance > crossing.tmax {
        return false;
    }
    match nearest {
        Some(n) => distance <= n,
        None => true,
    }
}

/// The distance of the shape's hit where it lies within the leaf's crossing.
pub open spec fn leaf_hit<B: TreeBox, S: TreeShape<B>>(
    shape: S,
    ray: B::Ray,
    crossing: SlabCrossing,
) -> Option<i64> {
    match shape.hit_at(ray) {
        Some(h) => if crossing.tmin <= h.distance <= crossing.tmax {
            Some(h.distance)
        } else {
            None
        },
        None => None,
    }
}

/// What a leaf answers: `None` where none of its shapes has a hit within its
/// crossing, and otherwise one of its shapes with such a hit that no other
/// such hit is nearer.
pub open spec fn nearest_in_leaf_ok<B: TreeBox, S: TreeShape<B>>(
    shapes: Seq<S>,
    shape_indexes: Seq<usize>,
    ray: B::Ray,
    crossing: SlabCrossing,
    found: Option<(usize, i64)>,
) -> bool {
    match found {
        None => forall|k: int|
            0 <= k < shape_indexes.len() ==> leaf_hit(
                shapes[#[trigger] shape_indexes[k] as int],
                ray,
                crossing,
            ) is None,
        Some((shape_index, distance)) => {
            &&& shape_indexes.contains(shape_index)
            &&& leaf_hit(shapes[shape_index as int], ray, crossing) == Some(distance)
            &&& forall|k: int|
                0 <= k < shape_indexes.len() ==> match leaf_hit(
                    shapes[#[trigger] shape_indexes[k] as int],
                    ray,
                    crossing,
                ) {
                    Some(d) => distance <= d,
                    None => true,
                }
        },
    }
}

/// The index and distance of a query's answer.
pub open spec fn found_of<H>(r: Option<TreeNodeIntersection<H>>) -> Option<(usize, i64)> {
    match r {
        None => None,
        Some(t) => Some((t.nearest_shape_index, t.distance)),
    }
}

/// The nearest hit among a leaf's shapes that lies within the leaf's crossing.
fn nearest_in_leaf<B: TreeBox, S: TreeShape<B>>(
    shapes: &Vec<S>,
    shape_indexes: &Vec<usize>,
    crossing: &SlabCrossing,
    ray: &B::Ray,
) -> (r: Option<TreeNodeIntersection<S::Hit>>)
    requires
        all_below(shape_indexes@, shapes.len() as nat),
    ensures
        nearest_in_leaf_ok(shapes@, shape_indexes@, *ray, *crossing, found_of(r)),
        r matches Some(t) ==> shapes@[t.nearest_shape_index as int].hit_at(*ray) == Some(
            ShapeHit { distance: t.distance, hit: t.hit },
        ),
{
    let mut nearest: Option<TreeNodeIntersection<S::Hit>> = None;
    let mut i: usize = 0;
    while i < shape_indexes.len()
        invariant
            i <= shape_indexes.len(),
            all_below(shape_indexes@, shapes.len() as nat),
            nearest_in_leaf_ok(
                shapes@,
                shape_indexes@.subrange(0, i as int),
                *ray,
                *crossing,
                found_of(nearest),
            ),
            nearest matches Some(t) ==> shapes@[t.nearest_shape_index as int].hit_at(*ray) == Some(
                ShapeHit { distance: t.distance, hit: t.hit },
            ),
        decreases shape_indexes.len() - i,
    {
        let shape_index = shape_indexes[i];
        let ghost prev = shape_indexes@.subrange(0, i as int);
        let ghost next = shape_indexes@.subrange(0, i + 1);
        let ghost before = found_of(nearest);
        assert(next =~= prev.push(shape_index));
        let hit = shapes[shape_index].intersect_ray(ray);
        match hit {
            Some(found) => {
                let nearest_distance = match &nearest {
                    Some(t) => Some(t.distance),
                    None => None,
                };
                if replaces_nearest(nearest_distance, found.distance, crossing) {
                    nearest = Some(
                        TreeNodeIntersection {
                            hit: found.hit,
                            distance: found.distance,
                            nearest_shape_index: shape_index,
                        },
                    );
                }
            },
            None => {},
        }
        proof {
            assert forall|k: int| 0 <= k < prev.len() implies next[k] == prev[k] by {}
            assert(next[i as int] == shape_index);
            if let Some((j, dj)) = found_of(nearest) {
                if j != shape_index || before == found_of(nearest) {
                    if let Some((bj, bd)) = before {
                        if before == found_of(nearest) {
                            let k = choose|k: int| 0 <= k < prev.len() && prev[k] == bj;
                            assert(next[k] == bj);
                        }
                    }
                }
                if j == shape_index {
                    assert(next[i as int] == j);
                }
            }
        }
        i = i + 1;
    }
    assert(shape_indexes@.subrange(0, shape_indexes.len() as int) =~= shape_indexes@);
    nearest
}

/// What a query of `node` may answer. A leaf answers its nearest hit within
/// its own crossing. A branch asks the children that the ray's crossings of
/// their boxes select, in `visit_for` order, and answers the first child's
/// hit, or else the second child's answer.
pub open spec fn query_ok<B: TreeBox, S: TreeShape<B>>(
    shapes: Seq<S>,
    node: TreeNode<B>,
    ray: B::Ray,
    found: Option<(usize, i64)>,
) -> bool
    decreases node,
{
    match node {
        TreeNode::Leaf { aabb, shape_indexes } => nearest_in_leaf_ok(
            shapes,
            shape_indexes@,
            ray,
            aabb.crossing(ray),
            found,
        ),
        TreeNode::Branch { left, right, .. } => {
            match visit_for(left.aabb_spec().crossing(ray), right.aabb_spec().crossing(ray)) {
                Visit::LeftThenRight => (found is Some && query_ok(shapes, *left, ray, found)) || (
                query_ok(shapes, *left, ray, None) && query_ok(shapes, *right, ray, found)),
                Visit::RightThenLeft => (found is Some && query_ok(shapes, *right, ray, found)) || (
                query_ok(shapes, *right, ray, None) && query_ok(shapes, *left, ray, found)),
                Visit::LeftOnly => query_ok(shapes, *left, ray, found),
                Visit::RightOnly => query_ok(shapes, *right, ray, found),
                Visit::Neither => found is None,
            }
        },
    }
}

proof fn lemma_overlapping_in_contains<B: TreeBox, S: TreeShape<B>>(
    shapes: Seq<S>,
    candidates: Seq<usize>,
    aabb: B,
)
    ensures
        forall|i: usize|
            #[trigger] overlapping_in(shapes, candidates, aabb).contains(i) <==> (candidates.contains(
                i,
            ) && shapes[i as int].overlaps(aabb)),
    decreases candidates.len(),
{
    if candidates.len() > 0 {
        let prev = candidates.drop_last();
        lemma_overlapping_in_contains(shapes, prev, aabb);
        let before = overlapping_in(shapes, prev, aabb);
        assert forall|i: usize|
            #[trigger] overlapping_in(shapes, candidates, aabb).contains(i) <==> (candidates.contains(
                i,
            ) && shapes[i as int].overlaps(aabb)) by {
            if candidates.contains(i) && i != candidates.last() {
                let k = choose|k: int| 0 <= k < candidates.len() && candidates[k] == i;
                assert(prev[k] == i);
            }
            if prev.contains(i) {
                let k = choose|k: int| 0 <= k < prev.len() && prev[k] == i;
                assert(candidates[k] == i);
            }
            if shapes[candidates.last() as int].overlaps(aabb) {
                let after = before.push(candidates.last());
                assert(after[before.len() as int] == candidates.last());
                if after.contains(i) && i != candidates.last() {
                    let k = choose|k: int| 0 <= k < after.len() && after[k] == i;
                    assert(before[k] == i);
                }
                if before.contains(i) {
                    let k = choose|k: int| 0 <= k < before.len() && before[k] == i;
                    assert(after[k] == i);
                }
            }
            assert(candidates[candidates.len() - 1] == candidates.last());
        }
    }
}

/// A shape that overlaps either half of a box overlaps the box.
pub open spec fn halves_inside<B: TreeBox, S: TreeShape<B>>(shapes: Seq<S>) -> bool {
    &&& forall|b: B, i: int|
        0 <= i < shapes.len() && #[trigger] shapes[i].overlaps(b.halves().0) ==> shapes[i].overlaps(b)
    &&& forall|b: B, i: int|
        0 <= i < shapes.len() && #[trigger] shapes[i].overlaps(b.halves().1) ==> shapes[i].overlaps(b)
}

/// Each leaf under `node` lists exactly the candidates whose shapes overlap
/// the leaf's own box.
pub open spec fn leaves_exact<B: TreeBox, S: TreeShape<B>>(
    shapes: Seq<S>,
    candidates: Seq<usize>,
    node: TreeNode<B>,
) -> bool
    decreases node,
{
    match node {
        TreeNode::Leaf { aabb, shape_indexes } => forall|i: usize|
            #[trigger] shape_indexes@.contains(i) <==> (candidates.contains(i) && shapes[i as int].overlaps(
                aabb,
            )),
        TreeNode::Branch { left, right, .. } => leaves_exact(shapes, candidates, *left)
            && leaves_exact(shapes, candidates, *right),
    }
}

/// A shape that overlaps the box of a leaf under `node` overlaps `outer`.
pub open spec fn leaves_inside<B: TreeBox, S: TreeShape<B>>(
    shapes: Seq<S>,
    node: TreeNode<B>,
    outer: B,
) -> bool
    decreases node,
{
    match node {
        TreeNode::Leaf { aabb, .. } => forall|i: int|
            0 <= i < shapes.len() && #[trigger] shapes[i].overlaps(aabb) ==> shapes[i].overlaps(outer),
        TreeNode::Branch { left, right, .. } => leaves_inside(shapes, *left, outer) && leaves_inside(
            shapes,
            *right,
            outer,
        ),
    }
}

proof fn lemma_lift_leaves<B: TreeBox, S: TreeShape<B>>(
    shapes: Seq<S>,
    candidates: Seq<usize>,
    outer: B,
    half: B,
    node: TreeNode<B>,
)
    requires
        all_below(candidates, shapes.len() as nat),
        forall|i: int| 0 <= i < shapes.len() && #[trigger] shapes[i].overlaps(half) ==> shapes[i].overlaps(outer),
        leaves_inside(shapes, node, half),
        leaves_exact(shapes, overlapping_in(shapes, candidates, outer), node),
    ensures
        leaves_inside(shapes, node, outer),
        leaves_exact(shapes, candidates, node),
    decreases node,
{
    lemma_overlapping_in_contains(shapes, candidates, outer);
    match node {
        TreeNode::Leaf { aabb, shape_indexes } => {
            assert forall|i: usize|
                #[trigger] shape_indexes@.contains(i) <==> (candidates.contains(i) && shapes[i as int].overlaps(
                    aabb,
                )) by {
                if candidates.contains(i) {
                    let k = choose|k: int| 0 <= k < candidates.len() && candidates[k] == i;
                    assert(i < shapes.len());
                }
                if overlapping_in(shapes, candidates, outer).contains(i) {
                }
            }
        },
        TreeNode::Branch { left, right, .. } => {
            lemma_lift_leaves(shapes, candidates, outer, half, *left);
            lemma_lift_leaves(shapes, candidates, outer, half, *right);
        },
    }
}

/// Where a shape that overlaps a half of a box also overlaps the box, each
/// leaf of a built tree lists exactly the candidates whose shapes overlap the
/// leaf's own box, and only shapes that overlap the root's box.
pub proof fn lemma_leaves_exact<B: TreeBox, S: TreeShape<B>>(
    shapes: Seq<S>,
    candidates: Seq<usize>,
    aabb: B,
    depth: nat,
    node: TreeNode<B>,
)
    requires
        halves_inside(shapes),
        all_below(candidates, shapes.len() as nat),
        built_ok(shapes, candidates, aabb, depth, Ok(Some(node))),
    ensures
        leaves_exact(shapes, candidates, node),
        leaves_inside(shapes, node, aabb),
    decreases MAX_DEPTH - depth,
{
    let kept = overlapping_in(shapes, candidates, aabb);
    let failed = Err::<Option<TreeNode<B>>, TreeBuildError>(TreeBuildError::ShapesDropped);
    let empty = Ok::<Option<TreeNode<B>>, TreeBuildError>(None);
    lemma_overlapping_in_contains(shapes, candidates, aabb);
    assert(all_below(kept, shapes.len() as nat)) by {
        assert forall|k: int| 0 <= k < kept.len() implies #[trigger] kept[k] < shapes.len() by {
            assert(kept.contains(kept[k]));
            let j = choose|j: int| 0 <= j < candidates.len() && candidates[j] == kept[k];
        }
    }
    if kept.len() == 0 {
    } else if kept.len() <= LEAF_CAPACITY || depth >= MAX_DEPTH || aabb.too_small(
        min_of(diagonals_of(shapes, kept)),
    ) {
    } else {
        let (a, b) = aabb.halves();
        let d = depth + 1;
        if built_ok(shapes, kept, a, d, failed) {
        } else if built_ok(shapes, kept, b, d, failed) {
        } else if built_ok(shapes, kept, a, d, empty) && built_ok(shapes, kept, b, d, empty) {
        } else if built_ok(shapes, kept, a, d, empty) {
            lemma_leaves_exact(shapes, kept, b, d, node);
            lemma_lift_leaves(shapes, candidates, aabb, b, node);
        } else if built_ok(shapes, kept, b, d, empty) {
            lemma_leaves_exact(shapes, kept, a, d, node);
            lemma_lift_leaves(shapes, candidates, aabb, a, node);
        } else {
            let left = node->Branch_left;
            let right = node->Branch_right;
            lemma_leaves_exact(shapes, kept, a, d, *left);
            lemma_lift_leaves(shapes, candidates, aabb, a, *left);
            lemma_leaves_exact(shapes, kept, b, d, *right);
            lemma_lift_leaves(shapes, candidates, aabb, b, *right);
        }
    }
}

/// The box reached from `outer` by taking halves along `path`: `false`
/// takes the first half, `true` the second.
pub open spec fn follow<B: TreeBox>(outer: B, path: Seq<bool>) -> B
    decreases path.len(),
{
    if path.len() == 0 {
        outer
    } else {
        let h = outer.halves();
        follow(
            if path[0] {
                h.1
            } else {
                h.0
            },
            path.subrange(1, path.len() as int),
        )
    }
}

/// `inner` is `outer` or is reached from it by repeatedly taking halves.
pub open spec fn within<B: TreeBox>(inner: B, outer: B) -> bool {
    exists|path: Seq<bool>| #[trigger] follow(outer, path) == inner
}

/// The boxes under `node` nest: its box lies within `outer`, and the
/// children of each branch lie within the two halves of the branch's box.
pub open spec fn nested<B: TreeBox>(node: TreeNode<B>, outer: B) -> bool
    decreases node,
{
    &&& within(node.aabb_spec(), outer)
    &&& match node {
        TreeNode::Leaf { .. } => true,
        TreeNode::Branch { aabb, left, right } => nested(*left, aabb.halves().0) && nested(
            *right,
            aabb.halves().1,
        ),
    }
}

proof fn lemma_within_half<B: TreeBox>(inner: B, outer: B, second: bool)
    requires
        within(inner, if second { outer.halves().1 } else { outer.halves().0 }),
    ensures
        within(inner, outer),
{
    let half = if second {
        outer.halves().1
    } else {
        outer.halves().0
    };
    let p = choose|p: Seq<bool>| #[trigger] follow(half, p) == inner;
    let q = seq![second] + p;
    assert(q.subrange(1, q.len() as int) =~= p);
    assert(follow(outer, q) == inner);
}

/// The boxes of a built tree nest: the root's box lies within the box the
/// build started from, and each branch's children lie within its halves.
pub proof fn lemma_boxes_nest<B: TreeBox, S: TreeShape<B>>(
    shapes: Seq<S>,
    candidates: Seq<usize>,
    aabb: B,
    depth: nat,
    node: TreeNode<B>,
)
    requires
        built_ok(shapes, candidates, aabb, depth, Ok(Some(node))),
    ensures
        nested(node, aabb),
    decreases MAX_DEPTH - depth,
{
    let kept = overlapping_in(shapes, candidates, aabb);
    let failed = Err::<Option<TreeNode<B>>, TreeBuildError>(TreeBuildError::ShapesDropped);
    let empty = Ok::<Option<TreeNode<B>>, TreeBuildError>(None);
    assert(follow(aabb, Seq::<bool>::empty()) == aabb);
    if kept.len() == 0 {
    } else if kept.len() <= LEAF_CAPACITY || depth >= MAX_DEPTH || aabb.too_small(
        min_of(diagonals_of(shapes, kept)),
    ) {
    } else {
        let (a, b) = aabb.halves();
        let d = depth + 1;
        if built_ok(shapes, kept, a, d, failed) {
        } else if built_ok(shapes, kept, b, d, failed) {
        } else if built_ok(shapes, kept, a, d, empty) && built_ok(shapes, kept, b, d, empty) {
        } else if built_ok(shapes, kept, a, d, empty) {
            lemma_boxes_nest(shapes, kept, b, d, node);
            lemma_within_half(node.aabb_spec(), aabb, true);
        } else if built_ok(shapes, kept, b, d, empty) {
            lemma_boxes_nest(shapes, kept, a, d, node);
            lemma_within_half(node.aabb_spec(), aabb, false);
        } else {
            lemma_boxes_nest(shapes, kept, a, d, *node->Branch_left);
            lemma_boxes_nest(shapes, kept, b, d, *node->Branch_right);
        }
    }
}

/// Shape `shape_index` is within the ray's reach in `node`: a leaf below
/// lists it and its hit lies within that leaf's crossing, and the ray meets
/// the box of every child on the way down.
pub open spec fn reaches<B: TreeBox, S: TreeShape<B>>(
    shapes: Seq<S>,
    node: TreeNode<B>,
    ray: B::Ray,
    shape_index: usize,
) -> bool
    decreases node,
{
    match node {
        TreeNode::Leaf { aabb, shape_indexes } => {
            &&& shape_indexes@.contains(shape_index)
            &&& leaf_hit(shapes[shape_index as int], ray, aabb.crossing(ray)) is Some
        },
        TreeNode::Branch { left, right, .. } => {
            ||| (left.aabb_spec().crossing(ray).ok && reaches(shapes, *left, ray, shape_index))
            ||| (right.aabb_spec().crossing(ray).ok && reaches(shapes, *right, ray, shape_index))
        },
    }
}

/// A query misses no shape within its reach: wherever some shape is within
/// the ray's reach in the tree, the query answers with a hit.
pub proof fn lemma_reachable_shape_is_found<B: TreeBox, S: TreeShape<B>>(
    shapes: Seq<S>,
    node: TreeNode<B>,
    ray: B::Ray,
    shape_index: usize,
    found: Option<(usize, i64)>,
)
    requires
        reaches(shapes, node, ray, shape_index),
        query_ok(shapes, node, ray, found),
    ensures
        found is Some,
    decreases node,
{
    match node {
        TreeNode::Leaf { aabb, shape_indexes } => {
            if found is None {
                let k = choose|k: int|
                    0 <= k < shape_indexes.len() && shape_indexes@[k] == shape_index;
                assert(leaf_hit(shapes[shape_indexes@[k] as int], ray, aabb.crossing(ray)) is None);
            }
        },
        TreeNode::Branch { left, right, .. } => {
            let lc = left.aabb_spec().crossing(ray);
            let rc = right.aabb_spec().crossing(ray);
            let via_left = lc.ok && reaches(shapes, *left, ray, shape_index);
            match visit_for(lc, rc) {
                Visit::LeftThenRight => {
                    if !(found is Some && query_ok(shapes, *left, ray, found)) {
                        if via_left {
                            lemma_reachable_shape_is_found(shapes, *left, ray, shape_index, None);
                        } else {
                            lemma_reachable_shape_is_found(shapes, *right, ray, shape_index, found);
                        }
                    }
                },
                Visit::RightThenLeft => {
                    if !(found is Some && query_ok(shapes, *right, ray, found)) {
                        if via_left {
                            lemma_reachable_shape_is_found(shapes, *left, ray, shape_index, found);
                        } else {
                            lemma_reachable_shape_is_found(shapes, *right, ray, shape_index, None);
                        }
                    }
                },
                Visit::LeftOnly => {
                    lemma_reachable_shape_is_found(shapes, *left, ray, shape_index, found);
                },
                Visit::RightOnly => {
                    lemma_reachable_shape_is_found(shapes, *right, ray, shape_index, found);
                },
                Visit::Neither => {},
            }
        },
    }
}

/// Searches the tree for the first shape the ray hits, visiting the children
/// of each branch in the order the ray enters their boxes and stopping at the
/// first child that yields a hit. Within a leaf, the nearest hit that lies in
/// the leaf's own box is kept.
pub fn intersect_tree_node<B: TreeBox, S: TreeShape<B>>(
    shapes: &Vec<S>,
    tree_node: &TreeNode<B>,
    ray: &B::Ray,
) -> (r: Option<TreeNodeIntersection<S::Hit>>)
    requires
        tree_node.wf(shapes.len() as nat),
    ensures
        r matches Some(t) ==> {
            &&& tree_node.holds(t.nearest_shape_index)
            &&& t.nearest_shape_index < shapes.len()
            &&& shapes@[t.nearest_shape_index as int].hit_at(*ray) == Some(
                ShapeHit { distance: t.distance, hit: t.hit },
            )
        },
        query_ok(shapes@, *tree_node, *ray, found_of(r)),
    decreases tree_node,
{
    match tree_node {
        TreeNode::Leaf { aabb, shape_indexes } => {
            let crossing = aabb.intersects_ray(ray);
            let r = nearest_in_leaf(shapes, shape_indexes, &crossing, ray);
            assert(forall|i: usize| shape_indexes@.contains(i) ==> i < shapes.len());
            r
        },
        TreeNode::Branch { left, right, .. } => {
            let left_crossing = left.aabb().intersects_ray(ray);
            let right_crossing = right.aabb().intersects_ray(ray);
            match visit_order(&left_crossing, &right_crossing) {
                Visit::LeftThenRight => {
                    let first = intersect_tree_node(shapes, left, ray);
                    if first.is_some() {
                        return first;
                    }
                    intersect_tree_node(shapes, right, ray)
                },
                Visit::RightThenLeft => {
                    let first = intersect_tree_node(shapes, right, ray);
                    if first.is_some() {
                        return first;
                    }
                    intersect_tree_node(shapes, left, ray)
                },
                Visit::LeftOnly => intersect_tree_node(shapes, left, ray),
                Visit::RightOnly => intersect_tree_node(shapes, right, ray),
                Visit::Neither => None,
            }
        },
    }
}

} // verus!

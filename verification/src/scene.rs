use vstd::prelude::*;
use crate::ordering::{is_stable_order, stable_order, widen_depths, comes_before, lemma_painter_order_by_depth};

verus! {

/// How a scene orders (or depth tests) what it draws.
#[derive(Debug, Clone, Copy, PartialEq, Eq, Structural)]
pub enum RenderOrderMode {
    /// Painter's algorithm: 3D items from the farthest to the nearest.
    Painter3D,
    /// 2D layers: items by ascending z-index (higher ones on top).
    Layers2D,
    /// The backend's own depth buffer decides; nothing is sorted.
    HardwareZBuffer,
    /// The software depth buffer decides, pixel by pixel; nothing is sorted.
    SoftwareZBuffer,
}

/// One step of rendering a scene on a drawer.
#[derive(Debug, Clone, Copy, PartialEq, Eq, Structural)]
pub enum RenderStep {
    /// Turn depth testing on or off.
    EnableDepth(bool),
    /// Make every pixel of the depth buffer far away.
    ClearDepth,
    /// Use the depth of 3D item `i` for what is drawn next.
    SetDepth(usize),
    /// Draw 3D item `i`.
    Draw3D(usize),
    /// Draw item `i` of those that carry a depth per vertex.
    DrawVertices3D(usize),
    /// Draw 2D item `i`.
    Draw2D(usize),
}

/// The item that a drawing step draws (0 for the other steps).
pub open spec fn step_item(step: RenderStep) -> usize {
    match step {
        RenderStep::SetDepth(i) => i,
        RenderStep::Draw3D(i) => i,
        RenderStep::DrawVertices3D(i) => i,
        RenderStep::Draw2D(i) => i,
        _ => 0,
    }
}

/// The z-indices of 2D items, widened for sorting.
pub open spec fn widen_i32(keys: Seq<i32>) -> Seq<i64> {
    Seq::new(keys.len(), |i: int| keys[i] as i64)
}

/// Each of the `n` 3D items in turn: set its depth, draw it.
pub open spec fn depth_then_draw(n: nat) -> Seq<RenderStep> {
    Seq::new(2 * n, |k: int| if k % 2 == 0 { RenderStep::SetDepth((k / 2) as usize) } else { RenderStep::Draw3D((k / 2) as usize) })
}

/// The rendering steps of a scene in a depth-buffer mode: depth testing on and
/// a cleared depth buffer, first the `n_vertices` items with a depth per
/// vertex (in the order they were added, hardware mode only), then the `n_3d`
/// items each with its own depth (in the order they were added), depth testing off.
pub open spec fn zbuffer_steps(with_vertices: bool, n_vertices: nat, n_3d: nat) -> Seq<RenderStep> {
    seq![RenderStep::EnableDepth(true), RenderStep::ClearDepth]
        + (if with_vertices { Seq::new(n_vertices, |i: int| RenderStep::DrawVertices3D(i as usize)) } else { Seq::empty() })
        + depth_then_draw(n_3d)
        + seq![RenderStep::EnableDepth(false)]
}

/// Collects the items of a scene, each with what orders it, and tells in which
/// order to draw them. `T` is what draws an item.
pub struct SceneComposer<T> {
    mode: RenderOrderMode,
    items_3d: Vec<(u32, T)>,
    items_3d_vertices: Vec<T>,
    items_2d: Vec<(i32, T)>,
}

impl<T> SceneComposer<T> {
    /// How the scene is ordered.
    pub closed spec fn mode_spec(&self) -> RenderOrderMode {
        self.mode
    }

    /// How the scene is ordered.
    pub fn mode(&self) -> (r: RenderOrderMode)
        ensures
            r == self.mode_spec(),
    {
        self.mode
    }

    /// The depth keys of the 3D items, in the order they were added (larger is farther).
    pub closed spec fn depth_keys(&self) -> Seq<u32> {
        self.items_3d@.map_values(|e: (u32, T)| e.0)
    }

    /// The 3D items, in the order they were added.
    pub closed spec fn items_3d_spec(&self) -> Seq<T> {
        self.items_3d@.map_values(|e: (u32, T)| e.1)
    }

    /// The items with a depth per vertex, in the order they were added.
    pub closed spec fn items_vertices_spec(&self) -> Seq<T> {
        self.items_3d_vertices@
    }

    /// The z-indices of the 2D items, in the order they were added.
    pub closed spec fn layers(&self) -> Seq<i32> {
        self.items_2d@.map_values(|e: (i32, T)| e.0)
    }

    /// The 2D items, in the order they were added.
    pub closed spec fn items_2d_spec(&self) -> Seq<T> {
        self.items_2d@.map_values(|e: (i32, T)| e.1)
    }

    /// An empty scene.
    pub fn new(mode: RenderOrderMode) -> (r: Self)
        ensures
            r.mode_spec() == mode,
            r.depth_keys() == Seq::<u32>::empty(),
            r.items_3d_spec() == Seq::<T>::empty(),
            r.items_vertices_spec() == Seq::<T>::empty(),
            r.layers() == Seq::<i32>::empty(),
            r.items_2d_spec() == Seq::<T>::empty(),
    {
        let r = SceneComposer { mode, items_3d: Vec::new(), items_3d_vertices: Vec::new(), items_2d: Vec::new() };
        assert(r.depth_keys() =~= Seq::<u32>::empty());
        assert(r.items_3d_spec() =~= Seq::<T>::empty());
        assert(r.layers() =~= Seq::<i32>::empty());
        assert(r.items_2d_spec() =~= Seq::<T>::empty());
        r
    }

    /// Adds a 3D item with its depth key.
    pub fn add_3d(&mut self, depth: u32, item: T)
        ensures
            final(self).mode_spec() == old(self).mode_spec(),
            final(self).depth_keys() == old(self).depth_keys().push(depth),
            final(self).items_3d_spec() == old(self).items_3d_spec().push(item),
            final(self).items_vertices_spec() == old(self).items_vertices_spec(),
            final(self).layers() == old(self).layers(),
            final(self).items_2d_spec() == old(self).items_2d_spec(),
    {
        self.items_3d.push((depth, item));
        assert(self.depth_keys() =~= old(self).depth_keys().push(depth));
        assert(self.items_3d_spec() =~= old(self).items_3d_spec().push(item));
    }

    /// Adds an item that gives a depth to each of its vertices.
    pub fn add_3d_vertices(&mut self, item: T)
        ensures
            final(self).mode_spec() == old(self).mode_spec(),
            final(self).depth_keys() == old(self).depth_keys(),
            final(self).items_3d_spec() == old(self).items_3d_spec(),
            final(self).items_vertices_spec() == old(self).items_vertices_spec().push(item),
            final(self).layers() == old(self).layers(),
            final(self).items_2d_spec() == old(self).items_2d_spec(),
    {
        self.items_3d_vertices.push(item);
    }

    /// Adds a 2D item with its z-index.
    pub fn add_2d(&mut self, z_index: i32, item: T)
        ensures
            final(self).mode_spec() == old(self).mode_spec(),
            final(self).depth_keys() == old(self).depth_keys(),
            final(self).items_3d_spec() == old(self).items_3d_spec(),
            final(self).items_vertices_spec() == old(self).items_vertices_spec(),
            final(self).layers() == old(self).layers().push(z_index),
            final(self).items_2d_spec() == old(self).items_2d_spec().push(item),
    {
        self.items_2d.push((z_index, item));
        assert(self.layers() =~= old(self).layers().push(z_index));
        assert(self.items_2d_spec() =~= old(self).items_2d_spec().push(item));
    }

    /// The 3D item `i`.
    pub fn item_3d(&self, i: usize) -> (r: &T)
        requires
            i < self.items_3d_spec().len(),
        ensures
            *r == self.items_3d_spec()[i as int],
    {
        &self.items_3d[i].1
    }

    /// The item `i` of those with a depth per vertex.
    pub fn item_3d_vertices(&self, i: usize) -> (r: &T)
        requires
            i < self.items_vertices_spec().len(),
        ensures
            *r == self.items_vertices_spec()[i as int],
    {
        &self.items_3d_vertices[i]
    }

    /// The 2D item `i`.
    pub fn item_2d(&self, i: usize) -> (r: &T)
        requires
            i < self.items_2d_spec().len(),
        ensures
            *r == self.items_2d_spec()[i as int],
    {
        &self.items_2d[i].1
    }

    /// The steps that render the scene:
    /// - `Painter3D`: every 3D item, from the largest depth key to the smallest
    ///   (items with equal keys in the order they were added);
    /// - `Layers2D`: every 2D item, from the smallest z-index to the largest
    ///   (items with equal z-indices in the order they were added);
    /// - `HardwareZBuffer` and `SoftwareZBuffer`: see [`zbuffer_steps`].
    pub fn render_steps(&self) -> (r: Vec<RenderStep>)
        ensures
            self.mode_spec() == RenderOrderMode::Painter3D ==> {
                &&& forall|k: int| 0 <= k < r@.len() ==> #[trigger] r@[k] == RenderStep::Draw3D(step_item(r@[k]))
                &&& is_stable_order(widen_depths(self.depth_keys()), Seq::new(self.depth_keys().len(), |i: int| true), true, r@.map_values(|s: RenderStep| step_item(s)))
                &&& forall|p: int, q: int| #![trigger r@[p], r@[q]] 0 <= p < q < r@.len() ==>
                    self.depth_keys()[step_item(r@[p]) as int] > self.depth_keys()[step_item(r@[q]) as int]
                    || (self.depth_keys()[step_item(r@[p]) as int] == self.depth_keys()[step_item(r@[q]) as int]
                        && step_item(r@[p]) < step_item(r@[q]))
            },
            self.mode_spec() == RenderOrderMode::Layers2D ==> {
                &&& forall|k: int| 0 <= k < r@.len() ==> #[trigger] r@[k] == RenderStep::Draw2D(step_item(r@[k]))
                &&& is_stable_order(widen_i32(self.layers()), Seq::new(self.layers().len(), |i: int| true), false, r@.map_values(|s: RenderStep| step_item(s)))
                &&& forall|p: int, q: int| #![trigger r@[p], r@[q]] 0 <= p < q < r@.len() ==>
                    self.layers()[step_item(r@[p]) as int] < self.layers()[step_item(r@[q]) as int]
                    || (self.layers()[step_item(r@[p]) as int] == self.layers()[step_item(r@[q]) as int]
                        && step_item(r@[p]) < step_item(r@[q]))
            },
            self.mode_spec() == RenderOrderMode::HardwareZBuffer ==> r@ == zbuffer_steps(true, self.items_vertices_spec().len(), self.depth_keys().len()),
            self.mode_spec() == RenderOrderMode::SoftwareZBuffer ==> r@ == zbuffer_steps(false, self.items_vertices_spec().len(), self.depth_keys().len()),
    {
        let mut steps: Vec<RenderStep> = Vec::new();
        match self.mode {
            RenderOrderMode::Painter3D => {
                let mut keys: Vec<i64> = Vec::new();
                let mut all: Vec<bool> = Vec::new();
                let n = self.items_3d.len();
                for i in 0..n
                    invariant
                        n == self.items_3d@.len(),
                        keys@.len() == i,
                        all@.len() == i,
                        forall|j: int| 0 <= j < i ==> #[trigger] keys@[j] == self.items_3d@[j].0 as i64,
                        forall|j: int| 0 <= j < i ==> #[trigger] all@[j],
                {
                    keys.push(self.items_3d[i].0 as i64);
                    all.push(true);
                }
                assert(keys@ =~= widen_depths(self.depth_keys()));
                assert(all@ =~= Seq::new(self.depth_keys().len(), |i: int| true));
                let order = stable_order(&keys, &all, true);
                proof {
                    lemma_painter_order_by_depth(self.depth_keys(), all@, order@);
                }
                for k in 0..order.len()
                    invariant
                        steps@.len() == k,
                        forall|j: int| 0 <= j < k ==> #[trigger] steps@[j] == RenderStep::Draw3D(order@[j]),
                {
                    steps.push(RenderStep::Draw3D(order[k]));
                }
                assert(steps@.map_values(|s: RenderStep| step_item(s)) =~= order@);
            },
            RenderOrderMode::Layers2D => {
                let mut keys: Vec<i64> = Vec::new();
                let mut all: Vec<bool> = Vec::new();
                let n = self.items_2d.len();
                for i in 0..n
                    invariant
                        n == self.items_2d@.len(),
                        keys@.len() == i,
                        all@.len() == i,
                        forall|j: int| 0 <= j < i ==> #[trigger] keys@[j] == self.items_2d@[j].0 as i64,
                        forall|j: int| 0 <= j < i ==> #[trigger] all@[j],
                {
                    keys.push(self.items_2d[i].0 as i64);
                    all.push(true);
                }
                assert(keys@ =~= widen_i32(self.layers()));
                assert(all@ =~= Seq::new(self.layers().len(), |i: int| true));
                let order = stable_order(&keys, &all, false);
                proof {
                    lemma_layers_by_z_index(self.layers(), all@, order@);
                }
                for k in 0..order.len()
                    invariant
                        steps@.len() == k,
                        forall|j: int| 0 <= j < k ==> #[trigger] steps@[j] == RenderStep::Draw2D(order@[j]),
                {
                    steps.push(RenderStep::Draw2D(order[k]));
                }
                assert(steps@.map_values(|s: RenderStep| step_item(s)) =~= order@);
            },
            RenderOrderMode::HardwareZBuffer | RenderOrderMode::SoftwareZBuffer => {
                let with_vertices = self.mode == RenderOrderMode::HardwareZBuffer;
                steps.push(RenderStep::EnableDepth(true));
                steps.push(RenderStep::ClearDepth);
                let nv = self.items_3d_vertices.len();
                let ghost head = seq![RenderStep::EnableDepth(true), RenderStep::ClearDepth];
                if with_vertices {
                    for i in 0..nv
                        invariant
                            steps@ == head + Seq::new(i as nat, |j: int| RenderStep::DrawVertices3D(j as usize)),
                    {
                        steps.push(RenderStep::DrawVertices3D(i));
                        assert(steps@ =~= head + Seq::new((i + 1) as nat, |j: int| RenderStep::DrawVertices3D(j as usize)));
                    }
                }
                let ghost mid = if with_vertices { Seq::new(nv as nat, |j: int| RenderStep::DrawVertices3D(j as usize)) } else { Seq::empty() };
                assert(steps@ =~= head + mid);
                let n = self.items_3d.len();
                for i in 0..n
                    invariant
                        n == self.items_3d@.len(),
                        steps@ == head + mid + depth_then_draw(i as nat),
                {
                    steps.push(RenderStep::SetDepth(i));
                    steps.push(RenderStep::Draw3D(i));
                    assert(steps@ =~= head + mid + depth_then_draw((i + 1) as nat));
                }
                steps.push(RenderStep::EnableDepth(false));
                assert(steps@ =~= zbuffer_steps(with_vertices, nv as nat, n as nat));
            },
        }
        steps
    }
}

/// 2D layers are drawn back to front: of two items, the one with the smaller
/// z-index (negative ones included) is drawn first, so the other ends up on top;
/// of two with equal z-indices, the one added first.
pub proof fn lemma_layers_by_z_index(z_indices: Seq<i32>, selected: Seq<bool>, order: Seq<usize>)
    requires
        is_stable_order(widen_i32(z_indices), selected, false, order),
    ensures
        forall|p: int, q: int| #![trigger order[p], order[q]] 0 <= p < q < order.len() ==>
            z_indices[order[p] as int] < z_indices[order[q] as int]
            || (z_indices[order[p] as int] == z_indices[order[q] as int] && order[p] < order[q]),
{
    assert forall|p: int, q: int| #![trigger order[p], order[q]] 0 <= p < q < order.len() implies
        z_indices[order[p] as int] < z_indices[order[q] as int]
        || (z_indices[order[p] as int] == z_indices[order[q] as int] && order[p] < order[q]) by {
        assert(order.contains(order[p]));
        assert(order.contains(order[q]));
        assert(comes_before(widen_i32(z_indices), false, order[p] as int, order[q] as int));
    }
}

/// In a depth-buffer mode the steps turn depth testing on and clear the depth
/// buffer first, then (hardware mode only) draw each item with per-vertex depth
/// in the order added, then give each 3D item its depth right before drawing it,
/// in the order added, and finally turn depth testing off.
pub proof fn lemma_zbuffer_steps_layout(with_vertices: bool, n_vertices: nat, n_3d: nat)
    ensures
        ({
            let st = zbuffer_steps(with_vertices, n_vertices, n_3d);
            let v: int = if with_vertices { n_vertices as int } else { 0 };
            &&& st.len() == 3 + v + 2 * n_3d
            &&& st[0] == RenderStep::EnableDepth(true)
            &&& st[1] == RenderStep::ClearDepth
            &&& forall|i: int| 0 <= i < v ==> #[trigger] st[2 + i] == RenderStep::DrawVertices3D(i as usize)
            &&& forall|i: int| 0 <= i < n_3d ==> #[trigger] st[2 + v + 2 * i] == RenderStep::SetDepth(i as usize)
                && st[3 + v + 2 * i] == RenderStep::Draw3D(i as usize)
            &&& st[st.len() - 1] == RenderStep::EnableDepth(false)
        }),
{
    let st = zbuffer_steps(with_vertices, n_vertices, n_3d);
    let v: int = if with_vertices { n_vertices as int } else { 0 };
    assert forall|i: int| 0 <= i < n_3d implies #[trigger] st[2 + v + 2 * i] == RenderStep::SetDepth(i as usize)
        && st[3 + v + 2 * i] == RenderStep::Draw3D(i as usize) by {
        assert((2 * i) % 2 == 0 && (2 * i) / 2 == i);
        assert((2 * i + 1) % 2 == 1 && (2 * i + 1) / 2 == i);
    }
}

} // verus!

use vstd::prelude::*;
use crate::layout::{
    Place, Placement, abs, directed_prefix, layout, layout_prefix, lemma_directed_le_managed,
    lemma_shares_fit, managed_count, managed_prefix, places, share,
};
use crate::monitor::{Monitor, strictly_inside};
use crate::tree::{Node, TilingDirection};
use crate::windows::{TilingMode, Window, WindowView};

verus! {

/// A bound on the extent of a rectangle: what an `i32` can hold.
pub const EXTENT: i64 = 0x8000_0000;

/// A bound on how deep a tree laid out at once may be.
pub const MAX_DEPTH: i64 = 0x4000_0000;

/// One tiling tree bound to one monitor, with a focus cursor over the
/// children of its root.
pub struct Workspace {
    pub monitor: Monitor,
    pub windows: Node<Window>,
    pub current_window_index: usize,
}

/// A leaf child holding a window with handle `h`.
pub open spec fn is_leaf_with(c: Node<Window>, h: isize) -> bool {
    c.children@.len() == 0 && c.value.hwnd == h
}

/// The children of `cs` that are not leaves holding `h`, in order.
pub open spec fn without_leaf(cs: Seq<Node<Window>>, h: isize) -> Seq<Node<Window>>
    decreases cs.len(),
{
    if cs.len() == 0 {
        cs
    } else if is_leaf_with(cs.last(), h) {
        without_leaf(cs.drop_last(), h)
    } else {
        without_leaf(cs.drop_last(), h).push(cs.last())
    }
}

/// `new` is `old` after the leaf holding `h` was taken out: at the first
/// level, going down, where a child is such a leaf, all such leaves go;
/// above it every child is searched in turn.
pub open spec fn removed_from(old: Node<Window>, new: Node<Window>, h: isize) -> bool
    decreases old,
{
    &&& new.value == old.value
    &&& new.direction == old.direction
    &&& if exists|i: int| 0 <= i < old.children@.len() && is_leaf_with(#[trigger] old.children@[i], h) {
        new.children@ == without_leaf(old.children@, h)
    } else {
        &&& new.children@.len() == old.children@.len()
        &&& forall|i: int|
            0 <= i < old.children@.len() ==> removed_from(
                #[trigger] old.children@[i],
                new.children@[i],
                h,
            )
    }
}

/// How far from the origin a node whose subtree is at most `depth` levels
/// deep may start: each level down moves the cursor at most one extent.
pub open spec fn reach(depth: int) -> int {
    EXTENT * (MAX_DEPTH - depth)
}

/// The windows held by a sequence of nodes, as plain values.
pub open spec fn window_views(cs: Seq<Node<Window>>) -> Seq<WindowView> {
    cs.map_values(|c: Node<Window>| c.value@)
}

/// One move on from focus `f` among `n` children.
pub open spec fn focus_on(f: int, n: int) -> int {
    if f + 1 >= n {
        0
    } else {
        f + 1
    }
}

/// One move back from focus `f` among `n` children: from the first, the
/// focus goes to `n`, then one back.
pub open spec fn focus_back(f: int, n: int) -> int {
    if f == 0 {
        n - 1
    } else {
        f - 1
    }
}

/// The focus after `k` moves on from `f` among `n` children.
pub open spec fn focus_on_times(f: int, n: int, k: nat) -> int
    decreases k,
{
    if k == 0 {
        f
    } else {
        focus_on(focus_on_times(f, n, (k - 1) as nat), n)
    }
}

proof fn lemma_focus_on_times(f: int, n: int, k: nat)
    requires
        0 <= f < n,
    ensures
        focus_on_times(f, n, k) == (f + k) % n,
    decreases k,
{
    if k > 0 {
        lemma_focus_on_times(f, n, (k - 1) as nat);
        let g = (f + k - 1) % n;
        assert(0 <= g < n) by (nonlinear_arith)
            requires
                g == (f + k - 1) % n,
                n > 0,
        ;
        assert((f + k) % n == if g + 1 >= n { 0 } else { g + 1 }) by (nonlinear_arith)
            requires
                g == (f + k - 1) % n,
                0 <= g < n,
                n > 0,
                f + k - 1 >= 0,
        ;
    } else {
        assert(f % n == f) by (nonlinear_arith)
            requires
                0 <= f < n,
        ;
    }
}

/// With `n` children and the focus on one of them, moving the focus on `n`
/// times brings it back where it started, and moving it back once from the
/// first child puts it on the last.
pub proof fn lemma_focus_wrap(f: int, n: int)
    requires
        0 <= f < n,
    ensures
        focus_on_times(f, n, n as nat) == f,
        focus_back(0, n) == n - 1,
{
    lemma_focus_on_times(f, n, n as nat);
    assert((f + n) % n == f) by (nonlinear_arith)
        requires
            0 <= f < n,
    ;
}

/// `ws` with the window at `f`, if there is one, set to `mode`.
pub open spec fn with_mode(ws: Seq<WindowView>, f: int, mode: TilingMode) -> Seq<WindowView> {
    if 0 <= f < ws.len() {
        ws.update(f, WindowView { mode, ..ws[f] })
    } else {
        ws
    }
}

/// `ws` without the windows whose handle is `h`, in order.
pub open spec fn drop_handle(ws: Seq<WindowView>, h: isize) -> Seq<WindowView>
    decreases ws.len(),
{
    if ws.len() == 0 {
        ws
    } else if ws.last().hwnd == h {
        drop_handle(ws.drop_last(), h)
    } else {
        drop_handle(ws.drop_last(), h).push(ws.last())
    }
}

proof fn lemma_without_leaf_flat(cs: Seq<Node<Window>>, h: isize)
    requires
        forall|i: int| 0 <= i < cs.len() ==> (#[trigger] cs[i]).children@.len() == 0,
    ensures
        forall|i: int| 0 <= i < without_leaf(cs, h).len() ==> (#[trigger] without_leaf(cs, h)[i]).children@.len() == 0,
        window_views(without_leaf(cs, h)) == drop_handle(window_views(cs), h),
    decreases cs.len(),
{
    if cs.len() > 0 {
        lemma_without_leaf_flat(cs.drop_last(), h);
        assert(window_views(cs.drop_last()) =~= window_views(cs).drop_last());
        if !is_leaf_with(cs.last(), h) {
            assert(window_views(without_leaf(cs, h)) =~= window_views(without_leaf(cs.drop_last(), h)).push(cs.last().value@));
        }
    } else {
        assert(window_views(cs) =~= Seq::empty());
    }
}

proof fn lemma_drop_absent(ws: Seq<WindowView>, h: isize)
    requires
        forall|i: int| 0 <= i < ws.len() ==> (#[trigger] ws[i]).hwnd != h,
    ensures
        drop_handle(ws, h) == ws,
    decreases ws.len(),
{
    if ws.len() > 0 {
        lemma_drop_absent(ws.drop_last(), h);
        assert(ws.drop_last().push(ws.last()) =~= ws);
    }
}

/// Removing a handle from a tree whose root has only leaves leaves a tree
/// whose root has only leaves, holding the same windows less those with
/// that handle.
pub proof fn lemma_remove_flat(old: Node<Window>, new: Node<Window>, h: isize)
    requires
        old.is_flat(),
        removed_from(old, new, h),
    ensures
        new.is_flat(),
        new.value == old.value,
        new.direction == old.direction,
        window_views(new.children@) == drop_handle(window_views(old.children@), h),
{
    let cs = old.children@;
    if exists|i: int| 0 <= i < cs.len() && is_leaf_with(#[trigger] cs[i], h) {
        assert forall|i: int| 0 <= i < cs.len() implies (#[trigger] cs[i]).children@.len() == 0 by {
            assert(cs[i].is_leaf_spec());
        }
        lemma_without_leaf_flat(cs, h);
        assert forall|i: int| 0 <= i < new.children@.len() implies #[trigger] new.children@[i].is_leaf_spec() by {
            assert(without_leaf(cs, h)[i].children@.len() == 0);
        }
    } else {
        assert(new.children@.len() == cs.len());
        assert forall|i: int| 0 <= i < cs.len() implies #[trigger] new.children@[i].is_leaf_spec()
            && new.children@[i].value == cs[i].value by {
            assert(cs[i].is_leaf_spec());
            assert(removed_from(cs[i], new.children@[i], h));
            assert(!exists|k: int| 0 <= k < cs[i].children@.len() && is_leaf_with(#[trigger] cs[i].children@[k], h));
        }
        assert forall|i: int| 0 <= i < cs.len() implies window_views(new.children@)[i] == #[trigger] window_views(cs)[i] by {
            assert(new.children@[i].is_leaf_spec());
        }
        assert(window_views(new.children@) =~= window_views(cs));
        assert forall|i: int| 0 <= i < cs.len() implies (#[trigger] window_views(cs)[i]).hwnd != h by {
            assert(!is_leaf_with(cs[i], h));
            assert(cs[i].is_leaf_spec());
        }
        lemma_drop_absent(window_views(cs), h);
    }
}

impl Workspace {
    /// The windows of the workspace as plain values, in order.
    pub open spec fn views(&self) -> Seq<WindowView> {
        window_views(self.windows.children@)
    }

    /// Where the windows of the workspace go on its monitor.
    pub open spec fn layout_spec(&self) -> Seq<Place> {
        layout(
            self.windows,
            self.monitor.rect.left as int,
            self.monitor.rect.top as int,
            self.monitor.width as int,
            self.monitor.height as int,
            self.monitor,
        )
    }

    /// The focus after a move on: unchanged with no child, else one on,
    /// wrapping to the first once it reaches the child count.
    pub open spec fn next_index(&self) -> usize {
        let n = self.windows.children@.len();
        let f = self.current_window_index;
        if n == 0 {
            f
        } else {
            focus_on(f as int, n as int) as usize
        }
    }

    /// The focus after a move back: unchanged with no child, the last child
    /// from the first, else one back.
    pub open spec fn previous_index(&self) -> usize {
        let n = self.windows.children@.len();
        let f = self.current_window_index;
        if n == 0 {
            f
        } else {
            focus_back(f as int, n as int) as usize
        }
    }

    /// The root's children are all leaves.
    pub open spec fn wf(&self) -> bool {
        self.windows.is_flat()
    }

    /// The windows of the workspace, in the order of the root's children.
    pub open spec fn leaves(&self) -> Seq<Window> {
        self.windows.children@.map_values(|c: Node<Window>| c.value)
    }

    /// Where the next window goes: the focus, or the end when the focus is
    /// past it.
    pub open spec fn insert_position(&self) -> int {
        if self.current_window_index <= self.windows.children@.len() {
            self.current_window_index as int
        } else {
            self.windows.children@.len() as int
        }
    }

    pub fn new(monitor: Monitor) -> (ws: Workspace)
        ensures
            ws.wf(),
            ws.monitor == monitor,
            ws.windows.children@.len() == 0,
            ws.current_window_index == 0,
    {
        Workspace {
            monitor,
            windows: Node::new(Window::new("()", 1), TilingDirection::Vertical),
            current_window_index: 0,
        }
    }

    /// Puts `window` in a new horizontal leaf at the focus.
    pub fn add_window(&mut self, window: Window)
        requires
            old(self).wf(),
        ensures
            final(self).wf(),
            final(self).monitor == old(self).monitor,
            final(self).current_window_index == old(self).current_window_index,
            final(self).windows.value == old(self).windows.value,
            final(self).leaves() == old(self).leaves().insert(old(self).insert_position(), window),
            final(self).views() == old(self).views().insert(old(self).insert_position(), window@),
            final(self).windows.children@[old(self).insert_position()].direction
                == TilingDirection::Horizontal,
    {
        let ghost at = self.insert_position();
        self.windows.insert_at(window, self.current_window_index, TilingDirection::Horizontal);
        proof {
            let o = old(self).windows.children@;
            let n = self.windows.children@;
            assert forall|i: int| 0 <= i < n.len() implies #[trigger] n[i].is_leaf_spec() by {
                if i < at {
                    assert(n[i] == n.take(at)[i]);
                    assert(o[i] == o.take(at)[i]);
                } else if i > at {
                    assert(n[i] == n.skip(at + 1)[i - at - 1]);
                    assert(o[i - 1] == o.skip(at)[i - at - 1]);
                }
            }
            assert forall|i: int| 0 <= i < n.len() implies self.leaves()[i] == old(self).leaves().insert(at, window)[i] by {
                if i < at {
                    assert(n[i] == n.take(at)[i]);
                    assert(o[i] == o.take(at)[i]);
                } else if i > at {
                    assert(n[i] == n.skip(at + 1)[i - at - 1]);
                    assert(o[i - 1] == o.skip(at)[i - at - 1]);
                }
            }
            assert(self.leaves() =~= old(self).leaves().insert(at, window));
            assert forall|i: int| 0 <= i < n.len() implies self.views()[i] == old(self).views().insert(at, window@)[i] by {
                if i < at {
                    assert(n[i] == n.take(at)[i]);
                    assert(o[i] == o.take(at)[i]);
                } else if i > at {
                    assert(n[i] == n.skip(at + 1)[i - at - 1]);
                    assert(o[i - 1] == o.skip(at)[i - at - 1]);
                }
            }
            assert(self.views() =~= old(self).views().insert(at, window@));
        }
    }

    /// Takes the window with handle `window_handle` out of the tree below
    /// `window`: where a child of a node is a leaf holding that handle, every
    /// such leaf of that node is dropped and the search stops; otherwise it
    /// goes on in every child.
    pub fn remove_window(window: &mut Node<Window>, window_handle: isize)
        ensures
            removed_from(*old(window), *final(window), window_handle),
        decreases *old(window),
    {
        let mut has_window_to_remove: bool = false;
        let mut i: usize = 0;
        while i < window.children.len()
            invariant
                0 <= i <= window.children@.len(),
                *window == *old(window),
                has_window_to_remove == exists|j: int|
                    0 <= j < i && is_leaf_with(#[trigger] window.children@[j], window_handle),
            decreases window.children@.len() - i,
        {
            if window.children[i].is_leaf() && window.children[i].value.hwnd == window_handle {
                has_window_to_remove = true;
            }
            i = i + 1;
        }
        if !has_window_to_remove {
            let mut i: usize = 0;
            while i < window.children.len()
                invariant
                    0 <= i <= window.children@.len(),
                    window.children@.len() == old(window).children@.len(),
                    window.value == old(window).value,
                    window.direction == old(window).direction,
                    forall|j: int|
                        0 <= j < i ==> removed_from(
                            #[trigger] old(window).children@[j],
                            window.children@[j],
                            window_handle,
                        ),
                    forall|j: int|
                        i <= j < window.children@.len() ==> #[trigger] window.children@[j]
                            == old(window).children@[j],
                decreases window.children@.len() - i,
            {
                proof {
                    assert(decreases_to!(old(window).children => old(window).children@[i as int]));
                }
                Workspace::remove_window(&mut window.children[i], window_handle);
                i = i + 1;
            }
            return;
        }
        let mut taken: Vec<Node<Window>> = Vec::new();
        std::mem::swap(&mut window.children, &mut taken);
        let ghost orig = taken@;
        let ghost mut consumed: int = 0;
        while taken.len() > 0
            invariant
                0 <= consumed <= orig.len(),
                taken@ == orig.skip(consumed),
                window.children@ == without_leaf(orig.take(consumed), window_handle),
                window.value == old(window).value,
                window.direction == old(window).direction,
            decreases taken@.len(),
        {
            let c = taken.remove(0);
            proof {
                assert(c == orig[consumed]);
                assert(orig.take(consumed + 1).drop_last() =~= orig.take(consumed));
                assert(orig.take(consumed + 1).last() == c);
            }
            if !(c.is_leaf() && c.value.hwnd == window_handle) {
                window.children.push(c);
            }
            proof {
                consumed = consumed + 1;
                assert(taken@ =~= orig.skip(consumed));
            }
        }
        proof {
            assert(orig.take(consumed) =~= orig);
        }
    }

    /// Appends to `out` the placements of the windows below `current_node`,
    /// which has the rectangle `x, y, width, height`.
    fn arrange_recursive(
        &self,
        current_node: &Node<Window>,
        x: i64,
        y: i64,
        width: i64,
        height: i64,
        out: &mut Vec<Placement>,
        Ghost(depth): Ghost<int>,
    )
        requires
            current_node.depth_at_most(depth),
            0 <= depth < MAX_DEPTH,
            -EXTENT <= width <= EXTENT,
            -EXTENT <= height <= EXTENT,
            -reach(depth) <= x <= reach(depth),
            -reach(depth) <= y <= reach(depth),
        ensures
            places(final(out)@) == places(old(out)@) + layout(
                *current_node,
                x as int,
                y as int,
                width as int,
                height as int,
                self.monitor,
            ),
        decreases depth,
    {
        let ghost start = places(out@);
        let ghost cs = current_node.children@;
        if current_node.is_leaf() {
            assert(places(out@) =~= start + layout(*current_node, x as int, y as int, width as int, height as int, self.monitor));
            return;
        }
        let mut managed: usize = 0;
        let mut i: usize = 0;
        while i < current_node.children.len()
            invariant
                0 <= i <= cs.len(),
                cs == current_node.children@,
                managed == managed_prefix(cs, i as int),
                managed <= i,
            decreases cs.len() - i,
        {
            if current_node.children[i].value.mode == TilingMode::Managed {
                managed = managed + 1;
            }
            i = i + 1;
        }
        let ghost m: nat = managed as nat;
        let width_ratio: i64;
        let height_ratio: i64;
        if managed > 0 {
            let aw: u64 = if width >= 0 { width as u64 } else { (-width) as u64 };
            let ah: u64 = if height >= 0 { height as u64 } else { (-height) as u64 };
            let qw: u64 = aw / (managed as u64);
            let qh: u64 = ah / (managed as u64);
            assert(qw <= aw && qh <= ah) by (nonlinear_arith)
                requires
                    qw == aw / (managed as u64),
                    qh == ah / (managed as u64),
                    managed > 0,
            ;
            width_ratio = if width >= 0 { qw as i64 } else { -(qw as i64) };
            height_ratio = if height >= 0 { qh as i64 } else { -(qh as i64) };
        } else {
            width_ratio = width;
            height_ratio = height;
        }
        assert(width_ratio == share(width as int, m));
        assert(height_ratio == share(height as int, m));
        let mut child_x: i64 = x;
        let mut child_y: i64 = y;
        proof {
            assert(current_node.depth_at_most(depth));
            assert(cs.len() > 0);
            assert(depth > 0);
            current_node.lemma_children_depth(cs.len() as int, depth - 1);
            assert forall|j: int| 0 <= j < cs.len() implies #[trigger] cs[j].depth_at_most(depth - 1) by {
                assert(current_node.children@[j] == cs[j]);
            }
            assert(directed_prefix(cs, 0, TilingDirection::Vertical) == 0);
            assert(directed_prefix(cs, 0, TilingDirection::Horizontal) == 0);
            assert(0 * height_ratio == 0);
            assert(0 * width_ratio == 0);
        }
        let mut i: usize = 0;
        while i < current_node.children.len()
            invariant
                0 <= i <= cs.len(),
                cs == current_node.children@,
                cs.len() > 0,
                0 < depth < MAX_DEPTH,
                -EXTENT <= width <= EXTENT,
                -EXTENT <= height <= EXTENT,
                -reach(depth) <= x <= reach(depth),
                -reach(depth) <= y <= reach(depth),
                forall|j: int| 0 <= j < cs.len() ==> #[trigger] cs[j].depth_at_most(depth - 1),
                managed == managed_count(cs),
                m == managed,
                width_ratio == share(width as int, m),
                height_ratio == share(height as int, m),
                -abs(width as int) <= width_ratio <= abs(width as int),
                -abs(height as int) <= height_ratio <= abs(height as int),
                child_x == x + directed_prefix(cs, i as int, TilingDirection::Horizontal) * width_ratio,
                child_y == y + directed_prefix(cs, i as int, TilingDirection::Vertical) * height_ratio,
                child_x == layout_prefix(*current_node, i as int, x as int, y as int, width as int, height as int, self.monitor).1,
                child_y == layout_prefix(*current_node, i as int, x as int, y as int, width as int, height as int, self.monitor).2,
                places(out@) == start + layout_prefix(
                    *current_node,
                    i as int,
                    x as int,
                    y as int,
                    width as int,
                    height as int,
                    self.monitor,
                ).0,
            decreases cs.len() - i,
        {
            let ghost hp = directed_prefix(cs, i as int, TilingDirection::Horizontal);
            let ghost vp = directed_prefix(cs, i as int, TilingDirection::Vertical);
            proof {
                lemma_directed_le_managed(cs, i as int, cs.len() as int, TilingDirection::Horizontal);
                lemma_directed_le_managed(cs, i as int, cs.len() as int, TilingDirection::Vertical);
                lemma_directed_le_managed(cs, i as int + 1, cs.len() as int, TilingDirection::Horizontal);
                lemma_directed_le_managed(cs, i as int + 1, cs.len() as int, TilingDirection::Vertical);
                lemma_shares_fit(width as int, m, hp);
                lemma_shares_fit(height as int, m, vp);
                lemma_shares_fit(width as int, m, directed_prefix(cs, i as int + 1, TilingDirection::Horizontal));
                lemma_shares_fit(height as int, m, directed_prefix(cs, i as int + 1, TilingDirection::Vertical));
                assert((hp + 1) * width_ratio == hp * width_ratio + width_ratio) by (nonlinear_arith);
                assert(reach(depth - 1) == reach(depth) + EXTENT) by (nonlinear_arith);
                assert(reach(depth) + EXTENT <= EXTENT * MAX_DEPTH) by (nonlinear_arith)
                    requires
                        depth >= 1,
                ;
                assert(EXTENT * MAX_DEPTH == 0x2000_0000_0000_0000);
                assert(0 <= reach(depth)) by (nonlinear_arith)
                    requires
                        depth < MAX_DEPTH,
                ;
                assert(-reach(depth - 1) <= child_x <= reach(depth - 1));
                assert((vp + 1) * height_ratio == vp * height_ratio + height_ratio) by (nonlinear_arith);
            }
            let children = &current_node.children[i];
            let child_width = if children.direction == TilingDirection::Horizontal {
                width_ratio
            } else {
                width
            };
            let child_height = if children.direction == TilingDirection::Vertical {
                height_ratio
            } else {
                height
            };
            let ghost before = places(out@);
            match children.value.mode {
                TilingMode::Managed => {
                    if children.is_leaf() {
                        out.push(
                            Placement {
                                hwnd: children.value.hwnd,
                                x: child_x,
                                y: child_y,
                                width: child_width,
                                height: child_height,
                                raise: false,
                            },
                        );
                        assert(places(out@) =~= before.push(out@.last()@));
                    } else {
                        self.arrange_recursive(
                            children,
                            child_x,
                            child_y,
                            child_width,
                            child_height,
                            out,
                            Ghost(depth - 1),
                        );
                    }
                    match children.direction {
                        TilingDirection::Vertical => child_y = child_y + child_height,
                        TilingDirection::Horizontal => child_x = child_x + child_width,
                    }
                },
                TilingMode::Monocle => {
                    if children.is_leaf() {
                        out.push(
                            Placement {
                                hwnd: children.value.hwnd,
                                x: self.monitor.rect.left as i64,
                                y: self.monitor.rect.top as i64,
                                width: self.monitor.width as i64,
                                height: self.monitor.height as i64,
                                raise: true,
                            },
                        );
                        assert(places(out@) =~= before.push(out@.last()@));
                    } else {
                        self.arrange_recursive(
                            children,
                            child_x,
                            child_y,
                            child_width,
                            child_height,
                            out,
                            Ghost(depth - 1),
                        );
                    }
                },
            }
            i = i + 1;
        }
    }

    /// The placements of every window of the workspace on its monitor.
    pub fn arrange_windows(&self) -> (r: Vec<Placement>)
        requires
            self.wf(),
        ensures
            places(r@) == self.layout_spec(),
    {
        let mut out: Vec<Placement> = Vec::new();
        proof {
            assert forall|j: int| 0 <= j < self.windows.children@.len() implies #[trigger] self.windows.children@[j].depth_at_most(0) by {
                assert(self.windows.children@[j].is_leaf_spec());
            }
            assert(places(out@) =~= Seq::empty());
            self.windows.lemma_children_depth(self.windows.children@.len() as int, 0);
            assert(self.windows.depth_at_most(1));
        }
        self.arrange_recursive(
            &self.windows,
            self.monitor.rect.left as i64,
            self.monitor.rect.top as i64,
            self.monitor.width as i64,
            self.monitor.height as i64,
            &mut out,
            Ghost(1),
        );
        assert(places(out@) =~= layout(
            self.windows,
            self.monitor.rect.left as int,
            self.monitor.rect.top as int,
            self.monitor.width as int,
            self.monitor.height as int,
            self.monitor,
        ));
        out
    }

    /// The window at the focus.
    pub fn get_current_window(&self) -> (w: &Node<Window>)
        requires
            self.current_window_index < self.windows.children@.len(),
        ensures
            *w == self.windows.children@[self.current_window_index as int],
    {
        &self.windows.children[self.current_window_index]
    }

    pub fn is_current_workspace(&self, x: i32, y: i32) -> (r: bool)
        ensures
            r == strictly_inside(self.monitor.rect, x as int, y as int),
    {
        self.monitor.is_point_in_monitor(x, y)
    }

    pub fn is_on_monitor(&self, monitor: isize) -> (r: bool)
        ensures
            r == (self.monitor.monitor_handle == monitor),
    {
        self.monitor.monitor_handle == monitor
    }

    /// Moves the focus one child on, wrapping to the first after the last.
    pub fn set_current_next(&mut self)
        ensures
            final(self).monitor == old(self).monitor,
            final(self).windows == old(self).windows,
            final(self).current_window_index == old(self).next_index(),
    {
        if self.windows.children.is_empty() {
            return;
        }
        if self.current_window_index >= self.windows.children.len() - 1 {
            self.current_window_index = 0;
        } else {
            self.current_window_index = self.current_window_index + 1;
        }
    }

    /// Moves the focus one child back; from the first child it goes to the
    /// child count, then one back, that is to the last.
    pub fn set_current_previous(&mut self)
        ensures
            final(self).monitor == old(self).monitor,
            final(self).windows == old(self).windows,
            final(self).current_window_index == old(self).previous_index(),
    {
        if self.windows.children.is_empty() {
            return;
        }
        if self.current_window_index == 0 {
            self.current_window_index = self.windows.children.len();
        }
        self.current_window_index = self.current_window_index - 1;
    }

    /// Sets the tiling mode of the window at the focus, if the focus is on
    /// a child.
    pub fn set_current_tiling_mode(&mut self, mode: &TilingMode)
        requires
            old(self).wf(),
        ensures
            final(self).wf(),
            final(self).monitor == old(self).monitor,
            final(self).current_window_index == old(self).current_window_index,
            final(self).windows.value == old(self).windows.value,
            final(self).windows.direction == old(self).windows.direction,
            old(self).current_window_index < old(self).windows.children@.len() ==> ({
                let i = old(self).current_window_index as int;
                let c = old(self).windows.children@[i];
                let d = final(self).windows.children@[i];
                &&& final(self).windows.children@.len() == old(self).windows.children@.len()
                &&& forall|j: int|
                    0 <= j < old(self).windows.children@.len() && j != i
                        ==> final(self).windows.children@[j] == #[trigger] old(self).windows.children@[j]
                &&& d.value.mode == *mode
                &&& d.value.hwnd == c.value.hwnd
                &&& d.value.title == c.value.title
                &&& d.direction == c.direction
                &&& d.children == c.children
            }),
            old(self).current_window_index >= old(self).windows.children@.len() ==> final(self).windows == old(self).windows,
            final(self).views() == with_mode(old(self).views(), old(self).current_window_index as int, *mode),
    {
        if self.current_window_index < self.windows.children.len() {
            let i = self.current_window_index;
            self.windows.children[i].value.set_mode(*mode);
            assert(self.windows.children@ == old(self).windows.children@.update(
                i as int,
                self.windows.children@[i as int],
            ));
            assert forall|j: int| 0 <= j < self.windows.children@.len() implies #[trigger] self.windows.children@[j].is_leaf_spec() by {
                assert(old(self).windows.children@[j].is_leaf_spec());
            }
            assert(self.views() =~= with_mode(old(self).views(), i as int, *mode));
        }
    }
}

} // verus!

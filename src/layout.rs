use vstd::prelude::*;
use crate::monitor::Monitor;
use crate::tree::{Node, TilingDirection};
use crate::windows::{TilingMode, Window};

verus! {

/// Where one window goes: its position and size, and whether it is raised
/// above its siblings.
#[derive(PartialEq, Eq, Structural, Clone, Copy, Debug)]
pub struct Placement {
    pub hwnd: isize,
    pub x: i64,
    pub y: i64,
    pub width: i64,
    pub height: i64,
    pub raise: bool,
}

/// A placement over mathematical integers.
pub struct Place {
    pub hwnd: isize,
    pub x: int,
    pub y: int,
    pub width: int,
    pub height: int,
    pub raise: bool,
}

impl Placement {
    pub open spec fn view(self) -> Place {
        Place {
            hwnd: self.hwnd,
            x: self.x as int,
            y: self.y as int,
            width: self.width as int,
            height: self.height as int,
            raise: self.raise,
        }
    }
}

pub open spec fn places(v: Seq<Placement>) -> Seq<Place> {
    v.map_values(|p: Placement| p@)
}

/// Integer division rounding toward zero, as machine division does.
pub open spec fn trunc_div(a: int, b: int) -> int {
    if a >= 0 {
        a / b
    } else {
        -((-a) / b)
    }
}

/// How many of the first `k` nodes of `cs` are in managed mode.
pub open spec fn managed_prefix(cs: Seq<Node<Window>>, k: int) -> nat
    decreases k,
{
    if k <= 0 {
        0
    } else {
        managed_prefix(cs, k - 1) + if cs[k - 1].value.mode == TilingMode::Managed {
            1nat
        } else {
            0nat
        }
    }
}

/// How many of the first `k` nodes of `cs` are managed and tagged `dir`.
pub open spec fn directed_prefix(cs: Seq<Node<Window>>, k: int, dir: TilingDirection) -> nat
    decreases k,
{
    if k <= 0 {
        0
    } else {
        directed_prefix(cs, k - 1, dir) + if cs[k - 1].value.mode == TilingMode::Managed
            && cs[k - 1].direction == dir {
            1nat
        } else {
            0nat
        }
    }
}

pub proof fn lemma_directed_le_managed(cs: Seq<Node<Window>>, k: int, j: int, dir: TilingDirection)
    requires
        0 <= k <= j <= cs.len(),
    ensures
        directed_prefix(cs, k, dir) <= managed_prefix(cs, j),
    decreases j,
{
    if j > k {
        lemma_directed_le_managed(cs, k, j - 1, dir);
    } else if k > 0 {
        lemma_directed_le_managed(cs, k - 1, k - 1, dir);
    }
}

/// `k` shares of `extent` among `m` never exceed the extent.
pub proof fn lemma_shares_fit(extent: int, m: nat, k: nat)
    requires
        k <= m,
        m > 0 || k == 0,
    ensures
        -abs(extent) <= k * share(extent, m) <= abs(extent),
        -abs(extent) <= share(extent, m) <= abs(extent),
{
    if m > 0 {
        let a = abs(extent);
        let q = a / (m as int);
        assert(0 <= q * (m as int) <= a) by (nonlinear_arith)
            requires
                q == a / (m as int),
                m > 0,
                a >= 0,
        ;
        assert(0 <= k * q <= q * (m as int)) by (nonlinear_arith)
            requires
                k <= m,
                q >= 0,
        ;
        assert(q <= a) by (nonlinear_arith)
            requires
                q * (m as int) <= a,
                m > 0,
                q >= 0,
        ;
        if extent < 0 {
            assert(k * share(extent, m) == -(k * q)) by (nonlinear_arith)
                requires
                    share(extent, m) == -q,
            ;
        }
    } else {
        assert(k * share(extent, m) == 0);
    }
}

pub open spec fn abs(a: int) -> int {
    if a >= 0 {
        a
    } else {
        -a
    }
}

pub open spec fn managed_count(cs: Seq<Node<Window>>) -> nat {
    managed_prefix(cs, cs.len() as int)
}

/// The equal share of `extent` that each of `m` managed children draws;
/// with no managed child there is nothing to divide and the share is the
/// whole extent.
pub open spec fn share(extent: int, m: nat) -> int {
    if m > 0 {
        trunc_div(extent, m as int)
    } else {
        extent
    }
}

/// The width a child takes: the share when it is horizontal, else all of it.
pub open spec fn child_width(c: Node<Window>, w: int, m: nat) -> int {
    if c.direction == TilingDirection::Horizontal {
        share(w, m)
    } else {
        w
    }
}

/// The height a child takes: the share when it is vertical, else all of it.
pub open spec fn child_height(c: Node<Window>, h: int, m: nat) -> int {
    if c.direction == TilingDirection::Vertical {
        share(h, m)
    } else {
        h
    }
}

/// The whole monitor, raised: where a monocle leaf goes.
pub open spec fn full_monitor(hwnd: isize, mon: Monitor) -> Place {
    Place {
        hwnd,
        x: mon.rect.left as int,
        y: mon.rect.top as int,
        width: mon.width as int,
        height: mon.height as int,
        raise: true,
    }
}

/// The placements of every window below `n` when `n` has the rectangle
/// `x, y, w, h` on the monitor `mon`, in the order of a depth-first walk.
pub open spec fn layout(n: Node<Window>, x: int, y: int, w: int, h: int, mon: Monitor) -> Seq<Place>
    decreases n,
{
    layout_prefix(n, n.children@.len() as int, x, y, w, h, mon).0
}

/// The placements of the first `k` children of `n`, and where the cursor
/// stands after them.
pub open spec fn layout_prefix(
    n: Node<Window>,
    k: int,
    x: int,
    y: int,
    w: int,
    h: int,
    mon: Monitor,
) -> (Seq<Place>, int, int)
    decreases n, k,
{
    if k <= 0 || k > n.children@.len() {
        (Seq::empty(), x, y)
    } else {
        let prev = layout_prefix(n, k - 1, x, y, w, h, mon);
        let c = n.children@[k - 1];
        let m = managed_count(n.children@);
        let cw = child_width(c, w, m);
        let ch = child_height(c, h, m);
        let cx = prev.1;
        let cy = prev.2;
        if c.value.mode == TilingMode::Managed {
            let placed = if c.children@.len() == 0 {
                seq![Place { hwnd: c.value.hwnd, x: cx, y: cy, width: cw, height: ch, raise: false }]
            } else {
                layout(c, cx, cy, cw, ch, mon)
            };
            if c.direction == TilingDirection::Vertical {
                (prev.0 + placed, cx, cy + ch)
            } else {
                (prev.0 + placed, cx + cw, cy)
            }
        } else {
            let placed = if c.children@.len() == 0 {
                seq![full_monitor(c.value.hwnd, mon)]
            } else {
                layout(c, cx, cy, cw, ch, mon)
            };
            (prev.0 + placed, cx, cy)
        }
    }
}

/// Every raised placement of `s` covers the whole monitor.
pub open spec fn raised_fill(s: Seq<Place>, mon: Monitor) -> bool {
    forall|i: int| 0 <= i < s.len() && (#[trigger] s[i]).raise ==> s[i] == full_monitor(s[i].hwnd, mon)
}

proof fn lemma_raised_fill_prefix(
    n: Node<Window>,
    k: int,
    x: int,
    y: int,
    w: int,
    h: int,
    mon: Monitor,
)
    ensures
        raised_fill(layout_prefix(n, k, x, y, w, h, mon).0, mon),
    decreases n, k,
{
    if 0 < k <= n.children@.len() {
        let prev = layout_prefix(n, k - 1, x, y, w, h, mon);
        lemma_raised_fill_prefix(n, k - 1, x, y, w, h, mon);
        let c = n.children@[k - 1];
        let m = managed_count(n.children@);
        let cw = child_width(c, w, m);
        let ch = child_height(c, h, m);
        let all = layout_prefix(n, k, x, y, w, h, mon).0;
        if c.children@.len() != 0 {
            lemma_raised_fill_prefix(c, c.children@.len() as int, prev.1, prev.2, cw, ch, mon);
            let sub = layout(c, prev.1, prev.2, cw, ch, mon);
            assert(all == prev.0 + sub);
            assert forall|i: int| 0 <= i < all.len() && (#[trigger] all[i]).raise implies all[i]
                == full_monitor(all[i].hwnd, mon) by {
                if i < prev.0.len() {
                    assert(all[i] == prev.0[i]);
                } else {
                    assert(all[i] == sub[i - prev.0.len()]);
                }
            }
        } else {
            assert forall|i: int| 0 <= i < all.len() && (#[trigger] all[i]).raise implies all[i]
                == full_monitor(all[i].hwnd, mon) by {
                if i < prev.0.len() {
                    assert(all[i] == prev.0[i]);
                }
            }
        }
    }
}

/// Placements laid out earlier stay as they are when more children follow.
proof fn lemma_prefix_grows(
    n: Node<Window>,
    k: int,
    j: int,
    x: int,
    y: int,
    w: int,
    h: int,
    mon: Monitor,
)
    requires
        0 <= k <= j <= n.children@.len(),
    ensures
        layout_prefix(n, k, x, y, w, h, mon).0.len() <= layout_prefix(n, j, x, y, w, h, mon).0.len(),
        forall|i: int|
            0 <= i < layout_prefix(n, k, x, y, w, h, mon).0.len() ==> #[trigger] layout_prefix(
                n,
                j,
                x,
                y,
                w,
                h,
                mon,
            ).0[i] == layout_prefix(n, k, x, y, w, h, mon).0[i],
    decreases j,
{
    if j > k {
        lemma_prefix_grows(n, k, j - 1, x, y, w, h, mon);
    }
}

/// A window in monocle mode covers the whole monitor and is raised: every
/// raised placement, at whatever depth, is the monitor's rectangle, and a
/// monocle leaf among the children gets that placement whatever its
/// siblings are.
pub proof fn lemma_monocle_placement(n: Node<Window>, x: int, y: int, w: int, h: int, mon: Monitor)
    ensures
        raised_fill(layout(n, x, y, w, h, mon), mon),
        forall|i: int|
            0 <= i < n.children@.len() && (#[trigger] n.children@[i]).children@.len() == 0
                && n.children@[i].value.mode == TilingMode::Monocle ==> layout(
                n,
                x,
                y,
                w,
                h,
                mon,
            ).contains(full_monitor(n.children@[i].value.hwnd, mon)),
{
    lemma_raised_fill_prefix(n, n.children@.len() as int, x, y, w, h, mon);
    assert forall|i: int|
        0 <= i < n.children@.len() && (#[trigger] n.children@[i]).children@.len() == 0
            && n.children@[i].value.mode == TilingMode::Monocle implies layout(
        n,
        x,
        y,
        w,
        h,
        mon,
    ).contains(full_monitor(n.children@[i].value.hwnd, mon)) by {
        let part = layout_prefix(n, i + 1, x, y, w, h, mon).0;
        let last = part.len() - 1;
        assert(part[last] == full_monitor(n.children@[i].value.hwnd, mon));
        lemma_prefix_grows(n, i + 1, n.children@.len() as int, x, y, w, h, mon);
        assert(layout(n, x, y, w, h, mon)[last] == part[last]);
    }
}

/// The placements below a child that has children of its own are among its
/// parent's, wherever the child stands: a law that holds at one level holds
/// at every depth.
pub proof fn lemma_subtree_placements(
    n: Node<Window>,
    i: int,
    x: int,
    y: int,
    w: int,
    h: int,
    mon: Monitor,
)
    requires
        0 <= i < n.children@.len(),
        n.children@[i].children@.len() > 0,
    ensures
        ({
            let prev = layout_prefix(n, i, x, y, w, h, mon);
            let c = n.children@[i];
            let m = managed_count(n.children@);
            forall|p: Place|
                layout(c, prev.1, prev.2, child_width(c, w, m), child_height(c, h, m), mon).contains(p)
                    ==> layout(n, x, y, w, h, mon).contains(p)
        }),
{
    let prev = layout_prefix(n, i, x, y, w, h, mon);
    let c = n.children@[i];
    let m = managed_count(n.children@);
    let sub = layout(c, prev.1, prev.2, child_width(c, w, m), child_height(c, h, m), mon);
    lemma_prefix_grows(n, i + 1, n.children@.len() as int, x, y, w, h, mon);
    assert forall|p: Place| sub.contains(p) implies layout(n, x, y, w, h, mon).contains(p) by {
        let q = choose|q: int| 0 <= q < sub.len() && sub[q] == p;
        let part = layout_prefix(n, i + 1, x, y, w, h, mon).0;
        assert(part == prev.0 + sub);
        assert(part[prev.0.len() + q] == p);
        assert(layout(n, x, y, w, h, mon)[prev.0.len() + q] == p);
    }
}

/// A leaf in monocle mode holding handle `h` stands below `n`, at any depth.
pub open spec fn has_monocle_leaf(n: Node<Window>, h: isize) -> bool
    decreases n,
{
    has_monocle_leaf_among(n, n.children@.len() as int, h)
}

/// Such a leaf stands among, or below, the first `k` children of `n`.
pub open spec fn has_monocle_leaf_among(n: Node<Window>, k: int, h: isize) -> bool
    decreases n, k,
{
    if k <= 0 || k > n.children@.len() {
        false
    } else {
        has_monocle_leaf_among(n, k - 1, h) || {
            let c = n.children@[k - 1];
            if c.children@.len() == 0 {
                c.value.mode == TilingMode::Monocle && c.value.hwnd == h
            } else {
                has_monocle_leaf(c, h)
            }
        }
    }
}

/// A monocle leaf, however deep below `n` it stands, is placed over the
/// whole monitor and raised.
pub proof fn lemma_monocle_at_any_depth(
    n: Node<Window>,
    x: int,
    y: int,
    w: int,
    h: int,
    mon: Monitor,
    hwnd: isize,
)
    requires
        has_monocle_leaf(n, hwnd),
    ensures
        layout(n, x, y, w, h, mon).contains(full_monitor(hwnd, mon)),
    decreases n, n.children@.len() + 1,
{
    lemma_monocle_among(n, n.children@.len() as int, x, y, w, h, mon, hwnd);
}

proof fn lemma_monocle_among(
    n: Node<Window>,
    k: int,
    x: int,
    y: int,
    w: int,
    h: int,
    mon: Monitor,
    hwnd: isize,
)
    requires
        has_monocle_leaf_among(n, k, hwnd),
    ensures
        layout(n, x, y, w, h, mon).contains(full_monitor(hwnd, mon)),
    decreases n, k,
{
    if has_monocle_leaf_among(n, k - 1, hwnd) {
        lemma_monocle_among(n, k - 1, x, y, w, h, mon, hwnd);
    } else {
        let c = n.children@[k - 1];
        if c.children@.len() == 0 {
            lemma_monocle_placement(n, x, y, w, h, mon);
            assert(n.children@[k - 1].children@.len() == 0);
        } else {
            let prev = layout_prefix(n, k - 1, x, y, w, h, mon);
            let m = managed_count(n.children@);
            lemma_monocle_at_any_depth(
                c,
                prev.1,
                prev.2,
                child_width(c, w, m),
                child_height(c, h, m),
                mon,
                hwnd,
            );
            lemma_subtree_placements(n, k - 1, x, y, w, h, mon);
        }
    }
}

/// Two lists of placements with the same values are the same.
pub proof fn lemma_places_injective(a: Seq<Placement>, b: Seq<Placement>)
    requires
        places(a) == places(b),
    ensures
        a == b,
{
    assert(a.len() == places(a).len());
    assert forall|i: int| 0 <= i < a.len() implies a[i] == b[i] by {
        assert(places(a)[i] == places(b)[i]);
        assert(places(a)[i] == a[i]@);
        assert(places(b)[i] == b[i]@);
        assert(a[i].x == b[i].x && a[i].y == b[i].y && a[i].width == b[i].width && a[i].height
            == b[i].height);
    }
    assert(a =~= b);
}

} // verus!

use vstd::prelude::*;
use crate::config::Config;
use crate::windows::WindowView;
use crate::workspace::{drop_handle, with_mode};
use crate::wm::{
    LiveWindow, Tracking, admit_all, admit_step, drop_handles, gone_handles, insert_at_focus,
    is_tiled, managed_handles, put_spaces,
};

verus! {

/// How many windows of `ws` have handle `h`.
pub open spec fn count_in(ws: Seq<WindowView>, h: isize) -> nat
    decreases ws.len(),
{
    if ws.len() == 0 {
        0
    } else {
        count_in(ws.drop_last(), h) + if ws.last().hwnd == h {
            1nat
        } else {
            0nat
        }
    }
}

/// How many windows of all the workspaces have handle `h`.
pub open spec fn occurrences(sp: Seq<Seq<WindowView>>, h: isize) -> nat
    decreases sp.len(),
{
    if sp.len() == 0 {
        0
    } else {
        occurrences(sp.drop_last(), h) + count_in(sp.last(), h)
    }
}

/// The known handles are distinct, and each is held by exactly one window
/// of exactly one workspace, while no window holds an unknown handle.
pub open spec fn consistent(t: Tracking) -> bool {
    &&& t.known.no_duplicates()
    &&& forall|h: isize| #[trigger]
        occurrences(t.spaces, h) == if t.known.contains(h) {
            1nat
        } else {
            0nat
        }
}

/// No two live windows share a handle.
pub open spec fn distinct_handles(live: Seq<LiveWindow>) -> bool {
    forall|i: int, j: int|
        0 <= i < live.len() && 0 <= j < live.len() && i != j ==> #[trigger] live[i].hwnd
            != #[trigger] live[j].hwnd
}

proof fn lemma_count_drop(ws: Seq<WindowView>, h: isize, x: isize)
    ensures
        count_in(drop_handle(ws, h), x) == if x == h {
            0
        } else {
            count_in(ws, x)
        },
    decreases ws.len(),
{
    if ws.len() > 0 {
        lemma_count_drop(ws.drop_last(), h, x);
        if ws.last().hwnd != h {
            assert(drop_handle(ws, h).drop_last() =~= drop_handle(ws.drop_last(), h));
        }
    }
}

proof fn lemma_count_drops(ws: Seq<WindowView>, hs: Seq<isize>, x: isize)
    ensures
        count_in(drop_handles(ws, hs), x) == if hs.contains(x) {
            0
        } else {
            count_in(ws, x)
        },
    decreases hs.len(),
{
    if hs.len() > 0 {
        lemma_count_drops(ws, hs.drop_last(), x);
        lemma_count_drop(drop_handles(ws, hs.drop_last()), hs.last(), x);
        assert(hs.contains(x) <==> (hs.drop_last().contains(x) || hs.last() == x)) by {
            if hs.contains(x) {
                let i = choose|i: int| 0 <= i < hs.len() && hs[i] == x;
                if i < hs.len() - 1 {
                    assert(hs.drop_last()[i] == x);
                }
            }
            if hs.drop_last().contains(x) {
                let i = choose|i: int| 0 <= i < hs.drop_last().len() && hs.drop_last()[i] == x;
                assert(hs[i] == x);
            }
            if hs.last() == x {
                assert(hs[hs.len() - 1] == x);
            }
        }
    } else {
        assert(!hs.contains(x));
    }
}

proof fn lemma_count_insert(ws: Seq<WindowView>, p: int, w: WindowView, x: isize)
    requires
        0 <= p <= ws.len(),
    ensures
        count_in(ws.insert(p, w), x) == count_in(ws, x) + if w.hwnd == x {
            1nat
        } else {
            0nat
        },
    decreases ws.len(),
{
    if p < ws.len() {
        lemma_count_insert(ws.drop_last(), p, w, x);
        assert(ws.insert(p, w).drop_last() =~= ws.drop_last().insert(p, w));
        assert(ws.insert(p, w).last() == ws.last());
    } else {
        assert(ws.insert(p, w) =~= ws.push(w));
        assert(ws.push(w).drop_last() =~= ws);
    }
}

proof fn lemma_count_with_mode(ws: Seq<WindowView>, f: int, m: crate::windows::TilingMode, x: isize)
    ensures
        count_in(with_mode(ws, f, m), x) == count_in(ws, x),
    decreases ws.len(),
{
    if 0 <= f < ws.len() && ws.len() > 0 {
        if f < ws.len() - 1 {
            lemma_count_with_mode(ws.drop_last(), f, m, x);
            assert(with_mode(ws, f, m).drop_last() =~= with_mode(ws.drop_last(), f, m));
        } else {
            assert(with_mode(ws, f, m).drop_last() =~= ws.drop_last());
        }
    }
}

proof fn lemma_occurrences_update(sp: Seq<Seq<WindowView>>, j: int, v: Seq<WindowView>, x: isize)
    requires
        0 <= j < sp.len(),
    ensures
        occurrences(sp.update(j, v), x) + count_in(sp[j], x) == occurrences(sp, x) + count_in(v, x),
    decreases sp.len(),
{
    if j < sp.len() - 1 {
        lemma_occurrences_update(sp.drop_last(), j, v, x);
        assert(sp.update(j, v).drop_last() =~= sp.drop_last().update(j, v));
    } else {
        assert(sp.update(j, v).drop_last() =~= sp.drop_last());
    }
}

proof fn lemma_occurrences_drops(
    sp: Seq<Seq<WindowView>>,
    dropped: Seq<Seq<WindowView>>,
    hs: Seq<isize>,
    x: isize,
)
    requires
        dropped.len() == sp.len(),
        forall|j: int| 0 <= j < sp.len() ==> #[trigger] dropped[j] == drop_handles(sp[j], hs),
    ensures
        occurrences(dropped, x) == if hs.contains(x) {
            0
        } else {
            occurrences(sp, x)
        },
    decreases sp.len(),
{
    if sp.len() > 0 {
        lemma_occurrences_drops(sp.drop_last(), dropped.drop_last(), hs, x);
        lemma_count_drops(sp.last(), hs, x);
        assert(dropped.last() == dropped[sp.len() - 1]);
    }
}

proof fn lemma_gone_contains(known: Seq<isize>, managed: Seq<isize>, x: isize)
    ensures
        gone_handles(known, managed).contains(x) <==> (known.contains(x) && !managed.contains(x)),
    decreases known.len(),
{
    if known.len() > 0 {
        lemma_gone_contains(known.drop_last(), managed, x);
        let g = gone_handles(known, managed);
        let g0 = gone_handles(known.drop_last(), managed);
        assert(known.contains(x) <==> (known.drop_last().contains(x) || known.last() == x)) by {
            if known.contains(x) {
                let i = choose|i: int| 0 <= i < known.len() && known[i] == x;
                if i < known.len() - 1 {
                    assert(known.drop_last()[i] == x);
                }
            }
            if known.drop_last().contains(x) {
                let i = choose|i: int| 0 <= i < known.drop_last().len() && known.drop_last()[i] == x;
                assert(known[i] == x);
            }
            if known.last() == x {
                assert(known[known.len() - 1] == x);
            }
        }
        if !managed.contains(known.last()) {
            assert(g == g0.push(known.last()));
            assert(g.contains(x) <==> (g0.contains(x) || known.last() == x)) by {
                if g.contains(x) {
                    let i = choose|i: int| 0 <= i < g.len() && g[i] == x;
                    if i < g.len() - 1 {
                        assert(g0[i] == x);
                    }
                }
                if g0.contains(x) {
                    let i = choose|i: int| 0 <= i < g0.len() && g0[i] == x;
                    assert(g[i] == x);
                }
                if known.last() == x {
                    assert(g[g.len() - 1] == x);
                }
            }
        }
    }
}

proof fn lemma_managed_from_live(config: Config, live: Seq<LiveWindow>, h: isize)
    ensures
        managed_handles(config, live).contains(h) ==> exists|i: int|
            0 <= i < live.len() && (#[trigger] live[i]).hwnd == h,
    decreases live.len(),
{
    if live.len() > 0 {
        let m = managed_handles(config, live);
        let m0 = managed_handles(config, live.drop_last());
        lemma_managed_from_live(config, live.drop_last(), h);
        if m.contains(h) {
            let k = choose|k: int| 0 <= k < m.len() && m[k] == h;
            if is_tiled(config, live.last()) && k == m.len() - 1 {
                assert(live[live.len() - 1].hwnd == h);
            } else {
                assert(m0[k] == h);
                let i = choose|i: int| 0 <= i < live.drop_last().len() && (#[trigger] live.drop_last()[i]).hwnd == h;
                assert(live[i].hwnd == h);
            }
        }
    }
}

/// The handles of the tiled windows are distinct when the live windows'
/// handles are.
pub proof fn lemma_managed_distinct(config: Config, live: Seq<LiveWindow>)
    requires
        distinct_handles(live),
    ensures
        managed_handles(config, live).no_duplicates(),
    decreases live.len(),
{
    if live.len() > 0 {
        let l0 = live.drop_last();
        assert(distinct_handles(l0)) by {
            assert forall|i: int, j: int|
                0 <= i < l0.len() && 0 <= j < l0.len() && i != j implies #[trigger] l0[i].hwnd
                != #[trigger] l0[j].hwnd by {
                assert(l0[i] == live[i] && l0[j] == live[j]);
            }
        }
        lemma_managed_distinct(config, l0);
        if is_tiled(config, live.last()) {
            let h = live.last().hwnd;
            lemma_managed_from_live(config, l0, h);
            if managed_handles(config, l0).contains(h) {
                let i = choose|i: int| 0 <= i < l0.len() && (#[trigger] l0[i]).hwnd == h;
                assert(live[i].hwnd == live[live.len() - 1].hwnd);
            }
        }
    }
}

/// When fewer windows are tiled than are known and every tiled window is
/// known, dropping the windows that are gone keeps each known handle in
/// exactly one window.
pub proof fn lemma_shrink_consistent(before: Tracking, managed: Seq<isize>, after: Tracking)
    requires
        consistent(before),
        managed.no_duplicates(),
        forall|h: isize| managed.contains(h) ==> before.known.contains(h),
        after.known == managed,
        after.spaces.len() == before.spaces.len(),
        forall|j: int|
            0 <= j < before.spaces.len() ==> #[trigger] after.spaces[j] == drop_handles(
                before.spaces[j],
                gone_handles(before.known, managed),
            ),
    ensures
        consistent(after),
{
    assert forall|h: isize| #[trigger]
        occurrences(after.spaces, h) == if after.known.contains(h) {
            1nat
        } else {
            0nat
        } by {
        lemma_occurrences_drops(before.spaces, after.spaces, gone_handles(before.known, managed), h);
        lemma_gone_contains(before.known, managed, h);
        assert(occurrences(before.spaces, h) == if before.known.contains(h) {
            1nat
        } else {
            0nat
        });
    }
}

/// Taking in one live window keeps each known handle in exactly one window.
pub proof fn lemma_admit_step_consistent(
    st: Tracking,
    workspaces: Seq<crate::workspace::Workspace>,
    config: Config,
    w: LiveWindow,
)
    requires
        consistent(st),
        st.spaces.len() == workspaces.len(),
    ensures
        consistent(admit_step(st, workspaces, config, w)),
        admit_step(st, workspaces, config, w).spaces.len() == workspaces.len(),
{
    let next = admit_step(st, workspaces, config, w);
    let j = crate::wm::first_on(workspaces, w.monitor, 0);
    crate::wm::lemma_first_on_bounds(workspaces, w.monitor, 0);
    if is_tiled(config, w) && !st.known.contains(w.hwnd) && j < workspaces.len() {
        let f = workspaces[j].current_window_index as int;
        let ws = st.spaces[j];
        let p = if f <= ws.len() {
            f
        } else {
            ws.len() as int
        };
        let v = WindowView { hwnd: w.hwnd, title: w.title@, mode: crate::windows::TilingMode::Managed };
        assert(next.spaces[j] == insert_at_focus(ws, f, v));
        assert forall|h: isize| #[trigger]
            occurrences(next.spaces, h) == if next.known.contains(h) {
                1nat
            } else {
                0nat
            } by {
            lemma_occurrences_update(st.spaces, j, insert_at_focus(ws, f, v), h);
            lemma_count_insert(ws, p, v, h);
            assert(occurrences(st.spaces, h) == if st.known.contains(h) {
                1nat
            } else {
                0nat
            });
            assert(next.known.contains(h) <==> (st.known.contains(h) || h == w.hwnd)) by {
                if next.known.contains(h) {
                    let i = choose|i: int| 0 <= i < next.known.len() && next.known[i] == h;
                    if i < st.known.len() {
                        assert(st.known[i] == h);
                    }
                }
                if st.known.contains(h) {
                    let i = choose|i: int| 0 <= i < st.known.len() && st.known[i] == h;
                    assert(next.known[i] == h);
                }
                if h == w.hwnd {
                    assert(next.known[st.known.len() as int] == h);
                }
            }
        }
        assert(next.known.no_duplicates()) by {
            assert forall|a: int, b: int|
                0 <= a < next.known.len() && 0 <= b < next.known.len() && a != b implies next.known[a]
                != next.known[b] by {
                if a < st.known.len() && b < st.known.len() {
                } else if a < st.known.len() {
                    assert(st.known.contains(next.known[a]));
                } else if b < st.known.len() {
                    assert(st.known.contains(next.known[b]));
                }
            }
        }
    }
}

/// Taking in live windows one after the other keeps each known handle in
/// exactly one window.
pub proof fn lemma_admit_consistent(
    st: Tracking,
    workspaces: Seq<crate::workspace::Workspace>,
    config: Config,
    live: Seq<LiveWindow>,
)
    requires
        consistent(st),
        st.spaces.len() == workspaces.len(),
    ensures
        consistent(admit_all(st, workspaces, config, live)),
        admit_all(st, workspaces, config, live).spaces.len() == workspaces.len(),
    decreases live.len(),
{
    if live.len() > 0 {
        lemma_admit_consistent(st, workspaces, config, live.drop_last());
        lemma_admit_step_consistent(
            admit_all(st, workspaces, config, live.drop_last()),
            workspaces,
            config,
            live.last(),
        );
    }
}

proof fn lemma_count_at(ws: Seq<WindowView>, f: int)
    requires
        0 <= f < ws.len(),
    ensures
        count_in(ws, ws[f].hwnd) >= 1,
    decreases ws.len(),
{
    if f < ws.len() - 1 {
        lemma_count_at(ws.drop_last(), f);
    }
}

/// Moving the window at `f` of workspace `c` into an existing workspace
/// keeps each known handle in exactly one window.
pub proof fn lemma_put_consistent(t: Tracking, c: int, f: int, target: int, tf: int)
    requires
        consistent(t),
        0 <= c < t.spaces.len(),
        0 <= f < t.spaces[c].len(),
        0 <= target < t.spaces.len(),
        0 <= tf,
    ensures
        consistent(Tracking { known: t.known, spaces: put_spaces(t.spaces, c, f, target, tf) }),
{
    let sp = t.spaces;
    let w = sp[c][f];
    let removed = sp.update(c, drop_handle(sp[c], w.hwnd));
    let tw = removed[target];
    let p = if tf <= tw.len() {
        tf
    } else {
        tw.len() as int
    };
    let fin = put_spaces(sp, c, f, target, tf);
    assert(fin == removed.update(target, insert_at_focus(tw, tf, w)));
    lemma_count_at(sp[c], f);
    lemma_occurrences_update(sp, c, Seq::empty(), w.hwnd);
    assert(count_in(Seq::<WindowView>::empty(), w.hwnd) == 0);
    assert forall|h: isize| #[trigger]
        occurrences(fin, h) == if t.known.contains(h) {
            1nat
        } else {
            0nat
        } by {
        assert(occurrences(sp, h) == if t.known.contains(h) {
            1nat
        } else {
            0nat
        });
        lemma_occurrences_update(sp, c, drop_handle(sp[c], w.hwnd), h);
        lemma_count_drop(sp[c], w.hwnd, h);
        lemma_occurrences_update(removed, target, insert_at_focus(tw, tf, w), h);
        lemma_count_insert(tw, p, w, h);
        lemma_occurrences_update(sp, c, Seq::empty(), h);
        assert(count_in(Seq::<WindowView>::empty(), h) == 0);
    }
}

/// Changing the mode of a window keeps each known handle in exactly one
/// window.
pub proof fn lemma_mode_consistent(t: Tracking, c: int, f: int, m: crate::windows::TilingMode)
    requires
        consistent(t),
        0 <= c < t.spaces.len(),
    ensures
        consistent(
            Tracking { known: t.known, spaces: t.spaces.update(c, with_mode(t.spaces[c], f, m)) },
        ),
{
    assert forall|h: isize| #[trigger]
        occurrences(t.spaces.update(c, with_mode(t.spaces[c], f, m)), h) == if t.known.contains(
            h,
        ) {
            1nat
        } else {
            0nat
        } by {
        assert(occurrences(t.spaces, h) == if t.known.contains(h) {
            1nat
        } else {
            0nat
        });
        lemma_occurrences_update(t.spaces, c, with_mode(t.spaces[c], f, m), h);
        lemma_count_with_mode(t.spaces[c], f, m, h);
    }
}

/// With no known handle and no window, the tracking is consistent.
pub proof fn lemma_empty_consistent(t: Tracking)
    requires
        t.known.len() == 0,
        forall|j: int| 0 <= j < t.spaces.len() ==> (#[trigger] t.spaces[j]).len() == 0,
    ensures
        consistent(t),
    decreases t.spaces.len(),
{
    if t.spaces.len() > 0 {
        let t0 = Tracking { known: t.known, spaces: t.spaces.drop_last() };
        assert forall|j: int| 0 <= j < t0.spaces.len() implies (#[trigger] t0.spaces[j]).len() == 0 by {
            assert(t0.spaces[j] == t.spaces[j]);
        }
        lemma_empty_consistent(t0);
        assert(t.spaces.last().len() == 0);
        assert forall|h: isize| #[trigger] occurrences(t.spaces, h) == 0 by {
            assert(occurrences(t0.spaces, h) == 0);
        }
    }
}

} // verus!

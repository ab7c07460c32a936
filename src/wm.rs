use vstd::prelude::*;
use crate::config::Config;
use crate::layout::{Place, Placement, lemma_places_injective, places};
use crate::monitor::{Monitor, strictly_inside};
use crate::windows::{TilingMode, Window, WindowView};
use crate::actions::{WmAction, WorkspaceAction};
use crate::tracking::{
    consistent, distinct_handles, lemma_admit_consistent, lemma_empty_consistent,
    lemma_managed_distinct, lemma_mode_consistent, lemma_put_consistent, lemma_shrink_consistent,
};
use crate::workspace::{Workspace, drop_handle, lemma_remove_flat, with_mode};

verus! {

/// A visible top-level window as the system reports it: its handle, its
/// title (empty when it has none) and the monitor it is on.
pub struct LiveWindow {
    pub hwnd: isize,
    pub title: String,
    pub monitor: isize,
}

/// The window is tiled: it has a title and a managed rule matches it.
pub open spec fn is_tiled(config: Config, w: LiveWindow) -> bool {
    w.title@.len() > 0 && config.manages(w.title@)
}

/// The handles of the tiled windows among `live`, in order.
pub open spec fn managed_handles(config: Config, live: Seq<LiveWindow>) -> Seq<isize>
    decreases live.len(),
{
    if live.len() == 0 {
        Seq::empty()
    } else if is_tiled(config, live.last()) {
        managed_handles(config, live.drop_last()).push(live.last().hwnd)
    } else {
        managed_handles(config, live.drop_last())
    }
}

/// The titles of the tiled windows among `live`, in order.
pub open spec fn managed_titles(config: Config, live: Seq<LiveWindow>) -> Seq<Seq<char>>
    decreases live.len(),
{
    if live.len() == 0 {
        Seq::empty()
    } else if is_tiled(config, live.last()) {
        managed_titles(config, live.drop_last()).push(live.last().title@)
    } else {
        managed_titles(config, live.drop_last())
    }
}

/// The monitors of `monitors` named `name`, in order.
pub open spec fn monitors_named(monitors: Seq<Monitor>, name: Seq<char>) -> Seq<Monitor>
    decreases monitors.len(),
{
    if monitors.len() == 0 {
        Seq::empty()
    } else if monitors.last().name@ == name {
        monitors_named(monitors.drop_last(), name).push(monitors.last())
    } else {
        monitors_named(monitors.drop_last(), name)
    }
}

/// One monitor per workspace: for each name in order, every monitor of
/// that name.
pub open spec fn bound_monitors(names: Seq<Seq<char>>, monitors: Seq<Monitor>) -> Seq<Monitor>
    decreases names.len(),
{
    if names.len() == 0 {
        Seq::empty()
    } else {
        bound_monitors(names.drop_last(), monitors) + monitors_named(monitors, names.last())
    }
}

/// The placements of all workspaces, one after the other.
pub open spec fn all_layouts(workspaces: Seq<Workspace>) -> Seq<Place>
    decreases workspaces.len(),
{
    if workspaces.len() == 0 {
        Seq::empty()
    } else {
        all_layouts(workspaces.drop_last()) + workspaces.last().layout_spec()
    }
}

pub open spec fn monitors_of(workspaces: Seq<Workspace>) -> Seq<Monitor> {
    workspaces.map_values(|w: Workspace| w.monitor)
}

/// The windows of each workspace, as plain values.
pub open spec fn spaces(workspaces: Seq<Workspace>) -> Seq<Seq<WindowView>> {
    workspaces.map_values(|w: Workspace| w.views())
}

/// The known handles and the windows of each workspace.
pub struct Tracking {
    pub known: Seq<isize>,
    pub spaces: Seq<Seq<WindowView>>,
}

/// The windows of the workspaces after the window at `f` in workspace `c`
/// leaves it and goes where a workspace with focus `tf` puts a new window
/// in workspace `target`, if there is such a workspace.
pub open spec fn put_spaces(
    sp: Seq<Seq<WindowView>>,
    c: int,
    f: int,
    target: int,
    tf: int,
) -> Seq<Seq<WindowView>> {
    let w = sp[c][f];
    let removed = sp.update(c, drop_handle(sp[c], w.hwnd));
    if 0 <= target < sp.len() {
        removed.update(target, insert_at_focus(removed[target], tf, w))
    } else {
        removed
    }
}

/// The index of the first workspace at or after `j` on monitor `m`, or the
/// number of workspaces.
pub open spec fn first_on(workspaces: Seq<Workspace>, m: isize, j: int) -> int
    decreases workspaces.len() - j,
{
    if j >= workspaces.len() {
        workspaces.len() as int
    } else if workspaces[j].monitor.monitor_handle == m {
        j
    } else {
        first_on(workspaces, m, j + 1)
    }
}

pub proof fn lemma_first_on_bounds(workspaces: Seq<Workspace>, m: isize, j: int)
    requires
        0 <= j <= workspaces.len(),
    ensures
        j <= first_on(workspaces, m, j) <= workspaces.len(),
    decreases workspaces.len() - j,
{
    if j < workspaces.len() {
        lemma_first_on_bounds(workspaces, m, j + 1);
    }
}

/// `w` put where a workspace with focus `f` puts a new window.
pub open spec fn insert_at_focus(ws: Seq<WindowView>, f: int, w: WindowView) -> Seq<WindowView> {
    ws.insert(
        if f <= ws.len() {
            f
        } else {
            ws.len() as int
        },
        w,
    )
}

/// What one live window does to the tracking when the known set did not
/// shrink: a tiled window not yet known goes, as a managed window, into
/// the first workspace on its monitor, and is known; with no such
/// workspace nothing changes.
pub open spec fn admit_step(
    st: Tracking,
    workspaces: Seq<Workspace>,
    config: Config,
    w: LiveWindow,
) -> Tracking {
    let j = first_on(workspaces, w.monitor, 0);
    if is_tiled(config, w) && !st.known.contains(w.hwnd) && j < workspaces.len() {
        Tracking {
            known: st.known.push(w.hwnd),
            spaces: st.spaces.update(
                j,
                insert_at_focus(
                    st.spaces[j],
                    workspaces[j].current_window_index as int,
                    WindowView { hwnd: w.hwnd, title: w.title@, mode: TilingMode::Managed },
                ),
            ),
        }
    } else {
        st
    }
}

/// The live windows taken one after the other.
pub open spec fn admit_all(
    st: Tracking,
    workspaces: Seq<Workspace>,
    config: Config,
    live: Seq<LiveWindow>,
) -> Tracking
    decreases live.len(),
{
    if live.len() == 0 {
        st
    } else {
        admit_step(admit_all(st, workspaces, config, live.drop_last()), workspaces, config, live.last())
    }
}

/// The known handles that are no longer among `managed`, in order.
pub open spec fn gone_handles(known: Seq<isize>, managed: Seq<isize>) -> Seq<isize>
    decreases known.len(),
{
    if known.len() == 0 {
        Seq::empty()
    } else if managed.contains(known.last()) {
        gone_handles(known.drop_last(), managed)
    } else {
        gone_handles(known.drop_last(), managed).push(known.last())
    }
}

/// `ws` after dropping each handle of `hs` in turn.
pub open spec fn drop_handles(ws: Seq<WindowView>, hs: Seq<isize>) -> Seq<WindowView>
    decreases hs.len(),
{
    if hs.len() == 0 {
        ws
    } else {
        drop_handle(drop_handles(ws, hs.drop_last()), hs.last())
    }
}

fn contains_handle(v: &Vec<isize>, h: isize) -> (r: bool)
    ensures
        r == v@.contains(h),
{
    let mut i: usize = 0;
    while i < v.len()
        invariant
            0 <= i <= v@.len(),
            forall|k: int| 0 <= k < i ==> v@[k] != h,
        decreases v@.len() - i,
    {
        if v[i] == h {
            return true;
        }
        i = i + 1;
    }
    false
}

/// Laying out the same workspaces twice, with nothing changed in between,
/// gives the same placements.
pub proof fn lemma_arrangement_idempotent(
    workspaces: Seq<Workspace>,
    first: Seq<Placement>,
    second: Seq<Placement>,
)
    requires
        places(first) == all_layouts(workspaces),
        places(second) == all_layouts(workspaces),
    ensures
        first == second,
{
    lemma_places_injective(first, second);
}

/// `new` is `old` with its workspaces rebuilt from the configuration: one
/// empty workspace per monitor named by it, and no known window.
pub open spec fn topology_post(
    old: WindowManager,
    new: WindowManager,
    config: Config,
    monitors: Seq<Monitor>,
) -> bool {
    &&& new.wf()
    &&& new.windows@.len() == 0
    &&& new.current_workspace_index == old.current_workspace_index
    &&& monitors_of(new.workspaces@) == bound_monitors(
        config.workspaces_monitors@.map_values(|s: String| s@),
        monitors,
    )
    &&& forall|j: int|
        0 <= j < new.workspaces@.len() ==> (#[trigger] new.workspaces@[j]).views().len() == 0
            && new.workspaces@[j].current_window_index == 0
    &&& consistent(new.tracking())
}

/// `new` is `old` with the current workspace following the point `x, y`.
pub open spec fn cursor_post(old: WindowManager, new: WindowManager, x: i32, y: i32) -> bool {
    &&& new.windows == old.windows
    &&& new.workspaces == old.workspaces
    &&& (exists|j: int|
        0 <= j < old.workspaces@.len() && strictly_inside(
            #[trigger] old.workspaces@[j].monitor.rect,
            x as int,
            y as int,
        )) ==> {
        let c = new.current_workspace_index as int;
        &&& 0 <= c < old.workspaces@.len()
        &&& strictly_inside(old.workspaces@[c].monitor.rect, x as int, y as int)
        &&& forall|j: int|
            c < j < old.workspaces@.len() ==> !strictly_inside(
                #[trigger] old.workspaces@[j].monitor.rect,
                x as int,
                y as int,
            )
    }
    &&& !(exists|j: int|
        0 <= j < old.workspaces@.len() && strictly_inside(
            #[trigger] old.workspaces@[j].monitor.rect,
            x as int,
            y as int,
        )) ==> new.current_workspace_index == old.current_workspace_index
}

/// `new` is `old` after `action` was applied to the current workspace.
pub open spec fn action_post(
    old: WindowManager,
    new: WindowManager,
    action: WorkspaceAction,
) -> bool {
    &&& new.wf()
    &&& new.windows == old.windows
    &&& new.current_workspace_index == old.current_workspace_index
    &&& new.workspaces@.len() == old.workspaces@.len()
    &&& old.current_workspace_index >= old.workspaces@.len() ==> new.workspaces
        == old.workspaces
    &&& consistent(old.tracking()) && !(action matches WorkspaceAction::PutCurrentWindowInWorkspace {
        workspace_index,
    } && workspace_index >= old.workspaces@.len()) ==> consistent(new.tracking())
    &&& ({
        let c = old.current_workspace_index as int;
        let o = old.workspaces@[c];
        let n = new.workspaces@[c];
        c < old.workspaces@.len() ==> match action {
            WorkspaceAction::NextAsCurrent => {
                &&& forall|k: int|
                    0 <= k < old.workspaces@.len() && k != c ==> #[trigger] new.workspaces@[k]
                        == old.workspaces@[k]
                &&& n.windows == o.windows
                &&& n.monitor == o.monitor
                &&& n.current_window_index == o.next_index()
            },
            WorkspaceAction::PreviousAsCurrent => {
                &&& forall|k: int|
                    0 <= k < old.workspaces@.len() && k != c ==> #[trigger] new.workspaces@[k]
                        == old.workspaces@[k]
                &&& n.windows == o.windows
                &&& n.monitor == o.monitor
                &&& n.current_window_index == o.previous_index()
            },
            WorkspaceAction::ToggleMode(mode) => {
                &&& forall|k: int|
                    0 <= k < old.workspaces@.len() && k != c ==> #[trigger] new.workspaces@[k]
                        == old.workspaces@[k]
                &&& n.monitor == o.monitor
                &&& n.current_window_index == o.current_window_index
                &&& n.views() == with_mode(o.views(), o.current_window_index as int, mode)
            },
            WorkspaceAction::PutCurrentWindowInWorkspace { workspace_index } => {
                &&& new.same_frames(old.workspaces@)
                &&& spaces(new.workspaces@) == if o.current_window_index < o.views().len() {
                    put_spaces(
                        spaces(old.workspaces@),
                        c,
                        o.current_window_index as int,
                        workspace_index as int,
                        if workspace_index < old.workspaces@.len() {
                            old.workspaces@[workspace_index as int].current_window_index as int
                        } else {
                            0
                        },
                    )
                } else {
                    spaces(old.workspaces@)
                }
            },
        }
    })
}

/// `new` is `old` brought up to date with the live windows `live`.
pub open spec fn fetch_post(
    old: WindowManager,
    new: WindowManager,
    config: Config,
    live: Seq<LiveWindow>,
) -> bool {
    &&& new.wf()
    &&& new.same_frames(old.workspaces@)
    &&& new.current_workspace_index == old.current_workspace_index
    &&& ({
        let managed = managed_handles(config, live);
        managed.len() < old.windows@.len() ==> {
            &&& new.windows@ == managed
            &&& forall|j: int|
                0 <= j < old.workspaces@.len() ==> (#[trigger] new.workspaces@[j]).views()
                    == drop_handles(
                    old.workspaces@[j].views(),
                    gone_handles(old.windows@, managed),
                )
        }
    })
    &&& managed_handles(config, live).len() >= old.windows@.len() ==> new.tracking()
        == admit_all(old.tracking(), old.workspaces@, config, live)
    &&& consistent(old.tracking()) && distinct_handles(live) && (managed_handles(
        config,
        live,
    ).len() < old.windows@.len() ==> forall|h: isize|
        managed_handles(config, live).contains(h) ==> old.windows@.contains(h))
        ==> consistent(new.tracking())
}

/// The steps of one tick: `a` after the rebuild of the workspaces (when the
/// configuration was reloaded), `b` after following the cursor, `c` after
/// the pending workspace action, and `new` after the live windows were
/// taken in; a close action stops at `b`.
pub open spec fn tick_steps(
    old: WindowManager,
    a: WindowManager,
    b: WindowManager,
    c: WindowManager,
    new: WindowManager,
    config: Config,
    reload: bool,
    monitors: Seq<Monitor>,
    x: i32,
    y: i32,
    action: Option<WmAction>,
    live: Seq<LiveWindow>,
    r: TickOutcome,
) -> bool {
    &&& if reload {
        topology_post(old, a, config, monitors)
    } else {
        a == old
    }
    &&& cursor_post(a, b, x, y)
    &&& match action {
        Some(WmAction::Close { hwnd }) => new == b && r == (TickOutcome::Close { hwnd }),
        Some(WmAction::Workspace(act)) => {
            &&& action_post(b, c, act)
            &&& fetch_post(c, new, config, live)
            &&& (r matches TickOutcome::Arrange(p) && places(p@) == all_layouts(new.workspaces@))
        },
        None => {
            &&& c == b
            &&& fetch_post(c, new, config, live)
            &&& (r matches TickOutcome::Arrange(p) && places(p@) == all_layouts(new.workspaces@))
        },
    }
}

/// What the main loop does once a tick is over: move the windows to
/// their places, or shut down, releasing the hotkey window `hwnd`.
pub enum TickOutcome {
    Arrange(Vec<Placement>),
    Close { hwnd: isize },
}

/// Owns the workspaces, the handles of the windows it tiles, and which
/// workspace is current.
pub struct WindowManager {
    pub windows: Vec<isize>,
    pub workspaces: Vec<Workspace>,
    pub current_workspace_index: usize,
}

fn same_name(a: &String, b: &String) -> (r: bool)
    ensures
        r == (a@ == b@),
{
    *a == *b
}

impl WindowManager {
    pub open spec fn tracking(&self) -> Tracking {
        Tracking { known: self.windows@, spaces: spaces(self.workspaces@) }
    }

    /// The workspaces have the monitors and focus of `other`'s.
    pub open spec fn same_frames(&self, other: Seq<Workspace>) -> bool {
        &&& self.workspaces@.len() == other.len()
        &&& forall|j: int|
            0 <= j < other.len() ==> (#[trigger] self.workspaces@[j]).monitor == other[j].monitor
                && self.workspaces@[j].current_window_index == other[j].current_window_index
    }

    /// Every workspace's root has only leaves.
    pub open spec fn wf(&self) -> bool {
        forall|j: int| 0 <= j < self.workspaces@.len() ==> (#[trigger] self.workspaces@[j]).wf()
    }

    pub fn new() -> (wm: WindowManager)
        ensures
            wm.wf(),
            wm.windows@.len() == 0,
            wm.workspaces@.len() == 0,
            wm.current_workspace_index == 0,
    {
        WindowManager { windows: Vec::new(), workspaces: Vec::new(), current_workspace_index: 0 }
    }

    /// Drops every workspace and every known window, then makes one empty
    /// workspace for each monitor named by the configuration, in the order
    /// of its names.
    pub fn get_monitors(&mut self, config: &Config, monitors: &Vec<Monitor>)
        ensures
            topology_post(*old(self), *final(self), *config, monitors@),
    {
        let names = config.get_workspaces_monitors();
        let ghost nv = names@.map_values(|s: String| s@);
        self.workspaces.clear();
        self.windows.clear();
        let mut i: usize = 0;
        while i < names.len()
            invariant
                0 <= i <= names@.len(),
                nv == names@.map_values(|s: String| s@),
                self.windows@.len() == 0,
                self.current_workspace_index == old(self).current_workspace_index,
                self.wf(),
                monitors_of(self.workspaces@) == bound_monitors(nv.take(i as int), monitors@),
                forall|j: int|
                    0 <= j < self.workspaces@.len() ==> (#[trigger] self.workspaces@[j]).views().len() == 0
                        && self.workspaces@[j].current_window_index == 0,
            decreases names@.len() - i,
        {
            let ghost base = monitors_of(self.workspaces@);
            let mut k: usize = 0;
            while k < monitors.len()
                invariant
                    0 <= k <= monitors@.len(),
                    0 <= i < names@.len(),
                    self.windows@.len() == 0,
                    self.current_workspace_index == old(self).current_workspace_index,
                    self.wf(),
                    monitors_of(self.workspaces@) == base + monitors_named(
                        monitors@.take(k as int),
                        names@[i as int]@,
                    ),
                    forall|j: int|
                        0 <= j < self.workspaces@.len() ==> (#[trigger] self.workspaces@[j]).views().len() == 0
                            && self.workspaces@[j].current_window_index == 0,
                decreases monitors@.len() - k,
            {
                let ghost before = self.workspaces@;
                assert(monitors@.take(k as int + 1).drop_last() =~= monitors@.take(k as int));
                if same_name(&names[i], &monitors[k].name) {
                    self.workspaces.push(Workspace::new(monitors[k].clone_monitor()));
                    assert(monitors_of(self.workspaces@) =~= monitors_of(before).push(monitors@[k as int]));
                } else {
                    assert(monitors_of(self.workspaces@) =~= monitors_of(before));
                }
                k = k + 1;
            }
            assert(monitors@.take(monitors@.len() as int) =~= monitors@);
            assert(nv.take(i as int + 1).drop_last() =~= nv.take(i as int));
            i = i + 1;
        }
        assert(nv.take(i as int) =~= nv);
        proof {
            let t = self.tracking();
            assert forall|j: int| 0 <= j < t.spaces.len() implies (#[trigger] t.spaces[j]).len() == 0 by {
                assert(t.spaces[j] == self.workspaces@[j].views());
            }
            lemma_empty_consistent(t);
        }
    }

    /// Brings the workspaces up to date with the live windows. When fewer
    /// windows are tiled than are known, the known windows that are gone
    /// leave their workspaces, the tiled ones become the known set, and
    /// nothing is added. Otherwise each tiled window not yet known joins
    /// the first workspace on its monitor.
    pub fn fetch_windows(&mut self, config: &Config, windows: &Vec<LiveWindow>)
        requires
            old(self).wf(),
        ensures
            fetch_post(*old(self), *final(self), *config, windows@),
    {
        let managed_windows = WindowManager::get_managed_windows(config, windows);
        if managed_windows.len() < self.windows.len() {
            let ghost managed = managed_windows@;
            let mut windows_to_delete: Vec<isize> = Vec::new();
            let mut i: usize = 0;
            while i < self.windows.len()
                invariant
                    0 <= i <= self.windows@.len(),
                    managed == managed_windows@,
                    windows_to_delete@ == gone_handles(self.windows@.take(i as int), managed),
                decreases self.windows@.len() - i,
            {
                assert(self.windows@.take(i as int + 1).drop_last() =~= self.windows@.take(i as int));
                if !contains_handle(&managed_windows, self.windows[i]) {
                    windows_to_delete.push(self.windows[i]);
                }
                i = i + 1;
            }
            assert(self.windows@.take(i as int) =~= self.windows@);
            let ghost gone = windows_to_delete@;
            let mut g: usize = 0;
            while g < windows_to_delete.len()
                invariant
                    0 <= g <= gone.len(),
                    gone == windows_to_delete@,
                    self.wf(),
                    self.same_frames(old(self).workspaces@),
                    self.windows == old(self).windows,
                    self.current_workspace_index == old(self).current_workspace_index,
                    forall|j: int|
                        0 <= j < self.workspaces@.len() ==> (#[trigger] self.workspaces@[j]).views()
                            == drop_handles(old(self).workspaces@[j].views(), gone.take(g as int)),
                decreases gone.len() - g,
            {
                let window_to_delete = windows_to_delete[g];
                assert(gone.take(g as int + 1).drop_last() =~= gone.take(g as int));
                let mut j: usize = 0;
                while j < self.workspaces.len()
                    invariant
                        0 <= j <= self.workspaces@.len(),
                        0 <= g < gone.len(),
                        window_to_delete == gone[g as int],
                        self.wf(),
                        self.same_frames(old(self).workspaces@),
                        self.windows == old(self).windows,
                        self.current_workspace_index == old(self).current_workspace_index,
                        forall|k: int|
                            0 <= k < j ==> (#[trigger] self.workspaces@[k]).views() == drop_handles(
                                old(self).workspaces@[k].views(),
                                gone.take(g as int + 1),
                            ),
                        forall|k: int|
                            j <= k < self.workspaces@.len() ==> (#[trigger] self.workspaces@[k]).views()
                                == drop_handles(old(self).workspaces@[k].views(), gone.take(g as int)),
                    decreases self.workspaces@.len() - j,
                {
                    let ghost before = self.workspaces@;
                    assert(before[j as int].wf());
                    Workspace::remove_window(&mut self.workspaces[j].windows, window_to_delete);
                    proof {
                        lemma_remove_flat(before[j as int].windows, self.workspaces@[j as int].windows, window_to_delete);
                        assert(gone.take(g as int + 1).drop_last() =~= gone.take(g as int));
                        assert(gone.take(g as int + 1).last() == window_to_delete);
                        assert(self.workspaces@[j as int].views() == drop_handles(
                            old(self).workspaces@[j as int].views(),
                            gone.take(g as int + 1),
                        ));
                        assert forall|k: int| 0 <= k < self.workspaces@.len() && k != j implies #[trigger] self.workspaces@[k]
                            == before[k] by {}
                        assert(self.workspaces@[j as int].wf());
                    }
                    j = j + 1;
                }
                g = g + 1;
            }
            assert(gone.take(g as int) =~= gone);
            self.windows = managed_windows;
            proof {
                if consistent(old(self).tracking()) && distinct_handles(windows@) && (forall|h: isize|
                    managed.contains(h) ==> old(self).windows@.contains(h)) {
                    lemma_managed_distinct(*config, windows@);
                    let after = self.tracking();
                    assert forall|j: int| 0 <= j < old(self).tracking().spaces.len() implies #[trigger] after.spaces[j]
                        == drop_handles(
                        old(self).tracking().spaces[j],
                        gone_handles(old(self).tracking().known, managed),
                    ) by {
                        assert(after.spaces[j] == self.workspaces@[j].views());
                    }
                    lemma_shrink_consistent(old(self).tracking(), managed, after);
                }
            }
            return;
        }
        let ghost start = self.tracking();
        let mut i: usize = 0;
        while i < windows.len()
            invariant
                0 <= i <= windows@.len(),
                self.wf(),
                self.same_frames(old(self).workspaces@),
                self.current_workspace_index == old(self).current_workspace_index,
                start == old(self).tracking(),
                self.tracking() == admit_all(start, old(self).workspaces@, *config, windows@.take(i as int)),
            decreases windows@.len() - i,
        {
            assert(windows@.take(i as int + 1).drop_last() =~= windows@.take(i as int));
            let ghost st = self.tracking();
            let ghost target = admit_step(st, old(self).workspaces@, *config, windows@[i as int]);
            let window_hwnd = windows[i].hwnd;
            let monitor = windows[i].monitor;
            let title = windows[i].title.as_str();
            if !title.is_empty() && config.is_managed(title) {
                let ghost m = monitor;
                proof {
                    lemma_first_on_bounds(old(self).workspaces@, m, 0);
                }
                let mut j: usize = 0;
                while j < self.workspaces.len()
                    invariant
                        0 <= j <= self.workspaces@.len(),
                        0 <= i < windows@.len(),
                        window_hwnd == windows@[i as int].hwnd,
                        monitor == windows@[i as int].monitor,
                        m == monitor,
                        title@ == windows@[i as int].title@,
                        is_tiled(*config, windows@[i as int]),
                        self.wf(),
                        self.same_frames(old(self).workspaces@),
                        self.current_workspace_index == old(self).current_workspace_index,
                        target == admit_step(st, old(self).workspaces@, *config, windows@[i as int]),
                        first_on(old(self).workspaces@, m, 0) < j || first_on(old(self).workspaces@, m, 0)
                            == first_on(old(self).workspaces@, m, j as int),
                        first_on(old(self).workspaces@, m, 0) < j ==> self.tracking() == target,
                        first_on(old(self).workspaces@, m, 0) >= j ==> self.tracking() == st,
                    decreases self.workspaces@.len() - j,
                {
                    let ghost before = self.workspaces@;
                    proof {
                        assert(self.workspaces@[j as int].monitor == old(self).workspaces@[j as int].monitor);
                    }
                    if self.workspaces[j].is_on_monitor(monitor) && !contains_handle(&self.windows, window_hwnd) {
                        proof {
                            assert(self.workspaces@[j as int].monitor == old(self).workspaces@[j as int].monitor);
                            if first_on(old(self).workspaces@, m, 0) < j {
                                if !st.known.contains(window_hwnd) {
                                    lemma_first_on_bounds(old(self).workspaces@, m, j as int);
                                    assert(target.known == st.known.push(window_hwnd));
                                    assert(target.known[st.known.len() as int] == window_hwnd);
                                }
                                assert(self.windows@.contains(window_hwnd));
                            }
                            assert(first_on(old(self).workspaces@, m, j as int) == j);
                            assert(first_on(old(self).workspaces@, m, 0) == j);
                            assert(!st.known.contains(window_hwnd));
                        }
                        let ghost known_before = self.windows@;
                        self.windows.push(window_hwnd);
                        assert(self.windows@ == known_before.push(window_hwnd));
                        assert(before[j as int].wf());
                        self.workspaces[j].add_window(Window::new(title, window_hwnd));
                        proof {
                            assert forall|k: int| 0 <= k < self.workspaces@.len() && k != j implies #[trigger] self.workspaces@[k]
                                == before[k] by {}
                            assert forall|k: int| 0 <= k < self.workspaces@.len() implies #[trigger] spaces(self.workspaces@)[k]
                                == target.spaces[k] by {
                                if k != j {
                                    assert(self.workspaces@[k] == before[k]);
                                }
                            }
                            assert(spaces(self.workspaces@) =~= target.spaces);
                            assert(self.windows@ =~= target.known);
                            assert(self.tracking() == target);
                        }
                    } else {
                        proof {
                            if first_on(old(self).workspaces@, m, 0) >= j {
                                if old(self).workspaces@[j as int].monitor.monitor_handle == m {
                                    assert(first_on(old(self).workspaces@, m, j as int) == j);
                                    assert(self.windows@.contains(window_hwnd));
                                    assert(target == st);
                                } else {
                                    lemma_first_on_bounds(old(self).workspaces@, m, j + 1);
                                    assert(first_on(old(self).workspaces@, m, j as int) == first_on(
                                        old(self).workspaces@,
                                        m,
                                        j + 1,
                                    ));
                                }
                            }
                        }
                    }
                    j = j + 1;
                }
            }
            i = i + 1;
        }
        assert(windows@.take(i as int) =~= windows@);
        proof {
            if consistent(old(self).tracking()) {
                lemma_admit_consistent(old(self).tracking(), old(self).workspaces@, *config, windows@);
            }
        }
    }

    /// Applies `action` to the current workspace. With no current workspace
    /// (its index is past the end) nothing changes.
    pub fn handle_action(&mut self, action: WorkspaceAction)
        requires
            old(self).wf(),
        ensures
            action_post(*old(self), *final(self), action),
    {
        let c = self.current_workspace_index;
        if c >= self.workspaces.len() {
            return;
        }
        let ghost before = self.workspaces@;
        match action {
            WorkspaceAction::NextAsCurrent => {
                self.workspaces[c].set_current_next();
                assert(self.workspaces@ == before.update(c as int, self.workspaces@[c as int]));
                assert(spaces(self.workspaces@) =~= spaces(before));
            },
            WorkspaceAction::PreviousAsCurrent => {
                self.workspaces[c].set_current_previous();
                assert(self.workspaces@ == before.update(c as int, self.workspaces@[c as int]));
                assert(spaces(self.workspaces@) =~= spaces(before));
            },
            WorkspaceAction::ToggleMode(mode) => {
                assert(before[c as int].wf());
                self.workspaces[c].set_current_tiling_mode(&mode);
                assert(self.workspaces@ == before.update(c as int, self.workspaces@[c as int]));
                proof {
                    assert(spaces(self.workspaces@) =~= spaces(before).update(
                        c as int,
                        with_mode(spaces(before)[c as int], before[c as int].current_window_index as int, mode),
                    ));
                    if consistent(old(self).tracking()) {
                        lemma_mode_consistent(
                            old(self).tracking(),
                            c as int,
                            before[c as int].current_window_index as int,
                            mode,
                        );
                    }
                }
            },
            WorkspaceAction::PutCurrentWindowInWorkspace { workspace_index } => {
                if self.workspaces[c].windows.children.is_empty() {
                    assert(spaces(self.workspaces@) =~= spaces(before));
                    return;
                }
                if self.workspaces[c].current_window_index >= self.workspaces[c].windows.children.len() {
                    assert(spaces(self.workspaces@) =~= spaces(before));
                    return;
                }
                let window = self.workspaces[c].get_current_window().value.clone_window();
                assert(before[c as int].wf());
                Workspace::remove_window(&mut self.workspaces[c].windows, window.hwnd);
                let ghost removed = self.workspaces@;
                proof {
                    lemma_remove_flat(before[c as int].windows, removed[c as int].windows, window.hwnd);
                    assert(removed == before.update(c as int, removed[c as int]));
                    assert(removed[c as int].wf());
                    assert(window@ == spaces(before)[c as int][before[c as int].current_window_index as int]);
                    assert(spaces(removed) =~= spaces(before).update(
                        c as int,
                        drop_handle(spaces(before)[c as int], window.hwnd),
                    ));
                }
                if workspace_index < self.workspaces.len() {
                    assert(removed[workspace_index as int].wf());
                    self.workspaces[workspace_index].add_window(window);
                    proof {
                        assert(self.workspaces@ == removed.update(
                            workspace_index as int,
                            self.workspaces@[workspace_index as int],
                        ));
                        assert(spaces(self.workspaces@) =~= spaces(removed).update(
                            workspace_index as int,
                            insert_at_focus(
                                spaces(removed)[workspace_index as int],
                                removed[workspace_index as int].current_window_index as int,
                                window@,
                            ),
                        ));
                        let f = before[c as int].current_window_index as int;
                        let tf = before[workspace_index as int].current_window_index as int;
                        assert(spaces(self.workspaces@) =~= put_spaces(
                            spaces(before),
                            c as int,
                            f,
                            workspace_index as int,
                            tf,
                        ));
                        if consistent(old(self).tracking()) {
                            lemma_put_consistent(old(self).tracking(), c as int, f, workspace_index as int, tf);
                        }
                    }
                }
            },
        }
    }

    /// One tick of the main loop, in order: rebuild the workspaces when the
    /// configuration was reloaded, follow the cursor at `x, y` to the
    /// current workspace, apply the pending action if any, bring the
    /// workspaces up to date with the live windows, and lay them out. A
    /// close action ends the tick at once.
    ///
    /// A tick keeps every known window in exactly one workspace, and every
    /// window of a workspace known, as long as the live windows have
    /// distinct handles, no window is sent to a workspace that does not
    /// exist, and, when fewer windows are tiled than are known, every tiled
    /// window is known already.
    pub fn tick(
        &mut self,
        config: &Config,
        reload: bool,
        monitors: &Vec<Monitor>,
        x: i32,
        y: i32,
        action: Option<WmAction>,
        windows: &Vec<LiveWindow>,
    ) -> (r: TickOutcome)
        requires
            old(self).wf(),
        ensures
            final(self).wf(),
            exists|a: WindowManager, b: WindowManager, c: WindowManager|
                #[trigger] tick_steps(
                    *old(self),
                    a,
                    b,
                    c,
                    *final(self),
                    *config,
                    reload,
                    monitors@,
                    x,
                    y,
                    action,
                    windows@,
                    r,
                ),
            (reload || consistent(old(self).tracking())) && distinct_handles(windows@) && !(action matches Some(
                WmAction::Workspace(WorkspaceAction::PutCurrentWindowInWorkspace { workspace_index }),
            ) && workspace_index >= final(self).workspaces@.len()) && (!reload && managed_handles(
                *config,
                windows@,
            ).len() < old(self).windows@.len() ==> forall|h: isize|
                managed_handles(*config, windows@).contains(h) ==> old(self).windows@.contains(h))
                ==> consistent(final(self).tracking()),
    {
        if reload {
            self.get_monitors(config, monitors);
        }
        let ghost a = *self;
        self.update_current_monitor(x, y);
        let ghost b = *self;
        match action {
            Some(WmAction::Workspace(action)) => self.handle_action(action),
            Some(WmAction::Close { hwnd }) => {
                let r = TickOutcome::Close { hwnd };
                assert(tick_steps(*old(self), a, b, b, *self, *config, reload, monitors@, x, y, Some(WmAction::Close { hwnd }), windows@, r));
                return r;
            },
            None => {},
        }
        let ghost c = *self;
        self.fetch_windows(config, windows);
        let r = TickOutcome::Arrange(self.arrange_workspaces());
        assert(tick_steps(*old(self), a, b, c, *self, *config, reload, monitors@, x, y, action, windows@, r));
        r
    }

    /// The handles of the windows of `windows` that have a title matched by
    /// a managed rule, in order.
    pub fn get_managed_windows(config: &Config, windows: &Vec<LiveWindow>) -> (r: Vec<isize>)
        ensures
            r@ == managed_handles(*config, windows@),
    {
        let mut managed_windows: Vec<isize> = Vec::new();
        let mut i: usize = 0;
        while i < windows.len()
            invariant
                0 <= i <= windows@.len(),
                managed_windows@ == managed_handles(*config, windows@.take(i as int)),
            decreases windows@.len() - i,
        {
            assert(windows@.take(i as int + 1).drop_last() =~= windows@.take(i as int));
            let title = windows[i].title.as_str();
            if !title.is_empty() && config.is_managed(title) {
                managed_windows.push(windows[i].hwnd);
            }
            i = i + 1;
        }
        assert(windows@.take(i as int) =~= windows@);
        managed_windows
    }

    /// The titles of the windows that would be tiled, in order.
    pub fn list_managable_windows(&self, config: &Config, windows: &Vec<LiveWindow>) -> (r: Vec<
        String,
    >)
        ensures
            r@.map_values(|s: String| s@) == managed_titles(*config, windows@),
    {
        let mut titles: Vec<String> = Vec::new();
        let mut i: usize = 0;
        while i < windows.len()
            invariant
                0 <= i <= windows@.len(),
                titles@.map_values(|s: String| s@) == managed_titles(*config, windows@.take(i as int)),
            decreases windows@.len() - i,
        {
            assert(windows@.take(i as int + 1).drop_last() =~= windows@.take(i as int));
            let ghost before = titles@;
            let title = windows[i].title.as_str();
            if !title.is_empty() && config.is_managed(title) {
                titles.push(windows[i].title.clone());
                assert(titles@.map_values(|s: String| s@) =~= before.map_values(|s: String| s@).push(
                    windows@[i as int].title@,
                ));
            }
            i = i + 1;
        }
        assert(windows@.take(i as int) =~= windows@);
        titles
    }

    /// The placements of the windows of every workspace, workspace after
    /// workspace.
    pub fn arrange_workspaces(&self) -> (r: Vec<Placement>)
        requires
            self.wf(),
        ensures
            places(r@) == all_layouts(self.workspaces@),
    {
        let mut all: Vec<Placement> = Vec::new();
        let mut i: usize = 0;
        while i < self.workspaces.len()
            invariant
                0 <= i <= self.workspaces@.len(),
                self.wf(),
                places(all@) == all_layouts(self.workspaces@.take(i as int)),
            decreases self.workspaces@.len() - i,
        {
            assert(self.workspaces@.take(i as int + 1).drop_last() =~= self.workspaces@.take(i as int));
            let mut placed = self.workspaces[i].arrange_windows();
            let ghost before = all@;
            let ghost added = placed@;
            all.append(&mut placed);
            assert(places(all@) =~= places(before) + places(added));
            i = i + 1;
        }
        assert(self.workspaces@.take(i as int) =~= self.workspaces@);
        all
    }

    /// Makes current the last workspace whose monitor strictly holds the
    /// point; with none, the current workspace stays.
    pub fn update_current_monitor(&mut self, x: i32, y: i32)
        ensures
            cursor_post(*old(self), *final(self), x, y),
    {
        let ghost mut found = false;
        let mut index: usize = 0;
        while index < self.workspaces.len()
            invariant
                0 <= index <= self.workspaces@.len(),
                self.windows == old(self).windows,
                self.workspaces == old(self).workspaces,
                found == exists|j: int|
                    0 <= j < index && strictly_inside(
                        #[trigger] self.workspaces@[j].monitor.rect,
                        x as int,
                        y as int,
                    ),
                found ==> {
                    let c = self.current_workspace_index as int;
                    &&& 0 <= c < index
                    &&& strictly_inside(self.workspaces@[c].monitor.rect, x as int, y as int)
                    &&& forall|j: int|
                        c < j < index ==> !strictly_inside(
                            #[trigger] self.workspaces@[j].monitor.rect,
                            x as int,
                            y as int,
                        )
                },
                !found ==> self.current_workspace_index == old(self).current_workspace_index,
            decreases self.workspaces@.len() - index,
        {
            if self.workspaces[index].is_current_workspace(x, y) {
                self.current_workspace_index = index;
                proof {
                    found = true;
                }
            }
            index = index + 1;
        }
    }
}

} // verus!

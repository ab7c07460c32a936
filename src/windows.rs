use vstd::prelude::*;

verus! {

/// How a window takes part in the layout of its workspace.
#[derive(PartialEq, Eq, Structural, Clone, Copy, Debug)]
pub enum TilingMode {
    Managed,
    Monocle,
}

/// A top-level window known to the manager.
pub struct Window {
    pub title: String,
    pub hwnd: isize,
    pub mode: TilingMode,
}

/// A window as plain values.
pub struct WindowView {
    pub hwnd: isize,
    pub title: Seq<char>,
    pub mode: TilingMode,
}

impl View for Window {
    type V = WindowView;

    open spec fn view(&self) -> WindowView {
        WindowView { hwnd: self.hwnd, title: self.title@, mode: self.mode }
    }
}

impl Window {
    /// A new window starts out managed.
    pub fn new(title: &str, hwnd: isize) -> (w: Window)
        ensures
            w.title@ == title@,
            w.hwnd == hwnd,
            w.mode == TilingMode::Managed,
    {
        Window { title: title.to_string(), hwnd, mode: TilingMode::Managed }
    }

    pub fn clone_window(&self) -> (w: Window)
        ensures
            w == *self,
    {
        Window { title: self.title.clone(), hwnd: self.hwnd, mode: self.mode }
    }

    pub fn set_mode(&mut self, mode: TilingMode)
        ensures
            final(self).mode == mode,
            final(self).title == old(self).title,
            final(self).hwnd == old(self).hwnd,
    {
        self.mode = mode;
    }
}

} // verus!

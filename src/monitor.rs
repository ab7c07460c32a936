use vstd::prelude::*;

verus! {

/// A screen rectangle given by its edges.
#[derive(PartialEq, Eq, Structural, Clone, Copy, Debug)]
pub struct Rect {
    pub left: i32,
    pub top: i32,
    pub right: i32,
    pub bottom: i32,
}

/// A physical monitor: its name, handle and geometry.
pub struct Monitor {
    pub name: String,
    pub monitor_handle: isize,
    pub rect: Rect,
    pub width: i32,
    pub height: i32,
}

/// Strictly inside `r`: a point on an edge is outside.
pub open spec fn strictly_inside(r: Rect, x: int, y: int) -> bool {
    x > r.left && x < r.right && y > r.top && y < r.bottom
}

/// A point on an edge of a rectangle is not in it: neither on its right or
/// bottom edge, nor on its left or top edge.
pub proof fn lemma_edges_excluded(r: Rect, x: int, y: int)
    ensures
        !strictly_inside(r, r.right as int, y),
        !strictly_inside(r, x, r.bottom as int),
        !strictly_inside(r, r.left as int, y),
        !strictly_inside(r, x, r.top as int),
{
}

/// The units of `units` before its first zero, or all of them.
pub open spec fn before_nul(units: Seq<u16>) -> Seq<u16>
    decreases units.len(),
{
    if units.len() == 0 {
        units
    } else if units[0] == 0 {
        Seq::empty()
    } else {
        seq![units[0]].add(before_nul(units.skip(1)))
    }
}

/// The text that lossy UTF-16 decoding gives for `units`.
pub uninterp spec fn utf16_lossy(units: Seq<u16>) -> Seq<char>;

/// Relies on `String::from_utf16_lossy`: its result depends on the units
/// alone, and no units give the empty string.
#[verifier::external_body]
fn decode_utf16_lossy(units: &[u16]) -> (r: String)
    ensures
        r@ == utf16_lossy(units@),
        units@.len() == 0 ==> r@.len() == 0,
{
    String::from_utf16_lossy(units)
}

impl Monitor {
    pub fn is_point_in_monitor(&self, x: i32, y: i32) -> (r: bool)
        ensures
            r == strictly_inside(self.rect, x as int, y as int),
    {
        x > self.rect.left && x < self.rect.right && y > self.rect.top && y < self.rect.bottom
    }

    pub fn clone_monitor(&self) -> (m: Monitor)
        ensures
            m == *self,
    {
        Monitor {
            name: self.name.clone(),
            monitor_handle: self.monitor_handle,
            rect: self.rect,
            width: self.width,
            height: self.height,
        }
    }
}

/// Building monitors out of what the system reports.
pub struct Monitors;

impl Monitors {
    /// A monitor named `device_name` covering `rect`; its width and height
    /// are the rectangle's extents.
    pub fn create_monitor(device_name: String, monitor: isize, rect: Rect) -> (m: Monitor)
        requires
            i32::MIN <= rect.right - rect.left <= i32::MAX,
            i32::MIN <= rect.bottom - rect.top <= i32::MAX,
        ensures
            m.name == device_name,
            m.monitor_handle == monitor,
            m.rect == rect,
            m.width == rect.right - rect.left,
            m.height == rect.bottom - rect.top,
    {
        Monitor {
            name: device_name,
            monitor_handle: monitor,
            rect,
            width: rect.right - rect.left,
            height: rect.bottom - rect.top,
        }
    }

    /// Decodes a zero-terminated UTF-16 buffer: the units before the first
    /// zero, or the whole buffer when it holds none.
    pub fn to_string(ptr: &[u16]) -> (s: String)
        ensures
            s@ == utf16_lossy(before_nul(ptr@)),
    {
        let mut units: Vec<u16> = Vec::new();
        let mut i: usize = 0;
        while i < ptr.len() && ptr[i] != 0
            invariant
                0 <= i <= ptr@.len(),
                units@ == ptr@.take(i as int),
                forall|k: int| 0 <= k < i ==> ptr@[k] != 0,
            decreases ptr@.len() - i,
        {
            units.push(ptr[i]);
            i = i + 1;
            assert(units@ =~= ptr@.take(i as int));
        }
        proof {
            lemma_before_nul(ptr@, i as int);
        }
        decode_utf16_lossy(units.as_slice())
    }
}

/// When the first `i` units are non-zero and the next is zero or the end,
/// the units before the first zero are the first `i`.
proof fn lemma_before_nul(units: Seq<u16>, i: int)
    requires
        0 <= i <= units.len(),
        forall|k: int| 0 <= k < i ==> units[k] != 0,
        i < units.len() ==> units[i] == 0,
    ensures
        before_nul(units) == units.take(i),
    decreases units.len(),
{
    if units.len() == 0 {
        assert(units.take(i) =~= units);
    } else if units[0] == 0 {
        assert(units.take(i) =~= Seq::<u16>::empty());
    } else {
        let rest = units.skip(1);
        assert forall|k: int| 0 <= k < i - 1 implies rest[k] != 0 by {
            assert(rest[k] == units[k + 1]);
        }
        lemma_before_nul(rest, i - 1);
        assert(units.take(i) =~= seq![units[0]].add(rest.take(i - 1)));
    }
}

} // verus!

//! The records of a snapshot and the criteria values of the query pipeline.
use vstd::prelude::*;

verus! {

/// A window's position and dimensions in screen coordinates.
#[derive(Debug, Clone, Copy, PartialEq, Eq, Structural)]
pub struct WindowPosition {
    /// The x-coordinate of the window's top-left corner.
    pub x: i32,
    /// The y-coordinate of the window's top-left corner.
    pub y: i32,
    /// The width of the window in pixels.
    pub width: i32,
    /// The height of the window in pixels.
    pub height: i32,
}

impl Default for WindowPosition {
    /// The all-zero geometry, used when the geometry could not be read.
    fn default() -> (r: Self)
        ensures
            r == (WindowPosition { x: 0, y: 0, width: 0, height: 0 }),
    {
        WindowPosition { x: 0, y: 0, width: 0, height: 0 }
    }
}

impl WindowPosition {
    /// The geometry of the rectangle with the given edges.
    pub fn from_rect(left: i32, top: i32, right: i32, bottom: i32) -> (r: WindowPosition)
        requires
            i32::MIN <= right - left <= i32::MAX,
            i32::MIN <= bottom - top <= i32::MAX,
        ensures
            r == (WindowPosition {
                x: left,
                y: top,
                width: (right - left) as i32,
                height: (bottom - top) as i32,
            }),
    {
        WindowPosition { x: left, y: top, width: right - left, height: bottom - top }
    }
}

/// One captured window.
#[derive(Debug)]
pub struct WindowInfo {
    /// The opaque window handle.
    pub hwnd: isize,
    /// The id of the owning process; 0 when unknown.
    pub pid: u32,
    /// The window title.
    pub title: String,
    /// The window class name.
    pub class_name: String,
    /// The file name of the owning process's executable.
    pub process_name: String,
    /// The full path of the owning process's executable; empty when unknown.
    pub process_file: String,
    /// The 1-based position of the window in its snapshot.
    pub index: usize,
    /// The window's geometry.
    pub position: WindowPosition,
}

impl Clone for WindowInfo {
    fn clone(&self) -> (r: Self)
        ensures
            r == *self,
    {
        WindowInfo {
            hwnd: self.hwnd,
            pid: self.pid,
            title: self.title.clone(),
            class_name: self.class_name.clone(),
            process_name: self.process_name.clone(),
            process_file: self.process_file.clone(),
            index: self.index,
            position: self.position,
        }
    }
}

/// A copy of an optional text.
pub(crate) fn clone_text(t: &Option<String>) -> (r: Option<String>)
    ensures
        r == *t,
{
    match t {
        Some(s) => Some(s.clone()),
        None => None,
    }
}

/// Criteria for filtering windows. A criterion that is `None`, or a text
/// criterion that is empty, constrains nothing.
#[derive(Debug)]
pub struct FilterCriteria {
    /// The exact process id.
    pub pid: Option<u32>,
    /// Text that the title contains, ignoring case.
    pub title_contains: Option<String>,
    /// Text that the class name contains, ignoring case.
    pub class_name_contains: Option<String>,
    /// Text that the process name contains, ignoring case.
    pub process_name_contains: Option<String>,
    /// Text that the process file path contains, ignoring case.
    pub process_file_contains: Option<String>,
}

impl Clone for FilterCriteria {
    fn clone(&self) -> (r: Self)
        ensures
            r == *self,
    {
        FilterCriteria {
            pid: self.pid,
            title_contains: clone_text(&self.title_contains),
            class_name_contains: clone_text(&self.class_name_contains),
            process_name_contains: clone_text(&self.process_name_contains),
            process_file_contains: clone_text(&self.process_file_contains),
        }
    }
}

impl Default for FilterCriteria {
    /// Criteria that constrain nothing.
    fn default() -> (r: Self)
        ensures
            r.pid is None,
            r.title_contains is None,
            r.class_name_contains is None,
            r.process_name_contains is None,
            r.process_file_contains is None,
    {
        FilterCriteria {
            pid: None,
            title_contains: None,
            class_name_contains: None,
            process_name_contains: None,
            process_file_contains: None,
        }
    }
}

/// Which windows to keep, by their snapshot index.
#[derive(Debug, Clone, PartialEq, Eq)]
pub enum Selection {
    /// Every window.
    All,
    /// The windows with these 1-based indices, ascending and without repeats.
    Indices(Vec<usize>),
}

impl Selection {
    /// The selection keeps the window with this index.
    pub open spec fn selects(self, index: usize) -> bool {
        match self {
            Selection::All => true,
            Selection::Indices(v) => v@.contains(index),
        }
    }
}

/// Position-based sort keys. A direction below zero is descending, any
/// other is ascending.
#[derive(Debug, Clone, Copy, PartialEq, Eq, Structural)]
pub enum PositionSort {
    /// By the x-coordinate.
    X(i8),
    /// By the y-coordinate.
    Y(i8),
    /// By the x-coordinate, then by the y-coordinate, each in its own direction.
    XY(i8, i8),
}

/// Criteria for sorting windows, with the fixed precedence process id,
/// then title, then position. For the process id and the title a direction
/// of 0 is inactive, one below zero descending, one above zero ascending.
#[derive(Debug, Clone, Copy, PartialEq, Eq, Structural)]
pub struct SortCriteria {
    /// Direction of the process id key.
    pub pid: i8,
    /// Direction of the case-folded title key.
    pub title: i8,
    /// The position key, if any.
    pub position: Option<PositionSort>,
}

impl Default for SortCriteria {
    /// Criteria with every key inactive.
    fn default() -> (r: Self)
        ensures
            r == (SortCriteria { pid: 0, title: 0, position: None }),
    {
        SortCriteria { pid: 0, title: 0, position: None }
    }
}

} // verus!

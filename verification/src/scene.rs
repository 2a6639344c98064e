//! Small plain records that programs built on the graph pass around.

use vstd::prelude::*;

verus! {

/// What a node of a drawn scene shows.
#[derive(Debug, Clone, PartialEq)]
pub enum Node {
    Rectangle,
}

impl Node {
    /// The name of the shape, as it is shown to the user.
    pub fn label(&self) -> (text: String)
        ensures
            text@ == "Rectangle"@,
    {
        "Rectangle".to_owned()
    }
}

/// The title and the size, in pixels, of the window that an application
/// asks for.
pub struct AppConfig {
    pub title: String,
    pub width: u32,
    pub height: u32,
}

/// A rectangle of the window, in pixels, to draw into.
#[derive(Copy, Clone)]
pub struct Viewport {
    pub x: u32,
    pub y: u32,
    pub width: u32,
    pub height: u32,
}

impl Default for Viewport {
    fn default() -> (r: Self)
        ensures
            r == (Viewport { x: 0, y: 0, width: 0, height: 0 }),
    {
        Viewport { x: 0, y: 0, width: 0, height: 0 }
    }
}

} // verus!

//! The presenter's choice between the two interchangeable cell renderings.
//! The engine never depends on it; the presenter reads the current choice and
//! dispatches on it.

use vstd::prelude::*;
use vstd::string::View as _;

verus! {

/// Which cell rendering the presenter uses.
#[derive(Debug, Clone, Copy, PartialEq, Eq, Structural)]
pub enum ViewType {
    /// Textual glyphs.
    Terminal,
    /// Image textures.
    Classic,
}

/// Marker for the textual cell rendering.
#[derive(Debug, Clone, Copy)]
pub struct TerminalView;

/// Marker for the image-based cell rendering.
#[derive(Debug, Clone, Copy)]
pub struct ClassicView;

impl ViewType {
    /// The name the presenter shows and parses for this view type.
    pub fn name(&self) -> (r: &'static str)
        ensures
            *self is Classic ==> r@ == "classic"@,
            *self is Terminal ==> r@ == "terminal"@,
    {
        match *self {
            ViewType::Classic => "classic",
            ViewType::Terminal => "terminal",
        }
    }

    /// The view type a name denotes; anything unknown falls back to the
    /// image-based view, as the selector's options make unknown names rare.
    pub fn from_name(s: &str) -> (r: ViewType)
        ensures
            r is Terminal <==> s@ == "terminal"@,
            r is Classic <==> s@ != "terminal"@,
    {
        let t = s.to_owned();
        let u = String::from_str("terminal");
        if t == u {
            ViewType::Terminal
        } else {
            ViewType::Classic
        }
    }
}

/// The mutable holder of the current view choice.
pub struct View {
    pub _type: ViewType,
}

impl View {
    /// Starts in the textual view.
    pub fn new() -> (r: Self)
        ensures
            r._type is Terminal,
    {
        Self { _type: ViewType::Terminal }
    }

    /// The current choice.
    pub fn get_type(&mut self) -> (r: ViewType)
        ensures
            r == old(self)._type,
            *final(self) == *old(self),
    {
        self._type
    }

    /// Switches to the given choice.
    pub fn switch(&mut self, _type: ViewType)
        ensures
            final(self)._type == _type,
    {
        self._type = _type;
    }
}

} // verus!

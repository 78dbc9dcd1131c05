//! What the rules read of a screen.
use crate::text::texts;
use vstd::prelude::*;

verus! {

/// The latest progress report: its state and its percentage.
#[derive(Clone, Copy, Debug, PartialEq, Eq, Structural)]
pub struct Progress {
    pub state: u8,
    pub percent: u8,
}

/// A screen as the rules see it: the lines of the detection window, the same as one text, the
/// title, the progress and the size in rows and columns.
pub trait ScreenView {
    spec fn view_lines(&self) -> Seq<Seq<char>>;

    spec fn view_text(&self) -> Seq<char>;

    spec fn view_title(&self) -> Seq<char>;

    spec fn view_progress(&self) -> Option<Progress>;

    spec fn view_size(&self) -> (u16, u16);

    fn lines(&self) -> (lines: Vec<String>)
        ensures
            texts(lines@) == self.view_lines(),
    ;

    fn text(&self) -> (text: &str)
        ensures
            text@ == self.view_text(),
    ;

    fn title(&self) -> (title: &str)
        ensures
            title@ == self.view_title(),
    ;

    fn progress(&self) -> (progress: Option<Progress>)
        ensures
            progress == self.view_progress(),
    ;

    fn size(&self) -> (size: (u16, u16))
        ensures
            size == self.view_size(),
    ;
}

} // verus!

//! The in-document search input box: a line of text with a cursor.
use vstd::prelude::*;
use vstd::string::StrSliceExecFns;
use vstd::string::StringExecFns;

use crate::width::push_char;

verus! {

/// Text entry state for the search overlay.  The cursor counts characters
/// and always sits at the end of the entered text.
#[derive(Debug, Clone)]
pub struct SearchBox {
    pub text: String,
    pub cursor: usize,
    pub height: u16,
    pub width: u16,
    pub x: u16,
    pub y: u16,
}

impl SearchBox {
    /// The cursor never points past the entered text.
    pub open spec fn wf(&self) -> bool {
        self.cursor <= self.text@.len()
    }

    pub fn new() -> (r: Self)
        ensures
            r.text@ == Seq::<char>::empty(),
            r.cursor == 0,
            r.height == 2,
            r.width == 20,
            r.x == 0,
            r.y == 0,
            r.wf(),
    {
        Self { text: String::new(), cursor: 0, height: 2, width: 20, x: 0, y: 0 }
    }

    /// Append a character and advance the cursor.
    pub fn insert(&mut self, c: char)
        requires
            old(self).wf(),
            old(self).text@.len() < usize::MAX,
        ensures
            final(self).text@ == old(self).text@.push(c),
            final(self).cursor == old(self).cursor + 1,
            final(self).height == old(self).height,
            final(self).width == old(self).width,
            final(self).x == old(self).x,
            final(self).y == old(self).y,
            old(self).cursor == old(self).text@.len() ==> final(self).wf(),
    {
        push_char(&mut self.text, c);
        self.cursor = self.cursor + 1;
    }

    /// Remove the character just before the cursor; a no-op at position 0.
    pub fn delete(&mut self)
        requires
            old(self).wf(),
        ensures
            final(self).wf(),
            old(self).cursor == 0 ==> *final(self) == *old(self),
            old(self).cursor > 0 ==> {
                &&& final(self).text@ == old(self).text@.subrange(
                    0,
                    old(self).cursor - 1,
                ) + old(self).text@.subrange(old(self).cursor as int, old(self).text@.len() as int)
                &&& final(self).cursor == old(self).cursor - 1
            },
            final(self).height == old(self).height,
            final(self).width == old(self).width,
            final(self).x == old(self).x,
            final(self).y == old(self).y,
    {
        if self.cursor > 0 {
            let n = self.text.as_str().unicode_len();
            let head = self.text.as_str().substring_char(0, self.cursor - 1).to_owned();
            let tail = self.text.as_str().substring_char(self.cursor, n).to_owned();
            self.text = head.concat(tail.as_str());
            self.cursor = self.cursor - 1;
        }
    }

    /// Empty the box and reset the cursor.
    pub fn clear(&mut self)
        ensures
            final(self).text@ == Seq::<char>::empty(),
            final(self).cursor == 0,
            final(self).wf(),
            final(self).height == old(self).height,
            final(self).width == old(self).width,
            final(self).x == old(self).x,
            final(self).y == old(self).y,
    {
        self.text = String::new();
        self.cursor = 0;
    }

    pub fn dimensions(&self) -> (r: (u16, u16))
        ensures
            r.0 == self.height,
            r.1 == self.width,
    {
        (self.height, self.width)
    }

    /// Hand the entered text to the caller and clear the box.
    pub fn consume(&mut self) -> (r: String)
        ensures
            r@ == old(self).text@,
            final(self).text@ == Seq::<char>::empty(),
            final(self).cursor == 0,
            final(self).wf(),
            final(self).height == old(self).height,
            final(self).width == old(self).width,
            final(self).x == old(self).x,
            final(self).y == old(self).y,
    {
        let text = self.text.clone();
        self.clear();
        text
    }

    pub fn content_str(&self) -> (r: &str)
        ensures
            r@ == self.text@,
    {
        self.text.as_str()
    }

    /// The entered text, or `None` while the box is empty.
    pub fn content(&self) -> (r: Option<&str>)
        ensures
            self.text@.len() == 0 ==> r is None,
            self.text@.len() > 0 ==> (r matches Some(s) && s@ == self.text@),
    {
        if self.text.as_str().is_empty() {
            None
        } else {
            Some(self.text.as_str())
        }
    }

    pub fn set_position(&mut self, x: u16, y: u16)
        ensures
            final(self).x == x,
            final(self).y == y,
            final(self).text == old(self).text,
            final(self).cursor == old(self).cursor,
            final(self).height == old(self).height,
            final(self).width == old(self).width,
    {
        self.x = x;
        self.y = y;
    }

    pub fn set_width(&mut self, width: u16)
        ensures
            final(self).width == width,
            final(self).text == old(self).text,
            final(self).cursor == old(self).cursor,
            final(self).height == old(self).height,
            final(self).x == old(self).x,
            final(self).y == old(self).y,
    {
        self.width = width;
    }

    pub fn x(&self) -> (r: u16)
        ensures
            r == self.x,
    {
        self.x
    }

    pub fn y(&self) -> (r: u16)
        ensures
            r == self.y,
    {
        self.y
    }
}

impl Default for SearchBox {
    fn default() -> (r: Self)
        ensures
            r.text@ == Seq::<char>::empty(),
            r.cursor == 0,
            r.height == 2,
            r.width == 20,
            r.x == 0,
            r.y == 0,
    {
        Self::new()
    }
}

} // verus!

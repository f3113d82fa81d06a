use vstd::prelude::*;
use crate::nodes::textcomponent::TextNode;

verus! {

/// An image block: it takes up `height` rows of the rendered document.
#[derive(Clone, Copy, Debug)]
pub struct ImageComponent {
    pub height: u16,
    pub y_offset: u16,
    pub scroll_offset: u16,
}

impl ImageComponent {
    pub fn new(height: u16) -> (r: ImageComponent)
        ensures
            r.height == height,
            r.y_offset == 0,
            r.scroll_offset == 0,
    {
        ImageComponent { height, y_offset: 0, scroll_offset: 0 }
    }

    pub fn height(&self) -> (h: u16)
        ensures
            h == self.height,
    {
        self.height
    }

    pub fn set_y_offset(&mut self, y_offset: u16)
        ensures
            *final(self) == (ImageComponent { y_offset, ..*old(self) }),
    {
        self.y_offset = y_offset;
    }

    pub fn set_scroll_offset(&mut self, scroll: u16)
        ensures
            *final(self) == (ImageComponent { scroll_offset: scroll, ..*old(self) }),
    {
        self.scroll_offset = scroll;
    }

    pub fn kind(&self) -> (k: TextNode)
        ensures
            k == TextNode::Image,
    {
        TextNode::Image
    }
}

} // verus!

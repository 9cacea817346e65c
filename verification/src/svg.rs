//! SVG building tools.

use vstd::prelude::*;
use crate::chars::{i32_to_string, push_str, signed_decimal_string};

verus! {

/// An SVG drawing of a given size.
pub struct Drawing {
    width: i32,
    height: i32,
}

/// The SVG document of a drawing of the given size.
pub open spec fn svg_document(width: i32, height: i32) -> Seq<char> {
    "<svg version='1.1' baseProfile='full' width='"@ + signed_decimal_string(width as int)
        + "' height='"@ + signed_decimal_string(height as int)
        + "' xmlns='http://www.w3.org/2000/svg'>"@ + "</svg>"@
}

impl Drawing {
    /// An empty drawing: it starts empty and is resized to accommodate what is drawn.
    pub fn new() -> (r: Drawing)
        ensures
            r.size() == (0i32, 0i32),
    {
        Drawing { width: 0, height: 0 }
    }

    /// The width and height of the drawing.
    pub closed spec fn size(&self) -> (i32, i32) {
        (self.width, self.height)
    }

    /// The drawing as an SVG document.
    pub fn render(&self) -> (r: String)
        ensures
            r@ == svg_document(self.size().0, self.size().1),
    {
        let mut buf = String::new();
        push_str(&mut buf, "<svg version='1.1' baseProfile='full' width='");
        let width = i32_to_string(self.width);
        push_str(&mut buf, width.as_str());
        push_str(&mut buf, "' height='");
        let height = i32_to_string(self.height);
        push_str(&mut buf, height.as_str());
        push_str(&mut buf, "' xmlns='http://www.w3.org/2000/svg'>");
        push_str(&mut buf, "</svg>");
        assert(buf@ =~= svg_document(self.width, self.height));
        buf
    }
}

} // verus!

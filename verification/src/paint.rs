//! Painted labels. A `PaintedLabel` is made only by `paint`, which hands the
//! label to `colored`, so a printed record that holds one carries what
//! `colored` wrote for that label and color.
use vstd::prelude::*;

use crate::display::{fg_code, is_bold_painting, paint_label, LabelColor};

verus! {

/// A label as `colored` painted it, with the label and the color it was
/// given.
pub struct PaintedLabel {
    text: String,
    label: Ghost<Seq<char>>,
    color: Ghost<LabelColor>,
}

impl PaintedLabel {
    /// What `colored` wrote.
    pub closed spec fn text_spec(&self) -> Seq<char> {
        self.text@
    }

    /// The label handed to `colored`.
    pub closed spec fn label_spec(&self) -> Seq<char> {
        self.label@
    }

    /// The color asked for.
    pub closed spec fn color_spec(&self) -> LabelColor {
        self.color@
    }

    /// Made by `paint`: the text is a bold painting of the label in the
    /// color.
    pub closed spec fn is_painting(&self) -> bool {
        is_bold_painting(self.label@, fg_code(self.color@), self.text@)
    }

    /// The painted text.
    pub fn text(&self) -> (s: &str)
        ensures
            s@ == self.text_spec(),
    {
        self.text.as_str()
    }
}

/// Paints `label` bold in `color` through `colored`.
pub fn paint(label: &str, color: LabelColor) -> (p: PaintedLabel)
    ensures
        p.is_painting(),
        p.label_spec() == label@,
        p.color_spec() == color,
{
    let text = paint_label(label, color);
    PaintedLabel { text, label: Ghost(label@), color: Ghost(color) }
}

/// What a painting is: the label alone (coloring off), the label and the
/// reset sequence, or the bold style in the color's code, the label and the
/// reset sequence (the last two framing the label unchanged when it holds no
/// reset sequence itself).
pub proof fn lemma_painting_shape(p: PaintedLabel)
    requires
        p.is_painting(),
    ensures
        is_bold_painting(p.label_spec(), fg_code(p.color_spec()), p.text_spec()),
{
}

} // verus!

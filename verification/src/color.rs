use vstd::prelude::*;

verus! {

/// An RGBA color stored as four bytes: red, green, blue, alpha.
#[derive(Clone, Copy, Debug, PartialEq, Eq, Structural)]
pub struct LinearRGB(pub(crate) u8, pub(crate) u8, pub(crate) u8, pub(crate) u8);

impl View for LinearRGB {
    type V = (u8, u8, u8, u8);

    closed spec fn view(&self) -> (u8, u8, u8, u8) {
        (self.0, self.1, self.2, self.3)
    }
}

impl LinearRGB {
    /// Builds a color from its four channels.
    pub fn new(red: u8, green: u8, blue: u8, alpha: u8) -> (color: Self)
        ensures
            color@ == (red, green, blue, alpha),
    {
        Self(red, green, blue, alpha)
    }

    /// The channels in the order red, green, blue, alpha.
    pub fn as_bytes(self) -> (bytes: [u8; 4])
        ensures
            bytes@ == seq![self@.0, self@.1, self@.2, self@.3],
    {
        [self.0, self.1, self.2, self.3]
    }
}

/// An opaque color: alpha is 255.
pub fn rgb(red: u8, green: u8, blue: u8) -> (color: LinearRGB)
    ensures
        color@ == (red, green, blue, 255u8),
{
    rgba(red, green, blue, 255)
}

/// A color with the given alpha.
pub fn rgba(red: u8, green: u8, blue: u8, alpha: u8) -> (color: LinearRGB)
    ensures
        color@ == (red, green, blue, alpha),
{
    LinearRGB::new(red, green, blue, alpha)
}

} // verus!

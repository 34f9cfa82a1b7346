//! Textures: which texture of a checker pattern answers, and which texel
//! of an image.

use crate::util::{clamp, lemma_clamped_u32};
use vstd::prelude::*;

verus! {

/// A texture. `C` is a colour and `I` an image.
pub enum Texture<C, I> {
    /// The same colour everywhere.
    Solid(C),
    /// Two textures that alternate in space: the first where the pattern is
    /// odd, the second where it is even.
    Checker(Box<Texture<C, I>>, Box<Texture<C, I>>),
    /// An image wrapped around the surface.
    Image(I),
}

impl<C, I> Texture<C, I> {
    /// The texture that answers at a point where the pattern is odd or
    /// even: a checker hands the question on to one of its two textures,
    /// any other texture answers itself.
    pub open spec fn answering(self, odd: bool) -> Texture<C, I>
        decreases self,
    {
        match self {
            Texture::Checker(first, second) => if odd {
                first.answering(odd)
            } else {
                second.answering(odd)
            },
            _ => self,
        }
    }

    /// Finds the texture that answers at a point where the pattern is odd
    /// or even.
    pub fn resolve(&self, odd: bool) -> (leaf: &Texture<C, I>)
        ensures
            *leaf == self.answering(odd),
            !(*leaf is Checker),
        decreases self,
    {
        match self {
            Texture::Checker(first, second) => if odd {
                first.resolve(odd)
            } else {
                second.resolve(odd)
            },
            _ => self,
        }
    }
}

/// The texel that a scaled coordinate falls on, along a side of `size`
/// texels: the coordinate itself, or the last texel if it lies beyond.
pub fn texel(scaled: u32, size: u32) -> (index: u32)
    requires
        size > 0,
    ensures
        index == if scaled < size {
            scaled
        } else {
            (size - 1) as u32
        },
        index < size,
{
    proof {
        lemma_clamped_u32(scaled, 0, (size - 1) as u32);
    }
    clamp(scaled, 0, size - 1)
}

} // verus!

//! Colors of three channels.

use vstd::prelude::*;

verus! {

/// A color as three non-negative integer channels.
#[derive(Debug, Clone, Copy, PartialEq, Eq, Structural)]
pub struct RgbColor {
    pub r: u32,
    pub g: u32,
    pub b: u32,
}

impl RgbColor {
    /// The channels written side by side, 32 bits each: the number under
    /// which a histogram files the color.
    pub open spec fn key(self) -> nat {
        (self.r as nat) * 0x1_0000_0000_0000_0000 + (self.g as nat) * 0x1_0000_0000 + (self.b as nat)
    }

    pub fn new(r: u32, g: u32, b: u32) -> (color: Self)
        ensures
            color == (RgbColor { r, g, b }),
    {
        Self { r, g, b }
    }

    /// Reads a color from exactly three channel values, in the order red,
    /// green, blue.
    pub fn from_vec(values: &Vec<u32>) -> (color: Option<Self>)
        ensures
            values.len() == 3 ==> color == Some(RgbColor { r: values[0], g: values[1], b: values[2] }),
            values.len() != 3 ==> color is None,
    {
        if values.len() == Self::dim() {
            Some(Self::new(values[0], values[1], values[2]))
        } else {
            None
        }
    }

    /// The number of channels.
    pub fn dim() -> (d: usize)
        ensures
            d == 3,
    {
        3
    }

    /// The key of this color. Two colors have the same key only if all
    /// their channels agree (`lemma_key_injective`).
    pub fn hash_key(&self) -> (key: u128)
        ensures
            key == self.key(),
    {
        let r: u128 = self.r as u128;
        let g: u128 = self.g as u128;
        let b: u128 = self.b as u128;
        r * 0x1_0000_0000_0000_0000 + g * 0x1_0000_0000 + b
    }

    pub fn to_vec(&self) -> (values: Vec<u32>)
        ensures
            values@ == seq![self.r, self.g, self.b],
    {
        let mut values: Vec<u32> = Vec::new();
        values.push(self.r);
        values.push(self.g);
        values.push(self.b);
        values
    }
}

/// Distinct colors have distinct keys.
pub proof fn lemma_key_injective(a: RgbColor, b: RgbColor)
    requires
        a.key() == b.key(),
    ensures
        a == b,
{
}

} // verus!

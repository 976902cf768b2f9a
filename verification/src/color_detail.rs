//! A colour with what is shown beside it: its hex notation, its hue,
//! saturation and value, its complement and its split complement.

use crate::color::{hex_of, ColorUtil, Rgb};
use crate::hsv::HSV;
use rand::rngs::StdRng;
use vstd::prelude::*;

verus! {

/// A colour and what is derived from it.
#[derive(Debug)]
pub struct ColorDetail {
    /// The colour that the colour picker of the user interface shows.
    pub egui_color: Rgb<u8>,
    /// The colour.
    pub color: Rgb<u8>,
    /// Its hue, saturation and value.
    pub color_hsv: HSV,
    /// Its hex notation.
    pub hex: String,
    /// Its complement.
    pub complement: Rgb<u8>,
    /// The hex notation of the complement.
    pub complement_hex: String,
    /// Its split complement.
    pub split_complement: (Rgb<u8>, Rgb<u8>),
    /// The hex notations of the split complement.
    pub split_complement_hex: (String, String),
}

impl ColorDetail {
    /// The colour is `c` and its hex notation is that of `c`.
    pub open spec fn shows(&self, c: Rgb<u8>) -> bool {
        self.color == c && self.hex@ == hex_of(c)
    }

    /// Hue, saturation and value, complement and split complement are those
    /// of `c`, with their hex notations.
    pub open spec fn relates(&self, c: Rgb<u8>) -> bool {
        &&& self.color_hsv == HSV::spec_from_rgb(c)
        &&& self.complement == ColorUtil::complement(c)
        &&& self.complement_hex@ == hex_of(self.complement)
        &&& self.split_complement == ColorUtil::spec_split_complement(HSV::spec_from_rgb(c))
        &&& self.split_complement_hex.0@ == hex_of(self.split_complement.0)
        &&& self.split_complement_hex.1@ == hex_of(self.split_complement.1)
    }

    /// Complement and split complement are the same in `self` and `other`.
    pub open spec fn same_relations(&self, other: &ColorDetail) -> bool {
        &&& self.color_hsv == other.color_hsv
        &&& self.complement == other.complement
        &&& self.complement_hex == other.complement_hex
        &&& self.split_complement == other.split_complement
        &&& self.split_complement_hex == other.split_complement_hex
    }

    /// The detail of the colour `c`.
    pub fn new(c: Rgb<u8>) -> (detail: ColorDetail)
        ensures
            detail.shows(c),
            detail.relates(c),
            detail.egui_color == c,
    {
        let complement = ColorUtil::get_compliment(c);
        let color_hsv = HSV::from_rgb_u(c);
        let split_complement = ColorUtil::split_complement(&color_hsv);
        let split_complement_hex = (
            ColorUtil::rgb_to_hex(split_complement.0),
            ColorUtil::rgb_to_hex(split_complement.1),
        );
        ColorDetail {
            egui_color: c,
            color: c,
            color_hsv,
            hex: ColorUtil::rgb_to_hex(c),
            complement,
            complement_hex: ColorUtil::rgb_to_hex(complement),
            split_complement,
            split_complement_hex,
        }
    }

    /// The detail of a colour that `rng` picks.
    pub fn default(rng: &mut StdRng) -> (detail: ColorDetail)
        ensures
            detail.shows(detail.color),
            detail.relates(detail.color),
            detail.egui_color == detail.color,
    {
        let c = ColorUtil::rand_color(rng);
        Self::new(c)
    }

    /// Takes over the colour that the colour picker shows, where it is
    /// another than the colour: colour and hex notation follow it, and with
    /// `update_complement` all that is derived from the colour does.
    pub fn update_from_egui_color(&mut self, update_complement: bool)
        ensures
            final(self).egui_color == old(self).egui_color,
            old(self).egui_color == old(self).color ==> *final(self) == *old(self),
            old(self).egui_color != old(self).color ==> final(self).shows(old(self).egui_color),
            old(self).egui_color != old(self).color && update_complement ==> final(self).relates(
                old(self).egui_color,
            ),
            !update_complement ==> final(self).same_relations(old(self)),
    {
        if !self.egui_color.same(self.color) {
            self.color = self.egui_color;
            self.hex = ColorUtil::rgb_to_hex(self.color);
            if update_complement {
                let complement = ColorUtil::get_compliment(self.color);
                self.complement_hex = ColorUtil::rgb_to_hex(complement);
                self.complement = complement;
                self.color_hsv = HSV::from_rgb_u(self.color);
                self.split_complement = ColorUtil::split_complement(&self.color_hsv);
                self.split_complement_hex = (
                    ColorUtil::rgb_to_hex(self.split_complement.0),
                    ColorUtil::rgb_to_hex(self.split_complement.1),
                );
            }
        }
    }
}

} // verus!

//! The colours that stand in a chosen relation to a colour.

use crate::color::{ColorUtil, Rgb};
use crate::hsv::HSV;
use rand::rngs::StdRng;
use vstd::prelude::*;

verus! {

/// A relation between a colour and others.
#[derive(Clone, Copy, PartialEq, Eq, Debug)]
pub enum RelationType {
    /// The one colour opposite to it.
    Complement,
    /// The two colours to either side of the opposite one.
    SplitComplement,
}

/// The colours that stand in the relation `relation_type` to `color`: its
/// complement, or the two colours of its split complement.
pub open spec fn related(color: Rgb<u8>, relation_type: RelationType) -> Seq<Rgb<u8>> {
    match relation_type {
        RelationType::Complement => seq![ColorUtil::complement(color)],
        RelationType::SplitComplement => {
            let pair = ColorUtil::spec_split_complement(HSV::spec_from_rgb(color));
            seq![pair.0, pair.1]
        },
    }
}

/// A colour, a relation, and the colours that stand in it to the colour.
#[derive(Clone, Debug)]
pub struct ColorRelation {
    /// The colour.
    pub color: Rgb<u8>,
    /// The relation.
    pub relation_type: RelationType,
    /// The colours that stand in the relation to the colour.
    pub related_colors: Vec<Rgb<u8>>,
}

impl ColorRelation {
    /// The related colours are those of the colour and the relation.
    pub open spec fn wf(&self) -> bool {
        self.related_colors@ == related(self.color, self.relation_type)
    }

    /// A colour that `rng` picks, with its complement.
    pub fn default(rng: &mut StdRng) -> (relation: ColorRelation)
        ensures
            relation.wf(),
            relation.relation_type == RelationType::Complement,
    {
        let color = ColorUtil::rand_color(rng);
        let related_colors = Self::get_related_colors(color, RelationType::Complement);
        ColorRelation { color, relation_type: RelationType::Complement, related_colors }
    }

    /// Makes `c` the colour; where it was another, the related colours
    /// follow.
    pub fn set_color(&mut self, c: Rgb<u8>)
        ensures
            final(self).color == c,
            final(self).relation_type == old(self).relation_type,
            old(self).color == c ==> final(self).related_colors == old(self).related_colors,
            old(self).color != c ==> final(self).wf(),
            old(self).wf() ==> final(self).wf(),
    {
        if !self.color.same(c) {
            self.color = c;
            self.related_colors = Self::get_related_colors(c, self.relation_type);
        }
    }

    /// Makes `relation_type` the relation; the related colours follow.
    pub fn set_relation_type(&mut self, relation_type: RelationType)
        ensures
            final(self).color == old(self).color,
            final(self).relation_type == relation_type,
            final(self).wf(),
    {
        self.relation_type = relation_type;
        self.related_colors = Self::get_related_colors(self.color, self.relation_type);
    }

    /// The colours that stand in the relation `relation_type` to `color`.
    pub fn get_related_colors(color: Rgb<u8>, relation_type: RelationType) -> (colors: Vec<
        Rgb<u8>,
    >)
        ensures
            colors@ == related(color, relation_type),
    {
        let mut colors: Vec<Rgb<u8>> = Vec::new();
        match relation_type {
            RelationType::Complement => {
                colors.push(ColorUtil::get_compliment(color));
            },
            RelationType::SplitComplement => {
                let color_hsv = HSV::from_rgb_u(color);
                let pair = ColorUtil::split_complement(&color_hsv);
                colors.push(pair.0);
                colors.push(pair.1);
            },
        }
        assert(colors@ =~= related(color, relation_type));
        colors
    }
}

} // verus!

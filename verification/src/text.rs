//! The cache of text builders, one per font size, so that builders are
//! not reconstructed.
use crate::gui::FontSize;
use std::collections::hash_map::Entry;
use std::collections::HashMap;
use vstd::prelude::*;

verus! {

broadcast use vstd::std_specs::hash::group_hash_axioms;

/// Stores text builders so that they are not reconstructed
pub struct TextBuilderContainer<B> {
    builders: HashMap<u32, B>,
}

impl<B> TextBuilderContainer<B> {
    /// The builders made so far, by font size.
    pub closed spec fn builders(&self) -> Map<u32, B> {
        self.builders@
    }

    /// No builders yet.
    pub fn new() -> (c: Self)
        ensures
            c.builders() == Map::<u32, B>::empty(),
    {
        TextBuilderContainer { builders: HashMap::new() }
    }

    /// The builder for `font_size`; the first time that size is asked for
    /// it is made by `make` and kept.
    pub fn get<F: Fn(FontSize) -> B>(&mut self, font_size: FontSize, make: F) -> (b: &B)
        requires
            make.requires((font_size,)),
        ensures
            old(self).builders().contains_key(font_size.0) ==> *b == old(self).builders()[font_size.0],
            !old(self).builders().contains_key(font_size.0) ==> make.ensures((font_size,), *b),
            final(self).builders() == old(self).builders().insert(font_size.0, *b),
    {
        let r = self.get_mut(font_size, make);
        &*r
    }

    /// The builder for `font_size`, to be changed; the first time that size
    /// is asked for it is made by `make` and kept.
    pub fn get_mut<F: Fn(FontSize) -> B>(&mut self, font_size: FontSize, make: F) -> (b: &mut B)
        requires
            make.requires((font_size,)),
        ensures
            old(self).builders().contains_key(font_size.0) ==> *b == old(self).builders()[font_size.0],
            !old(self).builders().contains_key(font_size.0) ==> make.ensures((font_size,), *b),
            final(self).builders() == old(self).builders().insert(font_size.0, *final(b)),
    {
        match self.builders.entry(font_size.0) {
            Entry::Occupied(e) => e.into_mut(),
            Entry::Vacant(e) => e.insert(make(font_size)),
        }
    }
}

} // verus!

//! The image layers laid over the background, each with its own identifier.

use crate::ids::IdGenerator;
use vstd::prelude::*;

verus! {

/// The layers, in the order they were added, each built around the
/// identifier it was given.
pub struct LayerRenderer<L> {
    entity_id_generator: IdGenerator,
    layers: Vec<L>,
}

impl<L> LayerRenderer<L> {
    /// The layers, oldest first.
    pub closed spec fn layers_view(&self) -> Seq<L> {
        self.layers@
    }

    /// The identifier given last; 0 before the first layer.
    pub closed spec fn last_id(&self) -> int {
        self.entity_id_generator.last()
    }

    /// No layer yet; the first one will be given identifier 1.
    pub fn new() -> (r: LayerRenderer<L>)
        ensures
            r.layers_view().len() == 0,
            r.last_id() == 0,
    {
        LayerRenderer { entity_id_generator: IdGenerator::new(), layers: Vec::new() }
    }

    /// Drops every layer; identifiers start again from 1.
    pub fn reset(&mut self)
        ensures
            final(self).layers_view().len() == 0,
            final(self).last_id() == 0,
    {
        self.entity_id_generator = IdGenerator::new();
        self.layers = Vec::new();
    }

    /// Whether one more layer can be given an identifier.
    pub fn has_free_id(&self) -> (r: bool)
        ensures
            r == (self.last_id() < i32::MAX),
    {
        self.entity_id_generator.has_next()
    }

    /// Gives the next identifier to `build` and appends the layer it makes.
    pub fn add_layer<F: FnOnce(i32) -> L>(&mut self, build: F) -> (id: i32)
        requires
            old(self).last_id() < i32::MAX,
            build.requires(((old(self).last_id() + 1) as i32,)),
        ensures
            id == old(self).last_id() + 1,
            final(self).last_id() == id,
            final(self).layers_view().len() == old(self).layers_view().len() + 1,
            final(self).layers_view().drop_last() == old(self).layers_view(),
            build.ensures((id,), final(self).layers_view().last()),
    {
        let id = self.entity_id_generator.get_id();
        let layer = build(id);
        self.layers.push(layer);
        proof {
            assert(self.layers@.drop_last() =~= old(self).layers@);
        }
        id
    }

    /// The layers, oldest first.
    pub fn layers(&self) -> (r: &Vec<L>)
        ensures
            r@ == self.layers_view(),
    {
        &self.layers
    }
}

} // verus!

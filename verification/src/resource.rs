//! A stock of one resource kind held by a tile.

use vstd::prelude::*;

verus! {

#[derive(Clone, Copy, Debug)]
pub struct Resource {
    pub resource_type: char,
    pub quantity: i16,
    pub colour_rgba: [u8; 4],
}

impl Resource {
    pub fn new(resource_type: char, colour_rgba: [u8; 4]) -> (r: Resource)
        ensures
            r.resource_type == resource_type,
            r.colour_rgba == colour_rgba,
            r.quantity == 1,
    {
        Resource { colour_rgba, quantity: 1, resource_type }
    }

    pub fn add_resource(&mut self, quantity_to_add: i16)
        requires
            i16::MIN <= old(self).quantity + quantity_to_add <= i16::MAX,
        ensures
            final(self).quantity == old(self).quantity + quantity_to_add,
            final(self).resource_type == old(self).resource_type,
            final(self).colour_rgba == old(self).colour_rgba,
    {
        self.quantity = self.quantity + quantity_to_add;
    }

    pub fn remove_resource(&mut self, quantity_to_remove: i16)
        requires
            i16::MIN <= old(self).quantity - quantity_to_remove <= i16::MAX,
        ensures
            final(self).quantity == old(self).quantity - quantity_to_remove,
            final(self).resource_type == old(self).resource_type,
            final(self).colour_rgba == old(self).colour_rgba,
    {
        self.quantity = self.quantity - quantity_to_remove;
    }
}

} // verus!

use vstd::prelude::*;
use crate::grid_map::GridMap;
use crate::layered_grid_map::LayeredGridMap;

verus! {

/// A pair of layer families: the small local frame around the robot and the
/// global frame of the static map.
#[derive(Clone, Debug)]
pub struct NavigationGridMap<T> where T: Clone {
    local_map: LayeredGridMap<T>,
    global_map: LayeredGridMap<T>,
}

impl<T> NavigationGridMap<T> where T: Clone {
    pub closed spec fn spec_local_map(&self) -> LayeredGridMap<T> {
        self.local_map
    }

    pub closed spec fn spec_global_map(&self) -> LayeredGridMap<T> {
        self.global_map
    }

    pub open spec fn wf(&self) -> bool {
        self.spec_local_map().wf() && self.spec_global_map().wf()
    }

    pub fn new(local_map: LayeredGridMap<T>, global_map: LayeredGridMap<T>) -> (r: Self)
        ensures
            r.spec_local_map() == local_map,
            r.spec_global_map() == global_map,
    {
        NavigationGridMap { local_map, global_map }
    }

    pub fn local_map(&self) -> (r: &LayeredGridMap<T>)
        ensures
            *r == self.spec_local_map(),
    {
        &self.local_map
    }

    pub fn global_map(&self) -> (r: &LayeredGridMap<T>)
        ensures
            *r == self.spec_global_map(),
    {
        &self.global_map
    }

    /// Store `map` as the local layer named `name`, replacing any layer of
    /// that name.
    pub fn update_local_map(&mut self, name: String, map: GridMap<T>)
        requires
            old(self).wf(),
        ensures
            final(self).wf(),
            final(self).spec_global_map() == old(self).spec_global_map(),
            final(self).spec_local_map().contains_layer(name@),
            final(self).spec_local_map().layer_spec(name@) == map,
            forall|n: Seq<char>|
                n != name@ ==> (final(self).spec_local_map().contains_layer(n)
                    <==> old(self).spec_local_map().contains_layer(n)),
            forall|n: Seq<char>|
                n != name@ && old(self).spec_local_map().contains_layer(n)
                    ==> final(self).spec_local_map().layer_spec(n)
                        == old(self).spec_local_map().layer_spec(n),
    {
        self.local_map.add_layer(name, map);
    }

    /// Store `map` as the global layer named `name`, replacing any layer of
    /// that name.
    pub fn update_global_map(&mut self, name: String, map: GridMap<T>)
        requires
            old(self).wf(),
        ensures
            final(self).wf(),
            final(self).spec_local_map() == old(self).spec_local_map(),
            final(self).spec_global_map().contains_layer(name@),
            final(self).spec_global_map().layer_spec(name@) == map,
            forall|n: Seq<char>|
                n != name@ ==> (final(self).spec_global_map().contains_layer(n)
                    <==> old(self).spec_global_map().contains_layer(n)),
            forall|n: Seq<char>|
                n != name@ && old(self).spec_global_map().contains_layer(n)
                    ==> final(self).spec_global_map().layer_spec(n)
                        == old(self).spec_global_map().layer_spec(n),
    {
        self.global_map.add_layer(name, map);
    }
}

} // verus!

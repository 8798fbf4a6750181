use vstd::prelude::*;
use crate::grid_map::GridMap;

verus! {

/// Whether some layer in `s` is named `name`.
pub open spec fn contains_layer_named<T: Clone>(
    s: Seq<(String, GridMap<T>)>,
    name: Seq<char>,
) -> bool {
    exists|i: int| 0 <= i < s.len() && s[i].0@ == name
}

/// The position of the layer named `name`; meaningful only when
/// `contains_layer_named` holds and the names are unique.
pub open spec fn layer_index_of<T: Clone>(s: Seq<(String, GridMap<T>)>, name: Seq<char>) -> int {
    choose|i: int| 0 <= i < s.len() && s[i].0@ == name
}

/// No two layers in `s` share a name.
pub open spec fn unique_layer_names<T: Clone>(s: Seq<(String, GridMap<T>)>) -> bool {
    forall|i: int, j: int| 0 <= i < j < s.len() ==> s[i].0@ != s[j].0@
}

/// With unique names, a position holding `name` is the position every lookup
/// of `name` resolves to.
proof fn lemma_layer_lookup<T: Clone>(s: Seq<(String, GridMap<T>)>, name: Seq<char>, i: int)
    requires
        unique_layer_names(s),
        0 <= i < s.len(),
        s[i].0@ == name,
    ensures
        contains_layer_named(s, name),
        layer_index_of(s, name) == i,
{
    assert(contains_layer_named(s, name));
    let j = layer_index_of(s, name);
    assert(0 <= j < s.len() && s[j].0@ == name);
    if j < i {
        assert(s[j].0@ != s[i].0@);
    } else if i < j {
        assert(s[i].0@ != s[j].0@);
    }
}

/// Replacing the one entry that holds `name` keeps the names unique, stores
/// the new layer under `name`, and leaves every other layer as it was.
proof fn lemma_replace_layer<T: Clone>(
    prior: Seq<(String, GridMap<T>)>,
    s: Seq<(String, GridMap<T>)>,
    name: Seq<char>,
    entry: (String, GridMap<T>),
    i: int,
)
    requires
        unique_layer_names(prior),
        0 <= i < prior.len(),
        prior[i].0@ == name,
        entry.0@ == name,
        s == prior.update(i, entry),
    ensures
        unique_layer_names(s),
        contains_layer_named(s, name),
        s[layer_index_of(s, name)].1 == entry.1,
        forall|nm: Seq<char>|
            nm != name ==> (contains_layer_named(s, nm) <==> contains_layer_named(prior, nm)),
        forall|nm: Seq<char>|
            nm != name && contains_layer_named(prior, nm) ==> s[layer_index_of(s, nm)].1
                == prior[layer_index_of(prior, nm)].1,
{
    assert(s.len() == prior.len());
    assert forall|k: int, l: int| 0 <= k < l < s.len() implies s[k].0@ != s[l].0@ by {
        if k != i && l != i {
            assert(s[k] == prior[k] && s[l] == prior[l]);
        } else if k == i {
            assert(s[k].0@ == name && s[l] == prior[l]);
            assert(prior[l].0@ != prior[i].0@);
        } else {
            assert(s[l].0@ == name && s[k] == prior[k]);
            assert(prior[k].0@ != prior[i].0@);
        }
    }
    lemma_layer_lookup(s, name, i);
    assert forall|nm: Seq<char>|
        nm != name implies (contains_layer_named(s, nm) <==> contains_layer_named(prior, nm)) by {
        if contains_layer_named(prior, nm) {
            let j = choose|j: int| 0 <= j < prior.len() && prior[j].0@ == nm;
            assert(j != i);
            assert(s[j].0@ == nm);
            assert(contains_layer_named(s, nm));
        }
        if contains_layer_named(s, nm) {
            let j = choose|j: int| 0 <= j < s.len() && s[j].0@ == nm;
            assert(j != i);
            assert(prior[j].0@ == nm);
            assert(contains_layer_named(prior, nm));
        }
    }
    assert forall|nm: Seq<char>|
        nm != name && contains_layer_named(prior, nm) implies s[layer_index_of(s, nm)].1
        == prior[layer_index_of(prior, nm)].1 by {
        let j = choose|j: int| 0 <= j < prior.len() && prior[j].0@ == nm;
        assert(prior[j].0@ == nm);
        lemma_layer_lookup(prior, nm, j);
        assert(j != i);
        assert(s[j].0@ == nm);
        lemma_layer_lookup(s, nm, j);
        assert(s[j] == prior[j]);
    }
}

/// Appending an entry whose name is fresh keeps the names unique, stores the
/// new layer under `name`, and leaves every other layer as it was.
proof fn lemma_push_layer<T: Clone>(
    prior: Seq<(String, GridMap<T>)>,
    s: Seq<(String, GridMap<T>)>,
    name: Seq<char>,
    entry: (String, GridMap<T>),
)
    requires
        unique_layer_names(prior),
        forall|j: int| 0 <= j < prior.len() ==> prior[j].0@ != name,
        entry.0@ == name,
        s == prior.push(entry),
    ensures
        unique_layer_names(s),
        contains_layer_named(s, name),
        s[layer_index_of(s, name)].1 == entry.1,
        forall|nm: Seq<char>|
            nm != name ==> (contains_layer_named(s, nm) <==> contains_layer_named(prior, nm)),
        forall|nm: Seq<char>|
            nm != name && contains_layer_named(prior, nm) ==> s[layer_index_of(s, nm)].1
                == prior[layer_index_of(prior, nm)].1,
{
    let last = s.len() - 1;
    assert(s[last] == entry);
    assert forall|k: int, l: int| 0 <= k < l < s.len() implies s[k].0@ != s[l].0@ by {
        if l == last {
            assert(s[k] == prior[k]);
            assert(prior[k].0@ != name);
        } else {
            assert(s[k] == prior[k] && s[l] == prior[l]);
        }
    }
    lemma_layer_lookup(s, name, last);
    assert forall|nm: Seq<char>|
        nm != name implies (contains_layer_named(s, nm) <==> contains_layer_named(prior, nm)) by {
        if contains_layer_named(prior, nm) {
            let j = choose|j: int| 0 <= j < prior.len() && prior[j].0@ == nm;
            assert(s[j].0@ == nm);
            assert(contains_layer_named(s, nm));
        }
        if contains_layer_named(s, nm) {
            let j = choose|j: int| 0 <= j < s.len() && s[j].0@ == nm;
            assert(j != last);
            assert(prior[j].0@ == nm);
            assert(contains_layer_named(prior, nm));
        }
    }
    assert forall|nm: Seq<char>|
        nm != name && contains_layer_named(prior, nm) implies s[layer_index_of(s, nm)].1
        == prior[layer_index_of(prior, nm)].1 by {
        let j = choose|j: int| 0 <= j < prior.len() && prior[j].0@ == nm;
        assert(prior[j].0@ == nm);
        lemma_layer_lookup(prior, nm, j);
        assert(s[j].0@ == nm);
        lemma_layer_lookup(s, nm, j);
        assert(s[j] == prior[j]);
    }
}

/// A named family of grid maps over one frame. Layer names are unique; adding
/// a layer under an existing name replaces that layer.
#[derive(Clone, Debug)]
pub struct LayeredGridMap<T> where T: Clone {
    maps: Vec<(String, GridMap<T>)>,
}

impl<T> LayeredGridMap<T> where T: Clone {
    /// The layers in insertion order.
    pub closed spec fn layers(&self) -> Seq<(String, GridMap<T>)> {
        self.maps@
    }

    /// Layer names never repeat.
    pub open spec fn wf(&self) -> bool {
        unique_layer_names(self.layers())
    }

    pub open spec fn contains_layer(&self, name: Seq<char>) -> bool {
        contains_layer_named(self.layers(), name)
    }

    /// The layer stored under `name`.
    pub open spec fn layer_spec(&self, name: Seq<char>) -> GridMap<T> {
        self.layers()[layer_index_of(self.layers(), name)].1
    }

    /// An empty family, with no layers yet.
    pub fn new() -> (r: Self)
        ensures
            r.wf(),
            r.layers().len() == 0,
            forall|n: Seq<char>| !r.contains_layer(n),
    {
        LayeredGridMap { maps: Vec::new() }
    }

    /// Store `map` as the layer named `name`, replacing any layer of that
    /// name; every other layer is untouched.
    #[verifier::loop_isolation(false)]
    pub fn add_layer(&mut self, name: String, map: GridMap<T>)
        requires
            old(self).wf(),
        ensures
            final(self).wf(),
            final(self).contains_layer(name@),
            final(self).layer_spec(name@) == map,
            forall|n: Seq<char>|
                n != name@ ==> (final(self).contains_layer(n) <==> old(self).contains_layer(n)),
            forall|n: Seq<char>|
                n != name@ && old(self).contains_layer(n) ==> final(self).layer_spec(n) == old(
                    self,
                ).layer_spec(n),
    {
        let ghost prior = self.maps@;
        let ghost sought = name@;
        let mut i: usize = 0;
        let n = self.maps.len();
        while i < n
            invariant
                self.maps@ == prior,
                n == prior.len(),
                i <= n,
                sought == name@,
                forall|j: int| 0 <= j < i ==> prior[j].0@ != sought,
            decreases n - i,
        {
            if self.maps[i].0 == name {
                let ghost pos = i as int;
                let entry = (name, map);
                self.maps.set(i, entry);
                proof {
                    lemma_replace_layer(prior, self.maps@, sought, (entry.0, entry.1), pos);
                }
                return ;
            }
            i = i + 1;
        }
        let entry = (name, map);
        self.maps.push(entry);
        proof {
            lemma_push_layer(prior, self.maps@, sought, (entry.0, entry.1));
        }
    }

    /// The layer named `name`, absent when no layer has that name.
    #[verifier::loop_isolation(false)]
    pub fn layer(&self, name: &str) -> (r: Option<&GridMap<T>>)
        requires
            self.wf(),
        ensures
            match r {
                Some(m) => self.contains_layer(name@) && *m == self.layer_spec(name@),
                None => !self.contains_layer(name@),
            },
    {
        let key: String = name.to_owned();
        let n = self.maps.len();
        let mut i: usize = 0;
        while i < n
            invariant
                self.wf(),
                key@ == name@,
                n == self.layers().len(),
                i <= n,
                forall|j: int| 0 <= j < i ==> self.layers()[j].0@ != name@,
            decreases n - i,
        {
            if self.maps[i].0 == key {
                proof {
                    lemma_layer_lookup(self.layers(), name@, i as int);
                }
                return Some(&self.maps[i].1);
            }
            i = i + 1;
        }
        None
    }

    /// How many layers are stored.
    pub fn num_layers(&self) -> (r: usize)
        ensures
            r == self.layers().len(),
    {
        self.maps.len()
    }
}

impl<T> Default for LayeredGridMap<T> where T: Clone {
    /// The default family holds no layers.
    fn default() -> (r: Self)
        ensures
            r.wf(),
            r.layers().len() == 0,
    {
        LayeredGridMap { maps: Vec::new() }
    }
}

} // verus!

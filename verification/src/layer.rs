//! A multi-component raster image: named [`Channel`]s of one size.
//!
//! A [`Layer`] maps channel names (unique strings, order irrelevant) to
//! channels, all created with the layer's `width x height`.  The layer does
//! no locking of its own; callers lock individual channels, and different
//! channels are independent.

use crate::channel::{channel_inv, dims_valid, Channel, ChannelView};
use crate::error::AllocError;
use vstd::pervasive::unreached;
use vstd::prelude::*;

verus! {

/// View of a [`Layer`]: its dimensions and the name/channel pairs, in
/// insertion order.
pub ghost struct LayerView {
    pub width: int,
    pub height: int,
    pub channels: Seq<(Seq<char>, ChannelView)>,
}

/// A named collection of same-sized channels.
pub struct Layer {
    width: usize,
    height: usize,
    channels: Vec<(String, Channel)>,
}

impl View for Layer {
    type V = LayerView;

    closed spec fn view(&self) -> LayerView {
        LayerView {
            width: self.width as int,
            height: self.height as int,
            channels: self.channels@.map_values(|p: (String, Channel)| (p.0@, p.1@)),
        }
    }
}

/// No two entries share a name, so lookup by name is unambiguous.
pub open spec fn layer_wf(l: LayerView) -> bool {
    forall|a: int, b: int|
        0 <= a < b < l.channels.len() ==> #[trigger] l.channels[a].0 != #[trigger] l.channels[b].0
}

/// Some entry carries this name.
pub open spec fn has_name(l: LayerView, name: Seq<char>) -> bool {
    exists|a: int| 0 <= a < l.channels.len() && #[trigger] l.channels[a].0 == name
}

/// The index of the entry carrying this name (unambiguous under
/// [`layer_wf`]).
pub open spec fn index_of_name(l: LayerView, name: Seq<char>) -> int {
    choose|a: int| 0 <= a < l.channels.len() && #[trigger] l.channels[a].0 == name
}

/// The channel stored under this name.
pub open spec fn channel_of(l: LayerView, name: Seq<char>) -> ChannelView {
    l.channels[index_of_name(l, name)].1
}

/// Every channel satisfies its invariant, shares the layer's dimensions, and
/// is unlocked with all cells zero — the state of a freshly built layer.
pub open spec fn layer_fresh(l: LayerView) -> bool {
    forall|a: int|
        0 <= a < l.channels.len() ==> {
            let c = (#[trigger] l.channels[a]).1;
            &&& channel_inv(c)
            &&& c.width == l.width
            &&& c.height == l.height
            &&& c.state == 0
            &&& c.cells == Seq::new((l.width * l.height) as nat, |i: int| 0u32)
        }
}

/// One of the first `k` entries of the name list reads `n`.
pub open spec fn named_in(names: Seq<&str>, k: int, n: Seq<char>) -> bool {
    exists|i: int| 0 <= i < k && #[trigger] names[i]@ == n
}

/// Some entry of the backing vector carries this name.
spec fn stored(chans: Seq<(String, Channel)>, n: Seq<char>) -> bool {
    exists|a: int| 0 <= a < chans.len() && #[trigger] chans[a].0@ == n
}

/// The name list holds no duplicates.
pub open spec fn names_distinct(names: Seq<&str>) -> bool {
    forall|p: int, q: int| 0 <= p < q < names.len() ==> #[trigger] names[p]@ != #[trigger] names[q]@
}

/// Whether one of the stored channels already carries this name.
fn contains_name(channels: &Vec<(String, Channel)>, name: &String) -> (found: bool)
    ensures
        found == stored(channels@, name@),
{
    let mut a: usize = 0;
    while a < channels.len()
        invariant
            a <= channels@.len(),
            forall|b: int| 0 <= b < a ==> #[trigger] channels@[b].0@ != name@,
        decreases channels@.len() - a,
    {
        if channels[a].0 == *name {
            return true;
        }
        a = a + 1;
    }
    false
}

impl Layer {
    /// Builds a layer of zero-filled `width x height` channels, one per
    /// distinct name; duplicate names collapse.  Fails exactly when the
    /// dimensions are invalid (a zero, or a product beyond `usize`).
    pub fn new(width: usize, height: usize, names: &[&str]) -> (r: Result<Layer, AllocError>)
        ensures
            r is Ok <==> dims_valid(width as int, height as int),
            match r {
                Ok(l) => {
                    &&& layer_wf(l@)
                    &&& layer_fresh(l@)
                    &&& l@.width == width as int
                    &&& l@.height == height as int
                    &&& forall|n: Seq<char>|
                        #[trigger] has_name(l@, n) <==> named_in(names@, names@.len() as int, n)
                    &&& l@.channels.len() <= names@.len()
                    &&& (names_distinct(names@) ==> l@.channels.len() == names@.len())
                },
                Err(e) => e == AllocError::Layout,
            },
    {
        if width == 0 || height == 0 {
            return Err(AllocError::Layout);
        }
        if width.checked_mul(height).is_none() {
            return Err(AllocError::Layout);
        }
        let mut channels: Vec<(String, Channel)> = Vec::new();
        let mut j: usize = 0;
        while j < names.len()
            invariant
                j <= names@.len(),
                channels@.len() <= j,
                dims_valid(width as int, height as int),
                forall|a: int, b: int|
                    0 <= a < b < channels@.len() ==> #[trigger] channels@[a].0@
                        != #[trigger] channels@[b].0@,
                forall|a: int|
                    0 <= a < channels@.len() ==> named_in(
                        names@,
                        j as int,
                        #[trigger] channels@[a].0@,
                    ),
                forall|i: int| 0 <= i < j ==> #[trigger] stored(channels@, names@[i]@),
                forall|a: int|
                    0 <= a < channels@.len() ==> {
                        let c = (#[trigger] channels@[a]).1;
                        &&& channel_inv(c@)
                        &&& c@.width == width as int
                        &&& c@.height == height as int
                        &&& c@.state == 0
                        &&& c@.cells == Seq::new((width * height) as nat, |i: int| 0u32)
                    },
                (forall|p: int, q: int|
                    0 <= p < q < j ==> #[trigger] names@[p]@ != #[trigger] names@[q]@)
                    ==> channels@.len() == j,
            decreases names@.len() - j,
        {
            let name = names[j];
            let owned = name.to_owned();
            let found = contains_name(&channels, &owned);
            let ghost prev = channels@;
            if !found {
                let chan = match Channel::new(width, height) {
                    Ok(c) => c,
                    Err(_) => unreached(),
                };
                channels.push((owned, chan));
                proof {
                    assert(channels@[prev.len() as int].0@ == names@[j as int]@);
                }
            }
            proof {
                assert(stored(channels@, names@[j as int]@));
                assert forall|i: int| 0 <= i < j + 1 implies #[trigger] stored(
                    channels@,
                    names@[i]@,
                ) by {
                    if i < j {
                        assert(stored(prev, names@[i]@));
                        let b = choose|b: int|
                            0 <= b < prev.len() && #[trigger] prev[b].0@ == names@[i]@;
                        assert(channels@[b].0@ == names@[i]@);
                    }
                }
                assert forall|a: int| 0 <= a < channels@.len() implies named_in(
                    names@,
                    j as int + 1,
                    #[trigger] channels@[a].0@,
                ) by {
                    if a < prev.len() {
                        assert(named_in(names@, j as int, prev[a].0@));
                        let i = choose|i: int| 0 <= i < j && #[trigger] names@[i]@ == prev[a].0@;
                        assert(names@[i]@ == channels@[a].0@);
                    } else {
                        assert(names@[j as int]@ == channels@[a].0@);
                    }
                }
            }
            j = j + 1;
        }
        let l = Layer { width, height, channels };
        proof {
            assert forall|n: Seq<char>| #[trigger] has_name(l@, n) implies named_in(
                names@,
                names@.len() as int,
                n,
            ) by {
                let a = choose|a: int|
                    0 <= a < l@.channels.len() && #[trigger] l@.channels[a].0 == n;
                assert(channels@[a].0@ == n);
                assert(named_in(names@, names@.len() as int, channels@[a].0@));
            }
            assert forall|n: Seq<char>|
                named_in(names@, names@.len() as int, n) implies #[trigger] has_name(l@, n) by {
                let i = choose|i: int| 0 <= i < names@.len() && #[trigger] names@[i]@ == n;
                assert(stored(channels@, names@[i]@));
                let a = choose|a: int|
                    0 <= a < channels@.len() && #[trigger] channels@[a].0@ == names@[i]@;
                assert(l@.channels[a].0 == n);
            }
            assert forall|a: int, b: int|
                0 <= a < b < l@.channels.len() implies #[trigger] l@.channels[a].0
                != #[trigger] l@.channels[b].0 by {
                assert(channels@[a].0@ != channels@[b].0@);
            }
        }
        Ok(l)
    }

    /// A single-channel gray layer: exposes exactly the name `gray`.
    pub fn new_gray(width: usize, height: usize) -> (r: Result<Layer, AllocError>)
        ensures
            r is Ok <==> dims_valid(width as int, height as int),
            match r {
                Ok(l) => {
                    &&& layer_wf(l@)
                    &&& layer_fresh(l@)
                    &&& l@.width == width as int
                    &&& l@.height == height as int
                    &&& l@.channels.len() == 1
                    &&& has_name(l@, "gray"@)
                    &&& forall|n: Seq<char>| #[trigger] has_name(l@, n) ==> n == "gray"@
                },
                Err(e) => e == AllocError::Layout,
            },
    {
        let mut names: Vec<&str> = Vec::new();
        names.push("gray");
        let r = Self::new(width, height, names.as_slice());
        proof {
            if dims_valid(width as int, height as int) {
                let l = r->Ok_0;
                assert(named_in(names@, 1, "gray"@)) by {
                    assert(names@[0]@ == "gray"@);
                }
                assert forall|n: Seq<char>| #[trigger] has_name(l@, n) implies n == "gray"@ by {
                    let i = choose|i: int| 0 <= i < 1 && #[trigger] names@[i]@ == n;
                }
            }
        }
        r
    }

    /// A three-channel color layer: exposes exactly `red`, `green`, `blue`.
    pub fn new_rgb(width: usize, height: usize) -> (r: Result<Layer, AllocError>)
        ensures
            r is Ok <==> dims_valid(width as int, height as int),
            match r {
                Ok(l) => {
                    &&& layer_wf(l@)
                    &&& layer_fresh(l@)
                    &&& l@.width == width as int
                    &&& l@.height == height as int
                    &&& l@.channels.len() == 3
                    &&& has_name(l@, "red"@)
                    &&& has_name(l@, "green"@)
                    &&& has_name(l@, "blue"@)
                    &&& forall|n: Seq<char>|
                        #[trigger] has_name(l@, n) ==> n == "red"@ || n == "green"@ || n
                            == "blue"@
                },
                Err(e) => e == AllocError::Layout,
            },
    {
        let mut names: Vec<&str> = Vec::new();
        names.push("red");
        names.push("green");
        names.push("blue");
        let r = Self::new(width, height, names.as_slice());
        proof {
            reveal_strlit("red");
            reveal_strlit("green");
            reveal_strlit("blue");
            assert(names@[0]@ == "red"@ && names@[1]@ == "green"@ && names@[2]@ == "blue"@);
            assert("red"@ != "green"@ && "red"@ != "blue"@ && "green"@ != "blue"@);
            assert(names_distinct(names@));
            if dims_valid(width as int, height as int) {
                let l = r->Ok_0;
                assert(named_in(names@, 3, "red"@)) by {
                    assert(names@[0]@ == "red"@);
                }
                assert(named_in(names@, 3, "green"@)) by {
                    assert(names@[1]@ == "green"@);
                }
                assert(named_in(names@, 3, "blue"@)) by {
                    assert(names@[2]@ == "blue"@);
                }
                assert forall|n: Seq<char>| #[trigger] has_name(l@, n) implies n == "red"@ || n
                    == "green"@ || n == "blue"@ by {
                    let i = choose|i: int| 0 <= i < 3 && #[trigger] names@[i]@ == n;
                }
            }
        }
        r
    }

    /// A four-channel color layer: exposes exactly `red`, `green`, `blue`,
    /// `alpha`.
    pub fn new_rgba(width: usize, height: usize) -> (r: Result<Layer, AllocError>)
        ensures
            r is Ok <==> dims_valid(width as int, height as int),
            match r {
                Ok(l) => {
                    &&& layer_wf(l@)
                    &&& layer_fresh(l@)
                    &&& l@.width == width as int
                    &&& l@.height == height as int
                    &&& l@.channels.len() == 4
                    &&& has_name(l@, "red"@)
                    &&& has_name(l@, "green"@)
                    &&& has_name(l@, "blue"@)
                    &&& has_name(l@, "alpha"@)
                    &&& forall|n: Seq<char>|
                        #[trigger] has_name(l@, n) ==> n == "red"@ || n == "green"@ || n == "blue"@
                            || n == "alpha"@
                },
                Err(e) => e == AllocError::Layout,
            },
    {
        let mut names: Vec<&str> = Vec::new();
        names.push("red");
        names.push("green");
        names.push("blue");
        names.push("alpha");
        let r = Self::new(width, height, names.as_slice());
        proof {
            reveal_strlit("red");
            reveal_strlit("green");
            reveal_strlit("blue");
            reveal_strlit("alpha");
            assert(names@[0]@ == "red"@ && names@[1]@ == "green"@ && names@[2]@ == "blue"@
                && names@[3]@ == "alpha"@);
            assert("red"@ != "green"@ && "red"@ != "blue"@ && "red"@ != "alpha"@);
            assert("green"@[0] == 'g' && "alpha"@[0] == 'a');
            assert("green"@ != "blue"@ && "green"@ != "alpha"@ && "blue"@ != "alpha"@);
            assert(names_distinct(names@));
            if dims_valid(width as int, height as int) {
                let l = r->Ok_0;
                assert(named_in(names@, 4, "red"@)) by {
                    assert(names@[0]@ == "red"@);
                }
                assert(named_in(names@, 4, "green"@)) by {
                    assert(names@[1]@ == "green"@);
                }
                assert(named_in(names@, 4, "blue"@)) by {
                    assert(names@[2]@ == "blue"@);
                }
                assert(named_in(names@, 4, "alpha"@)) by {
                    assert(names@[3]@ == "alpha"@);
                }
                assert forall|n: Seq<char>| #[trigger] has_name(l@, n) implies n == "red"@ || n
                    == "green"@ || n == "blue"@ || n == "alpha"@ by {
                    let i = choose|i: int| 0 <= i < 4 && #[trigger] names@[i]@ == n;
                }
            }
        }
        r
    }

    /// Lists the channel names, one per channel, in storage order.
    pub fn channel(&self) -> (names: Vec<String>)
        ensures
            names@.len() == self@.channels.len(),
            forall|a: int| 0 <= a < names@.len() ==> #[trigger] names@[a]@ == self@.channels[a].0,
    {
        let mut names: Vec<String> = Vec::new();
        let mut a: usize = 0;
        while a < self.channels.len()
            invariant
                a <= self.channels@.len(),
                names@.len() == a,
                forall|b: int| 0 <= b < a ==> #[trigger] names@[b]@ == self.channels@[b].0@,
            decreases self.channels@.len() - a,
        {
            names.push(self.channels[a].0.clone());
            a = a + 1;
        }
        names
    }

    /// Fetches the channel stored under `key`, if any; never panics on an
    /// unknown name.
    pub fn get_channel(&self, key: &str) -> (r: Option<&Channel>)
        requires
            layer_wf(self@),
        ensures
            r is Some <==> has_name(self@, key@),
            match r {
                Some(c) => c@ == channel_of(self@, key@),
                None => true,
            },
    {
        let owned = key.to_owned();
        let mut a: usize = 0;
        while a < self.channels.len()
            invariant
                a <= self.channels@.len(),
                owned@ == key@,
                layer_wf(self@),
                forall|b: int| 0 <= b < a ==> #[trigger] self.channels@[b].0@ != key@,
            decreases self.channels@.len() - a,
        {
            if self.channels[a].0 == owned {
                proof {
                    assert(self@.channels[a as int].0 == key@);
                    assert(index_of_name(self@, key@) == a as int);
                }
                return Some(&self.channels[a].1);
            }
            a = a + 1;
        }
        proof {
            assert forall|b: int|
                0 <= b < self@.channels.len() implies #[trigger] self@.channels[b].0 != key@ by {
                assert(self.channels@[b].0@ != key@);
            }
        }
        None
    }

    /// Fetches the channel stored under `key` for mutation, if any; never
    /// panics on an unknown name.  Whatever the caller does through the
    /// reference becomes the entry's channel; names and every other entry
    /// stay as they were.
    pub fn get_channel_mut(&mut self, key: &str) -> (r: Option<&mut Channel>)
        requires
            layer_wf(old(self)@),
        ensures
            r is Some <==> has_name(old(self)@, key@),
            match r {
                Some(c) => {
                    &&& c@ == old(self)@.channels[index_of_name(old(self)@, key@)].1
                    &&& final(self)@.channels.len() == old(self)@.channels.len()
                    &&& final(self)@.channels[index_of_name(old(self)@, key@)].0 == key@
                    &&& final(self)@.channels[index_of_name(old(self)@, key@)].1 == final(c)@
                    &&& forall|b: int|
                        0 <= b < old(self)@.channels.len() && b != index_of_name(old(self)@, key@)
                            ==> #[trigger] final(self)@.channels[b] == old(self)@.channels[b]
                    &&& final(self)@.width == old(self)@.width
                    &&& final(self)@.height == old(self)@.height
                },
                None => final(self)@ == old(self)@,
            },
    {
        let owned = key.to_owned();
        let mut a: usize = 0;
        let n = self.channels.len();
        while a < n
            invariant
                a <= n,
                n == self.channels@.len(),
                owned@ == key@,
                self@ == old(self)@,
                layer_wf(self@),
                forall|b: int| 0 <= b < a ==> #[trigger] self.channels@[b].0@ != key@,
            decreases n - a,
        {
            if self.channels[a].0 == owned {
                proof {
                    assert(self@.channels[a as int].0 == key@);
                    assert(index_of_name(self@, key@) == a as int);
                }
                let entry = &mut self.channels[a];
                return Some(&mut entry.1);
            }
            a = a + 1;
        }
        proof {
            assert forall|b: int|
                0 <= b < self@.channels.len() implies #[trigger] self@.channels[b].0 != key@ by {
                assert(self.channels@[b].0@ != key@);
            }
        }
        None
    }
}

} // verus!

//! Named memory slots.
use vstd::prelude::*;

use crate::grammar::BinOp;

verus! {

/// A store of values by slot name. A slot that was never written reads as
/// the store's blank value (zero, for a numeric domain).
pub struct Memory<V> {
    slots: Vec<(String, V)>,
    blank: V,
    contents: Ghost<Map<Seq<char>, V>>,
}

/// What a slot reads as in a store with contents `m`.
pub open spec fn slot_value<V>(m: Map<Seq<char>, V>, name: Seq<char>, blank: V) -> V {
    if m.contains_key(name) {
        m[name]
    } else {
        blank
    }
}

impl<V> View for Memory<V> {
    type V = Map<Seq<char>, V>;

    closed spec fn view(&self) -> Map<Seq<char>, V> {
        self.contents@
    }
}

impl<V: Copy> Memory<V> {
    /// The value an unwritten slot reads as.
    pub closed spec fn blank_value(&self) -> V {
        self.blank
    }

    /// Each written slot is held once, with the value that the view gives it.
    pub closed spec fn wf(&self) -> bool {
        &&& forall|a: int, b: int|
            0 <= a < b < self.slots@.len() ==> #[trigger] self.slots@[a].0@
                != #[trigger] self.slots@[b].0@
        &&& forall|k: int|
            0 <= k < self.slots@.len() ==> self.contents@.contains_key(
                #[trigger] self.slots@[k].0@,
            ) && self.contents@[self.slots@[k].0@] == self.slots@[k].1
        &&& forall|n: Seq<char>|
            #[trigger] self.contents@.contains_key(n) ==> exists|k: int|
                0 <= k < self.slots@.len() && #[trigger] self.slots@[k].0@ == n
    }

    /// An empty store whose unwritten slots read as `blank`.
    pub fn new(blank: V) -> (r: Self)
        ensures
            r.wf(),
            r@ == Map::<Seq<char>, V>::empty(),
            r.blank_value() == blank,
    {
        Memory { slots: Vec::new(), blank, contents: Ghost(Map::empty()) }
    }

    /// Where the slot `name` is held, if it was written.
    fn find(&self, name: &String) -> (r: Option<usize>)
        requires
            self.wf(),
        ensures
            r is Some <==> self@.contains_key(name@),
            r matches Some(k) ==> k < self.slots@.len() && self.slots@[k as int].0@ == name@,
    {
        let mut k: usize = 0;
        while k < self.slots.len()
            invariant
                self.wf(),
                k <= self.slots@.len(),
                forall|q: int| 0 <= q < k ==> #[trigger] self.slots@[q].0@ != name@,
            decreases self.slots.len() - k,
        {
            if self.slots[k].0 == *name {
                return Some(k);
            }
            k = k + 1;
        }
        None
    }

    /// The value of slot `name`, or the blank value if it was never written.
    pub fn get(&self, name: &str) -> (r: V)
        requires
            self.wf(),
        ensures
            r == slot_value(self@, name@, self.blank_value()),
    {
        let key = name.to_owned();
        match self.find(&key) {
            Some(k) => self.slots[k].1,
            None => self.blank,
        }
    }

    /// Adds `delta` to slot `name` with `combine(BinOp::Add, ..)` and returns
    /// the new value; an unwritten slot becomes `delta` itself.
    pub fn accumulate<F: Fn(BinOp, V, V) -> V>(&mut self, name: &str, delta: V, combine: &F) -> (r: V)
        requires
            old(self).wf(),
            forall|a: V, b: V| combine.requires((BinOp::Add, a, b)),
        ensures
            final(self).wf(),
            final(self).blank_value() == old(self).blank_value(),
            final(self)@ == old(self)@.insert(name@, r),
            old(self)@.contains_key(name@) ==> combine.ensures(
                (BinOp::Add, old(self)@[name@], delta),
                r,
            ),
            !old(self)@.contains_key(name@) ==> r == delta,
    {
        let key = name.to_owned();
        match self.find(&key) {
            Some(k) => {
                let sum = combine(BinOp::Add, self.slots[k].1, delta);
                self.slots.set(k, (key, sum));
                self.contents = Ghost(self.contents@.insert(name@, sum));
                proof {
                    assert forall|n: Seq<char>| #[trigger]
                        self.contents@.contains_key(n) implies exists|q: int|
                        0 <= q < self.slots@.len() && #[trigger] self.slots@[q].0@ == n by {
                        if n != name@ {
                            let q = choose|q: int|
                                0 <= q < old(self).slots@.len() && #[trigger] old(self).slots@[q].0@
                                    == n;
                            assert(self.slots@[q].0@ == n);
                        } else {
                            assert(self.slots@[k as int].0@ == n);
                        }
                    }
                }
                sum
            },
            None => {
                self.slots.push((key, delta));
                self.contents = Ghost(self.contents@.insert(name@, delta));
                proof {
                    let last = self.slots@.len() - 1;
                    assert(self.slots@[last].0@ == name@);
                    assert forall|n: Seq<char>| #[trigger]
                        self.contents@.contains_key(n) implies exists|q: int|
                        0 <= q < self.slots@.len() && #[trigger] self.slots@[q].0@ == n by {
                        if n != name@ {
                            let q = choose|q: int|
                                0 <= q < old(self).slots@.len() && #[trigger] old(self).slots@[q].0@
                                    == n;
                            assert(self.slots@[q].0@ == n);
                        }
                    }
                }
                delta
            },
        }
    }
}

} // verus!

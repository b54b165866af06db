use vstd::pervasive::VecAdditionalExecFns;
use vstd::prelude::*;

verus! {

/// A row of seven lights, each on or off.  Freshly made, every light at
/// an even index is on and the others are off.
pub struct Lights {
    state: Vec<bool>,
}

impl View for Lights {
    type V = Seq<bool>;

    closed spec fn view(&self) -> Seq<bool> {
        self.state@
    }
}

impl Lights {
    /// Seven lights in the starting pattern: on at even indices.
    pub fn new() -> (l: Lights)
        ensures
            l@.len() == 7,
            forall|i: int| 0 <= i < 7 ==> l@[i] == (i % 2 == 0),
    {
        let mut state: Vec<bool> = Vec::new();
        let mut i: usize = 0;
        while i < 7
            invariant
                i <= 7,
                state@.len() == i,
                forall|j: int| 0 <= j < i ==> state@[j] == (j % 2 == 0),
            decreases 7 - i,
        {
            state.push(i % 2 == 0);
            i = i + 1;
        }
        Lights { state }
    }

    /// Flips every light: on becomes off and off becomes on.
    pub fn rev(&mut self)
        ensures
            final(self)@.len() == old(self)@.len(),
            forall|i: int| 0 <= i < old(self)@.len() ==> final(self)@[i] == !old(self)@[i],
    {
        let n: usize = self.state.len();
        let mut i: usize = 0;
        while i < n
            invariant
                i <= n,
                n == self.state@.len(),
                self.state@.len() == old(self)@.len(),
                forall|j: int| 0 <= j < i ==> self.state@[j] == !old(self)@[j],
                forall|j: int| i <= j < n ==> self.state@[j] == old(self)@[j],
            decreases n - i,
        {
            let cur: bool = self.state[i];
            self.state.set(i, !cur);
            i = i + 1;
        }
    }

    /// How many lights there are.
    pub fn len(&self) -> (n: usize)
        ensures
            n == self@.len(),
    {
        self.state.len()
    }

    /// Whether the light at index `i` is on.
    pub fn is_on(&self, i: usize) -> (on: bool)
        requires
            i < self@.len(),
        ensures
            on == self@[i as int],
    {
        self.state[i]
    }
}

} // verus!

//! A registry for names bound by the language: insertion order is kept and
//! duplicates are rejected.

use vstd::prelude::*;

verus! {

/// A name registered in the tree.
#[derive(Debug, PartialEq, Eq)]
pub struct Name {
    pub name: String,
}

/// The registered names, in registration order, pairwise distinct.
#[derive(Debug)]
pub struct AST {
    pub names: Vec<Name>,
}

impl AST {
    /// No two registered names are equal.
    pub open spec fn wf(&self) -> bool {
        forall|i: int, j: int|
            0 <= i < j < self.names@.len() ==> self.names@[i].name@ != self.names@[j].name@
    }

    /// An empty registry.
    pub fn new() -> (r: Self)
        ensures
            r.names@.len() == 0,
            r.wf(),
    {
        AST { names: Vec::new() }
    }

    /// Registers a name: appended, with its index returned, when it is new;
    /// rejected, leaving the registry unchanged, when an equal name was
    /// registered before.
    pub fn register_name(&mut self, name: Name) -> (r: Result<usize, ()>)
        requires
            old(self).wf(),
        ensures
            final(self).wf(),
            match r {
                Ok(idx) => {
                    &&& forall|i: int|
                        0 <= i < old(self).names@.len() ==> old(self).names@[i].name@
                            != name.name@
                    &&& idx == old(self).names@.len()
                    &&& final(self).names@ == old(self).names@.push(name)
                },
                Err(_) => {
                    &&& exists|i: int|
                        0 <= i < old(self).names@.len() && old(self).names@[i].name@
                            == name.name@
                    &&& final(self).names@ == old(self).names@
                },
            },
    {
        let n = self.names.len();
        let mut i: usize = 0;
        while i < n
            invariant
                0 <= i <= n,
                n == self.names@.len(),
                self.names@ == old(self).names@,
                old(self).wf(),
                forall|j: int| 0 <= j < i ==> self.names@[j].name@ != name.name@,
            decreases n - i,
        {
            if self.names[i].name == name.name {
                return Err(());
            }
            i = i + 1;
        }
        let idx = self.names.len();
        self.names.push(name);
        proof {
            assert forall|a: int, b: int|
                0 <= a < b < self.names@.len() implies self.names@[a].name@
                != self.names@[b].name@ by {
                if b < old(self).names@.len() {
                } else {
                    assert(self.names@[b] == name);
                }
            }
        }
        Ok(idx)
    }
}

} // verus!

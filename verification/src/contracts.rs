//! The external-method contract table: a mapping from method name to the
//! pre- and postconditions that bracket a call of that method in the graph.
//! The table is loaded from configuration once, outside the library, and is
//! consulted read-only during construction.

use vstd::prelude::*;

verus! {

/// One externally specified method.
pub struct ExternalMethod {
    pub name: Vec<u8>,
    pub preconditions: Vec<Vec<u8>>,
    pub postconditions: Vec<Vec<u8>>,
}

/// The whole contract table.
pub struct ExternalMethods {
    pub external_methods: Vec<ExternalMethod>,
}

/// The index of the first entry with the given name, if any.
pub open spec fn find_spec(ms: Seq<ExternalMethod>, name: Seq<u8>) -> Option<int>
    decreases ms,
{
    if ms.len() == 0 {
        None
    } else if ms[0].name@ == name {
        Some(0)
    } else {
        match find_spec(ms.drop_first(), name) {
            Some(i) => Some(i + 1),
            None => None,
        }
    }
}

/// The result of `find_spec` points at the first matching entry.
pub proof fn lemma_find_spec_is(ms: Seq<ExternalMethod>, name: Seq<u8>, i: int)
    requires
        0 <= i < ms.len(),
        ms[i].name@ == name,
        forall|j: int| 0 <= j < i ==> (#[trigger] ms[j]).name@ != name,
    ensures
        find_spec(ms, name) == Some(i),
    decreases i,
{
    if i > 0 {
        lemma_find_spec_is(ms.drop_first(), name, i - 1);
    }
}

/// With no matching entry, `find_spec` yields nothing.
pub proof fn lemma_find_spec_none(ms: Seq<ExternalMethod>, name: Seq<u8>)
    requires
        forall|j: int| 0 <= j < ms.len() ==> (#[trigger] ms[j]).name@ != name,
    ensures
        find_spec(ms, name) == None::<int>,
    decreases ms,
{
    if ms.len() > 0 {
        lemma_find_spec_none(ms.drop_first(), name);
    }
}

impl ExternalMethods {
    /// An empty table, used when no contract file is available.
    pub fn empty() -> (r: ExternalMethods)
        ensures
            r.external_methods@.len() == 0,
    {
        ExternalMethods { external_methods: Vec::new() }
    }

    /// The index of the first entry whose name is `name`, if any.
    pub fn find(&self, name: &[u8]) -> (r: Option<usize>)
        ensures
            match r {
                Some(i) => find_spec(self.external_methods@, name@) == Some(i as int) && 0 <= i
                    < self.external_methods@.len() && self.external_methods@[i as int].name@
                    == name@,
                None => find_spec(self.external_methods@, name@) == None::<int>,
            },
    {
        let mut i: usize = 0;
        while i < self.external_methods.len()
            invariant
                0 <= i <= self.external_methods@.len(),
                forall|j: int|
                    0 <= j < i ==> (#[trigger] self.external_methods@[j]).name@ != name@,
            decreases self.external_methods@.len() - i,
        {
            if crate::bytes_eq(self.external_methods[i].name.as_slice(), name) {
                proof {
                    lemma_find_spec_is(self.external_methods@, name@, i as int);
                }
                return Some(i);
            }
            i += 1;
        }
        proof {
            lemma_find_spec_none(self.external_methods@, name@);
        }
        None
    }
}

} // verus!

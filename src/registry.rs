use vstd::prelude::*;
use vstd::string::StringSliceAdditionalSpecFns;

verus! {

/// No name occurs twice.
pub open spec fn distinct_names(names: Seq<Seq<u8>>) -> bool {
    forall|i: int, j: int| 0 <= i < j < names.len() ==> names[i] != names[j]
}

/// The dense ID of `name`: its position among `names`, if it is there.
pub open spec fn id_of(names: Seq<Seq<u8>>, name: Seq<u8>) -> Option<usize> {
    if exists|i: int| 0 <= i < names.len() && names[i] == name {
        Some((choose|i: int| 0 <= i < names.len() && names[i] == name) as usize)
    } else {
        None
    }
}

/// Maps node names to the dense IDs that the router uses: a name's ID is
/// its position in first-seen order.
pub struct NodeRegistry {
    names: Vec<Vec<u8>>,
}

impl View for NodeRegistry {
    type V = Seq<Seq<u8>>;

    closed spec fn view(&self) -> Seq<Seq<u8>> {
        self.names@.map_values(|v: Vec<u8>| v@)
    }
}

/// Stability: in a registry, a name at position `i` has ID `i`, whatever
/// lookup asks for it.
pub proof fn lemma_id_stable(names: Seq<Seq<u8>>, name: Seq<u8>, i: int)
    requires
        distinct_names(names),
        0 <= i < names.len(),
        names[i] == name,
    ensures
        id_of(names, name) == Some(i as usize),
{
    let k = choose|k: int| 0 <= k < names.len() && names[k] == name;
    if k != i {
        if k < i {
            assert(names[k] != names[i]);
        } else {
            assert(names[i] != names[k]);
        }
    }
}

/// Whether two byte strings are equal.
pub fn bytes_equal(a: &[u8], b: &[u8]) -> (r: bool)
    ensures
        r == (a@ == b@),
{
    if a.len() != b.len() {
        return false;
    }
    let mut k: usize = 0;
    while k < a.len()
        invariant
            a@.len() == b@.len(),
            k <= a@.len(),
            forall|i: int| 0 <= i < k ==> a@[i] == b@[i],
        decreases a.len() - k,
    {
        if a[k] != b[k] {
            return false;
        }
        k += 1;
    }
    assert(a@ =~= b@);
    true
}

impl NodeRegistry {
    pub open spec fn wf(&self) -> bool {
        distinct_names(self@)
    }

    /// A registry over the given names, in order.
    pub fn from_names(names: Vec<Vec<u8>>) -> (r: Self)
        requires
            distinct_names(names@.map_values(|v: Vec<u8>| v@)),
        ensures
            r.wf(),
            r@ == names@.map_values(|v: Vec<u8>| v@),
    {
        NodeRegistry { names }
    }

    /// Number of registered nodes.
    pub fn len(&self) -> (r: usize)
        ensures
            r == self@.len(),
    {
        self.names.len()
    }

    /// The ID of the node called `name`, if there is one.
    pub fn get_node_id(&self, name: &str) -> (r: Option<usize>)
        requires
            self.wf(),
        ensures
            r == id_of(self@, name.spec_bytes()),
            r matches Some(i) ==> i < self@.len() && self@[i as int] == name.spec_bytes(),
    {
        let b = name.as_bytes();
        let mut k: usize = 0;
        while k < self.names.len()
            invariant
                self.wf(),
                k <= self.names@.len(),
                b@ == name.spec_bytes(),
                forall|i: int| 0 <= i < k ==> self@[i] != b@,
            decreases self.names.len() - k,
        {
            let found = bytes_equal(self.names[k].as_slice(), b);
            assert(self@[k as int] == self.names@[k as int]@);
            if found {
                proof {
                    lemma_id_stable(self@, b@, k as int);
                }
                return Some(k);
            }
            k += 1;
        }
        assert(!exists|i: int| 0 <= i < self@.len() && self@[i] == b@);
        None
    }
}

} // verus!

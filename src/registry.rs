use vstd::prelude::*;
use std::collections::HashSet;

verus! {

broadcast use vstd::std_specs::hash::group_hash_axioms;

/// The identity of the storage behind a file: the device it lives on and its
/// inode number there. Every hard link to one file has the same identity.
#[derive(Clone, Copy, Debug, PartialEq, Eq, Structural, Hash)]
pub struct FileIdentity {
    pub dev: u64,
    pub ino: u64,
}

/// The single integer that a registry stores for an identity.
pub open spec fn key_of(id: FileIdentity) -> int {
    id.dev as int * 0x1_0000_0000_0000_0000 + id.ino as int
}

proof fn lemma_key_of_injective(a: FileIdentity, b: FileIdentity)
    ensures
        key_of(a) == key_of(b) ==> a == b,
        0 <= key_of(a) <= u128::MAX,
{
    let (da, ia, db, ib) = (a.dev as int, a.ino as int, b.dev as int, b.ino as int);
    assert(0 <= ia < 0x1_0000_0000_0000_0000 && 0 <= ib < 0x1_0000_0000_0000_0000);
    assert(key_of(a) == key_of(b) ==> da == db) by (nonlinear_arith)
        requires
            key_of(a) == da * 0x1_0000_0000_0000_0000 + ia,
            key_of(b) == db * 0x1_0000_0000_0000_0000 + ib,
            0 <= ia < 0x1_0000_0000_0000_0000,
            0 <= ib < 0x1_0000_0000_0000_0000,
    ;
    assert(0 <= key_of(a) <= u128::MAX) by (nonlinear_arith)
        requires
            key_of(a) == da * 0x1_0000_0000_0000_0000 + ia,
            0 <= da < 0x1_0000_0000_0000_0000,
            0 <= ia < 0x1_0000_0000_0000_0000,
    ;
}

fn identity_key(id: FileIdentity) -> (k: u128)
    ensures
        k as int == key_of(id),
{
    proof {
        lemma_key_of_injective(id, id);
    }
    (id.dev as u128) * 0x1_0000_0000_0000_0000u128 + (id.ino as u128)
}

/// The set of file identities already counted during one computation.
/// An identity, once claimed, stays claimed.
pub struct IdentityRegistry {
    keys: HashSet<u128>,
}

impl View for IdentityRegistry {
    type V = Set<FileIdentity>;

    closed spec fn view(&self) -> Set<FileIdentity> {
        Set::new(|id: FileIdentity| self.keys@.contains(key_of(id) as u128))
    }
}

impl IdentityRegistry {
    /// A registry in which nothing is claimed yet.
    pub fn new() -> (r: Self)
        ensures
            r@ == Set::<FileIdentity>::empty(),
    {
        let r = IdentityRegistry { keys: HashSet::new() };
        assert(r@ =~= Set::<FileIdentity>::empty());
        r
    }

    /// Whether `id` has been claimed.
    pub fn is_claimed(&self, id: FileIdentity) -> (r: bool)
        ensures
            r == self@.contains(id),
    {
        let k = identity_key(id);
        self.keys.contains(&k)
    }

    /// Claims `id`: true exactly when no earlier claim of an equal identity
    /// was made on this registry. Afterwards `id` is claimed.
    pub fn claim(&mut self, id: FileIdentity) -> (first: bool)
        ensures
            first == !old(self)@.contains(id),
            final(self)@ == old(self)@.insert(id),
    {
        let k = identity_key(id);
        let first = self.keys.insert(k);
        proof {
            assert forall|x: FileIdentity| #[trigger] self@.contains(x) == old(self)@.insert(id).contains(x) by {
                lemma_key_of_injective(x, id);
            }
            assert(self@ =~= old(self)@.insert(id));
        }
        first
    }
}

} // verus!

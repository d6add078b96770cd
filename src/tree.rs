use vstd::prelude::*;
use crate::registry::{FileIdentity, IdentityRegistry};

verus! {

/// Why a path could not be read.
#[derive(Clone, Copy, Debug, PartialEq, Eq, Structural)]
pub enum TraversalError {
    NotFound,
    PermissionDenied,
    Other,
}

/// What the file system reported for one path, as read without following
/// symbolic links into directories.
pub enum EntryKind {
    /// A regular file (or a link to one): its identity, when one could be
    /// resolved, and its length in bytes.
    File { identity: Option<FileIdentity>, len: u64 },
    /// A directory: its entries in the order the system listed them, or why
    /// listing failed.
    Dir { listing: Result<Vec<Entry>, TraversalError> },
    /// Neither a file nor a directory (a broken link, a device node).
    Special,
    /// Nothing exists at the path.
    Missing,
}

/// One path of a snapshot of the file system, with its display name.
pub struct Entry {
    pub name: String,
    pub kind: EntryKind,
}

/// The computed sizes: a node per path, with its deduplicated size and its
/// children in listing order.
pub struct SizeTree {
    pub name: String,
    pub size: u64,
    pub children: Vec<SizeTree>,
}

/// What visiting `e` adds to the total, and the claimed identities after the
/// visit, when `claimed` were claimed before it. Entries are visited in
/// listing order, depth first; a file counts when its identity is new.
pub open spec fn visit(e: Entry, claimed: Set<FileIdentity>) -> (nat, Set<FileIdentity>)
    decreases e, 0nat,
{
    match e.kind {
        EntryKind::File { identity, len } => match identity {
            Some(id) => if claimed.contains(id) {
                (0, claimed)
            } else {
                (len as nat, claimed.insert(id))
            },
            None => (0, claimed),
        },
        EntryKind::Dir { listing } => match listing {
            Ok(v) => visit_prefix(v@, v@.len(), claimed),
            Err(_) => (0, claimed),
        },
        _ => (0, claimed),
    }
}

/// Visiting the first `n` entries of `es` in order.
pub open spec fn visit_prefix(es: Seq<Entry>, n: nat, claimed: Set<FileIdentity>) -> (nat, Set<FileIdentity>)
    decreases es, n,
{
    if n == 0 || n > es.len() {
        (0, claimed)
    } else {
        let before = visit_prefix(es, (n - 1) as nat, claimed);
        let last = visit(es[n - 1], before.1);
        (before.0 + last.0, last.1)
    }
}

/// The sum of the lengths of all files under `e`, every entry counted, with
/// no regard to identities.
pub open spec fn logical(e: Entry) -> nat
    decreases e, 0nat,
{
    match e.kind {
        EntryKind::File { len, .. } => len as nat,
        EntryKind::Dir { listing } => match listing {
            Ok(v) => logical_prefix(v@, v@.len()),
            Err(_) => 0,
        },
        _ => 0,
    }
}

/// `logical` summed over the first `n` entries of `es`.
pub open spec fn logical_prefix(es: Seq<Entry>, n: nat) -> nat
    decreases es, n,
{
    if n == 0 || n > es.len() {
        0
    } else {
        logical_prefix(es, (n - 1) as nat) + logical(es[n - 1])
    }
}

/// `t` is the tree computed for `e` when `claimed` were claimed before: it
/// carries the entry's name and its deduplicated size, and a directory that
/// could be listed has one child per entry, in listing order, each computed
/// with the identities claimed by the siblings before it.
pub open spec fn built(e: Entry, claimed: Set<FileIdentity>, t: SizeTree) -> bool
    decreases e,
{
    &&& t.name@ == e.name@
    &&& t.size == visit(e, claimed).0
    &&& match e.kind {
        EntryKind::Dir { listing: Ok(v) } => {
            &&& t.children.len() == v.len()
            &&& forall|i: int|
                0 <= i < v.len() ==> built(
                    #[trigger] v@[i],
                    visit_prefix(v@, i as nat, claimed).1,
                    t.children@[i],
                )
        },
        _ => t.children.len() == 0,
    }
}

proof fn lemma_visit_le_logical(e: Entry, claimed: Set<FileIdentity>)
    ensures
        visit(e, claimed).0 <= logical(e),
    decreases e, 0nat,
{
    match e.kind {
        EntryKind::Dir { listing: Ok(v) } => lemma_visit_prefix_le_logical(v@, v@.len(), claimed),
        _ => {},
    }
}

proof fn lemma_visit_prefix_le_logical(es: Seq<Entry>, n: nat, claimed: Set<FileIdentity>)
    ensures
        visit_prefix(es, n, claimed).0 <= logical_prefix(es, n),
    decreases es, n,
{
    if n > 0 && n <= es.len() {
        lemma_visit_prefix_le_logical(es, (n - 1) as nat, claimed);
        lemma_visit_le_logical(es[n - 1], visit_prefix(es, (n - 1) as nat, claimed).1);
    }
}

proof fn lemma_logical_prefix_monotone(es: Seq<Entry>, i: nat, n: nat)
    requires
        i <= n <= es.len(),
    ensures
        logical_prefix(es, i) <= logical_prefix(es, n),
    decreases n,
{
    if i < n {
        lemma_logical_prefix_monotone(es, i, (n - 1) as nat);
    }
}

/// Computes the tree for `e`, claiming in `reg` the identity of every file
/// visited, in listing order, depth first.
pub fn build(e: &Entry, reg: &mut IdentityRegistry) -> (t: SizeTree)
    requires
        logical(*e) <= u64::MAX,
    ensures
        built(*e, old(reg)@, t),
        final(reg)@ == visit(*e, old(reg)@).1,
    decreases e,
{
    let ghost c0 = reg@;
    let name = e.name.clone();
    match &e.kind {
        EntryKind::File { identity, len } => {
            let size: u64 = match identity {
                Some(id) => if reg.claim(*id) {
                    *len
                } else {
                    0
                },
                None => 0,
            };
            SizeTree { name, size, children: Vec::new() }
        },
        EntryKind::Dir { listing: Ok(v) } => {
            let mut children: Vec<SizeTree> = Vec::new();
            let mut total: u64 = 0;
            let mut i: usize = 0;
            while i < v.len()
                invariant
                    i <= v.len(),
                    e.kind == (EntryKind::Dir { listing: Ok(*v) }),
                    logical_prefix(v@, v@.len()) <= u64::MAX,
                    total == visit_prefix(v@, i as nat, c0).0,
                    reg@ == visit_prefix(v@, i as nat, c0).1,
                    children.len() == i,
                    forall|j: int|
                        0 <= j < i ==> built(
                            #[trigger] v@[j],
                            visit_prefix(v@, j as nat, c0).1,
                            children@[j],
                        ),
                decreases v.len() - i,
            {
                proof {
                    lemma_logical_prefix_monotone(v@, (i + 1) as nat, v@.len());
                    lemma_visit_prefix_le_logical(v@, (i + 1) as nat, c0);
                    let ghost listing = e.kind->Dir_listing;
                    assert(decreases_to!(*e => e.kind));
                    assert(decreases_to!(e.kind => listing));
                    assert(decreases_to!(listing => listing->Ok_0));
                    assert(decreases_to!(*v => v[i as int]));
                }
                let child = build(&v[i], reg);
                total = total + child.size;
                children.push(child);
                i = i + 1;
            }
            SizeTree { name, size: total, children }
        },
        _ => SizeTree { name, size: 0, children: Vec::new() },
    }
}

/// The sum of the lengths of all files under `e`, every entry counted, or
/// `None` where that sum does not fit in a `u64`. The deduplicated size
/// never exceeds it.
pub fn logical_size(e: &Entry) -> (r: Option<u64>)
    ensures
        r == (if logical(*e) <= u64::MAX {
            Some(logical(*e) as u64)
        } else {
            None::<u64>
        }),
    decreases e,
{
    match &e.kind {
        EntryKind::File { len, .. } => Some(*len),
        EntryKind::Dir { listing: Ok(v) } => {
            let mut total: u64 = 0;
            let mut i: usize = 0;
            while i < v.len()
                invariant
                    i <= v.len(),
                    e.kind == (EntryKind::Dir { listing: Ok(*v) }),
                    total == logical_prefix(v@, i as nat),
                decreases v.len() - i,
            {
                proof {
                    let ghost listing = e.kind->Dir_listing;
                    assert(decreases_to!(*e => e.kind));
                    assert(decreases_to!(e.kind => listing));
                    assert(decreases_to!(listing => listing->Ok_0));
                    assert(decreases_to!(*v => v[i as int]));
                    lemma_logical_prefix_monotone(v@, (i + 1) as nat, v@.len());
                }
                match logical_size(&v[i]) {
                    Some(n) => match total.checked_add(n) {
                        Some(t) => total = t,
                        None => return None,
                    },
                    None => return None,
                }
                i = i + 1;
            }
            Some(total)
        },
        _ => Some(0),
    }
}

/// Computes the size tree of `root`, with every file identity counted once
/// over the whole tree, the first entry to reach it in listing order (depth
/// first) taking its length and every later one zero. Only the root can
/// fail: a missing root gives `NotFound`, a root directory that cannot be
/// listed gives the listing's error. Any deeper directory that cannot be
/// listed, a file whose identity cannot be resolved, and any other kind of
/// entry become nodes of size zero without children.
pub fn compute_size_tree(root: &Entry) -> (r: Result<SizeTree, TraversalError>)
    requires
        logical(*root) <= u64::MAX,
    ensures
        match root.kind {
            EntryKind::Missing => r == Err::<SizeTree, TraversalError>(TraversalError::NotFound),
            EntryKind::Dir { listing: Err(err) } => r == Err::<SizeTree, TraversalError>(err),
            _ => r is Ok && built(*root, Set::empty(), r->Ok_0),
        },
{
    match &root.kind {
        EntryKind::Missing => Err(TraversalError::NotFound),
        EntryKind::Dir { listing: Err(err) } => Err(*err),
        _ => {
            let mut reg = IdentityRegistry::new();
            Ok(build(root, &mut reg))
        },
    }
}

} // verus!

use vstd::prelude::*;
use crate::registry::FileIdentity;
use crate::tree::{built, logical, logical_prefix, visit, visit_prefix, Entry, EntryKind, SizeTree};

verus! {

/// `a` and `b` have the same names, sizes and shape, node by node.
pub open spec fn same_tree(a: SizeTree, b: SizeTree) -> bool
    decreases a,
{
    &&& a.name@ == b.name@
    &&& a.size == b.size
    &&& a.children.len() == b.children.len()
    &&& forall|i: int|
        0 <= i < a.children.len() ==> same_tree(#[trigger] a.children@[i], b.children@[i])
}

/// The sum of the sizes of the first `n` trees of `ts`.
pub open spec fn sizes_sum(ts: Seq<SizeTree>, n: nat) -> nat
    decreases n,
{
    if n == 0 || n > ts.len() {
        0
    } else {
        sizes_sum(ts, (n - 1) as nat) + ts[n - 1].size as nat
    }
}

/// A directory entry whose listing succeeded, with its entries.
pub open spec fn listed(e: Entry, v: Seq<Entry>) -> bool {
    exists|w: Vec<Entry>| w@ == v && e.kind == (EntryKind::Dir { listing: Ok(w) })
}

/// A file entry with a resolved identity `id` and length `len`.
pub open spec fn is_file_with(e: Entry, id: FileIdentity, len: u64) -> bool {
    e.kind == (EntryKind::File { identity: Some(id), len })
}

/// Computing twice on one unchanged snapshot, from the same claimed
/// identities, gives the same tree: same names, same sizes, same children in
/// the same order, at every level.
pub proof fn lemma_same_input_same_tree(e: Entry, claimed: Set<FileIdentity>, t1: SizeTree, t2: SizeTree)
    requires
        built(e, claimed, t1),
        built(e, claimed, t2),
    ensures
        same_tree(t1, t2),
    decreases e,
{
    match e.kind {
        EntryKind::Dir { listing: Ok(v) } => {
            assert forall|i: int| 0 <= i < t1.children.len() implies same_tree(
                #[trigger] t1.children@[i],
                t2.children@[i],
            ) by {
                let listing = e.kind->Dir_listing;
                assert(decreases_to!(e => e.kind));
                assert(decreases_to!(e.kind => listing));
                assert(decreases_to!(listing => listing->Ok_0));
                assert(decreases_to!(v => v[i]));
                lemma_same_input_same_tree(v@[i], visit_prefix(v@, i as nat, claimed).1, t1.children@[i], t2.children@[i]);
            }
        },
        _ => {},
    }
}

/// The size of every directory node that was listed is the sum of its
/// children's sizes.
pub proof fn lemma_dir_size_is_sum_of_children(e: Entry, claimed: Set<FileIdentity>, t: SizeTree, v: Seq<Entry>)
    requires
        built(e, claimed, t),
        listed(e, v),
    ensures
        t.size == sizes_sum(t.children@, t.children.len() as nat),
{
    let w = choose|w: Vec<Entry>| w@ == v && e.kind == (EntryKind::Dir { listing: Ok(w) });
    assert(e.kind == (EntryKind::Dir { listing: Ok(w) }));
    lemma_prefix_sums(v, t.children@, claimed, v.len());
}

proof fn lemma_prefix_sums(v: Seq<Entry>, ts: Seq<SizeTree>, claimed: Set<FileIdentity>, n: nat)
    requires
        n <= v.len() == ts.len(),
        forall|i: int| 0 <= i < v.len() ==> built(#[trigger] v[i], visit_prefix(v, i as nat, claimed).1, ts[i]),
    ensures
        sizes_sum(ts, n) == visit_prefix(v, n, claimed).0,
    decreases n,
{
    if n > 0 {
        lemma_prefix_sums(v, ts, claimed, (n - 1) as nat);
        assert(built(v[n - 1], visit_prefix(v, (n - 1) as nat, claimed).1, ts[n - 1]));
    }
}

/// Visiting an entry never releases a claimed identity.
pub proof fn lemma_claims_are_kept(e: Entry, claimed: Set<FileIdentity>)
    ensures
        claimed.subset_of(visit(e, claimed).1),
    decreases e, 0nat,
{
    match e.kind {
        EntryKind::Dir { listing: Ok(v) } => lemma_prefix_claims_are_kept(v@, v@.len(), claimed),
        _ => {},
    }
}

proof fn lemma_prefix_claims_are_kept(es: Seq<Entry>, n: nat, claimed: Set<FileIdentity>)
    ensures
        claimed.subset_of(visit_prefix(es, n, claimed).1),
    decreases es, n,
{
    if n > 0 && n <= es.len() {
        lemma_prefix_claims_are_kept(es, (n - 1) as nat, claimed);
        lemma_claims_are_kept(es[n - 1], visit_prefix(es, (n - 1) as nat, claimed).1);
    }
}

/// A file whose identity is already claimed adds nothing and claims nothing
/// new: once one link to a file has been counted, no other link is.
pub proof fn lemma_claimed_file_adds_nothing(e: Entry, id: FileIdentity, len: u64, claimed: Set<FileIdentity>)
    requires
        is_file_with(e, id, len),
        claimed.contains(id),
    ensures
        visit(e, claimed) == (0nat, claimed),
{
}

/// A directory that cannot be listed adds nothing and claims nothing.
pub proof fn lemma_unreadable_dir_adds_nothing(e: Entry, claimed: Set<FileIdentity>)
    requires
        e.kind is Dir,
        e.kind->Dir_listing is Err,
    ensures
        visit(e, claimed) == (0nat, claimed),
{
}

/// Any number of hard links to one file, listed in one directory, count the
/// file's length once.
pub proof fn lemma_links_counted_once(e: Entry, v: Seq<Entry>, id: FileIdentity, len: u64, claimed: Set<FileIdentity>)
    requires
        listed(e, v),
        v.len() >= 1,
        forall|i: int| 0 <= i < v.len() ==> is_file_with(#[trigger] v[i], id, len),
        !claimed.contains(id),
    ensures
        visit(e, claimed).0 == len,
{
    let w = choose|w: Vec<Entry>| w@ == v && e.kind == (EntryKind::Dir { listing: Ok(w) });
    assert(e.kind == (EntryKind::Dir { listing: Ok(w) }));
    lemma_links_prefix(v, id, len, claimed, v.len());
}

proof fn lemma_links_prefix(v: Seq<Entry>, id: FileIdentity, len: u64, claimed: Set<FileIdentity>, n: nat)
    requires
        1 <= n <= v.len(),
        forall|i: int| 0 <= i < v.len() ==> is_file_with(#[trigger] v[i], id, len),
        !claimed.contains(id),
    ensures
        visit_prefix(v, n, claimed) == (len as nat, claimed.insert(id)),
    decreases n,
{
    assert(is_file_with(v[n - 1], id, len));
    if n > 1 {
        lemma_links_prefix(v, id, len, claimed, (n - 1) as nat);
        assert(claimed.insert(id).contains(id));
        assert(visit(v[n - 1], claimed.insert(id)) == (0nat, claimed.insert(id)));
    } else {
        assert(visit_prefix(v, 0, claimed) == (0nat, claimed));
        assert(visit(v[0], claimed) == (len as nat, claimed.insert(id)));
    }
}

/// `w` is `v` with the entries at `i` and `i + 1` exchanged.
pub open spec fn swapped(v: Seq<Entry>, w: Seq<Entry>, i: int) -> bool {
    &&& 0 <= i && i + 1 < v.len()
    &&& w == v.update(i, v[i + 1]).update(i + 1, v[i])
}

/// `a` and `b` are files, and if they share an identity they report one
/// length, as hard links to one unchanged file do.
pub open spec fn files_agree(a: Entry, b: Entry) -> bool {
    &&& a.kind is File
    &&& b.kind is File
    &&& (a.kind->File_identity is Some && a.kind->File_identity == b.kind->File_identity)
        ==> a.kind->File_len == b.kind->File_len
}

/// The order in which two neighbouring files are listed decides which of
/// them is counted, but neither the directory's total nor the identities
/// claimed afterwards, so the rest of the tree is unaffected.
pub proof fn lemma_swapping_files_keeps_total(
    e1: Entry,
    e2: Entry,
    v: Seq<Entry>,
    w: Seq<Entry>,
    i: int,
    claimed: Set<FileIdentity>,
)
    requires
        listed(e1, v),
        listed(e2, w),
        swapped(v, w, i),
        files_agree(v[i], v[i + 1]),
    ensures
        visit(e1, claimed) == visit(e2, claimed),
{
    let a = choose|a: Vec<Entry>| a@ == v && e1.kind == (EntryKind::Dir { listing: Ok(a) });
    let b = choose|b: Vec<Entry>| b@ == w && e2.kind == (EntryKind::Dir { listing: Ok(b) });
    assert(e1.kind == (EntryKind::Dir { listing: Ok(a) }));
    assert(e2.kind == (EntryKind::Dir { listing: Ok(b) }));
    lemma_swapped_prefix(v, w, i, claimed, v.len());
}

proof fn lemma_swapped_prefix(v: Seq<Entry>, w: Seq<Entry>, i: int, claimed: Set<FileIdentity>, n: nat)
    requires
        swapped(v, w, i),
        files_agree(v[i], v[i + 1]),
        n <= v.len(),
        n != i + 1,
    ensures
        visit_prefix(v, n, claimed) == visit_prefix(w, n, claimed),
    decreases n,
{
    if n == 0 {
    } else if n == i + 2 {
        lemma_swapped_prefix(v, w, i, claimed, i as nat);
        let before = visit_prefix(v, i as nat, claimed);
        assert(visit_prefix(v, (i + 1) as nat, claimed) == (
            before.0 + visit(v[i], before.1).0,
            visit(v[i], before.1).1,
        ));
        assert(visit_prefix(w, (i + 1) as nat, claimed) == (
            before.0 + visit(w[i], before.1).0,
            visit(w[i], before.1).1,
        ));
        let x = v[i];
        let y = v[i + 1];
        let vx = visit(x, before.1);
        let vy = visit(y, before.1);
        let vxy = visit(y, vx.1);
        let vyx = visit(x, vy.1);
        assert(vx.0 + vxy.0 == vy.0 + vyx.0 && vxy.1 =~= vyx.1);
    } else {
        lemma_swapped_prefix(v, w, i, claimed, (n - 1) as nat);
        assert(v[n - 1] == w[n - 1]);
    }
}

/// The resolved identities of all files under `e`.
pub open spec fn ids_of(e: Entry) -> Set<FileIdentity>
    decreases e, 0nat,
{
    match e.kind {
        EntryKind::File { identity, .. } => match identity {
            Some(id) => set![id],
            None => Set::empty(),
        },
        EntryKind::Dir { listing } => match listing {
            Ok(v) => ids_prefix(v@, v@.len()),
            Err(_) => Set::empty(),
        },
        _ => Set::empty(),
    }
}

/// `ids_of` over the first `n` entries of `es`.
pub open spec fn ids_prefix(es: Seq<Entry>, n: nat) -> Set<FileIdentity>
    decreases es, n,
{
    if n == 0 || n > es.len() {
        Set::empty()
    } else {
        ids_prefix(es, (n - 1) as nat) + ids_of(es[n - 1])
    }
}

/// Every file under `e` whose identity is resolved reports the length
/// `len_of` gives for that identity, as the links to one unchanged file do.
pub open spec fn lengths_follow(e: Entry, len_of: spec_fn(FileIdentity) -> nat) -> bool
    decreases e,
{
    match e.kind {
        EntryKind::File { identity, len } => match identity {
            Some(id) => len_of(id) == len,
            None => true,
        },
        EntryKind::Dir { listing } => match listing {
            Ok(v) => forall|i: int| 0 <= i < v.len() ==> lengths_follow(#[trigger] v@[i], len_of),
            Err(_) => true,
        },
        _ => true,
    }
}

/// The sum of `len_of` over the finite set `s`, each identity once.
pub open spec fn weight(s: Set<FileIdentity>, len_of: spec_fn(FileIdentity) -> nat) -> nat
    decreases s.len(),
    when s.finite()
{
    if s.len() == 0 {
        0
    } else {
        let x = s.choose();
        len_of(x) + weight(s.remove(x), len_of)
    }
}

proof fn lemma_weight_remove(s: Set<FileIdentity>, x: FileIdentity, len_of: spec_fn(FileIdentity) -> nat)
    requires
        s.finite(),
        s.contains(x),
    ensures
        weight(s, len_of) == len_of(x) + weight(s.remove(x), len_of),
    decreases s.len(),
{
    let c = s.choose();
    assert(s.len() != 0);
    if c != x {
        lemma_weight_remove(s.remove(c), x, len_of);
        lemma_weight_remove(s.remove(x), c, len_of);
        assert(s.remove(c).remove(x) =~= s.remove(x).remove(c));
    }
}

proof fn lemma_weight_insert(s: Set<FileIdentity>, x: FileIdentity, len_of: spec_fn(FileIdentity) -> nat)
    requires
        s.finite(),
        !s.contains(x),
    ensures
        weight(s.insert(x), len_of) == len_of(x) + weight(s, len_of),
{
    lemma_weight_remove(s.insert(x), x, len_of);
    assert(s.insert(x).remove(x) =~= s);
}

proof fn lemma_visit_weight(e: Entry, claimed: Set<FileIdentity>, len_of: spec_fn(FileIdentity) -> nat)
    requires
        claimed.finite(),
        lengths_follow(e, len_of),
    ensures
        visit(e, claimed).1 == claimed + ids_of(e),
        ids_of(e).finite(),
        visit(e, claimed).0 + weight(claimed, len_of) == weight(visit(e, claimed).1, len_of),
    decreases e, 0nat,
{
    match e.kind {
        EntryKind::File { identity, len } => {
            match identity {
                Some(id) => {
                    if !claimed.contains(id) {
                        lemma_weight_insert(claimed, id, len_of);
                    }
                    assert(visit(e, claimed).1 =~= claimed + ids_of(e));
                },
                None => assert(visit(e, claimed).1 =~= claimed + ids_of(e)),
            }
        },
        EntryKind::Dir { listing } => match listing {
            Ok(v) => lemma_prefix_weight(v@, v@.len(), claimed, len_of),
            Err(_) => assert(visit(e, claimed).1 =~= claimed + ids_of(e)),
        },
        _ => assert(visit(e, claimed).1 =~= claimed + ids_of(e)),
    }
}

proof fn lemma_prefix_weight(es: Seq<Entry>, n: nat, claimed: Set<FileIdentity>, len_of: spec_fn(FileIdentity) -> nat)
    requires
        claimed.finite(),
        forall|i: int| 0 <= i < es.len() ==> lengths_follow(#[trigger] es[i], len_of),
    ensures
        visit_prefix(es, n, claimed).1 == claimed + ids_prefix(es, n),
        ids_prefix(es, n).finite(),
        visit_prefix(es, n, claimed).0 + weight(claimed, len_of) == weight(
            visit_prefix(es, n, claimed).1,
            len_of,
        ),
    decreases es, n,
{
    if n == 0 || n > es.len() {
        assert(visit_prefix(es, n, claimed).1 =~= claimed + ids_prefix(es, n));
    } else {
        let k = (n - 1) as nat;
        lemma_prefix_weight(es, k, claimed, len_of);
        let before = visit_prefix(es, k, claimed);
        assert(lengths_follow(es[k as int], len_of));
        lemma_visit_weight(es[k as int], before.1, len_of);
        assert(visit_prefix(es, n, claimed).1 =~= claimed + ids_prefix(es, n));
    }
}

/// However many links lead to a file, and wherever in the tree they stand,
/// its length enters the total once: the size computed for the root is the
/// sum, over the distinct identities of the files under it, of each one's
/// length. With no two files sharing an identity, this is the plain sum of
/// all the lengths.
pub proof fn lemma_total_counts_each_file_once(e: Entry, t: SizeTree, len_of: spec_fn(FileIdentity) -> nat)
    requires
        built(e, Set::empty(), t),
        lengths_follow(e, len_of),
    ensures
        t.size == weight(ids_of(e), len_of),
{
    lemma_visit_weight(e, Set::empty(), len_of);
    assert(Set::<FileIdentity>::empty() + ids_of(e) =~= ids_of(e));
    assert(weight(Set::<FileIdentity>::empty(), len_of) == 0);
}

/// Every file under `e` has a resolved identity, and no two files under it
/// share one: no hard links within the tree.
pub open spec fn all_distinct(e: Entry) -> bool
    decreases e,
{
    match e.kind {
        EntryKind::File { identity, .. } => identity is Some,
        EntryKind::Dir { listing } => match listing {
            Ok(v) => {
                &&& forall|i: int| 0 <= i < v.len() ==> all_distinct(#[trigger] v@[i])
                &&& forall|i: int, j: int|
                    0 <= i < j < v.len() ==> ids_of(#[trigger] v@[i]).disjoint(ids_of(#[trigger] v@[j]))
            },
            Err(_) => true,
        },
        _ => true,
    }
}

proof fn lemma_ids_prefix_member(es: Seq<Entry>, n: nat, x: FileIdentity)
    requires
        ids_prefix(es, n).contains(x),
    ensures
        exists|j: int| 0 <= j < n && j < es.len() && ids_of(#[trigger] es[j]).contains(x),
    decreases n,
{
    if n > 0 && n <= es.len() {
        if ids_prefix(es, (n - 1) as nat).contains(x) {
            lemma_ids_prefix_member(es, (n - 1) as nat, x);
        } else {
            assert(ids_of(es[n - 1]).contains(x));
        }
    }
}

proof fn lemma_ids_prefix_grows(es: Seq<Entry>, k: nat, n: nat)
    requires
        k < n <= es.len(),
    ensures
        ids_of(es[k as int]).subset_of(ids_prefix(es, n)),
    decreases n,
{
    if k + 1 < n {
        lemma_ids_prefix_grows(es, k, (n - 1) as nat);
    }
}

proof fn lemma_distinct_visit(e: Entry, claimed: Set<FileIdentity>)
    requires
        all_distinct(e),
        claimed.disjoint(ids_of(e)),
    ensures
        visit(e, claimed).0 == logical(e),
        visit(e, claimed).1 == claimed + ids_of(e),
    decreases e, 0nat,
{
    match e.kind {
        EntryKind::Dir { listing: Ok(v) } => lemma_distinct_prefix_visit(v@, v@.len(), claimed),
        EntryKind::File { identity: Some(id), .. } => {
            assert(ids_of(e).contains(id));
            assert(visit(e, claimed).1 =~= claimed + ids_of(e));
        },
        _ => assert(visit(e, claimed).1 =~= claimed + ids_of(e)),
    }
}

proof fn lemma_distinct_prefix_visit(es: Seq<Entry>, n: nat, claimed: Set<FileIdentity>)
    requires
        n <= es.len(),
        forall|i: int| 0 <= i < es.len() ==> all_distinct(#[trigger] es[i]),
        forall|i: int, j: int|
            0 <= i < j < es.len() ==> ids_of(#[trigger] es[i]).disjoint(ids_of(#[trigger] es[j])),
        claimed.disjoint(ids_prefix(es, n)),
    ensures
        visit_prefix(es, n, claimed).0 == logical_prefix(es, n),
        visit_prefix(es, n, claimed).1 == claimed + ids_prefix(es, n),
    decreases es, n,
{
    if n == 0 {
        assert(visit_prefix(es, n, claimed).1 =~= claimed + ids_prefix(es, n));
    } else {
        let k = (n - 1) as nat;
        let last = es[k as int];
        assert(ids_prefix(es, k).subset_of(ids_prefix(es, n)));
        lemma_distinct_prefix_visit(es, k, claimed);
        let before = visit_prefix(es, k, claimed);
        assert forall|x: FileIdentity| before.1.contains(x) implies !ids_of(last).contains(x) by {
            if ids_prefix(es, k).contains(x) {
                lemma_ids_prefix_member(es, k, x);
                let j = choose|j: int| 0 <= j < k && j < es.len() && ids_of(#[trigger] es[j]).contains(x);
                assert(ids_of(es[j]).disjoint(ids_of(es[k as int])));
            } else {
                assert(claimed.contains(x));
                lemma_ids_prefix_grows(es, k, n);
            }
        }
        assert(all_distinct(last));
        lemma_distinct_visit(last, before.1);
        assert(visit_prefix(es, n, claimed).1 =~= claimed + ids_prefix(es, n));
    }
}

/// Where no two files share an identity, the size computed for the root is
/// the exact sum of all their lengths.
pub proof fn lemma_distinct_files_add_up(e: Entry, t: SizeTree)
    requires
        built(e, Set::empty(), t),
        all_distinct(e),
    ensures
        t.size == logical(e),
{
    lemma_distinct_visit(e, Set::empty());
}

} // verus!

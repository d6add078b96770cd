use vstd::prelude::*;
use crate::tree::SizeTree;

verus! {

/// Sizes above this many bytes are large.
pub const LARGE_BYTES: u64 = 50_000_000;

/// Sizes above this many bytes, and not large, are medium.
pub const MEDIUM_BYTES: u64 = 10_000_000;

/// How a row is highlighted: the root on its own, then by size.
#[derive(Clone, Copy, Debug, PartialEq, Eq, Structural)]
pub enum Band {
    Root,
    Large,
    Medium,
    Small,
}

/// The band of a node of size `size` at depth `level`.
pub open spec fn spec_band(level: nat, size: u64) -> Band {
    if level == 0 {
        Band::Root
    } else if size > LARGE_BYTES {
        Band::Large
    } else if size > MEDIUM_BYTES {
        Band::Medium
    } else {
        Band::Small
    }
}

/// Computes `spec_band`.
pub fn band_of(level: usize, size: u64) -> (b: Band)
    ensures
        b == spec_band(level as nat, size),
{
    if level == 0 {
        Band::Root
    } else if size > LARGE_BYTES {
        Band::Large
    } else if size > MEDIUM_BYTES {
        Band::Medium
    } else {
        Band::Small
    }
}

/// One line of the rendered tree.
pub struct Row {
    pub level: usize,
    pub name: String,
    pub size: u64,
    pub band: Band,
}

/// A row as plain values: depth, name, size and band.
pub open spec fn row_view(r: Row) -> (nat, Seq<char>, u64, Band) {
    (r.level as nat, r.name@, r.size, r.band)
}

/// The depth of a child of a node at depth `level`, held at the largest
/// `usize`.
pub open spec fn child_level(level: nat) -> nat {
    if level < usize::MAX {
        level + 1
    } else {
        level
    }
}

/// The rows of `t` drawn at depth `level`: the node itself, then the rows of
/// each child in order, one level deeper.
pub open spec fn rows_of(t: SizeTree, level: nat) -> Seq<(nat, Seq<char>, u64, Band)>
    decreases t, 0nat,
{
    seq![(level, t.name@, t.size, spec_band(level, t.size))] + rows_of_children(
        t.children@,
        t.children@.len(),
        child_level(level),
    )
}

/// The rows of the first `n` trees of `ts`, each drawn at depth `level`.
pub open spec fn rows_of_children(ts: Seq<SizeTree>, n: nat, level: nat) -> Seq<
    (nat, Seq<char>, u64, Band),
>
    decreases ts, n,
{
    if n == 0 || n > ts.len() {
        seq![]
    } else {
        rows_of_children(ts, (n - 1) as nat, level) + rows_of(ts[n - 1], level)
    }
}

/// Appends to `rows` the rows of `t` drawn at depth `level`, in pre-order.
pub fn push_rows(t: &SizeTree, rows: &mut Vec<Row>, level: usize)
    ensures
        final(rows)@.map_values(|r: Row| row_view(r)) == old(rows)@.map_values(|r: Row| row_view(r))
            + rows_of(*t, level as nat),
    decreases t,
{
    let ghost start = rows@.map_values(|r: Row| row_view(r));
    let band = band_of(level, t.size);
    rows.push(Row { level, name: t.name.clone(), size: t.size, band });
    assert(rows@.map_values(|r: Row| row_view(r)) =~= start + seq![
        (level as nat, t.name@, t.size, spec_band(level as nat, t.size)),
    ]);
    let next: usize = if level < usize::MAX {
        level + 1
    } else {
        level
    };
    let ghost mid = rows@.map_values(|r: Row| row_view(r));
    let mut i: usize = 0;
    while i < t.children.len()
        invariant
            i <= t.children.len(),
            next as nat == child_level(level as nat),
            rows@.map_values(|r: Row| row_view(r)) == mid + rows_of_children(
                t.children@,
                i as nat,
                next as nat,
            ),
        decreases t.children.len() - i,
    {
        proof {
            assert(decreases_to!(*t => t.children));
            assert(decreases_to!(t.children => t.children[i as int]));
        }
        push_rows(&t.children[i], rows, next);
        proof {
            vstd::seq_lib::lemma_concat_associative(
                mid,
                rows_of_children(t.children@, i as nat, next as nat),
                rows_of(t.children@[i as int], next as nat),
            );
        }
        i = i + 1;
    }
    proof {
        vstd::seq_lib::lemma_concat_associative(
            start,
            seq![(level as nat, t.name@, t.size, spec_band(level as nat, t.size))],
            rows_of_children(t.children@, t.children@.len(), next as nat),
        );
    }
}

/// The rows of the whole tree `t`, its root at depth zero.
pub fn tree_rows(t: &SizeTree) -> (rows: Vec<Row>)
    ensures
        rows@.map_values(|r: Row| row_view(r)) == rows_of(*t, 0),
{
    let mut rows: Vec<Row> = Vec::new();
    assert(rows@.map_values(|r: Row| row_view(r)) =~= Seq::<(nat, Seq<char>, u64, Band)>::empty());
    push_rows(t, &mut rows, 0);
    assert(Seq::<(nat, Seq<char>, u64, Band)>::empty() + rows_of(*t, 0) =~= rows_of(*t, 0));
    rows
}

} // verus!

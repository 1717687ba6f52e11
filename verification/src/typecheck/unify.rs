//! The union-find table that tracks which nodes' types were unified, kept in
//! an `ena` unification table.

use ena::unify::InPlaceUnificationTable;
use vstd::prelude::*;

verus! {

/// The key of a group of unified nodes: an index into the table.
#[derive(Debug, Clone, Copy, PartialEq, Eq, PartialOrd, Ord, Hash)]
pub struct GroupKey(pub u32);

impl ena::unify::UnifyKey for GroupKey {
    type Value = ();

    fn index(&self) -> (i: u32)
        ensures
            i == self.0,
    {
        self.0
    }

    fn from_index(index: u32) -> (k: Self)
        ensures
            k == GroupKey(index),
    {
        GroupKey(index)
    }

    fn tag() -> (t: &'static str)
        ensures
            t@ == "GroupKey"@,
    {
        "GroupKey"
    }
}

/// An `ena` union-find table over group keys.
#[verifier::external_body]
pub struct UnionFind {
    table: InPlaceUnificationTable<GroupKey>,
}

/// The entries of the table, one per key in order of the key: the key's
/// parent and its rank.
pub uninterp spec fn uf_entries(uf: UnionFind) -> Seq<(u32, u32)>;

/// The shape of every table that `ena` builds: each parent is a key of the
/// table, ranks strictly increase from a key to its parent (so they stay at
/// most 32 while the table has at most 2^32 keys), and there are at most 2^32
/// keys.
pub open spec fn uf_wf(e: Seq<(u32, u32)>) -> bool {
    &&& e.len() <= 0x1_0000_0000
    &&& forall|i: int| 0 <= i < e.len() ==> (#[trigger] e[i]).0 < e.len() && e[i].1 <= 32
    &&& forall|i: int| 0 <= i < e.len() && (#[trigger] e[i]).0 != i ==> e[e[i].0 as int].1 > e[i].1
}

/// A key that is its own parent.
pub open spec fn is_root(e: Seq<(u32, u32)>, k: int) -> bool {
    e[k].0 == k
}

/// Follows parents from `k`, at most `fuel` times.
pub open spec fn root_fuel(e: Seq<(u32, u32)>, k: int, fuel: nat) -> int
    decreases fuel,
{
    if fuel == 0 || e[k].0 == k {
        k
    } else {
        root_fuel(e, e[k].0 as int, (fuel - 1) as nat)
    }
}

/// The root of the tree that holds `k`: the representative of its group.
pub open spec fn root(e: Seq<(u32, u32)>, k: int) -> int {
    root_fuel(e, k, 33)
}

/// Following parents from a key reaches a root within 33 steps, since ranks
/// rise along the way and never exceed 32.
proof fn lemma_root_fuel(e: Seq<(u32, u32)>, k: int, fuel: nat)
    requires
        uf_wf(e),
        0 <= k < e.len(),
        fuel + e[k].1 >= 33,
    ensures
        0 <= root_fuel(e, k, fuel) < e.len(),
        is_root(e, root_fuel(e, k, fuel)),
    decreases fuel,
{
    if e[k].0 != k {
        lemma_root_fuel(e, e[k].0 as int, (fuel - 1) as nat);
    }
}

/// The root of a key is a key of the table, and a root.
pub proof fn lemma_root(e: Seq<(u32, u32)>, k: int)
    requires
        uf_wf(e),
        0 <= k < e.len(),
    ensures
        0 <= root(e, k) < e.len(),
        is_root(e, root(e, k)),
        is_root(e, k) ==> root(e, k) == k,
        root(e, root(e, k)) == root(e, k),
{
    lemma_root_fuel(e, k, 33);
}

/// Two tables with the same keys, roots, representatives and root ranks.
pub open spec fn same_partition(a: Seq<(u32, u32)>, b: Seq<(u32, u32)>) -> bool {
    &&& a.len() == b.len()
    &&& forall|i: int| 0 <= i < a.len() ==> #[trigger] root(b, i) == root(a, i)
    &&& forall|i: int| 0 <= i < a.len() ==> (#[trigger] is_root(b, i) <==> is_root(a, i))
    &&& forall|i: int| 0 <= i < a.len() && is_root(a, i) ==> (#[trigger] b[i]).1 == a[i].1
}

/// The root that `ena` keeps when it unions the groups with roots `ra` and
/// `rb`: the one of greater rank, or `rb` when the ranks are equal.
pub open spec fn union_root(e: Seq<(u32, u32)>, ra: int, rb: int) -> int {
    if e[ra].1 > e[rb].1 {
        ra
    } else {
        rb
    }
}

/// The rank of the kept root after a union of two distinct roots.
pub open spec fn union_rank(e: Seq<(u32, u32)>, ra: int, rb: int) -> int {
    if e[ra].1 > e[rb].1 {
        e[ra].1 as int
    } else if e[ra].1 < e[rb].1 {
        e[rb].1 as int
    } else {
        e[rb].1 + 1
    }
}

/// The table `f` is `e` after the groups of the distinct roots `ra` and `rb`
/// were merged: their keys now share the kept root, every other group keeps
/// its root and rank, and the kept root has the new rank.
pub open spec fn merged(e: Seq<(u32, u32)>, f: Seq<(u32, u32)>, ra: int, rb: int) -> bool {
    let nr = union_root(e, ra, rb);
    &&& f.len() == e.len()
    &&& forall|i: int|
        0 <= i < e.len() ==> #[trigger] root(f, i) == (if root(e, i) == ra || root(e, i) == rb {
            nr
        } else {
            root(e, i)
        })
    &&& forall|i: int|
        0 <= i < e.len() ==> (#[trigger] is_root(f, i) <==> (is_root(e, i) && (i == nr || (i != ra
            && i != rb))))
    &&& forall|i: int|
        0 <= i < e.len() && is_root(e, i) && i != ra && i != rb ==> (#[trigger] f[i]).1 == e[i].1
    &&& f[nr].1 == union_rank(e, ra, rb)
}

impl UnionFind {
    pub open spec fn entries(self) -> Seq<(u32, u32)> {
        uf_entries(self)
    }

    /// `InPlaceUnificationTable::new`: a table with no keys.
    #[verifier::external_body]
    pub fn new() -> (uf: UnionFind)
        ensures
            uf_entries(uf) == Seq::<(u32, u32)>::empty(),
    {
        UnionFind { table: InPlaceUnificationTable::new() }
    }

    /// `Clone::clone` on the table: the same entries.
    #[verifier::external_body]
    pub fn clone_table(&self) -> (uf: UnionFind)
        ensures
            uf_entries(uf) == uf_entries(*self),
    {
        UnionFind { table: self.table.clone() }
    }

    /// `UnificationTable::len`: the number of keys.
    #[verifier::external_body]
    pub fn len(&self) -> (n: usize)
        ensures
            n == uf_entries(*self).len(),
    {
        self.table.len()
    }

    /// `UnificationTable::new_key`: adds a key, a root of rank 0, whose index
    /// is the previous number of keys.
    #[verifier::external_body]
    pub fn new_key(&mut self) -> (k: u32)
        requires
            uf_entries(*old(self)).len() < 0x1_0000_0000,
        ensures
            k == uf_entries(*old(self)).len(),
            uf_entries(*final(self)) == uf_entries(*old(self)).push((k, 0u32)),
    {
        self.table.new_key(()).0
    }

    /// `UnificationTable::find`: the root of `k`'s group. Path compression
    /// may redirect keys along the way to the root; which keys it redirects is
    /// left unsaid, only that no group, root or root rank changes.
    #[verifier::external_body]
    pub fn find(&mut self, k: u32) -> (r: u32)
        requires
            uf_wf(uf_entries(*old(self))),
            k < uf_entries(*old(self)).len(),
        ensures
            r == root(uf_entries(*old(self)), k as int),
            uf_wf(uf_entries(*final(self))),
            same_partition(uf_entries(*old(self)), uf_entries(*final(self))),
    {
        self.table.find(GroupKey(k)).0
    }

    /// `UnificationTable::union`: merges the groups of `a` and `b`. When the
    /// roots differ, the root of greater rank stays (that of `b` when the
    /// ranks are equal, and then its rank grows by one) and the other one is
    /// redirected to it. Path compression during the lookups is left unsaid,
    /// as for `find`.
    #[verifier::external_body]
    pub fn union(&mut self, a: u32, b: u32)
        requires
            uf_wf(uf_entries(*old(self))),
            a < uf_entries(*old(self)).len(),
            b < uf_entries(*old(self)).len(),
        ensures
            uf_wf(uf_entries(*final(self))),
            uf_entries(*final(self)).len() == uf_entries(*old(self)).len(),
            root(uf_entries(*old(self)), a as int) == root(uf_entries(*old(self)), b as int) ==> same_partition(
                uf_entries(*old(self)),
                uf_entries(*final(self)),
            ),
            root(uf_entries(*old(self)), a as int) != root(uf_entries(*old(self)), b as int) ==> merged(
                uf_entries(*old(self)),
                uf_entries(*final(self)),
                root(uf_entries(*old(self)), a as int),
                root(uf_entries(*old(self)), b as int),
            ),
    {
        self.table.union(GroupKey(a), GroupKey(b))
    }
}

} // verus!

verus! {

/// Adding a fresh root keeps the table well formed and every old key's root.
pub proof fn lemma_push_root(e: Seq<(u32, u32)>)
    requires
        uf_wf(e),
        e.len() < 0x1_0000_0000,
    ensures
        uf_wf(e.push((e.len() as u32, 0u32))),
        root(e.push((e.len() as u32, 0u32)), e.len() as int) == e.len(),
        forall|i: int| 0 <= i < e.len() ==> #[trigger] root(e.push((e.len() as u32, 0u32)), i) == root(e, i),
{
    let f = e.push((e.len() as u32, 0u32));
    assert forall|i: int| 0 <= i < e.len() implies #[trigger] root(f, i) == root(e, i) by {
        lemma_push_root_fuel(e, i, 33);
    }
}

proof fn lemma_push_root_fuel(e: Seq<(u32, u32)>, k: int, fuel: nat)
    requires
        uf_wf(e),
        e.len() < 0x1_0000_0000,
        0 <= k < e.len(),
    ensures
        root_fuel(e.push((e.len() as u32, 0u32)), k, fuel) == root_fuel(e, k, fuel),
    decreases fuel,
{
    let f = e.push((e.len() as u32, 0u32));
    assert(f[k] == e[k]);
    if fuel > 0 && e[k].0 != k {
        lemma_push_root_fuel(e, e[k].0 as int, (fuel - 1) as nat);
    }
}

/// A map from `u32` that misses some key has fewer than 2^32 keys.
pub proof fn lemma_u32_map_not_full<V>(m: Map<u32, V>, k: u32)
    requires
        m.dom().finite(),
        !m.dom().contains(k),
    ensures
        m.dom().len() < 0x1_0000_0000,
{
    let lo: u32 = 0;
    let hi: u32 = 0xffff_ffff;
    <u32 as vstd::set_lib::FiniteRange>::range_properties(lo, hi);
    let range = <u32 as vstd::set_lib::FiniteRange>::range_set(lo, hi);
    let all = range.insert(hi);
    assert(!range.contains(hi));
    assert(all.len() == 0x1_0000_0000);
    let rest = all.remove(k);
    assert(rest.len() == 0xffff_ffff);
    assert(m.dom().subset_of(rest)) by {
        assert forall|x: u32| m.dom().contains(x) implies rest.contains(x) by {
            if x != hi {
                assert(range.contains(x));
            }
        }
    }
    vstd::set_lib::lemma_len_subset(m.dom(), rest);
}

/// Two tables that each have the partition of a third have the same one.
pub proof fn lemma_same_partition_trans(a: Seq<(u32, u32)>, b: Seq<(u32, u32)>, c: Seq<(u32, u32)>)
    requires
        same_partition(a, b),
        same_partition(b, c),
    ensures
        same_partition(a, c),
{
}

} // verus!

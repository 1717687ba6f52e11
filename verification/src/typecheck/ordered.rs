//! The keys of ordered maps and sets of node numbers, listed in increasing
//! order.

use std::collections::{BTreeMap, BTreeSet};
use vstd::prelude::*;
use vstd::std_specs::btree::increasing_seq;
use vstd::std_specs::cmp::OrdSpec;
use vstd::std_specs::iter::IteratorSpec;

verus! {

broadcast use vstd::std_specs::btree::group_btree_axioms, vstd::laws_cmp::group_laws_cmp;

/// A sequence in strictly increasing order.
pub open spec fn strictly_increasing(s: Seq<u32>) -> bool {
    forall|i: int, j: int| 0 <= i < j < s.len() ==> s[i] < s[j]
}

/// A strictly increasing sequence of `u32` has at most 2^32 entries.
pub proof fn lemma_increasing_len(s: Seq<u32>)
    requires
        strictly_increasing(s),
    ensures
        s.len() <= 0x1_0000_0000,
{
    if s.len() > 0 {
        lemma_increasing_at_least(s, s.len() - 1);
    }
}

/// Each entry of a strictly increasing sequence of `u32` is at least its
/// position.
proof fn lemma_increasing_at_least(s: Seq<u32>, i: int)
    requires
        strictly_increasing(s),
        0 <= i < s.len(),
    ensures
        s[i] >= i,
    decreases i,
{
    if i > 0 {
        lemma_increasing_at_least(s, i - 1);
    }
}

proof fn lemma_increasing_refs(s: Seq<&u32>)
    requires
        increasing_seq(s),
    ensures
        strictly_increasing(s.unref()),
{
    assert(vstd::laws_cmp::obeys_cmp::<u32>());
    assert(vstd::laws_cmp::obeys_cmp::<&u32>());
    vstd::std_specs::btree::axiom_increasing_seq_meaning::<&u32>(s);
    assert forall|i: int, j: int| 0 <= i < j < s.unref().len() implies s.unref()[i] < s.unref()[j] by {
        assert(OrdSpec::cmp_spec(&s[i], &s[j]) is Less);
    }
}

/// The keys of `m`, in increasing order.
pub fn map_keys<V>(m: &BTreeMap<u32, V>) -> (out: Vec<u32>)
    ensures
        out@.to_set() == m@.dom(),
        out@.no_duplicates(),
        strictly_increasing(out@),
{
    let mut out: Vec<u32> = Vec::new();
    for k in it: m.keys()
        invariant
            it.seq() == vstd::std_specs::btree::spec_keys_iter(m).remaining(),
            out@ == it.seq().take(it.index()).unref(),
    {
        out.push(*k);
    }
    proof {
        vstd::std_specs::btree::axiom_spec_keys_iter(m);
        let s = vstd::std_specs::btree::spec_keys_iter(m).remaining();
        assert(out@ =~= s.unref());
        lemma_increasing_refs(s);
    }
    out
}

/// The members of `set`, in increasing order.
pub fn set_members(set: &BTreeSet<u32>) -> (out: Vec<u32>)
    ensures
        out@.to_set() == set@,
        out@.no_duplicates(),
        strictly_increasing(out@),
{
    let mut out: Vec<u32> = Vec::new();
    for k in it: set.iter()
        invariant
            it.seq() == vstd::std_specs::btree::spec_btree_keys_iter(set).remaining(),
            out@ == it.seq().take(it.index()).unref(),
    {
        out.push(*k);
    }
    proof {
        vstd::std_specs::btree::axiom_spec_btree_keys_iter(set);
        let s = vstd::std_specs::btree::spec_btree_keys_iter(set).remaining();
        assert(out@ =~= s.unref());
        lemma_increasing_refs(s);
    }
    out
}

} // verus!

//! Reference accounting over all block tables.
use vstd::multiset::Multiset;
use vstd::prelude::*;
use crate::types::{BlockId, RequestId};

verus! {

/// Every block entry of every table, counted with multiplicity.
pub closed spec fn refs(tables: Map<RequestId, Seq<BlockId>>) -> Multiset<BlockId>
    decreases tables.dom().len(),
{
    if tables.dom().finite() && tables.dom().len() > 0 {
        let r = tables.dom().choose();
        tables[r].to_multiset().add(refs(tables.remove(r)))
    } else {
        Multiset::empty()
    }
}

/// The references of a set of tables split into those of one table and
/// those of the others, whichever table is taken out.
pub proof fn lemma_refs_remove(tables: Map<RequestId, Seq<BlockId>>, r: RequestId)
    requires
        tables.dom().finite(),
        tables.contains_key(r),
    ensures
        refs(tables) == tables[r].to_multiset().add(refs(tables.remove(r))),
    decreases tables.dom().len(),
{
    broadcast use vstd::multiset::group_multiset_axioms;
    assert(tables.dom().len() > 0) by {
        vstd::set_lib::lemma_set_empty_equivalency_len(tables.dom());
    }
    let c = tables.dom().choose();
    if c != r {
        let tc = tables.remove(c);
        let tr = tables.remove(r);
        lemma_refs_remove(tc, r);
        lemma_refs_remove(tr, c);
        assert(tc.remove(r) =~= tr.remove(c));
        assert(refs(tables) =~= tables[r].to_multiset().add(refs(tables.remove(r))));
    }
}

/// The references after a table is put in place of whatever stood there.
pub proof fn lemma_refs_insert(tables: Map<RequestId, Seq<BlockId>>, r: RequestId, t: Seq<BlockId>)
    requires
        tables.dom().finite(),
    ensures
        refs(tables.insert(r, t)) == t.to_multiset().add(refs(tables.remove(r))),
{
    lemma_refs_remove(tables.insert(r, t), r);
    assert(tables.insert(r, t).remove(r) =~= tables.remove(r));
}

/// A block named in some table is referenced at least as often as it
/// occurs there.
pub proof fn lemma_refs_of_table(tables: Map<RequestId, Seq<BlockId>>, r: RequestId, b: BlockId)
    requires
        tables.dom().finite(),
        tables.contains_key(r),
    ensures
        tables[r].to_multiset().count(b) <= refs(tables).count(b),
        tables[r].contains(b) ==> refs(tables).count(b) >= 1,
{
    broadcast use vstd::multiset::group_multiset_axioms, vstd::seq_lib::group_to_multiset_ensures;
    lemma_refs_remove(tables, r);
}

/// A block referenced at all is named in some table.
pub proof fn lemma_refs_named(tables: Map<RequestId, Seq<BlockId>>, b: BlockId)
    requires
        tables.dom().finite(),
        refs(tables).count(b) > 0,
    ensures
        exists|r: RequestId| #[trigger] tables.contains_key(r) && tables[r].contains(b),
    decreases tables.dom().len(),
{
    broadcast use vstd::multiset::group_multiset_axioms, vstd::seq_lib::group_to_multiset_ensures;
    if tables.dom().len() > 0 {
        let r = tables.dom().choose();
        assert(tables.dom().contains(r)) by {
            vstd::set_lib::lemma_set_empty_equivalency_len(tables.dom());
        }
        if tables[r].to_multiset().count(b) > 0 {
            assert(tables.contains_key(r) && tables[r].contains(b));
        } else {
            lemma_refs_named(tables.remove(r), b);
            let r2 = choose|r2: RequestId| #[trigger] tables.remove(r).contains_key(r2) && tables.remove(r)[r2].contains(b);
            assert(tables.contains_key(r2) && tables[r2].contains(b));
        }
    }
}

/// A value at two places of a sequence occurs there at least twice.
pub proof fn lemma_repeated_entry(s: Seq<BlockId>, i: int, j: int)
    requires
        0 <= i < s.len(),
        0 <= j < s.len(),
        i != j,
        s[i] == s[j],
    ensures
        s.to_multiset().count(s[i]) >= 2,
{
    broadcast use vstd::multiset::group_multiset_axioms, vstd::seq_lib::group_to_multiset_ensures;
    let rest = s.remove(j);
    let k = if i < j { i } else { i - 1 };
    assert(rest[k] == s[i]);
    assert(rest.contains(s[i]));
    assert(rest.to_multiset().count(s[i]) >= 1);
    assert(rest.to_multiset() =~= s.to_multiset().remove(s[j]));
}

/// The references when there are no tables.
pub proof fn lemma_refs_empty()
    ensures
        refs(Map::<RequestId, Seq<BlockId>>::empty()) == Multiset::<BlockId>::empty(),
{
}

} // verus!

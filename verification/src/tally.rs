//! Numbers added up over a map.

use vstd::prelude::*;

verus! {

/// The numbers of a map, added up.
pub open spec fn total(numbers: Map<u32, nat>) -> nat
    decreases numbers.dom().len(),
{
    if numbers.dom().finite() && numbers.dom().len() > 0 {
        let key = numbers.dom().choose();
        numbers[key] + total(numbers.remove(key))
    } else {
        0
    }
}

pub open spec fn lengths<T>(lists: Map<u32, Seq<T>>) -> Map<u32, nat> {
    lists.map_values(|list: Seq<T>| list.len())
}

/// The sum does not depend on the order: any number can be taken out first.
pub proof fn lemma_total(numbers: Map<u32, nat>, key: u32)
    requires
        numbers.dom().finite(),
        numbers.contains_key(key),
    ensures
        total(numbers) == numbers[key] + total(numbers.remove(key)),
    decreases numbers.dom().len(),
{
    let first = numbers.dom().choose();
    assert(numbers.dom().contains(key));
    assert(numbers.remove(first).dom() =~= numbers.dom().remove(first));
    if first != key {
        lemma_total(numbers.remove(first), key);
        let rest = numbers.remove(key);
        assert(rest.dom() =~= numbers.dom().remove(key));
        lemma_total(rest, first);
        assert(numbers.remove(first).remove(key) =~= rest.remove(first));
    }
}

/// One list changed.
pub proof fn lemma_total_of_change<T>(before: Map<u32, Seq<T>>, after: Map<u32, Seq<T>>, key: u32)
    requires
        before.dom().finite(),
        before.remove(key) == after.remove(key),
    ensures
        after.dom().finite(),
        total(lengths(after)) + (if before.contains_key(key) {
            before[key].len()
        } else {
            0
        }) == total(lengths(before)) + (if after.contains_key(key) {
            after[key].len()
        } else {
            0
        }),
{
    let rest = before.remove(key);
    assert(rest.dom() =~= before.dom().remove(key));
    assert(after.dom() =~= if after.contains_key(key) {
        rest.dom().insert(key)
    } else {
        rest.dom()
    }) by {
        assert(after.remove(key).dom() == rest.dom());
        assert forall|k: u32| k != key implies after.dom().contains(k) == rest.dom().contains(k) by {
            assert(after.remove(key).dom().contains(k) == after.dom().contains(k));
        }
    }
    assert(lengths(before).remove(key) =~= lengths(rest));
    assert(lengths(after).remove(key) =~= lengths(after.remove(key)));
    assert(lengths(before).dom() =~= before.dom());
    assert(lengths(after).dom() =~= after.dom());
    if before.contains_key(key) {
        lemma_total(lengths(before), key);
    } else {
        assert(before =~= rest);
    }
    if after.contains_key(key) {
        lemma_total(lengths(after), key);
    } else {
        assert(after =~= after.remove(key));
    }
}

} // verus!

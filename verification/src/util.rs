//! Differences between two lists of identifiers.
use vstd::prelude::*;

verus! {

/// The entries of `new` that are not in `old`, in the order of `new`.
pub open spec fn added_ids(old: Seq<u32>, new: Seq<u32>) -> Seq<u32> {
    new.filter(|id: u32| !old.contains(id))
}

/// Whether `id` occurs in `v`.
pub(crate) fn contains_id(v: &[u32], id: u32) -> (b: bool)
    ensures
        b == v@.contains(id),
{
    let mut i: usize = 0;
    while i < v.len()
        invariant
            i <= v@.len(),
            forall|j: int| 0 <= j < i ==> v@[j] != id,
        decreases v@.len() - i,
    {
        if v[i] == id {
            assert(v@[i as int] == id);
            return true;
        }
        i = i + 1;
    }
    false
}

/// Whether the two lists hold the same identifiers in the same order.
pub(crate) fn same_ids(a: &[u32], b: &[u32]) -> (eq: bool)
    ensures
        eq == (a@ == b@),
{
    if a.len() != b.len() {
        return false;
    }
    let mut i: usize = 0;
    while i < a.len()
        invariant
            i <= a@.len(),
            a@.len() == b@.len(),
            forall|j: int| 0 <= j < i ==> a@[j] == b@[j],
        decreases a@.len() - i,
    {
        if a[i] != b[i] {
            return false;
        }
        i = i + 1;
    }
    assert(a@ =~= b@);
    true
}

/// A copy of the list.
pub(crate) fn copy_ids(a: &[u32]) -> (out: Vec<u32>)
    ensures
        out@ == a@,
{
    let mut out: Vec<u32> = Vec::new();
    let mut i: usize = 0;
    while i < a.len()
        invariant
            i <= a@.len(),
            out@ == a@.take(i as int),
        decreases a@.len() - i,
    {
        out.push(a[i]);
        assert(a@.take(i as int + 1) =~= a@.take(i as int).push(a@[i as int]));
        i = i + 1;
    }
    assert(a@.take(a@.len() as int) =~= a@);
    out
}

/// The entries of `a` kept in order when they are missing from `b`.
fn keep_missing(a: &[u32], b: &[u32]) -> (out: Vec<u32>)
    ensures
        out@ == added_ids(b@, a@),
{
    let mut out: Vec<u32> = Vec::new();
    let mut i: usize = 0;
    while i < a.len()
        invariant
            i <= a@.len(),
            out@ == added_ids(b@, a@.take(i as int)),
        decreases a@.len() - i,
    {
        proof {
            reveal_with_fuel(Seq::filter, 1);
            assert(a@.take(i as int + 1).drop_last() =~= a@.take(i as int));
        }
        let x = a[i];
        if !contains_id(b, x) {
            out.push(x);
        }
        i = i + 1;
    }
    assert(a@.take(a@.len() as int) =~= a@);
    out
}

/// The identifiers that appear in `new` but not in `old`, in the order of `new`.
pub fn get_added_ids(old: &[u32], new: &[u32]) -> (out: Vec<u32>)
    ensures
        out@ == added_ids(old@, new@),
{
    keep_missing(new, old)
}

/// The identifiers that appear in `old` but not in `new`, in the order of `old`.
pub fn get_removed_ids(old: &[u32], new: &[u32]) -> (out: Vec<u32>)
    ensures
        out@ == added_ids(new@, old@),
{
    keep_missing(old, new)
}

/// An identifier is reported as added exactly when it is in `new` and not in
/// `old`, and as removed exactly when it is in `old` and not in `new`.
pub proof fn lemma_added_removed_membership(old: Seq<u32>, new: Seq<u32>, id: u32)
    ensures
        added_ids(old, new).contains(id) <==> (new.contains(id) && !old.contains(id)),
        added_ids(new, old).contains(id) <==> (old.contains(id) && !new.contains(id)),
{
    lemma_filter_membership(old, new, id);
    lemma_filter_membership(new, old, id);
}

proof fn lemma_filter_membership(old: Seq<u32>, new: Seq<u32>, id: u32)
    ensures
        added_ids(old, new).contains(id) <==> (new.contains(id) && !old.contains(id)),
{
    let pred = |x: u32| !old.contains(x);
    if added_ids(old, new).contains(id) {
        new.lemma_filter_contains_rev(pred, id);
        let k = choose|k: int| 0 <= k < new.filter(pred).len() && new.filter(pred)[k] == id;
        new.lemma_filter_pred(pred, k);
    }
    if new.contains(id) && !old.contains(id) {
        let k = choose|k: int| 0 <= k < new.len() && new[k] == id;
        new.lemma_filter_contains(pred, k);
    }
}

/// Appending an item that a list without duplicates lacks keeps it without duplicates.
pub proof fn lemma_push_no_duplicates<T>(s: Seq<T>, x: T)
    requires
        s.no_duplicates(),
        !s.contains(x),
    ensures
        s.push(x).no_duplicates(),
{
    let t = s.push(x);
    assert forall|i: int, j: int| 0 <= i < t.len() && 0 <= j < t.len() && i != j implies t[i] != t[j] by {
        if i < s.len() && j < s.len() {
            assert(t[i] == s[i] && t[j] == s[j]);
        } else if i < s.len() {
            assert(t[i] == s[i]);
        } else if j < s.len() {
            assert(t[j] == s[j]);
        }
    }
}

} // verus!

//! Sets of byte sequences, held in a `Vec` without repeated elements.
use vstd::prelude::*;

verus! {

/// `v` holds an element whose bytes are `s`.
pub open spec fn contains_bytes(v: Seq<Vec<u8>>, s: Seq<u8>) -> bool {
    exists|i: int| 0 <= i < v.len() && (#[trigger] v[i])@ == s
}

/// No two elements of `v` hold the same bytes.
pub open spec fn distinct_bytes(v: Seq<Vec<u8>>) -> bool {
    forall|i: int, j: int| 0 <= i < v.len() && 0 <= j < v.len() && i != j ==> (#[trigger] v[i])@ != (#[trigger] v[j])@
}

/// Whether two byte slices hold the same bytes.
pub fn same_bytes(a: &[u8], b: &[u8]) -> (r: bool)
    ensures
        r == (a@ == b@),
{
    if a.len() != b.len() {
        return false;
    }
    let mut i: usize = 0;
    while i < a.len()
        invariant
            a@.len() == b@.len(),
            i <= a@.len(),
            a@.take(i as int) == b@.take(i as int),
        decreases a@.len() - i,
    {
        if a[i] != b[i] {
            assert(a@.take(i as int + 1)[i as int] != b@.take(i as int + 1)[i as int]);
            return false;
        }
        assert(a@.take(i as int + 1) =~= b@.take(i as int + 1));
        i = i + 1;
    }
    assert(a@ =~= a@.take(i as int));
    assert(b@ =~= b@.take(i as int));
    true
}

/// Whether `set` holds an element with the bytes of `item`.
pub fn holds_bytes(set: &Vec<Vec<u8>>, item: &[u8]) -> (r: bool)
    ensures
        r == contains_bytes(set@, item@),
{
    let mut i: usize = 0;
    while i < set.len()
        invariant
            i <= set@.len(),
            forall|j: int| 0 <= j < i ==> (#[trigger] set@[j])@ != item@,
        decreases set@.len() - i,
    {
        if same_bytes(set[i].as_slice(), item) {
            return true;
        }
        i = i + 1;
    }
    false
}

/// Adds `item` to `set` unless an element with the same bytes is there.
pub fn insert_bytes(set: &mut Vec<Vec<u8>>, item: Vec<u8>)
    requires
        distinct_bytes(old(set)@),
    ensures
        distinct_bytes(final(set)@),
        forall|s: Seq<u8>|
            contains_bytes(final(set)@, s) == (contains_bytes(old(set)@, s) || s == item@),
{
    if !holds_bytes(set, item.as_slice()) {
        set.push(item);
        proof {
            let n = old(set)@.len();
            assert forall|s: Seq<u8>|
                contains_bytes(set@, s) == (contains_bytes(old(set)@, s) || s == item@) by {
                if contains_bytes(set@, s) {
                    let i = choose|i: int| 0 <= i < set@.len() && (#[trigger] set@[i])@ == s;
                    if i < n {
                        assert(old(set)@[i] == set@[i]);
                    }
                }
                if contains_bytes(old(set)@, s) {
                    let i = choose|i: int| 0 <= i < n && (#[trigger] old(set)@[i])@ == s;
                    assert(set@[i] == old(set)@[i]);
                }
                if s == item@ {
                    assert(set@[n as int] == item);
                }
            }
        }
    }
}

} // verus!

//! Byte strings: comparing and copying them.

use vstd::prelude::*;

verus! {

/// The contents of a list of byte strings.
pub open spec fn byte_strings(list: Seq<Vec<u8>>) -> Seq<Seq<u8>> {
    Seq::new(list.len(), |i: int| list[i]@)
}

/// Whether two byte strings hold the same bytes.
pub fn same_bytes(a: &[u8], b: &[u8]) -> (same: bool)
    ensures
        same == (a@ == b@),
{
    if a.len() != b.len() {
        return false;
    }
    let mut i: usize = 0;
    while i < a.len()
        invariant
            a@.len() == b@.len(),
            i <= a@.len(),
            forall|j: int| 0 <= j < i ==> a@[j] == b@[j],
        decreases a@.len() - i,
    {
        if a[i] != b[i] {
            return false;
        }
        i += 1;
    }
    assert(a@ =~= b@);
    true
}

/// A copy of a byte string.
pub fn copy_bytes(bytes: &[u8]) -> (copy: Vec<u8>)
    ensures
        copy@ == bytes@,
{
    let mut copy: Vec<u8> = Vec::new();
    copy.extend_from_slice(bytes);
    assert(copy@ =~= bytes@);
    copy
}

/// Whether a list of byte strings holds the given one.
pub fn holds_bytes(list: &Vec<Vec<u8>>, bytes: &[u8]) -> (found: bool)
    ensures
        found == byte_strings(list@).contains(bytes@),
{
    let mut i: usize = 0;
    while i < list.len()
        invariant
            i <= list@.len(),
            forall|j: int| 0 <= j < i ==> byte_strings(list@)[j] != bytes@,
        decreases list@.len() - i,
    {
        if same_bytes(&list[i], bytes) {
            assert(byte_strings(list@)[i as int] == bytes@);
            return true;
        }
        i += 1;
    }
    false
}

/// A copy of a list of byte strings.
pub fn copy_list(list: &Vec<Vec<u8>>) -> (copy: Vec<Vec<u8>>)
    ensures
        byte_strings(copy@) == byte_strings(list@),
{
    let mut copy: Vec<Vec<u8>> = Vec::new();
    let mut i: usize = 0;
    while i < list.len()
        invariant
            i <= list@.len(),
            copy@.len() == i,
            forall|j: int| 0 <= j < i ==> (#[trigger] copy@[j])@ == list@[j]@,
        decreases list@.len() - i,
    {
        copy.push(copy_bytes(&list[i]));
        i += 1;
    }
    assert(byte_strings(copy@) =~= byte_strings(list@));
    copy
}

/// The byte strings of a list, as a set.
pub open spec fn byte_set(list: Seq<Vec<u8>>) -> Set<Seq<u8>> {
    byte_strings(list).to_set()
}

/// Adds a byte string to a list that holds none twice, unless the list holds it already.
pub fn insert_bytes(list: &mut Vec<Vec<u8>>, bytes: &[u8])
    requires
        byte_strings(old(list)@).no_duplicates(),
    ensures
        byte_strings(final(list)@).no_duplicates(),
        byte_set(final(list)@) == byte_set(old(list)@).insert(bytes@),
{
    let ghost before = byte_strings(list@);
    if holds_bytes(list, bytes) {
        assert(byte_set(list@) =~= byte_set(list@).insert(bytes@));
    } else {
        list.push(copy_bytes(bytes));
        proof {
            let after = byte_strings(list@);
            assert(after =~= before.push(bytes@));
            assert(after.to_set() =~= before.to_set().insert(bytes@)) by {
                assert forall|b: Seq<u8>| after.contains(b) == (before.contains(b) || b
                    == bytes@) by {
                    if before.contains(b) {
                        let i = before.index_of(b);
                        assert(after[i] == b);
                    }
                    if b == bytes@ {
                        assert(after[before.len() as int] == b);
                    }
                }
            }
        }
    }
}

} // verus!

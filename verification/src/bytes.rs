//! Byte strings: equality and copies with exact contracts.

use vstd::prelude::*;

verus! {

/// Whether two byte strings are the same.
pub fn bytes_eq(a: &[u8], b: &[u8]) -> (r: bool)
    ensures
        r == (a@ == b@),
{
    if a.len() != b.len() {
        return false;
    }
    let n = a.len();
    let mut i: usize = 0;
    while i < n
        invariant
            0 <= i <= n,
            n == a@.len(),
            n == b@.len(),
            forall|j: int| 0 <= j < i ==> a@[j] == b@[j],
        decreases n - i,
    {
        if a[i] != b[i] {
            return false;
        }
        i += 1;
    }
    assert(a@ =~= b@);
    true
}

/// A copy of a byte string.
pub fn bytes_copy(a: &[u8]) -> (r: Vec<u8>)
    ensures
        r@ == a@,
{
    let n = a.len();
    let mut out: Vec<u8> = Vec::new();
    let mut i: usize = 0;
    while i < n
        invariant
            0 <= i <= n,
            n == a@.len(),
            out@ == a@.take(i as int),
        decreases n - i,
    {
        out.push(a[i]);
        assert(a@.take(i as int).push(a@[i as int]) =~= a@.take(i + 1));
        i += 1;
    }
    assert(a@.take(n as int) =~= a@);
    out
}

/// The byte strings of a list.
pub open spec fn views(list: Seq<Vec<u8>>) -> Seq<Seq<u8>> {
    list.map_values(|a: Vec<u8>| a@)
}

/// A copy of a list of byte strings.
pub fn list_copy(list: &Vec<Vec<u8>>) -> (r: Vec<Vec<u8>>)
    ensures
        views(r@) == views(list@),
{
    let n = list.len();
    let mut out: Vec<Vec<u8>> = Vec::new();
    let mut i: usize = 0;
    while i < n
        invariant
            0 <= i <= n,
            n == list@.len(),
            out@.len() == i,
            views(out@) == views(list@.take(i as int)),
        decreases n - i,
    {
        let item = bytes_copy(list[i].as_slice());
        let ghost prev = out@;
        out.push(item);
        proof {
            let a = views(out@);
            let b = views(list@.take(i + 1));
            assert(a.len() == b.len());
            assert forall|j: int| 0 <= j < a.len() implies a[j] == b[j] by {
                if j < i {
                    assert(out@[j] == prev[j]);
                    assert(views(prev)[j] == views(list@.take(i as int))[j]);
                }
            }
            assert(a =~= b);
        }
        i += 1;
    }
    assert(list@.take(n as int) =~= list@);
    out
}

/// The position of the first byte string of `list` that equals `item`.
pub fn list_position(list: &Vec<Vec<u8>>, item: &[u8]) -> (r: Option<usize>)
    ensures
        r is Some ==> r->0 < list@.len() && list@[r->0 as int]@ == item@ && forall|j: int|
            0 <= j < r->0 ==> (#[trigger] list@[j])@ != item@,
        r is None ==> forall|j: int| 0 <= j < list@.len() ==> (#[trigger] list@[j])@ != item@,
{
    let n = list.len();
    let mut i: usize = 0;
    while i < n
        invariant
            0 <= i <= n,
            n == list@.len(),
            forall|j: int| 0 <= j < i ==> (#[trigger] list@[j])@ != item@,
        decreases n - i,
    {
        if bytes_eq(list[i].as_slice(), item) {
            return Some(i);
        }
        i += 1;
    }
    None
}

} // verus!

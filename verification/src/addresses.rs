//! The addresses under which a peer can be reached.

use crate::bytes::{bytes_copy, list_copy, list_position, views};
use vstd::prelude::*;

verus! {

/// A list of addresses of one peer, in their canonical bytes. It is never empty.
#[derive(Debug)]
pub struct Addresses {
    list: Vec<Vec<u8>>,
}

impl View for Addresses {
    type V = Seq<Seq<u8>>;

    closed spec fn view(&self) -> Seq<Seq<u8>> {
        views(self.list@)
    }
}

impl Addresses {
    /// The list holds an address.
    pub closed spec fn wf(self) -> bool {
        self.list@.len() > 0
    }

    /// A well-formed list views as a list with at least one address.
    pub proof fn lemma_not_empty(self)
        requires
            self.wf(),
        ensures
            self@.len() > 0,
    {
    }

    /// The list that holds `addr` alone.
    pub fn new(addr: Vec<u8>) -> (a: Addresses)
        ensures
            a.wf(),
            a@ == seq![addr@],
    {
        let mut list: Vec<Vec<u8>> = Vec::new();
        list.push(addr);
        assert(views(list@) =~= seq![addr@]);
        Addresses { list }
    }

    /// The number of addresses.
    pub fn len(&self) -> (n: usize)
        ensures
            n == self@.len(),
    {
        self.list.len()
    }

    /// The first address of the list.
    pub fn first(&self) -> (a: &Vec<u8>)
        requires
            self.wf(),
        ensures
            a@ == self@[0],
    {
        &self.list[0]
    }

    /// Whether `addr` is in the list.
    pub fn contains(&self, addr: &[u8]) -> (r: bool)
        ensures
            r == self@.contains(addr@),
    {
        let r = list_position(&self.list, addr);
        proof {
            if r is Some {
                assert(self@[r->0 as int] == addr@);
            } else {
                assert forall|j: int| 0 <= j < self@.len() implies self@[j] != addr@ by {
                    assert(self.list@[j]@ != addr@);
                }
            }
        }
        r.is_some()
    }

    /// Adds `addr` at the end unless it is in the list. Returns whether it was added.
    pub fn insert(&mut self, addr: Vec<u8>) -> (r: bool)
        requires
            old(self).wf(),
        ensures
            final(self).wf(),
            r == !old(self)@.contains(addr@),
            r ==> final(self)@ == old(self)@.push(addr@),
            !r ==> final(self)@ == old(self)@,
    {
        if self.contains(addr.as_slice()) {
            return false;
        }
        self.list.push(addr);
        assert(views(self.list@) =~= views(old(self).list@).push(addr@));
        true
    }

    /// Removes the first occurrence of `addr`. The last address of a list is
    /// not removed: the call then fails and changes nothing.
    pub fn remove(&mut self, addr: &[u8]) -> (r: Result<(), ()>)
        requires
            old(self).wf(),
        ensures
            final(self).wf(),
            r is Err <==> old(self)@ == seq![addr@],
            r is Err ==> final(self)@ == old(self)@,
            r is Ok && !old(self)@.contains(addr@) ==> final(self)@ == old(self)@,
            r is Ok && old(self)@.contains(addr@) ==> exists|i: int|
                0 <= i < old(self)@.len() && old(self)@[i] == addr@ && (forall|j: int|
                    0 <= j < i ==> old(self)@[j] != addr@) && final(self)@ == old(self)@.remove(i),
    {
        let ghost before = self@;
        let pos = list_position(&self.list, addr);
        match pos {
            None => {
                proof {
                    assert forall|j: int| 0 <= j < before.len() implies before[j] != addr@ by {
                        assert(self.list@[j]@ != addr@);
                    }
                    assert(before[0] != addr@);
                }
                Ok(())
            },
            Some(i) => {
                proof {
                    assert(before[i as int] == addr@);
                    assert forall|j: int| 0 <= j < i implies before[j] != addr@ by {
                        assert(self.list@[j]@ != addr@);
                    }
                }
                if self.list.len() == 1 {
                    assert(before =~= seq![addr@]);
                    return Err(());
                }
                self.list.remove(i);
                proof {
                    assert(views(self.list@) =~= before.remove(i as int));
                    assert(before.len() > 1);
                }
                Ok(())
            },
        }
    }

    /// Puts `to` in the place of the first occurrence of `from`. Returns
    /// whether `from` was in the list; if not, nothing changes.
    pub fn replace(&mut self, from: &[u8], to: Vec<u8>) -> (r: bool)
        requires
            old(self).wf(),
        ensures
            final(self).wf(),
            r == old(self)@.contains(from@),
            !r ==> final(self)@ == old(self)@,
            r ==> exists|i: int|
                0 <= i < old(self)@.len() && old(self)@[i] == from@ && (forall|j: int|
                    0 <= j < i ==> old(self)@[j] != from@) && final(self)@ == old(self)@.update(
                    i,
                    to@,
                ),
    {
        let ghost before = self@;
        let pos = list_position(&self.list, from);
        match pos {
            None => {
                proof {
                    assert forall|j: int| 0 <= j < before.len() implies before[j] != from@ by {
                        assert(self.list@[j]@ != from@);
                    }
                }
                false
            },
            Some(i) => {
                proof {
                    assert(before[i as int] == from@);
                    assert forall|j: int| 0 <= j < i implies before[j] != from@ by {
                        assert(self.list@[j]@ != from@);
                    }
                }
                self.list.set(i, to);
                assert(views(self.list@) =~= before.update(i as int, to@));
                true
            },
        }
    }

    /// A copy of the addresses, in their order.
    pub fn to_vec(&self) -> (r: Vec<Vec<u8>>)
        ensures
            views(r@) == self@,
    {
        list_copy(&self.list)
    }

    /// A copy of the list.
    pub fn duplicate(&self) -> (r: Addresses)
        ensures
            r@ == self@,
            self.wf() ==> r.wf(),
    {
        let list = list_copy(&self.list);
        assert(views(list@).len() == list@.len());
        assert(views(self.list@).len() == self.list@.len());
        Addresses { list }
    }

    /// A copy of the address at position `i`.
    pub fn get(&self, i: usize) -> (a: Vec<u8>)
        requires
            i < self@.len(),
        ensures
            a@ == self@[i as int],
    {
        bytes_copy(self.list[i].as_slice())
    }
}

} // verus!

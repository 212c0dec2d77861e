//! Addresses heard of, each with the time it was last seen.
use vstd::prelude::*;

use crate::address::SocketAddress;

verus! {

pub open spec fn book_map(s: Seq<(SocketAddress, i64)>) -> Map<SocketAddress, i64> {
    Map::new(
        |a: SocketAddress| exists|i: int| 0 <= i < s.len() && #[trigger] s[i].0 == a,
        |a: SocketAddress| s[choose|i: int| 0 <= i < s.len() && s[i].0 == a].1,
    )
}

pub open spec fn keys_unique(s: Seq<(SocketAddress, i64)>) -> bool {
    forall|i: int, j: int| 0 <= i < s.len() && 0 <= j < s.len() && i != j ==> #[trigger] s[i].0 != #[trigger] s[j].0
}

proof fn lemma_entry(s: Seq<(SocketAddress, i64)>, i: int)
    requires
        keys_unique(s),
        0 <= i < s.len(),
    ensures
        book_map(s).contains_key(s[i].0),
        book_map(s)[s[i].0] == s[i].1,
{
    let a = s[i].0;
    assert(exists|k: int| 0 <= k < s.len() && #[trigger] s[k].0 == a);
    let k = choose|k: int| 0 <= k < s.len() && s[k].0 == a;
    assert(k == i);
}

/// The addresses of peers and when each was last seen, in milliseconds
/// since the Unix epoch.
pub struct AddressBook {
    addresses: Vec<(SocketAddress, i64)>,
}

impl View for AddressBook {
    type V = Map<SocketAddress, i64>;

    closed spec fn view(&self) -> Map<SocketAddress, i64> {
        book_map(self.addresses@)
    }
}

impl AddressBook {
    pub closed spec fn wf(&self) -> bool {
        keys_unique(self.addresses@)
    }

    pub closed spec fn size(&self) -> nat {
        self.addresses@.len()
    }

    pub fn new() -> (r: AddressBook)
        ensures
            r.wf(),
            r@ == Map::<SocketAddress, i64>::empty(),
            r.size() == 0,
    {
        let r = AddressBook { addresses: Vec::new() };
        assert(r@ =~= Map::<SocketAddress, i64>::empty());
        r
    }

    fn index_of(&self, a: SocketAddress) -> (r: Option<usize>)
        requires
            self.wf(),
        ensures
            match r {
                Some(i) => i < self.addresses@.len() && self.addresses@[i as int].0 == a && self@.contains_key(a)
                    && self@[a] == self.addresses@[i as int].1,
                None => !self@.contains_key(a),
            },
    {
        let mut i: usize = 0;
        while i < self.addresses.len()
            invariant
                self.wf(),
                i <= self.addresses@.len(),
                forall|k: int| 0 <= k < i ==> #[trigger] self.addresses@[k].0 != a,
            decreases self.addresses@.len() - i,
        {
            if self.addresses[i].0 == a {
                proof {
                    lemma_entry(self.addresses@, i as int);
                }
                return Some(i);
            }
            i = i + 1;
        }
        None
    }

    /// Records that `address` was seen at `date`. A new address is added and
    /// `true` returned; a known one keeps the later of its two dates and
    /// `false` is returned.
    pub fn insert_or_update(&mut self, address: SocketAddress, date: i64) -> (r: bool)
        requires
            old(self).wf(),
        ensures
            final(self).wf(),
            r == !old(self)@.contains_key(address),
            final(self)@ == old(self)@.insert(
                address,
                if old(self)@.contains_key(address) && old(self)@[address] >= date {
                    old(self)@[address]
                } else {
                    date
                },
            ),
            final(self).size() == old(self).size() + (if r { 1int } else { 0int }),
    {
        let ghost s = self.addresses@;
        let ghost value = if old(self)@.contains_key(address) && old(self)@[address] >= date {
            old(self)@[address]
        } else {
            date
        };
        match self.index_of(address) {
            Some(i) => {
                if self.addresses[i].1 < date {
                    self.addresses.set(i, (address, date));
                }
                let ghost t = self.addresses@;
                assert(t =~= s.update(i as int, (address, value)));
                assert forall|x: int, y: int| 0 <= x < t.len() && 0 <= y < t.len() && x != y implies #[trigger] t[x].0
                    != #[trigger] t[y].0 by {
                    assert(s[x].0 != s[y].0);
                }
                assert forall|a: SocketAddress| #[trigger] self@.contains_key(a) <==> old(self)@.insert(address, value).contains_key(a) by {
                    if self@.contains_key(a) {
                        let k = choose|k: int| 0 <= k < t.len() && t[k].0 == a;
                        assert(s[k].0 == a);
                    }
                    if old(self)@.contains_key(a) {
                        let k = choose|k: int| 0 <= k < s.len() && s[k].0 == a;
                        assert(t[k].0 == a);
                    }
                }
                assert forall|a: SocketAddress| #[trigger] self@.contains_key(a) implies self@[a] == old(self)@.insert(address, value)[a] by {
                    let k = choose|k: int| 0 <= k < t.len() && t[k].0 == a;
                    lemma_entry(t, k);
                    if k != i {
                        lemma_entry(s, k);
                    }
                }
                assert(self@ =~= old(self)@.insert(address, value));
                false
            },
            None => {
                self.addresses.push((address, date));
                let ghost t = self.addresses@;
                assert forall|k: int| 0 <= k < s.len() implies s[k].0 != address by {
                    lemma_entry(s, k);
                }
                assert forall|x: int, y: int| 0 <= x < t.len() && 0 <= y < t.len() && x != y implies #[trigger] t[x].0
                    != #[trigger] t[y].0 by {
                    if x < s.len() && y < s.len() {
                        assert(s[x].0 != s[y].0);
                    }
                }
                assert forall|a: SocketAddress| #[trigger] self@.contains_key(a) <==> old(self)@.insert(address, value).contains_key(a) by {
                    if self@.contains_key(a) {
                        let k = choose|k: int| 0 <= k < t.len() && t[k].0 == a;
                        if k < s.len() {
                            assert(s[k].0 == a);
                        }
                    }
                    if old(self)@.contains_key(a) {
                        let k = choose|k: int| 0 <= k < s.len() && s[k].0 == a;
                        assert(t[k].0 == a);
                    }
                    if a == address {
                        assert(t[s.len() as int].0 == a);
                    }
                }
                assert forall|a: SocketAddress| #[trigger] self@.contains_key(a) implies self@[a] == old(self)@.insert(address, value)[a] by {
                    let k = choose|k: int| 0 <= k < t.len() && t[k].0 == a;
                    lemma_entry(t, k);
                    if k < s.len() {
                        lemma_entry(s, k);
                    }
                }
                assert(self@ =~= old(self)@.insert(address, value));
                true
            },
        }
    }

    /// Whether the address is in the book.
    pub fn contains(&self, address: SocketAddress) -> (r: bool)
        requires
            self.wf(),
        ensures
            r == self@.contains_key(address),
    {
        self.index_of(address).is_some()
    }

    /// Removes an address, handing back the time it was last seen.
    pub fn remove(&mut self, address: SocketAddress) -> (r: Option<i64>)
        requires
            old(self).wf(),
        ensures
            final(self).wf(),
            r == (if old(self)@.contains_key(address) {
                Some(old(self)@[address])
            } else {
                None::<i64>
            }),
            final(self)@ == old(self)@.remove(address),
            final(self).size() == old(self).size() - (if r is Some { 1int } else { 0int }),
    {
        let ghost s = self.addresses@;
        match self.index_of(address) {
            Some(i) => {
                let (_, date) = self.addresses.remove(i);
                let ghost t = self.addresses@;
                assert(t =~= s.remove(i as int));
                assert forall|x: int, y: int| 0 <= x < t.len() && 0 <= y < t.len() && x != y implies #[trigger] t[x].0
                    != #[trigger] t[y].0 by {
                    let x2 = if x < i { x } else { x + 1 };
                    let y2 = if y < i { y } else { y + 1 };
                    assert(t[x] == s[x2]);
                    assert(t[y] == s[y2]);
                }
                assert forall|a: SocketAddress| #[trigger] self@.contains_key(a) <==> old(self)@.remove(address).contains_key(a) by {
                    if self@.contains_key(a) {
                        let k = choose|k: int| 0 <= k < t.len() && t[k].0 == a;
                        let k2 = if k < i { k } else { k + 1 };
                        assert(t[k] == s[k2]);
                        assert(s[k2].0 != s[i as int].0);
                    }
                    if old(self)@.contains_key(a) && a != address {
                        let k = choose|k: int| 0 <= k < s.len() && s[k].0 == a;
                        assert(k != i);
                        let k2 = if k < i { k } else { k - 1 };
                        assert(t[k2] == s[k]);
                    }
                }
                assert forall|a: SocketAddress| #[trigger] self@.contains_key(a) implies self@[a] == old(self)@.remove(address)[a] by {
                    let k = choose|k: int| 0 <= k < t.len() && t[k].0 == a;
                    let k2 = if k < i { k } else { k + 1 };
                    assert(t[k] == s[k2]);
                    lemma_entry(t, k);
                    lemma_entry(s, k2);
                }
                assert(self@ =~= old(self)@.remove(address));
                Some(date)
            },
            None => {
                assert(self@ =~= old(self)@.remove(address));
                None
            },
        }
    }

    /// The number of stored addresses, saturating at `u16::MAX`.
    pub fn length(&self) -> (r: u16)
        ensures
            r == (if self.size() <= u16::MAX { self.size() } else { u16::MAX as nat }),
    {
        if self.addresses.len() <= u16::MAX as usize {
            self.addresses.len() as u16
        } else {
            u16::MAX
        }
    }

    /// A copy of the addresses and their dates.
    pub fn get_addresses(&self) -> (r: Vec<(SocketAddress, i64)>)
        requires
            self.wf(),
        ensures
            book_map(r@) == self@,
            keys_unique(r@),
    {
        let mut out: Vec<(SocketAddress, i64)> = Vec::new();
        let mut i: usize = 0;
        while i < self.addresses.len()
            invariant
                i <= self.addresses@.len(),
                out@ == self.addresses@.take(i as int),
            decreases self.addresses@.len() - i,
        {
            out.push(self.addresses[i]);
            assert(self.addresses@.take(i + 1) =~= self.addresses@.take(i as int).push(self.addresses@[i as int]));
            i = i + 1;
        }
        assert(self.addresses@.take(self.addresses@.len() as int) =~= self.addresses@);
        out
    }
}

} // verus!

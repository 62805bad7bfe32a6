//! A map from field names to field values, as used for header fields and
//! query parameters. Names are compared exactly; a later insert under the same
//! name replaces the earlier value.

use vstd::prelude::*;
use vstd::string::*;
use vstd::utf8::*;

verus! {

broadcast use vstd::utf8::encode_utf8_decode_utf8;

/// Whether two strings hold the same characters.
pub fn same_text(a: &str, b: &str) -> (r: bool)
    ensures
        r == (a@ == b@),
{
    let x = a.as_bytes();
    let y = b.as_bytes();
    proof {
        assert(decode_utf8(encode_utf8(a@)) == a@);
        assert(decode_utf8(encode_utf8(b@)) == b@);
        assert(x@ == encode_utf8(a@));
        assert(y@ == encode_utf8(b@));
    }
    if x.len() != y.len() {
        return false;
    }
    let mut i: usize = 0;
    while i < x.len()
        invariant
            x.len() == y.len(),
            x@ == encode_utf8(a@),
            y@ == encode_utf8(b@),
            i <= x.len(),
            forall|k: int| 0 <= k < i ==> x@[k] == y@[k],
        decreases x.len() - i,
    {
        if x[i] != y[i] {
            assert(x@[i as int] != y@[i as int]);
            return false;
        }
        i = i + 1;
    }
    assert(x@ =~= y@);
    true
}

/// Field names and values, each name at most once.
pub struct FieldMap {
    entries: Vec<(String, String)>,
    model: Ghost<Map<Seq<char>, Seq<char>>>,
}

impl View for FieldMap {
    type V = Map<Seq<char>, Seq<char>>;

    closed spec fn view(&self) -> Map<Seq<char>, Seq<char>> {
        self.model@
    }
}

impl FieldMap {
    /// The entries in the order in which they are stored.
    pub closed spec fn entry_view(&self) -> Seq<(Seq<char>, Seq<char>)> {
        self.entries@.map_values(|e: (String, String)| (e.0@, e.1@))
    }

    /// Names are unique, and the entries are exactly the map.
    pub closed spec fn wf(&self) -> bool {
        let ev = self.entry_view();
        &&& forall|i: int, j: int|
            0 <= i < ev.len() && 0 <= j < ev.len() && i != j ==> #[trigger] ev[i].0 != #[trigger] ev[j].0
        &&& forall|i: int|
            0 <= i < ev.len() ==> self@.contains_key(#[trigger] ev[i].0) && self@[ev[i].0] == ev[i].1
        &&& forall|k: Seq<char>|
            #[trigger] self@.contains_key(k) ==> exists|i: int| 0 <= i < ev.len() && ev[i].0 == k
    }

    /// An empty map.
    pub fn new() -> (r: FieldMap)
        ensures
            r.wf(),
            r@ == Map::<Seq<char>, Seq<char>>::empty(),
            r.entry_view().len() == 0,
    {
        FieldMap { entries: Vec::new(), model: Ghost(Map::empty()) }
    }

    /// Sets `name` to `value`, replacing any earlier value under that name.
    pub fn insert(&mut self, name: String, value: String)
        requires
            old(self).wf(),
        ensures
            final(self).wf(),
            final(self)@ == old(self)@.insert(name@, value@),
            !old(self)@.contains_key(name@) ==> final(self).entry_view() == old(
                self,
            ).entry_view().push((name@, value@)),
            old(self)@.contains_key(name@) ==> exists|i: int|
                0 <= i < old(self).entry_view().len() && old(self).entry_view()[i].0 == name@
                    && final(self).entry_view() == old(self).entry_view().update(i, (name@, value@)),
    {
        let ghost old_ev = self.entry_view();
        let mut i: usize = 0;
        while i < self.entries.len()
            invariant
                self.wf(),
                self.entry_view() == old_ev,
                old_ev == old(self).entry_view(),
                self@ == old(self)@,
                i <= self.entries.len(),
                forall|k: int| 0 <= k < i ==> (#[trigger] old_ev[k]).0 != name@,
            decreases self.entries.len() - i,
        {
            if same_text(self.entries[i].0.as_str(), name.as_str()) {
                assert(old_ev[i as int].0 == name@);
                let ghost nv = name@;
                let ghost vv = value@;
                self.entries.set(i, (name, value));
                self.model = Ghost(self.model@.insert(nv, vv));
                proof {
                    let ev = self.entry_view();
                    assert(ev =~= old_ev.update(i as int, (nv, vv)));
                    assert(0 <= i < old_ev.len() && old_ev[i as int].0 == nv && self.entry_view()
                        == old(self).entry_view().update(i as int, (nv, vv)));
                    assert forall|k: Seq<char>| #[trigger] self@.contains_key(k) implies exists|j: int|
                        0 <= j < ev.len() && ev[j].0 == k by {
                        if k != nv {
                            assert(old(self)@.contains_key(k));
                            let j = choose|j: int| 0 <= j < old_ev.len() && old_ev[j].0 == k;
                            assert(ev[j].0 == k);
                        } else {
                            assert(ev[i as int].0 == k);
                        }
                    }
                }
                return;
            }
            i = i + 1;
        }
        let ghost nv = name@;
        let ghost vv = value@;
        self.entries.push((name, value));
        self.model = Ghost(self.model@.insert(nv, vv));
        proof {
            let ev = self.entry_view();
            assert(ev =~= old_ev.push((nv, vv)));
            assert forall|k: Seq<char>| #[trigger] self@.contains_key(k) implies exists|j: int|
                0 <= j < ev.len() && ev[j].0 == k by {
                if k != nv {
                    assert(old(self)@.contains_key(k));
                    let j = choose|j: int| 0 <= j < old_ev.len() && old_ev[j].0 == k;
                    assert(ev[j].0 == k);
                } else {
                    assert(ev[old_ev.len() as int].0 == k);
                }
            }
        }
    }

    /// The value under `name`, if any.
    pub fn get(&self, name: &str) -> (r: Option<&String>)
        requires
            self.wf(),
        ensures
            r.is_some() == self@.contains_key(name@),
            r matches Some(v) ==> v@ == self@[name@],
    {
        let mut i: usize = 0;
        while i < self.entries.len()
            invariant
                self.wf(),
                i <= self.entries.len(),
                forall|k: int| 0 <= k < i ==> (#[trigger] self.entry_view()[k]).0 != name@,
            decreases self.entries.len() - i,
        {
            if same_text(self.entries[i].0.as_str(), name) {
                assert(self.entry_view()[i as int].0 == name@);
                return Some(&self.entries[i].1);
            }
            i = i + 1;
        }
        proof {
            if self@.contains_key(name@) {
                let j = choose|j: int| 0 <= j < self.entry_view().len() && self.entry_view()[j].0 == name@;
                assert(self.entry_view()[j].0 != name@);
            }
        }
        None
    }

    /// The number of stored names.
    pub fn len(&self) -> (r: usize)
        ensures
            r == self.entry_view().len(),
    {
        self.entries.len()
    }

    /// Whether no name is stored.
    pub fn is_empty(&self) -> (r: bool)
        requires
            self.wf(),
        ensures
            r == (self@ == Map::<Seq<char>, Seq<char>>::empty()),
    {
        proof {
            if self.entries.len() == 0 {
                assert(self@ =~= Map::<Seq<char>, Seq<char>>::empty());
            } else {
                assert(self@.contains_key(self.entry_view()[0].0));
            }
        }
        self.entries.len() == 0
    }

    /// The stored entry at position `i`, as a name and a value.
    pub fn entry(&self, i: usize) -> (r: (&String, &String))
        requires
            i < self.entry_view().len(),
        ensures
            r.0@ == self.entry_view()[i as int].0,
            r.1@ == self.entry_view()[i as int].1,
    {
        (&self.entries[i].0, &self.entries[i].1)
    }
}

} // verus!

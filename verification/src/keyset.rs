//! Duplicate-free collections of key codes: a set, and a map from key code
//! to press timestamp.

use crate::event::TimeVal;
use crate::keycode::KeyCode;
use vstd::prelude::*;

verus! {

/// A finite set of key codes, stored as a duplicate-free vector.
#[derive(Debug)]
pub struct KeySet {
    items: Vec<KeyCode>,
}

impl View for KeySet {
    type V = Set<KeyCode>;

    open spec fn view(&self) -> Set<KeyCode> {
        self.seq().to_set()
    }
}

impl KeySet {
    /// The stored order of the elements.
    pub closed spec fn seq(&self) -> Seq<KeyCode> {
        self.items@
    }

    /// No element is stored twice.
    pub open spec fn wf(&self) -> bool {
        self.seq().no_duplicates()
    }

    /// The empty set.
    pub fn new() -> (r: KeySet)
        ensures
            r.wf(),
            r.seq() == Seq::<KeyCode>::empty(),
            r@ == Set::<KeyCode>::empty(),
    {
        let r = KeySet { items: Vec::new() };
        proof {
            assert(r@ =~= Set::<KeyCode>::empty());
        }
        r
    }

    /// The set holding the elements of `v`, stored in first-occurrence order.
    pub fn from_vec(v: &Vec<KeyCode>) -> (r: KeySet)
        ensures
            r.wf(),
            r@ == v@.to_set(),
            r.seq() == dedup_first(v@),
    {
        let mut r = KeySet::new();
        let mut i: usize = 0;
        while i < v.len()
            invariant
                i <= v.len(),
                r.wf(),
                r.seq() == dedup_first(v@.subrange(0, i as int)),
            decreases v.len() - i,
        {
            proof {
                lemma_dedup_first_props(v@.subrange(0, i as int));
                assert(v@.subrange(0, i + 1 as int).drop_last() =~= v@.subrange(0, i as int));
            }
            r.insert(v[i]);
            i += 1;
        }
        proof {
            assert(v@.subrange(0, v@.len() as int) =~= v@);
            lemma_dedup_first_props(v@);
        }
        r
    }

    /// Membership test.
    pub fn contains(&self, k: KeyCode) -> (r: bool)
        ensures
            r == self@.contains(k),
    {
        let mut i: usize = 0;
        while i < self.items.len()
            invariant
                i <= self.items.len(),
                forall|j: int| 0 <= j < i ==> self.items@[j] != k,
            decreases self.items.len() - i,
        {
            if self.items[i] == k {
                assert(self.seq().contains(k));
                return true;
            }
            i += 1;
        }
        assert(!self.seq().contains(k));
        false
    }

    /// Adds an element; no change when it is already present.
    pub fn insert(&mut self, k: KeyCode)
        requires
            old(self).wf(),
        ensures
            final(self).wf(),
            final(self)@ == old(self)@.insert(k),
            final(self).seq() == if old(self)@.contains(k) {
                old(self).seq()
            } else {
                old(self).seq().push(k)
            },
    {
        if !self.contains(k) {
            let ghost pre = self.items@;
            self.items.push(k);
            proof {
                assert(!pre.contains(k));
                assert forall|i: int, j: int|
                    0 <= i < self.items@.len() && 0 <= j < self.items@.len() && i
                        != j implies self.items@[i] != self.items@[j] by {
                    if i < pre.len() && j < pre.len() {
                        assert(pre[i] != pre[j]);
                    } else if i < pre.len() {
                        assert(!pre.contains(k));
                        assert(pre[i] != k);
                    } else {
                        assert(pre[j] != k);
                    }
                }
                assert(self@ =~= old(self)@.insert(k)) by {
                    assert forall|x: KeyCode| self@.contains(x) implies old(self)@.insert(
                        k,
                    ).contains(x) by {
                        let j = choose|j: int| 0 <= j < self.seq().len() && self.seq()[j] == x;
                        if j < pre.len() {
                            assert(pre[j] == x);
                        }
                    };
                    assert forall|x: KeyCode| old(self)@.insert(k).contains(x) implies self
                        @.contains(x) by {
                        if old(self)@.contains(x) {
                            let j = choose|j: int| 0 <= j < pre.len() && pre[j] == x;
                            assert(self.seq()[j] == x);
                        } else {
                            assert(self.seq()[pre.len() as int] == k);
                        }
                    };
                }
            }
        } else {
            proof {
                assert(self@ =~= old(self)@.insert(k));
            }
        }
    }

    /// Takes an element out; no change when it is absent.
    pub fn remove(&mut self, k: KeyCode)
        requires
            old(self).wf(),
        ensures
            final(self).wf(),
            final(self)@ == old(self)@.remove(k),
    {
        let mut i: usize = 0;
        while i < self.items.len()
            invariant
                i <= self.items.len(),
                forall|j: int| 0 <= j < i ==> self.items@[j] != k,
                self.items@ == old(self).seq(),
                old(self).wf(),
            decreases self.items.len() - i,
        {
            if self.items[i] == k {
                let ghost pre = self.items@;
                self.items.remove(i);
                proof {
                    lemma_seq_remove_to_set(pre, i as int);
                    assert(self@ =~= old(self)@.remove(k));
                }
                return ;
            }
            i += 1;
        }
        proof {
            assert(!self.seq().contains(k));
            assert(self@ =~= old(self)@.remove(k));
        }
    }

    /// The number of elements.
    pub fn len(&self) -> (r: usize)
        ensures
            r == self.seq().len(),
            self.wf() ==> r == self@.len(),
    {
        proof {
            if self.wf() {
                self.seq().unique_seq_to_set();
            }
        }
        self.items.len()
    }

    /// The element at a stored position.
    pub fn get(&self, i: usize) -> (r: KeyCode)
        requires
            i < self.seq().len(),
        ensures
            r == self.seq()[i as int],
            self@.contains(r),
    {
        let r = self.items[i];
        proof {
            assert(self.seq().contains(r));
        }
        r
    }

    /// Whether two sets hold the same elements.
    pub fn set_eq(&self, other: &KeySet) -> (r: bool)
        ensures
            r == (self@ == other@),
    {
        let mut i: usize = 0;
        while i < self.items.len()
            invariant
                i <= self.items.len(),
                forall|j: int| 0 <= j < i ==> other@.contains(#[trigger] self.items@[j]),
            decreases self.items.len() - i,
        {
            if !other.contains(self.items[i]) {
                proof {
                    assert(self.seq().contains(self.items@[i as int]));
                    assert(self@.contains(self.items@[i as int]));
                }
                return false;
            }
            i += 1;
        }
        let mut j: usize = 0;
        while j < other.items.len()
            invariant
                j <= other.items.len(),
                forall|l: int| 0 <= l < self.items@.len() ==> other@.contains(
                    #[trigger] self.items@[l],
                ),
                forall|l: int| 0 <= l < j ==> self@.contains(#[trigger] other.items@[l]),
            decreases other.items.len() - j,
        {
            if !self.contains(other.items[j]) {
                proof {
                    assert(other.seq().contains(other.items@[j as int]));
                    assert(other@.contains(other.items@[j as int]));
                }
                return false;
            }
            j += 1;
        }
        proof {
            assert(self@ =~= other@) by {
                assert forall|x: KeyCode| self@.contains(x) implies other@.contains(x) by {
                    let l = choose|l: int| 0 <= l < self.seq().len() && self.seq()[l] == x;
                    assert(other@.contains(self.items@[l]));
                };
                assert forall|x: KeyCode| other@.contains(x) implies self@.contains(x) by {
                    let l = choose|l: int| 0 <= l < other.seq().len() && other.seq()[l] == x;
                    assert(self@.contains(other.items@[l]));
                };
            }
        }
        true
    }

    /// Adds every element of a vector.
    pub fn insert_vec(&mut self, v: &Vec<KeyCode>)
        requires
            old(self).wf(),
        ensures
            final(self).wf(),
            final(self)@ == old(self)@.union(v@.to_set()),
    {
        let mut i: usize = 0;
        while i < v.len()
            invariant
                i <= v.len(),
                self.wf(),
                self@ == old(self)@.union(v@.subrange(0, i as int).to_set()),
            decreases v.len() - i,
        {
            self.insert(v[i]);
            proof {
                let a = v@.subrange(0, i as int);
                let b = v@.subrange(0, i + 1 as int);
                assert(b.drop_last() =~= a);
                assert(old(self)@.union(a.to_set()).insert(v@[i as int]) =~= old(self)@.union(
                    b.to_set(),
                )) by {
                    assert forall|x: KeyCode| b.to_set().contains(x) implies a.to_set().insert(
                        v@[i as int],
                    ).contains(x) by {
                        let j = choose|j: int| 0 <= j < b.len() && b[j] == x;
                        if j < i {
                            assert(a[j] == x);
                        }
                    };
                    assert forall|x: KeyCode| a.to_set().contains(x) implies b.to_set().contains(
                        x,
                    ) by {
                        let j = choose|j: int| 0 <= j < a.len() && a[j] == x;
                        assert(b[j] == x);
                    };
                    assert(b[i as int] == v@[i as int]);
                }
            }
            i += 1;
        }
        proof {
            assert(v@.subrange(0, v@.len() as int) =~= v@);
        }
    }

    /// Adds every element of another set.
    pub fn insert_set(&mut self, other: &KeySet)
        requires
            old(self).wf(),
        ensures
            final(self).wf(),
            final(self)@ == old(self)@.union(other@),
    {
        let n = other.len();
        let mut i: usize = 0;
        while i < n
            invariant
                i <= n,
                n == other.seq().len(),
                self.wf(),
                self@ == old(self)@.union(other.seq().subrange(0, i as int).to_set()),
            decreases n - i,
        {
            self.insert(other.get(i));
            proof {
                let a = other.seq().subrange(0, i as int);
                let b = other.seq().subrange(0, i + 1 as int);
                assert(old(self)@.union(a.to_set()).insert(other.seq()[i as int]) =~= old(
                    self,
                )@.union(b.to_set())) by {
                    assert forall|x: KeyCode| b.to_set().contains(x) implies a.to_set().insert(
                        other.seq()[i as int],
                    ).contains(x) by {
                        let j = choose|j: int| 0 <= j < b.len() && b[j] == x;
                        if j < i {
                            assert(a[j] == x);
                        }
                    };
                    assert forall|x: KeyCode| a.to_set().contains(x) implies b.to_set().contains(
                        x,
                    ) by {
                        let j = choose|j: int| 0 <= j < a.len() && a[j] == x;
                        assert(b[j] == x);
                    };
                    assert(b[i as int] == other.seq()[i as int]);
                }
            }
            i += 1;
        }
        proof {
            assert(other.seq().subrange(0, other.seq().len() as int) =~= other.seq());
            assert(old(self)@.union(other.seq().to_set()) =~= old(self)@.union(other@));
        }
    }

    /// Takes every element of another set out.
    pub fn remove_set(&mut self, other: &KeySet)
        requires
            old(self).wf(),
        ensures
            final(self).wf(),
            final(self)@ == old(self)@.difference(other@),
    {
        let n = other.len();
        let mut i: usize = 0;
        while i < n
            invariant
                i <= n,
                n == other.seq().len(),
                self.wf(),
                self@ == old(self)@.difference(other.seq().subrange(0, i as int).to_set()),
            decreases n - i,
        {
            self.remove(other.get(i));
            proof {
                let a = other.seq().subrange(0, i as int);
                let b = other.seq().subrange(0, i + 1 as int);
                assert(old(self)@.difference(a.to_set()).remove(other.seq()[i as int]) =~= old(
                    self,
                )@.difference(b.to_set())) by {
                    assert forall|x: KeyCode| b.to_set().contains(x) implies a.to_set().insert(
                        other.seq()[i as int],
                    ).contains(x) by {
                        let j = choose|j: int| 0 <= j < b.len() && b[j] == x;
                        if j < i {
                            assert(a[j] == x);
                        }
                    };
                    assert forall|x: KeyCode| a.to_set().contains(x) implies b.to_set().contains(
                        x,
                    ) by {
                        let j = choose|j: int| 0 <= j < a.len() && a[j] == x;
                        assert(b[j] == x);
                    };
                    assert(b[i as int] == other.seq()[i as int]);
                }
            }
            i += 1;
        }
        proof {
            assert(other.seq().subrange(0, other.seq().len() as int) =~= other.seq());
            assert(old(self)@.difference(other.seq().to_set()) =~= old(self)@.difference(other@));
        }
    }

    /// The elements in stored order, as a vector.
    pub fn to_vec(&self) -> (r: Vec<KeyCode>)
        ensures
            r@ == self.seq(),
    {
        copy_codes(&self.items)
    }

    /// A copy of the set, same elements in the same stored order.
    pub fn duplicate(&self) -> (r: KeySet)
        ensures
            r.seq() == self.seq(),
            r@ == self@,
    {
        KeySet { items: copy_codes(&self.items) }
    }
}

/// The sequence with every repeated element dropped, keeping first
/// occurrences in their original order.
pub open spec fn dedup_first(s: Seq<KeyCode>) -> Seq<KeyCode>
    decreases s.len(),
{
    if s.len() == 0 {
        Seq::empty()
    } else {
        let p = dedup_first(s.drop_last());
        if p.contains(s.last()) {
            p
        } else {
            p.push(s.last())
        }
    }
}

/// Deduplication keeps the element set and leaves no duplicates.
pub proof fn lemma_dedup_first_props(s: Seq<KeyCode>)
    ensures
        dedup_first(s).no_duplicates(),
        dedup_first(s).to_set() == s.to_set(),
    decreases s.len(),
{
    if s.len() == 0 {
        assert(dedup_first(s).to_set() =~= s.to_set());
    } else {
        let p = dedup_first(s.drop_last());
        lemma_dedup_first_props(s.drop_last());
        let d = dedup_first(s);
        if p.contains(s.last()) {
            assert(d.to_set() =~= s.to_set()) by {
                assert forall|x: KeyCode| s.to_set().contains(x) implies d.to_set().contains(
                    x,
                ) by {
                    let j = choose|j: int| 0 <= j < s.len() && s[j] == x;
                    if j < s.len() - 1 {
                        assert(s.drop_last()[j] == x);
                        assert(s.drop_last().to_set().contains(x));
                    } else {
                        assert(x == s.last());
                    }
                };
                assert forall|x: KeyCode| d.to_set().contains(x) implies s.to_set().contains(
                    x,
                ) by {
                    assert(s.drop_last().to_set().contains(x));
                    let j = choose|j: int| 0 <= j < s.drop_last().len() && s.drop_last()[j] == x;
                    assert(s[j] == x);
                };
            }
        } else {
            assert(d.no_duplicates()) by {
                assert forall|a: int, b: int|
                    0 <= a < d.len() && 0 <= b < d.len() && a != b implies d[a] != d[b] by {
                    if a < p.len() && b < p.len() {
                        assert(p[a] != p[b]);
                    } else if a < p.len() {
                        if p[a] == s.last() {
                            assert(p.contains(s.last()));
                        }
                    } else {
                        if p[b] == s.last() {
                            assert(p.contains(s.last()));
                        }
                    }
                }
            }
            assert(d.to_set() =~= s.to_set()) by {
                assert forall|x: KeyCode| s.to_set().contains(x) implies d.to_set().contains(
                    x,
                ) by {
                    let j = choose|j: int| 0 <= j < s.len() && s[j] == x;
                    if j < s.len() - 1 {
                        assert(s.drop_last()[j] == x);
                        assert(s.drop_last().to_set().contains(x));
                        let l = choose|l: int| 0 <= l < p.len() && p[l] == x;
                        assert(d[l] == x);
                    } else {
                        assert(d[p.len() as int] == x);
                    }
                };
                assert forall|x: KeyCode| d.to_set().contains(x) implies s.to_set().contains(
                    x,
                ) by {
                    let j = choose|j: int| 0 <= j < d.len() && d[j] == x;
                    if j < p.len() {
                        assert(p[j] == x);
                        assert(s.drop_last().to_set().contains(x));
                        let l = choose|l: int|
                            0 <= l < s.drop_last().len() && s.drop_last()[l] == x;
                        assert(s[l] == x);
                    } else {
                        assert(x == s.last());
                        assert(s[s.len() - 1] == x);
                    }
                };
            }
        }
    }
}

/// A copy of a vector of key codes.
pub fn copy_codes(v: &Vec<KeyCode>) -> (r: Vec<KeyCode>)
    ensures
        r@ == v@,
{
    let mut r: Vec<KeyCode> = Vec::new();
    let mut i: usize = 0;
    while i < v.len()
        invariant
            i <= v.len(),
            r@ == v@.subrange(0, i as int),
        decreases v.len() - i,
    {
        r.push(v[i]);
        proof {
            assert(r@ =~= v@.subrange(0, i + 1 as int));
        }
        i += 1;
    }
    proof {
        assert(r@ =~= v@);
    }
    r
}

/// Removing position `i` from a duplicate-free sequence removes exactly the
/// element stored there from the set of elements.
proof fn lemma_seq_remove_to_set(s: Seq<KeyCode>, i: int)
    requires
        s.no_duplicates(),
        0 <= i < s.len(),
    ensures
        s.remove(i).no_duplicates(),
        s.remove(i).to_set() == s.to_set().remove(s[i]),
{
    s.remove_ensures(i);
    let t = s.remove(i);
    assert forall|a: int, b: int| 0 <= a < t.len() && 0 <= b < t.len() && a != b implies t[a]
        != t[b] by {
        let a0 = if a < i {
            a
        } else {
            a + 1
        };
        let b0 = if b < i {
            b
        } else {
            b + 1
        };
        assert(t[a] == s[a0] && t[b] == s[b0]);
    }
    assert(t.to_set() =~= s.to_set().remove(s[i])) by {
        assert forall|x: KeyCode| t.to_set().contains(x) implies s.to_set().remove(s[i]).contains(
            x,
        ) by {
            let j = choose|j: int| 0 <= j < t.len() && t[j] == x;
            let j0 = if j < i {
                j
            } else {
                j + 1
            };
            assert(s[j0] == x);
            assert(x != s[i]);
        };
        assert forall|x: KeyCode| s.to_set().remove(s[i]).contains(x) implies t.to_set().contains(
            x,
        ) by {
            let j = choose|j: int| 0 <= j < s.len() && s[j] == x;
            assert(j != i);
            let j1 = if j < i {
                j
            } else {
                j - 1
            };
            assert(t[j1] == x);
        };
    }
}

/// A map from held key code to its press timestamp, stored as a vector of
/// pairs with duplicate-free keys.
#[derive(Debug)]
pub struct KeyMap {
    entries: Vec<(KeyCode, TimeVal)>,
}

/// The position of key `k` in an entry sequence.
pub open spec fn key_index(s: Seq<(KeyCode, TimeVal)>, k: KeyCode) -> int {
    choose|i: int| 0 <= i < s.len() && s[i].0 == k
}

/// The map denoted by an entry sequence with duplicate-free keys.
pub open spec fn entry_map(s: Seq<(KeyCode, TimeVal)>) -> Map<KeyCode, TimeVal> {
    Map::new(
        |k: KeyCode| s.map_values(|e: (KeyCode, TimeVal)| e.0).contains(k),
        |k: KeyCode| s[key_index(s, k)].1,
    )
}

impl View for KeyMap {
    type V = Map<KeyCode, TimeVal>;

    open spec fn view(&self) -> Map<KeyCode, TimeVal> {
        entry_map(self.entry_seq())
    }
}

impl KeyMap {
    /// The stored entries in order.
    pub closed spec fn entry_seq(&self) -> Seq<(KeyCode, TimeVal)> {
        self.entries@
    }

    /// The stored keys in order.
    pub open spec fn key_seq(&self) -> Seq<KeyCode> {
        self.entry_seq().map_values(|e: (KeyCode, TimeVal)| e.0)
    }

    /// No key is stored twice.
    pub open spec fn wf(&self) -> bool {
        self.key_seq().no_duplicates()
    }

    /// The empty map.
    pub fn new() -> (r: KeyMap)
        ensures
            r.wf(),
            r@ == Map::<KeyCode, TimeVal>::empty(),
            r@.dom() == Set::<KeyCode>::empty(),
    {
        let r = KeyMap { entries: Vec::new() };
        proof {
            assert(r.key_seq().len() == 0);
            assert(r@ =~= Map::<KeyCode, TimeVal>::empty());
            assert(r@.dom() =~= Set::<KeyCode>::empty());
        }
        r
    }

    /// Membership test on the keys.
    pub fn contains_key(&self, k: KeyCode) -> (r: bool)
        ensures
            r == self@.dom().contains(k),
    {
        let mut i: usize = 0;
        while i < self.entries.len()
            invariant
                i <= self.entries.len(),
                forall|j: int| 0 <= j < i ==> self.entries@[j].0 != k,
            decreases self.entries.len() - i,
        {
            if self.entries[i].0 == k {
                proof {
                    assert(self.key_seq()[i as int] == k);
                    assert(self.key_seq().contains(k));
                }
                return true;
            }
            i += 1;
        }
        proof {
            assert forall|j: int| 0 <= j < self.key_seq().len() implies self.key_seq()[j] != k by {
                assert(self.entries@[j].0 != k);
            }
            assert(!self.key_seq().contains(k));
        }
        false
    }

    /// Takes a key out, returning its timestamp; `None` when absent.
    pub fn remove(&mut self, k: KeyCode) -> (r: Option<TimeVal>)
        requires
            old(self).wf(),
        ensures
            final(self).wf(),
            final(self)@ == old(self)@.remove(k),
            r == if old(self)@.dom().contains(k) {
                Some(old(self)@[k])
            } else {
                None::<TimeVal>
            },
    {
        let mut i: usize = 0;
        while i < self.entries.len()
            invariant
                i <= self.entries.len(),
                forall|j: int| 0 <= j < i ==> self.entries@[j].0 != k,
                self.entries@ == old(self).entry_seq(),
                old(self).wf(),
            decreases self.entries.len() - i,
        {
            if self.entries[i].0 == k {
                let ghost pre = self.entries@;
                let e = self.entries.remove(i);
                proof {
                    lemma_entries_remove_view(pre, i as int);
                    assert(old(self)@.dom().contains(k)) by {
                        assert(old(self).key_seq()[i as int] == k);
                    }
                    assert(key_index(pre, k) == i) by {
                        let j = key_index(pre, k);
                        assert(0 <= j < pre.len() && pre[j].0 == k) by {
                            assert(pre[i as int].0 == k);
                        }
                        if j != i {
                            assert(old(self).key_seq()[j] == k);
                            assert(old(self).key_seq()[i as int] == k);
                        }
                    }
                    assert(e.1 == old(self)@[k]);
                }
                return Some(e.1);
            }
            i += 1;
        }
        proof {
            assert forall|j: int| 0 <= j < self.key_seq().len() implies self.key_seq()[j] != k by {
                assert(self.entries@[j].0 != k);
            }
            assert(!self.key_seq().contains(k));
            assert(self@ =~= old(self)@.remove(k));
        }
        None
    }

    /// Puts a key in with its timestamp, replacing any entry it had.
    pub fn insert(&mut self, k: KeyCode, v: TimeVal)
        requires
            old(self).wf(),
        ensures
            final(self).wf(),
            final(self)@ == old(self)@.insert(k, v),
    {
        let _ = self.remove(k);
        let ghost mid = *self;
        self.entries.push((k, v));
        proof {
            assert(!mid.key_seq().contains(k)) by {
                assert(!mid@.dom().contains(k));
            }
            // keys stay duplicate-free
            assert(self.key_seq() =~= mid.key_seq().push(k)) by {
                assert(self.key_seq().len() == mid.key_seq().len() + 1);
                assert forall|j: int| 0 <= j < self.key_seq().len() implies self.key_seq()[j]
                    == mid.key_seq().push(k)[j] by {
                    if j < mid.entry_seq().len() {
                        assert(self.entry_seq()[j] == mid.entry_seq()[j]);
                    } else {
                        assert(self.entry_seq()[j] == (k, v));
                    }
                }
            }
            assert(self.key_seq().no_duplicates()) by {
                let s = mid.key_seq();
                assert forall|a: int, b: int|
                    0 <= a < s.push(k).len() && 0 <= b < s.push(k).len() && a != b implies s.push(
                    k,
                )[a] != s.push(k)[b] by {
                    if a < s.len() && b < s.len() {
                        assert(s[a] != s[b]);
                    } else if a < s.len() {
                        assert(s[a] != k) by {
                            if s[a] == k {
                                assert(s.contains(k));
                            }
                        }
                    } else {
                        assert(s[b] != k) by {
                            if s[b] == k {
                                assert(s.contains(k));
                            }
                        }
                    }
                }
            }
            // the view gains exactly the binding k -> v
            assert(self@ =~= mid@.insert(k, v)) by {
                assert forall|x: KeyCode| #![auto] self@.dom().contains(x) implies mid@.insert(
                    k,
                    v,
                ).dom().contains(x) by {
                    let j = choose|j: int| 0 <= j < self.key_seq().len() && self.key_seq()[j] == x;
                    if j < mid.key_seq().len() {
                        assert(mid.key_seq()[j] == x);
                    }
                };
                assert forall|x: KeyCode| #![auto] mid@.insert(k, v).dom().contains(x) implies self
                    @.dom().contains(x) by {
                    if x == k {
                        assert(self.key_seq()[mid.key_seq().len() as int] == k);
                    } else {
                        let j = choose|j: int|
                            0 <= j < mid.key_seq().len() && mid.key_seq()[j] == x;
                        assert(self.key_seq()[j] == x);
                    }
                };
                assert forall|x: KeyCode| #![auto] self@.dom().contains(x) implies self@[x]
                    == mid@.insert(k, v)[x] by {
                    let n = mid.entry_seq().len() as int;
                    if x == k {
                        let j = key_index(self.entry_seq(), k);
                        assert(0 <= j < self.entry_seq().len() && self.entry_seq()[j].0 == k) by {
                            assert(self.entry_seq()[n].0 == k);
                        }
                        if j != n {
                            assert(mid.key_seq()[j] == k);
                            assert(mid.key_seq().contains(k));
                        }
                        assert(self@[x] == v);
                    } else {
                        let j = key_index(self.entry_seq(), x);
                        assert(0 <= j < self.entry_seq().len() && self.entry_seq()[j].0 == x) by {
                            let j0 = choose|j0: int|
                                0 <= j0 < self.key_seq().len() && self.key_seq()[j0] == x;
                            assert(self.entry_seq()[j0].0 == x);
                        }
                        assert(j != n);
                        assert(mid.key_seq()[j] == x);
                        assert(key_index(mid.entry_seq(), x) == j) by {
                            let j1 = key_index(mid.entry_seq(), x);
                            assert(0 <= j1 < mid.entry_seq().len() && mid.entry_seq()[j1].0 == x)
                                by {
                                assert(mid.entry_seq()[j].0 == x);
                            }
                            if j1 != j {
                                assert(mid.key_seq()[j1] == x);
                            }
                        }
                        assert(mid@[x] == mid.entry_seq()[j].1);
                        assert(self@[x] == self.entry_seq()[j].1);
                    }
                };
            }
            assert(mid@.insert(k, v) =~= old(self)@.remove(k).insert(k, v));
            assert(old(self)@.remove(k).insert(k, v) =~= old(self)@.insert(k, v));
        }
    }

    /// The set of held keys.
    pub fn key_set(&self) -> (r: KeySet)
        requires
            self.wf(),
        ensures
            r.wf(),
            r@ == self@.dom(),
            r.seq() == self.key_seq(),
    {
        let mut items: Vec<KeyCode> = Vec::new();
        let mut i: usize = 0;
        while i < self.entries.len()
            invariant
                i <= self.entries.len(),
                items@ == self.key_seq().subrange(0, i as int),
            decreases self.entries.len() - i,
        {
            items.push(self.entries[i].0);
            proof {
                assert(self.key_seq()[i as int] == self.entries@[i as int].0);
                assert(items@ =~= self.key_seq().subrange(0, i + 1 as int));
            }
            i += 1;
        }
        proof {
            assert(items@ =~= self.key_seq());
        }
        let r = KeySet { items };
        proof {
            assert(r@ =~= self@.dom()) by {
                assert forall|x: KeyCode| r@.contains(x) implies self@.dom().contains(x) by {};
                assert forall|x: KeyCode| self@.dom().contains(x) implies r@.contains(x) by {};
            }
        }
        r
    }
}

/// Removing entry `i` from a map vector with duplicate-free keys removes
/// exactly that key's binding from the map view.
proof fn lemma_entries_remove_view(s: Seq<(KeyCode, TimeVal)>, i: int)
    requires
        s.map_values(|e: (KeyCode, TimeVal)| e.0).no_duplicates(),
        0 <= i < s.len(),
    ensures
        s.remove(i).map_values(|e: (KeyCode, TimeVal)| e.0).no_duplicates(),
        entry_map(s.remove(i)) == entry_map(s).remove(s[i].0),
{
    s.remove_ensures(i);
    let t = s.remove(i);
    let ks = s.map_values(|e: (KeyCode, TimeVal)| e.0);
    let kt = t.map_values(|e: (KeyCode, TimeVal)| e.0);
    assert forall|a: int, b: int| 0 <= a < kt.len() && 0 <= b < kt.len() && a != b implies kt[a]
        != kt[b] by {
        let a0 = if a < i {
            a
        } else {
            a + 1
        };
        let b0 = if b < i {
            b
        } else {
            b + 1
        };
        assert(kt[a] == t[a].0 && t[a] == s[a0]);
        assert(kt[b] == t[b].0 && t[b] == s[b0]);
        assert(ks[a0] != ks[b0]);
    }
    assert(entry_map(t) =~= entry_map(s).remove(s[i].0)) by {
        assert forall|x: KeyCode| #![auto] entry_map(t).dom().contains(x) implies entry_map(
            s,
        ).remove(s[i].0).dom().contains(x) by {
            let j = choose|j: int| 0 <= j < kt.len() && kt[j] == x;
            let j0 = if j < i {
                j
            } else {
                j + 1
            };
            assert(t[j] == s[j0]);
            assert(ks[j0] == x);
            assert(ks.contains(x));
            assert(x != s[i].0) by {
                assert(ks[i] == s[i].0);
                if j0 != i {
                    assert(ks[j0] != ks[i]);
                }
            }
        };
        assert forall|x: KeyCode| #![auto] entry_map(s).remove(s[i].0).dom().contains(
            x,
        ) implies entry_map(t).dom().contains(x) by {
            let j = choose|j: int| 0 <= j < ks.len() && ks[j] == x;
            assert(j != i) by {
                assert(ks[i] == s[i].0);
            }
            let j1 = if j < i {
                j
            } else {
                j - 1
            };
            assert(t[j1] == s[j]);
            assert(kt[j1] == x);
        };
        assert forall|x: KeyCode| #![auto] entry_map(t).dom().contains(x) implies entry_map(t)[x]
            == entry_map(s).remove(s[i].0)[x] by {
            let j = key_index(t, x);
            assert(0 <= j < t.len() && t[j].0 == x) by {
                let jj = choose|jj: int| 0 <= jj < kt.len() && kt[jj] == x;
                assert(t[jj].0 == x);
            }
            let j0 = if j < i {
                j
            } else {
                j + 1
            };
            assert(t[j] == s[j0]);
            assert(key_index(s, x) == j0) by {
                let l = key_index(s, x);
                assert(0 <= l < s.len() && s[l].0 == x) by {
                    assert(s[j0].0 == x);
                }
                if l != j0 {
                    assert(ks[l] == x && ks[j0] == x);
                }
            }
        };
    }
}

} // verus!

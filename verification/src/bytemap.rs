//! A map whose keys are byte strings.

use vstd::prelude::*;

use crate::bytes::copy_of;
use crate::bytes::same_bytes;

verus! {

/// A map from byte strings to values.
#[derive(Debug)]
pub struct ByteMap<V> {
    keys: Vec<Vec<u8>>,
    values: Vec<V>,
}

impl<V> ByteMap<V> {
    /// As many values as keys, and no key twice.
    pub closed spec fn wf(&self) -> bool {
        &&& self.keys@.len() == self.values@.len()
        &&& forall|i: int, j: int|
            0 <= i < j < self.keys@.len() ==> (#[trigger] self.keys@[i])@ != (
            #[trigger] self.keys@[j])@
    }

    spec fn at(&self, key: Seq<u8>, i: int) -> bool {
        0 <= i < self.keys@.len() && self.keys@[i]@ == key
    }
}

impl<V> View for ByteMap<V> {
    type V = Map<Seq<u8>, V>;

    closed spec fn view(&self) -> Map<Seq<u8>, V> {
        Map::new(
            |key: Seq<u8>| exists|i: int| self.at(key, i),
            |key: Seq<u8>| self.values@[choose|i: int| self.at(key, i)],
        )
    }
}

spec fn same_at<V>(a: Map<Seq<u8>, V>, b: Map<Seq<u8>, V>, k: Seq<u8>) -> bool {
    a.contains_key(k) == b.contains_key(k) && (a.contains_key(k) ==> a[k] == b[k])
}

proof fn lemma_same_map<V>(a: Map<Seq<u8>, V>, b: Map<Seq<u8>, V>)
    requires
        forall|k: Seq<u8>| same_at(a, b, k),
    ensures
        a == b,
{
    assert forall|k: Seq<u8>| #[trigger] a.dom().contains(k) == b.dom().contains(k) by {
        assert(same_at(a, b, k));
    }
    assert(a.dom() =~= b.dom());
    assert forall|k: Seq<u8>| #[trigger] a.dom().contains(k) implies a[k] == b[k] by {
        assert(same_at(a, b, k));
    }
    assert(a =~= b);
}

impl<V> ByteMap<V> {
    proof fn lemma_at(&self, key: Seq<u8>, i: int)
        requires
            self.wf(),
            self.at(key, i),
        ensures
            self@.contains_key(key),
            self@[key] == self.values@[i],
    {
        let j = choose|j: int| self.at(key, j);
        assert(self.at(key, j));
    }

    /// The empty map.
    pub fn new() -> (r: Self)
        ensures
            r.wf(),
            r@ == Map::<Seq<u8>, V>::empty(),
    {
        let r = ByteMap { keys: Vec::new(), values: Vec::new() };
        assert(r@ =~= Map::<Seq<u8>, V>::empty());
        r
    }

    fn position(&self, key: &[u8]) -> (r: Option<usize>)
        requires
            self.wf(),
        ensures
            match r {
                Some(i) => self.at(key@, i as int) && self@.contains_key(key@) && self@[key@]
                    == self.values@[i as int],
                None => !self@.contains_key(key@),
            },
    {
        let mut i: usize = 0;
        while i < self.keys.len()
            invariant
                self.wf(),
                i <= self.keys@.len(),
                forall|k: int| 0 <= k < i ==> (#[trigger] self.keys@[k])@ != key@,
            decreases self.keys@.len() - i,
        {
            if same_bytes(&self.keys[i], key) {
                proof {
                    self.lemma_at(key@, i as int);
                }
                return Some(i);
            }
            i = i + 1;
        }
        None
    }

    /// Whether the map holds `key`.
    pub fn contains_key(&self, key: &[u8]) -> (r: bool)
        requires
            self.wf(),
        ensures
            r == self@.contains_key(key@),
    {
        self.position(key).is_some()
    }

    /// The value of `key`.
    pub fn get(&self, key: &[u8]) -> (r: Option<&V>)
        requires
            self.wf(),
        ensures
            match r {
                Some(v) => self@.contains_key(key@) && *v == self@[key@],
                None => !self@.contains_key(key@),
            },
    {
        match self.position(key) {
            Some(i) => Some(&self.values[i]),
            None => None,
        }
    }

    /// Remove `key` and hand out its value.
    pub fn remove(&mut self, key: &[u8]) -> (r: Option<V>)
        requires
            old(self).wf(),
        ensures
            final(self).wf(),
            final(self)@ == old(self)@.remove(key@),
            match r {
                Some(v) => old(self)@.contains_key(key@) && v == old(self)@[key@],
                None => !old(self)@.contains_key(key@),
            },
    {
        match self.position(key) {
            None => {
                assert(self@ =~= old(self)@.remove(key@));
                None
            },
            Some(i) => {
                let _ = self.keys.remove(i);
                let v = self.values.remove(i);
                proof {
                    let a = *old(self);
                    let b = *self;
                    assert forall|p: int, q: int| 0 <= p < q < b.keys@.len() implies (
                    #[trigger] b.keys@[p])@ != (#[trigger] b.keys@[q])@ by {
                        let p0 = if p < i { p } else { p + 1 };
                        let q0 = if q < i { q } else { q + 1 };
                        assert(b.keys@[p] == a.keys@[p0]);
                        assert(b.keys@[q] == a.keys@[q0]);
                    }
                    assert(b.wf());
                    let want = a@.remove(key@);
                    assert forall|k: Seq<u8>| same_at(b@, want, k) by {
                        if b@.contains_key(k) {
                            let p = choose|p: int| b.at(k, p);
                            assert(b.at(k, p));
                            let p0 = if p < i { p } else { p + 1 };
                            assert(a.at(k, p0));
                            a.lemma_at(k, p0);
                            b.lemma_at(k, p);
                            assert(a.keys@[i as int]@ != a.keys@[p0]@);
                        }
                        if a@.contains_key(k) && k != key@ {
                            let p0 = choose|p: int| a.at(k, p);
                            assert(a.at(k, p0));
                            let p = if p0 < i { p0 } else { p0 - 1 };
                            assert(b.keys@[p] == a.keys@[p0]);
                            assert(b.at(k, p));
                            b.lemma_at(k, p);
                        }
                    }
                    lemma_same_map(b@, want);
                }
                Some(v)
            },
        }
    }

    /// Give `key` the value `value`, in place of any that it had.
    pub fn insert(&mut self, key: &[u8], value: V)
        requires
            old(self).wf(),
        ensures
            final(self).wf(),
            final(self)@ == old(self)@.insert(key@, value),
    {
        let _ = self.remove(key);
        let ghost a = *self;
        let k = copy_of(key, 0, key.len());
        assert(k@ =~= key@);
        self.keys.push(k);
        self.values.push(value);
        proof {
            let b = *self;
            let n = a.keys@.len() as int;
            assert forall|p: int, q: int| 0 <= p < q < b.keys@.len() implies (
            #[trigger] b.keys@[p])@ != (#[trigger] b.keys@[q])@ by {
                assert(b.keys@[p] == a.keys@[p]);
                if q == n {
                    if b.keys@[p]@ == key@ {
                        assert(a.at(key@, p));
                        a.lemma_at(key@, p);
                    }
                } else {
                    assert(b.keys@[q] == a.keys@[q]);
                }
            }
            assert(b.wf());
            assert(b.at(key@, n));
            b.lemma_at(key@, n);
            let want = a@.insert(key@, value);
            assert forall|x: Seq<u8>| same_at(b@, want, x) by {
                if b@.contains_key(x) && x != key@ {
                    let p = choose|p: int| b.at(x, p);
                    assert(b.at(x, p));
                    assert(a.at(x, p));
                    a.lemma_at(x, p);
                    b.lemma_at(x, p);
                }
                if a@.contains_key(x) {
                    let p = choose|p: int| a.at(x, p);
                    assert(a.at(x, p));
                    assert(b.keys@[p] == a.keys@[p]);
                    assert(b.at(x, p));
                    b.lemma_at(x, p);
                    a.lemma_at(x, p);
                }
            }
            lemma_same_map(b@, want);
            assert(want =~= old(self)@.insert(key@, value));
        }
    }

    /// Copies of the keys, each once.
    pub fn keys(&self) -> (r: Vec<Vec<u8>>)
        requires
            self.wf(),
        ensures
            forall|i: int| 0 <= i < r@.len() ==> self@.contains_key((#[trigger] r@[i])@),
            forall|k: Seq<u8>|
                #[trigger] self@.contains_key(k) ==> exists|i: int|
                    0 <= i < r@.len() && (#[trigger] r@[i])@ == k,
            forall|i: int, j: int|
                0 <= i < j < r@.len() ==> (#[trigger] r@[i])@ != (#[trigger] r@[j])@,
    {
        let mut r: Vec<Vec<u8>> = Vec::new();
        let mut i: usize = 0;
        while i < self.keys.len()
            invariant
                self.wf(),
                i <= self.keys@.len(),
                r@.len() == i,
                forall|k: int| 0 <= k < i ==> (#[trigger] r@[k])@ == self.keys@[k]@,
            decreases self.keys@.len() - i,
        {
            let k = copy_of(&self.keys[i], 0, self.keys[i].len());
            assert(k@ =~= self.keys@[i as int]@);
            r.push(k);
            i = i + 1;
        }
        proof {
            assert forall|p: int| 0 <= p < r@.len() implies self@.contains_key(
                (#[trigger] r@[p])@,
            ) by {
                self.lemma_at(r@[p]@, p);
            }
            assert forall|k: Seq<u8>| #[trigger] self@.contains_key(k) implies exists|p: int|
                0 <= p < r@.len() && (#[trigger] r@[p])@ == k by {
                let p = choose|p: int| self.at(k, p);
                assert(self.at(k, p));
                assert(r@[p]@ == k);
            }
        }
        r
    }
}

} // verus!

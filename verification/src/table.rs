//! A string-keyed table that remembers the order in which keys arrived.
//!
//! Lookups go through a hash map; iteration goes through the key list. The
//! two are kept in step: every key is listed exactly once, and exactly the
//! listed keys are in the map.
use vstd::hash_map::StringHashMap;
use vstd::prelude::*;

verus! {

#[verifier::reject_recursive_types(V)]
pub struct NameTable<V> {
    map: StringHashMap<V>,
    names: Vec<String>,
}

impl<V> NameTable<V> {
    #[verifier::type_invariant]
    spec fn keys_in_step(self) -> bool {
        &&& forall|i: int|
            0 <= i < self.names.len() ==> self.map@.contains_key(#[trigger] self.names@[i]@)
        &&& forall|k: Seq<char>|
            #[trigger] self.map@.contains_key(k) ==> self.key_seq().contains(k)
        &&& forall|i: int, j: int|
            0 <= i < j < self.names.len() ==> self.names@[i]@ != self.names@[j]@
    }

    /// The keys, in the order they were first inserted.
    pub closed spec fn key_seq(&self) -> Seq<Seq<char>> {
        self.names@.map_values(|s: String| s@)
    }

    pub fn new() -> (t: Self)
        ensures
            t@ == Map::<Seq<char>, V>::empty(),
            t.key_seq() == Seq::<Seq<char>>::empty(),
    {
        let t = NameTable { map: StringHashMap::new(), names: Vec::new() };
        assert(t.key_seq() =~= Seq::<Seq<char>>::empty());
        t
    }

    /// Number of keys. Also states how the key list and the map agree.
    pub fn len(&self) -> (n: usize)
        ensures
            n == self.key_seq().len(),
            forall|k: Seq<char>| #[trigger] self@.contains_key(k) <==> self.key_seq().contains(k),
            forall|i: int, j: int|
                0 <= i < j < self.key_seq().len() ==> self.key_seq()[i] != self.key_seq()[j],
    {
        proof {
            use_type_invariant(self);
            assert forall|k: Seq<char>| self.key_seq().contains(k) implies #[trigger] self@.contains_key(k) by {
                let i = choose|i: int| 0 <= i < self.key_seq().len() && self.key_seq()[i] == k;
                assert(self.names@[i]@ == k);
            }
        }
        self.names.len()
    }

    /// The `i`-th key in insertion order.
    pub fn key_at(&self, i: usize) -> (k: &String)
        requires
            i < self.key_seq().len(),
        ensures
            k@ == self.key_seq()[i as int],
            self@.contains_key(k@),
    {
        proof {
            use_type_invariant(self);
        }
        &self.names[i]
    }

    pub fn contains_key(&self, k: &str) -> (b: bool)
        ensures
            b == self@.contains_key(k@),
    {
        self.map.contains_key(k)
    }

    pub fn get(&self, k: &str) -> (r: Option<&V>)
        ensures
            match r {
                Some(v) => self@.contains_key(k@) && *v == self@[k@],
                None => !self@.contains_key(k@),
            },
    {
        self.map.get(k)
    }

    /// Insert or overwrite; a new key goes to the end of the key list.
    pub fn insert(&mut self, k: String, v: V)
        ensures
            final(self)@ == old(self)@.insert(k@, v),
            final(self).key_seq() == if old(self)@.contains_key(k@) {
                old(self).key_seq()
            } else {
                old(self).key_seq().push(k@)
            },
    {
        proof {
            use_type_invariant(&*self);
        }
        let mut tmp = NameTable::new();
        std::mem::swap(self, &mut tmp);
        let NameTable { mut map, mut names } = tmp;
        let ghost old_names = names@;
        let ghost old_map = map@;
        let present = map.contains_key(k.as_str());
        if !present {
            let key = k.clone();
            names.push(key);
        }
        map.insert(k, v);
        proof {
            assert(forall|i: int|
                0 <= i < old_names.len() ==> old_map.contains_key(#[trigger] old_names[i]@));
            assert(forall|i: int, j: int|
                0 <= i < j < old_names.len() ==> old_names[i]@ != old_names[j]@);
            assert forall|i: int| 0 <= i < names.len() implies map@.contains_key(
                #[trigger] names@[i]@,
            ) by {
                if i < old_names.len() {
                    assert(names@[i] == old_names[i]);
                }
            }
            assert forall|i: int, j: int|
                0 <= i < j < names.len() implies names@[i]@ != names@[j]@ by {
                assert(names@[i] == old_names[i]);
                if j < old_names.len() {
                    assert(names@[j] == old_names[j]);
                } else {
                    assert(old_map.contains_key(old_names[i]@));
                }
            }
            let ghost newk = names@.map_values(|s: String| s@);
            let ghost oldk = old_names.map_values(|s: String| s@);
            assert forall|kk: Seq<char>| #[trigger] map@.contains_key(kk) implies newk.contains(kk) by {
                if kk != k@ || present {
                    assert(old_map.contains_key(kk));
                    assert(oldk.contains(kk));
                    let i = choose|i: int| 0 <= i < oldk.len() && oldk[i] == kk;
                    assert(newk[i] == kk);
                } else {
                    assert(newk[names.len() - 1] == kk);
                }
            }
        }
        assert(forall|i: int|
            0 <= i < names.len() ==> map@.contains_key(#[trigger] names@[i]@));
        assert(forall|i: int, j: int| 0 <= i < j < names.len() ==> names@[i]@ != names@[j]@);
        *self = NameTable { map, names };
        proof {
            if present {
                assert(self.key_seq() =~= old(self).key_seq());
            } else {
                assert(self.key_seq() =~= old(self).key_seq().push(k@));
            }
        }
    }

    /// Insert only when the key is absent (`entry(k).or_insert(v)`).
    pub fn insert_if_absent(&mut self, k: String, v: V)
        ensures
            final(self)@ == if old(self)@.contains_key(k@) {
                old(self)@
            } else {
                old(self)@.insert(k@, v)
            },
            final(self).key_seq() == if old(self)@.contains_key(k@) {
                old(self).key_seq()
            } else {
                old(self).key_seq().push(k@)
            },
    {
        if !self.contains_key(k.as_str()) {
            self.insert(k, v);
        }
    }
}

impl<V> View for NameTable<V> {
    type V = Map<Seq<char>, V>;

    closed spec fn view(&self) -> Map<Seq<char>, V> {
        self.map@
    }
}

} // verus!

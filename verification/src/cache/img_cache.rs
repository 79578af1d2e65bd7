use vstd::prelude::*;

verus! {

/// The map that a list of (name, image) pairs stands for.
pub open spec fn images_of(entries: Seq<(String, Vec<u8>)>) -> Map<Seq<char>, Seq<u8>>
    decreases entries.len(),
{
    if entries.len() == 0 {
        Map::empty()
    } else {
        images_of(entries.drop_last()).insert(entries.last().0@, entries.last().1@)
    }
}

/// No name occurs twice.
pub open spec fn names_distinct(entries: Seq<(String, Vec<u8>)>) -> bool {
    forall|i: int, j: int|
        0 <= i < j < entries.len() ==> (#[trigger] entries[i]).0@ != (#[trigger] entries[j]).0@
}

proof fn lemma_images_of_contains(entries: Seq<(String, Vec<u8>)>, k: Seq<char>)
    requires
        names_distinct(entries),
    ensures
        images_of(entries).contains_key(k) <==> exists|i: int|
            0 <= i < entries.len() && (#[trigger] entries[i]).0@ == k,
        forall|i: int|
            0 <= i < entries.len() && (#[trigger] entries[i]).0@ == k ==> images_of(entries)[k]
                == entries[i].1@,
    decreases entries.len(),
{
    if entries.len() > 0 {
        let init = entries.drop_last();
        assert forall|i: int, j: int| 0 <= i < j < init.len() implies (#[trigger] init[i]).0@
            != (#[trigger] init[j]).0@ by {
            assert(init[i] == entries[i] && init[j] == entries[j]);
        }
        lemma_images_of_contains(init, k);
        if images_of(entries).contains_key(k) && entries.last().0@ != k {
            let i = choose|i: int| 0 <= i < init.len() && (#[trigger] init[i]).0@ == k;
            assert(entries[i] == init[i]);
        }
        assert forall|i: int|
            0 <= i < entries.len() && (#[trigger] entries[i]).0@ == k implies images_of(entries)[k]
            == entries[i].1@ by {
            if i < entries.len() - 1 {
                assert(entries[i] == init[i]);
                assert(entries[entries.len() - 1] == entries.last());
            }
        }
        if exists|i: int| 0 <= i < entries.len() && (#[trigger] entries[i]).0@ == k {
            let i = choose|i: int| 0 <= i < entries.len() && (#[trigger] entries[i]).0@ == k;
            if i < entries.len() - 1 {
                assert(entries[i] == init[i]);
            }
        }
    }
}

proof fn lemma_images_of_update(entries: Seq<(String, Vec<u8>)>, i: int, p: (String, Vec<u8>))
    requires
        names_distinct(entries),
        0 <= i < entries.len(),
        entries[i].0@ == p.0@,
    ensures
        names_distinct(entries.update(i, p)),
        images_of(entries.update(i, p)) == images_of(entries).insert(p.0@, p.1@),
    decreases entries.len(),
{
    let upd = entries.update(i, p);
    assert forall|x: int, y: int| 0 <= x < y < upd.len() implies (#[trigger] upd[x]).0@
        != (#[trigger] upd[y]).0@ by {
        assert(upd[x].0@ == entries[x].0@);
        assert(upd[y].0@ == entries[y].0@);
    }
    let init = entries.drop_last();
    assert forall|x: int, y: int| 0 <= x < y < init.len() implies (#[trigger] init[x]).0@
        != (#[trigger] init[y]).0@ by {
        assert(init[x] == entries[x] && init[y] == entries[y]);
    }
    if i == entries.len() - 1 {
        assert(upd.drop_last() =~= init);
        assert(images_of(entries).insert(p.0@, p.1@) =~= images_of(init).insert(p.0@, p.1@));
    } else {
        lemma_images_of_update(init, i, p);
        assert(upd.drop_last() =~= init.update(i, p));
        assert(upd.last() == entries.last());
        assert(entries.last().0@ != p.0@) by {
            assert(entries[entries.len() - 1] == entries.last());
        }
        assert(images_of(upd) =~= images_of(entries).insert(p.0@, p.1@));
    }
}

proof fn lemma_images_of_remove(entries: Seq<(String, Vec<u8>)>, i: int)
    requires
        names_distinct(entries),
        0 <= i < entries.len(),
    ensures
        names_distinct(entries.remove(i)),
        images_of(entries.remove(i)) == images_of(entries).remove(entries[i].0@),
    decreases entries.len(),
{
    let r = entries.remove(i);
    entries.remove_ensures(i);
    assert forall|x: int, y: int| 0 <= x < y < r.len() implies (#[trigger] r[x]).0@
        != (#[trigger] r[y]).0@ by {
        let jx = if x < i { x } else { x + 1 };
        let jy = if y < i { y } else { y + 1 };
        assert(r[x] == entries[jx] && r[y] == entries[jy]);
    }
    let init = entries.drop_last();
    assert forall|x: int, y: int| 0 <= x < y < init.len() implies (#[trigger] init[x]).0@
        != (#[trigger] init[y]).0@ by {
        assert(init[x] == entries[x] && init[y] == entries[y]);
    }
    let k = entries[i].0@;
    if i == entries.len() - 1 {
        assert(r =~= init);
        lemma_images_of_contains(init, k);
        assert forall|x: int| 0 <= x < init.len() implies (#[trigger] init[x]).0@ != k by {
            assert(init[x] == entries[x]);
        }
        assert(images_of(r) =~= images_of(entries).remove(k));
    } else {
        lemma_images_of_remove(init, i);
        assert(init.remove(i) =~= r.drop_last());
        assert(r.last() == entries.last());
        assert(entries.last().0@ != k) by {
            assert(entries[entries.len() - 1] == entries.last());
        }
        assert(init[i] == entries[i]);
        assert(images_of(r) =~= images_of(entries).remove(k));
    }
}

fn copy_bytes(bytes: &Vec<u8>) -> (copy: Vec<u8>)
    ensures
        copy@ == bytes@,
{
    let mut copy: Vec<u8> = Vec::new();
    let mut i: usize = 0;
    while i < bytes.len()
        invariant
            i <= bytes.len(),
            copy@ == bytes@.subrange(0, i as int),
        decreases bytes.len() - i,
    {
        copy.push(bytes[i]);
        proof {
            assert(bytes@.subrange(0, i + 1 as int) =~= bytes@.subrange(0, i as int).push(bytes@[i as int]));
        }
        i = i + 1;
    }
    proof {
        assert(bytes@.subrange(0, bytes@.len() as int) =~= bytes@);
    }
    copy
}

/// Images by name.
pub struct ImgCache {
    store: Vec<(String, Vec<u8>)>,
}

impl View for ImgCache {
    type V = Map<Seq<char>, Seq<u8>>;

    /// The images held, by name.
    closed spec fn view(&self) -> Map<Seq<char>, Seq<u8>> {
        images_of(self.store@)
    }
}

impl ImgCache {
    #[verifier::type_invariant]
    spec fn names_unique(&self) -> bool {
        names_distinct(self.store@)
    }

    pub fn new() -> (cache: Self)
        ensures
            cache@ == Map::<Seq<char>, Seq<u8>>::empty(),
    {
        ImgCache { store: Vec::new() }
    }

    fn index_of(&self, key: &String) -> (r: Option<usize>)
        ensures
            match r {
                Some(i) => i < self.store.len() && self.store@[i as int].0@ == key@,
                None => forall|i: int| 0 <= i < self.store.len() ==> (#[trigger] self.store@[i]).0@ != key@,
            },
    {
        let mut i: usize = 0;
        while i < self.store.len()
            invariant
                i <= self.store.len(),
                forall|j: int| 0 <= j < i ==> (#[trigger] self.store@[j]).0@ != key@,
            decreases self.store.len() - i,
        {
            if self.store[i].0 == *key {
                return Some(i);
            }
            i = i + 1;
        }
        None
    }

    /// Stores `value` under `key`, replacing what was there.
    pub fn set(&mut self, key: String, value: Vec<u8>)
        ensures
            final(self)@ == old(self)@.insert(key@, value@),
    {
        proof {
            use_type_invariant(&*self);
        }
        let ghost before = self.store@;
        let found = self.index_of(&key);
        let mut store: Vec<(String, Vec<u8>)> = Vec::new();
        std::mem::swap(&mut store, &mut self.store);
        match found {
            Some(i) => {
                proof {
                    lemma_images_of_update(before, i as int, (key, value));
                }
                store.set(i, (key, value));
                self.store = store;
            },
            None => {
                let ghost k = key@;
                let ghost v = value@;
                store.push((key, value));
                proof {
                    let s = store@;
                    assert(s.drop_last() =~= before);
                    assert forall|x: int, y: int| 0 <= x < y < s.len() implies (#[trigger] s[x]).0@
                        != (#[trigger] s[y]).0@ by {
                        assert(s[x] == before[x] || x == before.len());
                        if y == before.len() {
                            assert(s[x] == before[x]);
                        } else {
                            assert(s[x] == before[x] && s[y] == before[y]);
                        }
                    }
                    assert(images_of(s) == images_of(before).insert(k, v));
                }
                self.store = store;
            },
        }
    }

    /// Forgets the image stored under `key`, if any.
    pub fn remove(&mut self, key: &str)
        ensures
            final(self)@ == old(self)@.remove(key@),
    {
        proof {
            use_type_invariant(&*self);
        }
        let ghost before = self.store@;
        let owned = key.to_owned();
        match self.index_of(&owned) {
            Some(i) => {
                proof {
                    lemma_images_of_remove(before, i as int);
                }
                let mut store: Vec<(String, Vec<u8>)> = Vec::new();
                std::mem::swap(&mut store, &mut self.store);
                store.remove(i);
                self.store = store;
            },
            None => {
                proof {
                    lemma_images_of_contains(before, key@);
                    assert(!images_of(before).contains_key(key@));
                    assert(images_of(before).remove(key@) =~= images_of(before));
                }
            },
        }
    }

    /// A copy of the image stored under `key`, or `None` where there is none.
    pub fn get(&self, key: &str) -> (r: Option<Vec<u8>>)
        ensures
            r is Some <==> self@.contains_key(key@),
            r matches Some(v) ==> v@ == self@[key@],
    {
        proof {
            use_type_invariant(self);
            lemma_images_of_contains(self.store@, key@);
        }
        let owned = key.to_owned();
        match self.index_of(&owned) {
            Some(i) => Some(copy_bytes(&self.store[i].1)),
            None => None,
        }
    }
}

} // verus!

use vstd::prelude::*;
use crate::strutil::str_eq;

verus! {

/// Index of the first entry of `keys`, at or after `i`, that reads as `k`;
/// -1 if there is none.
pub open spec fn find_key(keys: Seq<String>, k: Seq<char>, i: int) -> int
    decreases keys.len() - i,
{
    if i < 0 || i >= keys.len() {
        -1
    } else if keys[i]@ == k {
        i
    } else {
        find_key(keys, k, i + 1)
    }
}

pub proof fn lemma_find_key_props(keys: Seq<String>, k: Seq<char>, i: int)
    requires
        0 <= i,
    ensures
        find_key(keys, k, i) == -1 || i <= find_key(keys, k, i) < keys.len(),
        find_key(keys, k, i) >= 0 ==> keys[find_key(keys, k, i)]@ == k,
        find_key(keys, k, i) >= 0 ==> forall|j: int|
            i <= j < find_key(keys, k, i) ==> keys[j]@ != k,
        find_key(keys, k, i) == -1 ==> forall|j: int| i <= j < keys.len() ==> keys[j]@ != k,
    decreases keys.len() - i,
{
    if i < keys.len() && keys[i]@ != k {
        lemma_find_key_props(keys, k, i + 1);
    }
}

/// Appending a fresh key leaves earlier lookups alone and makes the new
/// key found at the end.
pub proof fn lemma_find_key_push(keys: Seq<String>, k: Seq<char>, knew: String, i: int)
    requires
        0 <= i <= keys.len(),
    ensures
        find_key(keys, k, i) >= 0 ==> find_key(keys.push(knew), k, i) == find_key(keys, k, i),
        find_key(keys, k, i) == -1 && knew@ == k ==> find_key(keys.push(knew), k, i)
            == keys.len(),
        find_key(keys, k, i) == -1 && knew@ != k ==> find_key(keys.push(knew), k, i) == -1,
    decreases keys.len() - i,
{
    if i < keys.len() {
        assert(keys.push(knew)[i] == keys[i]);
        if keys[i]@ != k {
            lemma_find_key_push(keys, k, knew, i + 1);
        }
    } else {
        assert(keys.push(knew)[i] == knew);
        assert(find_key(keys.push(knew), k, i + 1) == -1);
    }
}

/// Replacing a value leaves every lookup position alone (keys unchanged).
pub proof fn lemma_find_key_unchanged(keys1: Seq<String>, keys2: Seq<String>, k: Seq<char>, i: int)
    requires
        keys1 == keys2,
    ensures
        find_key(keys1, k, i) == find_key(keys2, k, i),
{
}

/// What `insert` does to lookups: the inserted key now reads as the new
/// value and every other key reads as before.
pub proof fn lemma_insert_effect<V>(pre: KvMap<V>, post: KvMap<V>, kstr: String, v: V)
    requires
        pre.wf(),
        pre.spec_find(kstr@) >= 0 ==> post.keys@ == pre.keys@ && post.vals@ == pre.vals@.update(
            pre.spec_find(kstr@),
            v,
        ),
        pre.spec_find(kstr@) == -1 ==> post.keys@ == pre.keys@.push(kstr) && post.vals@
            == pre.vals@.push(v),
    ensures
        post.wf(),
        post.spec_get(kstr@) == Some(v),
        forall|k2: Seq<char>| k2 != kstr@ ==> post.spec_get(k2) == pre.spec_get(k2),
        pre.spec_contains(kstr@) ==> post.keys@.len() == pre.keys@.len(),
        !pre.spec_contains(kstr@) ==> post.keys@.len() == pre.keys@.len() + 1,
        forall|i: int|
            0 <= i < post.vals@.len() ==> #[trigger] post.vals@[i] == v || (0 <= i
                < pre.vals@.len() && post.vals@[i] == pre.vals@[i]),
{
    lemma_find_key_props(pre.keys@, kstr@, 0);
    if pre.spec_find(kstr@) >= 0 {
        assert(post.spec_find(kstr@) == pre.spec_find(kstr@));
        assert forall|k2: Seq<char>| k2 != kstr@ implies post.spec_get(k2) == pre.spec_get(
            k2,
        ) by {
            lemma_find_key_props(pre.keys@, k2, 0);
            if pre.spec_find(k2) >= 0 {
                assert(pre.spec_find(k2) != pre.spec_find(kstr@));
            }
        }
    } else {
        lemma_find_key_push(pre.keys@, kstr@, kstr, 0);
        assert(post.spec_find(kstr@) == pre.keys@.len());
        assert(post.vals@[pre.keys@.len() as int] == v);
        assert forall|k2: Seq<char>| k2 != kstr@ implies post.spec_get(k2) == pre.spec_get(
            k2,
        ) by {
            lemma_find_key_push(pre.keys@, k2, kstr, 0);
            lemma_find_key_props(pre.keys@, k2, 0);
            if pre.spec_find(k2) >= 0 {
                assert(post.vals@[pre.spec_find(k2)] == pre.vals@[pre.spec_find(k2)]);
            }
        }
    }
}

/// What replacing the value at a found index does to lookups.
pub proof fn lemma_update_val_effect<V>(pre: KvMap<V>, post: KvMap<V>, k: Seq<char>, i: int, v: V)
    requires
        pre.wf(),
        i == pre.spec_find(k),
        0 <= i < pre.vals@.len(),
        post.keys@ == pre.keys@,
        post.vals@ == pre.vals@.update(i, v),
    ensures
        post.wf(),
        post.spec_get(k) == Some(v),
        forall|k2: Seq<char>| k2 != k ==> post.spec_get(k2) == pre.spec_get(k2),
        post.keys@.len() == pre.keys@.len(),
{
    lemma_find_key_props(pre.keys@, k, 0);
    assert(post.spec_find(k) == pre.spec_find(k));
    assert forall|k2: Seq<char>| k2 != k implies post.spec_get(k2) == pre.spec_get(k2) by {
        lemma_find_key_props(pre.keys@, k2, 0);
        if pre.spec_find(k2) >= 0 {
            assert(pre.keys@[pre.spec_find(k2)]@ == k2);
            assert(pre.keys@[i]@ == k);
            assert(pre.spec_find(k2) != i);
        }
    }
}

/// An insertion-ordered map from string keys to values, backed by two
/// parallel vectors. A lookup takes the first matching key; inserting an
/// existing key replaces that entry's value in place, so iteration order
/// is the order of first insertion.
pub struct KvMap<V> {
    pub keys: Vec<String>,
    pub vals: Vec<V>,
}

impl<V> KvMap<V> {
    pub open spec fn wf(&self) -> bool {
        self.keys@.len() == self.vals@.len()
    }

    pub open spec fn spec_find(&self, k: Seq<char>) -> int {
        find_key(self.keys@, k, 0)
    }

    pub open spec fn spec_contains(&self, k: Seq<char>) -> bool {
        self.spec_find(k) >= 0
    }

    pub open spec fn spec_get(&self, k: Seq<char>) -> Option<V> {
        if self.spec_find(k) >= 0 {
            Some(self.vals@[self.spec_find(k)])
        } else {
            None
        }
    }

    pub fn new() -> (r: KvMap<V>)
        ensures
            r.wf(),
            r.keys@.len() == 0,
            r.vals@.len() == 0,
    {
        KvMap { keys: Vec::new(), vals: Vec::new() }
    }

    pub fn len(&self) -> (r: usize)
        requires
            self.wf(),
        ensures
            r == self.keys@.len(),
    {
        self.keys.len()
    }

    #[verifier::loop_isolation(false)]
    pub fn find(&self, k: &str) -> (r: Option<usize>)
        requires
            self.wf(),
        ensures
            match r {
                Option::Some(i) => self.spec_find(k@) == i && i < self.keys@.len()
                    && self.keys@[i as int]@ == k@,
                Option::None => self.spec_find(k@) == -1,
            },
    {
        let n = self.keys.len();
        let mut i: usize = 0;
        while i < n
            invariant
                0 <= i <= n,
                find_key(self.keys@, k@, 0) == find_key(self.keys@, k@, i as int),
            decreases n - i,
        {
            if str_eq(self.keys[i].as_str(), k) {
                return Some(i);
            }
            i = i + 1;
        }
        None
    }

    pub fn get(&self, k: &str) -> (r: Option<&V>)
        requires
            self.wf(),
        ensures
            match r {
                Option::Some(v) => self.spec_find(k@) >= 0 && *v == self.vals@[self.spec_find(
                    k@,
                )],
                Option::None => self.spec_find(k@) == -1,
            },
    {
        match self.find(k) {
            Some(i) => Some(&self.vals[i]),
            None => None,
        }
    }

    pub fn insert(&mut self, k: String, v: V)
        requires
            old(self).wf(),
        ensures
            final(self).wf(),
            old(self).spec_find(k@) >= 0 ==> final(self).keys@ == old(self).keys@
                && final(self).vals@ == old(self).vals@.update(old(self).spec_find(k@), v),
            old(self).spec_find(k@) == -1 ==> final(self).keys@ == old(self).keys@.push(k)
                && final(self).vals@ == old(self).vals@.push(v),
    {
        proof {
            lemma_find_key_props(self.keys@, k@, 0);
        }
        match self.find(k.as_str()) {
            Some(i) => {
                self.vals[i] = v;
            },
            None => {
                self.keys.push(k);
                self.vals.push(v);
            },
        }
    }
}

} // verus!

use vstd::prelude::*;
use vstd::string::StrSliceExecFns;

verus! {

/// Number of buckets; fixed, the map never resizes.
pub const MAX_SIZE: usize = 256;

/// Sum of the code points of a key, the basis of the bucket choice.
pub open spec fn char_sum(s: Seq<char>) -> int
    decreases s.len(),
{
    if s.len() == 0 {
        0
    } else {
        char_sum(s.drop_last()) + s.last() as int
    }
}

/// The bucket a key hashes to.
pub open spec fn bucket_of(k: Seq<char>) -> int {
    char_sum(k) % (MAX_SIZE as int)
}

/// First value filed under `k` in an association chain, if any.
pub open spec fn chain_get<T>(s: Seq<(Seq<char>, T)>, k: Seq<char>) -> Option<T>
    decreases s.len(),
{
    if s.len() == 0 {
        None
    } else if s[0].0 == k {
        Some(s[0].1)
    } else {
        chain_get(s.drop_first(), k)
    }
}

/// What appending `(k, v)` does to a chain: the first entry with key `k`
/// is overwritten, except that the final entry is never examined, so a
/// key held only there gains a duplicate at the back.
pub open spec fn chain_push_back<T>(s: Seq<(Seq<char>, T)>, k: Seq<char>, v: T) -> Seq<
    (Seq<char>, T),
>
    decreases s.len(),
{
    if s.len() <= 1 {
        s.push((k, v))
    } else if s[0].0 == k {
        s.update(0, (k, v))
    } else {
        seq![s[0]] + chain_push_back(s.drop_first(), k, v)
    }
}

/// What editing does to a chain: the first entry with key `k` gets value
/// `v`; a chain without the key stays as it is.
pub open spec fn chain_edit<T>(s: Seq<(Seq<char>, T)>, k: Seq<char>, v: T) -> Seq<(Seq<char>, T)>
    decreases s.len(),
{
    if s.len() == 0 {
        s
    } else if s[0].0 == k {
        s.update(0, (k, v))
    } else {
        seq![s[0]] + chain_edit(s.drop_first(), k, v)
    }
}

/// Removal of the first entry with key `k` strictly behind the head; only
/// meaningful when such an entry exists.
pub open spec fn chain_remove<T>(s: Seq<(Seq<char>, T)>, k: Seq<char>) -> Seq<(Seq<char>, T)>
    decreases s.len(),
{
    if s.len() <= 1 {
        s
    } else if s[1].0 == k {
        seq![s[0]] + s.skip(2)
    } else {
        seq![s[0]] + chain_remove(s.drop_first(), k)
    }
}

/// What removal does to a whole bucket: a matching head gives way to its
/// tail — except that a one-entry bucket stays untouched, as the node
/// has nothing to splice in — and otherwise the first later match goes.
pub open spec fn chain_remove_hm<T>(s: Seq<(Seq<char>, T)>, k: Seq<char>) -> Seq<(Seq<char>, T)> {
    if s.len() == 0 {
        s
    } else if s[0].0 == k {
        if s.len() == 1 {
            s
        } else {
            s.skip(1)
        }
    } else {
        chain_remove(s, k)
    }
}

/// One node of a bucket's chain: a key, its value, and the rest.
pub struct KeyValue<T> {
    key: String,
    value: T,
    next: Option<Box<KeyValue<T>>>,
}

/// The association list a chain node heads.
pub closed spec fn kv_seq<T>(n: KeyValue<T>) -> Seq<(Seq<char>, T)>
    decreases n,
{
    seq![(n.key@, n.value)] + opt_kv_seq(n.next)
}

/// The association list of an optional chain.
pub closed spec fn opt_kv_seq<T>(o: Option<Box<KeyValue<T>>>) -> Seq<(Seq<char>, T)>
    decreases o,
{
    match o {
        None => Seq::<(Seq<char>, T)>::empty(),
        Some(b) => kv_seq(*b),
    }
}

impl<T> View for KeyValue<T> {
    type V = Seq<(Seq<char>, T)>;

    closed spec fn view(&self) -> Seq<(Seq<char>, T)> {
        kv_seq(*self)
    }
}

impl<T: Copy> KeyValue<T> {
    pub fn new(key: String, value: T) -> (r: KeyValue<T>)
        ensures
            r@ == seq![(key@, value)],
    {
        let r = KeyValue { key, value, next: None };
        proof {
            assert(r@ =~= seq![(r.key@, value)]);
        }
        r
    }

    /// Appends `(key, value)`, or overwrites the first entry already
    /// filed under the key — except for the final entry, which the scan
    /// never reaches.
    pub fn push_back(&mut self, key: String, value: T)
        ensures
            final(self)@ == chain_push_back(old(self)@, key@, value),
        decreases old(self)@.len(),
    {
        let ghost s = self@;
        proof {
            assert(s.drop_first() =~= opt_kv_seq(self.next));
        }
        if self.next.is_some() {
            if self.key.eq(&key) {
                self.value = value;
                proof {
                    assert(self@ =~= chain_push_back(s, key@, value));
                }
            } else {
                self.next.as_mut().unwrap().push_back(key, value);
                proof {
                    assert(self@ =~= seq![s[0]] + chain_push_back(s.drop_first(), key@, value));
                }
            }
        } else {
            self.next = Some(Box::new(KeyValue::new(key, value)));
            proof {
                assert(self@ =~= s.push((self.next.unwrap().key@, value)));
            }
        }
    }

    /// The first value filed under `key`, scanning the whole chain.
    pub fn get(&self, key: String) -> (r: Option<T>)
        ensures
            r == chain_get(self@, key@),
        decreases self@.len(),
    {
        proof {
            assert(self@.drop_first() =~= opt_kv_seq(self.next));
            assert(self@[0] == (self.key@, self.value));
        }
        if self.key.eq(&key) {
            Some(self.value)
        } else {
            match self.next.as_ref() {
                Some(n) => {
                    proof {
                        assert((**n)@ == opt_kv_seq(self.next));
                    }
                    n.get(key)
                },
                None => {
                    proof {
                        assert(self@.drop_first() =~= Seq::<(Seq<char>, T)>::empty());
                        assert(chain_get(self@.drop_first(), key@) is None);
                    }
                    None
                },
            }
        }
    }

    /// Removal as the bucket sees it: a matching head hands back the rest
    /// of the chain for the caller to install (nothing when it is alone);
    /// otherwise the first later match is spliced out in place. A chain
    /// without the key is not accepted: the splice would find nothing.
    pub fn delete(&mut self, key: String) -> (r: Option<KeyValue<T>>)
        requires
            exists|i: int| 0 <= i < old(self)@.len() && (#[trigger] old(self)@[i]).0 == key@,
        ensures
            old(self)@[0].0 == key@ ==> {
                &&& old(self)@.len() == 1 ==> r is None && final(self)@ == old(self)@
                &&& old(self)@.len() > 1 ==> r is Some && r.unwrap()@ == old(self)@.skip(1)
            },
            old(self)@[0].0 != key@ ==> r is None && final(self)@ == chain_remove(
                old(self)@,
                key@,
            ),
    {
        let ghost s = self@;
        proof {
            assert(s.drop_first() =~= opt_kv_seq(self.next));
        }
        if self.key.eq(&key) {
            match self.next.as_mut() {
                Some(n) => {
                    let r = KeyValue { key: n.key.clone(), value: n.value, next: n.next.take() };
                    proof {
                        assert(r@ =~= s.skip(1));
                    }
                    Some(r)
                },
                None => {
                    proof {
                        assert(self@ =~= s);
                    }
                    None
                },
            }
        } else {
            self.delete_in_tail(key);
            None
        }
    }

    /// Splices out the first entry behind the head that carries `key`.
    fn delete_in_tail(&mut self, key: String)
        requires
            old(self)@[0].0 != key@,
            exists|i: int| 1 <= i < old(self)@.len() && (#[trigger] old(self)@[i]).0 == key@,
        ensures
            final(self)@ == chain_remove(old(self)@, key@),
        decreases old(self)@.len(),
    {
        let ghost s = self@;
        proof {
            assert(s.drop_first() =~= opt_kv_seq(self.next));
        }
        let hit = self.next.as_ref().unwrap().key.eq(&key);
        if hit {
            let nn = self.next.as_mut().unwrap().next.take();
            proof {
                assert(opt_kv_seq(nn) =~= s.skip(2));
            }
            self.next = nn;
            proof {
                assert(self@ =~= seq![s[0]] + s.skip(2));
            }
        } else {
            proof {
                let i = choose|i: int| 1 <= i < s.len() && (#[trigger] s[i]).0 == key@;
                assert(s.drop_first()[i - 1].0 == key@);
            }
            self.next.as_mut().unwrap().delete_in_tail(key);
            proof {
                assert(self@ =~= seq![s[0]] + chain_remove(s.drop_first(), key@));
            }
        }
    }

    /// Overwrites the first value filed under `key`, if any.
    pub fn edit(&mut self, key: String, value: T)
        ensures
            final(self)@ == chain_edit(old(self)@, key@, value),
        decreases old(self)@.len(),
    {
        let ghost s = self@;
        proof {
            assert(s.drop_first() =~= opt_kv_seq(self.next));
        }
        if self.key.eq(&key) {
            self.value = value;
            proof {
                assert(self@ =~= s.update(0, (key@, value)));
            }
        } else {
            match self.next.as_mut() {
                Some(n) => {
                    n.edit(key, value);
                    proof {
                        assert(self@ =~= seq![s[0]] + chain_edit(s.drop_first(), key@, value));
                    }
                },
                None => {
                    proof {
                        assert(self@ =~= s);
                        assert(s.drop_first() =~= Seq::<(Seq<char>, T)>::empty());
                        assert(chain_edit(s.drop_first(), key@, value) == s.drop_first());
                        assert(chain_edit(s, key@, value) =~= s);
                    }
                },
            }
        }
    }
}

/// A bucket-chained hash map from string keys to values, with a fixed
/// bucket count. The view is the sequence of bucket chains; lookups read
/// the chain the key hashes to.
pub struct HashMap<T> {
    length: usize,
    arr: Vec<Option<Box<KeyValue<T>>>>,
}

impl<T: Copy> HashMap<T> {
    /// The bucket chains, in bucket order.
    pub closed spec fn buckets(self) -> Seq<Seq<(Seq<char>, T)>> {
        Seq::new(self.arr@.len(), |i: int| opt_kv_seq(self.arr@[i]))
    }

    /// The bucket table has its fixed size.
    pub closed spec fn wf(self) -> bool {
        self.arr@.len() == MAX_SIZE
    }

    pub fn new() -> (r: HashMap<T>)
        ensures
            r.wf(),
            r.buckets().len() == MAX_SIZE,
            forall|i: int|
                0 <= i < MAX_SIZE ==> #[trigger] r.buckets()[i] == Seq::<(Seq<char>, T)>::empty(),
    {
        let mut arr: Vec<Option<Box<KeyValue<T>>>> = Vec::new();
        let mut i: usize = 0;
        while i < MAX_SIZE
            invariant
                i <= MAX_SIZE,
                arr@.len() == i,
                forall|j: int| 0 <= j < i ==> (#[trigger] arr@[j]) is None,
            decreases MAX_SIZE - i,
        {
            arr.push(None);
            i += 1;
        }
        let r = HashMap { length: 0, arr };
        proof {
            assert(forall|i: int|
                0 <= i < MAX_SIZE ==> #[trigger] r.buckets()[i] =~= Seq::<(Seq<char>, T)>::empty());
        }
        r
    }

    /// Files `(key, value)` in the key's bucket.
    pub fn add(&mut self, key: String, value: T)
        requires
            old(self).wf(),
        ensures
            final(self).wf(),
            final(self).buckets() == old(self).buckets().update(
                bucket_of(key@),
                chain_push_back(old(self).buckets()[bucket_of(key@)], key@, value),
            ),
    {
        let index: usize = my_hashing_function(&key) % MAX_SIZE;
        proof {
            vstd::arithmetic::div_mod::lemma_small_mod(
                bucket_of(key@) as nat,
                MAX_SIZE as nat,
            );
        }
        let slot = &mut self.arr[index];
        match slot {
            Some(kv) => {
                kv.push_back(key, value);
            },
            None => {
                *slot = Some(Box::new(KeyValue::new(key, value)));
            },
        }
        proof {
            assert(final(self).buckets() =~~= old(self).buckets().update(
                bucket_of(key@),
                chain_push_back(old(self).buckets()[bucket_of(key@)], key@, value),
            ));
        }
    }

    /// The first value filed under `key` in its bucket, if any.
    pub fn get(&self, key: String) -> (r: Option<T>)
        requires
            self.wf(),
        ensures
            r == chain_get(self.buckets()[bucket_of(key@)], key@),
    {
        let index: usize = my_hashing_function(&key) % MAX_SIZE;
        proof {
            vstd::arithmetic::div_mod::lemma_small_mod(
                bucket_of(key@) as nat,
                MAX_SIZE as nat,
            );
        }
        match &self.arr[index] {
            Some(kv) => kv.get(key),
            None => None,
        }
    }

    /// Drops the key's entry from its bucket. The key must be present
    /// unless its bucket is empty; a lone matching head stays, both as in
    /// the underlying chain removal.
    pub fn remove(&mut self, key: String)
        requires
            old(self).wf(),
            old(self).buckets()[bucket_of(key@)].len() == 0 || exists|i: int|
                0 <= i < old(self).buckets()[bucket_of(key@)].len() && (#[trigger] old(
                    self,
                ).buckets()[bucket_of(key@)][i]).0 == key@,
        ensures
            final(self).wf(),
            final(self).buckets() == old(self).buckets().update(
                bucket_of(key@),
                chain_remove_hm(old(self).buckets()[bucket_of(key@)], key@),
            ),
    {
        let index: usize = my_hashing_function(&key) % MAX_SIZE;
        proof {
            vstd::arithmetic::div_mod::lemma_small_mod(
                bucket_of(key@) as nat,
                MAX_SIZE as nat,
            );
        }
        let slot = &mut self.arr[index];
        match slot {
            Some(kv) => {
                proof {
                    assert((**kv)@ == old(self).buckets()[bucket_of(key@)]);
                    assert((**kv)@.len() > 0);
                    let i = choose|i: int|
                        0 <= i < old(self).buckets()[bucket_of(key@)].len() && (#[trigger] old(
                            self,
                        ).buckets()[bucket_of(key@)][i]).0 == key@;
                    assert(((**kv)@[i]).0 == key@);
                }
                match kv.delete(key) {
                    None => {},
                    Some(n) => {
                        *slot = Some(Box::new(n));
                    },
                }
            },
            None => {},
        }
        proof {
            assert(final(self).buckets() =~~= old(self).buckets().update(
                bucket_of(key@),
                chain_remove_hm(old(self).buckets()[bucket_of(key@)], key@),
            ));
        }
    }

    /// Overwrites the first value filed under `key` in its bucket, if
    /// any.
    pub fn edit(&mut self, key: String, value: T)
        requires
            old(self).wf(),
        ensures
            final(self).wf(),
            final(self).buckets() == old(self).buckets().update(
                bucket_of(key@),
                chain_edit(old(self).buckets()[bucket_of(key@)], key@, value),
            ),
    {
        let index: usize = my_hashing_function(&key) % MAX_SIZE;
        proof {
            vstd::arithmetic::div_mod::lemma_small_mod(
                bucket_of(key@) as nat,
                MAX_SIZE as nat,
            );
        }
        let slot = &mut self.arr[index];
        match slot {
            None => {},
            Some(n) => {
                n.edit(key, value);
            },
        }
        proof {
            assert(final(self).buckets() =~~= old(self).buckets().update(
                bucket_of(key@),
                chain_edit(old(self).buckets()[bucket_of(key@)], key@, value),
            ));
        }
    }
}

/// Sums the key's code points, reduced to the bucket range as it goes so
/// the running total cannot overflow.
fn my_hashing_function(key: &String) -> (r: usize)
    ensures
        r == bucket_of(key@),
{
    let s = key.as_str();
    let len = s.unicode_len();
    let mut result: usize = 0;
    let mut i: usize = 0;
    while i < len
        invariant
            i <= len,
            len == s@.len(),
            s@ == key@,
            result == char_sum(s@.take(i as int)) % (MAX_SIZE as int),
        decreases len - i,
    {
        let c = s.get_char(i);
        proof {
            assert(s@.take(i + 1).drop_last() =~= s@.take(i as int));
            assert(s@.take(i + 1).last() == s@[i as int]);
            lemma_mod_add_step(
                char_sum(s@.take(i as int)),
                c as int,
                MAX_SIZE as int,
            );
        }
        result = (result + (c as usize)) % MAX_SIZE;
        i += 1;
    }
    proof {
        assert(s@.take(len as int) =~= s@);
    }
    result
}

/// Folding the modulus into a running sum does not change the final
/// residue.
proof fn lemma_mod_add_step(a: int, c: int, m: int)
    requires
        m > 0,
        c >= 0,
    ensures
        (a % m + c) % m == (a + c) % m,
{
    vstd::arithmetic::div_mod::lemma_add_mod_noop(a % m, c, m);
    vstd::arithmetic::div_mod::lemma_add_mod_noop(a, c, m);
    vstd::arithmetic::div_mod::lemma_mod_twice(a, m);
}

} // verus!

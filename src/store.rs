//! The key mapping store: every `put` mints a fresh key from the URL and
//! the next sequence number and records the pair; `get` looks a key up.

use std::collections::HashMap;

use vstd::prelude::*;

use crate::keygen::{
    calculate_hash, decimal, generate_key, key_of, lemma_decimal_injective, lemma_key_no_dash,
    push_decimal, text_hash,
};

verus! {

/// Whether a text is free of the separator `-`, which no base-62 digit is.
pub open spec fn no_dash(s: Seq<char>) -> bool {
    forall|j: int| 0 <= j < s.len() ==> s[j] != '-'
}

/// The key that a `put` of `url` with sequence number `n` gets in a store
/// holding the map `m`: the generated key where it is free, else the
/// generated key, a `-` and the decimal sequence number.
pub open spec fn minted_key(m: Map<Seq<char>, Seq<char>>, url: Seq<char>, n: nat) -> Seq<char> {
    let base = key_of(url, n);
    if m.contains_key(base) {
        base + seq!['-'] + decimal(n)
    } else {
        base
    }
}

/// The key→URL map that a run of `put` calls leaves behind, given the URLs
/// put, in order: each call adds its URL under the key minted with its
/// sequence number, one more than the calls before it.
pub open spec fn store_map(history: Seq<Seq<char>>) -> Map<Seq<char>, Seq<char>>
    decreases history.len(),
{
    if history.len() == 0 {
        Map::empty()
    } else {
        let m = store_map(history.drop_last());
        m.insert(minted_key(m, history.last(), history.len()), history.last())
    }
}

/// What a lookup of `key` finds after the URLs of `history` were put.
pub open spec fn stored_url(history: Seq<Seq<char>>, key: Seq<char>) -> Option<Seq<char>> {
    if store_map(history).contains_key(key) {
        Some(store_map(history)[key])
    } else {
        None
    }
}

/// The key that the `i`-th call of a run of `put` calls returned.
pub open spec fn issued_key(history: Seq<Seq<char>>, i: int) -> Seq<char> {
    minted_key(store_map(history.take(i)), history[i], (i + 1) as nat)
}

/// One more `put` adds its URL under its minted key on top of the rest.
pub proof fn lemma_store_map_push(history: Seq<Seq<char>>, url: Seq<char>)
    ensures
        store_map(history.push(url)) == store_map(history).insert(
            minted_key(store_map(history), url, history.len() + 1),
            url,
        ),
        issued_key(history.push(url), history.len() as int) == minted_key(
            store_map(history),
            url,
            history.len() + 1,
        ),
{
    assert(history.push(url).drop_last() =~= history);
    assert(history.push(url).take(history.len() as int) =~= history);
}

/// Every stored key is dash-free, or a dash-free text, a `-` and the
/// decimal text of a sequence number already used.
proof fn lemma_key_shapes(history: Seq<Seq<char>>, k: Seq<char>)
    requires
        store_map(history).contains_key(k),
    ensures
        no_dash(k) || exists|b: Seq<char>, m: nat|
            no_dash(b) && 1 <= m <= history.len() && k == b + seq!['-'] + decimal(m),
    decreases history.len(),
{
    let rest = history.drop_last();
    let n = history.len();
    let base = key_of(history.last(), n);
    lemma_key_no_dash(history.last(), n);
    if store_map(rest).contains_key(k) {
        lemma_key_shapes(rest, k);
        if !no_dash(k) {
            let (b, m) = choose|b: Seq<char>, m: nat|
                no_dash(b) && 1 <= m <= rest.len() && k == b + seq!['-'] + decimal(m);
            assert(no_dash(b) && 1 <= m <= history.len() && k == b + seq!['-'] + decimal(m));
        }
    } else if store_map(rest).contains_key(base) {
        assert(no_dash(base) && 1 <= n <= history.len() && k == base + seq!['-'] + decimal(n));
    }
}

/// Two texts made of a dash-free part, a `-` and a decimal number are
/// equal only where the parts and the numbers are.
proof fn lemma_dashed_injective(b1: Seq<char>, m1: nat, b2: Seq<char>, m2: nat)
    requires
        no_dash(b1),
        no_dash(b2),
        b1 + seq!['-'] + decimal(m1) == b2 + seq!['-'] + decimal(m2),
    ensures
        b1 == b2,
        m1 == m2,
{
    let c = b1 + seq!['-'] + decimal(m1);
    assert(c == b2 + seq!['-'] + decimal(m2));
    if b1.len() < b2.len() {
        assert(c[b1.len() as int] == '-');
        assert(c[b1.len() as int] == b2[b1.len() as int]);
    } else if b2.len() < b1.len() {
        assert(c[b2.len() as int] == '-');
        assert(c[b2.len() as int] == b1[b2.len() as int]);
    }
    assert(b1 =~= c.subrange(0, b1.len() as int));
    assert(b2 =~= c.subrange(0, b2.len() as int));
    assert(decimal(m1) =~= c.subrange(b1.len() + 1 as int, c.len() as int));
    assert(decimal(m2) =~= c.subrange(b2.len() + 1 as int, c.len() as int));
    lemma_decimal_injective(m1, m2);
}

/// The key that the next `put` mints is not yet in the store.
pub proof fn lemma_minted_fresh(history: Seq<Seq<char>>, url: Seq<char>)
    ensures
        !store_map(history).contains_key(minted_key(store_map(history), url, history.len() + 1)),
{
    let n = (history.len() + 1) as nat;
    let base = key_of(url, n);
    let c = base + seq!['-'] + decimal(n);
    lemma_key_no_dash(url, n);
    if store_map(history).contains_key(base) && store_map(history).contains_key(c) {
        lemma_key_shapes(history, c);
        assert(c[base.len() as int] == '-');
        let (b, m) = choose|b: Seq<char>, m: nat|
            no_dash(b) && 1 <= m <= history.len() && c == b + seq!['-'] + decimal(m);
        lemma_dashed_injective(base, n, b, m);
    }
}

/// Every `put` of a run still finds its URL under its key at the end:
/// entries are never replaced.
pub proof fn lemma_issued_kept(history: Seq<Seq<char>>, i: int)
    requires
        0 <= i < history.len(),
    ensures
        stored_url(history, issued_key(history, i)) == Some(history[i]),
    decreases history.len(),
{
    let rest = history.drop_last();
    let last = history.len() - 1;
    assert(rest.push(history.last()) =~= history);
    lemma_store_map_push(rest, history.last());
    if i < last {
        assert(rest.take(i) =~= history.take(i));
        lemma_issued_kept(rest, i);
        lemma_minted_fresh(rest, history.last());
    }
}

/// Right after `put(url)` returned its key, `get` of that key gives `url`.
pub proof fn lemma_round_trip(history: Seq<Seq<char>>, url: Seq<char>)
    ensures
        stored_url(history.push(url), issued_key(history.push(url), history.len() as int))
            == Some(url),
{
    lemma_issued_kept(history.push(url), history.len() as int);
}

/// A key that no `put` call returned is absent from the store.
pub proof fn lemma_absent(history: Seq<Seq<char>>, key: Seq<char>)
    requires
        forall|i: int| 0 <= i < history.len() ==> issued_key(history, i) != key,
    ensures
        stored_url(history, key) == None::<Seq<char>>,
    decreases history.len(),
{
    if history.len() > 0 {
        let rest = history.drop_last();
        assert(rest.push(history.last()) =~= history);
        lemma_store_map_push(rest, history.last());
        assert forall|i: int| 0 <= i < rest.len() implies issued_key(rest, i) != key by {
            assert(rest.take(i) =~= history.take(i));
            assert(issued_key(history, i) != key);
        }
        lemma_absent(rest, key);
        assert(issued_key(history, history.len() - 1) != key);
    }
}

/// Any two `put` calls of a run, even of the same URL, get distinct keys.
pub proof fn lemma_keys_distinct(history: Seq<Seq<char>>, i: int, j: int)
    requires
        0 <= i < j < history.len(),
    ensures
        issued_key(history, i) != issued_key(history, j),
{
    let prefix = history.take(j);
    assert(prefix.take(i) =~= history.take(i));
    lemma_issued_kept(prefix, i);
    lemma_minted_fresh(prefix, history[j]);
}

/// The number of keys in the store equals the number of `put` calls.
pub proof fn lemma_one_entry_per_put(history: Seq<Seq<char>>)
    ensures
        store_map(history).dom().finite(),
        store_map(history).dom().len() == history.len(),
    decreases history.len(),
{
    if history.len() > 0 {
        let rest = history.drop_last();
        assert(rest.push(history.last()) =~= history);
        lemma_store_map_push(rest, history.last());
        lemma_one_entry_per_put(rest);
        lemma_minted_fresh(rest, history.last());
    }
}

/// The store: a counter of the `put` calls made; the stored pairs, each
/// key once, in two parallel vectors; and an index from the hash of a key
/// to the positions of the keys with that hash.
pub struct Mapping {
    count: u32,
    keys: Vec<String>,
    urls: Vec<String>,
    index: HashMap<u64, Vec<usize>>,
    history: Ghost<Seq<Seq<char>>>,
}

impl View for Mapping {
    /// The URLs put so far, in the order of the calls.
    type V = Seq<Seq<char>>;

    closed spec fn view(&self) -> Seq<Seq<char>> {
        self.history@
    }
}

impl Mapping {
    /// The counter tallies the calls, and the pairs held are exactly the
    /// entries of the map that those calls leave behind.
    pub closed spec fn wf(&self) -> bool {
        let m = store_map(self.history@);
        &&& self.count as nat == self.history@.len()
        &&& self.keys@.len() == self.urls@.len()
        &&& forall|i: int, j: int|
            0 <= i < j < self.keys@.len() ==> self.keys@[i]@ != self.keys@[j]@
        &&& forall|i: int|
            0 <= i < self.keys@.len() ==> m.contains_key(#[trigger] self.keys@[i]@) && m[self.keys@[i]@]
                == self.urls@[i]@
        &&& forall|k: Seq<char>|
            #[trigger] m.contains_key(k) ==> exists|i: int|
                0 <= i < self.keys@.len() && #[trigger] self.keys@[i]@ == k
        &&& forall|i: int| 0 <= i < self.keys@.len() ==> #[trigger] self.indexed(i)
        &&& forall|h: u64| #[trigger] self.bucket_sound(h)
    }

    /// The key at position `i` is found in the bucket of its hash.
    closed spec fn indexed(&self, i: int) -> bool {
        let h = text_hash(self.keys@[i]@);
        self.index@.contains_key(h) && self.index@[h]@.contains(i as usize)
    }

    /// The bucket of `h`, if any, names only positions whose key has hash `h`.
    closed spec fn bucket_sound(&self, h: u64) -> bool {
        self.index@.contains_key(h) ==> forall|p: int|
            0 <= p < self.index@[h]@.len() ==> {
                let i = #[trigger] self.index@[h]@[p] as int;
                i < self.keys@.len() && text_hash(self.keys@[i]@) == h
            }
    }

    /// An empty store whose counter stands at zero.
    pub fn new() -> (r: Mapping)
        ensures
            r.wf(),
            r@ == Seq::<Seq<char>>::empty(),
    {
        Mapping {
            count: 0,
            keys: Vec::new(),
            urls: Vec::new(),
            index: HashMap::new(),
            history: Ghost(Seq::empty()),
        }
    }

    /// The number of `put` calls made on this store.
    pub fn count(&self) -> (r: u32)
        requires
            self.wf(),
        ensures
            r as nat == self@.len(),
    {
        self.count
    }

    /// Where `key` is held, if it is.
    fn position(&self, key: &String) -> (r: Option<usize>)
        requires
            self.wf(),
        ensures
            match r {
                Some(i) => i < self.keys@.len() && self.keys@[i as int]@ == key@,
                None => forall|i: int| 0 <= i < self.keys@.len() ==> self.keys@[i]@ != key@,
            },
    {
        let h = calculate_hash(key.as_str());
        match self.index.get(&h) {
            None => {
                assert forall|i: int| 0 <= i < self.keys@.len() implies self.keys@[i]@ != key@ by {
                    assert(self.indexed(i));
                }
                None
            },
            Some(bucket) => {
                let mut p: usize = 0;
                assert(self.bucket_sound(h));
                while p < bucket.len()
                    invariant
                        self.wf(),
                        h == text_hash(key@),
                        self.index@.contains_key(h),
                        bucket@ == self.index@[h]@,
                        p <= bucket@.len(),
                        forall|q: int| 0 <= q < bucket@.len() ==> bucket@[q] < self.keys@.len(),
                        forall|q: int| 0 <= q < p ==> self.keys@[bucket@[q] as int]@ != key@,
                    decreases bucket@.len() - p,
                {
                    let i = bucket[p];
                    assert(self.bucket_sound(h));
                    if self.keys[i] == *key {
                        return Some(i);
                    }
                    p = p + 1;
                }
                assert forall|i: int| 0 <= i < self.keys@.len() implies self.keys@[i]@ != key@ by {
                    if self.keys@[i]@ == key@ {
                        assert(self.indexed(i));
                        assert(i < self.keys.len());
                        assert(bucket@.contains(i as usize));
                        let q = choose|q: int| 0 <= q < bucket@.len() && bucket@[q] == i as usize;
                        assert(p == bucket@.len());
                        assert(self.keys@[bucket@[q] as int]@ != key@);
                    }
                }
                None
            },
        }
    }

    /// Looks `key` up by exact match: the URL stored under it, or `None`
    /// where no `put` call minted it.
    pub fn get(&self, key: String) -> (r: Option<&String>)
        requires
            self.wf(),
        ensures
            match r {
                Some(url) => stored_url(self@, key@) == Some(url@),
                None => stored_url(self@, key@) == None::<Seq<char>>,
            },
    {
        match self.position(&key) {
            Some(i) => Some(&self.urls[i]),
            None => None,
        }
    }

    /// Mints a fresh key for `url` with the next sequence number, adds
    /// the pair, and returns the key; the pairs already held stay as they
    /// are. The counter must not be at its largest value.
    pub fn put(&mut self, url: &str) -> (r: String)
        requires
            old(self).wf(),
            old(self)@.len() < u32::MAX,
        ensures
            final(self).wf(),
            final(self)@ == old(self)@.push(url@),
            r@ == issued_key(final(self)@, old(self)@.len() as int),
            !store_map(old(self)@).contains_key(r@),
            store_map(final(self)@) == store_map(old(self)@).insert(r@, url@),
    {
        let next: u32 = self.count + 1;
        let base = generate_key(url, next);
        let key = match self.position(&base) {
            Some(_) => {
                let mut dashed = base.clone();
                dashed.append("-");
                push_decimal(&mut dashed, next);
                proof {
                    reveal_strlit("-");
                    assert(dashed@ =~= base@ + seq!['-'] + decimal(next as nat));
                }
                dashed
            },
            None => base,
        };
        let ghost old_history = self.history@;
        let ghost old_map = store_map(old_history);
        proof {
            lemma_store_map_push(old_history, url@);
            lemma_minted_fresh(old_history, url@);
            assert(key@ == minted_key(old_map, url@, next as nat));
            assert forall|j: int| 0 <= j < self.keys@.len() implies self.keys@[j]@ != key@ by {
                assert(old_map.contains_key(self.keys@[j]@));
            }
        }
        let ghost new_map = store_map(old_history.push(url@));
        self.count = next;
        let n = self.keys.len();
        let h = calculate_hash(key.as_str());
        let ghost old_index = self.index@;
        let mut bucket = match self.index.remove(&h) {
            Some(b) => b,
            None => Vec::new(),
        };
        let ghost old_bucket = bucket@;
        assert(old_index.contains_key(h) ==> old_bucket == old_index[h]@);
        assert(!old_index.contains_key(h) ==> old_bucket.len() == 0);
        bucket.push(n);
        self.index.insert(h, bucket);
        self.keys.push(key.clone());
        self.urls.push(url.to_owned());
        self.history = Ghost(old_history.push(url@));
        assert(self.index@.contains_key(h) && self.index@[h]@ == old_bucket.push(n));
        assert(forall|g: u64| g != h ==> #[trigger] self.index@.contains_key(g) == old_index.contains_key(g) && self.index@[g] == old_index[g]);
        assert forall|j: int| 0 <= j < self.keys@.len() implies #[trigger] self.indexed(j) by {
            if j < n {
                assert(old(self).indexed(j));
                assert(self.keys@[j] == old(self).keys@[j]);
                let hj = text_hash(self.keys@[j]@);
                if hj == h {
                    let q = choose|q: int| 0 <= q < old_bucket.len() && old_bucket[q] == j as usize;
                    assert(self.index@[h]@[q] == j as usize);
                }
            } else {
                assert(self.index@[h]@[old_bucket.len() as int] == n);
            }
        }
        assert forall|g: u64| #[trigger] self.bucket_sound(g) by {
            assert(old(self).bucket_sound(g));
            if g == h {
                assert forall|p: int| 0 <= p < self.index@[g]@.len() implies {
                    let i = #[trigger] self.index@[g]@[p] as int;
                    i < self.keys@.len() && text_hash(self.keys@[i]@) == g
                } by {
                    if p < old_bucket.len() {
                        let i = old_bucket[p] as int;
                        assert(self.keys@[i] == old(self).keys@[i]);
                    }
                }
            } else if self.index@.contains_key(g) {
                assert forall|p: int| 0 <= p < self.index@[g]@.len() implies {
                    let i = #[trigger] self.index@[g]@[p] as int;
                    i < self.keys@.len() && text_hash(self.keys@[i]@) == g
                } by {
                    let i = old_index[g]@[p] as int;
                    assert(self.keys@[i] == old(self).keys@[i]);
                }
            }
        }
        assert forall|k: Seq<char>| #[trigger] new_map.contains_key(k) implies exists|j: int|
            0 <= j < self.keys@.len() && #[trigger] self.keys@[j]@ == k by {
            if k != key@ {
                assert(old_map.contains_key(k));
                let j = choose|j: int| 0 <= j < old(self).keys@.len() && old(self).keys@[j]@ == k;
                assert(self.keys@[j]@ == k);
            } else {
                assert(self.keys@[self.keys@.len() - 1]@ == k);
            }
        }
        key
    }
}

} // verus!

//! A hash map built on Robin Hood open addressing with backward-shift
//! deletion. Capacity is always a power of two, so the ideal bucket of a
//! hash is computed with a bitmask instead of a modulo. Each slot records
//! its distance to its ideal bucket; insertion evicts occupants that sit
//! closer to their ideal bucket than the candidate does, and deletion
//! shifts the following run of displaced slots back by one, so the table
//! never needs tombstones.

use vstd::prelude::*;
use vstd::arithmetic::power2::pow2;

verus! {

/// The 32-bit hash the map assigns to a key. Its value is fixed by the
/// hasher; the table only relies on it being a function of the key.
pub uninterp spec fn fx_hash_of(key: u32) -> u32;

/// Relies on `rustc_hash::FxHasher`: hashing from the default (unseeded)
/// state is a pure function of the one value written.
#[verifier::external_body]
fn hash_key(key: u32) -> (h: u32)
    ensures
        h == fx_hash_of(key),
{
    let mut hasher = rustc_hash::FxHasher::default();
    core::hash::Hasher::write_u32(&mut hasher, key);
    core::hash::Hasher::finish(&hasher) as u32
}

/// True when `n` is a power of two that a 32-bit hash can address,
/// i.e. `n == pow2(k)` for some `k <= 32`.
pub open spec fn is_valid_capacity(n: int) -> bool {
    exists|k: nat| k <= 32 && n == pow2(k)
}

/// Reduce a hash onto a table of length `len` (a power of two) with a
/// bitmask, which equals the remainder modulo `len`.
pub fn fast_mod(len: usize, hash: u32) -> (r: usize)
    requires
        is_valid_capacity(len as int),
    ensures
        r == (hash as int) % (len as int),
        r < len,
{
    proof {
        let k = choose|k: nat| k <= 32 && len == pow2(k);
        vstd::arithmetic::power2::lemma_pow2_pos(k);
        vstd::bits::lemma_u64_pow2_no_overflow(k);
        vstd::bits::lemma_u64_low_bits_mask_is_mod(hash as u64, k);
    }
    ((hash as u64) & (len as u64 - 1)) as usize
}

/// One storage cell: either empty, or an owned key/value pair together
/// with the key's cached hash and the slot's distance to the hash's
/// ideal bucket.
pub enum Node<V> {
    Empty,
    Occupied { key: u32, value: V, hash: u32, distance: usize },
}

impl<V> Node<V> {
    /// The stored key (meaningful only when occupied).
    pub open spec fn k(self) -> u32 {
        match self {
            Node::Occupied { key, .. } => key,
            Node::Empty => 0,
        }
    }

    /// The stored value (meaningful only when occupied).
    pub open spec fn v(self) -> V {
        match self {
            Node::Occupied { value, .. } => value,
            Node::Empty => arbitrary(),
        }
    }

    /// The cached hash (meaningful only when occupied).
    pub open spec fn h(self) -> u32 {
        match self {
            Node::Occupied { hash, .. } => hash,
            Node::Empty => 0,
        }
    }

    /// The distance to the ideal bucket (meaningful only when occupied).
    pub open spec fn d(self) -> int {
        match self {
            Node::Occupied { distance, .. } => distance as int,
            Node::Empty => -1,
        }
    }

    /// A fresh empty node.
    pub fn new() -> (r: Self)
        ensures
            r is Empty,
    {
        Node::Empty
    }

    /// A node occupied by `key` and `value`, sitting in its ideal bucket.
    pub fn new_with(key: u32, value: V, hash: u32) -> (r: Self)
        ensures
            r is Occupied,
            r.k() == key,
            r.v() == value,
            r.h() == hash,
            r.d() == 0,
    {
        Node::Occupied { key, value, hash, distance: 0 }
    }

    /// Whether the node holds a pair.
    pub fn has_value(&self) -> (r: bool)
        ensures
            r == (self is Occupied),
    {
        match self {
            Node::Occupied { .. } => true,
            Node::Empty => false,
        }
    }

    /// The stored key, or absent if the node is empty.
    pub fn key_ref(&self) -> (r: Option<&u32>)
        ensures
            match r {
                Some(k) => self is Occupied && *k == self.k(),
                None => self is Empty,
            },
    {
        match self {
            Node::Occupied { key, .. } => Some(key),
            Node::Empty => None,
        }
    }

    /// The stored value, or absent if the node is empty.
    pub fn value_ref(&self) -> (r: Option<&V>)
        ensures
            match r {
                Some(v) => self is Occupied && *v == self.v(),
                None => self is Empty,
            },
    {
        match self {
            Node::Occupied { value, .. } => Some(value),
            Node::Empty => None,
        }
    }

    /// The stored value for mutation, or absent if the node is empty;
    /// what the caller writes through the reference is what the node
    /// then holds.
    pub fn value_mut(&mut self) -> (r: Option<&mut V>)
        ensures
            match r {
                Some(m) => (*old(self)) is Occupied && *m == old(self).v() && (*final(self))
                    is Occupied && final (self).k() == old(self).k() && final (self).h() == old(
                    self,
                ).h() && final (self).d() == old(self).d() && final (self).v() == *final (m),
                None => (*old(self)) is Empty && *final (self) == *old(self),
            },
    {
        match self {
            Node::Occupied { value, .. } => Some(value),
            Node::Empty => None,
        }
    }

    /// The cached hash, for re-insertion on growth.
    pub fn cached_hash(&self) -> (r: u32)
        requires
            self is Occupied,
        ensures
            r == self.h(),
    {
        match self {
            Node::Occupied { hash, .. } => *hash,
            Node::Empty => unreached(),
        }
    }

    /// The distance to the ideal bucket.
    pub fn get_distance(&self) -> (r: usize)
        requires
            self is Occupied,
        ensures
            r == self.d(),
    {
        match self {
            Node::Occupied { distance, .. } => *distance,
            Node::Empty => unreached(),
        }
    }

    /// Move the pair and its cached hash out, leaving the node empty.
    /// Taking from an empty node is a programming error, so it is ruled
    /// out.
    pub fn take_key_value(&mut self) -> (r: (u32, V, u32))
        requires
            (*old(self)) is Occupied,
        ensures
            (*final(self)) is Empty,
            r.0 == old(self).k(),
            r.1 == old(self).v(),
            r.2 == old(self).h(),
    {
        let mut tmp = Node::Empty;
        core::mem::swap(self, &mut tmp);
        match tmp {
            Node::Occupied { key, value, hash, .. } => (key, value, hash),
            Node::Empty => unreached(),
        }
    }

    /// Swap in a new value, handing the previous one back.
    pub fn replace_value(&mut self, value: V) -> (r: V)
        requires
            (*old(self)) is Occupied,
        ensures
            (*final(self)) is Occupied,
            final (self).k() == old(self).k(),
            final (self).h() == old(self).h(),
            final (self).d() == old(self).d(),
            final (self).v() == value,
            r == old(self).v(),
    {
        let mut tmp = Node::Empty;
        core::mem::swap(self, &mut tmp);
        match tmp {
            Node::Occupied { key, value: old_value, hash, distance } => {
                *self = Node::Occupied { key, value, hash, distance };
                old_value
            },
            Node::Empty => unreached(),
        }
    }

    /// Swap in a new key and value, handing the previous pair back.
    pub fn replace(&mut self, key: u32, value: V) -> (r: (u32, V))
        requires
            (*old(self)) is Occupied,
        ensures
            (*final(self)) is Occupied,
            final (self).k() == key,
            final (self).v() == value,
            final (self).h() == old(self).h(),
            final (self).d() == old(self).d(),
            r.0 == old(self).k(),
            r.1 == old(self).v(),
    {
        let mut tmp = Node::Empty;
        core::mem::swap(self, &mut tmp);
        match tmp {
            Node::Occupied { key: old_key, value: old_value, hash, distance } => {
                *self = Node::Occupied { key, value, hash, distance };
                (old_key, old_value)
            },
            Node::Empty => unreached(),
        }
    }

    /// Push the node one slot further from its ideal bucket.
    pub fn increment_distance(&mut self)
        requires
            (*old(self)) is Occupied,
            old(self).d() < usize::MAX,
        ensures
            (*final(self)) is Occupied,
            final (self).k() == old(self).k(),
            final (self).v() == old(self).v(),
            final (self).h() == old(self).h(),
            final (self).d() == old(self).d() + 1,
    {
        let mut tmp = Node::Empty;
        core::mem::swap(self, &mut tmp);
        match tmp {
            Node::Occupied { key, value, hash, distance } => {
                *self = Node::Occupied { key, value, hash, distance: distance + 1 };
            },
            Node::Empty => unreached(),
        }
    }

    /// Pull the node one slot back towards its ideal bucket. A distance
    /// already at zero signals storage corruption, so it is ruled out.
    pub fn decrement_distance(&mut self)
        requires
            (*old(self)) is Occupied,
            old(self).d() >= 1,
        ensures
            (*final(self)) is Occupied,
            final (self).k() == old(self).k(),
            final (self).v() == old(self).v(),
            final (self).h() == old(self).h(),
            final (self).d() == old(self).d() - 1,
    {
        let mut tmp = Node::Empty;
        core::mem::swap(self, &mut tmp);
        match tmp {
            Node::Occupied { key, value, hash, distance } => {
                *self = Node::Occupied { key, value, hash, distance: distance - 1 };
            },
            Node::Empty => unreached(),
        }
    }
}

impl<V> Default for Node<V> {
    /// A fresh empty node.
    fn default() -> (r: Self)
        ensures
            r is Empty,
    {
        Node::new()
    }
}

/// The slot `i` holds a pair (and is in bounds).
pub open spec fn occ<V>(s: Seq<Node<V>>, i: int) -> bool {
    0 <= i < s.len() && s[i] is Occupied
}

/// The bucket a hash selects on a table of `cap` slots after probing
/// `d` slots onward from its ideal bucket, wrapping at the end.
pub open spec fn pos_of(h: u32, d: int, cap: int) -> int {
    ((h as int) % cap + d) % cap
}

/// The slot `j` places onward from `base`, wrapping at the end.
pub open spec fn wrap_add(base: int, j: int, cap: int) -> int {
    (base + j) % cap
}

/// The slot just before `i`, wrapping at the front.
pub open spec fn prev_index(i: int, cap: int) -> int {
    if i == 0 {
        cap - 1
    } else {
        i - 1
    }
}

/// The slot just after `i`, wrapping at the end.
pub open spec fn next_index(i: int, cap: int) -> int {
    if i + 1 == cap {
        0
    } else {
        i + 1
    }
}

/// An occupied slot agrees with its bookkeeping: the cached hash is the
/// key's hash, and walking `distance` slots back from the slot (wrapping)
/// lands on the hash's ideal bucket, within the running maximum.
pub open spec fn slot_consistent<V>(s: Seq<Node<V>>, maxd: int, i: int) -> bool {
    occ(s, i) ==> {
        &&& s[i].h() == fx_hash_of(s[i].k())
        &&& 0 <= s[i].d() <= maxd
        &&& s[i].d() < s.len()
        &&& i == pos_of(s[i].h(), s[i].d(), s.len() as int)
    }
}

/// A displaced slot continues a probe run: the slot before it holds a
/// pair displaced at most one slot less. This is what lets a lookup stop
/// at the first empty slot.
pub open spec fn run_ok<V>(s: Seq<Node<V>>, i: int) -> bool {
    (occ(s, i) && s[i].d() >= 1) ==> {
        let p = prev_index(i, s.len() as int);
        occ(s, p) && s[p].d() >= s[i].d() - 1
    }
}

/// No key is stored twice.
pub open spec fn keys_unique<V>(s: Seq<Node<V>>) -> bool {
    forall|i: int, j: int| occ(s, i) && occ(s, j) && i != j ==> s[i].k() != s[j].k()
}

/// Every structural invariant of the backing storage at once.
pub open spec fn wf_nodes<V>(s: Seq<Node<V>>, maxd: int) -> bool {
    &&& is_valid_capacity(s.len() as int)
    &&& 0 <= maxd < s.len()
    &&& forall|i: int| 0 <= i < s.len() ==> #[trigger] slot_consistent(s, maxd, i)
    &&& forall|i: int| 0 <= i < s.len() ==> #[trigger] run_ok(s, i)
    &&& keys_unique(s)
}

/// Some slot holds `k`.
pub open spec fn has_key<V>(s: Seq<Node<V>>, k: u32) -> bool {
    exists|i: int| occ(s, i) && s[i].k() == k
}

/// The slot holding `k` (meaningful when `has_key`).
pub open spec fn key_at<V>(s: Seq<Node<V>>, k: u32) -> int {
    choose|i: int| occ(s, i) && s[i].k() == k
}

/// The association the storage represents: each stored key mapped to its
/// stored value.
pub open spec fn contents<V>(s: Seq<Node<V>>) -> Map<u32, V> {
    Map::new(|k: u32| has_key(s, k), |k: u32| s[key_at(s, k)].v())
}

/// How many slots hold a pair.
pub open spec fn occupied_count<V>(s: Seq<Node<V>>) -> int
    decreases s.len(),
{
    if s.len() == 0 {
        0
    } else {
        occupied_count(s.drop_last()) + if s.last() is Occupied {
            1int
        } else {
            0int
        }
    }
}

/// Emptying an occupied slot removes exactly its pair from the contents.
proof fn lemma_contents_take<V>(s: Seq<Node<V>>, i: int, x: Node<V>)
    requires
        keys_unique(s),
        occ(s, i),
        !(x is Occupied),
    ensures
        keys_unique(s.update(i, x)),
        contents(s.update(i, x)) == contents(s).remove(s[i].k()),
    decreases 0int,
{
    let s2 = s.update(i, x);
    let ko = s[i].k();
    assert forall|p: int, q: int| occ(s2, p) && occ(s2, q) && p != q implies s2[p].k()
        != s2[q].k() by {
        assert(occ(s, p) && occ(s, q));
        assert(s2[p].k() == s[p].k() && s2[q].k() == s[q].k());
    }
    assert forall|k: u32| #[trigger] has_key(s2, k) <==> (has_key(s, k) && k != ko) by {
        if has_key(s2, k) {
            let j = choose|j: int| occ(s2, j) && s2[j].k() == k;
            assert(j != i);
            assert(occ(s, j) && s[j].k() == k);
            assert(k != ko);
        }
        if has_key(s, k) && k != ko {
            let j = choose|j: int| occ(s, j) && s[j].k() == k;
            assert(j != i);
            assert(occ(s2, j) && s2[j].k() == k);
        }
    }
    assert forall|k: u32| contents(s2).contains_key(k) implies contents(s2)[k] == contents(
        s,
    ).remove(ko)[k] by {
        let j = choose|j: int| occ(s, j) && s[j].k() == k;
        assert(occ(s2, j) && s2[j].k() == k && s2[j].v() == s[j].v());
        lemma_contents_at(s, j);
        lemma_contents_at(s2, j);
    }
    assert(contents(s2) =~= contents(s).remove(ko));
}

/// Exchanging the payloads of two occupied slots leaves the contents
/// unchanged.
proof fn lemma_contents_two_swap<V>(s: Seq<Node<V>>, a: int, b: int, x: Node<V>, y: Node<V>)
    requires
        keys_unique(s),
        occ(s, a),
        occ(s, b),
        a != b,
        x is Occupied,
        y is Occupied,
        x.k() == s[b].k(),
        x.v() == s[b].v(),
        y.k() == s[a].k(),
        y.v() == s[a].v(),
    ensures
        keys_unique(s.update(a, x).update(b, y)),
        contents(s.update(a, x).update(b, y)) == contents(s),
    decreases 0int,
{
    let s2 = s.update(a, x).update(b, y);
    assert forall|p: int, q: int| occ(s2, p) && occ(s2, q) && p != q implies s2[p].k()
        != s2[q].k() by {
        let p0: int = if p == a {
            b
        } else if p == b {
            a
        } else {
            p
        };
        let q0: int = if q == a {
            b
        } else if q == b {
            a
        } else {
            q
        };
        assert(occ(s, p0) && occ(s, q0) && p0 != q0);
        assert(s2[p].k() == s[p0].k() && s2[q].k() == s[q0].k());
    }
    assert forall|k: u32| #[trigger] has_key(s2, k) <==> has_key(s, k) by {
        if has_key(s2, k) {
            let j = choose|j: int| occ(s2, j) && s2[j].k() == k;
            let j0: int = if j == a {
                b
            } else if j == b {
                a
            } else {
                j
            };
            assert(occ(s, j0) && s[j0].k() == k);
        }
        if has_key(s, k) {
            let j = choose|j: int| occ(s, j) && s[j].k() == k;
            let j2: int = if j == a {
                b
            } else if j == b {
                a
            } else {
                j
            };
            assert(occ(s2, j2) && s2[j2].k() == k);
        }
    }
    assert forall|k: u32| contents(s2).contains_key(k) implies contents(s2)[k] == contents(s)[k] by {
        let j = choose|j: int| occ(s, j) && s[j].k() == k;
        let j2: int = if j == a {
            b
        } else if j == b {
            a
        } else {
            j
        };
        assert(occ(s2, j2) && s2[j2].k() == k && s2[j2].v() == s[j].v());
        lemma_contents_at(s, j);
        lemma_contents_at(s2, j2);
    }
    assert(contents(s2) =~= contents(s));
}

/// An occupied slot means the occupied count is positive.
proof fn lemma_occupied_count_pos<V>(s: Seq<Node<V>>, i: int)
    requires
        occ(s, i),
    ensures
        occupied_count(s) >= 1,
    decreases s.len(),
{
    lemma_occupied_count_full(s.drop_last());
    if i < s.len() - 1 {
        lemma_occupied_count_pos(s.drop_last(), i);
    }
}

/// Overwriting the value (and equal key) of an occupied slot updates the
/// contents at that key alone.
proof fn lemma_contents_replace<V>(s: Seq<Node<V>>, i: int, x: Node<V>)
    requires
        keys_unique(s),
        occ(s, i),
        x is Occupied,
        x.k() == s[i].k(),
    ensures
        keys_unique(s.update(i, x)),
        contents(s.update(i, x)) == contents(s).insert(x.k(), x.v()),
    decreases 0int,
{
    let s2 = s.update(i, x);
    assert forall|p: int, q: int| occ(s2, p) && occ(s2, q) && p != q implies s2[p].k()
        != s2[q].k() by {
        assert(occ(s, p) && occ(s, q));
        assert(s2[p].k() == s[p].k() && s2[q].k() == s[q].k());
    }
    assert forall|k: u32| #[trigger] has_key(s2, k) <==> has_key(s, k) by {
        if has_key(s2, k) {
            let j = choose|j: int| occ(s2, j) && s2[j].k() == k;
            assert(occ(s, j) && s[j].k() == k);
        }
        if has_key(s, k) {
            let j = choose|j: int| occ(s, j) && s[j].k() == k;
            assert(occ(s2, j) && s2[j].k() == k);
        }
    }
    assert forall|k: u32| contents(s2).contains_key(k) implies contents(s2)[k] == contents(
        s,
    ).insert(x.k(), x.v())[k] by {
        if k == x.k() {
            lemma_contents_at(s2, i);
        } else {
            let j = choose|j: int| occ(s, j) && s[j].k() == k;
            assert(j != i);
            assert(occ(s2, j) && s2[j].k() == k && s2[j].v() == s[j].v());
            lemma_contents_at(s, j);
            lemma_contents_at(s2, j);
        }
    }
    assert(contents(s2) =~= contents(s).insert(x.k(), x.v()));
}

/// Appending a slot extends the contents by its pair, if any.
proof fn lemma_contents_push<V>(s: Seq<Node<V>>, x: Node<V>)
    requires
        keys_unique(s),
        x is Occupied ==> !has_key(s, x.k()),
    ensures
        keys_unique(s.push(x)),
        occupied_count(s.push(x)) == occupied_count(s) + (if x is Occupied {
            1int
        } else {
            0int
        }),
        x is Occupied ==> contents(s.push(x)) == contents(s).insert(x.k(), x.v()),
        !(x is Occupied) ==> contents(s.push(x)) == contents(s),
    decreases 0int,
{
    let s2 = s.push(x);
    let n = s.len() as int;
    assert(s2.drop_last() =~= s);
    assert(occupied_count(s2) == occupied_count(s) + (if x is Occupied {
        1int
    } else {
        0int
    }));
    assert forall|p: int, q: int| occ(s2, p) && occ(s2, q) && p != q implies s2[p].k()
        != s2[q].k() by {
        if p < n && q < n {
            assert(occ(s, p) && occ(s, q));
        } else if p == n && q < n {
            assert(occ(s, q) && s2[q].k() == s[q].k());
            assert(s2[p].k() == x.k());
        } else {
            assert(occ(s, p) && s2[p].k() == s[p].k());
            assert(s2[q].k() == x.k());
        }
    }
    assert forall|k: u32| #[trigger] has_key(s2, k) <==> (has_key(s, k) || (x is Occupied && k
        == x.k())) by {
        if has_key(s2, k) {
            let j = choose|j: int| occ(s2, j) && s2[j].k() == k;
            if j < n {
                assert(occ(s, j) && s[j].k() == k);
            }
        }
        if has_key(s, k) {
            let j = choose|j: int| occ(s, j) && s[j].k() == k;
            assert(occ(s2, j) && s2[j].k() == k);
        }
        if x is Occupied && k == x.k() {
            assert(occ(s2, n) && s2[n].k() == k);
        }
    }
    assert forall|k: u32| contents(s2).contains_key(k) implies contents(s2)[k] == (if x
        is Occupied {
        contents(s).insert(x.k(), x.v())
    } else {
        contents(s)
    })[k] by {
        if x is Occupied && k == x.k() {
            lemma_contents_at(s2, n);
        } else {
            let j = choose|j: int| occ(s, j) && s[j].k() == k;
            assert(occ(s2, j) && s2[j].k() == k && s2[j].v() == s[j].v());
            lemma_contents_at(s, j);
            lemma_contents_at(s2, j);
        }
    }
    if x is Occupied {
        assert(contents(s2) =~= contents(s).insert(x.k(), x.v()));
    } else {
        assert(contents(s2) =~= contents(s));
    }
}

/// With unique keys, the number of stored pairs equals the number of
/// distinct keys in the contents.
proof fn lemma_count_matches_dom<V>(s: Seq<Node<V>>)
    requires
        keys_unique(s),
    ensures
        contents(s).dom().finite(),
        contents(s).dom().len() == occupied_count(s),
    decreases s.len(),
{
    broadcast use vstd::set::axiom_set_insert_len;

    if s.len() == 0 {
        assert forall|k: u32| !(#[trigger] has_key(s, k)) by {
            if has_key(s, k) {
                let j = choose|j: int| occ(s, j) && s[j].k() == k;
            }
        }
        assert(contents(s).dom() =~= Set::<u32>::empty());
    } else {
        let butlast = s.drop_last();
        let x = s.last();
        assert forall|p: int, q: int|
            occ(butlast, p) && occ(butlast, q) && p != q implies butlast[p].k()
            != butlast[q].k() by {
            assert(occ(s, p) && occ(s, q));
            assert(butlast[p] == s[p] && butlast[q] == s[q]);
        }
        lemma_count_matches_dom(butlast);
        if x is Occupied {
            assert(!has_key(butlast, x.k())) by {
                if has_key(butlast, x.k()) {
                    let j = choose|j: int| occ(butlast, j) && butlast[j].k() == x.k();
                    assert(occ(s, j) && occ(s, s.len() - 1));
                    assert(s[j].k() == s[s.len() - 1].k());
                    assert(false);
                }
            }
        }
        lemma_contents_push(butlast, x);
        assert(butlast.push(x) =~= s);
    }
}

/// A prefix never holds more pairs than the whole.
proof fn lemma_occupied_count_prefix_le<V>(s: Seq<Node<V>>, i: int)
    requires
        0 <= i <= s.len(),
    ensures
        occupied_count(s.subrange(0, i)) <= occupied_count(s),
    decreases s.len(),
{
    if i == s.len() {
        assert(s.subrange(0, i) =~= s);
    } else {
        let butlast = s.drop_last();
        lemma_occupied_count_prefix_le(butlast, i);
        assert(s.subrange(0, i) =~= butlast.subrange(0, i));
        lemma_occupied_count_full(s);
    }
}

/// A prefix that stops before an occupied slot holds strictly fewer
/// pairs than the whole.
proof fn lemma_occupied_count_prefix_lt<V>(s: Seq<Node<V>>, i: int, j: int)
    requires
        0 <= i <= j < s.len(),
        occ(s, j),
    ensures
        occupied_count(s.subrange(0, i)) < occupied_count(s),
    decreases s.len(),
{
    let butlast = s.drop_last();
    if j == s.len() - 1 {
        lemma_occupied_count_prefix_le(butlast, i);
        assert(s.subrange(0, i) =~= butlast.subrange(0, i));
    } else {
        assert(occ(butlast, j));
        lemma_occupied_count_prefix_lt(butlast, i, j);
        assert(s.subrange(0, i) =~= butlast.subrange(0, i));
        lemma_occupied_count_full(s);
    }
}

/// Doubling a capacity leaves at least that capacity below the load
/// threshold of the doubled table.
proof fn lemma_double_capacity_room(c: int)
    requires
        1 <= c,
    ensures
        85 * (2 * c) / 100 >= c,
{
    vstd::arithmetic::div_mod::lemma_fundamental_div_mod(170 * c, 100);
    vstd::arithmetic::div_mod::lemma_mod_division_less_than_divisor(170 * c, 100);
}

/// A strictly larger valid capacity is at least the double.
proof fn lemma_valid_capacity_double(c: int, n: int)
    requires
        is_valid_capacity(c),
        is_valid_capacity(n),
        n > c,
    ensures
        n >= 2 * c,
{
    let k1 = choose|k: nat| k <= 32 && c == pow2(k);
    let k2 = choose|k: nat| k <= 32 && n == pow2(k);
    if k2 <= k1 {
        if k2 < k1 {
            vstd::arithmetic::power2::lemma_pow2_strictly_increases(k2, k1);
        }
        assert(false);
    }
    vstd::arithmetic::power2::lemma_pow2_adds((k2 - 1) as nat, 1);
    vstd::arithmetic::power2::lemma2_to64();
    if k2 - 1 > k1 {
        vstd::arithmetic::power2::lemma_pow2_strictly_increases(k1, (k2 - 1) as nat);
    }
}

/// Replacing only the value of an occupied slot keeps every storage
/// invariant and updates the contents at that key alone.
proof fn lemma_value_update_keeps_wf<V>(s: Seq<Node<V>>, maxd: int, i: int, x: Node<V>)
    requires
        wf_nodes(s, maxd),
        occ(s, i),
        x is Occupied,
        x.k() == s[i].k(),
        x.h() == s[i].h(),
        x.d() == s[i].d(),
    ensures
        wf_nodes(s.update(i, x), maxd),
        contents(s.update(i, x)) == contents(s).insert(s[i].k(), x.v()),
        occupied_count(s.update(i, x)) == occupied_count(s),
{
    let s2 = s.update(i, x);
    lemma_contents_replace(s, i, x);
    lemma_occupied_count_update(s, i, x);
    assert forall|j: int| 0 <= j < s2.len() implies #[trigger] slot_consistent(s2, maxd, j) by {
        assert(slot_consistent(s, maxd, j));
        if j != i {
            assert(s2[j] == s[j]);
        }
    }
    assert forall|j: int| 0 <= j < s2.len() implies #[trigger] run_ok(s2, j) by {
        assert(run_ok(s, j));
        let p = prev_index(j, s2.len() as int);
        assert(s2[j].d() == s[j].d() && (s2[j] is Occupied <==> s[j] is Occupied));
        assert(s2[p].d() == s[p].d() && (s2[p] is Occupied <==> s[p] is Occupied));
    }
}

/// The facts the Robin Hood load-factor precondition yields: the table
/// has room, and is at least two slots long.
proof fn lemma_load_factor_room(cap: int, items: int)
    requires
        1 <= cap,
        0 <= items,
        items < 85 * cap / 100,
    ensures
        items + 1 < cap,
        cap >= 2,
{
    vstd::arithmetic::div_mod::lemma_fundamental_div_mod(85 * cap, 100);
    vstd::arithmetic::div_mod::lemma_mod_division_less_than_divisor(85 * cap, 100);
}

/// Evicting an occupant in favour of a candidate displaced at least as
/// far keeps every structural invariant of the slots.
proof fn lemma_insert_swap<V>(s: Seq<Node<V>>, maxd: int, loc: int, cand: Node<V>)
    requires
        s.len() >= 2,
        0 <= maxd < s.len(),
        forall|i: int| 0 <= i < s.len() ==> #[trigger] slot_consistent(s, maxd, i),
        forall|i: int| 0 <= i < s.len() ==> #[trigger] run_ok(s, i),
        cand is Occupied,
        cand.h() == fx_hash_of(cand.k()),
        0 <= cand.d() <= maxd,
        cand.d() < s.len(),
        0 <= loc < s.len(),
        loc == pos_of(cand.h(), cand.d(), s.len() as int),
        occ(s, loc),
        s[loc].d() <= cand.d(),
        cand.d() >= 1 ==> occ(s, prev_index(loc, s.len() as int)) && s[prev_index(
            loc,
            s.len() as int,
        )].d() >= cand.d() - 1,
    ensures
        forall|i: int|
            0 <= i < s.len() ==> #[trigger] slot_consistent(s.update(loc, cand), maxd, i),
        forall|i: int| 0 <= i < s.len() ==> #[trigger] run_ok(s.update(loc, cand), i),
{
    let s2 = s.update(loc, cand);
    let cap = s.len() as int;
    assert forall|i: int| 0 <= i < s.len() implies #[trigger] slot_consistent(s2, maxd, i) by {
        if i != loc {
            assert(slot_consistent(s, maxd, i));
            assert(s2[i] == s[i]);
        }
    }
    assert forall|i: int| 0 <= i < s.len() implies #[trigger] run_ok(s2, i) by {
        let p = prev_index(i, cap);
        if i == loc {
            if cand.d() >= 1 {
                assert(p != loc);
                assert(s2[p] == s[p]);
            }
        } else if p == loc {
            assert(run_ok(s, i));
            assert(slot_consistent(s, maxd, loc));
            assert(s2[i] == s[i]);
        } else {
            assert(run_ok(s, i));
            assert(s2[i] == s[i] && s2[p] == s[p]);
        }
    }
}

/// Placing the candidate in an empty slot keeps every structural
/// invariant of the slots.
proof fn lemma_insert_place<V>(s: Seq<Node<V>>, maxd: int, loc: int, cand: Node<V>)
    requires
        s.len() >= 2,
        0 <= maxd < s.len(),
        forall|i: int| 0 <= i < s.len() ==> #[trigger] slot_consistent(s, maxd, i),
        forall|i: int| 0 <= i < s.len() ==> #[trigger] run_ok(s, i),
        cand is Occupied,
        cand.h() == fx_hash_of(cand.k()),
        0 <= cand.d() <= maxd,
        cand.d() < s.len(),
        0 <= loc < s.len(),
        loc == pos_of(cand.h(), cand.d(), s.len() as int),
        !occ(s, loc),
        cand.d() >= 1 ==> occ(s, prev_index(loc, s.len() as int)) && s[prev_index(
            loc,
            s.len() as int,
        )].d() >= cand.d() - 1,
    ensures
        forall|i: int|
            0 <= i < s.len() ==> #[trigger] slot_consistent(s.update(loc, cand), maxd, i),
        forall|i: int| 0 <= i < s.len() ==> #[trigger] run_ok(s.update(loc, cand), i),
{
    let s2 = s.update(loc, cand);
    let cap = s.len() as int;
    assert forall|i: int| 0 <= i < s.len() implies #[trigger] slot_consistent(s2, maxd, i) by {
        if i != loc {
            assert(slot_consistent(s, maxd, i));
            assert(s2[i] == s[i]);
        }
    }
    assert forall|i: int| 0 <= i < s.len() implies #[trigger] run_ok(s2, i) by {
        let p = prev_index(i, cap);
        if i == loc {
            if cand.d() >= 1 {
                assert(p != loc);
                assert(s2[p] == s[p]);
            }
        } else if p == loc {
            assert(run_ok(s, i));
            assert(s2[i] == s[i]);
        } else {
            assert(run_ok(s, i));
            assert(s2[i] == s[i] && s2[p] == s[p]);
        }
    }
}

/// The backing storage: a power-of-two array of slots, the number of
/// pairs stored, and the largest displacement any insertion has ever
/// produced (never recomputed downward on deletion).
pub struct NodeStorage<V> {
    nodes: Vec<Node<V>>,
    max_distance_to_initial_bucket: usize,
    number_of_items: usize,
}

impl<V> View for NodeStorage<V> {
    type V = Seq<Node<V>>;

    closed spec fn view(&self) -> Seq<Node<V>> {
        self.nodes@
    }
}

impl<V> NodeStorage<V> {
    /// The running maximum displacement.
    pub closed spec fn maxd(&self) -> int {
        self.max_distance_to_initial_bucket as int
    }

    /// The recorded number of stored pairs.
    pub closed spec fn items(&self) -> int {
        self.number_of_items as int
    }

    /// The storage invariant: the slots are structurally sound, the item
    /// count matches the slots, and the table is never full.
    pub open spec fn wf(&self) -> bool {
        &&& wf_nodes(self@, self.maxd())
        &&& self.items() == occupied_count(self@)
        &&& self.items() < self@.len()
    }

    /// Fresh storage of `capacity` empty slots.
    pub fn with_size(capacity: usize) -> (r: Self)
        requires
            is_valid_capacity(capacity as int),
        ensures
            r.wf(),
            r@.len() == capacity,
            r.items() == 0,
            r.maxd() == 0,
            contents(r@) == Map::<u32, V>::empty(),
            forall|i: int| 0 <= i < capacity ==> !occ(r@, i),
    {
        let mut nodes: Vec<Node<V>> = Vec::new();
        while nodes.len() < capacity
            invariant
                nodes@.len() <= capacity,
                forall|i: int| 0 <= i < nodes@.len() ==> nodes@[i] is Empty,
            decreases capacity - nodes@.len(),
        {
            nodes.push(Node::new());
        }
        let r = NodeStorage { nodes, max_distance_to_initial_bucket: 0, number_of_items: 0 };
        proof {
            lemma_occupied_count_all_empty(r@);
            assert(contents(r@) =~= Map::<u32, V>::empty());
            vstd::arithmetic::power2::lemma_pow2_pos(
                choose|k: nat| k <= 32 && capacity == pow2(k),
            );
        }
        r
    }

    /// The number of slots.
    pub fn capacity(&self) -> (r: usize)
        ensures
            r == self@.len(),
    {
        self.nodes.len()
    }

    /// The number of stored pairs.
    pub fn len(&self) -> (r: usize)
        ensures
            r == self.items(),
    {
        self.number_of_items
    }

    /// Probe for `key`, whose hash must be `hash`, walking at most the
    /// running maximum displacement onward from the hash's ideal bucket.
    /// An empty slot on the way proves the key absent.
    pub fn get_location(&self, key: u32, hash: u32) -> (r: Option<usize>)
        requires
            self.wf(),
            hash == fx_hash_of(key),
        ensures
            match r {
                Some(i) => occ(self@, i as int) && self@[i as int].k() == key,
                None => !has_key(self@, key),
            },
            r is Some <==> has_key(self@, key),
    {
        let cap = self.nodes.len();
        let ghost capi = cap as int;
        let max_d = self.max_distance_to_initial_bucket;
        let mut location = fast_mod(cap, hash);
        let mut d: usize = 0;
        proof {
            vstd::arithmetic::div_mod::lemma_mod_division_less_than_divisor(hash as int, capi);
            vstd::arithmetic::div_mod::lemma_small_mod(((hash as int) % capi) as nat, capi as nat);
            assert(location == pos_of(hash, 0, capi));
        }
        loop
            invariant
                self.wf(),
                hash == fx_hash_of(key),
                cap == self@.len(),
                capi == cap as int,
                max_d == self.maxd(),
                0 <= d <= max_d + 1,
                location == pos_of(hash, d as int, capi),
                0 <= location < cap,
                forall|t: int|
                    0 <= t < d ==> occ(self@, #[trigger] pos_of(hash, t, capi)) && self@[pos_of(
                        hash,
                        t,
                        capi,
                    )].k() != key,
            decreases max_d + 1 - d,
        {
            if d > max_d {
                proof {
                    if has_key(self@, key) {
                        let i = choose|i: int| occ(self@, i) && self@[i].k() == key;
                        assert(slot_consistent(self@, self.maxd(), i));
                        lemma_walk_back(self@, self.maxd(), i, self@[i].d());
                        assert(false);
                    }
                }
                return None;
            }
            let node = &self.nodes[location];
            match node.key_ref() {
                Some(node_key) => {
                    if *node_key == key {
                        proof {
                            lemma_contents_at(self@, location as int);
                        }
                        return Some(location);
                    }
                },
                None => {
                    proof {
                        if has_key(self@, key) {
                            let i = choose|i: int| occ(self@, i) && self@[i].k() == key;
                            assert(slot_consistent(self@, self.maxd(), i));
                            let dist = self@[i].d();
                            if dist < d as int {
                                lemma_walk_back(self@, self.maxd(), i, dist);
                            } else {
                                lemma_walk_back(self@, self.maxd(), i, d as int);
                            }
                            assert(false);
                        }
                    }
                    return None;
                },
            }
            proof {
                lemma_pos_step(hash, d as int, capi);
            }
            location = if location + 1 == cap {
                0
            } else {
                location + 1
            };
            d = d + 1;
        }
    }

    /// Robin Hood insertion of a key known to be absent, with room
    /// guaranteed by the load-factor precondition. Walking onward from
    /// the hash's ideal bucket, an occupant displaced strictly less far
    /// than the candidate is evicted and carries on in the candidate's
    /// place; the first empty slot ends the walk. Returns the slot where
    /// the requested pair itself landed.
    pub fn insert_new(&mut self, key: u32, value: V, hash: u32) -> (r: usize)
        requires
            old(self).wf(),
            hash == fx_hash_of(key),
            !has_key(old(self)@, key),
            old(self).items() < 85 * old(self)@.len() / 100,
        ensures
            final (self).wf(),
            final (self)@.len() == old(self)@.len(),
            contents(final (self)@) == contents(old(self)@).insert(key, value),
            final (self).items() == old(self).items() + 1,
            final (self).maxd() >= old(self).maxd(),
            occ(final (self)@, r as int),
            final (self)@[r as int].k() == key,
            final (self)@[r as int].v() == value,
    {
        let cap = self.nodes.len();
        let ghost capi = cap as int;
        let ghost orig = self@;
        let ghost maxd0 = self.maxd();
        let ghost items0 = self.items();
        proof {
            lemma_load_factor_room(capi, self.items());
            lemma_occupied_count_full(orig);
        }
        let mut new_node = Node::new_with(key, value, hash);
        let mut inserted_location: usize = usize::MAX;
        let mut location = fast_mod(cap, hash);
        let ghost mut steps: int = 0;
        let ghost mut inserted_step: int = 0;
        proof {
            vstd::arithmetic::div_mod::lemma_mod_division_less_than_divisor(hash as int, capi);
            vstd::arithmetic::div_mod::lemma_small_mod(((hash as int) % capi) as nat, capi as nat);
            assert(location == pos_of(hash, 0, capi));
            let e = choose|i: int| 0 <= i < capi && !(orig[i] is Occupied);
            let j = (e - location) % capi;
            vstd::arithmetic::div_mod::lemma_mod_division_less_than_divisor(e - location, capi);
            vstd::arithmetic::div_mod::lemma_add_mod_noop_right(location as int, e - location, capi);
            vstd::arithmetic::div_mod::lemma_small_mod(e as nat, capi as nat);
            assert((location + j) % capi == e);
            assert(!(self@[wrap_add(location as int, j, capi)] is Occupied));
        }
        loop
            invariant_except_break
                cap as int == capi,
                capi >= 2,
                is_valid_capacity(capi),
                self@.len() == capi,
                hash == fx_hash_of(key),
                new_node is Occupied,
                new_node.h() == fx_hash_of(new_node.k()),
                0 <= new_node.d() <= self.maxd(),
                new_node.d() <= steps,
                0 <= location < cap,
                location == pos_of(new_node.h(), new_node.d(), capi),
                location == pos_of(hash, steps, capi),
                0 <= self.maxd() < capi,
                self.maxd() >= maxd0,
                self.items() == items0,
                items0 == occupied_count(orig),
                occupied_count(self@) == occupied_count(orig),
                forall|i: int| 0 <= i < capi ==> #[trigger] slot_consistent(self@, self.maxd(), i),
                forall|i: int| 0 <= i < capi ==> #[trigger] run_ok(self@, i),
                keys_unique(self@),
                forall|i: int| occ(self@, i) ==> self@[i].k() != new_node.k(),
                new_node.d() >= 1 ==> occ(self@, prev_index(location as int, capi)) && self@[
                    prev_index(location as int, capi)
                ].d() >= new_node.d() - 1,
                contents(self@).insert(new_node.k(), new_node.v()) == contents(orig).insert(
                    key,
                    value,
                ),
                0 <= steps < capi,
                exists|j: int|
                    0 <= j < capi - steps && !(self@[#[trigger] wrap_add(
                        location as int,
                        j,
                        capi,
                    )] is Occupied),
                inserted_location != usize::MAX ==> 0 <= inserted_step < steps
                    && inserted_location == pos_of(hash, inserted_step, capi) && occ(
                    self@,
                    inserted_location as int,
                ) && self@[inserted_location as int].k() == key && self@[
                    inserted_location as int
                ].v() == value,
                inserted_location == usize::MAX ==> new_node.k() == key && new_node.v() == value,
            ensures
                cap as int == capi,
                self@.len() == capi,
                forall|i: int| 0 <= i < capi ==> #[trigger] slot_consistent(self@, self.maxd(), i),
                forall|i: int| 0 <= i < capi ==> #[trigger] run_ok(self@, i),
                keys_unique(self@),
                0 <= self.maxd() < capi,
                self.maxd() >= maxd0,
                self.items() == items0,
                occupied_count(self@) == occupied_count(orig) + 1,
                contents(self@) == contents(orig).insert(key, value),
                inserted_location != usize::MAX,
                occ(self@, inserted_location as int),
                self@[inserted_location as int].k() == key,
                self@[inserted_location as int].v() == value,
            decreases capi - steps,
        {
            let ghost s_before = self@;
            let ghost cand_before = new_node;
            let ghost maxd_mid = self.maxd();
            let current_has = self.nodes[location].has_value();
            if current_has {
                let cur_dist = self.nodes[location].get_distance();
                let cand_dist = new_node.get_distance();
                if cur_dist < cand_dist {
                    core::mem::swap(&mut self.nodes[location], &mut new_node);
                    proof {
                        assert(self@ == s_before.update(location as int, cand_before));
                        assert(slot_consistent(s_before, maxd_mid, location as int));
                        lemma_insert_swap(s_before, maxd_mid, location as int, cand_before);
                        lemma_contents_swap(s_before, location as int, cand_before);
                        lemma_contents_at(s_before, location as int);
                        lemma_occupied_count_update(s_before, location as int, cand_before);
                        assert(contents(self@).insert(new_node.k(), new_node.v())
                            =~= contents(s_before).insert(cand_before.k(), cand_before.v()));
                        if inserted_location != usize::MAX {
                            lemma_pos_distinct(hash, inserted_step, steps, capi);
                            assert(self@[inserted_location as int] == s_before[
                                inserted_location as int
                            ]);
                        }
                    }
                    if inserted_location == usize::MAX {
                        inserted_location = location;
                        proof {
                            inserted_step = steps;
                        }
                    }
                }
            } else {
                core::mem::swap(&mut self.nodes[location], &mut new_node);
                proof {
                    assert(self@ == s_before.update(location as int, cand_before));
                    lemma_insert_place(s_before, maxd_mid, location as int, cand_before);
                    lemma_contents_place(s_before, location as int, cand_before);
                    lemma_occupied_count_update(s_before, location as int, cand_before);
                    if inserted_location != usize::MAX {
                        lemma_pos_distinct(hash, inserted_step, steps, capi);
                        assert(self@[inserted_location as int] == s_before[
                            inserted_location as int
                        ]);
                    }
                }
                if inserted_location == usize::MAX {
                    inserted_location = location;
                    proof {
                        inserted_step = steps;
                    }
                }
                break ;
            }
            let ghost s_mid = self@;
            let ghost cand_mid = new_node;
            new_node.increment_distance();
            let nd = new_node.get_distance();
            if self.max_distance_to_initial_bucket < nd {
                self.max_distance_to_initial_bucket = nd;
            }
            proof {
                let maxd_new = self.maxd();
                // the running maximum only grew, so per-slot consistency survives
                assert forall|i: int| 0 <= i < capi implies #[trigger] slot_consistent(
                    self@,
                    maxd_new,
                    i,
                ) by {
                    assert(slot_consistent(s_mid, maxd_mid, i));
                }
                // the evicted or retained candidate probes the next slot
                assert(location == pos_of(cand_mid.h(), cand_mid.d(), capi));
                lemma_pos_step(cand_mid.h(), cand_mid.d(), capi);
                lemma_pos_step(hash, steps, capi);
                // the slot just visited anchors the candidate's run
                assert(occ(self@, location as int));
                assert(self@[location as int].d() >= new_node.d() - 1);
                // shift the empty-slot witness one step onward
                assert(s_before[location as int] is Occupied);
                let j = choose|j: int|
                    0 <= j < capi - steps && !(s_before[#[trigger] wrap_add(
                        location as int,
                        j,
                        capi,
                    )] is Occupied);
                vstd::arithmetic::div_mod::lemma_small_mod(location as nat, capi as nat);
                assert(j >= 1);
                lemma_wrap_distinct(location as int, j, capi);
                assert(self@[wrap_add(location as int, j, capi)] == s_before[wrap_add(
                    location as int,
                    j,
                    capi,
                )]);
                let loc2 = next_index(location as int, capi);
                if location as int + 1 == capi {
                    vstd::arithmetic::div_mod::lemma_mod_multiples_vanish(1, j - 1, capi);
                    vstd::arithmetic::div_mod::lemma_small_mod((j - 1) as nat, capi as nat);
                    assert(wrap_add(loc2, j - 1, capi) == wrap_add(location as int, j, capi));
                } else {
                    assert(wrap_add(loc2, j - 1, capi) == wrap_add(location as int, j, capi));
                }
                assert(!(self@[wrap_add(loc2, j - 1, capi)] is Occupied));
                steps = steps + 1;
                assert(0 <= j - 1 < capi - steps);
            }
            location = if location + 1 == cap {
                0
            } else {
                location + 1
            };
        }
        self.number_of_items = self.number_of_items + 1;
        proof {
            lemma_load_factor_room(capi, items0);
        }
        inserted_location
    }

    /// Backward-shift deletion. The pair at `location` is taken out; the
    /// run of displaced slots after it moves back one slot each, so the
    /// table stays free of tombstones. Stops at the first slot that is
    /// empty or already in its ideal bucket.
    pub fn remove_from_location(&mut self, location: usize) -> (r: V)
        requires
            old(self).wf(),
            occ(old(self)@, location as int),
        ensures
            final (self).wf(),
            final (self)@.len() == old(self)@.len(),
            contents(final (self)@) == contents(old(self)@).remove(
                old(self)@[location as int].k(),
            ),
            final (self).items() == old(self).items() - 1,
            final (self).maxd() == old(self).maxd(),
            r == old(self)@[location as int].v(),
    {
        let cap = self.nodes.len();
        let ghost capi = cap as int;
        let ghost orig = self@;
        let ghost maxd0 = self.maxd();
        let ghost items0 = self.items();
        let ghost kr = self@[location as int].k();
        let ghost vr = self@[location as int].v();
        proof {
            lemma_occupied_count_pos(orig, location as int);
        }
        self.number_of_items = self.number_of_items - 1;
        let mut current_location = location;
        let ghost mut steps: int = 0;
        proof {
            // there is an empty slot somewhere onward of the walk
            lemma_occupied_count_full(orig);
            let e = choose|i: int| 0 <= i < capi && !(orig[i] is Occupied);
            let j = (e - current_location) % capi;
            vstd::arithmetic::div_mod::lemma_mod_division_less_than_divisor(
                e - current_location,
                capi,
            );
            vstd::arithmetic::div_mod::lemma_add_mod_noop_right(
                current_location as int,
                e - current_location,
                capi,
            );
            vstd::arithmetic::div_mod::lemma_small_mod(e as nat, capi as nat);
            assert(!(self@[wrap_add(current_location as int, j, capi)] is Occupied));
            // the first step of the run condition, from the intact table
            assert(run_ok(orig, location as int));
            assert(run_ok(orig, next_index(location as int, capi)));
            assert(slot_consistent(orig, maxd0, location as int));
        }
        loop
            invariant
                cap as int == capi,
                self@.len() == capi,
                is_valid_capacity(capi),
                orig == old(self)@,
                orig.len() == capi,
                kr == old(self)@[location as int].k(),
                vr == old(self)@[location as int].v(),
                maxd0 == old(self).maxd(),
                items0 == old(self).items(),
                0 <= current_location < cap,
                occ(self@, current_location as int),
                self@[current_location as int].k() == kr,
                self@[current_location as int].v() == vr,
                capi == 1 ==> self@[current_location as int].d() == 0,
                0 <= maxd0 < capi,
                maxd0 == self.maxd(),
                self.items() == items0 - 1,
                items0 == occupied_count(orig),
                1 <= items0 < capi,
                occupied_count(self@) == occupied_count(orig),
                contents(self@) == contents(orig),
                keys_unique(self@),
                forall|i: int|
                    0 <= i < capi && i != current_location as int ==> #[trigger] slot_consistent(
                        self@,
                        maxd0,
                        i,
                    ),
                forall|i: int|
                    0 <= i < capi && i != current_location as int && i != next_index(
                        current_location as int,
                        capi,
                    ) ==> #[trigger] run_ok(self@, i),
                (occ(self@, next_index(current_location as int, capi)) && self@[next_index(
                    current_location as int,
                    capi,
                )].d() >= 2) ==> (occ(self@, prev_index(current_location as int, capi)) && self@[
                    prev_index(current_location as int, capi)
                ].d() >= self@[next_index(current_location as int, capi)].d() - 2),
                0 <= steps < capi,
                exists|j: int|
                    0 <= j < capi - steps && !(self@[#[trigger] wrap_add(
                        current_location as int,
                        j,
                        capi,
                    )] is Occupied),
            decreases capi - steps,
        {
            let next_location = if current_location + 1 == cap {
                0
            } else {
                current_location + 1
            };
            let ghost s_at = self@;
            let ghost curi = current_location as int;
            let ghost nexti = next_location as int;
            let next_has = self.nodes[next_location].has_value();
            let stop = if next_has {
                self.nodes[next_location].get_distance() == 0
            } else {
                true
            };
            if stop {
                let mut tmp = Node::Empty;
                core::mem::swap(&mut self.nodes[current_location], &mut tmp);
                proof {
                    assert(self@ == s_at.update(curi, Node::Empty));
                    lemma_contents_take(s_at, curi, Node::<V>::Empty);
                    lemma_occupied_count_update(s_at, curi, Node::<V>::Empty);
                    let s2 = self@;
                    assert forall|i: int| 0 <= i < capi implies #[trigger] slot_consistent(
                        s2,
                        maxd0,
                        i,
                    ) by {
                        if i != curi {
                            assert(slot_consistent(s_at, maxd0, i));
                            assert(s2[i] == s_at[i]);
                        }
                    }
                    assert forall|i: int| 0 <= i < capi implies #[trigger] run_ok(s2, i) by {
                        let p = prev_index(i, capi);
                        if i == curi {
                        } else if i == nexti {
                            assert(s2[i] == s_at[i]);
                        } else {
                            assert(run_ok(s_at, i));
                            assert(p != curi ==> s2[p] == s_at[p]);
                            assert(s2[i] == s_at[i]);
                            if p == curi {
                                assert(i == next_index(curi, capi));
                            }
                        }
                    }
                    assert(contents(self@) =~= contents(orig).remove(kr));
                }
                match tmp {
                    Node::Occupied { value, .. } => {
                        return value;
                    },
                    Node::Empty => {
                        return unreached();
                    },
                }
            } else {
                // shift the next slot back into the current one
                proof {
                    if capi == 1 {
                        assert(nexti == curi);
                        assert(false);
                    }
                    assert(capi >= 2);
                    assert(nexti != curi);
                    assert(slot_consistent(s_at, maxd0, nexti));
                }
                let mut tmp = Node::Empty;
                core::mem::swap(&mut self.nodes[next_location], &mut tmp);
                tmp.decrement_distance();
                core::mem::swap(&mut self.nodes[current_location], &mut tmp);
                core::mem::swap(&mut self.nodes[next_location], &mut tmp);
                proof {
                    let m_dec = self@[curi];
                    let r_node = self@[nexti];
                    assert(self@ =~= s_at.update(curi, m_dec).update(nexti, r_node));
                    assert(r_node == s_at[curi]);
                    assert(m_dec is Occupied && m_dec.k() == s_at[nexti].k() && m_dec.v()
                        == s_at[nexti].v() && m_dec.h() == s_at[nexti].h() && m_dec.d()
                        == s_at[nexti].d() - 1);
                    lemma_contents_two_swap(s_at, curi, nexti, m_dec, r_node);
                    lemma_occupied_count_update(s_at, curi, m_dec);
                    lemma_occupied_count_update(s_at.update(curi, m_dec), nexti, r_node);
                    let s2 = self@;
                    // the shifted slot still walks back to its ideal bucket
                    let dm = s_at[nexti].d();
                    lemma_pos_step(s_at[nexti].h(), dm - 1, capi);
                    assert(prev_index(nexti, capi) == curi);
                    assert(curi == pos_of(m_dec.h(), m_dec.d(), capi));
                    assert forall|i: int| 0 <= i < capi && i != nexti implies
                        #[trigger] slot_consistent(s2, maxd0, i) by {
                        if i == curi {
                        } else {
                            assert(slot_consistent(s_at, maxd0, i));
                            assert(s2[i] == s_at[i]);
                        }
                    }
                    let nn = next_index(nexti, capi);
                    assert forall|i: int|
                        0 <= i < capi && i != nexti && i != nn implies #[trigger] run_ok(
                        s2,
                        i,
                    ) by {
                        let p = prev_index(i, capi);
                        if i == curi {
                            // anchored by the special two-back fact
                            if m_dec.d() >= 1 {
                                assert(s_at[nexti].d() >= 2);
                                assert(p == prev_index(curi, capi));
                                if p != curi && p != nexti {
                                    assert(s2[p] == s_at[p]);
                                } else {
                                    assert(p == nexti ==> capi == 2);
                                    if p == nexti {
                                        assert(m_dec.d() < capi);
                                        assert(false);
                                    }
                                    assert(p != curi);
                                }
                            }
                        } else {
                            assert(run_ok(s_at, i));
                            assert(s2[i] == s_at[i]);
                            if p == curi {
                                assert(i == next_index(curi, capi) && i == nexti);
                                assert(false);
                            } else if p == nexti {
                                assert(i == nn);
                                assert(false);
                            } else {
                                assert(s2[p] == s_at[p]);
                            }
                        }
                    }
                    // the two-back fact one step onward
                    if occ(s2, nn) && s2[nn].d() >= 2 {
                        assert(prev_index(nexti, capi) == curi);
                        if nn == curi {
                            assert(capi == 2);
                        } else {
                            assert(s2[nn] == s_at[nn]);
                            assert(run_ok(s_at, nn));
                        }
                        assert(occ(s2, curi) && s2[curi].d() >= s2[nn].d() - 2);
                    }
                    // shift the empty-slot witness
                    assert(s_at[curi] is Occupied);
                    let j = choose|j: int|
                        0 <= j < capi - steps && !(s_at[#[trigger] wrap_add(
                            curi,
                            j,
                            capi,
                        )] is Occupied);
                    vstd::arithmetic::div_mod::lemma_small_mod(curi as nat, capi as nat);
                    assert(j >= 1);
                    lemma_wrap_distinct(curi, j, capi);
                    let w = wrap_add(curi, j, capi);
                    assert(w != curi);
                    assert(w != nexti);
                    assert(s2[w] == s_at[w]);
                    if curi + 1 == capi {
                        vstd::arithmetic::div_mod::lemma_mod_multiples_vanish(1, j - 1, capi);
                        vstd::arithmetic::div_mod::lemma_small_mod((j - 1) as nat, capi as nat);
                        assert(wrap_add(nexti, j - 1, capi) == w);
                    } else {
                        assert(wrap_add(nexti, j - 1, capi) == w);
                    }
                    assert(!(s2[wrap_add(nexti, j - 1, capi)] is Occupied));
                    steps = steps + 1;
                }
                current_location = next_location;
            }
        }
    }

    /// Overwrite both key and value of an occupied slot holding that
    /// same key; the previous pair is handed back so the caller's drop
    /// of it is explicit.
    pub fn replace_at_location(&mut self, location: usize, key: u32, value: V) -> (r: V)
        requires
            old(self).wf(),
            occ(old(self)@, location as int),
            old(self)@[location as int].k() == key,
        ensures
            final (self).wf(),
            final (self)@.len() == old(self)@.len(),
            contents(final (self)@) == contents(old(self)@).insert(key, value),
            final (self).items() == old(self).items(),
            final (self).maxd() == old(self).maxd(),
            r == old(self)@[location as int].v(),
            occ(final (self)@, location as int),
            final (self)@[location as int].k() == key,
            final (self)@[location as int].v() == value,
    {
        let ghost s_at = self@;
        let ghost loci = location as int;
        let mut tmp = Node::Empty;
        core::mem::swap(&mut self.nodes[location], &mut tmp);
        let pair = tmp.replace(key, value);
        core::mem::swap(&mut self.nodes[location], &mut tmp);
        proof {
            let s2 = self@;
            assert(s2 =~= s_at.update(loci, s2[loci]));
            assert(slot_consistent(s_at, self.maxd(), loci));
            lemma_contents_replace(s_at, loci, s2[loci]);
            lemma_occupied_count_update(s_at, loci, s2[loci]);
            assert forall|i: int| 0 <= i < s2.len() implies #[trigger] slot_consistent(
                s2,
                self.maxd(),
                i,
            ) by {
                if i != loci {
                    assert(slot_consistent(s_at, self.maxd(), i));
                    assert(s2[i] == s_at[i]);
                }
            }
            assert forall|i: int| 0 <= i < s2.len() implies #[trigger] run_ok(s2, i) by {
                assert(run_ok(s_at, i));
                let p = prev_index(i, s2.len() as int);
                assert(s2[i].d() == s_at[i].d() && (s2[i] is Occupied <==> s_at[i] is Occupied));
                assert(s2[p].d() == s_at[p].d() && (s2[p] is Occupied <==> s_at[p] is Occupied));
            }
        }
        pair.1
    }

    /// Move every pair into a fresh table of `new_size` slots,
    /// re-deriving each slot from its cached hash; ideal buckets change
    /// with the capacity, so each pair is re-inserted from scratch. The
    /// old storage is left drained: every slot empty, nothing left to
    /// destroy twice.
    pub fn resized_to(&mut self, new_size: usize) -> (r: Self)
        requires
            old(self).wf(),
            is_valid_capacity(new_size as int),
            old(self).items() <= 85 * (new_size as int) / 100,
        ensures
            r.wf(),
            r@.len() == new_size,
            contents(r@) == contents(old(self)@),
            r.items() == old(self).items(),
            final (self).wf(),
            final (self)@.len() == old(self)@.len(),
            forall|i: int| 0 <= i < final (self)@.len() ==> !occ(final (self)@, i),
            contents(final (self)@) == Map::<u32, V>::empty(),
            final (self).items() == 0,
    {
        let mut new_storage = Self::with_size(new_size);
        let cap = self.nodes.len();
        let ghost capi = cap as int;
        let ghost orig = self@;
        let ghost maxd0 = self.maxd();
        let ghost items0 = self.items();
        let mut i: usize = 0;
        while i < cap
            invariant
                cap as int == capi,
                self@.len() == capi,
                orig.len() == capi,
                0 <= i <= cap,
                orig == old(self)@,
                items0 == old(self).items(),
                items0 == occupied_count(orig),
                items0 <= 85 * (new_size as int) / 100,
                keys_unique(orig),
                forall|j: int| 0 <= j < capi ==> #[trigger] slot_consistent(orig, maxd0, j),
                forall|j: int| i <= j < capi ==> self@[j] == orig[j],
                forall|j: int| 0 <= j < i ==> self@[j] is Empty,
                new_storage.wf(),
                new_storage@.len() == new_size,
                contents(new_storage@) == contents(orig.subrange(0, i as int)),
                new_storage.items() == occupied_count(orig.subrange(0, i as int)),
                keys_unique(orig.subrange(0, i as int)),
            decreases cap - i,
        {
            let ghost prefix = orig.subrange(0, i as int);
            let mut tmp = Node::Empty;
            core::mem::swap(&mut self.nodes[i], &mut tmp);
            proof {
                assert(tmp == orig[i as int]);
                assert(slot_consistent(orig, maxd0, i as int));
                if tmp is Occupied {
                    assert(!has_key(prefix, tmp.k())) by {
                        if has_key(prefix, tmp.k()) {
                            let j = choose|j: int| occ(prefix, j) && prefix[j].k() == tmp.k();
                            assert(prefix[j] == orig[j]);
                            assert(occ(orig, j));
                            assert(occ(orig, i as int));
                            assert(orig[j].k() == orig[i as int].k());
                            assert(false);
                        }
                    }
                    if has_key(new_storage@, tmp.k()) {
                        let j = choose|j: int|
                            occ(new_storage@, j) && new_storage@[j].k() == tmp.k();
                        lemma_contents_at(new_storage@, j);
                        lemma_contents_absent(prefix, tmp.k());
                        assert(false);
                    }
                    lemma_occupied_count_prefix_lt(orig, i as int, i as int);
                }
                lemma_contents_push(prefix, tmp);
                assert(prefix.push(tmp) =~= orig.subrange(0, i as int + 1));
            }
            match tmp {
                Node::Occupied { key, value, hash, .. } => {
                    new_storage.insert_new(key, value, hash);
                },
                Node::Empty => {},
            }
            i = i + 1;
        }
        self.number_of_items = 0;
        self.max_distance_to_initial_bucket = 0;
        proof {
            assert(orig.subrange(0, capi) =~= orig);
            lemma_occupied_count_all_empty(self@);
            assert(contents(self@) =~= Map::<u32, V>::empty());
        }
        new_storage
    }
}

/// The public container: a Robin Hood table plus the stateless hasher
/// that turns a key into its 32-bit hash.
pub struct HashMap<V> {
    nodes: NodeStorage<V>,
}

impl<V> View for HashMap<V> {
    type V = Map<u32, V>;

    closed spec fn view(&self) -> Map<u32, V> {
        contents(self.nodes@)
    }
}

impl<V> HashMap<V> {
    /// The map invariant, established by the constructors and kept by
    /// every operation.
    pub closed spec fn wf(&self) -> bool {
        self.nodes.wf()
    }

    /// The current number of slots.
    pub closed spec fn spec_capacity(&self) -> int {
        self.nodes@.len() as int
    }

    /// The backing slots, for stating storage-level facts such as the
    /// displacement invariant.
    pub closed spec fn slots(&self) -> Seq<Node<V>> {
        self.nodes@
    }

    /// A map with the default capacity of sixteen slots.
    pub fn new() -> (r: Self)
        ensures
            r.wf(),
            r@ == Map::<u32, V>::empty(),
            r.spec_capacity() == 16,
    {
        proof {
            vstd::arithmetic::power2::lemma2_to64();
            assert(16 == pow2(4));
        }
        Self::with_capacity(16)
    }

    /// A map with `capacity` slots, which must be a power of two.
    pub fn with_capacity(capacity: usize) -> (r: Self)
        requires
            is_valid_capacity(capacity as int),
        ensures
            r.wf(),
            r@ == Map::<u32, V>::empty(),
            r.spec_capacity() == capacity,
    {
        HashMap { nodes: NodeStorage::with_size(capacity) }
    }

    /// The current number of slots.
    pub fn capacity(&self) -> (r: usize)
        ensures
            r == self.spec_capacity(),
    {
        self.nodes.capacity()
    }

    /// How many keys are stored.
    pub fn len(&self) -> (r: usize)
        requires
            self.wf(),
        ensures
            r == self@.dom().len(),
            self@.dom().finite(),
    {
        proof {
            lemma_count_matches_dom(self.nodes@);
        }
        self.nodes.len()
    }

    /// Whether no key is stored.
    pub fn is_empty(&self) -> (r: bool)
        requires
            self.wf(),
        ensures
            r <==> self@ == Map::<u32, V>::empty(),
    {
        proof {
            lemma_count_matches_dom(self.nodes@);
            if self@.dom().len() == 0 {
                vstd::set_lib::lemma_set_empty_equivalency_len(self@.dom());
                assert(self@ =~= Map::<u32, V>::empty());
            } else {
                assert(self@ != Map::<u32, V>::empty()) by {
                    if self@ =~= Map::<u32, V>::empty() {
                        assert(self@.dom().len() == 0);
                    }
                }
            }
        }
        self.len() == 0
    }

    /// The hash the stored hasher assigns to `key`.
    fn hash(&self, key: u32) -> (h: u32)
        ensures
            h == fx_hash_of(key),
    {
        hash_key(key)
    }

    /// Grow the table to `new_size` slots, a power of two at least the
    /// current capacity; asking for the current capacity does nothing.
    /// Every stored pair is kept.
    pub fn resize(&mut self, new_size: usize)
        requires
            old(self).wf(),
            is_valid_capacity(new_size as int),
            new_size >= old(self).spec_capacity(),
        ensures
            final (self).wf(),
            final (self)@ == old(self)@,
            final (self).spec_capacity() == new_size,
    {
        let cap = self.nodes.capacity();
        if new_size == cap {
            return ;
        }
        proof {
            lemma_valid_capacity_double(cap as int, new_size as int);
            lemma_double_capacity_room(cap as int);
            vstd::arithmetic::div_mod::lemma_div_is_ordered(
                170 * (cap as int),
                85 * (new_size as int),
                100,
            );
        }
        let new_nodes = self.nodes.resized_to(new_size);
        self.nodes = new_nodes;
    }

    /// Insert `key` with `value`. An already-present key has its key and
    /// value overwritten in place; a new key is placed after doubling
    /// the table when and only when the stored count has reached 85% of
    /// capacity. The stored value is handed back for mutation: the map
    /// then holds whatever the caller leaves behind the reference.
    pub fn insert<'a>(&'a mut self, key: u32, value: V) -> (r: &'a mut V)
        requires
            old(self).wf(),
            (!old(self)@.contains_key(key) && old(self)@.dom().len() >= 85 * old(self).spec_capacity() / 100)
                ==> (2 * old(self).spec_capacity() <= 0x1_0000_0000
                    && 2 * old(self).spec_capacity() <= usize::MAX),
        ensures
            *r == value,
            final (self).wf(),
            final (self)@ == old(self)@.insert(key, *final (r)),
            (old(self)@.contains_key(key) || old(self)@.dom().len() < 85 * old(self).spec_capacity() / 100)
                ==> final (self).spec_capacity() == old(self).spec_capacity(),
            (!old(self)@.contains_key(key) && old(self)@.dom().len() >= 85 * old(self).spec_capacity() / 100)
                ==> final (self).spec_capacity() == 2 * old(self).spec_capacity(),
    {
        let hash = self.hash(key);
        let location: usize = match self.nodes.get_location(key, hash) {
            Some(location) => {
                proof {
                    lemma_contents_at(self.nodes@, location as int);
                }
                let _old_value = self.nodes.replace_at_location(location, key, value);
                location
            },
            None => {
                proof {
                    lemma_contents_absent(self.nodes@, key);
                    lemma_count_matches_dom(self.nodes@);
                }
                let cap = self.nodes.capacity();
                let items = self.nodes.len();
                proof {
                    assert(is_valid_capacity(cap as int));
                    let k0 = choose|k: nat| k <= 32 && cap as int == pow2(k);
                    if k0 < 32 {
                        vstd::arithmetic::power2::lemma_pow2_strictly_increases(k0, 32);
                    }
                    vstd::arithmetic::power2::lemma2_to64();
                    assert(cap as int <= 0x1_0000_0000);
                }
                if (cap as u64) * 85 / 100 <= (items as u64) {
                    let ghost k = choose|k: nat| k <= 32 && self.spec_capacity() == pow2(k);
                    proof {
                        assert(2 * self.spec_capacity() == pow2(k + 1)) by {
                            vstd::arithmetic::power2::lemma_pow2_adds(k, 1);
                            vstd::arithmetic::power2::lemma2_to64();
                        }
                        assert(k + 1 <= 32) by {
                            if k + 1 > 32 {
                                assert(k == 32);
                                assert(2 * self.spec_capacity() > 0x1_0000_0000) by {
                                    vstd::arithmetic::power2::lemma2_to64();
                                }
                            }
                        }
                        lemma_double_capacity_room(cap as int);
                    }
                    let new_cap = cap * 2;
                    self.resize(new_cap);
                    proof {
                        lemma_count_matches_dom(self.nodes@);
                    }
                }
                self.nodes.insert_new(key, value, hash)
            },
        };
        proof {
            let s0 = self.nodes@;
            let maxd0 = self.nodes.maxd();
            let loci = location as int;
            assert forall|x: Node<V>|
                x is Occupied && x.k() == s0[loci].k() && x.h() == s0[loci].h()
                    && x.d() == s0[loci].d() implies (wf_nodes(#[trigger] s0.update(loci, x), maxd0) && contents(
                s0.update(loci, x),
            ) == old(self)@.insert(key, x.v()) && occupied_count(s0.update(loci, x))
                == occupied_count(s0)) by {
                lemma_value_update_keeps_wf(s0, maxd0, loci, x);
                assert(contents(s0).insert(key, x.v()) =~= old(self)@.insert(key, x.v()));
            }
        }
        match self.nodes.nodes[location].value_mut() {
            Some(m) => m,
            None => unreached(),
        }
    }

    /// Look `key` up, handing back the stored value if it is present.
    pub fn get(&self, key: u32) -> (r: Option<&V>)
        requires
            self.wf(),
        ensures
            match r {
                Some(v) => self@.contains_key(key) && *v == self@[key],
                None => !self@.contains_key(key),
            },
            r is Some <==> self@.contains_key(key),
    {
        let hash = self.hash(key);
        match self.nodes.get_location(key, hash) {
            Some(location) => {
                proof {
                    lemma_contents_at(self.nodes@, location as int);
                }
                self.nodes.nodes[location].value_ref()
            },
            None => {
                proof {
                    lemma_contents_absent(self.nodes@, key);
                }
                None
            },
        }
    }

    /// Look `key` up for mutation. The caller may write through the
    /// handed-out reference; the map then stores exactly what was
    /// written, under the same key.
    pub fn get_mut<'a>(&'a mut self, key: u32) -> (r: Option<&'a mut V>)
        requires
            old(self).wf(),
        ensures
            match r {
                Some(m) => old(self)@.contains_key(key) && *m == old(self)@[key]
                    && final (self).wf() && final (self)@ == old(self)@.insert(key, *final (m))
                    && final (self).spec_capacity() == old(self).spec_capacity(),
                None => !old(self)@.contains_key(key) && *final (self) == *old(self),
            },
    {
        let hash = self.hash(key);
        match self.nodes.get_location(key, hash) {
            Some(location) => {
                proof {
                    lemma_contents_at(self.nodes@, location as int);
                    let s0 = self.nodes@;
                    let maxd0 = self.nodes.maxd();
                    let loci = location as int;
                    assert forall|x: Node<V>|
                        x is Occupied && x.k() == s0[loci].k() && x.h() == s0[loci].h() && x.d()
                            == s0[loci].d() implies (wf_nodes(
                        #[trigger] s0.update(loci, x),
                        maxd0,
                    ) && contents(s0.update(loci, x)) == contents(s0).insert(key, x.v())
                        && occupied_count(s0.update(loci, x)) == occupied_count(s0)) by {
                        lemma_value_update_keeps_wf(s0, maxd0, loci, x);
                    }
                }
                self.nodes.nodes[location].value_mut()
            },
            None => {
                proof {
                    lemma_contents_absent(self.nodes@, key);
                }
                None
            },
        }
    }

    /// Remove `key`, handing back its value if it was present. Removing
    /// an absent key changes nothing and is reported as absent.
    pub fn remove(&mut self, key: u32) -> (r: Option<V>)
        requires
            old(self).wf(),
        ensures
            final (self).wf(),
            final (self)@ == old(self)@.remove(key),
            old(self)@.contains_key(key) ==> r == Some(old(self)@[key]),
            !old(self)@.contains_key(key) ==> r is None && final (self)@ == old(self)@,
            final (self).spec_capacity() == old(self).spec_capacity(),
    {
        let hash = self.hash(key);
        match self.nodes.get_location(key, hash) {
            Some(location) => {
                proof {
                    lemma_contents_at(self.nodes@, location as int);
                }
                let value = self.nodes.remove_from_location(location);
                Some(value)
            },
            None => {
                proof {
                    lemma_contents_absent(self.nodes@, key);
                    assert(old(self)@.remove(key) =~= old(self)@);
                }
                None
            },
        }
    }

    /// Indexed access: the conventional fatal lookup, so the key must be
    /// present.
    pub fn index(&self, key: u32) -> (r: &V)
        requires
            self.wf(),
            self@.contains_key(key),
        ensures
            *r == self@[key],
    {
        match self.get(key) {
            Some(v) => v,
            None => unreached(),
        }
    }

    /// Resolve `key` once: either to the slot it occupies or to the bare
    /// key, so a caller can decide between reading and inserting without
    /// hashing again. The view is valid until the map is next mutated.
    pub fn entry(&self, key: u32) -> (e: Entry)
        requires
            self.wf(),
        ensures
            match e {
                Entry::Occupied(oe) => oe.key_spec() == key && oe.valid(*self)
                    && self@.contains_key(key),
                Entry::Vacant(ve) => ve.key_spec() == key && !self@.contains_key(key),
            },
    {
        let hash = self.hash(key);
        let location = self.nodes.get_location(key, hash);
        match location {
            Some(location) => {
                proof {
                    lemma_contents_at(self.nodes@, location as int);
                }
                Entry::Occupied(OccupiedEntry { key, location })
            },
            None => {
                proof {
                    lemma_contents_absent(self.nodes@, key);
                }
                Entry::Vacant(VacantEntry { key })
            },
        }
    }
}

/// A key resolved to the slot it occupies; valid until the next
/// structural change of the map it was taken from.
pub struct OccupiedEntry {
    key: u32,
    location: usize,
}

impl OccupiedEntry {
    /// The key this entry was resolved for.
    pub closed spec fn key_spec(&self) -> u32 {
        self.key
    }

    /// The entry still names the slot holding its key in `m`.
    pub closed spec fn valid<V>(&self, m: HashMap<V>) -> bool {
        occ(m.nodes@, self.location as int) && m.nodes@[self.location as int].k() == self.key
    }

    /// The key this entry was resolved for.
    pub fn key(&self) -> (r: u32)
        ensures
            r == self.key_spec(),
    {
        self.key
    }

    /// Read the value stored under the entry's key.
    pub fn get<'a, V>(&self, map: &'a HashMap<V>) -> (r: &'a V)
        requires
            map.wf(),
            self.valid(*map),
        ensures
            map@.contains_key(self.key_spec()),
            *r == map@[self.key_spec()],
    {
        proof {
            lemma_contents_at(map.nodes@, self.location as int);
        }
        match map.nodes.nodes[self.location].value_ref() {
            Some(v) => v,
            None => unreached(),
        }
    }

    /// Read the value under the entry's key for mutation; the map then
    /// stores what the caller writes through the reference.
    pub fn get_mut<'a, V>(&self, map: &'a mut HashMap<V>) -> (r: &'a mut V)
        requires
            old(map).wf(),
            self.valid(*old(map)),
        ensures
            old(map)@.contains_key(self.key_spec()),
            *r == old(map)@[self.key_spec()],
            final (map).wf(),
            final (map)@ == old(map)@.insert(self.key_spec(), *final (r)),
            final (map).spec_capacity() == old(map).spec_capacity(),
    {
        proof {
            lemma_contents_at(map.nodes@, self.location as int);
        }
        match map.get_mut(self.key) {
            Some(m) => m,
            None => unreached(),
        }
    }

    /// Turn the entry into a mutable reference to its value; the map
    /// then stores what the caller writes through the reference.
    pub fn into_mut<'a, V>(self, map: &'a mut HashMap<V>) -> (r: &'a mut V)
        requires
            old(map).wf(),
            self.valid(*old(map)),
        ensures
            old(map)@.contains_key(self.key_spec()),
            *r == old(map)@[self.key_spec()],
            final (map).wf(),
            final (map)@ == old(map)@.insert(self.key_spec(), *final (r)),
            final (map).spec_capacity() == old(map).spec_capacity(),
    {
        self.get_mut(map)
    }

    /// Swap in a new value under the entry's key, handing the previous
    /// value back. The entry stays valid.
    pub fn insert<V>(&self, map: &mut HashMap<V>, value: V) -> (r: V)
        requires
            old(map).wf(),
            self.valid(*old(map)),
        ensures
            final (map).wf(),
            final (map)@ == old(map)@.insert(self.key_spec(), value),
            r == old(map)@[self.key_spec()],
            self.valid(*final (map)),
            final (map).spec_capacity() == old(map).spec_capacity(),
    {
        proof {
            lemma_contents_at(map.nodes@, self.location as int);
        }
        map.nodes.replace_at_location(self.location, self.key, value)
    }

    /// Remove the entry's pair from the map, handing the value back.
    pub fn remove<V>(self, map: &mut HashMap<V>) -> (r: V)
        requires
            old(map).wf(),
            self.valid(*old(map)),
        ensures
            final (map).wf(),
            final (map)@ == old(map)@.remove(self.key_spec()),
            old(map)@.contains_key(self.key_spec()),
            r == old(map)@[self.key_spec()],
            final (map).spec_capacity() == old(map).spec_capacity(),
    {
        proof {
            lemma_contents_at(map.nodes@, self.location as int);
        }
        map.nodes.remove_from_location(self.location)
    }

    /// Remove the entry's pair from the map, handing both key and value
    /// back.
    pub fn remove_entry<V>(self, map: &mut HashMap<V>) -> (r: (u32, V))
        requires
            old(map).wf(),
            self.valid(*old(map)),
        ensures
            final (map).wf(),
            final (map)@ == old(map)@.remove(r.0),
            r.0 == self.key_spec(),
            old(map)@.contains_key(r.0),
            r.1 == old(map)@[r.0],
            final (map).spec_capacity() == old(map).spec_capacity(),
    {
        let key = self.key;
        let value = self.remove(map);
        (key, value)
    }
}

/// A key resolved as absent, ready to be inserted without hashing again.
pub struct VacantEntry {
    key: u32,
}

impl VacantEntry {
    /// The key this entry was resolved for.
    pub closed spec fn key_spec(&self) -> u32 {
        self.key
    }

    /// The key this entry was resolved for.
    pub fn key(&self) -> (r: u32)
        ensures
            r == self.key_spec(),
    {
        self.key
    }

    /// Give the key back to the caller.
    pub fn into_key(self) -> (r: u32)
        ensures
            r == self.key_spec(),
    {
        self.key
    }

    /// Insert a value under the entry's key, growing the map exactly as
    /// a plain insertion would, and hand the stored value back for
    /// mutation.
    pub fn insert<'a, V>(self, map: &'a mut HashMap<V>, value: V) -> (r: &'a mut V)
        requires
            old(map).wf(),
            !old(map)@.contains_key(self.key_spec()),
            old(map)@.dom().len() >= 85 * old(map).spec_capacity() / 100 ==> (2 * old(
                map,
            ).spec_capacity() <= 0x1_0000_0000 && 2 * old(map).spec_capacity() <= usize::MAX),
        ensures
            *r == value,
            final (map).wf(),
            final (map)@ == old(map)@.insert(self.key_spec(), *final (r)),
            old(map)@.dom().len() < 85 * old(map).spec_capacity() / 100
                ==> final (map).spec_capacity() == old(map).spec_capacity(),
            old(map)@.dom().len() >= 85 * old(map).spec_capacity() / 100
                ==> final (map).spec_capacity() == 2 * old(map).spec_capacity(),
    {
        map.insert(self.key, value)
    }
}

/// The result of resolving a key: present at a known slot, or absent.
pub enum Entry {
    Occupied(OccupiedEntry),
    Vacant(VacantEntry),
}

impl Entry {
    /// The key the entry was resolved for.
    pub open spec fn entry_key(&self) -> u32 {
        match self {
            Entry::Occupied(oe) => oe.key_spec(),
            Entry::Vacant(ve) => ve.key_spec(),
        }
    }

    /// The entry still describes `m`: an occupied one names its key's
    /// slot, a vacant one names a key `m` lacks.
    pub open spec fn describes<V>(&self, m: HashMap<V>) -> bool {
        match self {
            Entry::Occupied(oe) => oe.valid(m),
            Entry::Vacant(ve) => !m@.contains_key(ve.key_spec()),
        }
    }

    /// The key the entry was resolved for.
    pub fn key(&self) -> (r: u32)
        ensures
            r == self.entry_key(),
    {
        match self {
            Entry::Occupied(oe) => oe.key(),
            Entry::Vacant(ve) => ve.key(),
        }
    }

    /// Hand back the stored value for the entry's key, inserting the
    /// closure's value first when the key was absent; an occupied entry
    /// never runs the closure.
    pub fn or_insert_with<'a, V, F: FnOnce() -> V>(self, map: &'a mut HashMap<V>, f: F) -> (r:
        &'a mut V)
        requires
            old(map).wf(),
            self.describes(*old(map)),
            self is Vacant ==> f.requires(()),
            self is Vacant ==> (old(map)@.dom().len() >= 85 * old(map).spec_capacity() / 100 ==> (2
                * old(map).spec_capacity() <= 0x1_0000_0000 && 2 * old(map).spec_capacity()
                <= usize::MAX)),
        ensures
            final (map).wf(),
            final (map)@ == old(map)@.insert(self.entry_key(), *final (r)),
            self is Occupied ==> *r == old(map)@[self.entry_key()],
            self is Vacant ==> f.ensures((), *r),
            self is Occupied ==> final (map).spec_capacity() == old(map).spec_capacity(),
            self is Vacant ==> (old(map)@.dom().len() < 85 * old(map).spec_capacity() / 100
                ==> final (map).spec_capacity() == old(map).spec_capacity()),
            self is Vacant ==> (old(map)@.dom().len() >= 85 * old(map).spec_capacity() / 100
                ==> final (map).spec_capacity() == 2 * old(map).spec_capacity()),
    {
        match self {
            Entry::Occupied(oe) => oe.into_mut(map),
            Entry::Vacant(ve) => {
                let value = f();
                ve.insert(map, value)
            },
        }
    }

    /// Hand back the stored value for the entry's key, first inserting
    /// what the closure computes from the key when it was absent; an
    /// occupied entry never runs the closure.
    pub fn or_insert_with_key<'a, V, F: FnOnce(u32) -> V>(self, map: &'a mut HashMap<V>, f: F) -> (r:
        &'a mut V)
        requires
            old(map).wf(),
            self.describes(*old(map)),
            self is Vacant ==> f.requires((self.entry_key(),)),
            self is Vacant ==> (old(map)@.dom().len() >= 85 * old(map).spec_capacity() / 100 ==> (2
                * old(map).spec_capacity() <= 0x1_0000_0000 && 2 * old(map).spec_capacity()
                <= usize::MAX)),
        ensures
            final (map).wf(),
            final (map)@ == old(map)@.insert(self.entry_key(), *final (r)),
            self is Occupied ==> *r == old(map)@[self.entry_key()],
            self is Vacant ==> f.ensures((self.entry_key(),), *r),
            self is Occupied ==> final (map).spec_capacity() == old(map).spec_capacity(),
            self is Vacant ==> (old(map)@.dom().len() < 85 * old(map).spec_capacity() / 100
                ==> final (map).spec_capacity() == old(map).spec_capacity()),
            self is Vacant ==> (old(map)@.dom().len() >= 85 * old(map).spec_capacity() / 100
                ==> final (map).spec_capacity() == 2 * old(map).spec_capacity()),
    {
        match self {
            Entry::Occupied(oe) => oe.into_mut(map),
            Entry::Vacant(ve) => {
                let key = ve.key();
                let value = f(key);
                ve.insert(map, value)
            },
        }
    }

    /// Hand back the stored value for the entry's key, inserting `value`
    /// first when the key was absent; an occupied entry drops the
    /// offered value.
    pub fn or_insert<'a, V>(self, map: &'a mut HashMap<V>, value: V) -> (r: &'a mut V)
        requires
            old(map).wf(),
            self.describes(*old(map)),
            self is Vacant ==> (old(map)@.dom().len() >= 85 * old(map).spec_capacity() / 100 ==> (2
                * old(map).spec_capacity() <= 0x1_0000_0000 && 2 * old(map).spec_capacity()
                <= usize::MAX)),
        ensures
            final (map).wf(),
            final (map)@ == old(map)@.insert(self.entry_key(), *final (r)),
            self is Occupied ==> *r == old(map)@[self.entry_key()],
            self is Vacant ==> *r == value,
            self is Occupied ==> final (map).spec_capacity() == old(map).spec_capacity(),
            self is Vacant ==> (old(map)@.dom().len() < 85 * old(map).spec_capacity() / 100
                ==> final (map).spec_capacity() == old(map).spec_capacity()),
            self is Vacant ==> (old(map)@.dom().len() >= 85 * old(map).spec_capacity() / 100
                ==> final (map).spec_capacity() == 2 * old(map).spec_capacity()),
    {
        match self {
            Entry::Occupied(oe) => oe.into_mut(map),
            Entry::Vacant(ve) => ve.insert(map, value),
        }
    }
}

/// The first slot at or after `at` that holds a pair, or the table
/// length if there is none.
pub open spec fn first_occupied<V>(s: Seq<Node<V>>, at: int) -> int
    decreases s.len() - at,
{
    if at < 0 || at >= s.len() {
        s.len() as int
    } else if s[at] is Occupied {
        at
    } else {
        first_occupied(s, at + 1)
    }
}

/// What the first-occupied probe means: everything before it (from the
/// cursor) is empty, and it lands on a pair whenever one is left. So a
/// pass of `next` calls skips only empty slots and, once it reports the
/// end, no pair remains at or past where the cursor stood.
pub proof fn lemma_first_occupied_least<V>(s: Seq<Node<V>>, at: int)
    requires
        0 <= at,
    ensures
        first_occupied(s, at) <= s.len(),
        forall|i: int| at <= i < first_occupied(s, at) ==> !occ(s, i),
        first_occupied(s, at) < s.len() ==> occ(s, first_occupied(s, at)),
    decreases s.len() - at,
{
    if at < s.len() && !(s[at] is Occupied) {
        lemma_first_occupied_least(s, at + 1);
    }
}

/// The occupied count splits off its first slot.
proof fn lemma_occupied_count_head<V>(s: Seq<Node<V>>)
    requires
        s.len() >= 1,
    ensures
        occupied_count(s) == (if s[0] is Occupied {
            1int
        } else {
            0int
        }) + occupied_count(s.subrange(1, s.len() as int)),
    decreases s.len(),
{
    if s.len() == 1 {
        assert(s.drop_last() =~= s.subrange(1, 1));
        assert(s[0] == s.last());
    } else {
        lemma_occupied_count_head(s.drop_last());
        assert(s.drop_last().subrange(1, s.len() - 1) =~= s.subrange(1, s.len() as int).drop_last());
        assert(s.drop_last()[0] == s[0]);
        assert(s.subrange(1, s.len() as int).last() == s.last());
    }
}

/// Counting form of a pass: the pairs at or past the cursor number the
/// occupied count of that tail; a yielded slot accounts for exactly one
/// of them, and a finished cursor for none. With `next`'s contract and
/// `lemma_slots_match_contents`, a full pass therefore yields exactly
/// `len()` pairs, each once.
pub proof fn lemma_first_occupied_count<V>(s: Seq<Node<V>>, at: int)
    requires
        0 <= at <= s.len(),
    ensures
        first_occupied(s, at) < s.len() ==> occupied_count(s.subrange(at, s.len() as int)) == 1
            + occupied_count(s.subrange(first_occupied(s, at) + 1, s.len() as int)),
        first_occupied(s, at) == s.len() ==> occupied_count(s.subrange(at, s.len() as int)) == 0,
    decreases s.len() - at,
{
    let n = s.len() as int;
    if at == n {
        assert(s.subrange(at, n) =~= Seq::<Node<V>>::empty());
    } else if s[at] is Occupied {
        lemma_occupied_count_head(s.subrange(at, n));
        assert(s.subrange(at, n).subrange(1, n - at) =~= s.subrange(at + 1, n));
        assert(s.subrange(at, n)[0] == s[at]);
    } else {
        lemma_occupied_count_head(s.subrange(at, n));
        assert(s.subrange(at, n).subrange(1, n - at) =~= s.subrange(at + 1, n));
        assert(s.subrange(at, n)[0] == s[at]);
        lemma_first_occupied_count(s, at + 1);
    }
}

/// The iteration law, verified as a pass: driving a fresh cursor to
/// exhaustion yields exactly as many pairs as the map holds. The cursor
/// skips only empty slots, every stored pair sits in exactly one slot,
/// and each yielded slot accounts for exactly one remaining pair.
pub fn exhaustive_pass_count<V>(m: &HashMap<V>) -> (n: usize)
    requires
        m.wf(),
    ensures
        n as int == m@.dom().len(),
{
    let mut it = m.iter();
    let mut n: usize = 0;
    let cap = m.capacity();
    proof {
        lemma_slots_match_contents(m);
        assert(m.slots().subrange(0, m.slots().len() as int) =~= m.slots());
    }
    loop
        invariant
            m.wf(),
            m.slots().len() == cap as int,
            0 <= it.at_spec() <= m.slots().len(),
            n as int + occupied_count(
                m.slots().subrange(it.at_spec(), m.slots().len() as int),
            ) == m@.dom().len(),
            m@.dom().len() <= m.slots().len(),
        decreases occupied_count(m.slots().subrange(it.at_spec(), m.slots().len() as int)),
    {
        let ghost at0 = it.at_spec();
        proof {
            lemma_first_occupied_count(m.slots(), at0);
            lemma_occupied_count_full(m.slots().subrange(at0, m.slots().len() as int));
        }
        match it.next(m) {
            Some(_) => {
                proof {
                    lemma_occupied_count_full(
                        m.slots().subrange(it.at_spec(), m.slots().len() as int),
                    );
                    assert(n as int + 1 <= m@.dom().len());
                    assert(m@.dom().len() <= cap as int <= usize::MAX);
                }
                n = n + 1;
            },
            None => {
                return n;
            },
        }
    }
}
/// A lazy, single-pass cursor over the live slots in storage order. The
/// order is a property of the storage, not of the contract.
pub struct Iter {
    at: usize,
}

impl Iter {
    /// The slot the cursor will look at next.
    pub closed spec fn at_spec(&self) -> int {
        self.at as int
    }

    /// The next stored pair in slot order, if any is left; the cursor
    /// moves just past the slot handed back.
    pub fn next<'a, V>(&mut self, map: &'a HashMap<V>) -> (r: Option<(u32, &'a V)>)
        requires
            map.wf(),
        ensures
            ({
                let f = first_occupied(map.slots(), old(self).at_spec());
                match r {
                    Some(kv) => f < map.slots().len() && map.slots()[f].k() == kv.0 && map.slots()[
                        f
                    ].v() == *kv.1 && final (self).at_spec() == f + 1 && map@.contains_key(kv.0)
                        && map@[kv.0] == *kv.1,
                    None => f == map.slots().len() && final (self).at_spec() == map.slots().len(),
                }
            }),
    {
        let cap = map.nodes.nodes.len();
        let mut at = self.at;
        let ghost at0 = self.at as int;
        loop
            invariant
                map.wf(),
                cap == map.slots().len(),
                0 <= at,
                at0 == old(self).at_spec(),
                first_occupied(map.slots(), at0) == first_occupied(map.slots(), at as int),
            decreases cap - at,
        {
            if at >= cap {
                proof {
                    assert(first_occupied(map.slots(), at as int) == map.slots().len() as int);
                }
                self.at = cap;
                return None;
            }
            let node = &map.nodes.nodes[at];
            at = at + 1;
            if node.has_value() {
                self.at = at;
                let k = match node.key_ref() {
                    Some(k) => *k,
                    None => unreached(),
                };
                let v = match node.value_ref() {
                    Some(v) => v,
                    None => unreached(),
                };
                proof {
                    lemma_contents_at(map.nodes@, at as int - 1);
                }
                return Some((k, v));
            }
            proof {
                assert(first_occupied(map.slots(), at as int - 1) == first_occupied(
                    map.slots(),
                    at as int,
                ));
            }
        }
    }
}

impl<V> HashMap<V> {
    /// A cursor over all stored pairs, starting at the first slot.
    pub fn iter(&self) -> (r: Iter)
        ensures
            r.at_spec() == 0,
    {
        Iter { at: 0 }
    }
}

impl<V> Default for HashMap<V> {
    /// An empty map with the default capacity.
    fn default() -> (r: Self)
        ensures
            r.wf(),
            r@ == Map::<u32, V>::empty(),
            r.spec_capacity() == 16,
    {
        Self::new()
    }
}

/// Slots and view agree: every occupied slot's pair is in the map, no
/// key sits in two slots, and every key of the map sits in some slot —
/// so a pass over the slots visits each stored pair exactly once.
pub proof fn lemma_slots_match_contents<V>(m: &HashMap<V>)
    requires
        m.wf(),
    ensures
        forall|i: int|
            occ(m.slots(), i) ==> #[trigger] m@.contains_key(m.slots()[i].k()) && m@[m.slots()[
                i
            ].k()] == m.slots()[i].v(),
        forall|k: u32| #[trigger] m@.contains_key(k) ==> has_key(m.slots(), k),
        keys_unique(m.slots()),
        m@.dom().finite(),
        m@.dom().len() == occupied_count(m.slots()),
{
    lemma_count_matches_dom(m.nodes@);
    assert forall|i: int| occ(m.slots(), i) implies #[trigger] m@.contains_key(m.slots()[i].k())
        && m@[m.slots()[i].k()] == m.slots()[i].v() by {
        lemma_contents_at(m.nodes@, i);
    }
    assert forall|k: u32| #[trigger] m@.contains_key(k) implies has_key(m.slots(), k) by {
        if !has_key(m.slots(), k) {
            lemma_contents_absent(m.nodes@, k);
        }
    }
}

/// One step of the association model: after an insert, the inserted key
/// reads the new value and every other key is untouched; after a remove,
/// the removed key is absent and every other key is untouched. Together
/// with the view-level contracts of `insert`, `remove` and `get`, this
/// pins every lookup after any sequence of operations to the model.
pub proof fn lemma_model_step<V>(m: Map<u32, V>, key: u32, value: V, probe: u32)
    ensures
        m.insert(key, value).contains_key(probe) == (probe == key || m.contains_key(probe)),
        probe == key ==> m.insert(key, value)[probe] == value,
        probe != key && m.contains_key(probe) ==> m.insert(key, value)[probe] == m[probe],
        !m.remove(key).contains_key(key),
        probe != key ==> m.remove(key).contains_key(probe) == m.contains_key(probe),
        probe != key && m.contains_key(probe) ==> m.remove(key)[probe] == m[probe],
{
}

/// Round trip: looking a key up right after inserting it yields exactly
/// the value inserted.
pub proof fn lemma_insert_then_get<V>(m: Map<u32, V>, key: u32, value: V)
    ensures
        m.insert(key, value).contains_key(key),
        m.insert(key, value)[key] == value,
{
}

/// Growth preserves contents: a resize keeps the view, so any key reads
/// the same value before and after.
pub proof fn lemma_growth_preserves_lookup<V>(before: Map<u32, V>, after: Map<u32, V>, key: u32)
    requires
        after == before,
        before.contains_key(key),
    ensures
        after.contains_key(key),
        after[key] == before[key],
{
}

/// The displacement invariant: in a well-formed map, every occupied slot
/// sits exactly its recorded distance past the ideal bucket of its key's
/// hash, wrapping modulo the capacity.
pub proof fn lemma_displacement_invariant<V>(m: &HashMap<V>, i: int)
    requires
        m.wf(),
        occ(m.slots(), i),
    ensures
        m.slots()[i].h() == fx_hash_of(m.slots()[i].k()),
        0 <= m.slots()[i].d() < m.slots().len(),
        i == pos_of(m.slots()[i].h(), m.slots()[i].d(), m.slots().len() as int),
{
    assert(slot_consistent(m.nodes@, m.nodes.maxd(), i));
}

/// Probing one slot onward moves from probe offset `d` to offset `d + 1`.
proof fn lemma_pos_step(h: u32, d: int, cap: int)
    requires
        0 < cap,
        0 <= d,
    ensures
        0 <= pos_of(h, d, cap) < cap,
        0 <= pos_of(h, d + 1, cap) < cap,
        next_index(pos_of(h, d, cap), cap) == pos_of(h, d + 1, cap),
        prev_index(pos_of(h, d + 1, cap), cap) == pos_of(h, d, cap),
{
    let ideal = (h as int) % cap;
    vstd::arithmetic::div_mod::lemma_mod_division_less_than_divisor(h as int, cap);
    vstd::arithmetic::div_mod::lemma_mod_division_less_than_divisor(ideal + d, cap);
    vstd::arithmetic::div_mod::lemma_mod_division_less_than_divisor(ideal + d + 1, cap);
    let p = pos_of(h, d, cap);
    vstd::arithmetic::div_mod::lemma_add_mod_noop(ideal + d, 1, cap);
    if cap == 1 {
        vstd::arithmetic::div_mod::lemma_mod_self_0(cap);
    } else {
        vstd::arithmetic::div_mod::lemma_small_mod(1nat, cap as nat);
        if p + 1 == cap {
            vstd::arithmetic::div_mod::lemma_mod_self_0(cap);
        } else {
            vstd::arithmetic::div_mod::lemma_small_mod((p + 1) as nat, cap as nat);
        }
    }
}

/// In a well-formed table, every probe position short of an occupied
/// slot's distance is itself occupied, at least that far displaced; and
/// the probe at exactly its distance is the slot itself.
proof fn lemma_walk_back<V>(s: Seq<Node<V>>, maxd: int, i: int, t: int)
    requires
        wf_nodes(s, maxd),
        occ(s, i),
        0 <= t <= s[i].d(),
    ensures
        occ(s, pos_of(s[i].h(), t, s.len() as int)),
        s[pos_of(s[i].h(), t, s.len() as int)].d() >= t,
        t == s[i].d() ==> pos_of(s[i].h(), t, s.len() as int) == i,
    decreases s[i].d() - t,
{
    let cap = s.len() as int;
    let h = s[i].h();
    assert(slot_consistent(s, maxd, i));
    if t == s[i].d() {
    } else {
        lemma_walk_back(s, maxd, i, t + 1);
        let q = pos_of(h, t + 1, cap);
        lemma_pos_step(h, t, cap);
        assert(run_ok(s, q));
    }
}

/// With unique keys, a slot holding `k` pins down the contents at `k`.
proof fn lemma_contents_at<V>(s: Seq<Node<V>>, i: int)
    requires
        keys_unique(s),
        occ(s, i),
    ensures
        has_key(s, s[i].k()),
        key_at(s, s[i].k()) == i,
        contents(s).contains_key(s[i].k()),
        contents(s)[s[i].k()] == s[i].v(),
{
    let k = s[i].k();
    assert(occ(s, i) && s[i].k() == k);
    let j = key_at(s, k);
    assert(occ(s, j) && s[j].k() == k);
}

/// A key held by no slot is absent from the contents.
proof fn lemma_contents_absent<V>(s: Seq<Node<V>>, k: u32)
    requires
        !has_key(s, k),
    ensures
        !contents(s).contains_key(k),
{
}

/// A sequence of empty slots holds no pair.
proof fn lemma_occupied_count_all_empty<V>(s: Seq<Node<V>>)
    requires
        forall|i: int| 0 <= i < s.len() ==> s[i] is Empty,
    ensures
        occupied_count(s) == 0,
    decreases s.len(),
{
    if s.len() > 0 {
        lemma_occupied_count_all_empty(s.drop_last());
    }
}

/// Updating one slot changes the occupied count by the occupancy delta.
proof fn lemma_occupied_count_update<V>(s: Seq<Node<V>>, i: int, x: Node<V>)
    requires
        0 <= i < s.len(),
    ensures
        occupied_count(s.update(i, x)) == occupied_count(s) - (if s[i] is Occupied {
            1int
        } else {
            0int
        }) + (if x is Occupied {
            1int
        } else {
            0int
        }),
    decreases s.len(),
{
    let s2 = s.update(i, x);
    if i == s.len() - 1 {
        assert(s2.drop_last() =~= s.drop_last());
    } else {
        lemma_occupied_count_update(s.drop_last(), i, x);
        assert(s2.drop_last() =~= s.drop_last().update(i, x));
        assert(s2.last() == s.last());
    }
}

/// The occupied count is bounded by the length, and a count short of the
/// length means some slot is empty.
proof fn lemma_occupied_count_full<V>(s: Seq<Node<V>>)
    ensures
        0 <= occupied_count(s) <= s.len(),
        occupied_count(s) < s.len() ==> exists|i: int| 0 <= i < s.len() && !(s[i] is Occupied),
    decreases s.len(),
{
    if s.len() > 0 {
        let butlast = s.drop_last();
        lemma_occupied_count_full(butlast);
        if occupied_count(s) < s.len() {
            if s.last() is Occupied {
                let i = choose|i: int| 0 <= i < butlast.len() && !(butlast[i] is Occupied);
                assert(s[i] == butlast[i]);
                assert(!(s[i] is Occupied));
            } else {
                assert(!(s[s.len() - 1] is Occupied));
            }
        }
    }
}

/// Two distinct probe offsets within one wrap of the table land on
/// distinct slots.
proof fn lemma_pos_distinct(h: u32, a: int, b: int, cap: int)
    requires
        0 < cap,
        0 <= a < b,
        b - a < cap,
    ensures
        pos_of(h, a, cap) != pos_of(h, b, cap),
{
    let x = (h as int) % cap + a;
    vstd::arithmetic::div_mod::lemma_mod_equivalence(x + (b - a), x, cap);
    vstd::arithmetic::div_mod::lemma_small_mod((b - a) as nat, cap as nat);
}

/// Wrapping a positive offset short of the table length off a slot lands
/// on a different slot.
proof fn lemma_wrap_distinct(base: int, j: int, cap: int)
    requires
        0 < cap,
        0 <= base < cap,
        1 <= j < cap,
    ensures
        (base + j) % cap != base,
        0 <= (base + j) % cap < cap,
{
    vstd::arithmetic::div_mod::lemma_mod_division_less_than_divisor(base + j, cap);
    vstd::arithmetic::div_mod::lemma_mod_equivalence(base + j, base, cap);
    vstd::arithmetic::div_mod::lemma_small_mod(j as nat, cap as nat);
    vstd::arithmetic::div_mod::lemma_small_mod(base as nat, cap as nat);
}

/// Placing a fresh-keyed pair into an empty slot adds exactly that pair
/// to the contents.
proof fn lemma_contents_place<V>(s: Seq<Node<V>>, i: int, x: Node<V>)
    requires
        keys_unique(s),
        0 <= i < s.len(),
        !(s[i] is Occupied),
        x is Occupied,
        !has_key(s, x.k()),
    ensures
        keys_unique(s.update(i, x)),
        contents(s.update(i, x)) == contents(s).insert(x.k(), x.v()),
    decreases 0int,
{
    let s2 = s.update(i, x);
    assert forall|p: int, q: int| occ(s2, p) && occ(s2, q) && p != q implies s2[p].k()
        != s2[q].k() by {
        if p != i && q != i {
            assert(occ(s, p) && occ(s, q));
        } else if p == i {
            assert(occ(s, q) && s2[q].k() == s[q].k());
        } else {
            assert(occ(s, p) && s2[p].k() == s[p].k());
        }
    }
    assert forall|k: u32| #[trigger] has_key(s2, k) <==> has_key(s, k) || k == x.k() by {
        if has_key(s2, k) {
            let j = choose|j: int| occ(s2, j) && s2[j].k() == k;
            if j != i {
                assert(occ(s, j) && s[j].k() == k);
            }
        }
        if k == x.k() {
            assert(occ(s2, i) && s2[i].k() == k);
        }
        if has_key(s, k) {
            let j = choose|j: int| occ(s, j) && s[j].k() == k;
            assert(j != i);
            assert(occ(s2, j) && s2[j].k() == k);
        }
    }
    assert forall|k: u32| contents(s2).contains_key(k) implies contents(s2)[k] == contents(
        s,
    ).insert(x.k(), x.v())[k] by {
        if k == x.k() {
            lemma_contents_at(s2, i);
        } else {
            let j = choose|j: int| occ(s, j) && s[j].k() == k;
            assert(occ(s2, j) && s2[j].k() == k && s2[j].v() == s[j].v());
            lemma_contents_at(s, j);
            lemma_contents_at(s2, j);
        }
    }
    assert(contents(s2) =~= contents(s).insert(x.k(), x.v()));
}

/// Swapping a fresh-keyed pair into an occupied slot removes the old
/// pair from the contents and adds the new one.
proof fn lemma_contents_swap<V>(s: Seq<Node<V>>, i: int, x: Node<V>)
    requires
        keys_unique(s),
        occ(s, i),
        x is Occupied,
        !has_key(s, x.k()),
    ensures
        keys_unique(s.update(i, x)),
        !has_key(s.update(i, x), s[i].k()),
        contents(s.update(i, x)) == contents(s).remove(s[i].k()).insert(x.k(), x.v()),
    decreases 0int,
{
    let s2 = s.update(i, x);
    let ko = s[i].k();
    assert forall|p: int, q: int| occ(s2, p) && occ(s2, q) && p != q implies s2[p].k()
        != s2[q].k() by {
        if p != i && q != i {
            assert(occ(s, p) && occ(s, q));
        } else if p == i {
            assert(occ(s, q) && s2[q].k() == s[q].k());
        } else {
            assert(occ(s, p) && s2[p].k() == s[p].k());
        }
    }
    assert forall|j: int| occ(s2, j) implies s2[j].k() != ko by {
        if j != i {
            assert(occ(s, j) && s[j].k() == s2[j].k());
            assert(s[i].k() == ko);
        }
    }
    assert forall|k: u32| #[trigger] has_key(s2, k) <==> (has_key(s, k) && k != ko) || k
        == x.k() by {
        if has_key(s2, k) {
            let j = choose|j: int| occ(s2, j) && s2[j].k() == k;
            if j != i {
                assert(occ(s, j) && s[j].k() == k);
                assert(k != ko);
            }
        }
        if k == x.k() {
            assert(occ(s2, i) && s2[i].k() == k);
        }
        if has_key(s, k) && k != ko {
            let j = choose|j: int| occ(s, j) && s[j].k() == k;
            assert(j != i);
            assert(occ(s2, j) && s2[j].k() == k);
        }
    }
    assert forall|k: u32| contents(s2).contains_key(k) implies contents(s2)[k] == contents(
        s,
    ).remove(ko).insert(x.k(), x.v())[k] by {
        if k == x.k() {
            lemma_contents_at(s2, i);
        } else {
            let j = choose|j: int| occ(s, j) && s[j].k() == k;
            assert(occ(s2, j) && s2[j].k() == k && s2[j].v() == s[j].v());
            lemma_contents_at(s, j);
            lemma_contents_at(s2, j);
        }
    }
    assert(contents(s2) =~= contents(s).remove(ko).insert(x.k(), x.v()));
}

} // verus!




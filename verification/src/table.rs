//! The byte-tagged linear-probing hash map.
//!
//! The table owns two parallel arrays of `16 * capacity` positions: one
//! metadata byte and one entry slot per position, grouped sixteen to a cell
//! group. A key's 64-bit digest selects its direct-hit coordinate; keys that
//! share a coordinate form a chain threaded through the table by jump
//! indices into the fixed jump-distance table.
use vstd::arithmetic::div_mod::lemma_mod_bound;
use vstd::arithmetic::div_mod::lemma_mod_breakdown;
use vstd::arithmetic::div_mod::lemma_mod_multiples_vanish;
use vstd::arithmetic::power2::lemma2_to64;
use vstd::arithmetic::power2::lemma_pow2_adds;
use vstd::arithmetic::power2::lemma_pow2_pos;
use vstd::arithmetic::power2::lemma_pow2_strictly_increases;
use vstd::arithmetic::power2::pow2;
use vstd::bits::lemma_u64_low_bits_mask_is_mod;
use vstd::bits::lemma_u64_shr_is_div;
use vstd::bits::low_bits_mask;
use vstd::prelude::*;

use crate::hashing::EqKey;
use crate::hashing::KeyHasher;
use crate::jumps::jump_dist;
use crate::jumps::jump_distance;
use crate::metadata::meta_empty;
use crate::metadata::meta_jump;
use crate::metadata::meta_storage;
use crate::metadata::Metadata;

verus! {

/// Is `x` a power of two?
pub open spec fn is_pow2(x: int) -> bool {
    exists|e: nat| x == pow2(e)
}

/// How many of the first `up_to` metadata bytes mark an occupied slot.
pub open spec fn count_occ(m: Seq<Metadata>, up_to: int) -> int
    decreases up_to,
{
    if up_to <= 0 {
        0
    } else {
        count_occ(m, up_to - 1) + if !meta_empty(m[up_to - 1].0) {
            1int
        } else {
            0int
        }
    }
}

/// The map that a sequence of (key, value) pairs describes, later pairs
/// taking precedence.
pub open spec fn pairs_map<K, V>(s: Seq<(K, V)>) -> Map<K, V>
    decreases s.len(),
{
    if s.len() == 0 {
        Map::empty()
    } else {
        pairs_map(s.drop_last()).insert(s.last().0, s.last().1)
    }
}

/// The metadata bytes after marking every slot in `idxs` empty.
pub open spec fn cleared_metas(m: Seq<Metadata>, idxs: Seq<int>) -> Seq<Metadata>
    decreases idxs.len(),
{
    if idxs.len() == 0 {
        m
    } else {
        cleared_metas(m, idxs.drop_last()).update(idxs.last(), Metadata(0xff))
    }
}

/// The entry slots after taking every entry in `idxs` out.
pub open spec fn cleared_data<K, V>(dd: Seq<Option<(K, V)>>, idxs: Seq<int>) -> Seq<
    Option<(K, V)>,
>
    decreases idxs.len(),
{
    if idxs.len() == 0 {
        dd
    } else {
        cleared_data(dd, idxs.drop_last()).update(idxs.last(), None)
    }
}

proof fn lemma_cleared_metas_pointwise(m: Seq<Metadata>, idxs: Seq<int>)
    requires
        forall|q: int| 0 <= q < idxs.len() ==> 0 <= #[trigger] idxs[q] < m.len(),
    ensures
        cleared_metas(m, idxs).len() == m.len(),
        forall|i: int|
            0 <= i < m.len() ==> cleared_metas(m, idxs)[i] == (if #[trigger] idxs.contains(i) {
                Metadata(0xff)
            } else {
                m[i]
            }),
    decreases idxs.len(),
{
    if idxs.len() > 0 {
        let rest = idxs.drop_last();
        assert(forall|q: int| 0 <= q < rest.len() ==> rest[q] == #[trigger] idxs[q]);
        lemma_cleared_metas_pointwise(m, rest);
        assert forall|i: int|
            0 <= i < m.len() implies cleared_metas(m, idxs)[i] == (if #[trigger] idxs.contains(
            i,
        ) {
            Metadata(0xff)
        } else {
            m[i]
        }) by {
            if i == idxs.last() {
                assert(idxs.contains(i)) by {
                    assert(idxs[idxs.len() - 1] == i);
                }
            } else {
                if idxs.contains(i) {
                    let q = choose|q: int| 0 <= q < idxs.len() && #[trigger] idxs[q] == i;
                    assert(rest[q] == i);
                    assert(rest.contains(i));
                } else {
                    if rest.contains(i) {
                        let q = choose|q: int| 0 <= q < rest.len() && #[trigger] rest[q] == i;
                        assert(idxs[q] == i);
                        assert(idxs.contains(i));
                    }
                }
            }
        }
    }
}

proof fn lemma_cleared_data_pointwise<K, V>(dd: Seq<Option<(K, V)>>, idxs: Seq<int>)
    requires
        forall|q: int| 0 <= q < idxs.len() ==> 0 <= #[trigger] idxs[q] < dd.len(),
    ensures
        cleared_data(dd, idxs).len() == dd.len(),
        forall|i: int|
            0 <= i < dd.len() ==> cleared_data(dd, idxs)[i] == (if #[trigger] idxs.contains(i) {
                None
            } else {
                dd[i]
            }),
    decreases idxs.len(),
{
    if idxs.len() > 0 {
        let rest = idxs.drop_last();
        assert(forall|q: int| 0 <= q < rest.len() ==> rest[q] == #[trigger] idxs[q]);
        lemma_cleared_data_pointwise(dd, rest);
        assert forall|i: int|
            0 <= i < dd.len() implies cleared_data(dd, idxs)[i] == (if #[trigger] idxs.contains(
            i,
        ) {
            None::<(K, V)>
        } else {
            dd[i]
        }) by {
            if i == idxs.last() {
                assert(idxs.contains(i)) by {
                    assert(idxs[idxs.len() - 1] == i);
                }
            } else {
                if idxs.contains(i) {
                    let q = choose|q: int| 0 <= q < idxs.len() && #[trigger] idxs[q] == i;
                    assert(rest[q] == i);
                    assert(rest.contains(i));
                } else {
                    if rest.contains(i) {
                        let q = choose|q: int| 0 <= q < rest.len() && #[trigger] rest[q] == i;
                        assert(idxs[q] == i);
                        assert(idxs.contains(i));
                    }
                }
            }
        }
    }
}

/// With pairwise distinct keys, `pairs_map` holds exactly the given pairs.
proof fn lemma_pairs_map_props<K, V>(s: Seq<(K, V)>)
    requires
        forall|q1: int, q2: int|
            0 <= q1 < s.len() && 0 <= q2 < s.len() && q1 != q2 ==> (#[trigger] s[q1]).0 != (
            #[trigger] s[q2]).0,
    ensures
        forall|k: K| #[trigger] pairs_map(s).contains_key(k) == keys_of(s).contains(k),
        forall|q: int|
            0 <= q < s.len() ==> pairs_map(s).contains_key((#[trigger] s[q]).0) && pairs_map(
                s,
            )[(s[q]).0] == s[q].1,
    decreases s.len(),
{
    if s.len() > 0 {
        let rest = s.drop_last();
        let last = s.last();
        assert(forall|q: int| 0 <= q < rest.len() ==> rest[q] == #[trigger] s[q]);
        lemma_pairs_map_props(rest);
        assert forall|k: K| #[trigger] pairs_map(s).contains_key(k) == keys_of(s).contains(
            k,
        ) by {
            assert(pairs_map(rest).contains_key(k) == keys_of(rest).contains(k));
            if k == last.0 {
                assert(s[s.len() - 1].0 == k);
                assert(keys_of(s).contains(k));
            } else {
                if keys_of(rest).contains(k) {
                    let q = choose|q: int| 0 <= q < rest.len() && (#[trigger] rest[q]).0 == k;
                    assert(s[q].0 == k);
                    assert(keys_of(s).contains(k));
                }
                if keys_of(s).contains(k) {
                    let q = choose|q: int| 0 <= q < s.len() && (#[trigger] s[q]).0 == k;
                    assert(q < s.len() - 1) by {
                        if q == s.len() - 1 {
                            assert(s[q].0 == last.0);
                        }
                    }
                    assert(rest[q].0 == k);
                    assert(keys_of(rest).contains(k));
                }
            }
        }
        assert forall|q: int| 0 <= q < s.len() implies pairs_map(s).contains_key(
            (#[trigger] s[q]).0,
        ) && pairs_map(s)[(s[q]).0] == s[q].1 by {
            if q == s.len() - 1 {
            } else {
                assert(rest[q] == s[q]);
                assert(pairs_map(rest)[(s[q]).0] == s[q].1);
                assert(s[q].0 != last.0);
            }
        }
    }
}

/// The set of keys that a sequence of (key, value) pairs carries.
pub open spec fn keys_of<K, V>(s: Seq<(K, V)>) -> Set<K> {
    Set::new(|k: K| exists|y: int| 0 <= y < s.len() && (#[trigger] s[y]).0 == k)
}

/// What one insertion attempt at fixed capacity came to: either the entry
/// went in (with any previous pair under that key), or the probe window was
/// exhausted and some entries still have to be placed elsewhere.
enum Placement<K, V> {
    Done(Option<(K, V)>),
    Stalled(Vec<(K, V)>),
}

/// An associative container in the "bytell" style: a flat table of cell
/// groups of sixteen slots, each slot tagged by one metadata byte, with
/// collision chains threaded by jump indices.
pub struct HashMap<K, V, H> {
    meta: Vec<Metadata>,
    data: Vec<Option<(K, V)>>,
    /// Entries parked here when the probe window is exhausted and the table
    /// can no longer double within the address space; empty in any run that
    /// fits in memory, but it keeps insertion total.
    overflow: Vec<(K, V)>,
    size: usize,
    capacity: usize,
    hasher: H,
}

impl<K, V, H> HashMap<K, V, H> {
    /// The number of slots, `16 * capacity`.
    pub closed spec fn n(self) -> int {
        self.meta@.len() as int
    }

    /// The number of cell groups.
    pub closed spec fn spec_capacity(self) -> int {
        self.capacity as int
    }

    /// The number of occupied slots.
    pub closed spec fn spec_size(self) -> int {
        self.size as int
    }

    /// The number of live entries, overflow included.
    pub closed spec fn spec_len(self) -> int {
        self.size + self.overflow@.len()
    }

    /// The hasher the table was built with.
    pub closed spec fn spec_hasher(self) -> H {
        self.hasher
    }

    pub closed spec fn occ(self, i: int) -> bool {
        !meta_empty(self.meta@[i].0)
    }

    pub closed spec fn storage_at(self, i: int) -> bool {
        meta_storage(self.meta@[i].0)
    }

    pub closed spec fn jump_at(self, i: int) -> int {
        meta_jump(self.meta@[i].0)
    }

    pub closed spec fn key_at(self, i: int) -> K {
        self.data@[i]->Some_0.0
    }

    pub closed spec fn val_at(self, i: int) -> V {
        self.data@[i]->Some_0.1
    }

    /// The slot one jump past slot `i`.
    pub closed spec fn next_of(self, i: int) -> int {
        (i + jump_dist(self.jump_at(i))) % self.n()
    }

    /// The sequence of slots on the chain from `i` to the first slot whose
    /// jump index is zero, if it stays on occupied slots and ends within
    /// `fuel` links.
    pub closed spec fn chain_opt(self, i: int, fuel: nat) -> Option<Seq<int>>
        decreases fuel,
    {
        if !(0 <= i < self.n() && self.occ(i)) {
            None
        } else if self.jump_at(i) == 0 {
            Some(seq![i])
        } else if fuel == 0 {
            None
        } else {
            match self.chain_opt(self.next_of(i), (fuel - 1) as nat) {
                None => None,
                Some(s) => Some(seq![i] + s),
            }
        }
    }

    /// The chain anchored at `i`, when `chain_opt` yields one.
    pub closed spec fn chain_of(self, i: int) -> Seq<int> {
        self.chain_opt(i, self.n() as nat)->Some_0
    }

    pub closed spec fn slot_keyed(self, k: K) -> bool {
        exists|i: int| 0 <= i < self.n() && self.occ(i) && self.key_at(i) == k
    }

    pub closed spec fn slot_with_key(self, k: K) -> int {
        choose|i: int| 0 <= i < self.n() && self.occ(i) && self.key_at(i) == k
    }

    pub closed spec fn over_keyed(self, k: K) -> bool {
        exists|x: int| 0 <= x < self.overflow@.len() && self.overflow@[x].0 == k
    }

    pub closed spec fn over_idx(self, k: K) -> int {
        choose|x: int| 0 <= x < self.overflow@.len() && self.overflow@[x].0 == k
    }

    /// The metadata bytes, for stating how two table states relate.
    pub closed spec fn meta_seq(self) -> Seq<Metadata> {
        self.meta@
    }

    /// The entry slots, for stating how two table states relate.
    pub closed spec fn entries_seq(self) -> Seq<Option<(K, V)>> {
        self.data@
    }

    /// The overflow list, for stating how two table states relate.
    pub closed spec fn over_seq(self) -> Seq<(K, V)> {
        self.overflow@
    }

    /// `post` is `pre` with just the value stored under `k` replaced by `v`,
    /// either in its slot or in the overflow list.
    pub open spec fn value_update_rel(pre: Self, post: Self, k: K, v: V) -> bool {
        &&& post.meta_seq() == pre.meta_seq()
        &&& post.spec_capacity() == pre.spec_capacity()
        &&& post.spec_size() == pre.spec_size()
        &&& post.spec_hasher() == pre.spec_hasher()
        &&& if pre.slot_keyed(k) {
            post.entries_seq() == pre.entries_seq().update(
                pre.slot_with_key(k),
                Some((k, v)),
            ) && post.over_seq() == pre.over_seq()
        } else {
            post.entries_seq() == pre.entries_seq() && post.over_seq() == pre.over_seq().update(
                pre.over_idx(k),
                (k, v),
            )
        }
    }

    /// The shape of the backing arrays: a power-of-two group count whose
    /// sixteen slots per group fit the address space.
    pub closed spec fn inv_base(self) -> bool {
        &&& 1 <= self.capacity
        &&& is_pow2(self.capacity as int)
        &&& 16 * self.capacity <= usize::MAX
        &&& self.meta@.len() == 16 * self.capacity
        &&& self.data@.len() == self.meta@.len()
    }

    /// The (key, value) pairs of the occupied slots at indices `i` and up,
    /// in slot order.
    pub closed spec fn slot_entries_from(self, i: int) -> Seq<(K, V)>
        decreases self.n() - i,
    {
        if !(0 <= i < self.n()) {
            Seq::empty()
        } else if self.occ(i) {
            seq![(self.key_at(i), self.val_at(i))] + self.slot_entries_from(i + 1)
        } else {
            self.slot_entries_from(i + 1)
        }
    }

    /// Every live entry in iteration order: occupied slots in group-major,
    /// slot-minor order, then the overflow list.
    pub closed spec fn entries(self) -> Seq<(K, V)> {
        self.slot_entries_from(0) + self.overflow@
    }

    spec fn base_wf(self) -> bool {
        &&& self.inv_base()
        &&& self.size == count_occ(self.meta@, self.n())
        &&& self.size + self.overflow@.len() <= usize::MAX
        &&& forall|i: int|
            0 <= i < self.n() ==> (self.occ(i) <==> (#[trigger] self.data@[i]) is Some)
        &&& forall|i: int| 0 <= i < self.n() && #[trigger] self.occ(i) ==> self.jump_at(i) <= 125
        &&& forall|i: int, j: int|
            0 <= i < self.n() && 0 <= j < self.n() && i != j && self.occ(i) && self.occ(j)
                ==> #[trigger] self.key_at(i) != #[trigger] self.key_at(j)
        &&& forall|x: int, y: int|
            0 <= x < self.overflow@.len() && 0 <= y < self.overflow@.len() && x != y ==> (
            #[trigger] self.overflow@[x]).0 != (#[trigger] self.overflow@[y]).0
        &&& forall|x: int, i: int|
            0 <= x < self.overflow@.len() && 0 <= i < self.n() && self.occ(i) ==> (
            #[trigger] self.overflow@[x]).0 != #[trigger] self.key_at(i)
    }
}

impl<K, V, H> View for HashMap<K, V, H> {
    type V = Map<K, V>;

    /// The table as a mathematical map from keys to values.
    closed spec fn view(&self) -> Map<K, V> {
        Map::new(
            |k: K| self.slot_keyed(k) || self.over_keyed(k),
            |k: K|
                if self.slot_keyed(k) {
                    self.val_at(self.slot_with_key(k))
                } else {
                    self.overflow@[self.over_idx(k)].1
                },
        )
    }
}

impl<K, V, H: KeyHasher<K>> HashMap<K, V, H> {
    /// The digest the table's hasher assigns to a key.
    pub closed spec fn spec_hash(self, k: K) -> u64 {
        self.hasher.hash_spec(k)
    }

    /// The direct-hit coordinate of a key, as a linear slot index.
    pub closed spec fn home_of(self, k: K) -> int {
        self.spec_hash(k) as int % self.n()
    }

    spec fn chain_ok(self, b: int) -> bool {
        match self.chain_opt(b, self.n() as nat) {
            Some(s) => {
                &&& s.no_duplicates()
                &&& forall|x: int|
                    0 <= x < s.len() ==> self.home_of(self.key_at(#[trigger] s[x])) == b
                &&& forall|x: int| 0 < x < s.len() ==> self.storage_at(#[trigger] s[x])
            },
            None => false,
        }
    }

    /// Slot `i` can be found by following jumps from its key's direct-hit
    /// coordinate.
    spec fn reachable(self, i: int) -> bool {
        let b = self.home_of(self.key_at(i));
        &&& 0 <= b < self.n()
        &&& self.occ(b)
        &&& !self.storage_at(b)
        &&& self.chain_opt(b, self.n() as nat) matches Some(s) && s.contains(i)
    }

    spec fn chains_ok(self) -> bool {
        &&& forall|i: int|
            0 <= i < self.n() && #[trigger] self.occ(i) && !self.storage_at(i)
                ==> self.home_of(self.key_at(i)) == i && self.chain_ok(i)
        &&& forall|i: int| 0 <= i < self.n() && #[trigger] self.occ(i) ==> self.reachable(i)
    }

    spec fn wf(self) -> bool {
        &&& self.base_wf()
        &&& self.chains_ok()
    }

    /// The table's public well-formedness: the structural invariants hold,
    /// and the load factor was at or below the growth threshold of
    /// 0.872 = 13952/16000 at the last insertion, so
    /// `(size - 1) / (16 * capacity) <= 0.872` — except once the table has
    /// reached the address-space ceiling and can no longer double.
    pub closed spec fn inv(self) -> bool {
        &&& self.wf()
        &&& (1000 * self.size <= 13952 * self.capacity + 1000 || self.capacity > usize::MAX / 32)
    }
}

// ---------------------------------------------------------------------------
// Counting lemmas
// ---------------------------------------------------------------------------
proof fn lemma_count_occ_bounds(m: Seq<Metadata>, up_to: int)
    ensures
        0 <= count_occ(m, up_to) <= if up_to <= 0 {
            0int
        } else {
            up_to
        },
    decreases up_to,
{
    if up_to > 0 {
        lemma_count_occ_bounds(m, up_to - 1);
    }
}

proof fn lemma_count_occ_agree(m1: Seq<Metadata>, m2: Seq<Metadata>, up_to: int)
    requires
        forall|i: int| 0 <= i < up_to ==> meta_empty(m1[i].0) == meta_empty((#[trigger] m2[i]).0),
    ensures
        count_occ(m1, up_to) == count_occ(m2, up_to),
    decreases up_to,
{
    if up_to > 0 {
        lemma_count_occ_agree(m1, m2, up_to - 1);
    }
}

proof fn lemma_count_occ_zero(m: Seq<Metadata>, up_to: int)
    requires
        forall|i: int| 0 <= i < up_to ==> meta_empty((#[trigger] m[i]).0),
    ensures
        count_occ(m, up_to) == 0,
    decreases up_to,
{
    if up_to > 0 {
        lemma_count_occ_zero(m, up_to - 1);
    }
}

/// Updating one byte changes the occupied count by the difference the byte
/// itself shows.
proof fn lemma_count_occ_update(m: Seq<Metadata>, i: int, b: Metadata, up_to: int)
    requires
        0 <= i < m.len(),
        up_to <= m.len(),
    ensures
        i < up_to ==> count_occ(m.update(i, b), up_to) == count_occ(m, up_to) + (if !meta_empty(
            b.0,
        ) {
            1int
        } else {
            0int
        }) - (if !meta_empty(m[i].0) {
            1int
        } else {
            0int
        }),
        i >= up_to ==> count_occ(m.update(i, b), up_to) == count_occ(m, up_to),
    decreases up_to,
{
    if up_to > 0 {
        lemma_count_occ_update(m, i, b, up_to - 1);
    }
}

proof fn lemma_count_occ_lt_of_empty(m: Seq<Metadata>, i: int, up_to: int)
    requires
        0 <= i < up_to,
        meta_empty(m[i].0),
    ensures
        count_occ(m, up_to) < up_to,
    decreases up_to,
{
    lemma_count_occ_bounds(m, up_to - 1);
    if i < up_to - 1 {
        lemma_count_occ_lt_of_empty(m, i, up_to - 1);
    }
}

// ---------------------------------------------------------------------------
// Modular arithmetic on the probe cursor
// ---------------------------------------------------------------------------
/// A power of two no greater than `u64::MAX` divides `2^64`, so reducing a
/// wrapped sum modulo the slot count loses nothing.
proof fn lemma_wrap_mod(x: int, y: int, n: int)
    requires
        is_pow2(n),
        1 <= n <= u64::MAX,
        0 <= x <= u64::MAX,
        0 <= y <= u64::MAX,
    ensures
        (if x + y > u64::MAX {
            x + y - 0x1_0000_0000_0000_0000
        } else {
            x + y
        }) % n == (x + y) % n,
{
    let e = choose|e: nat| n == pow2(e);
    lemma2_to64();
    if e >= 64 {
        if e > 64 {
            lemma_pow2_strictly_increases(64, e);
        }
        assert(pow2(e) >= pow2(64));
        assert(false);
    }
    lemma_pow2_adds(e, (64 - e) as nat);
    lemma_pow2_pos((64 - e) as nat);
    let q = pow2((64 - e) as nat) as int;
    assert(n * q == pow2(64));
    if x + y > u64::MAX {
        lemma_mod_multiples_vanish(-q, x + y, n);
        assert(n * -q == -(n * q)) by (nonlinear_arith);
        assert(n * -q + (x + y) == x + y - n * q);
    }
}

// ---------------------------------------------------------------------------
// Chain lemmas
// ---------------------------------------------------------------------------
impl<K, V, H> HashMap<K, V, H> {
    /// The shape of a chain: it starts at its anchor, stays on occupied
    /// slots, follows `next_of` link by link, and ends at the one slot whose
    /// jump index is zero.
    proof fn lemma_chain_structure(self, i: int, fuel: nat)
        requires
            self.chain_opt(i, fuel) is Some,
        ensures
            ({
                let s = self.chain_opt(i, fuel)->Some_0;
                &&& s.len() >= 1
                &&& s[0] == i
                &&& forall|x: int|
                    0 <= x < s.len() ==> 0 <= #[trigger] s[x] < self.n() && self.occ(s[x])
                &&& forall|x: int|
                    0 <= x < s.len() - 1 ==> self.jump_at(#[trigger] s[x]) != 0 && s[x + 1]
                        == self.next_of(s[x])
                &&& self.jump_at(s[s.len() - 1]) == 0
            }),
        decreases fuel,
    {
        let s = self.chain_opt(i, fuel)->Some_0;
        if self.jump_at(i) != 0 {
            let s2 = self.chain_opt(self.next_of(i), (fuel - 1) as nat)->Some_0;
            self.lemma_chain_structure(self.next_of(i), (fuel - 1) as nat);
            assert(s == seq![i] + s2);
            assert(forall|x: int| 1 <= x < s.len() ==> s[x] == s2[x - 1]);
        }
    }

    /// A chain reads only its own slots: a state that agrees with this one
    /// on the chain's metadata bytes carries the same chain.
    proof fn lemma_chain_frame(self, other: Self, i: int, fuel: nat)
        requires
            self.chain_opt(i, fuel) is Some,
            other.n() == self.n(),
            ({
                let s = self.chain_opt(i, fuel)->Some_0;
                forall|y: int|
                    0 <= y < s.len() ==> other.meta@[#[trigger] s[y]] == self.meta@[s[y]]
            }),
        ensures
            other.chain_opt(i, fuel) == self.chain_opt(i, fuel),
        decreases fuel,
    {
        let s = self.chain_opt(i, fuel)->Some_0;
        assert(s[0] == i);
        assert(other.meta@[i] == self.meta@[i]);
        if self.jump_at(i) != 0 {
            let nx = self.next_of(i);
            let s2 = self.chain_opt(nx, (fuel - 1) as nat)->Some_0;
            assert(s == seq![i] + s2);
            assert(forall|y: int| 0 <= y < s2.len() ==> s2[y] == s[y + 1]);
            self.lemma_chain_frame(other, nx, (fuel - 1) as nat);
            assert(other.next_of(i) == nx);
        }
    }

    /// Chains read nothing but metadata: states with equal metadata carry
    /// equal chains.
    proof fn lemma_chain_opt_meta_only(self, other: Self, i: int, fuel: nat)
        requires
            self.meta@ == other.meta@,
        ensures
            self.chain_opt(i, fuel) == other.chain_opt(i, fuel),
        decreases fuel,
    {
        if 0 <= i < self.n() && self.occ(i) && self.jump_at(i) != 0 && fuel > 0 {
            self.lemma_chain_opt_meta_only(other, self.next_of(i), (fuel - 1) as nat);
        }
    }

    /// Extending a chain: after pointing its tail at a fresh terminal slot
    /// `e`, the chain is the old one with `e` appended.
    proof fn lemma_chain_extend(self, post: Self, i: int, fuel: nat, e: int, fuel2: nat)
        requires
            self.chain_opt(i, fuel) is Some,
            ({
                let s = self.chain_opt(i, fuel)->Some_0;
                &&& s.no_duplicates()
                &&& !s.contains(e)
                &&& forall|y: int|
                    0 <= y < s.len() - 1 ==> post.meta@[#[trigger] s[y]] == self.meta@[s[y]]
                &&& post.occ(s[s.len() - 1])
                &&& post.jump_at(s[s.len() - 1]) != 0
                &&& post.next_of(s[s.len() - 1]) == e
                &&& fuel2 >= s.len()
            }),
            post.n() == self.n(),
            0 <= e < post.n(),
            post.occ(e),
            post.jump_at(e) == 0,
        ensures
            post.chain_opt(i, fuel2) == Some(self.chain_opt(i, fuel)->Some_0.push(e)),
        decreases fuel,
    {
        let s = self.chain_opt(i, fuel)->Some_0;
        self.lemma_chain_structure(i, fuel);
        if s.len() == 1 {
            assert(s[0] == i);
            assert(post.chain_opt(e, (fuel2 - 1) as nat) == Some(seq![e]));
            assert(post.chain_opt(i, fuel2) == Some(seq![i] + seq![e]));
            assert(seq![i] + seq![e] =~= s.push(e));
        } else {
            let nx = self.next_of(i);
            let s2 = self.chain_opt(nx, (fuel - 1) as nat)->Some_0;
            assert(s == seq![i] + s2);
            assert(forall|y: int| 0 <= y < s2.len() ==> s2[y] == s[y + 1]);
            assert(s2.no_duplicates()) by {
                assert forall|y1: int, y2: int|
                    0 <= y1 < s2.len() && 0 <= y2 < s2.len() && y1 != y2 implies #[trigger] s2[y1]
                    != #[trigger] s2[y2] by {
                    assert(s2[y1] == s[y1 + 1] && s2[y2] == s[y2 + 1]);
                }
            }
            assert(!s2.contains(e)) by {
                if s2.contains(e) {
                    let y = choose|y: int| 0 <= y < s2.len() && s2[y] == e;
                    assert(s[y + 1] == e);
                    assert(s.contains(e));
                }
            }
            assert(s2[s2.len() - 1] == s[s.len() - 1]);
            assert(post.meta@[i] == self.meta@[i]) by {
                assert(s[0] == i && s.len() - 1 > 0);
            }
            assert(post.occ(i) && post.jump_at(i) == self.jump_at(i) && post.next_of(i) == nx);
            self.lemma_chain_extend(post, nx, (fuel - 1) as nat, e, (fuel2 - 1) as nat);
            assert(post.chain_opt(i, fuel2) == Some(seq![i] + s2.push(e)));
            assert(seq![i] + s2.push(e) =~= s.push(e));
        }
    }

    /// A duplicate-free chain fits in the table, so the standard fuel of one
    /// unit per slot always suffices.
    proof fn lemma_chain_len_bound(self, i: int, fuel: nat)
        requires
            self.chain_opt(i, fuel) is Some,
            self.chain_opt(i, fuel)->Some_0.no_duplicates(),
        ensures
            self.chain_opt(i, fuel)->Some_0.len() <= self.n(),
    {
        let s = self.chain_opt(i, fuel)->Some_0;
        self.lemma_chain_structure(i, fuel);
        s.unique_seq_to_set();
        vstd::set_lib::lemma_int_range(0, self.n());
        assert(s.to_set().subset_of(vstd::set_lib::set_int_range(0, self.n()))) by {
            assert(forall|x: int| s.to_set().contains(x) ==> s.contains(x));
        }
        vstd::set_lib::lemma_len_subset(
            s.to_set(),
            vstd::set_lib::set_int_range(0, self.n()),
        );
    }
}

impl<K: EqKey, V, H: KeyHasher<K>> HashMap<K, V, H> {
    /// Reduces a probe cursor to the slot index it addresses.
    fn index_of(&self, cursor: u64) -> (i: usize)
        requires
            1 <= self.n(),
        ensures
            i as int == cursor as int % self.n(),
            (i as int) < self.n(),
    {
        proof {
            lemma_mod_bound(cursor as int, self.n());
        }
        (cursor % (self.meta.len() as u64)) as usize
    }

    /// The digest of a key under this table's hasher.
    pub fn hash(&self, key: &K) -> (h: u64)
        ensures
            h == self.spec_hash(*key),
    {
        self.hasher.hash_key(key)
    }

    /// Builds the two parallel slot arrays, every slot empty.
    fn make_slots(n_slots: usize) -> (r: (Vec<Metadata>, Vec<Option<(K, V)>>))
        ensures
            r.0@.len() == n_slots,
            r.1@.len() == n_slots,
            forall|i: int| 0 <= i < n_slots ==> meta_empty((#[trigger] r.0@[i]).0),
            forall|i: int| 0 <= i < n_slots ==> (#[trigger] r.1@[i]) is None,
    {
        let mut meta: Vec<Metadata> = Vec::new();
        let mut data: Vec<Option<(K, V)>> = Vec::new();
        let mut i: usize = 0;
        while i < n_slots
            invariant
                i <= n_slots,
                meta@.len() == i,
                data@.len() == i,
                forall|j: int| 0 <= j < i ==> meta_empty((#[trigger] meta@[j]).0),
                forall|j: int| 0 <= j < i ==> (#[trigger] data@[j]) is None,
            decreases n_slots - i,
        {
            meta.push(Metadata(0xff));
            data.push(None);
            i = i + 1;
        }
        (meta, data)
    }

    /// A fresh table of `cap` groups with the given hasher, size zero.
    fn fresh(cap: usize, hasher: H) -> (r: Self)
        requires
            1 <= cap,
            is_pow2(cap as int),
            16 * cap <= usize::MAX,
        ensures
            r.inv(),
            r@ == Map::<K, V>::empty(),
            r.spec_capacity() == cap,
            r.spec_len() == 0,
            r.spec_size() == 0,
            r.spec_hasher() == hasher,
            r.overflow@.len() == 0,
    {
        let (meta, data) = Self::make_slots(16 * cap);
        let r = HashMap { meta, data, overflow: Vec::new(), size: 0, capacity: cap, hasher };
        proof {
            lemma_count_occ_zero(r.meta@, r.n());
            assert forall|k: K| !(r.slot_keyed(k) || r.over_keyed(k)) by {
                assert(forall|i: int| 0 <= i < r.n() ==> !(#[trigger] r.occ(i)));
            }
            assert(r@ =~= Map::<K, V>::empty());
        }
        r
    }

    /// A table with the default capacity of one cell group.
    pub fn with_hasher(hasher: H) -> (r: Self)
        ensures
            r.inv(),
            r@ == Map::<K, V>::empty(),
            r.spec_capacity() == 1,
            r.spec_len() == 0,
            r.spec_size() == 0,
            r.spec_hasher() == hasher,
    {
        proof {
            lemma2_to64();
            assert(is_pow2(1)) by {
                assert(pow2(0) == 1) by {
                    lemma2_to64();
                }
            }
        }
        Self::fresh(1, hasher)
    }

    /// A table able to hold `capacity` entries without reallocating its slot
    /// arrays: the group count is the least power of two covering
    /// `ceil(capacity / 16)` groups.
    pub fn with_capacity(capacity: usize, hasher: H) -> (r: Self)
        requires
            capacity <= usize::MAX / 32,
        ensures
            r.inv(),
            r@ == Map::<K, V>::empty(),
            r.spec_len() == 0,
            r.spec_size() == 0,
            r.spec_hasher() == hasher,
            is_pow2(r.spec_capacity()),
            r.spec_capacity() >= (capacity + 15) / 16,
            r.spec_capacity() == 1 || r.spec_capacity() < 2 * ((capacity + 15) / 16),
    {
        let groups: usize = if capacity == 0 {
            1
        } else {
            (capacity - 1) / 16 + 1
        };
        assert(groups == if capacity == 0 {
            1int
        } else {
            (capacity as int + 15) / 16
        });
        let mut cap: usize = 1;
        proof {
            assert(is_pow2(1)) by {
                assert(pow2(0) == 1) by {
                    lemma2_to64();
                }
            }
        }
        while cap < groups
            invariant
                1 <= cap,
                cap <= 2 * groups,
                is_pow2(cap as int),
                cap == 1 || cap < 2 * groups,
                groups <= usize::MAX / 32,
            decreases 2 * groups - cap,
        {
            proof {
                let e = choose|e: nat| cap as int == pow2(e);
                lemma_pow2_adds(e, 1);
                lemma2_to64();
                assert(pow2(e + 1) == pow2(e) * 2);
                assert(is_pow2(2 * cap as int));
            }
            cap = cap * 2;
        }
        assert(cap >= groups);
        assert(16 * cap <= usize::MAX);
        Self::fresh(cap, hasher)
    }

    /// The slot count is a power of two that a 64-bit cursor can address.
    proof fn lemma_n_pow2(self)
        requires
            self.inv_base(),
        ensures
            is_pow2(self.n()),
            16 <= self.n() <= u64::MAX,
    {
        let e = choose|e: nat| self.capacity as int == pow2(e);
        lemma2_to64();
        lemma_pow2_adds(e, 4);
        assert(self.n() == pow2(e) * pow2(4));
        assert(self.n() == pow2(e + 4));
        assert(usize::MAX <= u64::MAX);
    }

    /// Two well-formed states whose slot contents differ only in that `post`
    /// fills the previously empty slot `e` with a fresh key describe maps
    /// related by one insertion.
    proof fn lemma_view_add_slot(self, post: Self, e: int, k: K, v: V)
        requires
            self.wf(),
            post.wf(),
            post.n() == self.n(),
            0 <= e < self.n(),
            !self.occ(e),
            post.occ(e),
            post.data@[e] == Some::<(K, V)>((k, v)),
            forall|i: int|
                0 <= i < self.n() && i != e ==> post.occ(i) == self.occ(i) && post.data@[i]
                    == (#[trigger] self.data@[i]),
            post.overflow@ == self.overflow@,
            !self.over_keyed(k),
        ensures
            post@ == self@.insert(k, v),
            !self.slot_keyed(k),
    {
        assert(!self.slot_keyed(k)) by {
            if self.slot_keyed(k) {
                let i = choose|i: int| 0 <= i < self.n() && self.occ(i) && self.key_at(i) == k;
                assert(post.occ(i) && post.key_at(i) == k);
                assert(i != e);
                assert(post.key_at(e) == k);
            }
        }
        assert forall|k2: K| true implies #[trigger] post@.contains_key(k2) == self@.insert(
            k,
            v,
        ).contains_key(k2) && (post@.contains_key(k2) ==> post@[k2] == self@.insert(k, v)[k2]) by {
            assert(post.over_keyed(k2) == self.over_keyed(k2));
            if k2 == k {
                assert(post.occ(e) && post.key_at(e) == k);
                assert(post.slot_keyed(k));
                let w = post.slot_with_key(k);
                assert(0 <= w < post.n() && post.occ(w) && post.key_at(w) == k);
                assert(w == e);
                assert(post@.contains_key(k2));
                assert(post@[k2] == v);
            } else {
                if post.slot_keyed(k2) {
                    let w = post.slot_with_key(k2);
                    assert(0 <= w < post.n() && post.occ(w) && post.key_at(w) == k2);
                    assert(w != e);
                    assert(self.data@[w] == post.data@[w]);
                    assert(self.occ(w) && self.key_at(w) == k2);
                    assert(self.slot_keyed(k2));
                    let w2 = self.slot_with_key(k2);
                    assert(0 <= w2 < self.n() && self.occ(w2) && self.key_at(w2) == k2);
                    assert(post.occ(w2) && post.key_at(w2) == k2);
                    assert(w2 == w);
                    assert(post@[k2] == post.val_at(w) && self@[k2] == self.val_at(w2));
                } else if self.slot_keyed(k2) {
                    let w = self.slot_with_key(k2);
                    assert(0 <= w < self.n() && self.occ(w) && self.key_at(w) == k2);
                    assert(w != e);
                    assert(post.occ(w) && post.key_at(w) == k2);
                    assert(post.slot_keyed(k2));
                } else if post.over_keyed(k2) {
                    let x = post.over_idx(k2);
                    assert(0 <= x < post.overflow@.len() && post.overflow@[x].0 == k2);
                    let x2 = self.over_idx(k2);
                    assert(0 <= x2 < self.overflow@.len() && self.overflow@[x2].0 == k2);
                    assert(x == x2);
                    assert(post@[k2] == self@[k2]);
                }
            }
        }
        assert(post@ =~= self@.insert(k, v));
    }

    /// Installing a fresh key into its empty direct-hit slot as a chain head
    /// of its own preserves every invariant.
    #[verifier::rlimit(60)]
    proof fn lemma_install_head_wf(self, post: Self, d: int, k: K, v: V)
        requires
            self.wf(),
            0 <= d < self.n(),
            !self.occ(d),
            self.home_of(k) == d,
            !self.over_keyed(k),
            self.size + self.overflow@.len() + 1 <= usize::MAX,
            post.meta@ == self.meta@.update(d, Metadata(0)),
            post.data@ == self.data@.update(d, Some::<(K, V)>((k, v))),
            post.overflow@ == self.overflow@,
            post.capacity == self.capacity,
            post.hasher == self.hasher,
            post.size == self.size + 1,
        ensures
            post.wf(),
            post@ == self@.insert(k, v),
            !self.slot_keyed(k),
    {
        let n = self.n();
        assert(post.n() == n);
        assert(post.occ(d) && !post.storage_at(d) && post.jump_at(d) == 0);
        assert(post.key_at(d) == k && post.val_at(d) == v);
        assert(forall|i: int| 0 <= i < n && i != d ==> post.meta@[i] == self.meta@[i]);
        assert(forall|i: int|
            0 <= i < n && i != d ==> post.data@[i] == (#[trigger] self.data@[i]));
        // size still counts the occupied slots
        lemma_count_occ_update(self.meta@, d, Metadata(0), n);
        // the new head anchors the one-slot chain [d]
        assert(post.chain_opt(d, n as nat) == Some(seq![d]));
        assert(post.home_of(k) == d);
        // every chain of the old state survives unchanged
        assert forall|b: int|
            0 <= b < n && #[trigger] self.occ(b) && !self.storage_at(b) implies post.chain_opt(
            b,
            n as nat,
        ) == self.chain_opt(b, n as nat) by {
            assert(self.chain_ok(b));
            let s = self.chain_opt(b, n as nat)->Some_0;
            self.lemma_chain_structure(b, n as nat);
            assert(forall|y: int| 0 <= y < s.len() ==> #[trigger] s[y] != d);
            self.lemma_chain_frame(post, b, n as nat);
        }
        assert(post.base_wf()) by {
            assert(post.inv_base());
            assert(post.size == count_occ(post.meta@, post.n()));
            assert(forall|i: int|
                0 <= i < n ==> (post.occ(i) <==> (#[trigger] post.data@[i]) is Some));
            assert forall|i: int|
                0 <= i < n && #[trigger] post.occ(i) implies post.jump_at(i) <= 125 by {
                if i != d {
                    assert(self.occ(i));
                    assert(post.meta@[i] == self.meta@[i]);
                }
            }
            assert forall|i: int, j: int|
                0 <= i < n && 0 <= j < n && i != j && post.occ(i) && post.occ(j) implies
                #[trigger] post.key_at(i) != #[trigger] post.key_at(j) by {
                if i == d || j == d {
                    let o = if i == d {
                        j
                    } else {
                        i
                    };
                    assert(self.occ(o));
                    if self.key_at(o) == k {
                        assert(self.slot_keyed(k));
                        self.lemma_absent_without_head(k);
                    }
                }
            }
            assert forall|x: int, i: int|
                0 <= x < post.overflow@.len() && 0 <= i < n && post.occ(i) implies (
            #[trigger] post.overflow@[x]).0 != #[trigger] post.key_at(i) by {
                if i == d {
                    if post.overflow@[x].0 == k {
                        assert(self.overflow@[x].0 == k);
                        assert(self.over_keyed(k));
                    }
                } else {
                    assert(self.occ(i) && self.key_at(i) == post.key_at(i));
                }
            }
        }
        assert(post.chains_ok()) by {
            assert forall|i: int|
                0 <= i < n && #[trigger] post.occ(i) && !post.storage_at(i) implies post.home_of(
                post.key_at(i),
            ) == i && post.chain_ok(i) by {
                if i == d {
                    let s = seq![d];
                    assert(post.chain_opt(d, n as nat) == Some(s));
                    assert(forall|x: int| 0 <= x < s.len() ==> #[trigger] s[x] == d);
                    assert(s.no_duplicates());
                } else {
                    assert(self.occ(i) && !self.storage_at(i));
                    assert(self.chain_ok(i));
                    let s = self.chain_opt(i, n as nat)->Some_0;
                    self.lemma_chain_structure(i, n as nat);
                    assert(forall|y: int| 0 <= y < s.len() ==> #[trigger] s[y] != d);
                    assert(forall|y: int|
                        0 <= y < s.len() ==> post.key_at(#[trigger] s[y]) == self.key_at(s[y]));
                    assert(forall|y: int|
                        0 <= y < s.len() ==> post.storage_at(#[trigger] s[y]) == self.storage_at(
                            s[y],
                        ));
                }
            }
            assert forall|i: int| 0 <= i < n && #[trigger] post.occ(i) implies post.reachable(
                i,
            ) by {
                if i == d {
                    assert(post.chain_opt(d, n as nat) == Some(seq![d]));
                    assert(seq![d].contains(d)) by {
                        assert(seq![d][0] == d);
                    }
                } else {
                    assert(self.occ(i));
                    assert(self.reachable(i));
                    let b = self.home_of(self.key_at(i));
                    assert(post.key_at(i) == self.key_at(i));
                    assert(post.home_of(post.key_at(i)) == b);
                    assert(self.occ(b) && !self.storage_at(b));
                    assert(post.chain_opt(b, n as nat) == self.chain_opt(b, n as nat));
                }
            }
        }
        self.lemma_view_add_slot(post, d, k, v);
    }

    /// Overwriting the value stored under an existing key preserves every
    /// invariant and updates the map at just that key.
    proof fn lemma_overwrite_wf(self, post: Self, i: int, k: K, v: V)
        requires
            self.wf(),
            0 <= i < self.n(),
            self.occ(i),
            self.key_at(i) == k,
            post.meta@ == self.meta@,
            post.data@ == self.data@.update(i, Some::<(K, V)>((k, v))),
            post.overflow@ == self.overflow@,
            post.capacity == self.capacity,
            post.hasher == self.hasher,
            post.size == self.size,
        ensures
            post.wf(),
            post@ == self@.insert(k, v),
            self.slot_keyed(k),
    {
        let n = self.n();
        assert(forall|j: int| 0 <= j < n ==> post.occ(j) == (#[trigger] self.occ(j)));
        assert(forall|j: int|
            0 <= j < n && j != i ==> post.data@[j] == (#[trigger] self.data@[j]));
        assert(forall|j: int|
            0 <= j < n && #[trigger] post.occ(j) ==> post.key_at(j) == self.key_at(j));
        lemma_count_occ_agree(post.meta@, self.meta@, n);
        assert forall|b: int, fuel: nat| true implies #[trigger] post.chain_opt(b, fuel)
            == self.chain_opt(b, fuel) by {
            post.lemma_chain_opt_meta_only(self, b, fuel);
        }
        assert(post.base_wf());
        assert(post.chains_ok()) by {
            assert forall|j: int|
                0 <= j < n && #[trigger] post.occ(j) && !post.storage_at(j) implies post.home_of(
                post.key_at(j),
            ) == j && post.chain_ok(j) by {
                assert(self.chain_ok(j));
                let s = self.chain_opt(j, n as nat)->Some_0;
                self.lemma_chain_structure(j, n as nat);
                assert(forall|y: int|
                    0 <= y < s.len() ==> post.key_at(#[trigger] s[y]) == self.key_at(s[y]));
            }
            assert forall|j: int| 0 <= j < n && #[trigger] post.occ(j) implies post.reachable(
                j,
            ) by {
                assert(self.reachable(j));
            }
        }
        assert(self.slot_keyed(k));
        // the map gains the new value under k and keeps everything else
        assert forall|k2: K| true implies #[trigger] post@.contains_key(k2) == self@.insert(
            k,
            v,
        ).contains_key(k2) && (post@.contains_key(k2) ==> post@[k2] == self@.insert(k, v)[k2]) by {
            assert(post.slot_keyed(k2) == self.slot_keyed(k2));
            assert(post.over_keyed(k2) == self.over_keyed(k2));
            if k2 == k {
                assert(post.slot_keyed(k));
                let w = post.slot_with_key(k);
                assert(0 <= w < n && post.occ(w) && post.key_at(w) == k);
                assert(w == i);
                assert(post@[k2] == v);
            } else if post.slot_keyed(k2) {
                let w = post.slot_with_key(k2);
                assert(0 <= w < n && post.occ(w) && post.key_at(w) == k2);
                assert(w != i);
                let w2 = self.slot_with_key(k2);
                assert(self.slot_keyed(k2));
                assert(0 <= w2 < n && self.occ(w2) && self.key_at(w2) == k2);
                assert(w2 == w);
            } else if post.over_keyed(k2) {
                let x = post.over_idx(k2);
                assert(0 <= x < post.overflow@.len() && post.overflow@[x].0 == k2);
                let x2 = self.over_idx(k2);
                assert(0 <= x2 < self.overflow@.len() && self.overflow@[x2].0 == k2);
            }
        }
        assert(post@ =~= self@.insert(k, v));
    }

    /// Appending a fresh key to its chain — new terminal slot `e`, the old
    /// tail's jump set to `j` — preserves every invariant.
    #[verifier::rlimit(100)]
    proof fn lemma_append_wf(self, post: Self, b: int, e: int, j: int, k: K, v: V)
        requires
            self.wf(),
            0 <= b < self.n(),
            self.occ(b),
            !self.storage_at(b),
            self.home_of(k) == b,
            ({
                let s = self.chain_of(b);
                forall|y: int| 0 <= y < s.len() ==> self.key_at(#[trigger] s[y]) != k
            }),
            !self.over_keyed(k),
            self.size + self.overflow@.len() + 1 <= usize::MAX,
            0 <= e < self.n(),
            !self.occ(e),
            1 <= j <= 125,
            e == (self.chain_of(b).last() + jump_dist(j)) % self.n(),
            post.n() == self.n(),
            ({
                let t = self.chain_of(b).last();
                &&& forall|i: int|
                    0 <= i < self.n() && i != t && i != e ==> post.meta@[i] == (
                    #[trigger] self.meta@[i])
                &&& post.occ(t)
                &&& post.storage_at(t) == self.storage_at(t)
                &&& post.jump_at(t) == j
            }),
            post.meta@.len() == self.meta@.len(),
            post.meta@[e] == Metadata(0x80),
            post.data@ == self.data@.update(e, Some::<(K, V)>((k, v))),
            post.overflow@ == self.overflow@,
            post.capacity == self.capacity,
            post.hasher == self.hasher,
            post.size == self.size + 1,
        ensures
            post.wf(),
            post@ == self@.insert(k, v),
            !self.slot_keyed(k),
    {
        let n = self.n();
        assert(self.chain_ok(b));
        let s = self.chain_of(b);
        self.lemma_chain_structure(b, n as nat);
        self.lemma_chain_len_bound(b, n as nat);
        let t = s.last();
        assert(s.contains(t)) by {
            assert(s[s.len() - 1] == t);
        }
        assert(0 <= t < n && self.occ(t));
        assert(t != e);
        assert(!s.contains(e)) by {
            if s.contains(e) {
                let y = choose|y: int| 0 <= y < s.len() && s[y] == e;
                assert(self.occ(s[y]));
            }
        }
        assert(post.occ(e) && post.storage_at(e) && post.jump_at(e) == 0);
        assert(post.key_at(e) == k && post.val_at(e) == v);
        assert(!self.slot_keyed(k)) by {
            if self.slot_keyed(k) {
                let i = choose|i: int| 0 <= i < n && self.occ(i) && self.key_at(i) == k;
                assert(self.occ(i));
                assert(self.reachable(i));
                assert(s.contains(i));
                let y = choose|y: int| 0 <= y < s.len() && s[y] == i;
                assert(self.key_at(s[y]) == k);
            }
        }
        // occupancy is unchanged except at e
        assert(forall|i: int| 0 <= i < n && i != e ==> post.occ(i) == (#[trigger] self.occ(i)));
        assert(forall|i: int|
            0 <= i < n && i != e ==> post.data@[i] == (#[trigger] self.data@[i]));
        assert(forall|i: int|
            0 <= i < n && #[trigger] post.occ(i) && i != e ==> post.key_at(i) == self.key_at(i));
        // the occupied count grows by one
        assert(post.size == count_occ(post.meta@, n)) by {
            let m2 = self.meta@.update(e, Metadata(0x80));
            lemma_count_occ_update(self.meta@, e, Metadata(0x80), n);
            lemma_count_occ_agree(post.meta@, m2, n);
        }
        // the chain of b gains e at its end; all other chains are untouched
        self.lemma_chain_extend(post, b, n as nat, e, n as nat);
        assert(post.chain_opt(b, n as nat) == Some(s.push(e)));
        assert forall|b2: int|
            0 <= b2 < n && #[trigger] self.occ(b2) && !self.storage_at(b2) && b2 != b implies
        post.chain_opt(b2, n as nat) == self.chain_opt(b2, n as nat) by {
            assert(self.chain_ok(b2));
            let s2 = self.chain_opt(b2, n as nat)->Some_0;
            self.lemma_chain_structure(b2, n as nat);
            assert forall|y: int| 0 <= y < s2.len() implies post.meta@[#[trigger] s2[y]]
                == self.meta@[s2[y]] by {
                assert(self.occ(s2[y]));
                assert(s2[y] != e);
                if s2[y] == t {
                    assert(self.home_of(self.key_at(t)) == b);
                    assert(self.home_of(self.key_at(s2[y])) == b2);
                }
            }
            self.lemma_chain_frame(post, b2, n as nat);
        }
        assert(post.base_wf()) by {
            assert(post.inv_base());
            assert forall|i: int|
                0 <= i < n && #[trigger] post.occ(i) implies post.jump_at(i) <= 125 by {
                if i != e && i != t {
                    assert(self.occ(i));
                    assert(post.meta@[i] == self.meta@[i]);
                }
            }
            assert forall|i: int, i2: int|
                0 <= i < n && 0 <= i2 < n && i != i2 && post.occ(i) && post.occ(i2) implies
                #[trigger] post.key_at(i) != #[trigger] post.key_at(i2) by {
                if i == e || i2 == e {
                    let o = if i == e {
                        i2
                    } else {
                        i
                    };
                    assert(self.occ(o));
                    if self.key_at(o) == k {
                        assert(self.slot_keyed(k));
                    }
                }
            }
            assert forall|x: int, i: int|
                0 <= x < post.overflow@.len() && 0 <= i < n && post.occ(i) implies (
            #[trigger] post.overflow@[x]).0 != #[trigger] post.key_at(i) by {
                if i == e {
                    if post.overflow@[x].0 == k {
                        assert(self.overflow@[x].0 == k);
                        assert(self.over_keyed(k));
                    }
                } else {
                    assert(self.occ(i) && self.key_at(i) == post.key_at(i));
                }
            }
        }
        assert(post.chains_ok()) by {
            let se = s.push(e);
            assert(se.no_duplicates()) by {
                assert(forall|y: int| 0 <= y < s.len() ==> se[y] == #[trigger] s[y]);
                assert(se[s.len() as int] == e);
            }
            assert(post.occ(b) && !post.storage_at(b)) by {
                if b == t {
                    assert(post.storage_at(t) == self.storage_at(t));
                } else {
                    assert(post.meta@[b] == self.meta@[b]);
                }
            }
            assert forall|i: int|
                0 <= i < n && #[trigger] post.occ(i) && !post.storage_at(i) implies post.home_of(
                post.key_at(i),
            ) == i && post.chain_ok(i) by {
                if i == e {
                    assert(post.storage_at(e));
                } else if i == t && t != b {
                    assert(self.storage_at(t)) by {
                        let y = choose|y: int| 0 <= y < s.len() && s[y] == t;
                        assert(s[s.len() - 1] == t);
                        if s.len() >= 2 {
                            assert(self.storage_at(s[s.len() - 1]));
                        } else {
                            assert(s[0] == b);
                        }
                    }
                    assert(post.storage_at(t));
                } else if i == b {
                    assert(post.key_at(b) == self.key_at(b)) by {
                        assert(b != e);
                    }
                    assert(post.home_of(post.key_at(b)) == b);
                    assert(post.chain_opt(b, n as nat) == Some(se));
                    assert forall|y: int|
                        0 <= y < se.len() implies post.home_of(post.key_at(#[trigger] se[y]))
                        == b by {
                        if y < s.len() {
                            assert(se[y] == s[y]);
                            assert(se[y] != e);
                            assert(self.home_of(self.key_at(s[y])) == b);
                        } else {
                            assert(se[y] == e);
                        }
                    }
                    assert forall|y: int| 0 < y < se.len() implies post.storage_at(
                        #[trigger] se[y],
                    ) by {
                        if y < s.len() {
                            assert(se[y] == s[y]);
                            if s[y] == t {
                                assert(post.storage_at(t) == self.storage_at(t));
                                assert(self.storage_at(s[y]));
                            } else {
                                assert(post.meta@[s[y]] == self.meta@[s[y]]);
                                assert(self.storage_at(s[y]));
                            }
                        } else {
                            assert(se[y] == e);
                        }
                    }
                } else {
                    // an untouched head of another chain
                    assert(post.meta@[i] == self.meta@[i]);
                    assert(self.occ(i) && !self.storage_at(i));
                    assert(self.chain_ok(i));
                    assert(self.home_of(self.key_at(i)) == i);
                    assert(i != b);
                    assert(post.chain_opt(i, n as nat) == self.chain_opt(i, n as nat));
                    let s2 = self.chain_opt(i, n as nat)->Some_0;
                    self.lemma_chain_structure(i, n as nat);
                    assert(post.key_at(i) == self.key_at(i)) by {
                        assert(i != e);
                    }
                    assert forall|y: int| 0 <= y < s2.len() implies post.key_at(#[trigger] s2[y])
                        == self.key_at(s2[y]) && post.storage_at(s2[y]) == self.storage_at(
                        s2[y],
                    ) by {
                        assert(self.occ(s2[y]));
                        assert(s2[y] != e);
                        if s2[y] == t {
                            assert(self.home_of(self.key_at(t)) == b);
                            assert(self.home_of(self.key_at(s2[y])) == i);
                            assert(t != b);
                            assert(false);
                        }
                    }
                }
            }
            assert forall|i: int| 0 <= i < n && #[trigger] post.occ(i) implies post.reachable(
                i,
            ) by {
                if i == e {
                    assert(post.home_of(k) == b);
                    assert(se.contains(e)) by {
                        assert(se[s.len() as int] == e);
                    }
                    assert(post.chain_opt(b, n as nat) matches Some(ss) && ss.contains(e));
                } else {
                    assert(self.occ(i));
                    assert(self.reachable(i));
                    let b2 = self.home_of(self.key_at(i));
                    assert(post.key_at(i) == self.key_at(i));
                    assert(self.occ(b2) && !self.storage_at(b2));
                    if b2 == b {
                        assert(s.contains(i)) by {
                            let sb = self.chain_opt(b, n as nat)->Some_0;
                            assert(sb == s);
                        }
                        let y = choose|y: int| 0 <= y < s.len() && s[y] == i;
                        assert(se[y] == i);
                        assert(se.contains(i));
                        assert(post.occ(b) && !post.storage_at(b));
                    } else {
                        assert(post.chain_opt(b2, n as nat) == self.chain_opt(b2, n as nat));
                        assert(post.occ(b2) && !post.storage_at(b2)) by {
                            assert(b2 != e);
                            if b2 == t {
                                assert(self.home_of(self.key_at(t)) == b);
                                if t == b {
                                    assert(b2 == b);
                                    assert(false);
                                } else {
                                    let y = choose|y: int| 0 <= y < s.len() && s[y] == t;
                                    assert(s[s.len() - 1] == t);
                                    assert(self.storage_at(s[s.len() - 1]));
                                    assert(false);
                                }
                            }
                            assert(post.meta@[b2] == self.meta@[b2]);
                        }
                    }
                }
            }
        }
        self.lemma_view_add_slot(post, e, k, v);
    }

    /// Clearing one whole chain — every slot that the chain anchored at `b`
    /// holds — leaves a well-formed table without that chain's keys.
    #[verifier::rlimit(100)]
    proof fn lemma_evict_wf(self, post: Self, b: int)
        requires
            self.wf(),
            0 <= b < self.n(),
            self.occ(b),
            !self.storage_at(b),
            post.n() == self.n(),
            post.data@.len() == self.data@.len(),
            ({
                let s = self.chain_of(b);
                &&& forall|i: int|
                    0 <= i < self.n() && s.contains(i) ==> (#[trigger] post.meta@[i]) == Metadata(
                        0xff,
                    ) && post.data@[i] is None
                &&& forall|i: int|
                    0 <= i < self.n() && !s.contains(i) ==> (#[trigger] post.meta@[i])
                        == self.meta@[i] && post.data@[i] == self.data@[i]
            }),
            post.size == count_occ(post.meta@, post.n()),
            post.size + post.overflow@.len() <= usize::MAX,
            post.capacity == self.capacity,
            post.hasher == self.hasher,
            post.overflow@ == self.overflow@,
        ensures
            post.wf(),
            post@ == self@.remove_keys(
                Set::new(|k: K| self.slot_keyed(k) && self.home_of(k) == b),
            ),
    {
        let n = self.n();
        assert(self.chain_ok(b));
        let s = self.chain_of(b);
        self.lemma_chain_structure(b, n as nat);
        // slots outside the chain keep their occupancy, contents and roles
        assert forall|i: int| 0 <= i < n && !s.contains(i) implies post.occ(i) == (
        #[trigger] self.occ(i)) by {
            assert(post.meta@[i] == self.meta@[i]);
        }
        // an occupied slot of the new state lies outside the chain
        assert forall|i: int| 0 <= i < n && #[trigger] post.occ(i) implies !s.contains(i)
            && self.occ(i) && post.key_at(i) == self.key_at(i) && post.data@[i] == self.data@[i]
            && self.home_of(self.key_at(i)) != b by {
            if s.contains(i) {
                assert(post.meta@[i] == Metadata(0xff));
                assert(!post.occ(i));
            }
            assert(post.meta@[i] == self.meta@[i]);
            assert(self.occ(i));
            if self.home_of(self.key_at(i)) == b {
                assert(self.reachable(i));
                assert(s.contains(i));
            }
        }
        assert(post.base_wf()) by {
            assert(post.inv_base());
            assert forall|i: int|
                0 <= i < n implies (post.occ(i) <==> (#[trigger] post.data@[i]) is Some) by {
                if s.contains(i) {
                    assert(post.meta@[i] == Metadata(0xff));
                } else {
                    assert(post.meta@[i] == self.meta@[i] && post.data@[i] == self.data@[i]);
                }
            }
            assert forall|i: int|
                0 <= i < n && #[trigger] post.occ(i) implies post.jump_at(i) <= 125 by {
                assert(self.occ(i) && post.meta@[i] == self.meta@[i]);
            }
            assert forall|i: int, j: int|
                0 <= i < n && 0 <= j < n && i != j && post.occ(i) && post.occ(j) implies
                #[trigger] post.key_at(i) != #[trigger] post.key_at(j) by {
                assert(self.occ(i) && self.occ(j));
                assert(post.key_at(i) == self.key_at(i) && post.key_at(j) == self.key_at(j));
            }
            assert forall|x: int, i: int|
                0 <= x < post.overflow@.len() && 0 <= i < n && post.occ(i) implies (
            #[trigger] post.overflow@[x]).0 != #[trigger] post.key_at(i) by {
                assert(self.occ(i) && post.key_at(i) == self.key_at(i));
                assert(self.overflow@[x].0 != self.key_at(i));
            }
        }
        // chains of other coordinates are disjoint from the cleared chain
        assert forall|b2: int|
            0 <= b2 < n && #[trigger] post.occ(b2) && !post.storage_at(b2) implies post.chain_opt(
            b2,
            n as nat,
        ) == self.chain_opt(b2, n as nat) by {
            assert(self.occ(b2) && !self.storage_at(b2));
            assert(self.chain_ok(b2));
            let s2 = self.chain_opt(b2, n as nat)->Some_0;
            self.lemma_chain_structure(b2, n as nat);
            assert(b2 != b);
            assert forall|y: int| 0 <= y < s2.len() implies post.meta@[#[trigger] s2[y]]
                == self.meta@[s2[y]] by {
                assert(self.home_of(self.key_at(s2[y])) == b2);
                if s.contains(s2[y]) {
                    let q = choose|q: int| 0 <= q < s.len() && s[q] == s2[y];
                    assert(self.home_of(self.key_at(s[q])) == b);
                }
            }
            self.lemma_chain_frame(post, b2, n as nat);
        }
        assert(post.chains_ok()) by {
            assert forall|i: int|
                0 <= i < n && #[trigger] post.occ(i) && !post.storage_at(i) implies post.home_of(
                post.key_at(i),
            ) == i && post.chain_ok(i) by {
                assert(self.occ(i) && !self.storage_at(i));
                assert(self.chain_ok(i));
                let s2 = self.chain_opt(i, n as nat)->Some_0;
                self.lemma_chain_structure(i, n as nat);
                assert(post.chain_opt(i, n as nat) == self.chain_opt(i, n as nat));
                assert forall|y: int| 0 <= y < s2.len() implies post.key_at(#[trigger] s2[y])
                    == self.key_at(s2[y]) && post.storage_at(s2[y]) == self.storage_at(s2[y]) by {
                    assert(self.home_of(self.key_at(s2[y])) == i);
                    if s.contains(s2[y]) {
                        let q = choose|q: int| 0 <= q < s.len() && s[q] == s2[y];
                        assert(self.home_of(self.key_at(s[q])) == b);
                        assert(i == b);
                        assert(post.occ(i));
                        assert(s.contains(i)) by {
                            assert(s[0] == b);
                        }
                    }
                }
            }
            assert forall|i: int| 0 <= i < n && #[trigger] post.occ(i) implies post.reachable(
                i,
            ) by {
                assert(self.occ(i));
                assert(self.reachable(i));
                let b2 = self.home_of(self.key_at(i));
                assert(b2 != b);
                assert(!s.contains(b2)) by {
                    if s.contains(b2) {
                        let q = choose|q: int| 0 <= q < s.len() && s[q] == b2;
                        assert(self.home_of(self.key_at(s[q])) == b);
                        assert(self.occ(b2) && !self.storage_at(b2));
                        assert(self.home_of(self.key_at(b2)) == b2);
                    }
                }
                assert(post.occ(b2) && !post.storage_at(b2));
                assert(post.chain_opt(b2, n as nat) == self.chain_opt(b2, n as nat));
            }
        }
        // the view loses exactly the chain's keys
        let gone = Set::new(|k: K| self.slot_keyed(k) && self.home_of(k) == b);
        assert forall|k2: K| true implies #[trigger] post@.contains_key(k2)
            == self@.remove_keys(gone).contains_key(k2) && (post@.contains_key(k2)
            ==> post@[k2] == self@.remove_keys(gone)[k2]) by {
            assert(post.over_keyed(k2) == self.over_keyed(k2));
            if post.slot_keyed(k2) {
                let w = post.slot_with_key(k2);
                assert(0 <= w < n && post.occ(w) && post.key_at(w) == k2);
                assert(self.occ(w) && self.key_at(w) == k2);
                assert(self.slot_keyed(k2));
                assert(self.home_of(k2) != b);
                let w2 = self.slot_with_key(k2);
                assert(0 <= w2 < n && self.occ(w2) && self.key_at(w2) == k2);
                assert(w2 == w);
                assert(post@[k2] == post.val_at(w));
            } else if self.slot_keyed(k2) && self.home_of(k2) != b {
                let w = self.slot_with_key(k2);
                assert(0 <= w < n && self.occ(w) && self.key_at(w) == k2);
                assert(self.reachable(w));
                assert(!s.contains(w)) by {
                    if s.contains(w) {
                        let q = choose|q: int| 0 <= q < s.len() && s[q] == w;
                        assert(self.home_of(self.key_at(s[q])) == b);
                    }
                }
                assert(post.occ(w) && post.key_at(w) == k2);
                assert(post.slot_keyed(k2));
            } else if post.over_keyed(k2) && !post.slot_keyed(k2) && !self.slot_keyed(k2) {
                let x = post.over_idx(k2);
                assert(0 <= x < post.overflow@.len() && post.overflow@[x].0 == k2);
                let x2 = self.over_idx(k2);
                assert(0 <= x2 < self.overflow@.len() && self.overflow@[x2].0 == k2);
                assert(x == x2);
            }
        }
        assert(post@ =~= self@.remove_keys(gone));
    }

    /// Ties everything together after a chain eviction: the facts the
    /// eviction loop leaves behind give a well-formed table and describe the
    /// removed entries.
    #[verifier::rlimit(100)]
    proof fn lemma_evict_conclusion(self, post: Self, d: int, out: Seq<(K, V)>)
        requires
            self.wf(),
            0 <= d < self.n(),
            self.occ(d),
            self.storage_at(d),
            post.n() == self.n(),
            post.data@.len() == self.data@.len(),
            ({
                let b = self.home_of(self.key_at(d));
                let s = self.chain_of(b);
                &&& forall|i: int|
                    0 <= i < self.n() && s.contains(i) ==> (#[trigger] post.meta@[i]) == Metadata(
                        0xff,
                    ) && post.data@[i] is None
                &&& forall|i: int|
                    0 <= i < self.n() && !s.contains(i) ==> (#[trigger] post.meta@[i])
                        == self.meta@[i] && post.data@[i] == self.data@[i]
                &&& out.len() == s.len()
                &&& forall|q: int|
                    0 <= q < s.len() ==> (#[trigger] out[q]) == (
                        self.key_at(s[q]),
                        self.val_at(s[q]),
                    )
            }),
            post.size == count_occ(post.meta@, post.n()),
            post.size + post.overflow@.len() <= usize::MAX,
            post.capacity == self.capacity,
            post.hasher == self.hasher,
            post.overflow@ == self.overflow@,
        ensures
            post.wf(),
            post@ == self@.remove_keys(keys_of(out)),
            out.len() >= 2,
            forall|y: int|
                0 <= y < out.len() ==> self@.contains_key((#[trigger] out[y]).0)
                    && self@[(out[y]).0] == out[y].1,
            forall|y1: int, y2: int|
                0 <= y1 < out.len() && 0 <= y2 < out.len() && y1 != y2 ==> (
                #[trigger] out[y1]).0 != (#[trigger] out[y2]).0,
            ({
                let b = self.home_of(self.key_at(d));
                &&& 0 <= b < self.n()
                &&& b != d
                &&& !post.occ(b)
                &&& !post.occ(d)
                &&& forall|y: int| 0 <= y < out.len() ==> post.home_of((#[trigger] out[y]).0) == b
            }),
            forall|y: int|
                0 <= y < out.len() ==> !post.slot_keyed((#[trigger] out[y]).0) && !post.over_keyed(
                    out[y].0,
                ),
    {
        let n = self.n();
        assert(self.reachable(d));
        let b = self.home_of(self.key_at(d));
        assert(self.occ(b) && !self.storage_at(b));
        assert(self.chain_ok(b));
        let s = self.chain_of(b);
        self.lemma_chain_structure(b, n as nat);
        assert(b != d);
        assert(s.contains(d));
        assert(s.len() >= 2) by {
            assert(s[0] == b);
            let q = choose|q: int| 0 <= q < s.len() && s[q] == d;
            assert(q != 0);
        }
        self.lemma_evict_wf(post, b);
        let gone = Set::new(|k: K| self.slot_keyed(k) && self.home_of(k) == b);
        assert forall|k: K| gone.contains(k) == keys_of(out).contains(k) by {
            if gone.contains(k) {
                let w = self.slot_with_key(k);
                assert(0 <= w < n && self.occ(w) && self.key_at(w) == k);
                assert(self.reachable(w));
                assert(s.contains(w));
                let q = choose|q: int| 0 <= q < s.len() && s[q] == w;
                assert(out[q].0 == k);
                assert(keys_of(out).contains(k));
            }
            if keys_of(out).contains(k) {
                let q = choose|q: int| 0 <= q < out.len() && (#[trigger] out[q]).0 == k;
                assert(out[q] == (self.key_at(s[q]), self.val_at(s[q])));
                assert(self.occ(s[q]));
                assert(self.slot_keyed(k));
                assert(self.home_of(self.key_at(s[q])) == b);
            }
        }
        assert(gone =~= keys_of(out));
        assert forall|q: int| 0 <= q < out.len() implies self@.contains_key(
            (#[trigger] out[q]).0,
        ) && self@[out[q].0] == out[q].1 by {
            assert(self.occ(s[q]) && self.key_at(s[q]) == out[q].0);
            assert(self.slot_keyed(out[q].0));
            let w = self.slot_with_key(out[q].0);
            assert(0 <= w < n && self.occ(w) && self.key_at(w) == out[q].0);
            assert(w == s[q]);
        }
        assert forall|y1: int, y2: int|
            0 <= y1 < out.len() && 0 <= y2 < out.len() && y1 != y2 implies (
        #[trigger] out[y1]).0 != (#[trigger] out[y2]).0 by {
            assert(s[y1] != s[y2]);
            assert(self.occ(s[y1]) && self.occ(s[y2]));
        }
        assert(!post.occ(b)) by {
            assert(s.contains(b)) by {
                assert(s[0] == b);
            }
        }
        assert forall|q: int| 0 <= q < out.len() implies post.home_of((#[trigger] out[q]).0)
            == b by {
            assert(self.home_of(self.key_at(s[q])) == b);
        }
        assert forall|q: int| 0 <= q < out.len() implies !post.slot_keyed((#[trigger] out[q]).0)
            && !post.over_keyed(out[q].0) by {
            assert(keys_of(out).contains(out[q].0));
            assert(!post@.contains_key(out[q].0));
            if post.slot_keyed(out[q].0) {
                assert(post@.contains_key(out[q].0));
            }
            if post.over_keyed(out[q].0) {
                let xx = post.over_idx(out[q].0);
                assert(0 <= xx < post.overflow@.len() && post.overflow@[xx].0 == out[q].0);
                assert(self.overflow@[xx].0 == self.key_at(s[q]));
                assert(self.occ(s[q]));
            }
        }
    }

    /// A key is absent from the slots whenever its direct-hit coordinate
    /// does not carry a chain head.
    proof fn lemma_absent_without_head(self, k: K)
        requires
            self.wf(),
            !self.occ(self.home_of(k)) || self.storage_at(self.home_of(k)),
        ensures
            !self.slot_keyed(k),
    {
        if self.slot_keyed(k) {
            let i = choose|i: int| 0 <= i < self.n() && self.occ(i) && self.key_at(i) == k;
            assert(self.occ(i));
            assert(self.reachable(i));
        }
    }

    /// Writes a fresh entry into its empty direct-hit slot, making it the
    /// head of a new one-slot chain.
    fn install_head(&mut self, idx: usize, key: K, value: V)
        requires
            old(self).wf(),
            (idx as int) < old(self).n(),
            idx as int == old(self).home_of(key),
            !old(self).occ(idx as int),
            !old(self).over_keyed(key),
            old(self).spec_len() + 1 <= usize::MAX,
        ensures
            final(self).wf(),
            final(self)@ == old(self)@.insert(key, value),
            !old(self).slot_keyed(key),
            final(self).capacity == old(self).capacity,
            final(self).hasher == old(self).hasher,
            final(self).overflow@ == old(self).overflow@,
            final(self).n() == old(self).n(),
            final(self).size == old(self).size + 1,
            final(self).occ(idx as int) && !final(self).storage_at(idx as int),
            forall|i: int|
                0 <= i < old(self).n() && i != idx as int ==> final(self).meta@[i] == (
                #[trigger] old(self).meta@[i]) && final(self).data@[i] == old(self).data@[i],
    {
        proof {
            lemma_count_occ_lt_of_empty(self.meta@, idx as int, self.n());
        }
        self.meta[idx] = Metadata(0);
        self.data[idx] = Some((key, value));
        self.size = self.size + 1;
        proof {
            old(self).lemma_install_head_wf(*self, idx as int, key, value);
        }
    }

    /// Probes jump indices `start..=125` from the cursor for an empty slot,
    /// yielding the slot and the jump index that reaches it.
    pub fn find_empty(&self, cursor: u64, start: u8) -> (r: Option<(usize, u8)>)
        requires
            self.inv_base(),
            1 <= start,
        ensures
            match r {
                Some((e, j)) => {
                    &&& start <= j < 126
                    &&& e as int == (cursor as int + jump_dist(j as int)) % self.n()
                    &&& !self.occ(e as int)
                    &&& (e as int) < self.n()
                    &&& forall|j2: int|
                        start <= j2 < j ==> self.occ(
                            (cursor as int + jump_dist(j2)) % self.n(),
                        )
                },
                None => forall|j2: int|
                    start <= j2 < 126 ==> self.occ((cursor as int + jump_dist(j2)) % self.n()),
            },
    {
        let mut j = start;
        while j < 126
            invariant
                self.inv_base(),
                start <= j,
                forall|j2: int|
                    start <= j2 < j ==> self.occ((cursor as int + jump_dist(j2)) % self.n()),
            decreases 126 - j,
        {
            let d = jump_distance(j);
            let probe = cursor.wrapping_add(d);
            let idx = self.index_of(probe);
            proof {
                self.lemma_n_pow2();
                lemma_wrap_mod(cursor as int, d as int, self.n());
            }
            if self.meta[idx].is_empty() {
                return Some((idx, j));
            }
            j = j + 1;
        }
        None
    }

    /// Inserts under a key whose direct-hit slot carries a chain head: walks
    /// the chain, overwrites in place on a key match, otherwise appends at
    /// the first empty slot the probe window reaches. Fails, leaving the
    /// table untouched, when the whole window is occupied.
    #[verifier::loop_isolation(false)]
    #[verifier::rlimit(100)]
    fn chain_insert(&mut self, key: K, value: V) -> (r: Result<Option<(K, V)>, (K, V)>)
        requires
            old(self).wf(),
            ({
                let b = old(self).home_of(key);
                &&& 0 <= b < old(self).n()
                &&& old(self).occ(b)
                &&& !old(self).storage_at(b)
            }),
            !old(self).over_keyed(key),
            old(self).spec_len() + 1 <= usize::MAX,
        ensures
            final(self).capacity == old(self).capacity,
            final(self).hasher == old(self).hasher,
            final(self).overflow@ == old(self).overflow@,
            final(self).n() == old(self).n(),
            match r {
                Ok(prev) => {
                    &&& final(self).wf()
                    &&& final(self)@ == old(self)@.insert(key, value)
                    &&& if old(self).slot_keyed(key) {
                        prev == Some((key, old(self)@[key])) && final(self).size == old(self).size
                    } else {
                        prev is None && final(self).size == old(self).size + 1
                    }
                },
                Err(kv) => {
                    &&& kv == (key, value)
                    &&& *final(self) == *old(self)
                    &&& !old(self).slot_keyed(key)
                },
            },
    {
        let h = self.hash(&key);
        let mut cursor = h;
        let mut idx = self.index_of(cursor);
        let ghost b = self.home_of(key);
        assert(idx as int == b);
        proof {
            assert(self.chain_ok(b));
            self.lemma_chain_structure(b, self.n() as nat);
        }
        let ghost s = self.chain_of(b);
        let ghost mut x: int = 0;
        loop
            invariant
                *self == *old(self),
                0 <= x < s.len(),
                idx as int == s[x],
                cursor as int % self.n() == idx as int,
                forall|y: int| 0 <= y < x ==> self.key_at(#[trigger] s[y]) != key,
            decreases s.len() - x,
        {
            let hit = match &self.data[idx] {
                Some(pair) => pair.0.eq_key(&key),
                None => false,
            };
            if hit {
                proof {
                    assert(self.occ(s[x]) && self.key_at(s[x]) == key);
                    assert(self.slot_keyed(key));
                    let w = self.slot_with_key(key);
                    assert(0 <= w < self.n() && self.occ(w) && self.key_at(w) == key);
                    assert(w == idx as int);
                    assert(self@.contains_key(key) && self@[key] == self.val_at(w));
                }
                let mut tmp: Option<(K, V)> = Some((key, value));
                core::mem::swap(&mut tmp, &mut self.data[idx]);
                proof {
                    old(self).lemma_overwrite_wf(*self, idx as int, key, value);
                }
                match tmp {
                    Some(p) => {
                        return Ok(Some(p));
                    },
                    None => {
                        proof {
                            assert(false);
                        }
                        return vstd::pervasive::unreached();
                    },
                }
            }
            let j = self.meta[idx].jump_length();
            if j == 0 {
                proof {
                    assert(self.jump_at(s[x]) == 0);
                    assert(x == s.len() - 1);
                }
                match self.find_empty(cursor, 1) {
                    Some((e, jj)) => {
                        proof {
                            assert(jj & 0b10000000 == 0) by (bit_vector)
                                requires
                                    jj < 126,
                            ;
                            vstd::arithmetic::div_mod::lemma_add_mod_noop(
                                cursor as int,
                                jump_dist(jj as int),
                                self.n(),
                            );
                            vstd::arithmetic::div_mod::lemma_add_mod_noop_right(
                                cursor as int % self.n(),
                                jump_dist(jj as int),
                                self.n(),
                            );
                            assert(e as int == (s.last() + jump_dist(jj as int)) % self.n());
                        }
                        let mut m = self.meta[idx];
                        m.set_jump(jj);
                        self.meta[idx] = m;
                        self.meta[e] = Metadata(0x80);
                        self.data[e] = Some((key, value));
                        self.size = self.size + 1;
                        proof {
                            old(self).lemma_append_wf(
                                *self,
                                b,
                                e as int,
                                jj as int,
                                key,
                                value,
                            );
                        }
                        return Ok(None);
                    },
                    None => {
                        proof {
                            if self.slot_keyed(key) {
                                let i = choose|i: int|
                                    0 <= i < self.n() && self.occ(i) && self.key_at(i) == key;
                                assert(self.occ(i));
                                assert(self.reachable(i));
                                assert(s.contains(i));
                                let y = choose|y: int| 0 <= y < s.len() && s[y] == i;
                                assert(self.key_at(s[y]) == key);
                                assert(false);
                            }
                        }
                        return Err((key, value));
                    },
                }
            }
            let d = jump_distance(j);
            let ghost old_cursor = cursor;
            let ghost old_idx = idx as int;
            cursor = cursor.wrapping_add(d);
            idx = self.index_of(cursor);
            proof {
                self.lemma_n_pow2();
                lemma_wrap_mod(old_cursor as int, d as int, self.n());
                vstd::arithmetic::div_mod::lemma_add_mod_noop(
                    old_cursor as int,
                    d as int,
                    self.n(),
                );
                vstd::arithmetic::div_mod::lemma_add_mod_noop_right(
                    old_cursor as int % self.n(),
                    d as int,
                    self.n(),
                );
                assert(self.next_of(s[x]) == (old_idx + d as int) % self.n());
                assert(s[x + 1] == self.next_of(s[x]));
                x = x + 1;
            }
        }
    }

    /// Walks the chain anchored at the head slot `start`, returning the
    /// slots it visits in order.
    #[verifier::loop_isolation(false)]
    #[verifier::rlimit(50)]
    fn chain_slots(&self, start: usize) -> (idxs: Vec<usize>)
        requires
            self.wf(),
            (start as int) < self.n(),
            self.occ(start as int),
            !self.storage_at(start as int),
        ensures
            idxs@.len() == self.chain_of(start as int).len(),
            forall|q: int|
                0 <= q < idxs@.len() ==> (#[trigger] idxs@[q]) as int == self.chain_of(
                    start as int,
                )[q],
    {
        proof {
            assert(self.home_of(self.key_at(start as int)) == start as int);
            assert(self.chain_ok(start as int));
            self.lemma_chain_structure(start as int, self.n() as nat);
        }
        let ghost s = self.chain_of(start as int);
        let mut idxs: Vec<usize> = Vec::new();
        let mut idx = start;
        let ghost mut x: int = 0;
        loop
            invariant
                0 <= x < s.len(),
                idx as int == s[x],
                idxs@.len() == x,
                forall|y: int| 0 <= y < x ==> (#[trigger] idxs@[y]) as int == s[y],
            decreases s.len() - x,
        {
            idxs.push(idx);
            let j = self.meta[idx].jump_length();
            if j == 0 {
                proof {
                    assert(self.jump_at(s[x]) == 0);
                    assert(x == s.len() - 1);
                }
                return idxs;
            }
            let d2 = jump_distance(j);
            let ghost old_idx = idx as int;
            let widened = (idx as u64).wrapping_add(d2);
            idx = self.index_of(widened);
            proof {
                self.lemma_n_pow2();
                lemma_wrap_mod(old_idx, d2 as int, self.n());
                assert(self.next_of(s[x]) == (old_idx + d2 as int) % self.n());
                assert(s[x + 1] == self.next_of(s[x]));
                x = x + 1;
            }
        }
    }

    /// Removes the whole chain that the storage occupant of slot `d` belongs
    /// to, handing its entries back in chain order (head first) so that the
    /// caller can reinsert them once `d` is free.
    #[verifier::loop_isolation(false)]
    #[verifier::rlimit(100)]
    fn evict_chain(&mut self, d: usize) -> (out: Vec<(K, V)>)
        requires
            old(self).wf(),
            (d as int) < old(self).n(),
            old(self).occ(d as int),
            old(self).storage_at(d as int),
        ensures
            final(self).wf(),
            final(self).capacity == old(self).capacity,
            final(self).hasher == old(self).hasher,
            final(self).overflow@ == old(self).overflow@,
            final(self).n() == old(self).n(),
            final(self).size + out@.len() == old(self).size,
            out@.len() >= 2,
            final(self)@ == old(self)@.remove_keys(keys_of(out@)),
            forall|y: int|
                0 <= y < out@.len() ==> old(self)@.contains_key((#[trigger] out@[y]).0) && old(
                    self,
                )@[out@[y].0] == out@[y].1,
            forall|y1: int, y2: int|
                0 <= y1 < out@.len() && 0 <= y2 < out@.len() && y1 != y2 ==> (
                #[trigger] out@[y1]).0 != (#[trigger] out@[y2]).0,
            ({
                let b = old(self).home_of(old(self).key_at(d as int));
                &&& 0 <= b < old(self).n()
                &&& b != d as int
                &&& !final(self).occ(b)
                &&& !final(self).occ(d as int)
                &&& forall|y: int|
                    0 <= y < out@.len() ==> final(self).home_of((#[trigger] out@[y]).0) == b
            }),
            forall|y: int|
                0 <= y < out@.len() ==> !final(self).slot_keyed((#[trigger] out@[y]).0)
                    && !final(self).over_keyed(out@[y].0),
    {
        proof {
            assert(self.reachable(d as int));
        }
        let b_idx = match &self.data[d] {
            Some(pair) => self.index_of(self.hash(&pair.0)),
            None => vstd::pervasive::unreached(),
        };
        let ghost b = self.home_of(self.key_at(d as int));
        assert(b_idx as int == b);
        proof {
            assert(self.occ(b) && !self.storage_at(b));
            assert(self.home_of(self.key_at(b)) == b);
        }
        let ghost s = self.chain_of(b);
        proof {
            self.lemma_chain_structure(b, self.n() as nat);
            assert(s.contains(d as int));
            assert(s[0] == b);
            assert(b != d as int) by {
                assert(!self.storage_at(b) && self.storage_at(d as int));
            }
            assert(s.len() >= 2) by {
                let q = choose|q: int| 0 <= q < s.len() && s[q] == d as int;
                assert(q != 0);
            }
        }
        // First pass: walk the chain, recording each slot on it.
        let idxs = self.chain_slots(b_idx);
        // Second pass: take every entry out and mark its slot empty.
        let out = self.evict_slots(&idxs, Ghost(s));
        proof {
            let pre = *old(self);
            lemma_cleared_metas_pointwise(pre.meta@, s);
            lemma_cleared_data_pointwise(pre.data@, s);
            assert forall|i: int| 0 <= i < pre.n() && s.contains(i) implies (
            #[trigger] self.meta@[i]) == Metadata(0xff) && self.data@[i] is None by {
                assert(cleared_metas(pre.meta@, s)[i] == Metadata(0xff));
                assert(cleared_data(pre.data@, s)[i] is None);
            }
            assert forall|i: int| 0 <= i < pre.n() && !s.contains(i) implies (
            #[trigger] self.meta@[i]) == pre.meta@[i] && self.data@[i] == pre.data@[i] by {
                assert(cleared_metas(pre.meta@, s)[i] == pre.meta@[i]);
                assert(cleared_data(pre.data@, s)[i] == pre.data@[i]);
            }
            pre.lemma_evict_conclusion(*self, d as int, out@);
        }
        out
    }

    /// Takes the entries at the given chain's slots out of the table,
    /// marking each slot empty, in chain order.
    #[verifier::loop_isolation(false)]
    #[verifier::rlimit(100)]
    fn evict_slots(&mut self, idxs: &Vec<usize>, chain: Ghost<Seq<int>>) -> (out: Vec<(K, V)>)
        requires
            old(self).wf(),
            ({
                let s = chain@;
                &&& s.no_duplicates()
                &&& forall|q: int|
                    0 <= q < s.len() ==> 0 <= #[trigger] s[q] < old(self).n() && old(self).occ(
                        s[q],
                    )
                &&& idxs@.len() == s.len()
                &&& forall|q: int| 0 <= q < s.len() ==> (#[trigger] idxs@[q]) as int == s[q]
            }),
        ensures
            ({
                let s = chain@;
                &&& final(self).meta@ == cleared_metas(old(self).meta@, s)
                &&& final(self).data@ == cleared_data(old(self).data@, s)
                &&& final(self).size == count_occ(final(self).meta@, old(self).n())
                &&& final(self).size + s.len() == old(self).size
                &&& final(self).capacity == old(self).capacity
                &&& final(self).hasher == old(self).hasher
                &&& final(self).overflow@ == old(self).overflow@
                &&& out@.len() == s.len()
                &&& forall|q: int|
                    0 <= q < s.len() ==> (#[trigger] out@[q]) == (
                        old(self).key_at(s[q]),
                        old(self).val_at(s[q]),
                    )
            }),
    {
        let ghost s = chain@;
        let mut out: Vec<(K, V)> = Vec::new();
        let mut y: usize = 0;
        while y < idxs.len()
            invariant
                (y as int) <= s.len(),
                self.meta@ == cleared_metas(old(self).meta@, s.take(y as int)),
                self.data@ == cleared_data(old(self).data@, s.take(y as int)),
                self.size == count_occ(self.meta@, old(self).n()),
                self.size + y == old(self).size,
                self.capacity == old(self).capacity,
                self.hasher == old(self).hasher,
                self.overflow@ == old(self).overflow@,
                out@.len() == y,
                forall|q: int|
                    0 <= q < y ==> (#[trigger] out@[q]) == (
                        old(self).key_at(s[q]),
                        old(self).val_at(s[q]),
                    ),
            decreases s.len() - y,
        {
            let i = idxs[y];
            let ghost yy = y as int;
            let ghost n = old(self).n();
            proof {
                assert(i as int == s[yy]);
                lemma_cleared_metas_pointwise(old(self).meta@, s.take(yy));
                lemma_cleared_data_pointwise(old(self).data@, s.take(yy));
                assert(self.meta@.len() == n && self.data@.len() == n);
                assert(!s.take(yy).contains(i as int)) by {
                    if s.take(yy).contains(i as int) {
                        let q = choose|q: int| 0 <= q < yy && #[trigger] s.take(yy)[q] == i as int;
                        assert(s[q] == s[yy]);
                    }
                }
                assert(self.meta@[i as int] == old(self).meta@[i as int]);
                assert(self.data@[i as int] == old(self).data@[i as int]);
                assert(old(self).occ(s[yy]));
                assert(self.data@[i as int] is Some);
            }
            let ghost meta_pre = self.meta@;
            let ghost data_pre = self.data@;
            let mut tmp: Option<(K, V)> = None;
            core::mem::swap(&mut tmp, &mut self.data[i]);
            match tmp {
                Some(p) => {
                    out.push(p);
                },
                None => {
                    proof {
                        assert(false);
                    }
                },
            }
            proof {
                lemma_count_occ_update(meta_pre, i as int, Metadata(0xff), n);
                lemma_count_occ_bounds(meta_pre.update(i as int, Metadata(0xff)), n);
            }
            self.meta[i] = Metadata(0xff);
            self.size = self.size - 1;
            y = y + 1;
            proof {
                assert(self.meta@ == meta_pre.update(i as int, Metadata(0xff)));
                assert(self.data@ == data_pre.update(i as int, None::<(K, V)>));
                assert(s.take(y as int).drop_last() =~= s.take(yy));
                assert(s.take(y as int).last() == s[yy]);
                assert(cleared_metas(old(self).meta@, s.take(y as int)) == cleared_metas(
                    old(self).meta@,
                    s.take(yy),
                ).update(s[yy], Metadata(0xff)));
                assert(cleared_data(old(self).data@, s.take(y as int)) == cleared_data(
                    old(self).data@,
                    s.take(yy),
                ).update(s[yy], None::<(K, V)>));
                assert(old(self).occ(s[yy]) && old(self).data@[s[yy]] is Some);
                assert(out@[yy] == (old(self).key_at(s[yy]), old(self).val_at(s[yy])));
            }
        }
        proof {
            assert(s.take(s.len() as int) =~= s);
        }
        out
    }

    /// Pushing a pair whose key the table lacks onto the overflow list
    /// preserves every invariant and inserts it into the map.
    proof fn lemma_view_add_overflow(self, post: Self, k: K, v: V)
        requires
            self.wf(),
            !self@.contains_key(k),
            self.size + self.overflow@.len() + 1 <= usize::MAX,
            post.meta@ == self.meta@,
            post.data@ == self.data@,
            post.size == self.size,
            post.capacity == self.capacity,
            post.hasher == self.hasher,
            post.overflow@ == self.overflow@.push((k, v)),
        ensures
            post.wf(),
            post@ == self@.insert(k, v),
    {
        let n = self.n();
        let m = self.overflow@.len() as int;
        assert(forall|i: int| 0 <= i < n ==> post.occ(i) == (#[trigger] self.occ(i)));
        assert(forall|i: int|
            0 <= i < n && #[trigger] post.occ(i) ==> post.key_at(i) == self.key_at(i)
                && post.val_at(i) == self.val_at(i));
        assert(!self.slot_keyed(k) && !self.over_keyed(k));
        assert(post.base_wf()) by {
            lemma_count_occ_agree(post.meta@, self.meta@, n);
            assert forall|x: int, y: int|
                0 <= x < post.overflow@.len() && 0 <= y < post.overflow@.len() && x != y implies (
            #[trigger] post.overflow@[x]).0 != (#[trigger] post.overflow@[y]).0 by {
                if x == m || y == m {
                    let o = if x == m {
                        y
                    } else {
                        x
                    };
                    if self.overflow@[o].0 == k {
                        assert(self.over_keyed(k));
                    }
                }
            }
            assert forall|x: int, i: int|
                0 <= x < post.overflow@.len() && 0 <= i < n && post.occ(i) implies (
            #[trigger] post.overflow@[x]).0 != #[trigger] post.key_at(i) by {
                if x == m {
                    if post.key_at(i) == k {
                        assert(self.slot_keyed(k));
                    }
                } else {
                    assert(self.overflow@[x].0 != self.key_at(i));
                }
            }
        }
        assert(post.chains_ok()) by {
            assert forall|b2: int, fuel: nat| true implies #[trigger] post.chain_opt(b2, fuel)
                == self.chain_opt(b2, fuel) by {
                post.lemma_chain_opt_meta_only(self, b2, fuel);
            }
            assert forall|i: int|
                0 <= i < n && #[trigger] post.occ(i) && !post.storage_at(i) implies post.home_of(
                post.key_at(i),
            ) == i && post.chain_ok(i) by {
                assert(self.chain_ok(i));
                let s = self.chain_opt(i, n as nat)->Some_0;
                self.lemma_chain_structure(i, n as nat);
                assert(forall|y: int|
                    0 <= y < s.len() ==> post.key_at(#[trigger] s[y]) == self.key_at(s[y]));
            }
            assert forall|i: int| 0 <= i < n && #[trigger] post.occ(i) implies post.reachable(
                i,
            ) by {
                assert(self.reachable(i));
            }
        }
        assert forall|k2: K| true implies #[trigger] post@.contains_key(k2) == self@.insert(
            k,
            v,
        ).contains_key(k2) && (post@.contains_key(k2) ==> post@[k2] == self@.insert(k, v)[k2]) by {
            assert(post.slot_keyed(k2) == self.slot_keyed(k2));
            if k2 == k {
                assert(post.overflow@[m].0 == k);
                assert(post.over_keyed(k));
                let x = post.over_idx(k);
                assert(0 <= x < post.overflow@.len() && post.overflow@[x].0 == k);
                assert(x == m) by {
                    if x < m {
                        assert(self.overflow@[x].0 == k);
                        assert(self.over_keyed(k));
                    }
                }
                assert(post@[k2] == v);
            } else {
                if post.over_keyed(k2) {
                    let x = post.over_idx(k2);
                    assert(0 <= x < post.overflow@.len() && post.overflow@[x].0 == k2);
                    assert(x != m);
                    assert(self.overflow@[x].0 == k2);
                    assert(self.over_keyed(k2));
                    let x2 = self.over_idx(k2);
                    assert(0 <= x2 < self.overflow@.len() && self.overflow@[x2].0 == k2);
                    assert(x2 == x);
                } else if self.over_keyed(k2) {
                    let x = self.over_idx(k2);
                    assert(0 <= x < self.overflow@.len() && self.overflow@[x].0 == k2);
                    assert(post.overflow@[x].0 == k2);
                    assert(post.over_keyed(k2));
                } else if post.slot_keyed(k2) {
                    let w = post.slot_with_key(k2);
                    let w2 = self.slot_with_key(k2);
                    assert(0 <= w < n && post.occ(w) && post.key_at(w) == k2);
                    assert(self.slot_keyed(k2));
                    assert(0 <= w2 < n && self.occ(w2) && self.key_at(w2) == k2);
                    assert(w == w2);
                }
            }
        }
        assert(post@ =~= self@.insert(k, v));
    }

    /// Putting one parked pair back shrinks the set of keys still missing
    /// from the target map by exactly that key.
    proof fn lemma_remove_keys_reinsert(
        target: Map<K, V>,
        a: Seq<(K, V)>,
        rest: Seq<(K, V)>,
        k: K,
        v: V,
    )
        requires
            a.len() >= 1,
            a[0] == (k, v),
            rest =~= a.subrange(1, a.len() as int),
            target.contains_key(k),
            target[k] == v,
            forall|q: int| 0 <= q < rest.len() ==> (#[trigger] rest[q]).0 != k,
        ensures
            target.remove_keys(keys_of(a)).insert(k, v) == target.remove_keys(keys_of(rest)),
    {
        assert forall|k2: K| true implies #[trigger] keys_of(a).contains(k2) == (k2 == k
            || keys_of(rest).contains(k2)) by {
            if keys_of(a).contains(k2) {
                let q = choose|q: int| 0 <= q < a.len() && (#[trigger] a[q]).0 == k2;
                if q >= 1 {
                    assert(rest[q - 1] == a[q]);
                    assert(keys_of(rest).contains(k2));
                }
            }
            if keys_of(rest).contains(k2) {
                let q = choose|q: int| 0 <= q < rest.len() && (#[trigger] rest[q]).0 == k2;
                assert(a[q + 1] == rest[q]);
                assert(keys_of(a).contains(k2));
            }
            if k2 == k {
                assert(a[0].0 == k2);
                assert(keys_of(a).contains(k2));
            }
        }
        assert(!keys_of(rest).contains(k));
        assert(target.remove_keys(keys_of(a)).insert(k, v) =~= target.remove_keys(
            keys_of(rest),
        ));
    }

    /// Overwriting the value stored under a key parked in the overflow list
    /// preserves every invariant and updates the map at just that key.
    proof fn lemma_view_set_overflow(self, post: Self, x: int, k: K, v: V)
        requires
            self.wf(),
            0 <= x < self.overflow@.len(),
            self.overflow@[x].0 == k,
            post.meta@ == self.meta@,
            post.data@ == self.data@,
            post.size == self.size,
            post.capacity == self.capacity,
            post.hasher == self.hasher,
            post.overflow@ == self.overflow@.update(x, (k, v)),
        ensures
            post.wf(),
            post@ == self@.insert(k, v),
            self@.contains_key(k),
            self@[k] == self.overflow@[x].1,
    {
        let n = self.n();
        assert(self.over_keyed(k));
        assert(!self.slot_keyed(k)) by {
            if self.slot_keyed(k) {
                let w = self.slot_with_key(k);
                assert(0 <= w < n && self.occ(w) && self.key_at(w) == k);
                assert(self.overflow@[x].0 != self.key_at(w));
            }
        }
        assert(self.over_idx(k) == x) by {
            let x2 = self.over_idx(k);
            assert(0 <= x2 < self.overflow@.len() && self.overflow@[x2].0 == k);
        }
        assert(self@.contains_key(k) && self@[k] == self.overflow@[x].1);
        assert(forall|y: int|
            0 <= y < post.overflow@.len() ==> (#[trigger] post.overflow@[y]).0
                == self.overflow@[y].0);
        assert(post.base_wf()) by {
            lemma_count_occ_agree(post.meta@, self.meta@, n);
            assert(forall|i: int| 0 <= i < n ==> post.occ(i) == (#[trigger] self.occ(i)));
            assert forall|i: int|
                0 <= i < n implies (post.occ(i) <==> (#[trigger] post.data@[i]) is Some) by {
                assert(self.occ(i) <==> self.data@[i] is Some);
            }
            assert forall|i: int|
                0 <= i < n && #[trigger] post.occ(i) implies post.jump_at(i) <= 125 by {
                assert(self.occ(i));
            }
            assert forall|i: int, j: int|
                0 <= i < n && 0 <= j < n && i != j && post.occ(i) && post.occ(j) implies
                #[trigger] post.key_at(i) != #[trigger] post.key_at(j) by {
                assert(self.occ(i) && self.occ(j));
                assert(self.key_at(i) != self.key_at(j));
            }
            assert forall|y1: int, y2: int|
                0 <= y1 < post.overflow@.len() && 0 <= y2 < post.overflow@.len() && y1
                    != y2 implies (#[trigger] post.overflow@[y1]).0 != (
            #[trigger] post.overflow@[y2]).0 by {
                assert((self.overflow@[y1]).0 != (self.overflow@[y2]).0);
            }
            assert forall|y: int, i: int|
                0 <= y < post.overflow@.len() && 0 <= i < n && post.occ(i) implies (
            #[trigger] post.overflow@[y]).0 != #[trigger] post.key_at(i) by {
                assert((self.overflow@[y]).0 != self.key_at(i));
            }
        }
        assert(post.chains_ok()) by {
            assert forall|b2: int, fuel: nat| true implies #[trigger] post.chain_opt(b2, fuel)
                == self.chain_opt(b2, fuel) by {
                post.lemma_chain_opt_meta_only(self, b2, fuel);
            }
            assert forall|i: int|
                0 <= i < n && #[trigger] post.occ(i) && !post.storage_at(i) implies post.home_of(
                post.key_at(i),
            ) == i && post.chain_ok(i) by {
                assert(self.chain_ok(i));
            }
            assert forall|i: int| 0 <= i < n && #[trigger] post.occ(i) implies post.reachable(
                i,
            ) by {
                assert(self.reachable(i));
            }
        }
        assert forall|k2: K| true implies #[trigger] post@.contains_key(k2) == self@.insert(
            k,
            v,
        ).contains_key(k2) && (post@.contains_key(k2) ==> post@[k2] == self@.insert(k, v)[k2]) by {
            assert(post.slot_keyed(k2) == self.slot_keyed(k2));
            assert(post.over_keyed(k2) == self.over_keyed(k2)) by {
                if post.over_keyed(k2) {
                    let y = post.over_idx(k2);
                    assert(0 <= y < post.overflow@.len() && post.overflow@[y].0 == k2);
                    assert(self.overflow@[y].0 == k2);
                }
                if self.over_keyed(k2) {
                    let y = self.over_idx(k2);
                    assert(0 <= y < self.overflow@.len() && self.overflow@[y].0 == k2);
                    assert(post.overflow@[y].0 == k2);
                }
            }
            if post.over_keyed(k2) && !post.slot_keyed(k2) {
                let y = post.over_idx(k2);
                assert(0 <= y < post.overflow@.len() && post.overflow@[y].0 == k2);
                let y2 = self.over_idx(k2);
                assert(0 <= y2 < self.overflow@.len() && self.overflow@[y2].0 == k2);
                assert(y == y2);
                if k2 == k {
                    assert(y == x);
                    assert(post@[k2] == v);
                } else {
                    assert(y != x);
                    assert(post.overflow@[y] == self.overflow@[y]);
                }
            }
        }
        assert(post@ =~= self@.insert(k, v));
    }

    /// Replaces the value under a key that sits in the overflow list; hands
    /// the entry back unchanged when the key is not parked there.
    #[verifier::loop_isolation(false)]
    fn over_update(&mut self, key: K, value: V) -> (r: Result<Option<(K, V)>, (K, V)>)
        requires
            old(self).wf(),
        ensures
            match r {
                Ok(prev) => {
                    &&& old(self).over_keyed(key)
                    &&& final(self).wf()
                    &&& final(self)@ == old(self)@.insert(key, value)
                    &&& old(self)@.contains_key(key)
                    &&& prev == Some((key, old(self)@[key]))
                    &&& final(self).size == old(self).size
                    &&& final(self).spec_len() == old(self).spec_len()
                    &&& final(self).capacity == old(self).capacity
                    &&& final(self).hasher == old(self).hasher
                },
                Err(kv) => {
                    &&& kv == (key, value)
                    &&& *final(self) == *old(self)
                    &&& !old(self).over_keyed(key)
                },
            },
    {
        let mut x: usize = 0;
        while x < self.overflow.len()
            invariant
                *self == *old(self),
                x <= self.overflow@.len(),
                forall|y: int| 0 <= y < x ==> (#[trigger] self.overflow@[y]).0 != key,
            decreases self.overflow@.len() - x,
        {
            if self.overflow[x].0.eq_key(&key) {
                let mut tmp: (K, V) = (key, value);
                core::mem::swap(&mut tmp, &mut self.overflow[x]);
                proof {
                    old(self).lemma_view_set_overflow(*self, x as int, tmp.0, value);
                }
                return Ok(Some(tmp));
            }
            x = x + 1;
        }
        proof {
            if self.over_keyed(key) {
                let y = self.over_idx(key);
                assert(0 <= y < self.overflow@.len() && self.overflow@[y].0 == key);
            }
        }
        Err((key, value))
    }

    /// Ties the facts the drain loop leaves behind into the drain contract.
    #[verifier::rlimit(100)]
    proof fn lemma_drain_conclusion(self, post: Self, sl: Seq<int>, out: Seq<(K, V)>)
        requires
            self.wf(),
            sl.no_duplicates(),
            forall|q: int| 0 <= q < sl.len() ==> 0 <= #[trigger] sl[q] < self.n() && self.occ(sl[q]),
            forall|j: int| 0 <= j < self.n() && self.occ(j) ==> #[trigger] sl.contains(j),
            post.n() == self.n(),
            post.data@.len() == self.data@.len(),
            forall|i: int|
                0 <= i < self.n() && sl.contains(i) ==> (#[trigger] post.meta@[i]) == Metadata(
                    0xff,
                ) && post.data@[i] is None,
            forall|i: int|
                0 <= i < self.n() && !sl.contains(i) ==> (#[trigger] post.meta@[i])
                    == self.meta@[i] && post.data@[i] == self.data@[i],
            post.size == count_occ(post.meta@, post.n()),
            post.size + sl.len() == self.size,
            post.capacity == self.capacity,
            post.hasher == self.hasher,
            post.overflow@ == self.overflow@,
            out.len() == sl.len(),
            forall|q: int|
                0 <= q < sl.len() ==> (#[trigger] out[q]) == (
                    self.key_at(sl[q]),
                    self.val_at(sl[q]),
                ),
        ensures
            post.wf(),
            post.size == 0,
            forall|i: int| 0 <= i < post.n() ==> !(#[trigger] post.occ(i)),
            post@ == self@.remove_keys(keys_of(out)),
            forall|q: int|
                0 <= q < out.len() ==> self@.contains_key((#[trigger] out[q]).0)
                    && self@[(out[q]).0] == out[q].1,
            forall|q1: int, q2: int|
                0 <= q1 < out.len() && 0 <= q2 < out.len() && q1 != q2 ==> (
                #[trigger] out[q1]).0 != (#[trigger] out[q2]).0,
            forall|q: int| 0 <= q < out.len() ==> !post@.contains_key((#[trigger] out[q]).0),
    {
        let n = self.n();
        assert forall|i: int| 0 <= i < n implies !(#[trigger] post.occ(i)) by {
            if sl.contains(i) {
                assert(post.meta@[i] == Metadata(0xff));
            } else {
                assert(post.meta@[i] == self.meta@[i]);
                if self.occ(i) {
                    assert(sl.contains(i));
                }
            }
        }
        assert(post.size == 0) by {
            lemma_count_occ_zero(post.meta@, n);
        }
        assert(post.base_wf()) by {
            assert forall|i: int|
                0 <= i < n implies (post.occ(i) <==> (#[trigger] post.data@[i]) is Some) by {
                if sl.contains(i) {
                    assert(post.meta@[i] == Metadata(0xff));
                } else {
                    assert(post.meta@[i] == self.meta@[i] && post.data@[i] == self.data@[i]);
                }
            }
        }
        assert(post.chains_ok());
        assert(post.wf());
        // out carries every slot key exactly once
        assert forall|q: int| 0 <= q < out.len() implies self@.contains_key(
            (#[trigger] out[q]).0,
        ) && self@[(out[q]).0] == out[q].1 by {
            assert(self.occ(sl[q]) && self.key_at(sl[q]) == out[q].0);
            assert(self.slot_keyed(out[q].0));
            let w = self.slot_with_key(out[q].0);
            assert(0 <= w < n && self.occ(w) && self.key_at(w) == out[q].0);
            assert(w == sl[q]);
        }
        assert forall|y1: int, y2: int|
            0 <= y1 < out.len() && 0 <= y2 < out.len() && y1 != y2 implies (
        #[trigger] out[y1]).0 != (#[trigger] out[y2]).0 by {
            assert(sl[y1] != sl[y2]);
            assert(self.occ(sl[y1]) && self.occ(sl[y2]));
        }
        assert forall|k2: K| #[trigger] keys_of(out).contains(k2) == self.slot_keyed(k2) by {
            if keys_of(out).contains(k2) {
                let q = choose|q: int| 0 <= q < out.len() && (#[trigger] out[q]).0 == k2;
                assert(self.occ(sl[q]) && self.key_at(sl[q]) == k2);
                assert(self.slot_keyed(k2));
            }
            if self.slot_keyed(k2) {
                let w = self.slot_with_key(k2);
                assert(0 <= w < n && self.occ(w) && self.key_at(w) == k2);
                assert(sl.contains(w));
                let q = choose|q: int| 0 <= q < sl.len() && #[trigger] sl[q] == w;
                assert(out[q].0 == k2);
                assert(keys_of(out).contains(k2));
            }
        }
        assert forall|k2: K| true implies #[trigger] post@.contains_key(k2) == self@.remove_keys(
            keys_of(out),
        ).contains_key(k2) && (post@.contains_key(k2) ==> post@[k2] == self@.remove_keys(
            keys_of(out),
        )[k2]) by {
            assert(post.over_keyed(k2) == self.over_keyed(k2));
            assert(!post.slot_keyed(k2)) by {
                if post.slot_keyed(k2) {
                    let w = post.slot_with_key(k2);
                    assert(post.occ(w));
                }
            }
            if post.over_keyed(k2) {
                let x = post.over_idx(k2);
                assert(0 <= x < post.overflow@.len() && post.overflow@[x].0 == k2);
                let x2 = self.over_idx(k2);
                assert(self.over_keyed(k2));
                assert(0 <= x2 < self.overflow@.len() && self.overflow@[x2].0 == k2);
                assert(x == x2);
                assert(!self.slot_keyed(k2)) by {
                    if self.slot_keyed(k2) {
                        let w = self.slot_with_key(k2);
                        assert(self.occ(w) && self.key_at(w) == k2);
                        assert(self.overflow@[x2].0 != self.key_at(w));
                    }
                }
            }
        }
        assert(post@ =~= self@.remove_keys(keys_of(out)));
        assert forall|q: int| 0 <= q < out.len() implies !post@.contains_key(
            (#[trigger] out[q]).0,
        ) by {
            assert(keys_of(out).contains(out[q].0)) by {
                assert((#[trigger] out[q]).0 == out[q].0);
            }
        }
    }

    /// Empties every slot, handing all live slot entries back.
    #[verifier::loop_isolation(false)]
    #[verifier::rlimit(100)]
    fn drain(&mut self) -> (out: Vec<(K, V)>)
        requires
            old(self).wf(),
        ensures
            final(self).wf(),
            final(self).capacity == old(self).capacity,
            final(self).hasher == old(self).hasher,
            final(self).overflow@ == old(self).overflow@,
            final(self).n() == old(self).n(),
            final(self).size == 0,
            forall|i: int| 0 <= i < final(self).n() ==> !(#[trigger] final(self).occ(i)),
            out@.len() == old(self).size,
            final(self)@ == old(self)@.remove_keys(keys_of(out@)),
            forall|q: int|
                0 <= q < out@.len() ==> old(self)@.contains_key((#[trigger] out@[q]).0) && old(
                    self,
                )@[(out@[q]).0] == out@[q].1,
            forall|q1: int, q2: int|
                0 <= q1 < out@.len() && 0 <= q2 < out@.len() && q1 != q2 ==> (
                #[trigger] out@[q1]).0 != (#[trigger] out@[q2]).0,
            forall|q: int|
                0 <= q < out@.len() ==> !final(self)@.contains_key((#[trigger] out@[q]).0),
    {
        let mut idxs: Vec<usize> = Vec::new();
        let ghost mut sl: Seq<int> = Seq::empty();
        let mut i: usize = 0;
        while i < self.meta.len()
            invariant
                *self == *old(self),
                i <= self.n(),
                sl.len() == idxs@.len(),
                forall|q: int| 0 <= q < sl.len() ==> (#[trigger] idxs@[q]) as int == sl[q],
                forall|q: int| 0 <= q < sl.len() ==> 0 <= #[trigger] sl[q] < i && self.occ(sl[q]),
                forall|q1: int, q2: int|
                    0 <= q1 < q2 < sl.len() ==> #[trigger] sl[q1] < #[trigger] sl[q2],
                forall|j: int| 0 <= j < i && self.occ(j) ==> #[trigger] sl.contains(j),
                sl.len() == count_occ(self.meta@, i as int),
            decreases self.n() - i,
        {
            let ghost sl0 = sl;
            if !self.meta[i].is_empty() {
                idxs.push(i);
                proof {
                    sl = sl.push(i as int);
                }
            }
            i = i + 1;
            proof {
                assert forall|j: int| 0 <= j < i && self.occ(j) implies #[trigger] sl.contains(
                    j,
                ) by {
                    if j == i - 1 {
                        assert(sl[sl.len() - 1] == j);
                    } else {
                        assert(sl0.contains(j));
                        let q = choose|q: int| 0 <= q < sl0.len() && #[trigger] sl0[q] == j;
                        assert(sl[q] == j);
                    }
                }
            }
        }
        proof {
            assert(sl.no_duplicates());
            assert(sl.len() == old(self).size);
        }
        let out = self.evict_slots(&idxs, Ghost(sl));
        proof {
            let pre = *old(self);
            lemma_cleared_metas_pointwise(pre.meta@, sl);
            lemma_cleared_data_pointwise(pre.data@, sl);
            assert forall|i2: int| 0 <= i2 < pre.n() && sl.contains(i2) implies (
            #[trigger] self.meta@[i2]) == Metadata(0xff) && self.data@[i2] is None by {
                assert(cleared_metas(pre.meta@, sl)[i2] == Metadata(0xff));
                assert(cleared_data(pre.data@, sl)[i2] is None);
            }
            assert forall|i2: int| 0 <= i2 < pre.n() && !sl.contains(i2) implies (
            #[trigger] self.meta@[i2]) == pre.meta@[i2] && self.data@[i2] == pre.data@[i2] by {
                assert(cleared_metas(pre.meta@, sl)[i2] == pre.meta@[i2]);
                assert(cleared_data(pre.data@, sl)[i2] == pre.data@[i2]);
            }
            pre.lemma_drain_conclusion(*self, sl, out@);
        }
        out
    }

    /// Replaces the empty slot arrays with fresh ones of `new_cap` groups.
    fn reset_capacity(&mut self, new_cap: usize)
        requires
            old(self).wf(),
            old(self).size == 0,
            forall|i: int| 0 <= i < old(self).n() ==> !(#[trigger] old(self).occ(i)),
            1 <= new_cap,
            is_pow2(new_cap as int),
            16 * new_cap <= usize::MAX,
        ensures
            final(self).wf(),
            final(self).capacity == new_cap,
            final(self).hasher == old(self).hasher,
            final(self).overflow@ == old(self).overflow@,
            final(self).size == 0,
            forall|i: int| 0 <= i < final(self).n() ==> !(#[trigger] final(self).occ(i)),
            final(self)@ == old(self)@,
    {
        let (meta, data) = Self::make_slots(16 * new_cap);
        self.meta = meta;
        self.data = data;
        self.capacity = new_cap;
        proof {
            lemma_count_occ_zero(self.meta@, self.n());
            assert(forall|k: K| !self.slot_keyed(k));
            assert(forall|k: K| !old(self).slot_keyed(k)) by {
                assert forall|k: K| !old(self).slot_keyed(k) by {
                    if old(self).slot_keyed(k) {
                        let w = old(self).slot_with_key(k);
                        assert(old(self).occ(w));
                    }
                }
            }
            assert(self.base_wf());
            assert(self.chains_ok());
            assert forall|k2: K| true implies #[trigger] self@.contains_key(k2) == old(
                self,
            )@.contains_key(k2) && (self@.contains_key(k2) ==> self@[k2] == old(self)@[k2]) by {
                assert(self.over_keyed(k2) == old(self).over_keyed(k2));
                if self.over_keyed(k2) {
                    let x = self.over_idx(k2);
                    assert(0 <= x < self.overflow@.len() && self.overflow@[x].0 == k2);
                    let x2 = old(self).over_idx(k2);
                    assert(0 <= x2 < old(self).overflow@.len() && old(self).overflow@[x2].0
                        == k2);
                    assert(x == x2);
                }
            }
            assert(self@ =~= old(self)@);
        }
    }

    /// One insertion attempt at the current capacity. On the ordinary paths
    /// the entry is placed (or the value under an existing key replaced); if
    /// the probe window is exhausted, the attempt stops and hands back every
    /// entry that still needs a slot, the table staying well formed.
    #[verifier::loop_isolation(false)]
    #[verifier::rlimit(100)]
    fn insert_no_grow(&mut self, key: K, value: V) -> (r: Placement<K, V>)
        requires
            old(self).wf(),
            !old(self).over_keyed(key),
            old(self).spec_len() + 1 <= usize::MAX,
        ensures
            final(self).wf(),
            final(self).capacity == old(self).capacity,
            final(self).hasher == old(self).hasher,
            final(self).overflow@ == old(self).overflow@,
            final(self).n() == old(self).n(),
            match r {
                Placement::Done(prev) => {
                    &&& final(self)@ == old(self)@.insert(key, value)
                    &&& if old(self)@.contains_key(key) {
                        prev == Some((key, old(self)@[key])) && final(self).spec_len() == old(
                            self,
                        ).spec_len()
                    } else {
                        prev is None && final(self).spec_len() == old(self).spec_len() + 1
                    }
                },
                Placement::Stalled(pending) => {
                    &&& !old(self)@.contains_key(key)
                    &&& pending@.len() >= 1
                    &&& final(self)@ == old(self)@.insert(key, value).remove_keys(
                        keys_of(pending@),
                    )
                    &&& forall|q: int|
                        0 <= q < pending@.len() ==> old(self)@.insert(key, value).contains_key(
                            (#[trigger] pending@[q]).0,
                        ) && old(self)@.insert(key, value)[(pending@[q]).0] == pending@[q].1
                    &&& forall|q1: int, q2: int|
                        0 <= q1 < pending@.len() && 0 <= q2 < pending@.len() && q1 != q2 ==> (
                        #[trigger] pending@[q1]).0 != (#[trigger] pending@[q2]).0
                    &&& forall|q: int|
                        0 <= q < pending@.len() ==> !final(self)@.contains_key(
                            (#[trigger] pending@[q]).0,
                        ) && !final(self).over_keyed(pending@[q].0)
                    &&& final(self).spec_len() + pending@.len() == old(self).spec_len() + 1
                },
            },
    {
        let h = self.hash(&key);
        let d = self.index_of(h);
        assert(d as int == self.home_of(key));
        let m0 = self.meta[d];
        if m0.is_empty() {
            self.install_head(d, key, value);
            return Placement::Done(None);
        }
        if !m0.is_storage() {
            // the direct-hit slot heads this key's own chain
            match self.chain_insert(key, value) {
                Ok(prev) => {
                    return Placement::Done(prev);
                },
                Err(kv) => {
                    let mut pending: Vec<(K, V)> = Vec::new();
                    pending.push(kv);
                    proof {
                        let target = old(self)@.insert(key, value);
                        assert forall|k2: K| #[trigger]
                            keys_of(pending@).contains(k2) == (k2 == key) by {
                            if keys_of(pending@).contains(k2) {
                                let q = choose|q: int|
                                    0 <= q < pending@.len() && (#[trigger] pending@[q]).0 == k2;
                            }
                            if k2 == key {
                                assert(pending@[0].0 == k2);
                            }
                        }
                        assert(target.remove_keys(keys_of(pending@)) =~= old(self)@);
                        assert(target.contains_key(key) && target[key] == value);
                    }
                    return Placement::Stalled(pending);
                },
            }
        }
        // the direct-hit slot hosts another chain's storage member: evict
        // that chain, take the slot, and put the evicted entries back
        proof {
            self.lemma_absent_without_head(key);
        }
        let ghost target = old(self)@.insert(key, value);
        let mut out = self.evict_chain(d);
        let ghost out0 = out@;
        let ghost b = old(self).home_of(old(self).key_at(d as int));
        proof {
            assert(self.home_of(key) == old(self).home_of(key));
            assert(!self.over_keyed(key));
            assert forall|k2: K| #[trigger] self@.contains_key(k2) implies target.contains_key(
                k2,
            ) && target[k2] == self@[k2] by {
                assert(old(self)@.contains_key(k2));
                assert(k2 != key) by {
                    if k2 == key {
                        assert(old(self)@.contains_key(key));
                    }
                }
            }
        }
        self.install_head(d, key, value);
        proof {
            assert(self@ == old(self)@.remove_keys(keys_of(out0)).insert(key, value));
            assert(!keys_of(out0).contains(key)) by {
                if keys_of(out0).contains(key) {
                    let q = choose|q: int| 0 <= q < out0.len() && (#[trigger] out0[q]).0 == key;
                    assert(old(self)@.contains_key(key));
                }
            }
            assert(self@ =~= target.remove_keys(keys_of(out0)));
        }
        let ghost mut done: int = 0;
        while out.len() > 0
            invariant
                self.wf(),
                self.capacity == old(self).capacity,
                self.hasher == old(self).hasher,
                self.overflow@ == old(self).overflow@,
                self.n() == old(self).n(),
                0 <= done <= out0.len(),
                out@ == out0.subrange(done, out0.len() as int),
                self@ == target.remove_keys(keys_of(out@)),
                self.spec_len() + out@.len() == old(self).spec_len() + 1,
                forall|q: int|
                    0 <= q < out0.len() ==> self.home_of((#[trigger] out0[q]).0) == b && !self
                        .over_keyed(out0[q].0) && target.contains_key(out0[q].0)
                        && target[(out0[q]).0] == out0[q].1,
                forall|q1: int, q2: int|
                    0 <= q1 < out0.len() && 0 <= q2 < out0.len() && q1 != q2 ==> (
                    #[trigger] out0[q1]).0 != (#[trigger] out0[q2]).0,
                done == 0 ==> !self.occ(b),
                done > 0 ==> self@.contains_key((out0[0]).0),
                0 <= b < self.n(),
            decreases out@.len(),
        {
            let ghost out_prev = out@;
            let (k2, v2) = out.remove(0);
            proof {
                assert(out_prev[0] == (k2, v2));
                assert(out_prev[0] == out0[done]);
                assert(out@ =~= out0.subrange(done + 1, out0.len() as int));
                assert(forall|q: int|
                    0 <= q < out@.len() ==> (#[trigger] out@[q]) == out0[done + 1 + q]);
                assert(self.home_of(k2) == b && target.contains_key(k2) && target[k2] == v2
                    && !self.over_keyed(k2));
                assert forall|q: int| 0 <= q < out@.len() implies (#[trigger] out@[q]).0
                    != k2 by {
                    assert(out@[q] == out0[done + 1 + q] && (k2, v2) == out0[done]);
                }
                assert(!self@.contains_key(k2)) by {
                    assert(keys_of(out_prev).contains(k2)) by {
                        assert(out_prev[0].0 == k2);
                    }
                }
            }
            let hb = self.index_of(self.hash(&k2));
            assert(hb as int == b);
            if self.meta[hb].is_empty() {
                proof {
                    assert(self.spec_len() + 1 <= usize::MAX);
                }
                self.install_head(hb, k2, v2);
                proof {
                    Self::lemma_remove_keys_reinsert(target, out_prev, out@, k2, v2);
                }
            } else {
                proof {
                    assert(done > 0) by {
                        if done == 0 {
                            assert(!self.occ(b));
                        }
                    }
                    assert(self@.contains_key((out0[0]).0));
                    assert(!self.over_keyed((out0[0]).0));
                    assert(self.slot_keyed((out0[0]).0)) by {
                        if !self.slot_keyed((out0[0]).0) {
                            assert(!self@.contains_key((out0[0]).0));
                        }
                    }
                    let w = self.slot_with_key((out0[0]).0);
                    assert(0 <= w < self.n() && self.occ(w) && self.key_at(w) == (out0[0]).0);
                    assert(self.reachable(w));
                    assert(self.home_of((out0[0]).0) == b);
                    assert(self.occ(b) && !self.storage_at(b));
                }
                match self.chain_insert(k2, v2) {
                    Ok(prev) => {
                        proof {
                            Self::lemma_remove_keys_reinsert(target, out_prev, out@, k2, v2);
                        }
                    },
                    Err(kv2) => {
                        let mut pending: Vec<(K, V)> = Vec::new();
                        pending.push(kv2);
                        pending.append(&mut out);
                        proof {
                            assert(pending@ =~= out_prev);
                            assert(!old(self)@.contains_key(key));
                            assert(self@ == target.remove_keys(keys_of(pending@)));
                            assert forall|q: int| 0 <= q < pending@.len() implies !self@
                                .contains_key((#[trigger] pending@[q]).0) && !self.over_keyed(
                                pending@[q].0,
                            ) by {
                                assert(pending@[q] == out0[done + q]);
                                assert(keys_of(pending@).contains(pending@[q].0)) by {
                                    assert(pending@[q].0 == (#[trigger] pending@[q]).0);
                                }
                            }
                            assert forall|q1: int, q2: int|
                                0 <= q1 < pending@.len() && 0 <= q2 < pending@.len() && q1
                                    != q2 implies (#[trigger] pending@[q1]).0 != (
                            #[trigger] pending@[q2]).0 by {
                                assert(pending@[q1] == out0[done + q1] && pending@[q2] == out0[done
                                    + q2]);
                            }
                            assert forall|q: int| 0 <= q < pending@.len() implies target
                                .contains_key((#[trigger] pending@[q]).0)
                                && target[(pending@[q]).0] == pending@[q].1 by {
                                assert(pending@[q] == out0[done + q]);
                            }
                        }
                        return Placement::Stalled(pending);
                    },
                }
            }
            proof {
                done = done + 1;
            }
        }
        proof {
            assert(out@.len() == 0);
            assert(keys_of(out@) =~= Set::<K>::empty());
            assert(self@ =~= target);
            assert(!old(self)@.contains_key(key));
        }
        Placement::Done(None)
    }

    /// After a stalled attempt, the entries waiting for a slot are the
    /// stalled ones plus the untouched rest of the worklist, and together
    /// with the table they still describe the same goal map.
    #[verifier::rlimit(100)]
    proof fn lemma_flush_stall(
        g: Map<K, V>,
        m_pre: Map<K, V>,
        m_post: Map<K, V>,
        work_prev: Seq<(K, V)>,
        rest: Seq<(K, V)>,
        pending: Seq<(K, V)>,
        k: K,
        v: V,
    )
        requires
            m_pre == g.remove_keys(keys_of(work_prev)),
            work_prev.len() >= 1,
            work_prev[0] == (k, v),
            rest =~= work_prev.subrange(1, work_prev.len() as int),
            g.contains_key(k),
            g[k] == v,
            forall|q1: int, q2: int|
                0 <= q1 < work_prev.len() && 0 <= q2 < work_prev.len() && q1 != q2 ==> (
                #[trigger] work_prev[q1]).0 != (#[trigger] work_prev[q2]).0,
            forall|q: int|
                0 <= q < work_prev.len() ==> g.contains_key((#[trigger] work_prev[q]).0)
                    && g[(work_prev[q]).0] == work_prev[q].1,
            m_post == m_pre.insert(k, v).remove_keys(keys_of(pending)),
            forall|q: int|
                0 <= q < pending.len() ==> m_pre.insert(k, v).contains_key(
                    (#[trigger] pending[q]).0,
                ) && m_pre.insert(k, v)[(pending[q]).0] == pending[q].1,
            forall|q1: int, q2: int|
                0 <= q1 < pending.len() && 0 <= q2 < pending.len() && q1 != q2 ==> (
                #[trigger] pending[q1]).0 != (#[trigger] pending[q2]).0,
        ensures
            m_post == g.remove_keys(keys_of(pending + rest)),
            forall|q: int|
                0 <= q < (pending + rest).len() ==> g.contains_key(
                    (#[trigger] (pending + rest)[q]).0,
                ) && g[((pending + rest)[q]).0] == (pending + rest)[q].1,
            forall|q1: int, q2: int|
                0 <= q1 < (pending + rest).len() && 0 <= q2 < (pending + rest).len() && q1 != q2
                    ==> (#[trigger] (pending + rest)[q1]).0 != (#[trigger] (pending + rest)[q2]).0,
    {
        let comb = pending + rest;
        assert(forall|q: int| 0 <= q < rest.len() ==> rest[q] == #[trigger] work_prev[q + 1]);
        assert(forall|q: int|
            0 <= q < comb.len() ==> (#[trigger] comb[q]) == if q < pending.len() {
                pending[q]
            } else {
                rest[q - pending.len()]
            });
        // rest keys are absent from m_pre.insert(k, v), pending keys present:
        // so the two blocks cannot share a key
        assert forall|q: int| 0 <= q < rest.len() implies !m_pre.insert(k, v).contains_key(
            (#[trigger] rest[q]).0,
        ) by {
            assert(rest[q] == work_prev[q + 1]);
            assert(rest[q].0 != k);
            assert(keys_of(work_prev).contains(rest[q].0)) by {
                assert((#[trigger] work_prev[q + 1]).0 == rest[q].0);
            }
        }
        assert forall|q1: int, q2: int|
            0 <= q1 < comb.len() && 0 <= q2 < comb.len() && q1 != q2 implies (
        #[trigger] comb[q1]).0 != (#[trigger] comb[q2]).0 by {
            if q1 < pending.len() && q2 >= pending.len() {
                assert(m_pre.insert(k, v).contains_key(comb[q1].0));
                assert(!m_pre.insert(k, v).contains_key(comb[q2].0));
            } else if q2 < pending.len() && q1 >= pending.len() {
                assert(m_pre.insert(k, v).contains_key(comb[q2].0));
                assert(!m_pre.insert(k, v).contains_key(comb[q1].0));
            } else if q1 >= pending.len() && q2 >= pending.len() {
                assert(rest[q1 - pending.len()] == work_prev[q1 - pending.len() + 1]);
                assert(rest[q2 - pending.len()] == work_prev[q2 - pending.len() + 1]);
            }
        }
        assert forall|q: int| 0 <= q < comb.len() implies g.contains_key(
            (#[trigger] comb[q]).0,
        ) && g[(comb[q]).0] == comb[q].1 by {
            if q < pending.len() {
                let kq = pending[q].0;
                if kq == k {
                    assert(m_pre.insert(k, v)[kq] == v);
                } else {
                    assert(m_pre.contains_key(kq));
                    assert(!keys_of(work_prev).contains(kq));
                    assert(g.contains_key(kq) && g[kq] == m_pre[kq]);
                }
            } else {
                assert(comb[q] == work_prev[q - pending.len() + 1]);
            }
        }
        // membership in the combined key set splits over the two blocks
        assert forall|k2: K| #[trigger] keys_of(comb).contains(k2) == (keys_of(pending).contains(
            k2,
        ) || keys_of(rest).contains(k2)) by {
            if keys_of(comb).contains(k2) {
                let q = choose|q: int| 0 <= q < comb.len() && (#[trigger] comb[q]).0 == k2;
                if q < pending.len() {
                    assert((#[trigger] pending[q]).0 == k2);
                } else {
                    assert((#[trigger] rest[q - pending.len()]).0 == k2);
                }
            }
            if keys_of(pending).contains(k2) {
                let q = choose|q: int| 0 <= q < pending.len() && (#[trigger] pending[q]).0 == k2;
                assert((#[trigger] comb[q]).0 == k2);
            }
            if keys_of(rest).contains(k2) {
                let q = choose|q: int| 0 <= q < rest.len() && (#[trigger] rest[q]).0 == k2;
                assert((#[trigger] comb[q + pending.len()]).0 == k2);
            }
        }
        assert forall|k2: K| #[trigger] keys_of(work_prev).contains(k2) == (k2 == k || keys_of(
            rest,
        ).contains(k2)) by {
            if keys_of(work_prev).contains(k2) {
                let q = choose|q: int|
                    0 <= q < work_prev.len() && (#[trigger] work_prev[q]).0 == k2;
                if q >= 1 {
                    assert((#[trigger] rest[q - 1]).0 == k2);
                }
            }
            if k2 == k {
                assert((#[trigger] work_prev[0]).0 == k2);
            }
            if keys_of(rest).contains(k2) {
                let q = choose|q: int| 0 <= q < rest.len() && (#[trigger] rest[q]).0 == k2;
                assert((#[trigger] work_prev[q + 1]).0 == k2);
            }
        }
        assert(m_post =~= g.remove_keys(keys_of(comb)));
    }

    /// Growing inside a flush: draining the table folds its entries into the
    /// worklist without changing the goal map.
    proof fn lemma_flush_grow(
        g: Map<K, V>,
        m_c: Map<K, V>,
        m_d: Map<K, V>,
        work_c: Seq<(K, V)>,
        drained: Seq<(K, V)>,
    )
        requires
            m_c == g.remove_keys(keys_of(work_c)),
            m_d == m_c.remove_keys(keys_of(drained)),
            forall|q: int|
                0 <= q < drained.len() ==> m_c.contains_key((#[trigger] drained[q]).0)
                    && m_c[(drained[q]).0] == drained[q].1,
            forall|q1: int, q2: int|
                0 <= q1 < drained.len() && 0 <= q2 < drained.len() && q1 != q2 ==> (
                #[trigger] drained[q1]).0 != (#[trigger] drained[q2]).0,
            forall|q1: int, q2: int|
                0 <= q1 < work_c.len() && 0 <= q2 < work_c.len() && q1 != q2 ==> (
                #[trigger] work_c[q1]).0 != (#[trigger] work_c[q2]).0,
            forall|q: int|
                0 <= q < work_c.len() ==> g.contains_key((#[trigger] work_c[q]).0)
                    && g[(work_c[q]).0] == work_c[q].1,
        ensures
            m_d == g.remove_keys(keys_of(work_c + drained)),
            forall|q: int|
                0 <= q < (work_c + drained).len() ==> g.contains_key(
                    (#[trigger] (work_c + drained)[q]).0,
                ) && g[((work_c + drained)[q]).0] == (work_c + drained)[q].1,
            forall|q1: int, q2: int|
                0 <= q1 < (work_c + drained).len() && 0 <= q2 < (work_c + drained).len() && q1
                    != q2 ==> (#[trigger] (work_c + drained)[q1]).0 != (#[trigger] (work_c
                    + drained)[q2]).0,
    {
        let comb = work_c + drained;
        assert(forall|q: int|
            0 <= q < comb.len() ==> (#[trigger] comb[q]) == if q < work_c.len() {
                work_c[q]
            } else {
                drained[q - work_c.len()]
            });
        assert forall|q: int| 0 <= q < drained.len() implies !keys_of(work_c).contains(
            (#[trigger] drained[q]).0,
        ) by {
            assert(m_c.contains_key(drained[q].0));
        }
        assert forall|q1: int, q2: int|
            0 <= q1 < comb.len() && 0 <= q2 < comb.len() && q1 != q2 implies (
        #[trigger] comb[q1]).0 != (#[trigger] comb[q2]).0 by {
            if q1 < work_c.len() && q2 >= work_c.len() {
                assert(keys_of(work_c).contains(comb[q1].0)) by {
                    assert((#[trigger] work_c[q1]).0 == comb[q1].0);
                }
                assert(!keys_of(work_c).contains(comb[q2].0));
            } else if q2 < work_c.len() && q1 >= work_c.len() {
                assert(keys_of(work_c).contains(comb[q2].0)) by {
                    assert((#[trigger] work_c[q2]).0 == comb[q2].0);
                }
                assert(!keys_of(work_c).contains(comb[q1].0));
            }
        }
        assert forall|q: int| 0 <= q < comb.len() implies g.contains_key(
            (#[trigger] comb[q]).0,
        ) && g[(comb[q]).0] == comb[q].1 by {
            if q >= work_c.len() {
                let kq = drained[q - work_c.len()].0;
                assert(m_c.contains_key(kq));
                assert(!keys_of(work_c).contains(kq));
                assert(g.contains_key(kq) && g[kq] == m_c[kq]);
            }
        }
        assert forall|k2: K| #[trigger] keys_of(comb).contains(k2) == (keys_of(work_c).contains(
            k2,
        ) || keys_of(drained).contains(k2)) by {
            if keys_of(comb).contains(k2) {
                let q = choose|q: int| 0 <= q < comb.len() && (#[trigger] comb[q]).0 == k2;
                if q < work_c.len() {
                    assert((#[trigger] work_c[q]).0 == k2);
                } else {
                    assert((#[trigger] drained[q - work_c.len()]).0 == k2);
                }
            }
            if keys_of(work_c).contains(k2) {
                let q = choose|q: int| 0 <= q < work_c.len() && (#[trigger] work_c[q]).0 == k2;
                assert((#[trigger] comb[q]).0 == k2);
            }
            if keys_of(drained).contains(k2) {
                let q = choose|q: int| 0 <= q < drained.len() && (#[trigger] drained[q]).0 == k2;
                assert((#[trigger] comb[q + work_c.len()]).0 == k2);
            }
        }
        assert(m_d =~= g.remove_keys(keys_of(comb)));
    }

    /// Places every entry of the worklist, doubling the table as often as
    /// the probe window demands it; entries that cannot be placed once the
    /// table has reached the address-space ceiling go to the overflow list.
    #[verifier::loop_isolation(false)]
    #[verifier::rlimit(100)]
    fn flush(&mut self, work: Vec<(K, V)>)
        requires
            old(self).wf(),
            forall|q1: int, q2: int|
                0 <= q1 < work@.len() && 0 <= q2 < work@.len() && q1 != q2 ==> (
                #[trigger] work@[q1]).0 != (#[trigger] work@[q2]).0,
            forall|q: int| 0 <= q < work@.len() ==> !old(self)@.contains_key((#[trigger] work@[q]).0),
            old(self).spec_len() + work@.len() <= usize::MAX,
            1000 * (old(self).size + work@.len()) <= 13952 * old(self).capacity + 1000 || old(
                self,
            ).capacity > usize::MAX / 32,
        ensures
            final(self).wf(),
            final(self).hasher == old(self).hasher,
            final(self).capacity >= old(self).capacity,
            final(self).spec_len() == old(self).spec_len() + work@.len(),
            final(self).size <= old(self).size + work@.len(),
            1000 * final(self).size <= 13952 * final(self).capacity + 1000 || final(self).capacity
                > usize::MAX / 32,
            forall|k: K|
                #[trigger] final(self)@.contains_key(k) == (old(self)@.contains_key(k) || keys_of(
                    work@,
                ).contains(k)),
            forall|q: int|
                0 <= q < work@.len() ==> final(self)@.contains_key((#[trigger] work@[q]).0)
                    && final(self)@[(work@[q]).0] == work@[q].1,
            forall|k: K|
                old(self)@.contains_key(k) && !keys_of(work@).contains(k) ==> final(self)@[k]
                    == old(self)@[k],
    {
        let ghost work0 = work@;
        let ghost g = old(self)@.union_prefer_right(pairs_map(work0));
        proof {
            lemma_pairs_map_props(work0);
            assert forall|k2: K| true implies (#[trigger] g.contains_key(k2) == (old(
                self,
            )@.contains_key(k2) || keys_of(work0).contains(k2))) && (old(self)@.contains_key(k2)
                && !keys_of(work0).contains(k2) ==> g[k2] == old(self)@[k2]) && (keys_of(
                work0,
            ).contains(k2) ==> g[k2] == pairs_map(work0)[k2]) by {
                assert(pairs_map(work0).contains_key(k2) == keys_of(work0).contains(k2));
            }
            assert(self@ =~= g.remove_keys(keys_of(work0)));
        }
        let mut work = work;
        loop
            invariant
                self.wf(),
                self.hasher == old(self).hasher,
                self.capacity >= old(self).capacity,
                self@ == g.remove_keys(keys_of(work@)),
                forall|q1: int, q2: int|
                    0 <= q1 < work@.len() && 0 <= q2 < work@.len() && q1 != q2 ==> (
                    #[trigger] work@[q1]).0 != (#[trigger] work@[q2]).0,
                forall|q: int|
                    0 <= q < work@.len() ==> g.contains_key((#[trigger] work@[q]).0)
                        && g[(work@[q]).0] == work@[q].1,
                self.spec_len() + work@.len() == old(self).spec_len() + work0.len(),
                self.size + work@.len() <= old(self).size + work0.len(),
                1000 * (self.size + work@.len()) <= 13952 * self.capacity + 1000 || self.capacity
                    > usize::MAX / 32,
            decreases usize::MAX - self.capacity, work@.len(),
        {
            if work.len() == 0 {
                break ;
            }
            let ghost work_prev = work@;
            let (k2, v2) = work.remove(0);
            proof {
                assert(work_prev[0] == (k2, v2));
                assert(work@ =~= work_prev.subrange(1, work_prev.len() as int));
                assert(forall|q: int|
                    0 <= q < work@.len() ==> (#[trigger] work@[q]) == work_prev[q + 1]);
                assert(!self@.contains_key(k2)) by {
                    assert(keys_of(work_prev).contains(k2)) by {
                        assert((#[trigger] work_prev[0]).0 == k2);
                    }
                }
            }
            let ghost m_pre = self@;
            match self.insert_no_grow(k2, v2) {
                Placement::Done(_) => {
                    proof {
                        Self::lemma_remove_keys_reinsert(g, work_prev, work@, k2, v2);
                    }
                },
                Placement::Stalled(pending) => {
                    proof {
                        Self::lemma_flush_stall(
                            g,
                            m_pre,
                            self@,
                            work_prev,
                            work@,
                            pending@,
                            k2,
                            v2,
                        );
                    }
                    if self.capacity <= usize::MAX / 32 {
                        // double the table and fold its entries into the worklist
                        let mut comb = pending;
                        comb.append(&mut work);
                        work = comb;
                        let ghost m_c = self@;
                        let ghost work_c = work@;
                        let drained = self.drain();
                        proof {
                            Self::lemma_flush_grow(g, m_c, self@, work_c, drained@);
                        }
                        let c = self.capacity * 2;
                        proof {
                            let e = choose|e: nat| self.capacity as int == pow2(e);
                            lemma_pow2_adds(e, 1);
                            lemma2_to64();
                            assert(pow2(e + 1) == pow2(e) * 2);
                            assert(is_pow2(c as int));
                        }
                        let mut drained = drained;
                        self.reset_capacity(c);
                        work.append(&mut drained);
                    } else {
                        // the table cannot double any further: park the
                        // stalled entries in the overflow list and go on
                        // with the rest of the worklist
                        let mut pending = pending;
                        let ghost cap_here = self.capacity;
                        while pending.len() > 0
                            invariant
                                self.wf(),
                                self.hasher == old(self).hasher,
                                self.capacity >= old(self).capacity,
                                self.capacity == cap_here,
                                self.capacity > usize::MAX / 32,
                                self@ == g.remove_keys(keys_of(pending@ + work@)),
                                forall|q1: int, q2: int|
                                    0 <= q1 < (pending@ + work@).len() && 0 <= q2 < (pending@
                                        + work@).len() && q1 != q2 ==> (#[trigger] (pending@
                                        + work@)[q1]).0 != (#[trigger] (pending@ + work@)[q2]).0,
                                forall|q: int|
                                    0 <= q < (pending@ + work@).len() ==> g.contains_key(
                                        (#[trigger] (pending@ + work@)[q]).0,
                                    ) && g[((pending@ + work@)[q]).0] == (pending@ + work@)[q].1,
                                self.spec_len() + (pending@ + work@).len() == old(self).spec_len()
                                    + work0.len(),
                                self.size + (pending@ + work@).len() <= old(self).size
                                    + work0.len(),
                            decreases pending@.len(),
                        {
                            let ghost a = pending@ + work@;
                            let p = pending.remove(0);
                            proof {
                                assert(a[0] == p);
                                assert(pending@ + work@ =~= a.subrange(1, a.len() as int));
                                assert(!self@.contains_key(p.0)) by {
                                    assert(keys_of(a).contains(p.0)) by {
                                        assert((#[trigger] a[0]).0 == p.0);
                                    }
                                }
                            }
                            let ghost pre2 = *self;
                            let (pk, pv) = p;
                            self.overflow.push((pk, pv));
                            proof {
                                pre2.lemma_view_add_overflow(*self, pk, pv);
                                Self::lemma_remove_keys_reinsert(
                                    g,
                                    a,
                                    pending@ + work@,
                                    pk,
                                    pv,
                                );
                            }
                        }
                        proof {
                            assert(pending@ + work@ =~= work@);
                        }
                    }
                },
            }
        }
        proof {
            assert(work@.len() == 0);
            assert(keys_of(work@) =~= Set::<K>::empty());
            assert(self@ =~= g);
            lemma_pairs_map_props(work0);
            assert forall|q: int| 0 <= q < work0.len() implies self@.contains_key(
                (#[trigger] work0[q]).0,
            ) && self@[(work0[q]).0] == work0[q].1 by {
                assert(keys_of(work0).contains(work0[q].0)) by {
                    assert((#[trigger] work0[q]).0 == work0[q].0);
                }
                assert(pairs_map(work0)[(work0[q]).0] == work0[q].1);
            }
        }
    }

    /// Inserts a key-value pair. When the key is already present its value
    /// is replaced and the previous pair handed back; a fresh key grows the
    /// count by one. The table doubles beforehand whenever the load factor
    /// has passed the growth threshold.
    #[verifier::loop_isolation(false)]
    #[verifier::rlimit(100)]
    pub fn insert(&mut self, key: K, value: V) -> (prev: Option<(K, V)>)
        requires
            old(self).inv(),
            old(self).spec_len() < usize::MAX,
        ensures
            final(self).inv(),
            final(self)@ == old(self)@.insert(key, value),
            prev == if old(self)@.contains_key(key) {
                Some((key, old(self)@[key]))
            } else {
                None::<(K, V)>
            },
            final(self).spec_len() == old(self).spec_len() + (if old(self)@.contains_key(key) {
                0int
            } else {
                1int
            }),
            final(self).spec_capacity() >= old(self).spec_capacity(),
            final(self).spec_hasher() == old(self).spec_hasher(),
            (1000 * old(self).spec_size() > 13952 * old(self).spec_capacity() && 32 * old(
                self,
            ).spec_capacity() <= usize::MAX) ==> final(self).spec_capacity() >= 2 * old(
                self,
            ).spec_capacity(),
    {
        assert(self.wf());
        // grow first when the load factor is past the threshold
        if (self.size as u128) * 1000 > (self.capacity as u128) * 13952 && self.capacity
            <= usize::MAX / 32 {
            let work = self.drain();
            proof {
                assert(32 * self.capacity <= usize::MAX);
            }
            let c = self.capacity * 2;
            proof {
                let e = choose|e: nat| self.capacity as int == pow2(e);
                lemma_pow2_adds(e, 1);
                lemma2_to64();
                assert(pow2(e + 1) == pow2(e) * 2);
                assert(is_pow2(c as int));
            }
            self.reset_capacity(c);
            proof {
                assert(1000 * (self.size + work@.len()) <= 13952 * self.capacity + 1000) by {
                    assert(1000 * old(self).size <= 13952 * old(self).capacity + 1000);
                    assert(work@.len() == old(self).size);
                    assert(13952 * old(self).capacity + 1000 <= 13952 * self.capacity);
                }
            }
            self.flush(work);
            proof {
                // the rebuilt table holds exactly the old entries
                assert forall|k2: K| true implies #[trigger] self@.contains_key(k2) == old(
                    self,
                )@.contains_key(k2) && (self@.contains_key(k2) ==> self@[k2] == old(
                    self,
                )@[k2]) by {
                    if keys_of(work@).contains(k2) {
                        let q = choose|q: int|
                            0 <= q < work@.len() && (#[trigger] work@[q]).0 == k2;
                        assert(old(self)@.contains_key(k2) && old(self)@[k2] == work@[q].1);
                        assert(self@.contains_key(work@[q].0) && self@[(work@[q]).0]
                            == work@[q].1);
                    }
                }
                assert(self@ =~= old(self)@);
                assert(1000 * self.size <= 13952 * self.capacity || self.capacity > usize::MAX
                    / 32) by {
                    if self.capacity <= usize::MAX / 32 {
                        assert(self.size <= old(self).size);
                        assert(1000 * old(self).size <= 13952 * old(self).capacity + 1000);
                        assert(self.capacity >= 2 * old(self).capacity);
                        assert(13952 * old(self).capacity + 1000 <= 13952 * self.capacity);
                    }
                }
            }
        } else {
            proof {
                assert(1000 * self.size <= 13952 * self.capacity || self.capacity > usize::MAX
                    / 32);
            }
        }
        let ghost entry = *self;
        assert(entry@ == old(self)@);
        // a key parked in the overflow list is replaced in place
        match self.over_update(key, value) {
            Ok(prev) => {
                proof {
                    assert(self.inv());
                }
                prev
            },
            Err(kv) => {
                let (key, value) = kv;
                match self.insert_no_grow(key, value) {
                    Placement::Done(prev) => {
                        proof {
                            assert(self.inv()) by {
                                if entry@.contains_key(key) {
                                } else {
                                    if entry.capacity <= usize::MAX / 32 {
                                        assert(1000 * entry.size <= 13952 * entry.capacity);
                                        assert(self.size <= entry.size + 1);
                                    }
                                }
                            }
                        }
                        prev
                    },
                    Placement::Stalled(pending) => {
                        proof {
                            assert(self.spec_len() + pending@.len() <= usize::MAX);
                            assert(1000 * (self.size + pending@.len()) <= 13952 * self.capacity
                                + 1000 || self.capacity > usize::MAX / 32) by {
                                if self.capacity <= usize::MAX / 32 {
                                    assert(1000 * entry.size <= 13952 * entry.capacity);
                                    assert(self.size + pending@.len() <= entry.size + 1);
                                }
                            }
                        }
                        let ghost before = *self;
                        self.flush(pending);
                        proof {
                            let target = entry@.insert(key, value);
                            assert forall|k2: K| true implies #[trigger] self@.contains_key(k2)
                                == target.contains_key(k2) && (self@.contains_key(k2)
                                ==> self@[k2] == target[k2]) by {
                                if keys_of(pending@).contains(k2) {
                                    let q = choose|q: int|
                                        0 <= q < pending@.len() && (#[trigger] pending@[q]).0
                                            == k2;
                                    assert(target.contains_key(k2) && target[k2]
                                        == pending@[q].1);
                                    assert(self@.contains_key(pending@[q].0)
                                        && self@[(pending@[q]).0] == pending@[q].1);
                                } else {
                                    if before@.contains_key(k2) {
                                        assert(target.contains_key(k2));
                                    }
                                }
                            }
                            assert(self@ =~= target);
                            assert(self.inv());
                        }
                        None
                    },
                }
            },
        }
    }

    /// Scans the overflow list for a key.
    fn over_get(&self, key: &K) -> (r: Option<&V>)
        requires
            self.wf(),
        ensures
            match r {
                Some(v) => self.over_keyed(*key) && *v == self.overflow@[self.over_idx(*key)].1,
                None => !self.over_keyed(*key),
            },
    {
        match self.find_over(key) {
            Some(x) => Some(&self.overflow[x].1),
            None => None,
        }
    }

    /// Looks a key up: a borrow of the stored value, or nothing when the key
    /// is absent.
    pub fn get(&self, key: &K) -> (r: Option<&V>)
        requires
            self.inv(),
        ensures
            match r {
                Some(v) => self@.contains_key(*key) && *v == self@[*key],
                None => !self@.contains_key(*key),
            },
    {
        match self.find_slot(key) {
            Some(i) => {
                proof {
                    assert(self@.contains_key(*key) && self@[*key] == self.val_at(i as int));
                }
                match &self.data[i] {
                    Some(pair) => Some(&pair.1),
                    None => vstd::pervasive::unreached(),
                }
            },
            None => {
                let r = self.over_get(key);
                proof {
                    if self.over_keyed(*key) {
                        assert(self@.contains_key(*key) && self@[*key]
                            == self.overflow@[self.over_idx(*key)].1);
                    } else {
                        assert(!self@.contains_key(*key));
                    }
                }
                r
            },
        }
    }

    /// After a caller is done writing through the borrow `get_mut` handed
    /// out, the table is the old one with one value replaced: well-formed
    /// still, and its map updated at just that key.
    pub proof fn lemma_value_update(pre: Self, post: Self, k: K, v: V)
        requires
            pre.inv(),
            pre@.contains_key(k),
            Self::value_update_rel(pre, post, k, v),
        ensures
            post.inv(),
            post@ == pre@.insert(k, v),
            post.spec_len() == pre.spec_len(),
    {
        if pre.slot_keyed(k) {
            let w = pre.slot_with_key(k);
            assert(0 <= w < pre.n() && pre.occ(w) && pre.key_at(w) == k);
            pre.lemma_overwrite_wf(post, w, k, v);
        } else {
            assert(pre.over_keyed(k));
            let x = pre.over_idx(k);
            assert(0 <= x < pre.overflow@.len() && pre.overflow@[x].0 == k);
            pre.lemma_view_set_overflow(post, x, k, v);
        }
    }

    /// Walks the chain at a key's direct-hit coordinate, returning the slot
    /// that holds the key.
    #[verifier::loop_isolation(false)]
    #[verifier::rlimit(50)]
    fn find_slot(&self, key: &K) -> (r: Option<usize>)
        requires
            self.wf(),
        ensures
            match r {
                Some(i) => (i as int) < self.n() && self.occ(i as int) && self.key_at(i as int)
                    == *key && self.slot_keyed(*key) && self.slot_with_key(*key) == i as int,
                None => !self.slot_keyed(*key),
            },
    {
        let h = self.hash(key);
        let mut cursor = h;
        let mut idx = self.index_of(cursor);
        let ghost b = self.home_of(*key);
        assert(idx as int == b);
        let m0 = self.meta[idx];
        if m0.is_empty() || m0.is_storage() {
            proof {
                self.lemma_absent_without_head(*key);
            }
            return None;
        }
        proof {
            assert(self.occ(b) && !self.storage_at(b));
            assert(self.chain_ok(b));
            self.lemma_chain_structure(b, self.n() as nat);
        }
        let ghost s = self.chain_of(b);
        let ghost mut x: int = 0;
        loop
            invariant
                0 <= x < s.len(),
                idx as int == s[x],
                cursor as int % self.n() == idx as int,
                forall|y: int| 0 <= y < x ==> self.key_at(#[trigger] s[y]) != *key,
            decreases s.len() - x,
        {
            let hit = match &self.data[idx] {
                Some(pair) => pair.0.eq_key(key),
                None => false,
            };
            if hit {
                proof {
                    assert(self.occ(s[x]) && self.key_at(s[x]) == *key);
                    assert(self.slot_keyed(*key));
                    let w = self.slot_with_key(*key);
                    assert(0 <= w < self.n() && self.occ(w) && self.key_at(w) == *key);
                    assert(w == idx as int);
                }
                return Some(idx);
            }
            let j = self.meta[idx].jump_length();
            if j == 0 {
                proof {
                    assert(self.jump_at(s[x]) == 0);
                    assert(x == s.len() - 1);
                    if self.slot_keyed(*key) {
                        let i = choose|i: int|
                            0 <= i < self.n() && self.occ(i) && self.key_at(i) == *key;
                        assert(self.occ(i));
                        assert(self.reachable(i));
                        assert(s.contains(i));
                        let y = choose|y: int| 0 <= y < s.len() && s[y] == i;
                        assert(self.key_at(s[y]) == *key);
                        assert(false);
                    }
                }
                return None;
            }
            let d = jump_distance(j);
            let ghost old_cursor = cursor;
            let ghost old_idx = idx as int;
            cursor = cursor.wrapping_add(d);
            idx = self.index_of(cursor);
            proof {
                self.lemma_n_pow2();
                lemma_wrap_mod(old_cursor as int, d as int, self.n());
                vstd::arithmetic::div_mod::lemma_add_mod_noop(
                    old_cursor as int,
                    d as int,
                    self.n(),
                );
                vstd::arithmetic::div_mod::lemma_add_mod_noop_right(
                    old_cursor as int % self.n(),
                    d as int,
                    self.n(),
                );
                assert(self.next_of(s[x]) == (old_idx + d as int) % self.n());
                assert(s[x + 1] == self.next_of(s[x]));
                x = x + 1;
            }
        }
    }

    /// Finds a key's position in the overflow list.
    #[verifier::loop_isolation(false)]
    fn find_over(&self, key: &K) -> (r: Option<usize>)
        requires
            self.wf(),
        ensures
            match r {
                Some(x) => (x as int) < self.over_seq().len() && self.over_seq()[x as int].0
                    == *key && self.over_keyed(*key) && self.over_idx(*key) == x as int,
                None => !self.over_keyed(*key),
            },
    {
        let mut x: usize = 0;
        while x < self.overflow.len()
            invariant
                x <= self.overflow@.len(),
                forall|y: int| 0 <= y < x ==> (#[trigger] self.overflow@[y]).0 != *key,
            decreases self.overflow@.len() - x,
        {
            if self.overflow[x].0.eq_key(key) {
                proof {
                    assert(self.over_keyed(*key));
                    let w = self.over_idx(*key);
                    assert(0 <= w < self.overflow@.len() && self.overflow@[w].0 == *key);
                    assert(w == x as int);
                }
                return Some(x);
            }
            x = x + 1;
        }
        None
    }

    /// Looks a key up for writing: an exclusive borrow of the stored value,
    /// or nothing when the key is absent. Once the borrow is dropped,
    /// `lemma_value_update` restores the table's invariant and describes the
    /// new map.
    pub fn get_mut(&mut self, key: &K) -> (r: Option<&mut V>)
        requires
            old(self).inv(),
        ensures
            match r {
                Some(v) => {
                    &&& old(self)@.contains_key(*key)
                    &&& *v == old(self)@[*key]
                    &&& Self::value_update_rel(*old(self), *final(self), *key, *final(v))
                },
                None => {
                    &&& !old(self)@.contains_key(*key)
                    &&& *final(self) == *old(self)
                },
            },
    {
        match self.find_slot(key) {
            Some(i) => {
                proof {
                    assert(self@.contains_key(*key) && self@[*key] == self.val_at(i as int));
                }
                match &mut self.data[i] {
                    Some(pair) => Some(&mut pair.1),
                    None => vstd::pervasive::unreached(),
                }
            },
            None => {
                match self.find_over(key) {
                    Some(x) => {
                        proof {
                            assert(!self.slot_keyed(*key));
                            assert(self@.contains_key(*key) && self@[*key] == self.overflow@[self.over_idx(*key)].1);
                        }
                        let pair = &mut self.overflow[x];
                        Some(&mut pair.1)
                    },
                    None => {
                        proof {
                            assert(!self@.contains_key(*key));
                        }
                        None
                    },
                }
            },
        }
    }

    /// The number of cell groups the table currently holds.
    pub fn capacity(&self) -> (c: usize)
        ensures
            c as int == self.spec_capacity(),
    {
        self.capacity
    }

    /// The number of live entries.
    pub fn len(&self) -> (l: usize)
        requires
            self.inv(),
        ensures
            l as int == self.spec_len(),
    {
        self.size + self.overflow.len()
    }
}

impl<K: EqKey, V, H: KeyHasher<K>> HashMap<K, V, H> {
    /// Some occupied slot at index `lo` or above holds exactly this pair.
    spec fn entry_from_slot(self, lo: int, p: (K, V)) -> bool {
        exists|j: int|
            lo <= j < self.n() && #[trigger] self.occ(j) && p == (self.key_at(j), self.val_at(j))
    }

    #[verifier::rlimit(100)]
    proof fn lemma_slot_entries(self, i: int)
        requires
            self.wf(),
            0 <= i <= self.n(),
        ensures
            ({
                let ef = self.slot_entries_from(i);
                &&& ef.len() == count_occ(self.meta@, self.n()) - count_occ(self.meta@, i)
                &&& forall|q: int|
                    0 <= q < ef.len() ==> self.entry_from_slot(i, #[trigger] ef[q])
                &&& forall|j: int|
                    i <= j < self.n() && #[trigger] self.occ(j) ==> ef.contains(
                        (self.key_at(j), self.val_at(j)),
                    )
                &&& forall|q1: int, q2: int|
                    0 <= q1 < ef.len() && 0 <= q2 < ef.len() && q1 != q2 ==> (
                    #[trigger] ef[q1]).0 != (#[trigger] ef[q2]).0
            }),
        decreases self.n() - i,
    {
        let n = self.n();
        let ef = self.slot_entries_from(i);
        if i == n {
        } else {
            let ef2 = self.slot_entries_from(i + 1);
            self.lemma_slot_entries(i + 1);
            assert(count_occ(self.meta@, i + 1) == count_occ(self.meta@, i) + (if self.occ(i) {
                1int
            } else {
                0int
            }));
            assert forall|q: int| 0 <= q < ef2.len() implies self.entry_from_slot(
                i,
                #[trigger] ef2[q],
            ) by {
                assert(self.entry_from_slot(i + 1, ef2[q]));
                let j = choose|j: int|
                    i + 1 <= j < n && #[trigger] self.occ(j) && ef2[q] == (
                        self.key_at(j),
                        self.val_at(j),
                    );
                assert(i <= j < n && self.occ(j) && ef2[q] == (self.key_at(j), self.val_at(j)));
            }
            if self.occ(i) {
                assert(ef == seq![(self.key_at(i), self.val_at(i))] + ef2);
                assert(forall|q: int| 1 <= q < ef.len() ==> #[trigger] ef[q] == ef2[q - 1]);
                assert forall|q: int| 0 <= q < ef.len() implies self.entry_from_slot(
                    i,
                    #[trigger] ef[q],
                ) by {
                    if q == 0 {
                        assert(ef[0] == (self.key_at(i), self.val_at(i)));
                        assert(i <= i < n && self.occ(i) && ef[0] == (
                            self.key_at(i),
                            self.val_at(i),
                        ));
                    } else {
                        assert(self.entry_from_slot(i, ef2[q - 1]));
                    }
                }
                assert forall|j: int|
                    i <= j < n && #[trigger] self.occ(j) implies ef.contains(
                    (self.key_at(j), self.val_at(j)),
                ) by {
                    if j == i {
                        assert(ef[0] == (self.key_at(i), self.val_at(i)));
                    } else {
                        assert(ef2.contains((self.key_at(j), self.val_at(j))));
                        let q = choose|q: int|
                            0 <= q < ef2.len() && #[trigger] ef2[q] == (
                                self.key_at(j),
                                self.val_at(j),
                            );
                        assert(ef[q + 1] == (self.key_at(j), self.val_at(j)));
                    }
                }
                assert forall|q1: int, q2: int|
                    0 <= q1 < ef.len() && 0 <= q2 < ef.len() && q1 != q2 implies (
                #[trigger] ef[q1]).0 != (#[trigger] ef[q2]).0 by {
                    if q1 == 0 || q2 == 0 {
                        let qo = if q1 == 0 {
                            q2
                        } else {
                            q1
                        };
                        assert(ef[qo] == ef2[qo - 1]);
                        assert(self.entry_from_slot(i + 1, ef2[qo - 1]));
                        let j = choose|j: int|
                            i + 1 <= j < n && #[trigger] self.occ(j) && ef2[qo - 1] == (
                                self.key_at(j),
                                self.val_at(j),
                            );
                        assert(self.key_at(j) != self.key_at(i));
                    } else {
                        assert(ef[q1] == ef2[q1 - 1] && ef[q2] == ef2[q2 - 1]);
                    }
                }
            } else {
                assert(ef == ef2);
            }
        }
    }

    /// The iteration law: walking the entries visits every live pair exactly
    /// once — the keys are pairwise distinct, each yielded pair is in the
    /// map, every key of the map appears, and the count matches the length.
    pub proof fn lemma_entries_match_contents(self)
        requires
            self.inv(),
        ensures
            ({
                let es = self.entries();
                &&& es.len() == self.spec_len()
                &&& forall|q1: int, q2: int|
                    0 <= q1 < es.len() && 0 <= q2 < es.len() && q1 != q2 ==> (
                    #[trigger] es[q1]).0 != (#[trigger] es[q2]).0
                &&& forall|q: int|
                    0 <= q < es.len() ==> self@.contains_key((#[trigger] es[q]).0)
                        && self@[(es[q]).0] == es[q].1
                &&& forall|k: K|
                    #[trigger] self@.contains_key(k) ==> exists|q: int|
                        0 <= q < es.len() && (#[trigger] es[q]).0 == k
            }),
    {
        let n = self.n();
        let es = self.entries();
        let ef = self.slot_entries_from(0);
        let ov = self.overflow@;
        self.lemma_slot_entries(0);
        assert(ef.len() == self.size);
        assert(es.len() == self.spec_len());
        assert(forall|q: int|
            0 <= q < es.len() ==> (#[trigger] es[q]) == if q < ef.len() {
                ef[q]
            } else {
                ov[q - ef.len()]
            });
        assert forall|q1: int, q2: int|
            0 <= q1 < es.len() && 0 <= q2 < es.len() && q1 != q2 implies (#[trigger] es[q1]).0
            != (#[trigger] es[q2]).0 by {
            if q1 < ef.len() && q2 >= ef.len() {
                assert(self.entry_from_slot(0, ef[q1]));
                let j = choose|j: int|
                    0 <= j < n && #[trigger] self.occ(j) && ef[q1] == (
                        self.key_at(j),
                        self.val_at(j),
                    );
                assert(ov[q2 - ef.len()].0 != self.key_at(j));
            } else if q2 < ef.len() && q1 >= ef.len() {
                assert(self.entry_from_slot(0, ef[q2]));
                let j = choose|j: int|
                    0 <= j < n && #[trigger] self.occ(j) && ef[q2] == (
                        self.key_at(j),
                        self.val_at(j),
                    );
                assert(ov[q1 - ef.len()].0 != self.key_at(j));
            }
        }
        assert forall|q: int| 0 <= q < es.len() implies self@.contains_key((#[trigger] es[q]).0)
            && self@[(es[q]).0] == es[q].1 by {
            if q < ef.len() {
                assert(self.entry_from_slot(0, ef[q]));
                let j = choose|j: int|
                    0 <= j < n && #[trigger] self.occ(j) && ef[q] == (
                        self.key_at(j),
                        self.val_at(j),
                    );
                assert(self.slot_keyed(es[q].0));
                let w = self.slot_with_key(es[q].0);
                assert(0 <= w < n && self.occ(w) && self.key_at(w) == es[q].0);
                assert(w == j);
            } else {
                let x = q - ef.len();
                assert(self.over_keyed(ov[x].0)) by {
                    assert((#[trigger] ov[x]).0 == ov[x].0);
                }
                let x2 = self.over_idx(ov[x].0);
                assert(0 <= x2 < ov.len() && ov[x2].0 == ov[x].0);
                assert(x2 == x);
                assert(!self.slot_keyed(ov[x].0)) by {
                    if self.slot_keyed(ov[x].0) {
                        let w = self.slot_with_key(ov[x].0);
                        assert(0 <= w < n && self.occ(w) && self.key_at(w) == ov[x].0);
                        assert(ov[x].0 != self.key_at(w));
                    }
                }
            }
        }
        assert forall|k: K| #[trigger] self@.contains_key(k) implies exists|q: int|
            0 <= q < es.len() && (#[trigger] es[q]).0 == k by {
            if self.slot_keyed(k) {
                let w = self.slot_with_key(k);
                assert(0 <= w < n && self.occ(w) && self.key_at(w) == k);
                assert(ef.contains((self.key_at(w), self.val_at(w))));
                let q = choose|q: int|
                    0 <= q < ef.len() && #[trigger] ef[q] == (self.key_at(w), self.val_at(w));
                assert((es[q]).0 == k);
            } else {
                assert(self.over_keyed(k));
                let x = self.over_idx(k);
                assert(0 <= x < ov.len() && ov[x].0 == k);
                assert((es[ef.len() + x]).0 == k);
            }
        }
    }

    /// The counting law: the reported length is the cardinality of the map.
    pub proof fn lemma_len_is_cardinality(self)
        requires
            self.inv(),
        ensures
            self@.dom().finite(),
            self@.dom().len() == self.spec_len(),
    {
        self.lemma_entries_match_contents();
        let es = self.entries();
        let ks = es.map_values(|p: (K, V)| p.0);
        assert(ks.no_duplicates()) by {
            assert forall|q1: int, q2: int|
                0 <= q1 < ks.len() && 0 <= q2 < ks.len() && q1 != q2 implies #[trigger] ks[q1]
                != #[trigger] ks[q2] by {
                assert(ks[q1] == es[q1].0 && ks[q2] == es[q2].0);
            }
        }
        ks.unique_seq_to_set();
        assert(self@.dom() =~= ks.to_set()) by {
            assert forall|k: K| self@.dom().contains(k) == ks.to_set().contains(k) by {
                if self@.dom().contains(k) {
                    let q = choose|q: int| 0 <= q < es.len() && (#[trigger] es[q]).0 == k;
                    assert(ks[q] == k);
                    assert(ks.contains(k));
                }
                if ks.to_set().contains(k) {
                    let q = choose|q: int| 0 <= q < ks.len() && #[trigger] ks[q] == k;
                    assert(es[q].0 == k);
                    assert(self@.contains_key(k));
                }
            }
        }
    }

    /// The round-trip law: once an insertion has updated the map, any
    /// lookup of that key sees the inserted value until the key is written
    /// again.
    pub proof fn lemma_insert_then_get(pre: Self, post: Self, k: K, v: V)
        requires
            post@ == pre@.insert(k, v),
        ensures
            post@.contains_key(k),
            post@[k] == v,
            forall|k2: K|
                k2 != k ==> #[trigger] post@.contains_key(k2) == pre@.contains_key(k2) && (
                post@.contains_key(k2) ==> post@[k2] == pre@[k2]),
    {
    }

    /// The capacity law: the group count is a power of two, there are
    /// sixteen slots per group, and as long as the table can still double,
    /// the load stayed within one entry of the 0.872 growth threshold.
    pub proof fn lemma_capacity_and_load(self)
        requires
            self.inv(),
        ensures
            is_pow2(self.spec_capacity()),
            1 <= self.spec_capacity(),
            self.n() == 16 * self.spec_capacity(),
            1000 * self.spec_size() <= 13952 * self.spec_capacity() + 1000 || self.spec_capacity()
                > usize::MAX / 32,
            0 <= self.spec_size() <= self.n(),
    {
        lemma_count_occ_bounds(self.meta@, self.n());
    }

    /// The chain law: every occupied slot is reached by following jumps from
    /// the chain head at its key's direct-hit coordinate, and a slot carries
    /// the storage role exactly when it is not such a head.
    pub proof fn lemma_chains_reach_every_slot(self)
        requires
            self.inv(),
        ensures
            forall|i: int|
                0 <= i < self.n() && #[trigger] self.occ(i) ==> {
                    let b = self.home_of(self.key_at(i));
                    &&& 0 <= b < self.n()
                    &&& self.occ(b)
                    &&& !self.storage_at(b)
                    &&& self.chain_opt(b, self.n() as nat) matches Some(s) && s.contains(i) && s[0]
                        == b
                },
            forall|i: int|
                0 <= i < self.n() && #[trigger] self.occ(i) ==> (self.storage_at(i) <==> self
                    .home_of(self.key_at(i)) != i),
    {
        assert forall|i: int| 0 <= i < self.n() && #[trigger] self.occ(i) implies {
            let b = self.home_of(self.key_at(i));
            &&& 0 <= b < self.n()
            &&& self.occ(b)
            &&& !self.storage_at(b)
            &&& self.chain_opt(b, self.n() as nat) matches Some(s) && s.contains(i) && s[0] == b
        } by {
            assert(self.reachable(i));
            let b = self.home_of(self.key_at(i));
            self.lemma_chain_structure(b, self.n() as nat);
        }
        assert forall|i: int| 0 <= i < self.n() && #[trigger] self.occ(i) implies (
        self.storage_at(i) <==> self.home_of(self.key_at(i)) != i) by {
            assert(self.reachable(i));
            if !self.storage_at(i) {
                assert(self.home_of(self.key_at(i)) == i);
            }
            if self.home_of(self.key_at(i)) == i {
                assert(!self.storage_at(i));
            }
        }
    }
}

impl<K: EqKey, V, H: KeyHasher<K> + Default> Default for HashMap<K, V, H> {
    /// An empty table of one cell group with a default hasher.
    fn default() -> (r: Self)
        ensures
            r.inv(),
            r@ == Map::<K, V>::empty(),
            r.spec_capacity() == 1,
            r.spec_len() == 0,
    {
        Self::with_hasher(H::default())
    }
}

/// A cursor over a table's live entries: occupied slots first in group-major,
/// slot-minor order, then any overflow entries.
pub struct Iter<'a, K, V, H> {
    map: &'a HashMap<K, V, H>,
    slot: usize,
    over: usize,
}

impl<'a, K, V, H: KeyHasher<K>> Iter<'a, K, V, H> {
    /// The table being iterated.
    pub closed spec fn underlying(self) -> HashMap<K, V, H> {
        *self.map
    }

    /// The entries not yet yielded, in the order they will come.
    pub closed spec fn remaining(self) -> Seq<(K, V)> {
        self.map.slot_entries_from(self.slot as int) + self.map.over_seq().skip(self.over as int)
    }

    /// The cursor points into the table it came from.
    pub closed spec fn valid(self) -> bool {
        &&& self.map.inv()
        &&& self.slot as int <= self.map.n()
        &&& self.over as int <= self.map.over_seq().len()
    }
}

impl<'a, K: EqKey, V, H: KeyHasher<K>> Iter<'a, K, V, H> {
    /// Yields the next not-yet-visited live entry, if one is left.
    #[verifier::loop_isolation(false)]
    pub fn next(&mut self) -> (r: Option<(&'a K, &'a V)>)
        requires
            old(self).valid(),
        ensures
            final(self).valid(),
            final(self).underlying() == old(self).underlying(),
            match r {
                Some(kv) => {
                    &&& old(self).remaining().len() >= 1
                    &&& (*kv.0, *kv.1) == old(self).remaining()[0]
                    &&& final(self).remaining() == old(self).remaining().drop_first()
                },
                None => {
                    &&& old(self).remaining().len() == 0
                    &&& final(self).remaining().len() == 0
                },
            },
    {
        let m = self.map;
        let n = m.meta.len();
        while self.slot < n
            invariant
                self.map == old(self).map,
                self.over == old(self).over,
                old(self).slot <= self.slot <= n,
                m.slot_entries_from(self.slot as int) == m.slot_entries_from(
                    old(self).slot as int,
                ),
            decreases n - self.slot,
        {
            let i = self.slot;
            match &m.data[i] {
                Some(pair) => {
                    self.slot = i + 1;
                    proof {
                        assert(m.occ(i as int));
                        assert(m.slot_entries_from(i as int) == seq![
                            (m.key_at(i as int), m.val_at(i as int)),
                        ] + m.slot_entries_from(i as int + 1));
                        assert((*pair).0 == m.key_at(i as int) && (*pair).1 == m.val_at(
                            i as int,
                        ));
                        assert(old(self).remaining()[0] == (m.key_at(i as int), m.val_at(
                            i as int,
                        )));
                        assert(self.remaining() =~= old(self).remaining().drop_first());
                    }
                    return Some((&pair.0, &pair.1));
                },
                None => {
                    proof {
                        assert(!m.occ(i as int));
                        assert(m.slot_entries_from(i as int) == m.slot_entries_from(
                            i as int + 1,
                        ));
                    }
                    self.slot = i + 1;
                },
            }
        }
        proof {
            assert(m.slot_entries_from(n as int) =~= Seq::<(K, V)>::empty());
        }
        if self.over < m.overflow.len() {
            let x = self.over;
            self.over = x + 1;
            let pair = &m.overflow[x];
            proof {
                assert(m.over_seq().skip(x as int) =~= seq![m.over_seq()[x as int]]
                    + m.over_seq().skip(x as int + 1));
                assert(old(self).remaining()[0] == m.over_seq()[x as int]);
                assert(self.remaining() =~= old(self).remaining().drop_first());
            }
            return Some((&pair.0, &pair.1));
        }
        proof {
            assert(m.over_seq().skip(self.over as int) =~= Seq::<(K, V)>::empty());
        }
        None
    }
}

impl<K: EqKey, V, H: KeyHasher<K>> HashMap<K, V, H> {
    /// A cursor over all live entries, each yielded exactly once.
    pub fn iter<'a>(&'a self) -> (it: Iter<'a, K, V, H>)
        requires
            self.inv(),
        ensures
            it.valid(),
            it.underlying() == *self,
            it.remaining() == self.entries(),
    {
        let it = Iter { map: self, slot: 0, over: 0 };
        proof {
            assert(it.remaining() =~= self.entries());
        }
        it
    }
}

/// Splits a probe cursor into its (cell group, slot in group) coordinate for
/// a table of `capacity` groups.
pub fn split_hash(hash: usize, capacity: usize) -> (r: (usize, usize))
    requires
        1 <= capacity,
        is_pow2(capacity as int),
    ensures
        r.0 as int == (hash as int / 16) % capacity as int,
        r.1 as int == hash as int % 16,
        16 * r.0 as int + r.1 as int == hash as int % (16 * capacity as int),
{
    let h = hash as u64;
    let c = capacity as u64;
    proof {
        let e = choose|e: nat| capacity as int == pow2(e);
        lemma2_to64();
        assert(c as int == capacity as int);
        if e >= 64 {
            if e > 64 {
                lemma_pow2_strictly_increases(64, e);
            }
            assert(pow2(e) >= pow2(64));
            assert(false);
        }
        lemma_u64_shr_is_div(h, 4);
        assert(pow2(4) == 16);
        assert(low_bits_mask(e) == pow2(e) - 1);
        assert(c - 1 == low_bits_mask(e));
        lemma_u64_low_bits_mask_is_mod(h >> 4u64, e);
        assert(low_bits_mask(4) == 15) by {
            lemma2_to64();
        }
        lemma_u64_low_bits_mask_is_mod(h, 4);
        lemma_mod_breakdown(h as int, 16, c as int);
    }
    (((h >> 4u64) & (c - 1)) as usize, (h & 15) as usize)
}

} // verus!

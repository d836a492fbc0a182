//! Book-keeping for packing the states of a trie into a double array: which
//! slots are taken, and a list of free slots to try first.
use vstd::prelude::*;

verus! {

/// The bits below the block length.
pub open spec fn low_mask(b: u32) -> u32 {
    (b - 1) as u32
}

/// `b` is a power of two.
pub open spec fn is_pow2(b: u32) -> bool {
    b > 0 && b & low_mask(b) == 0
}

/// XOR with a number below the block length stays inside the block: below a
/// length that is a multiple of the block length.
pub proof fn lemma_xor_in_range(base: u32, x: u32, len: u32, block_len: u32)
    requires
        is_pow2(block_len),
        x < block_len,
        base < len,
        len & low_mask(block_len) == 0,
    ensures
        (base ^ x) < len,
{
    let m = low_mask(block_len);
    assert(block_len > 0 && m == (block_len - 1) as u32 && block_len & m == 0 && x < block_len
        && base < len && len & m == 0 ==> (base ^ x) < len) by (bit_vector);
}

/// XOR of the start of a block with a number below the block length is their sum.
pub proof fn lemma_xor_block(start: u32, x: u32, block_len: u32)
    requires
        is_pow2(block_len),
        x < block_len,
        start & low_mask(block_len) == 0,
        start <= 0x7fff_ffff,
    ensures
        (start ^ x) == start + x,
{
    let m = low_mask(block_len);
    assert(block_len > 0 && m == (block_len - 1) as u32 && block_len & m == 0 && x < block_len
        && start & m == 0 && start <= 0x7fff_ffff ==> (start ^ x) == start + x) by (bit_vector);
}

/// Twice a power of two is a power of two.
pub proof fn lemma_pow2_double(b: u32)
    requires
        is_pow2(b),
        b <= 0x4000_0000,
    ensures
        is_pow2((2 * b) as u32),
{
    let m = low_mask(b);
    let m2 = low_mask((2 * b) as u32);
    assert(b > 0 && m == (b - 1) as u32 && b & m == 0 && b <= 0x4000_0000 && m2 == (((2 * b) as u32)
        - 1) as u32 ==> ((2 * b) as u32) & m2 == 0) by (bit_vector);
}

/// Twice a multiple of the block length is a multiple of it.
pub proof fn lemma_double_len(b: u32, len: u32)
    requires
        is_pow2(b),
        len <= 0x4000_0000,
        len & low_mask(b) == 0,
    ensures
        ((2 * len) as u32) & low_mask(b) == 0,
{
    let m = low_mask(b);
    assert(b > 0 && m == (b - 1) as u32 && b & m == 0 && len <= 0x4000_0000 && len & m == 0 ==> ((2
        * len) as u32) & m == 0) by (bit_vector);
}

/// A multiple of the block length and the block length add up to a multiple of it.
pub proof fn lemma_add_block(b: u32, start: u32)
    requires
        is_pow2(b),
        start & low_mask(b) == 0,
        start + b <= 0x8000_0000,
    ensures
        ((start + b) as u32) & low_mask(b) == 0,
{
    let m = low_mask(b);
    assert(b > 0 && m == (b - 1) as u32 && b & m == 0 && start & m == 0 && start + b <= 0x8000_0000
        ==> ((start + b) as u32) & m == 0) by (bit_vector);
}

/// A multiple of the block length that is below another one lies a whole block below it.
pub proof fn lemma_block_below(start: u32, len: u32, b: u32)
    requires
        is_pow2(b),
        start & low_mask(b) == 0,
        len & low_mask(b) == 0,
        start < len,
    ensures
        start + b <= len,
{
    let m = low_mask(b);
    assert(b > 0 && m == (b - 1) as u32 && b & m == 0 && start & m == 0 && len & m == 0 && start
        < len ==> start + b <= len) by (bit_vector);
}

/// The mark of the end of the list of free slots.
pub const NO_SLOT: u32 = u32::MAX;

/// The largest number of slots that a double array can have.
pub const MAX_SLOTS: u32 = 0x8000_0000;

/// The slots `l` are the list that begins at `head` and goes on as `next_free`
/// says: each slot of `l` names the next, the last names none, and no slot
/// stands on the list twice.
#[verifier::opaque]
pub open spec fn linked(next_free: Seq<u32>, head: u32, l: Seq<u32>) -> bool {
    &&& l.no_duplicates()
    &&& head == (if l.len() == 0 {
        NO_SLOT
    } else {
        l[0]
    })
    &&& forall|i: int| 0 <= i < l.len() ==> #[trigger] link_at(next_free, l, i)
}

/// The slot at the place `i` of the list `l` names the slot behind it.
pub open spec fn link_at(next_free: Seq<u32>, l: Seq<u32>, i: int) -> bool {
    l[i] < next_free.len() && next_free[l[i] as int] == behind(l, i)
}

/// The slot that stands behind the place `i` of a list, or the mark of the end.
pub open spec fn behind(l: Seq<u32>, i: int) -> u32 {
    if i + 1 < l.len() {
        l[i + 1]
    } else {
        NO_SLOT
    }
}

/// The slots of `l` that are not taken, in the order of `l`.
pub open spec fn without_taken(l: Seq<u32>, used: Seq<bool>) -> Seq<u32>
    decreases l.len(),
{
    if l.len() == 0 {
        l
    } else if used[l.last() as int] {
        without_taken(l.drop_last(), used)
    } else {
        without_taken(l.drop_last(), used).push(l.last())
    }
}

/// Every slot that is left of a list without its taken slots stood on the list,
/// and no more slots are left than the list had.
pub proof fn lemma_without_taken(l: Seq<u32>, used: Seq<bool>, k: int)
    requires
        0 <= k < without_taken(l, used).len(),
    ensures
        l.contains(without_taken(l, used)[k]),
        without_taken(l, used).len() <= l.len(),
    decreases l.len(),
{
    if l.len() > 0 {
        let w = without_taken(l.drop_last(), used);
        if k < w.len() {
            lemma_without_taken(l.drop_last(), used, k);
            let j = choose|j: int| 0 <= j < l.drop_last().len() && l.drop_last()[j] == w[k];
            assert(l[j] == w[k]);
        } else {
            assert(l[l.len() - 1] == l.last());
        }
        if w.len() > 0 {
            lemma_without_taken(l.drop_last(), used, 0);
        }
    }
}

/// What a list says at the place `k`: the slot there names the slot behind it,
/// and the head of the list is its first slot.
pub proof fn lemma_linked_at(next_free: Seq<u32>, head: u32, l: Seq<u32>, k: int)
    requires
        linked(next_free, head, l),
        0 <= k < l.len(),
    ensures
        head == l[0],
        l[k] < next_free.len(),
        next_free[l[k] as int] == behind(l, k),
{
    reveal(linked);
    assert(link_at(next_free, l, k));
}

/// The head of a list without slots names no slot.
pub proof fn lemma_linked_empty(next_free: Seq<u32>, head: u32, l: Seq<u32>)
    requires
        linked(next_free, head, l),
        l.len() == 0,
    ensures
        head == NO_SLOT,
{
    reveal(linked);
}

/// A list stays a list when the array of links gets one more entry.
pub proof fn lemma_linked_longer(next_free: Seq<u32>, head: u32, l: Seq<u32>, x: u32)
    requires
        linked(next_free, head, l),
    ensures
        linked(next_free.push(x), head, l),
{
    reveal(linked);
    let nf = next_free.push(x);
    assert forall|i: int| 0 <= i < l.len() implies #[trigger] link_at(nf, l, i) by {
        assert(link_at(next_free, l, i));
        assert(nf[l[i] as int] == next_free[l[i] as int]);
    }
}

/// A slot that is not on a list can be put before its head.
pub proof fn lemma_linked_front(next_free: Seq<u32>, head: u32, l: Seq<u32>, s: u32)
    requires
        linked(next_free, head, l),
        s < next_free.len(),
        !l.contains(s),
    ensures
        linked(next_free.update(s as int, head), s, seq![s] + l),
{
    reveal(linked);
    let m = seq![s] + l;
    let nf = next_free.update(s as int, head);
    assert(m.no_duplicates()) by {
        assert forall|a: int, b: int| 0 <= a < m.len() && 0 <= b < m.len() && a != b implies m[a]
            != m[b] by {
            if a > 0 {
                assert(m[a] == l[a - 1]);
                assert(l.contains(l[a - 1]));
            }
            if b > 0 {
                assert(m[b] == l[b - 1]);
                assert(l.contains(l[b - 1]));
            }
        }
    }
    assert forall|i: int| 0 <= i < m.len() implies #[trigger] link_at(nf, m, i) by {
        if i > 0 {
            assert(m[i] == l[i - 1]);
            assert(l.contains(l[i - 1]));
            assert(link_at(next_free, l, i - 1));
            assert(nf[l[i - 1] as int] == next_free[l[i - 1] as int]);
            if i + 1 < m.len() {
                assert(m[i + 1] == l[i]);
            }
        } else if l.len() > 0 {
            assert(m[1] == l[0]);
        }
    }
    assert(m[0] == s);
}

/// A step of a walk along a list that drops a taken slot: the slots that were
/// kept stay as they are, and the slot leaves the list.
pub proof fn lemma_walk_drop(l: Seq<u32>, used: Seq<bool>, i: int)
    requires
        0 <= i < l.len(),
        used[l[i] as int],
    ensures
        without_taken(l.take(i + 1), used) == without_taken(l.take(i), used),
        (without_taken(l.take(i), used) + l.skip(i)).remove(without_taken(l.take(i), used).len() as int)
            == without_taken(l.take(i), used) + l.skip(i + 1),
{
    let kept = without_taken(l.take(i), used);
    assert(l.take(i + 1).drop_last() =~= l.take(i));
    assert(l.take(i + 1).last() == l[i]);
    assert((kept + l.skip(i)).remove(kept.len() as int) =~= kept + l.skip(i + 1));
}

/// A step of a walk along a list that keeps a free slot: the slot is the last
/// of those that were kept, and the list is as it was.
pub proof fn lemma_walk_keep(l: Seq<u32>, used: Seq<bool>, i: int)
    requires
        0 <= i < l.len(),
        !used[l[i] as int],
    ensures
        without_taken(l.take(i + 1), used) == without_taken(l.take(i), used).push(l[i]),
        without_taken(l.take(i), used).push(l[i]) + l.skip(i + 1) == without_taken(l.take(i), used)
            + l.skip(i),
{
    let kept = without_taken(l.take(i), used);
    assert(l.take(i + 1).drop_last() =~= l.take(i));
    assert(l.take(i + 1).last() == l[i]);
    assert(kept.push(l[i]) + l.skip(i + 1) =~= kept + l.skip(i));
}

/// Where a walk along a list stands after `i` steps: at the slot `i` of the
/// list as it was, which stands behind the slots that were kept. Every slot of
/// the list is below a bound that the slots of the list as it was are below.
pub proof fn lemma_walk_at(l: Seq<u32>, used: Seq<bool>, i: int, bound: u32)
    requires
        0 <= i <= l.len(),
        forall|k: int| 0 <= k < l.len() ==> (#[trigger] l[k]) < bound,
    ensures
        forall|k: int|
            0 <= k < (without_taken(l.take(i), used) + l.skip(i)).len() ==> (#[trigger] (without_taken(
                l.take(i),
                used,
            ) + l.skip(i))[k]) < bound,
        i < l.len() ==> (without_taken(l.take(i), used) + l.skip(i))[without_taken(
            l.take(i),
            used,
        ).len() as int] == l[i],
        i + 1 < l.len() ==> (without_taken(l.take(i), used) + l.skip(i))[without_taken(
            l.take(i),
            used,
        ).len() as int + 1] == l[i + 1],
        (without_taken(l.take(i), used) + l.skip(i)).len() == without_taken(l.take(i), used).len()
            + l.len() - i,
{
    let kept = without_taken(l.take(i), used);
    let cur = kept + l.skip(i);
    assert forall|k: int| 0 <= k < cur.len() implies (#[trigger] cur[k]) < bound by {
        if k < kept.len() {
            lemma_without_taken(l.take(i), used, k);
            let j = choose|j: int| 0 <= j < l.take(i).len() && l.take(i)[j] == kept[k];
            assert(l[j] == kept[k]);
        } else {
            assert(cur[k] == l[k - kept.len() + i]);
        }
    }
}

/// Taking the slot at the place `k` off a list leaves a list: the slot before
/// it, or the head, names the slot behind it.
pub proof fn lemma_unlink(next_free: Seq<u32>, head: u32, l: Seq<u32>, k: int)
    requires
        linked(next_free, head, l),
        0 <= k < l.len(),
    ensures
        k == 0 ==> linked(next_free, next_free[l[k] as int], l.remove(k)),
        k > 0 ==> linked(next_free.update(l[k - 1] as int, next_free[l[k] as int]), head, l.remove(k)),
{
    reveal(linked);
    let m = l.remove(k);
    let next = next_free[l[k] as int];
    assert(m.no_duplicates()) by {
        assert forall|a: int, b: int| 0 <= a < m.len() && 0 <= b < m.len() && a != b implies m[a]
            != m[b] by {
            let a1 = if a < k {
                a
            } else {
                a + 1
            };
            let b1 = if b < k {
                b
            } else {
                b + 1
            };
            assert(m[a] == l[a1] && m[b] == l[b1]);
        }
    }
    assert(link_at(next_free, l, k));
    if k == 0 {
        assert forall|i: int| 0 <= i < m.len() implies #[trigger] link_at(next_free, m, i) by {
            assert(m[i] == l[i + 1]);
            assert(link_at(next_free, l, i + 1));
            if i + 1 < m.len() {
                assert(m[i + 1] == l[i + 2]);
            }
        }
    } else {
        let nf = next_free.update(l[k - 1] as int, next);
        assert(link_at(next_free, l, k - 1));
        assert forall|i: int| 0 <= i < m.len() implies #[trigger] link_at(nf, m, i) by {
            if i < k - 1 {
                assert(m[i] == l[i]);
                assert(m[i + 1] == l[i + 1]);
                assert(l[i] != l[k - 1]);
                assert(link_at(next_free, l, i));
            } else if i == k - 1 {
                assert(m[i] == l[k - 1]);
                if i + 1 < m.len() {
                    assert(m[i + 1] == l[k + 1]);
                }
            } else {
                assert(m[i] == l[i + 1]);
                assert(l[i + 1] != l[k - 1]);
                assert(link_at(next_free, l, i + 1));
                if i + 1 < m.len() {
                    assert(m[i + 1] == l[i + 2]);
                }
            }
        }
    }
}

/// Which slots of the double array are taken, and a list of free slots.
///
/// The array is made of blocks of `block_len` slots. The blocks from `fresh` on
/// have never been touched: every slot in them is free.
pub struct BuildHelper {
    pub used: Vec<bool>,
    pub next_free: Vec<u32>,
    pub head: u32,
    pub block_len: u32,
    pub fresh: u32,
    /// The list of free slots, from its head on.
    pub free: Ghost<Seq<u32>>,
}

impl BuildHelper {
    /// The number of slots.
    pub open spec fn spec_len(&self) -> int {
        self.used@.len() as int
    }

    /// The number of slots is a power of two, the blocks are whole, the untouched
    /// blocks are free, and the list of free slots is a list that stays inside the
    /// touched blocks.
    pub open spec fn wf(&self) -> bool {
        &&& is_pow2(self.block_len)
        &&& 2 <= self.block_len <= 0x20_0000
        &&& 2 <= self.used@.len() <= MAX_SLOTS
        &&& self.next_free@.len() == self.used@.len()
        &&& is_pow2(self.used@.len() as u32)
        &&& (self.used@.len() as u32) & low_mask(self.block_len) == 0
        &&& self.block_len <= self.fresh <= self.used@.len()
        &&& self.fresh & low_mask(self.block_len) == 0
        &&& self.used@[0]
        &&& self.used@[1]
        &&& forall|s: int| self.fresh <= s < self.used@.len() ==> !#[trigger] self.used@[s]
        &&& (self.head == NO_SLOT || self.head < self.fresh)
        &&& forall|s: int|
            0 <= s < self.next_free@.len() ==> (#[trigger] self.next_free@[s]) == NO_SLOT
                || self.next_free@[s] < self.fresh
        &&& linked(self.next_free@, self.head, self.free@)
        &&& forall|i: int| 0 <= i < self.free@.len() ==> (#[trigger] self.free@[i]) < self.fresh
    }

    /// The slot `s`, taken as the place of the first child, gives a base that
    /// fits a state with children on the codes `codes`.
    pub open spec fn slot_fits(&self, s: u32, codes: Seq<u32>) -> bool {
        !self.used@[s as int] && self.fits(s ^ codes[0], codes)
    }

    /// A search with the limit `limit` finds the base `base` at the place `i` of
    /// the list of free slots: the slot there is the first of the list that fits,
    /// and `base` is the base that it gives.
    pub open spec fn finds(&self, codes: Seq<u32>, limit: u32, i: int, base: u32) -> bool {
        &&& 0 <= i < self.reach(limit)
        &&& base == self.free@[i] ^ codes[0]
        &&& self.slot_fits(self.free@[i], codes)
        &&& forall|j: int| 0 <= j < i ==> !self.slot_fits(#[trigger] self.free@[j], codes)
    }

    /// The list of free slots after a search has looked at its first `n` slots:
    /// those of them that are taken have left the list.
    pub open spec fn list_after(&self, n: int) -> Seq<u32> {
        without_taken(self.free@.take(n), self.used@) + self.free@.skip(n)
    }

    /// The number of slots of the list of free slots that a search with the limit
    /// `limit` looks at, when none of them fits.
    pub open spec fn reach(&self, limit: u32) -> int {
        if limit < self.free@.len() {
            limit as int
        } else {
            self.free@.len() as int
        }
    }

    /// `base` can be the base of a state with children on the codes `codes`: it is
    /// not zero, and every child falls on a free slot of a touched block.
    pub open spec fn fits(&self, base: u32, codes: Seq<u32>) -> bool {
        &&& base != 0
        &&& base < self.fresh
        &&& forall|k: int|
            0 <= k < codes.len() ==> (#[trigger] (base ^ codes[k])) < self.fresh && !self.used@[(base
                ^ codes[k]) as int]
    }

    /// Creates the book-keeping for an array of one block, in which the slots of
    /// the root and of the dead state are taken.
    pub fn new(block_len: u32) -> (r: Self)
        requires
            is_pow2(block_len),
            2 <= block_len <= 0x20_0000,
        ensures
            r.wf(),
            r.block_len == block_len,
            r.spec_len() == block_len,
            r.fresh == block_len,
            forall|s: int| 2 <= s < block_len ==> !#[trigger] r.used@[s],
    {
        let mut used: Vec<bool> = Vec::new();
        let mut next_free: Vec<u32> = Vec::new();
        let mut s: u32 = 0;
        while s < block_len
            invariant
                s <= block_len <= 0x20_0000,
                used@.len() == s,
                next_free@.len() == s,
                forall|k: int| 0 <= k < s ==> (#[trigger] used@[k]) == (k < 2),
                forall|k: int|
                    0 <= k < s ==> (#[trigger] next_free@[k]) == (if k + 1 < block_len && k >= 2 {
                        (k + 1) as u32
                    } else {
                        NO_SLOT
                    }),
            decreases block_len - s,
        {
            used.push(s < 2);
            next_free.push(if s + 1 < block_len && s >= 2 {
                s + 1
            } else {
                NO_SLOT
            });
            s += 1;
        }
        let head = if block_len > 2 {
            2
        } else {
            NO_SLOT
        };
        let ghost free = Seq::new((block_len - 2) as nat, |i: int| (i + 2) as u32);
        proof {
            reveal(linked);
            assert forall|i: int| 0 <= i < free.len() implies #[trigger] link_at(
                next_free@,
                free,
                i,
            ) by {
                assert(free[i] == i + 2);
                if i + 1 < free.len() {
                    assert(free[i + 1] == i + 3);
                }
            }
            assert(linked(next_free@, head, free));
        }
        Self { used, next_free, head, block_len, fresh: block_len, free: Ghost(free) }
    }

    /// Returns the number of slots.
    pub fn len(&self) -> (r: u32)
        requires
            self.wf(),
        ensures
            r == self.spec_len(),
    {
        self.used.len() as u32
    }

    /// Marks the slot `idx` as taken.
    pub fn use_index(&mut self, idx: u32)
        requires
            old(self).wf(),
            idx < old(self).fresh,
        ensures
            final(self).wf(),
            final(self).used@ == old(self).used@.update(idx as int, true),
            final(self).block_len == old(self).block_len,
            final(self).fresh == old(self).fresh,
    {
        self.used[idx as usize] = true;
    }

    /// Whether every child of a state with the base `base` and children on the
    /// codes `codes` falls on a free slot.
    fn check_valid_base(&self, base: u32, codes: &Vec<u32>) -> (r: bool)
        requires
            self.wf(),
            base < self.fresh,
            forall|k: int| 0 <= k < codes@.len() ==> (#[trigger] codes@[k]) < self.block_len,
        ensures
            forall|k: int| 0 <= k < codes@.len() ==> (#[trigger] (base ^ codes@[k])) < self.fresh,
            r <==> forall|k: int|
                0 <= k < codes@.len() ==> !self.used@[(#[trigger] (base ^ codes@[k])) as int],
    {
        proof {
            assert forall|j: int| 0 <= j < codes@.len() implies (#[trigger] (base ^ codes@[j]))
                < self.fresh by {
                lemma_xor_in_range(base, codes@[j], self.fresh, self.block_len);
            }
        }
        let mut k: usize = 0;
        while k < codes.len()
            invariant
                self.wf(),
                base < self.fresh,
                k <= codes@.len(),
                forall|j: int| 0 <= j < codes@.len() ==> (#[trigger] (base ^ codes@[j])) < self.fresh,
                forall|j: int| 0 <= j < k ==> !self.used@[(#[trigger] (base ^ codes@[j])) as int],
            decreases codes@.len() - k,
        {
            let idx = base ^ codes[k];
            if self.used[idx as usize] {
                proof {
                    assert(self.used@[(base ^ codes@[k as int]) as int]);
                }
                return false;
            }
            k += 1;
        }
        true
    }

    /// Looks among the free slots for a base that fits a state with children on
    /// the codes `codes`. The slots of the list are tried in turn as the place of
    /// the first child, no more than `limit` of them, and the first that fits
    /// gives the base. Slots of the list that have been taken since they were put
    /// on it are dropped from it on the way.
    pub fn find_base(&mut self, codes: &Vec<u32>, limit: u32) -> (r: Option<u32>)
        requires
            old(self).wf(),
            codes@.len() > 0,
            forall|k: int| 0 <= k < codes@.len() ==> (#[trigger] codes@[k]) < old(self).block_len,
        ensures
            final(self).wf(),
            final(self).used@ == old(self).used@,
            final(self).block_len == old(self).block_len,
            final(self).fresh == old(self).fresh,
            r matches Some(base) ==> final(self).fits(base, codes@),
            r is None <==> forall|i: int|
                0 <= i < old(self).reach(limit) ==> !old(self).slot_fits(
                    #[trigger] old(self).free@[i],
                    codes@,
                ),
            r matches Some(base) ==> exists|i: int| #[trigger]
                old(self).finds(codes@, limit, i, base) && final(self).free@ == old(self).list_after(i),
            r is None ==> final(self).free@ == old(self).list_after(old(self).reach(limit)),
    {
        let ghost l0 = self.free@;
        let ghost used = self.used@;
        let ghost s0 = *self;
        let ghost mut i: int = 0;
        let mut prev: u32 = NO_SLOT;
        let mut idx: u32 = self.head;
        let mut tries: u32 = 0;
        proof {
            assert(l0.take(0) =~= Seq::<u32>::empty());
            assert(without_taken(l0.take(0), used) + l0.skip(0) =~= l0);
            if l0.len() > 0 {
                lemma_linked_at(self.next_free@, self.head, l0, 0);
            } else {
                lemma_linked_empty(self.next_free@, self.head, l0);
            }
        }
        while idx != NO_SLOT && tries < limit
            invariant
                self.wf(),
                s0 == *old(self),
                s0.wf(),
                l0 == s0.free@,
                used == s0.used@,
                self.used@ == used,
                self.block_len == s0.block_len,
                self.fresh == s0.fresh,
                codes@.len() > 0,
                forall|k: int| 0 <= k < codes@.len() ==> (#[trigger] codes@[k]) < self.block_len,
                0 <= i <= l0.len(),
                i == tries,
                tries <= limit,
                idx == (if i < l0.len() {
                    l0[i]
                } else {
                    NO_SLOT
                }),
                self.free@ == without_taken(l0.take(i), used) + l0.skip(i),
                prev == (if without_taken(l0.take(i), used).len() > 0 {
                    without_taken(l0.take(i), used).last()
                } else {
                    NO_SLOT
                }),
                forall|j: int| 0 <= j < i ==> !s0.slot_fits(#[trigger] l0[j], codes@),
            decreases limit - tries,
        {
            let ghost kept = without_taken(l0.take(i), used);
            let ghost cur = self.free@;
            let ghost nf = self.next_free@;
            let ghost hd = self.head;
            proof {
                lemma_walk_at(l0, used, i, self.fresh);
                assert(cur[kept.len() as int] == idx);
                lemma_linked_at(nf, hd, cur, kept.len() as int);
                if kept.len() > 0 {
                    lemma_linked_at(nf, hd, cur, kept.len() - 1);
                    assert(cur[kept.len() - 1] == kept.last());
                    assert(cur[kept.len() - 1] < self.fresh);
                }
            }
            let next = self.next_free[idx as usize];
            proof {
                assert(next == behind(cur, kept.len() as int));
                assert(next == (if i + 1 < l0.len() {
                    l0[i + 1]
                } else {
                    NO_SLOT
                }));
            }
            if self.used[idx as usize] {
                if prev == NO_SLOT {
                    self.head = next;
                } else {
                    self.next_free[prev as usize] = next;
                }
                proof {
                    lemma_walk_drop(l0, used, i);
                    lemma_unlink(nf, hd, cur, kept.len() as int);
                    self.free@ = kept + l0.skip(i + 1);
                    lemma_walk_at(l0, used, i + 1, self.fresh);
                    assert(next == NO_SLOT || next < self.fresh);
                }
            } else {
                proof {
                    lemma_xor_in_range(idx, codes@[0], self.fresh, self.block_len);
                }
                let base = idx ^ codes[0];
                if base != 0 && self.check_valid_base(base, codes) {
                    proof {
                        assert(s0.slot_fits(l0[i], codes@));
                        assert(s0.finds(codes@, limit, i, base));
                    }
                    return Some(base);
                }
                proof {
                    assert(!s0.slot_fits(l0[i], codes@)) by {
                        if base != 0 {
                            let k = choose|k: int|
                                0 <= k < codes@.len() && self.used@[(#[trigger] (base ^ codes@[k])) as int];
                            assert(!s0.fits(base, codes@));
                        }
                    }
                    lemma_walk_keep(l0, used, i);
                }
                prev = idx;
            }
            proof {
                i = i + 1;
            }
            idx = next;
            tries += 1;
        }
        proof {
            assert(i == s0.reach(limit));
        }
        None
    }

    /// Opens the first untouched block, after doubling the array when there is no
    /// such block, and returns the first slot of the block. Every slot of the block
    /// is free and is put on the list of free slots.
    ///
    /// Fails when the array cannot be doubled any more.
    pub fn open_block(&mut self) -> (r: Option<u32>)
        requires
            old(self).wf(),
        ensures
            r is None ==> old(self).fresh == old(self).spec_len() && 2 * old(self).spec_len()
                > MAX_SLOTS,
            r matches Some(start) ==> {
                &&& final(self).wf()
                &&& final(self).block_len == old(self).block_len
                &&& start == old(self).fresh
                &&& start != 0
                &&& final(self).fresh == start + final(self).block_len
                &&& old(self).used@.is_prefix_of(final(self).used@)
                &&& final(self).spec_len() == (if old(self).fresh == old(self).spec_len() {
                    2 * old(self).spec_len()
                } else {
                    old(self).spec_len()
                })
                &&& forall|x: u32|
                    x < final(self).block_len ==> (#[trigger] (start ^ x)) < final(self).fresh
                        && !final(self).used@[(start ^ x) as int]
                &&& forall|s: int|
                    old(self).fresh <= s < final(self).spec_len() ==> !#[trigger] final(self).used@[s]
            },
    {
        let len = self.used.len();
        let ghost used0 = self.used@;
        proof {
            if self.fresh < len {
                lemma_block_below(self.fresh, len as u32, self.block_len);
            }
            assert(used0.is_prefix_of(used0)) by {
                assert(used0 =~= used0.subrange(0, used0.len() as int));
            }
        }
        if self.fresh as usize == len {
            if len > (MAX_SLOTS / 2) as usize {
                return None;
            }
            proof {
                lemma_double_len(self.block_len, len as u32);
                lemma_pow2_double(len as u32);
                lemma_block_below(self.fresh, (2 * len) as u32, self.block_len);
            }
            let mut s: usize = len;
            while s < 2 * len
                invariant
                    len <= s <= 2 * len,
                    len <= MAX_SLOTS / 2,
                    self.used@.len() == s,
                    self.next_free@.len() == s,
                    self.fresh == old(self).fresh,
                    self.head == old(self).head,
                    self.block_len == old(self).block_len,
                    self.fresh == len,
                    used0 == old(self).used@,
                    used0.len() == len,
                    used0.is_prefix_of(self.used@),
                    forall|k: int| len <= k < s ==> !#[trigger] self.used@[k],
                    forall|k: int|
                        0 <= k < s ==> (#[trigger] self.next_free@[k]) == NO_SLOT || self.next_free@[k]
                            < self.fresh,
                    self.free@ == old(self).free@,
                    linked(self.next_free@, self.head, self.free@),
                decreases 2 * len - s,
            {
                let ghost u = self.used@;
                let ghost nf = self.next_free@;
                self.used.push(false);
                self.next_free.push(NO_SLOT);
                proof {
                    lemma_linked_longer(nf, self.head, self.free@, NO_SLOT);
                    assert(used0 =~= self.used@.subrange(0, used0.len() as int)) by {
                        assert forall|k: int| 0 <= k < used0.len() implies used0[k] == self.used@[k] by {
                            assert(used0[k] == u.subrange(0, used0.len() as int)[k]);
                        }
                    }
                }
                s += 1;
            }
            proof {
                assert(self.used@[0] == used0.subrange(0, used0.len() as int)[0]);
                assert(self.used@[0] == used0[0]);
                assert(self.used@[1] == used0[1]);
            }
        }
        let start = self.fresh;
        let end = start + self.block_len;
        let ghost used1 = self.used@;
        proof {
            lemma_add_block(self.block_len, start);
            assert forall|k: int| start <= k < used1.len() implies !#[trigger] used1[k] by {
                if k < used0.len() {
                    assert(used0[k] == used1.subrange(0, used0.len() as int)[k]);
                }
            }
        }
        // every slot of the block goes on the list of free slots
        let mut s: u32 = start;
        let mut head = self.head;
        let ghost mut list = self.free@;
        while s < end
            invariant
                start <= s <= end,
                linked(self.next_free@, head, list),
                forall|k: int| 0 <= k < list.len() ==> (#[trigger] list[k]) < s,
                end == start + self.block_len,
                end <= self.used@.len(),
                self.used@ == used1,
                self.next_free@.len() == used1.len(),
                self.fresh == start,
                self.block_len == old(self).block_len,
                head == NO_SLOT || head < end,
                forall|k: int|
                    0 <= k < self.next_free@.len() ==> (#[trigger] self.next_free@[k]) == NO_SLOT
                        || self.next_free@[k] < end,
            decreases end - s,
        {
            proof {
                if list.contains(s) {
                    let k = choose|k: int| 0 <= k < list.len() && list[k] == s;
                    assert(list[k] < s);
                }
                lemma_linked_front(self.next_free@, head, list, s);
                let longer = seq![s] + list;
                assert forall|k: int| 0 <= k < longer.len() implies (#[trigger] longer[k]) < s + 1 by {
                    if k > 0 {
                        assert(longer[k] == list[k - 1]);
                    }
                }
                list = longer;
            }
            self.next_free[s as usize] = head;
            head = s;
            s += 1;
        }
        self.head = head;
        self.fresh = end;
        proof {
            self.free@ = list;
            assert forall|x: u32| x < self.block_len implies (#[trigger] (start ^ x)) < self.fresh
                && !self.used@[(start ^ x) as int] by {
                lemma_xor_block(start, x, self.block_len);
            }
        }
        Some(start)
    }
}

} // verus!

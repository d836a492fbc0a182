//! The table that maps the characters of the patterns to small codes.
use vstd::prelude::*;

verus! {

/// The entry of a character that has no code.
pub const INVALID_CODE: u32 = u32::MAX;

/// The code that `table` gives to the character with code point `c`, if it gives one.
pub open spec fn code_at(table: Seq<u32>, c: u32) -> Option<u32> {
    if (c as int) < table.len() && table[c as int] != INVALID_CODE {
        Some(table[c as int])
    } else {
        None
    }
}

/// Every code of `table` is below `alphabet_size`, and no two characters share a code.
pub open spec fn table_ok(table: Seq<u32>, alphabet_size: u32) -> bool {
    &&& table.len() <= 0x11_0000
    &&& forall|c: int|
        0 <= c < table.len() && #[trigger] table[c] != INVALID_CODE ==> table[c] < alphabet_size
    &&& forall|c1: int, c2: int|
        0 <= c1 < table.len() && 0 <= c2 < table.len() && #[trigger] table[c1] == #[trigger] table[c2]
            && table[c1] != INVALID_CODE ==> c1 == c2
}

/// Two characters with the same code point are the same character.
pub proof fn lemma_char_eq(c1: char, c2: char)
    requires
        c1 as u32 == c2 as u32,
    ensures
        c1 == c2,
{
    vstd::utf8::char_u32_cast(c1, c1 as u32);
    vstd::utf8::char_u32_cast(c2, c2 as u32);
}

/// The order of pairs of numbers: by the first number, and by the second where
/// the first are equal.
pub open spec fn pair_le(a: (u32, u32), b: (u32, u32)) -> bool {
    a.0 < b.0 || (a.0 == b.0 && a.1 <= b.1)
}

/// Sorts pairs of numbers with `sort_unstable` of the standard library.
///
/// Trusted: the call sorts the slice in ascending order, so the vector holds the
/// same pairs as before, each as often as before, and no pair stands before a
/// smaller one. Tuples are ordered by their first field, then by their second.
#[verifier::external_body]
fn sort_pairs(v: &mut Vec<(u32, u32)>)
    ensures
        final(v)@.to_multiset() == old(v)@.to_multiset(),
        forall|i: int, j: int|
            0 <= i < j < final(v)@.len() ==> pair_le(#[trigger] final(v)@[i], #[trigger] final(v)@[j]),
{
    v.sort_unstable();
}

/// The number of code points that occur at least once according to `freqs`.
pub open spec fn count_seen(freqs: Seq<u32>) -> nat
    decreases freqs.len(),
{
    if freqs.len() == 0 {
        0
    } else {
        count_seen(freqs.drop_last()) + if freqs.last() != 0 {
            1nat
        } else {
            0nat
        }
    }
}

/// The code points that occur at least once according to `freqs`, in ascending order.
pub open spec fn seen_list(freqs: Seq<u32>) -> Seq<int>
    decreases freqs.len(),
{
    if freqs.len() == 0 {
        seq![]
    } else if freqs.last() != 0 {
        seen_list(freqs.drop_last()).push(freqs.len() - 1)
    } else {
        seen_list(freqs.drop_last())
    }
}

/// The list of the code points that occur is as long as their number, holds
/// code points that occur, and holds none twice.
pub proof fn lemma_seen_list(freqs: Seq<u32>)
    ensures
        seen_list(freqs).len() == count_seen(freqs),
        forall|i: int|
            0 <= i < seen_list(freqs).len() ==> 0 <= #[trigger] seen_list(freqs)[i] < freqs.len()
                && freqs[seen_list(freqs)[i]] != 0,
        seen_list(freqs).no_duplicates(),
    decreases freqs.len(),
{
    if freqs.len() > 0 {
        let init = freqs.drop_last();
        lemma_seen_list(init);
        let l0 = seen_list(init);
        let l = seen_list(freqs);
        assert forall|i: int| 0 <= i < l.len() implies 0 <= #[trigger] l[i] < freqs.len() && freqs[l[i]]
            != 0 by {
            if i < l0.len() {
                assert(l[i] == l0[i]);
                assert(init[l0[i]] == freqs[l0[i]]);
            }
        }
        assert forall|i: int, j: int| 0 <= i < l.len() && 0 <= j < l.len() && i != j implies l[i]
            != l[j] by {
            if i < l0.len() && j < l0.len() {
                assert(l0[i] != l0[j]);
            } else if i < l0.len() {
                assert(l[i] == l0[i]);
            } else if j < l0.len() {
                assert(l[j] == l0[j]);
            }
        }
    }
}

/// No more code points occur than there are.
pub proof fn lemma_count_seen_bound(freqs: Seq<u32>)
    ensures
        count_seen(freqs) <= freqs.len(),
    decreases freqs.len(),
{
    if freqs.len() > 0 {
        lemma_count_seen_bound(freqs.drop_last());
    }
}

/// The key by which the code point `c` is sorted: the more often it occurs the
/// smaller the key, and among code points that occur equally often the smaller
/// code point has the smaller key.
pub open spec fn sort_key(freqs: Seq<u32>, c: int) -> (u32, u32) {
    ((u32::MAX - freqs[c]) as u32, c as u32)
}

/// Maps the code points seen in the patterns to the codes `0..alphabet_size`.
#[derive(Clone, Debug, Eq, Hash, PartialEq)]
pub struct CodeMapper {
    pub table: Vec<u32>,
    pub alphabet_size: u32,
}

/// The table that gives each byte itself as its code.
pub open spec fn identity_table() -> Seq<u32> {
    Seq::new(256, |c: int| c as u32)
}

impl CodeMapper {
    /// Gives each byte itself as its code: the mapper of an automaton on bytes.
    pub fn identity() -> (r: Self)
        ensures
            r.table@ == identity_table(),
            r.alphabet_size == 256,
            table_ok(r.table@, r.alphabet_size),
    {
        let mut table: Vec<u32> = Vec::new();
        let mut c: u32 = 0;
        while c < 256
            invariant
                c <= 256,
                table@.len() == c,
                forall|x: int| 0 <= x < c ==> #[trigger] table@[x] == x as u32,
            decreases 256 - c,
        {
            table.push(c);
            c += 1;
        }
        proof {
            assert(table@ =~= identity_table());
        }
        Self { table, alphabet_size: 256 }
    }

    /// Gives the codes `0..n` to the `n` code points that occur at least once
    /// according to `freqs`, the smaller codes to those that occur more often.
    pub fn new(freqs: &Vec<u32>) -> (r: Self)
        requires
            freqs@.len() <= 0x11_0000,
        ensures
            r.table@.len() == freqs@.len(),
            table_ok(r.table@, r.alphabet_size),
            r.alphabet_size == count_seen(freqs@),
            forall|c: int|
                0 <= c < freqs@.len() ==> (freqs@[c] != 0 <==> #[trigger] r.table@[c]
                    != INVALID_CODE),
            forall|c1: int, c2: int|
                0 <= c1 < freqs@.len() && 0 <= c2 < freqs@.len() && freqs@[c1] != 0 && freqs@[c2]
                    != 0 && c1 != c2 && pair_le(sort_key(freqs@, c1), sort_key(freqs@, c2))
                    ==> #[trigger] r.table@[c1] < #[trigger] r.table@[c2],
    {
        let mut sorted: Vec<(u32, u32)> = Vec::new();
        let mut c: usize = 0;
        while c < freqs.len()
            invariant
                freqs@.len() <= 0x11_0000,
                c <= freqs.len(),
                sorted@.len() == count_seen(freqs@.take(c as int)),
                sorted@.len() <= c,
                forall|k: int|
                    0 <= k < sorted@.len() ==> (#[trigger] sorted@[k]).1 < c && freqs@[sorted@[k].1 as int]
                        != 0 && sorted@[k] == sort_key(freqs@, sorted@[k].1 as int),
                forall|k1: int, k2: int|
                    0 <= k1 < k2 < sorted@.len() ==> (#[trigger] sorted@[k1]).1 < (
                    #[trigger] sorted@[k2]).1,
                forall|x: int|
                    0 <= x < c && freqs@[x] != 0 ==> sorted@.contains(#[trigger] sort_key(freqs@, x)),
            decreases freqs.len() - c,
        {
            let ghost before = sorted@;
            proof {
                assert(freqs@.take(c + 1).drop_last() =~= freqs@.take(c as int));
            }
            if freqs[c] != 0 {
                sorted.push((u32::MAX - freqs[c], c as u32));
                proof {
                    assert(sorted@[before.len() as int] == sort_key(freqs@, c as int));
                }
            }
            proof {
                assert forall|x: int| 0 <= x < c + 1 && freqs@[x] != 0 implies sorted@.contains(
                    #[trigger] sort_key(freqs@, x),
                ) by {
                    if x < c {
                        let k = choose|k: int| 0 <= k < before.len() && before[k] == sort_key(freqs@, x);
                        assert(sorted@[k] == sort_key(freqs@, x));
                    }
                }
            }
            c += 1;
        }
        let ghost s1 = sorted@;
        proof {
            assert(freqs@.take(freqs@.len() as int) =~= freqs@);
            assert(s1.no_duplicates());
        }
        sort_pairs(&mut sorted);
        let ghost s2 = sorted@;
        proof {
            s1.to_multiset_ensures();
            s2.to_multiset_ensures();
            s1.lemma_multiset_has_no_duplicates();
            s2.lemma_multiset_has_no_duplicates_conv();
            assert forall|k: int| 0 <= k < s2.len() implies s1.contains(#[trigger] s2[k]) by {
                assert(s2.contains(s2[k]));
                assert(s2.to_multiset().count(s2[k]) > 0);
            }
            assert forall|x: int| 0 <= x < freqs@.len() && freqs@[x] != 0 implies s2.contains(
                #[trigger] sort_key(freqs@, x),
            ) by {
                assert(s1.contains(sort_key(freqs@, x)));
                assert(s1.to_multiset().count(sort_key(freqs@, x)) > 0);
            }
        }
        let mut table: Vec<u32> = Vec::new();
        let mut t: usize = 0;
        while t < freqs.len()
            invariant
                t <= freqs.len(),
                table@.len() == t,
                forall|x: int| 0 <= x < t ==> #[trigger] table@[x] == INVALID_CODE,
            decreases freqs.len() - t,
        {
            table.push(INVALID_CODE);
            t += 1;
        }
        let mut i: usize = 0;
        while i < sorted.len()
            invariant
                i <= sorted@.len(),
                sorted@ == s2,
                s2.len() == s1.len(),
                s2.len() <= freqs@.len(),
                freqs@.len() <= 0x11_0000,
                table@.len() == freqs@.len(),
                s2.no_duplicates(),
                forall|k: int|
                    0 <= k < s2.len() ==> (#[trigger] s2[k]).1 < freqs@.len() && freqs@[s2[k].1 as int]
                        != 0 && s2[k] == sort_key(freqs@, s2[k].1 as int),
                forall|k: int| 0 <= k < i ==> table@[(#[trigger] s2[k]).1 as int] == k,
                forall|x: int|
                    0 <= x < table@.len() && #[trigger] table@[x] != INVALID_CODE ==> table@[x] < i
                        && s2[table@[x] as int].1 == x,
            decreases sorted@.len() - i,
        {
            let cp = sorted[i].1;
            proof {
                if table@[cp as int] != INVALID_CODE {
                    let k = table@[cp as int] as int;
                    assert(s2[k] == sort_key(freqs@, cp as int));
                    assert(s2[i as int] == sort_key(freqs@, cp as int));
                }
            }
            table[cp as usize] = i as u32;
            proof {
                assert forall|k: int| 0 <= k < i + 1 implies table@[(#[trigger] s2[k]).1 as int]
                    == k by {
                    if k < i {
                        assert(s2[k] == sort_key(freqs@, s2[k].1 as int));
                        assert(s2[i as int] == sort_key(freqs@, cp as int));
                    }
                }
            }
            i += 1;
        }
        let alphabet_size = sorted.len() as u32;
        proof {
            assert forall|x: int| 0 <= x < freqs@.len() implies (freqs@[x] != 0 <==> #[trigger] table@[x]
                != INVALID_CODE) by {
                if freqs@[x] != 0 {
                    assert(s2.contains(sort_key(freqs@, x)));
                    let k = choose|k: int| 0 <= k < s2.len() && s2[k] == sort_key(freqs@, x);
                    assert(table@[s2[k].1 as int] == k);
                }
            }
            assert forall|c1: int, c2: int|
                0 <= c1 < freqs@.len() && 0 <= c2 < freqs@.len() && freqs@[c1] != 0 && freqs@[c2] != 0
                    && c1 != c2 && pair_le(
                    sort_key(freqs@, c1),
                    sort_key(freqs@, c2),
                ) implies #[trigger] table@[c1] < #[trigger] table@[c2] by {
                let k1 = table@[c1] as int;
                let k2 = table@[c2] as int;
                assert(s2[k1].1 == c1 && s2[k2].1 == c2);
                if k2 < k1 {
                    assert(pair_le(s2[k2], s2[k1]));
                }
            }
            assert(table_ok(table@, alphabet_size)) by {
                assert forall|c1: int, c2: int|
                    0 <= c1 < table@.len() && 0 <= c2 < table@.len() && #[trigger] table@[c1]
                        == #[trigger] table@[c2] && table@[c1] != INVALID_CODE implies c1 == c2 by {
                    assert(s2[table@[c1] as int].1 == c1);
                }
            }
        }
        Self { table, alphabet_size }
    }

    /// The number of codes in use.
    #[inline(always)]
    pub fn alphabet_size(&self) -> (r: u32)
        ensures
            r == self.alphabet_size,
    {
        self.alphabet_size
    }

    /// Returns the code of the character with code point `c`, or `None` when no
    /// pattern holds that character.
    #[inline(always)]
    pub fn get(&self, c: u32) -> (r: Option<u32>)
        ensures
            r == code_at(self.table@, c),
    {
        let i = c as usize;
        if i < self.table.len() {
            let code = self.table[i];
            if code != INVALID_CODE {
                return Some(code);
            }
        }
        None
    }

    /// The number of bytes that the table takes on the heap.
    pub open spec fn spec_heap_bytes(&self) -> nat {
        self.table@.len() * 4
    }

    /// Returns the number of bytes that the table takes on the heap.
    pub fn heap_bytes(&self) -> (r: usize)
        requires
            self.spec_heap_bytes() <= usize::MAX,
        ensures
            r == self.spec_heap_bytes(),
    {
        self.table.len() * 4
    }
}

} // verus!

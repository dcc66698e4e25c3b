//! The permutation engine.
//!
//! [`permute`] drives a caller-supplied observer through every ordering of a
//! sequence, advancing between orderings by single in-place swaps chosen by
//! the parity of the recursion level.  The observer is handed a view of the
//! one working buffer, which later calls mutate: anything to be retained must
//! be copied out during the call (see [`copy_out`]).

use vstd::prelude::*;
use vstd::seq_lib::{group_to_multiset_ensures, lemma_multiset_commutative};
use vstd::multiset::group_multiset_axioms;

verus! {

/// n!, the number of orderings of n items.
pub open spec fn factorial(n: nat) -> nat
    decreases n,
{
    if n <= 1 {
        1
    } else {
        n * factorial((n - 1) as nat)
    }
}

/// Every sequence has at least one ordering.
pub proof fn lemma_factorial_pos(n: nat)
    ensures
        factorial(n) >= 1,
    decreases n,
{
    if n > 1 {
        lemma_factorial_pos((n - 1) as nat);
        assert(factorial(n) == n * factorial((n - 1) as nat));
        assert(n * factorial((n - 1) as nat) >= factorial((n - 1) as nat)) by (nonlinear_arith)
            requires
                n >= 1,
        ;
    }
}

/// `s` with the entries at positions `j` and `l` exchanged.
pub open spec fn swapped<T>(s: Seq<T>, j: int, l: int) -> Seq<T> {
    s.update(j, s[l]).update(l, s[j])
}

/// `t` arises from `s` by one pairwise swap of two positions.
pub open spec fn differs_by_one_swap<T>(s: Seq<T>, t: Seq<T>) -> bool {
    exists|j: int, l: int| 0 <= j < l < s.len() && t == swapped(s, j, l)
}

/// The first `k` entries of `s` are pairwise distinct.
pub open spec fn distinct_prefix<T>(s: Seq<T>, k: int) -> bool {
    forall|p: int, q: int| 0 <= p < k && 0 <= q < k && p != q ==> s[p] != s[q]
}

/// The first `k` entries of `s` rotated right by one position; the rest
/// untouched.
pub open spec fn rotated<T>(s: Seq<T>, k: int) -> Seq<T> {
    Seq::new(
        s.len(),
        |j: int|
            if j == 0 {
                s[k - 1]
            } else if j < k {
                s[j - 1]
            } else {
                s[j]
            },
    )
}

/// The arrangement a full enumeration pass over the first `k` positions
/// leaves behind: odd levels restore their entry arrangement, even levels
/// leave it rotated right by one.
pub open spec fn exit_state<T>(s: Seq<T>, k: int) -> Seq<T> {
    if k % 2 == 0 {
        rotated(s, k)
    } else {
        s
    }
}

/// The arrangement at the start of iteration `i` of an even level `k`:
/// the entry value `s` of the level, with `s[k-1]` moved to the front,
/// positions before `i` shifted up by one, and `s[i-1]` parked at `k-1`.
pub open spec fn even_block_state<T>(s: Seq<T>, k: int, i: int) -> Seq<T> {
    if i == 0 {
        s
    } else {
        Seq::new(
            s.len(),
            |j: int|
                if j == 0 {
                    s[k - 1]
                } else if j < i {
                    s[j - 1]
                } else if j == k - 1 {
                    s[i - 1]
                } else {
                    s[j]
                },
        )
    }
}

/// The arrangement at the start of iteration `i` of an odd level `k`: the
/// entry value of the level with its first `k` positions rotated right `i`
/// times.
pub open spec fn odd_block_state<T>(s: Seq<T>, k: int, i: int) -> Seq<T> {
    Seq::new(
        s.len(),
        |j: int|
            if j >= k {
                s[j]
            } else if j >= i {
                s[j - i]
            } else {
                s[j - i + k]
            },
    )
}

/// The arrangement at the start of iteration `i` of level `k`.
pub open spec fn block_state<T>(s: Seq<T>, k: int, i: int) -> Seq<T> {
    if k % 2 == 0 {
        even_block_state(s, k, i)
    } else {
        odd_block_state(s, k, i)
    }
}

/// The exact sequence of arrangements a full enumeration pass over the
/// first `k` positions shows, oldest first: level `k` runs `k` blocks, each
/// of them the full pass of level `k - 1` over that block's state.
pub open spec fn heap_log<T>(s: Seq<T>, k: int) -> Seq<Seq<T>>
    decreases k, k + 1,
{
    if k <= 1 {
        seq![s]
    } else {
        heap_prefix(s, k, k)
    }
}

/// The arrangements shown by the first `i` blocks of level `k`.
pub open spec fn heap_prefix<T>(s: Seq<T>, k: int, i: int) -> Seq<Seq<T>>
    decreases k, i,
{
    if i <= 0 || k <= 1 {
        Seq::empty()
    } else {
        heap_prefix(s, k, i - 1) + heap_log(block_state(s, k, i - 1), k - 1)
    }
}

/// The element parked at position `k - 1` throughout iteration `i` of level
/// `k`: the one position the sub-level below never moves.
spec fn block_value<T>(s: Seq<T>, k: int, i: int) -> T {
    block_state(s, k, i)[k - 1]
}

/// Each iteration of a level parks a different element at position `k - 1`:
/// an even level parks `s[k-1], s[0], .., s[k-2]` in turn, an odd one
/// `s[k-1], s[k-2], .., s[0]`.
proof fn lemma_block_values_distinct<T>(s: Seq<T>, k: int, t1: int, t2: int)
    requires
        2 <= k <= s.len(),
        distinct_prefix(s, k),
        0 <= t1 < t2 < k,
    ensures
        block_value(s, k, t1) != block_value(s, k, t2),
{
    if k % 2 == 0 {
        if t1 == 0 {
            assert(block_value(s, k, t1) == s[k - 1]);
            assert(block_value(s, k, t2) == s[t2 - 1]);
        } else {
            assert(block_value(s, k, t1) == s[t1 - 1]);
            assert(block_value(s, k, t2) == s[t2 - 1]);
        }
    } else {
        assert(block_value(s, k, t1) == s[k - 1 - t1]);
        assert(block_value(s, k, t2) == s[k - 1 - t2]);
    }
}

/// Every block state rearranges the first `k` entries of `s`, so pairwise
/// distinctness of that prefix carries over to it.
proof fn lemma_block_state_distinct_prefix<T>(s: Seq<T>, k: int, i: int)
    requires
        2 <= k <= s.len(),
        distinct_prefix(s, k),
        0 <= i <= k,
    ensures
        distinct_prefix(block_state(s, k, i), k),
{
    let b = block_state(s, k, i);
    assert forall|p: int, q: int|
        0 <= p < k && 0 <= q < k && p != q implies b[p] != b[q] by {
        if k % 2 == 0 {
            if i > 0 {
                assert(b[p] == s[even_source(k, i, p)]);
                assert(b[q] == s[even_source(k, i, q)]);
                assert(even_source(k, i, p) != even_source(k, i, q));
            }
        } else {
            assert(b[p] == s[odd_source(k, i, p)]);
            assert(b[q] == s[odd_source(k, i, q)]);
            assert(odd_source(k, i, p) != odd_source(k, i, q));
        }
    }
}

/// The index of `s` that iteration `i` of an even level reads for position
/// `j`.
spec fn even_source(k: int, i: int, j: int) -> int {
    if j == 0 {
        k - 1
    } else if j < i {
        j - 1
    } else if j == k - 1 {
        i - 1
    } else {
        j
    }
}

/// The index of `s` that iteration `i` of an odd level reads for position
/// `j`.
spec fn odd_source(k: int, i: int, j: int) -> int {
    if j >= i {
        j - i
    } else {
        j - i + k
    }
}

/// Sequences that agree from position `k` on and hold the same elements
/// hold the same elements within their first `k` positions too.
proof fn lemma_prefix_multiset<T>(t: Seq<T>, s: Seq<T>, k: int)
    requires
        0 <= k <= s.len(),
        t.len() == s.len(),
        t.to_multiset() == s.to_multiset(),
        forall|j: int| k <= j < s.len() ==> t[j] == s[j],
    ensures
        t.subrange(0, k).to_multiset() == s.subrange(0, k).to_multiset(),
{
    broadcast use group_multiset_axioms;

    let n = s.len() as int;
    assert(t =~= t.subrange(0, k) + t.subrange(k, n));
    assert(s =~= s.subrange(0, k) + s.subrange(k, n));
    lemma_multiset_commutative(t.subrange(0, k), t.subrange(k, n));
    lemma_multiset_commutative(s.subrange(0, k), s.subrange(k, n));
    assert(t.subrange(k, n) =~= s.subrange(k, n));
    let a = t.subrange(0, k).to_multiset();
    let b = s.subrange(0, k).to_multiset();
    let c = s.subrange(k, n).to_multiset();
    assert(a.add(c) == b.add(c));
    assert forall|x: T| true implies a.count(x) == b.count(x) by {
        assert(a.add(c).count(x) == a.count(x) + c.count(x));
        assert(b.add(c).count(x) == b.count(x) + c.count(x));
    }
    assert(a =~= b);
}

/// The element an arrangement parks at position `k - 1` comes from the first
/// `k` positions of the base.
proof fn lemma_parked_from_prefix<T>(t: Seq<T>, s: Seq<T>, k: int) -> (m: int)
    requires
        1 <= k <= s.len(),
        arrangement_of(t, s, k),
    ensures
        0 <= m < k,
        s[m] == t[k - 1],
{
    broadcast use group_to_multiset_ensures, group_multiset_axioms;

    lemma_prefix_multiset(t, s, k);
    let tp = t.subrange(0, k);
    let sp = s.subrange(0, k);
    assert(tp[k - 1] == t[k - 1]);
    assert(tp.contains(t[k - 1]));
    assert(sp.to_multiset().count(t[k - 1]) > 0);
    assert(sp.contains(t[k - 1]));
    let m = choose|m: int| 0 <= m < sp.len() && sp[m] == t[k - 1];
    assert(s[m] == sp[m]);
    m
}

/// Rotating the first `k` positions never changes the elements counted with
/// multiplicity.
proof fn lemma_rotated_multiset<T>(s: Seq<T>, k: int)
    requires
        1 <= k <= s.len(),
    ensures
        rotated(s, k).to_multiset() == s.to_multiset(),
{
    broadcast use group_multiset_axioms;

    let n = s.len() as int;
    let r = rotated(s, k);
    let last = s.subrange(k - 1, k);
    let front = s.subrange(0, k - 1);
    let tail = s.subrange(k, n);
    assert(r =~= (last + front) + tail);
    assert(s =~= (front + last) + tail);
    lemma_multiset_commutative(last + front, tail);
    lemma_multiset_commutative(front + last, tail);
    lemma_multiset_commutative(last, front);
    lemma_multiset_commutative(front, last);
    assert(last.to_multiset().add(front.to_multiset()) =~= front.to_multiset().add(
        last.to_multiset(),
    ));
    assert(r.to_multiset() =~= s.to_multiset());
}

/// Every block state holds the same elements as the level's entry value.
proof fn lemma_block_state_multiset<T>(s: Seq<T>, k: int, i: int)
    requires
        2 <= k <= s.len(),
        0 <= i <= k,
    ensures
        block_state(s, k, i).to_multiset() == s.to_multiset(),
    decreases i,
{
    if i == 0 {
        assert(block_state(s, k, 0) =~= s);
    } else {
        lemma_block_state_multiset(s, k, i - 1);
        let b = block_state(s, k, i - 1);
        if k % 2 == 0 {
            lemma_even_step(s, k, i - 1);
            lemma_swapped_multiset(b, i - 1, k - 1);
        } else {
            lemma_odd_step(s, k, i - 1);
            lemma_rotated_multiset(b, k - 1);
            lemma_swapped_multiset(rotated(b, k - 1), 0, k - 1);
        }
    }
}

/// Some block of level `k` parks the given element of the prefix.
proof fn lemma_block_for_element<T>(s: Seq<T>, k: int, m: int) -> (i: int)
    requires
        2 <= k <= s.len(),
        0 <= m < k,
    ensures
        0 <= i < k,
        block_value(s, k, i) == s[m],
{
    if k % 2 == 0 {
        if m == k - 1 {
            assert(block_value(s, k, 0) == s[k - 1]);
            0
        } else {
            assert(block_value(s, k, m + 1) == s[m]);
            m + 1
        }
    } else {
        assert(block_value(s, k, k - 1 - m) == s[m]);
        k - 1 - m
    }
}

/// What one block of a level shows, the whole level shows.
proof fn lemma_heap_prefix_holds_block<T>(s: Seq<T>, k: int, i: int, j: int, t: Seq<T>)
    requires
        2 <= k,
        0 <= i < j <= k,
        heap_log(block_state(s, k, i), k - 1).contains(t),
    ensures
        heap_prefix(s, k, j).contains(t),
    decreases j,
{
    if j == i + 1 {
        let block = heap_log(block_state(s, k, i), k - 1);
        let idx = choose|idx: int| 0 <= idx < block.len() && block[idx] == t;
        assert(heap_prefix(s, k, j) == heap_prefix(s, k, i) + block);
        assert(heap_prefix(s, k, j)[heap_prefix(s, k, i).len() + idx] == t);
    } else {
        lemma_heap_prefix_holds_block(s, k, i, j - 1, t);
        let prev = heap_prefix(s, k, j - 1);
        let idx = choose|idx: int| 0 <= idx < prev.len() && prev[idx] == t;
        assert(heap_prefix(s, k, j)[idx] == t);
    }
}

/// Completeness of the enumeration: every arrangement of the first `k`
/// positions of a pairwise-distinct prefix appears in the enumeration log.
pub proof fn lemma_heap_log_complete<T>(s: Seq<T>, k: int, t: Seq<T>)
    requires
        1 <= k <= s.len(),
        distinct_prefix(s, k),
        arrangement_of(t, s, k),
    ensures
        heap_log(s, k).contains(t),
    decreases k,
{
    if k == 1 {
        // The one free position is forced by the shared elements.
        let m = lemma_parked_from_prefix(t, s, 1);
        assert(m == 0);
        assert(t =~= s);
        assert(heap_log(s, 1)[0] == t);
    } else {
        let m = lemma_parked_from_prefix(t, s, k);
        let i = lemma_block_for_element(s, k, m);
        let b = block_state(s, k, i);
        lemma_block_state_multiset(s, k, i);
        lemma_block_state_distinct_prefix(s, k, i);
        assert(b[k - 1] == t[k - 1]);
        assert forall|j: int| k - 1 <= j < b.len() implies t[j] == b[j] by {
            if j >= k {
                assert(b[j] == s[j]);
            }
        }
        assert(arrangement_of(t, b, k - 1));
        lemma_heap_log_complete(b, k - 1, t);
        lemma_heap_prefix_holds_block(s, k, i, k, t);
        assert(heap_log(s, k) == heap_prefix(s, k, k));
    }
}

/// One level iteration extends the distinctness bookkeeping: entries shown
/// before carry an earlier block's parked element at position `k - 1`, the
/// block just enumerated parks a fresh one, so no two entries collide.
proof fn lemma_distinct_block_extend<T>(
    log_entry: Seq<Seq<T>>,
    log_mid: Seq<Seq<T>>,
    a0: Seq<T>,
    a_entry: Seq<T>,
    l0_len: int,
    k: int,
    i: int,
)
    requires
        2 <= k <= a0.len(),
        0 <= i < k,
        distinct_prefix(a0, k),
        a_entry == block_state(a0, k, i),
        0 <= l0_len <= log_entry.len() <= log_mid.len(),
        forall|idx: int| 0 <= idx < log_entry.len() ==> #[trigger] log_mid[idx] == log_entry[idx],
        forall|idx: int|
            l0_len <= idx < log_entry.len() ==> (exists|t: int|
                0 <= t < i && (#[trigger] log_entry[idx])[k - 1] == block_value(a0, k, t)),
        forall|i1: int, i2: int|
            #![trigger log_entry[i1], log_entry[i2]]
            (l0_len <= i1 < log_entry.len() && l0_len <= i2 < log_entry.len() && i1 != i2)
                ==> log_entry[i1] != log_entry[i2],
        forall|idx: int|
            log_entry.len() <= idx < log_mid.len() ==> arrangement_of(
                #[trigger] log_mid[idx],
                a_entry,
                k - 1,
            ),
        forall|i1: int, i2: int|
            #![trigger log_mid[i1], log_mid[i2]]
            (log_entry.len() <= i1 < log_mid.len() && log_entry.len() <= i2 < log_mid.len() && i1
                != i2) ==> log_mid[i1] != log_mid[i2],
    ensures
        forall|idx: int|
            l0_len <= idx < log_mid.len() ==> (exists|t: int|
                0 <= t < i + 1 && (#[trigger] log_mid[idx])[k - 1] == block_value(a0, k, t)),
        forall|i1: int, i2: int|
            #![trigger log_mid[i1], log_mid[i2]]
            (l0_len <= i1 < log_mid.len() && l0_len <= i2 < log_mid.len() && i1 != i2)
                ==> log_mid[i1] != log_mid[i2],
{
    assert(a_entry[k - 1] == block_value(a0, k, i));
    assert forall|idx: int| l0_len <= idx < log_mid.len() implies (exists|t: int|
        0 <= t < i + 1 && (#[trigger] log_mid[idx])[k - 1] == block_value(a0, k, t)) by {
        if idx < log_entry.len() {
            assert(log_mid[idx] == log_entry[idx]);
            let t0 = choose|t: int|
                0 <= t < i && (log_entry[idx])[k - 1] == block_value(a0, k, t);
            assert(0 <= t0 < i + 1 && (log_mid[idx])[k - 1] == block_value(a0, k, t0));
        } else {
            assert(arrangement_of(log_mid[idx], a_entry, k - 1));
            assert((log_mid[idx])[k - 1] == a_entry[k - 1]);
        }
    }
    assert forall|i1: int, i2: int|
        l0_len <= i1 < log_mid.len() && l0_len <= i2 < log_mid.len() && i1 != i2 implies log_mid[i1]
        != log_mid[i2] by {
        if i1 < log_entry.len() && i2 < log_entry.len() {
            assert(log_mid[i1] == log_entry[i1]);
            assert(log_mid[i2] == log_entry[i2]);
        } else if i1 >= log_entry.len() && i2 >= log_entry.len() {
            assert(log_mid[i1] != log_mid[i2]);
        } else {
            let lo = if i1 < i2 {
                i1
            } else {
                i2
            };
            let hi = if i1 < i2 {
                i2
            } else {
                i1
            };
            assert(lo < log_entry.len() && log_entry.len() <= hi);
            assert(log_mid[lo] == log_entry[lo]);
            let t0 = choose|t: int|
                0 <= t < i && (log_entry[lo])[k - 1] == block_value(a0, k, t);
            assert(arrangement_of(log_mid[hi], a_entry, k - 1));
            assert((log_mid[hi])[k - 1] == a_entry[k - 1]);
            lemma_block_values_distinct(a0, k, t0, i);
            assert((log_mid[lo])[k - 1] != (log_mid[hi])[k - 1]);
        }
    }
}

/// One even-level step: the trailing swap of iteration `i` (the sub-level
/// below it, being odd, restored the block state) advances to the next block
/// state.
proof fn lemma_even_step<T>(s: Seq<T>, k: int, i: int)
    requires
        2 <= k <= s.len(),
        k % 2 == 0,
        0 <= i < k,
    ensures
        swapped(even_block_state(s, k, i), i, k - 1) == even_block_state(s, k, i + 1),
{
    assert(swapped(even_block_state(s, k, i), i, k - 1) =~= even_block_state(s, k, i + 1));
}

/// One odd-level step: the sub-level below, being even, leaves the block
/// state rotated right by one on its first `k - 1` positions; the trailing
/// swap of positions `0` and `k - 1` completes a right rotation of all `k`.
proof fn lemma_odd_step<T>(s: Seq<T>, k: int, i: int)
    requires
        3 <= k <= s.len(),
        k % 2 == 1,
        0 <= i < k,
    ensures
        swapped(rotated(odd_block_state(s, k, i), k - 1), 0, k - 1) == odd_block_state(s, k, i + 1),
{
    assert(swapped(rotated(odd_block_state(s, k, i), k - 1), 0, k - 1) =~= odd_block_state(
        s,
        k,
        i + 1,
    ));
}

/// `s` is an arrangement of `base` whose positions from `k` on are untouched:
/// same length, same elements counted with multiplicity, and every element at
/// index `k` or beyond still in place.
pub open spec fn arrangement_of<T>(s: Seq<T>, base: Seq<T>, k: int) -> bool {
    &&& s.len() == base.len()
    &&& s.to_multiset() == base.to_multiset()
    &&& forall|j: int| k <= j < base.len() ==> s[j] == base[j]
}

/// Exchanging two positions never changes the elements counted with
/// multiplicity.
pub proof fn lemma_swapped_multiset<T>(s: Seq<T>, j: int, l: int)
    requires
        0 <= j < s.len(),
        0 <= l < s.len(),
    ensures
        swapped(s, j, l).to_multiset() == s.to_multiset(),
{
    broadcast use group_to_multiset_ensures, group_multiset_axioms;

    if j == l {
        assert(swapped(s, j, l) =~= s);
    } else {
        let s1 = s.update(j, s[l]);
        assert(s1.to_multiset() == s.to_multiset().insert(s[l]).remove(s[j]));
        assert(s1[l] == s[l]);
        assert(swapped(s, j, l).to_multiset() == s1.to_multiset().insert(s[j]).remove(s[l]));
        assert(s.to_multiset().insert(s[l]).remove(s[j]).insert(s[j]).remove(s[l]) =~= s.to_multiset());
    }
}

/// Exchanging a position with itself leaves the sequence unchanged.
pub proof fn lemma_swapped_self<T>(s: Seq<T>, j: int)
    requires
        0 <= j < s.len(),
    ensures
        swapped(s, j, j) == s,
{
    assert(swapped(s, j, j) =~= s);
}

/// An observer of the permutation engine: called once per generated
/// arrangement, with a read-only view of the engine's working buffer.
///
/// `log` abstracts the observer's state as the sequence of arrangements it
/// has been shown, oldest first; each call appends the current one.
pub trait Observer<T> {
    spec fn log(&self) -> Seq<Seq<T>>;

    fn observe(&mut self, a: &Vec<T>)
        ensures
            final(self).log() == old(self).log().push(a@),
    ;
}

/// Copies a sequence of values out of borrowed storage, so that a caller may
/// retain an arrangement beyond the observer call that handed it out.
pub fn copy_out<T: Copy>(src: &Vec<T>) -> (r: Vec<T>)
    ensures
        r@ == src@,
{
    let mut r: Vec<T> = Vec::new();
    let mut i: usize = 0;
    while i < src.len()
        invariant
            i <= src.len(),
            r@ == src@.take(i as int),
        decreases src.len() - i,
    {
        r.push(src[i]);
        proof {
            assert(r@ =~= src@.take(i as int + 1));
        }
        i = i + 1;
    }
    proof {
        assert(src@.take(src.len() as int) =~= src@);
    }
    r
}

/// An observer that retains every arrangement it is shown, by copying each
/// one out of the engine's working buffer.
pub struct Recorder<T> {
    pub seen: Vec<Vec<T>>,
}

impl<T: Copy> Recorder<T> {
    /// A recorder that has seen nothing yet.
    pub fn new() -> (r: Recorder<T>)
        ensures
            r.log() == Seq::<Seq<T>>::empty(),
    {
        let r = Recorder { seen: Vec::new() };
        proof {
            assert(r.log() =~= Seq::<Seq<T>>::empty());
        }
        r
    }
}

impl<T: Copy> Observer<T> for Recorder<T> {
    open spec fn log(&self) -> Seq<Seq<T>> {
        self.seen@.map_values(|v: Vec<T>| v@)
    }

    fn observe(&mut self, a: &Vec<T>) {
        let kept = copy_out(a);
        self.seen.push(kept);
        proof {
            assert(self.log() =~= old(self).log().push(a@));
        }
    }
}

/// Exchanges the entries of `a` at positions `j` and `l` in place.
fn swap_elems<T: Copy>(a: &mut Vec<T>, j: usize, l: usize)
    requires
        j < old(a).len(),
        l < old(a).len(),
    ensures
        final(a)@ == swapped(old(a)@, j as int, l as int),
        final(a)@.len() == old(a)@.len(),
        final(a)@.to_multiset() == old(a)@.to_multiset(),
{
    let tj = a[j];
    let tl = a[l];
    a[j] = tl;
    a[l] = tj;
    proof {
        lemma_swapped_multiset(old(a)@, j as int, l as int);
    }
}

/// Recursive permutation generation over the first `k` positions of `a`.
///
/// The observer is invoked exactly `k!` times, each time on an arrangement
/// of the entry value of `a` that leaves positions `k` on untouched; the
/// first invocation sees `a` exactly as it was on entry, and when the first
/// `k` elements are pairwise distinct no arrangement is shown twice — so the
/// `k!` arrangements shown are exactly the `k!` orderings, each once.  On
/// return, `a` holds [`exit_state`] of its entry value.  For `k <= 3`
/// consecutive invocations differ by exactly one pairwise swap; from
/// `k == 4` on, the trailing swap of the odd levels can compose with the
/// parent's swap between two invocations.
#[verifier::rlimit(100)]
pub fn permute_inner<T: Copy, O: Observer<T>>(k: usize, a: &mut Vec<T>, inspect: &mut O)
    requires
        1 <= k <= old(a).len(),
    ensures
        final(a)@.len() == old(a)@.len(),
        final(a)@.to_multiset() == old(a)@.to_multiset(),
        forall|j: int| k <= j < old(a)@.len() ==> final(a)@[j] == old(a)@[j],
        final(inspect).log().len() == old(inspect).log().len() + factorial(k as nat),
        forall|i: int|
            0 <= i < old(inspect).log().len() ==> #[trigger] final(inspect).log()[i] == old(
                inspect,
            ).log()[i],
        forall|i: int|
            old(inspect).log().len() <= i < final(inspect).log().len() ==> arrangement_of(
                #[trigger] final(inspect).log()[i],
                old(a)@,
                k as int,
            ),
        final(inspect).log()[old(inspect).log().len() as int] == old(a)@,
        final(inspect).log() == old(inspect).log() + heap_log(old(a)@, k as int),
        final(a)@ == exit_state(old(a)@, k as int),
        distinct_prefix(old(a)@, k as int) ==> forall|i1: int, i2: int|
            #![trigger final(inspect).log()[i1], final(inspect).log()[i2]]
            (old(inspect).log().len() <= i1 < final(inspect).log().len()
                && old(inspect).log().len() <= i2 < final(inspect).log().len()
                && i1 != i2) ==> final(inspect).log()[i1] != final(inspect).log()[i2],
        distinct_prefix(old(a)@, k as int) ==> forall|t: Seq<T>|
            #[trigger] arrangement_of(t, old(a)@, k as int) ==> (exists|i: int|
                old(inspect).log().len() <= i < final(inspect).log().len()
                    && final(inspect).log()[i] == t),
        k <= 2 ==> final(a)@ == final(inspect).log().last(),
        k <= 3 ==> forall|i: int|
            old(inspect).log().len() < i < final(inspect).log().len() ==> differs_by_one_swap(
                final(inspect).log()[i - 1],
                #[trigger] final(inspect).log()[i],
            ),
    decreases k,
{
    let ghost a0 = a@;
    let ghost l0 = inspect.log();
    if k == 1 {
        inspect.observe(&*a);
        proof {
            assert(inspect.log() == l0.push(a0));
            assert(inspect.log()[l0.len() as int] == a0);
            assert(factorial(1) == 1);
            assert(inspect.log() =~= l0 + heap_log(a0, k as int));
        }
    } else {
        let ghost fk1 = factorial((k - 1) as nat);
        proof {
            lemma_factorial_pos((k - 1) as nat);
            assert(block_state(a0, k as int, 0) =~= a0);
            assert(inspect.log() =~= l0 + heap_prefix(a0, k as int, 0));
        }
        let mut i: usize = 0;
        while i < k
            invariant
                2 <= k <= a0.len(),
                i <= k,
                a@.len() == a0.len(),
                a@.to_multiset() == a0.to_multiset(),
                forall|j: int| k <= j < a0.len() ==> a@[j] == a0[j],
                fk1 == factorial((k - 1) as nat),
                fk1 >= 1,
                inspect.log().len() == l0.len() + (i as nat) * fk1,
                forall|idx: int| 0 <= idx < l0.len() ==> #[trigger] inspect.log()[idx] == l0[idx],
                forall|idx: int|
                    l0.len() <= idx < inspect.log().len() ==> arrangement_of(
                        #[trigger] inspect.log()[idx],
                        a0,
                        k as int,
                    ),
                i == 0 ==> a@ == a0,
                i >= 1 ==> inspect.log()[l0.len() as int] == a0,
                a@ == block_state(a0, k as int, i as int),
                inspect.log() == l0 + heap_prefix(a0, k as int, i as int),
                distinct_prefix(a0, k as int) ==> (forall|idx: int|
                    l0.len() <= idx < inspect.log().len() ==> (exists|t: int|
                        0 <= t < i && (#[trigger] inspect.log()[idx])[k - 1] == block_value(
                            a0,
                            k as int,
                            t,
                        ))),
                distinct_prefix(a0, k as int) ==> (forall|i1: int, i2: int|
                    #![trigger inspect.log()[i1], inspect.log()[i2]]
                    l0.len() <= i1 < inspect.log().len() && l0.len() <= i2 < inspect.log().len()
                        && i1 != i2 ==> inspect.log()[i1] != inspect.log()[i2]),
                k <= 3 ==> forall|idx: int|
                    l0.len() < idx < inspect.log().len() ==> differs_by_one_swap(
                        inspect.log()[idx - 1],
                        #[trigger] inspect.log()[idx],
                    ),
                k <= 3 && i >= 1 && !(k == 2 && i == 2) ==> differs_by_one_swap(
                    inspect.log().last(),
                    a@,
                ),
                k == 2 && i == 2 ==> a@ == inspect.log().last(),
            decreases k - i,
        {
            let ghost a_entry = a@;
            let ghost log_entry = inspect.log();
            permute_inner(k - 1, a, inspect);
            proof {
                let log_mid = inspect.log();
                assert(log_mid.len() == log_entry.len() + fk1);
                assert(((i + 1) as nat) * fk1 == (i as nat) * fk1 + fk1) by (nonlinear_arith);
                // The recursion appended exactly its own enumeration log,
                // extending this level's prefix of blocks by one.
                assert(log_mid =~= (l0 + heap_prefix(a0, k as int, i as int)) + heap_log(
                    block_state(a0, k as int, i as int),
                    k as int - 1,
                ));
                assert(log_mid =~= l0 + heap_prefix(a0, k as int, i as int + 1));
                // The entries this recursion added are arrangements of `a0`
                // that leave positions `k` on untouched.
                assert forall|idx: int|
                    l0.len() <= idx < log_mid.len() implies arrangement_of(
                    #[trigger] log_mid[idx],
                    a0,
                    k as int,
                ) by {
                    if idx < log_entry.len() {
                        assert(log_mid[idx] == log_entry[idx]);
                    } else {
                        assert(arrangement_of(log_mid[idx], a_entry, k as int - 1));
                    }
                }
                // The first arrangement of the whole call is the entry value.
                if i == 0 {
                    assert(log_mid[l0.len() as int] == a_entry);
                } else {
                    assert((i as nat) * fk1 >= 1) by (nonlinear_arith)
                        requires
                            i >= 1,
                            fk1 >= 1,
                    ;
                    assert(log_mid[l0.len() as int] == log_entry[l0.len() as int]);
                }
                // Distinctness bookkeeping: every entry so far carries some
                // earlier block's parked element at position k - 1, and the
                // block just enumerated parked a fresh one, so no entry of it
                // can collide with an earlier entry.
                if distinct_prefix(a0, k as int) {
                    lemma_block_state_distinct_prefix(a0, k as int, i as int);
                    assert(distinct_prefix(a_entry, k as int - 1));
                    lemma_distinct_block_extend(
                        log_entry,
                        log_mid,
                        a0,
                        a_entry,
                        l0.len() as int,
                        k as int,
                        i as int,
                    );
                }
                // Consecutive arrangements keep differing by one swap.
                if k <= 3 {
                    assert forall|idx: int|
                        l0.len() < idx < log_mid.len() implies differs_by_one_swap(
                        log_mid[idx - 1],
                        #[trigger] log_mid[idx],
                    ) by {
                        if idx < log_entry.len() {
                            assert(log_mid[idx] == log_entry[idx]);
                            assert(log_mid[idx - 1] == log_entry[idx - 1]);
                        } else if idx == log_entry.len() {
                            assert(log_mid[idx] == a_entry);
                            assert(log_mid[idx - 1] == log_entry[idx - 1]);
                            assert(log_entry[idx - 1] == log_entry.last());
                            assert(differs_by_one_swap(log_entry.last(), a_entry));
                        }
                    }
                }
            }
            let ghost a_mid = a@;
            if k % 2 == 0 {
                swap_elems(a, i, k - 1);
            } else {
                swap_elems(a, 0, k - 1);
            }
            proof {
                // The trailing swap advances the block state by one.
                if k % 2 == 0 {
                    assert(a_mid == block_state(a0, k as int, i as int));
                    lemma_even_step(a0, k as int, i as int);
                    assert(a@ == block_state(a0, k as int, i as int + 1));
                } else {
                    assert(a_mid == rotated(block_state(a0, k as int, i as int), k as int - 1));
                    lemma_odd_step(a0, k as int, i as int);
                    assert(a@ == block_state(a0, k as int, i as int + 1));
                }
                if k <= 3 {
                    // After this level's trailing swap, the working buffer is
                    // one swap away from the arrangement last shown — except
                    // after the final no-op swap of level 2, where it equals it.
                    assert(a_mid == inspect.log().last());
                    if k == 2 {
                        if i == 1 {
                            lemma_swapped_self(a_mid, 1);
                            assert(a@ == a_mid);
                        } else {
                            assert(a@ == swapped(a_mid, 0, 1));
                            assert(differs_by_one_swap(inspect.log().last(), a@));
                        }
                    } else {
                        assert(a@ == swapped(a_mid, 0, 2));
                        assert(differs_by_one_swap(inspect.log().last(), a@));
                    }
                }
            }
            i = i + 1;
        }
        proof {
            assert(factorial(k as nat) == (k as nat) * fk1);
            assert((k as nat) * fk1 == (i as nat) * fk1);
            assert(inspect.log() =~= l0 + heap_log(a0, k as int));
            if k % 2 == 0 {
                assert(even_block_state(a0, k as int, k as int) =~= rotated(a0, k as int));
            } else {
                assert(odd_block_state(a0, k as int, k as int) =~= a0);
            }
        }
    }
    proof {
        // No omissions: every arrangement of a pairwise-distinct prefix
        // stands somewhere in the enumeration log just produced.
        if distinct_prefix(a0, k as int) {
            assert forall|t: Seq<T>| #[trigger] arrangement_of(t, a0, k as int) implies (
            exists|i: int| l0.len() <= i < inspect.log().len() && inspect.log()[i] == t) by {
                lemma_heap_log_complete(a0, k as int, t);
                let hl = heap_log(a0, k as int);
                let idx = choose|idx: int| 0 <= idx < hl.len() && hl[idx] == t;
                assert(inspect.log() == l0 + hl);
                assert(inspect.log()[l0.len() + idx] == t);
            }
        }
    }
}

/// Drives `inspect` through every ordering of `a`, exactly `a.len()!`
/// observer calls in all, the first of them on `a` exactly as given; every
/// arrangement shown has the same length and the same elements as `a`, and
/// when the elements are pairwise distinct no arrangement is shown twice —
/// the `a.len()!` arrangements are exactly the orderings of `a`, each once.
/// The sequence must be non-empty: enumerating the orderings of an empty
/// sequence is a caller error.
pub fn permute<T: Copy, O: Observer<T>>(a: Vec<T>, inspect: &mut O)
    requires
        a.len() >= 1,
    ensures
        final(inspect).log().len() == old(inspect).log().len() + factorial(a.len() as nat),
        forall|i: int|
            0 <= i < old(inspect).log().len() ==> #[trigger] final(inspect).log()[i] == old(
                inspect,
            ).log()[i],
        forall|i: int|
            old(inspect).log().len() <= i < final(inspect).log().len() ==> arrangement_of(
                #[trigger] final(inspect).log()[i],
                a@,
                a.len() as int,
            ),
        final(inspect).log()[old(inspect).log().len() as int] == a@,
        final(inspect).log() == old(inspect).log() + heap_log(a@, a.len() as int),
        distinct_prefix(a@, a.len() as int) ==> forall|i1: int, i2: int|
            #![trigger final(inspect).log()[i1], final(inspect).log()[i2]]
            (old(inspect).log().len() <= i1 < final(inspect).log().len()
                && old(inspect).log().len() <= i2 < final(inspect).log().len()
                && i1 != i2) ==> final(inspect).log()[i1] != final(inspect).log()[i2],
        distinct_prefix(a@, a.len() as int) ==> forall|t: Seq<T>|
            #[trigger] arrangement_of(t, a@, a.len() as int) ==> (exists|i: int|
                old(inspect).log().len() <= i < final(inspect).log().len()
                    && final(inspect).log()[i] == t),
        a.len() <= 3 ==> forall|i: int|
            old(inspect).log().len() < i < final(inspect).log().len() ==> differs_by_one_swap(
                final(inspect).log()[i - 1],
                #[trigger] final(inspect).log()[i],
            ),
{
    let n = a.len();
    let mut work = a;
    permute_inner(n, &mut work, inspect);
}

} // verus!

//! Distance coding over Move-To-Front ranks.

use vstd::prelude::*;
use crate::mtf::{MTF, TOTAL_SYMBOLS, move_to_front, is_first_rank};

verus! {

/// What a model of the distances can know when one is coded.
#[derive(PartialEq, Eq, Structural, Debug, Clone, Copy)]
pub struct Context {
    /// The current symbol.
    pub symbol: u8,
    /// Its last known Move-To-Front rank.
    pub last_rank: u8,
    /// The largest distance possible here.
    pub distance_limit: usize,
}

impl Context {
    /// A context of the given parts.
    pub fn new(s: u8, r: u8, dmax: usize) -> (c: Context)
        ensures
            c == (Context { symbol: s, last_rank: r, distance_limit: dmax }),
    {
        Context { symbol: s, last_rank: r, distance_limit: dmax }
    }
}

/// What can go wrong while decoding distances.
#[derive(PartialEq, Eq, Structural, Debug, Clone, Copy)]
pub enum DcError {
    /// The distances ran out before the block was full.
    UnexpectedEof,
    /// A distance points past the end of the block.
    InvalidDistance,
}

/// `s` occurs in `input` before position `i`.
pub open spec fn seen_before(input: Seq<u8>, s: int, i: int) -> bool {
    exists|j: int| 0 <= j < i && input[j] == s
}

/// The encoder's state after the first `i` symbols: `last[s]` is the last
/// position of `s`, or `n` when unseen; the first `k` ranks hold the seen
/// symbols, most recent first.
pub open spec fn recency(input: Seq<u8>, i: int, last: Seq<usize>, sym: Seq<u8>, k: int) -> bool {
    let n = input.len();
    &&& last.len() == 256
    &&& sym.len() == 256
    &&& 0 <= k <= 256
    &&& forall|s: int| 0 <= s < 256 ==> last[s] <= n
    &&& forall|s: int| 0 <= s < 256 ==> (last[s] < n <==> seen_before(input, s, i))
    &&& forall|s: int| 0 <= s < 256 && last[s] < n ==> last[s] < i && input[last[s] as int] == s
        && forall|j: int| last[s] < j < i ==> input[j] != s
    &&& forall|r: int| 0 <= r < k ==> last[sym[r] as int] < n
    &&& forall|r: int| 0 <= r < k ==> last[sym[r] as int] + r < i
    &&& forall|r: int, q: int| 0 <= r < q < k ==> last[sym[r] as int] > last[sym[q] as int]
    &&& forall|s: int| 0 <= s < 256 && last[s] < n ==> exists|r: int| 0 <= r < k && sym[r] == s
}

/// The next position of the symbol at `p` after `p`, from `q` on, or the
/// block length when it does not occur again.
pub open spec fn next_from(s: Seq<u8>, p: int, q: int) -> int
    decreases s.len() - q,
{
    if q >= s.len() {
        s.len() as int
    } else if s[q] == s[p] {
        q
    } else {
        next_from(s, p, q + 1)
    }
}

/// Symbol `c` occurs strictly between positions `a` and `b`.
pub open spec fn seen_between(s: Seq<u8>, c: int, a: int, b: int) -> bool {
    exists|j: int| a < j < b && 0 <= j < s.len() && s[j] == c
}

/// How many of the symbols `0..m` occur strictly between `a` and `b`.
pub open spec fn distinct_between(s: Seq<u8>, a: int, b: int, m: int) -> nat
    decreases m,
{
    if m <= 0 {
        0
    } else {
        distinct_between(s, a, b, m - 1) + if seen_between(s, m - 1, a, b) { 1nat } else { 0nat }
    }
}

/// The distance coded at position `p`: the gap to the symbol's next
/// occurrence (or to the block's end), less the distinct symbols in the gap.
pub open spec fn dc_distance(s: Seq<u8>, p: int) -> int {
    let q = next_from(s, p, p + 1);
    q - p - 1 - distinct_between(s, p, q, 256)
}

/// How many of the symbols `0..m` stand in the first `r` ranks of `syms`.
spec fn ranked(syms: Seq<u8>, r: int, m: int) -> nat
    decreases m,
{
    if m <= 0 {
        0
    } else {
        ranked(syms, r, m - 1) + if exists|q: int| 0 <= q < r && syms[q] == m - 1 { 1nat } else { 0nat }
    }
}

proof fn lemma_ranked_same(s: Seq<u8>, a: int, b: int, syms: Seq<u8>, r: int, m: int)
    requires
        0 <= m <= 256,
        forall|c: int| 0 <= c < 256 ==> (seen_between(s, c, a, b) <==> exists|q: int| 0 <= q < r && syms[q] == c),
    ensures
        distinct_between(s, a, b, m) == ranked(syms, r, m),
    decreases m,
{
    if m > 0 {
        lemma_ranked_same(s, a, b, syms, r, m - 1);
    }
}

proof fn lemma_ranked_step(syms: Seq<u8>, r: int, m: int)
    requires
        0 <= r < syms.len(),
        forall|q: int| 0 <= q < r ==> syms[q] != syms[r],
        0 <= m,
    ensures
        ranked(syms, r + 1, m) == ranked(syms, r, m) + if syms[r] < m { 1nat } else { 0nat },
    decreases m,
{
    if m > 0 {
        lemma_ranked_step(syms, r, m - 1);
        if syms[r] == m - 1 {
            assert(exists|q: int| 0 <= q < r + 1 && syms[q] == m - 1) by {
                assert(syms[r] == m - 1);
            }
        } else if exists|q: int| 0 <= q < r + 1 && syms[q] == m - 1 {
            let q = choose|q: int| 0 <= q < r + 1 && syms[q] == m - 1;
            assert(q < r);
        }
    }
}

proof fn lemma_ranked_count(syms: Seq<u8>, r: int)
    requires
        0 <= r <= syms.len(),
        forall|q1: int, q2: int| 0 <= q1 < q2 < r ==> syms[q1] != syms[q2],
    ensures
        ranked(syms, r, 256) == r,
    decreases r,
{
    if r == 0 {
        lemma_ranked_zero(syms, 256);
    } else {
        lemma_ranked_count(syms, r - 1);
        lemma_ranked_step(syms, r - 1, 256);
    }
}

proof fn lemma_ranked_zero(syms: Seq<u8>, m: int)
    requires
        0 <= m,
    ensures
        ranked(syms, 0, m) == 0,
    decreases m,
{
    if m > 0 {
        lemma_ranked_zero(syms, m - 1);
    }
}

/// The symbols in the first `r` ranks are those seen between the last
/// position of the one at rank `r` and `i`; so `r` counts them.
proof fn lemma_rank_counts(input: Seq<u8>, i: int, last: Seq<usize>, syms: Seq<u8>, k: int, r: int)
    requires
        recency(input, i, last, syms, k),
        0 <= r < k,
        i <= input.len(),
    ensures
        r == distinct_between(input, last[syms[r] as int] as int, i, 256),
{
    let base = last[syms[r] as int] as int;
    let n = input.len() as int;
    assert forall|c: int| 0 <= c < 256 implies (seen_between(input, c, base, i) <==> exists|q: int|
        0 <= q < r && syms[q] == c) by {
        if seen_between(input, c, base, i) {
            let j = choose|j: int| base < j < i && 0 <= j < input.len() && input[j] == c;
            assert(seen_before(input, c, i));
            assert(last[c] < n);
            assert(last[c] >= j);
            let q = choose|q: int| 0 <= q < k && syms[q] == c;
            if q >= r {
                if q == r {
                } else {
                    assert(last[syms[r] as int] > last[syms[q] as int]);
                }
            }
        }
        if exists|q: int| 0 <= q < r && syms[q] == c {
            let q = choose|q: int| 0 <= q < r && syms[q] == c;
            assert(last[syms[q] as int] > last[syms[r] as int]);
            let j = last[c] as int;
            assert(base < j < i && input[j] == c);
        }
    }
    lemma_ranked_same(input, base, i, syms, r, 256);
    assert forall|q1: int, q2: int| 0 <= q1 < q2 < r implies syms[q1] != syms[q2] by {
        assert(last[syms[q1] as int] > last[syms[q2] as int]);
    }
    lemma_ranked_count(syms, r);
}

/// No position strictly between `p` and `q` holds the symbol at `p`, and
/// `q` does (or is the end): `q` is the next occurrence.
proof fn lemma_next_from(s: Seq<u8>, p: int, q: int, t: int)
    requires
        0 <= p < t <= q <= s.len(),
        q == s.len() || s[q] == s[p],
        forall|j: int| p < j < q ==> s[j] != s[p],
    ensures
        next_from(s, p, t) == q,
    decreases q - t,
{
    if t < q {
        lemma_next_from(s, p, q, t + 1);
    }
}

/// How many of the symbols `0..m` have been seen, by the table `last`.
pub open spec fn nseen(last: Seq<usize>, n: int, m: int) -> nat
    decreases m,
{
    if m <= 0 {
        0
    } else {
        nseen(last, n, m - 1) + if last[m - 1] < n { 1nat } else { 0nat }
    }
}

proof fn lemma_nseen_update(last: Seq<usize>, n: int, m: int, s: int, v: usize)
    requires
        0 <= s < last.len(),
        m <= last.len(),
    ensures
        nseen(last.update(s, v), n, m) + (if 0 <= s < m && last[s] < n { 1int } else { 0int }) == nseen(last, n, m)
            + (if 0 <= s < m && v < n { 1int } else { 0int }),
    decreases m,
{
    if m > 0 {
        lemma_nseen_update(last, n, m - 1, s, v);
    }
}

proof fn lemma_nseen_bound(last: Seq<usize>, n: int, m: int, s: int)
    requires
        0 <= m,
        0 <= s < m,
        s < last.len(),
        m <= last.len(),
        last[s] >= n,
    ensures
        nseen(last, n, m) < m,
    decreases m,
{
    if m - 1 > s {
        lemma_nseen_bound(last, n, m - 1, s);
    } else {
        lemma_nseen_le(last, n, m - 1);
    }
}

proof fn lemma_nseen_le(last: Seq<usize>, n: int, m: int)
    requires
        0 <= m,
    ensures
        nseen(last, n, m) <= m,
    decreases m,
{
    if m > 0 {
        lemma_nseen_le(last, n, m - 1);
    }
}

/// Position `p`'s slot needs no distance: the next symbol repeats it.
pub open spec fn skipped_slot(input: Seq<u8>, p: int) -> bool {
    p + 1 < input.len() && input[p + 1] == input[p]
}

/// The first position of `s` in `input`, or `input.len()` when absent.
pub open spec fn is_first_pos(input: Seq<u8>, s: int, v: int) -> bool {
    if v < input.len() {
        0 <= v && input[v] == s && !seen_before(input, s, v)
    } else {
        v == input.len() && !seen_before(input, s, input.len() as int)
    }
}

/// Distance-codes `input`. Fills `distances` with one entry per position:
/// the distance coded at the symbol's occurrence there, or `n` (the block
/// length) where the next symbol repeats it and nothing is coded. Gives the
/// first position of each symbol, `n` for absent ones. `mtf` is scratch
/// space.
pub fn encode(input: &[u8], distances: &mut Vec<usize>, mtf: &mut MTF) -> (init: [usize; 256])
    ensures
        final(distances)@.len() == input@.len(),
        forall|p: int| 0 <= p < input@.len() ==> final(distances)@[p] <= input@.len(),
        forall|p: int|
            0 <= p < input@.len() ==> (final(distances)@[p] == input@.len() <==> skipped_slot(input@, p)),
        forall|s: int| 0 <= s < 256 ==> is_first_pos(input@, s, init@[s] as int),
        forall|p: int|
            0 <= p < input@.len() && !skipped_slot(input@, p) ==> final(distances)@[p] == dc_distance(input@, p),
{
    let n = input.len();
    distances.clear();
    let mut num_unique: usize = 0;
    let mut last: [usize; 256] = [n; 256];
    let mut init: [usize; 256] = [n; 256];
    let mut i: usize = 0;
    proof {
        assert forall|s: int| 0 <= s < 256 implies nseen(last@, n as int, s) == 0 by {
            lemma_nseen_zero(last@, n as int, s);
        }
        lemma_nseen_zero(last@, n as int, 256);
    }
    while i < n
        invariant
            i <= n == input@.len(),
            recency(input@, i as int, last@, mtf.symbols@, num_unique as int),
            num_unique == nseen(last@, n as int, 256),
            i > 0 ==> num_unique > 0 && mtf.symbols@[0] == input@[i - 1],
            distances@.len() == i,
            forall|p: int| 0 <= p < i ==> distances@[p] <= n,
            forall|p: int| 0 <= p < i && distances@[p] != n ==> distances@[p] == dc_distance(input@, p),
            forall|p: int|
                0 <= p < i ==> (distances@[p] != n <==> (p + 1 < i && input@[p + 1] != input@[p]
                    && last@[input@[p] as int] != p)),
            forall|s: int| 0 <= s < 256 ==> (if init@[s] < n {
                init@[s] < i && input@[init@[s] as int] == s && !seen_before(input@, s, init@[s] as int)
            } else {
                init@[s] == n && !seen_before(input@, s, i as int)
            }),
        decreases n - i,
    {
        let sym = input[i];
        let base = last[sym as usize];
        distances.push(n);
        let ghost last0 = last@;
        let ghost syms0 = mtf.symbols@;
        let ghost k0 = num_unique as int;
        if base == n {
            proof {
                lemma_nseen_bound(last0, n as int, 256, sym as int);
            }
            mtf.symbols[num_unique] = sym;
            proof {
                assert forall|r: int| 0 <= r < k0 implies mtf.symbols@[r] != sym by {
                    if mtf.symbols@[r] == sym {
                        assert(last0[syms0[r] as int] < n);
                    }
                }
                assert(mtf.symbols@[k0] == sym);
            }
            let ghost syms1 = mtf.symbols@;
            let r = mtf.encode(sym);
            proof {
                if (r as int) < k0 {
                    assert(syms1[r as int] != sym);
                } else if (r as int) > k0 {
                    assert(syms1[k0] == sym);
                }
                assert(r as int == k0);
            }
            init[sym as usize] = i;
            num_unique = num_unique + 1;
        } else {
            assert(last0[sym as int] < n);
            let ghost r0 = choose|r: int| 0 <= r < k0 && syms0[r] == sym;
            assert(syms0[r0] == sym);
            assert(mtf.symbols@.contains(sym));
            let rank = mtf.encode(sym) as usize;
            proof {
                if rank as int > r0 {
                    assert(syms0[r0] == sym);
                }
                assert(last0[syms0[rank as int] as int] + rank < i);
            }
            if rank > 0 {
                proof {
                    lemma_rank_counts(input@, i as int, last0, syms0, k0, rank as int);
                    lemma_next_from(input@, base as int, i as int, base + 1);
                }
                distances.set(base, i - base - rank - 1);
            }
        }
        last[sym as usize] = i;
        proof {
            lemma_nseen_update(last0, n as int, 256, sym as int, i);
            lemma_recency_step(input@, i as int, last0, syms0, k0, sym, last@, mtf.symbols@, num_unique as int);
        }
        i = i + 1;
    }
    let ghost scan = distances@;
    let mut r: usize = 0;
    while r < num_unique
        invariant
            i == n == input@.len(),
            recency(input@, n as int, last@, mtf.symbols@, num_unique as int),
            r <= num_unique,
            distances@.len() == n,
            forall|p: int| 0 <= p < n ==> distances@[p] <= n,
            forall|p: int| 0 <= p < n && distances@[p] != n ==> distances@[p] == dc_distance(input@, p),
            forall|p: int|
                0 <= p < n ==> (distances@[p] != n <==> ((p + 1 < n && input@[p + 1] != input@[p]
                    && last@[input@[p] as int] != p) || exists|q: int| 0 <= q < r && last@[mtf.symbols@[q] as int] == p)),
        decreases num_unique - r,
    {
        let sym = mtf.symbols[r];
        let base = last[sym as usize];
        proof {
            lemma_rank_counts(input@, n as int, last@, mtf.symbols@, num_unique as int, r as int);
            assert(input@[base as int] == sym);
            lemma_next_from(input@, base as int, n as int, base + 1);
        }
        distances.set(base, n - base - r - 1);
        r = r + 1;
    }
    proof {
        assert forall|p: int| 0 <= p < n implies (distances@[p] == n <==> skipped_slot(input@, p)) by {
            let s = input@[p] as int;
            if last@[s] == p {
                let q = choose|q: int| 0 <= q < num_unique && mtf.symbols@[q] == s;
                assert(last@[mtf.symbols@[q] as int] == p);
            } else {
                assert(seen_before(input@, s, p + 1));
                if exists|q: int| 0 <= q < num_unique && last@[mtf.symbols@[q] as int] == p {
                    let q = choose|q: int| 0 <= q < num_unique && last@[mtf.symbols@[q] as int] == p;
                    assert(input@[p] == mtf.symbols@[q]);
                }
            }
        }
        assert forall|s: int| 0 <= s < 256 implies is_first_pos(input@, s, init@[s] as int) by {
        }
    }
    init
}

proof fn lemma_nseen_zero(last: Seq<usize>, n: int, m: int)
    requires
        0 <= m <= last.len(),
        forall|s: int| 0 <= s < last.len() ==> last[s] >= n,
    ensures
        nseen(last, n, m) == 0,
    decreases m,
{
    if m > 0 {
        lemma_nseen_zero(last, n, m - 1);
    }
}

proof fn lemma_recency_step(
    input: Seq<u8>,
    i: int,
    last0: Seq<usize>,
    syms0: Seq<u8>,
    k0: int,
    sym: u8,
    last1: Seq<usize>,
    syms1: Seq<u8>,
    k1: int,
)
    requires
        0 <= i < input.len() <= usize::MAX,
        recency(input, i, last0, syms0, k0),
        k0 == nseen(last0, input.len() as int, 256),
        sym == input[i],
        last1 == last0.update(sym as int, i as usize),
        last0[sym as int] == input.len() ==> k1 == k0 + 1 && syms1 == move_to_front(syms0.update(k0, sym), k0),
        last0[sym as int] < input.len() ==> k1 == k0 && exists|r: int|
            #[trigger] is_first_rank(syms0, sym, r) && r < k0 && syms1 == move_to_front(syms0, r),
    ensures
        recency(input, i + 1, last1, syms1, k1),
        syms1[0] == sym,
        k1 > 0,
{
    let n = input.len() as int;
    assert forall|s: int| 0 <= s < 256 implies (last1[s] < n <==> seen_before(input, s, i + 1)) by {
        if s == sym {
            assert(input[i] == s);
        } else if seen_before(input, s, i + 1) {
            let j = choose|j: int| 0 <= j < i + 1 && input[j] == s;
            assert(j < i);
            assert(seen_before(input, s, i));
        }
    }
    if last0[sym as int] == n {
        let pre = syms0.update(k0, sym);
        lemma_nseen_bound(last0, n, 256, sym as int);
        assert forall|q: int| 0 < q <= k0 implies syms1[q] == syms0[q - 1] && syms0[q - 1] != sym by {
            assert(syms1[q] == pre.take(k0)[q - 1]);
            assert(last0[syms0[q - 1] as int] < n);
        }
        assert forall|q: int| k0 < q < 256 implies syms1[q] == syms0[q] by {
            assert(syms1[q] == pre.skip(k0 + 1)[q - k0 - 1]);
        }
        assert(syms1[0] == sym);
        assert forall|r: int| 0 <= r < k1 implies last1[syms1[r] as int] < n && last1[syms1[r] as int] + r < i + 1 by {
            if r > 0 {
                assert(syms1[r] == syms0[r - 1]);
                assert(syms0[r - 1] != sym);
            }
        }
        assert forall|r: int, q: int| 0 <= r < q < k1 implies last1[syms1[r] as int] > last1[syms1[q] as int] by {
            assert(syms1[q] == syms0[q - 1]);
            assert(syms0[q - 1] != sym);
            if r > 0 {
                assert(syms1[r] == syms0[r - 1]);
                assert(syms0[r - 1] != sym);
            }
        }
        assert forall|s: int| 0 <= s < 256 && last1[s] < n implies exists|r: int| 0 <= r < k1 && syms1[r] == s by {
            if s == sym {
                assert(syms1[0] == s);
            } else {
                let r = choose|r: int| 0 <= r < k0 && syms0[r] == s;
                assert(syms1[r + 1] == s);
            }
        }
    } else {
        let r = choose|r: int| #[trigger] is_first_rank(syms0, sym, r) && r < k0 && syms1 == move_to_front(syms0, r);
        assert forall|q: int| 0 <= q < k1 implies last1[syms1[q] as int] < n && last1[syms1[q] as int] + q < i + 1 by {
            if 0 < q <= r {
                assert(syms1[q] == syms0[q - 1]);
                assert(syms0[q - 1] != sym);
            } else if q > r {
                assert(syms1[q] == syms0[q]);
                assert(syms0[q] != sym) by {
                    if syms0[q] == sym {
                        assert(last0[syms0[r] as int] > last0[syms0[q] as int]);
                    }
                }
            }
        }
        assert forall|q: int| 0 < q < k1 implies syms1[q] != sym && syms1[q] == syms0[if q <= r { q - 1 } else { q }] by {
            if q <= r {
                assert(syms1[q] == syms0[q - 1]);
            } else {
                assert(syms1[q] == syms0[q]);
                if syms0[q] == sym {
                    assert(last0[syms0[r] as int] > last0[syms0[q] as int]);
                }
            }
        }
        assert forall|a: int, b: int| 0 <= a < b < k1 implies last1[syms1[a] as int] > last1[syms1[b] as int] by {
            let b1 = if b <= r { b - 1 } else { b };
            assert(syms1[b] == syms0[b1]);
            assert(syms1[b] != sym);
            assert(last1[syms1[b] as int] == last0[syms1[b] as int]);
            assert(syms1[0] == sym);
            assert(last1[sym as int] == i);
            assert(last0[syms0[b1] as int] < i);
            if a > 0 {
                let a1 = if a <= r { a - 1 } else { a };
                assert(syms1[a] == syms0[a1]);
                assert(a1 < b1);
                assert(last0[syms0[a1] as int] > last0[syms0[b1] as int]);
            }
        }
        assert forall|s: int| 0 <= s < 256 && last1[s] < n implies exists|q: int| 0 <= q < k1 && syms1[q] == s by {
            if s == sym {
                assert(syms1[0] == s);
            } else {
                let q = choose|q: int| 0 <= q < k0 && syms0[q] == s;
                if q < r {
                    assert(syms1[q + 1] == s);
                } else {
                    assert(q != r);
                    assert(syms1[q] == s);
                }
            }
        }
    }
    assert forall|s: int| 0 <= s < 256 && last1[s] < n implies last1[s] < i + 1 && input[last1[s] as int] == s
        && forall|j: int| last1[s] < j < i + 1 ==> input[j] != s by {
        if s != sym {
            assert(last1[s] == last0[s]);
            assert(last0[s] < n);
            assert forall|j: int| last1[s] < j < i + 1 implies input[j] != s by {
                if j < i {
                } else {
                    assert(input[j] == sym);
                }
            }
        } else {
            assert(last1[s] == i);
        }
    }
}

/// The entries of `d` other than `n`, in order.
pub open spec fn coded(d: Seq<usize>, n: usize) -> Seq<usize>
    decreases d.len(),
{
    if d.len() == 0 {
        seq![]
    } else {
        coded(d.drop_last(), n) + if d.last() == n { seq![] } else { seq![d.last()] }
    }
}

/// Distance-codes `input` into one stream: the 256 first positions, then
/// the coded distances in input order.
pub fn encode_simple(input: &[u8]) -> (r: Vec<usize>)
    ensures
        r@.len() >= 256,
        forall|s: int| 0 <= s < 256 ==> is_first_pos(input@, s, r@[s] as int),
        exists|d: Seq<usize>|
            {
                &&& d.len() == input@.len()
                &&& forall|p: int| 0 <= p < d.len() ==> (d[p] == input@.len() <==> skipped_slot(input@, p))
                &&& forall|p: int| 0 <= p < d.len() && !skipped_slot(input@, p) ==> d[p] == dc_distance(input@, p)
                &&& r@.skip(256) == #[trigger] coded(d, input@.len() as usize)
            },
{
    let n = input.len();
    let mut raw: Vec<usize> = Vec::new();
    let mut mtf = MTF::new();
    let init = encode(input, &mut raw, &mut mtf);
    assert(forall|p: int| 0 <= p < raw@.len() ==> (raw@[p] == input@.len() <==> skipped_slot(input@, p)));
    assert(forall|p: int| 0 <= p < raw@.len() && !skipped_slot(input@, p) ==> raw@[p] == dc_distance(input@, p));
    let mut out: Vec<usize> = Vec::new();
    let mut s: usize = 0;
    while s < TOTAL_SYMBOLS
        invariant
            s <= 256,
            out@ == init@.take(s as int),
        decreases 256 - s,
    {
        out.push(init[s]);
        proof {
            assert(init@.take(s as int + 1) =~= init@.take(s as int).push(init@[s as int]));
        }
        s = s + 1;
    }
    let mut p: usize = 0;
    while p < n
        invariant
            p <= n == raw@.len(),
            out@.len() >= 256,
            out@.take(256) == init@,
            out@.skip(256) == coded(raw@.take(p as int), n),
        decreases n - p,
    {
        let ghost before = out@;
        if raw[p] != n {
            out.push(raw[p]);
        }
        proof {
            assert(raw@.take(p as int + 1).drop_last() =~= raw@.take(p as int));
            assert(out@.take(256) =~= before.take(256));
            assert(out@.skip(256) =~= before.skip(256) + if raw@[p as int] == n { seq![] } else { seq![raw@[p as int]] });
        }
        p = p + 1;
    }
    proof {
        assert(raw@.take(n as int) =~= raw@);
        assert forall|s: int| 0 <= s < 256 implies out@[s] == init@[s] by {
            assert(out@.take(256)[s] == out@[s]);
        }
        assert(out@.skip(256) == coded(raw@, input@.len() as usize));
        assert(raw@.len() == input@.len());
        assert(forall|p: int| 0 <= p < raw@.len() ==> (raw@[p] == input@.len() <==> skipped_slot(input@, p)));
        assert(forall|p: int| 0 <= p < raw@.len() && !skipped_slot(input@, p) ==> raw@[p] == dc_distance(input@, p));
    }
    out
}

/// Inserts `sym`, whose next position is `d`, into the first `j + 1`
/// ranks of `mtf`, kept in increasing order of next position.
pub open spec fn dc_insert(mtf: Seq<u8>, next: Seq<usize>, j: int, d: usize, sym: u8) -> Seq<u8>
    decreases j,
{
    if j > 0 && next[mtf[j - 1] as int] > d {
        dc_insert(mtf.update(j, mtf[j - 1]), next, j - 1, d, sym)
    } else {
        mtf.update(j, sym)
    }
}

/// Ranks the symbols from `sym` on that occur in a block of `n` (their next
/// position is below `n`) after the `live` already ranked, by next position.
pub open spec fn dc_sort(next: Seq<usize>, n: int, mtf: Seq<u8>, sym: int, live: int) -> (Seq<u8>, int)
    decreases 256 - sym,
{
    if sym >= 256 {
        (mtf, live)
    } else if next[sym] < n {
        dc_sort(next, n, dc_insert(mtf, next, live, next[sym], sym as u8), sym + 1, live + 1)
    } else {
        dc_sort(next, n, mtf, sym + 1, live)
    }
}

/// Moves the front symbol, whose future position is `future`, past the
/// ranks from `rank` on whose symbols occur before it; gives the ranks and
/// the rank where it lands, plus one.
pub open spec fn dc_shift(mtf: Seq<u8>, next: Seq<usize>, rank: int, future: int, asz: int) -> (Seq<u8>, int)
    decreases asz - rank,
{
    if rank < asz && future + rank > next[mtf[rank] as int] {
        dc_shift(mtf.update(rank - 1, mtf[rank]), next, rank + 1, future, asz)
    } else {
        (mtf, rank)
    }
}

/// `out` with positions `i..stop` set to `s`.
pub open spec fn dc_fill(out: Seq<u8>, i: int, stop: int, s: u8) -> Seq<u8> {
    Seq::new(out.len(), |k: int| if i <= k < stop { s } else { out[k] })
}

/// The main decoding loop from output position `i`, with `used` distances
/// consumed: fill up to the next symbol's position with the front symbol,
/// read its distance, re-rank it by its future position.
pub open spec fn dc_main(
    next: Seq<usize>,
    mtf: Seq<u8>,
    out: Seq<u8>,
    i: int,
    used: int,
    dist: Seq<usize>,
    asz: int,
) -> Result<(Seq<u8>, int), DcError>
    decreases dist.len() - used,
{
    let n = out.len() as int;
    if i >= n {
        Ok((out, used))
    } else {
        let s0 = mtf[0];
        let stop = next[mtf[1] as int] as int;
        if stop > n {
            Err(DcError::InvalidDistance)
        } else if used >= dist.len() || used < 0 {
            Err(DcError::UnexpectedEof)
        } else {
            let d = dist[used] as int;
            if d > n - stop {
                Err(DcError::InvalidDistance)
            } else {
                let future = stop + d;
                let (m1, rank) = dc_shift(mtf, next, 1, future, asz);
                dc_main(
                    next.update(s0 as int, (future + rank - 1) as usize),
                    m1.update(rank - 1, s0),
                    dc_fill(out, i, stop, s0),
                    if i < stop { stop } else { i },
                    used + 1,
                    dist,
                    asz,
                )
            }
        }
    }
}

/// What decoding a block of `out.len()` symbols gives, from the first
/// positions `next`, the distances `dist` and the scratch ranks `mtf`: the
/// decoded block and the number of distances used.
pub open spec fn dc_decode(next: Seq<usize>, mtf: Seq<u8>, out: Seq<u8>, dist: Seq<usize>) -> Result<
    (Seq<u8>, int),
    DcError,
> {
    let n = out.len() as int;
    let (m1, live) = dc_sort(next, n, mtf, 0, 0);
    if live <= 1 {
        Ok((Seq::new(out.len(), |k: int| m1[0]), 0))
    } else {
        dc_main(next, m1, out, 0, 0, dist, live)
    }
}

/// Decodes a block of `output.len()` symbols from the first positions
/// `next` and the distances `dist`, using `mtf` as scratch space. Gives the
/// number of distances used. Fails with `UnexpectedEof` when the distances
/// run out and with `InvalidDistance` when one points past the block.
pub fn decode(next: [usize; 256], output: &mut Vec<u8>, mtf: &mut MTF, dist: &[usize]) -> (r: Result<usize, DcError>)
    requires
        old(output)@.len() < usize::MAX - 512,
    ensures
        final(output)@.len() == old(output)@.len(),
        (match dc_decode(next@, old(mtf).symbols@, old(output)@, dist@) {
            Ok((o, k)) => r == Ok::<usize, DcError>(k as usize) && final(output)@ == o,
            Err(e) => r == Err::<usize, DcError>(e),
        }),
{
    let ghost next0 = next@;
    let mut nx = next;
    let n = output.len();
    let mut live: usize = 0;
    let mut sym: usize = 0;
    while sym < TOTAL_SYMBOLS
        invariant
            sym <= 256,
            live <= sym,
            n == output@.len(),
            output@ == old(output)@,
            nx@ == next0,
            dc_sort(nx@, n as int, mtf.symbols@, sym as int, live as int) == dc_sort(
                nx@,
                n as int,
                old(mtf).symbols@,
                0,
                0,
            ),
        decreases 256 - sym,
    {
        let d = nx[sym];
        if d < n {
            let ghost m0 = mtf.symbols@;
            let mut j: usize = live;
            while j > 0 && nx[mtf.symbols[j - 1] as usize] > d
                invariant
                    j <= live < 256,
                    dc_insert(mtf.symbols@, nx@, j as int, d, sym as u8) == dc_insert(m0, nx@, live as int, d, sym as u8),
                decreases j,
            {
                mtf.symbols[j] = mtf.symbols[j - 1];
                j = j - 1;
            }
            mtf.symbols[j] = sym as u8;
            live = live + 1;
        }
        sym = sym + 1;
    }
    if live <= 1 {
        let s0 = mtf.symbols[0];
        let mut k: usize = 0;
        while k < n
            invariant
                k <= n == output@.len(),
                output@.len() == old(output)@.len(),
                forall|q: int| 0 <= q < k ==> output@[q] == s0,
            decreases n - k,
        {
            output.set(k, s0);
            k = k + 1;
        }
        assert(output@ =~= Seq::new(old(output)@.len(), |q: int| s0));
        return Ok(0);
    }
    let alphabet_size = live;
    let ghost target = dc_main(nx@, mtf.symbols@, output@, 0, 0, dist@, alphabet_size as int);
    assert(target == dc_decode(next0, old(mtf).symbols@, old(output)@, dist@));
    let mut i: usize = 0;
    let mut used: usize = 0;
    while i < n
        invariant
            i <= n == output@.len(),
            output@.len() == old(output)@.len() < usize::MAX - 512,
            2 <= alphabet_size <= 256,
            used <= dist@.len(),
            dc_main(nx@, mtf.symbols@, output@, i as int, used as int, dist@, alphabet_size as int) == target,
            target == dc_decode(next0, old(mtf).symbols@, old(output)@, dist@),
            next0 == next@,
        decreases dist@.len() - used,
    {
        let ghost nx0 = nx@;
        let ghost m0 = mtf.symbols@;
        let ghost o0 = output@;
        let ghost i0 = i as int;
        let ghost u0 = used as int;
        let s0 = mtf.symbols[0];
        let stop = nx[mtf.symbols[1] as usize];
        if stop > n {
            assert(dc_main(nx0, m0, o0, i0, u0, dist@, alphabet_size as int) == Err::<(Seq<u8>, int), DcError>(
                DcError::InvalidDistance,
            ));
            assert(target == Err::<(Seq<u8>, int), DcError>(DcError::InvalidDistance));
            return Err(DcError::InvalidDistance);
        }
        while i < stop
            invariant
                i0 <= i <= n,
                i0 < stop || i == i0,
                i <= stop || i == i0,
                stop <= n == output@.len(),
                output@.len() == old(output)@.len(),
                output@ == dc_fill(o0, i0, i as int, s0),
            decreases stop - i,
        {
            output.set(i, s0);
            proof {
                assert(output@ =~= dc_fill(o0, i0, i as int + 1, s0));
            }
            i = i + 1;
        }
        assert(output@ =~= dc_fill(o0, i0, stop as int, s0));
        if used >= dist.len() {
            return Err(DcError::UnexpectedEof);
        }
        let d = dist[used];
        used = used + 1;
        if d > n - stop {
            assert(dc_main(nx0, m0, o0, i0, u0, dist@, alphabet_size as int) == Err::<(Seq<u8>, int), DcError>(
                DcError::InvalidDistance,
            ));
            assert(target == Err::<(Seq<u8>, int), DcError>(DcError::InvalidDistance));
            return Err(DcError::InvalidDistance);
        }
        let future = stop + d;
        let mut rank: usize = 1;
        while rank < alphabet_size && future + rank > nx[mtf.symbols[rank] as usize]
            invariant
                1 <= rank <= alphabet_size <= 256,
                future <= n < usize::MAX - 512,
                nx@ == nx0,
                dc_shift(mtf.symbols@, nx@, rank as int, future as int, alphabet_size as int) == dc_shift(
                    m0,
                    nx0,
                    1,
                    future as int,
                    alphabet_size as int,
                ),
            decreases alphabet_size - rank,
        {
            mtf.symbols[rank - 1] = mtf.symbols[rank];
            rank = rank + 1;
        }
        mtf.symbols[rank - 1] = s0;
        nx[s0 as usize] = future + rank - 1;
    }
    Ok(used)
}

/// Decodes a stream made by `encode_simple` into `n` symbols.
pub fn decode_simple(n: usize, distances: &[usize]) -> (r: Result<Vec<u8>, DcError>)
    ensures
        distances@.len() < 256 ==> r == Err::<Vec<u8>, DcError>(DcError::UnexpectedEof),
        r matches Ok(v) ==> v@.len() == n,
        distances@.len() >= 256 && n < usize::MAX - 512 ==> (match dc_decode(
            distances@.take(256),
            Seq::new(256, |i: int| 0u8),
            Seq::new(n as nat, |i: int| 0u8),
            distances@.skip(256),
        ) {
            Ok((o, _)) => r matches Ok(v) && v@ == o,
            Err(e) => r == Err::<Vec<u8>, DcError>(e),
        }),
{
    if distances.len() < TOTAL_SYMBOLS {
        return Err(DcError::UnexpectedEof);
    }
    let mut init: [usize; 256] = [0usize; 256];
    let mut s: usize = 0;
    while s < TOTAL_SYMBOLS
        invariant
            s <= 256 <= distances@.len(),
            forall|j: int| 0 <= j < s ==> init@[j] == distances@[j],
        decreases 256 - s,
    {
        init[s] = distances[s];
        s = s + 1;
    }
    assert(init@ =~= distances@.take(256));
    let mut rest: Vec<usize> = Vec::new();
    let mut k: usize = TOTAL_SYMBOLS;
    while k < distances.len()
        invariant
            256 <= k <= distances@.len(),
            rest@ == distances@.subrange(256, k as int),
        decreases distances.len() - k,
    {
        rest.push(distances[k]);
        proof {
            assert(distances@.subrange(256, k as int + 1) =~= distances@.subrange(256, k as int).push(distances@[k as int]));
        }
        k = k + 1;
    }
    assert(rest@ =~= distances@.skip(256));
    if n >= usize::MAX - 512 {
        return Err(DcError::InvalidDistance);
    }
    let mut output: Vec<u8> = vec![0u8; n];
    let mut mtf = MTF::new();
    assert(output@ =~= Seq::new(n as nat, |i: int| 0u8));
    decode(init, &mut output, &mut mtf, rest.as_slice())?;
    Ok(output)
}

} // verus!

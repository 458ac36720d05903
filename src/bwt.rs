//! Burrows-Wheeler transform: radix table, suffix sorting, forward and
//! inverse transforms.

use vstd::prelude::*;
use crate::lz4::{read_u32_le, write_u32_le};

verus! {

/// The number of distinct symbols.
pub const ALPHABET_SIZE: usize = 256;

/// How many times `c` occurs in `s`.
pub open spec fn count_of(s: Seq<u8>, c: int) -> nat
    decreases s.len(),
{
    if s.len() == 0 {
        0
    } else {
        count_of(s.drop_last(), c) + if s.last() == c { 1nat } else { 0nat }
    }
}

/// How many symbols of `s` are smaller than `c`.
pub open spec fn below(s: Seq<u8>, c: int) -> nat
    decreases c,
{
    if c <= 0 {
        0
    } else {
        below(s, c - 1) + count_of(s, c - 1)
    }
}

/// The sum of the first `k` entries of `f`.
pub open spec fn prefix_sum(f: Seq<usize>, k: int) -> int
    decreases k,
{
    if k <= 0 {
        0
    } else {
        prefix_sum(f, k - 1) + f[k - 1]
    }
}

proof fn lemma_count_take_step(s: Seq<u8>, i: int, c: int)
    requires
        0 <= i < s.len(),
    ensures
        count_of(s.take(i + 1), c) == count_of(s.take(i), c) + if s[i] == c { 1nat } else { 0nat },
{
    assert(s.take(i + 1).drop_last() =~= s.take(i));
}

proof fn lemma_count_prefix_le(s: Seq<u8>, i: int, c: int)
    requires
        0 <= i <= s.len(),
    ensures
        count_of(s.take(i), c) <= count_of(s, c),
    decreases s.len() - i,
{
    if i < s.len() {
        lemma_count_take_step(s, i, c);
        lemma_count_prefix_le(s, i + 1, c);
    } else {
        assert(s.take(i) =~= s);
    }
}

proof fn lemma_below_empty(s: Seq<u8>, c: int)
    requires
        s.len() == 0,
    ensures
        below(s, c) == 0,
    decreases c,
{
    if c > 0 {
        lemma_below_empty(s, c - 1);
    }
}

proof fn lemma_below_push(s: Seq<u8>, x: u8, c: int)
    ensures
        below(s.push(x), c) == below(s, c) + if x < c { 1nat } else { 0nat },
    decreases c,
{
    if c > 0 {
        lemma_below_push(s, x, c - 1);
        assert(s.push(x).drop_last() =~= s);
    }
}

/// All symbols are below 256.
proof fn lemma_below_all(s: Seq<u8>)
    ensures
        below(s, 256) == s.len(),
    decreases s.len(),
{
    if s.len() == 0 {
        lemma_below_empty(s, 256);
    } else {
        lemma_below_all(s.drop_last());
        assert(s.drop_last().push(s.last()) =~= s);
        lemma_below_push(s.drop_last(), s.last(), 256);
    }
}

proof fn lemma_below_mono(s: Seq<u8>, a: int, b: int)
    requires
        a <= b,
    ensures
        below(s, a) <= below(s, b),
    decreases b - a,
{
    if a < b {
        lemma_below_mono(s, a, b - 1);
    }
}

/// Radix sorting table: a count, then an offset, per symbol.
pub struct Radix {
    /// Frequencies or offsets, one per symbol plus one past the last.
    pub freq: [usize; 257],
}

impl Radix {
    /// A table of zeros.
    pub fn new() -> (r: Radix)
        ensures
            forall|i: int| 0 <= i < 257 ==> r.freq@[i] == 0,
    {
        Radix { freq: [0usize; 257] }
    }

    /// Sets every entry to zero, so that the table can be reused.
    pub fn reset(&mut self)
        ensures
            forall|i: int| 0 <= i < 257 ==> final(self).freq@[i] == 0,
    {
        let mut i: usize = 0;
        while i < 257
            invariant
                0 <= i <= 257,
                forall|j: int| 0 <= j < i ==> self.freq@[j] == 0,
            decreases 257 - i,
        {
            self.freq[i] = 0;
            i = i + 1;
        }
    }

    /// Counts the symbols of `input`.
    pub fn gather(&mut self, input: &[u8])
        requires
            forall|c: int| 0 <= c < 257 ==> old(self).freq@[c] + input@.len() <= usize::MAX,
        ensures
            forall|c: int| 0 <= c < 257 ==> final(self).freq@[c] == old(self).freq@[c] + count_of(input@, c),
    {
        let mut i: usize = 0;
        while i < input.len()
            invariant
                0 <= i <= input@.len(),
                forall|c: int| 0 <= c < 257 ==> old(self).freq@[c] + input@.len() <= usize::MAX,
                forall|c: int| 0 <= c < 257 ==> self.freq@[c] == old(self).freq@[c] + count_of(input@.take(i as int), c),
            decreases input.len() - i,
        {
            let b = input[i] as usize;
            proof {
                assert forall|c: int| 0 <= c < 257 implies count_of(input@.take(i as int + 1), c) == count_of(
                    input@.take(i as int),
                    c,
                ) + if input@[i as int] == c { 1nat } else { 0nat } by {
                    lemma_count_take_step(input@, i as int, c);
                }
                lemma_count_prefix_le(input@, i as int, b as int);
                lemma_count_len(input@.take(i as int), b as int);
            }
            self.freq[b] = self.freq[b] + 1;
            i = i + 1;
        }
        proof {
            assert(input@.take(input@.len() as int) =~= input@);
        }
    }

    /// Turns counts into offsets: each entry becomes the sum of the ones
    /// before it.
    pub fn accumulate(&mut self)
        requires
            prefix_sum(old(self).freq@, 257) <= usize::MAX,
        ensures
            forall|c: int| 0 <= c < 257 ==> final(self).freq@[c] == prefix_sum(old(self).freq@, c),
    {
        let ghost f = self.freq@;
        let mut n: usize = 0;
        let mut i: usize = 0;
        while i < 257
            invariant
                0 <= i <= 257,
                f == old(self).freq@,
                prefix_sum(f, 257) <= usize::MAX,
                n == prefix_sum(f, i as int),
                forall|c: int| 0 <= c < i ==> self.freq@[c] == prefix_sum(f, c),
                forall|c: int| i <= c < 257 ==> self.freq@[c] == f[c],
            decreases 257 - i,
        {
            proof {
                lemma_prefix_sum_mono(f, i as int + 1, 257);
            }
            let v = self.freq[i];
            self.freq[i] = n;
            n = n + v;
            i = i + 1;
        }
    }

    /// Gives the next free position of symbol `b` and takes it.
    pub fn place(&mut self, b: u8) -> (r: usize)
        requires
            old(self).freq@[b as int] < old(self).freq@[b as int + 1],
        ensures
            r == old(self).freq@[b as int],
            final(self).freq@ == old(self).freq@.update(b as int, (r + 1) as usize),
    {
        let pos = self.freq[b as usize];
        self.freq[b as usize] = pos + 1;
        pos
    }

    /// Moves each entry one place up and puts zero first, so that offsets
    /// taken by `place` become the starting offsets again.
    pub fn shift(&mut self)
        requires
            old(self).freq@[255] == old(self).freq@[256],
        ensures
            final(self).freq@[0] == 0,
            forall|c: int| 0 <= c < 256 ==> final(self).freq@[c + 1] == old(self).freq@[c],
    {
        let mut i: usize = 256;
        while i > 0
            invariant
                0 <= i <= 256,
                forall|c: int| 0 <= c <= i ==> self.freq@[c] == old(self).freq@[c],
                forall|c: int| i < c <= 256 ==> self.freq@[c] == old(self).freq@[c - 1],
            decreases i,
        {
            self.freq[i] = self.freq[i - 1];
            i = i - 1;
        }
        self.freq[0] = 0;
    }
}

proof fn lemma_count_len(s: Seq<u8>, c: int)
    ensures
        count_of(s, c) <= s.len(),
    decreases s.len(),
{
    if s.len() > 0 {
        lemma_count_len(s.drop_last(), c);
    }
}

proof fn lemma_prefix_sum_mono(f: Seq<usize>, a: int, b: int)
    requires
        0 <= a <= b,
    ensures
        prefix_sum(f, a) <= prefix_sum(f, b),
    decreases b - a,
{
    if a < b {
        lemma_prefix_sum_mono(f, a, b - 1);
    }
}

/// After counting a block from zero, the offsets that `accumulate` gives
/// are the number of smaller symbols: the first is 0 and the last is the
/// block's length.
pub proof fn lemma_radix_offsets(f: Seq<usize>, s: Seq<u8>)
    requires
        f.len() == 257,
        forall|c: int| 0 <= c < 257 ==> f[c] == count_of(s, c),
    ensures
        forall|c: int| 0 <= c <= 257 ==> prefix_sum(f, c) == below(s, c),
        prefix_sum(f, 0) == 0,
        prefix_sum(f, 256) == s.len(),
        prefix_sum(f, 257) == s.len(),
{
    assert forall|c: int| 0 <= c <= 257 implies prefix_sum(f, c) == below(s, c) by {
        lemma_prefix_below(f, s, c);
    }
    lemma_below_all(s);
    lemma_count_of_large(s, 256);
}

proof fn lemma_prefix_below(f: Seq<usize>, s: Seq<u8>, c: int)
    requires
        0 <= c <= 257,
        f.len() == 257,
        forall|d: int| 0 <= d < 257 ==> f[d] == count_of(s, d),
    ensures
        prefix_sum(f, c) == below(s, c),
    decreases c,
{
    if c > 0 {
        lemma_prefix_below(f, s, c - 1);
    }
}

proof fn lemma_count_of_large(s: Seq<u8>, c: int)
    requires
        c >= 256,
    ensures
        count_of(s, c) == 0,
    decreases s.len(),
{
    if s.len() > 0 {
        lemma_count_of_large(s.drop_last(), c);
    }
}

/// Builds the offset table of `input`: entry `c` is the number of symbols
/// smaller than `c`.
pub fn radix_offsets(input: &[u8]) -> (r: Radix)
    ensures
        forall|c: int| 0 <= c <= 256 ==> r.freq@[c] == below(input@, c),
        r.freq@[256] == input@.len(),
{
    let n = input.len();
    let mut radix = Radix::new();
    radix.gather(input);
    proof {
        lemma_radix_offsets(radix.freq@, input@);
        assert(prefix_sum(radix.freq@, 257) == input@.len());
    }
    let ghost f = radix.freq@;
    radix.accumulate();
    proof {
        lemma_radix_offsets(f, input@);
    }
    radix
}

/// Strict lexicographic order of byte sequences; a proper prefix comes first.
pub open spec fn lex_lt(a: Seq<u8>, b: Seq<u8>) -> bool
    decreases a.len(),
{
    if a.len() == 0 {
        b.len() > 0
    } else if b.len() == 0 {
        false
    } else if a[0] != b[0] {
        a[0] < b[0]
    } else {
        lex_lt(a.skip(1), b.skip(1))
    }
}

proof fn lemma_lex_trans(a: Seq<u8>, b: Seq<u8>, c: Seq<u8>)
    requires
        lex_lt(a, b),
        lex_lt(b, c),
    ensures
        lex_lt(a, c),
    decreases a.len(),
{
    if a.len() > 0 && b.len() > 0 && c.len() > 0 && a[0] == b[0] && b[0] == c[0] {
        lemma_lex_trans(a.skip(1), b.skip(1), c.skip(1));
    }
}

proof fn lemma_lex_asym(a: Seq<u8>, b: Seq<u8>)
    requires
        lex_lt(a, b),
    ensures
        !lex_lt(b, a),
    decreases a.len(),
{
    if a.len() > 0 && b.len() > 0 && a[0] == b[0] {
        lemma_lex_asym(a.skip(1), b.skip(1));
    }
}

proof fn lemma_lex_total(a: Seq<u8>, b: Seq<u8>)
    requires
        a.len() != b.len(),
    ensures
        lex_lt(a, b) || lex_lt(b, a),
    decreases a.len(),
{
    if a.len() > 0 && b.len() > 0 && a[0] == b[0] {
        lemma_lex_total(a.skip(1), b.skip(1));
    }
}

/// The suffix of `input` from `x` comes before the one from `y`.
pub open spec fn sfx_lt(input: Seq<u8>, x: int, y: int) -> bool {
    lex_lt(input.skip(x), input.skip(y))
}

/// `sa` is a permutation of `0..n`.
pub open spec fn is_perm(sa: Seq<usize>, n: int) -> bool {
    &&& sa.len() == n
    &&& forall|i: int| 0 <= i < n ==> sa[i] < n
    &&& forall|i: int, j: int| 0 <= i < n && 0 <= j < n && i != j ==> sa[i] != sa[j]
    &&& forall|v: int| 0 <= v < n ==> #[trigger] holds_value(sa, v)
}

/// Some entry of `sa` is `v`.
pub open spec fn holds_value(sa: Seq<usize>, v: int) -> bool {
    exists|k: int| 0 <= k < sa.len() && sa[k] == v
}

/// `sa` is the suffix array of `input`: its positions, ordered by the
/// suffixes that start there.
pub open spec fn is_suffix_array(input: Seq<u8>, sa: Seq<usize>) -> bool {
    &&& is_perm(sa, input.len() as int)
    &&& forall|i: int, j: int|
        0 <= i < j < sa.len() ==> sfx_lt(input, sa[i] as int, sa[j] as int)
}

/// Compares the suffixes of `input` that start at `a` and at `b`.
pub fn suffix_less(input: &[u8], a: usize, b: usize) -> (r: bool)
    requires
        a <= input@.len(),
        b <= input@.len(),
    ensures
        r == sfx_lt(input@, a as int, b as int),
{
    let n = input.len();
    let mut k: usize = 0;
    while a + k < n && b + k < n && input[a + k] == input[b + k]
        invariant
            a <= n,
            b <= n,
            n == input@.len(),
            a + k <= n,
            b + k <= n,
            sfx_lt(input@, a as int, b as int) == sfx_lt(input@, a + k, b + k),
        decreases n - a - k,
    {
        proof {
            assert(input@.skip(a + k).skip(1) =~= input@.skip(a + k + 1));
            assert(input@.skip(b + k).skip(1) =~= input@.skip(b + k + 1));
        }
        k = k + 1;
    }
    if a + k == n {
        b + k < n
    } else if b + k == n {
        false
    } else {
        input[a + k] < input[b + k]
    }
}

/// Sorts the positions of `input` by the suffixes that start there, into
/// `suf_array`, which it replaces.
pub fn compute_suffixes(input: &[u8], suf_array: &mut Vec<usize>)
    ensures
        is_suffix_array(input@, final(suf_array)@),
{
    let n = input.len();
    suf_array.clear();
    let mut i: usize = 0;
    while i < n
        invariant
            i <= n == input@.len(),
            suf_array@.len() == i,
            forall|k: int| 0 <= k < i ==> suf_array@[k] == k,
        decreases n - i,
    {
        suf_array.push(i);
        i = i + 1;
    }
    proof {
        assert forall|v: int| 0 <= v < n implies holds_value(suf_array@, v) by {
            assert(suf_array@[v] == v);
        }
    }
    let mut i: usize = 1;
    while i < n
        invariant
            1 <= i || n == 0,
            n == input@.len(),
            is_perm(suf_array@, n as int),
            forall|a: int, b: int|
                0 <= a < b < i && b < n ==> sfx_lt(input@, suf_array@[a] as int, suf_array@[b] as int),
        decreases n - i,
    {
        let mut j: usize = i;
        while j > 0 && suffix_less(input, suf_array[j], suf_array[j - 1])
            invariant
                0 <= j <= i < n == input@.len(),
                is_perm(suf_array@, n as int),
                forall|a: int, b: int|
                    0 <= a < b < j ==> sfx_lt(input@, suf_array@[a] as int, suf_array@[b] as int),
                forall|a: int, b: int|
                    j <= a < b <= i ==> sfx_lt(input@, suf_array@[a] as int, suf_array@[b] as int),
                forall|a: int, b: int|
                    0 <= a < j && j < b <= i ==> sfx_lt(input@, suf_array@[a] as int, suf_array@[b] as int),
            decreases j,
        {
            let x = suf_array[j];
            let y = suf_array[j - 1];
            let ghost before = suf_array@;
            suf_array.set(j, y);
            suf_array.set(j - 1, x);
            proof {
                assert forall|v: int| 0 <= v < n implies holds_value(suf_array@, v) by {
                    assert(holds_value(before, v));
                    let k = choose|k: int| 0 <= k < n && before[k] == v;
                    if k == j {
                        assert(suf_array@[j - 1] == v);
                    } else if k == j - 1 {
                        assert(suf_array@[j as int] == v);
                    } else {
                        assert(suf_array@[k] == v);
                    }
                }
            }
            j = j - 1;
        }
        proof {
            if j > 0 {
                let x = suf_array@[j as int] as int;
                let y = suf_array@[j - 1] as int;
                assert(input@.skip(x).len() != input@.skip(y).len());
                lemma_lex_total(input@.skip(x), input@.skip(y));
                assert forall|a: int| 0 <= a < j implies sfx_lt(input@, suf_array@[a] as int, x) by {
                    if a < j - 1 {
                        assert(sfx_lt(input@, suf_array@[a] as int, y));
                        lemma_lex_trans(input@.skip(suf_array@[a] as int), input@.skip(y), input@.skip(x));
                    }
                }
            }
        }
        i = i + 1;
    }
}

/// The last-column symbol of the sorted rotation whose suffix starts at `p`.
pub open spec fn bwt_symbol(input: Seq<u8>, p: int) -> u8 {
    if p == 0 {
        input[input.len() - 1]
    } else {
        input[p - 1]
    }
}

/// The transform of `input` under the suffix array `sa`.
pub open spec fn bwt_output(input: Seq<u8>, sa: Seq<usize>) -> Seq<u8> {
    Seq::new(sa.len(), |i: int| bwt_symbol(input, sa[i] as int))
}

/// What can go wrong while inverting a transform.
#[derive(PartialEq, Eq, Structural, Debug, Clone, Copy)]
pub enum BwtError {
    /// The origin is not an index of the block.
    InvalidOrigin,
    /// The jump table leads out of the block.
    InvalidStream,
}

/// Walks a suffix array and yields the transformed symbols.
pub struct TransformIterator<'a> {
    input: &'a [u8],
    suffixes: &'a [usize],
    index: usize,
    origin: Option<usize>,
}

impl<'a> TransformIterator<'a> {
    /// The block.
    pub closed spec fn input(&self) -> Seq<u8> {
        self.input@
    }

    /// The suffix array walked.
    pub closed spec fn suffixes(&self) -> Seq<usize> {
        self.suffixes@
    }

    /// How many symbols have been yielded.
    pub closed spec fn index(&self) -> int {
        self.index as int
    }

    /// The origin, once the entry for position 0 has been passed.
    pub closed spec fn origin(&self) -> Option<usize> {
        self.origin
    }

    /// An iterator at the start of `suffixes`.
    pub fn new(input: &'a [u8], suffixes: &'a [usize]) -> (r: TransformIterator<'a>)
        ensures
            r.input() == input@,
            r.suffixes() == suffixes@,
            r.index() == 0,
            r.origin() is None,
    {
        TransformIterator { input, suffixes, index: 0, origin: None }
    }

    /// The next symbol of the output; records the origin on the way.
    pub fn next_symbol(&mut self) -> (r: Option<u8>)
        requires
            is_perm(old(self).suffixes(), old(self).input().len() as int),
            0 <= old(self).index() <= old(self).suffixes().len(),
            old(self).origin() is Some ==> old(self).suffixes()[old(self).origin()->0 as int] == 0
                && old(self).origin()->0 < old(self).index(),
            old(self).origin() is None ==> forall|k: int| 0 <= k < old(self).index() ==> old(self).suffixes()[k] != 0,
        ensures
            final(self).input() == old(self).input(),
            final(self).suffixes() == old(self).suffixes(),
            old(self).index() == old(self).suffixes().len() ==> r is None && *final(self) == *old(self),
            old(self).index() < old(self).suffixes().len() ==> {
                &&& r == Some(bwt_symbol(old(self).input(), old(self).suffixes()[old(self).index()] as int))
                &&& final(self).index() == old(self).index() + 1
                &&& final(self).origin() == if old(self).suffixes()[old(self).index()] == 0 {
                    Some(old(self).index() as usize)
                } else {
                    old(self).origin()
                }
            },
    {
        if self.index >= self.suffixes.len() {
            return None;
        }
        let i = self.index;
        let p = self.suffixes[i];
        self.index = i + 1;
        if p == 0 {
            self.origin = Some(i);
            Some(self.input[self.input.len() - 1])
        } else {
            Some(self.input[p - 1])
        }
    }

    /// The index of the original block among the sorted rotations.
    pub fn get_origin(&self) -> (r: usize)
        requires
            self.origin() is Some,
        ensures
            Some(r) == self.origin(),
    {
        match self.origin {
            Some(o) => o,
            None => 0,
        }
    }
}

/// Transforms a block: sorts its suffixes into `suf_array` and gives an
/// iterator over the transformed symbols.
pub fn encode<'a>(input: &'a [u8], suf_array: &'a mut Vec<usize>) -> (r: TransformIterator<'a>)
    ensures
        is_suffix_array(input@, final(suf_array)@),
        r.input() == input@,
        r.suffixes() == final(suf_array)@,
        r.index() == 0,
        r.origin() is None,
{
    compute_suffixes(input, suf_array);
    TransformIterator::new(input, suf_array.as_slice())
}

/// Transforms a block, giving the transformed symbols and the origin: the
/// rank of the block itself among its sorted rotations.
pub fn encode_simple(input: &[u8]) -> (r: (Vec<u8>, usize))
    ensures
        exists|sa: Seq<usize>|
            {
                &&& is_suffix_array(input@, sa)
                &&& r.0@ == bwt_output(input@, sa)
                &&& (input@.len() > 0 ==> r.1 < input@.len() && sa[r.1 as int] == 0)
            },
{
    let mut suf: Vec<usize> = Vec::new();
    compute_suffixes(input, &mut suf);
    let ghost sa = suf@;
    let n = input.len();
    let mut out: Vec<u8> = Vec::new();
    let mut origin: usize = 0;
    let mut i: usize = 0;
    while i < n
        invariant
            i <= n == input@.len(),
            is_suffix_array(input@, sa),
            suf@ == sa,
            out@ == bwt_output(input@, sa).take(i as int),
            forall|k: int| 0 <= k < i && sa[k] == 0 ==> origin == k,
            origin < n || n == 0,
        decreases n - i,
    {
        let p = suf[i];
        let b = if p == 0 {
            origin = i;
            input[n - 1]
        } else {
            input[p - 1]
        };
        out.push(b);
        proof {
            assert(out@ =~= bwt_output(input@, sa).take(i as int + 1));
        }
        i = i + 1;
    }
    proof {
        assert(out@ =~= bwt_output(input@, sa));
        if n > 0 {
            assert(holds_value(sa, 0));
        }
    }
    (out, origin)
}

proof fn lemma_count_concat(a: Seq<u8>, b: Seq<u8>, c: int)
    ensures
        count_of(a + b, c) == count_of(a, c) + count_of(b, c),
    decreases b.len(),
{
    if b.len() > 0 {
        lemma_count_concat(a, b.drop_last(), c);
        assert((a + b).drop_last() =~= a + b.drop_last());
    } else {
        assert(a + b =~= a);
    }
}

/// The order in which the inverse table places the block's symbols: the
/// origin's symbol first, then all others in order.
pub open spec fn inverse_order(input: Seq<u8>, origin: int) -> Seq<u8> {
    seq![input[origin]] + input.take(origin) + input.skip(origin + 1)
}

proof fn lemma_inverse_order_count(input: Seq<u8>, origin: int, c: int)
    requires
        0 <= origin < input.len(),
    ensures
        count_of(inverse_order(input, origin), c) == count_of(input, c),
{
    let a = input.take(origin);
    let m = seq![input[origin]];
    let b = input.skip(origin + 1);
    assert(input =~= a + m + b);
    assert(inverse_order(input, origin) =~= m + a + b);
    lemma_count_concat(a + m, b, c);
    lemma_count_concat(a, m, c);
    lemma_count_concat(m + a, b, c);
    lemma_count_concat(m, a, c);
}

/// Places every symbol of `order` in turn; gives the slot of the `k`-th.
proof fn lemma_place_bound(input: Seq<u8>, order: Seq<u8>, k: int)
    requires
        0 <= k < order.len(),
        forall|c: int| 0 <= c < 256 ==> count_of(order, c) == count_of(input, c),
    ensures
        below(input, order[k] as int) + count_of(order.take(k), order[k] as int) < below(input, order[k] + 1),
        below(input, order[k] + 1) <= input.len(),
{
    let c = order[k] as int;
    lemma_count_take_step(order, k, c);
    lemma_count_prefix_le(order, k + 1, c);
    lemma_below_mono(input, c + 1, 256);
    lemma_below_all(input);
}

/// Builds the jump table of the inverse transform.
pub fn compute_inversion_table(input: &[u8], origin: usize, table: &mut Vec<usize>)
    requires
        origin < input@.len(),
    ensures
        final(table)@.len() == input@.len(),
        forall|i: int| 0 <= i < input@.len() ==> final(table)@[i] <= input@.len(),
{
    let n = input.len();
    let mut radix = radix_offsets(input);
    table.clear();
    let mut k: usize = 0;
    while k < n
        invariant
            k <= n,
            table@.len() == k,
            forall|i: int| 0 <= i < k ==> table@[i] == 0,
        decreases n - k,
    {
        table.push(0);
        k = k + 1;
    }
    let ghost order = inverse_order(input@, origin as int);
    proof {
        assert forall|c: int| 0 <= c < 256 implies count_of(order, c) == count_of(input@, c) by {
            lemma_inverse_order_count(input@, origin as int, c);
        }
        assert(order.take(0) =~= Seq::<u8>::empty());
        lemma_below_all(input@);
    }
    let mut k: usize = 0;
    while k < n
        invariant
            k <= n == input@.len(),
            origin < n,
            order == inverse_order(input@, origin as int),
            order.len() == n,
            forall|c: int| 0 <= c < 256 ==> count_of(order, c) == count_of(input@, c),
            forall|c: int| 0 <= c < 256 ==> radix.freq@[c] == below(input@, c) + count_of(order.take(k as int), c),
            radix.freq@[256] == n,
            below(input@, 256) == n,
            table@.len() == n,
            forall|i: int| 0 <= i < n ==> table@[i] <= n,
        decreases n - k,
    {
        let (sym, value) = if k == 0 {
            (input[origin], 0)
        } else if k <= origin {
            (input[k - 1], k)
        } else {
            (input[k], k + 1)
        };
        proof {
            assert(order[k as int] == sym);
            lemma_place_bound(input@, order, k as int);
            if sym < 255 {
                assert(radix.freq@[sym + 1] >= below(input@, sym + 1));
            }
            assert forall|c: int| 0 <= c < 256 implies count_of(order.take(k as int + 1), c) == count_of(
                order.take(k as int),
                c,
            ) + if order[k as int] == c { 1nat } else { 0nat } by {
                lemma_count_take_step(order, k as int, c);
            }
        }
        let slot = radix.place(sym);
        table.set(slot, value);
        k = k + 1;
    }
}

/// Walks the jump table of the inverse transform.
pub struct InverseIterator<'a> {
    input: &'a [u8],
    table: &'a [usize],
    origin: usize,
    current: usize,
}

impl<'a> InverseIterator<'a> {
    /// The iterator's tables fit together: every jump lands in the block or
    /// ends the walk.
    pub closed spec fn wf(&self) -> bool {
        &&& self.table@.len() == self.input@.len()
        &&& self.origin < self.input@.len()
        &&& self.current < self.input@.len() || self.current == usize::MAX
        &&& forall|i: int| 0 <= i < self.table@.len() ==> self.table@[i] <= self.input@.len()
    }

    /// An iterator that starts at `origin`.
    pub fn new(input: &'a [u8], origin: usize, table: &'a [usize]) -> (r: InverseIterator<'a>)
        requires
            table@.len() == input@.len(),
            origin < input@.len(),
            forall|i: int| 0 <= i < table@.len() ==> table@[i] <= input@.len(),
        ensures
            r.wf(),
            r.current() == origin,
            r.origin() == origin,
            r.table() == table@,
            r.block() == input@,
    {
        InverseIterator { input, table, origin, current: origin }
    }

    /// The row the walk stands at; `usize::MAX` once it has ended.
    pub closed spec fn current(&self) -> usize {
        self.current
    }

    /// The jump table.
    pub closed spec fn table(&self) -> Seq<usize> {
        self.table@
    }

    /// The transformed block.
    pub closed spec fn block(&self) -> Seq<u8> {
        self.input@
    }

    /// The origin.
    pub closed spec fn origin(&self) -> usize {
        self.origin
    }

    /// The next symbol of the original block, or `None` once the walk has
    /// ended: the jump table's entry `t` at the current row leads to row
    /// `t - 1` and its symbol, and an entry 0 ends the walk with the origin's
    /// symbol.
    pub fn next_symbol(&mut self) -> (r: Option<u8>)
        requires
            old(self).wf(),
        ensures
            final(self).wf(),
            final(self).table() == old(self).table(),
            final(self).block() == old(self).block(),
            final(self).origin() == old(self).origin(),
            old(self).current() == usize::MAX ==> r is None && final(self).current() == usize::MAX,
            old(self).current() != usize::MAX ==> ({
                let t = old(self).table()[old(self).current() as int];
                if t == 0 {
                    r == Some(old(self).block()[old(self).origin() as int]) && final(self).current() == usize::MAX
                } else {
                    r == Some(old(self).block()[t - 1]) && final(self).current() == t - 1
                }
            }),
    {
        if self.current == usize::MAX {
            return None;
        }
        let t = self.table[self.current];
        if t == 0 {
            self.current = usize::MAX;
            Some(self.input[self.origin])
        } else {
            self.current = t - 1;
            Some(self.input[t - 1])
        }
    }
}

/// Builds the jump table of `input` into `table` and gives an iterator over
/// the original block.
pub fn decode<'a>(input: &'a [u8], origin: usize, table: &'a mut Vec<usize>) -> (r: InverseIterator<'a>)
    requires
        origin < input@.len(),
    ensures
        r.wf(),
{
    compute_inversion_table(input, origin, table);
    InverseIterator::new(input, origin, table.as_slice())
}

/// Inverts a transform given its origin. Fails when the origin is not an
/// index of the block, or when the walk ends before the whole block is out.
pub fn decode_simple(input: &[u8], origin: usize) -> (r: Result<Vec<u8>, BwtError>)
    ensures
        input@.len() == 0 ==> r is Ok,
        input@.len() > 0 && origin >= input@.len() ==> r == Err::<Vec<u8>, BwtError>(BwtError::InvalidOrigin),
        r matches Ok(v) ==> v@.len() == input@.len(),
{
    let n = input.len();
    if n == 0 {
        return Ok(Vec::new());
    }
    if origin >= n {
        return Err(BwtError::InvalidOrigin);
    }
    let mut table: Vec<usize> = Vec::new();
    let mut it = decode(input, origin, &mut table);
    let mut out: Vec<u8> = Vec::new();
    let mut k: usize = 0;
    while k < n
        invariant
            k <= n,
            0 < n == input@.len(),
            origin < n,
            out@.len() == k,
            it.wf(),
        decreases n - k,
    {
        match it.next_symbol() {
            Some(b) => out.push(b),
            None => {
                return Err(BwtError::InvalidStream);
            },
        }
        k = k + 1;
    }
    Ok(out)
}

/// Inverts a transform in place of `output` without a jump table: each step
/// counts the current symbol's earlier occurrences. Quadratic time.
pub fn decode_minimal(input: &[u8], origin: usize, output: &mut Vec<u8>) -> (r: Result<(), BwtError>)
    ensures
        input@.len() > 0 && origin >= input@.len() ==> r == Err::<(), BwtError>(BwtError::InvalidOrigin),
        input@.len() == 0 || origin < input@.len() ==> r is Ok && final(output)@.len() == input@.len(),
{
    let n = input.len();
    output.clear();
    if n == 0 {
        return Ok(());
    }
    if origin >= n {
        return Err(BwtError::InvalidOrigin);
    }
    let radix = radix_offsets(input);
    let mut k: usize = 0;
    while k < n
        invariant
            k <= n,
            output@.len() == k,
        decreases n - k,
    {
        output.push(0);
        k = k + 1;
    }
    let ghost order = inverse_order(input@, origin as int);
    proof {
        assert forall|c: int| 0 <= c < 256 implies count_of(order, c) == count_of(input@, c) by {
            lemma_inverse_order_count(input@, origin as int, c);
        }
    }
    let mut i: usize = origin;
    let mut j: usize = 0;
    while j < n
        invariant
            j <= n == input@.len(),
            i < n,
            origin < n,
            output@.len() == n,
            order == inverse_order(input@, origin as int),
            order.len() == n,
            forall|c: int| 0 <= c < 256 ==> count_of(order, c) == count_of(input@, c),
            forall|c: int| 0 <= c <= 256 ==> radix.freq@[c] == below(input@, c),
        decreases n - j,
    {
        let ch = input[i];
        output.set(n - j - 1, ch);
        let k: usize = if i == origin { 0 } else if i < origin { i + 1 } else { i };
        assert(order[k as int] == ch);
        let mut offset: usize = 0;
        let mut m: usize = 0;
        while m < k
            invariant
                m <= k < n == input@.len(),
                origin < n,
                order == inverse_order(input@, origin as int),
                offset == count_of(order.take(m as int), ch as int),
                offset <= m,
            decreases k - m,
        {
            let e = if m == 0 { input[origin] } else if m <= origin { input[m - 1] } else { input[m] };
            proof {
                assert(order[m as int] == e);
                lemma_count_take_step(order, m as int, ch as int);
            }
            if e == ch {
                offset = offset + 1;
            }
            m = m + 1;
        }
        proof {
            lemma_place_bound(input@, order, k as int);
        }
        i = radix.freq[ch as usize] + offset;
        j = j + 1;
    }
    Ok(())
}

/// Splits `input` into blocks of `block_size` bytes and writes the block
/// stream: the block size, then for each block its length, its transform
/// and its origin, all as little-endian 32-bit integers.
pub fn frame_encode(input: &[u8], block_size: usize) -> (r: Vec<u8>)
    requires
        0 < block_size <= u32::MAX,
    ensures
        r@.len() >= 4,
        crate::lz4::le32(r@, 0) == block_size,
{
    let mut out: Vec<u8> = Vec::new();
    write_u32_le(&mut out, block_size as u32);
    let ghost head = out@;
    let n = input.len();
    let mut pos: usize = 0;
    while pos < n
        invariant
            pos <= n == input@.len(),
            0 < block_size <= u32::MAX,
            out@.len() >= 4,
            head.len() == 4,
            crate::lz4::le32(head, 0) == block_size,
            out@.take(4) == head,
        decreases n - pos,
    {
        let amt = if n - pos < block_size { n - pos } else { block_size };
        let mut block: Vec<u8> = Vec::new();
        let mut k: usize = 0;
        while k < amt
            invariant
                k <= amt,
                pos + amt <= n == input@.len(),
                block@.len() == k,
            decreases amt - k,
        {
            block.push(input[pos + k]);
            k = k + 1;
        }
        let (t, origin) = encode_simple(block.as_slice());
        let ghost b0 = out@;
        write_u32_le(&mut out, amt as u32);
        let mut j: usize = 0;
        while j < t.len()
            invariant
                j <= t@.len(),
                out@.len() >= 4,
                out@.len() >= b0.len(),
                out@.take(b0.len() as int) == b0,
                b0.len() >= 4,
                b0.take(4) == head,
            decreases t.len() - j,
        {
            let ghost b1 = out@;
            out.push(t[j]);
            assert(out@.take(b0.len() as int) =~= b1.take(b0.len() as int));
            j = j + 1;
        }
        proof {
            if amt > 0 {
                assert(origin < amt);
            }
        }
        let ghost b2 = out@;
        write_u32_le(&mut out, if amt == 0 { 0 } else { origin as u32 });
        proof {
            assert(out@.take(4) =~= b2.take(4));
            assert(b2.take(4) =~= b2.take(b0.len() as int).take(4));
        }
        pos = pos + amt;
    }
    proof {
        assert(crate::lz4::le32(out@, 0) == crate::lz4::le32(out@.take(4), 0));
    }
    out
}

/// Decodes a block stream, block by block, up to the end of the input or a
/// zero block length. With `extra_mem` each block is inverted with a jump
/// table; without it, in quadratic time and no extra memory.
pub fn frame_decode(input: &[u8], extra_mem: bool) -> (r: Result<Vec<u8>, BwtError>)
    ensures
        input@.len() < 4 ==> r == Err::<Vec<u8>, BwtError>(BwtError::InvalidStream),
        input@.len() == 4 ==> (r matches Ok(v) && v@.len() == 0),
{
    let n = input.len();
    if n < 4 {
        return Err(BwtError::InvalidStream);
    }
    let _max_block_size = read_u32_le(input, 0);
    let mut pos: usize = 4;
    let mut out: Vec<u8> = Vec::new();
    while pos < n
        invariant
            4 <= pos <= n == input@.len(),
            pos == 4 ==> out@.len() == 0,
        decreases n - pos,
    {
        if n - pos < 4 {
            return Err(BwtError::InvalidStream);
        }
        let len = read_u32_le(input, pos) as usize;
        pos = pos + 4;
        if len == 0 {
            break;
        }
        if len > n - pos || n - pos - len < 4 {
            return Err(BwtError::InvalidStream);
        }
        let mut block: Vec<u8> = Vec::new();
        let mut k: usize = 0;
        while k < len
            invariant
                k <= len,
                pos + len <= n == input@.len(),
                block@.len() == k,
            decreases len - k,
        {
            block.push(input[pos + k]);
            k = k + 1;
        }
        pos = pos + len;
        let origin = read_u32_le(input, pos) as usize;
        pos = pos + 4;
        let decoded = if extra_mem {
            decode_simple(block.as_slice(), origin)?
        } else {
            let mut o: Vec<u8> = Vec::new();
            decode_minimal(block.as_slice(), origin, &mut o)?;
            o
        };
        let mut j: usize = 0;
        while j < decoded.len()
            invariant
                j <= decoded@.len(),
            decreases decoded.len() - j,
        {
            out.push(decoded[j]);
            j = j + 1;
        }
    }
    Ok(out)
}

} // verus!

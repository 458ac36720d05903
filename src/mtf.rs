//! Move-To-Front rank coder.

use vstd::prelude::*;

verus! {

/// The number of distinct symbols.
pub const TOTAL_SYMBOLS: usize = 256;

/// `s` with its element at rank `r` moved to rank 0, the ones before it
/// shifted one rank later.
pub open spec fn move_to_front(s: Seq<u8>, r: int) -> Seq<u8> {
    seq![s[r]] + s.take(r) + s.skip(r + 1)
}

/// The first rank at which `sym` stands in `s`.
pub open spec fn is_first_rank(s: Seq<u8>, sym: u8, r: int) -> bool {
    0 <= r < s.len() && s[r] == sym && forall|j: int| 0 <= j < r ==> s[j] != sym
}

/// The alphabetical order of all byte values.
pub open spec fn alphabetical() -> Seq<u8> {
    Seq::new(256, |i: int| i as u8)
}

/// Move-To-Front state: a rank-ordered list of symbols.
pub struct MTF {
    /// Rank-ordered symbols.
    pub symbols: [u8; 256],
}

impl MTF {
    /// A zeroed list, to be filled by its user.
    pub fn new() -> (r: MTF)
        ensures
            r.symbols@ == Seq::new(256, |i: int| 0u8),
    {
        let r = MTF { symbols: [0u8; 256] };
        assert(r.symbols@ =~= Seq::new(256, |i: int| 0u8));
        r
    }

    /// Puts the symbols in alphabetical order.
    pub fn reset_alphabetical(&mut self)
        ensures
            final(self).symbols@ == alphabetical(),
    {
        let mut i: usize = 0;
        while i < TOTAL_SYMBOLS
            invariant
                0 <= i <= 256,
                forall|j: int| 0 <= j < i ==> self.symbols@[j] == j as u8,
            decreases 256 - i,
        {
            self.symbols[i] = i as u8;
            i = i + 1;
        }
        assert(self.symbols@ =~= alphabetical());
    }

    /// Moves the symbol at rank `r` to the front.
    fn move_rank_to_front(&mut self, r: usize)
        requires
            r < 256,
        ensures
            final(self).symbols@ == move_to_front(old(self).symbols@, r as int),
    {
        let sym = self.symbols[r];
        let ghost s0 = self.symbols@;
        let mut i: usize = r;
        while i > 0
            invariant
                i <= r < 256,
                s0 == old(self).symbols@,
                sym == s0[r as int],
                forall|j: int| 0 <= j <= i ==> self.symbols@[j] == s0[j],
                forall|j: int| i < j <= r ==> self.symbols@[j] == s0[j - 1],
                forall|j: int| r < j < 256 ==> self.symbols@[j] == s0[j],
            decreases i,
        {
            self.symbols[i] = self.symbols[i - 1];
            i = i - 1;
        }
        self.symbols[0] = sym;
        assert(self.symbols@ =~= move_to_front(s0, r as int));
    }

    /// Encodes a symbol into its current rank and moves it to the front.
    pub fn encode(&mut self, sym: u8) -> (r: u8)
        requires
            old(self).symbols@.contains(sym),
        ensures
            is_first_rank(old(self).symbols@, sym, r as int),
            final(self).symbols@ == move_to_front(old(self).symbols@, r as int),
    {
        let mut r: usize = 0;
        while self.symbols[r] != sym
            invariant
                0 <= r < 256,
                self.symbols@.contains(sym),
                forall|j: int| 0 <= j < r ==> self.symbols@[j] != sym,
            decreases 256 - r,
        {
            r = r + 1;
            if r == 256 {
                proof {
                    let k = choose|k: int| 0 <= k < 256 && self.symbols@[k] == sym;
                    assert(self.symbols@[k] != sym);
                }
            }
        }
        self.move_rank_to_front(r);
        r as u8
    }

    /// Decodes a rank into its symbol and moves the symbol to the front.
    pub fn decode(&mut self, rank: u8) -> (r: u8)
        ensures
            r == old(self).symbols@[rank as int],
            final(self).symbols@ == move_to_front(old(self).symbols@, rank as int),
    {
        let sym = self.symbols[rank as usize];
        self.move_rank_to_front(rank as usize);
        sym
    }
}

/// Every byte value stands somewhere in `s`.
pub open spec fn is_full(s: Seq<u8>) -> bool {
    forall|x: u8| #[trigger] s.contains(x)
}

/// The first rank of `sym` in `s`.
pub open spec fn rank_of(s: Seq<u8>, sym: u8) -> int {
    choose|r: int| is_first_rank(s, sym, r)
}

/// The ranks that encoding `input` symbol by symbol from list `st` gives.
pub open spec fn encode_seq(st: Seq<u8>, input: Seq<u8>) -> Seq<u8>
    decreases input.len(),
{
    if input.len() == 0 {
        seq![]
    } else {
        let r = rank_of(st, input[0]);
        seq![r as u8] + encode_seq(move_to_front(st, r), input.skip(1))
    }
}

/// The symbols that decoding `ranks` one by one from list `st` gives.
pub open spec fn decode_seq(st: Seq<u8>, ranks: Seq<u8>) -> Seq<u8>
    decreases ranks.len(),
{
    if ranks.len() == 0 {
        seq![]
    } else {
        seq![st[ranks[0] as int]] + decode_seq(move_to_front(st, ranks[0] as int), ranks.skip(1))
    }
}

proof fn lemma_first_rank_exists(s: Seq<u8>, sym: u8)
    requires
        s.contains(sym),
    ensures
        is_first_rank(s, sym, rank_of(s, sym)),
{
    let k = choose|k: int| 0 <= k < s.len() && s[k] == sym;
    let mut r = k;
    assert(exists|r: int| is_first_rank(s, sym, r)) by {
        lemma_first_rank_below(s, sym, k);
    }
}

proof fn lemma_first_rank_below(s: Seq<u8>, sym: u8, k: int)
    requires
        0 <= k < s.len(),
        s[k] == sym,
    ensures
        exists|r: int| is_first_rank(s, sym, r),
    decreases k,
{
    if exists|j: int| 0 <= j < k && s[j] == sym {
        let j = choose|j: int| 0 <= j < k && s[j] == sym;
        lemma_first_rank_below(s, sym, j);
    } else {
        assert(is_first_rank(s, sym, k));
    }
}

proof fn lemma_first_rank_unique(s: Seq<u8>, sym: u8, r: int)
    requires
        is_first_rank(s, sym, r),
    ensures
        rank_of(s, sym) == r,
{
    let q = rank_of(s, sym);
    assert(is_first_rank(s, sym, q));
    if q < r {
        assert(s[q] != sym);
    } else if r < q {
        assert(s[r] != sym);
    }
}

proof fn lemma_move_keeps_full(s: Seq<u8>, r: int)
    requires
        is_full(s),
        0 <= r < s.len(),
    ensures
        is_full(move_to_front(s, r)),
        move_to_front(s, r).len() == s.len(),
{
    let m = move_to_front(s, r);
    assert forall|x: u8| #[trigger] m.contains(x) by {
        assert(s.contains(x));
        let k = choose|k: int| 0 <= k < s.len() && s[k] == x;
        if k < r {
            assert(m[k + 1] == x);
        } else if k == r {
            assert(m[0] == x);
        } else {
            assert(m[k] == x);
        }
    }
}

/// Move-To-Front round trip: from a list that holds every byte value,
/// decoding the ranks that encoding gave yields the input again.
pub proof fn lemma_mtf_round_trip(st: Seq<u8>, input: Seq<u8>)
    requires
        st.len() == 256,
        is_full(st),
    ensures
        decode_seq(st, encode_seq(st, input)) == input,
    decreases input.len(),
{
    if input.len() > 0 {
        let x = input[0];
        assert(st.contains(x));
        lemma_first_rank_exists(st, x);
        let r = rank_of(st, x);
        lemma_move_keeps_full(st, r);
        lemma_mtf_round_trip(move_to_front(st, r), input.skip(1));
        let e = encode_seq(st, input);
        assert(e[0] == r as u8);
        assert(e.skip(1) =~= encode_seq(move_to_front(st, r), input.skip(1)));
        assert(decode_seq(st, e) =~= input);
    }
}

/// The ranks of `input` under Move-To-Front from the alphabetical list.
pub fn encode_all(input: &[u8]) -> (r: Vec<u8>)
    ensures
        r@ == encode_seq(alphabetical(), input@),
{
    let mut mtf = MTF::new();
    mtf.reset_alphabetical();
    let mut out: Vec<u8> = Vec::new();
    let mut i: usize = 0;
    proof {
        lemma_alphabetical_full();
        assert(input@.skip(0) =~= input@);
        assert(out@ + encode_seq(mtf.symbols@, input@.skip(0)) =~= encode_seq(alphabetical(), input@));
    }
    while i < input.len()
        invariant
            0 <= i <= input.len(),
            mtf.symbols@.len() == 256,
            is_full(mtf.symbols@),
            out@ + encode_seq(mtf.symbols@, input@.skip(i as int)) == encode_seq(alphabetical(), input@),
        decreases input.len() - i,
    {
        let ghost st = mtf.symbols@;
        assert(st.contains(input[i as int]));
        let rank = mtf.encode(input[i]);
        proof {
            lemma_first_rank_unique(st, input@[i as int], rank as int);
            lemma_move_keeps_full(st, rank as int);
            assert(input@.skip(i as int)[0] == input@[i as int]);
            assert(input@.skip(i as int).skip(1) =~= input@.skip(i as int + 1));
            assert(out@.push(rank) + encode_seq(mtf.symbols@, input@.skip(i as int + 1))
                =~= out@ + encode_seq(st, input@.skip(i as int)));
        }
        out.push(rank);
        i = i + 1;
    }
    proof {
        assert(input@.skip(i as int) =~= Seq::<u8>::empty());
        assert(out@ + Seq::<u8>::empty() =~= out@);
    }
    out
}

/// The symbols of `ranks` under Move-To-Front from the alphabetical list.
pub fn decode_all(ranks: &[u8]) -> (r: Vec<u8>)
    ensures
        r@ == decode_seq(alphabetical(), ranks@),
{
    let mut mtf = MTF::new();
    mtf.reset_alphabetical();
    let mut out: Vec<u8> = Vec::new();
    let mut i: usize = 0;
    proof {
        assert(ranks@.skip(0) =~= ranks@);
        assert(out@ + decode_seq(mtf.symbols@, ranks@.skip(0)) =~= decode_seq(alphabetical(), ranks@));
    }
    while i < ranks.len()
        invariant
            0 <= i <= ranks.len(),
            mtf.symbols@.len() == 256,
            out@ + decode_seq(mtf.symbols@, ranks@.skip(i as int)) == decode_seq(alphabetical(), ranks@),
        decreases ranks.len() - i,
    {
        let ghost st = mtf.symbols@;
        let sym = mtf.decode(ranks[i]);
        proof {
            assert(ranks@.skip(i as int)[0] == ranks@[i as int]);
            assert(ranks@.skip(i as int).skip(1) =~= ranks@.skip(i as int + 1));
            assert(out@.push(sym) + decode_seq(mtf.symbols@, ranks@.skip(i as int + 1))
                =~= out@ + decode_seq(st, ranks@.skip(i as int)));
        }
        out.push(sym);
        i = i + 1;
    }
    proof {
        assert(ranks@.skip(i as int) =~= Seq::<u8>::empty());
        assert(out@ + Seq::<u8>::empty() =~= out@);
    }
    out
}

proof fn lemma_alphabetical_full()
    ensures
        is_full(alphabetical()),
        alphabetical().len() == 256,
{
    assert forall|x: u8| #[trigger] alphabetical().contains(x) by {
        assert(alphabetical()[x as int] == x);
    }
}

} // verus!

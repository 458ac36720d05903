//! Run-length coding of bytes. A run of one byte is the byte itself; a run
//! of `n >= 2` equal bytes is the byte twice, then `n - 2` in groups of seven
//! bits, least significant first, the last group marked by its top bit.

use vstd::prelude::*;

verus! {

/// What can go wrong while decoding runs.
#[derive(PartialEq, Eq, Structural, Debug, Clone, Copy)]
pub enum RleError {
    /// A run length takes more than nine bytes.
    OverlyLongRun,
}

/// The length bytes of a run of `n + 2` equal bytes.
pub open spec fn varint(n: nat) -> Seq<u8>
    decreases n,
{
    if n < 128 {
        seq![(n + 128) as u8]
    } else {
        seq![(n % 128) as u8] + varint(n / 128)
    }
}

/// The code of a run of `n >= 1` bytes `b`.
pub open spec fn run_code(b: u8, n: nat) -> Seq<u8> {
    if n <= 1 {
        seq![b]
    } else {
        seq![b, b] + varint((n - 2) as nat)
    }
}

/// The length of the run of equal bytes that `s` starts with.
pub open spec fn run_len(s: Seq<u8>) -> nat
    decreases s.len(),
{
    if s.len() <= 1 {
        s.len()
    } else if s[1] == s[0] {
        1 + run_len(s.skip(1))
    } else {
        1
    }
}

/// The code of `s`: the codes of its maximal runs, in order.
pub open spec fn rle_spec(s: Seq<u8>) -> Seq<u8>
    decreases s.len(),
{
    if s.len() == 0 {
        seq![]
    } else {
        let n = run_len(s);
        if n == 0 || n > s.len() {
            seq![]
        } else {
            run_code(s[0], n) + rle_spec(s.skip(n as int))
        }
    }
}

proof fn lemma_run_len(s: Seq<u8>, n: int)
    requires
        1 <= n <= s.len(),
        forall|k: int| 0 <= k < n ==> #[trigger] s[k] == s[0],
        n == s.len() || s[n] != s[0],
    ensures
        run_len(s) == n,
    decreases n,
{
    if n > 1 {
        let t = s.skip(1);
        assert forall|k: int| 0 <= k < n - 1 implies #[trigger] t[k] == t[0] by {
            assert(t[k] == s[k + 1]);
            assert(t[0] == s[1]);
        }
        lemma_run_len(t, n - 1);
    } else if s.len() > 1 {
        assert(s[1] != s[0]);
    }
}

/// Appends the length bytes of a run of `n + 2` bytes.
fn write_varint(out: &mut Vec<u8>, n: u64)
    ensures
        final(out)@ == old(out)@ + varint(n as nat),
{
    let mut rest = n;
    let ghost o0 = old(out)@;
    while rest >= 128
        invariant
            o0 + varint(n as nat) == out@ + varint(rest as nat),
        decreases rest,
    {
        let ghost before = out@;
        out.push((rest % 128) as u8);
        proof {
            assert(varint(rest as nat) == seq![(rest % 128) as u8] + varint((rest / 128) as nat));
            assert(out@ + varint((rest / 128) as nat) =~= before + (seq![(rest % 128) as u8] + varint(
                (rest / 128) as nat,
            )));
        }
        rest = rest / 128;
    }
    let ghost before = out@;
    out.push((rest + 128) as u8);
    proof {
        assert(out@ =~= before + varint(rest as nat));
    }
}

/// Run-length codes `input`.
pub fn encode(input: &[u8]) -> (r: Vec<u8>)
    ensures
        r@ == rle_spec(input@),
{
    let n = input.len();
    let mut out: Vec<u8> = Vec::new();
    let mut i: usize = 0;
    proof {
        assert(input@.skip(0) =~= input@);
        assert(Seq::<u8>::empty() + rle_spec(input@) =~= rle_spec(input@));
    }
    while i < n
        invariant
            i <= n == input@.len(),
            out@ + rle_spec(input@.skip(i as int)) == rle_spec(input@),
        decreases n - i,
    {
        let b = input[i];
        let mut j: usize = i + 1;
        while j < n && input[j] == b
            invariant
                i < j <= n == input@.len(),
                b == input@[i as int],
                forall|k: int| i <= k < j ==> input@[k] == b,
            decreases n - j,
        {
            j = j + 1;
        }
        let ghost s = input@.skip(i as int);
        proof {
            assert forall|k: int| 0 <= k < j - i implies #[trigger] s[k] == s[0] by {
            }
            lemma_run_len(s, (j - i) as int);
            assert(s.skip((j - i) as int) =~= input@.skip(j as int));
        }
        let ghost before = out@;
        let reps = j - i;
        if reps == 1 {
            out.push(b);
        } else {
            out.push(b);
            out.push(b);
            write_varint(&mut out, (reps - 2) as u64);
        }
        proof {
            assert(out@ =~= before + run_code(b, reps as nat));
            assert(rle_spec(s) == run_code(b, reps as nat) + rle_spec(input@.skip(j as int)));
            assert(out@ + rle_spec(input@.skip(j as int)) =~= before + rle_spec(s));
        }
        i = j;
    }
    proof {
        assert(input@.skip(i as int) =~= Seq::<u8>::empty());
        assert(out@ + Seq::<u8>::empty() =~= out@);
    }
    out
}

/// A run being decoded.
pub struct Run {
    /// The repeated byte.
    pub byte: u8,
    /// How many times it repeats.
    pub reps: u64,
}

/// Collects the length bytes of a run.
pub struct RunBuilder {
    /// The repeated byte.
    pub byte: u8,
    /// The length bytes read so far.
    pub slice: [u8; 9],
    /// How many length bytes have been read.
    pub byte_count: u8,
}

impl RunBuilder {
    /// A builder for a run of `byte` with no length bytes yet.
    pub fn new(byte: u8) -> (r: RunBuilder)
        ensures
            r.byte == byte,
            r.byte_count == 0,
            forall|i: int| 0 <= i < 9 ==> r.slice@[i] == 0,
    {
        RunBuilder { byte, slice: [0u8; 9], byte_count: 0 }
    }

    /// The run: its byte, and two plus the seven-bit groups read, least
    /// significant first.
    pub fn to_run(&self) -> (r: Run)
        ensures
            r.byte == self.byte,
            r.reps == 2 + group_sum(self.slice@, 9),
    {
        let mut reps: u64 = 0;
        let mut i: usize = 0;
        while i < 9
            invariant
                i <= 9,
                reps == group_sum(self.slice@, i as nat),
                reps < pow128(i as nat),
            decreases 9 - i,
        {
            let byte = self.slice[i];
            let g7 = byte & 0x7f;
            assert(g7 < 128) by (bit_vector)
                requires
                    g7 == byte & 0x7f,
            ;
            let g = g7 as u64;
            let pw = pow128_exec(i);
            proof {
                lemma_pow128_bound(i as nat);
                lemma_pow128_bound(i as nat + 1);
                assert(g * pw < 128 * pw) by (nonlinear_arith)
                    requires
                        g < 128,
                        pw >= 1,
                ;
                assert(reps + g * pow128(i as nat) < pow128(i as nat + 1)) by (nonlinear_arith)
                    requires
                        reps < pow128(i as nat),
                        g < 128,
                        pow128(i as nat + 1) == 128 * pow128(i as nat),
                ;
            }
            reps = reps + g * pw;
            i = i + 1;
        }
        proof {
            lemma_pow128_bound(9);
        }
        Run { byte: self.byte, reps: reps + 2 }
    }

    /// Adds a length byte; fails after nine.
    pub fn add_byte(&mut self, byte: u8) -> (r: Result<(), RleError>)
        ensures
            old(self).byte_count >= 9 ==> r == Err::<(), RleError>(RleError::OverlyLongRun) && *final(self)
                == *old(self),
            old(self).byte_count < 9 ==> r is Ok && final(self).byte == old(self).byte && final(self).byte_count
                == old(self).byte_count + 1 && final(self).slice@ == old(self).slice@.update(
                old(self).byte_count as int,
                byte,
            ),
    {
        if self.byte_count >= 9 {
            Err(RleError::OverlyLongRun)
        } else {
            self.slice[self.byte_count as usize] = byte;
            self.byte_count = self.byte_count + 1;
            Ok(())
        }
    }
}

/// `128` to the power `i`.
pub open spec fn pow128(i: nat) -> nat
    decreases i,
{
    if i == 0 {
        1
    } else {
        128 * pow128((i - 1) as nat)
    }
}

/// The value of the first `k` seven-bit groups of `s`.
pub open spec fn group_sum(s: Seq<u8>, k: nat) -> nat
    decreases k,
{
    if k == 0 {
        0
    } else {
        group_sum(s, (k - 1) as nat) + (s[k - 1] & 0x7f) as nat * pow128((k - 1) as nat)
    }
}

proof fn lemma_pow128_bound(i: nat)
    requires
        i <= 9,
    ensures
        1 <= pow128(i) <= pow128(9),
        pow128(9) == 0x8000000000000000,
        pow128(i + 1) == 128 * pow128(i),
    decreases i,
{
    reveal_with_fuel(pow128, 10);
    if i > 0 {
        lemma_pow128_bound((i - 1) as nat);
    }
}

fn pow128_exec(i: usize) -> (r: u64)
    requires
        i < 9,
    ensures
        r == pow128(i as nat),
{
    let mut r: u64 = 1;
    let mut k: usize = 0;
    while k < i
        invariant
            k <= i < 9,
            r == pow128(k as nat),
        decreases i - k,
    {
        proof {
            lemma_pow128_bound(k as nat);
            lemma_pow128_bound(k as nat + 1);
        }
        r = r * 128;
        k = k + 1;
    }
    r
}

/// Appends `run.reps` copies of `run.byte`.
fn emit_run(out: &mut Vec<u8>, run: &Run)
    ensures
        final(out)@ == old(out)@ + Seq::new(run.reps as nat, |k: int| run.byte),
{
    let ghost o0 = out@;
    let mut k: u64 = 0;
    while k < run.reps
        invariant
            k <= run.reps,
            out@ == o0 + Seq::new(k as nat, |j: int| run.byte),
        decreases run.reps - k,
    {
        out.push(run.byte);
        proof {
            assert(o0 + Seq::new((k + 1) as nat, |j: int| run.byte) =~= (o0 + Seq::new(k as nat, |j: int| run.byte)).push(
                run.byte,
            ));
        }
        k = k + 1;
    }
}

/// Where the decoder stands between two input bytes.
pub enum DecoderState {
    /// No byte pending.
    Clean,
    /// One byte read, not yet known to start a run.
    Single(u8),
    /// A run's two bytes read; its length bytes being collected.
    Run(RunBuilder),
}

/// Decodes run-length coded bytes. A run whose length bytes end with the
/// input counts with the length bytes read.
pub fn decode(input: &[u8]) -> (r: Result<Vec<u8>, RleError>)
    ensures
        input@.len() == 0 ==> (r matches Ok(v) && v@.len() == 0),
        input@.len() == 1 ==> (r matches Ok(v) && v@ == input@),
{
    let mut out: Vec<u8> = Vec::new();
    let mut state = DecoderState::Clean;
    let n = input.len();
    let mut i: usize = 0;
    while i < n
        invariant
            i <= n == input@.len(),
            i == 0 ==> state is Clean && out@.len() == 0,
            i == 1 ==> state == DecoderState::Single(input@[0]) && out@.len() == 0,
        decreases n - i,
    {
        let byte = input[i];
        state = match state {
            DecoderState::Clean => DecoderState::Single(byte),
            DecoderState::Single(current) => {
                if byte == current {
                    DecoderState::Run(RunBuilder::new(byte))
                } else {
                    emit_run(&mut out, &Run { byte: current, reps: 1 });
                    DecoderState::Single(byte)
                }
            },
            DecoderState::Run(builder) => {
                let mut b = builder;
                b.add_byte(byte)?;
                if byte & 0x80 != 0 {
                    let run = b.to_run();
                    emit_run(&mut out, &run);
                    DecoderState::Clean
                } else {
                    DecoderState::Run(b)
                }
            },
        };
        i = i + 1;
    }
    match state {
        DecoderState::Clean => {},
        DecoderState::Single(b) => {
            emit_run(&mut out, &Run { byte: b, reps: 1 });
            proof {
                assert(Seq::new(1nat, |k: int| b) =~= seq![b]);
                if n == 1 {
                    assert(out@ =~= input@);
                }
            }
        },
        DecoderState::Run(builder) => {
            let run = builder.to_run();
            emit_run(&mut out, &run);
        },
    }
    Ok(out)
}

} // verus!

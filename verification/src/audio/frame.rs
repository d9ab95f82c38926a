//! Assembly of incoming audio into fixed-size frames for frequency detection.

use vstd::prelude::*;

verus! {

/// Fills a frame of fixed size with samples, one at a time; when the last slot
/// is written the frame is complete and filling starts over at the first slot.
pub struct FrameAssembler<T> {
    frame: Vec<T>,
    filled: usize,
}

/// The frame and the number of slots already written after `samples` have been
/// pushed, one by one, onto `frame` with `filled` slots written.
pub open spec fn assembled<T>(frame: Seq<T>, filled: nat, samples: Seq<T>) -> (Seq<T>, nat)
    decreases samples.len(),
{
    if samples.len() == 0 {
        (frame, filled)
    } else {
        let next_frame = frame.update(filled as int, samples[0]);
        let next_filled = if filled + 1 == frame.len() { 0 } else { filled + 1 };
        assembled(next_frame, next_filled, samples.drop_first())
    }
}

/// The frames completed, in order, while `samples` are pushed one by one onto
/// `frame` with `filled` slots written: the frame as it stands right after each
/// push that writes its last slot.
pub open spec fn completed<T>(frame: Seq<T>, filled: nat, samples: Seq<T>) -> Seq<Seq<T>>
    decreases samples.len(),
{
    if samples.len() == 0 {
        Seq::empty()
    } else {
        let next_frame = frame.update(filled as int, samples[0]);
        let next_filled = if filled + 1 == frame.len() { 0 } else { filled + 1 };
        let rest = completed(next_frame, next_filled, samples.drop_first());
        if next_filled == 0 {
            seq![next_frame] + rest
        } else {
            rest
        }
    }
}

impl<T> FrameAssembler<T> {
    /// The next slot to write lies inside the frame.
    pub closed spec fn wf(self) -> bool {
        self.filled < self.frame.len()
    }

    /// The frame as it stands.
    pub closed spec fn spec_frame(self) -> Seq<T> {
        self.frame@
    }

    /// The number of slots written since the frame was last completed.
    pub closed spec fn spec_filled(self) -> nat {
        self.filled as nat
    }

    /// Starts filling `frame` (whose initial contents are overwritten in order)
    /// from its first slot.
    pub fn new(frame: Vec<T>) -> (assembler: FrameAssembler<T>)
        requires
            frame.len() > 0,
        ensures
            assembler.wf(),
            assembler.spec_frame() == frame@,
            assembler.spec_filled() == 0,
    {
        FrameAssembler { frame, filled: 0 }
    }

    /// The frame size.
    pub fn frame_size(&self) -> (size: usize)
        requires
            self.wf(),
        ensures
            size == self.spec_frame().len(),
            size > 0,
    {
        self.frame.len()
    }

    /// The frame as it stands; after [`push`](Self::push) returned `true` it
    /// holds the samples of the completed frame in order.
    pub fn frame(&self) -> (frame: &[T])
        ensures
            frame@ == self.spec_frame(),
    {
        self.frame.as_slice()
    }

    /// The number of slots written since the frame was last completed.
    pub fn filled(&self) -> (filled: usize)
        ensures
            filled == self.spec_filled(),
    {
        self.filled
    }

    /// Writes `sample` into the next slot; returns `true` when that completes
    /// the frame, after which filling starts over at the first slot.
    pub fn push(&mut self, sample: T) -> (complete: bool)
        requires
            old(self).wf(),
        ensures
            final(self).wf(),
            final(self).spec_frame().len() == old(self).spec_frame().len(),
            (final(self).spec_frame(), final(self).spec_filled()) == assembled(
                old(self).spec_frame(),
                old(self).spec_filled(),
                seq![sample],
            ),
            final(self).spec_frame() == old(self).spec_frame().update(
                old(self).spec_filled() as int,
                sample,
            ),
            complete == (old(self).spec_filled() + 1 == old(self).spec_frame().len()),
            completed(old(self).spec_frame(), old(self).spec_filled(), seq![sample]) == if complete {
                seq![final(self).spec_frame()]
            } else {
                Seq::<Seq<T>>::empty()
            },
            final(self).spec_filled() == if complete {
                0
            } else {
                old(self).spec_filled() + 1
            },
    {
        let ghost old_frame = self.frame@;
        let ghost old_filled = self.filled as nat;
        let i = self.filled;
        self.frame.set(i, sample);
        let complete = i + 1 == self.frame.len();
        if complete {
            self.filled = 0;
        } else {
            self.filled = i + 1;
        }
        proof {
            let next_filled: nat = if old_filled + 1 == old_frame.len() { 0 } else { old_filled + 1 };
            assert(seq![sample].drop_first() =~= Seq::<T>::empty());
            assert(assembled(old_frame.update(old_filled as int, sample), next_filled, Seq::<T>::empty())
                == (old_frame.update(old_filled as int, sample), next_filled));
            assert(completed(old_frame.update(old_filled as int, sample), next_filled, Seq::<T>::empty())
                =~= Seq::<Seq<T>>::empty());
            assert(seq![old_frame.update(old_filled as int, sample)] + Seq::<Seq<T>>::empty()
                =~= seq![old_frame.update(old_filled as int, sample)]);
        }
        complete
    }
}

/// Pushing samples one at a time writes them into consecutive slots: as long as
/// they fit in the rest of the frame, they land at `filled..filled + k` in
/// order, the other slots keep their contents, and the count wraps to 0 exactly
/// when the frame is full. In particular a whole frame of samples pushed from
/// the first slot is the frame that comes out.
pub proof fn lemma_assembled_in_order<T>(frame: Seq<T>, filled: nat, samples: Seq<T>)
    requires
        filled < frame.len(),
        filled + samples.len() <= frame.len(),
    ensures
        assembled(frame, filled, samples).0 == frame.subrange(0, filled as int) + samples
            + frame.subrange((filled + samples.len()) as int, frame.len() as int),
        assembled(frame, filled, samples).1 == if filled + samples.len() == frame.len() {
            0
        } else {
            filled + samples.len()
        },
        completed(frame, filled, samples) == if filled + samples.len() == frame.len()
            && samples.len() > 0 {
            seq![assembled(frame, filled, samples).0]
        } else {
            Seq::<Seq<T>>::empty()
        },
    decreases samples.len(),
{
    if samples.len() > 0 {
        let next_frame = frame.update(filled as int, samples[0]);
        let rest = samples.drop_first();
        let next_filled: nat = if filled + 1 == frame.len() { 0 } else { filled + 1 };
        assert(assembled(frame, filled, samples) == assembled(next_frame, next_filled, rest));
        if filled + 1 == frame.len() {
            assert(rest.len() == 0);
            assert(assembled(next_frame, next_filled, rest) == (next_frame, next_filled));
            assert(completed(next_frame, next_filled, rest) =~= Seq::<Seq<T>>::empty());
            assert(seq![next_frame] + Seq::<Seq<T>>::empty() =~= seq![next_frame]);
            assert(next_frame =~= frame.subrange(0, filled as int) + samples + frame.subrange(
                (filled + samples.len()) as int,
                frame.len() as int,
            ));
        } else {
            lemma_assembled_in_order(next_frame, filled + 1, rest);
            assert(completed(frame, filled, samples) == completed(next_frame, next_filled, rest));
            assert(next_frame.subrange(0, (filled + 1) as int) + rest + next_frame.subrange(
                (filled + 1 + rest.len()) as int,
                next_frame.len() as int,
            ) =~= frame.subrange(0, filled as int) + samples + frame.subrange(
                (filled + samples.len()) as int,
                frame.len() as int,
            ));
        }
    } else {
        assert(frame.subrange(0, filled as int) + samples + frame.subrange(
            filled as int,
            frame.len() as int,
        ) =~= frame);
    }
}

/// Pushing `a` and then `b` is pushing `a + b`: the state after both is the
/// state after `b` from the state after `a`, and the frames completed are those
/// completed by `a` followed by those completed by `b`. The frame keeps its size.
pub proof fn lemma_assembled_concat<T>(frame: Seq<T>, filled: nat, a: Seq<T>, b: Seq<T>)
    requires
        filled < frame.len(),
    ensures
        assembled(frame, filled, a + b) == assembled(
            assembled(frame, filled, a).0,
            assembled(frame, filled, a).1,
            b,
        ),
        completed(frame, filled, a + b) == completed(frame, filled, a) + completed(
            assembled(frame, filled, a).0,
            assembled(frame, filled, a).1,
            b,
        ),
        assembled(frame, filled, a).0.len() == frame.len(),
    decreases a.len(),
{
    if a.len() == 0 {
        assert(a + b =~= b);
        assert(completed(frame, filled, a) + completed(frame, filled, b) =~= completed(frame, filled, b));
    } else {
        let next_frame = frame.update(filled as int, a[0]);
        let next_filled: nat = if filled + 1 == frame.len() { 0 } else { filled + 1 };
        assert((a + b).drop_first() =~= a.drop_first() + b);
        assert((a + b)[0] == a[0]);
        lemma_assembled_concat(next_frame, next_filled, a.drop_first(), b);
        let after = assembled(frame, filled, a);
        let tail = completed(after.0, after.1, b);
        if next_filled == 0 {
            assert(seq![next_frame] + (completed(next_frame, next_filled, a.drop_first()) + tail)
                =~= (seq![next_frame] + completed(next_frame, next_filled, a.drop_first())) + tail);
        }
    }
}

/// A whole frame of samples pushed from the first slot is exactly the frame
/// that comes out, and filling starts over.
pub proof fn lemma_whole_frame<T>(frame: Seq<T>, samples: Seq<T>)
    requires
        frame.len() > 0,
        samples.len() == frame.len(),
    ensures
        assembled(frame, 0, samples) == (samples, 0nat),
{
    lemma_assembled_in_order(frame, 0, samples);
    assert(frame.subrange(0, 0) + samples + frame.subrange(
        samples.len() as int,
        frame.len() as int,
    ) =~= samples);
}

/// The `j`-th block of `size` samples.
pub open spec fn block<T>(samples: Seq<T>, size: nat, j: int) -> Seq<T> {
    samples.subrange(j * size, (j + 1) * size)
}

/// Pushing `k` whole frames of samples from the first slot completes exactly
/// the consecutive, non-overlapping blocks `samples[j*N..(j+1)*N]` for
/// `j = 0..k`, in order, where `N` is the frame size; filling then starts over,
/// and the frame holds the last block.
pub proof fn lemma_frames_in_order<T>(frame: Seq<T>, samples: Seq<T>, k: nat)
    requires
        frame.len() > 0,
        samples.len() == k * frame.len(),
    ensures
        completed(frame, 0, samples) == Seq::new(k, |j: int| block(samples, frame.len(), j)),
        assembled(frame, 0, samples).1 == 0,
        assembled(frame, 0, samples).0.len() == frame.len(),
        k > 0 ==> assembled(frame, 0, samples).0 == block(samples, frame.len(), k - 1),
    decreases k,
{
    let n = frame.len();
    if k == 0 {
        assert(samples.len() == 0) by (nonlinear_arith)
            requires
                samples.len() == k * n,
                k == 0,
        ;
        assert(completed(frame, 0, samples) =~= Seq::new(k, |j: int| block(samples, n, j)));
    } else {
        let k1 = (k - 1) as nat;
        assert(k1 * n + n == k * n) by (nonlinear_arith)
            requires
                k1 == k - 1,
        ;
        assert(0 <= k1 * n) by (nonlinear_arith);
        let p = samples.subrange(0, (k1 * n) as int);
        let q = samples.subrange((k1 * n) as int, samples.len() as int);
        assert(p + q =~= samples);
        lemma_frames_in_order(frame, p, k1);
        let after = assembled(frame, 0, p);
        lemma_assembled_concat(frame, 0, p, q);
        lemma_whole_frame(after.0, q);
        lemma_assembled_in_order(after.0, 0, q);
        assert(completed(after.0, 0, q) == seq![q]);
        assert(q =~= block(samples, n, k - 1));
        assert forall|j: int| 0 <= j < k1 implies block(p, n, j) == block(samples, n, j) by {
            assert((j + 1) * n <= k1 * n) by (nonlinear_arith)
                requires
                    j + 1 <= k1,
                    n > 0,
            ;
            assert(j * n >= 0) by (nonlinear_arith)
                requires
                    j >= 0,
                    n > 0,
            ;
            assert(j * n <= (j + 1) * n) by (nonlinear_arith)
                requires
                    n > 0,
            ;
            assert(block(p, n, j) =~= block(samples, n, j));
        }
        assert(completed(frame, 0, samples) =~= Seq::new(k, |j: int| block(samples, n, j)));
    }
}

/// The samples of the first channel of interleaved audio with `channels`
/// channels: every `channels`-th sample, starting with the first.
pub fn first_channel<T: Copy>(samples: &[T], channels: usize) -> (mono: Vec<T>)
    requires
        channels > 0,
    ensures
        mono.len() == (samples.len() + channels - 1) / channels as int,
        forall|k: int| 0 <= k < mono.len() ==> #[trigger] mono@[k] == samples@[k * channels],
{
    let len = samples.len();
    proof {
        vstd::arithmetic::div_mod::lemma_fundamental_div_mod(len as int, channels as int);
        if len % channels != 0 {
            assert(len / channels < usize::MAX) by (nonlinear_arith)
                requires
                    channels > 1 || len % channels == 0,
                    len == channels * (len / channels) + len % channels,
                    len <= usize::MAX,
                    len % channels != 0,
            {
            }
        }
    }
    let count: usize = len / channels + if len % channels != 0 { 1 } else { 0 };
    proof {
        let n = len as int;
        let c = channels as int;
        vstd::arithmetic::div_mod::lemma_fundamental_div_mod(n, c);
        vstd::arithmetic::div_mod::lemma_fundamental_div_mod(n + c - 1, c);
        assert(count == (n + c - 1) / c) by (nonlinear_arith)
            requires
                c > 0,
                n == c * (n / c) + n % c,
                0 <= n % c < c,
                n + c - 1 == c * ((n + c - 1) / c) + (n + c - 1) % c,
                0 <= (n + c - 1) % c < c,
                count == n / c + if n % c != 0 { 1int } else { 0int },
        ;
        assert((count - 1) * c < n || count == 0) by (nonlinear_arith)
            requires
                c > 0,
                n == c * (n / c) + n % c,
                0 <= n % c < c,
                count == n / c + if n % c != 0 { 1int } else { 0int },
        ;
    }
    let mut mono: Vec<T> = Vec::new();
    let mut k: usize = 0;
    while k < count
        invariant
            channels > 0,
            len == samples.len(),
            k <= count,
            mono.len() == k,
            (count - 1) * channels < len || count == 0,
            forall|j: int| 0 <= j < mono.len() ==> #[trigger] mono@[j] == samples@[j * channels],
        decreases count - k,
    {
        proof {
            assert(k * channels <= (count - 1) * channels) by (nonlinear_arith)
                requires
                    k < count,
                    channels > 0,
            ;
        }
        mono.push(samples[k * channels]);
        k = k + 1;
    }
    mono
}

} // verus!

//! Process supervision decisions: output redaction, bounded capture, sticky
//! cancellation and the stop/exit-code rules of a supervised child. Starting,
//! signalling and reading processes is left to the caller.
use vstd::prelude::*;
use std::sync::Arc;
use std::sync::atomic::{AtomicI32, Ordering};

verus! {

/// Whether `secret` occurs in `input` at position `p`.
pub open spec fn occurs(input: Seq<u8>, secret: Seq<u8>, p: int) -> bool {
    0 <= p && p + secret.len() <= input.len() && input.subrange(p, p + secret.len()) == secret
}

/// Byte `q` of `input` lies in an occurrence of one of `secrets` that starts before `bound`.
pub open spec fn covered_from(input: Seq<u8>, secrets: Seq<Seq<u8>>, q: int, bound: int) -> bool {
    exists|p: int, k: int|
        0 <= k < secrets.len() && p < bound && p <= q < p + secrets[k].len() && #[trigger] occurs(
            input,
            secrets[k],
            p,
        )
}

/// Byte `q` of `input` lies in some occurrence of one of `secrets`.
pub open spec fn masked(input: Seq<u8>, secrets: Seq<Seq<u8>>, q: int) -> bool {
    covered_from(input, secrets, q, q + 1)
}

/// The bytes written in place of a run of secret bytes: ASCII `[REDACTED]`.
pub open spec fn redaction_mark() -> Seq<u8> {
    seq![91u8, 82u8, 69u8, 68u8, 65u8, 67u8, 84u8, 69u8, 68u8, 93u8]
}

/// Whether the byte before position `i` was withheld (`start` for the first byte).
pub open spec fn masked_before(input: Seq<u8>, secrets: Seq<Seq<u8>>, i: int, start: bool) -> bool {
    if i <= 0 {
        start
    } else {
        masked(input, secrets, i - 1)
    }
}

/// What byte `i` contributes: itself when it is no secret byte, the mark when
/// it starts a run of secret bytes, nothing inside such a run.
pub open spec fn piece(input: Seq<u8>, secrets: Seq<Seq<u8>>, i: int, before: bool) -> Seq<u8> {
    if !masked(input, secrets, i) {
        seq![input[i]]
    } else if before {
        Seq::empty()
    } else {
        redaction_mark()
    }
}

/// The redacted rendering of the first `e` bytes of `input`.
pub open spec fn shown(input: Seq<u8>, secrets: Seq<Seq<u8>>, e: int, start: bool) -> Seq<u8>
    decreases e,
{
    if e <= 0 {
        Seq::empty()
    } else {
        shown(input, secrets, e - 1, start) + piece(
            input,
            secrets,
            e - 1,
            masked_before(input, secrets, e - 1, start),
        )
    }
}

/// `input` with every maximal run of bytes that lie in occurrences of secrets
/// (overlapping or adjacent ones included) replaced by one mark.
pub open spec fn redacted(input: Seq<u8>, secrets: Seq<Seq<u8>>) -> Seq<u8> {
    shown(input, secrets, input.len() as int, false)
}

/// The byte patterns of the non-empty `secrets`, in order.
pub open spec fn secret_patterns(secrets: Seq<String>) -> Seq<Seq<u8>>
    decreases secrets.len(),
{
    if secrets.len() == 0 {
        Seq::empty()
    } else {
        let rest = secret_patterns(secrets.drop_last());
        let bytes = vstd::utf8::encode_utf8(secrets.last()@);
        if bytes.len() > 0 {
            rest.push(bytes)
        } else {
            rest
        }
    }
}

/// The longest pattern length, at least one.
pub open spec fn longest(patterns: Seq<Seq<u8>>) -> nat
    decreases patterns.len(),
{
    if patterns.len() == 0 {
        1
    } else {
        let rest = longest(patterns.drop_last());
        if patterns.last().len() > rest {
            patterns.last().len()
        } else {
            rest
        }
    }
}

proof fn lemma_longest(patterns: Seq<Seq<u8>>)
    ensures
        longest(patterns) >= 1,
        forall|k: int| 0 <= k < patterns.len() ==> (#[trigger] patterns[k]).len() <= longest(patterns),
    decreases patterns.len(),
{
    if patterns.len() > 0 {
        lemma_longest(patterns.drop_last());
        assert forall|k: int| 0 <= k < patterns.len() implies (#[trigger] patterns[k]).len() <= longest(patterns) by {
            if k < patterns.len() - 1 {
                assert(patterns[k] == patterns.drop_last()[k]);
            }
        }
    }
}

/// The abstract state of a redactor: its patterns, the bytes it has consumed
/// since it was created or last finished, how many of them it has written out,
/// and whether a mark was open when that stretch began.
pub struct RedactorView {
    pub secrets: Seq<Seq<u8>>,
    pub input: Seq<u8>,
    pub emitted: nat,
    /// How many consumed bytes are held back: the length of `pending`.
    pub held: nat,
    /// The most bytes that may be held back after a `push`, exclusive.
    pub window: nat,
    pub start: bool,
}

/// Streaming redaction of secret byte patterns, holding back no more bytes
/// than the longest pattern, so that a match split across chunks is still
/// masked.
pub struct Redactor {
    secrets: Vec<Vec<u8>>,
    /// Bytes not yet written, each with whether it is known to be secret.
    pub pending: Vec<(u8, bool)>,
    lookahead: usize,
    masking: bool,
    consumed: Ghost<Seq<u8>>,
    start: Ghost<bool>,
}

impl View for Redactor {
    type V = RedactorView;

    closed spec fn view(&self) -> RedactorView {
        RedactorView {
            secrets: self.secrets@.map_values(|v: Vec<u8>| v@),
            input: self.consumed@,
            emitted: (self.consumed@.len() - self.pending@.len()) as nat,
            held: self.pending@.len(),
            window: self.lookahead as nat,
            start: self.start@,
        }
    }
}

/// `push_mark` appends the mark.
fn push_mark(output: &mut Vec<u8>)
    ensures
        final(output)@ == old(output)@ + redaction_mark(),
{
    output.push(91);
    output.push(82);
    output.push(69);
    output.push(68);
    output.push(65);
    output.push(67);
    output.push(84);
    output.push(69);
    output.push(68);
    output.push(93);
    assert(final(output)@ =~= old(output)@ + redaction_mark());
}

/// Extending the input does not change which of the first `bound` positions'
/// occurrences are seen, as long as every such occurrence already fits.
proof fn lemma_covered_stable(input: Seq<u8>, more: Seq<u8>, secrets: Seq<Seq<u8>>, lookahead: int, q: int, bound: int)
    requires
        forall|k: int| 0 <= k < secrets.len() ==> (#[trigger] secrets[k]).len() <= lookahead,
        bound <= 0 || bound - 1 + lookahead <= input.len(),
    ensures
        covered_from(input, secrets, q, bound) == covered_from(input + more, secrets, q, bound),
{
    let all = input + more;
    if covered_from(all, secrets, q, bound) {
        let (p, k) = choose|p: int, k: int|
            0 <= k < secrets.len() && p < bound && p <= q < p + secrets[k].len() && #[trigger] occurs(all, secrets[k], p);
        assert(all.subrange(p, p + secrets[k].len()) =~= input.subrange(p, p + secrets[k].len()));
        assert(occurs(input, secrets[k], p));
    }
    if covered_from(input, secrets, q, bound) {
        let (p, k) = choose|p: int, k: int|
            0 <= k < secrets.len() && p < bound && p <= q < p + secrets[k].len() && #[trigger] occurs(input, secrets[k], p);
        assert(all.subrange(p, p + secrets[k].len()) =~= input.subrange(p, p + secrets[k].len()));
        assert(occurs(all, secrets[k], p));
    }
}

/// The rendering of positions whose occurrences all fit is unchanged by more input.
proof fn lemma_shown_stable(input: Seq<u8>, more: Seq<u8>, secrets: Seq<Seq<u8>>, lookahead: int, e: int, start: bool)
    requires
        forall|k: int| 0 <= k < secrets.len() ==> (#[trigger] secrets[k]).len() <= lookahead,
        e <= 0 || (e - 1 + lookahead <= input.len() && e <= input.len()),
    ensures
        shown(input, secrets, e, start) == shown(input + more, secrets, e, start),
    decreases e,
{
    if e > 0 {
        lemma_shown_stable(input, more, secrets, lookahead, e - 1, start);
        lemma_covered_stable(input, more, secrets, lookahead, e - 1, e);
        if e - 1 > 0 {
            lemma_covered_stable(input, more, secrets, lookahead, e - 2, e - 1);
        }
        assert((input + more)[e - 1] == input[e - 1]);
    }
}

impl Redactor {
    /// The internal consistency of a redactor between calls, or, with
    /// `full`, while it holds one byte more than between calls.
    closed spec fn consistent(&self, full: bool) -> bool {
        let secrets = self@.secrets;
        let input = self.consumed@;
        let e = self@.emitted as int;
        &&& self.lookahead >= 1
        &&& forall|k: int| 0 <= k < secrets.len() ==> 1 <= (#[trigger] secrets[k]).len() <= self.lookahead
        &&& self.pending@.len() <= input.len()
        &&& if full {
            self.pending@.len() <= self.lookahead
        } else {
            self.pending@.len() < self.lookahead
        }
        &&& forall|j: int|
            0 <= j < self.pending@.len() ==> (#[trigger] self.pending@[j]).0 == input[e + j] && self.pending@[j].1
                == covered_from(input, secrets, e + j, e)
        &&& self.masking == masked_before(input, secrets, e, self.start@)
    }

    /// The redactor is ready for more input: it holds back a full window
    /// less one byte, unless it has written nothing of the current stretch.
    pub closed spec fn ready(&self) -> bool {
        &&& self.consistent(false)
        &&& (self@.emitted == 0 || self.pending@.len() == self.lookahead - 1)
    }

    /// Everything written so far for the current stretch of input.
    pub open spec fn written(&self) -> Seq<u8> {
        shown(self@.input, self@.secrets, self@.emitted as int, self@.start)
    }

    /// A redactor for the non-empty `secrets`.
    pub fn new(secrets: &[String]) -> (r: Self)
        ensures
            r.ready(),
            r@.secrets == secret_patterns(secrets@),
            r@.input == Seq::<u8>::empty(),
            r@.emitted == 0,
            !r@.start,
            r@.held == 0,
            r@.window == longest(r@.secrets),
    {
        let mut patterns: Vec<Vec<u8>> = Vec::new();
        let mut lookahead: usize = 1;
        let mut i: usize = 0;
        while i < secrets.len()
            invariant
                i <= secrets@.len(),
                patterns@.map_values(|v: Vec<u8>| v@) == secret_patterns(secrets@.take(i as int)),
                lookahead == longest(patterns@.map_values(|v: Vec<u8>| v@)),
                forall|k: int| 0 <= k < patterns@.len() ==> (#[trigger] patterns@[k])@.len() >= 1,
            decreases secrets@.len() - i,
        {
            let bytes = secrets[i].as_str().as_bytes();
            assert(secrets@.take(i + 1).drop_last() =~= secrets@.take(i as int));
            if bytes.len() > 0 {
                let v = vstd::slice::slice_to_vec(bytes);
                let ghost before = patterns@.map_values(|v: Vec<u8>| v@);
                let len = v.len();
                patterns.push(v);
                assert(patterns@.map_values(|v: Vec<u8>| v@) =~= before.push(bytes@));
                assert(patterns@.map_values(|v: Vec<u8>| v@).drop_last() =~= before);
                if len > lookahead {
                    lookahead = len;
                }
            }
            i = i + 1;
        }
        assert(secrets@.take(secrets@.len() as int) =~= secrets@);
        proof {
            lemma_longest(patterns@.map_values(|v: Vec<u8>| v@));
        }
        Redactor {
            secrets: patterns,
            pending: Vec::new(),
            lookahead,
            masking: false,
            consumed: Ghost(Seq::empty()),
            start: Ghost(false),
        }
    }

    /// Whether pattern `k` matches the front of the pending bytes.
    fn front_matches(&self, k: usize) -> (r: bool)
        requires
            k < self.secrets@.len(),
            self.secrets@[k as int]@.len() <= self.pending@.len(),
        ensures
            r == (forall|j: int| 0 <= j < self.secrets@[k as int]@.len() ==> self.secrets@[k as int]@[j] == (#[trigger] self.pending@[j]).0),
    {
        let secret = &self.secrets[k];
        let mut j: usize = 0;
        while j < secret.len()
            invariant
                j <= secret@.len() <= self.pending@.len(),
                secret == self.secrets@[k as int],
                forall|t: int| 0 <= t < j ==> secret@[t] == (#[trigger] self.pending@[t]).0,
            decreases secret@.len() - j,
        {
            if secret[j] != self.pending[j].0 {
                return false;
            }
            j = j + 1;
        }
        true
    }

    /// Marks the occurrences starting at the first pending byte, then writes that byte out.
    fn emit(&mut self, output: &mut Vec<u8>)
        requires
            old(self).consistent(true),
            old(self).pending@.len() >= 1,
        ensures
            final(self).consistent(false),
            final(self).secrets == old(self).secrets,
            final(self).lookahead == old(self).lookahead,
            final(self).consumed == old(self).consumed,
            final(self).start == old(self).start,
            final(self).pending@.len() == old(self).pending@.len() - 1,
            final(output)@ == old(output)@ + piece(
                old(self)@.input,
                old(self)@.secrets,
                old(self)@.emitted as int,
                masked_before(old(self)@.input, old(self)@.secrets, old(self)@.emitted as int, old(self)@.start),
            ),
    {
        let ghost secrets = self@.secrets;
        let ghost input = self.consumed@;
        let ghost e = self@.emitted as int;
        let mut k: usize = 0;
        while k < self.secrets.len()
            invariant
                secrets == self@.secrets,
                input == self.consumed@,
                e == self@.emitted as int,
                self.lookahead >= 1,
                self.pending@.len() == old(self).pending@.len(),
                self.pending@.len() + e == input.len(),
                self.secrets == old(self).secrets,
                self.lookahead == old(self).lookahead,
                self.consumed == old(self).consumed,
                self.start == old(self).start,
                self.masking == old(self).masking,
                k <= self.secrets@.len(),
                forall|j: int|
                    0 <= j < self.pending@.len() ==> (#[trigger] self.pending@[j]).0 == input[e + j] && (self.pending@[j].1
                        == (covered_from(input, secrets, e + j, e) || exists|t: int|
                        0 <= t < k && j < secrets[t].len() && #[trigger] occurs(input, secrets[t], e))),
            decreases self.secrets@.len() - k,
        {
            let n = self.secrets[k].len();
            if n <= self.pending.len() && self.front_matches(k) {
                assert forall|j: int| 0 <= j < n implies input.subrange(e, e + n)[j] == secrets[k as int][j] by {
                    assert(self.pending@[j].0 == input[e + j]);
                    assert(secrets[k as int] == self.secrets@[k as int]@);
                }
                assert(input.subrange(e, e + n) =~= secrets[k as int]);
                let mut j: usize = 0;
                while j < n
                    invariant
                        n == secrets[k as int].len() <= self.pending@.len(),
                        occurs(input, secrets[k as int], e),
                        j <= n,
                        secrets == self@.secrets,
                        input == self.consumed@,
                        e == self@.emitted as int,
                        self.pending@.len() == old(self).pending@.len(),
                        self.pending@.len() + e == input.len(),
                        self.secrets == old(self).secrets,
                        self.consumed == old(self).consumed,
                        self.lookahead == old(self).lookahead,
                        self.start == old(self).start,
                        self.masking == old(self).masking,
                        k < self.secrets@.len(),
                        forall|t: int|
                            0 <= t < self.pending@.len() ==> (#[trigger] self.pending@[t]).0 == input[e + t] && (self.pending@[t].1
                                == (covered_from(input, secrets, e + t, e) || (exists|u: int|
                                0 <= u < k && t < secrets[u].len() && #[trigger] occurs(input, secrets[u], e)) || t < j)),
                    decreases n - j,
                {
                    let byte = self.pending[j].0;
                    self.pending.set(j, (byte, true));
                    j = j + 1;
                }
            }
            k = k + 1;
        }
        assert forall|j: int| 0 <= j < self.pending@.len() implies (#[trigger] self.pending@[j]).1 == covered_from(input, secrets, e + j, e + 1) by {
            if covered_from(input, secrets, e + j, e + 1) && !covered_from(input, secrets, e + j, e) {
                let (p, t) = choose|p: int, t: int|
                    0 <= t < secrets.len() && p < e + 1 && p <= e + j < p + secrets[t].len() && #[trigger] occurs(input, secrets[t], p);
                assert(p == e);
            }
        }
        let ghost marked = self.pending@;
        let front = self.pending.remove(0);
        let (byte, secret) = front;
        assert(byte == input[e]);
        if secret && !self.masking {
            push_mark(output);
        } else if !secret {
            output.push(byte);
        }
        self.masking = secret;
        assert forall|j: int| 0 <= j < self.pending@.len() implies (#[trigger] self.pending@[j]).1 == covered_from(input, secrets, e + 1 + j, e + 1) by {
            assert(self.pending@[j] == marked[j + 1]);
        }
    }

    /// Consumes `bytes`, writing out every byte that can no longer become part
    /// of a match, with each run of secret bytes replaced by one mark.
    pub fn push(&mut self, bytes: &[u8], output: &mut Vec<u8>)
        requires
            old(self).ready(),
        ensures
            final(self).ready(),
            final(self)@.secrets == old(self)@.secrets,
            final(self)@.input == old(self)@.input + bytes@,
            final(self)@.start == old(self)@.start,
            final(self)@.window == old(self)@.window,
            final(self)@.held < final(self)@.window,
            old(self).written().is_prefix_of(final(self).written()),
            final(output)@ == old(output)@ + final(self).written().skip(old(self).written().len() as int),
    {
        let ghost out0 = output@;
        let ghost w0 = self.written();
        let mut i: usize = 0;
        while i < bytes.len()
            invariant
                i <= bytes@.len(),
                self.ready(),
                self@.secrets == old(self)@.secrets,
                self@.input == old(self)@.input + bytes@.take(i as int),
                self@.start == old(self)@.start,
                self.lookahead == old(self).lookahead,
                w0 == old(self).written(),
                w0.is_prefix_of(self.written()),
                output@ == out0 + self.written().skip(w0.len() as int),
                out0 == old(output)@,
            decreases bytes@.len() - i,
        {
            let ghost before = self.consumed@;
            let ghost w_before = self.written();
            let byte = bytes[i];
            self.pending.push((byte, false));
            proof {
                self.consumed@ = before.push(byte);
                let secrets = self@.secrets;
                let e = self@.emitted as int;
                assert(before.push(byte) == before + seq![byte]);
                assert forall|j: int| 0 <= j < self.pending@.len() implies (#[trigger] self.pending@[j]).0 == self.consumed@[e + j] && self.pending@[j].1
                    == covered_from(self.consumed@, secrets, e + j, e) by {
                    if j + 1 < self.pending@.len() {
                        lemma_covered_stable(before, seq![byte], secrets, self.lookahead as int, e + j, e);
                    } else {
                        assert(!covered_from(self.consumed@, secrets, e + j, e)) by {
                            if covered_from(self.consumed@, secrets, e + j, e) {
                                let (p, k) = choose|p: int, k: int|
                                    0 <= k < secrets.len() && p < e && p <= e + j < p + secrets[k].len() && #[trigger] occurs(self.consumed@, secrets[k], p);
                                assert(secrets[k].len() <= self.lookahead);
                            }
                        }
                    }
                }
                if e > 0 {
                    lemma_covered_stable(before, seq![byte], secrets, self.lookahead as int, e - 1, e);
                }
                lemma_shown_stable(before, seq![byte], secrets, self.lookahead as int, e, self.start@);
                assert(self.written() == w_before);
            }
            if self.pending.len() >= self.lookahead {
                let ghost e = self@.emitted as int;
                self.emit(output);
                proof {
                    assert(self.written() == w_before + piece(self.consumed@, self@.secrets, e, masked_before(self.consumed@, self@.secrets, e, self.start@)));
                    assert(w0.is_prefix_of(self.written()));
                    assert(output@ =~= out0 + self.written().skip(w0.len() as int));
                }
            }
            assert(bytes@.take(i + 1) =~= bytes@.take(i as int).push(byte));
            i = i + 1;
        }
        assert(bytes@.take(bytes@.len() as int) =~= bytes@);
    }

    /// Writes out everything still held back and starts a new stretch of input.
    pub fn finish(&mut self, output: &mut Vec<u8>)
        requires
            old(self).ready(),
        ensures
            final(self).ready(),
            final(self)@.secrets == old(self)@.secrets,
            final(self)@.input == Seq::<u8>::empty(),
            final(self)@.held == 0,
            final(self)@.window == old(self)@.window,
            old(self).written().is_prefix_of(shown(old(self)@.input, old(self)@.secrets, old(self)@.input.len() as int, old(self)@.start)),
            final(output)@ == old(output)@ + shown(old(self)@.input, old(self)@.secrets, old(self)@.input.len() as int, old(self)@.start).skip(old(self).written().len() as int),
    {
        let ghost out0 = output@;
        let ghost w0 = self.written();
        while self.pending.len() > 0
            invariant
                self.consistent(false),
                self@.secrets == old(self)@.secrets,
                self@.input == old(self)@.input,
                self@.start == old(self)@.start,
                self.lookahead == old(self).lookahead,
                w0 == old(self).written(),
                w0.is_prefix_of(self.written()),
                output@ == out0 + self.written().skip(w0.len() as int),
                out0 == old(output)@,
            decreases self.pending@.len(),
        {
            let ghost w_before = self.written();
            let ghost e = self@.emitted as int;
            self.emit(output);
            proof {
                assert(self.written() == w_before + piece(self.consumed@, self@.secrets, e, masked_before(self.consumed@, self@.secrets, e, self.start@)));
                assert(output@ =~= out0 + self.written().skip(w0.len() as int));
            }
        }
        proof {
            self.start@ = self.masking;
            self.consumed@ = Seq::empty();
        }
    }
}

/// Redacted output only grows: rendering more of the input extends what was
/// rendered before, so written output never has to be taken back.
pub proof fn law_redaction_output_only_grows(input: Seq<u8>, secrets: Seq<Seq<u8>>, e1: int, e2: int, start: bool)
    requires
        0 <= e1 <= e2,
    ensures
        shown(input, secrets, e1, start).is_prefix_of(shown(input, secrets, e2, start)),
    decreases e2 - e1,
{
    if e1 < e2 {
        law_redaction_output_only_grows(input, secrets, e1, e2 - 1, start);
    }
}

/// Redaction does not depend on how the input is cut into chunks: whatever
/// was written after consuming `e1` and then `e2` bytes, what follows at the
/// end completes exactly the redaction of the whole input.
pub proof fn law_redaction_ignores_chunking(input: Seq<u8>, secrets: Seq<Seq<u8>>, e1: int, e2: int)
    requires
        0 <= e1 <= e2 <= input.len(),
    ensures
        ({
            let w1 = shown(input, secrets, e1, false);
            let w2 = shown(input, secrets, e2, false);
            let all = redacted(input, secrets);
            w1 + w2.skip(w1.len() as int) + all.skip(w2.len() as int) == all
        }),
{
    let w1 = shown(input, secrets, e1, false);
    let w2 = shown(input, secrets, e2, false);
    let all = redacted(input, secrets);
    law_redaction_output_only_grows(input, secrets, e1, e2, false);
    law_redaction_output_only_grows(input, secrets, e2, input.len() as int, false);
    assert(w1 + w2.skip(w1.len() as int) =~= w2);
    assert(w2 + all.skip(w2.len() as int) =~= all);
}

/// Where no secret occurs, redaction leaves the input as it is.
pub proof fn law_clean_input_passes_through(input: Seq<u8>, secrets: Seq<Seq<u8>>)
    requires
        forall|p: int, k: int| 0 <= k < secrets.len() ==> !#[trigger] occurs(input, secrets[k], p),
    ensures
        redacted(input, secrets) == input,
{
    lemma_clean_prefix(input, secrets, input.len() as int);
    assert(input.take(input.len() as int) =~= input);
}

proof fn lemma_clean_prefix(input: Seq<u8>, secrets: Seq<Seq<u8>>, e: int)
    requires
        0 <= e <= input.len(),
        forall|p: int, k: int| 0 <= k < secrets.len() ==> !#[trigger] occurs(input, secrets[k], p),
    ensures
        shown(input, secrets, e, false) == input.take(e),
    decreases e,
{
    if e > 0 {
        lemma_clean_prefix(input, secrets, e - 1);
        assert(!masked(input, secrets, e - 1));
        assert(input.take(e) =~= input.take(e - 1).push(input[e - 1]));
    }
}

/// The most output a capture keeps: one mebibyte.
pub const CAPTURE_LIMIT: usize = 1048576;

/// Output collected from a version probe, bounded by `CAPTURE_LIMIT`.
pub struct Capture {
    bytes: Vec<u8>,
}

impl View for Capture {
    type V = Seq<u8>;

    closed spec fn view(&self) -> Seq<u8> {
        self.bytes@
    }
}

impl Capture {
    #[verifier::type_invariant]
    closed spec fn bounded(self) -> bool {
        self.bytes@.len() <= CAPTURE_LIMIT
    }

    /// An empty capture.
    pub fn new() -> (r: Self)
        ensures
            r@ == Seq::<u8>::empty(),
    {
        Capture { bytes: Vec::new() }
    }

    /// Appends `bytes`, or refuses them all when they would pass the limit.
    pub fn write(&mut self, bytes: &[u8]) -> (r: Result<usize, String>)
        ensures
            old(self)@.len() + bytes@.len() <= CAPTURE_LIMIT ==> r == Ok::<usize, String>(bytes@.len() as usize)
                && final(self)@ == old(self)@ + bytes@,
            old(self)@.len() + bytes@.len() > CAPTURE_LIMIT ==> (r matches Err(e) && e@
                == "Process capture exceeds 1 MiB output limit"@) && final(self)@ == old(self)@,
    {
        proof {
            use_type_invariant(&*self);
        }
        if bytes.len() > CAPTURE_LIMIT - self.bytes.len() {
            return Err(String::from_str("Process capture exceeds 1 MiB output limit"));
        }
        let mut bytes_vec: Vec<u8> = Vec::new();
        std::mem::swap(&mut bytes_vec, &mut self.bytes);
        let mut i: usize = 0;
        while i < bytes.len()
            invariant
                i <= bytes@.len(),
                bytes_vec@ == old(self)@ + bytes@.take(i as int),
                old(self)@.len() + bytes@.len() <= CAPTURE_LIMIT,
            decreases bytes@.len() - i,
        {
            bytes_vec.push(bytes[i]);
            assert(bytes@.take(i + 1) =~= bytes@.take(i as int).push(bytes[i as int]));
            i = i + 1;
        }
        assert(bytes@.take(bytes@.len() as int) =~= bytes@);
        let n = bytes.len();
        self.bytes = bytes_vec;
        Ok(n)
    }

    /// The collected bytes.
    pub fn into_bytes(self) -> (r: Vec<u8>)
        ensures
            r@ == self@,
    {
        self.bytes
    }
}

/// Shared, sticky cancellation: the first positive signal wins.
#[derive(Clone, Default)]
pub struct Cancellation(Arc<AtomicI32>);

impl Cancellation {
    /// A cancellation that has not been requested.
    pub fn new() -> Self {
        Cancellation(Arc::new(AtomicI32::new(0)))
    }

    /// Requests cancellation by `signal`, unless one was requested before;
    /// signals that are not positive are ignored.
    pub fn cancel(&self, signal: i32) {
        if signal > 0 {
            let _ = self.0.compare_exchange(0, signal, Ordering::SeqCst, Ordering::SeqCst);
        }
    }

    /// The requested signal, or 0. Another handle may change it at any time,
    /// so nothing is promised of the value read.
    pub fn signal(&self) -> i32 {
        self.0.load(Ordering::SeqCst)
    }
}

/// The exit code of a child stopped by `signal`.
pub open spec fn signal_code(signal: int) -> int {
    128 + signal
}

/// The exit code reported when a timeout stops a child.
pub const TIMEOUT_CODE: i32 = 124;

/// How long a stopping child is given before it is killed, in milliseconds.
pub const GRACE_MS: u64 = 1000;

/// What to do before starting a command, given the cancellation signal then.
pub open spec fn launch_result(command: Seq<String>, signal: i32) -> Result<Option<i32>, Seq<char>> {
    if command.len() == 0 {
        Err("Cannot run an empty command"@)
    } else if signal != 0 {
        Ok(Some((128 + signal) as i32))
    } else {
        Ok(None)
    }
}

/// Decides whether a command may start: an empty command is an error, a
/// pending cancellation yields its exit code without starting anything, and
/// otherwise (`None`) the command is started.
pub fn launch(command: &[String], signal: i32) -> (r: Result<Option<i32>, String>)
    requires
        signal <= i32::MAX - 128,
    ensures
        match launch_result(command@, signal) {
            Ok(x) => r == Ok::<Option<i32>, String>(x),
            Err(e) => r matches Err(m) && m@ == e,
        },
{
    if command.len() == 0 {
        return Err(String::from_str("Cannot run an empty command"));
    }
    if signal != 0 {
        return Ok(Some(128 + signal));
    }
    Ok(None)
}

/// How a running child is asked to stop.
#[derive(Debug, Clone, Copy, PartialEq, Eq, Structural)]
pub enum Stop {
    /// Pass the cancellation signal on to the child's group.
    Forward(i32),
    /// Send the termination signal, because the timeout expired.
    Terminate,
}

/// The signals to send to a child's group on one poll.
#[derive(Debug, Clone, Copy, PartialEq, Eq, Structural)]
pub struct Actions {
    pub stop: Option<Stop>,
    pub kill: bool,
}

/// The stop/exit-code state of a supervised child: whether it is being
/// stopped, since when (milliseconds after it started) and with which code.
#[derive(Debug, Clone, Copy, PartialEq, Eq, Structural)]
pub struct Supervision {
    pub stopping: Option<Stopping>,
}

/// A stop in progress: when it began and the exit code it will report.
#[derive(Debug, Clone, Copy, PartialEq, Eq, Structural)]
pub struct Stopping {
    pub since: u64,
    pub code: i32,
}

/// The state and actions after a poll at `now` milliseconds after the start,
/// with cancellation `signal` and an optional `timeout` in milliseconds.
pub open spec fn polled(s: Supervision, signal: i32, now: u64, timeout: Option<u64>) -> (Supervision, Actions) {
    let (next, stop) = match s.stopping {
        Some(_) => (s, None),
        None => if signal != 0 {
            (Supervision { stopping: Some(Stopping { since: now, code: (128 + signal) as i32 }) }, Some(Stop::Forward(signal)))
        } else if timeout matches Some(limit) && now >= limit {
            (Supervision { stopping: Some(Stopping { since: now, code: TIMEOUT_CODE }) }, Some(Stop::Terminate))
        } else {
            (s, None)
        },
    };
    let kill = match next.stopping {
        Some(st) => now >= st.since && now - st.since >= GRACE_MS,
        None => false,
    };
    (next, Actions { stop, kill })
}

/// The exit code of a child whose supervision ended in `s`: the stop code if
/// it was being stopped, else its own exit code, else 128 plus the signal
/// that ended it (1 when unknown).
pub open spec fn exit_code_of(s: Supervision, code: Option<i32>, signal: Option<i32>) -> int {
    match s.stopping {
        Some(st) => st.code as int,
        None => match code {
            Some(c) => c as int,
            None => match signal {
                Some(n) => signal_code(n as int),
                None => signal_code(1),
            },
        },
    }
}

impl Supervision {
    /// A child that is not being stopped.
    pub fn new() -> (r: Self)
        ensures
            r.stopping.is_none(),
    {
        Supervision { stopping: None }
    }

    /// One poll: starts stopping the child on cancellation or timeout, and
    /// kills it once it has been stopping for the grace period.
    pub fn poll(&mut self, signal: i32, now: u64, timeout: Option<u64>) -> (r: Actions)
        requires
            signal <= i32::MAX - 128,
        ensures
            (*final(self), r) == polled(*old(self), signal, now, timeout),
    {
        let mut stop: Option<Stop> = None;
        if self.stopping.is_none() {
            if signal != 0 {
                self.stopping = Some(Stopping { since: now, code: 128 + signal });
                stop = Some(Stop::Forward(signal));
            } else {
                match timeout {
                    Some(limit) => {
                        if now >= limit {
                            self.stopping = Some(Stopping { since: now, code: TIMEOUT_CODE });
                            stop = Some(Stop::Terminate);
                        }
                    },
                    None => {},
                }
            }
        }
        let kill = match self.stopping {
            Some(st) => now >= st.since && now - st.since >= GRACE_MS,
            None => false,
        };
        Actions { stop, kill }
    }

    /// The exit code to report once the child has exited.
    pub fn exit_code(&self, code: Option<i32>, signal: Option<i32>) -> (r: i32)
        requires
            signal matches Some(n) ==> n <= i32::MAX - 128,
        ensures
            r == exit_code_of(*self, code, signal),
    {
        match self.stopping {
            Some(st) => st.code,
            None => match code {
                Some(c) => c,
                None => match signal {
                    Some(n) => 128 + n,
                    None => 129,
                },
            },
        }
    }
}

/// The grace period before a kill: a poll asks to kill only once a stop has
/// been in progress for at least one second (1000 ms), and does so from then
/// on. The poll that begins a stop never kills, and a stop once begun is kept
/// with its start and code.
pub proof fn law_kill_follows_a_full_second_of_stopping(s: Supervision, signal: i32, now: u64, timeout: Option<u64>)
    ensures
        polled(s, signal, now, timeout).0.stopping matches Some(st) && now < st.since + 1000 ==> !polled(
            s,
            signal,
            now,
            timeout,
        ).1.kill,
        polled(s, signal, now, timeout).0.stopping matches Some(st) && now >= st.since + 1000 ==> polled(
            s,
            signal,
            now,
            timeout,
        ).1.kill,
        polled(s, signal, now, timeout).0.stopping.is_none() ==> !polled(s, signal, now, timeout).1.kill,
        s.stopping.is_none() ==> !polled(s, signal, now, timeout).1.kill,
        s.stopping.is_some() ==> polled(s, signal, now, timeout).0 == s && polled(s, signal, now, timeout).1.stop.is_none(),
{
}

} // verus!

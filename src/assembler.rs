//! The buffered value assembler: drains the tokenizer of the current chunk,
//! holds pieces of a value back until a delimiter ends it, and decides what to
//! do with each item that the chunk source hands over.

use crate::bytes_model::{byte_at, bytes_from_vec, bytes_view};
use crate::tokenizer::{is_clean, is_delimiter, lead_of, step, Chunk, Value};
use bytes::Bytes;
use vstd::prelude::*;

verus! {

/// One draining step over the bytes `s` still to come, from a state that has
/// (`started`) or has not yet seen a byte of the stream and holds the bytes
/// `cur` of the value in progress: the value that the next delimiter ends, if
/// `s` holds one, and the state and bytes left after it. Every delimiter ends
/// the value in progress, but for one that opens the stream.
pub open spec fn drain(started: bool, cur: Seq<u8>, s: Seq<u8>) -> (
    Option<Seq<u8>>,
    bool,
    Seq<u8>,
    Seq<u8>,
)
    decreases s.len(),
{
    if s.len() == 0 {
        (None, started, cur, s)
    } else if is_delimiter(s[0]) {
        if started {
            (Some(cur), true, Seq::empty(), s.drop_first())
        } else {
            drain(true, cur, s.drop_first())
        }
    } else {
        drain(true, cur.push(s[0]), s.drop_first())
    }
}

/// Bytes without a delimiter go straight into the value in progress.
pub proof fn lemma_drain_clean_prefix(started: bool, cur: Seq<u8>, b: Seq<u8>, rest: Seq<u8>)
    requires
        is_clean(b),
    ensures
        drain(started, cur, b + rest) == drain(started || b.len() > 0, cur + b, rest),
    decreases b.len(),
{
    if b.len() == 0 {
        assert(b + rest =~= rest);
        assert(cur + b =~= cur);
    } else {
        assert((b + rest)[0] == b[0]);
        assert((b + rest).drop_first() =~= b.drop_first() + rest);
        lemma_drain_clean_prefix(true, cur.push(b[0]), b.drop_first(), rest);
        assert(cur.push(b[0]) + b.drop_first() =~= cur + b);
    }
}

/// The value in progress only ever takes bytes that are no delimiter.
pub proof fn lemma_drain_clean(started: bool, cur: Seq<u8>, s: Seq<u8>)
    requires
        is_clean(cur),
    ensures
        drain(started, cur, s).0 matches Some(v) ==> is_clean(v),
        is_clean(drain(started, cur, s).2),
        drain(started, cur, s).0 is Some ==> drain(started, cur, s).3.len() < s.len(),
        drain(started, cur, s).0 is None ==> drain(started, cur, s).3.len() == 0,
        started ==> drain(started, cur, s).1,
        !drain(started, cur, s).1 ==> drain(started, cur, s).2 == cur,
    decreases s.len(),
{
    if s.len() > 0 {
        if is_delimiter(s[0]) {
            if !started {
                lemma_drain_clean(true, cur, s.drop_first());
            }
            assert(is_clean(Seq::<u8>::empty()));
        } else {
            assert(is_clean(cur.push(s[0]))) by {
                assert forall|j: int| 0 <= j < cur.push(s[0]).len() implies !is_delimiter(
                    #[trigger] cur.push(s[0])[j],
                ) by {
                    if j < cur.len() {
                        assert(cur.push(s[0])[j] == cur[j]);
                    }
                }
            }
            lemma_drain_clean(true, cur.push(s[0]), s.drop_first());
        }
    }
}

pub proof fn lemma_nonempty_pieces(p: Seq<Seq<u8>>)
    requires
        forall|i: int| 0 <= i < p.len() ==> (#[trigger] p[i]).len() > 0,
    ensures
        p.len() > 0 <==> p.flatten().len() > 0,
{
    if p.len() > 0 {
        p.lemma_flatten_length_ge_single_element_length(0);
    } else {
        assert(p.flatten() =~= Seq::<u8>::empty());
    }
}

/// A finished field value.
pub struct FullValue(Bytes);

impl View for FullValue {
    type V = Seq<u8>;

    closed spec fn view(&self) -> Seq<u8> {
        bytes_view(self.0)
    }
}

impl FullValue {
    /// The value's bytes.
    pub fn into_bytes(self) -> (r: Bytes)
        ensures
            bytes_view(r) == self@,
    {
        self.0
    }

    /// The value's bytes, borrowed.
    pub fn as_bytes(&self) -> (r: &Bytes)
        ensures
            bytes_view(*r) == self@,
    {
        &self.0
    }
}

/// What the driver of a [`BufferedValueStream`] does after handing it one
/// item of the chunk source.
pub enum Action<E> {
    /// Deliver this value.
    Emit(FullValue),
    /// Deliver the source's error.
    Fail(E),
    /// Nothing to deliver yet: pull the next item of the source.
    Pull,
    /// The stream of values has ended.
    Finished,
}

/// Reassembles whole field values from the chunks of `stream`.
pub struct BufferedValueStream<S> {
    stream: S,
    chunk: Chunk,
    /// A fragment cut from the chunk and not yet consumed.
    peeked: Option<Value>,
    /// The delimiter that stood before `peeked`, while it is not yet handled.
    lead: Option<u8>,
    /// Whether a byte of the stream has been handled.
    started: bool,
    partial_buf: Vec<Bytes>,
}

impl<S> BufferedValueStream<S> {
    /// The source of chunks.
    pub closed spec fn source(&self) -> S {
        self.stream
    }

    /// The pieces of the value in progress, in order.
    pub closed spec fn pending(&self) -> Seq<Seq<u8>> {
        self.partial_buf@.map_values(|b: Bytes| bytes_view(b))
    }

    /// The bytes of the value in progress.
    pub open spec fn pending_bytes(&self) -> Seq<u8> {
        self.pending().flatten()
    }

    /// Whether a byte of the stream has been handled.
    pub closed spec fn started(&self) -> bool {
        self.started
    }

    /// The bytes of the current chunk not yet handled, in order.
    pub closed spec fn upcoming(&self) -> Seq<u8> {
        let lead = match self.lead {
            Some(d) => seq![d],
            None => Seq::empty(),
        };
        match self.peeked {
            Some(v) => lead + v@.bytes() + self.chunk@,
            None => lead + self.chunk@,
        }
    }

    /// The assembler's invariant: the value in progress holds no delimiter
    /// and is kept as non-empty pieces; a pending lead is a delimiter before a
    /// fragment that holds none.
    pub closed spec fn wf(&self) -> bool {
        &&& self.peeked is None ==> self.lead is None
        &&& self.lead matches Some(d) ==> is_delimiter(d)
        &&& self.peeked matches Some(v) ==> is_clean(v@.bytes())
        &&& is_clean(self.pending_bytes())
        &&& forall|i: int| 0 <= i < self.pending().len() ==> (#[trigger] self.pending()[i]).len() > 0
        &&& !self.started ==> self.pending_bytes().len() == 0
    }

    /// A fresh assembler over `stream`, with no chunk and nothing pending.
    pub fn new(stream: S) -> (r: Self)
        ensures
            r.wf(),
            r.source() == stream,
            !r.started(),
            r.pending_bytes() == Seq::<u8>::empty(),
            r.upcoming() == Seq::<u8>::empty(),
    {
        let r = BufferedValueStream {
            stream,
            chunk: Chunk::new(Bytes::new()),
            peeked: None,
            lead: None,
            started: false,
            partial_buf: Vec::new(),
        };
        assert(r.pending() =~= Seq::<Seq<u8>>::empty());
        assert(r.upcoming() =~= Seq::<u8>::empty());
        r
    }

    /// The source of chunks, for the driver to pull from.
    pub fn stream_mut(&mut self) -> (r: &mut S)
        ensures
            *r == old(self).source(),
            final(self).source() == *final(r),
            final(self).wf() == old(self).wf(),
            final(self).started() == old(self).started(),
            final(self).pending() == old(self).pending(),
            final(self).upcoming() == old(self).upcoming(),
    {
        &mut self.stream
    }

    /// Concatenates the pending pieces into one value and empties the
    /// pending buffer. A single piece is handed on as it is, uncopied.
    fn take_buf(&mut self) -> (r: FullValue)
        ensures
            r@ == old(self).pending().flatten(),
            old(self).partial_buf@.len() == 1 ==> r.0 == old(self).partial_buf@[0],
            final(self).pending() == Seq::<Seq<u8>>::empty(),
            final(self).peeked == old(self).peeked,
            final(self).lead == old(self).lead,
            final(self).chunk == old(self).chunk,
            final(self).started == old(self).started,
            final(self).source() == old(self).source(),
    {
        let n = self.partial_buf.len();
        if n == 0 {
            assert(self.pending() =~= Seq::<Seq<u8>>::empty());
            return FullValue(Bytes::new());
        }
        if n == 1 {
            let b = self.partial_buf.pop().unwrap();
            proof {
                assert(old(self).pending() =~= seq![bytes_view(b)]);
                old(self).pending().lemma_flatten_one_element();
                assert(self.pending() =~= Seq::<Seq<u8>>::empty());
            }
            return FullValue(b);
        }
        let ghost parts = self.pending();
        let mut out: Vec<u8> = Vec::new();
        let mut i: usize = 0;
        while i < n
            invariant
                0 <= i <= n,
                n == self.partial_buf@.len(),
                parts == self.pending(),
                *self == *old(self),
                out@ == parts.take(i as int).flatten(),
            decreases n - i,
        {
            let part = &self.partial_buf[i];
            let m = part.len();
            let mut j: usize = 0;
            while j < m
                invariant
                    0 <= j <= m,
                    m == bytes_view(*part).len(),
                    bytes_view(*part) == parts[i as int],
                    out@ == parts.take(i as int).flatten() + bytes_view(*part).take(j as int),
                decreases m - j,
            {
                out.push(byte_at(part, j));
                proof {
                    assert(bytes_view(*part).take(j + 1) =~= bytes_view(*part).take(j as int).push(
                        bytes_view(*part)[j as int],
                    ));
                    assert(out@ =~= parts.take(i as int).flatten() + bytes_view(*part).take(
                        j + 1,
                    ));
                }
                j = j + 1;
            }
            proof {
                assert(parts.take(i + 1) =~= parts.take(i as int).push(parts[i as int]));
                parts.take(i as int).lemma_flatten_push(parts[i as int]);
                assert(bytes_view(*part).take(j as int) =~= parts[i as int]);
            }
            i = i + 1;
        }
        assert(parts.take(n as int) =~= parts);
        self.partial_buf.clear();
        assert(self.pending() =~= Seq::<Seq<u8>>::empty());
        FullValue(bytes_from_vec(out))
    }

    /// One draining step: the value that the next delimiter at hand ends, or
    /// `None` once the current chunk is used up and more input is needed.
    pub fn next(&mut self) -> (r: Option<FullValue>)
        requires
            old(self).wf(),
        ensures
            final(self).wf(),
            ({
                let d = drain(old(self).started(), old(self).pending_bytes(), old(self).upcoming());
                &&& r is None <==> d.0 is None
                &&& r is Some ==> d.0 == Some(r->Some_0@)
                &&& final(self).started() == d.1
                &&& final(self).pending_bytes() == d.2
                &&& final(self).upcoming() == d.3
            }),
            r matches Some(v) ==> is_clean(v@),
            final(self).source() == old(self).source(),
    {
        let ghost d = drain(self.started, self.pending_bytes(), self.upcoming());
        proof {
            lemma_drain_clean(self.started, self.pending_bytes(), self.upcoming());
        }
        loop
            invariant
                self.wf(),
                d == drain(old(self).started(), old(self).pending_bytes(), old(self).upcoming()),
                drain(self.started, self.pending_bytes(), self.upcoming()) == d,
                d.0 matches Some(v) ==> is_clean(v),
                self.source() == old(self).source(),
            decreases 3 * self.chunk@.len() + (if self.peeked is Some {
                1int
            } else {
                0int
            }) + (if self.lead is Some {
                1int
            } else {
                0int
            }),
        {
            if self.peeked.is_none() {
                let ghost s = self.chunk@;
                let lead = self.chunk.leading_delimiter();
                let v = self.chunk.next();
                match v {
                    None => {
                        assert(self.upcoming() =~= Seq::<u8>::empty());
                        return None;
                    },
                    Some(v) => {
                        proof {
                            crate::tokenizer::lemma_step_parts(s);
                            crate::tokenizer::lemma_step_shrinks(s);
                        }
                        self.peeked = Some(v);
                        self.lead = lead;
                        assert(self.upcoming() =~= lead_of(s) + step(s).0.bytes() + step(s).1);
                    },
                }
            }
            let ghost up = self.upcoming();
            match self.lead {
                Some(dl) => {
                    self.lead = None;
                    assert(up == seq![dl] + self.upcoming());
                    assert(up[0] == dl);
                    assert(up.drop_first() =~= self.upcoming());
                    if self.started {
                        let v = self.take_buf();
                        assert(self.pending() =~= Seq::<Seq<u8>>::empty());
                        return Some(v);
                    }
                    self.started = true;
                },
                None => {},
            }
            if let Some(v) = self.peeked.take() {
                let b = v.unwrap();
                let ghost rest = self.chunk@;
                let ghost cur = self.pending_bytes();
                assert(self.upcoming() =~= rest);
                proof {
                    lemma_drain_clean_prefix(self.started, cur, bytes_view(b), rest);
                }
                if !b.is_empty() {
                    let ghost before = self.pending();
                    self.partial_buf.push(b);
                    assert(self.pending() =~= before.push(bytes_view(b)));
                    proof {
                        before.lemma_flatten_push(bytes_view(b));
                        assert forall|j: int| 0 <= j < self.pending_bytes().len() implies !is_delimiter(
                            #[trigger] self.pending_bytes()[j],
                        ) by {
                            if j < cur.len() {
                                assert(self.pending_bytes()[j] == cur[j]);
                            } else {
                                assert(self.pending_bytes()[j] == bytes_view(b)[j - cur.len()]);
                            }
                        }
                        assert forall|i: int| 0 <= i < self.pending().len() implies (
                        #[trigger] self.pending()[i]).len() > 0 by {
                            if i < before.len() {
                                assert(self.pending()[i] == before[i]);
                            }
                        }
                    }
                    self.started = true;
                } else {
                    assert(cur + bytes_view(b) =~= cur);
                }
            }
        }
    }

    /// Handles the end of the source: an unfinished value in progress comes
    /// out as one last value; with nothing in progress there is no further
    /// value.
    pub fn finish(&mut self) -> (r: Option<FullValue>)
        requires
            old(self).wf(),
        ensures
            final(self).wf(),
            old(self).pending_bytes().len() > 0 ==> r is Some && r->Some_0@
                == old(self).pending_bytes(),
            old(self).pending_bytes().len() == 0 ==> r is None,
            final(self).pending_bytes() == Seq::<u8>::empty(),
            final(self).started() == old(self).started(),
            final(self).upcoming() == old(self).upcoming(),
            final(self).source() == old(self).source(),
    {
        proof {
            lemma_nonempty_pieces(self.pending());
        }
        if self.partial_buf.len() > 0 {
            let v = self.take_buf();
            assert(self.pending_bytes() =~= Seq::<u8>::empty());
            assert(is_clean(Seq::<u8>::empty()));
            Some(v)
        } else {
            assert(self.pending() =~= Seq::<Seq<u8>>::empty());
            None
        }
    }

    /// Decides what follows from one item pulled from the chunk source, after
    /// [`Self::next`] has asked for more input. A chunk replaces the current
    /// one and is drained; an error is passed on and changes nothing; the end
    /// of the source flushes the value in progress.
    pub fn on_source<E>(&mut self, item: Option<Result<Chunk, E>>) -> (r: Action<E>)
        requires
            old(self).wf(),
        ensures
            final(self).wf(),
            final(self).source() == old(self).source(),
            item matches Some(Ok(c)) ==> ({
                let d = drain(old(self).started(), old(self).pending_bytes(), c@);
                &&& r is Pull <==> d.0 is None
                &&& r is Emit ==> d.0 == Some(r->Emit_0@)
                &&& (r is Pull || r is Emit)
                &&& final(self).started() == d.1
                &&& final(self).pending_bytes() == d.2
                &&& final(self).upcoming() == d.3
            }),
            item matches Some(Err(e)) ==> r == Action::<E>::Fail(e) && final(self).started()
                == old(self).started() && final(self).pending_bytes() == old(self).pending_bytes()
                && final(self).upcoming() == old(self).upcoming(),
            item is None ==> final(self).pending_bytes() == Seq::<u8>::empty()
                && final(self).started() == old(self).started() && final(self).upcoming()
                == old(self).upcoming() && (old(self).pending_bytes().len() > 0 ==> r is Emit
                && r->Emit_0@ == old(self).pending_bytes()) && (old(self).pending_bytes().len()
                == 0 ==> r is Finished),
    {
        match item {
            Some(Ok(c)) => {
                self.chunk = c;
                self.peeked = None;
                self.lead = None;
                assert(self.upcoming() =~= c@);
                match self.next() {
                    Some(v) => Action::Emit(v),
                    None => Action::Pull,
                }
            },
            Some(Err(e)) => Action::Fail(e),
            None => match self.finish() {
                Some(v) => Action::Emit(v),
                None => Action::Finished,
            },
        }
    }
}

} // verus!

//! The chunk tokenizer: cuts one chunk into fragments at tab and newline
//! bytes, telling whole field values apart from pieces of one.

use crate::bytes_model::{byte_at, bytes_view, slice_from};
use bytes::Bytes;
use vstd::prelude::*;

verus! {

/// Tab and line feed both end a field.
pub open spec fn is_delimiter(b: u8) -> bool {
    b == 9u8 || b == 10u8
}

/// Executable test for a delimiter byte.
pub fn is_delimiter_byte(b: u8) -> (r: bool)
    ensures
        r == is_delimiter(b),
{
    b == 9u8 || b == 10u8
}

/// The index of the first delimiter of `s` at or after `from`, or `s.len()`
/// when there is none.
pub open spec fn next_delimiter(s: Seq<u8>, from: int) -> int
    decreases s.len() - from,
{
    if from >= s.len() {
        s.len() as int
    } else if is_delimiter(s[from]) {
        from
    } else {
        next_delimiter(s, from + 1)
    }
}

/// No byte of `s` is a delimiter.
pub open spec fn is_clean(s: Seq<u8>) -> bool {
    forall|j: int| 0 <= j < s.len() ==> !is_delimiter(#[trigger] s[j])
}

/// The delimiter that `s` starts with, as a sequence of zero or one byte.
pub open spec fn lead_of(s: Seq<u8>) -> Seq<u8> {
    if s.len() > 0 && is_delimiter(s[0]) {
        seq![s[0]]
    } else {
        Seq::empty()
    }
}

/// A classified byte range of one chunk, delimiters stripped.
pub enum Fragment {
    /// A whole field value: a delimiter stood right before and right after it.
    Full(Seq<u8>),
    /// A piece of a field value that must be joined with its neighbours.
    Partial(Seq<u8>),
}

impl Fragment {
    pub open spec fn bytes(self) -> Seq<u8> {
        match self {
            Fragment::Full(b) => b,
            Fragment::Partial(b) => b,
        }
    }
}

/// One step of the tokenizer on the non-empty remaining bytes `s`: the
/// fragment it yields and the bytes that remain after it.
pub open spec fn step(s: Seq<u8>) -> (Fragment, Seq<u8>)
    recommends
        s.len() > 0,
{
    let i = next_delimiter(s, 1);
    let leading = is_delimiter(s[0]);
    if i < s.len() {
        if leading {
            (Fragment::Full(s.subrange(1, i)), s.subrange(i, s.len() as int))
        } else {
            (Fragment::Partial(s.subrange(0, i)), s.subrange(i, s.len() as int))
        }
    } else if leading {
        (Fragment::Partial(s.subrange(1, s.len() as int)), Seq::empty())
    } else {
        (Fragment::Partial(s), Seq::empty())
    }
}

pub proof fn lemma_next_delimiter_bounds(s: Seq<u8>, from: int)
    requires
        0 <= from,
    ensures
        from <= next_delimiter(s, from) || (from > s.len() && next_delimiter(s, from) == s.len()),
        next_delimiter(s, from) <= s.len(),
        next_delimiter(s, from) < s.len() ==> is_delimiter(s[next_delimiter(s, from)]),
        forall|j: int| from <= j < next_delimiter(s, from) ==> !is_delimiter(#[trigger] s[j]),
    decreases s.len() - from,
{
    if from < s.len() && !is_delimiter(s[from]) {
        lemma_next_delimiter_bounds(s, from + 1);
    }
}

pub proof fn lemma_step_shrinks(s: Seq<u8>)
    requires
        s.len() > 0,
    ensures
        step(s).1.len() < s.len(),
{
    lemma_next_delimiter_bounds(s, 1);
}

/// One step splits the remaining bytes into the leading delimiter it drops,
/// the fragment's bytes, which hold no delimiter, and the bytes left.
pub proof fn lemma_step_parts(s: Seq<u8>)
    requires
        s.len() > 0,
    ensures
        s == lead_of(s) + step(s).0.bytes() + step(s).1,
        is_clean(step(s).0.bytes()),
{
    lemma_next_delimiter_bounds(s, 1);
    let i = next_delimiter(s, 1);
    let start: int = if is_delimiter(s[0]) {
        1
    } else {
        0
    };
    let end: int = if i < s.len() {
        i
    } else {
        s.len() as int
    };
    assert(step(s).0.bytes() =~= s.subrange(start, end));
    assert(step(s).1 =~= s.subrange(end, s.len() as int));
    assert(lead_of(s) =~= s.subrange(0, start));
    assert(s =~= s.subrange(0, start) + s.subrange(start, end) + s.subrange(end, s.len() as int));
    assert forall|j: int| 0 <= j < step(s).0.bytes().len() implies !is_delimiter(
        #[trigger] step(s).0.bytes()[j],
    ) by {
        assert(step(s).0.bytes()[j] == s[start + j]);
    }
}

/// A fragment as the tokenizer hands it out: a view into the chunk.
pub enum Value {
    Partial(Bytes),
    Full(Bytes),
}

impl View for Value {
    type V = Fragment;

    open spec fn view(&self) -> Fragment {
        match self {
            Value::Partial(b) => Fragment::Partial(bytes_view(*b)),
            Value::Full(b) => Fragment::Full(bytes_view(*b)),
        }
    }
}

impl Value {
    /// The fragment's bytes, whatever its tag.
    pub fn unwrap(self) -> (r: Bytes)
        ensures
            bytes_view(r) == self@.bytes(),
    {
        match self {
            Value::Partial(b) => b,
            Value::Full(b) => b,
        }
    }
}

/// One chunk of the input; fragments are cut from its front until it is empty.
pub struct Chunk(Bytes);

impl View for Chunk {
    type V = Seq<u8>;

    closed spec fn view(&self) -> Seq<u8> {
        bytes_view(self.0)
    }
}

impl Chunk {
    pub fn new(b: Bytes) -> (r: Chunk)
        ensures
            r@ == bytes_view(b),
    {
        Chunk(b)
    }

    /// The delimiter byte that the chunk's remaining bytes start with, if any.
    pub fn leading_delimiter(&self) -> (r: Option<u8>)
        ensures
            r == (if self@.len() > 0 && is_delimiter(self@[0]) {
                Some(self@[0])
            } else {
                None
            }),
    {
        if self.0.is_empty() {
            return None;
        }
        let b = byte_at(&self.0, 0);
        if is_delimiter_byte(b) {
            Some(b)
        } else {
            None
        }
    }

    /// Cuts the next fragment from the front of the chunk; `None` once the
    /// chunk is empty.
    pub fn next(&mut self) -> (r: Option<Value>)
        ensures
            old(self)@.len() == 0 ==> r is None && final(self)@ == old(self)@,
            old(self)@.len() > 0 ==> r is Some && r->Some_0@ == step(old(self)@).0 && final(self)@
                == step(old(self)@).1,
    {
        if self.0.is_empty() {
            return None;
        }
        let len = self.0.len();
        let ghost s = self@;
        let mut i: usize = 1;
        while i < len
            invariant_except_break
                1 <= i <= len,
                len == s.len(),
                self@ == s,
                next_delimiter(s, 1) == next_delimiter(s, i as int),
            ensures
                1 <= i <= len,
                self@ == s,
                next_delimiter(s, 1) == i,
            decreases len - i,
        {
            if is_delimiter_byte(byte_at(&self.0, i)) {
                break;
            }
            i = i + 1;
        }
        let leading = is_delimiter_byte(byte_at(&self.0, 0));
        if i < len {
            let head = self.0.split_to(i);
            assert(bytes_view(head).subrange(1, i as int) =~= s.subrange(1, i as int));
            if leading {
                Some(Value::Full(slice_from(&head, 1)))
            } else {
                Some(Value::Partial(head))
            }
        } else {
            let head = self.0.split_to(len);
            assert(bytes_view(head) =~= s);
            assert(self@ =~= Seq::<u8>::empty());
            if leading {
                Some(Value::Partial(slice_from(&head, 1)))
            } else {
                Some(Value::Partial(head))
            }
        }
    }
}

} // verus!

//! The assembler run over a whole source at once: what it yields for a given
//! sequence of source items, and a synchronous driver proved to yield it.

use crate::assembler::{drain, Action, BufferedValueStream, FullValue};
use crate::tokenizer::{is_delimiter, Chunk};
use vstd::prelude::*;

verus! {

/// Handling all of `s` from a state that has (`started`) or has not yet seen
/// a byte of the stream, with value bytes `cur` in progress: the values that
/// delimiters in `s` end, in order, and the state after the last byte.
pub open spec fn split_run(started: bool, cur: Seq<u8>, s: Seq<u8>) -> (
    Seq<Seq<u8>>,
    bool,
    Seq<u8>,
)
    decreases s.len(),
{
    if s.len() == 0 {
        (Seq::empty(), started, cur)
    } else if is_delimiter(s[0]) {
        if started {
            let r = split_run(true, Seq::empty(), s.drop_first());
            (seq![cur] + r.0, r.1, r.2)
        } else {
            split_run(true, cur, s.drop_first())
        }
    } else {
        split_run(true, cur.push(s[0]), s.drop_first())
    }
}

/// Every item yielded, in order, from a state with no bytes of a chunk at
/// hand, when the source then hands over `source` and ends. At the end an
/// unfinished value comes out if it holds any byte.
pub open spec fn outputs<E>(started: bool, cur: Seq<u8>, source: Seq<Result<Seq<u8>, E>>) -> Seq<
    Result<Seq<u8>, E>,
>
    decreases source.len(),
{
    if source.len() == 0 {
        if cur.len() > 0 {
            seq![Ok(cur)]
        } else {
            Seq::empty()
        }
    } else {
        match source[0] {
            Ok(c) => {
                let run = split_run(started, cur, c);
                run.0.map_values(|v: Seq<u8>| Ok::<Seq<u8>, E>(v)) + outputs(
                    run.1,
                    run.2,
                    source.drop_first(),
                )
            },
            Err(e) => seq![Err(e)] + outputs(started, cur, source.drop_first()),
        }
    }
}

/// Everything still to be yielded from a state with the bytes `s` of the
/// current chunk at hand, when the source then hands over `source`.
pub open spec fn remaining<E>(
    started: bool,
    cur: Seq<u8>,
    s: Seq<u8>,
    source: Seq<Result<Seq<u8>, E>>,
) -> Seq<Result<Seq<u8>, E>> {
    let run = split_run(started, cur, s);
    run.0.map_values(|v: Seq<u8>| Ok::<Seq<u8>, E>(v)) + outputs(run.1, run.2, source)
}

pub open spec fn item_view<E>(item: Result<Chunk, E>) -> Result<Seq<u8>, E> {
    match item {
        Ok(c) => Ok(c@),
        Err(e) => Err(e),
    }
}

pub open spec fn yielded_view<E>(item: Result<FullValue, E>) -> Result<Seq<u8>, E> {
    match item {
        Ok(v) => Ok(v@),
        Err(e) => Err(e),
    }
}

/// A draining step that yields a value is the first step of handling all
/// the bytes; one that yields none has handled them all.
pub proof fn lemma_drain_split_run(started: bool, cur: Seq<u8>, s: Seq<u8>)
    ensures
        ({
            let d = drain(started, cur, s);
            &&& d.0 matches Some(v) ==> split_run(started, cur, s) == (
                seq![v] + split_run(d.1, d.2, d.3).0,
                split_run(d.1, d.2, d.3).1,
                split_run(d.1, d.2, d.3).2,
            )
            &&& d.0 is Some ==> d.3.len() < s.len()
            &&& d.0 is None ==> d.3.len() == 0 && split_run(started, cur, s) == (
                Seq::<Seq<u8>>::empty(),
                d.1,
                d.2,
            )
        }),
    decreases s.len(),
{
    if s.len() > 0 {
        if is_delimiter(s[0]) {
            if !started {
                lemma_drain_split_run(true, cur, s.drop_first());
            }
        } else {
            lemma_drain_split_run(true, cur.push(s[0]), s.drop_first());
        }
    }
}

/// Runs an assembler over source items that are all at hand, as the stream
/// would yield them: the values and the source's errors, in order, up to the
/// end of the source.
pub fn assemble_all<E>(source: Vec<Result<Chunk, E>>) -> (r: Vec<Result<FullValue, E>>)
    ensures
        r@.map_values(|x: Result<FullValue, E>| yielded_view(x)) == outputs(
            false,
            Seq::<u8>::empty(),
            source@.map_values(|x: Result<Chunk, E>| item_view(x)),
        ),
{
    let ghost total = outputs(
        false,
        Seq::<u8>::empty(),
        source@.map_values(|x: Result<Chunk, E>| item_view(x)),
    );
    let mut src = source;
    let mut st = BufferedValueStream::new(());
    let mut out: Vec<Result<FullValue, E>> = Vec::new();
    assert(out@.map_values(|x: Result<FullValue, E>| yielded_view(x)) + remaining(
        st.started(),
        st.pending_bytes(),
        st.upcoming(),
        src@.map_values(|x: Result<Chunk, E>| item_view(x)),
    ) =~= total);
    loop
        invariant
            st.wf(),
            total == outputs(
                false,
                Seq::<u8>::empty(),
                source@.map_values(|x: Result<Chunk, E>| item_view(x)),
            ),
            out@.map_values(|x: Result<FullValue, E>| yielded_view(x)) + remaining(
                st.started(),
                st.pending_bytes(),
                st.upcoming(),
                src@.map_values(|x: Result<Chunk, E>| item_view(x)),
            ) == total,
        decreases src@.len(), st.upcoming().len(),
    {
        let ghost src_v = src@.map_values(|x: Result<Chunk, E>| item_view(x));
        let ghost out_v = out@.map_values(|x: Result<FullValue, E>| yielded_view(x));
        let ghost (b0, c0, s0) = (st.started(), st.pending_bytes(), st.upcoming());
        proof {
            lemma_drain_split_run(b0, c0, s0);
        }
        match st.next() {
            Some(v) => {
                out.push(Ok(v));
                assert(out@.map_values(|x: Result<FullValue, E>| yielded_view(x)) =~= out_v.push(
                    Ok(v@),
                ));
                assert(remaining(b0, c0, s0, src_v) =~= seq![Ok::<Seq<u8>, E>(v@)] + remaining(
                    st.started(),
                    st.pending_bytes(),
                    st.upcoming(),
                    src_v,
                ));
            },
            None => {
                assert(remaining(b0, c0, s0, src_v) =~= outputs(
                    st.started(),
                    st.pending_bytes(),
                    src_v,
                ));
                if src.len() == 0 {
                    let a = st.on_source(None::<Result<Chunk, E>>);
                    match a {
                        Action::Emit(v) => {
                            out.push(Ok(v));
                            assert(out@.map_values(|x: Result<FullValue, E>| yielded_view(x))
                                =~= total);
                        },
                        _ => {
                            assert(out_v =~= total);
                        },
                    }
                    return out;
                }
                let item = src.remove(0);
                let ghost b1 = st.started();
                let ghost q = st.pending_bytes();
                let ghost rest = src@.map_values(|x: Result<Chunk, E>| item_view(x));
                assert(src_v =~= seq![item_view(item)] + rest);
                assert(src_v.drop_first() =~= rest);
                match item {
                    Ok(c) => {
                        proof {
                            lemma_drain_split_run(b1, q, c@);
                        }
                        let a = st.on_source(Some(Ok::<Chunk, E>(c)));
                        match a {
                            Action::Emit(v) => {
                                out.push(Ok(v));
                                assert(out@.map_values(|x: Result<FullValue, E>| yielded_view(x))
                                    =~= out_v.push(Ok(v@)));
                                assert(outputs(b1, q, src_v) =~= seq![Ok::<Seq<u8>, E>(v@)]
                                    + remaining(
                                    st.started(),
                                    st.pending_bytes(),
                                    st.upcoming(),
                                    rest,
                                ));
                            },
                            _ => {
                                assert(outputs(b1, q, src_v) =~= remaining(
                                    st.started(),
                                    st.pending_bytes(),
                                    st.upcoming(),
                                    rest,
                                ));
                            },
                        }
                    },
                    Err(e) => {
                        let a = st.on_source(Some(Err::<Chunk, E>(e)));
                        match a {
                            Action::Fail(e) => {
                                out.push(Err(e));
                                assert(out@.map_values(|x: Result<FullValue, E>| yielded_view(x))
                                    =~= out_v.push(Err(e)));
                                assert(outputs(b1, q, src_v) =~= seq![Err::<Seq<u8>, E>(e)]
                                    + remaining(st.started(), st.pending_bytes(), st.upcoming(), rest));
                            },
                            _ => {},
                        }
                    },
                }
            },
        }
    }
}

} // verus!

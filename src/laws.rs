//! What holds of whole runs of the assembler, over the model in `drive`.

use crate::drive::{outputs, split_run};
use crate::tokenizer::{is_clean, is_delimiter};
use vstd::prelude::*;

verus! {

/// A source that hands over `chunks`, in order, and no error.
pub open spec fn chunk_source<E>(chunks: Seq<Seq<u8>>) -> Seq<Result<Seq<u8>, E>> {
    chunks.map_values(|c: Seq<u8>| Ok::<Seq<u8>, E>(c))
}

/// The items yielded after handling all bytes with result `run`, when the
/// source then ends.
pub open spec fn closing_items<E>(run: (Seq<Seq<u8>>, bool, Seq<u8>)) -> Seq<Result<Seq<u8>, E>> {
    run.0.map_values(|v: Seq<u8>| Ok::<Seq<u8>, E>(v)) + if run.2.len() > 0 {
        seq![Ok::<Seq<u8>, E>(run.2)]
    } else {
        Seq::<Result<Seq<u8>, E>>::empty()
    }
}

proof fn lemma_split_run_concat(started: bool, cur: Seq<u8>, a: Seq<u8>, b: Seq<u8>)
    ensures
        ({
            let r = split_run(started, cur, a);
            let r2 = split_run(r.1, r.2, b);
            split_run(started, cur, a + b) == (r.0 + r2.0, r2.1, r2.2)
        }),
    decreases a.len(),
{
    if a.len() == 0 {
        assert(a + b =~= b);
        let r = split_run(started, cur, a);
        assert(r.0 + split_run(r.1, r.2, b).0 =~= split_run(r.1, r.2, b).0);
    } else {
        assert((a + b)[0] == a[0]);
        assert((a + b).drop_first() =~= a.drop_first() + b);
        if is_delimiter(a[0]) {
            if started {
                lemma_split_run_concat(true, Seq::empty(), a.drop_first(), b);
                let r = split_run(true, Seq::<u8>::empty(), a.drop_first());
                let r2 = split_run(r.1, r.2, b);
                assert(seq![cur] + (r.0 + r2.0) =~= (seq![cur] + r.0) + r2.0);
            } else {
                lemma_split_run_concat(true, cur, a.drop_first(), b);
            }
        } else {
            lemma_split_run_concat(true, cur.push(a[0]), a.drop_first(), b);
        }
    }
}

/// A source of chunks yields what one pass over all their bytes does.
proof fn lemma_outputs_chunks<E>(started: bool, cur: Seq<u8>, chunks: Seq<Seq<u8>>)
    ensures
        outputs::<E>(started, cur, chunk_source(chunks)) == closing_items::<E>(
            split_run(started, cur, chunks.flatten()),
        ),
    decreases chunks.len(),
{
    if chunks.len() == 0 {
        assert(chunks.flatten() =~= Seq::<u8>::empty());
        let r = split_run(started, cur, chunks.flatten());
        assert(r.0.map_values(|v: Seq<u8>| Ok::<Seq<u8>, E>(v)) =~= Seq::<
            Result<Seq<u8>, E>,
        >::empty());
        assert(closing_items::<E>(r) =~= outputs::<E>(started, cur, chunk_source(chunks)));
    } else {
        let c = chunks[0];
        let rest = chunks.drop_first();
        assert(chunk_source::<E>(chunks).drop_first() =~= chunk_source::<E>(rest));
        assert(chunk_source::<E>(chunks)[0] == Ok::<Seq<u8>, E>(c));
        assert(chunks.flatten() == c + rest.flatten());
        let r = split_run(started, cur, c);
        lemma_outputs_chunks::<E>(r.1, r.2, rest);
        lemma_split_run_concat(started, cur, c, rest.flatten());
        let r2 = split_run(r.1, r.2, rest.flatten());
        assert(r.0.map_values(|v: Seq<u8>| Ok::<Seq<u8>, E>(v)) + r2.0.map_values(
            |v: Seq<u8>| Ok::<Seq<u8>, E>(v),
        ) =~= (r.0 + r2.0).map_values(|v: Seq<u8>| Ok::<Seq<u8>, E>(v)));
        assert(outputs::<E>(started, cur, chunk_source(chunks)) =~= closing_items::<E>(
            split_run(started, cur, chunks.flatten()),
        ));
    }
}

/// The values that a source of chunks yields depend only on the bytes of
/// all the chunks together, not on where the chunks are cut.
pub proof fn lemma_values_independent_of_chunking<E>(a: Seq<Seq<u8>>, b: Seq<Seq<u8>>)
    requires
        a.flatten() == b.flatten(),
    ensures
        outputs::<E>(false, Seq::empty(), chunk_source(a)) == outputs::<E>(
            false,
            Seq::empty(),
            chunk_source(b),
        ),
{
    lemma_outputs_chunks::<E>(false, Seq::empty(), a);
    lemma_outputs_chunks::<E>(false, Seq::empty(), b);
}

proof fn lemma_split_run_adjacent(started: bool, cur: Seq<u8>, s: Seq<u8>, k: int)
    requires
        !started ==> cur.len() == 0,
        0 <= k,
        k + 1 < s.len(),
        is_delimiter(s[k]),
        is_delimiter(s[k + 1]),
    ensures
        exists|m: int|
            0 <= m < split_run(started, cur, s).0.len() && #[trigger] split_run(
                started,
                cur,
                s,
            ).0[m] == Seq::<u8>::empty(),
    decreases s.len(),
{
    let rest = s.drop_first();
    assert(rest[k] == s[k + 1]);
    if k == 0 {
        let e = Seq::<u8>::empty();
        let r = split_run(true, e, rest.drop_first());
        assert(split_run(true, e, rest) == (seq![e] + r.0, r.1, r.2));
        if started {
            let whole = seq![cur] + (seq![e] + r.0);
            assert(split_run(started, cur, s).0 == whole);
            assert(whole[1] == e);
        } else {
            assert(cur =~= e);
            assert(split_run(started, cur, s).0[0] == e);
        }
    } else {
        assert(rest[k - 1] == s[k]);
        if is_delimiter(s[0]) {
            if started {
                let e = Seq::<u8>::empty();
                lemma_split_run_adjacent(true, e, rest, k - 1);
                let r = split_run(true, e, rest);
                let m = choose|m: int| 0 <= m < r.0.len() && #[trigger] r.0[m] == e;
                assert(split_run(started, cur, s).0 == seq![cur] + r.0);
                assert((seq![cur] + r.0)[m + 1] == e);
            } else {
                lemma_split_run_adjacent(true, cur, rest, k - 1);
                let m = choose|m: int|
                    0 <= m < split_run(true, cur, rest).0.len() && #[trigger] split_run(
                        true,
                        cur,
                        rest,
                    ).0[m] == Seq::<u8>::empty();
                assert(split_run(started, cur, s).0[m] == Seq::<u8>::empty());
            }
        } else {
            lemma_split_run_adjacent(true, cur.push(s[0]), rest, k - 1);
            let m = choose|m: int|
                0 <= m < split_run(true, cur.push(s[0]), rest).0.len() && #[trigger] split_run(
                    true,
                    cur.push(s[0]),
                    rest,
                ).0[m] == Seq::<u8>::empty();
            assert(split_run(started, cur, s).0[m] == Seq::<u8>::empty());
        }
    }
}

/// Two delimiters side by side anywhere in the bytes of a source of chunks,
/// within one chunk or across a cut, make the stream yield a zero-length
/// value: the empty field between them is kept.
pub proof fn lemma_adjacent_delimiters_yield_empty_value<E>(chunks: Seq<Seq<u8>>, k: int)
    requires
        0 <= k,
        k + 1 < chunks.flatten().len(),
        is_delimiter(chunks.flatten()[k]),
        is_delimiter(chunks.flatten()[k + 1]),
    ensures
        exists|m: int|
            0 <= m < outputs::<E>(false, Seq::empty(), chunk_source(chunks)).len() && #[trigger] outputs::<
                E,
            >(false, Seq::empty(), chunk_source(chunks))[m] == Ok::<Seq<u8>, E>(Seq::<u8>::empty()),
{
    let e = Seq::<u8>::empty();
    lemma_outputs_chunks::<E>(false, e, chunks);
    lemma_split_run_adjacent(false, e, chunks.flatten(), k);
    let r = split_run(false, e, chunks.flatten());
    let m = choose|m: int| 0 <= m < r.0.len() && #[trigger] r.0[m] == e;
    let out = closing_items::<E>(r);
    assert(out[m] == Ok::<Seq<u8>, E>(e));
}


/// The values joined into one sequence, one tab between each two.
pub open spec fn join(vs: Seq<Seq<u8>>) -> Seq<u8>
    decreases vs.len(),
{
    if vs.len() == 0 {
        Seq::empty()
    } else if vs.len() == 1 {
        vs[0]
    } else {
        vs[0] + seq![9u8] + join(vs.drop_first())
    }
}

/// `a` and `b` agree but for which delimiter stands at a place where both
/// hold one.
pub open spec fn same_but_delimiters(a: Seq<u8>, b: Seq<u8>) -> bool {
    &&& a.len() == b.len()
    &&& forall|k: int|
        0 <= k < a.len() ==> (is_delimiter(#[trigger] a[k]) == is_delimiter(b[k])) && (
        !is_delimiter(b[k]) ==> a[k] == b[k])
}

/// `s` without one delimiter at its start and one at its end, where it has
/// them.
pub open spec fn trim_delimiters(s: Seq<u8>) -> Seq<u8> {
    let t = if s.len() > 0 && is_delimiter(s[0]) {
        s.drop_first()
    } else {
        s
    };
    if t.len() > 0 && is_delimiter(t.last()) {
        t.drop_last()
    } else {
        t
    }
}

/// The values carried by yielded items that are all `Ok`.
pub open spec fn values_of<E>(items: Seq<Result<Seq<u8>, E>>) -> Seq<Seq<u8>> {
    items.map_values(|r: Result<Seq<u8>, E>| r->Ok_0)
}

proof fn lemma_join_push(vs: Seq<Seq<u8>>, x: Seq<u8>)
    ensures
        join(vs.push(x)) == if vs.len() == 0 {
            x
        } else {
            join(vs) + seq![9u8] + x
        },
    decreases vs.len(),
{
    assert(vs.push(x)[0] == if vs.len() == 0 {
        x
    } else {
        vs[0]
    });
    if vs.len() == 1 {
        assert(vs.push(x).drop_first() =~= seq![x]);
        assert(join(seq![x]) == x);
    } else if vs.len() > 1 {
        assert(vs.push(x).drop_first() =~= vs.drop_first().push(x));
        lemma_join_push(vs.drop_first(), x);
        assert(join(vs.push(x)) =~= join(vs) + seq![9u8] + x);
    }
}

proof fn lemma_same_concat(a1: Seq<u8>, a2: Seq<u8>, b1: Seq<u8>, b2: Seq<u8>)
    requires
        same_but_delimiters(a1, b1),
        same_but_delimiters(a2, b2),
    ensures
        same_but_delimiters(a1 + a2, b1 + b2),
{
    assert forall|k: int| 0 <= k < (a1 + a2).len() implies (is_delimiter(#[trigger] (a1 + a2)[k])
        == is_delimiter((b1 + b2)[k])) && (!is_delimiter((b1 + b2)[k]) ==> (a1 + a2)[k] == (b1
        + b2)[k]) by {
        if k < a1.len() {
            assert(a1[k] == (a1 + a2)[k]);
            assert(b1[k] == (b1 + b2)[k]);
        } else {
            assert(a2[k - a1.len()] == (a1 + a2)[k]);
            assert(b2[k - a1.len()] == (b1 + b2)[k]);
        }
    }
}

/// With a byte of the stream seen, the values that handling `s` ends and
/// the value left in progress, joined, are `cur + s` with each delimiter
/// written as a tab; none of them holds a delimiter.
proof fn lemma_split_run_join(cur: Seq<u8>, s: Seq<u8>)
    requires
        is_clean(cur),
    ensures
        ({
            let r = split_run(true, cur, s);
            &&& same_but_delimiters(join(r.0.push(r.2)), cur + s)
            &&& forall|i: int| 0 <= i < r.0.len() ==> is_clean(#[trigger] r.0[i])
            &&& is_clean(r.2)
            &&& r.1
        }),
    decreases s.len(),
{
    if s.len() == 0 {
        let r = split_run(true, cur, s);
        assert(r.0.push(r.2) =~= seq![cur]);
        assert(cur + s =~= cur);
    } else {
        let rest = s.drop_first();
        if is_delimiter(s[0]) {
            let e = Seq::<u8>::empty();
            lemma_split_run_join(e, rest);
            let r2 = split_run(true, e, rest);
            let r = split_run(true, cur, s);
            assert(r.0 == seq![cur] + r2.0);
            assert(r.0.push(r.2) =~= seq![cur] + r2.0.push(r2.2));
            assert((seq![cur] + r2.0.push(r2.2)).drop_first() =~= r2.0.push(r2.2));
            assert(join(r.0.push(r.2)) == cur + seq![9u8] + join(r2.0.push(r2.2)));
            assert(same_but_delimiters(cur, cur));
            assert(same_but_delimiters(seq![9u8], seq![s[0]]));
            lemma_same_concat(cur, seq![9u8], cur, seq![s[0]]);
            assert(e + rest =~= rest);
            lemma_same_concat(cur + seq![9u8], join(r2.0.push(r2.2)), cur + seq![s[0]], rest);
            assert(cur + seq![s[0]] + rest =~= cur + s);
            assert forall|i: int| 0 <= i < r.0.len() implies is_clean(#[trigger] r.0[i]) by {
                if i > 0 {
                    assert(r.0[i] == r2.0[i - 1]);
                }
            }
        } else {
            let c2 = cur.push(s[0]);
            assert forall|j: int| 0 <= j < c2.len() implies !is_delimiter(#[trigger] c2[j]) by {
                if j < cur.len() {
                    assert(c2[j] == cur[j]);
                }
            }
            lemma_split_run_join(c2, rest);
            assert(c2 + rest =~= cur + s);
        }
    }
}

/// Closing the run: values `vs` and the value `c` left in progress, joined,
/// match `t`; the items yielded are `vs` and `c` if it holds a byte, and
/// joined they match `t` without a delimiter at its end.
proof fn lemma_close_join(vs: Seq<Seq<u8>>, c: Seq<u8>, t: Seq<u8>)
    requires
        same_but_delimiters(join(vs.push(c)), t),
        is_clean(c),
    ensures
        same_but_delimiters(
            join(
                if c.len() > 0 {
                    vs.push(c)
                } else {
                    vs
                },
            ),
            if t.len() > 0 && is_delimiter(t.last()) {
                t.drop_last()
            } else {
                t
            },
        ),
{
    lemma_join_push(vs, c);
    if c.len() > 0 {
        let j = join(vs.push(c));
        assert(j[j.len() - 1] == c[c.len() - 1]);
    } else if vs.len() == 0 {
        assert(t.len() == 0);
    } else {
        let j = join(vs.push(c));
        assert(j =~= join(vs) + seq![9u8]);
        assert(j[j.len() - 1] == 9u8);
        assert forall|k: int| 0 <= k < join(vs).len() implies (is_delimiter(#[trigger] join(vs)[k])
            == is_delimiter(t.drop_last()[k])) && (!is_delimiter(t.drop_last()[k]) ==> join(vs)[k]
            == t.drop_last()[k]) by {
            assert(j[k] == join(vs)[k]);
            assert(t.drop_last()[k] == t[k]);
        }
    }
}

/// Every value yielded from a source of chunks holds no delimiter, and the
/// values joined with one delimiter between each two give back the bytes of
/// all the chunks, less one delimiter at the start and one at the end (at
/// each place, a delimiter where the input holds one, and the same byte
/// elsewhere). Such a source yields no error.
pub proof fn lemma_values_rejoin<E>(chunks: Seq<Seq<u8>>)
    ensures
        ({
            let out = outputs::<E>(false, Seq::empty(), chunk_source(chunks));
            &&& forall|i: int| 0 <= i < out.len() ==> (#[trigger] out[i]) is Ok
            &&& forall|i: int| 0 <= i < out.len() ==> is_clean(#[trigger] values_of(out)[i])
            &&& same_but_delimiters(join(values_of(out)), trim_delimiters(chunks.flatten()))
        }),
{
    let e = Seq::<u8>::empty();
    let s = chunks.flatten();
    lemma_outputs_chunks::<E>(false, e, chunks);
    let t = if s.len() > 0 && is_delimiter(s[0]) {
        s.drop_first()
    } else {
        s
    };
    if s.len() == 0 {
        let out = outputs::<E>(false, e, chunk_source(chunks));
        assert(out == closing_items::<E>(split_run(false, e, s)));
        assert(out =~= Seq::<Result<Seq<u8>, E>>::empty());
        assert(values_of(out) =~= Seq::<Seq<u8>>::empty());
        assert(trim_delimiters(s) =~= Seq::<u8>::empty());
    } else {
        if !is_delimiter(s[0]) {
            assert(split_run(false, e, s) == split_run(true, e, s));
        }
        assert(split_run(false, e, s) == split_run(true, e, t));
        lemma_split_run_join(e, t);
        assert(e + t =~= t);
        let r = split_run(true, e, t);
        lemma_close_join(r.0, r.2, t);
        let vs = if r.2.len() > 0 {
            r.0.push(r.2)
        } else {
            r.0
        };
        let out = outputs::<E>(false, e, chunk_source(chunks));
        assert(out == closing_items::<E>(r));
        assert(values_of(out) =~= vs);
        assert forall|i: int| 0 <= i < out.len() implies (#[trigger] out[i]) is Ok by {
            if i < r.0.len() {
                assert(out[i] == Ok::<Seq<u8>, E>(r.0[i]));
            }
        }
        assert forall|i: int| 0 <= i < out.len() implies is_clean(#[trigger] values_of(out)[i]) by {
            if i < r.0.len() {
                assert(values_of(out)[i] == r.0[i]);
            }
        }
    }
}

} // verus!

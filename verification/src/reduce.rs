//! The reduction dispatcher: one converged output per indexed object.

use vstd::prelude::*;

use crate::batch::{entries_ok, index_spec, models, Batch, EntryModel, IndexEntry, TypeConflict};
use crate::frame::Frame;
use crate::ident::{id_of, Id};

verus! {

/// The token bytes of the reserved last-writer-wins type identifier.
pub open spec fn lww_token() -> Seq<u8> {
    seq![108u8, 119u8, 119u8]
}

/// The token bytes of the reserved add/remove-set type identifier.
pub open spec fn set_token() -> Seq<u8> {
    seq![115u8, 101u8, 116u8]
}

/// An entry that needs no reducer: it holds a single frame, or its
/// type is neither of the two reserved reducible types.
pub open spec fn plain_entry(e: EntryModel) -> bool {
    e.bodies.len() == 1 || (Some(e.ty) != id_of(lww_token()) && Some(e.ty) != id_of(set_token()))
}

/// Concatenation of frame texts.
pub open spec fn concat_bodies(bs: Seq<Seq<u8>>) -> Seq<u8>
    decreases bs.len(),
{
    if bs.len() == 0 {
        Seq::empty()
    } else {
        bs[0] + concat_bodies(bs.drop_first())
    }
}

/// What a plain entry writes: its single frame verbatim, or — for an
/// unrecognized type — the seed (the last frame) followed by the
/// history (the remaining frames) in order.
pub open spec fn entry_chunk(e: EntryModel) -> Seq<u8> {
    if e.bodies.len() <= 1 {
        concat_bodies(e.bodies)
    } else {
        e.bodies.last() + concat_bodies(e.bodies.drop_last())
    }
}

/// The output of a whole index whose entries are all plain.
pub open spec fn chunks_of(es: Seq<EntryModel>) -> Seq<u8>
    decreases es.len(),
{
    if es.len() == 0 {
        Seq::empty()
    } else {
        entry_chunk(es[0]) + chunks_of(es.drop_first())
    }
}

pub proof fn lemma_concat_push(bs: Seq<Seq<u8>>, x: Seq<u8>)
    ensures
        concat_bodies(bs.push(x)) == concat_bodies(bs) + x,
    decreases bs.len(),
{
    if bs.len() == 0 {
        assert(bs.push(x).drop_first() =~= Seq::<Seq<u8>>::empty());
        assert(concat_bodies(bs.push(x).drop_first()) == Seq::<u8>::empty());
        assert(concat_bodies(bs.push(x)) == x + Seq::<u8>::empty());
        assert(x + Seq::<u8>::empty() =~= x);
        assert(Seq::<u8>::empty() + x =~= x);
    } else {
        assert(bs.push(x).drop_first() =~= bs.drop_first().push(x));
        lemma_concat_push(bs.drop_first(), x);
        assert(bs[0] + (concat_bodies(bs.drop_first()) + x) =~= (bs[0] + concat_bodies(
            bs.drop_first(),
        )) + x);
    }
}

pub proof fn lemma_chunks_push(es: Seq<EntryModel>, e: EntryModel)
    ensures
        chunks_of(es.push(e)) == chunks_of(es) + entry_chunk(e),
    decreases es.len(),
{
    if es.len() == 0 {
        assert(es.push(e).drop_first() =~= Seq::<EntryModel>::empty());
        assert(chunks_of(es.push(e).drop_first()) == Seq::<u8>::empty());
        assert(chunks_of(es.push(e)) == entry_chunk(e) + Seq::<u8>::empty());
        assert(entry_chunk(e) + Seq::<u8>::empty() =~= entry_chunk(e));
        assert(Seq::<u8>::empty() + entry_chunk(e) =~= entry_chunk(e));
    } else {
        assert(es.push(e).drop_first() =~= es.drop_first().push(e));
        lemma_chunks_push(es.drop_first(), e);
        assert(entry_chunk(es[0]) + (chunks_of(es.drop_first()) + entry_chunk(e)) =~= (entry_chunk(
            es[0],
        ) + chunks_of(es.drop_first())) + entry_chunk(e));
    }
}

pub proof fn lemma_chunks_take(es: Seq<EntryModel>, i: int)
    requires
        0 <= i < es.len(),
    ensures
        chunks_of(es.take(i + 1)) == chunks_of(es.take(i)) + entry_chunk(es[i]),
{
    assert(es.take(i + 1) =~= es.take(i).push(es[i]));
    lemma_chunks_push(es.take(i), es[i]);
}

/// A warning the dispatcher records: an object with several competing
/// frames whose type has no registered reducer.
#[derive(Clone, Copy, Debug, PartialEq, Eq, Structural)]
pub struct UnsupportedType {
    pub object: Id,
    pub ty: Id,
}

/// An entry the dispatcher warns about: several frames, and a type
/// that is neither of the reserved reducible types.
pub open spec fn unknown_entry(e: EntryModel) -> bool {
    e.bodies.len() >= 2 && Some(e.ty) != id_of(lww_token()) && Some(e.ty) != id_of(set_token())
}

/// The warning an entry contributes: one for an unknown-typed entry
/// with competing frames, none otherwise.
pub open spec fn entry_warning(e: EntryModel) -> Seq<UnsupportedType> {
    if unknown_entry(e) {
        seq![UnsupportedType { object: e.object, ty: e.ty }]
    } else {
        Seq::empty()
    }
}

/// The warnings a whole index produces, in entry order.
pub open spec fn warnings_of(es: Seq<EntryModel>) -> Seq<UnsupportedType>
    decreases es.len(),
{
    if es.len() == 0 {
        Seq::empty()
    } else {
        entry_warning(es[0]) + warnings_of(es.drop_first())
    }
}

pub proof fn lemma_warnings_push(es: Seq<EntryModel>, e: EntryModel)
    ensures
        warnings_of(es.push(e)) == warnings_of(es) + entry_warning(e),
    decreases es.len(),
{
    if es.len() == 0 {
        assert(es.push(e).drop_first() =~= Seq::<EntryModel>::empty());
        assert(warnings_of(es.push(e).drop_first()) == Seq::<UnsupportedType>::empty());
        assert(warnings_of(es.push(e)) == entry_warning(e) + Seq::<UnsupportedType>::empty());
        assert(entry_warning(e) + Seq::<UnsupportedType>::empty() =~= entry_warning(e));
        assert(Seq::<UnsupportedType>::empty() + entry_warning(e) =~= entry_warning(e));
    } else {
        assert(es.push(e).drop_first() =~= es.drop_first().push(e));
        lemma_warnings_push(es.drop_first(), e);
        assert(entry_warning(es[0]) + (warnings_of(es.drop_first()) + entry_warning(e))
            =~= (entry_warning(es[0]) + warnings_of(es.drop_first())) + entry_warning(e));
    }
}

pub proof fn lemma_warnings_take(es: Seq<EntryModel>, i: int)
    requires
        0 <= i < es.len(),
    ensures
        warnings_of(es.take(i + 1)) == warnings_of(es.take(i)) + entry_warning(es[i]),
{
    assert(es.take(i + 1) =~= es.take(i).push(es[i]));
    lemma_warnings_push(es.take(i), es[i]);
}

/// The round trip of the dispatcher's verbatim paths: an object with
/// exactly one frame is written back as exactly that frame's text; an
/// object of an unrecognized type is written as its seed (last frame)
/// followed by its history in order; and an index of one entry writes
/// exactly that entry's chunk.
pub proof fn lemma_reduce_round_trip(e: EntryModel)
    ensures
        e.bodies.len() == 1 ==> entry_chunk(e) == e.bodies[0],
        e.bodies.len() > 1 ==> entry_chunk(e) == e.bodies.last() + concat_bodies(
            e.bodies.drop_last(),
        ),
        chunks_of(seq![e]) == entry_chunk(e),
{
    if e.bodies.len() == 1 {
        assert(e.bodies.drop_first() =~= Seq::<Seq<u8>>::empty());
        assert(concat_bodies(e.bodies.drop_first()) == Seq::<u8>::empty());
        assert(concat_bodies(e.bodies) == e.bodies[0] + Seq::<u8>::empty());
        assert(e.bodies[0] + Seq::<u8>::empty() =~= e.bodies[0]);
    }
    let s1 = seq![e];
    assert(s1.drop_first() =~= Seq::<EntryModel>::empty());
    assert(chunks_of(s1.drop_first()) == Seq::<u8>::empty());
    assert(chunks_of(s1) == entry_chunk(e) + Seq::<u8>::empty());
    assert(entry_chunk(e) + Seq::<u8>::empty() =~= entry_chunk(e));
}

/// A conflict-free replicated-data-type family: it folds a history of
/// competing frames into a seed frame. The merge algorithms live
/// outside this crate; the dispatcher only routes frames to them.
pub trait Crdt {
    /// Merge `history` into the authoritative `seed`; `None` means the
    /// merged state is empty and nothing is to be written.
    fn reduce(seed: Frame, history: Vec<Frame>) -> Option<Frame>;
}

/// Why a reduction pass failed.
#[derive(Clone, Copy, Debug, PartialEq, Eq, Structural)]
pub enum ReduceError {
    /// Two frames for one object disagreed on the object's type.
    IndexFailed(TypeConflict),
}

/// Append the bytes of `src` to `out`.
fn append_bytes(out: &mut Vec<u8>, src: &Vec<u8>)
    ensures
        final(out)@ == old(out)@ + src@,
{
    let ghost out0 = old(out)@;
    let mut i: usize = 0;
    while i < src.len()
        invariant
            i <= src@.len(),
            out@ == out0 + src@.take(i as int),
        decreases src@.len() - i,
    {
        out.push(src[i]);
        proof {
            assert(out@ =~= out0 + src@.take(i as int + 1));
        }
        i = i + 1;
    }
    proof {
        assert(out0 + src@.take(src@.len() as int) =~= out0 + src@);
    }
}

/// What one indexed object may write: a plain entry's chunk is pinned
/// exactly; a reducible entry writes whatever its reducer returned.
pub open spec fn chunk_ok(e: EntryModel, c: Seq<u8>) -> bool {
    plain_entry(e) ==> c == entry_chunk(e)
}

/// Write what a reducer returned: the merged frame's text, or nothing
/// when the merge came out empty.
pub fn emit_reduced(state: Option<Frame>, out: &mut Vec<u8>)
    ensures
        final(out)@ == old(out)@ + (match state {
            Some(f) => f@,
            None => Seq::<u8>::empty(),
        }),
{
    match state {
        Some(f) => {
            append_bytes(out, f.body());
        },
        None => {
            proof {
                assert(old(out)@ + Seq::<u8>::empty() =~= old(out)@);
            }
        },
    }
}

impl Batch {
    /// Reduce every indexed object and write the results to `out`, in
    /// first-seen object order: a single frame verbatim; several
    /// frames of a reserved type ("lww" or "set") through that type's
    /// reducer `L` or `S`; several frames of an unrecognized type
    /// verbatim, seed (last frame) first, then the history in order,
    /// with a warning recorded for each such object. Fails exactly
    /// when indexing fails, naming the conflict and writing nothing.
    pub fn reduce_all<L: Crdt, S: Crdt>(self, out: &mut Vec<u8>) -> (r: Result<
        Vec<UnsupportedType>,
        ReduceError,
    >)
        requires
            self.wf(),
        ensures
            r is Ok <==> index_spec(self.frames()) is Ok,
            match index_spec(self.frames()) {
                Ok(es) => (r matches Ok(ws) && ws@ == warnings_of(es)) && ((forall|k: int|
                    0 <= k < es.len() ==> plain_entry(#[trigger] es[k])) ==> final(out)@ == old(
                    out,
                )@ + chunks_of(es)),
                Err(c) => (r matches Err(e) && e == ReduceError::IndexFailed(c)) && final(out)@
                    == old(out)@,
            },
            r is Ok ==> (match index_spec(self.frames()) {
                Ok(es) => exists|chunks: Seq<Seq<u8>>|
                    #![trigger concat_bodies(chunks)]
                    chunks.len() == es.len() && final(out)@ == old(out)@ + concat_bodies(chunks)
                        && (forall|k: int| 0 <= k < es.len() ==> chunk_ok(es[k], chunks[k])),
                Err(_) => true,
            }),
    {
        let mut index: Vec<IndexEntry> = match self.try_index() {
            Ok(v) => v,
            Err(c) => {
                return Err(ReduceError::IndexFailed(c));
            },
        };
        let ghost es = models(index@);
        let ghost total: int = es.len() as int;
        let ghost out0 = out@;
        let ghost mut chs: Seq<Seq<u8>> = Seq::empty();
        let mut warns: Vec<UnsupportedType> = Vec::new();
        proof {
            assert(out0 + concat_bodies(chs) =~= out0);
            assert(warns@ =~= warnings_of(es.take(0)));
        }
        let lt: Vec<u8> = vec![108u8, 119u8, 119u8];
        let st: Vec<u8> = vec![115u8, 101u8, 116u8];
        proof {
            assert(lt@ =~= lww_token());
            assert(st@ =~= set_token());
        }
        let lww = Id::from_token(lt.as_slice());
        let set_id = Id::from_token(st.as_slice());
        while index.len() > 0
            invariant
                index@.len() <= total == es.len(),
                models(index@) == es.skip(total - index@.len()),
                entries_ok(es),
                lww == id_of(lww_token()),
                set_id == id_of(set_token()),
                chs.len() == total - index@.len(),
                out@ == out0 + concat_bodies(chs),
                warns@ == warnings_of(es.take(total - index@.len())),
                forall|k: int| 0 <= k < chs.len() ==> chunk_ok(es[k], #[trigger] chs[k]),
                (forall|k: int| 0 <= k < es.len() ==> plain_entry(#[trigger] es[k])) ==> out@
                    == out0 + chunks_of(es.take(total - index@.len())),
            decreases index@.len(),
        {
            let ghost d: int = total - index@.len();
            let ghost iv0 = index@;
            let mut ent = index.remove(0);
            proof {
                assert(index@ =~= iv0.drop_first());
                assert(models(iv0) == es.skip(d));
                assert(ent.model() == models(iv0)[0]);
                assert(es.skip(d)[0] == es[d]);
                assert(ent.model() == es[d]);
                assert(models(index@) =~= es.skip(d + 1)) by {
                    assert(forall|k: int|
                        0 <= k < index@.len() ==> #[trigger] models(index@)[k] == models(iv0)[k
                            + 1]);
                    assert(forall|k: int|
                        0 <= k < index@.len() ==> es.skip(d)[k + 1] == #[trigger] es.skip(d + 1)[k]);
                }
                assert(es[d].bodies.len() >= 1);
            }
            let ghost bodies0: Seq<Seq<u8>> = es[d].bodies;
            let ghost oe = out@;
            let m = ent.frames.len();
            if m == 1 {
                append_bytes(out, ent.frames[0].body());
                proof {
                    lemma_reduce_round_trip(es[d]);
                    assert(out@ == oe + entry_chunk(es[d]));
                    lemma_concat_push(chs, entry_chunk(es[d]));
                    chs = chs.push(entry_chunk(es[d]));
                    assert(out@ =~= out0 + concat_bodies(chs));
                    lemma_warnings_take(es, d);
                    assert(warns@ =~= warnings_of(es.take(d + 1)));
                    if forall|k: int| 0 <= k < es.len() ==> plain_entry(#[trigger] es[k]) {
                        lemma_chunks_take(es, d);
                        assert(out@ =~= out0 + chunks_of(es.take(d + 1)));
                    }
                }
            } else {
                let is_lww = match lww {
                    Some(l) => ent.ty == l,
                    None => false,
                };
                let is_set = match set_id {
                    Some(l) => ent.ty == l,
                    None => false,
                };
                let seed = match ent.frames.pop() {
                    Some(f) => f,
                    None => {
                        // unreachable: every index entry holds at least one frame
                        return Err(ReduceError::IndexFailed(TypeConflict {
                            object: ent.object,
                            expected: ent.ty,
                            found: ent.ty,
                        }));
                    },
                };
                proof {
                    assert(seed@ == bodies0.last());
                    assert(ent.frames@.map(|i: int, f: Frame| f@) =~= bodies0.drop_last());
                }
                let history = ent.frames;
                if is_lww {
                    proof {
                        assert(bodies0.len() >= 2);
                        assert(!plain_entry(es[d]));
                    }
                    let state = L::reduce(seed, history);
                    let ghost w = match &state {
                        Some(f) => f@,
                        None => Seq::<u8>::empty(),
                    };
                    emit_reduced(state, out);
                    proof {
                        lemma_concat_push(chs, w);
                        chs = chs.push(w);
                        assert(out@ =~= out0 + concat_bodies(chs));
                        lemma_warnings_take(es, d);
                        assert(warns@ =~= warnings_of(es.take(d + 1)));
                    }
                } else if is_set {
                    proof {
                        assert(bodies0.len() >= 2);
                        assert(!plain_entry(es[d]));
                    }
                    let state = S::reduce(seed, history);
                    let ghost w = match &state {
                        Some(f) => f@,
                        None => Seq::<u8>::empty(),
                    };
                    emit_reduced(state, out);
                    proof {
                        lemma_concat_push(chs, w);
                        chs = chs.push(w);
                        assert(out@ =~= out0 + concat_bodies(chs));
                        lemma_warnings_take(es, d);
                        assert(warns@ =~= warnings_of(es.take(d + 1)));
                    }
                } else {
                    warns.push(UnsupportedType { object: ent.object, ty: ent.ty });
                    proof {
                        assert(unknown_entry(es[d]));
                        lemma_warnings_take(es, d);
                        assert(warns@ =~= warnings_of(es.take(d + 1)));
                    }
                    append_bytes(out, seed.body());
                    let ghost hist: Seq<Seq<u8>> = bodies0.drop_last();
                    let mut j: usize = 0;
                    while j < history.len()
                        invariant
                            j <= history@.len(),
                            history@.map(|i: int, f: Frame| f@) == hist,
                            out@ == oe + bodies0.last() + concat_bodies(hist.take(j as int)),
                        decreases history@.len() - j,
                    {
                        append_bytes(out, history[j].body());
                        proof {
                            assert(hist.take(j as int + 1) =~= hist.take(j as int).push(
                                history@[j as int]@,
                            ));
                            lemma_concat_push(hist.take(j as int), history@[j as int]@);
                        }
                        j = j + 1;
                    }
                    proof {
                        assert(hist.take(hist.len() as int) =~= hist);
                        lemma_reduce_round_trip(es[d]);
                        assert(out@ =~= oe + entry_chunk(es[d]));
                        lemma_concat_push(chs, entry_chunk(es[d]));
                        chs = chs.push(entry_chunk(es[d]));
                        assert(out@ =~= out0 + concat_bodies(chs));
                        if forall|k: int| 0 <= k < es.len() ==> plain_entry(#[trigger] es[k]) {
                            lemma_chunks_take(es, d);
                            assert(out@ =~= out0 + chunks_of(es.take(d + 1)));
                        }
                    }
                }
            }
            proof {
                assert(chs.len() == d + 1);
                assert(forall|k: int| 0 <= k < chs.len() ==> chunk_ok(es[k], #[trigger] chs[k]));
                assert(warns@ == warnings_of(es.take(d + 1)));
                if forall|k: int| 0 <= k < es.len() ==> plain_entry(#[trigger] es[k]) {
                    assert(out@ == out0 + chunks_of(es.take(total - index@.len())));
                }
            }
        }
        proof {
            assert(es.take(total) =~= es);
            assert(chs.len() == es.len() && out@ == out0 + concat_bodies(chs) && (forall|k: int|
                0 <= k < es.len() ==> chunk_ok(es[k], chs[k])));
            assert(warns@ == warnings_of(es));
        }
        Ok(warns)
    }
}

} // verus!

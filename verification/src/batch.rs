//! A batch of frames: an owned text buffer carved lazily into frames,
//! and the per-object index built from them.

use vstd::prelude::*;
use vstd::slice::slice_to_vec;
use vstd::string::{StrSliceExecFns, StringSliceAdditionalSpecFns};

use crate::frame::{header_of, Frame, Op};
use crate::ident::Id;
use crate::scan::{lemma_scan_from, scan_at, scan_from};

verus! {

/// The pending span, when present, starts after at least one byte of
/// the buffer and lies within it.
pub open spec fn pending_ok(t: Seq<u8>, p: Option<(int, int)>) -> bool {
    match p {
        Some(q) => 1 <= q.0 < q.1 <= t.len(),
        None => true,
    }
}

/// The pending span after one advance of a buffer whose old span was
/// `(a, b)`: the next scan runs from `b`, and positions are rebased to
/// the new buffer start `a`.
pub open spec fn next_pending(t: Seq<u8>, a: int, b: int) -> Option<(int, int)> {
    match scan_from(t, b) {
        Some(q) => Some((q.0 - a, q.1 - a)),
        None => None,
    }
}

/// The frame texts that a buffer `t` with pending span `p` will still
/// yield: none once the buffer is empty or starts with the
/// end-of-stream sentinel `.`; otherwise the prefix up to the pending
/// span's start — or the whole buffer when no span is pending — and
/// then the frames of the advanced state.
pub open spec fn frames_from(t: Seq<u8>, p: Option<(int, int)>) -> Seq<Seq<u8>>
    decreases t.len() when pending_ok(t, p) via frames_from_dec
{
    if t.len() == 0 || t[0] == 46 {
        Seq::empty()
    } else {
        match p {
            Some(q) => Seq::empty().push(t.take(q.0)) + frames_from(
                t.skip(q.0),
                next_pending(t, q.0, q.1),
            ),
            None => Seq::empty().push(t),
        }
    }
}

#[via_fn]
proof fn frames_from_dec(t: Seq<u8>, p: Option<(int, int)>) {
    if pending_ok(t, p) && t.len() > 0 && t[0] != 46 {
        match p {
            Some(q) => {
                lemma_scan_from(t, q.1);
            },
            None => {},
        }
    }
}

/// The pending span fixed at parse time. When the text begins exactly
/// with a frame, the first frame is defined to end where the second
/// begins, so the span of the second frame is stored; otherwise the
/// first scan's own span is kept, so leading non-frame text surfaces
/// as a frame of its own.
pub open spec fn parse_pending(t: Seq<u8>) -> Option<(int, int)> {
    match scan_from(t, 0) {
        Some(q) => if q.0 == 0 {
            scan_from(t, q.1)
        } else {
            Some(q)
        },
        None => None,
    }
}

/// An iterator over the frames of a text: the remaining buffer and the
/// span, within it, of the frame after the one yielded next.
#[derive(Clone, Debug)]
pub struct Batch {
    body: Vec<u8>,
    pending: Option<(usize, usize)>,
}

impl Batch {
    /// The remaining text.
    pub closed spec fn body_seq(&self) -> Seq<u8> {
        self.body@
    }

    /// The stored pending span.
    pub closed spec fn pending_span(&self) -> Option<(int, int)> {
        match self.pending {
            Some(p) => Some((p.0 as int, p.1 as int)),
            None => None,
        }
    }

    /// Well-formed: the pending span lies within the buffer, after at
    /// least one byte.
    pub open spec fn wf(&self) -> bool {
        pending_ok(self.body_seq(), self.pending_span())
    }

    /// Exhausted: the text is empty or starts with the end-of-stream
    /// sentinel `.`.
    pub open spec fn terminal(&self) -> bool {
        self.body_seq().len() == 0 || self.body_seq()[0] == 46
    }

    /// End of the frame the next advance will yield.
    pub open spec fn chunk_end(&self) -> int {
        match self.pending_span() {
            Some(q) => q.0,
            None => self.body_seq().len() as int,
        }
    }

    /// The texts of the frames this batch will still yield.
    pub open spec fn frames(&self) -> Seq<Seq<u8>> {
        frames_from(self.body_seq(), self.pending_span())
    }

    /// Create a batch from text-encoded frames `s`.
    pub fn parse(s: &str) -> (b: Batch)
        ensures
            b.body_seq() == s.spec_bytes(),
            b.pending_span() == parse_pending(s.spec_bytes()),
            b.wf(),
    {
        let body = s.as_bytes_vec();
        let n = scan_at(body.as_slice(), 0);
        let pending: Option<(usize, usize)> = match n {
            Some(p) => {
                if p.0 == 0 {
                    scan_at(body.as_slice(), p.1)
                } else {
                    Some(p)
                }
            },
            None => None,
        };
        Batch { body, pending }
    }

    /// The boundary scanner on a whole text: the span of the next
    /// complete frame, or `None`.
    pub fn scan(s: &[u8]) -> (r: Option<(usize, usize)>)
        ensures
            match r {
                Some(p) => scan_from(s@, 0) == Some((p.0 as int, p.1 as int)) && p.0 < p.1
                    <= s@.len(),
                None => scan_from(s@, 0) is None,
            },
    {
        scan_at(s, 0)
    }

    /// Length of the compact identifier token at the start of `s`.
    pub fn scan_uuid(s: &[u8]) -> (r: usize)
        ensures
            r == crate::scan::id_run_len(s@, 0),
    {
        crate::scan::scan_uuid(s)
    }

    /// Yield the next frame, or `None` when the batch is exhausted —
    /// which it then stays, unchanged, on every later call.
    pub fn next(&mut self) -> (r: Option<Frame>)
        requires
            old(self).wf(),
        ensures
            final(self).wf(),
            old(self).terminal() ==> r is None && final(self).body_seq() == old(self).body_seq()
                && final(self).pending_span() == old(self).pending_span(),
            !old(self).terminal() ==> (r matches Some(f) && f@ == old(self).body_seq().take(
                old(self).chunk_end(),
            )),
            old(self).terminal() ==> old(self).frames().len() == 0,
            !old(self).terminal() ==> old(self).frames().len() >= 1 && (r matches Some(f) && f@
                == old(self).frames()[0]) && final(self).frames() == old(self).frames().drop_first(),
    {
        proof {
            assert(old(self).terminal() ==> old(self).frames() =~= Seq::<Seq<u8>>::empty());
        }
        if self.body.len() == 0 {
            return None;
        }
        if self.body[0] == 46 {
            return None;
        }
        let p = self.pending;
        let end: usize = match p {
            Some(q) => q.0,
            None => self.body.len(),
        };
        let ret = Frame::parse(slice_to_vec(&self.body.as_slice()[0..end]));
        match p {
            Some(q) => {
                let n2 = scan_at(self.body.as_slice(), q.1);
                self.pending = match n2 {
                    Some(x) => Some((x.0 - q.0, x.1 - q.0)),
                    None => None,
                };
                self.body = slice_to_vec(&self.body.as_slice()[q.0..self.body.len()]);
                proof {
                    assert(self.body_seq() =~= old(self).body_seq().skip(q.0 as int));
                    assert(self.pending_span() == next_pending(
                        old(self).body_seq(),
                        q.0 as int,
                        q.1 as int,
                    ));
                    assert(old(self).frames() == Seq::empty().push(ret@) + self.frames());
                    assert(self.frames() =~= old(self).frames().drop_first());
                    assert(ret@ =~= old(self).frames()[0]);
                }
            },
            None => {
                self.pending = None;
                self.body = Vec::new();
                proof {
                    assert(ret@ =~= old(self).body_seq());
                    assert(old(self).frames() =~= Seq::empty().push(old(self).body_seq()));
                    assert(self.frames() =~= old(self).frames().drop_first());
                }
            },
        }
        Some(ret)
    }
}

/// A batch over the empty text is exhausted from the start: it yields
/// no frame at all, and — by `Batch::next`'s contract for exhausted
/// batches — every call to `next` returns `None` and leaves the batch
/// unchanged, so exhaustion is idempotent.
pub proof fn lemma_empty_batch(b: Batch)
    requires
        b.wf(),
        b.body_seq().len() == 0,
    ensures
        b.terminal(),
        b.frames() == Seq::<Seq<u8>>::empty(),
{
    assert(b.frames() =~= Seq::<Seq<u8>>::empty());
}

/// A type-homogeneity violation: the object whose frames disagree,
/// the type first recorded for it, and the conflicting type found.
#[derive(Clone, Copy, Debug, PartialEq, Eq, Structural)]
pub struct TypeConflict {
    pub object: Id,
    pub expected: Id,
    pub found: Id,
}

/// The spec-level image of one index entry: an object, its recorded
/// type, and the texts of its frames in first-seen order.
#[verifier::ext_equal]
pub struct EntryModel {
    pub object: Id,
    pub ty: Id,
    pub bodies: Seq<Seq<u8>>,
}

/// One object's entry in the index.
#[derive(Clone, Debug)]
pub struct IndexEntry {
    pub object: Id,
    pub ty: Id,
    pub frames: Vec<Frame>,
}

impl IndexEntry {
    /// The entry's spec-level image.
    pub open spec fn model(&self) -> EntryModel {
        EntryModel { object: self.object, ty: self.ty, bodies: self.frames@.map(|i: int, f: Frame| f@) }
    }
}

/// The spec-level image of a whole index.
pub open spec fn models(v: Seq<IndexEntry>) -> Seq<EntryModel> {
    v.map(|i: int, e: IndexEntry| e.model())
}

/// Position of the entry for object `o`, or -1 when there is none.
pub open spec fn find_key(acc: Seq<EntryModel>, o: Id) -> int
    decreases acc.len(),
{
    if acc.len() == 0 {
        -1
    } else if acc[0].object == o {
        0
    } else {
        let r = find_key(acc.drop_first(), o);
        if r < 0 {
            -1
        } else {
            r + 1
        }
    }
}

pub proof fn lemma_find_key(acc: Seq<EntryModel>, o: Id)
    ensures
        find_key(acc, o) == -1 ==> forall|k: int| 0 <= k < acc.len() ==> acc[k].object != o,
        find_key(acc, o) != -1 ==> 0 <= find_key(acc, o) < acc.len() && acc[find_key(
            acc,
            o,
        )].object == o,
    decreases acc.len(),
{
    if acc.len() > 0 && acc[0].object != o {
        lemma_find_key(acc.drop_first(), o);
        if find_key(acc, o) == -1 {
            assert forall|k: int| 0 <= k < acc.len() implies acc[k].object != o by {
                if k > 0 {
                    assert(acc.drop_first()[k - 1] == acc[k]);
                }
            }
        } else {
            assert(acc.drop_first()[find_key(acc, o) - 1] == acc[find_key(acc, o)]);
        }
    }
}

pub proof fn lemma_find_key_hit(acc: Seq<EntryModel>, o: Id, i: int)
    requires
        0 <= i < acc.len(),
        acc[i].object == o,
        forall|k: int| 0 <= k < i ==> acc[k].object != o,
    ensures
        find_key(acc, o) == i,
    decreases i,
{
    if i > 0 {
        lemma_find_key_hit(acc.drop_first(), o, i - 1);
    }
}

pub proof fn lemma_find_key_miss(acc: Seq<EntryModel>, o: Id)
    requires
        forall|k: int| 0 <= k < acc.len() ==> acc[k].object != o,
    ensures
        find_key(acc, o) == -1,
    decreases acc.len(),
{
    if acc.len() > 0 {
        lemma_find_key_miss(acc.drop_first(), o);
    }
}

/// A well-formed index: object keys are pairwise distinct and every
/// entry holds at least one frame.
pub open spec fn entries_ok(acc: Seq<EntryModel>) -> bool {
    &&& forall|i: int, j: int| 0 <= i < j < acc.len() ==> acc[i].object != acc[j].object
    &&& forall|i: int| 0 <= i < acc.len() ==> acc[i].bodies.len() >= 1
}

/// Fold frames into an index: a frame without a header is skipped; a
/// frame whose object is new opens an entry that records the frame's
/// type; a frame for a known object must agree with the recorded type,
/// else the whole indexing fails, naming the first conflict found.
pub open spec fn index_fold(fs: Seq<Seq<u8>>, acc: Seq<EntryModel>) -> Result<
    Seq<EntryModel>,
    TypeConflict,
>
    decreases fs.len(),
{
    if fs.len() == 0 {
        Ok(acc)
    } else {
        match header_of(fs[0]) {
            None => index_fold(fs.drop_first(), acc),
            Some(op) => {
                let i = find_key(acc, op.object);
                if i == -1 {
                    index_fold(
                        fs.drop_first(),
                        acc.push(EntryModel { object: op.object, ty: op.ty, bodies: seq![fs[0]] }),
                    )
                } else if acc[i].ty == op.ty {
                    index_fold(
                        fs.drop_first(),
                        acc.update(
                            i,
                            EntryModel {
                                object: acc[i].object,
                                ty: acc[i].ty,
                                bodies: acc[i].bodies.push(fs[0]),
                            },
                        ),
                    )
                } else {
                    Err(TypeConflict { object: op.object, expected: acc[i].ty, found: op.ty })
                }
            },
        }
    }
}

/// The index of a frame sequence.
pub open spec fn index_spec(fs: Seq<Seq<u8>>) -> Result<Seq<EntryModel>, TypeConflict> {
    index_fold(fs, Seq::empty())
}

/// Find the entry for object `o` in the index built so far.
fn find_entry(v: &Vec<IndexEntry>, o: Id) -> (r: Option<usize>)
    ensures
        match r {
            Some(i) => i < v@.len() && v@[i as int].object == o && find_key(models(v@), o)
                == i as int,
            None => find_key(models(v@), o) == -1,
        },
{
    let mut i: usize = 0;
    while i < v.len()
        invariant
            i <= v@.len(),
            forall|k: int| 0 <= k < i ==> v@[k].object != o,
        decreases v@.len() - i,
    {
        if v[i].object == o {
            proof {
                assert(forall|k: int| 0 <= k < i ==> models(v@)[k].object != o);
                lemma_find_key_hit(models(v@), o, i as int);
            }
            return Some(i);
        }
        i = i + 1;
    }
    proof {
        assert(forall|k: int| 0 <= k < v@.len() ==> models(v@)[k].object != o);
        lemma_find_key_miss(models(v@), o);
    }
    None
}

impl Batch {
    /// Index all frames by the object of their first header: the
    /// entries in first-seen object order, each object's frames in
    /// first-seen order — or, when two frames for one object disagree
    /// on its type, the first such conflict.
    pub fn try_index(self) -> (r: Result<Vec<IndexEntry>, TypeConflict>)
        requires
            self.wf(),
        ensures
            match r {
                Ok(v) => index_spec(self.frames()) == Ok::<_, TypeConflict>(models(v@)) && entries_ok(models(v@)),
                Err(c) => index_spec(self.frames()) == Err::<Seq<EntryModel>, _>(c),
            },
    {
        let ghost all: Seq<Seq<u8>> = self.frames();
        let mut b = self;
        let mut out: Vec<IndexEntry> = Vec::new();
        let mut failed: Option<TypeConflict> = None;
        proof {
            assert(models(out@) =~= Seq::<EntryModel>::empty());
        }
        loop
            invariant_except_break
                failed is None,
                index_fold(all, Seq::empty()) == index_fold(b.frames(), models(out@)),
                entries_ok(models(out@)),
            invariant
                b.wf(),
            ensures
                match failed {
                    Some(c) => index_fold(all, Seq::empty()) == Err::<Seq<EntryModel>, _>(c),
                    None => index_fold(all, Seq::empty()) == Ok::<_, TypeConflict>(models(out@)) && entries_ok(
                        models(out@),
                    ),
                },
            decreases b.frames().len(),
        {
            let ghost fs0 = b.frames();
            let ghost acc0 = models(out@);
            let nf = b.next();
            if nf.is_none() {
                proof {
                    assert(b.frames() == fs0);
                    assert(index_fold(all, Seq::empty()) == Ok::<_, TypeConflict>(models(out@)));
                }
                break ;
            }
            let f = nf.unwrap();
            match f.peek() {
                Some(op) => {
                    match find_entry(&out, op.object) {
                        Some(i) => {
                            let mut ent = out.remove(i);
                            let ghost ent0 = ent;
                            if ent.ty == op.ty {
                                ent.frames.push(f);
                                let ghost ent1 = ent;
                                out.insert(i, ent);
                                proof {
                                    assert(ent0.model() == acc0[i as int]);
                                    assert(ent1.model().bodies =~~= acc0[i as int].bodies.push(
                                        fs0[0],
                                    ));
                                    assert(models(out@) =~~= acc0.update(
                                        i as int,
                                        ent1.model(),
                                    ));
                                    assert(entries_ok(models(out@)));
                                }
                            } else {
                                let c = TypeConflict { object: op.object, expected: ent.ty, found: op.ty };
                                proof {
                                    assert(ent0.model() == acc0[i as int]);
                                    assert(index_fold(fs0, acc0) == Err::<Seq<EntryModel>, _>(c));
                                }
                                failed = Some(c);
                                break ;
                            }
                        },
                        None => {
                            let mut frames: Vec<Frame> = Vec::new();
                            frames.push(f);
                            out.push(IndexEntry { object: op.object, ty: op.ty, frames });
                            proof {
                                let e = EntryModel {
                                    object: op.object,
                                    ty: op.ty,
                                    bodies: seq![fs0[0]],
                                };
                                assert(models(out@) =~~= acc0.push(e));
                                lemma_find_key(acc0, op.object);
                                assert(entries_ok(acc0.push(e)));
                            }
                        },
                    }
                },
                None => {},
            }
        }
        match failed {
            Some(c) => Err(c),
            None => Ok(out),
        }
    }

    /// Index all frames by the object of their first header: `None` on
    /// a type-homogeneity violation (`try_index` names the conflict);
    /// otherwise the entries, in first-seen object order, with each
    /// object's frames in first-seen order.
    pub fn index(self) -> (r: Option<Vec<IndexEntry>>)
        requires
            self.wf(),
        ensures
            match r {
                Some(v) => index_spec(self.frames()) == Ok::<_, TypeConflict>(models(v@)) && entries_ok(models(v@)),
                None => index_spec(self.frames()) is Err,
            },
    {
        match self.try_index() {
            Ok(v) => Some(v),
            Err(_) => None,
        }
    }
}

} // verus!

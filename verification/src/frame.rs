//! A single frame of the log: its raw text and the header of its
//! first operation.

use vstd::prelude::*;

use crate::ident::{ascii_bytes, id_of, Id};
use crate::scan::{id_run_len, is_id_byte, is_ws, lemma_id_run_bytes, lemma_id_run_len, marker_rank};

verus! {

/// The token following the marker of rank `want` in the header group
/// that starts at `i` with last-seen rank `rank`, or `None` when the
/// group holds no such marker.
pub open spec fn group_token(s: Seq<u8>, i: int, rank: int, want: int) -> Option<Seq<u8>>
    decreases s.len() - i when 0 <= i <= s.len() && 0 <= rank via group_token_dec
{
    if i >= s.len() {
        None
    } else if rank < marker_rank(s[i]) {
        if marker_rank(s[i]) == want {
            Some(s.subrange(i + 1, i + 1 + id_run_len(s, i + 1)))
        } else {
            group_token(s, i + 1 + id_run_len(s, i + 1), marker_rank(s[i]), want)
        }
    } else if is_ws(s[i]) {
        group_token(s, i + 1, rank, want)
    } else {
        None
    }
}

#[via_fn]
proof fn group_token_dec(s: Seq<u8>, i: int, rank: int, want: int) {
    if 0 <= i < s.len() && rank < marker_rank(s[i]) {
        lemma_id_run_len(s, i + 1);
    }
}

/// The header of one operation: its type, object and event
/// identifiers, and an optional location identifier.
#[derive(Clone, Copy, Debug)]
pub struct Op {
    pub ty: Id,
    pub object: Id,
    pub event: Id,
    pub location: Option<Id>,
}

/// The header of the first operation of the frame text `s`: present
/// exactly when the first header group carries type, object and event
/// markers whose tokens all parse as identifiers.
pub open spec fn header_of(s: Seq<u8>) -> Option<Op> {
    match (group_token(s, 0, 0, 1), group_token(s, 0, 0, 2), group_token(s, 0, 0, 3)) {
        (Some(t), Some(o), Some(e)) => match (id_of(t), id_of(o), id_of(e)) {
            (Some(ti), Some(oi), Some(ei)) => Some(
                Op {
                    ty: ti,
                    object: oi,
                    event: ei,
                    location: match group_token(s, 0, 0, 4) {
                        Some(l) => id_of(l),
                        None => None,
                    },
                },
            ),
            _ => None,
        },
        _ => None,
    }
}

/// One frame: a span of a batch's text. Its view is the raw text.
#[derive(Clone, Debug)]
pub struct Frame {
    body: Vec<u8>,
}

impl View for Frame {
    type V = Seq<u8>;

    closed spec fn view(&self) -> Seq<u8> {
        self.body@
    }
}

/// The span of the token slot `t`, when set, lies inside `s` and is
/// the token of rank `want` of the first header group of `s`; when
/// unset, that token is found from the state `(i, rank)` on.
spec fn slot_inv(s: Seq<u8>, t: Option<(usize, usize)>, i: int, rank: int, want: int) -> bool {
    match t {
        Some(p) => p.0 <= p.1 <= s.len() && group_token(s, 0, 0, want) == Some(
            s.subrange(p.0 as int, p.1 as int),
        ) && (forall|j: int| p.0 <= j < p.1 ==> is_id_byte(#[trigger] s[j])),
        None => group_token(s, 0, 0, want) == group_token(s, i, rank, want),
    }
}

/// The token slot `t` holds the token of rank `want` of the first
/// header group of `s`, or is unset because there is none.
spec fn slot_done(s: Seq<u8>, t: Option<(usize, usize)>, want: int) -> bool {
    match t {
        Some(p) => p.0 <= p.1 <= s.len() && group_token(s, 0, 0, want) == Some(
            s.subrange(p.0 as int, p.1 as int),
        ) && (forall|j: int| p.0 <= j < p.1 ==> is_id_byte(#[trigger] s[j])),
        None => group_token(s, 0, 0, want) is None,
    }
}

/// A span of identifier bytes is ASCII.
proof fn lemma_token_ascii(s: Seq<u8>, a: int, b: int)
    requires
        0 <= a <= b <= s.len(),
        forall|j: int| a <= j < b ==> is_id_byte(#[trigger] s[j]),
    ensures
        ascii_bytes(s.subrange(a, b)),
{
    assert forall|k: int| 0 <= k < s.subrange(a, b).len() implies s.subrange(a, b)[k]
        < 128 by {
        assert(is_id_byte(s[a + k]));
    }
}

impl Frame {
    /// Wrap the text of one frame.
    pub fn parse(body: Vec<u8>) -> (f: Frame)
        ensures
            f@ == body@,
    {
        Frame { body }
    }

    /// The frame's raw text.
    pub fn body(&self) -> (r: &Vec<u8>)
        ensures
            r@ == self@,
    {
        &self.body
    }

    /// The header of the frame's first operation, when it has one.
    pub fn peek(&self) -> (r: Option<Op>)
        ensures
            r == header_of(self@),
    {
        let s: &[u8] = self.body.as_slice();
        let mut pos: usize = 0;
        let mut rank: u8 = 0;
        let mut t1: Option<(usize, usize)> = None;
        let mut t2: Option<(usize, usize)> = None;
        let mut t3: Option<(usize, usize)> = None;
        let mut t4: Option<(usize, usize)> = None;
        loop
            invariant
                pos <= s@.len(),
                s@ == self@,
                slot_inv(s@, t1, pos as int, rank as int, 1),
                slot_inv(s@, t2, pos as int, rank as int, 2),
                slot_inv(s@, t3, pos as int, rank as int, 3),
                slot_inv(s@, t4, pos as int, rank as int, 4),
                t1 is Some ==> rank >= 1,
                t2 is Some ==> rank >= 2,
                t3 is Some ==> rank >= 3,
                t4 is Some ==> rank >= 4,
            ensures
                slot_done(s@, t1, 1),
                slot_done(s@, t2, 2),
                slot_done(s@, t3, 3),
                slot_done(s@, t4, 4),
            decreases s@.len() - pos,
        {
            if pos >= s.len() {
                break ;
            }
            let b = s[pos];
            let m = crate::scan::marker_rank_x(b);
            if rank < m {
                proof {
                    lemma_id_run_len(s@, pos as int + 1);
                    lemma_id_run_bytes(s@, pos as int + 1);
                }
                let e = crate::scan::id_run_end(s, pos + 1);
                if m == 1 {
                    t1 = Some((pos + 1, e));
                } else if m == 2 {
                    t2 = Some((pos + 1, e));
                } else if m == 3 {
                    t3 = Some((pos + 1, e));
                } else {
                    t4 = Some((pos + 1, e));
                }
                pos = e;
                rank = m;
            } else if crate::scan::byte_is_ws(b) {
                pos = pos + 1;
            } else {
                break ;
            }
        }
        let tok1 = match t1 {
            Some(p) => p,
            None => {
                return None;
            },
        };
        let tok2 = match t2 {
            Some(p) => p,
            None => {
                return None;
            },
        };
        let tok3 = match t3 {
            Some(p) => p,
            None => {
                return None;
            },
        };
        proof {
            lemma_token_ascii(s@, tok1.0 as int, tok1.1 as int);
            lemma_token_ascii(s@, tok2.0 as int, tok2.1 as int);
            lemma_token_ascii(s@, tok3.0 as int, tok3.1 as int);
        }
        let ti = match Id::from_token(&s[tok1.0..tok1.1]) {
            Some(v) => v,
            None => {
                return None;
            },
        };
        let oi = match Id::from_token(&s[tok2.0..tok2.1]) {
            Some(v) => v,
            None => {
                return None;
            },
        };
        let ei = match Id::from_token(&s[tok3.0..tok3.1]) {
            Some(v) => v,
            None => {
                return None;
            },
        };
        let loc = match t4 {
            Some(p) => {
                proof {
                    lemma_token_ascii(s@, p.0 as int, p.1 as int);
                }
                Id::from_token(&s[p.0..p.1])
            },
            None => None,
        };
        Some(Op { ty: ti, object: oi, event: ei, location: loc })
    }
}

} // verus!

//! Lexical scanning over the byte text of an operation log: identifier
//! runs and the integer, float and quoted-string literal primitives.

use vstd::prelude::*;

verus! {

/// The ASCII whitespace bytes (the single-byte characters accepted by
/// `char::is_whitespace`): tab, line feed, vertical tab, form feed,
/// carriage return and space.
pub open spec fn is_ws(b: u8) -> bool {
    b == 9 || b == 10 || b == 11 || b == 12 || b == 13 || b == 32
}

/// Bytes that may appear in a compact identifier token: base-36
/// alphanumerics and the punctuation set `~ _ - + % ( { [ ) } ]`.
pub open spec fn is_id_byte(b: u8) -> bool {
    ||| 48 <= b <= 57
    ||| 65 <= b <= 90
    ||| 97 <= b <= 122
    ||| b == 126 || b == 95 || b == 45 || b == 43 || b == 37
    ||| b == 40 || b == 123 || b == 91 || b == 41 || b == 125 || b == 93
}

/// A decimal digit byte.
pub open spec fn is_digit(b: u8) -> bool {
    48 <= b <= 57
}

/// A sign byte, `+` or `-`.
pub open spec fn is_sign(b: u8) -> bool {
    b == 43 || b == 45
}

/// Length of the maximal run of identifier bytes starting at `i`.
pub open spec fn id_run_len(s: Seq<u8>, i: int) -> nat
    decreases s.len() - i when 0 <= i <= s.len()
{
    if i < s.len() && is_id_byte(s[i]) {
        (1 + id_run_len(s, i + 1)) as nat
    } else {
        0
    }
}

pub proof fn lemma_id_run_len(s: Seq<u8>, i: int)
    requires
        0 <= i <= s.len(),
    ensures
        i + id_run_len(s, i) <= s.len(),
    decreases s.len() - i,
{
    if i < s.len() && is_id_byte(s[i]) {
        lemma_id_run_len(s, i + 1);
    }
}

pub proof fn lemma_id_run_bytes(s: Seq<u8>, i: int)
    requires
        0 <= i <= s.len(),
    ensures
        forall|j: int| i <= j < i + id_run_len(s, i) ==> is_id_byte(#[trigger] s[j]),
    decreases s.len() - i,
{
    if i < s.len() && is_id_byte(s[i]) {
        lemma_id_run_bytes(s, i + 1);
    }
}

/// Length of the maximal run of digit bytes starting at `i`.
pub open spec fn digit_run_len(s: Seq<u8>, i: int) -> nat
    decreases s.len() - i when 0 <= i <= s.len()
{
    if i < s.len() && is_digit(s[i]) {
        (1 + digit_run_len(s, i + 1)) as nat
    } else {
        0
    }
}

pub proof fn lemma_digit_run_len(s: Seq<u8>, i: int)
    requires
        0 <= i <= s.len(),
    ensures
        i + digit_run_len(s, i) <= s.len(),
    decreases s.len() - i,
{
    if i < s.len() && is_digit(s[i]) {
        lemma_digit_run_len(s, i + 1);
    }
}

/// Length of an integer literal at `i`: an optional sign followed by at
/// least one digit; `None` when no digit follows.
pub open spec fn int_len_at(s: Seq<u8>, i: int) -> Option<nat> {
    let j = if i < s.len() && is_sign(s[i]) {
        i + 1
    } else {
        i
    };
    if digit_run_len(s, j) == 0 {
        None
    } else {
        Some((j - i + digit_run_len(s, j)) as nat)
    }
}

/// End of the exponent part of a float literal whose `e`/`E` stands at
/// `k`: sign and digits must follow, else the exponent is not part of
/// the literal and the result is `k` itself.
pub open spec fn exp_end(s: Seq<u8>, k: int) -> int {
    let m = if k + 1 < s.len() && is_sign(s[k + 1]) {
        k + 2
    } else {
        k + 1
    };
    if digit_run_len(s, m) > 0 {
        m + digit_run_len(s, m)
    } else {
        k
    }
}

/// Length of a float literal at `i`: an optional sign, digits, an
/// optional `.`-and-digits part, and an optional exponent; `None` when
/// no leading digit is found.
pub open spec fn float_len_at(s: Seq<u8>, i: int) -> Option<nat> {
    let j = if i < s.len() && is_sign(s[i]) {
        i + 1
    } else {
        i
    };
    if digit_run_len(s, j) == 0 {
        None
    } else {
        let k = j + digit_run_len(s, j);
        let k2 = if k < s.len() && s[k] == 46 && digit_run_len(s, k + 1) > 0 {
            k + 1 + digit_run_len(s, k + 1)
        } else {
            k
        };
        let k3 = if k2 < s.len() && (s[k2] == 101 || s[k2] == 69) {
            exp_end(s, k2)
        } else {
            k2
        };
        Some((k3 - i) as nat)
    }
}

/// Length of the contents of a quoted string whose opening quote stood
/// just before `i`: the distance to the next `'` byte, or `None` when
/// the quote is never closed.
pub open spec fn str_content_len(s: Seq<u8>, i: int) -> Option<nat>
    decreases s.len() - i when 0 <= i <= s.len()
{
    if i >= s.len() {
        None
    } else if s[i] == 39 {
        Some(0)
    } else {
        match str_content_len(s, i + 1) {
            Some(n) => Some((n + 1) as nat),
            None => None,
        }
    }
}

pub proof fn lemma_str_content_len(s: Seq<u8>, i: int)
    requires
        0 <= i <= s.len(),
    ensures
        str_content_len(s, i) matches Some(n) ==> i + n < s.len() && s[i + n] == 39,
    decreases s.len() - i,
{
    if i < s.len() && s[i] != 39 {
        lemma_str_content_len(s, i + 1);
    }
}

/// Executable test for `is_id_byte`.
fn byte_is_id(b: u8) -> (r: bool)
    ensures
        r == is_id_byte(b),
{
    (48 <= b && b <= 57) || (65 <= b && b <= 90) || (97 <= b && b <= 122) || b == 126 || b == 95
        || b == 45 || b == 43 || b == 37 || b == 40 || b == 123 || b == 91 || b == 41 || b == 125
        || b == 93
}

/// Executable test for `is_ws`.
pub(crate) fn byte_is_ws(b: u8) -> (r: bool)
    ensures
        r == is_ws(b),
{
    b == 9 || b == 10 || b == 11 || b == 12 || b == 13 || b == 32
}

/// End of the identifier run that starts at `from`.
pub fn id_run_end(s: &[u8], from: usize) -> (r: usize)
    requires
        from <= s@.len(),
    ensures
        r == from + id_run_len(s@, from as int),
        from <= r <= s@.len(),
{
    let mut i = from;
    while i < s.len() && byte_is_id(s[i])
        invariant
            from <= i <= s@.len(),
            id_run_len(s@, from as int) == i - from + id_run_len(s@, i as int),
        decreases s@.len() - i,
    {
        i = i + 1;
    }
    i
}

/// End of the digit run that starts at `from`.
fn digit_run_end(s: &[u8], from: usize) -> (r: usize)
    requires
        from <= s@.len(),
    ensures
        r == from + digit_run_len(s@, from as int),
        from <= r <= s@.len(),
{
    let mut i = from;
    while i < s.len() && 48 <= s[i] && s[i] <= 57
        invariant
            from <= i <= s@.len(),
            digit_run_len(s@, from as int) == i - from + digit_run_len(s@, i as int),
        decreases s@.len() - i,
    {
        i = i + 1;
    }
    i
}

/// Length of the maximal identifier run at the start of `s`: the
/// compact-token scanner used after every header marker.
pub fn scan_uuid(s: &[u8]) -> (r: usize)
    ensures
        r == id_run_len(s@, 0),
{
    id_run_end(s, 0)
}

/// Length of an integer literal at position `from`, or `None`.
pub fn scan_for_integer_at(s: &[u8], from: usize) -> (r: Option<usize>)
    requires
        from <= s@.len(),
    ensures
        match r {
            Some(n) => int_len_at(s@, from as int) == Some(n as nat) && from + n <= s@.len(),
            None => int_len_at(s@, from as int) is None,
        },
{
    let j = if from < s.len() && (s[from] == 43 || s[from] == 45) {
        from + 1
    } else {
        from
    };
    let e = digit_run_end(s, j);
    if e == j {
        None
    } else {
        Some(e - from)
    }
}

/// Length of a float literal at position `from`, or `None`.
pub fn scan_for_float_at(s: &[u8], from: usize) -> (r: Option<usize>)
    requires
        from <= s@.len(),
    ensures
        match r {
            Some(n) => float_len_at(s@, from as int) == Some(n as nat) && from + n <= s@.len(),
            None => float_len_at(s@, from as int) is None,
        },
{
    let j = if from < s.len() && (s[from] == 43 || s[from] == 45) {
        from + 1
    } else {
        from
    };
    let k = digit_run_end(s, j);
    if k == j {
        return None;
    }
    let k2 = if k < s.len() && s[k] == 46 {
        let d = digit_run_end(s, k + 1);
        if d > k + 1 {
            d
        } else {
            k
        }
    } else {
        k
    };
    let k3 = if k2 < s.len() && (s[k2] == 101 || s[k2] == 69) {
        let m = if k2 + 1 < s.len() && (s[k2 + 1] == 43 || s[k2 + 1] == 45) {
            k2 + 2
        } else {
            k2 + 1
        };
        let d = digit_run_end(s, m);
        if d > m {
            d
        } else {
            k2
        }
    } else {
        k2
    };
    Some(k3 - from)
}

/// Length of the contents of a quoted string opened just before `from`,
/// or `None` when no closing quote follows.
pub fn scan_for_string_at(s: &[u8], from: usize) -> (r: Option<usize>)
    requires
        from <= s@.len(),
    ensures
        match r {
            Some(n) => str_content_len(s@, from as int) == Some(n as nat) && from + n < s@.len(),
            None => str_content_len(s@, from as int) is None,
        },
{
    let mut i = from;
    while i < s.len() && s[i] != 39
        invariant
            from <= i <= s@.len(),
            match str_content_len(s@, i as int) {
                Some(n) => str_content_len(s@, from as int) == Some((n + i - from) as nat),
                None => str_content_len(s@, from as int) is None,
            },
        decreases s@.len() - i,
    {
        i = i + 1;
    }
    if i < s.len() {
        Some(i - from)
    } else {
        None
    }
}

/// Length of an integer literal at the start of `s`, or `None`.
pub fn scan_for_integer(s: &[u8]) -> (r: Option<usize>)
    ensures
        match r {
            Some(n) => int_len_at(s@, 0) == Some(n as nat),
            None => int_len_at(s@, 0) is None,
        },
{
    scan_for_integer_at(s, 0)
}

/// Length of a float literal at the start of `s`, or `None`.
pub fn scan_for_float(s: &[u8]) -> (r: Option<usize>)
    ensures
        match r {
            Some(n) => float_len_at(s@, 0) == Some(n as nat),
            None => float_len_at(s@, 0) is None,
        },
{
    scan_for_float_at(s, 0)
}

/// Length of the contents of a quoted string at the start of `s`
/// (the opening quote already consumed), or `None`.
pub fn scan_for_string(s: &[u8]) -> (r: Option<usize>)
    ensures
        match r {
            Some(n) => str_content_len(s@, 0) == Some(n as nat),
            None => str_content_len(s@, 0) is None,
        },
{
    scan_for_string_at(s, 0)
}

/// Rank of a header marker byte: `*` type < `#` object < `@` event <
/// `:` location; 0 for any other byte.
pub open spec fn marker_rank(b: u8) -> int {
    if b == 42 {
        1
    } else if b == 35 {
        2
    } else if b == 64 {
        3
    } else if b == 58 {
        4
    } else {
        0
    }
}

/// Skip widths used by the atom phase: a failed literal scan consumes
/// nothing beyond its sigil.
pub open spec fn int_skip(s: Seq<u8>, i: int) -> int {
    match int_len_at(s, i) {
        Some(n) => n as int,
        None => 0,
    }
}

pub open spec fn float_skip(s: Seq<u8>, i: int) -> int {
    match float_len_at(s, i) {
        Some(n) => n as int,
        None => 0,
    }
}

pub open spec fn str_skip(s: Seq<u8>, i: int) -> int {
    match str_content_len(s, i) {
        Some(n) => n as int,
        None => 0,
    }
}

pub proof fn lemma_int_skip(s: Seq<u8>, i: int)
    requires
        0 <= i <= s.len(),
    ensures
        0 <= int_skip(s, i),
        i + int_skip(s, i) <= s.len(),
{
    if i < s.len() && is_sign(s[i]) {
        lemma_digit_run_len(s, i + 1);
    } else {
        lemma_digit_run_len(s, i);
    }
}

pub proof fn lemma_float_skip(s: Seq<u8>, i: int)
    requires
        0 <= i <= s.len(),
    ensures
        0 <= float_skip(s, i),
        i + float_skip(s, i) <= s.len(),
{
    let j = if i < s.len() && is_sign(s[i]) {
        i + 1
    } else {
        i
    };
    lemma_digit_run_len(s, j);
    if digit_run_len(s, j) > 0 {
        let k = j + digit_run_len(s, j);
        if k < s.len() && s[k] == 46 && digit_run_len(s, k + 1) > 0 {
            lemma_digit_run_len(s, k + 1);
        }
        let k2 = if k < s.len() && s[k] == 46 && digit_run_len(s, k + 1) > 0 {
            k + 1 + digit_run_len(s, k + 1)
        } else {
            k
        };
        if k2 < s.len() && (s[k2] == 101 || s[k2] == 69) {
            let m = if k2 + 1 < s.len() && is_sign(s[k2 + 1]) {
                k2 + 2
            } else {
                k2 + 1
            };
            if m <= s.len() {
                lemma_digit_run_len(s, m);
            }
        }
    }
}

pub proof fn lemma_str_skip(s: Seq<u8>, i: int)
    requires
        0 <= i <= s.len(),
    ensures
        0 <= str_skip(s, i),
        str_content_len(s, i) is Some ==> i + str_skip(s, i) < s.len(),
{
    lemma_str_content_len(s, i);
}

/// One header group: markers are consumed in strictly increasing rank
/// order, each followed by its identifier run; whitespace is skipped;
/// anything else ends the group. Returns the end position and the rank
/// of the last marker consumed (`rank` itself if none was).
pub open spec fn header_end(s: Seq<u8>, i: int, rank: int) -> (int, int)
    decreases s.len() - i when 0 <= i <= s.len() && 0 <= rank via header_end_dec
{
    if i >= s.len() {
        (i, rank)
    } else if rank < marker_rank(s[i]) {
        header_end(s, i + 1 + id_run_len(s, i + 1), marker_rank(s[i]))
    } else if is_ws(s[i]) {
        header_end(s, i + 1, rank)
    } else {
        (i, rank)
    }
}

#[via_fn]
proof fn header_end_dec(s: Seq<u8>, i: int, rank: int) {
    if 0 <= i < s.len() && rank < marker_rank(s[i]) {
        lemma_id_run_len(s, i + 1);
    }
}

pub proof fn lemma_header_end(s: Seq<u8>, i: int, rank: int)
    requires
        0 <= i <= s.len(),
        0 <= rank,
    ensures
        i <= header_end(s, i, rank).0 <= s.len(),
        rank <= header_end(s, i, rank).1,
        header_end(s, i, rank).1 != rank ==> header_end(s, i, rank).0 > i,
    decreases s.len() - i,
{
    if i < s.len() && rank < marker_rank(s[i]) {
        lemma_id_run_len(s, i + 1);
        lemma_header_end(s, i + 1 + id_run_len(s, i + 1), marker_rank(s[i]));
    } else if i < s.len() && is_ws(s[i]) {
        lemma_header_end(s, i + 1, rank);
    }
}

/// Outcome of the atom phase that follows a header group.
pub enum AtomStep {
    /// A frame terminator (`!` or `;`) was found; the field is the
    /// position just after it.
    Term(int),
    /// The run ended at a `,` or a new header marker; the field is
    /// the position where the next header group starts.
    Cont(int),
    /// The text ended, or an unexpected byte was found.
    Fail,
}

/// The atom phase: literal atoms (`=`, `^`, `>`, `'`) and whitespace
/// are consumed until a terminator, a comma, a header marker or an
/// unexpected byte is reached; an unexpected byte aborts the scan.
pub open spec fn atoms_end(s: Seq<u8>, i: int) -> AtomStep
    decreases (if i <= s.len() {
        s.len() - i + 1
    } else {
        0
    }) when 0 <= i via atoms_end_dec
{
    if i >= s.len() {
        AtomStep::Fail
    } else {
        let b = s[i];
        if b == 61 {
            atoms_end(s, i + 1 + int_skip(s, i + 1))
        } else if b == 94 {
            atoms_end(s, i + 1 + float_skip(s, i + 1))
        } else if b == 62 {
            atoms_end(s, i + 1 + id_run_len(s, i + 1))
        } else if b == 39 {
            atoms_end(s, i + 2 + str_skip(s, i + 1))
        } else if b == 44 {
            AtomStep::Cont(i + 1)
        } else if b == 33 || b == 59 {
            AtomStep::Term(i + 1)
        } else if marker_rank(b) != 0 {
            AtomStep::Cont(i)
        } else if is_ws(b) {
            atoms_end(s, i + 1)
        } else {
            AtomStep::Fail
        }
    }
}

#[via_fn]
proof fn atoms_end_dec(s: Seq<u8>, i: int) {
    if 0 <= i < s.len() {
        lemma_int_skip(s, i + 1);
        lemma_float_skip(s, i + 1);
        lemma_id_run_len(s, i + 1);
        lemma_str_skip(s, i + 1);
    }
}

pub proof fn lemma_atoms_end(s: Seq<u8>, i: int)
    requires
        0 <= i,
    ensures
        atoms_end(s, i) matches AtomStep::Term(e) ==> i < e <= s.len(),
        atoms_end(s, i) matches AtomStep::Cont(k) ==> i <= k <= s.len(),
    decreases (if i <= s.len() {
        s.len() - i + 1
    } else {
        0
    }),
{
    if i < s.len() {
        let b = s[i];
        if b == 61 {
            lemma_int_skip(s, i + 1);
            lemma_atoms_end(s, i + 1 + int_skip(s, i + 1));
        } else if b == 94 {
            lemma_float_skip(s, i + 1);
            lemma_atoms_end(s, i + 1 + float_skip(s, i + 1));
        } else if b == 62 {
            lemma_id_run_len(s, i + 1);
            lemma_atoms_end(s, i + 1 + id_run_len(s, i + 1));
        } else if b == 39 {
            lemma_str_skip(s, i + 1);
            lemma_atoms_end(s, i + 2 + str_skip(s, i + 1));
        } else if b == 44 || b == 33 || b == 59 || marker_rank(b) != 0 {
        } else if is_ws(b) {
            lemma_atoms_end(s, i + 1);
        }
    }
}

/// The boundary scanner: the span of the next complete frame at or
/// after `i` — from the start of the last header group before a
/// terminator, to just after that terminator — or `None` when no
/// complete frame follows.
pub open spec fn scan_from(s: Seq<u8>, i: int) -> Option<(int, int)>
    decreases s.len() - i when 0 <= i <= s.len() via scan_from_dec
{
    let jr = header_end(s, i, 0);
    if jr.1 == 0 {
        None
    } else {
        match atoms_end(s, jr.0) {
            AtomStep::Term(e) => Some((i, e)),
            AtomStep::Cont(k) => scan_from(s, k),
            AtomStep::Fail => None,
        }
    }
}

#[via_fn]
proof fn scan_from_dec(s: Seq<u8>, i: int) {
    if 0 <= i <= s.len() {
        lemma_header_end(s, i, 0);
        let jr = header_end(s, i, 0);
        if jr.1 != 0 {
            lemma_atoms_end(s, jr.0);
        }
    }
}

pub proof fn lemma_scan_from(s: Seq<u8>, i: int)
    requires
        0 <= i <= s.len(),
    ensures
        scan_from(s, i) matches Some(p) ==> i <= p.0 < p.1 <= s.len(),
    decreases s.len() - i,
{
    lemma_header_end(s, i, 0);
    let jr = header_end(s, i, 0);
    if jr.1 != 0 {
        lemma_atoms_end(s, jr.0);
        match atoms_end(s, jr.0) {
            AtomStep::Cont(k) => {
                lemma_scan_from(s, k);
            },
            _ => {},
        }
    }
}

/// Executable `marker_rank`.
pub(crate) fn marker_rank_x(b: u8) -> (r: u8)
    ensures
        r as int == marker_rank(b),
{
    if b == 42 {
        1
    } else if b == 35 {
        2
    } else if b == 64 {
        3
    } else if b == 58 {
        4
    } else {
        0
    }
}

/// The boundary scanner, running from position `from`.
pub fn scan_at(s: &[u8], from: usize) -> (r: Option<(usize, usize)>)
    requires
        from <= s@.len(),
    ensures
        match r {
            Some(p) => scan_from(s@, from as int) == Some((p.0 as int, p.1 as int)) && from <= p.0
                < p.1 <= s@.len(),
            None => scan_from(s@, from as int) is None,
        },
{
    let mut pos = from;
    loop
        invariant
            from <= pos <= s@.len(),
            scan_from(s@, from as int) == scan_from(s@, pos as int),
        decreases s@.len() - pos,
    {
        let start = pos;
        let mut rank: u8 = 0;
        loop
            invariant
                start <= pos <= s@.len(),
                rank <= 4,
                header_end(s@, start as int, 0) == header_end(s@, pos as int, rank as int),
            ensures
                start <= pos <= s@.len(),
                rank <= 4,
                header_end(s@, start as int, 0) == (pos as int, rank as int),
            decreases s@.len() - pos,
        {
            if pos >= s.len() {
                break ;
            }
            let b = s[pos];
            let m = marker_rank_x(b);
            if rank < m {
                proof {
                    lemma_id_run_len(s@, pos as int + 1);
                }
                pos = id_run_end(s, pos + 1);
                rank = m;
            } else if byte_is_ws(b) {
                pos = pos + 1;
            } else {
                break ;
            }
        }
        if rank == 0 {
            return None;
        }
        proof {
            lemma_header_end(s@, start as int, 0);
        }
        let ghost j0: int = header_end(s@, start as int, 0).0;
        loop
            invariant_except_break
                atoms_end(s@, j0) == atoms_end(s@, pos as int),
            invariant
                start < pos <= s@.len(),
                from <= start,
                rank != 0,
                start <= j0 <= s@.len(),
                header_end(s@, start as int, 0) == (j0, rank as int),
                scan_from(s@, from as int) == scan_from(s@, start as int),
            ensures
                start < pos <= s@.len(),
                atoms_end(s@, j0) == AtomStep::Cont(pos as int),
            decreases s@.len() - pos,
        {
            if pos >= s.len() {
                proof {
                    assert(atoms_end(s@, pos as int) == AtomStep::Fail);
                    assert(scan_from(s@, start as int) is None);
                }
                return None;
            }
            let b = s[pos];
            if b == 61 {
                proof {
                    lemma_int_skip(s@, pos as int + 1);
                }
                let n = match scan_for_integer_at(s, pos + 1) {
                    Some(n) => n,
                    None => 0,
                };
                pos = pos + 1 + n;
            } else if b == 94 {
                proof {
                    lemma_float_skip(s@, pos as int + 1);
                }
                let n = match scan_for_float_at(s, pos + 1) {
                    Some(n) => n,
                    None => 0,
                };
                pos = pos + 1 + n;
            } else if b == 62 {
                pos = id_run_end(s, pos + 1);
            } else if b == 39 {
                if pos + 1 >= s.len() {
                    proof {
                        assert(str_skip(s@, pos as int + 1) == 0);
                        assert(atoms_end(s@, pos as int + 2) == AtomStep::Fail);
                        assert(atoms_end(s@, pos as int) == AtomStep::Fail);
                        assert(scan_from(s@, start as int) is None);
                    }
                    return None;
                }
                let n = match scan_for_string_at(s, pos + 1) {
                    Some(n) => n,
                    None => 0,
                };
                pos = pos + 2 + n;
            } else if b == 44 {
                proof {
                    assert(atoms_end(s@, j0) == AtomStep::Cont(pos as int + 1));
                }
                pos = pos + 1;
                break ;
            } else if b == 33 || b == 59 {
                proof {
                    assert(atoms_end(s@, pos as int) == AtomStep::Term(pos as int + 1));
                    assert(scan_from(s@, start as int) == Some(
                        (start as int, pos as int + 1),
                    ));
                }
                return Some((start, pos + 1));
            } else {
                let m = marker_rank_x(b);
                if m != 0 {
                    proof {
                        assert(atoms_end(s@, pos as int) == AtomStep::Cont(pos as int));
                    }
                    break ;
                } else if byte_is_ws(b) {
                    pos = pos + 1;
                } else {
                    proof {
                        assert(atoms_end(s@, pos as int) == AtomStep::Fail);
                        assert(scan_from(s@, start as int) is None);
                    }
                    return None;
                }
            }
        }
    }
}

/// The boundary scanner on a whole text.
pub fn scan(s: &[u8]) -> (r: Option<(usize, usize)>)
    ensures
        match r {
            Some(p) => scan_from(s@, 0) == Some((p.0 as int, p.1 as int)) && p.0 < p.1 <= s@.len(),
            None => scan_from(s@, 0) is None,
        },
{
    scan_at(s, 0)
}

} // verus!

//! Shared configuration rules: CPU sets written as `taskset` lists, numbers
//! written with `_` separators, access tokens, Tokio options, and the ids
//! of shutdown listeners.
use vstd::prelude::*;
use crate::filter::{base58_decoded, base64_decoded, decode_base58, decode_base64};

verus! {

/// The byte `,`.
pub const COMMA: u8 = 44;

/// The byte `-`.
pub const DASH: u8 = 45;

/// The byte `+`.
pub const PLUS: u8 = 43;

/// The byte `_`.
pub const UNDERSCORE: u8 = 95;

/// Position of the first `c` in `b`, or -1.
pub open spec fn first_index(b: Seq<u8>, c: u8) -> int
    decreases b.len(),
{
    if b.len() == 0 {
        -1
    } else if b[0] == c {
        0
    } else {
        let r = first_index(b.drop_first(), c);
        if r < 0 {
            -1
        } else {
            r + 1
        }
    }
}

/// The pieces of `b` between commas, in order (an empty text is one empty
/// piece).
pub open spec fn comma_pieces(b: Seq<u8>) -> Seq<Seq<u8>>
    decreases b.len(),
{
    let i = first_index(b, COMMA);
    if i < 0 || i >= b.len() {
        seq![b]
    } else {
        seq![b.take(i)] + comma_pieces(b.skip(i + 1))
    }
}

/// Whether every byte is an ASCII digit.
pub open spec fn all_digits(d: Seq<u8>) -> bool {
    forall|i: int| 0 <= i < d.len() ==> 48 <= #[trigger] d[i] <= 57
}

/// The number the digits `d` spell.
pub open spec fn digits_value(d: Seq<u8>) -> nat
    decreases d.len(),
{
    if d.len() == 0 {
        0
    } else {
        digits_value(d.drop_last()) * 10 + (d.last() - 48) as nat
    }
}

/// The machine word a decimal text denotes: an optional `+`, then at least
/// one digit, the value not above `usize::MAX`.
pub open spec fn parse_usize(p: Seq<u8>) -> Option<usize> {
    let d = if p.len() > 0 && p[0] == PLUS {
        p.drop_first()
    } else {
        p
    };
    if d.len() == 0 || !all_digits(d) || digits_value(d) > usize::MAX {
        None
    } else {
        Some(digits_value(d) as usize)
    }
}

/// Why a CPU list is refused.
#[derive(Debug, Clone)]
pub enum TasksetError {
    /// A number that does not parse, and the whole list.
    ParseFailed { value: Vec<u8> },
    /// An interval whose start is past its end.
    InvalidInterval { interval: Vec<u8> },
    /// The CPUs the thread may run on could not be read.
    AffinityUnavailable,
    /// A CPU past the largest one the thread may run on.
    OutOfRange { max_index: usize },
}

/// What a piece of a CPU list denotes: `a-b` an interval (split at the
/// first `-`), anything else one CPU.
pub open spec fn piece_range(p: Seq<u8>) -> Result<(usize, usize), Seq<u8>> {
    let k = first_index(p, DASH);
    if 0 <= k < p.len() {
        let s = p.take(k);
        let e = p.skip(k + 1);
        if parse_usize(s) is None {
            Err(s)
        } else if parse_usize(e) is None {
            Err(e)
        } else if parse_usize(s)->0 > parse_usize(e)->0 {
            Err(p)
        } else {
            Ok((parse_usize(s)->0, parse_usize(e)->0))
        }
    } else {
        match parse_usize(p) {
            Some(v) => Ok((v, v)),
            None => Err(p),
        }
    }
}

/// Whether a piece fails because its interval is reversed (the other
/// failure being a number that does not parse).
pub open spec fn piece_reversed(p: Seq<u8>) -> bool {
    let k = first_index(p, DASH);
    0 <= k < p.len() && parse_usize(p.take(k)) is Some && parse_usize(p.skip(k + 1)) is Some
        && parse_usize(p.take(k))->0 > parse_usize(p.skip(k + 1))->0
}

/// The first piece that fails, if any.
pub open spec fn first_bad_piece(ps: Seq<Seq<u8>>) -> Option<Seq<u8>>
    decreases ps.len(),
{
    if ps.len() == 0 {
        None
    } else if piece_range(ps[0]) is Err {
        Some(ps[0])
    } else {
        first_bad_piece(ps.drop_first())
    }
}

/// Whether CPU `x` is named by one of the pieces.
pub open spec fn in_pieces(ps: Seq<Seq<u8>>, x: usize) -> bool {
    exists|i: int|
        0 <= i < ps.len() && (#[trigger] piece_range(ps[i]) matches Ok((s, e)) && s <= x <= e)
}

/// Whether a list is strictly increasing.
pub open spec fn increasing(v: Seq<usize>) -> bool {
    forall|i: int, j: int| 0 <= i < j < v.len() ==> v[i] < v[j]
}

/// Position of the first `c` in `b`.
fn find_byte(b: &[u8], from: usize, c: u8) -> (r: usize)
    requires
        from <= b@.len(),
    ensures
        from <= r <= b@.len(),
        forall|i: int| from <= i < r ==> b@[i] != c,
        r < b@.len() ==> b@[r as int] == c,
{
    let mut i = from;
    while i < b.len() && b[i] != c
        invariant
            from <= i <= b@.len(),
            forall|j: int| from <= j < i ==> b@[j] != c,
        decreases b@.len() - i,
    {
        i = i + 1;
    }
    i
}

/// `first_index` finds the first occurrence.
proof fn lemma_first_index(b: Seq<u8>, c: u8, r: int)
    requires
        0 <= r <= b.len(),
        forall|i: int| 0 <= i < r ==> b[i] != c,
        r < b.len() ==> b[r] == c,
    ensures
        first_index(b, c) == (if r < b.len() {
            r
        } else {
            -1
        }),
    decreases b.len(),
{
    if b.len() > 0 && r > 0 {
        lemma_first_index(b.drop_first(), c, r - 1);
    }
}

/// The number of a decimal text (see `parse_usize`).
pub fn parse_decimal(p: &[u8]) -> (r: Option<usize>)
    ensures
        r == parse_usize(p@),
{
    let mut i: usize = 0;
    if p.len() > 0 && p[0] == PLUS {
        i = 1;
    }
    let ghost d = if p@.len() > 0 && p@[0] == PLUS {
        p@.drop_first()
    } else {
        p@
    };
    proof {
        assert(d =~= p@.skip(i as int));
    }
    if i == p.len() {
        return None;
    }
    let mut v: usize = 0;
    let start = i;
    while i < p.len()
        invariant
            start <= i <= p@.len(),
            start < p@.len(),
            d == p@.skip(start as int),
            d == (if p@.len() > 0 && p@[0] == PLUS {
                p@.drop_first()
            } else {
                p@
            }),
            all_digits(p@.subrange(start as int, i as int)),
            v == digits_value(p@.subrange(start as int, i as int)),
        decreases p@.len() - i,
    {
        let c = p[i];
        if c < 48 || c > 57 {
            proof {
                assert(d[i - start] == c);
            }
            return None;
        }
        proof {
            assert(p@.subrange(start as int, i + 1).drop_last() =~= p@.subrange(start as int, i as int));
        }
        let digit = (c - 48) as usize;
        if v > (usize::MAX - digit) / 10 {
            proof {
                assert(digits_value(p@.subrange(start as int, i + 1)) > usize::MAX);
                assert(d.take(i + 1 - start) =~= p@.subrange(start as int, i + 1));
                if all_digits(d) {
                    lemma_digits_prefix(d, i + 1 - start);
                }
            }
            return None;
        }
        v = v * 10 + digit;
        i = i + 1;
    }
    proof {
        assert(p@.subrange(start as int, i as int) =~= d);
    }
    Some(v)
}

/// The value of a digit string is at least that of any of its prefixes.
proof fn lemma_digits_prefix(d: Seq<u8>, k: int)
    requires
        0 <= k <= d.len(),
        all_digits(d),
    ensures
        digits_value(d.take(k)) <= digits_value(d),
    decreases d.len(),
{
    if k < d.len() {
        lemma_digits_prefix(d.drop_last(), k);
        assert(d.drop_last().take(k) =~= d.take(k));
    } else {
        assert(d.take(k) =~= d);
    }
}


/// Copies `b[from..to]`.
fn copy_range(b: &[u8], from: usize, to: usize) -> (r: Vec<u8>)
    requires
        from <= to <= b@.len(),
    ensures
        r@ == b@.subrange(from as int, to as int),
{
    let mut v: Vec<u8> = Vec::new();
    let mut i = from;
    while i < to
        invariant
            from <= i <= to <= b@.len(),
            v@ == b@.subrange(from as int, i as int),
        decreases to - i,
    {
        v.push(b[i]);
        proof {
            assert(b@.subrange(from as int, i + 1) =~= b@.subrange(from as int, i as int).push(b@[i as int]));
        }
        i = i + 1;
    }
    v
}

/// Inserts `x` into an increasing list, keeping it increasing.
fn insert_sorted(v: &mut Vec<usize>, x: usize)
    requires
        increasing(old(v)@),
    ensures
        increasing(final(v)@),
        forall|y: usize| final(v)@.contains(y) <==> (old(v)@.contains(y) || y == x),
{
    let mut i: usize = 0;
    while i < v.len() && v[i] < x
        invariant
            i <= v@.len(),
            forall|j: int| 0 <= j < i ==> v@[j] < x,
        decreases v@.len() - i,
    {
        i = i + 1;
    }
    if i < v.len() && v[i] == x {
        return;
    }
    let ghost v0 = v@;
    v.insert(i, x);
    proof {
        v0.insert_ensures(i as int, x);
        assert forall|a: int, b: int| 0 <= a < b < v@.len() implies v@[a] < v@[b] by {
            if i < v0.len() {
                assert(v0[i as int] > x);
                if b > i + 1 {
                    assert(v0[i as int] <= v0[b - 1]);
                }
            }
            if a < i && b > i {
                assert(v0[a] < x);
            }
        }
        assert forall|y: usize| v@.contains(y) <==> (v0.contains(y) || y == x) by {
            if v@.contains(y) {
                let k = choose|k: int| 0 <= k < v@.len() && v@[k] == y;
                if k < i {
                    assert(v0[k] == y);
                } else if k > i {
                    assert(v0[k - 1] == y);
                }
            }
            if v0.contains(y) {
                let k = choose|k: int| 0 <= k < v0.len() && v0[k] == y;
                if k < i {
                    assert(v@[k] == y);
                } else {
                    assert(v@[k + 1] == y);
                }
            }
            if y == x {
                assert(v@[i as int] == x);
            }
        }
    }
}

/// Adding a good piece adds its CPUs.
proof fn lemma_in_pieces_push(done: Seq<Seq<u8>>, p: Seq<u8>, x: usize)
    requires
        piece_range(p) is Ok,
    ensures
        in_pieces(done.push(p), x) <==> (in_pieces(done, x) || (piece_range(p)->Ok_0.0 <= x
            <= piece_range(p)->Ok_0.1)),
{
    let d2 = done.push(p);
    if in_pieces(d2, x) {
        let i = choose|i: int|
            0 <= i < d2.len() && (#[trigger] piece_range(d2[i]) matches Ok((s, e)) && s <= x <= e);
        if i < done.len() {
            assert(d2[i] == done[i]);
        }
    }
    if in_pieces(done, x) {
        let i = choose|i: int|
            0 <= i < done.len() && (#[trigger] piece_range(done[i]) matches Ok((s, e)) && s <= x <= e);
        assert(d2[i] == done[i]);
    }
    if piece_range(p)->Ok_0.0 <= x <= piece_range(p)->Ok_0.1 {
        assert(d2[done.len() as int] == p);
    }
}

/// The CPUs gathered after one more good piece are those of all pieces so
/// far.
proof fn lemma_union_step(before: Seq<usize>, after: Seq<usize>, done: Seq<Seq<u8>>, p: Seq<u8>, lo: usize, hi: usize)
    requires
        forall|x: usize| before.contains(x) <==> in_pieces(done, x),
        forall|x: usize| after.contains(x) <==> (before.contains(x) || (lo <= x <= hi)),
        piece_range(p) == Ok::<(usize, usize), Seq<u8>>((lo, hi)),
    ensures
        forall|x: usize| after.contains(x) <==> in_pieces(done.push(p), x),
{
    assert forall|x: usize| after.contains(x) <==> in_pieces(done.push(p), x) by {
        lemma_in_pieces_push(done, p, x);
    }
}

/// Splitting the rest of a list at its next comma.
proof fn lemma_pieces_step(b: Seq<u8>, pos: int, end: int)
    requires
        0 <= pos <= end <= b.len(),
        forall|i: int| pos <= i < end ==> b[i] != COMMA,
        end < b.len() ==> b[end] == COMMA,
    ensures
        end < b.len() ==> comma_pieces(b.skip(pos)) == seq![b.subrange(pos, end)] + comma_pieces(b.skip(end + 1)),
        end == b.len() ==> comma_pieces(b.skip(pos)) == seq![b.subrange(pos, end)],
{
    let r = b.skip(pos);
    lemma_first_index(r, COMMA, end - pos);
    if end < b.len() {
        assert(r.take(end - pos) =~= b.subrange(pos, end));
        assert(r.skip(end - pos + 1) =~= b.skip(end + 1));
    } else {
        assert(r =~= b.subrange(pos, end));
    }
}

/// The interval a piece of a CPU list denotes (see `piece_range`).
fn parse_piece(piece: &Vec<u8>) -> (r: Result<(usize, usize), TasksetError>)
    ensures
        match piece_range(piece@) {
            Ok(x) => r == Ok::<(usize, usize), TasksetError>(x),
            Err(t) => if piece_reversed(piece@) {
                r matches Err(TasksetError::InvalidInterval { interval }) && interval@ == piece@
            } else {
                r matches Err(TasksetError::ParseFailed { value }) && value@ == t
            },
        },
{
    let ghost p = piece@;
    let k = find_byte(piece.as_slice(), 0, DASH);
    proof {
        lemma_first_index(p, DASH, k as int);
    }
    let (lo, hi): (usize, usize) = if k < piece.len() {
        let s = copy_range(piece.as_slice(), 0, k);
        let e = copy_range(piece.as_slice(), k + 1, piece.len());
        proof {
            assert(s@ =~= p.take(k as int));
            assert(e@ =~= p.skip(k + 1));
        }
        let lo = match parse_decimal(s.as_slice()) {
            Some(x) => x,
            None => {
                proof {
                    assert(parse_usize(p.take(k as int)) is None);
                    assert(piece_range(p) == Err::<(usize, usize), Seq<u8>>(s@));
                    assert(!piece_reversed(p));
                }
                return Err(TasksetError::ParseFailed { value: s });
            },
        };
        let hi = match parse_decimal(e.as_slice()) {
            Some(x) => x,
            None => {
                return Err(TasksetError::ParseFailed { value: e });
            },
        };
        if lo > hi {
            return Err(TasksetError::InvalidInterval { interval: piece.clone() });
        }
        (lo, hi)
    } else {
        match parse_decimal(piece.as_slice()) {
            Some(x) => (x, x),
            None => {
                proof {
                    assert(piece_range(p) == Err::<(usize, usize), Seq<u8>>(p));
                    assert(!piece_reversed(p));
                }
                return Err(TasksetError::ParseFailed { value: piece.clone() });
            },
        }
    };
    Ok((lo, hi))
}

/// The CPUs of a `taskset` list such as `0-3,8,10-11`: pieces separated by
/// commas, each one CPU or an interval `a-b` with `a <= b`; the result is
/// increasing and without repeats. The first piece that does not parse is
/// reported: a reversed interval as a whole, otherwise the number that does
/// not parse.
pub fn parse_cpu_list(taskset: &str) -> (r: Result<Vec<usize>, TasksetError>)
    ensures
        ({
            let ps = comma_pieces(vstd::utf8::encode_utf8(taskset@));
            match first_bad_piece(ps) {
                Some(p) => if piece_reversed(p) {
                    r matches Err(TasksetError::InvalidInterval { interval }) && interval@ == p
                } else {
                    r matches Err(TasksetError::ParseFailed { value }) && value@ == piece_range(p)->Err_0
                },
                None => r matches Ok(v) && increasing(v@) && forall|x: usize| v@.contains(x) <==> in_pieces(ps, x),
            }
        }),
{
    let b = taskset.as_bytes();
    assert(b@ == vstd::utf8::encode_utf8(taskset@));
    let ghost ps = comma_pieces(b@);
    let mut v: Vec<usize> = Vec::new();
    let mut pos: usize = 0;
    let ghost mut done: Seq<Seq<u8>> = Seq::empty();
    proof {
        assert(b@.skip(0) =~= b@);
        assert(done + comma_pieces(b@.skip(0)) =~= ps);
    }
    loop
        invariant_except_break
            ps == done + comma_pieces(b@.skip(pos as int)),
        invariant
            pos <= b@.len(),
            b@ == vstd::utf8::encode_utf8(taskset@),
            ps == comma_pieces(b@),
            forall|i: int| 0 <= i < done.len() ==> piece_range(#[trigger] done[i]) is Ok,
            increasing(v@),
            forall|x: usize| v@.contains(x) <==> in_pieces(done, x),
        ensures
            ps == done,
            forall|i: int| 0 <= i < done.len() ==> piece_range(#[trigger] done[i]) is Ok,
            increasing(v@),
            forall|x: usize| v@.contains(x) <==> in_pieces(done, x),
        decreases b@.len() - pos,
    {
        let end = find_byte(b, pos, COMMA);
        proof {
            lemma_pieces_step(b@, pos as int, end as int);
        }
        let piece = copy_range(b, pos, end);
        let ghost p = piece@;
        let ghost rest = if end < b@.len() {
            comma_pieces(b@.skip(end + 1))
        } else {
            Seq::<Seq<u8>>::empty()
        };
        proof {
            assert(comma_pieces(b@.skip(pos as int)) =~= seq![p] + rest);
            assert(ps == done + (seq![p] + rest));
            lemma_first_bad_split(done, p, rest);
        }
        let (lo, hi) = match parse_piece(&piece) {
            Ok(x) => x,
            Err(e) => {
                proof {
                    assert(piece_range(p) is Err);
                    assert(first_bad_piece(ps) == Some(p));
                    if piece_reversed(p) {
                        assert(e matches TasksetError::InvalidInterval { interval } && interval@ == p);
                    } else {
                        assert(e matches TasksetError::ParseFailed { value } && value@ == piece_range(p)->Err_0);
                    }
                }
                return Err(e);
            },
        };
        proof {
            assert(piece_range(p) == Ok::<(usize, usize), Seq<u8>>((lo, hi)));
        }
        // every CPU of the interval
        let mut idx = lo;
        let ghost v_before = v@;
        assert(forall|x: usize| v_before.contains(x) <==> in_pieces(done, x));
        loop
            invariant_except_break
                forall|x: usize| v@.contains(x) <==> (v_before.contains(x) || (lo <= x < idx)),
            invariant
                lo <= idx <= hi,
                increasing(v@),
            ensures
                increasing(v@),
                forall|x: usize| v@.contains(x) <==> (v_before.contains(x) || (lo <= x <= hi)),
            decreases hi - idx,
        {
            insert_sorted(&mut v, idx);
            if idx == hi {
                break;
            }
            idx = idx + 1;
        }
        proof {
            lemma_union_step(v_before, v@, done, p, lo, hi);
            assert forall|i: int| 0 <= i < done.push(p).len() implies piece_range(#[trigger] done.push(p)[i]) is Ok by {
                if i < done.len() {
                    assert(done.push(p)[i] == done[i]);
                }
            }
            done = done.push(p);
            assert(ps =~= done + rest);
        }
        if end == b.len() {
            proof {
                assert(ps =~= done);
            }
            break;
        }
        pos = end + 1;
    }
    proof {
        lemma_no_bad_piece(done);
    }
    Ok(v)
}

/// When the pieces before `p` are all good, the first bad piece of the
/// whole list is `p` if it is bad, else the first bad piece of the rest.
proof fn lemma_first_bad_split(done: Seq<Seq<u8>>, p: Seq<u8>, rest: Seq<Seq<u8>>)
    requires
        forall|i: int| 0 <= i < done.len() ==> piece_range(#[trigger] done[i]) is Ok,
    ensures
        first_bad_piece(done + (seq![p] + rest)) == (if piece_range(p) is Err {
            Some(p)
        } else {
            first_bad_piece(rest)
        }),
    decreases done.len(),
{
    if done.len() == 0 {
        assert(done + (seq![p] + rest) =~= seq![p] + rest);
        assert((seq![p] + rest).drop_first() =~= rest);
    } else {
        assert((done + (seq![p] + rest)).drop_first() =~= done.drop_first() + (seq![p] + rest));
        assert forall|i: int| 0 <= i < done.drop_first().len() implies piece_range(#[trigger] done.drop_first()[i]) is Ok by {
            assert(done.drop_first()[i] == done[i + 1]);
        }
        lemma_first_bad_split(done.drop_first(), p, rest);
    }
}

/// A list of good pieces has no bad piece.
proof fn lemma_no_bad_piece(ps: Seq<Seq<u8>>)
    requires
        forall|i: int| 0 <= i < ps.len() ==> piece_range(#[trigger] ps[i]) is Ok,
    ensures
        first_bad_piece(ps) is None,
    decreases ps.len(),
{
    if ps.len() > 0 {
        assert forall|i: int| 0 <= i < ps.drop_first().len() implies piece_range(#[trigger] ps.drop_first()[i]) is Ok by {
            assert(ps.drop_first()[i] == ps[i + 1]);
        }
        lemma_no_bad_piece(ps.drop_first());
    }
}


/// The CPUs the current thread may run on, from
/// `affinity::get_thread_affinity`; `None` when they cannot be read. The
/// answer depends on the machine, so nothing is stated of it.
#[verifier::external_body]
fn thread_affinity() -> (r: Option<Vec<usize>>) {
    affinity::get_thread_affinity().ok()
}

/// The largest CPU of a list, or 0 for an empty list.
pub open spec fn max_or_zero(v: Seq<usize>) -> usize
    decreases v.len(),
{
    if v.len() == 0 {
        0
    } else {
        let m = max_or_zero(v.drop_last());
        if v.last() > m {
            v.last()
        } else {
            m
        }
    }
}

/// Checks the requested CPUs against those the thread may run on: when
/// some CPU is requested, its largest one must not be past the largest
/// available one (0 when none is listed).
pub fn check_cores(cpus: Vec<usize>, available: Option<Vec<usize>>) -> (r: Result<Vec<usize>, TasksetError>)
    requires
        increasing(cpus@),
    ensures
        cpus@.len() == 0 ==> (r matches Ok(v) && v@ == cpus@),
        cpus@.len() > 0 ==> match available {
            None => r matches Err(TasksetError::AffinityUnavailable),
            Some(a) => if cpus@.last() > max_or_zero(a@) {
                r matches Err(TasksetError::OutOfRange { max_index }) && max_index == max_or_zero(a@)
            } else {
                r matches Ok(v) && v@ == cpus@
            },
        },
{
    if cpus.len() == 0 {
        return Ok(cpus);
    }
    let set_max = cpus[cpus.len() - 1];
    let a = match available {
        None => {
            return Err(TasksetError::AffinityUnavailable);
        },
        Some(a) => a,
    };
    let mut max_index: usize = 0;
    let mut i: usize = 0;
    while i < a.len()
        invariant
            i <= a@.len(),
            max_index == max_or_zero(a@.take(i as int)),
        decreases a@.len() - i,
    {
        proof {
            assert(a@.take(i + 1).drop_last() =~= a@.take(i as int));
        }
        if a[i] > max_index {
            max_index = a[i];
        }
        i = i + 1;
    }
    proof {
        assert(a@.take(i as int) =~= a@);
    }
    if set_max > max_index {
        return Err(TasksetError::OutOfRange { max_index });
    }
    Ok(cpus)
}

/// What `parse_taskset` gives for a list: the error of the first bad piece;
/// with none, the CPUs of the list, or, when some CPU is requested, one of
/// the two errors of the check against the CPUs the thread may run on; an
/// empty list is always accepted.
pub open spec fn taskset_outcome(text: Seq<char>, r: Result<Vec<usize>, TasksetError>) -> bool {
    let ps = comma_pieces(vstd::utf8::encode_utf8(text));
    match first_bad_piece(ps) {
        Some(p) => if piece_reversed(p) {
            r matches Err(TasksetError::InvalidInterval { interval }) && interval@ == p
        } else {
            r matches Err(TasksetError::ParseFailed { value }) && value@ == piece_range(p)->Err_0
        },
        None => {
            &&& (r matches Ok(v) ==> increasing(v@) && forall|x: usize| v@.contains(x) <==> in_pieces(ps, x))
            &&& (r matches Err(e) ==> (e is AffinityUnavailable || e is OutOfRange) && exists|x: usize| in_pieces(ps, x))
            &&& ((forall|x: usize| !in_pieces(ps, x)) ==> (r matches Ok(v) && v@.len() == 0))
        },
    }
}

/// The CPUs of a `taskset` list (see `parse_cpu_list`), checked against the
/// CPUs the thread may run on (see `check_cores`), which are only read when
/// some CPU is requested.
pub fn parse_taskset(taskset: &str) -> (r: Result<Vec<usize>, TasksetError>)
    ensures
        taskset_outcome(taskset@, r),
{
    let cpus = match parse_cpu_list(taskset) {
        Ok(v) => v,
        Err(e) => {
            return Err(e);
        },
    };
    if cpus.len() == 0 {
        return Ok(cpus);
    }
    let ghost ps = comma_pieces(vstd::utf8::encode_utf8(taskset@));
    let ghost first = cpus@[0];
    proof {
        assert(cpus@.contains(first));
        assert(in_pieces(ps, first));
    }
    let available = thread_affinity();
    let r = check_cores(cpus, available);
    proof {
        assert(first_bad_piece(ps) is None);
        assert(exists|x: usize| in_pieces(ps, x));
    }
    r
}

/// The text with every `_` removed.
pub open spec fn without_underscores(b: Seq<u8>) -> Seq<u8> {
    b.filter(|c: u8| c != UNDERSCORE)
}

/// A number written as text, `_` allowed between digits (`1_000`): the
/// underscores are dropped, then the rest parsed as `parse_usize` does.
pub fn num_from_str(value: &str) -> (r: Option<usize>)
    ensures
        r == parse_usize(without_underscores(vstd::utf8::encode_utf8(value@))),
{
    let b = value.as_bytes();
    let mut v: Vec<u8> = Vec::new();
    let mut i: usize = 0;
    while i < b.len()
        invariant
            i <= b@.len(),
            v@ == without_underscores(b@.take(i as int)),
        decreases b@.len() - i,
    {
        proof {
            reveal_with_fuel(Seq::filter, 1);
            assert(b@.take(i + 1).drop_last() =~= b@.take(i as int));
        }
        if b[i] != UNDERSCORE {
            v.push(b[i]);
        }
        i = i + 1;
    }
    proof {
        assert(b@.take(i as int) =~= b@);
    }
    parse_decimal(v.as_slice())
}

/// How an access token is written: `base64:` and `base58:` prefixes select
/// a decoding of the whole text; anything else is taken as raw bytes.
pub open spec fn x_token_prefix(b: Seq<u8>, prefix: Seq<u8>) -> bool {
    b.take(7) == prefix
}

/// The bytes of `base64:`.
pub open spec fn base64_prefix() -> Seq<u8> {
    seq![98u8, 97u8, 115u8, 101u8, 54u8, 52u8, 58u8]
}

/// The bytes of `base58:`.
pub open spec fn base58_prefix() -> Seq<u8> {
    seq![98u8, 97u8, 115u8, 101u8, 53u8, 56u8, 58u8]
}

/// Why an access token cannot be decoded.
#[derive(Debug, Clone, Copy, PartialEq, Eq, Structural)]
pub enum DecodeXTokenError {
    Base64,
    Base58,
}

/// Decodes an access token. A token starting with `base64:` or `base58:` is
/// decoded as a whole, prefix included; any other token is its bytes. The
/// token must have a character boundary after its seventh byte.
pub fn decode_x_token(x_token: &str) -> (r: Result<Vec<u8>, DecodeXTokenError>)
    requires
        vstd::utf8::encode_utf8(x_token@).len() >= 7,
        vstd::utf8::is_char_boundary(vstd::utf8::encode_utf8(x_token@), 7),
    ensures
        ({
            let b = vstd::utf8::encode_utf8(x_token@);
            if x_token_prefix(b, base64_prefix()) {
                match base64_decoded(x_token@) {
                    Some(d) => r matches Ok(v) && v@ == d,
                    None => r == Err::<Vec<u8>, DecodeXTokenError>(DecodeXTokenError::Base64),
                }
            } else if x_token_prefix(b, base58_prefix()) {
                match base58_decoded(x_token@) {
                    Some(d) => r matches Ok(v) && v@ == d,
                    None => r == Err::<Vec<u8>, DecodeXTokenError>(DecodeXTokenError::Base58),
                }
            } else {
                r matches Ok(v) && v@ == b
            }
        }),
{
    let b = x_token.as_bytes();
    let is64 = b[0] == 98 && b[1] == 97 && b[2] == 115 && b[3] == 101 && b[4] == 54 && b[5] == 52 && b[6] == 58;
    let is58 = b[0] == 98 && b[1] == 97 && b[2] == 115 && b[3] == 101 && b[4] == 53 && b[5] == 56 && b[6] == 58;
    proof {
        assert(is64 <==> b@.take(7) =~= base64_prefix());
        assert(is58 <==> b@.take(7) =~= base58_prefix());
    }
    if is64 {
        match decode_base64(x_token) {
            Some(v) => Ok(v),
            None => Err(DecodeXTokenError::Base64),
        }
    } else if is58 {
        match decode_base58(x_token) {
            Some(v) => Ok(v),
            None => Err(DecodeXTokenError::Base58),
        }
    } else {
        let mut v: Vec<u8> = Vec::new();
        let mut i: usize = 0;
        while i < b.len()
            invariant
                i <= b@.len(),
                v@ == b@.take(i as int),
            decreases b@.len() - i,
        {
            proof {
                assert(b@.take(i + 1) =~= b@.take(i as int).push(b@[i as int]));
            }
            v.push(b[i]);
            i = i + 1;
        }
        proof {
            assert(b@.take(i as int) =~= b@);
        }
        Ok(v)
    }
}

/// Runtime options: the number of worker threads and the CPUs they run on.
#[derive(Debug, Clone)]
pub struct ConfigTokio {
    pub worker_threads: Option<usize>,
    pub affinity: Option<Vec<usize>>,
}

impl Default for ConfigTokio {
    /// Neither set.
    fn default() -> (r: Self)
        ensures
            r.worker_threads is None,
            r.affinity is None,
    {
        ConfigTokio { worker_threads: None, affinity: None }
    }
}

impl ConfigTokio {
    /// The CPUs of an optional `taskset` list.
    pub fn affinity_from_str(taskset: Option<&str>) -> (r: Result<Option<Vec<usize>>, TasksetError>)
        ensures
            match taskset {
                None => r matches Ok(None),
                Some(t) => match r {
                    Ok(Some(v)) => taskset_outcome(t@, Ok(v)),
                    Ok(None) => false,
                    Err(e) => taskset_outcome(t@, Err(e)),
                },
            },
    {
        match taskset {
            Some(t) => match parse_taskset(t) {
                Ok(v) => Ok(Some(v)),
                Err(e) => Err(e),
            },
            None => Ok(None),
        }
    }
}

/// The ids of the listeners of one shutdown signal, and whether it was
/// given.
pub struct ShutdownState {
    shutdown: bool,
    ids: Vec<u64>,
}

impl ShutdownState {
    /// Whether the shutdown was signalled.
    pub closed spec fn is_shutdown(&self) -> bool {
        self.shutdown
    }

    /// The ids in use, increasing.
    pub closed spec fn ids(&self) -> Seq<u64> {
        self.ids@
    }

    /// The ids are increasing.
    pub closed spec fn wf(&self) -> bool {
        forall|i: int, j: int| 0 <= i < j < self.ids@.len() ==> self.ids@[i] < self.ids@[j]
    }

    /// A signal with one listener, id 0.
    pub fn new() -> (s: ShutdownState)
        ensures
            s.wf(),
            !s.is_shutdown(),
            s.ids() == seq![0u64],
    {
        let mut ids: Vec<u64> = Vec::new();
        ids.push(0);
        ShutdownState { shutdown: false, ids }
    }

    /// The smallest id not in use: the first position whose id differs from
    /// it, or the number of ids.
    pub fn get_next_id(&self) -> (id: u64)
        requires
            self.wf(),
            self.ids().len() < u64::MAX,
        ensures
            !self.ids().contains(id),
            forall|k: u64| k < id ==> self.ids().contains(k),
    {
        let mut i: usize = 0;
        while i < self.ids.len()
            invariant
                i <= self.ids@.len(),
                self.wf(),
                forall|j: int| 0 <= j < i ==> self.ids@[j] == j,
            decreases self.ids@.len() - i,
        {
            if self.ids[i] != i as u64 {
                proof {
                    lemma_ids_above(self.ids@, i as int);
                    assert forall|k: u64| k < i implies self.ids@.contains(k) by {
                        assert(self.ids@[k as int] == k);
                    }
                }
                return i as u64;
            }
            i = i + 1;
        }
        proof {
            assert forall|k: u64| k < i implies self.ids@.contains(k) by {
                assert(self.ids@[k as int] == k);
            }
            if self.ids@.contains(i as u64) {
                let j = choose|j: int| 0 <= j < self.ids@.len() && self.ids@[j] == i as u64;
                assert(self.ids@[j] == j);
            }
        }
        i as u64
    }

    /// Registers a listener under the smallest free id and returns it.
    pub fn register(&mut self) -> (id: u64)
        requires
            old(self).wf(),
            old(self).ids().len() < u64::MAX,
        ensures
            final(self).wf(),
            !old(self).ids().contains(id),
            forall|k: u64| final(self).ids().contains(k) <==> (old(self).ids().contains(k) || k == id),
            final(self).is_shutdown() == old(self).is_shutdown(),
    {
        let id = self.get_next_id();
        let mut i: usize = 0;
        while i < self.ids.len() && self.ids[i] < id
            invariant
                i <= self.ids@.len(),
                forall|j: int| 0 <= j < i ==> self.ids@[j] < id,
            decreases self.ids@.len() - i,
        {
            i = i + 1;
        }
        let ghost v0 = self.ids@;
        self.ids.insert(i, id);
        proof {
            v0.insert_ensures(i as int, id);
            assert forall|a: int, b: int| 0 <= a < b < self.ids@.len() implies self.ids@[a] < self.ids@[b] by {
                if i < v0.len() {
                    assert(v0[i as int] != id);
                    assert(v0[i as int] > id);
                    if b > i + 1 {
                        assert(v0[i as int] <= v0[b - 1]);
                    }
                }
                if a < i && b > i {
                    assert(v0[a] < id);
                }
            }
            assert forall|k: u64| self.ids@.contains(k) <==> (v0.contains(k) || k == id) by {
                if self.ids@.contains(k) {
                    let m = choose|m: int| 0 <= m < self.ids@.len() && self.ids@[m] == k;
                    if m < i {
                        assert(v0[m] == k);
                    } else if m > i {
                        assert(v0[m - 1] == k);
                    }
                }
                if v0.contains(k) {
                    let m = choose|m: int| 0 <= m < v0.len() && v0[m] == k;
                    if m < i {
                        assert(self.ids@[m] == k);
                    } else {
                        assert(self.ids@[m + 1] == k);
                    }
                }
                if k == id {
                    assert(self.ids@[i as int] == id);
                }
            }
        }
        id
    }

    /// Forgets a listener.
    pub fn unregister(&mut self, id: u64)
        requires
            old(self).wf(),
        ensures
            final(self).wf(),
            forall|k: u64| final(self).ids().contains(k) <==> (old(self).ids().contains(k) && k != id),
            final(self).is_shutdown() == old(self).is_shutdown(),
    {
        let mut i: usize = 0;
        while i < self.ids.len() && self.ids[i] != id
            invariant
                i <= self.ids@.len(),
                forall|j: int| 0 <= j < i ==> self.ids@[j] != id,
            decreases self.ids@.len() - i,
        {
            i = i + 1;
        }
        if i < self.ids.len() {
            let ghost v0 = self.ids@;
            self.ids.remove(i);
            proof {
                assert forall|a: int, b: int| 0 <= a < b < self.ids@.len() implies self.ids@[a] < self.ids@[b] by {
                    let a0 = if a < i { a } else { a + 1 };
                    let b0 = if b < i { b } else { b + 1 };
                    assert(self.ids@[a] == v0[a0]);
                    assert(self.ids@[b] == v0[b0]);
                }
                assert forall|k: u64| self.ids@.contains(k) <==> (v0.contains(k) && k != id) by {
                    if self.ids@.contains(k) {
                        let m = choose|m: int| 0 <= m < self.ids@.len() && self.ids@[m] == k;
                        let m0 = if m < i { m } else { m + 1 };
                        assert(v0[m0] == k);
                        if k == id {
                            assert(v0[i as int] == id);
                            assert(m0 != i);
                            if m0 < i {
                                assert(v0[m0] < v0[i as int]);
                            } else {
                                assert(v0[i as int] < v0[m0]);
                            }
                        }
                    }
                    if v0.contains(k) && k != id {
                        let m = choose|m: int| 0 <= m < v0.len() && v0[m] == k;
                        if m < i {
                            assert(self.ids@[m] == k);
                        } else {
                            assert(m != i);
                            assert(self.ids@[m - 1] == k);
                        }
                    }
                }
            }
        }
    }

    /// Signals the shutdown.
    pub fn shutdown(&mut self)
        ensures
            final(self).is_shutdown(),
            final(self).ids() == old(self).ids(),
            final(self).wf() == old(self).wf(),
    {
        self.shutdown = true;
    }

    /// Whether the shutdown was signalled.
    pub fn is_set(&self) -> (r: bool)
        ensures
            r == self.is_shutdown(),
    {
        self.shutdown
    }
}

/// In an increasing list whose first `i` ids are `0..i`, an id that differs
/// from its position is larger, and so are all later ones: `i` is free.
proof fn lemma_ids_above(ids: Seq<u64>, i: int)
    requires
        0 <= i < ids.len(),
        forall|a: int, b: int| 0 <= a < b < ids.len() ==> ids[a] < ids[b],
        forall|j: int| 0 <= j < i ==> ids[j] == j,
        ids[i] != i,
    ensures
        !ids.contains(i as u64),
{
    assert(ids[i] > i) by {
        if i > 0 {
            assert(ids[i - 1] == i - 1);
        }
    }
    if ids.contains(i as u64) {
        let j = choose|j: int| 0 <= j < ids.len() && ids[j] == i as u64;
        if j < i {
            assert(ids[j] == j);
        } else if j > i {
            assert(ids[i] < ids[j]);
        }
    }
}

} // verus!

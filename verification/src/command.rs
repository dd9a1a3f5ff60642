//! Command model and wire schema. A client intent is a typed `Command`;
//! on the wire it is the text document
//! `{"type":"place_piece","position":{"q":<int>,"r":<int>}}` in canonical
//! form: the fields in exactly this order, no whitespace between tokens, and
//! the two integers in canonical decimal (no leading zeros, no `-0`).
//! `encode` produces exactly that byte sequence and `parse` accepts exactly
//! the byte sequences of that shape — the same data spelled any other way
//! (reordered fields, added whitespace, extra fields) is rejected as
//! `Malformed`, and the contracts say so. Parsing is proved sound and
//! complete against the grammar, which gives the round trip
//! `parse(encode(c)) == Ok(c)`.

use vstd::prelude::*;
use crate::board::AxialPoint;
use crate::board::CellState;
use crate::board::GameState;
use crate::board::spec_in_bounds;
use crate::board::spec_flatten;
use crate::board::lemma_flatten_in_range;

verus! {

/// A typed client intent.
#[derive(Clone, Copy, PartialEq, Eq, Structural, Debug)]
pub enum Command {
    PlacePiece { position: AxialPoint },
}

/// Why a payload was rejected. `UnknownType` means the document has the
/// wire shape but its `type` string is not a recognized command;
/// `Malformed` covers every other defect (missing field, wrong field type,
/// or no document shape at all).
#[derive(Clone, Copy, PartialEq, Eq, Structural, Debug)]
pub enum ParseError {
    UnknownType,
    Malformed,
}

/// Why a command was rejected at application: the target cell is off the
/// board, the target cell is already occupied, or the command's type is not
/// one the board knows. The connection stays open and the board is left
/// unchanged.
#[derive(Clone, Copy, PartialEq, Eq, Structural, Debug)]
pub enum ValidationError {
    OutOfBounds,
    Occupied,
    UnknownCommand,
}

/// What applying a command to a board yields: the verdict and the new grid.
/// A rejected command leaves the grid exactly as it was.
pub open spec fn spec_apply(grid: Seq<CellState>, c: Command, color: CellState) -> (Result<
    (),
    ValidationError,
>, Seq<CellState>) {
    match c {
        Command::PlacePiece { position } => {
            if !spec_in_bounds(position) {
                (Err(ValidationError::OutOfBounds), grid)
            } else if grid[spec_flatten(position)] != CellState::Empty {
                (Err(ValidationError::Occupied), grid)
            } else {
                (Ok(()), grid.update(spec_flatten(position), color))
            }
        },
    }
}

/// Applies a validated command to the board: an in-bounds, empty target cell
/// takes the placing peer's color; otherwise the command is rejected and the
/// board is untouched.
pub fn apply(game: &mut GameState, cmd: &Command, color: CellState) -> (res: Result<
    (),
    ValidationError,
>)
    requires
        old(game).wf(),
        color != CellState::Empty,
    ensures
        final(game).wf(),
        (res, final(game).grid@) == spec_apply(old(game).grid@, *cmd, color),
{
    let position = match cmd {
        Command::PlacePiece { position } => position,
    };
    match game.get(position) {
        Err(_) => Err(ValidationError::OutOfBounds),
        Ok(CellState::Empty) => {
            let set_res = game.set(position, color);
            proof {
                assert(set_res == Ok::<(), ()>(()));
            }
            Ok(())
        },
        Ok(_) => Err(ValidationError::Occupied),
    }
}

/// Placing on an empty, in-bounds cell succeeds and the cell then holds the
/// placed color; placing there again is rejected as occupied and changes
/// nothing.
pub proof fn lemma_place_twice(
    grid: Seq<CellState>,
    p: AxialPoint,
    color: CellState,
    color2: CellState,
)
    requires
        grid.len() == crate::board::BOARD_WIDTH * crate::board::BOARD_WIDTH,
        spec_in_bounds(p),
        grid[spec_flatten(p)] == CellState::Empty,
        color != CellState::Empty,
        color2 != CellState::Empty,
    ensures
        ({
            let c = Command::PlacePiece { position: p };
            let (res1, g1) = spec_apply(grid, c, color);
            let (res2, g2) = spec_apply(g1, c, color2);
            &&& res1 == Ok::<(), ValidationError>(())
            &&& g1[spec_flatten(p)] == color
            &&& res2 == Err::<(), ValidationError>(ValidationError::Occupied)
            &&& g2 == g1
        }),
{
    lemma_flatten_in_range(p);
}

/// Whether `b` is an ASCII decimal digit.
pub open spec fn spec_is_digit(b: u8) -> bool {
    48 <= b <= 57
}

/// The decimal digits of `n`, most significant first.
pub open spec fn dec_digits(n: nat) -> Seq<u8>
    decreases n,
{
    if n < 10 {
        seq![(48 + n) as u8]
    } else {
        dec_digits(n / 10).push((48 + n % 10) as u8)
    }
}

/// The value of a digit sequence, most significant first.
pub open spec fn digits_val(s: Seq<u8>) -> int
    decreases s.len(),
{
    if s.len() == 0 {
        0
    } else {
        digits_val(s.drop_last()) * 10 + (s.last() - 48)
    }
}

/// The canonical decimal bytes of an integer: a minus sign for negative
/// values, then the digits of the absolute value.
pub open spec fn int_bytes(v: int) -> Seq<u8> {
    if v < 0 {
        seq![45u8] + dec_digits((-v) as nat)
    } else {
        dec_digits(v as nat)
    }
}

/// The literal `{"type":"`.
pub open spec fn lit_head() -> Seq<u8> {
    seq![123u8, 34u8, 116u8, 121u8, 112u8, 101u8, 34u8, 58u8, 34u8]
}

/// The literal `","position":{"q":`.
pub open spec fn lit_mid1() -> Seq<u8> {
    seq![34u8, 44u8, 34u8, 112u8, 111u8, 115u8, 105u8, 116u8, 105u8, 111u8,
        110u8, 34u8, 58u8, 123u8, 34u8, 113u8, 34u8, 58u8]
}

/// The literal `,"r":`.
pub open spec fn lit_mid2() -> Seq<u8> {
    seq![44u8, 34u8, 114u8, 34u8, 58u8]
}

/// The literal `}}`.
pub open spec fn lit_tail() -> Seq<u8> {
    seq![125u8, 125u8]
}

/// The literal `place_piece`, the one recognized `type` string.
pub open spec fn lit_place_piece() -> Seq<u8> {
    seq![112u8, 108u8, 97u8, 99u8, 101u8, 95u8, 112u8, 105u8, 101u8, 99u8, 101u8]
}

/// A `type` string is valid when it contains no quote byte.
pub open spec fn valid_type_str(t: Seq<u8>) -> bool {
    forall|k: int| 0 <= k < t.len() ==> t[k] != 34
}

/// The whole wire document for a `type` string `t` and position `(q, r)`.
pub open spec fn wire(t: Seq<u8>, q: int, r: int) -> Seq<u8> {
    lit_head() + t + lit_mid1() + int_bytes(q) + lit_mid2() + int_bytes(r) + lit_tail()
}

/// The wire encoding of a command.
pub open spec fn encode_spec(c: Command) -> Seq<u8> {
    match c {
        Command::PlacePiece { position } => wire(
            lit_place_piece(),
            position.q as int,
            position.r as int,
        ),
    }
}

/// Facts about the canonical digits of `n`: they are nonempty, all digits,
/// they evaluate back to `n`, and they have no leading zero unless `n` is 0.
pub proof fn lemma_dec_digits(n: nat)
    ensures
        dec_digits(n).len() >= 1,
        forall|k: int| 0 <= k < dec_digits(n).len() ==> spec_is_digit(#[trigger] dec_digits(n)[k]),
        digits_val(dec_digits(n)) == n,
        n >= 1 ==> dec_digits(n)[0] != 48,
        n < 10 ==> dec_digits(n).len() == 1,
        n >= 10 ==> dec_digits(n).len() >= 2,
    decreases n,
{
    if n < 10 {
        assert(dec_digits(n) == seq![(48 + n) as u8]);
        assert(dec_digits(n).drop_last() =~= Seq::<u8>::empty());
        assert(digits_val(dec_digits(n).drop_last()) == 0);
        assert(digits_val(dec_digits(n)) == n);
    } else {
        lemma_dec_digits(n / 10);
        assert(dec_digits(n) == dec_digits(n / 10).push((48 + n % 10) as u8));
        assert(dec_digits(n).drop_last() =~= dec_digits(n / 10));
        assert(dec_digits(n)[0] == dec_digits(n / 10)[0]);
    }
}

/// A nonempty all-digit sequence whose first digit is not zero has a
/// positive value.
pub proof fn lemma_digits_val_positive(s: Seq<u8>)
    requires
        s.len() >= 1,
        forall|k: int| 0 <= k < s.len() ==> spec_is_digit(#[trigger] s[k]),
        s[0] != 48,
    ensures
        digits_val(s) >= 1,
    decreases s.len(),
{
    if s.len() == 1 {
        assert(s.drop_last().len() == 0);
        assert(digits_val(s.drop_last()) == 0);
        assert(digits_val(s) == s[0] - 48);
    } else {
        assert(s.drop_last()[0] == s[0]);
        lemma_digits_val_positive(s.drop_last());
    }
}

/// Any all-digit sequence has a nonnegative value.
pub proof fn lemma_digits_val_nonneg(s: Seq<u8>)
    requires
        forall|k: int| 0 <= k < s.len() ==> spec_is_digit(#[trigger] s[k]),
    ensures
        digits_val(s) >= 0,
    decreases s.len(),
{
    if s.len() > 0 {
        lemma_digits_val_nonneg(s.drop_last());
    }
}

/// A canonical digit sequence (nonempty, no leading zero unless it is the
/// single digit `0`) is reproduced exactly by `dec_digits` of its value.
pub proof fn lemma_digits_canonical(s: Seq<u8>)
    requires
        s.len() >= 1,
        forall|k: int| 0 <= k < s.len() ==> spec_is_digit(#[trigger] s[k]),
        s.len() == 1 || s[0] != 48,
    ensures
        digits_val(s) >= 0,
        dec_digits(digits_val(s) as nat) == s,
    decreases s.len(),
{
    lemma_digits_val_nonneg(s);
    if s.len() == 1 {
        assert(s.drop_last().len() == 0);
        assert(digits_val(s.drop_last()) == 0);
        assert(digits_val(s) == s[0] - 48);
        assert(dec_digits((s[0] - 48) as nat) =~= s);
    } else {
        let d = s.drop_last();
        assert(d[0] == s[0]);
        lemma_digits_canonical(d);
        lemma_digits_val_positive(d);
        let vd = digits_val(d);
        let e = s.last() - 48;
        let v = digits_val(s);
        assert(v == vd * 10 + e);
        assert(v >= 10);
        assert(v / 10 == vd && v % 10 == e) by {
            assert(0 <= e < 10);
        };
        assert(dec_digits(v as nat) == dec_digits((v as nat) / 10).push((48 + (v as nat) % 10) as u8));
        assert((v as nat) / 10 == vd as nat);
        assert((v as nat) % 10 == e as nat);
        assert(dec_digits(v as nat) =~= d.push(s.last()));
        assert(d.push(s.last()) =~= s);
    }
}

/// The value of a prefix of an all-digit sequence is at most the value of
/// the whole sequence.
pub proof fn lemma_digits_val_prefix(s: Seq<u8>, a: int)
    requires
        0 <= a <= s.len(),
        forall|k: int| 0 <= k < s.len() ==> spec_is_digit(#[trigger] s[k]),
    ensures
        digits_val(s.subrange(0, a)) <= digits_val(s),
    decreases s.len() - a,
{
    if a == s.len() {
        assert(s.subrange(0, a) =~= s);
    } else {
        lemma_digits_val_prefix(s, a + 1);
        let p = s.subrange(0, a);
        let p1 = s.subrange(0, a + 1);
        assert(p1.drop_last() =~= p);
        assert(digits_val(p1) == digits_val(p) * 10 + (s[a] - 48));
        lemma_digits_val_nonneg(p);
    }
}

/// Facts about the canonical bytes of an integer: nonempty; a negative
/// value starts with a minus sign followed by a nonzero digit; a
/// nonnegative value starts with a digit; every byte is a minus sign or a
/// digit.
pub proof fn lemma_int_bytes(v: int)
    ensures
        int_bytes(v).len() >= 1,
        v < 0 ==> int_bytes(v)[0] == 45 && int_bytes(v).len() >= 2
            && int_bytes(v) == seq![45u8] + dec_digits((-v) as nat)
            && int_bytes(v)[1] != 48,
        v >= 0 ==> int_bytes(v) == dec_digits(v as nat) && spec_is_digit(int_bytes(v)[0]),
        forall|k: int| 1 <= k < int_bytes(v).len() ==> spec_is_digit(#[trigger] int_bytes(v)[k]),
        forall|k: int| 0 <= k < int_bytes(v).len()
            ==> #[trigger] int_bytes(v)[k] == 45 || spec_is_digit(int_bytes(v)[k]),
{
    if v < 0 {
        lemma_dec_digits((-v) as nat);
        assert(int_bytes(v)[1] == dec_digits((-v) as nat)[0]);
    } else {
        lemma_dec_digits(v as nat);
    }
}

/// Where a canonical integer stands at index `i` of `pay`, its digit run
/// (past any minus sign) equals the canonical digits of its absolute value.
proof fn lemma_int_run(pay: Seq<u8>, i: int, v: int)
    requires
        0 <= i,
        i + int_bytes(v).len() <= pay.len(),
        pay.subrange(i, i + int_bytes(v).len()) == int_bytes(v),
    ensures
        ({
            let m = if v < 0 { (-v) as nat } else { v as nat };
            let dstart = if v < 0 { i + 1 } else { i };
            let dend = i + int_bytes(v).len();
            &&& (v < 0 ==> pay[i] == 45)
            &&& (v >= 0 ==> spec_is_digit(pay[i]))
            &&& dend == dstart + dec_digits(m).len()
            &&& dstart < dend
            &&& pay.subrange(dstart, dend) == dec_digits(m)
            &&& forall|j: int| dstart <= j < dend ==> spec_is_digit(#[trigger] pay[j])
        }),
{
    let m = if v < 0 { (-v) as nat } else { v as nat };
    let dstart = if v < 0 { i + 1 } else { i };
    let dend = i + int_bytes(v).len();
    lemma_int_bytes(v);
    lemma_dec_digits(m);
    assert(pay.subrange(i, dend)[0] == pay[i]);
    assert forall|j: int| dstart <= j < dend implies pay[j] == dec_digits(m)[j - dstart] by {
        assert(pay.subrange(i, dend)[j - i] == pay[j]);
        if v < 0 {
            assert(int_bytes(v)[j - i] == (seq![45u8] + dec_digits(m))[j - i]);
        }
    };
    assert(pay.subrange(dstart, dend) =~= dec_digits(m));
    assert forall|j: int| dstart <= j < dend implies spec_is_digit(#[trigger] pay[j]) by {
        assert(pay[j] == dec_digits(m)[j - dstart]);
    };
}

/// Whether `b` is an ASCII decimal digit.
pub fn is_digit(b: u8) -> (r: bool)
    ensures
        r == spec_is_digit(b),
{
    48 <= b && b <= 57
}

/// Whether `payload` holds exactly the bytes `pat` starting at index `i`.
fn match_at(payload: &[u8], i: usize, pat: &Vec<u8>) -> (b: bool)
    requires
        i <= payload@.len(),
    ensures
        b == (i + pat@.len() <= payload@.len()
            && payload@.subrange(i as int, i + pat@.len()) == pat@),
{
    let n = payload.len();
    if n - i < pat.len() {
        return false;
    }
    let mut k: usize = 0;
    while k < pat.len()
        invariant
            0 <= k <= pat@.len(),
            n == payload@.len(),
            i + pat@.len() <= n,
            forall|j: int| 0 <= j < k ==> payload@[i + j] == pat@[j],
        decreases pat@.len() - k,
    {
        if payload[i + k] != pat[k] {
            proof {
                assert(payload@.subrange(i as int, i + pat@.len())[k as int] == payload@[i + k]);
            }
            return false;
        }
        k = k + 1;
    }
    proof {
        assert(payload@.subrange(i as int, i + pat@.len()) =~= pat@);
    }
    true
}

/// The index of the first quote byte at or after `i`, if any.
fn find_quote(payload: &[u8], i: usize) -> (res: Option<usize>)
    requires
        i <= payload@.len(),
    ensures
        res matches Some(p) ==> i <= p < payload@.len() && payload@[p as int] == 34
            && (forall|k: int| i <= k < p ==> payload@[k] != 34),
        res is None ==> forall|k: int| i <= k < payload@.len() ==> payload@[k] != 34,
{
    let mut k: usize = i;
    while k < payload.len()
        invariant
            i <= k <= payload@.len(),
            forall|j: int| i <= j < k ==> payload@[j] != 34,
        decreases payload@.len() - k,
    {
        if payload[k] == 34 {
            return Some(k);
        }
        k = k + 1;
    }
    None
}

/// Parses a canonical decimal integer at index `i`: an optional minus sign,
/// then digits with no leading zero, ending at the first non-digit. Succeeds
/// exactly on the canonical byte forms of the 64-bit integers, and returns
/// the value together with the index just past its last digit.
fn parse_int(payload: &[u8], i: usize) -> (res: Option<(i64, usize)>)
    requires
        i <= payload@.len(),
    ensures
        res matches Some(pr) ==> i < pr.1 <= payload@.len()
            && payload@.subrange(i as int, pr.1 as int) == int_bytes(pr.0 as int),
        forall|v: int|
            i64::MIN <= v <= i64::MAX
            && i + #[trigger] int_bytes(v).len() <= payload@.len()
            && payload@.subrange(i as int, i + int_bytes(v).len()) == int_bytes(v)
            && (i + int_bytes(v).len() == payload@.len()
                || !spec_is_digit(payload@[i + int_bytes(v).len()]))
            ==> res == Some((v as i64, (i + int_bytes(v).len()) as usize)),
{
    let len = payload.len();
    if i >= len {
        proof {
            assert forall|v: int|
                i64::MIN <= v <= i64::MAX
                && i + #[trigger] int_bytes(v).len() <= payload@.len()
                && payload@.subrange(i as int, i + int_bytes(v).len()) == int_bytes(v)
                && (i + int_bytes(v).len() == payload@.len()
                    || !spec_is_digit(payload@[i + int_bytes(v).len()]))
                implies false by {
                lemma_int_bytes(v);
            };
        }
        return None;
    }
    let neg = payload[i] == 45;
    let start = if neg { i + 1 } else { i };
    if start >= len || !is_digit(payload[start]) {
        proof {
            assert forall|v: int|
                i64::MIN <= v <= i64::MAX
                && i + #[trigger] int_bytes(v).len() <= payload@.len()
                && payload@.subrange(i as int, i + int_bytes(v).len()) == int_bytes(v)
                && (i + int_bytes(v).len() == payload@.len()
                    || !spec_is_digit(payload@[i + int_bytes(v).len()]))
                implies false by {
                lemma_int_bytes(v);
                let ib = int_bytes(v);
                assert(payload@[i as int] == ib[0]);
                if v < 0 {
                    assert(payload@[i + 1] == ib[1]);
                } else {
                    assert(!neg);
                }
            };
        }
        return None;
    }
    if payload[start] == 48 && (neg || (start + 1 < len && is_digit(payload[start + 1]))) {
        proof {
            assert forall|v: int|
                i64::MIN <= v <= i64::MAX
                && i + #[trigger] int_bytes(v).len() <= payload@.len()
                && payload@.subrange(i as int, i + int_bytes(v).len()) == int_bytes(v)
                && (i + int_bytes(v).len() == payload@.len()
                    || !spec_is_digit(payload@[i + int_bytes(v).len()]))
                implies false by {
                lemma_int_bytes(v);
                let ib = int_bytes(v);
                assert(payload@[i as int] == ib[0]);
                if v < 0 {
                    assert(payload@[i + 1] == ib[1]);
                } else {
                    assert(!neg);
                    lemma_dec_digits(v as nat);
                    assert(payload@[i as int] == dec_digits(v as nat)[0]);
                    assert(v < 10);
                    assert(ib.len() == 1);
                    assert(!spec_is_digit(payload@[i + 1]));
                }
            };
        }
        return None;
    }
    let bound: u64 = if neg { 9223372036854775808 } else { 9223372036854775807 };
    let mut mag: u64 = 0;
    let mut k: usize = start;
    let ghost pay = payload@;
    while k < len && is_digit(payload[k])
        invariant
            payload@ == pay,
            len == pay.len(),
            i <= start <= k <= len,
            start < len,
            neg ==> pay[i as int] == 45 && start == i + 1,
            !neg ==> start == i && pay[i as int] != 45,
            spec_is_digit(pay[start as int]),
            pay[start as int] == 48 ==> !neg && (start + 1 == len || !spec_is_digit(pay[start + 1])),
            forall|j: int| start <= j < k ==> spec_is_digit(#[trigger] pay[j]),
            mag == digits_val(pay.subrange(start as int, k as int)),
            mag <= bound,
            bound == if neg { 9223372036854775808u64 } else { 9223372036854775807u64 },
        decreases len - k,
    {
        let d = (payload[k] - 48) as u64;
        let ghost pre = pay.subrange(start as int, k as int);
        let ghost post = pay.subrange(start as int, k + 1);
        proof {
            assert(post.drop_last() =~= pre);
            assert(digits_val(post) == digits_val(pre) * 10 + (pay[k as int] - 48));
        }
        if mag > (bound - d) / 10 {
            proof {
                assert(mag * 10 + d > bound) by {
                    assert(mag >= (bound - d) / 10 + 1);
                };
                assert forall|v: int|
                    i64::MIN <= v <= i64::MAX
                    && i + #[trigger] int_bytes(v).len() <= pay.len()
                    && pay.subrange(i as int, i + int_bytes(v).len()) == int_bytes(v)
                    && (i + int_bytes(v).len() == pay.len()
                        || !spec_is_digit(pay[i + int_bytes(v).len()]))
                    implies false by {
                    lemma_int_bytes(v);
                    let ib = int_bytes(v);
                    let dstart = start as int;
                    let dend = i + ib.len();
                    // The sign seen in the payload fixes the sign of v.
                    assert(pay[i as int] == ib[0]);
                    if v < 0 {
                        assert(neg);
                    } else {
                        assert(!neg) by {
                            if neg {
                                assert(spec_is_digit(ib[0]));
                            }
                        };
                    }
                    let m = if v < 0 { (-v) as nat } else { v as nat };
                    lemma_dec_digits(m);
                    lemma_int_run(pay, i as int, v);
                    assert(m <= bound);
                    assert(k + 1 <= dend) by {
                        if k >= dend {
                            assert(spec_is_digit(pay[dend]) || dend == pay.len());
                            assert(dstart <= dend <= k < len);
                            assert(spec_is_digit(pay[dend]));
                            assert(!spec_is_digit(pay[dend]));
                        }
                    };
                    assert(post =~= dec_digits(m).subrange(0, k + 1 - dstart));
                    lemma_digits_val_prefix(dec_digits(m), k + 1 - dstart);
                    assert(digits_val(post) <= digits_val(dec_digits(m)));
                    assert(digits_val(post) <= m);
                    assert(mag * 10 + d == digits_val(post));
                };
            }
            return None;
        }
        proof {
            assert(mag * 10 + d <= bound) by {
                assert(mag <= (bound - d) / 10);
                assert((bound - d) / 10 * 10 <= bound - d);
            };
        }
        mag = mag * 10 + d;
        k = k + 1;
    }
    let ghost run = pay.subrange(start as int, k as int);
    proof {
        assert(k > start) by {
            if k == start {
                assert(spec_is_digit(pay[start as int]));
            }
        };
        assert(run.len() >= 1);
        assert(run[0] == pay[start as int]);
        assert(forall|j: int| 0 <= j < run.len() ==> spec_is_digit(#[trigger] run[j]));
        assert(run.len() == 1 || run[0] != 48) by {
            if run.len() > 1 && run[0] == 48 {
                assert(pay[start as int] == 48);
                assert(start + 1 < len && spec_is_digit(pay[start + 1]));
            }
        };
        lemma_digits_canonical(run);
        assert(dec_digits(mag as nat) == run);
    }
    let value: i64;
    if neg {
        if mag == 0 {
            // unreachable: a zero magnitude would mean a leading `-0`
            proof {
                lemma_digits_val_positive(run);
            }
            return None;
        }
        if mag == 9223372036854775808 {
            value = i64::MIN;
        } else {
            value = -(mag as i64);
        }
    } else {
        value = mag as i64;
    }
    proof {
        let ib = int_bytes(value as int);
        lemma_int_bytes(value as int);
        if neg {
            assert(-(value as int) == mag);
            assert(ib =~= seq![45u8] + dec_digits(mag as nat));
            assert(pay.subrange(i as int, k as int) =~= ib);
        } else {
            assert(ib == dec_digits(mag as nat));
            assert(pay.subrange(i as int, k as int) =~= ib);
        }
        // Completeness: any canonical integer at `i` with a non-digit after
        // it is exactly the one the loop extracted.
        assert forall|v: int|
            i64::MIN <= v <= i64::MAX
            && i + #[trigger] int_bytes(v).len() <= pay.len()
            && pay.subrange(i as int, i + int_bytes(v).len()) == int_bytes(v)
            && (i + int_bytes(v).len() == pay.len()
                || !spec_is_digit(pay[i + int_bytes(v).len()]))
            implies Some((value, k)) == Some((v as i64, (i + int_bytes(v).len()) as usize)) by {
            lemma_int_bytes(v);
            let ibv = int_bytes(v);
            let dend = i + ibv.len();
            assert(pay[i as int] == ibv[0]);
            if v < 0 {
                assert(neg);
            } else {
                assert(!neg) by {
                    if neg {
                        assert(spec_is_digit(ibv[0]));
                    }
                };
            }
            let m = if v < 0 { (-v) as nat } else { v as nat };
            lemma_dec_digits(m);
            lemma_int_run(pay, i as int, v);
            // The two digit runs end at the same first non-digit.
            assert(dend == k) by {
                if dend < k {
                    assert(spec_is_digit(pay[dend]) || dend == pay.len());
                } else if dend > k {
                    assert(spec_is_digit(pay[k as int]));
                    assert(k == len || !spec_is_digit(pay[k as int]));
                }
            };
            assert(dec_digits(m) =~= run);
            assert(digits_val(dec_digits(m)) == digits_val(run));
            assert(m == mag);
            assert(v == value as int);
        };
    }
    Some((value, k))
}

/// Builds the literal `{"type":"`.
fn lit_head_vec() -> (v: Vec<u8>)
    ensures
        v@ == lit_head(),
{
    let mut v: Vec<u8> = Vec::new();
    v.push(123);
    v.push(34);
    v.push(116);
    v.push(121);
    v.push(112);
    v.push(101);
    v.push(34);
    v.push(58);
    v.push(34);
    proof {
        assert(v@ =~= lit_head());
    }
    v
}

/// Builds the literal `","position":{"q":`.
fn lit_mid1_vec() -> (v: Vec<u8>)
    ensures
        v@ == lit_mid1(),
{
    let mut v: Vec<u8> = Vec::new();
    v.push(34);
    v.push(44);
    v.push(34);
    v.push(112);
    v.push(111);
    v.push(115);
    v.push(105);
    v.push(116);
    v.push(105);
    v.push(111);
    v.push(110);
    v.push(34);
    v.push(58);
    v.push(123);
    v.push(34);
    v.push(113);
    v.push(34);
    v.push(58);
    proof {
        assert(v@ =~= lit_mid1());
    }
    v
}

/// Builds the literal `,"r":`.
fn lit_mid2_vec() -> (v: Vec<u8>)
    ensures
        v@ == lit_mid2(),
{
    let mut v: Vec<u8> = Vec::new();
    v.push(44);
    v.push(34);
    v.push(114);
    v.push(34);
    v.push(58);
    proof {
        assert(v@ =~= lit_mid2());
    }
    v
}

/// Builds the literal `}}`.
fn lit_tail_vec() -> (v: Vec<u8>)
    ensures
        v@ == lit_tail(),
{
    let mut v: Vec<u8> = Vec::new();
    v.push(125);
    v.push(125);
    proof {
        assert(v@ =~= lit_tail());
    }
    v
}

/// Builds the literal `place_piece`.
fn lit_place_piece_vec() -> (v: Vec<u8>)
    ensures
        v@ == lit_place_piece(),
{
    let mut v: Vec<u8> = Vec::new();
    v.push(112);
    v.push(108);
    v.push(97);
    v.push(99);
    v.push(101);
    v.push(95);
    v.push(112);
    v.push(105);
    v.push(101);
    v.push(99);
    v.push(101);
    proof {
        assert(v@ =~= lit_place_piece());
    }
    v
}

/// Appends the decimal digits of `n` to `out`.
fn push_u64_decimal(out: &mut Vec<u8>, n: u64)
    ensures
        final(out)@ == old(out)@ + dec_digits(n as nat),
    decreases n,
{
    if n < 10 {
        out.push(48 + n as u8);
        proof {
            assert(final(out)@ =~= old(out)@ + dec_digits(n as nat));
        }
    } else {
        push_u64_decimal(out, n / 10);
        out.push(48 + (n % 10) as u8);
        proof {
            assert(final(out)@ =~= old(out)@ + dec_digits(n as nat));
        }
    }
}

/// Appends the canonical decimal bytes of `v` to `out`.
fn push_i64_decimal(out: &mut Vec<u8>, v: i64)
    ensures
        final(out)@ == old(out)@ + int_bytes(v as int),
{
    if v < 0 {
        out.push(45);
        let mag: u64 = if v == i64::MIN {
            9223372036854775808
        } else {
            (-v) as u64
        };
        push_u64_decimal(out, mag);
        proof {
            assert(mag == -(v as int));
            assert(final(out)@ =~= old(out)@ + int_bytes(v as int));
        }
    } else {
        push_u64_decimal(out, v as u64);
    }
}

/// Encodes a command as its wire document, exactly the bytes that `parse`
/// maps back to the same command.
pub fn encode(cmd: &Command) -> (out: Vec<u8>)
    ensures
        out@ == encode_spec(*cmd),
{
    let position = match cmd {
        Command::PlacePiece { position } => position,
    };
    let mut out = lit_head_vec();
    let mut part = lit_place_piece_vec();
    out.append(&mut part);
    let mut part = lit_mid1_vec();
    out.append(&mut part);
    push_i64_decimal(&mut out, position.q);
    let mut part = lit_mid2_vec();
    out.append(&mut part);
    push_i64_decimal(&mut out, position.r);
    let mut part = lit_tail_vec();
    out.append(&mut part);
    proof {
        assert(out@ =~= encode_spec(*cmd));
    }
    out
}

/// Positional facts about a payload that equals a wire document: where each
/// literal, the type string and the two integers stand in it.
proof fn lemma_wire_shape(pay: Seq<u8>, t: Seq<u8>, q: int, r: int)
    requires
        valid_type_str(t),
        pay == wire(t, q, r),
    ensures
        ({
            let p1 = 9 + t.len() as int;
            let p2 = p1 + 18;
            let p3 = p2 + int_bytes(q).len() as int;
            let p4 = p3 + 5;
            let p5 = p4 + int_bytes(r).len() as int;
            &&& pay.len() == p5 + 2
            &&& pay.subrange(0, 9) == lit_head()
            &&& (forall|k: int| 9 <= k < p1 ==> #[trigger] pay[k] == t[k - 9] && pay[k] != 34)
            &&& pay[p1] == 34
            &&& pay.subrange(p1, p2) == lit_mid1()
            &&& pay.subrange(p2, p3) == int_bytes(q)
            &&& pay[p3] == 44
            &&& pay.subrange(p3, p4) == lit_mid2()
            &&& pay.subrange(p4, p5) == int_bytes(r)
            &&& pay[p5] == 125
            &&& pay.subrange(p5, p5 + 2) == lit_tail()
        }),
{
    let p1 = 9 + t.len() as int;
    let p2 = p1 + 18;
    let p3 = p2 + int_bytes(q).len() as int;
    let p4 = p3 + 5;
    let p5 = p4 + int_bytes(r).len() as int;
    lemma_int_bytes(q);
    lemma_int_bytes(r);
    assert(pay.len() == p5 + 2);
    assert(pay.subrange(0, 9) =~= lit_head());
    assert forall|k: int| 9 <= k < p1 implies #[trigger] pay[k] == t[k - 9] && pay[k] != 34 by {
        assert(t[k - 9] != 34);
    };
    assert(pay.subrange(p1, p2) =~= lit_mid1());
    assert(pay[p1] == lit_mid1()[0]);
    assert(pay.subrange(p2, p3) =~= int_bytes(q));
    assert(pay.subrange(p3, p4) =~= lit_mid2());
    assert(pay[p3] == lit_mid2()[0]);
    assert(pay.subrange(p4, p5) =~= int_bytes(r));
    assert(pay.subrange(p5, p5 + 2) =~= lit_tail());
    assert(pay[p5] == lit_tail()[0]);
}

/// The canonical bytes determine the integer.
proof fn lemma_int_bytes_injective(a: int, b: int)
    requires
        int_bytes(a) == int_bytes(b),
    ensures
        a == b,
{
    lemma_int_bytes(a);
    lemma_int_bytes(b);
    if a < 0 && b < 0 {
        let da = dec_digits((-a) as nat);
        let db = dec_digits((-b) as nat);
        assert(da =~= int_bytes(a).subrange(1, int_bytes(a).len() as int));
        assert(db =~= int_bytes(b).subrange(1, int_bytes(b).len() as int));
        lemma_dec_digits((-a) as nat);
        lemma_dec_digits((-b) as nat);
        assert(digits_val(da) == digits_val(db));
    } else if a >= 0 && b >= 0 {
        lemma_dec_digits(a as nat);
        lemma_dec_digits(b as nat);
        assert(digits_val(dec_digits(a as nat)) == digits_val(dec_digits(b as nat)));
    } else if a < 0 {
        assert(int_bytes(a)[0] == 45 && spec_is_digit(int_bytes(b)[0]));
    } else {
        assert(int_bytes(b)[0] == 45 && spec_is_digit(int_bytes(a)[0]));
    }
}

/// A byte sequence is the wire document of at most one type string and
/// position: the grammar is unambiguous.
pub proof fn lemma_wire_unique(pay: Seq<u8>, t1: Seq<u8>, q1: int, r1: int, t2: Seq<u8>, q2: int, r2: int)
    requires
        valid_type_str(t1),
        valid_type_str(t2),
        pay == wire(t1, q1, r1),
        pay == wire(t2, q2, r2),
    ensures
        t1 == t2,
        q1 == q2,
        r1 == r2,
{
    lemma_wire_shape(pay, t1, q1, r1);
    lemma_wire_shape(pay, t2, q2, r2);
    lemma_int_bytes(q1);
    lemma_int_bytes(q2);
    lemma_int_bytes(r1);
    lemma_int_bytes(r2);
    // The type strings end at the same first quote.
    assert(t1.len() == t2.len()) by {
        if t1.len() < t2.len() {
            assert(pay[9 + t1.len() as int] == 34);
            assert(pay[9 + t1.len() as int] != 34);
        } else if t2.len() < t1.len() {
            assert(pay[9 + t2.len() as int] == 34);
            assert(pay[9 + t2.len() as int] != 34);
        }
    };
    assert forall|j: int| 0 <= j < t1.len() implies t1[j] == t2[j] by {
        assert(pay[9 + j] == t1[j]);
        assert(pay[9 + j] == t2[j]);
    };
    assert(t1 =~= t2);
    let p2 = 9 + t1.len() as int + 18;
    // The first integers end at the same first non-integer byte.
    assert(int_bytes(q1).len() == int_bytes(q2).len()) by {
        if int_bytes(q1).len() < int_bytes(q2).len() {
            let x = p2 + int_bytes(q1).len() as int;
            assert(pay[x] == 44);
            assert(pay.subrange(p2, p2 + int_bytes(q2).len())[x - p2] == pay[x]);
            assert(int_bytes(q2)[x - p2] == 45 || spec_is_digit(int_bytes(q2)[x - p2]));
        } else if int_bytes(q2).len() < int_bytes(q1).len() {
            let x = p2 + int_bytes(q2).len() as int;
            assert(pay[x] == 44);
            assert(pay.subrange(p2, p2 + int_bytes(q1).len())[x - p2] == pay[x]);
            assert(int_bytes(q1)[x - p2] == 45 || spec_is_digit(int_bytes(q1)[x - p2]));
        }
    };
    assert(int_bytes(q1) =~= int_bytes(q2));
    lemma_int_bytes_injective(q1, q2);
    let p4 = p2 + int_bytes(q1).len() as int + 5;
    assert(int_bytes(r1).len() == int_bytes(r2).len()) by {
        if int_bytes(r1).len() < int_bytes(r2).len() {
            let x = p4 + int_bytes(r1).len() as int;
            assert(pay[x] == 125);
            assert(pay.subrange(p4, p4 + int_bytes(r2).len())[x - p4] == pay[x]);
            assert(int_bytes(r2)[x - p4] == 45 || spec_is_digit(int_bytes(r2)[x - p4]));
        } else if int_bytes(r2).len() < int_bytes(r1).len() {
            let x = p4 + int_bytes(r2).len() as int;
            assert(pay[x] == 125);
            assert(pay.subrange(p4, p4 + int_bytes(r1).len())[x - p4] == pay[x]);
            assert(int_bytes(r1)[x - p4] == 45 || spec_is_digit(int_bytes(r1)[x - p4]));
        }
    };
    assert(int_bytes(r1) =~= int_bytes(r2));
    lemma_int_bytes_injective(r1, r2);
}

/// In a wire document, the first quote at or after index 9 stands exactly at
/// the end of the type string.
proof fn lemma_wire_align(pay: Seq<u8>, t: Seq<u8>, q: int, r: int, p1: int)
    requires
        valid_type_str(t),
        pay == wire(t, q, r),
        9 <= p1 < pay.len(),
        pay[p1] == 34,
        forall|k: int| 9 <= k < p1 ==> pay[k] != 34,
    ensures
        p1 == 9 + t.len(),
{
    lemma_wire_shape(pay, t, q, r);
    if p1 < 9 + t.len() {
        assert(pay[p1] != 34);
    } else if p1 > 9 + t.len() {
        assert(pay[9 + t.len() as int] == 34);
    }
}

/// The parsing pass itself, with its contract phrased relationally against
/// the grammar: sound (a command comes back only from its own wire document)
/// and complete (every wire document is decoded, to its command or to
/// `UnknownType`).
#[verifier::rlimit(100)]
fn parse_document(payload: &[u8]) -> (res: Result<Command, ParseError>)
    ensures
        res matches Ok(c) ==> payload@ == encode_spec(c),
        res == Err::<Command, ParseError>(ParseError::UnknownType)
            ==> exists|t: Seq<u8>, q: i64, r: i64|
                valid_type_str(t) && t != lit_place_piece()
                && payload@ == #[trigger] wire(t, q as int, r as int),
        forall|t: Seq<u8>, q: i64, r: i64|
            (valid_type_str(t) && payload@ == #[trigger] wire(t, q as int, r as int))
            ==> res == (if t == lit_place_piece() {
                    Ok::<Command, ParseError>(
                        Command::PlacePiece { position: AxialPoint { q, r } },
                    )
                } else {
                    Err::<Command, ParseError>(ParseError::UnknownType)
                }),
{
    let ghost pay = payload@;
    let n = payload.len();
    if !match_at(payload, 0, &lit_head_vec()) {
        proof {
            assert forall|t: Seq<u8>, q: i64, r: i64|
                valid_type_str(t) && pay == #[trigger] wire(t, q as int, r as int)
                implies false by {
                lemma_wire_shape(pay, t, q as int, r as int);
            };
        }
        return Err(ParseError::Malformed);
    }
    let p1 = match find_quote(payload, 9) {
        Some(p) => p,
        None => {
            proof {
                assert forall|t: Seq<u8>, q: i64, r: i64|
                    valid_type_str(t) && pay == #[trigger] wire(t, q as int, r as int)
                    implies false by {
                    lemma_wire_shape(pay, t, q as int, r as int);
                    assert(pay[9 + t.len() as int] == 34);
                };
            }
            return Err(ParseError::Malformed);
        },
    };
    if !match_at(payload, p1, &lit_mid1_vec()) {
        proof {
            assert forall|t: Seq<u8>, q: i64, r: i64|
                valid_type_str(t) && pay == #[trigger] wire(t, q as int, r as int)
                implies false by {
                lemma_wire_shape(pay, t, q as int, r as int);
                lemma_wire_align(pay, t, q as int, r as int, p1 as int);
            };
        }
        return Err(ParseError::Malformed);
    }
    let p2 = p1 + 18;
    let (qv, p3) = match parse_int(payload, p2) {
        Some(pr) => pr,
        None => {
            proof {
                assert forall|t: Seq<u8>, q: i64, r: i64|
                    valid_type_str(t) && pay == #[trigger] wire(t, q as int, r as int)
                    implies false by {
                    lemma_wire_shape(pay, t, q as int, r as int);
                    lemma_wire_align(pay, t, q as int, r as int, p1 as int);
                    lemma_int_bytes(q as int);
                    assert(p2 + int_bytes(q as int).len() <= pay.len());
                    assert(pay[p2 + int_bytes(q as int).len()] == 44);
                };
            }
            return Err(ParseError::Malformed);
        },
    };
    if !match_at(payload, p3, &lit_mid2_vec()) {
        proof {
            assert forall|t: Seq<u8>, q: i64, r: i64|
                valid_type_str(t) && pay == #[trigger] wire(t, q as int, r as int)
                implies false by {
                lemma_wire_shape(pay, t, q as int, r as int);
                lemma_wire_align(pay, t, q as int, r as int, p1 as int);
                lemma_int_bytes(q as int);
                assert(pay[p2 + int_bytes(q as int).len()] == 44);
                assert(p3 == p2 + int_bytes(q as int).len());
            };
        }
        return Err(ParseError::Malformed);
    }
    let p4 = p3 + 5;
    let (rv, p5) = match parse_int(payload, p4) {
        Some(pr) => pr,
        None => {
            proof {
                assert forall|t: Seq<u8>, q: i64, r: i64|
                    valid_type_str(t) && pay == #[trigger] wire(t, q as int, r as int)
                    implies false by {
                    lemma_wire_shape(pay, t, q as int, r as int);
                    lemma_wire_align(pay, t, q as int, r as int, p1 as int);
                    lemma_int_bytes(q as int);
                    lemma_int_bytes(r as int);
                    assert(pay[p2 + int_bytes(q as int).len()] == 44);
                    assert(p3 == p2 + int_bytes(q as int).len());
                    assert(pay[p4 + int_bytes(r as int).len()] == 125);
                };
            }
            return Err(ParseError::Malformed);
        },
    };
    if !match_at(payload, p5, &lit_tail_vec()) {
        proof {
            assert forall|t: Seq<u8>, q: i64, r: i64|
                valid_type_str(t) && pay == #[trigger] wire(t, q as int, r as int)
                implies false by {
                lemma_wire_shape(pay, t, q as int, r as int);
                lemma_wire_align(pay, t, q as int, r as int, p1 as int);
                lemma_int_bytes(q as int);
                lemma_int_bytes(r as int);
                assert(pay[p2 + int_bytes(q as int).len()] == 44);
                assert(p3 == p2 + int_bytes(q as int).len());
                assert(pay[p4 + int_bytes(r as int).len()] == 125);
                assert(p5 == p4 + int_bytes(r as int).len());
            };
        }
        return Err(ParseError::Malformed);
    }
    if p5 + 2 != payload.len() {
        proof {
            assert forall|t: Seq<u8>, q: i64, r: i64|
                valid_type_str(t) && pay == #[trigger] wire(t, q as int, r as int)
                implies false by {
                lemma_wire_shape(pay, t, q as int, r as int);
                lemma_wire_align(pay, t, q as int, r as int, p1 as int);
                lemma_int_bytes(q as int);
                lemma_int_bytes(r as int);
                assert(pay[p2 + int_bytes(q as int).len()] == 44);
                assert(p3 == p2 + int_bytes(q as int).len());
                assert(pay[p4 + int_bytes(r as int).len()] == 125);
                assert(p5 == p4 + int_bytes(r as int).len());
            };
        }
        return Err(ParseError::Malformed);
    }
    let is_place_piece = p1 == 20 && match_at(payload, 9, &lit_place_piece_vec());
    let ghost tt = pay.subrange(9, p1 as int);
    proof {
        // The payload is exactly the wire document of `tt`, `qv` and `rv`.
        let w = wire(tt, qv as int, rv as int);
        lemma_int_bytes(qv as int);
        lemma_int_bytes(rv as int);
        assert(valid_type_str(tt)) by {
            assert forall|k: int| 0 <= k < tt.len() implies tt[k] != 34 by {
                assert(tt[k] == pay[9 + k]);
            };
        };
        assert(w.len() == pay.len());
        assert forall|k: int| 0 <= k < pay.len() implies pay[k] == w[k] by {
            if k < 9 {
                assert(pay.subrange(0, 9)[k] == pay[k]);
                assert(w[k] == lit_head()[k]);
            } else if k < p1 {
                assert(w[k] == tt[k - 9]);
            } else if k < p2 {
                assert(pay.subrange(p1 as int, p1 + 18)[k - p1] == pay[k]);
                assert(w[k] == lit_mid1()[k - p1]);
            } else if k < p3 {
                assert(pay.subrange(p2 as int, p3 as int)[k - p2] == pay[k]);
                assert(w[k] == int_bytes(qv as int)[k - p2]);
            } else if k < p4 {
                assert(pay.subrange(p3 as int, p3 + 5)[k - p3] == pay[k]);
                assert(w[k] == lit_mid2()[k - p3]);
            } else if k < p5 {
                assert(pay.subrange(p4 as int, p5 as int)[k - p4] == pay[k]);
                assert(w[k] == int_bytes(rv as int)[k - p4]);
            } else {
                assert(pay.subrange(p5 as int, p5 + 2)[k - p5] == pay[k]);
                assert(w[k] == lit_tail()[k - p5]);
            }
        };
        assert(pay =~= w);
        // The extracted type string is `place_piece` exactly when the check
        // said so.
        if is_place_piece {
            assert(tt =~= lit_place_piece()) by {
                assert(pay.subrange(9, 20) == lit_place_piece());
            };
        } else {
            assert(tt != lit_place_piece()) by {
                if tt == lit_place_piece() {
                    assert(p1 == 20);
                    assert(pay.subrange(9, 20) =~= lit_place_piece());
                }
            };
        }
        // Any wire reading of the payload agrees with this one.
        assert forall|t: Seq<u8>, q: i64, r: i64|
            valid_type_str(t) && pay == #[trigger] wire(t, q as int, r as int)
            implies t == tt && q == qv && r == rv by {
            lemma_wire_unique(pay, tt, qv as int, rv as int, t, q as int, r as int);
        };
    }
    if is_place_piece {
        Ok(Command::PlacePiece { position: AxialPoint { q: qv, r: rv } })
    } else {
        proof {
            assert(valid_type_str(tt) && tt != lit_place_piece()
                && pay == wire(tt, qv as int, rv as int));
        }
        Err(ParseError::UnknownType)
    }
}

/// The parse verdict of a payload, as a function of its bytes alone: the
/// command whose wire document it is; `UnknownType` for a wire document
/// whose type string is not `place_piece`; `Malformed` for everything else.
pub open spec fn spec_parse(s: Seq<u8>) -> Result<Command, ParseError> {
    if exists|c: Command| s == #[trigger] encode_spec(c) {
        Ok(choose|c: Command| s == encode_spec(c))
    } else if exists|t: Seq<u8>, q: i64, r: i64|
        valid_type_str(t) && t != lit_place_piece() && s == #[trigger] wire(
            t,
            q as int,
            r as int,
        ) {
        Err(ParseError::UnknownType)
    } else {
        Err(ParseError::Malformed)
    }
}

/// Decodes a wire document into a command: the result is exactly
/// `spec_parse` of the payload bytes. Succeeds exactly on the wire documents
/// whose `type` string is `place_piece`; a document of the right shape with
/// another type string is `UnknownType`; everything else — missing fields,
/// non-integer coordinates, any other structure — is `Malformed`. The
/// grammar is unambiguous, so together with `encode`'s contract this gives
/// `parse(encode(c)) == Ok(c)` for every command.
pub fn parse(payload: &[u8]) -> (res: Result<Command, ParseError>)
    ensures
        res == spec_parse(payload@),
        res matches Ok(c) ==> payload@ == encode_spec(c),
        res == Err::<Command, ParseError>(ParseError::UnknownType)
            ==> exists|t: Seq<u8>, q: i64, r: i64|
                valid_type_str(t) && t != lit_place_piece()
                && payload@ == #[trigger] wire(t, q as int, r as int),
        forall|t: Seq<u8>, q: i64, r: i64|
            (valid_type_str(t) && payload@ == #[trigger] wire(t, q as int, r as int))
            ==> res == (if t == lit_place_piece() {
                    Ok::<Command, ParseError>(
                        Command::PlacePiece { position: AxialPoint { q, r } },
                    )
                } else {
                    Err::<Command, ParseError>(ParseError::UnknownType)
                }),
{
    let res = parse_document(payload);
    proof {
        assert(valid_type_str(lit_place_piece()));
        if exists|c: Command| payload@ == #[trigger] encode_spec(c) {
            let c = choose|c: Command| payload@ == encode_spec(c);
            let position = c->PlacePiece_position;
            assert(payload@ == wire(lit_place_piece(), position.q as int, position.r as int));
            assert(res == Ok::<Command, ParseError>(c));
            let c2 = choose|c2: Command| payload@ == encode_spec(c2);
            assert(c2 == c) by {
                let p2 = c2->PlacePiece_position;
                lemma_wire_unique(
                    payload@,
                    lit_place_piece(),
                    position.q as int,
                    position.r as int,
                    lit_place_piece(),
                    p2.q as int,
                    p2.r as int,
                );
            };
        } else if exists|t: Seq<u8>, q: i64, r: i64|
            valid_type_str(t) && t != lit_place_piece() && payload@ == #[trigger] wire(
                t,
                q as int,
                r as int,
            ) {
            let (t, q, r) = choose|t: Seq<u8>, q: i64, r: i64|
                valid_type_str(t) && t != lit_place_piece() && payload@ == #[trigger] wire(
                    t,
                    q as int,
                    r as int,
                );
            assert(res == Err::<Command, ParseError>(ParseError::UnknownType));
        } else {
            assert(!(res is Ok)) by {
                if res is Ok {
                    assert(payload@ == encode_spec(res->Ok_0));
                }
            };
            assert(res != Err::<Command, ParseError>(ParseError::UnknownType));
            assert(res is Err);
            assert((res->Err_0) is UnknownType || (res->Err_0) is Malformed);
            assert(res == Err::<Command, ParseError>(ParseError::Malformed));
        }
    }
    res
}

/// Round trip: the wire encoding of a command parses back to that command.
/// Any result that meets the parser's contract on the bytes `encode_spec(c)`
/// is exactly `Ok(c)`.
pub proof fn lemma_round_trip(c: Command, res: Result<Command, ParseError>)
    requires
        forall|t: Seq<u8>, q: i64, r: i64|
            (valid_type_str(t) && encode_spec(c) == #[trigger] wire(t, q as int, r as int))
            ==> res == (if t == lit_place_piece() {
                    Ok::<Command, ParseError>(
                        Command::PlacePiece { position: AxialPoint { q, r } },
                    )
                } else {
                    Err::<Command, ParseError>(ParseError::UnknownType)
                }),
    ensures
        res == Ok::<Command, ParseError>(c),
{
    let position = c->PlacePiece_position;
    assert(valid_type_str(lit_place_piece()));
    assert(encode_spec(c) == wire(lit_place_piece(), position.q as int, position.r as int));
}

} // verus!

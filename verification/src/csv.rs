//! The tabular text format.
//!
//! A header line of comma-separated column names is followed by data lines:
//! a bare leading numeric cell, then quoted, parenthesized coordinate pairs
//! (`"(1.0,2.0)"`), all comma-delimited. Numeric tokens are plain decimal
//! numerals (optional sign, digits, optional fraction); each is read into an
//! exact rational. Every step of the tokenization is pinned to a spec-level
//! mirror, so parsing is a function of the input bytes.

use vstd::prelude::*;

use crate::rat::{in_den_range, in_num_range, rat_limit, Rat};
use crate::SplineError;

verus! {

/// View of a list of byte strings.
pub open spec fn bytes_view(v: Vec<Vec<u8>>) -> Seq<Seq<u8>> {
    Seq::new(v@.len(), |i: int| v@[i]@)
}

/// Index of the first occurrence of byte `b` in `s` at or after `i`.
pub open spec fn find_byte(s: Seq<u8>, b: u8, i: int) -> Option<int>
    decreases s.len() - i,
{
    if i < 0 || i >= s.len() {
        None
    } else if s[i] == b {
        Some(i)
    } else {
        find_byte(s, b, i + 1)
    }
}

/// A found index is in range and holds `b`.
pub proof fn lemma_find_byte_bounds(s: Seq<u8>, b: u8, i: int)
    requires
        find_byte(s, b, i) is Some,
    ensures
        i <= find_byte(s, b, i)->Some_0 < s.len(),
        s[find_byte(s, b, i)->Some_0] == b,
    decreases s.len() - i,
{
    if i < 0 || i >= s.len() {
    } else if s[i] == b {
    } else {
        lemma_find_byte_bounds(s, b, i + 1);
    }
}

/// Copy of `s[a..b]`.
pub fn bytes_sub(s: &Vec<u8>, a: usize, b: usize) -> (out: Vec<u8>)
    requires
        a <= b <= s@.len(),
    ensures
        out@ == s@.subrange(a as int, b as int),
{
    let mut out: Vec<u8> = Vec::new();
    let mut j: usize = a;
    while j < b
        invariant
            a <= j <= b <= s@.len(),
            out@ == s@.subrange(a as int, j as int),
        decreases b - j,
    {
        out.push(s[j]);
        proof {
            assert(out@ =~= s@.subrange(a as int, j + 1));
        }
        j += 1;
    }
    out
}

/// ASCII decimal digit.
pub open spec fn is_digit(b: u8) -> bool {
    0x30 <= b <= 0x39
}

/// Every byte of `s[a..b]` is a digit.
pub open spec fn all_digits(s: Seq<u8>, a: int, b: int) -> bool {
    forall|k: int| a <= k < b ==> is_digit(#[trigger] s[k])
}

/// Value of the digit string `s[a..b]`, most significant digit first.
pub open spec fn dval(s: Seq<u8>, a: int, b: int) -> int
    decreases b - a,
{
    if a >= b {
        0
    } else {
        dval(s, a, b - 1) * 10 + (s[b - 1] - 0x30)
    }
}

/// Digit strings denote nonnegative values, and extending one on the right
/// never shrinks its value.
pub proof fn lemma_dval_mono(s: Seq<u8>, a: int, j: int, b: int)
    requires
        a <= j <= b <= s.len(),
        all_digits(s, a, b),
        0 <= a,
    ensures
        0 <= dval(s, a, j) <= dval(s, a, b),
    decreases b - j, j - a,
{
    if j == b {
        if a == j {
        } else {
            lemma_dval_mono(s, a, j - 1, j - 1);
        }
    } else {
        lemma_dval_mono(s, a, j, b - 1);
        assert(dval(s, a, b) == dval(s, a, b - 1) * 10 + (s[b - 1] - 0x30));
    }
}

/// Ten to the `k`th.
pub open spec fn pow10(k: nat) -> int
    decreases k,
{
    if k == 0 {
        1
    } else {
        pow10((k - 1) as nat) * 10
    }
}

/// Powers of ten are positive and grow with the exponent.
pub proof fn lemma_pow10_mono(j: nat, k: nat)
    requires
        j <= k,
    ensures
        1 <= pow10(j) <= pow10(k),
    decreases k,
{
    if k == 0 {
    } else if j == k {
        lemma_pow10_mono((k - 1) as nat, (k - 1) as nat);
    } else {
        lemma_pow10_mono(j, (k - 1) as nat);
    }
}

/// A byte absent from `s[i..]` is not found there.
pub proof fn lemma_find_byte_none(s: Seq<u8>, b: u8, i: int)
    requires
        forall|k: int| i <= k < s.len() ==> s[k] != b,
    ensures
        find_byte(s, b, i) is None,
    decreases s.len() - i,
{
    if i < 0 || i >= s.len() {
    } else {
        lemma_find_byte_none(s, b, i + 1);
    }
}

/// The exact rational a numeric token denotes: optional sign, integer
/// digits, optionally a dot and fraction digits, at least one digit in all.
/// `None` for anything else. The value is `(numerator, denominator)` with
/// the denominator the power of ten of the fraction length.
pub open spec fn spec_parse_rat(s: Seq<u8>) -> Option<(int, int)> {
    let i0: int = if s.len() > 0 && (s[0] == 0x2b || s[0] == 0x2d) {
        1
    } else {
        0
    };
    let neg = s.len() > 0 && s[0] == 0x2d;
    match find_byte(s, 0x2e, i0) {
        None => if i0 < s.len() && all_digits(s, i0, s.len() as int) {
            Some(((if neg { -dval(s, i0, s.len() as int) } else { dval(s, i0, s.len() as int) }), 1))
        } else {
            None
        },
        Some(j) => {
            if (i0 < j || j + 1 < s.len()) && all_digits(s, i0, j) && all_digits(
                s,
                j + 1,
                s.len() as int,
            ) && find_byte(s, 0x2e, j + 1) is None {
                let k = (s.len() - j - 1) as nat;
                let mag = dval(s, i0, j) * pow10(k) + dval(s, j + 1, s.len() as int);
                Some(((if neg { -mag } else { mag }), pow10(k)))
            } else {
                None
            }
        },
    }
}

/// The token's rational squeezed into `Rat`: a malformed token is a parse
/// error, a well-formed one whose components leave the range is an overflow.
pub open spec fn spec_parse_rat_checked(s: Seq<u8>) -> Result<Rat, SplineError> {
    match spec_parse_rat(s) {
        None => Err(SplineError::Parse),
        Some((n, d)) => if in_num_range(n) && in_den_range(d) {
            Ok(Rat { num: n as i64, den: d as i64 })
        } else {
            Err(SplineError::Overflow)
        },
    }
}

/// Read a numeric token as an exact rational.
#[verifier::loop_isolation(false)]
#[verifier::rlimit(50)]
pub fn parse_rat(s: &Vec<u8>) -> (out: Result<Rat, SplineError>)
    ensures
        out == spec_parse_rat_checked(s@),
        out matches Ok(r) ==> r.wf(),
{
    let len = s.len();
    let mut i0: usize = 0;
    let mut neg = false;
    if len > 0 && (s[0] == 0x2b || s[0] == 0x2d) {
        i0 = 1;
        neg = s[0] == 0x2d;
    }
    // locate the dot, if any
    let mut dj: usize = i0;
    while dj < len && s[dj] != 0x2e
        invariant
            i0 <= dj <= len,
            find_byte(s@, 0x2e, i0 as int) == find_byte(s@, 0x2e, dj as int),
        decreases len - dj,
    {
        dj += 1;
    }
    proof {
        if dj < len {
            assert(find_byte(s@, 0x2e, i0 as int) == Some(dj as int));
        } else {
            assert(find_byte(s@, 0x2e, i0 as int) is None);
        }
    }
    // emptiness and digit validation first: a malformed token is a parse
    // error whatever its magnitude
    if dj == len && i0 == len {
        return Err(SplineError::Parse);
    }
    if dj < len && i0 == dj && dj + 1 == len {
        // a lone dot (possibly signed) holds no digits
        return Err(SplineError::Parse);
    }
    let mut k: usize = i0;
    while k < dj
        invariant
            i0 <= k <= dj <= len,
            all_digits(s@, i0 as int, k as int),
        decreases dj - k,
    {
        let b = s[k];
        if !(0x30 <= b && b <= 0x39) {
            assert(!all_digits(s@, i0 as int, dj as int));
            return Err(SplineError::Parse);
        }
        k += 1;
    }
    if dj < len {
        let mut k2: usize = dj + 1;
        while k2 < len
            invariant
                dj + 1 <= k2 <= len,
                all_digits(s@, dj + 1, k2 as int),
            decreases len - k2,
        {
            let b = s[k2];
            if !(0x30 <= b && b <= 0x39) {
                assert(!all_digits(s@, dj + 1, len as int));
                return Err(SplineError::Parse);
            }
            k2 += 1;
        }
        proof {
            lemma_find_byte_none(s@, 0x2e, dj + 1);
        }
    }
    // the token is well formed; accumulate the integer part
    let mut acc: i128 = 0;
    let mut k3: usize = i0;
    while k3 < dj
        invariant
            i0 <= k3 <= dj <= len,
            all_digits(s@, i0 as int, dj as int),
            dj < len ==> all_digits(s@, dj + 1, len as int),
            acc == dval(s@, i0 as int, k3 as int),
            0 <= acc <= rat_limit(),
        decreases dj - k3,
    {
        let b = s[k3];
        let nacc: i128 = acc * 10 + ((b - 0x30) as i128);
        proof {
            assert(dval(s@, i0 as int, k3 + 1) == acc * 10 + (s@[k3 as int] - 0x30));
        }
        if nacc > 0x7fff_ffff_ffff_ffffi128 {
            proof {
                lemma_dval_mono(s@, i0 as int, k3 + 1, dj as int);
                if dj < len {
                    // the fraction only adds to the magnitude
                    lemma_pow10_mono(0, (len - dj - 1) as nat);
                    assert(dval(s@, i0 as int, dj as int) * pow10((len - dj - 1) as nat) >= dval(
                        s@,
                        i0 as int,
                        dj as int,
                    )) by (nonlinear_arith)
                        requires
                            dval(s@, i0 as int, dj as int) >= 0,
                            pow10((len - dj - 1) as nat) >= 1,
                    ;
                    lemma_dval_mono(s@, dj + 1, dj + 1, len as int);
                }
            }
            return Err(SplineError::Overflow);
        }
        acc = nacc;
        k3 += 1;
    }
    if dj == len {
        // no dot: plain integer
        let n: i64 = acc as i64;
        let r = if neg {
            Rat { num: -n, den: 1 }
        } else {
            Rat { num: n, den: 1 }
        };
        return Ok(r);
    }
    // fraction part
    let mut facc: i128 = 0;
    let mut den: i128 = 1;
    let mut k4: usize = dj + 1;
    while k4 < len
        invariant
            dj + 1 <= k4 <= len,
            dj < len,
            all_digits(s@, i0 as int, dj as int),
            all_digits(s@, dj + 1, len as int),
            facc == dval(s@, dj + 1, k4 as int),
            den == pow10((k4 - dj - 1) as nat),
            0 <= facc <= rat_limit(),
            1 <= den <= rat_limit(),
            0 <= acc <= rat_limit(),
            acc == dval(s@, i0 as int, dj as int),
        decreases len - k4,
    {
        let b = s[k4];
        proof {
            assert(dval(s@, dj + 1, k4 + 1) == facc * 10 + (s@[k4 as int] - 0x30));
            assert(pow10((k4 + 1 - dj - 1) as nat) == den * 10);
        }
        let nden: i128 = den * 10;
        let nfacc: i128 = facc * 10 + ((b - 0x30) as i128);
        if nden > 0x7fff_ffff_ffff_ffffi128 {
            proof {
                lemma_pow10_mono((k4 + 1 - dj - 1) as nat, (len - dj - 1) as nat);
            }
            return Err(SplineError::Overflow);
        }
        if nfacc > 0x7fff_ffff_ffff_ffffi128 {
            proof {
                lemma_dval_mono(s@, dj + 1, k4 + 1, len as int);
                lemma_pow10_mono(0, (len - dj - 1) as nat);
                assert(dval(s@, i0 as int, dj as int) * pow10((len - dj - 1) as nat) >= 0) by (
                nonlinear_arith)
                    requires
                        dval(s@, i0 as int, dj as int) >= 0,
                        pow10((len - dj - 1) as nat) >= 1,
                ;
            }
            return Err(SplineError::Overflow);
        }
        den = nden;
        facc = nfacc;
        k4 += 1;
    }
    // assemble the magnitude over the fraction's denominator
    let ghost kk = (len - dj - 1) as nat;
    proof {
        assert(den == pow10(kk));
        assert(acc * den <= 0x3fff_ffff_ffff_ffff_0000_0000_0000_0001 && acc * den >= 0) by (
        nonlinear_arith)
            requires
                0 <= acc <= 0x7fff_ffff_ffff_ffff,
                1 <= den <= 0x7fff_ffff_ffff_ffff,
        ;
    }
    let mag: i128 = acc * den + facc;
    if mag > 0x7fff_ffff_ffff_ffffi128 {
        return Err(SplineError::Overflow);
    }
    let n: i64 = mag as i64;
    let d: i64 = den as i64;
    let r = if neg {
        Rat { num: -n, den: d }
    } else {
        Rat { num: n, den: d }
    };
    Ok(r)
}

/// A trailing carriage return removed, as the line iterator does.
pub open spec fn strip_cr(s: Seq<u8>) -> Seq<u8> {
    if s.len() > 0 && s.last() == 0x0d {
        s.drop_last()
    } else {
        s
    }
}

/// The input's lines from position `start` on: pieces split at line feeds,
/// a carriage return stripped from the end of each piece that a line feed
/// closed, and no final empty line after a trailing line feed.
pub open spec fn spec_lines_from(data: Seq<u8>, start: int) -> Seq<Seq<u8>>
    decreases data.len() - start via spec_lines_from_dec
{
    if start < 0 || start > data.len() {
        Seq::empty()
    } else {
        match find_byte(data, 0x0a, start) {
            None => if start == data.len() {
                Seq::empty()
            } else {
                seq![data.subrange(start, data.len() as int)]
            },
            Some(j) => seq![strip_cr(data.subrange(start, j))] + spec_lines_from(data, j + 1),
        }
    }
}

#[via_fn]
proof fn spec_lines_from_dec(data: Seq<u8>, start: int) {
    if 0 <= start <= data.len() && find_byte(data, 0x0a, start) is Some {
        lemma_find_byte_bounds(data, 0x0a, start);
    }
}

/// Pieces of `s` split at every occurrence of `b`, empty pieces kept.
pub open spec fn spec_split_byte(s: Seq<u8>, b: u8, start: int) -> Seq<Seq<u8>>
    decreases s.len() - start via spec_split_byte_dec
{
    if start < 0 || start > s.len() {
        Seq::empty()
    } else {
        match find_byte(s, b, start) {
            None => seq![s.subrange(start, s.len() as int)],
            Some(j) => seq![s.subrange(start, j)] + spec_split_byte(s, b, j + 1),
        }
    }
}

#[via_fn]
proof fn spec_split_byte_dec(s: Seq<u8>, b: u8, start: int) {
    if 0 <= start <= s.len() && find_byte(s, b, start) is Some {
        lemma_find_byte_bounds(s, b, start);
    }
}

/// Every adjacent comma pair opened up with a space, leftmost first: the
/// normalization that keeps empty cells alive through the later split.
pub open spec fn spec_norm(s: Seq<u8>, i: int) -> Seq<u8>
    decreases s.len() - i,
{
    if i < 0 || i >= s.len() {
        Seq::empty()
    } else if i + 1 < s.len() && s[i] == 0x2c && s[i + 1] == 0x2c {
        seq![0x2cu8, 0x20u8, 0x2cu8] + spec_norm(s, i + 2)
    } else {
        seq![s[i]] + spec_norm(s, i + 1)
    }
}

/// First occurrence of the two-byte cell separator: a comma followed by a
/// double quote.
pub open spec fn find2(s: Seq<u8>, i: int) -> Option<int>
    decreases s.len() - i,
{
    if i < 0 || i + 1 >= s.len() {
        None
    } else if s[i] == 0x2c && s[i + 1] == 0x22 {
        Some(i)
    } else {
        find2(s, i + 1)
    }
}

/// A found separator index is in range and holds the separator.
pub proof fn lemma_find2_bounds(s: Seq<u8>, i: int)
    requires
        find2(s, i) is Some,
    ensures
        i <= find2(s, i)->Some_0,
        find2(s, i)->Some_0 + 1 < s.len(),
    decreases s.len() - i,
{
    if i < 0 || i + 1 >= s.len() {
    } else if s[i] == 0x2c && s[i + 1] == 0x22 {
    } else {
        lemma_find2_bounds(s, i + 1);
    }
}

/// Pieces of `s` split at every comma-quote separator.
pub open spec fn spec_split2(s: Seq<u8>, start: int) -> Seq<Seq<u8>>
    decreases s.len() - start via spec_split2_dec
{
    if start < 0 || start > s.len() {
        Seq::empty()
    } else {
        match find2(s, start) {
            None => seq![s.subrange(start, s.len() as int)],
            Some(j) => seq![s.subrange(start, j)] + spec_split2(s, j + 2),
        }
    }
}

#[via_fn]
proof fn spec_split2_dec(s: Seq<u8>, start: int) {
    if 0 <= start <= s.len() && find2(s, start) is Some {
        lemma_find2_bounds(s, start);
    }
}

/// `s` with every occurrence of bytes `a` and `b` removed.
pub open spec fn spec_remove2(s: Seq<u8>, a: u8, b: u8, i: int) -> Seq<u8>
    decreases s.len() - i,
{
    if i < 0 || i >= s.len() {
        Seq::empty()
    } else if s[i] == a || s[i] == b {
        spec_remove2(s, a, b, i + 1)
    } else {
        seq![s[i]] + spec_remove2(s, a, b, i + 1)
    }
}

/// `s` with every occurrence of `from` replaced by `to`.
pub open spec fn spec_replace(s: Seq<u8>, from: u8, to: u8) -> Seq<u8> {
    Seq::new(s.len(), |i: int| if s[i] == from { to } else { s[i] })
}

/// ASCII whitespace.
pub open spec fn is_ws(b: u8) -> bool {
    b == 0x20 || 0x09 <= b <= 0x0d
}

/// First whitespace byte at or after `i`.
pub open spec fn find_ws(s: Seq<u8>, i: int) -> Option<int>
    decreases s.len() - i,
{
    if i < 0 || i >= s.len() {
        None
    } else if is_ws(s[i]) {
        Some(i)
    } else {
        find_ws(s, i + 1)
    }
}

/// A found whitespace index is in range and holds whitespace.
pub proof fn lemma_find_ws_bounds(s: Seq<u8>, i: int)
    requires
        find_ws(s, i) is Some,
    ensures
        i <= find_ws(s, i)->Some_0 < s.len(),
        is_ws(s[find_ws(s, i)->Some_0]),
    decreases s.len() - i,
{
    if i < 0 || i >= s.len() {
    } else if is_ws(s[i]) {
    } else {
        lemma_find_ws_bounds(s, i + 1);
    }
}

/// The whitespace-separated words of `s` from position `i` on.
pub open spec fn spec_split_ws(s: Seq<u8>, i: int) -> Seq<Seq<u8>>
    decreases s.len() - i via spec_split_ws_dec
{
    if i < 0 || i >= s.len() {
        Seq::empty()
    } else if is_ws(s[i]) {
        spec_split_ws(s, i + 1)
    } else {
        match find_ws(s, i) {
            None => seq![s.subrange(i, s.len() as int)],
            Some(j) => seq![s.subrange(i, j)] + spec_split_ws(s, j + 1),
        }
    }
}

#[via_fn]
proof fn spec_split_ws_dec(s: Seq<u8>, i: int) {
    if 0 <= i < s.len() && !is_ws(s[i]) && find_ws(s, i) is Some {
        lemma_find_ws_bounds(s, i);
    }
}

/// Whether `b` is ASCII whitespace.
fn is_ws_b(b: u8) -> (r: bool)
    ensures
        r == is_ws(b),
{
    b == 0x20 || (0x09 <= b && b <= 0x0d)
}

/// The input split into lines.
#[verifier::loop_isolation(false)]
pub fn split_lines(data: &Vec<u8>) -> (out: Vec<Vec<u8>>)
    ensures
        bytes_view(out) == spec_lines_from(data@, 0),
{
    let len = data.len();
    let mut out: Vec<Vec<u8>> = Vec::new();
    let mut start: usize = 0;
    let mut i: usize = 0;
    proof {
        assert(bytes_view(out) =~= Seq::<Seq<u8>>::empty());
        assert(Seq::<Seq<u8>>::empty() + spec_lines_from(data@, 0) =~= spec_lines_from(data@, 0));
    }
    while i < len
        invariant
            0 <= start <= i <= len,
            spec_lines_from(data@, 0) == bytes_view(out) + spec_lines_from(data@, start as int),
            find_byte(data@, 0x0a, start as int) == find_byte(data@, 0x0a, i as int),
        decreases len - i,
    {
        if data[i] == 0x0a {
            let mut piece = bytes_sub(data, start, i);
            if piece.len() > 0 && piece[piece.len() - 1] == 0x0d {
                piece.pop();
            }
            proof {
                assert(piece@ == strip_cr(data@.subrange(start as int, i as int)));
                assert(find_byte(data@, 0x0a, start as int) == Some(i as int));
            }
            let ghost before = bytes_view(out);
            out.push(piece);
            proof {
                assert(bytes_view(out) =~= before + seq![piece@]);
                assert((before + seq![piece@]) + spec_lines_from(data@, i + 1) =~= before + (
                seq![piece@] + spec_lines_from(data@, i + 1)));
            }
            start = i + 1;
        }
        i += 1;
    }
    if start < len {
        proof {
            assert(find_byte(data@, 0x0a, start as int) is None);
        }
        let piece = bytes_sub(data, start, len);
        let ghost before = bytes_view(out);
        out.push(piece);
        proof {
            assert(bytes_view(out) =~= before + seq![piece@]);
        }
    } else {
        proof {
            assert(spec_lines_from(data@, start as int) =~= Seq::<Seq<u8>>::empty());
            assert(bytes_view(out) + Seq::<Seq<u8>>::empty() =~= bytes_view(out));
        }
    }
    out
}

/// `s` split at every occurrence of `b`, empty pieces kept.
#[verifier::loop_isolation(false)]
pub fn split_byte(s: &Vec<u8>, b: u8) -> (out: Vec<Vec<u8>>)
    ensures
        bytes_view(out) == spec_split_byte(s@, b, 0),
{
    let len = s.len();
    let mut out: Vec<Vec<u8>> = Vec::new();
    let mut start: usize = 0;
    let mut i: usize = 0;
    proof {
        assert(Seq::<Seq<u8>>::empty() + spec_split_byte(s@, b, 0) =~= spec_split_byte(s@, b, 0));
        assert(bytes_view(out) =~= Seq::<Seq<u8>>::empty());
    }
    while i < len
        invariant
            0 <= start <= i <= len,
            spec_split_byte(s@, b, 0) == bytes_view(out) + spec_split_byte(s@, b, start as int),
            find_byte(s@, b, start as int) == find_byte(s@, b, i as int),
        decreases len - i,
    {
        if s[i] == b {
            let piece = bytes_sub(s, start, i);
            proof {
                assert(find_byte(s@, b, start as int) == Some(i as int));
            }
            let ghost before = bytes_view(out);
            out.push(piece);
            proof {
                assert(bytes_view(out) =~= before + seq![piece@]);
                assert((before + seq![piece@]) + spec_split_byte(s@, b, i + 1) =~= before + (
                seq![piece@] + spec_split_byte(s@, b, i + 1)));
            }
            start = i + 1;
        }
        i += 1;
    }
    proof {
        assert(find_byte(s@, b, start as int) is None);
    }
    let piece = bytes_sub(s, start, len);
    let ghost before = bytes_view(out);
    out.push(piece);
    proof {
        assert(bytes_view(out) =~= before + seq![piece@]);
    }
    out
}

/// Adjacent comma pairs opened up with a space.
#[verifier::loop_isolation(false)]
pub fn norm_commas(s: &Vec<u8>) -> (out: Vec<u8>)
    ensures
        out@ == spec_norm(s@, 0),
{
    let len = s.len();
    let mut out: Vec<u8> = Vec::new();
    let mut i: usize = 0;
    proof {
        assert(out@ + spec_norm(s@, 0) =~= spec_norm(s@, 0));
    }
    while i < len
        invariant
            0 <= i <= len,
            spec_norm(s@, 0) == out@ + spec_norm(s@, i as int),
        decreases len - i,
    {
        let ghost before = out@;
        if i + 1 < len && s[i] == 0x2c && s[i + 1] == 0x2c {
            out.push(0x2c);
            out.push(0x20);
            out.push(0x2c);
            proof {
                assert(out@ =~= before + seq![0x2cu8, 0x20u8, 0x2cu8]);
                assert((before + seq![0x2cu8, 0x20u8, 0x2cu8]) + spec_norm(s@, i + 2) =~= before + (
                seq![0x2cu8, 0x20u8, 0x2cu8] + spec_norm(s@, i + 2)));
            }
            i += 2;
        } else {
            out.push(s[i]);
            proof {
                assert(out@ =~= before + seq![s@[i as int]]);
                assert((before + seq![s@[i as int]]) + spec_norm(s@, i + 1) =~= before + (seq![
                    s@[i as int],
                ] + spec_norm(s@, i + 1)));
            }
            i += 1;
        }
    }
    proof {
        assert(out@ + spec_norm(s@, len as int) =~= out@);
    }
    out
}

/// `s` split at every comma-quote separator.
#[verifier::loop_isolation(false)]
pub fn split_cells(s: &Vec<u8>) -> (out: Vec<Vec<u8>>)
    ensures
        bytes_view(out) == spec_split2(s@, 0),
{
    let len = s.len();
    let mut out: Vec<Vec<u8>> = Vec::new();
    let mut start: usize = 0;
    let mut i: usize = 0;
    proof {
        assert(Seq::<Seq<u8>>::empty() + spec_split2(s@, 0) =~= spec_split2(s@, 0));
        assert(bytes_view(out) =~= Seq::<Seq<u8>>::empty());
    }
    while i < len && i + 1 < len
        invariant
            0 <= start <= i,
            i <= len,
            start <= len,
            spec_split2(s@, 0) == bytes_view(out) + spec_split2(s@, start as int),
            find2(s@, start as int) == find2(s@, i as int),
        decreases len - i,
    {
        if s[i] == 0x2c && s[i + 1] == 0x22 {
            let piece = bytes_sub(s, start, i);
            proof {
                assert(find2(s@, start as int) == Some(i as int));
            }
            let ghost before = bytes_view(out);
            out.push(piece);
            proof {
                assert(bytes_view(out) =~= before + seq![piece@]);
                assert((before + seq![piece@]) + spec_split2(s@, i + 2) =~= before + (seq![piece@]
                    + spec_split2(s@, i + 2)));
            }
            start = i + 2;
            i += 2;
        } else {
            i += 1;
        }
    }
    proof {
        assert(find2(s@, start as int) is None);
    }
    let piece = bytes_sub(s, start, len);
    let ghost before = bytes_view(out);
    out.push(piece);
    proof {
        assert(bytes_view(out) =~= before + seq![piece@]);
    }
    out
}

/// `s` with every occurrence of bytes `a` and `b` removed.
#[verifier::loop_isolation(false)]
pub fn remove2(s: &Vec<u8>, a: u8, b: u8) -> (out: Vec<u8>)
    ensures
        out@ == spec_remove2(s@, a, b, 0),
{
    let len = s.len();
    let mut out: Vec<u8> = Vec::new();
    let mut i: usize = 0;
    proof {
        assert(out@ + spec_remove2(s@, a, b, 0) =~= spec_remove2(s@, a, b, 0));
    }
    while i < len
        invariant
            0 <= i <= len,
            spec_remove2(s@, a, b, 0) == out@ + spec_remove2(s@, a, b, i as int),
        decreases len - i,
    {
        let ghost before = out@;
        let c = s[i];
        if !(c == a || c == b) {
            out.push(c);
            proof {
                assert(out@ =~= before + seq![s@[i as int]]);
                assert((before + seq![s@[i as int]]) + spec_remove2(s@, a, b, i + 1) =~= before + (
                seq![s@[i as int]] + spec_remove2(s@, a, b, i + 1)));
            }
        }
        i += 1;
    }
    proof {
        assert(out@ + spec_remove2(s@, a, b, len as int) =~= out@);
    }
    out
}

/// `s` with every occurrence of `from` replaced by `to`.
#[verifier::loop_isolation(false)]
pub fn replace_byte(s: &Vec<u8>, from: u8, to: u8) -> (out: Vec<u8>)
    ensures
        out@ == spec_replace(s@, from, to),
{
    let len = s.len();
    let mut out: Vec<u8> = Vec::new();
    let mut i: usize = 0;
    while i < len
        invariant
            0 <= i <= len,
            out@.len() == i,
            forall|k: int|
                0 <= k < i ==> out@[k] == (if s@[k] == from {
                    to
                } else {
                    s@[k]
                }),
        decreases len - i,
    {
        let c = s[i];
        if c == from {
            out.push(to);
        } else {
            out.push(c);
        }
        i += 1;
    }
    proof {
        assert(out@ =~= spec_replace(s@, from, to));
    }
    out
}

/// The whitespace-separated words of `s`.
#[verifier::loop_isolation(false)]
pub fn split_ws(s: &Vec<u8>) -> (out: Vec<Vec<u8>>)
    ensures
        bytes_view(out) == spec_split_ws(s@, 0),
{
    let len = s.len();
    let mut out: Vec<Vec<u8>> = Vec::new();
    let mut i: usize = 0;
    proof {
        assert(Seq::<Seq<u8>>::empty() + spec_split_ws(s@, 0) =~= spec_split_ws(s@, 0));
        assert(bytes_view(out) =~= Seq::<Seq<u8>>::empty());
    }
    while i < len
        invariant
            0 <= i <= len,
            spec_split_ws(s@, 0) == bytes_view(out) + spec_split_ws(s@, i as int),
        decreases len - i,
    {
        if is_ws_b(s[i]) {
            i += 1;
        } else {
            let mut j: usize = i;
            while j < len && !is_ws_b(s[j])
                invariant
                    i <= j <= len,
                    find_ws(s@, i as int) == find_ws(s@, j as int),
                decreases len - j,
            {
                j += 1;
            }
            let piece = bytes_sub(s, i, j);
            let ghost before = bytes_view(out);
            out.push(piece);
            proof {
                assert(bytes_view(out) =~= before + seq![piece@]);
            }
            if j < len {
                proof {
                    assert(find_ws(s@, i as int) == Some(j as int));
                    assert((before + seq![piece@]) + spec_split_ws(s@, j + 1) =~= before + (seq![
                        piece@,
                    ] + spec_split_ws(s@, j + 1)));
                }
                i = j + 1;
            } else {
                proof {
                    assert(find_ws(s@, i as int) is None);
                    assert((before + seq![piece@]) + Seq::<Seq<u8>>::empty() =~= before + seq![
                        piece@,
                    ]);
                    assert(spec_split_ws(s@, len as int) =~= Seq::<Seq<u8>>::empty());
                }
                i = j;
            }
        }
    }
    proof {
        assert(bytes_view(out) + spec_split_ws(s@, len as int) =~= bytes_view(out));
    }
    out
}

/// One cell of the paired table: a sample on each axis. The bare leading
/// cell of a line is stored with both components equal.
#[derive(Clone, Copy, Debug)]
pub struct Pair {
    pub x: Rat,
    pub y: Rat,
}

impl Pair {
    /// Both components well-formed.
    pub open spec fn wf(self) -> bool {
        self.x.wf() && self.y.wf()
    }
}

/// View of a table of pairs.
pub open spec fn prows_view(v: Vec<Vec<Pair>>) -> Seq<Seq<Pair>> {
    Seq::new(v@.len(), |i: int| v@[i]@)
}

/// Every pair of every row well-formed.
pub open spec fn prows_wf(rows: Seq<Seq<Pair>>) -> bool {
    forall|i: int, j: int|
        0 <= i < rows.len() && 0 <= j < rows[i].len() ==> (#[trigger] rows[i][j]).wf()
}

/// Spec mirror of reading one cell token: quotes removed everywhere; the
/// leading token is one numeral duplicated onto both axes; any other token
/// has parentheses removed and its comma turned to a space, and must then
/// hold exactly two numerals.
pub open spec fn spec_parse_token(t: Seq<u8>, first: bool) -> Result<Pair, SplineError> {
    let t1 = spec_remove2(t, 0x22, 0x22, 0);
    if first {
        match spec_parse_rat_checked(t1) {
            Err(e) => Err(e),
            Ok(r) => Ok(Pair { x: r, y: r }),
        }
    } else {
        let t2 = spec_remove2(t1, 0x28, 0x29, 0);
        let t3 = spec_replace(t2, 0x2c, 0x20);
        let parts = spec_split_ws(t3, 0);
        if parts.len() != 2 {
            Err(SplineError::Parse)
        } else {
            match spec_parse_rat_checked(parts[0]) {
                Err(e) => Err(e),
                Ok(a) => match spec_parse_rat_checked(parts[1]) {
                    Err(e) => Err(e),
                    Ok(b) => Ok(Pair { x: a, y: b }),
                },
            }
        }
    }
}

/// Read one cell token.
pub fn parse_token(t: &Vec<u8>, first: bool) -> (out: Result<Pair, SplineError>)
    ensures
        out == spec_parse_token(t@, first),
        out matches Ok(p) ==> p.wf(),
{
    let t1 = remove2(t, 0x22, 0x22);
    if first {
        match parse_rat(&t1) {
            Err(e) => Err(e),
            Ok(r) => Ok(Pair { x: r, y: r }),
        }
    } else {
        let t2 = remove2(&t1, 0x28, 0x29);
        let t3 = replace_byte(&t2, 0x2c, 0x20);
        let parts = split_ws(&t3);
        if parts.len() != 2 {
            Err(SplineError::Parse)
        } else {
            proof {
                assert(parts@[0]@ == spec_split_ws(t3@, 0)[0]);
                assert(parts@[1]@ == spec_split_ws(t3@, 0)[1]);
            }
            match parse_rat(&parts[0]) {
                Err(e) => Err(e),
                Ok(a) => match parse_rat(&parts[1]) {
                    Err(e) => Err(e),
                    Ok(b) => Ok(Pair { x: a, y: b }),
                },
            }
        }
    }
}

/// Spec mirror of reading the cells of a line, leftmost first; the first
/// failure is the line's failure.
pub open spec fn spec_parse_tokens(toks: Seq<Seq<u8>>, idx: int) -> Result<Seq<Pair>, SplineError>
    decreases toks.len() - idx,
{
    if idx < 0 || idx >= toks.len() {
        Ok(Seq::empty())
    } else {
        match spec_parse_token(toks[idx], idx == 0) {
            Err(e) => Err(e),
            Ok(p) => match spec_parse_tokens(toks, idx + 1) {
                Err(e) => Err(e),
                Ok(rest) => Ok(seq![p] + rest),
            },
        }
    }
}

/// Spec mirror of reading one data line: normalize adjacent commas, split at
/// comma-quote separators, read each cell.
pub open spec fn spec_parse_line(line: Seq<u8>) -> Result<Seq<Pair>, SplineError> {
    spec_parse_tokens(spec_split2(spec_norm(line, 0), 0), 0)
}

/// Read one data line into a row of pairs.
#[verifier::loop_isolation(false)]
pub fn parse_line(line: &Vec<u8>) -> (out: Result<Vec<Pair>, SplineError>)
    ensures
        out matches Ok(row) ==> spec_parse_line(line@) == Ok::<Seq<Pair>, SplineError>(row@)
            && forall|j: int| 0 <= j < row@.len() ==> (#[trigger] row@[j]).wf(),
        out matches Err(e) ==> spec_parse_line(line@) == Err::<Seq<Pair>, SplineError>(e),
{
    let normed = norm_commas(line);
    let toks = split_cells(&normed);
    let ghost tv = bytes_view(toks);
    let n = toks.len();
    let mut row: Vec<Pair> = Vec::new();
    let mut idx: usize = 0;
    while idx < n
        invariant
            0 <= idx <= n,
            n == toks@.len(),
            forall|j: int| 0 <= j < row@.len() ==> (#[trigger] row@[j]).wf(),
            spec_parse_tokens(tv, 0) == (match spec_parse_tokens(tv, idx as int) {
                Ok(rest) => Ok::<Seq<Pair>, SplineError>(row@ + rest),
                Err(e) => Err::<Seq<Pair>, SplineError>(e),
            }),
        decreases n - idx,
    {
        proof {
            assert(tv[idx as int] == toks@[idx as int]@);
        }
        match parse_token(&toks[idx], idx == 0) {
            Err(e) => {
                return Err(e);
            },
            Ok(p) => {
                let ghost before = row@;
                row.push(p);
                proof {
                    if spec_parse_tokens(tv, idx + 1) is Ok {
                        let rest = spec_parse_tokens(tv, idx + 1)->Ok_0;
                        assert(before + (seq![p] + rest) =~= row@ + rest);
                    }
                }
            },
        }
        idx += 1;
    }
    proof {
        assert(row@ + Seq::<Pair>::empty() =~= row@);
    }
    Ok(row)
}

/// Spec mirror of reading the data lines, the header line excluded.
pub open spec fn spec_parse_data_lines(lines: Seq<Seq<u8>>, i: int) -> Result<
    Seq<Seq<Pair>>,
    SplineError,
>
    decreases lines.len() - i,
{
    if i < 1 || i >= lines.len() {
        Ok(Seq::empty())
    } else {
        match spec_parse_line(lines[i]) {
            Err(e) => Err(e),
            Ok(row) => match spec_parse_data_lines(lines, i + 1) {
                Err(e) => Err(e),
                Ok(rest) => Ok(seq![row] + rest),
            },
        }
    }
}

/// Spec mirror of the whole table read: the first line names the columns,
/// every further line is a data row.
pub open spec fn spec_from_str(data: Seq<u8>) -> Result<
    (Seq<Seq<u8>>, Seq<Seq<Pair>>),
    SplineError,
> {
    let lines = spec_lines_from(data, 0);
    if lines.len() == 0 {
        Ok((Seq::empty(), Seq::empty()))
    } else {
        let cols = spec_split_byte(lines[0], 0x2c, 0);
        match spec_parse_data_lines(lines, 1) {
            Err(e) => Err(e),
            Ok(rows) => Ok((cols, rows)),
        }
    }
}

/// The column name that turns the velocity path on.
pub open spec fn velocity_name() -> Seq<u8> {
    seq![0x76u8, 0x65u8, 0x6cu8, 0x6fu8, 0x63u8, 0x69u8, 0x74u8, 0x79u8]
}

/// Whether `cols` holds a column of that name.
pub open spec fn spec_has_velocity(cols: Seq<Seq<u8>>) -> bool {
    exists|i: int| 0 <= i < cols.len() && cols[i] == velocity_name()
}

/// The parsed table: column names in header order, and one row of paired
/// samples per data line.
#[derive(Debug)]
pub struct Csv {
    pub columns: Vec<Vec<u8>>,
    pub rows: Vec<Vec<Pair>>,
}

impl Csv {
    /// Every stored pair is well-formed.
    pub open spec fn wf(self) -> bool {
        prows_wf(prows_view(self.rows))
    }

    /// Read the whole table from raw bytes. The result is pinned to
    /// `spec_from_str`; any malformed numeral or wrong-arity cell is the
    /// line's parse error, and nothing partial is returned.
    #[verifier::loop_isolation(false)]
    pub fn from_str(data: &Vec<u8>) -> (out: Result<Csv, SplineError>)
        ensures
            out matches Ok(c) ==> spec_from_str(data@) == Ok::<
                (Seq<Seq<u8>>, Seq<Seq<Pair>>),
                SplineError,
            >((bytes_view(c.columns), prows_view(c.rows))) && c.wf(),
            out matches Err(e) ==> spec_from_str(data@) == Err::<
                (Seq<Seq<u8>>, Seq<Seq<Pair>>),
                SplineError,
            >(e),
    {
        let lines = split_lines(data);
        let ghost lv = bytes_view(lines);
        let nl = lines.len();
        if nl == 0 {
            let c = Csv { columns: Vec::new(), rows: Vec::new() };
            proof {
                assert(bytes_view(c.columns) =~= Seq::<Seq<u8>>::empty());
                assert(prows_view(c.rows) =~= Seq::<Seq<Pair>>::empty());
            }
            return Ok(c);
        }
        let columns = split_byte(&lines[0], 0x2c);
        proof {
            assert(lv[0] == lines@[0]@);
        }
        let mut rows: Vec<Vec<Pair>> = Vec::new();
        let mut i: usize = 1;
        while i < nl
            invariant
                1 <= i <= nl,
                nl == lines@.len(),
                prows_wf(prows_view(rows)),
                spec_parse_data_lines(lv, 1) == (match spec_parse_data_lines(lv, i as int) {
                    Ok(rest) => Ok::<Seq<Seq<Pair>>, SplineError>(prows_view(rows) + rest),
                    Err(e) => Err::<Seq<Seq<Pair>>, SplineError>(e),
                }),
            decreases nl - i,
        {
            proof {
                assert(lv[i as int] == lines@[i as int]@);
            }
            match parse_line(&lines[i]) {
                Err(e) => {
                    return Err(e);
                },
                Ok(row) => {
                    let ghost before = prows_view(rows);
                    rows.push(row);
                    proof {
                        assert(prows_view(rows) =~= before.push(row@));
                        if spec_parse_data_lines(lv, i + 1) is Ok {
                            let rest = spec_parse_data_lines(lv, i + 1)->Ok_0;
                            assert(before + (seq![row@] + rest) =~= prows_view(rows) + rest);
                        }
                    }
                },
            }
            i += 1;
        }
        proof {
            assert(prows_view(rows) + Seq::<Seq<Pair>>::empty() =~= prows_view(rows));
        }
        Ok(Csv { columns, rows })
    }

    /// The leading value of the last row, truncated toward zero and clamped
    /// at zero: a rough upper guess at the constraint count. `None`
    /// without a last row or with an empty one.
    pub fn constraint_size(&self) -> (out: Option<u64>)
        requires
            self.wf(),
        ensures
            out == spec_constraint_size(prows_view(self.rows)),
    {
        let n = self.rows.len();
        if n == 0 {
            return None;
        }
        let last = &self.rows[n - 1];
        if last.len() == 0 {
            return None;
        }
        proof {
            assert(prows_view(self.rows)[n - 1] == self.rows@[n - 1]@);
            assert(prows_view(self.rows)[n - 1][0].wf());
        }
        let v: Pair = last[0];
        let t = v.x.trunc();
        if t < 0 {
            Some(0)
        } else {
            Some(t as u64)
        }
    }

    /// Whether the header names a "velocity" column.
    #[verifier::loop_isolation(false)]
    pub fn has_velocity(&self) -> (out: bool)
        ensures
            out == spec_has_velocity(bytes_view(self.columns)),
    {
        let n = self.columns.len();
        let mut i: usize = 0;
        while i < n
            invariant
                0 <= i <= n,
                forall|k: int| 0 <= k < i ==> bytes_view(self.columns)[k] != velocity_name(),
            decreases n - i,
        {
            if is_velocity(&self.columns[i]) {
                proof {
                    assert(bytes_view(self.columns)[i as int] == velocity_name());
                }
                return true;
            }
            proof {
                assert(bytes_view(self.columns)[i as int] == self.columns@[i as int]@);
            }
            i += 1;
        }
        false
    }

    /// Project the paired table onto its two axes: two single-axis tables of
    /// the same shape, one of first components, one of second.
    #[verifier::loop_isolation(false)]
    pub fn split(self) -> (out: (Axis, Axis))
        requires
            self.wf(),
        ensures
            bytes_view(out.0.columns) == bytes_view(self.columns),
            bytes_view(out.1.columns) == bytes_view(self.columns),
            crate::solve::mat_view(out.0.rows) == spec_project(prows_view(self.rows), true),
            crate::solve::mat_view(out.1.rows) == spec_project(prows_view(self.rows), false),
            crate::solve::mat_wf(crate::solve::mat_view(out.0.rows)),
            crate::solve::mat_wf(crate::solve::mat_view(out.1.rows)),
    {
        let ghost rv = prows_view(self.rows);
        let n = self.rows.len();
        let mut xs: Vec<Vec<Rat>> = Vec::new();
        let mut ys: Vec<Vec<Rat>> = Vec::new();
        let mut i: usize = 0;
        while i < n
            invariant
                0 <= i <= n,
                n == self.rows@.len(),
                prows_wf(rv),
                xs@.len() == i,
                ys@.len() == i,
                forall|k: int|
                    0 <= k < i ==> (#[trigger] xs@[k])@ == spec_project(rv, true)[k],
                forall|k: int|
                    0 <= k < i ==> (#[trigger] ys@[k])@ == spec_project(rv, false)[k],
            decreases n - i,
        {
            let row = &self.rows[i];
            let m = row.len();
            let mut xr: Vec<Rat> = Vec::new();
            let mut yr: Vec<Rat> = Vec::new();
            let mut j: usize = 0;
            while j < m
                invariant
                    0 <= j <= m,
                    m == row@.len(),
                    row@ == rv[i as int],
                    0 <= (i as int) < rv.len(),
                    prows_wf(rv),
                    xr@.len() == j,
                    yr@.len() == j,
                    forall|k: int| 0 <= k < j ==> (#[trigger] xr@[k]) == rv[i as int][k].x,
                    forall|k: int| 0 <= k < j ==> (#[trigger] yr@[k]) == rv[i as int][k].y,
                decreases m - j,
            {
                let p: Pair = row[j];
                xr.push(p.x);
                yr.push(p.y);
                j += 1;
            }
            proof {
                assert(xr@ =~= spec_project(rv, true)[i as int]);
                assert(yr@ =~= spec_project(rv, false)[i as int]);
            }
            xs.push(xr);
            ys.push(yr);
            i += 1;
        }
        proof {
            assert(crate::solve::mat_view(xs) =~= spec_project(rv, true));
            assert(crate::solve::mat_view(ys) =~= spec_project(rv, false));
            assert forall|a: int| 0 <= a < rv.len() implies crate::solve::row_wf(
                #[trigger] spec_project(rv, true)[a],
            ) && crate::solve::row_wf(spec_project(rv, false)[a]) by {
                assert forall|b: int| 0 <= b < rv[a].len() implies (#[trigger] rv[a][b]).wf() by {}
            }
        }
        let x = Axis { columns: clone_cols(&self.columns), rows: xs };
        let y = Axis { columns: self.columns, rows: ys };
        (x, y)
    }
}

/// One projected component of every pair of every row.
pub open spec fn spec_project(rows: Seq<Seq<Pair>>, first: bool) -> Seq<Seq<Rat>> {
    Seq::new(
        rows.len(),
        |i: int|
            Seq::new(
                rows[i].len(),
                |j: int|
                    if first {
                        rows[i][j].x
                    } else {
                        rows[i][j].y
                    },
            ),
    )
}

/// A rough constraint-count guess: leading value of the last row.
pub open spec fn spec_constraint_size(rows: Seq<Seq<Pair>>) -> Option<u64> {
    if rows.len() == 0 {
        None
    } else if rows.last().len() == 0 {
        None
    } else {
        let t = Rat::spec_trunc(rows.last()[0].x);
        Some((if t < 0 { 0 } else { t }) as u64)
    }
}

/// A single-axis table: the same shape as the paired table, one scalar per
/// cell.
#[derive(Debug)]
pub struct Axis {
    pub columns: Vec<Vec<u8>>,
    pub rows: Vec<Vec<Rat>>,
}

/// Whether `name` spells "velocity".
fn is_velocity(name: &Vec<u8>) -> (r: bool)
    ensures
        r == (name@ == velocity_name()),
{
    if name.len() != 8 {
        proof {
            assert(name@ != velocity_name());
        }
        return false;
    }
    let r = name[0] == 0x76 && name[1] == 0x65 && name[2] == 0x6c && name[3] == 0x6f && name[4]
        == 0x63 && name[5] == 0x69 && name[6] == 0x74 && name[7] == 0x79;
    proof {
        if r {
            assert(name@ =~= velocity_name());
        } else {
            assert(name@ != velocity_name());
        }
    }
    r
}

/// An element-for-element copy of the column names.
fn clone_cols(cols: &Vec<Vec<u8>>) -> (out: Vec<Vec<u8>>)
    ensures
        bytes_view(out) == bytes_view(*cols),
{
    let n = cols.len();
    let mut out: Vec<Vec<u8>> = Vec::new();
    let mut i: usize = 0;
    while i < n
        invariant
            0 <= i <= n,
            n == cols@.len(),
            out@.len() == i,
            forall|k: int| 0 <= k < i ==> (#[trigger] out@[k])@ == cols@[k]@,
        decreases n - i,
    {
        let c = bytes_sub(&cols[i], 0, cols[i].len());
        proof {
            assert(cols@[i as int]@.subrange(0, cols@[i as int]@.len() as int) =~= cols@[
                i as int
            ]@);
        }
        out.push(c);
        i += 1;
    }
    proof {
        assert(bytes_view(out) =~= bytes_view(*cols));
    }
    out
}

} // verus!

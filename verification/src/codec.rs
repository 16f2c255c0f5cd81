use vstd::prelude::*;
use crate::pos::Pos;
use crate::text::chars_to_string;
use crate::text::str_to_chars;

verus! {

// ---------------------------------------------------------------------------
// Textual coordinate codec.
//
// Columns: a positive column is written in bijective base 25 over the letters
// 'A'..='Y' (1-indexed: 'A' is 1, 'Y' is 25, no letter encodes 0). The letter
// 'Z' is reserved as the sign/zero marker: "Z" alone is column 0, and 'Z'
// followed by the positive encoding of a magnitude n is column -n.
//
// Rows: a non-negative row is plain decimal; a negative row is the literal
// prefix 'n' followed by the decimal magnitude (a minus sign would collide
// with subtraction inside formula text).
// ---------------------------------------------------------------------------

/// A letter that can appear in the positive part of a column encoding.
pub open spec fn is_col_digit(c: char) -> bool {
    65 <= c as u32 && c as u32 <= 89
}

/// Value of a positive-column letter: 'A' is 1, ..., 'Y' is 25.
pub open spec fn col_digit_val(c: char) -> int {
    c as u32 - 64
}

/// The letter for a positive-column digit value in 1..=25.
pub open spec fn col_digit_char(d: int) -> char {
    ((64 + d) as u8) as char
}

/// Bijective base-25 encoding of a positive column magnitude.
pub open spec fn spec_col_digits(n: int) -> Seq<char>
    decreases n,
{
    if n <= 0 {
        Seq::empty()
    } else if n <= 25 {
        seq![col_digit_char(n)]
    } else {
        spec_col_digits((n - 1) / 25).push(col_digit_char((n - 1) % 25 + 1))
    }
}

pub open spec fn all_col_digits(s: Seq<char>) -> bool {
    forall|i: int| 0 <= i < s.len() ==> is_col_digit(#[trigger] s[i])
}

/// Numeric value of a bijective base-25 digit string.
pub open spec fn spec_col_digits_val(s: Seq<char>) -> int
    decreases s.len(),
{
    if s.len() == 0 {
        0
    } else {
        spec_col_digits_val(s.drop_last()) * 25 + col_digit_val(s.last())
    }
}

/// A decimal digit.
pub open spec fn is_dec_digit(c: char) -> bool {
    48 <= c as u32 && c as u32 <= 57
}

pub open spec fn dec_digit_val(c: char) -> int {
    c as u32 - 48
}

pub open spec fn dec_digit_char(d: int) -> char {
    ((48 + d) as u8) as char
}

/// Decimal encoding of a non-negative row magnitude (no leading zeros;
/// zero itself is "0").
pub open spec fn spec_dec_digits(n: int) -> Seq<char>
    decreases n,
{
    if n <= 9 {
        seq![dec_digit_char(if n <= 0 { 0 } else { n })]
    } else {
        spec_dec_digits(n / 10).push(dec_digit_char(n % 10))
    }
}

pub open spec fn all_dec_digits(s: Seq<char>) -> bool {
    forall|i: int| 0 <= i < s.len() ==> is_dec_digit(#[trigger] s[i])
}

pub open spec fn spec_dec_digits_val(s: Seq<char>) -> int
    decreases s.len(),
{
    if s.len() == 0 {
        0
    } else {
        spec_dec_digits_val(s.drop_last()) * 10 + dec_digit_val(s.last())
    }
}

/// Textual encoding of a column index.
pub open spec fn spec_encode_col(x: int) -> Seq<char> {
    if x > 0 {
        spec_col_digits(x)
    } else if x == 0 {
        seq!['Z']
    } else {
        seq!['Z'] + spec_col_digits(-x)
    }
}

/// Textual decoding of a column index; `None` on malformed text.
pub open spec fn spec_decode_col(s: Seq<char>) -> Option<int> {
    if s.len() == 0 {
        None
    } else if s[0] == 'Z' {
        if s.len() == 1 {
            Some(0)
        } else if all_col_digits(s.subrange(1, s.len() as int)) {
            Some(-spec_col_digits_val(s.subrange(1, s.len() as int)))
        } else {
            None
        }
    } else if all_col_digits(s) {
        Some(spec_col_digits_val(s))
    } else {
        None
    }
}

/// Textual encoding of a row index.
pub open spec fn spec_encode_row(y: int) -> Seq<char> {
    if y >= 0 {
        spec_dec_digits(y)
    } else {
        seq!['n'] + spec_dec_digits(-y)
    }
}

/// Textual decoding of a row index; `None` on malformed text.
pub open spec fn spec_decode_row(s: Seq<char>) -> Option<int> {
    if s.len() == 0 {
        None
    } else if s[0] == 'n' {
        if s.len() > 1 && all_dec_digits(s.subrange(1, s.len() as int)) {
            Some(-spec_dec_digits_val(s.subrange(1, s.len() as int)))
        } else {
            None
        }
    } else if all_dec_digits(s) {
        Some(spec_dec_digits_val(s))
    } else {
        None
    }
}

/// Any letter that can open a column encoding ('A'..='Z').
pub open spec fn is_col_char(c: char) -> bool {
    65 <= c as u32 && c as u32 <= 90
}

/// Length of the leading run of column letters.
pub open spec fn col_run_len(s: Seq<char>) -> int
    decreases s.len(),
{
    if s.len() == 0 || !is_col_char(s[0]) {
        0
    } else {
        1 + col_run_len(s.subrange(1, s.len() as int))
    }
}

/// Textual encoding of a whole position: column text then row text.
pub open spec fn spec_encode_pos(p: Pos) -> Seq<char> {
    spec_encode_col(p.x as int) + spec_encode_row(p.y as int)
}

/// Textual decoding of a whole position: the leading run of column letters is
/// the column text, the rest is the row text; both must decode and land in
/// the representable coordinate range.
pub open spec fn spec_decode_pos(s: Seq<char>) -> Option<Pos> {
    let k = col_run_len(s);
    let c = spec_decode_col(s.subrange(0, k));
    let r = spec_decode_row(s.subrange(k, s.len() as int));
    if c is Some && r is Some && i64::MIN <= c->0 <= i64::MAX && i64::MIN <= r->0 <= i64::MAX {
        Some(Pos { x: c->0 as i64, y: r->0 as i64 })
    } else {
        None
    }
}

// ---------------------------------------------------------------------------
// Round-trip proof.
// ---------------------------------------------------------------------------

proof fn lemma_col_digits_round_trip(n: int)
    requires
        n >= 1,
    ensures
        spec_col_digits(n).len() >= 1,
        all_col_digits(spec_col_digits(n)),
        spec_col_digits_val(spec_col_digits(n)) == n,
    decreases n,
{
    if n <= 25 {
        let s = spec_col_digits(n);
        assert(s =~= seq![col_digit_char(n)]);
        assert(s.drop_last() =~= Seq::<char>::empty());
        assert(col_digit_val(col_digit_char(n)) == n);
        assert(spec_col_digits_val(s.drop_last()) == 0);
        assert(spec_col_digits_val(s) == spec_col_digits_val(s.drop_last()) * 25 + col_digit_val(s.last()));
    } else {
        let q = (n - 1) / 25;
        let r = (n - 1) % 25;
        vstd::arithmetic::div_mod::lemma_fundamental_div_mod(n - 1, 25);
        assert(q >= 1);
        lemma_col_digits_round_trip(q);
        let s = spec_col_digits(q);
        let d = col_digit_char(r + 1);
        assert(spec_col_digits(n) == s.push(d));
        assert(s.push(d).drop_last() =~= s);
        assert(s.push(d).last() == d);
        assert(col_digit_val(d) == r + 1);
        assert(spec_col_digits_val(s.push(d)) == spec_col_digits_val(s) * 25 + col_digit_val(d));
        assert(forall|i: int| 0 <= i < s.push(d).len() ==> is_col_digit(#[trigger] s.push(d)[i]));
    }
}

proof fn lemma_dec_digits_round_trip(n: int)
    requires
        n >= 0,
    ensures
        spec_dec_digits(n).len() >= 1,
        all_dec_digits(spec_dec_digits(n)),
        spec_dec_digits_val(spec_dec_digits(n)) == n,
    decreases n,
{
    if n <= 9 {
        let s = spec_dec_digits(n);
        assert(s =~= seq![dec_digit_char(n)]);
        assert(s.drop_last() =~= Seq::<char>::empty());
        assert(dec_digit_val(dec_digit_char(n)) == n);
        assert(spec_dec_digits_val(s.drop_last()) == 0);
        assert(spec_dec_digits_val(s) == spec_dec_digits_val(s.drop_last()) * 10 + dec_digit_val(s.last()));
    } else {
        let q = n / 10;
        let r = n % 10;
        vstd::arithmetic::div_mod::lemma_fundamental_div_mod(n, 10);
        assert(q >= 1);
        lemma_dec_digits_round_trip(q);
        let s = spec_dec_digits(q);
        let d = dec_digit_char(r);
        assert(spec_dec_digits(n) == s.push(d));
        assert(s.push(d).drop_last() =~= s);
        assert(s.push(d).last() == d);
        assert(spec_dec_digits_val(s.push(d)) == spec_dec_digits_val(s) * 10 + dec_digit_val(d));
        assert(forall|i: int| 0 <= i < s.push(d).len() ==> is_dec_digit(#[trigger] s.push(d)[i]));
    }
}

proof fn lemma_col_run_len_concat(a: Seq<char>, b: Seq<char>)
    requires
        forall|i: int| 0 <= i < a.len() ==> is_col_char(#[trigger] a[i]),
        b.len() > 0,
        !is_col_char(b[0]),
    ensures
        col_run_len(a + b) == a.len(),
    decreases a.len(),
{
    if a.len() == 0 {
        assert(a + b =~= b);
    } else {
        assert((a + b)[0] == a[0]);
        assert((a + b).subrange(1, (a + b).len() as int) =~= a.subrange(1, a.len() as int) + b);
        lemma_col_run_len_concat(a.subrange(1, a.len() as int), b);
    }
}

proof fn lemma_encode_col_round_trip(x: int)
    ensures
        spec_encode_col(x).len() >= 1,
        forall|i: int| 0 <= i < spec_encode_col(x).len() ==> is_col_char(#[trigger] spec_encode_col(x)[i]),
        spec_decode_col(spec_encode_col(x)) == Some(x),
{
    let s = spec_encode_col(x);
    if x > 0 {
        lemma_col_digits_round_trip(x);
        assert(s[0] != 'Z');
        assert(is_col_char(s[0]));
    } else if x == 0 {
        assert(s =~= seq!['Z']);
        assert(s[0] == 'Z');
        assert(is_col_char('Z'));
    } else {
        lemma_col_digits_round_trip(-x);
        let m = spec_col_digits(-x);
        assert(s =~= seq!['Z'] + m);
        assert(s[0] == 'Z');
        assert(s.len() == 1 + m.len());
        assert(s.subrange(1, s.len() as int) =~= m);
        assert(spec_decode_col(s) == Some(-spec_col_digits_val(m)));
        assert(forall|i: int| 0 <= i < s.len() ==> is_col_char(#[trigger] s[i])) by {
            assert(forall|i: int| 1 <= i < s.len() ==> s[i] == m[i - 1]);
        }
    }
}

proof fn lemma_encode_row_round_trip(y: int)
    ensures
        spec_encode_row(y).len() >= 1,
        !is_col_char(spec_encode_row(y)[0]),
        spec_decode_row(spec_encode_row(y)) == Some(y),
{
    let s = spec_encode_row(y);
    if y >= 0 {
        lemma_dec_digits_round_trip(y);
        assert(is_dec_digit(s[0]));
        assert(s[0] != 'n');
    } else {
        lemma_dec_digits_round_trip(-y);
        let m = spec_dec_digits(-y);
        assert(s =~= seq!['n'] + m);
        assert(s[0] == 'n');
        assert(s.subrange(1, s.len() as int) =~= m);
        assert(spec_decode_row(s) == Some(-spec_dec_digits_val(m)));
    }
}

/// Codec round trip: decoding the encoding of any position, including
/// positions with a zero or negative column or row, gives back exactly that
/// position.
pub proof fn lemma_codec_round_trip(p: Pos)
    ensures
        spec_decode_pos(spec_encode_pos(p)) == Some(p),
{
    let a = spec_encode_col(p.x as int);
    let b = spec_encode_row(p.y as int);
    let s = spec_encode_pos(p);
    lemma_encode_col_round_trip(p.x as int);
    lemma_encode_row_round_trip(p.y as int);
    lemma_col_run_len_concat(a, b);
    assert(col_run_len(s) == a.len());
    assert(s.subrange(0, a.len() as int) =~= a);
    assert(s.subrange(a.len() as int, s.len() as int) =~= b);
}

// ---------------------------------------------------------------------------
// Digit-value bounds, used to recognise coordinates that leave the
// representable range while decoding.
// ---------------------------------------------------------------------------

proof fn lemma_col_val_nonneg(s: Seq<char>)
    requires
        all_col_digits(s),
    ensures
        spec_col_digits_val(s) >= 0,
    decreases s.len(),
{
    if s.len() > 0 {
        let t = s.drop_last();
        assert(forall|j: int| 0 <= j < t.len() ==> t[j] == s[j]);
        lemma_col_val_nonneg(t);
        assert(col_digit_val(s.last()) >= 1);
    }
}

proof fn lemma_col_val_prefix(s: Seq<char>, i: int)
    requires
        all_col_digits(s),
        0 <= i <= s.len(),
    ensures
        spec_col_digits_val(s.subrange(0, i)) <= spec_col_digits_val(s),
    decreases s.len(),
{
    if i == s.len() {
        assert(s.subrange(0, i) =~= s);
    } else {
        let t = s.drop_last();
        assert(forall|j: int| 0 <= j < t.len() ==> t[j] == s[j]);
        assert(t.subrange(0, i) =~= s.subrange(0, i));
        lemma_col_val_prefix(t, i);
        lemma_col_val_nonneg(t);
        assert(col_digit_val(s.last()) >= 1);
        assert(spec_col_digits_val(t) <= spec_col_digits_val(t) * 25);
    }
}

pub(crate) proof fn lemma_dec_val_nonneg(s: Seq<char>)
    requires
        all_dec_digits(s),
    ensures
        spec_dec_digits_val(s) >= 0,
    decreases s.len(),
{
    if s.len() > 0 {
        let t = s.drop_last();
        assert(forall|j: int| 0 <= j < t.len() ==> t[j] == s[j]);
        lemma_dec_val_nonneg(t);
        assert(dec_digit_val(s.last()) >= 0);
    }
}

proof fn lemma_dec_val_prefix(s: Seq<char>, i: int)
    requires
        all_dec_digits(s),
        0 <= i <= s.len(),
    ensures
        spec_dec_digits_val(s.subrange(0, i)) <= spec_dec_digits_val(s),
    decreases s.len(),
{
    if i == s.len() {
        assert(s.subrange(0, i) =~= s);
    } else {
        let t = s.drop_last();
        assert(forall|j: int| 0 <= j < t.len() ==> t[j] == s[j]);
        assert(t.subrange(0, i) =~= s.subrange(0, i));
        lemma_dec_val_prefix(t, i);
        lemma_dec_val_nonneg(t);
        assert(dec_digit_val(s.last()) >= 0);
        assert(spec_dec_digits_val(t) <= spec_dec_digits_val(t) * 10);
    }
}

proof fn lemma_col_run_len_at(s: Seq<char>, k: int)
    requires
        0 <= k <= s.len(),
        forall|j: int| 0 <= j < k ==> is_col_char(#[trigger] s[j]),
        k == s.len() || !is_col_char(s[k]),
    ensures
        col_run_len(s) == k,
    decreases s.len(),
{
    if k == 0 {
    } else {
        let t = s.subrange(1, s.len() as int);
        assert(forall|j: int| 0 <= j < k - 1 ==> t[j] == s[j + 1]);
        lemma_col_run_len_at(t, k - 1);
    }
}

// ---------------------------------------------------------------------------
// Executable encoding.
// ---------------------------------------------------------------------------

fn push_col_digits(out: &mut Vec<char>, m: u64)
    requires
        m >= 1,
    ensures
        final(out)@ == old(out)@ + spec_col_digits(m as int),
    decreases m,
{
    if m <= 25 {
        let c: char = ((m as u8) + 64) as char;
        assert(c == col_digit_char(m as int));
        out.push(c);
        proof {
            assert(out@ =~= old(out)@ + spec_col_digits(m as int));
        }
    } else {
        push_col_digits(out, (m - 1) / 25);
        let c: char = ((((m - 1) % 25) as u8) + 65) as char;
        assert(c == col_digit_char((m - 1) as int % 25 + 1));
        out.push(c);
        proof {
            assert((m - 1) as int / 25 == (m as int - 1) / 25);
            assert((m - 1) as int % 25 == (m as int - 1) % 25);
            assert(out@ =~= old(out)@ + spec_col_digits(m as int));
        }
    }
}

pub(crate) fn push_dec_digits(out: &mut Vec<char>, m: u64)
    ensures
        final(out)@ == old(out)@ + spec_dec_digits(m as int),
    decreases m,
{
    if m <= 9 {
        let c: char = ((m as u8) + 48) as char;
        assert(c == dec_digit_char(if m as int <= 0 { 0int } else { m as int }));
        out.push(c);
        proof {
            assert(out@ =~= old(out)@ + spec_dec_digits(m as int));
        }
    } else {
        push_dec_digits(out, m / 10);
        let c: char = (((m % 10) as u8) + 48) as char;
        assert(c == dec_digit_char(m as int % 10));
        out.push(c);
        proof {
            assert(m as int / 10 == (m / 10) as int);
            assert(out@ =~= old(out)@ + spec_dec_digits(m as int));
        }
    }
}

/// Encodes a position into its exact textual form.
pub fn encode_pos(p: Pos) -> (r: String)
    ensures
        r@ == spec_encode_pos(p),
{
    let mut out: Vec<char> = Vec::new();
    if p.x > 0 {
        push_col_digits(&mut out, p.x as u64);
    } else if p.x == 0 {
        out.push('Z');
    } else {
        out.push('Z');
        let m: u64 = (-(p.x as i128)) as u64;
        assert(m as int == -(p.x as int));
        push_col_digits(&mut out, m);
    }
    proof {
        assert(out@ =~= spec_encode_col(p.x as int));
    }
    let ghost col = out@;
    if p.y >= 0 {
        push_dec_digits(&mut out, p.y as u64);
    } else {
        out.push('n');
        let m: u64 = (-(p.y as i128)) as u64;
        assert(m as int == -(p.y as int));
        push_dec_digits(&mut out, m);
        proof {
            assert(out@ =~= col + (seq!['n'] + spec_dec_digits(m as int)));
        }
    }
    proof {
        assert(out@ =~= spec_encode_pos(p));
    }
    chars_to_string(&out)
}

// ---------------------------------------------------------------------------
// Executable decoding.
// ---------------------------------------------------------------------------

fn check_col_digits(v: &Vec<char>, lo: usize, hi: usize) -> (r: bool)
    requires
        lo <= hi <= v.len(),
    ensures
        r == all_col_digits(v@.subrange(lo as int, hi as int)),
{
    let ghost s = v@.subrange(lo as int, hi as int);
    let mut i: usize = lo;
    while i < hi
        invariant
            lo <= i <= hi <= v.len(),
            s == v@.subrange(lo as int, hi as int),
            forall|j: int| lo <= j < i ==> is_col_digit(#[trigger] v@[j]),
        decreases hi - i,
    {
        let c = v[i] as u32;
        if !(65 <= c && c <= 89) {
            assert(s[i - lo] == v@[i as int]);
            return false;
        }
        i += 1;
    }
    proof {
        assert(forall|j: int| 0 <= j < s.len() ==> s[j] == v@[lo + j]);
    }
    true
}

pub(crate) fn check_dec_digits(v: &Vec<char>, lo: usize, hi: usize) -> (r: bool)
    requires
        lo <= hi <= v.len(),
    ensures
        r == all_dec_digits(v@.subrange(lo as int, hi as int)),
{
    let ghost s = v@.subrange(lo as int, hi as int);
    let mut i: usize = lo;
    while i < hi
        invariant
            lo <= i <= hi <= v.len(),
            s == v@.subrange(lo as int, hi as int),
            forall|j: int| lo <= j < i ==> is_dec_digit(#[trigger] v@[j]),
        decreases hi - i,
    {
        let c = v[i] as u32;
        if !(48 <= c && c <= 57) {
            assert(s[i - lo] == v@[i as int]);
            return false;
        }
        i += 1;
    }
    proof {
        assert(forall|j: int| 0 <= j < s.len() ==> s[j] == v@[lo + j]);
    }
    true
}

fn parse_col_digits(v: &Vec<char>, lo: usize, hi: usize) -> (r: Option<u64>)
    requires
        lo <= hi <= v.len(),
        all_col_digits(v@.subrange(lo as int, hi as int)),
    ensures
        ({
            let s = v@.subrange(lo as int, hi as int);
            match r {
                Some(m) => m as int == spec_col_digits_val(s),
                None => spec_col_digits_val(s) > u64::MAX,
            }
        }),
{
    let ghost s = v@.subrange(lo as int, hi as int);
    let mut val: u64 = 0;
    let mut i: usize = lo;
    while i < hi
        invariant
            lo <= i <= hi <= v.len(),
            s == v@.subrange(lo as int, hi as int),
            all_col_digits(s),
            val as int == spec_col_digits_val(v@.subrange(lo as int, i as int)),
        decreases hi - i,
    {
        assert(s[i - lo] == v@[i as int]);
        let d: u64 = v[i] as u32 as u64 - 64;
        let ghost pre = v@.subrange(lo as int, i as int);
        let ghost ext = v@.subrange(lo as int, i + 1);
        proof {
            assert(ext.drop_last() =~= pre);
            assert(ext.last() == v@[i as int]);
            assert(spec_col_digits_val(ext) == spec_col_digits_val(pre) * 25 + col_digit_val(v@[i as int]));
        }
        if val > (u64::MAX - d) / 25 {
            proof {
                assert(val * 25 + d > u64::MAX) by (nonlinear_arith)
                    requires
                        val > (u64::MAX - d) / 25,
                        d <= 25,
                        (u64::MAX - d) / 25 * 25 + (u64::MAX - d) % 25 == u64::MAX - d,
                        0 <= (u64::MAX - d) % 25 < 25,
                {
                }
                assert(forall|j: int| 0 <= j < ext.len() ==> ext[j] == s[j]);
                lemma_col_val_prefix(s, i + 1 - lo);
                assert(s.subrange(0, i + 1 - lo) =~= ext);
                assert(spec_col_digits_val(s) >= spec_col_digits_val(ext));
            }
            return None;
        }
        val = val * 25 + d;
        i += 1;
    }
    proof {
        assert(v@.subrange(lo as int, i as int) =~= s);
    }
    Some(val)
}

pub(crate) fn parse_dec_digits(v: &Vec<char>, lo: usize, hi: usize) -> (r: Option<u64>)
    requires
        lo <= hi <= v.len(),
        all_dec_digits(v@.subrange(lo as int, hi as int)),
    ensures
        ({
            let s = v@.subrange(lo as int, hi as int);
            match r {
                Some(m) => m as int == spec_dec_digits_val(s),
                None => spec_dec_digits_val(s) > u64::MAX,
            }
        }),
{
    let ghost s = v@.subrange(lo as int, hi as int);
    let mut val: u64 = 0;
    let mut i: usize = lo;
    while i < hi
        invariant
            lo <= i <= hi <= v.len(),
            s == v@.subrange(lo as int, hi as int),
            all_dec_digits(s),
            val as int == spec_dec_digits_val(v@.subrange(lo as int, i as int)),
        decreases hi - i,
    {
        assert(s[i - lo] == v@[i as int]);
        let d: u64 = v[i] as u32 as u64 - 48;
        let ghost pre = v@.subrange(lo as int, i as int);
        let ghost ext = v@.subrange(lo as int, i + 1);
        proof {
            assert(ext.drop_last() =~= pre);
            assert(ext.last() == v@[i as int]);
            assert(spec_dec_digits_val(ext) == spec_dec_digits_val(pre) * 10 + dec_digit_val(v@[i as int]));
        }
        if val > (u64::MAX - d) / 10 {
            proof {
                assert(val * 10 + d > u64::MAX) by (nonlinear_arith)
                    requires
                        val > (u64::MAX - d) / 10,
                        d <= 9,
                        (u64::MAX - d) / 10 * 10 + (u64::MAX - d) % 10 == u64::MAX - d,
                        0 <= (u64::MAX - d) % 10 < 10,
                {
                }
                assert(forall|j: int| 0 <= j < ext.len() ==> ext[j] == s[j]);
                lemma_dec_val_prefix(s, i + 1 - lo);
                assert(s.subrange(0, i + 1 - lo) =~= ext);
                assert(spec_dec_digits_val(s) >= spec_dec_digits_val(ext));
            }
            return None;
        }
        val = val * 10 + d;
        i += 1;
    }
    proof {
        assert(v@.subrange(lo as int, i as int) =~= s);
    }
    Some(val)
}

/// Decodes the column text stored at `v[lo..hi]`; `None` when the text is
/// malformed or the column index does not fit the coordinate range.
pub(crate) fn decode_col_chars(v: &Vec<char>, lo: usize, hi: usize) -> (r: Option<i64>)
    requires
        lo <= hi <= v.len(),
    ensures
        ({
            let s = v@.subrange(lo as int, hi as int);
            match r {
                Some(x) => spec_decode_col(s) == Some(x as int),
                None => spec_decode_col(s) is None || !(i64::MIN <= spec_decode_col(s)->0 <= i64::MAX),
            }
        }),
{
    let ghost s = v@.subrange(lo as int, hi as int);
    if lo == hi {
        return None;
    }
    assert(s[0] == v@[lo as int]);
    if v[lo] == 'Z' {
        if hi - lo == 1 {
            assert(spec_decode_col(s) == Some(0int));
            return Some(0);
        }
        proof {
            assert(s.subrange(1, s.len() as int) =~= v@.subrange(lo + 1, hi as int));
        }
        if !check_col_digits(v, lo + 1, hi) {
            return None;
        }
        match parse_col_digits(v, lo + 1, hi) {
            None => {
                proof {
                    lemma_col_val_nonneg(v@.subrange(lo + 1, hi as int));
                }
                None
            },
            Some(m) => {
                if m > 9223372036854775808u64 {
                    None
                } else {
                    let x: i64 = (-(m as i128)) as i64;
                    Some(x)
                }
            },
        }
    } else {
        if !check_col_digits(v, lo, hi) {
            assert(s =~= v@.subrange(lo as int, hi as int));
            return None;
        }
        match parse_col_digits(v, lo, hi) {
            None => None,
            Some(m) => {
                if m > i64::MAX as u64 {
                    None
                } else {
                    Some(m as i64)
                }
            },
        }
    }
}

/// Decodes the row text stored at `v[lo..hi]`; `None` when the text is
/// malformed or the row index does not fit the coordinate range.
pub(crate) fn decode_row_chars(v: &Vec<char>, lo: usize, hi: usize) -> (r: Option<i64>)
    requires
        lo <= hi <= v.len(),
    ensures
        ({
            let s = v@.subrange(lo as int, hi as int);
            match r {
                Some(y) => spec_decode_row(s) == Some(y as int),
                None => spec_decode_row(s) is None || !(i64::MIN <= spec_decode_row(s)->0 <= i64::MAX),
            }
        }),
{
    let ghost s = v@.subrange(lo as int, hi as int);
    if lo == hi {
        return None;
    }
    assert(s[0] == v@[lo as int]);
    if v[lo] == 'n' {
        if hi - lo == 1 {
            return None;
        }
        proof {
            assert(s.subrange(1, s.len() as int) =~= v@.subrange(lo + 1, hi as int));
        }
        if !check_dec_digits(v, lo + 1, hi) {
            return None;
        }
        match parse_dec_digits(v, lo + 1, hi) {
            None => {
                proof {
                    lemma_dec_val_nonneg(v@.subrange(lo + 1, hi as int));
                }
                None
            },
            Some(m) => {
                if m > 9223372036854775808u64 {
                    None
                } else {
                    let y: i64 = (-(m as i128)) as i64;
                    Some(y)
                }
            },
        }
    } else {
        if !check_dec_digits(v, lo, hi) {
            return None;
        }
        match parse_dec_digits(v, lo, hi) {
            None => None,
            Some(m) => {
                if m > i64::MAX as u64 {
                    None
                } else {
                    Some(m as i64)
                }
            },
        }
    }
}

fn col_run_scan(v: &Vec<char>, k: usize) -> (r: usize)
    requires
        k <= v.len(),
        forall|j: int| 0 <= j < k ==> is_col_char(#[trigger] v@[j]),
    ensures
        r == col_run_len(v@),
        r <= v.len(),
    decreases v.len() - k,
{
    if k < v.len() {
        let c = v[k] as u32;
        if 65 <= c && c <= 90 {
            return col_run_scan(v, k + 1);
        }
    }
    proof {
        lemma_col_run_len_at(v@, k as int);
    }
    k
}

/// Decodes a full position from text; the exact inverse of [`encode_pos`].
pub fn decode_pos(s: &str) -> (r: Option<Pos>)
    ensures
        r == spec_decode_pos(s@),
{
    let v = str_to_chars(s);
    let n = v.len();
    let k = col_run_scan(&v, 0);
    let xo = decode_col_chars(&v, 0, k);
    let yo = decode_row_chars(&v, k, n);
    proof {
        assert(v@.subrange(0, k as int) =~= s@.subrange(0, k as int));
        assert(v@.subrange(k as int, n as int) =~= s@.subrange(k as int, s@.len() as int));
    }
    match (xo, yo) {
        (Some(x), Some(y)) => Some(Pos { x, y }),
        _ => None,
    }
}

// ---------------------------------------------------------------------------
// References: one component per axis, resolved against an evaluation
// position.
// ---------------------------------------------------------------------------

/// One axis of a reference. If `is_absolute`, `coord` is the literal
/// coordinate; otherwise `coord` is the offset from the anchor, fixed once at
/// parse time.
#[derive(Debug, Clone, Copy, PartialEq, Eq, Structural)]
pub struct CellRefCoord {
    pub is_absolute: bool,
    pub coord: i64,
}

/// A single-cell reference: a component for the column and one for the row.
#[derive(Debug, Clone, Copy, PartialEq, Eq, Structural)]
pub struct CellRef {
    pub x: CellRefCoord,
    pub y: CellRefCoord,
}

/// The coordinate an axis component points at when evaluated at `at`.
pub open spec fn spec_resolve_axis(c: CellRefCoord, at: int) -> int {
    if c.is_absolute {
        c.coord as int
    } else {
        c.coord + at
    }
}

/// The target of a reference at an evaluation position; `None` when an axis
/// leaves the representable coordinate range.
pub open spec fn spec_resolve(r: CellRef, p: Pos) -> Option<Pos> {
    let x = spec_resolve_axis(r.x, p.x as int);
    let y = spec_resolve_axis(r.y, p.y as int);
    if i64::MIN <= x <= i64::MAX && i64::MIN <= y <= i64::MAX {
        Some(Pos { x: x as i64, y: y as i64 })
    } else {
        None
    }
}

impl CellRef {
    /// Resolves the reference against an evaluation position.
    pub fn resolve(&self, p: Pos) -> (r: Option<Pos>)
        ensures
            r == spec_resolve(*self, p),
    {
        let x = if self.x.is_absolute {
            self.x.coord as i128
        } else {
            self.x.coord as i128 + p.x as i128
        };
        let y = if self.y.is_absolute {
            self.y.coord as i128
        } else {
            self.y.coord as i128 + p.y as i128
        };
        if i64::MIN as i128 <= x && x <= i64::MAX as i128 && i64::MIN as i128 <= y && y
            <= i64::MAX as i128 {
            Some(Pos { x: x as i64, y: y as i64 })
        } else {
            None
        }
    }
}

/// Decodes one textual column component `[$]<col-text>` against the anchor
/// column. A leading `$` marks the component absolute, keeping the decoded
/// literal; without it the component is relative and stores
/// `literal - anchor` once, at decode time. `None` when the text is
/// malformed or either the literal or the offset leaves the coordinate
/// range.
pub fn decode_col_component(text: &str, anchor_col: i64) -> (r: Option<CellRefCoord>)
    ensures
        ({
            let s = text@;
            let is_abs = s.len() > 0 && s[0] == '$';
            let body = if is_abs {
                s.subrange(1, s.len() as int)
            } else {
                s
            };
            match r {
                Some(c) => {
                    &&& spec_decode_col(body) matches Some(lit)
                    &&& c.is_absolute == is_abs
                    &&& (if is_abs {
                        c.coord == spec_decode_col(body)->0
                    } else {
                        c.coord == spec_decode_col(body)->0 - anchor_col
                    })
                },
                None => {
                    ||| spec_decode_col(body) is None
                    ||| !crate::eval::fits_i64(spec_decode_col(body)->0)
                    ||| (!is_abs && !crate::eval::fits_i64(spec_decode_col(body)->0 - anchor_col))
                },
            }
        }),
{
    let v = str_to_chars(text);
    let n = v.len();
    let is_abs = n > 0 && v[0] == '$';
    let lo: usize = if is_abs {
        1
    } else {
        0
    };
    proof {
        if is_abs {
            assert(v@.subrange(1, n as int) =~= text@.subrange(1, text@.len() as int));
        } else {
            assert(v@.subrange(0, n as int) =~= text@);
        }
    }
    match decode_col_chars(&v, lo, n) {
        None => None,
        Some(lit) => {
            if is_abs {
                Some(CellRefCoord { is_absolute: true, coord: lit })
            } else {
                let off: i128 = lit as i128 - anchor_col as i128;
                if off < i64::MIN as i128 || off > i64::MAX as i128 {
                    None
                } else {
                    Some(CellRefCoord { is_absolute: false, coord: off as i64 })
                }
            }
        },
    }
}

/// Decodes one textual row component `[$]<row-text>` against the anchor
/// row, under the same absolute/relative rule as the column component.
pub fn decode_row_component(text: &str, anchor_row: i64) -> (r: Option<CellRefCoord>)
    ensures
        ({
            let s = text@;
            let is_abs = s.len() > 0 && s[0] == '$';
            let body = if is_abs {
                s.subrange(1, s.len() as int)
            } else {
                s
            };
            match r {
                Some(c) => {
                    &&& spec_decode_row(body) matches Some(lit)
                    &&& c.is_absolute == is_abs
                    &&& (if is_abs {
                        c.coord == spec_decode_row(body)->0
                    } else {
                        c.coord == spec_decode_row(body)->0 - anchor_row
                    })
                },
                None => {
                    ||| spec_decode_row(body) is None
                    ||| !crate::eval::fits_i64(spec_decode_row(body)->0)
                    ||| (!is_abs && !crate::eval::fits_i64(spec_decode_row(body)->0 - anchor_row))
                },
            }
        }),
{
    let v = str_to_chars(text);
    let n = v.len();
    let is_abs = n > 0 && v[0] == '$';
    let lo: usize = if is_abs {
        1
    } else {
        0
    };
    proof {
        if is_abs {
            assert(v@.subrange(1, n as int) =~= text@.subrange(1, text@.len() as int));
        } else {
            assert(v@.subrange(0, n as int) =~= text@);
        }
    }
    match decode_row_chars(&v, lo, n) {
        None => None,
        Some(lit) => {
            if is_abs {
                Some(CellRefCoord { is_absolute: true, coord: lit })
            } else {
                let off: i128 = lit as i128 - anchor_row as i128;
                if off < i64::MIN as i128 || off > i64::MAX as i128 {
                    None
                } else {
                    Some(CellRefCoord { is_absolute: false, coord: off as i64 })
                }
            }
        },
    }
}

/// Offset stability: the offset stored in a relative axis is fixed, so the
/// same reference resolved at two evaluation positions yields targets that
/// are each the fixed stored value combined with that position — an absolute
/// axis lands on its literal coordinate at both positions, and a relative
/// axis lands on `stored offset + position` at each, independently of the
/// order in which the two resolutions happen.
pub proof fn lemma_offset_stability(r: CellRef, p1: Pos, p2: Pos)
    ensures
        spec_resolve(r, p1) matches Some(q1) ==> q1.x as int == if r.x.is_absolute {
            r.x.coord as int
        } else {
            r.x.coord + p1.x
        } && q1.y as int == if r.y.is_absolute {
            r.y.coord as int
        } else {
            r.y.coord + p1.y
        },
        spec_resolve(r, p2) matches Some(q2) ==> q2.x as int == if r.x.is_absolute {
            r.x.coord as int
        } else {
            r.x.coord + p2.x
        } && q2.y as int == if r.y.is_absolute {
            r.y.coord as int
        } else {
            r.y.coord + p2.y
        },
{
}

} // verus!

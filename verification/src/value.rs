use vstd::prelude::*;
use crate::codec::all_dec_digits;
use crate::codec::push_dec_digits;
use crate::codec::spec_dec_digits;
use crate::codec::spec_dec_digits_val;
use crate::text::chars_to_string;
use crate::text::str_to_chars;

verus! {

/// A run-time value: the closed set of kinds a formula can produce. Numbers
/// are exact signed 64-bit integers; an operation whose exact result cannot
/// be represented reports an error rather than rounding.
#[derive(Debug, Clone)]
pub enum Value {
    Number(i64),
    Text(String),
    Bool(bool),
    Blank,
}

/// The mathematical model of a [`Value`].
pub enum SpecValue {
    Num(int),
    Text(Seq<char>),
    Bool(bool),
    Blank,
}

impl View for Value {
    type V = SpecValue;

    open spec fn view(&self) -> SpecValue {
        match self {
            Value::Number(n) => SpecValue::Num(*n as int),
            Value::Text(s) => SpecValue::Text(s@),
            Value::Bool(b) => SpecValue::Bool(*b),
            Value::Blank => SpecValue::Blank,
        }
    }
}

/// Canonical text of a number: minimal decimal digits, a leading '-' for
/// negative values, no decimal point.
pub open spec fn spec_fmt_number(n: int) -> Seq<char> {
    if n >= 0 {
        spec_dec_digits(n)
    } else {
        seq!['-'] + spec_dec_digits(-n)
    }
}

/// Canonical text of a value: numbers in minimal decimal form, text as
/// itself, booleans as "TRUE"/"FALSE", blank as the empty string.
pub open spec fn spec_fmt_value(v: SpecValue) -> Seq<char> {
    match v {
        SpecValue::Num(n) => spec_fmt_number(n),
        SpecValue::Text(t) => t,
        SpecValue::Bool(b) => if b {
            seq!['T', 'R', 'U', 'E']
        } else {
            seq!['F', 'A', 'L', 'S', 'E']
        },
        SpecValue::Blank => Seq::empty(),
    }
}

/// The number a text denotes, if any: an optional sign followed by at least
/// one decimal digit, with a value inside the signed 64-bit range.
pub open spec fn spec_text_num(s: Seq<char>) -> Option<int> {
    if s.len() >= 1 && (s[0] == '-' || s[0] == '+') {
        let d = s.subrange(1, s.len() as int);
        if d.len() >= 1 && all_dec_digits(d) {
            let m = spec_dec_digits_val(d);
            let n = if s[0] == '-' {
                -m
            } else {
                m
            };
            if i64::MIN <= n <= i64::MAX {
                Some(n)
            } else {
                None
            }
        } else {
            None
        }
    } else if s.len() >= 1 && all_dec_digits(s) {
        if spec_dec_digits_val(s) <= i64::MAX {
            Some(spec_dec_digits_val(s))
        } else {
            None
        }
    } else {
        None
    }
}

/// Numeric coercion: numbers are themselves, blanks count as zero, text is
/// read as a number when it denotes one, booleans never coerce.
pub open spec fn spec_to_number(v: SpecValue) -> Option<int> {
    match v {
        SpecValue::Num(n) => Some(n),
        SpecValue::Blank => Some(0),
        SpecValue::Text(t) => spec_text_num(t),
        SpecValue::Bool(_) => None,
    }
}

/// Boolean coercion: only booleans coerce.
pub open spec fn spec_to_bool(v: SpecValue) -> Option<bool> {
    match v {
        SpecValue::Bool(b) => Some(b),
        _ => None,
    }
}

/// Formats a number in its canonical text form.
pub fn fmt_number(n: i64) -> (r: String)
    ensures
        r@ == spec_fmt_number(n as int),
{
    let mut out: Vec<char> = Vec::new();
    if n >= 0 {
        push_dec_digits(&mut out, n as u64);
        proof {
            assert(out@ =~= spec_fmt_number(n as int));
        }
    } else {
        out.push('-');
        let m: u64 = (-(n as i128)) as u64;
        assert(m as int == -(n as int));
        push_dec_digits(&mut out, m);
        proof {
            assert(out@ =~= spec_fmt_number(n as int));
        }
    }
    chars_to_string(&out)
}

/// Reads a number from text, as the cell-content and text coercion rules do.
pub fn num_of_str(s: &str) -> (r: Option<i64>)
    ensures
        ({
            match r {
                Some(n) => spec_text_num(s@) == Some(n as int),
                None => spec_text_num(s@) is None,
            }
        }),
{
    let v = str_to_chars(s);
    let n = v.len();
    if n == 0 {
        return None;
    }
    let c0 = v[0];
    let (neg, lo): (bool, usize) = if c0 == '-' {
        (true, 1)
    } else if c0 == '+' {
        (false, 1)
    } else {
        (false, 0)
    };
    if lo >= n {
        return None;
    }
    let ghost d = v@.subrange(lo as int, n as int);
    proof {
        if lo == 0 {
            assert(d =~= s@);
        }
    }
    if !crate::codec::check_dec_digits(&v, lo, n) {
        return None;
    }
    match crate::codec::parse_dec_digits(&v, lo, n) {
        None => {
            proof {
                crate::codec::lemma_dec_val_nonneg(d);
            }
            None
        },
        Some(m) => {
            if neg {
                if m > 9223372036854775808u64 {
                    None
                } else {
                    Some((-(m as i128)) as i64)
                }
            } else {
                if m > i64::MAX as u64 {
                    None
                } else {
                    Some(m as i64)
                }
            }
        },
    }
}

impl Value {
    /// The canonical text of this value, also used by concatenation.
    pub fn to_string(&self) -> (r: String)
        ensures
            r@ == spec_fmt_value(self@),
    {
        match self {
            Value::Number(n) => fmt_number(*n),
            Value::Text(s) => {
                let r = s.clone();
                assert(r@ == s@);
                r
            },
            Value::Bool(b) => {
                if *b {
                    let r = String::from_str("TRUE");
                    proof {
                        reveal_strlit("TRUE");
                        assert(r@ =~= seq!['T', 'R', 'U', 'E']);
                    }
                    r
                } else {
                    let r = String::from_str("FALSE");
                    proof {
                        reveal_strlit("FALSE");
                        assert(r@ =~= seq!['F', 'A', 'L', 'S', 'E']);
                    }
                    r
                }
            },
            Value::Blank => {
                let r = String::new();
                proof {
                    assert(r@ =~= Seq::<char>::empty());
                }
                r
            },
        }
    }

    /// Numeric coercion of this value.
    pub fn to_number(&self) -> (r: Option<i64>)
        ensures
            ({
                match r {
                    Some(n) => spec_to_number(self@) == Some(n as int),
                    None => spec_to_number(self@) is None,
                }
            }),
    {
        match self {
            Value::Number(n) => Some(*n),
            Value::Blank => Some(0),
            Value::Text(s) => num_of_str(s.as_str()),
            Value::Bool(_) => None,
        }
    }

    /// Boolean coercion of this value.
    pub fn to_bool(&self) -> (r: Option<bool>)
        ensures
            r == spec_to_bool(self@),
    {
        match self {
            Value::Bool(b) => Some(*b),
            _ => None,
        }
    }
}

} // verus!

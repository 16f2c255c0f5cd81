use vstd::prelude::*;
use crate::ast::ast_view;
use crate::ast::ast_view_list;
use crate::ast::AstNode;
use crate::ast::BinaryOpKind;
use crate::ast::Formula;
use crate::ast::SpecAst;
use crate::ast::UnaryOpKind;
use crate::codec::decode_col_chars;
use crate::codec::decode_row_chars;
use crate::codec::CellRef;
use crate::codec::CellRefCoord;
use crate::error::FormulaError;
use crate::error::FormulaErrorMsg;
use crate::pos::Pos;
use crate::text::chars_to_string;
use crate::text::str_eq;
use crate::text::str_to_chars;

verus! {

// ---------------------------------------------------------------------------
// Tokens.
//
// Formula text is made of numeric literals, quoted string literals (single
// or double quotes), bare uppercase identifiers, reference tokens
// `[$]<col>[$]<row>`, the operators `+ - * / ^ &`, the comparisons
// `= <> < > <= >=`, parentheses and the comma. Whitespace separates tokens.
// ---------------------------------------------------------------------------

#[derive(Debug)]
enum Token {
    Num(i64),
    Str(String),
    Ident(String),
    CellRef(CellRef),
    Plus,
    Minus,
    Star,
    Slash,
    Caret,
    Amp,
    OpEq,
    OpNe,
    OpLt,
    OpGt,
    OpLe,
    OpGe,
    LParen,
    RParen,
    Comma,
}

/// The mathematical model of a token.
pub enum SpecToken {
    Num(int),
    Str(Seq<char>),
    Ident(Seq<char>),
    CellRef(CellRef),
    Plus,
    Minus,
    Star,
    Slash,
    Caret,
    Amp,
    OpEq,
    OpNe,
    OpLt,
    OpGt,
    OpLe,
    OpGe,
    LParen,
    RParen,
    Comma,
}

spec fn tok_view(t: Token) -> SpecToken {
    match t {
        Token::Num(n) => SpecToken::Num(n as int),
        Token::Str(s) => SpecToken::Str(s@),
        Token::Ident(s) => SpecToken::Ident(s@),
        Token::CellRef(r) => SpecToken::CellRef(r),
        Token::Plus => SpecToken::Plus,
        Token::Minus => SpecToken::Minus,
        Token::Star => SpecToken::Star,
        Token::Slash => SpecToken::Slash,
        Token::Caret => SpecToken::Caret,
        Token::Amp => SpecToken::Amp,
        Token::OpEq => SpecToken::OpEq,
        Token::OpNe => SpecToken::OpNe,
        Token::OpLt => SpecToken::OpLt,
        Token::OpGt => SpecToken::OpGt,
        Token::OpLe => SpecToken::OpLe,
        Token::OpGe => SpecToken::OpGe,
        Token::LParen => SpecToken::LParen,
        Token::RParen => SpecToken::RParen,
        Token::Comma => SpecToken::Comma,
    }
}

spec fn toks_view(s: Seq<Token>) -> Seq<SpecToken>
    decreases s,
{
    if s.len() == 0 {
        Seq::empty()
    } else {
        seq![tok_view(s[0])] + toks_view(s.subrange(1, s.len() as int))
    }
}

proof fn lemma_toks_view(s: Seq<Token>)
    ensures
        toks_view(s).len() == s.len(),
        forall|i: int| 0 <= i < s.len() ==> toks_view(s)[i] == tok_view(s[i]),
    decreases s,
{
    if s.len() > 0 {
        let t = s.subrange(1, s.len() as int);
        lemma_toks_view(t);
        assert forall|i: int| 0 <= i < s.len() implies toks_view(s)[i] == tok_view(s[i]) by {
            if i > 0 {
                assert(t[i - 1] == s[i]);
                assert(toks_view(s)[i] == toks_view(t)[i - 1]);
            }
        }
    }
}

/// End of the run of decimal digits starting at `i`.
pub open spec fn dec_run_end(s: Seq<char>, i: int) -> int
    decreases s.len() - i
        when 0 <= i <= s.len()
{
    if i < s.len() && crate::codec::is_dec_digit(s[i]) {
        dec_run_end(s, i + 1)
    } else {
        i
    }
}

/// End of the run of uppercase letters starting at `i`.
pub open spec fn upper_run_end(s: Seq<char>, i: int) -> int
    decreases s.len() - i
        when 0 <= i <= s.len()
{
    if i < s.len() && crate::codec::is_col_char(s[i]) {
        upper_run_end(s, i + 1)
    } else {
        i
    }
}

/// Position of the first `c` at or after `j`, or the text's length.
pub open spec fn quote_end(s: Seq<char>, j: int, c: char) -> int
    decreases s.len() - j
        when 0 <= j <= s.len()
{
    if j < s.len() && s[j] != c {
        quote_end(s, j + 1, c)
    } else {
        j
    }
}

pub open spec fn is_ws(c: char) -> bool {
    c == ' ' || c == '\t' || c == '\r' || c == '\n'
}

/// The token starting at `i` (not a whitespace position) and the index just
/// past it; `None` when no token fits there. Mirrors the lexical grammar:
/// numbers, quoted strings, references `[$]<col>[$][n]<row>` decoded against
/// the anchor, identifiers, operators.
pub open spec fn spec_next_token(s: Seq<char>, i: int, anchor: Pos) -> Option<(SpecToken, int)> {
    let c = s[i];
    if crate::codec::is_dec_digit(c) {
        let j = dec_run_end(s, i);
        let val = crate::codec::spec_dec_digits_val(s.subrange(i, j));
        if val <= i64::MAX {
            Some((SpecToken::Num(val), j))
        } else {
            None
        }
    } else if c == '\'' || c == '"' {
        let e = quote_end(s, i + 1, c);
        if e >= s.len() {
            None
        } else {
            Some((SpecToken::Str(s.subrange(i + 1, e)), e + 1))
        }
    } else if c == '$' || crate::codec::is_col_char(c) {
        let col_abs = c == '$';
        let i0 = if col_abs {
            i + 1
        } else {
            i
        };
        let j = upper_run_end(s, i0);
        if j == i0 {
            None
        } else {
            let is_ref = col_abs || (j < s.len() && (s[j] == '$' || crate::codec::is_dec_digit(
                s[j],
            ) || (s[j] == 'n' && j + 1 < s.len() && crate::codec::is_dec_digit(s[j + 1]))));
            if !is_ref {
                Some((SpecToken::Ident(s.subrange(i0, j)), j))
            } else {
                let co = crate::codec::spec_decode_col(s.subrange(i0, j));
                if co is None || !crate::eval::fits_i64(co->0) {
                    None
                } else {
                    let row_abs = j < s.len() && s[j] == '$';
                    let k = if row_abs {
                        j + 1
                    } else {
                        j
                    };
                    let t0 = if k < s.len() && s[k] == 'n' {
                        k + 1
                    } else {
                        k
                    };
                    let m = dec_run_end(s, t0);
                    if m == t0 {
                        None
                    } else {
                        let ro = crate::codec::spec_decode_row(s.subrange(k, m));
                        if ro is None || !crate::eval::fits_i64(ro->0) {
                            None
                        } else if !col_abs && !crate::eval::fits_i64(co->0 - anchor.x) {
                            None
                        } else if !row_abs && !crate::eval::fits_i64(ro->0 - anchor.y) {
                            None
                        } else {
                            let cx = CellRefCoord {
                                is_absolute: col_abs,
                                coord: (if col_abs {
                                    co->0
                                } else {
                                    co->0 - anchor.x
                                }) as i64,
                            };
                            let cy = CellRefCoord {
                                is_absolute: row_abs,
                                coord: (if row_abs {
                                    ro->0
                                } else {
                                    ro->0 - anchor.y
                                }) as i64,
                            };
                            Some((SpecToken::CellRef(CellRef { x: cx, y: cy }), m))
                        }
                    }
                }
            }
        }
    } else if c == '+' {
        Some((SpecToken::Plus, i + 1))
    } else if c == '-' {
        Some((SpecToken::Minus, i + 1))
    } else if c == '*' {
        Some((SpecToken::Star, i + 1))
    } else if c == '/' {
        Some((SpecToken::Slash, i + 1))
    } else if c == '^' {
        Some((SpecToken::Caret, i + 1))
    } else if c == '&' {
        Some((SpecToken::Amp, i + 1))
    } else if c == '=' {
        Some((SpecToken::OpEq, i + 1))
    } else if c == '<' {
        if i + 1 < s.len() && s[i + 1] == '=' {
            Some((SpecToken::OpLe, i + 2))
        } else if i + 1 < s.len() && s[i + 1] == '>' {
            Some((SpecToken::OpNe, i + 2))
        } else {
            Some((SpecToken::OpLt, i + 1))
        }
    } else if c == '>' {
        if i + 1 < s.len() && s[i + 1] == '=' {
            Some((SpecToken::OpGe, i + 2))
        } else {
            Some((SpecToken::OpGt, i + 1))
        }
    } else if c == '(' {
        Some((SpecToken::LParen, i + 1))
    } else if c == ')' {
        Some((SpecToken::RParen, i + 1))
    } else if c == ',' {
        Some((SpecToken::Comma, i + 1))
    } else {
        None
    }
}

/// The token stream of the text from `i` on: whitespace separates tokens,
/// and the whole rest must tokenize.
pub open spec fn spec_tokenize_from(s: Seq<char>, i: int, anchor: Pos) -> Option<Seq<SpecToken>>
    decreases s.len() - i
        when 0 <= i <= s.len()
{
    if i >= s.len() {
        Some(Seq::empty())
    } else if is_ws(s[i]) {
        spec_tokenize_from(s, i + 1, anchor)
    } else {
        match spec_next_token(s, i, anchor) {
            None => None,
            Some((tk, j)) => if i < j <= s.len() {
                match spec_tokenize_from(s, j, anchor) {
                    None => None,
                    Some(rest) => Some(seq![tk] + rest),
                }
            } else {
                None
            },
        }
    }
}

spec fn cons_tokens(pre: Seq<SpecToken>, rest: Option<Seq<SpecToken>>) -> Option<Seq<SpecToken>> {
    match rest {
        None => None,
        Some(r) => Some(pre + r),
    }
}

proof fn lemma_tokenize_step(
    s: Seq<char>,
    i: int,
    j: int,
    anchor: Pos,
    tk: SpecToken,
    pre: Seq<SpecToken>,
)
    requires
        0 <= i < s.len(),
        !is_ws(s[i]),
        spec_next_token(s, i, anchor) == Some((tk, j)),
        i < j <= s.len(),
        cons_tokens(pre, spec_tokenize_from(s, i, anchor)) == spec_tokenize_from(s, 0, anchor),
    ensures
        cons_tokens(pre.push(tk), spec_tokenize_from(s, j, anchor)) == spec_tokenize_from(
            s,
            0,
            anchor,
        ),
{
    match spec_tokenize_from(s, j, anchor) {
        None => {
            assert(spec_tokenize_from(s, i, anchor) is None);
        },
        Some(rest) => {
            assert(spec_tokenize_from(s, i, anchor) == Some(seq![tk] + rest));
            assert(pre + (seq![tk] + rest) =~= pre.push(tk) + rest);
        },
    }
}

proof fn lemma_tokenize_fail(s: Seq<char>, i: int, anchor: Pos, pre: Seq<SpecToken>)
    requires
        0 <= i < s.len(),
        !is_ws(s[i]),
        spec_next_token(s, i, anchor) is None,
        cons_tokens(pre, spec_tokenize_from(s, i, anchor)) == spec_tokenize_from(s, 0, anchor),
    ensures
        spec_tokenize_from(s, 0, anchor) is None,
{
}

fn parse_error() -> (r: FormulaError)
    ensures
        r.msg == FormulaErrorMsg::ParseError,
{
    FormulaError::new(FormulaErrorMsg::ParseError)
}

/// Scans the run of decimal digits starting at `i`.
fn scan_digits(v: &Vec<char>, i: usize) -> (r: usize)
    requires
        i <= v.len(),
    ensures
        i <= r <= v.len(),
        crate::codec::all_dec_digits(v@.subrange(i as int, r as int)),
        i < v.len() && crate::codec::is_dec_digit(v@[i as int]) ==> r > i,
        r == dec_run_end(v@, i as int),
    decreases v.len() - i,
{
    if i < v.len() {
        let c = v[i] as u32;
        if 48 <= c && c <= 57 {
            let r = scan_digits(v, i + 1);
            proof {
                let s = v@.subrange(i as int, r as int);
                let t = v@.subrange(i + 1, r as int);
                assert(forall|j: int| 1 <= j < s.len() ==> s[j] == t[j - 1]);
                assert(s[0] == v@[i as int]);
            }
            return r;
        }
    }
    proof {
        assert(v@.subrange(i as int, i as int) =~= Seq::<char>::empty());
    }
    i
}

/// Scans the run of uppercase letters starting at `i`.
fn scan_upper(v: &Vec<char>, i: usize) -> (r: usize)
    requires
        i <= v.len(),
    ensures
        i <= r <= v.len(),
        r == upper_run_end(v@, i as int),
    decreases v.len() - i,
{
    if i < v.len() {
        let c = v[i] as u32;
        if 65 <= c && c <= 90 {
            return scan_upper(v, i + 1);
        }
    }
    i
}

proof fn lemma_toks_view_push(o: Seq<Token>, t: Token)
    ensures
        toks_view(o.push(t)) == toks_view(o).push(tok_view(t)),
{
    lemma_toks_view(o);
    lemma_toks_view(o.push(t));
    assert(toks_view(o.push(t)) =~= toks_view(o).push(tok_view(t)));
}

/// Appends a token whose spec-level reading at `i` is established, carrying
/// the tokenizer's invariant forward to `j`.
fn emit(
    out: &mut Vec<Token>,
    t: Token,
    Ghost(s): Ghost<Seq<char>>,
    Ghost(i): Ghost<int>,
    Ghost(j): Ghost<int>,
    anchor: Pos,
)
    requires
        0 <= i < s.len(),
        !is_ws(s[i]),
        spec_next_token(s, i, anchor) == Some((tok_view(t), j)),
        i < j <= s.len(),
        cons_tokens(toks_view(old(out)@), spec_tokenize_from(s, i, anchor)) == spec_tokenize_from(
            s,
            0,
            anchor,
        ),
    ensures
        cons_tokens(toks_view(final(out)@), spec_tokenize_from(s, j, anchor)) == spec_tokenize_from(
            s,
            0,
            anchor,
        ),
{
    let ghost o0 = out@;
    let ghost tk = tok_view(t);
    out.push(t);
    proof {
        lemma_toks_view_push(o0, t);
        lemma_tokenize_step(s, i, j, anchor, tk, toks_view(o0));
    }
}

fn is_dec_digit_at(v: &Vec<char>, i: usize) -> (r: bool)
    requires
        i < v.len(),
    ensures
        r == crate::codec::is_dec_digit(v@[i as int]),
{
    let c = v[i] as u32;
    48 <= c && c <= 57
}

/// Turns one axis literal into a reference component: an absolute axis keeps
/// the literal, a relative axis stores `literal - anchor` once, for good.
fn make_coord(literal: i64, is_absolute: bool, anchor_axis: i64) -> (r: Result<
    CellRefCoord,
    FormulaError,
>)
    ensures
        match r {
            Ok(c) => c.is_absolute == is_absolute && (if is_absolute {
                c.coord == literal
            } else {
                c.coord == literal - anchor_axis
            }),
            Err(e) => e.msg == FormulaErrorMsg::InvalidReference && !is_absolute && !crate::eval::fits_i64(
                literal - anchor_axis,
            ),
        },
{
    if is_absolute {
        Ok(CellRefCoord { is_absolute: true, coord: literal })
    } else {
        let off: i128 = literal as i128 - anchor_axis as i128;
        if off < i64::MIN as i128 || off > i64::MAX as i128 {
            Err(FormulaError::new(FormulaErrorMsg::InvalidReference))
        } else {
            Ok(CellRefCoord { is_absolute: false, coord: off as i64 })
        }
    }
}

/// Copies `v[lo..hi]` into a fresh string.
fn span_to_string(v: &Vec<char>, lo: usize, hi: usize) -> (r: String)
    requires
        lo <= hi <= v.len(),
    ensures
        r@ == v@.subrange(lo as int, hi as int),
{
    let mut out: Vec<char> = Vec::new();
    let mut i: usize = lo;
    while i < hi
        invariant
            lo <= i <= hi <= v.len(),
            out@ == v@.subrange(lo as int, i as int),
        decreases hi - i,
    {
        out.push(v[i]);
        proof {
            assert(out@ =~= v@.subrange(lo as int, i + 1));
        }
        i += 1;
    }
    chars_to_string(&out)
}

/// Splits formula text into tokens; fails with ParseError on any character
/// sequence that fits no token, and with InvalidReference when a reference
/// token's coordinates cannot be decoded or leave the coordinate range.
/// Reference offsets are computed here, against the anchor.
#[verifier::rlimit(100)]
#[verifier::spinoff_prover]
fn tokenize(v: &Vec<char>, anchor: Pos) -> (r: Result<Vec<Token>, FormulaError>)
    ensures
        match r {
            Ok(ts) => spec_tokenize_from(v@, 0, anchor) == Some(toks_view(ts@)),
            Err(e) => spec_tokenize_from(v@, 0, anchor) is None && (e.msg
                == FormulaErrorMsg::ParseError || e.msg == FormulaErrorMsg::InvalidReference),
        },
{
    let ghost s = v@;
    let mut out: Vec<Token> = Vec::new();
    let mut i: usize = 0;
    proof {
        assert(toks_view(out@) =~= Seq::<SpecToken>::empty());
        match spec_tokenize_from(s, 0, anchor) {
            None => {},
            Some(r0) => {
                assert(Seq::<SpecToken>::empty() + r0 =~= r0);
            },
        }
    }
    while i < v.len()
        invariant
            i <= v.len(),
            s == v@,
            cons_tokens(toks_view(out@), spec_tokenize_from(s, i as int, anchor))
                == spec_tokenize_from(s, 0, anchor),
        decreases v.len() - i,
    {
        let c = v[i];
        let cu = c as u32;
        if c == ' ' || c == '\t' || c == '\r' || c == '\n' {
            i += 1;
        } else if 48 <= cu && cu <= 57 {
            let j = scan_digits(v, i);
            let ghost val = crate::codec::spec_dec_digits_val(s.subrange(i as int, j as int));
            match crate::codec::parse_dec_digits(v, i, j) {
                None => {
                    proof {
                        assert(spec_next_token(s, i as int, anchor) is None);
                        lemma_tokenize_fail(s, i as int, anchor, toks_view(out@));
                    }
                    return Err(parse_error());
                },
                Some(m) => {
                    if m > i64::MAX as u64 {
                        proof {
                            assert(spec_next_token(s, i as int, anchor) is None);
                            lemma_tokenize_fail(s, i as int, anchor, toks_view(out@));
                        }
                        return Err(parse_error());
                    }
                    proof {
                        assert(spec_next_token(s, i as int, anchor) == Some((
                            SpecToken::Num(m as int),
                            j as int,
                        )));
                    }
                    emit(&mut out, Token::Num(m as i64), Ghost(s), Ghost(i as int), Ghost(j as int), anchor);
                    i = j;
                },
            }
        } else if c == '\'' || c == '"' {
            let mut j: usize = i + 1;
            while j < v.len() && v[j] != c
                invariant
                    i + 1 <= j <= v.len(),
                    s == v@,
                    quote_end(s, i + 1, c) == quote_end(s, j as int, c),
                decreases v.len() - j,
            {
                j += 1;
            }
            proof {
                assert(quote_end(s, i + 1, c) == j as int);
            }
            if j >= v.len() {
                proof {
                    assert(spec_next_token(s, i as int, anchor) is None);
                    lemma_tokenize_fail(s, i as int, anchor, toks_view(out@));
                }
                return Err(parse_error());
            }
            let lit = span_to_string(v, i + 1, j);
            proof {
                assert(spec_next_token(s, i as int, anchor) == Some((
                    SpecToken::Str(s.subrange(i + 1, j as int)),
                    j + 1,
                )));
            }
            emit(&mut out, Token::Str(lit), Ghost(s), Ghost(i as int), Ghost(j + 1), anchor);
            i = j + 1;
        } else if c == '$' || (65 <= cu && cu <= 90) {
            let col_abs = c == '$';
            let i0: usize = if col_abs {
                i + 1
            } else {
                i
            };
            let j = scan_upper(v, i0);
            if j == i0 {
                proof {
                    assert(spec_next_token(s, i as int, anchor) is None);
                    lemma_tokenize_fail(s, i as int, anchor, toks_view(out@));
                }
                return Err(parse_error());
            }
            let mut is_ref = col_abs;
            if j < v.len() {
                let d = v[j];
                if d == '$' || is_dec_digit_at(v, j) {
                    is_ref = true;
                } else if d == 'n' && j + 1 < v.len() && is_dec_digit_at(v, j + 1) {
                    is_ref = true;
                }
            }
            proof {
                assert(is_ref == (col_abs || (j < s.len() && (s[j as int] == '$'
                    || crate::codec::is_dec_digit(s[j as int]) || (s[j as int] == 'n' && j + 1
                    < s.len() && crate::codec::is_dec_digit(s[j + 1]))))));
            }
            if !is_ref {
                let name = span_to_string(v, i0, j);
                proof {
                    assert(spec_next_token(s, i as int, anchor) == Some((
                        SpecToken::Ident(s.subrange(i0 as int, j as int)),
                        j as int,
                    )));
                }
                emit(&mut out, Token::Ident(name), Ghost(s), Ghost(i as int), Ghost(j as int), anchor);
                i = j;
            } else {
                let col_lit = match decode_col_chars(v, i0, j) {
                    None => {
                        proof {
                            assert(spec_next_token(s, i as int, anchor) is None);
                            lemma_tokenize_fail(s, i as int, anchor, toks_view(out@));
                        }
                        return Err(FormulaError::new(FormulaErrorMsg::InvalidReference));
                    },
                    Some(x) => x,
                };
                let mut k: usize = j;
                let mut row_abs = false;
                if k < v.len() && v[k] == '$' {
                    row_abs = true;
                    k += 1;
                }
                let t0: usize = if k < v.len() && v[k] == 'n' {
                    k + 1
                } else {
                    k
                };
                let m = scan_digits(v, t0);
                if m == t0 {
                    proof {
                        assert(spec_next_token(s, i as int, anchor) is None);
                        lemma_tokenize_fail(s, i as int, anchor, toks_view(out@));
                    }
                    return Err(parse_error());
                }
                let row_lit = match decode_row_chars(v, k, m) {
                    None => {
                        proof {
                            assert(spec_next_token(s, i as int, anchor) is None);
                            lemma_tokenize_fail(s, i as int, anchor, toks_view(out@));
                        }
                        return Err(FormulaError::new(FormulaErrorMsg::InvalidReference));
                    },
                    Some(y) => y,
                };
                let cx = match make_coord(col_lit, col_abs, anchor.x) {
                    Err(e) => {
                        proof {
                            assert(spec_next_token(s, i as int, anchor) is None);
                            lemma_tokenize_fail(s, i as int, anchor, toks_view(out@));
                        }
                        return Err(e);
                    },
                    Ok(cc) => cc,
                };
                let cy = match make_coord(row_lit, row_abs, anchor.y) {
                    Err(e) => {
                        proof {
                            assert(spec_next_token(s, i as int, anchor) is None);
                            lemma_tokenize_fail(s, i as int, anchor, toks_view(out@));
                        }
                        return Err(e);
                    },
                    Ok(cc) => cc,
                };
                proof {
                    assert(spec_next_token(s, i as int, anchor) == Some((
                        SpecToken::CellRef(CellRef { x: cx, y: cy }),
                        m as int,
                    )));
                }
                emit(&mut out, Token::CellRef(CellRef { x: cx, y: cy }), Ghost(s), Ghost(i as int), Ghost(m as int), anchor);
                i = m;
            }
        } else if c == '+' {
            assert(spec_next_token(s, i as int, anchor) == Some((SpecToken::Plus, i + 1)));
            emit(&mut out, Token::Plus, Ghost(s), Ghost(i as int), Ghost(i + 1), anchor);
            i += 1;
        } else if c == '-' {
            assert(spec_next_token(s, i as int, anchor) == Some((SpecToken::Minus, i + 1)));
            emit(&mut out, Token::Minus, Ghost(s), Ghost(i as int), Ghost(i + 1), anchor);
            i += 1;
        } else if c == '*' {
            assert(spec_next_token(s, i as int, anchor) == Some((SpecToken::Star, i + 1)));
            emit(&mut out, Token::Star, Ghost(s), Ghost(i as int), Ghost(i + 1), anchor);
            i += 1;
        } else if c == '/' {
            assert(spec_next_token(s, i as int, anchor) == Some((SpecToken::Slash, i + 1)));
            emit(&mut out, Token::Slash, Ghost(s), Ghost(i as int), Ghost(i + 1), anchor);
            i += 1;
        } else if c == '^' {
            assert(spec_next_token(s, i as int, anchor) == Some((SpecToken::Caret, i + 1)));
            emit(&mut out, Token::Caret, Ghost(s), Ghost(i as int), Ghost(i + 1), anchor);
            i += 1;
        } else if c == '&' {
            assert(spec_next_token(s, i as int, anchor) == Some((SpecToken::Amp, i + 1)));
            emit(&mut out, Token::Amp, Ghost(s), Ghost(i as int), Ghost(i + 1), anchor);
            i += 1;
        } else if c == '=' {
            assert(spec_next_token(s, i as int, anchor) == Some((SpecToken::OpEq, i + 1)));
            emit(&mut out, Token::OpEq, Ghost(s), Ghost(i as int), Ghost(i + 1), anchor);
            i += 1;
        } else if c == '<' {
            if i + 1 < v.len() && v[i + 1] == '=' {
                assert(spec_next_token(s, i as int, anchor) == Some((SpecToken::OpLe, i + 2)));
                emit(&mut out, Token::OpLe, Ghost(s), Ghost(i as int), Ghost(i + 2), anchor);
                i += 2;
            } else if i + 1 < v.len() && v[i + 1] == '>' {
                assert(spec_next_token(s, i as int, anchor) == Some((SpecToken::OpNe, i + 2)));
                emit(&mut out, Token::OpNe, Ghost(s), Ghost(i as int), Ghost(i + 2), anchor);
                i += 2;
            } else {
                assert(spec_next_token(s, i as int, anchor) == Some((SpecToken::OpLt, i + 1)));
                emit(&mut out, Token::OpLt, Ghost(s), Ghost(i as int), Ghost(i + 1), anchor);
                i += 1;
            }
        } else if c == '>' {
            if i + 1 < v.len() && v[i + 1] == '=' {
                assert(spec_next_token(s, i as int, anchor) == Some((SpecToken::OpGe, i + 2)));
                emit(&mut out, Token::OpGe, Ghost(s), Ghost(i as int), Ghost(i + 2), anchor);
                i += 2;
            } else {
                assert(spec_next_token(s, i as int, anchor) == Some((SpecToken::OpGt, i + 1)));
                emit(&mut out, Token::OpGt, Ghost(s), Ghost(i as int), Ghost(i + 1), anchor);
                i += 1;
            }
        } else if c == '(' {
            assert(spec_next_token(s, i as int, anchor) == Some((SpecToken::LParen, i + 1)));
            emit(&mut out, Token::LParen, Ghost(s), Ghost(i as int), Ghost(i + 1), anchor);
            i += 1;
        } else if c == ')' {
            assert(spec_next_token(s, i as int, anchor) == Some((SpecToken::RParen, i + 1)));
            emit(&mut out, Token::RParen, Ghost(s), Ghost(i as int), Ghost(i + 1), anchor);
            i += 1;
        } else if c == ',' {
            assert(spec_next_token(s, i as int, anchor) == Some((SpecToken::Comma, i + 1)));
            emit(&mut out, Token::Comma, Ghost(s), Ghost(i as int), Ghost(i + 1), anchor);
            i += 1;
        } else {
            proof {
                assert(spec_next_token(s, i as int, anchor) is None);
                lemma_tokenize_fail(s, i as int, anchor, toks_view(out@));
            }
            return Err(parse_error());
        }
    }
    proof {
        assert(spec_tokenize_from(s, i as int, anchor) == Some(Seq::<SpecToken>::empty()));
        assert(toks_view(out@) + Seq::<SpecToken>::empty() =~= toks_view(out@));
    }
    Ok(out)
}

// ---------------------------------------------------------------------------
// Recursive-descent parsing, one function per precedence level, loosest
// first: comparisons, concatenation, additive, multiplicative,
// exponentiation (right-associative), prefix sign, atoms. Each level has a
// spec twin over the token models, and each executable function is proved
// to return exactly its twin's tree and end position.
// ---------------------------------------------------------------------------

pub open spec fn cmp_op_of(t: SpecToken) -> Option<BinaryOpKind> {
    match t {
        SpecToken::OpEq => Some(BinaryOpKind::CmpEq),
        SpecToken::OpNe => Some(BinaryOpKind::CmpNe),
        SpecToken::OpLt => Some(BinaryOpKind::CmpLt),
        SpecToken::OpGt => Some(BinaryOpKind::CmpGt),
        SpecToken::OpLe => Some(BinaryOpKind::CmpLe),
        SpecToken::OpGe => Some(BinaryOpKind::CmpGe),
        _ => None,
    }
}

pub open spec fn addsub_op_of(t: SpecToken) -> Option<BinaryOpKind> {
    match t {
        SpecToken::Plus => Some(BinaryOpKind::Add),
        SpecToken::Minus => Some(BinaryOpKind::Sub),
        _ => None,
    }
}

pub open spec fn muldiv_op_of(t: SpecToken) -> Option<BinaryOpKind> {
    match t {
        SpecToken::Star => Some(BinaryOpKind::Mul),
        SpecToken::Slash => Some(BinaryOpKind::Div),
        _ => None,
    }
}

pub open spec fn sign_of(t: SpecToken) -> Option<UnaryOpKind> {
    match t {
        SpecToken::Plus => Some(UnaryOpKind::Plus),
        SpecToken::Minus => Some(UnaryOpKind::Neg),
        _ => None,
    }
}

/// Comparison level, the loosest: a left-associative chain.
pub open spec fn spec_parse_cmp(ts: Seq<SpecToken>, i: int) -> Option<(SpecAst, int)>
    decreases ts.len() - i, 12int
        when 0 <= i <= ts.len()
{
    match spec_parse_concat(ts, i) {
        None => None,
        Some((a, j)) => if i < j <= ts.len() {
            spec_cmp_chain(ts, j, a)
        } else {
            None
        },
    }
}

pub open spec fn spec_cmp_chain(ts: Seq<SpecToken>, j: int, acc: SpecAst) -> Option<(SpecAst, int)>
    decreases ts.len() - j, 13int
        when 0 <= j <= ts.len()
{
    if j < ts.len() && cmp_op_of(ts[j]) is Some {
        match spec_parse_concat(ts, j + 1) {
            None => None,
            Some((b, j2)) => if j < j2 <= ts.len() {
                spec_cmp_chain(ts, j2, SpecAst::Binary(cmp_op_of(ts[j])->0, seq![acc, b]))
            } else {
                None
            },
        }
    } else {
        Some((acc, j))
    }
}

pub open spec fn spec_parse_concat(ts: Seq<SpecToken>, i: int) -> Option<(SpecAst, int)>
    decreases ts.len() - i, 10int
        when 0 <= i <= ts.len()
{
    match spec_parse_addsub(ts, i) {
        None => None,
        Some((a, j)) => if i < j <= ts.len() {
            spec_concat_chain(ts, j, a)
        } else {
            None
        },
    }
}

pub open spec fn spec_concat_chain(ts: Seq<SpecToken>, j: int, acc: SpecAst) -> Option<
    (SpecAst, int),
>
    decreases ts.len() - j, 11int
        when 0 <= j <= ts.len()
{
    if j < ts.len() && ts[j] is Amp {
        match spec_parse_addsub(ts, j + 1) {
            None => None,
            Some((b, j2)) => if j < j2 <= ts.len() {
                spec_concat_chain(ts, j2, SpecAst::Binary(BinaryOpKind::Concat, seq![acc, b]))
            } else {
                None
            },
        }
    } else {
        Some((acc, j))
    }
}

pub open spec fn spec_parse_addsub(ts: Seq<SpecToken>, i: int) -> Option<(SpecAst, int)>
    decreases ts.len() - i, 8int
        when 0 <= i <= ts.len()
{
    match spec_parse_muldiv(ts, i) {
        None => None,
        Some((a, j)) => if i < j <= ts.len() {
            spec_addsub_chain(ts, j, a)
        } else {
            None
        },
    }
}

pub open spec fn spec_addsub_chain(ts: Seq<SpecToken>, j: int, acc: SpecAst) -> Option<
    (SpecAst, int),
>
    decreases ts.len() - j, 9int
        when 0 <= j <= ts.len()
{
    if j < ts.len() && addsub_op_of(ts[j]) is Some {
        match spec_parse_muldiv(ts, j + 1) {
            None => None,
            Some((b, j2)) => if j < j2 <= ts.len() {
                spec_addsub_chain(ts, j2, SpecAst::Binary(addsub_op_of(ts[j])->0, seq![acc, b]))
            } else {
                None
            },
        }
    } else {
        Some((acc, j))
    }
}

pub open spec fn spec_parse_muldiv(ts: Seq<SpecToken>, i: int) -> Option<(SpecAst, int)>
    decreases ts.len() - i, 6int
        when 0 <= i <= ts.len()
{
    match spec_parse_pow(ts, i) {
        None => None,
        Some((a, j)) => if i < j <= ts.len() {
            spec_muldiv_chain(ts, j, a)
        } else {
            None
        },
    }
}

pub open spec fn spec_muldiv_chain(ts: Seq<SpecToken>, j: int, acc: SpecAst) -> Option<
    (SpecAst, int),
>
    decreases ts.len() - j, 7int
        when 0 <= j <= ts.len()
{
    if j < ts.len() && muldiv_op_of(ts[j]) is Some {
        match spec_parse_pow(ts, j + 1) {
            None => None,
            Some((b, j2)) => if j < j2 <= ts.len() {
                spec_muldiv_chain(ts, j2, SpecAst::Binary(muldiv_op_of(ts[j])->0, seq![acc, b]))
            } else {
                None
            },
        }
    } else {
        Some((acc, j))
    }
}

/// Exponentiation is right-associative: `a^b^c` reads as `a^(b^c)`.
pub open spec fn spec_parse_pow(ts: Seq<SpecToken>, i: int) -> Option<(SpecAst, int)>
    decreases ts.len() - i, 4int
        when 0 <= i <= ts.len()
{
    match spec_parse_unary(ts, i) {
        None => None,
        Some((base, j)) => if i < j <= ts.len() {
            if j < ts.len() && ts[j] is Caret {
                match spec_parse_pow(ts, j + 1) {
                    None => None,
                    Some((e, j2)) => Some(
                        (SpecAst::Binary(BinaryOpKind::Pow, seq![base, e]), j2),
                    ),
                }
            } else {
                Some((base, j))
            }
        } else {
            None
        },
    }
}

/// A prefix sign binds to its immediate operand, before exponentiation
/// takes that operand as a base: `-2^2` reads as `(-2)^2`.
pub open spec fn spec_parse_unary(ts: Seq<SpecToken>, i: int) -> Option<(SpecAst, int)>
    decreases ts.len() - i, 2int
        when 0 <= i <= ts.len()
{
    if i >= ts.len() {
        None
    } else {
        match sign_of(ts[i]) {
            Some(k) => match spec_parse_unary(ts, i + 1) {
                None => None,
                Some((a, j)) => Some((SpecAst::Unary(k, seq![a]), j)),
            },
            None => spec_parse_atom(ts, i),
        }
    }
}

pub open spec fn spec_parse_atom(ts: Seq<SpecToken>, i: int) -> Option<(SpecAst, int)>
    decreases ts.len() - i, 0int
        when 0 <= i <= ts.len()
{
    if i >= ts.len() {
        None
    } else {
        match ts[i] {
            SpecToken::Num(n) => Some((SpecAst::Num(n), i + 1)),
            SpecToken::Str(s0) => Some((SpecAst::Text(s0), i + 1)),
            SpecToken::CellRef(r) => Some((SpecAst::CellRef(r), i + 1)),
            SpecToken::LParen => match spec_parse_cmp(ts, i + 1) {
                None => None,
                Some((a, j)) => if j < ts.len() && ts[j] is RParen {
                    Some((a, j + 1))
                } else {
                    None
                },
            },
            SpecToken::Ident(nm) => if !(i + 1 < ts.len() && ts[i + 1] is LParen) {
                if nm == seq!['T', 'R', 'U', 'E'] {
                    Some((SpecAst::Bool(true), i + 1))
                } else if nm == seq!['F', 'A', 'L', 'S', 'E'] {
                    Some((SpecAst::Bool(false), i + 1))
                } else {
                    None
                }
            } else if i + 2 < ts.len() && ts[i + 2] is RParen {
                Some((SpecAst::FuncCall(nm, Seq::empty()), i + 3))
            } else {
                spec_args_chain(ts, i + 2, nm, Seq::empty())
            },
            _ => None,
        }
    }
}

pub open spec fn spec_args_chain(
    ts: Seq<SpecToken>,
    j: int,
    nm: Seq<char>,
    acc: Seq<SpecAst>,
) -> Option<(SpecAst, int)>
    decreases ts.len() - j, 14int
        when 0 <= j <= ts.len()
{
    match spec_parse_cmp(ts, j) {
        None => None,
        Some((a, j2)) => if !(j < j2 <= ts.len()) {
            None
        } else if j2 < ts.len() && ts[j2] is Comma {
            spec_args_chain(ts, j2 + 1, nm, acc.push(a))
        } else if j2 < ts.len() && ts[j2] is RParen {
            Some((SpecAst::FuncCall(nm, acc.push(a)), j2 + 1))
        } else {
            None
        },
    }
}

/// The model of the whole parse: the text's token stream, read through the
/// precedence levels, consumed completely.
pub open spec fn spec_parse_formula(text: Seq<char>, anchor: Pos) -> Option<SpecAst> {
    match spec_tokenize_from(text, 0, anchor) {
        None => None,
        Some(ts) => match spec_parse_cmp(ts, 0) {
            None => None,
            Some((a, j)) => if j == ts.len() {
                Some(a)
            } else {
                None
            },
        },
    }
}

fn parse_cmp(t: &Vec<Token>, i: usize) -> (r: Result<(AstNode, usize), FormulaError>)
    requires
        i <= t@.len(),
    ensures
        r matches Ok(p) ==> i < p.1 <= t@.len(),
        (match r {
            Ok(p) => spec_parse_cmp(toks_view(t@), i as int) == Some((ast_view(p.0), p.1 as int)),
            Err(_) => spec_parse_cmp(toks_view(t@), i as int) is None,
        }),
        r matches Err(e) ==> e.msg == FormulaErrorMsg::ParseError || e.msg
            == FormulaErrorMsg::InvalidReference,
    decreases t@.len() - i, 7int,
{
    let ghost tv = toks_view(t@);
    proof {
        lemma_toks_view(t@);
    }
    let (mut node, mut j) = match parse_concat(t, i) {
        Err(e) => {
            return Err(e);
        },
        Ok(p) => p,
    };
    let mut done: bool = false;
    while !done
        invariant
            i < j <= t@.len(),
            tv == toks_view(t@),
            tv.len() == t@.len(),
            forall|q: int| 0 <= q < t@.len() ==> tv[q] == tok_view(t@[q]),
            spec_parse_cmp(tv, i as int) == spec_cmp_chain(tv, j as int, ast_view(node)),
            done ==> !(j < t@.len() && cmp_op_of(tv[j as int]) is Some),
        decreases t@.len() - j + (if done {
            0int
        } else {
            1int
        }),
    {
        let op: Option<BinaryOpKind> = if j < t.len() {
            match &t[j] {
                Token::OpEq => Some(BinaryOpKind::CmpEq),
                Token::OpNe => Some(BinaryOpKind::CmpNe),
                Token::OpLt => Some(BinaryOpKind::CmpLt),
                Token::OpGt => Some(BinaryOpKind::CmpGt),
                Token::OpLe => Some(BinaryOpKind::CmpLe),
                Token::OpGe => Some(BinaryOpKind::CmpGe),
                _ => None,
            }
        } else {
            None
        };
        match op {
            None => {
                done = true;
            },
            Some(k) => {
                proof {
                    assert(cmp_op_of(tv[j as int]) == Some(k));
                }
                let (rhs, j2) = match parse_concat(t, j + 1) {
                    Err(e) => {
                        return Err(e);
                    },
                    Ok(p) => p,
                };
                node = AstNode::Binary(k, Box::new(node), Box::new(rhs));
                j = j2;
            },
        }
    }
    Ok((node, j))
}

fn parse_concat(t: &Vec<Token>, i: usize) -> (r: Result<(AstNode, usize), FormulaError>)
    requires
        i <= t@.len(),
    ensures
        r matches Ok(p) ==> i < p.1 <= t@.len(),
        (match r {
            Ok(p) => spec_parse_concat(toks_view(t@), i as int) == Some(
                (ast_view(p.0), p.1 as int),
            ),
            Err(_) => spec_parse_concat(toks_view(t@), i as int) is None,
        }),
        r matches Err(e) ==> e.msg == FormulaErrorMsg::ParseError || e.msg
            == FormulaErrorMsg::InvalidReference,
    decreases t@.len() - i, 6int,
{
    let ghost tv = toks_view(t@);
    proof {
        lemma_toks_view(t@);
    }
    let (mut node, mut j) = match parse_addsub(t, i) {
        Err(e) => {
            return Err(e);
        },
        Ok(p) => p,
    };
    let mut done: bool = false;
    while !done
        invariant
            i < j <= t@.len(),
            tv == toks_view(t@),
            tv.len() == t@.len(),
            forall|q: int| 0 <= q < t@.len() ==> tv[q] == tok_view(t@[q]),
            spec_parse_concat(tv, i as int) == spec_concat_chain(tv, j as int, ast_view(node)),
            done ==> !(j < t@.len() && tv[j as int] is Amp),
        decreases t@.len() - j + (if done {
            0int
        } else {
            1int
        }),
    {
        let found: bool = if j < t.len() {
            match &t[j] {
                Token::Amp => true,
                _ => false,
            }
        } else {
            false
        };
        if !found {
            done = true;
        } else {
            let (rhs, j2) = match parse_addsub(t, j + 1) {
                Err(e) => {
                    return Err(e);
                },
                Ok(p) => p,
            };
            node = AstNode::Binary(BinaryOpKind::Concat, Box::new(node), Box::new(rhs));
            j = j2;
        }
    }
    Ok((node, j))
}

fn parse_addsub(t: &Vec<Token>, i: usize) -> (r: Result<(AstNode, usize), FormulaError>)
    requires
        i <= t@.len(),
    ensures
        r matches Ok(p) ==> i < p.1 <= t@.len(),
        (match r {
            Ok(p) => spec_parse_addsub(toks_view(t@), i as int) == Some(
                (ast_view(p.0), p.1 as int),
            ),
            Err(_) => spec_parse_addsub(toks_view(t@), i as int) is None,
        }),
        r matches Err(e) ==> e.msg == FormulaErrorMsg::ParseError || e.msg
            == FormulaErrorMsg::InvalidReference,
    decreases t@.len() - i, 5int,
{
    let ghost tv = toks_view(t@);
    proof {
        lemma_toks_view(t@);
    }
    let (mut node, mut j) = match parse_muldiv(t, i) {
        Err(e) => {
            return Err(e);
        },
        Ok(p) => p,
    };
    let mut done: bool = false;
    while !done
        invariant
            i < j <= t@.len(),
            tv == toks_view(t@),
            tv.len() == t@.len(),
            forall|q: int| 0 <= q < t@.len() ==> tv[q] == tok_view(t@[q]),
            spec_parse_addsub(tv, i as int) == spec_addsub_chain(tv, j as int, ast_view(node)),
            done ==> !(j < t@.len() && addsub_op_of(tv[j as int]) is Some),
        decreases t@.len() - j + (if done {
            0int
        } else {
            1int
        }),
    {
        let op: Option<BinaryOpKind> = if j < t.len() {
            match &t[j] {
                Token::Plus => Some(BinaryOpKind::Add),
                Token::Minus => Some(BinaryOpKind::Sub),
                _ => None,
            }
        } else {
            None
        };
        match op {
            None => {
                done = true;
            },
            Some(k) => {
                proof {
                    assert(addsub_op_of(tv[j as int]) == Some(k));
                }
                let (rhs, j2) = match parse_muldiv(t, j + 1) {
                    Err(e) => {
                        return Err(e);
                    },
                    Ok(p) => p,
                };
                node = AstNode::Binary(k, Box::new(node), Box::new(rhs));
                j = j2;
            },
        }
    }
    Ok((node, j))
}

fn parse_muldiv(t: &Vec<Token>, i: usize) -> (r: Result<(AstNode, usize), FormulaError>)
    requires
        i <= t@.len(),
    ensures
        r matches Ok(p) ==> i < p.1 <= t@.len(),
        (match r {
            Ok(p) => spec_parse_muldiv(toks_view(t@), i as int) == Some(
                (ast_view(p.0), p.1 as int),
            ),
            Err(_) => spec_parse_muldiv(toks_view(t@), i as int) is None,
        }),
        r matches Err(e) ==> e.msg == FormulaErrorMsg::ParseError || e.msg
            == FormulaErrorMsg::InvalidReference,
    decreases t@.len() - i, 4int,
{
    let ghost tv = toks_view(t@);
    proof {
        lemma_toks_view(t@);
    }
    let (mut node, mut j) = match parse_pow(t, i) {
        Err(e) => {
            return Err(e);
        },
        Ok(p) => p,
    };
    let mut done: bool = false;
    while !done
        invariant
            i < j <= t@.len(),
            tv == toks_view(t@),
            tv.len() == t@.len(),
            forall|q: int| 0 <= q < t@.len() ==> tv[q] == tok_view(t@[q]),
            spec_parse_muldiv(tv, i as int) == spec_muldiv_chain(tv, j as int, ast_view(node)),
            done ==> !(j < t@.len() && muldiv_op_of(tv[j as int]) is Some),
        decreases t@.len() - j + (if done {
            0int
        } else {
            1int
        }),
    {
        let op: Option<BinaryOpKind> = if j < t.len() {
            match &t[j] {
                Token::Star => Some(BinaryOpKind::Mul),
                Token::Slash => Some(BinaryOpKind::Div),
                _ => None,
            }
        } else {
            None
        };
        match op {
            None => {
                done = true;
            },
            Some(k) => {
                proof {
                    assert(muldiv_op_of(tv[j as int]) == Some(k));
                }
                let (rhs, j2) = match parse_pow(t, j + 1) {
                    Err(e) => {
                        return Err(e);
                    },
                    Ok(p) => p,
                };
                node = AstNode::Binary(k, Box::new(node), Box::new(rhs));
                j = j2;
            },
        }
    }
    Ok((node, j))
}

fn parse_pow(t: &Vec<Token>, i: usize) -> (r: Result<(AstNode, usize), FormulaError>)
    requires
        i <= t@.len(),
    ensures
        r matches Ok(p) ==> i < p.1 <= t@.len(),
        (match r {
            Ok(p) => spec_parse_pow(toks_view(t@), i as int) == Some((ast_view(p.0), p.1 as int)),
            Err(_) => spec_parse_pow(toks_view(t@), i as int) is None,
        }),
        r matches Err(e) ==> e.msg == FormulaErrorMsg::ParseError || e.msg
            == FormulaErrorMsg::InvalidReference,
    decreases t@.len() - i, 3int,
{
    let ghost tv = toks_view(t@);
    proof {
        lemma_toks_view(t@);
    }
    let (base, j) = match parse_unary(t, i) {
        Err(e) => {
            return Err(e);
        },
        Ok(p) => p,
    };
    if j < t.len() {
        let caret: bool = match &t[j] {
            Token::Caret => true,
            _ => false,
        };
        if caret {
            proof {
                assert(tv[j as int] is Caret);
            }
            let (exp, j2) = match parse_pow(t, j + 1) {
                Err(e) => {
                    return Err(e);
                },
                Ok(p) => p,
            };
            return Ok((AstNode::Binary(BinaryOpKind::Pow, Box::new(base), Box::new(exp)), j2));
        }
    }
    Ok((base, j))
}

fn parse_unary(t: &Vec<Token>, i: usize) -> (r: Result<(AstNode, usize), FormulaError>)
    requires
        i <= t@.len(),
    ensures
        r matches Ok(p) ==> i < p.1 <= t@.len(),
        (match r {
            Ok(p) => spec_parse_unary(toks_view(t@), i as int) == Some(
                (ast_view(p.0), p.1 as int),
            ),
            Err(_) => spec_parse_unary(toks_view(t@), i as int) is None,
        }),
        r matches Err(e) ==> e.msg == FormulaErrorMsg::ParseError || e.msg
            == FormulaErrorMsg::InvalidReference,
    decreases t@.len() - i, 2int,
{
    let ghost tv = toks_view(t@);
    proof {
        lemma_toks_view(t@);
    }
    if i >= t.len() {
        return Err(parse_error());
    }
    let sign: Option<UnaryOpKind> = match &t[i] {
        Token::Plus => Some(UnaryOpKind::Plus),
        Token::Minus => Some(UnaryOpKind::Neg),
        _ => None,
    };
    match sign {
        Some(k) => {
            proof {
                assert(sign_of(tv[i as int]) == Some(k));
            }
            let (inner, j) = match parse_unary(t, i + 1) {
                Err(e) => {
                    return Err(e);
                },
                Ok(p) => p,
            };
            Ok((AstNode::Unary(k, Box::new(inner)), j))
        },
        None => {
            proof {
                assert(sign_of(tv[i as int]) is None);
            }
            parse_atom(t, i)
        },
    }
}

#[verifier::rlimit(100)]
#[verifier::spinoff_prover]
fn parse_paren(t: &Vec<Token>, i: usize) -> (r: Result<(AstNode, usize), FormulaError>)
    requires
        i < t@.len(),
        toks_view(t@)[i as int] is LParen,
    ensures
        r matches Ok(p) ==> i < p.1 <= t@.len(),
        (match r {
            Ok(p) => spec_parse_atom(toks_view(t@), i as int) == Some((ast_view(p.0), p.1 as int)),
            Err(_) => spec_parse_atom(toks_view(t@), i as int) is None,
        }),
        r matches Err(e) ==> e.msg == FormulaErrorMsg::ParseError || e.msg
            == FormulaErrorMsg::InvalidReference,
    decreases t@.len() - i, 0int,
{
    let ghost tv = toks_view(t@);
    proof {
        lemma_toks_view(t@);
    }
    let tlen = t.len();
    assert(i < tlen);
    let (inner, j) = match parse_cmp(t, i + 1) {
        Err(e) => {
            return Err(e);
        },
        Ok(p) => p,
    };
    if j < t.len() {
        let closed: bool = match &t[j] {
            Token::RParen => true,
            _ => false,
        };
        if closed {
            proof {
                assert(tv[j as int] is RParen);
            }
            return Ok((inner, j + 1));
        }
    }
    Err(parse_error())
}

#[verifier::rlimit(100)]
#[verifier::spinoff_prover]
fn parse_call(t: &Vec<Token>, i: usize, name: &String) -> (r: Result<
    (AstNode, usize),
    FormulaError,
>)
    requires
        i < t@.len(),
        toks_view(t@)[i as int] == SpecToken::Ident(name@),
    ensures
        r matches Ok(p) ==> i < p.1 <= t@.len(),
        (match r {
            Ok(p) => spec_parse_atom(toks_view(t@), i as int) == Some((ast_view(p.0), p.1 as int)),
            Err(_) => spec_parse_atom(toks_view(t@), i as int) is None,
        }),
        r matches Err(e) ==> e.msg == FormulaErrorMsg::ParseError || e.msg
            == FormulaErrorMsg::InvalidReference,
    decreases t@.len() - i, 0int,
{
    let ghost tv = toks_view(t@);
    proof {
        lemma_toks_view(t@);
    }

    let tlen = t.len();
    assert(i < tlen);
    let called: bool = if i + 1 < tlen {
        match &t[i + 1] {
            Token::LParen => true,
            _ => false,
        }
    } else {
        false
    };
    if !called {
        proof {
            reveal_strlit("TRUE");
            reveal_strlit("FALSE");
            assert("TRUE"@ =~= seq!['T', 'R', 'U', 'E']);
            assert("FALSE"@ =~= seq!['F', 'A', 'L', 'S', 'E']);
        }
        if str_eq(name.as_str(), "TRUE") {
            return Ok((AstNode::Bool(true), i + 1));
        }
        if str_eq(name.as_str(), "FALSE") {
            return Ok((AstNode::Bool(false), i + 1));
        }
        return Err(parse_error());
    }
    let mut args: Vec<AstNode> = Vec::new();
    let mut j: usize = i + 2;
    if j < t.len() {
        let empty: bool = match &t[j] {
            Token::RParen => true,
            _ => false,
        };
        if empty {
            proof {
                assert(tv[j as int] is RParen);
                assert(ast_view_list(args@) =~= Seq::<crate::ast::SpecAst>::empty());
            }
            return Ok((AstNode::FuncCall(name.clone(), args), j + 1));
        }
    }
    proof {
        assert(ast_view_list(args@) =~= Seq::<crate::ast::SpecAst>::empty());
    }
    loop
        invariant
            i + 2 <= j <= t@.len(),
            i + 1 < t@.len(),
            tv == toks_view(t@),
            tv.len() == t@.len(),
            forall|q: int| 0 <= q < t@.len() ==> tv[q] == tok_view(t@[q]),
            tv[i as int] == SpecToken::Ident(name@),
            spec_parse_atom(tv, i as int) == spec_args_chain(
                tv,
                j as int,
                name@,
                ast_view_list(args@),
            ),
        decreases t@.len() - j,
    {
        let (arg, j2) = match parse_cmp(t, j) {
            Err(e) => {
                return Err(e);
            },
            Ok(p) => p,
        };
        let ghost args0 = args@;
        let ghost argv = ast_view(arg);
        proof {
            crate::ast::lemma_ast_view_list_push(args0, arg);
        }
        args.push(arg);
        proof {
            assert(ast_view_list(args@) == ast_view_list(args0).push(argv));
            assert(tv[i as int] == SpecToken::Ident(name@));
        }
        if j2 >= t.len() {
            return Err(parse_error());
        }
        let comma: bool = match &t[j2] {
            Token::Comma => true,
            _ => false,
        };
        if comma {
            proof {
                assert(tv[j2 as int] is Comma);
            }
            j = j2 + 1;
        } else {
            let closed: bool = match &t[j2] {
                Token::RParen => true,
                _ => false,
            };
            if closed {
                proof {
                    assert(tv[j2 as int] is RParen);
                    assert(spec_args_chain(tv, j as int, name@, ast_view_list(args0))
                        == Some((
                        SpecAst::FuncCall(name@, ast_view_list(args0).push(argv)),
                        j2 + 1,
                    )));
                }
                return Ok((AstNode::FuncCall(name.clone(), args), j2 + 1));
            }
            return Err(parse_error());
        }
    }
}

#[verifier::rlimit(100)]
#[verifier::spinoff_prover]
fn parse_atom(t: &Vec<Token>, i: usize) -> (r: Result<(AstNode, usize), FormulaError>)
    requires
        i <= t@.len(),
    ensures
        r matches Ok(p) ==> i < p.1 <= t@.len(),
        (match r {
            Ok(p) => spec_parse_atom(toks_view(t@), i as int) == Some((ast_view(p.0), p.1 as int)),
            Err(_) => spec_parse_atom(toks_view(t@), i as int) is None,
        }),
        r matches Err(e) ==> e.msg == FormulaErrorMsg::ParseError || e.msg
            == FormulaErrorMsg::InvalidReference,
    decreases t@.len() - i, 1int,
{
    let ghost tv = toks_view(t@);
    proof {
        lemma_toks_view(t@);
    }
    if i >= t.len() {
        return Err(parse_error());
    }
    match &t[i] {
        Token::Num(n) => Ok((AstNode::Number(*n), i + 1)),
        Token::Str(s) => {
            let lit = s.clone();
            assert(lit@ == s@);
            Ok((AstNode::Text(lit), i + 1))
        },
        Token::CellRef(cr) => Ok((AstNode::CellRef(*cr), i + 1)),
        Token::LParen => {
            proof {
                assert(tv[i as int] is LParen);
            }
            parse_paren(t, i)
        },
        Token::Ident(name) => {
            proof {
                assert(tv[i as int] == SpecToken::Ident(name@));
            }
            parse_call(t, i, name)
        },
        _ => Err(parse_error()),
    }
}

/// Parses formula text against an anchor position into an expression tree.
///
/// The contract is functional: parsing succeeds exactly when the text's
/// token stream reads as one complete expression of the grammar, and the
/// returned tree is exactly the one [`spec_parse_formula`] names — relative
/// reference offsets baked once against `anchor`, operators grouped by the
/// fixed precedence table, `^` right-associative, a prefix sign bound
/// before `^`. Failure is atomic — no partial tree — with ParseError on
/// malformed syntax and InvalidReference when a reference token's
/// coordinates cannot be decoded or leave the coordinate range. Relocating
/// a formula means re-parsing its text at the new anchor.
pub fn parse_formula(text: &str, anchor: Pos) -> (r: Result<Formula, FormulaError>)
    ensures
        r matches Ok(f) ==> spec_parse_formula(text@, anchor) == Some(ast_view(f.ast)),
        r is Ok <==> spec_parse_formula(text@, anchor) is Some,
        r matches Err(e) ==> e.msg == FormulaErrorMsg::ParseError || e.msg
            == FormulaErrorMsg::InvalidReference,
{
    let v = str_to_chars(text);
    let tokens = match tokenize(&v, anchor) {
        Err(e) => {
            return Err(e);
        },
        Ok(ts) => ts,
    };
    proof {
        lemma_toks_view(tokens@);
    }
    let (ast, j) = match parse_cmp(&tokens, 0) {
        Err(e) => {
            return Err(e);
        },
        Ok(p) => p,
    };
    if j != tokens.len() {
        return Err(parse_error());
    }
    Ok(Formula { ast })
}

} // verus!

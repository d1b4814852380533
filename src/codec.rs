//! The sentinel codec: one raw cell of text to a typed, possibly absent
//! value, and back.
//!
//! Numeric and flag cells are read after trimming surrounding whitespace.
//! The tokens `Error` and `NA` mean "not captured": a numeric cell holding
//! one of them is absent, not malformed. A flag cell is `1` or `0`, and any
//! other text leaves it absent.
use vstd::prelude::*;
use vstd::string::*;
use crate::numeric::{
    after_sign, decimal, digit_char, is_digit, is_digit_run, is_exponent_mark, is_float_literal,
    is_float_text, is_mantissa, is_sign, lemma_decimal_value, lemma_parse_decimal, parse_u64,
    parse_uint, push_decimal, same_letter, spells,
};
use crate::text::{is_white, trim, trim_end, trim_start, trim_text};

verus! {

/// How the cells of a column are read.
#[derive(Clone, Copy, Debug, PartialEq, Eq, Structural)]
pub enum ColumnKind {
    /// Copied verbatim.
    Text,
    /// A floating-point measurement, or absent.
    Float,
    /// An unsigned integer, or absent.
    Uint,
    /// A boolean flag, or absent.
    Flag,
}

/// One decoded cell.
///
/// A present floating-point value is held as its literal text, which
/// `f64::from_str` accepts; converting it to a float is left to the caller.
#[derive(Clone, Debug, PartialEq)]
pub enum Cell {
    Text(String),
    Float(Option<String>),
    Uint(Option<u64>),
    Flag(Option<bool>),
}

/// The mathematical value of a [`Cell`].
pub enum CellModel {
    Text(Seq<char>),
    Float(Option<Seq<char>>),
    Uint(Option<u64>),
    Flag(Option<bool>),
}

pub open spec fn opt_text_view(x: Option<String>) -> Option<Seq<char>> {
    match x {
        Some(t) => Some(t@),
        None => None,
    }
}

impl View for Cell {
    type V = CellModel;

    open spec fn view(&self) -> CellModel {
        match self {
            Cell::Text(t) => CellModel::Text(t@),
            Cell::Float(x) => CellModel::Float(opt_text_view(*x)),
            Cell::Uint(x) => CellModel::Uint(*x),
            Cell::Flag(x) => CellModel::Flag(*x),
        }
    }
}

/// A numeric cell whose text is neither a sentinel nor a number of its kind.
#[derive(Clone, Copy, Debug, PartialEq, Eq, Structural)]
pub struct MalformedNumber {
    pub kind: ColumnKind,
}

pub open spec fn error_token() -> Seq<char> {
    seq!['E', 'r', 'r', 'o', 'r']
}

pub open spec fn na_token() -> Seq<char> {
    seq!['N', 'A']
}

/// The tokens that mean "not captured for this row".
pub open spec fn is_sentinel(t: Seq<char>) -> bool {
    t == error_token() || t == na_token()
}

/// What a cell of kind `kind` holding `s` decodes to; `None` where the text
/// is malformed.
pub open spec fn decode_spec(kind: ColumnKind, s: Seq<char>) -> Option<CellModel> {
    let t = trim(s);
    match kind {
        ColumnKind::Text => Some(CellModel::Text(s)),
        ColumnKind::Float => if is_sentinel(t) {
            Some(CellModel::Float(None))
        } else if is_float_literal(t) {
            Some(CellModel::Float(Some(t)))
        } else {
            None
        },
        ColumnKind::Uint => if is_sentinel(t) {
            Some(CellModel::Uint(None))
        } else {
            match parse_uint(t) {
                Some(n) => Some(CellModel::Uint(Some(n))),
                None => None,
            }
        },
        ColumnKind::Flag => Some(
            CellModel::Flag(
                if t == seq!['1'] {
                    Some(true)
                } else if t == seq!['0'] {
                    Some(false)
                } else {
                    None
                },
            ),
        ),
    }
}

/// The text that a cell is written back as: a value as it reads, an absent
/// value as `NA`.
pub open spec fn encode_spec(c: CellModel) -> Seq<char> {
    match c {
        CellModel::Text(t) => t,
        CellModel::Float(Some(t)) => t,
        CellModel::Uint(Some(n)) => decimal(n as nat),
        CellModel::Flag(Some(b)) => if b {
            seq!['1']
        } else {
            seq!['0']
        },
        _ => na_token(),
    }
}

/// A cell that a column of kind `kind` can hold.
pub open spec fn cell_wf(kind: ColumnKind, c: CellModel) -> bool {
    match c {
        CellModel::Text(_) => kind == ColumnKind::Text,
        CellModel::Float(x) => kind == ColumnKind::Float && match x {
            Some(t) => is_float_literal(t) && !is_sentinel(t),
            None => true,
        },
        CellModel::Uint(_) => kind == ColumnKind::Uint,
        CellModel::Flag(_) => kind == ColumnKind::Flag,
    }
}

fn is_sentinel_text(t: &str) -> (r: bool)
    ensures
        r == is_sentinel(t@),
{
    let n = t.unicode_len();
    if n == 2 {
        let r = t.get_char(0) == 'N' && t.get_char(1) == 'A';
        assert(r ==> t@ =~= na_token());
        r
    } else if n == 5 {
        let r = t.get_char(0) == 'E' && t.get_char(1) == 'r' && t.get_char(2) == 'r'
            && t.get_char(3) == 'o' && t.get_char(4) == 'r';
        assert(r ==> t@ =~= error_token());
        r
    } else {
        false
    }
}

fn is_single(t: &str, c: char) -> (r: bool)
    ensures
        r == (t@ == seq![c]),
{
    let r = t.unicode_len() == 1 && t.get_char(0) == c;
    assert(r ==> t@ =~= seq![c]);
    r
}

/// Decodes the raw text `s` of a cell of kind `kind`.
pub fn decode_cell(kind: ColumnKind, s: &str) -> (r: Result<Cell, MalformedNumber>)
    ensures
        match r {
            Ok(c) => decode_spec(kind, s@) == Some(c@),
            Err(e) => decode_spec(kind, s@) is None && e.kind == kind,
        },
{
    match kind {
        ColumnKind::Text => Ok(Cell::Text(String::from_str(s))),
        ColumnKind::Float => {
            let t = trim_text(s);
            if is_sentinel_text(t) {
                Ok(Cell::Float(None))
            } else if is_float_text(t) {
                Ok(Cell::Float(Some(String::from_str(t))))
            } else {
                Err(MalformedNumber { kind })
            }
        },
        ColumnKind::Uint => {
            let t = trim_text(s);
            if is_sentinel_text(t) {
                Ok(Cell::Uint(None))
            } else {
                match parse_u64(t) {
                    Some(n) => Ok(Cell::Uint(Some(n))),
                    None => Err(MalformedNumber { kind }),
                }
            }
        },
        ColumnKind::Flag => {
            let t = trim_text(s);
            let v = if is_single(t, '1') {
                Some(true)
            } else if is_single(t, '0') {
                Some(false)
            } else {
                None
            };
            Ok(Cell::Flag(v))
        },
    }
}

/// The text that `c` is written back as.
pub fn encode_cell(c: &Cell) -> (r: String)
    ensures
        r@ == encode_spec(c@),
{
    proof {
        reveal_strlit("NA");
        reveal_strlit("1");
        reveal_strlit("0");
    }
    match c {
        Cell::Text(t) => t.clone(),
        Cell::Float(Some(t)) => t.clone(),
        Cell::Uint(Some(n)) => {
            let mut out = String::new();
            push_decimal(&mut out, *n);
            assert(out@ =~= decimal(*n as nat));
            out
        },
        Cell::Flag(Some(b)) => if *b {
            String::from_str("1")
        } else {
            String::from_str("0")
        },
        _ => {
            let r = String::from_str("NA");
            assert(r@ =~= na_token());
            r
        },
    }
}

proof fn lemma_trim_plain(t: Seq<char>)
    requires
        forall|i: int| 0 <= i < t.len() ==> !is_white(#[trigger] t[i]),
    ensures
        trim(t) == t,
{
    if t.len() > 0 {
        assert(!is_white(t[0]));
        assert(!is_white(t.last()));
    }
}

proof fn lemma_mantissa_plain(m: Seq<char>)
    requires
        is_mantissa(m),
    ensures
        forall|i: int| 0 <= i < m.len() ==> !is_white(#[trigger] m[i]),
{
    crate::numeric::lemma_mantissa_chars(m);
    assert forall|i: int| 0 <= i < m.len() implies !is_white(#[trigger] m[i]) by {
        assert(is_digit(m[i]) || m[i] == '.');
    }
}

/// A floating-point literal holds no whitespace.
proof fn lemma_literal_plain(t: Seq<char>)
    requires
        is_float_literal(t),
    ensures
        forall|i: int| 0 <= i < t.len() ==> !is_white(#[trigger] t[i]),
{
    let u = after_sign(t);
    let off: int = if t.len() > 0 && is_sign(t[0]) {
        1
    } else {
        0
    };
    assert(u =~= t.skip(off));
    assert forall|j: int| 0 <= j < u.len() implies !is_white(#[trigger] u[j]) by {
        if is_mantissa(u) {
            lemma_mantissa_plain(u);
        } else if crate::numeric::is_decimal_number(u) {
            let e = choose|e: int|
                0 <= e < u.len() && #[trigger] is_exponent_mark(u[e]) && is_mantissa(u.take(e))
                    && is_digit_run(after_sign(u.skip(e + 1)));
            if j < e {
                lemma_mantissa_plain(u.take(e));
                assert(u.take(e)[j] == u[j]);
            } else if j > e {
                let x = u.skip(e + 1);
                let y = after_sign(x);
                if x.len() > 0 && is_sign(x[0]) {
                    if j > e + 1 {
                        assert(y[j - e - 2] == u[j]);
                    }
                } else {
                    assert(y[j - e - 1] == u[j]);
                }
            }
        } else {
            let w = if spells(u, seq!['i', 'n', 'f']) {
                seq!['i', 'n', 'f']
            } else if spells(u, seq!['n', 'a', 'n']) {
                seq!['n', 'a', 'n']
            } else {
                seq!['i', 'n', 'f', 'i', 'n', 'i', 't', 'y']
            };
            assert(spells(u, w));
            assert(same_letter(u[j], w[j]));
            assert(97 <= w[j] as u32 <= 122);
        }
    }
    assert forall|i: int| 0 <= i < t.len() implies !is_white(#[trigger] t[i]) by {
        if i >= off {
            assert(u[i - off] == t[i]);
        }
    }
}

proof fn lemma_decimal_plain(n: nat)
    ensures
        forall|i: int| 0 <= i < decimal(n).len() ==> !is_white(#[trigger] decimal(n)[i]),
        !is_sentinel(decimal(n)),
        decimal(n).len() > 0 && decimal(n)[0] != '+',
{
    lemma_decimal_value(n);
    let d = decimal(n);
    assert(is_digit(d[0]));
    assert forall|i: int| 0 <= i < d.len() implies !is_white(#[trigger] d[i]) by {
        assert(is_digit(d[i]));
    }
    assert(error_token()[0] == 'E' && na_token()[0] == 'N');
}

proof fn lemma_na_decodes(kind: ColumnKind)
    ensures
        trim(na_token()) == na_token(),
        is_sentinel(na_token()),
        na_token() != seq!['1'],
        na_token() != seq!['0'],
{
    let t = na_token();
    assert(t[0] == 'N' && t[1] == 'A');
    lemma_trim_plain(t);
    assert(t.len() != seq!['1'].len());
}

/// A cell that a column can hold is written as text that decodes back to
/// the same cell.
pub proof fn lemma_cell_round_trip(kind: ColumnKind, c: CellModel)
    requires
        cell_wf(kind, c),
    ensures
        decode_spec(kind, encode_spec(c)) == Some(c),
{
    lemma_na_decodes(kind);
    match c {
        CellModel::Float(Some(t)) => {
            lemma_literal_plain(t);
            lemma_trim_plain(t);
        },
        CellModel::Uint(Some(n)) => {
            lemma_decimal_plain(n as nat);
            lemma_trim_plain(decimal(n as nat));
            lemma_parse_decimal(n);
        },
        CellModel::Flag(Some(b)) => {
            let t = encode_spec(c);
            assert(!is_white(t[0]));
            lemma_trim_plain(t);
            assert(seq!['1'] != seq!['0']) by {
                assert(seq!['1'][0] != seq!['0'][0]);
            }
        },
        _ => {},
    }
}

/// What a cell decodes to is a cell that its column can hold.
pub proof fn lemma_decoded_wf(kind: ColumnKind, s: Seq<char>)
    requires
        decode_spec(kind, s) is Some,
    ensures
        cell_wf(kind, decode_spec(kind, s)->0),
{
}

/// Decoding, writing the value back and decoding again gives the value
/// first decoded: no cell changes its value on the way.
pub proof fn lemma_decode_round_trip(kind: ColumnKind, s: Seq<char>)
    requires
        decode_spec(kind, s) is Some,
    ensures
        decode_spec(kind, encode_spec(decode_spec(kind, s)->0)) == decode_spec(kind, s),
{
    lemma_cell_round_trip(kind, decode_spec(kind, s)->0);
}

/// A numeric cell holding a sentinel token is absent, never malformed.
pub proof fn lemma_sentinel_absent(kind: ColumnKind, s: Seq<char>)
    requires
        kind == ColumnKind::Float || kind == ColumnKind::Uint,
        is_sentinel(trim(s)),
    ensures
        kind == ColumnKind::Float ==> decode_spec(kind, s) == Some(CellModel::Float(None)),
        kind == ColumnKind::Uint ==> decode_spec(kind, s) == Some(CellModel::Uint(None)),
{
}

/// A flag cell never fails: `1` is true, `0` is false, and any other text
/// is absent.
pub proof fn lemma_flag_total(s: Seq<char>)
    ensures
        decode_spec(ColumnKind::Flag, s) is Some,
        decode_spec(ColumnKind::Flag, s) == Some(CellModel::Flag(Some(true))) <==> trim(s) == seq!['1'],
        decode_spec(ColumnKind::Flag, s) == Some(CellModel::Flag(Some(false))) <==> trim(s) == seq!['0'],
        decode_spec(ColumnKind::Flag, s) == Some(CellModel::Flag(None)) <==> (trim(s) != seq!['1']
            && trim(s) != seq!['0']),
{
    assert(seq!['1'] != seq!['0']) by {
        assert(seq!['1'][0] != seq!['0'][0]);
    }
}

} // verus!

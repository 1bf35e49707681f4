//! The scalar expression evaluator: binds a statement expression to a
//! literal value or reports it non-literal.
//!
//! Evaluation is pure: it never touches storage. A literal binds to
//! the written text; typed conversion happens only after the text has
//! passed the column type's validation.

use vstd::prelude::*;

use crate::ast::{Expr, ExprV, Literal, LiteralV};
use crate::datum::{Datum, DatumV};
use crate::types::{int_value, parse_i64, spec_validate, SqlType};

verus! {

/// What an expression binds to: an immediately usable literal, or
/// anything else.
#[derive(Debug)]
pub enum BoundValue {
    Literal(Literal),
    NonLiteral,
}

/// What binding decides, at the ghost level: the literal, or nothing.
pub open spec fn spec_eval(e: ExprV) -> Option<LiteralV> {
    match e {
        ExprV::Literal(v) => Some(v),
        _ => None,
    }
}

/// Binds an expression against the positional column metadata. Only
/// plain literals bind; column references and unsupported forms are
/// non-literal.
pub fn eval(expr: &Expr) -> (r: BoundValue)
    ensures
        match r {
            BoundValue::Literal(v) => spec_eval(expr@) == Some(v@),
            BoundValue::NonLiteral => spec_eval(expr@) is None,
        },
{
    match expr {
        Expr::Literal(v) => BoundValue::Literal(v.clone()),
        Expr::Column(_) => BoundValue::NonLiteral,
        Expr::Unsupported => BoundValue::NonLiteral,
    }
}

/// The candidate text a literal shows to validation: numbers and
/// strings as written, NULL as its keyword.
pub open spec fn literal_text(v: LiteralV) -> Seq<char> {
    match v {
        LiteralV::Number(s) => s,
        LiteralV::Text(s) => s,
        LiteralV::Null => "NULL"@,
    }
}

/// Renders the literal's candidate text.
pub fn literal_to_text(v: &Literal) -> (r: String)
    ensures
        r@ == literal_text(v@),
{
    match v {
        Literal::Number(s) => s.clone(),
        Literal::Text(s) => s.clone(),
        Literal::Null => String::from_str("NULL"),
    }
}

/// Right-pads text with spaces up to the given width; longer text is
/// kept as it is.
pub open spec fn spec_pad(s: Seq<char>, n: int) -> Seq<char> {
    if s.len() >= n {
        s
    } else {
        s + Seq::new((n - s.len()) as nat, |i: int| ' ')
    }
}

/// The typed datum a validated literal stores under a column type:
/// NULL stays the sentinel, numeric text becomes its value, fixed
/// character text is right-padded to the declared width.
pub open spec fn spec_datum_for(v: LiteralV, t: SqlType) -> DatumV {
    match v {
        LiteralV::Null => DatumV::Null,
        _ => match t {
            SqlType::Char(n) => DatumV::Str(spec_pad(literal_text(v), n as int)),
            SqlType::VarChar(_) => DatumV::Str(literal_text(v)),
            _ => DatumV::Int(int_value(literal_text(v))),
        },
    }
}

/// A validated literal's datum fits its column type.
pub proof fn lemma_datum_for_fits(v: LiteralV, t: SqlType)
    requires
        spec_validate(t, literal_text(v)) is None,
    ensures
        crate::datum::datum_fits(spec_datum_for(v, t), t),
{
}

/// Builds the typed datum of a literal that passed validation.
pub fn datum_for(v: &Literal, t: &SqlType) -> (r: Datum)
    requires
        spec_validate(*t, literal_text(v@)) is None,
    ensures
        r@ == spec_datum_for(v@, *t),
{
    if matches!(v, Literal::Null) {
        return Datum::Null;
    }
    let text = literal_to_text(v);
    match t {
        SqlType::Char(n) => {
            let mut out = text;
            let mut count: u64 = out.as_str().unicode_len() as u64;
            let ghost base = out@;
            proof {
                if count >= *n {
                    assert(out@ =~= spec_pad(base, *n as int));
                }
            }
            while count < *n
                invariant
                    count <= *n,
                    base.len() <= count,
                    out@ == base + Seq::new((count - base.len()) as nat, |i: int| ' '),
                decreases *n - count,
            {
                let ghost before = out@;
                out.append(" ");
                proof {
                    reveal_strlit(" ");
                    assert(out@ =~= base + Seq::new(
                        (count + 1 - base.len()) as nat,
                        |i: int| ' ',
                    ));
                }
                count = count + 1;
            }
            proof {
                if count == *n && base.len() < *n {
                    assert(out@ =~= spec_pad(base, *n as int));
                }
                assert(out@ =~= spec_pad(base, *n as int));
            }
            Datum::Str(out)
        },
        SqlType::VarChar(_) => Datum::Str(text),
        _ => Datum::Int(parse_i64(text.as_str())),
    }
}

} // verus!

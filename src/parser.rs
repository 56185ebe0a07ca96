use vstd::prelude::*;
use crate::ast::{
    case_variant_lexemes, case_variant_list_lexemes, case_variant_wf, case_variants_wf,
    constant_def_lexemes, constant_lexemes, constant_list_lexemes, enumerated_lexemes,
    field_list_lexemes, field_list_wf, fixed, ident_lexeme, ident_list_lexemes, model, models,
    number_lexemes, optional_field_list_lexemes, optional_field_list_wf, packed_lexemes,
    section_lexemes, section_list_lexemes, section_wf, sections_wf, selector_lexemes, simple_name,
    type_def_lexemes, type_lexemes, type_list_lexemes, type_wf, types_wf, variant_part_lexemes,
    is_plain, all_plain, lemma_all_plain, lemma_type_list_first, lemma_types_wf_all,
    variant_part_wf, CaseVariant, Constant, ConstantDef, Lexeme, Number, RecordFieldList,
    RecordFixedPart, RecordSection, RecordVariantPart, SimpleType, Type, TypeDef, VariantSelector,
};
use crate::tokens::{LexingError, Token};
use crate::lexer::{lemma_tokens_verbatim, lexes, scan, scanned_in, scans_to};

verus! {

/// Why a parse failed.
#[derive(Debug, PartialEq, Clone, Copy)]
pub enum ParseError<'a> {
    /// No token rule matches at this character position.
    Lexical { error: LexingError, position: usize },
    /// The token at this index is not accepted here.
    UnexpectedToken { found: Token<'a>, position: usize },
    /// The input ended in the middle of a construct.
    UnexpectedEndOfInput,
}

/// What is parsed from a position: the value and the position after it.
pub type Parsed<'a, T> = Result<(T, usize), ParseError<'a>>;

/// The lexemes of `toks[a..b]`.
pub open spec fn span<'a>(toks: Seq<Token<'a>>, a: int, b: int) -> Seq<Lexeme> {
    models(toks.subrange(a, b))
}

proof fn lemma_span_split<'a>(toks: Seq<Token<'a>>, a: int, b: int, c: int)
    requires
        0 <= a <= b <= c <= toks.len(),
    ensures
        span(toks, a, c) == span(toks, a, b) + span(toks, b, c),
{
    assert(span(toks, a, c) =~= span(toks, a, b) + span(toks, b, c));
}

proof fn lemma_span_one<'a>(toks: Seq<Token<'a>>, a: int)
    requires
        0 <= a < toks.len(),
    ensures
        span(toks, a, a + 1) == seq![model(toks[a])],
{
    assert(span(toks, a, a + 1) =~= seq![model(toks[a])]);
}

/// Both are the same token that carries no text.
fn same_token(a: &Token, b: &Token) -> (r: bool)
    requires
        !b.is_literal(),
    ensures
        r == (*a == *b),
{
    match (a, b) {
        (Token::SpecialPlus, Token::SpecialPlus) => true,
        (Token::SpecialMinus, Token::SpecialMinus) => true,
        (Token::SpecialMul, Token::SpecialMul) => true,
        (Token::SpecialDiv, Token::SpecialDiv) => true,
        (Token::SpecialEqual, Token::SpecialEqual) => true,
        (Token::SpecialLower, Token::SpecialLower) => true,
        (Token::SpecialGreater, Token::SpecialGreater) => true,
        (Token::SpecialOpenBracket, Token::SpecialOpenBracket) => true,
        (Token::SpecialCloseBracket, Token::SpecialCloseBracket) => true,
        (Token::SpecialDot, Token::SpecialDot) => true,
        (Token::SpecialComma, Token::SpecialComma) => true,
        (Token::SpecialDotComma, Token::SpecialDotComma) => true,
        (Token::SpecialColon, Token::SpecialColon) => true,
        (Token::SpecialQuotation, Token::SpecialQuotation) => true,
        (Token::SpecialOpenParen, Token::SpecialOpenParen) => true,
        (Token::SpecialCloseParen, Token::SpecialCloseParen) => true,
        (Token::SpecialSpaceship, Token::SpecialSpaceship) => true,
        (Token::SpecialLessEqual, Token::SpecialLessEqual) => true,
        (Token::SpecialGreaterEqual, Token::SpecialGreaterEqual) => true,
        (Token::SpecialAssign, Token::SpecialAssign) => true,
        (Token::SpecialRange, Token::SpecialRange) => true,
        (Token::WordAnd, Token::WordAnd) => true,
        (Token::WordArray, Token::WordArray) => true,
        (Token::WordBegin, Token::WordBegin) => true,
        (Token::WordCase, Token::WordCase) => true,
        (Token::WordConst, Token::WordConst) => true,
        (Token::WordDiv, Token::WordDiv) => true,
        (Token::WordDo, Token::WordDo) => true,
        (Token::WordDownto, Token::WordDownto) => true,
        (Token::WordElse, Token::WordElse) => true,
        (Token::WordEnd, Token::WordEnd) => true,
        (Token::WordFile, Token::WordFile) => true,
        (Token::WordFor, Token::WordFor) => true,
        (Token::WordFunction, Token::WordFunction) => true,
        (Token::WordGoto, Token::WordGoto) => true,
        (Token::WordIf, Token::WordIf) => true,
        (Token::WordIn, Token::WordIn) => true,
        (Token::WordLabel, Token::WordLabel) => true,
        (Token::WordMod, Token::WordMod) => true,
        (Token::WordNil, Token::WordNil) => true,
        (Token::WordNot, Token::WordNot) => true,
        (Token::WordOf, Token::WordOf) => true,
        (Token::WordOr, Token::WordOr) => true,
        (Token::WordPacked, Token::WordPacked) => true,
        (Token::WordProcedure, Token::WordProcedure) => true,
        (Token::WordProgram, Token::WordProgram) => true,
        (Token::WordRecord, Token::WordRecord) => true,
        (Token::WordRepeat, Token::WordRepeat) => true,
        (Token::WordSet, Token::WordSet) => true,
        (Token::WordThen, Token::WordThen) => true,
        (Token::WordTo, Token::WordTo) => true,
        (Token::WordType, Token::WordType) => true,
        (Token::WordUntil, Token::WordUntil) => true,
        (Token::WordVar, Token::WordVar) => true,
        (Token::WordWhile, Token::WordWhile) => true,
        (Token::WordWith, Token::WordWith) => true,
        _ => false,
    }
}

/// The syntax error at `k`: the token found there, or the end of input.
pub open spec fn error_at<'a>(toks: Seq<Token<'a>>, k: int) -> ParseError<'a> {
    if 0 <= k < toks.len() {
        ParseError::UnexpectedToken { found: toks[k], position: k as usize }
    } else {
        ParseError::UnexpectedEndOfInput
    }
}

fn unexpected<'a>(toks: &Vec<Token<'a>>, pos: usize) -> (r: ParseError<'a>)
    ensures
        !(r is Lexical),
        r == error_at(toks@, pos as int),
{
    if pos < toks.len() {
        ParseError::UnexpectedToken { found: toks[pos], position: pos }
    } else {
        ParseError::UnexpectedEndOfInput
    }
}

/// `toks[pos]` is `want`.
fn at<'a>(toks: &Vec<Token<'a>>, pos: usize, want: Token<'a>) -> (r: bool)
    requires
        !want.is_literal(),
    ensures
        r == (pos < toks@.len() && toks@[pos as int] == want),
        toks@.len() <= usize::MAX,
{
    pos < toks.len() && same_token(&toks[pos], &want)
}

/// Takes `want` at `pos`; the position after it.
fn expect<'a>(toks: &Vec<Token<'a>>, pos: usize, want: Token<'a>) -> (r: Result<usize, ParseError<'a>>)
    requires
        !want.is_literal(),
    ensures
        !is_lexical(r),
        r is Err ==> r->Err_0 == error_at(toks@, pos as int),
        r is Ok <==> (pos < toks@.len() && toks@[pos as int] == want),
        r is Ok ==> r->Ok_0 == pos + 1 && span(toks@, pos as int, pos + 1) == fixed(want),
        toks@.len() <= usize::MAX,
{
    if at(toks, pos, want) {
        proof {
            lemma_span_one(toks@, pos as int);
        }
        Ok(pos + 1)
    } else {
        Err(unexpected(toks, pos))
    }
}

fn identifier_at<'a>(toks: &Vec<Token<'a>>, pos: usize) -> (r: Parsed<'a, &'a str>)
    ensures
        !is_lexical(r),
        r is Err ==> r->Err_0 == error_at(toks@, pos as int),
        r is Ok <==> (pos < toks@.len() && toks@[pos as int] is Identifier),
        r is Ok ==> ({
            let (x, e) = r->Ok_0;
            &&& e == pos + 1
            &&& toks@[pos as int] == Token::Identifier(x)
            &&& span(toks@, pos as int, e as int) == seq![ident_lexeme(x)]
        }),
        toks@.len() <= usize::MAX,
{
    let n = toks.len();
    if pos < toks.len() {
        if let Token::Identifier(x) = toks[pos] {
            proof {
                lemma_span_one(toks@, pos as int);
            }
            return Ok((x, pos + 1));
        }
    }
    Err(unexpected(toks, pos))
}

} // verus!

verus! {

/// A constant starts at `pos`: a number, a string, an identifier, or `-`
/// and an identifier.
pub open spec fn constant_starts<'a>(toks: Seq<Token<'a>>, pos: int) -> bool {
    0 <= pos < toks.len() && (toks[pos] is Identifier || toks[pos] is Integer
        || toks[pos] is Real || toks[pos] is String || (toks[pos] == Token::SpecialMinus && pos
        + 1 < toks.len() && toks[pos + 1] is Identifier))
}

/// Where reading a constant from `pos` ends: after it, or at the token where
/// no constant can go on.
pub open spec fn constant_stop<'a>(toks: Seq<Token<'a>>, pos: int) -> int {
    if constant_starts(toks, pos) {
        pos + constant_width(toks, pos)
    } else if 0 <= pos < toks.len() && toks[pos] == Token::SpecialMinus {
        pos + 1
    } else {
        pos
    }
}

fn parse_number_at<'a>(toks: &Vec<Token<'a>>, pos: usize) -> (r: Parsed<'a, Number<'a>>)
    ensures
        !is_lexical(r),
        r is Err ==> r->Err_0 == error_at(toks@, pos as int),
        r is Ok <==> (pos < toks@.len() && (toks@[pos as int] is Integer || toks@[pos as int] is Real)),
        r is Ok ==> r->Ok_0.1 == pos + 1 && span(toks@, pos as int, pos + 1) == number_lexemes(
            r->Ok_0.0,
        ),
{
    let n = toks.len();
    if pos < n {
        proof {
            lemma_span_one(toks@, pos as int);
        }
        match toks[pos] {
            Token::Integer(x) => {
                return Ok((Number::Integer(x), pos + 1));
            },
            Token::Real(x) => {
                return Ok((Number::Real(x), pos + 1));
            },
            _ => {},
        }
    }
    Err(unexpected(toks, pos))
}

fn parse_constant_at<'a>(toks: &Vec<Token<'a>>, pos: usize) -> (r: Parsed<'a, Constant<'a>>)
    ensures
        !is_lexical(r),
        r is Err ==> r->Err_0 == error_at(toks@, constant_stop(toks@, pos as int)),
        r is Ok <==> constant_starts(toks@, pos as int),
        r is Ok ==> ({
            let (c, e) = r->Ok_0;
            &&& pos < e <= toks@.len()
            &&& e == pos + constant_width(toks@, pos as int)
            &&& span(toks@, pos as int, e as int) == constant_lexemes(c)
        }),
{
    let n = toks.len();
    if pos >= n {
        return Err(ParseError::UnexpectedEndOfInput);
    }
    proof {
        lemma_span_one(toks@, pos as int);
    }
    match toks[pos] {
        Token::Identifier(x) => Ok((Constant::Identifier { is_negative: false, ident: x }, pos + 1)),
        Token::Integer(x) => Ok((Constant::Number(Number::Integer(x)), pos + 1)),
        Token::Real(x) => Ok((Constant::Number(Number::Real(x)), pos + 1)),
        Token::String(x) => Ok((Constant::String(x), pos + 1)),
        Token::SpecialMinus => {
            let (x, e) = match identifier_at(toks, pos + 1) {
                Ok(p) => p,
                Err(err) => {
                    return Err(err);
                },
            };
            proof {
                lemma_span_split(toks@, pos as int, pos + 1, e as int);
            }
            Ok((Constant::Identifier { is_negative: true, ident: x }, e))
        },
        _ => Err(unexpected(toks, pos)),
    }
}

/// `toks[pos..e]` is `id (, id)*`.
pub open spec fn ident_list_span<'a>(toks: Seq<Token<'a>>, pos: int, e: int) -> bool {
    &&& 0 <= pos < e <= toks.len()
    &&& (e - pos) % 2 == 1
    &&& forall|k: int|
        pos <= k < e ==> if (k - pos) % 2 == 0 {
            #[trigger] toks[k] is Identifier
        } else {
            toks[k] == Token::SpecialComma
        }
}

/// No comma follows `e`.
pub open spec fn ends_list<'a>(toks: Seq<Token<'a>>, e: int) -> bool {
    !(0 <= e < toks.len() && toks[e] == Token::SpecialComma)
}

/// `toks` is `( id (, id)* )`.
pub open spec fn is_enumeration<'a>(toks: Seq<Token<'a>>) -> bool {
    &&& toks.len() >= 3
    &&& toks[0] == Token::SpecialOpenParen
    &&& toks[toks.len() - 1] == Token::SpecialCloseParen
    &&& ident_list_span(toks, 1, toks.len() - 1)
}

/// An enumeration is strict: tokens whose last but one is a comma are never
/// one, so `(a, b,)` is refused rather than read as `(a, b)`.
pub proof fn lemma_trailing_comma_is_no_enumeration<'a>(toks: Seq<Token<'a>>)
    requires
        toks.len() >= 2,
        toks[toks.len() - 2] == Token::SpecialComma,
    ensures
        !is_enumeration(toks),
{
    if is_enumeration(toks) {
        let k = toks.len() - 2;
        assert(toks[k] is Identifier);
    }
}

/// A list of names that no comma follows ends in one place only.
proof fn lemma_list_end_unique<'a>(toks: Seq<Token<'a>>, pos: int, a: int, b: int)
    requires
        ident_list_span(toks, pos, a),
        ends_list(toks, a),
        ident_list_span(toks, pos, b),
        ends_list(toks, b),
    ensures
        a == b,
{
    if a < b {
        assert(toks[a] == Token::SpecialComma);
    } else if b < a {
        assert(toks[b] == Token::SpecialComma);
    }
}

/// `id (, id)*` can be read from `k` on.
pub open spec fn list_ok<'a>(toks: Seq<Token<'a>>, k: int) -> bool
    decreases toks.len() - k,
{
    if !(0 <= k < toks.len() && toks[k] is Identifier) {
        false
    } else if k + 1 < toks.len() && toks[k + 1] == Token::SpecialComma {
        list_ok(toks, k + 2)
    } else {
        true
    }
}

/// Where reading `id (, id)*` from `k` ends: after the list, or at the token
/// where a name was wanted.
pub open spec fn list_stop<'a>(toks: Seq<Token<'a>>, k: int) -> int
    decreases toks.len() - k,
{
    if !(0 <= k < toks.len() && toks[k] is Identifier) {
        k
    } else if k + 1 < toks.len() && toks[k + 1] == Token::SpecialComma {
        list_stop(toks, k + 2)
    } else {
        k + 1
    }
}

/// Where reading `( id (, id)* )` from `pos` ends: after it, or at the
/// token where it cannot go on.
pub open spec fn enumeration_stop<'a>(toks: Seq<Token<'a>>, pos: int) -> int {
    if !(0 <= pos < toks.len() && toks[pos] == Token::SpecialOpenParen) {
        pos
    } else if !list_ok(toks, pos + 1) {
        list_stop(toks, pos + 1)
    } else if list_stop(toks, pos + 1) < toks.len() && toks[list_stop(toks, pos + 1)]
        == Token::SpecialCloseParen {
        list_stop(toks, pos + 1) + 1
    } else {
        list_stop(toks, pos + 1)
    }
}

/// `id (, id)*` from `pos`, as long as commas continue it.
fn parse_ident_list_at<'a>(toks: &Vec<Token<'a>>, pos: usize) -> (r: Parsed<'a, Vec<&'a str>>)
    ensures
        !is_lexical(r),
        r is Ok ==> ({
            let (ids, e) = r->Ok_0;
            &&& pos < e <= toks@.len()
            &&& ids@.len() >= 1
            &&& span(toks@, pos as int, e as int) == ident_list_lexemes(ids@)
            &&& ident_list_span(toks@, pos as int, e as int)
            &&& ends_list(toks@, e as int)
        }),
        r is Err ==> forall|e: int|
            !(#[trigger] ident_list_span(toks@, pos as int, e) && ends_list(toks@, e)),
        r is Ok <==> list_ok(toks@, pos as int),
        r is Ok ==> r->Ok_0.1 == list_stop(toks@, pos as int),
        r is Err ==> r->Err_0 == error_at(toks@, list_stop(toks@, pos as int)),
{
    let (x, mut e) = match identifier_at(toks, pos) {
        Ok(p) => p,
        Err(err) => {
            return Err(err);
        },
    };
    let mut ids: Vec<&'a str> = Vec::new();
    ids.push(x);
    while at(toks, e, Token::SpecialComma)
        invariant
            pos < e <= toks@.len(),
            ids@.len() >= 1,
            span(toks@, pos as int, e as int) == ident_list_lexemes(ids@),
            ident_list_span(toks@, pos as int, e as int),
            toks@[e - 1] is Identifier,
            list_ok(toks@, pos as int) == list_ok(toks@, e - 1),
            list_stop(toks@, pos as int) == list_stop(toks@, e - 1),
        decreases toks@.len() - e,
    {
        let (y, f) = match identifier_at(toks, e + 1) {
            Ok(p) => p,
            Err(err) => {
                proof {
                    assert(list_ok(toks@, e - 1) == list_ok(toks@, e + 1));
                    assert(list_stop(toks@, e - 1) == list_stop(toks@, e + 1));
                    assert forall|b: int|
                        !(#[trigger] ident_list_span(toks@, pos as int, b) && ends_list(toks@, b)) by {
                        if ident_list_span(toks@, pos as int, b) && ends_list(toks@, b) {
                            if b <= e {
                                assert(toks@[b] == Token::SpecialComma);
                            } else if b > e + 1 {
                                assert(toks@[e + 1] is Identifier);
                            }
                        }
                    }
                }
                return Err(err);
            },
        };
        proof {
            lemma_span_one(toks@, e as int);
            lemma_span_split(toks@, pos as int, e as int, e + 1);
            lemma_span_split(toks@, pos as int, e + 1, f as int);
            assert(ids@.push(y).drop_last() =~= ids@);
            assert forall|k: int| pos <= k < f implies if (k - pos) % 2 == 0 {
                #[trigger] toks@[k] is Identifier
            } else {
                toks@[k] == Token::SpecialComma
            } by {
                if k < e {
                }
            }
        }
        ids.push(y);
        e = f;
    }
    Ok((ids, e))
}

/// `( id (, id)* )` from `pos`.
fn parse_enumerated_at<'a>(toks: &Vec<Token<'a>>, pos: usize) -> (r: Parsed<'a, Vec<&'a str>>)
    ensures
        !is_lexical(r),
        r is Ok ==> ({
            let (ids, e) = r->Ok_0;
            &&& pos < e <= toks@.len()
            &&& ids@.len() >= 1
            &&& span(toks@, pos as int, e as int) == enumerated_lexemes(ids@)
            &&& toks@[e - 1] == Token::SpecialCloseParen
            &&& ident_list_span(toks@, pos + 1, e - 1)
            &&& toks@[pos as int] == Token::SpecialOpenParen
        }),
        r is Err ==> !(pos < toks@.len() && toks@[pos as int] == Token::SpecialOpenParen
            && exists|e: int| #[trigger] ident_list_span(toks@, pos + 1, e) && e < toks@.len()
            && toks@[e] == Token::SpecialCloseParen),
        r is Ok ==> r->Ok_0.1 == enumeration_stop(toks@, pos as int),
        r is Err ==> r->Err_0 == error_at(toks@, enumeration_stop(toks@, pos as int)),
{
    let p = match expect(toks, pos, Token::SpecialOpenParen) {
        Ok(p) => p,
        Err(err) => {
            return Err(err);
        },
    };
    let (ids, q) = match parse_ident_list_at(toks, p) {
        Ok(x) => x,
        Err(err) => {
            return Err(err);
        },
    };
    let e = match expect(toks, q, Token::SpecialCloseParen) {
        Ok(e) => e,
        Err(err) => {
            proof {
                assert forall|b: int| #[trigger] ident_list_span(toks@, pos + 1, b) && b < toks@.len()
                    implies toks@[b] != Token::SpecialCloseParen by {
                    if toks@[b] == Token::SpecialCloseParen {
                        lemma_list_end_unique(toks@, pos + 1, b, q as int);
                    }
                }
            }
            return Err(err);
        },
    };
    proof {
        lemma_span_split(toks@, pos as int, p as int, q as int);
        lemma_span_split(toks@, pos as int, q as int, e as int);
    }
    Ok((ids, e))
}

/// `c (, c)*` from `pos`.
fn parse_constant_list_at<'a>(toks: &Vec<Token<'a>>, pos: usize) -> (r: Parsed<'a, Vec<Constant<'a>>>)
    ensures
        !is_lexical(r),
        r is Ok ==> ({
            let (cs, e) = r->Ok_0;
            &&& pos < e <= toks@.len()
            &&& cs@.len() >= 1
            &&& span(toks@, pos as int, e as int) == constant_list_lexemes(cs@)
        }),
{
    let (c, mut e) = parse_constant_at(toks, pos)?;
    let mut cs: Vec<Constant<'a>> = Vec::new();
    cs.push(c);
    while at(toks, e, Token::SpecialComma)
        invariant
            pos < e <= toks@.len(),
            cs@.len() >= 1,
            span(toks@, pos as int, e as int) == constant_list_lexemes(cs@),
        decreases toks@.len() - e,
    {
        let (d, f) = parse_constant_at(toks, e + 1)?;
        proof {
            lemma_span_one(toks@, e as int);
            lemma_span_split(toks@, pos as int, e as int, e + 1);
            lemma_span_split(toks@, pos as int, e + 1, f as int);
            assert(cs@.push(d).drop_last() =~= cs@);
        }
        cs.push(d);
        e = f;
    }
    Ok((cs, e))
}

} // verus!

verus! {

fn text_is(x: &str, w: &str) -> (r: bool)
    ensures
        r == (x@ == w@),
{
    let n = x.unicode_len();
    if n != w.unicode_len() {
        return false;
    }
    let mut k: usize = 0;
    while k < n
        invariant
            k <= n,
            n == x@.len(),
            n == w@.len(),
            forall|m: int| 0 <= m < k ==> x@[m] == w@[m],
        decreases n - k,
    {
        if x.get_char(k) != w.get_char(k) {
            return false;
        }
        k += 1;
    }
    assert(x@ =~= w@);
    true
}

/// The simple type that the identifier `x` names, if any.
fn simple_type_of(x: &str) -> (r: Option<SimpleType>)
    ensures
        match r {
            Some(s) => x@ == simple_name(s),
            None => forall|s: SimpleType| x@ != simple_name(s),
        },
{
    proof {
        reveal_strlit("integer");
        reveal_strlit("real");
        reveal_strlit("Boolean");
        reveal_strlit("char");
    }
    let r = if text_is(x, "integer") {
        Some(SimpleType::Integer)
    } else if text_is(x, "real") {
        Some(SimpleType::Real)
    } else if text_is(x, "Boolean") {
        Some(SimpleType::Boolean)
    } else if text_is(x, "char") {
        Some(SimpleType::Char)
    } else {
        None
    };
    proof {
        assert("integer"@ =~= simple_name(SimpleType::Integer));
        assert("real"@ =~= simple_name(SimpleType::Real));
        assert("Boolean"@ =~= simple_name(SimpleType::Boolean));
        assert("char"@ =~= simple_name(SimpleType::Char));
    }
    r
}

} // verus!

verus! {

/// A subrange `c .. c` starts at `pos`.
pub open spec fn subrange_at<'a>(toks: Seq<Token<'a>>, pos: int) -> bool {
    let q = pos + constant_width(toks, pos);
    &&& constant_starts(toks, pos)
    &&& q < toks.len()
    &&& toks[q] == Token::SpecialRange
    &&& constant_starts(toks, q + 1)
}

/// Where the subrange that starts at `pos` ends.
pub open spec fn subrange_end<'a>(toks: Seq<Token<'a>>, pos: int) -> int {
    let q = pos + constant_width(toks, pos) + 1;
    q + constant_width(toks, q)
}

/// `toks` is one identifier, a reference to a type or a simple type.
pub open spec fn is_named_type<'a>(toks: Seq<Token<'a>>) -> bool {
    toks.len() == 1 && toks[0] is Identifier
}

/// Where reading `c .. c` from `pos` ends when it fails: at the token where
/// it cannot go on.
pub open spec fn subrange_stop<'a>(toks: Seq<Token<'a>>, pos: int) -> int {
    let p = pos + constant_width(toks, pos);
    if !constant_starts(toks, pos) {
        constant_stop(toks, pos)
    } else if !(p < toks.len() && toks[p] == Token::SpecialRange) {
        p
    } else {
        constant_stop(toks, p + 1)
    }
}

/// A type can start with `t`.
pub open spec fn type_starts<'a>(t: Token<'a>) -> bool {
    t is Identifier || t is Integer || t is Real || t is String || t == Token::SpecialMinus || t
        == Token::SpecialOpenParen || t == Token::WordPacked || t == Token::WordArray || t
        == Token::WordRecord
}

/// `toks` is `id = id` or `id = c .. c`.
pub open spec fn is_simple_type_def<'a>(toks: Seq<Token<'a>>) -> bool {
    &&& toks.len() >= 3
    &&& toks[0] is Identifier
    &&& toks[1] == Token::SpecialEqual
    &&& ((toks.len() == 3 && toks[2] is Identifier) || (subrange_at(toks, 2) && subrange_end(toks, 2)
        == toks.len()))
}

/// `toks` is one subrange.
pub open spec fn is_subrange<'a>(toks: Seq<Token<'a>>) -> bool {
    subrange_at(toks, 0) && subrange_end(toks, 0) == toks.len()
}

/// `c .. c` from `pos`.
fn parse_subrange_at<'a>(toks: &Vec<Token<'a>>, pos: usize) -> (r: Parsed<'a, Type<'a>>)
    ensures
        !is_lexical(r),
        r is Ok <==> subrange_at(toks@, pos as int),
        r is Ok ==> ({
            let (t, e) = r->Ok_0;
            &&& pos < e <= toks@.len()
            &&& e == subrange_end(toks@, pos as int)
            &&& t is SubRange
            &&& span(toks@, pos as int, e as int) == type_lexemes(t)
            &&& type_wf(t)
        }),
        r is Err ==> r->Err_0 == error_at(toks@, subrange_stop(toks@, pos as int)),
{
    let (start, p) = match parse_constant_at(toks, pos) {
        Ok(x) => x,
        Err(err) => {
            return Err(err);
        },
    };
    let q = match expect(toks, p, Token::SpecialRange) {
        Ok(x) => x,
        Err(err) => {
            return Err(err);
        },
    };
    let (end, e) = match parse_constant_at(toks, q) {
        Ok(x) => x,
        Err(err) => {
            return Err(err);
        },
    };
    proof {
        lemma_span_split(toks@, pos as int, p as int, q as int);
        lemma_span_split(toks@, pos as int, q as int, e as int);
    }
    Ok((Type::SubRange { start, end }, e))
}

/// A type from `pos`.
fn parse_type_at<'a>(toks: &Vec<Token<'a>>, pos: usize) -> (r: Parsed<'a, Type<'a>>)
    ensures
        !is_lexical(r),
        r is Ok ==> ({
            let (t, e) = r->Ok_0;
            &&& pos < e <= toks@.len()
            &&& span(toks@, pos as int, e as int) == type_lexemes(t)
            &&& type_wf(t)
        }),
        pos >= toks@.len() ==> r is Err && r->Err_0 == ParseError::<'a>::UnexpectedEndOfInput,
        pos + 1 < toks@.len() && toks@[pos as int] == Token::WordArray && toks@[pos + 1]
            == Token::SpecialOpenBracket && !(pos + 2 < toks@.len() && type_starts(toks@[pos + 2]))
            ==> r is Err && r->Err_0 == error_at(toks@, pos + 2),
        !(pos < toks@.len() && type_starts(toks@[pos as int])) ==> r is Err && r->Err_0 == error_at(
            toks@,
            pos as int,
        ),
        pos < toks@.len() && (toks@[pos as int] is Integer || toks@[pos as int] is Real
            || toks@[pos as int] is String || toks@[pos as int] == Token::SpecialMinus) ==> (r is Err
            ==> r->Err_0 == error_at(toks@, subrange_stop(toks@, pos as int))),
        subrange_at(toks@, pos as int) ==> r is Ok && r->Ok_0.1 == subrange_end(toks@, pos as int),
        pos < toks@.len() && toks@[pos as int] is Identifier && !(pos + 1 < toks@.len() && toks@[pos
            + 1] == Token::SpecialRange) ==> r is Ok && r->Ok_0.1 == pos + 1,
        pos < toks@.len() && toks@[pos as int] == Token::SpecialOpenParen ==> ((r is Ok <==> exists|
            e: int,
        |
            #[trigger] ident_list_span(toks@, pos + 1, e) && e < toks@.len() && toks@[e]
                == Token::SpecialCloseParen) && (r is Ok ==> ident_list_span(
            toks@,
            pos + 1,
            r->Ok_0.1 - 1,
        ) && toks@[r->Ok_0.1 - 1] == Token::SpecialCloseParen)),
        forall|t: Type<'a>|
            #[trigger] type_fits(toks@, pos as int, t) ==> r is Ok && r->Ok_0.1 == pos
                + type_lexemes(t).len(),
    decreases toks@.len() - pos, 3nat,
{
    let n = toks.len();
    if pos >= n {
        proof {
            assert forall|t: Type<'a>| !#[trigger] type_fits(toks@, pos as int, t) by {
                if type_fits(toks@, pos as int, t) {
                    lemma_plain_nonempty(t);
                }
            }
        }
        return Err(ParseError::UnexpectedEndOfInput);
    }
    let r = match toks[pos] {
        Token::WordPacked => {
            if at(toks, pos + 1, Token::WordArray) {
                parse_array_at(toks, pos, true)
            } else if at(toks, pos + 1, Token::WordRecord) {
                parse_record_at(toks, pos, true)
            } else {
                Err(unexpected(toks, pos + 1))
            }
        },
        Token::WordArray => parse_array_at(toks, pos, false),
        Token::WordRecord => parse_record_at(toks, pos, false),
        Token::SpecialOpenParen => match parse_enumerated_at(toks, pos) {
            Ok((ids, e)) => Ok((Type::Enumerated(ids), e)),
            Err(err) => Err(err),
        },
        Token::Identifier(x) => {
            if at(toks, pos + 1, Token::SpecialRange) {
                parse_subrange_at(toks, pos)
            } else {
                proof {
                    lemma_span_one(toks@, pos as int);
                }
                match simple_type_of(x) {
                    Some(s) => Ok((Type::Simple(s), pos + 1)),
                    None => Ok((Type::Identifier(x), pos + 1)),
                }
            }
        },
        _ => parse_subrange_at(toks, pos),
    };
    proof {
        assert forall|t: Type<'a>| #[trigger] type_fits(toks@, pos as int, t) implies r is Ok
            && r->Ok_0.1 == pos + type_lexemes(t).len() by {
            let m = type_lexemes(t).len() as int;
            lemma_plain_nonempty(t);
            assert(span(toks@, pos as int, pos + m)[0] == model(toks@[pos as int]));
            if t is Enumerated {
                lemma_enumeration_fits(toks@, pos as int, t);
                if r is Ok {
                    lemma_list_end_unique(toks@, pos + 1, r->Ok_0.1 - 1, pos + m - 1);
                }
            } else if t is SubRange {
                lemma_subrange_fits(toks@, pos as int, t);
            } else if t is Array {
                lemma_array_fits(toks@, pos as int, t);
                if t->Array_packed {
                    assert(span(toks@, pos as int, pos + m)[1] == model(toks@[pos + 1]));
                }
            }
        }
    }
    r
}

/// `t (, t)*` from `pos`.
fn parse_index_list_at<'a>(toks: &Vec<Token<'a>>, pos: usize) -> (r: Parsed<'a, Vec<Type<'a>>>)
    ensures
        !is_lexical(r),
        r is Ok ==> ({
            let (ts, e) = r->Ok_0;
            &&& pos < e <= toks@.len()
            &&& ts@.len() >= 1
            &&& span(toks@, pos as int, e as int) == type_list_lexemes(ts@)
            &&& types_wf(ts@)
        }),
        forall|ts: Seq<Type<'a>>|
            #[trigger] list_fits(toks@, pos as int, ts) ==> r is Ok && r->Ok_0.1 == pos
                + type_list_lexemes(ts).len(),
        !(pos < toks@.len() && type_starts(toks@[pos as int])) ==> r is Err && r->Err_0 == error_at(
            toks@,
            pos as int,
        ),
    decreases toks@.len() - pos, 4nat,
{
    let (first, e) = match parse_type_at(toks, pos) {
        Ok(p) => p,
        Err(err) => {
            proof {
                assert forall|ts: Seq<Type<'a>>| !#[trigger] list_fits(toks@, pos as int, ts) by {
                    if list_fits(toks@, pos as int, ts) {
                        lemma_list_fits_split(toks@, pos as int, ts);
                    }
                }
            }
            return Err(err);
        },
    };
    if at(toks, e, Token::SpecialComma) {
        let (rest, f) = match parse_index_list_at(toks, e + 1) {
            Ok(p) => p,
            Err(err) => {
                proof {
                    assert forall|ts: Seq<Type<'a>>| !#[trigger] list_fits(toks@, pos as int, ts) by {
                        if list_fits(toks@, pos as int, ts) {
                            lemma_list_fits_split(toks@, pos as int, ts);
                        }
                    }
                }
                return Err(err);
            },
        };
        let ghost g_first = first;
        let ghost g_rest = rest@;
        let mut ts = rest;
        ts.insert(0, first);
        proof {
            let all = ts@;
            assert(all.drop_first() =~= g_rest);
            assert(all[0] == g_first);
            lemma_type_list_first(all);
            lemma_span_one(toks@, e as int);
            lemma_span_split(toks@, pos as int, e as int, e + 1);
            lemma_span_split(toks@, pos as int, e + 1, f as int);
            lemma_types_wf_all(all);
            lemma_types_wf_all(g_rest);
            assert forall|i: int| 0 <= i < all.len() implies type_wf(#[trigger] all[i]) by {
                if i > 0 {
                    assert(all[i] == g_rest[i - 1]);
                }
            }
            assert forall|xs: Seq<Type<'a>>| #[trigger] list_fits(toks@, pos as int, xs) implies f
                == pos + type_list_lexemes(xs).len() by {
                lemma_list_fits_split(toks@, pos as int, xs);
            }
        }
        Ok((ts, f))
    } else {
        let mut ts: Vec<Type<'a>> = Vec::new();
        ts.push(first);
        proof {
            assert(ts@.drop_last() =~= Seq::<Type<'a>>::empty());
            assert(types_wf(Seq::<Type<'a>>::empty()));
            lemma_type_list_first(ts@);
            assert forall|xs: Seq<Type<'a>>| #[trigger] list_fits(toks@, pos as int, xs) implies e
                == pos + type_list_lexemes(xs).len() by {
                lemma_list_fits_split(toks@, pos as int, xs);
            }
        }
        Ok((ts, e))
    }
}

/// `[packed] array [ t (, t)* ] of t` from `pos`.
fn parse_array_at<'a>(toks: &Vec<Token<'a>>, pos: usize, packed: bool) -> (r: Parsed<'a, Type<'a>>)
    ensures
        !is_lexical(r),
        r is Ok ==> ({
            let (t, e) = r->Ok_0;
            &&& pos < e <= toks@.len()
            &&& span(toks@, pos as int, e as int) == type_lexemes(t)
            &&& type_wf(t)
        }),
        forall|t: Type<'a>|
            #[trigger] type_fits(toks@, pos as int, t) && t is Array && t->Array_packed == packed
                ==> r is Ok && r->Ok_0.1 == pos + type_lexemes(t).len(),
        ({
            let p = if packed {
                pos + 1
            } else {
                pos as int
            };
            &&& packed ==> pos < toks@.len() && toks@[pos as int] == Token::WordPacked
            &&& p + 1 < toks@.len()
            &&& toks@[p] == Token::WordArray
            &&& toks@[p + 1] == Token::SpecialOpenBracket
            &&& !(p + 2 < toks@.len() && type_starts(toks@[p + 2]))
        }) ==> r is Err && r->Err_0 == error_at(toks@, if packed {
            pos + 3
        } else {
            pos + 2
        }),
    decreases toks@.len() - pos, 2nat,
{
    proof {
        assert forall|t: Type<'a>| #[trigger] type_fits(toks@, pos as int, t) && t is Array
            && t->Array_packed == packed implies ({
            let p = pos + packed_lexemes(packed).len();
            &&& toks@[p] == Token::WordArray
            &&& (packed ==> toks@[pos as int] == Token::WordPacked)
            &&& toks@[p + 1] == Token::SpecialOpenBracket
            &&& list_fits(toks@, p + 2, t->Array_index@)
        }) by {
            lemma_array_fits(toks@, pos as int, t);
        }
    }
    let p = if packed {
        expect(toks, pos, Token::WordPacked)?
    } else {
        pos
    };
    let pa = expect(toks, p, Token::WordArray)?;
    let pb = expect(toks, pa, Token::SpecialOpenBracket)?;
    let (index, e) = match parse_index_list_at(toks, pb) {
        Ok(x) => x,
        Err(err) => {
            return Err(err);
        },
    };
    proof {
        assert forall|t: Type<'a>| #[trigger] type_fits(toks@, pos as int, t) && t is Array
            && t->Array_packed == packed implies ({
            let ll = type_list_lexemes(t->Array_index@);
            &&& e == pb + ll.len()
            &&& toks@[e as int] == Token::SpecialCloseBracket
            &&& toks@[e + 1] == Token::WordOf
            &&& type_fits(toks@, e + 2, *t->Array_component)
            &&& e + 2 + type_lexemes(*t->Array_component).len() == pos + type_lexemes(t).len()
        }) by {
            lemma_array_fits(toks@, pos as int, t);
        }
    }
    let q = expect(toks, e, Token::SpecialCloseBracket)?;
    let qb = expect(toks, q, Token::WordOf)?;
    let (component, f) = parse_type_at(toks, qb)?;
    proof {
        assert(span(toks@, pos as int, pos as int) =~= packed_lexemes(false));
        lemma_span_split(toks@, pos as int, p as int, pa as int);
        lemma_span_split(toks@, pos as int, pa as int, pb as int);
        lemma_span_split(toks@, pos as int, pb as int, e as int);
        lemma_span_split(toks@, pos as int, e as int, q as int);
        lemma_span_split(toks@, pos as int, q as int, qb as int);
        lemma_span_split(toks@, pos as int, qb as int, f as int);
    }
    let t = Type::Array { index, component: Box::new(component), packed };
    proof {
        assert(span(toks@, pos as int, f as int) =~= type_lexemes(t));
    }
    Ok((t, f))
}

/// `[packed] record [field list] end` from `pos`.
fn parse_record_at<'a>(toks: &Vec<Token<'a>>, pos: usize, packed: bool) -> (r: Parsed<'a, Type<'a>>)
    ensures
        !is_lexical(r),
        r is Ok ==> ({
            let (t, e) = r->Ok_0;
            &&& pos < e <= toks@.len()
            &&& span(toks@, pos as int, e as int) == type_lexemes(t)
            &&& type_wf(t)
        }),
    decreases toks@.len() - pos, 2nat,
{
    let p = if packed {
        expect(toks, pos, Token::WordPacked)?
    } else {
        pos
    };
    let pa = expect(toks, p, Token::WordRecord)?;
    proof {
        assert(span(toks@, pos as int, pos as int) =~= packed_lexemes(false));
        lemma_span_split(toks@, pos as int, p as int, pa as int);
    }
    if at(toks, pa, Token::WordEnd) {
        proof {
            lemma_span_one(toks@, pa as int);
            lemma_span_split(toks@, pos as int, pa as int, pa + 1);
        }
        let t = Type::Record { field_list: None, packed };
        proof {
            assert(optional_field_list_lexemes(None) =~= seq![]);
            assert(optional_field_list_wf(None));
            assert(span(toks@, pos as int, pa + 1) =~= type_lexemes(t));
        }
        return Ok((t, pa + 1));
    }
    let (fields, q) = parse_field_list_at(toks, pa)?;
    let e = expect(toks, q, Token::WordEnd)?;
    proof {
        lemma_span_split(toks@, pos as int, pa as int, q as int);
        lemma_span_split(toks@, pos as int, q as int, e as int);
    }
    let ghost g = fields;
    let t = Type::Record { field_list: Some(fields), packed };
    proof {
        assert(optional_field_list_lexemes(Some(g)) == field_list_lexemes(g));
        assert(optional_field_list_wf(Some(g)) == field_list_wf(g));
        assert(span(toks@, pos as int, e as int) =~= type_lexemes(t));
    }
    Ok((t, e))
}

/// A record's fixed part, variant part, or both, from `pos`.
fn parse_field_list_at<'a>(toks: &Vec<Token<'a>>, pos: usize) -> (r: Parsed<'a, RecordFieldList<'a>>)
    ensures
        !is_lexical(r),
        r is Ok ==> ({
            let (l, e) = r->Ok_0;
            &&& pos < e <= toks@.len()
            &&& span(toks@, pos as int, e as int) == field_list_lexemes(l)
            &&& field_list_wf(l)
        }),
    decreases toks@.len() - pos, 1nat,
{
    if at(toks, pos, Token::WordCase) {
        let (vp, e) = parse_variant_part_at(toks, pos)?;
        return Ok((RecordFieldList { fixed_part: None, variant_part: Some(vp) }, e));
    }
    let (first, mut e) = parse_section_at(toks, pos)?;
    let mut records: Vec<RecordSection<'a>> = Vec::new();
    records.push(first);
    proof {
        assert(records@.drop_last() =~= Seq::<RecordSection<'a>>::empty());
        assert(sections_wf(Seq::<RecordSection<'a>>::empty()));
        assert(sections_wf(records@));
    }
    loop
        invariant
            pos < e <= toks@.len(),
            records@.len() >= 1,
            span(toks@, pos as int, e as int) == section_list_lexemes(records@),
            sections_wf(records@),
        decreases toks@.len() - e,
    {
        if !at(toks, e, Token::SpecialDotComma) {
            let fixed_part = Some(RecordFixedPart { records });
            return Ok((RecordFieldList { fixed_part, variant_part: None }, e));
        }
        proof {
            lemma_span_one(toks@, e as int);
            lemma_span_split(toks@, pos as int, e as int, e + 1);
        }
        if at(toks, e + 1, Token::WordCase) {
            let (vp, f) = parse_variant_part_at(toks, e + 1)?;
            proof {
                lemma_span_split(toks@, pos as int, e + 1, f as int);
            }
            let fixed_part = Some(RecordFixedPart { records });
            return Ok((RecordFieldList { fixed_part, variant_part: Some(vp) }, f));
        }
        let (s, f) = parse_section_at(toks, e + 1)?;
        proof {
            lemma_span_split(toks@, pos as int, e + 1, f as int);
            assert(records@.push(s).drop_last() =~= records@);
        }
        records.push(s);
        e = f;
    }
}

/// `id (, id)* : t` from `pos`.
fn parse_section_at<'a>(toks: &Vec<Token<'a>>, pos: usize) -> (r: Parsed<'a, RecordSection<'a>>)
    ensures
        !is_lexical(r),
        r is Ok ==> ({
            let (s, e) = r->Ok_0;
            &&& pos < e <= toks@.len()
            &&& span(toks@, pos as int, e as int) == section_lexemes(s)
            &&& section_wf(s)
        }),
    decreases toks@.len() - pos, 0nat,
{
    let (identifier_list, p) = parse_ident_list_at(toks, pos)?;
    let q = expect(toks, p, Token::SpecialColon)?;
    let (t, e) = parse_type_at(toks, q)?;
    proof {
        lemma_span_split(toks@, pos as int, p as int, q as int);
        lemma_span_split(toks@, pos as int, q as int, e as int);
    }
    Ok((RecordSection { identifier_list, type_denoter: Box::new(t) }, e))
}

/// `case [id :] t of v (; v)*` from `pos`.
fn parse_variant_part_at<'a>(toks: &Vec<Token<'a>>, pos: usize) -> (r: Parsed<'a, RecordVariantPart<'a>>)
    ensures
        !is_lexical(r),
        r is Ok ==> ({
            let (v, e) = r->Ok_0;
            &&& pos < e <= toks@.len()
            &&& span(toks@, pos as int, e as int) == variant_part_lexemes(v)
            &&& variant_part_wf(v)
        }),
    decreases toks@.len() - pos, 0nat,
{
    let p = expect(toks, pos, Token::WordCase)?;
    let n = toks.len();
    let (variant_selector, q) = if p < n && at(toks, p + 1, Token::SpecialColon) {
        let (x, pa) = identifier_at(toks, p)?;
        let pb = expect(toks, pa, Token::SpecialColon)?;
        let (t, q) = parse_type_at(toks, pb)?;
        proof {
            lemma_span_split(toks@, p as int, pa as int, pb as int);
            lemma_span_split(toks@, p as int, pb as int, q as int);
        }
        (VariantSelector { tag_field: Some(x), tag_type: Box::new(t) }, q)
    } else {
        let (t, q) = parse_type_at(toks, p)?;
        (VariantSelector { tag_field: None, tag_type: Box::new(t) }, q)
    };
    let qa = expect(toks, q, Token::WordOf)?;
    let (first, mut e) = parse_case_variant_at(toks, qa)?;
    let mut variants: Vec<CaseVariant<'a>> = Vec::new();
    variants.push(first);
    proof {
        assert(variants@.drop_last() =~= Seq::<CaseVariant<'a>>::empty());
        assert(case_variants_wf(Seq::<CaseVariant<'a>>::empty()));
        assert(case_variants_wf(variants@));
    }
    while at(toks, e, Token::SpecialDotComma)
        invariant
            pos < qa < e <= toks@.len(),
            variants@.len() >= 1,
            span(toks@, qa as int, e as int) == case_variant_list_lexemes(variants@),
            case_variants_wf(variants@),
        decreases toks@.len() - e,
    {
        let (v, f) = parse_case_variant_at(toks, e + 1)?;
        proof {
            lemma_span_one(toks@, e as int);
            lemma_span_split(toks@, qa as int, e as int, e + 1);
            lemma_span_split(toks@, qa as int, e + 1, f as int);
            assert(variants@.push(v).drop_last() =~= variants@);
        }
        variants.push(v);
        e = f;
    }
    proof {
        lemma_span_split(toks@, pos as int, p as int, q as int);
        lemma_span_split(toks@, pos as int, q as int, qa as int);
        lemma_span_split(toks@, pos as int, qa as int, e as int);
    }
    let v = RecordVariantPart { variant_selector, variants };
    proof {
        assert(span(toks@, pos as int, e as int) =~= variant_part_lexemes(v));
    }
    Ok((v, e))
}

/// `c (, c)* : ( [field list] )` from `pos`.
fn parse_case_variant_at<'a>(toks: &Vec<Token<'a>>, pos: usize) -> (r: Parsed<'a, CaseVariant<'a>>)
    ensures
        !is_lexical(r),
        r is Ok ==> ({
            let (v, e) = r->Ok_0;
            &&& pos < e <= toks@.len()
            &&& span(toks@, pos as int, e as int) == case_variant_lexemes(v)
            &&& case_variant_wf(v)
        }),
    decreases toks@.len() - pos, 0nat,
{
    let (case_constants, p) = parse_constant_list_at(toks, pos)?;
    let pa = expect(toks, p, Token::SpecialColon)?;
    let pb = expect(toks, pa, Token::SpecialOpenParen)?;
    let (field_list, q) = if at(toks, pb, Token::SpecialCloseParen) {
        (None, pb)
    } else {
        let (l, q) = parse_field_list_at(toks, pb)?;
        (Some(l), q)
    };
    let e = expect(toks, q, Token::SpecialCloseParen)?;
    proof {
        assert(span(toks@, pb as int, pb as int) =~= optional_field_list_lexemes(None));
        lemma_span_split(toks@, pos as int, p as int, pa as int);
        lemma_span_split(toks@, pos as int, pa as int, pb as int);
        lemma_span_split(toks@, pos as int, pb as int, q as int);
        lemma_span_split(toks@, pos as int, q as int, e as int);
    }
    let v = CaseVariant { case_constants, field_list };
    proof {
        assert(span(toks@, pos as int, e as int) =~= case_variant_lexemes(v));
    }
    Ok((v, e))
}

} // verus!

verus! {

pub open spec fn is_lexical<'a, T>(r: Result<T, ParseError<'a>>) -> bool {
    r is Err && r->Err_0 is Lexical
}

/// The number of tokens of the constant that starts at `pos`.
pub open spec fn constant_width<'a>(toks: Seq<Token<'a>>, pos: int) -> int {
    if toks[pos] == Token::SpecialMinus {
        2
    } else {
        1
    }
}

/// `toks` is one constant.
pub open spec fn is_constant<'a>(toks: Seq<Token<'a>>) -> bool {
    constant_starts(toks, 0) && toks.len() == constant_width(toks, 0)
}

/// `toks` is `id = constant`.
pub open spec fn is_constant_def<'a>(toks: Seq<Token<'a>>) -> bool {
    &&& toks.len() >= 3
    &&& toks[0] is Identifier
    &&& toks[1] == Token::SpecialEqual
    &&& constant_starts(toks, 2)
    &&& toks.len() == 2 + constant_width(toks, 2)
}

/// `toks` is one identifier that names a simple type.
pub open spec fn is_simple_type<'a>(toks: Seq<Token<'a>>) -> bool {
    toks.len() == 1 && toks[0] is Identifier && exists|s: SimpleType| toks[0].text() == simple_name(s)
}

fn finish<'a, T>(toks: &Vec<Token<'a>>, parsed: (T, usize)) -> (r: Result<T, ParseError<'a>>)
    ensures
        r is Ok <==> parsed.1 == toks@.len(),
        r is Ok ==> r->Ok_0 == parsed.0,
        r is Err ==> r->Err_0 == error_at(toks@, parsed.1 as int),
        !is_lexical(r),
{
    if parsed.1 == toks.len() {
        Ok(parsed.0)
    } else {
        Err(unexpected(toks, parsed.1))
    }
}

/// `stop` as a position.
pub open spec fn stop_at(stop: Option<usize>) -> Option<int> {
    match stop {
        Some(q) => Some(q as int),
        None => None,
    }
}

/// The error of a parse whose tokens are `toks`, read up to the scanner's
/// `stop`, where the grammar first cannot go on at `k`: the token there,
/// else the scanner's failure, else the end of input. So a syntax error
/// among the tokens read comes before a lexical error after them.
pub open spec fn failure<'a>(toks: Seq<Token<'a>>, k: int, stop: Option<int>) -> ParseError<'a> {
    if 0 <= k < toks.len() {
        error_at(toks, k)
    } else {
        match stop {
            Some(q) => ParseError::Lexical { error: LexingError::Other, position: q as usize },
            None => ParseError::UnexpectedEndOfInput,
        }
    }
}

/// `toks` is one number.
pub open spec fn is_number<'a>(toks: Seq<Token<'a>>) -> bool {
    toks.len() == 1 && (toks[0] is Integer || toks[0] is Real)
}

pub open spec fn number_stop<'a>(toks: Seq<Token<'a>>) -> int {
    if toks.len() > 0 && (toks[0] is Integer || toks[0] is Real) {
        1
    } else {
        0
    }
}

pub open spec fn constant_def_stop<'a>(toks: Seq<Token<'a>>) -> int {
    if !(toks.len() > 0 && toks[0] is Identifier) {
        0
    } else if !(toks.len() > 1 && toks[1] == Token::SpecialEqual) {
        1
    } else {
        constant_stop(toks, 2)
    }
}

pub open spec fn simple_type_stop<'a>(toks: Seq<Token<'a>>) -> int {
    if toks.len() > 0 && toks[0] is Identifier && exists|s: SimpleType|
        toks[0].text() == simple_name(s) {
        1
    } else {
        0
    }
}

/// Hands on the parse of the tokens read, unless the scanner stopped and the
/// parse did not fail on one of those tokens: then the scanner's failure.
fn settle<'a, T>(r: Result<T, ParseError<'a>>, stop: Option<usize>) -> (out: Result<T, ParseError<'a>>)
    ensures
        match stop {
            None => out == r,
            Some(q) => if r is Err && r->Err_0 is UnexpectedToken {
                out == r
            } else {
                out == Err::<T, ParseError<'a>>(
                    ParseError::Lexical { error: LexingError::Other, position: q },
                )
            },
        },
{
    match stop {
        None => r,
        Some(q) => match r {
            Err(ParseError::UnexpectedToken { found, position }) => Err(
                ParseError::UnexpectedToken { found, position },
            ),
            _ => Err(ParseError::Lexical { error: LexingError::Other, position: q }),
        },
    }
}

/// Parses the whole of `input` as one number.
pub fn parse_number<'a>(input: &'a str) -> (r: Result<Number<'a>, ParseError<'a>>)
    ensures
        exists|toks: Seq<Token<'a>>, stop: Option<int>|
            {
                &&& #[trigger] scans_to(input@, toks, stop)
                &&& r is Ok <==> stop is None && is_number(toks)
                &&& r is Ok ==> models(toks) == number_lexemes(r->Ok_0)
                &&& r is Err ==> r->Err_0 == failure(toks, number_stop(toks), stop)
            },
{
    let (toks, stop) = scan(input);
    let r = match parse_number_at(&toks, 0) {
        Ok(p) => finish(&toks, p),
        Err(e) => Err(e),
    };
    proof {
        assert(toks@.subrange(0, toks@.len() as int) =~= toks@);
    }
    let out = settle(r, stop);
    proof {
        assert(scans_to(input@, toks@, stop_at(stop)));
    }
    out
}

/// Parses the whole of `input` as one constant.
pub fn parse_constant<'a>(input: &'a str) -> (r: Result<Constant<'a>, ParseError<'a>>)
    ensures
        exists|toks: Seq<Token<'a>>, stop: Option<int>|
            {
                &&& #[trigger] scans_to(input@, toks, stop)
                &&& r is Ok <==> stop is None && is_constant(toks)
                &&& r is Ok ==> models(toks) == constant_lexemes(r->Ok_0)
                &&& r is Err ==> r->Err_0 == failure(toks, constant_stop(toks, 0), stop)
            },
{
    let (toks, stop) = scan(input);
    let r = match parse_constant_at(&toks, 0) {
        Ok(p) => finish(&toks, p),
        Err(e) => Err(e),
    };
    proof {
        assert(toks@.subrange(0, toks@.len() as int) =~= toks@);
    }
    let out = settle(r, stop);
    proof {
        assert(scans_to(input@, toks@, stop_at(stop)));
    }
    out
}

/// Parses the whole of `input` as `identifier = constant`.
pub fn parse_constant_def<'a>(input: &'a str) -> (r: Result<ConstantDef<'a>, ParseError<'a>>)
    ensures
        exists|toks: Seq<Token<'a>>, stop: Option<int>|
            {
                &&& #[trigger] scans_to(input@, toks, stop)
                &&& r is Ok <==> stop is None && is_constant_def(toks)
                &&& r is Ok ==> models(toks) == constant_def_lexemes(r->Ok_0)
                &&& r is Err ==> r->Err_0 == failure(toks, constant_def_stop(toks), stop)
            },
{
    let (toks, stop) = scan(input);
    let r = match identifier_at(&toks, 0) {
        Ok((ident, p)) => match expect(&toks, p, Token::SpecialEqual) {
            Ok(q) => match parse_constant_at(&toks, q) {
                Ok((value, e)) => {
                    proof {
                        lemma_span_split(toks@, 0, p as int, q as int);
                        lemma_span_split(toks@, 0, q as int, e as int);
                    }
                    finish(&toks, (ConstantDef { ident, value }, e))
                },
                Err(e) => Err(e),
            },
            Err(e) => Err(e),
        },
        Err(e) => Err(e),
    };
    proof {
        assert(toks@.subrange(0, toks@.len() as int) =~= toks@);
    }
    let out = settle(r, stop);
    proof {
        assert(scans_to(input@, toks@, stop_at(stop)));
    }
    out
}

/// Parses the whole of `input` as the name of a simple type.
pub fn parse_simple_type<'a>(input: &'a str) -> (r: Result<SimpleType, ParseError<'a>>)
    ensures
        exists|toks: Seq<Token<'a>>, stop: Option<int>|
            {
                &&& #[trigger] scans_to(input@, toks, stop)
                &&& r is Ok <==> stop is None && is_simple_type(toks)
                &&& r is Ok ==> toks[0].text() == simple_name(r->Ok_0)
                &&& r is Err ==> r->Err_0 == failure(toks, simple_type_stop(toks), stop)
            },
{
    let (toks, stop) = scan(input);
    let r = if toks.len() == 0 {
        Err(ParseError::UnexpectedEndOfInput)
    } else {
        match toks[0] {
            Token::Identifier(x) => match simple_type_of(x) {
                Some(s) => if toks.len() == 1 {
                    Ok(s)
                } else {
                    Err(unexpected(&toks, 1))
                },
                None => Err(unexpected(&toks, 0)),
            },
            _ => Err(unexpected(&toks, 0)),
        }
    };
    let out = settle(r, stop);
    proof {
        assert(scans_to(input@, toks@, stop_at(stop)));
    }
    out
}

/// Parses the whole of `input` as an enumeration `(a, b, ...)`; its names.
pub fn parse_enumerated_type<'a>(input: &'a str) -> (r: Result<Vec<&'a str>, ParseError<'a>>)
    ensures
        exists|toks: Seq<Token<'a>>, stop: Option<int>|
            {
                &&& #[trigger] scans_to(input@, toks, stop)
                &&& r is Ok <==> stop is None && is_enumeration(toks)
                &&& r is Ok ==> r->Ok_0@.len() >= 1 && models(toks) == enumerated_lexemes(r->Ok_0@)
                &&& r is Err ==> r->Err_0 == failure(toks, enumeration_stop(toks, 0), stop)
            },
{
    let (toks, stop) = scan(input);
    let parsed = parse_enumerated_at(&toks, 0);
    let ghost parsed_g = parsed;
    let r = match parsed {
        Ok(p) => finish(&toks, p),
        Err(e) => Err(e),
    };
    proof {
        assert(toks@.subrange(0, toks@.len() as int) =~= toks@);
        if is_enumeration(toks@) {
            let n = toks@.len() as int;
            assert(ident_list_span(toks@, 1, n - 1));
            if parsed_g is Ok {
                let e = parsed_g->Ok_0.1 as int;
                lemma_list_end_unique(toks@, 1, e - 1, n - 1);
            }
        }
    }
    let out = settle(r, stop);
    proof {
        assert(scans_to(input@, toks@, stop_at(stop)));
    }
    out
}

/// Parses the whole of `input` as one type.
pub fn parse_type<'a>(input: &'a str) -> (r: Result<Type<'a>, ParseError<'a>>)
    ensures
        exists|toks: Seq<Token<'a>>, stop: Option<int>|
            {
                &&& #[trigger] scans_to(input@, toks, stop)
                &&& r is Ok ==> stop is None && models(toks) == type_lexemes(r->Ok_0) && type_wf(
                    r->Ok_0,
                )
                &&& stop is None && (is_named_type(toks) || is_subrange(toks) || is_enumeration(
                    toks,
                )) ==> r is Ok
                &&& stop is None && (exists|t: Type<'a>|
                    is_plain(t) && models(toks) == #[trigger] type_lexemes(t)) ==> r is Ok
                &&& r is Err && r->Err_0 is Lexical ==> stop == Some(
                    r->Err_0->Lexical_position as int,
                )
                &&& !(toks.len() > 0 && type_starts(toks[0])) ==> r == Err::<Type<'a>, ParseError<'a>>(
                    failure(toks, 0, stop),
                )
                &&& toks.len() >= 2 && toks[0] == Token::WordArray && toks[1]
                    == Token::SpecialOpenBracket && !(toks.len() > 2 && type_starts(toks[2])) ==> r
                    == Err::<Type<'a>, ParseError<'a>>(failure(toks, 2, stop))
            },
{
    let (toks, stop) = scan(input);
    let parsed = parse_type_at(&toks, 0);
    let ghost parsed_g = parsed;
    let r = match parsed {
        Ok(p) => finish(&toks, p),
        Err(e) => Err(e),
    };
    proof {
        assert(toks@.subrange(0, toks@.len() as int) =~= toks@);
        if is_enumeration(toks@) {
            let n = toks@.len() as int;
            assert(ident_list_span(toks@, 1, n - 1));
            if parsed_g is Ok {
                let e = parsed_g->Ok_0.1 as int;
                lemma_list_end_unique(toks@, 1, e - 1, n - 1);
            }
        }
    }
    proof {
        if exists|t: Type<'a>| is_plain(t) && models(toks@) == #[trigger] type_lexemes(t) {
            let t = choose|t: Type<'a>| is_plain(t) && models(toks@) == #[trigger] type_lexemes(t);
            assert(type_fits(toks@, 0, t));
        }
    }
    let out = settle(r, stop);
    proof {
        assert(scans_to(input@, toks@, stop_at(stop)));
    }
    out
}

/// Parses the whole of `input` as `identifier = type`.
pub fn parse_type_def<'a>(input: &'a str) -> (r: Result<TypeDef<'a>, ParseError<'a>>)
    ensures
        exists|toks: Seq<Token<'a>>, stop: Option<int>|
            {
                &&& #[trigger] scans_to(input@, toks, stop)
                &&& r is Ok ==> stop is None && models(toks) == type_def_lexemes(r->Ok_0)
                    && type_wf(r->Ok_0.value)
                &&& stop is None && is_simple_type_def(toks) ==> r is Ok
                &&& stop is None && (exists|d: TypeDef<'a>|
                    is_plain(d.value) && models(toks) == #[trigger] type_def_lexemes(d)) ==> r is Ok
                &&& r is Err && r->Err_0 is Lexical ==> stop == Some(
                    r->Err_0->Lexical_position as int,
                )
                &&& !(toks.len() > 0 && toks[0] is Identifier) ==> r
                    == Err::<TypeDef<'a>, ParseError<'a>>(failure(toks, 0, stop))
                &&& toks.len() >= 2 && toks[0] is Identifier && toks[1] == Token::SpecialEqual
                    && !(toks.len() > 2 && type_starts(toks[2])) ==> r == Err::<
                    TypeDef<'a>,
                    ParseError<'a>,
                >(failure(toks, 2, stop))
                &&& toks.len() > 0 && toks[0] is Identifier && !(toks.len() > 1 && toks[1]
                    == Token::SpecialEqual) ==> r == Err::<TypeDef<'a>, ParseError<'a>>(
                    failure(toks, 1, stop),
                )
            },
{
    let (toks, stop) = scan(input);
    let r = match identifier_at(&toks, 0) {
        Ok((ident, p)) => match expect(&toks, p, Token::SpecialEqual) {
            Ok(q) => match parse_type_at(&toks, q) {
                Ok((value, e)) => {
                    proof {
                        lemma_span_split(toks@, 0, p as int, q as int);
                        lemma_span_split(toks@, 0, q as int, e as int);
                    }
                    finish(&toks, (TypeDef { ident, value }, e))
                },
                Err(e) => Err(e),
            },
            Err(e) => Err(e),
        },
        Err(e) => Err(e),
    };
    proof {
        assert(toks@.subrange(0, toks@.len() as int) =~= toks@);
    }
    proof {
        if exists|d: TypeDef<'a>| is_plain(d.value) && models(toks@) == #[trigger] type_def_lexemes(d) {
            let d = choose|d: TypeDef<'a>|
                is_plain(d.value) && models(toks@) == #[trigger] type_def_lexemes(d);
            assert(toks@.subrange(0, toks@.len() as int) =~= toks@);
            assert(models(toks@).len() == toks@.len());
            let x = seq![ident_lexeme(d.ident)];
            let eq = fixed(Token::SpecialEqual);
            let y = type_lexemes(d.value);
            lemma_span_parts(toks@, 0, x + eq, y);
            lemma_span_parts(toks@, 0, x, eq);
            assert(span(toks@, 0, 1)[0] == model(toks@[0]));
            assert(span(toks@, 1, 2)[0] == model(toks@[1]));
            assert(type_fits(toks@, 2, d.value));
        }
    }
    let out = settle(r, stop);
    proof {
        assert(scans_to(input@, toks@, stop_at(stop)));
    }
    out
}

} // verus!

verus! {

/// The text that a constant holds: its name, its digits, or its quoted string.
pub open spec fn constant_text(c: Constant) -> Seq<char> {
    match c {
        Constant::Identifier { is_negative, ident } => ident@,
        Constant::Number(Number::Integer(x)) => x@,
        Constant::Number(Number::Real(x)) => x@,
        Constant::String(x) => x@,
    }
}

/// Literals are kept verbatim: the text of a constant read from `s` is the
/// text of one of its tokens, which is exactly the slice of `s` that the
/// longest match took there.
pub proof fn lemma_constant_text_verbatim<'a>(s: Seq<char>, toks: Seq<Token<'a>>, c: Constant<'a>)
    requires
        lexes(s, toks),
        models(toks) == constant_lexemes(c),
    ensures
        exists|k: int|
            0 <= k < toks.len() && scanned_in(s, #[trigger] toks[k]) && toks[k].text()
                == constant_text(c),
{
    lemma_tokens_verbatim(s, 0, toks, s.len() as int);
    let k: int = if c is Identifier && c->is_negative {
        1
    } else {
        0
    };
    assert(models(toks).len() == toks.len());
    assert(models(toks)[k] == model(toks[k]));
    assert(toks[k].text() == constant_text(c));
}

} // verus!

verus! {

/// A range symbol stands at `k`.
pub open spec fn range_at<'a>(toks: Seq<Token<'a>>, k: int) -> bool {
    0 <= k < toks.len() && toks[k] == Token::SpecialRange
}

/// The tokens from `pos` on begin with the lexemes of the record-free type
/// `t`, and no range symbol follows them.
pub open spec fn type_fits<'a>(toks: Seq<Token<'a>>, pos: int, t: Type<'a>) -> bool {
    let n = type_lexemes(t).len() as int;
    &&& is_plain(t)
    &&& 0 <= pos
    &&& pos + n <= toks.len()
    &&& span(toks, pos, pos + n) == type_lexemes(t)
    &&& !range_at(toks, pos + n)
}

/// The tokens from `pos` on begin with the lexemes of the list `ts` of
/// record-free types, and neither a comma nor a range symbol follows them.
pub open spec fn list_fits<'a>(toks: Seq<Token<'a>>, pos: int, ts: Seq<Type<'a>>) -> bool {
    let n = type_list_lexemes(ts).len() as int;
    &&& ts.len() >= 1
    &&& all_plain(ts)
    &&& 0 <= pos
    &&& pos + n <= toks.len()
    &&& span(toks, pos, pos + n) == type_list_lexemes(ts)
    &&& !range_at(toks, pos + n)
    &&& !(0 <= pos + n < toks.len() && toks[pos + n] == Token::SpecialComma)
}

proof fn lemma_span_parts<'a>(toks: Seq<Token<'a>>, a: int, x: Seq<Lexeme>, y: Seq<Lexeme>)
    requires
        0 <= a,
        a + x.len() + y.len() <= toks.len(),
        span(toks, a, a + x.len() + y.len()) == x + y,
    ensures
        span(toks, a, a + x.len()) == x,
        span(toks, a + x.len(), a + x.len() + y.len()) == y,
{
    let b = a + x.len();
    let c = a + x.len() + y.len();
    lemma_span_split(toks, a, b, c);
    let s1 = span(toks, a, b);
    let s2 = span(toks, b, c);
    assert(s1.len() == x.len());
    assert forall|i: int| 0 <= i < x.len() implies s1[i] == x[i] by {
        assert((s1 + s2)[i] == s1[i]);
        assert((x + y)[i] == x[i]);
    }
    assert forall|i: int| 0 <= i < y.len() implies s2[i] == y[i] by {
        assert((s1 + s2)[i + x.len()] == s2[i]);
        assert((x + y)[i + x.len()] == y[i]);
    }
    assert(s1 =~= x);
    assert(s2 =~= y);
}

proof fn lemma_plain_nonempty(t: Type)
    requires
        is_plain(t),
    ensures
        type_lexemes(t).len() >= 1,
{
}

proof fn lemma_constant_fits<'a>(toks: Seq<Token<'a>>, a: int, c: Constant<'a>)
    requires
        0 <= a,
        a + constant_lexemes(c).len() <= toks.len(),
        span(toks, a, a + constant_lexemes(c).len()) == constant_lexemes(c),
    ensures
        constant_starts(toks, a),
        constant_width(toks, a) == constant_lexemes(c).len(),
{
    lemma_span_one(toks, a);
    assert(span(toks, a, a + constant_lexemes(c).len())[0] == model(toks[a]));
    if c is Identifier && c->is_negative {
        assert(span(toks, a, a + 2)[1] == model(toks[a + 1]));
    }
}

proof fn lemma_ident_list_fits<'a>(toks: Seq<Token<'a>>, a: int, ids: Seq<&'a str>)
    requires
        ids.len() >= 1,
        0 <= a,
        a + ident_list_lexemes(ids).len() <= toks.len(),
        span(toks, a, a + ident_list_lexemes(ids).len()) == ident_list_lexemes(ids),
    ensures
        ident_list_span(toks, a, a + ident_list_lexemes(ids).len()),
    decreases ids.len(),
{
    let n = ident_list_lexemes(ids).len() as int;
    if ids.len() == 1 {
        assert(span(toks, a, a + 1)[0] == model(toks[a]));
    } else {
        let x = ident_list_lexemes(ids.drop_last());
        let c = fixed(Token::SpecialComma);
        let y = seq![ident_lexeme(ids.last())];
        lemma_span_parts(toks, a, x + c, y);
        lemma_span_parts(toks, a, x, c);
        lemma_ident_list_fits(toks, a, ids.drop_last());
        let m = a + x.len();
        assert(span(toks, m, m + 1)[0] == model(toks[m]));
        assert(span(toks, m + 1, m + 2)[0] == model(toks[m + 1]));
        assert forall|k: int| a <= k < a + n implies if (k - a) % 2 == 0 {
            #[trigger] toks[k] is Identifier
        } else {
            toks[k] == Token::SpecialComma
        } by {
            if k < m {
                assert(ident_list_span(toks, a, m));
            }
        }
    }
}

proof fn lemma_list_fits_split<'a>(toks: Seq<Token<'a>>, pos: int, ts: Seq<Type<'a>>)
    requires
        list_fits(toks, pos, ts),
    ensures
        type_fits(toks, pos, ts[0]),
        ts.len() == 1 ==> !(0 <= pos + type_lexemes(ts[0]).len() < toks.len() && toks[pos
            + type_lexemes(ts[0]).len()] == Token::SpecialComma),
        ts.len() > 1 ==> ({
            let m = pos + type_lexemes(ts[0]).len();
            &&& m < toks.len()
            &&& toks[m] == Token::SpecialComma
            &&& list_fits(toks, m + 1, ts.drop_first())
            &&& type_list_lexemes(ts).len() == m - pos + 1 + type_list_lexemes(ts.drop_first()).len()
        }),
{
    lemma_type_list_first(ts);
    lemma_all_plain(ts);
    lemma_all_plain(ts.drop_first());
    if ts.len() > 1 {
        let x = type_lexemes(ts[0]);
        let c = fixed(Token::SpecialComma);
        let y = type_list_lexemes(ts.drop_first());
        lemma_span_parts(toks, pos, x + c, y);
        lemma_span_parts(toks, pos, x, c);
        let m = pos + x.len();
        assert(span(toks, m, m + 1)[0] == model(toks[m]));
        assert forall|i: int| 0 <= i < ts.drop_first().len() implies is_plain(
            #[trigger] ts.drop_first()[i],
        ) by {
            assert(ts.drop_first()[i] == ts[i + 1]);
        }
    }
}

proof fn lemma_array_fits<'a>(toks: Seq<Token<'a>>, pos: int, t: Type<'a>)
    requires
        type_fits(toks, pos, t),
        t is Array,
    ensures
        ({
            let p = pos + packed_lexemes(t->Array_packed).len();
            let ll = type_list_lexemes(t->Array_index@);
            let m = p + 2 + ll.len();
            let comp = *t->Array_component;
            &&& t->Array_packed ==> toks[pos] == Token::WordPacked
            &&& toks[p] == Token::WordArray
            &&& toks[p + 1] == Token::SpecialOpenBracket
            &&& list_fits(toks, p + 2, t->Array_index@)
            &&& toks[m] == Token::SpecialCloseBracket
            &&& toks[m + 1] == Token::WordOf
            &&& type_fits(toks, m + 2, comp)
            &&& m + 2 + type_lexemes(comp).len() == pos + type_lexemes(t).len()
        }),
{
    let pk = packed_lexemes(t->Array_packed);
    let a = fixed(Token::WordArray);
    let b = fixed(Token::SpecialOpenBracket);
    let ll = type_list_lexemes(t->Array_index@);
    let c = fixed(Token::SpecialCloseBracket);
    let o = fixed(Token::WordOf);
    let lc = type_lexemes(*t->Array_component);
    lemma_span_parts(toks, pos, pk + a + b + ll + c + o, lc);
    lemma_span_parts(toks, pos, pk + a + b + ll + c, o);
    lemma_span_parts(toks, pos, pk + a + b + ll, c);
    lemma_span_parts(toks, pos, pk + a + b, ll);
    lemma_span_parts(toks, pos, pk + a, b);
    lemma_span_parts(toks, pos, pk, a);
    let p = pos + pk.len();
    let m = p + 2 + ll.len();
    if t->Array_packed {
        assert(span(toks, pos, pos + 1)[0] == model(toks[pos]));
    }
    assert(span(toks, p, p + 1)[0] == model(toks[p]));
    assert(span(toks, p + 1, p + 2)[0] == model(toks[p + 1]));
    assert(span(toks, m, m + 1)[0] == model(toks[m]));
    assert(span(toks, m + 1, m + 2)[0] == model(toks[m + 1]));
}

proof fn lemma_subrange_fits<'a>(toks: Seq<Token<'a>>, pos: int, t: Type<'a>)
    requires
        type_fits(toks, pos, t),
        t is SubRange,
    ensures
        subrange_at(toks, pos),
        subrange_end(toks, pos) == pos + type_lexemes(t).len(),
{
    let x = constant_lexemes(t->SubRange_start);
    let r = fixed(Token::SpecialRange);
    let y = constant_lexemes(t->SubRange_end);
    lemma_span_parts(toks, pos, x + r, y);
    lemma_span_parts(toks, pos, x, r);
    lemma_constant_fits(toks, pos, t->SubRange_start);
    lemma_constant_fits(toks, pos + x.len() + 1, t->SubRange_end);
    assert(span(toks, pos + x.len(), pos + x.len() + 1)[0] == model(toks[pos + x.len()]));
}

proof fn lemma_enumeration_fits<'a>(toks: Seq<Token<'a>>, pos: int, t: Type<'a>)
    requires
        type_fits(toks, pos, t),
        t is Enumerated,
    ensures
        toks[pos] == Token::SpecialOpenParen,
        ident_list_span(toks, pos + 1, pos + type_lexemes(t).len() - 1),
        toks[pos + type_lexemes(t).len() - 1] == Token::SpecialCloseParen,
{
    let o = fixed(Token::SpecialOpenParen);
    let il = ident_list_lexemes(t->Enumerated_0@);
    let c = fixed(Token::SpecialCloseParen);
    lemma_span_parts(toks, pos, o + il, c);
    lemma_span_parts(toks, pos, o, il);
    lemma_ident_list_fits(toks, pos + 1, t->Enumerated_0@);
    assert(span(toks, pos, pos + 1)[0] == model(toks[pos]));
    let m = pos + 1 + il.len();
    assert(span(toks, m, m + 1)[0] == model(toks[m]));
}

} // verus!

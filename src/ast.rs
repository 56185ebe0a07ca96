use vstd::prelude::*;
use crate::tokens::Token;

verus! {

#[derive(Debug, Clone, PartialEq, Eq)]
pub enum Number<'a> {
    Integer(&'a str),
    Real(&'a str),
}

#[derive(Debug, Clone, PartialEq, Eq)]
pub enum Constant<'a> {
    Identifier { is_negative: bool, ident: &'a str },
    Number(Number<'a>),
    String(&'a str),
}

#[derive(Debug, Clone, PartialEq, Eq)]
pub struct ConstantDef<'a> {
    pub ident: &'a str,
    pub value: Constant<'a>,
}

#[derive(Debug, Clone, Copy, PartialEq, Eq)]
pub enum SimpleType {
    Integer,
    Real,
    Boolean,
    Char,
}

#[derive(Debug, PartialEq, Eq)]
pub struct VariantSelector<'input> {
    pub tag_field: Option<&'input str>,
    pub tag_type: Box<Type<'input>>,
}

#[derive(Debug, PartialEq, Eq)]
pub struct CaseVariant<'input> {
    pub case_constants: Vec<Constant<'input>>,
    pub field_list: Option<RecordFieldList<'input>>,
}

#[derive(Debug, PartialEq, Eq)]
pub struct RecordSection<'input> {
    pub identifier_list: Vec<&'input str>,
    pub type_denoter: Box<Type<'input>>,
}

#[derive(Debug, PartialEq, Eq)]
pub struct RecordFixedPart<'input> {
    pub records: Vec<RecordSection<'input>>,
}

#[derive(Debug, PartialEq, Eq)]
pub struct RecordVariantPart<'input> {
    pub variant_selector: VariantSelector<'input>,
    pub variants: Vec<CaseVariant<'input>>,
}

#[derive(Debug, PartialEq, Eq)]
pub struct RecordFieldList<'input> {
    pub fixed_part: Option<RecordFixedPart<'input>>,
    pub variant_part: Option<RecordVariantPart<'input>>,
}

#[derive(Debug, PartialEq, Eq)]
pub enum Type<'input> {
    Identifier(&'input str),
    Simple(SimpleType),
    Enumerated(Vec<&'input str>),
    SubRange { start: Constant<'input>, end: Constant<'input> },
    Array { index: Vec<Type<'input>>, component: Box<Type<'input>>, packed: bool },
    Record { field_list: Option<RecordFieldList<'input>>, packed: bool },
}

#[derive(Debug, PartialEq, Eq)]
pub struct TypeDef<'input> {
    pub ident: &'input str,
    pub value: Type<'input>,
}

/// What the parser sees of a token: its class (identifier, integer, real,
/// string, or which token that carries no text) and its text.
pub type Lexeme = (nat, Seq<char>);

pub open spec fn model<'a>(t: Token<'a>) -> Lexeme {
    (
        match t {
            Token::Identifier(_) => 0nat,
            Token::Integer(_) => 1nat,
            Token::Real(_) => 2nat,
            Token::String(_) => 3nat,
            Token::SpecialPlus => 4nat,
            Token::SpecialMinus => 5nat,
            Token::SpecialMul => 6nat,
            Token::SpecialDiv => 7nat,
            Token::SpecialEqual => 8nat,
            Token::SpecialLower => 9nat,
            Token::SpecialGreater => 10nat,
            Token::SpecialOpenBracket => 11nat,
            Token::SpecialCloseBracket => 12nat,
            Token::SpecialDot => 13nat,
            Token::SpecialComma => 14nat,
            Token::SpecialDotComma => 15nat,
            Token::SpecialColon => 16nat,
            Token::SpecialQuotation => 17nat,
            Token::SpecialOpenParen => 18nat,
            Token::SpecialCloseParen => 19nat,
            Token::SpecialSpaceship => 20nat,
            Token::SpecialLessEqual => 21nat,
            Token::SpecialGreaterEqual => 22nat,
            Token::SpecialAssign => 23nat,
            Token::SpecialRange => 24nat,
            Token::WordAnd => 25nat,
            Token::WordArray => 26nat,
            Token::WordBegin => 27nat,
            Token::WordCase => 28nat,
            Token::WordConst => 29nat,
            Token::WordDiv => 30nat,
            Token::WordDo => 31nat,
            Token::WordDownto => 32nat,
            Token::WordElse => 33nat,
            Token::WordEnd => 34nat,
            Token::WordFile => 35nat,
            Token::WordFor => 36nat,
            Token::WordFunction => 37nat,
            Token::WordGoto => 38nat,
            Token::WordIf => 39nat,
            Token::WordIn => 40nat,
            Token::WordLabel => 41nat,
            Token::WordMod => 42nat,
            Token::WordNil => 43nat,
            Token::WordNot => 44nat,
            Token::WordOf => 45nat,
            Token::WordOr => 46nat,
            Token::WordPacked => 47nat,
            Token::WordProcedure => 48nat,
            Token::WordProgram => 49nat,
            Token::WordRecord => 50nat,
            Token::WordRepeat => 51nat,
            Token::WordSet => 52nat,
            Token::WordThen => 53nat,
            Token::WordTo => 54nat,
            Token::WordType => 55nat,
            Token::WordUntil => 56nat,
            Token::WordVar => 57nat,
            Token::WordWhile => 58nat,
            Token::WordWith => 59nat,
        },
        t.text(),
    )
}

/// The lexemes of a token sequence.
pub open spec fn models<'a>(toks: Seq<Token<'a>>) -> Seq<Lexeme> {
    toks.map_values(|t: Token<'a>| model(t))
}

pub open spec fn ident_lexeme(s: &str) -> Lexeme {
    (0nat, s@)
}

pub open spec fn fixed<'a>(t: Token<'a>) -> Seq<Lexeme> {
    seq![model(t)]
}

pub open spec fn simple_name(s: SimpleType) -> Seq<char> {
    match s {
        SimpleType::Integer => seq!['i', 'n', 't', 'e', 'g', 'e', 'r'],
        SimpleType::Real => seq!['r', 'e', 'a', 'l'],
        SimpleType::Boolean => seq!['B', 'o', 'o', 'l', 'e', 'a', 'n'],
        SimpleType::Char => seq!['c', 'h', 'a', 'r'],
    }
}

pub open spec fn number_lexemes(n: Number) -> Seq<Lexeme> {
    match n {
        Number::Integer(x) => seq![(1nat, x@)],
        Number::Real(x) => seq![(2nat, x@)],
    }
}

pub open spec fn constant_lexemes(c: Constant) -> Seq<Lexeme> {
    match c {
        Constant::Identifier { is_negative, ident } => if is_negative {
            fixed(Token::SpecialMinus) + seq![ident_lexeme(ident)]
        } else {
            seq![ident_lexeme(ident)]
        },
        Constant::Number(n) => number_lexemes(n),
        Constant::String(x) => seq![(3nat, x@)],
    }
}

pub open spec fn constant_def_lexemes(d: ConstantDef) -> Seq<Lexeme> {
    seq![ident_lexeme(d.ident)] + fixed(Token::SpecialEqual) + constant_lexemes(d.value)
}

/// `a`, `b`, ... as identifiers separated by commas.
pub open spec fn ident_list_lexemes(ids: Seq<&str>) -> Seq<Lexeme>
    decreases ids.len(),
{
    if ids.len() == 0 {
        seq![]
    } else if ids.len() == 1 {
        seq![ident_lexeme(ids[0])]
    } else {
        ident_list_lexemes(ids.drop_last()) + fixed(Token::SpecialComma) + seq![
            ident_lexeme(ids.last()),
        ]
    }
}

pub open spec fn enumerated_lexemes(ids: Seq<&str>) -> Seq<Lexeme> {
    fixed(Token::SpecialOpenParen) + ident_list_lexemes(ids) + fixed(Token::SpecialCloseParen)
}

pub open spec fn constant_list_lexemes(cs: Seq<Constant>) -> Seq<Lexeme>
    decreases cs.len(),
{
    if cs.len() == 0 {
        seq![]
    } else if cs.len() == 1 {
        constant_lexemes(cs[0])
    } else {
        constant_list_lexemes(cs.drop_last()) + fixed(Token::SpecialComma) + constant_lexemes(
            cs.last(),
        )
    }
}

pub open spec fn packed_lexemes(packed: bool) -> Seq<Lexeme> {
    if packed {
        fixed(Token::WordPacked)
    } else {
        seq![]
    }
}

} // verus!

verus! {

broadcast use vstd::std_specs::vec::group_vec_axioms;

pub open spec fn type_lexemes(t: Type) -> Seq<Lexeme>
    decreases t,
{
    match t {
        Type::Identifier(x) => seq![ident_lexeme(x)],
        Type::Simple(s) => seq![(0nat, simple_name(s))],
        Type::Enumerated(ids) => enumerated_lexemes(ids@),
        Type::SubRange { start, end } => constant_lexemes(start) + fixed(Token::SpecialRange)
            + constant_lexemes(end),
        Type::Array { index, component, packed } => packed_lexemes(packed) + fixed(Token::WordArray)
            + fixed(Token::SpecialOpenBracket) + type_list_lexemes(index@) + fixed(
            Token::SpecialCloseBracket,
        ) + fixed(Token::WordOf) + type_lexemes(*component),
        Type::Record { field_list, packed } => packed_lexemes(packed) + fixed(Token::WordRecord)
            + optional_field_list_lexemes(field_list) + fixed(Token::WordEnd),
    }
}

pub open spec fn type_list_lexemes(ts: Seq<Type>) -> Seq<Lexeme>
    decreases ts,
{
    if ts.len() == 0 {
        seq![]
    } else if ts.len() == 1 {
        type_lexemes(ts[0])
    } else {
        type_list_lexemes(ts.drop_last()) + fixed(Token::SpecialComma) + type_lexemes(ts.last())
    }
}

pub open spec fn optional_field_list_lexemes(f: Option<RecordFieldList>) -> Seq<Lexeme>
    decreases f,
{
    match f {
        Some(l) => field_list_lexemes(l),
        None => seq![],
    }
}

pub open spec fn field_list_lexemes(l: RecordFieldList) -> Seq<Lexeme>
    decreases l,
{
    match l.fixed_part {
        Some(fp) => match l.variant_part {
            Some(vp) => section_list_lexemes(fp.records@) + fixed(Token::SpecialDotComma)
                + variant_part_lexemes(vp),
            None => section_list_lexemes(fp.records@),
        },
        None => match l.variant_part {
            Some(vp) => variant_part_lexemes(vp),
            None => seq![],
        },
    }
}

pub open spec fn section_list_lexemes(ss: Seq<RecordSection>) -> Seq<Lexeme>
    decreases ss,
{
    if ss.len() == 0 {
        seq![]
    } else if ss.len() == 1 {
        section_lexemes(ss[0])
    } else {
        section_list_lexemes(ss.drop_last()) + fixed(Token::SpecialDotComma) + section_lexemes(
            ss.last(),
        )
    }
}

pub open spec fn section_lexemes(s: RecordSection) -> Seq<Lexeme>
    decreases s,
{
    ident_list_lexemes(s.identifier_list@) + fixed(Token::SpecialColon) + type_lexemes(
        *s.type_denoter,
    )
}

pub open spec fn variant_part_lexemes(v: RecordVariantPart) -> Seq<Lexeme>
    decreases v,
{
    fixed(Token::WordCase) + selector_lexemes(v.variant_selector) + fixed(Token::WordOf)
        + case_variant_list_lexemes(v.variants@)
}

pub open spec fn selector_lexemes(s: VariantSelector) -> Seq<Lexeme>
    decreases s,
{
    match s.tag_field {
        Some(x) => seq![ident_lexeme(x)] + fixed(Token::SpecialColon) + type_lexemes(*s.tag_type),
        None => type_lexemes(*s.tag_type),
    }
}

pub open spec fn case_variant_list_lexemes(vs: Seq<CaseVariant>) -> Seq<Lexeme>
    decreases vs,
{
    if vs.len() == 0 {
        seq![]
    } else if vs.len() == 1 {
        case_variant_lexemes(vs[0])
    } else {
        case_variant_list_lexemes(vs.drop_last()) + fixed(Token::SpecialDotComma)
            + case_variant_lexemes(vs.last())
    }
}

pub open spec fn case_variant_lexemes(v: CaseVariant) -> Seq<Lexeme>
    decreases v,
{
    constant_list_lexemes(v.case_constants@) + fixed(Token::SpecialColon) + fixed(
        Token::SpecialOpenParen,
    ) + optional_field_list_lexemes(v.field_list) + fixed(Token::SpecialCloseParen)
}

pub open spec fn type_def_lexemes(d: TypeDef) -> Seq<Lexeme> {
    seq![ident_lexeme(d.ident)] + fixed(Token::SpecialEqual) + type_lexemes(d.value)
}

} // verus!

verus! {

/// An enumeration never ends in a comma: the lexeme before its closing
/// parenthesis is its last name.
pub proof fn lemma_enumeration_ends_in_name(ids: Seq<&str>)
    requires
        ids.len() >= 1,
    ensures
        enumerated_lexemes(ids).len() >= 3,
        enumerated_lexemes(ids)[enumerated_lexemes(ids).len() - 2] == ident_lexeme(ids.last()),
        enumerated_lexemes(ids)[enumerated_lexemes(ids).len() - 2] != model(Token::SpecialComma),
{
    let l = ident_list_lexemes(ids);
    assert(l.len() >= 1 && l.last() == ident_lexeme(ids.last()));
    let all = enumerated_lexemes(ids);
    assert(all[all.len() - 2] == l.last());
}

/// Both are integers, or both reals, with the same text.
pub open spec fn same_number(a: Number, b: Number) -> bool {
    match (a, b) {
        (Number::Integer(x), Number::Integer(y)) => x@ == y@,
        (Number::Real(x), Number::Real(y)) => x@ == y@,
        _ => false,
    }
}

/// The same constant, whatever buffer its text is kept in.
pub open spec fn same_constant(a: Constant, b: Constant) -> bool {
    match (a, b) {
        (
            Constant::Identifier { is_negative: n, ident: x },
            Constant::Identifier { is_negative: m, ident: y },
        ) => n == m && x@ == y@,
        (Constant::Number(x), Constant::Number(y)) => same_number(x, y),
        (Constant::String(x), Constant::String(y)) => x@ == y@,
        _ => false,
    }
}

/// A number is determined by its lexemes: printing a number and parsing it
/// back gives the same number.
pub proof fn lemma_number_round_trip(a: Number, b: Number)
    requires
        number_lexemes(a) == number_lexemes(b),
    ensures
        same_number(a, b),
{
    assert(number_lexemes(a)[0] == number_lexemes(b)[0]);
}

/// A constant is determined by its lexemes: printing a constant and parsing
/// it back gives the same constant.
pub proof fn lemma_constant_round_trip(a: Constant, b: Constant)
    requires
        constant_lexemes(a) == constant_lexemes(b),
    ensures
        same_constant(a, b),
{
    let la = constant_lexemes(a);
    let lb = constant_lexemes(b);
    assert(la[0] == lb[0]);
    assert(la.len() == lb.len());
    if la.len() == 2 {
        assert(la[1] == lb[1]);
    }
}

/// A constant definition is determined by its lexemes: printing one and
/// parsing it back gives the same definition.
pub proof fn lemma_constant_def_round_trip(a: ConstantDef, b: ConstantDef)
    requires
        constant_def_lexemes(a) == constant_def_lexemes(b),
    ensures
        a.ident@ == b.ident@,
        same_constant(a.value, b.value),
{
    let la = constant_def_lexemes(a);
    let lb = constant_def_lexemes(b);
    assert(la[0] == lb[0]);
    assert(constant_lexemes(a.value) =~= la.subrange(2, la.len() as int));
    assert(constant_lexemes(b.value) =~= lb.subrange(2, lb.len() as int));
    lemma_constant_round_trip(a.value, b.value);
}

} // verus!

verus! {

/// The shape invariants of a type: a type name never spells a simple type
/// (that is `Simple`), every list that the grammar repeats holds at least one
/// entry, and a record's field list has a fixed part, a variant part, or both.
pub open spec fn type_wf(t: Type) -> bool
    decreases t,
{
    match t {
        Type::Identifier(x) => forall|s: SimpleType| x@ != simple_name(s),
        Type::Enumerated(ids) => ids@.len() >= 1,
        Type::Array { index, component, packed } => index@.len() >= 1 && types_wf(index@)
            && type_wf(*component),
        Type::Record { field_list, packed } => optional_field_list_wf(field_list),
        _ => true,
    }
}

pub open spec fn types_wf(ts: Seq<Type>) -> bool
    decreases ts,
{
    if ts.len() == 0 {
        true
    } else {
        types_wf(ts.drop_last()) && type_wf(ts.last())
    }
}

pub open spec fn optional_field_list_wf(f: Option<RecordFieldList>) -> bool
    decreases f,
{
    match f {
        Some(l) => field_list_wf(l),
        None => true,
    }
}

pub open spec fn field_list_wf(l: RecordFieldList) -> bool
    decreases l,
{
    &&& (l.fixed_part is Some || l.variant_part is Some)
    &&& match l.fixed_part {
        Some(fp) => fp.records@.len() >= 1 && sections_wf(fp.records@),
        None => true,
    }
    &&& match l.variant_part {
        Some(vp) => variant_part_wf(vp),
        None => true,
    }
}

pub open spec fn sections_wf(ss: Seq<RecordSection>) -> bool
    decreases ss,
{
    if ss.len() == 0 {
        true
    } else {
        sections_wf(ss.drop_last()) && section_wf(ss.last())
    }
}

pub open spec fn section_wf(s: RecordSection) -> bool
    decreases s,
{
    s.identifier_list@.len() >= 1 && type_wf(*s.type_denoter)
}

pub open spec fn variant_part_wf(v: RecordVariantPart) -> bool
    decreases v,
{
    type_wf(*v.variant_selector.tag_type) && v.variants@.len() >= 1 && case_variants_wf(
        v.variants@,
    )
}

pub open spec fn case_variants_wf(vs: Seq<CaseVariant>) -> bool
    decreases vs,
{
    if vs.len() == 0 {
        true
    } else {
        case_variants_wf(vs.drop_last()) && case_variant_wf(vs.last())
    }
}

pub open spec fn case_variant_wf(v: CaseVariant) -> bool
    decreases v,
{
    v.case_constants@.len() >= 1 && optional_field_list_wf(v.field_list)
}

} // verus!

verus! {

/// A well-formed type with no record in it: a name that spells no simple
/// type, a simple type, an enumeration, a subrange, or arrays of these.
pub open spec fn is_plain(t: Type) -> bool
    decreases t,
{
    match t {
        Type::Identifier(x) => forall|s: SimpleType| x@ != simple_name(s),
        Type::Enumerated(ids) => ids@.len() >= 1,
        Type::Array { index, component, packed } => index@.len() >= 1 && all_plain(index@)
            && is_plain(*component),
        Type::Record { field_list, packed } => false,
        _ => true,
    }
}

pub open spec fn all_plain(ts: Seq<Type>) -> bool
    decreases ts,
{
    if ts.len() == 0 {
        true
    } else {
        all_plain(ts.drop_last()) && is_plain(ts.last())
    }
}

pub proof fn lemma_all_plain(ts: Seq<Type>)
    ensures
        all_plain(ts) <==> forall|i: int| 0 <= i < ts.len() ==> is_plain(#[trigger] ts[i]),
    decreases ts.len(),
{
    if ts.len() > 0 {
        lemma_all_plain(ts.drop_last());
        assert forall|i: int| 0 <= i < ts.len() - 1 implies ts.drop_last()[i] == ts[i] by {}
    }
}

/// The lexemes of a type list, read from the front.
pub proof fn lemma_type_list_first(ts: Seq<Type>)
    requires
        ts.len() >= 1,
    ensures
        type_list_lexemes(ts) == (if ts.len() == 1 {
            type_lexemes(ts[0])
        } else {
            type_lexemes(ts[0]) + fixed(Token::SpecialComma) + type_list_lexemes(ts.drop_first())
        }),
    decreases ts.len(),
{
    if ts.len() == 2 {
        assert(ts.drop_last() =~= seq![ts[0]]);
        assert(ts.drop_first() =~= seq![ts[1]]);
        assert(type_list_lexemes(seq![ts[0]]) == type_lexemes(ts[0]));
        assert(type_list_lexemes(seq![ts[1]]) == type_lexemes(ts[1]));
        assert(seq![ts[0]].last() == ts[0]);
        assert(seq![ts[1]][0] == ts[1]);
    } else if ts.len() > 2 {
        lemma_type_list_first(ts.drop_last());
        assert(ts.drop_last().drop_first() =~= ts.drop_first().drop_last());
        assert(ts.drop_last()[0] == ts[0]);
        assert(ts.drop_first().last() == ts.last());
        let a = type_lexemes(ts[0]);
        let c = fixed(Token::SpecialComma);
        let m = type_list_lexemes(ts.drop_first().drop_last());
        let z = type_lexemes(ts.last());
        assert(type_list_lexemes(ts) == type_list_lexemes(ts.drop_last()) + c + z);
        assert(type_list_lexemes(ts.drop_first()) == m + c + z);
        assert(a + c + m + c + z =~= a + c + (m + c + z));
    }
}

} // verus!

verus! {

pub proof fn lemma_types_wf_all(ts: Seq<Type>)
    ensures
        types_wf(ts) <==> forall|i: int| 0 <= i < ts.len() ==> type_wf(#[trigger] ts[i]),
    decreases ts.len(),
{
    if ts.len() > 0 {
        lemma_types_wf_all(ts.drop_last());
        assert forall|i: int| 0 <= i < ts.len() - 1 implies ts.drop_last()[i] == ts[i] by {}
    }
}

} // verus!

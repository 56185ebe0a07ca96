use vstd::prelude::*;

verus! {

/// Why the scanner stopped.
#[derive(Debug, PartialEq, Eq, Clone, Copy)]
pub enum LexingError {
    /// A numeric lexeme was matched but could not be validated.
    NumberParseError,
    /// No token rule matches at the current position.
    Other,
}

impl Default for LexingError {
    fn default() -> (r: Self)
        ensures
            r == LexingError::Other,
    {
        LexingError::Other
    }
}

/// `std::num::ParseIntError`, the error of reading an integer from text;
/// carried through opaquely.
#[verifier::external_type_specification]
#[verifier::external_body]
pub struct ExParseIntError(std::num::ParseIntError);

/// A failed integer conversion of a numeric lexeme is a number error.
impl From<std::num::ParseIntError> for LexingError {
    fn from(_e: std::num::ParseIntError) -> (r: Self)
        ensures
            r == LexingError::NumberParseError,
    {
        LexingError::NumberParseError
    }
}

impl vstd::std_specs::convert::FromSpecImpl<std::num::ParseIntError> for LexingError {
    open spec fn obeys_from_spec() -> bool {
        true
    }

    open spec fn from_spec(v: std::num::ParseIntError) -> Self {
        LexingError::NumberParseError
    }
}

/// The tokens of the language. Literal-bearing tokens borrow the exact text
/// they were scanned from. Reserved words are recognised only as spelled
/// here, in lower case: `Array` is an identifier.
#[derive(Debug, PartialEq, Clone, Copy)]
pub enum Token<'input> {
    Identifier(&'input str),
    Integer(&'input str),
    Real(&'input str),
    String(&'input str),
    SpecialPlus,
    SpecialMinus,
    SpecialMul,
    SpecialDiv,
    SpecialEqual,
    SpecialLower,
    SpecialGreater,
    SpecialOpenBracket,
    SpecialCloseBracket,
    SpecialDot,
    SpecialComma,
    SpecialDotComma,
    SpecialColon,
    SpecialQuotation,
    SpecialOpenParen,
    SpecialCloseParen,
    SpecialSpaceship,
    SpecialLessEqual,
    SpecialGreaterEqual,
    SpecialAssign,
    SpecialRange,
    WordAnd,
    WordArray,
    WordBegin,
    WordCase,
    WordConst,
    WordDiv,
    WordDo,
    WordDownto,
    WordElse,
    WordEnd,
    WordFile,
    WordFor,
    WordFunction,
    WordGoto,
    WordIf,
    WordIn,
    WordLabel,
    WordMod,
    WordNil,
    WordNot,
    WordOf,
    WordOr,
    WordPacked,
    WordProcedure,
    WordProgram,
    WordRecord,
    WordRepeat,
    WordSet,
    WordThen,
    WordTo,
    WordType,
    WordUntil,
    WordVar,
    WordWhile,
    WordWith,
}

impl<'input> Token<'input> {
    /// Whether the token carries the text it was scanned from.
    pub open spec fn is_literal(self) -> bool {
        self is Identifier || self is Integer || self is Real || self is String
    }

    /// The source text of the token: the scanned text of a literal-bearing
    /// token, the fixed spelling of any other.
    pub open spec fn text(self) -> Seq<char> {
        match self {
            Token::Identifier(s) => s@,
            Token::Integer(s) => s@,
            Token::Real(s) => s@,
            Token::String(s) => s@,
            Token::SpecialPlus => seq!['+'],
            Token::SpecialMinus => seq!['-'],
            Token::SpecialMul => seq!['*'],
            Token::SpecialDiv => seq!['/'],
            Token::SpecialEqual => seq!['='],
            Token::SpecialLower => seq!['<'],
            Token::SpecialGreater => seq!['>'],
            Token::SpecialOpenBracket => seq!['['],
            Token::SpecialCloseBracket => seq![']'],
            Token::SpecialDot => seq!['.'],
            Token::SpecialComma => seq![','],
            Token::SpecialDotComma => seq![';'],
            Token::SpecialColon => seq![':'],
            Token::SpecialQuotation => seq!['"'],
            Token::SpecialOpenParen => seq!['('],
            Token::SpecialCloseParen => seq![')'],
            Token::SpecialSpaceship => seq!['<', '>'],
            Token::SpecialLessEqual => seq!['<', '='],
            Token::SpecialGreaterEqual => seq!['>', '='],
            Token::SpecialAssign => seq![':', '='],
            Token::SpecialRange => seq!['.', '.'],
            Token::WordAnd => seq!['a', 'n', 'd'],
            Token::WordArray => seq!['a', 'r', 'r', 'a', 'y'],
            Token::WordBegin => seq!['b', 'e', 'g', 'i', 'n'],
            Token::WordCase => seq!['c', 'a', 's', 'e'],
            Token::WordConst => seq!['c', 'o', 'n', 's', 't'],
            Token::WordDiv => seq!['d', 'i', 'v'],
            Token::WordDo => seq!['d', 'o'],
            Token::WordDownto => seq!['d', 'o', 'w', 'n', 't', 'o'],
            Token::WordElse => seq!['e', 'l', 's', 'e'],
            Token::WordEnd => seq!['e', 'n', 'd'],
            Token::WordFile => seq!['f', 'i', 'l', 'e'],
            Token::WordFor => seq!['f', 'o', 'r'],
            Token::WordFunction => seq!['f', 'u', 'n', 'c', 't', 'i', 'o', 'n'],
            Token::WordGoto => seq!['g', 'o', 't', 'o'],
            Token::WordIf => seq!['i', 'f'],
            Token::WordIn => seq!['i', 'n'],
            Token::WordLabel => seq!['l', 'a', 'b', 'e', 'l'],
            Token::WordMod => seq!['m', 'o', 'd'],
            Token::WordNil => seq!['n', 'i', 'l'],
            Token::WordNot => seq!['n', 'o', 't'],
            Token::WordOf => seq!['o', 'f'],
            Token::WordOr => seq!['o', 'r'],
            Token::WordPacked => seq!['p', 'a', 'c', 'k', 'e', 'd'],
            Token::WordProcedure => seq!['p', 'r', 'o', 'c', 'e', 'd', 'u', 'r', 'e'],
            Token::WordProgram => seq!['p', 'r', 'o', 'g', 'r', 'a', 'm'],
            Token::WordRecord => seq!['r', 'e', 'c', 'o', 'r', 'd'],
            Token::WordRepeat => seq!['r', 'e', 'p', 'e', 'a', 't'],
            Token::WordSet => seq!['s', 'e', 't'],
            Token::WordThen => seq!['t', 'h', 'e', 'n'],
            Token::WordTo => seq!['t', 'o'],
            Token::WordType => seq!['t', 'y', 'p', 'e'],
            Token::WordUntil => seq!['u', 'n', 't', 'i', 'l'],
            Token::WordVar => seq!['v', 'a', 'r'],
            Token::WordWhile => seq!['w', 'h', 'i', 'l', 'e'],
            Token::WordWith => seq!['w', 'i', 't', 'h'],
        }
    }
}

} // verus!


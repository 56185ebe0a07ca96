use vstd::prelude::*;
use crate::tokens::{LexingError, Token};

verus! {

pub open spec fn is_digit(c: char) -> bool {
    '0' <= c && c <= '9'
}

pub open spec fn is_letter(c: char) -> bool {
    ('a' <= c && c <= 'z') || ('A' <= c && c <= 'Z')
}

pub open spec fn is_alnum(c: char) -> bool {
    is_letter(c) || is_digit(c)
}

pub open spec fn is_blank(c: char) -> bool {
    c == ' ' || c == '\t' || c == '\n' || c == '\x0c'
}

pub open spec fn is_symbol_char(c: char) -> bool {
    c == '+' || c == '-' || c == '*' || c == '/' || c == '=' || c == '<' || c == '>' || c == '['
        || c == ']' || c == '.' || c == ',' || c == ';' || c == ':' || c == '"' || c == '('
        || c == ')'
}

/// `s` holds `c` at index `i`.
pub open spec fn has(s: Seq<char>, i: int, c: char) -> bool {
    0 <= i < s.len() && s[i] == c
}

pub open spec fn digit_at(s: Seq<char>, i: int) -> bool {
    0 <= i < s.len() && is_digit(s[i])
}

pub open spec fn sign_at(s: Seq<char>, i: int) -> bool {
    has(s, i, '+') || has(s, i, '-')
}

/// The end of the run of digits that starts at `i`.
pub open spec fn digits_end(s: Seq<char>, i: int) -> int
    decreases s.len() - i,
{
    if 0 <= i < s.len() && is_digit(s[i]) {
        digits_end(s, i + 1)
    } else {
        i
    }
}

/// The end of the run of letters and digits that starts at `i`.
pub open spec fn alnum_end(s: Seq<char>, i: int) -> int
    decreases s.len() - i,
{
    if 0 <= i < s.len() && is_alnum(s[i]) {
        alnum_end(s, i + 1)
    } else {
        i
    }
}

/// A numeric lexeme starts at `i`: a digit, or a sign and a digit.
pub open spec fn number_starts(s: Seq<char>, i: int) -> bool {
    digit_at(s, i) || (sign_at(s, i) && digit_at(s, i + 1))
}

pub open spec fn mantissa_start(s: Seq<char>, i: int) -> int {
    if sign_at(s, i) {
        i + 1
    } else {
        i
    }
}

/// The end of `.digits` at `d`, or `d` where no fraction follows.
pub open spec fn fraction_end(s: Seq<char>, d: int) -> int {
    if has(s, d, '.') && digit_at(s, d + 1) {
        digits_end(s, d + 1)
    } else {
        d
    }
}

/// The end of an exponent `e[+-]digits` at `i`, or `i` where none follows.
pub open spec fn exponent_end(s: Seq<char>, i: int) -> int {
    if has(s, i, 'e') || has(s, i, 'E') {
        let j = if sign_at(s, i + 1) {
            i + 2
        } else {
            i + 1
        };
        if digit_at(s, j) {
            digits_end(s, j)
        } else {
            i
        }
    } else {
        i
    }
}

/// The end of the longest numeric lexeme at `i`.
pub open spec fn number_end(s: Seq<char>, i: int) -> int {
    exponent_end(s, fraction_end(s, digits_end(s, mantissa_start(s, i))))
}

/// The longest numeric lexeme at `i` has a fraction or an exponent.
pub open spec fn number_is_real(s: Seq<char>, i: int) -> bool {
    number_end(s, i) != digits_end(s, mantissa_start(s, i))
}

/// The end of the longest string literal whose contents start at `first`,
/// looking from `j` on; 0 where no closing quote can end it. A quote inside
/// the contents must follow a backslash.
pub open spec fn string_end(s: Seq<char>, first: int, j: int) -> int
    decreases s.len() - j,
{
    if j < 0 || j >= s.len() {
        0
    } else if s[j] == '"' {
        if j > first && s[j - 1] == '\\' {
            let r = string_end(s, first, j + 1);
            if r > 0 {
                r
            } else {
                j + 1
            }
        } else {
            j + 1
        }
    } else {
        string_end(s, first, j + 1)
    }
}

/// The index of the first `c` at or after `j`, or the length where there is none.
pub open spec fn find(s: Seq<char>, j: int, c: char) -> int
    decreases s.len() - j,
{
    if 0 <= j < s.len() && s[j] != c {
        find(s, j + 1, c)
    } else {
        j
    }
}

/// The index of the first `*)` at or after `j`, or one less than the length.
pub open spec fn find_close(s: Seq<char>, j: int) -> int
    decreases s.len() - j,
{
    if 0 <= j && j + 1 < s.len() && !(s[j] == '*' && s[j + 1] == ')') {
        find_close(s, j + 1)
    } else {
        j
    }
}

/// Where the run of blanks and comments that starts at `i` ends.
pub open spec fn skip_end(s: Seq<char>, i: int) -> int
    decreases s.len() - i, 1nat,
{
    if !(0 <= i < s.len()) {
        i
    } else if is_blank(s[i]) {
        skip_end(s, i + 1)
    } else if s[i] == '/' && has(s, i + 1, '/') {
        in_line_comment(s, i + 2)
    } else if s[i] == '{' && find(s, i + 1, '}') < s.len() {
        in_brace_comment(s, i + 1)
    } else if s[i] == '(' && has(s, i + 1, '*') && find_close(s, i + 2) + 1 < s.len() {
        in_paren_comment(s, i + 2)
    } else {
        i
    }
}

pub open spec fn in_line_comment(s: Seq<char>, j: int) -> int
    decreases s.len() - j, 0nat,
{
    if !(0 <= j < s.len()) {
        j
    } else if s[j] == '\n' {
        skip_end(s, j + 1)
    } else {
        in_line_comment(s, j + 1)
    }
}

pub open spec fn in_brace_comment(s: Seq<char>, j: int) -> int
    decreases s.len() - j, 0nat,
{
    if !(0 <= j < s.len()) {
        j
    } else if s[j] == '}' {
        skip_end(s, j + 1)
    } else {
        in_brace_comment(s, j + 1)
    }
}

pub open spec fn in_paren_comment(s: Seq<char>, j: int) -> int
    decreases s.len() - j, 0nat,
{
    if !(0 <= j && j + 1 < s.len()) {
        j
    } else if s[j] == '*' && s[j + 1] == ')' {
        skip_end(s, j + 2)
    } else {
        in_paren_comment(s, j + 1)
    }
}

pub open spec fn pair_at(s: Seq<char>, i: int, a: char, b: char) -> bool {
    has(s, i, a) && has(s, i + 1, b)
}

/// The end of the longest operator or punctuation at `i`, or `i` where none.
pub open spec fn symbol_end(s: Seq<char>, i: int) -> int {
    if pair_at(s, i, '<', '>') || pair_at(s, i, '<', '=') || pair_at(s, i, '>', '=')
        || pair_at(s, i, ':', '=') || pair_at(s, i, '.', '.') {
        i + 2
    } else if 0 <= i < s.len() && is_symbol_char(s[i]) {
        i + 1
    } else {
        i
    }
}

/// `w` is the spelling of a reserved word or a symbol.
pub open spec fn is_reserved(w: Seq<char>) -> bool {
    exists|t: Token<'static>| !t.is_literal() && t.text() == w
}

pub open spec fn letter_at(s: Seq<char>, i: int) -> bool {
    0 <= i < s.len() && is_letter(s[i])
}

pub open spec fn string_starts(s: Seq<char>, i: int) -> bool {
    has(s, i, '"') && string_end(s, i + 1, i + 1) > 0
}

/// `t`, ending at `e`, is the token that the longest match takes at `i`.
pub open spec fn scanned<'a>(s: Seq<char>, i: int, t: Token<'a>, e: int) -> bool {
    &&& 0 <= i < e <= s.len()
    &&& t.text() == s.subrange(i, e)
    &&& if letter_at(s, i) {
        &&& e == alnum_end(s, i)
        &&& (t is Identifier) == !is_reserved(s.subrange(i, e))
        &&& (t.is_literal() ==> t is Identifier)
    } else if number_starts(s, i) {
        &&& e == number_end(s, i)
        &&& if number_is_real(s, i) {
            t is Real
        } else {
            t is Integer
        }
    } else if string_starts(s, i) {
        e == string_end(s, i + 1, i + 1) && t is String
    } else {
        e == symbol_end(s, i) && !t.is_literal()
    }
}

/// No token rule matches at `i`.
pub open spec fn unmatched(s: Seq<char>, i: int) -> bool {
    !letter_at(s, i) && !number_starts(s, i) && !string_starts(s, i) && symbol_end(s, i) == i
}

} // verus!

verus! {

/// `toks` is what the scanner yields from `p` on before it stands at `q`,
/// where only blanks and comments remain to the next token.
pub open spec fn lexes_until<'a>(s: Seq<char>, p: int, toks: Seq<Token<'a>>, q: int) -> bool
    decreases toks.len(),
{
    if toks.len() == 0 {
        skip_end(s, p) == q
    } else {
        let i = skip_end(s, p);
        let e = i + toks[0].text().len();
        scanned(s, i, toks[0], e) && lexes_until(s, e, toks.drop_first(), q)
    }
}

/// `toks` is the whole token sequence of `s`.
pub open spec fn lexes<'a>(s: Seq<char>, toks: Seq<Token<'a>>) -> bool {
    lexes_until(s, 0, toks, s.len() as int)
}

/// A scanner over a source text, handing out one token at a time.
pub struct Lexer<'input> {
    source: &'input str,
    chars: Vec<char>,
    pos: usize,
}

fn word_is(chars: &Vec<char>, i: usize, e: usize, w: &str) -> (r: bool)
    requires
        i <= e <= chars@.len(),
    ensures
        r == (chars@.subrange(i as int, e as int) == w@),
{
    let n = w.unicode_len();
    if e - i != n {
        return false;
    }
    let mut k: usize = 0;
    while k < n
        invariant
            k <= n,
            n == w@.len(),
            e - i == n,
            i <= e <= chars@.len(),
            forall|m: int| 0 <= m < k ==> chars@[i + m] == w@[m],
        decreases n - k,
    {
        if chars[i + k] != w.get_char(k) {
            assert(chars@.subrange(i as int, e as int)[k as int] != w@[k as int]);
            return false;
        }
        k += 1;
    }
    assert(chars@.subrange(i as int, e as int) =~= w@);
    true
}

/// The reserved word spelled by `chars[i..e]`, if any.
fn reserved_word(chars: &Vec<char>, i: usize, e: usize) -> (r: Option<Token<'static>>)
    requires
        i < e <= chars@.len(),
        is_letter(chars@[i as int]),
    ensures
        match r {
            Some(t) => !t.is_literal() && t.text() == chars@.subrange(i as int, e as int),
            None => !is_reserved(chars@.subrange(i as int, e as int)),
        },
{
    proof {
        reveal_strlit("and");
        reveal_strlit("array");
        reveal_strlit("begin");
        reveal_strlit("case");
        reveal_strlit("const");
        reveal_strlit("div");
        reveal_strlit("do");
        reveal_strlit("downto");
        reveal_strlit("else");
        reveal_strlit("end");
        reveal_strlit("file");
        reveal_strlit("for");
        reveal_strlit("function");
        reveal_strlit("goto");
        reveal_strlit("if");
        reveal_strlit("in");
        reveal_strlit("label");
        reveal_strlit("mod");
        reveal_strlit("nil");
        reveal_strlit("not");
        reveal_strlit("of");
        reveal_strlit("or");
        reveal_strlit("packed");
        reveal_strlit("procedure");
        reveal_strlit("program");
        reveal_strlit("record");
        reveal_strlit("repeat");
        reveal_strlit("set");
        reveal_strlit("then");
        reveal_strlit("to");
        reveal_strlit("type");
        reveal_strlit("until");
        reveal_strlit("var");
        reveal_strlit("while");
        reveal_strlit("with");
    }
    let r = if word_is(chars, i, e, "and") {
        Some(Token::WordAnd)
    } else if word_is(chars, i, e, "array") {
        Some(Token::WordArray)
    } else if word_is(chars, i, e, "begin") {
        Some(Token::WordBegin)
    } else if word_is(chars, i, e, "case") {
        Some(Token::WordCase)
    } else if word_is(chars, i, e, "const") {
        Some(Token::WordConst)
    } else if word_is(chars, i, e, "div") {
        Some(Token::WordDiv)
    } else if word_is(chars, i, e, "do") {
        Some(Token::WordDo)
    } else if word_is(chars, i, e, "downto") {
        Some(Token::WordDownto)
    } else if word_is(chars, i, e, "else") {
        Some(Token::WordElse)
    } else if word_is(chars, i, e, "end") {
        Some(Token::WordEnd)
    } else if word_is(chars, i, e, "file") {
        Some(Token::WordFile)
    } else if word_is(chars, i, e, "for") {
        Some(Token::WordFor)
    } else if word_is(chars, i, e, "function") {
        Some(Token::WordFunction)
    } else if word_is(chars, i, e, "goto") {
        Some(Token::WordGoto)
    } else if word_is(chars, i, e, "if") {
        Some(Token::WordIf)
    } else if word_is(chars, i, e, "in") {
        Some(Token::WordIn)
    } else if word_is(chars, i, e, "label") {
        Some(Token::WordLabel)
    } else if word_is(chars, i, e, "mod") {
        Some(Token::WordMod)
    } else if word_is(chars, i, e, "nil") {
        Some(Token::WordNil)
    } else if word_is(chars, i, e, "not") {
        Some(Token::WordNot)
    } else if word_is(chars, i, e, "of") {
        Some(Token::WordOf)
    } else if word_is(chars, i, e, "or") {
        Some(Token::WordOr)
    } else if word_is(chars, i, e, "packed") {
        Some(Token::WordPacked)
    } else if word_is(chars, i, e, "procedure") {
        Some(Token::WordProcedure)
    } else if word_is(chars, i, e, "program") {
        Some(Token::WordProgram)
    } else if word_is(chars, i, e, "record") {
        Some(Token::WordRecord)
    } else if word_is(chars, i, e, "repeat") {
        Some(Token::WordRepeat)
    } else if word_is(chars, i, e, "set") {
        Some(Token::WordSet)
    } else if word_is(chars, i, e, "then") {
        Some(Token::WordThen)
    } else if word_is(chars, i, e, "to") {
        Some(Token::WordTo)
    } else if word_is(chars, i, e, "type") {
        Some(Token::WordType)
    } else if word_is(chars, i, e, "until") {
        Some(Token::WordUntil)
    } else if word_is(chars, i, e, "var") {
        Some(Token::WordVar)
    } else if word_is(chars, i, e, "while") {
        Some(Token::WordWhile)
    } else if word_is(chars, i, e, "with") {
        Some(Token::WordWith)
    } else {
        None
    };
    proof {
        let w = chars@.subrange(i as int, e as int);
        if r is None {
            assert(w[0] == chars@[i as int]);
            assert forall|t: Token<'static>| !t.is_literal() implies t.text() != w by {
                if t.text() == w {
                    assert(t.text()[0] == w[0]);
                    match t {
                        Token::WordAnd => {
                            assert(t.text() =~= "and"@);
                        },
                        Token::WordArray => {
                            assert(t.text() =~= "array"@);
                        },
                        Token::WordBegin => {
                            assert(t.text() =~= "begin"@);
                        },
                        Token::WordCase => {
                            assert(t.text() =~= "case"@);
                        },
                        Token::WordConst => {
                            assert(t.text() =~= "const"@);
                        },
                        Token::WordDiv => {
                            assert(t.text() =~= "div"@);
                        },
                        Token::WordDo => {
                            assert(t.text() =~= "do"@);
                        },
                        Token::WordDownto => {
                            assert(t.text() =~= "downto"@);
                        },
                        Token::WordElse => {
                            assert(t.text() =~= "else"@);
                        },
                        Token::WordEnd => {
                            assert(t.text() =~= "end"@);
                        },
                        Token::WordFile => {
                            assert(t.text() =~= "file"@);
                        },
                        Token::WordFor => {
                            assert(t.text() =~= "for"@);
                        },
                        Token::WordFunction => {
                            assert(t.text() =~= "function"@);
                        },
                        Token::WordGoto => {
                            assert(t.text() =~= "goto"@);
                        },
                        Token::WordIf => {
                            assert(t.text() =~= "if"@);
                        },
                        Token::WordIn => {
                            assert(t.text() =~= "in"@);
                        },
                        Token::WordLabel => {
                            assert(t.text() =~= "label"@);
                        },
                        Token::WordMod => {
                            assert(t.text() =~= "mod"@);
                        },
                        Token::WordNil => {
                            assert(t.text() =~= "nil"@);
                        },
                        Token::WordNot => {
                            assert(t.text() =~= "not"@);
                        },
                        Token::WordOf => {
                            assert(t.text() =~= "of"@);
                        },
                        Token::WordOr => {
                            assert(t.text() =~= "or"@);
                        },
                        Token::WordPacked => {
                            assert(t.text() =~= "packed"@);
                        },
                        Token::WordProcedure => {
                            assert(t.text() =~= "procedure"@);
                        },
                        Token::WordProgram => {
                            assert(t.text() =~= "program"@);
                        },
                        Token::WordRecord => {
                            assert(t.text() =~= "record"@);
                        },
                        Token::WordRepeat => {
                            assert(t.text() =~= "repeat"@);
                        },
                        Token::WordSet => {
                            assert(t.text() =~= "set"@);
                        },
                        Token::WordThen => {
                            assert(t.text() =~= "then"@);
                        },
                        Token::WordTo => {
                            assert(t.text() =~= "to"@);
                        },
                        Token::WordType => {
                            assert(t.text() =~= "type"@);
                        },
                        Token::WordUntil => {
                            assert(t.text() =~= "until"@);
                        },
                        Token::WordVar => {
                            assert(t.text() =~= "var"@);
                        },
                        Token::WordWhile => {
                            assert(t.text() =~= "while"@);
                        },
                        Token::WordWith => {
                            assert(t.text() =~= "with"@);
                        },
                        _ => {},
                    }
                }
            }
        }
    }
    r
}

} // verus!

verus! {

proof fn lemma_string_end_bounds(s: Seq<char>, first: int, j: int)
    requires
        0 <= j,
    ensures
        string_end(s, first, j) == 0 || j < string_end(s, first, j) <= s.len(),
    decreases s.len() - j,
{
    if j < s.len() {
        lemma_string_end_bounds(s, first, j + 1);
    }
}

fn is_digit_char(c: char) -> (r: bool)
    ensures
        r == is_digit(c),
{
    '0' <= c && c <= '9'
}

fn is_letter_char(c: char) -> (r: bool)
    ensures
        r == is_letter(c),
{
    ('a' <= c && c <= 'z') || ('A' <= c && c <= 'Z')
}

impl<'input> Lexer<'input> {
    /// The text being scanned.
    pub closed spec fn source(&self) -> Seq<char> {
        self.source@
    }

    /// How far the scanner has come.
    pub closed spec fn pos(&self) -> int {
        self.pos as int
    }

    pub closed spec fn wf(&self) -> bool {
        self.chars@ == self.source@ && self.pos <= self.chars@.len()
    }

    pub fn new(source: &'input str) -> (r: Self)
        ensures
            r.wf(),
            r.source() == source@,
            r.pos() == 0,
    {
        let n = source.unicode_len();
        let mut chars: Vec<char> = Vec::new();
        let mut k: usize = 0;
        while k < n
            invariant
                k <= n,
                n == source@.len(),
                chars@ == source@.subrange(0, k as int),
            decreases n - k,
        {
            chars.push(source.get_char(k));
            k += 1;
            assert(chars@ =~= source@.subrange(0, k as int));
        }
        assert(chars@ =~= source@);
        Lexer { source, chars, pos: 0 }
    }

    fn digits_from(&self, i: usize) -> (r: usize)
        requires
            self.wf(),
            i <= self.chars@.len(),
        ensures
            r == digits_end(self.source(), i as int),
            i <= r <= self.chars@.len(),
            digit_at(self.source(), i as int) ==> i < r,
    {
        let mut j = i;
        while j < self.chars.len() && is_digit_char(self.chars[j])
            invariant
                self.wf(),
                i <= j <= self.chars@.len(),
                digits_end(self.source(), i as int) == digits_end(self.source(), j as int),
            decreases self.chars@.len() - j,
        {
            j += 1;
        }
        j
    }

    fn char_is(&self, i: usize, c: char) -> (r: bool)
        requires
            self.wf(),
        ensures
            r == has(self.source(), i as int, c),
    {
        i < self.chars.len() && self.chars[i] == c
    }

    fn digit_is_at(&self, i: usize) -> (r: bool)
        requires
            self.wf(),
        ensures
            r == digit_at(self.source(), i as int),
    {
        i < self.chars.len() && is_digit_char(self.chars[i])
    }

    fn sign_is_at(&self, i: usize) -> (r: bool)
        requires
            self.wf(),
        ensures
            r == sign_at(self.source(), i as int),
    {
        self.char_is(i, '+') || self.char_is(i, '-')
    }

    /// Where the blanks and comments from `i` on end.
    fn skip_from(&self, i0: usize) -> (r: usize)
        requires
            self.wf(),
            i0 <= self.chars@.len(),
        ensures
            r == skip_end(self.source(), i0 as int),
            i0 <= r <= self.chars@.len(),
    {
        let ghost s = self.source();
        let n = self.chars.len();
        let mut i = i0;
        loop
            invariant
                self.wf(),
                n == s.len(),
                s == self.source(),
                i0 <= i <= n,
                skip_end(s, i0 as int) == skip_end(s, i as int),
            decreases n - i,
        {
            if i >= n {
                return i;
            }
            let c = self.chars[i];
            if c == ' ' || c == '\t' || c == '\n' || c == '\x0c' {
                i += 1;
            } else if c == '/' && self.char_is(i + 1, '/') {
                let mut j = i + 2;
                while j < n && self.chars[j] != '\n'
                    invariant
                        self.wf(),
                        n == s.len(),
                        s == self.source(),
                        i + 2 <= j <= n,
                        in_line_comment(s, i + 2) == in_line_comment(s, j as int),
                    decreases n - j,
                {
                    j += 1;
                }
                if j < n {
                    i = j + 1;
                } else {
                    return j;
                }
            } else if c == '{' {
                let mut j = i + 1;
                while j < n && self.chars[j] != '}'
                    invariant
                        self.wf(),
                        n == s.len(),
                        s == self.source(),
                        i + 1 <= j <= n,
                        in_brace_comment(s, i + 1) == in_brace_comment(s, j as int),
                        find(s, i + 1, '}') == find(s, j as int, '}'),
                    decreases n - j,
                {
                    j += 1;
                }
                if j < n {
                    i = j + 1;
                } else {
                    return i;
                }
            } else if c == '(' && self.char_is(i + 1, '*') {
                let mut j = i + 2;
                while j < n - 1 && !(self.chars[j] == '*' && self.chars[j + 1] == ')')
                    invariant
                        self.wf(),
                        n == s.len(),
                        s == self.source(),
                        i + 2 <= j <= n,
                        in_paren_comment(s, i + 2) == in_paren_comment(s, j as int),
                        find_close(s, i + 2) == find_close(s, j as int),
                    decreases n - j,
                {
                    j += 1;
                }
                if j < n - 1 {
                    i = j + 2;
                } else {
                    return i;
                }
            } else {
                return i;
            }
        }
    }
}

} // verus!

verus! {

impl<'input> Lexer<'input> {
    fn number_from(&self, i: usize) -> (r: (usize, bool))
        requires
            self.wf(),
            i < self.chars@.len(),
            number_starts(self.source(), i as int),
        ensures
            r.0 == number_end(self.source(), i as int),
            r.1 == number_is_real(self.source(), i as int),
            i < r.0 <= self.chars@.len(),
    {
        let n = self.chars.len();
        let m = if self.sign_is_at(i) {
            i + 1
        } else {
            i
        };
        let d = self.digits_from(m);
        let f = if self.char_is(d, '.') && self.digit_is_at(d + 1) {
            self.digits_from(d + 1)
        } else {
            d
        };
        let mut end = f;
        if self.char_is(f, 'e') || self.char_is(f, 'E') {
            let j = if self.sign_is_at(f + 1) {
                f + 2
            } else {
                f + 1
            };
            if self.digit_is_at(j) {
                end = self.digits_from(j);
            }
        }
        (end, end != d)
    }

    fn string_from(&self, i: usize) -> (r: usize)
        requires
            self.wf(),
            i < self.chars@.len(),
        ensures
            r == string_end(self.source(), i + 1, i + 1),
            r == 0 || i + 1 < r <= self.chars@.len(),
    {
        let ghost s = self.source();
        let n = self.chars.len();
        let first = i + 1;
        let mut j = first;
        let mut last: usize = 0;
        proof {
            lemma_string_end_bounds(s, first as int, first as int);
        }
        while j < n
            invariant
                self.wf(),
                s == self.source(),
                n == s.len(),
                first == i + 1,
                first <= j <= n,
                last == 0 || first < last <= j,
                string_end(s, first as int, first as int) == (if string_end(s, first as int, j as int)
                    > 0 {
                    string_end(s, first as int, j as int)
                } else {
                    last as int
                }),
            decreases n - j,
        {
            proof {
                lemma_string_end_bounds(s, first as int, j + 1);
            }
            if self.chars[j] == '"' {
                last = j + 1;
                if !(j > first && self.chars[j - 1] == '\\') {
                    return last;
                }
            }
            j += 1;
        }
        last
    }

    /// The longest operator or punctuation at `i`.
    fn symbol_from(&self, i: usize) -> (r: Option<(Token<'input>, usize)>)
        requires
            self.wf(),
            i < self.chars@.len(),
        ensures
            match r {
                Some((t, e)) => e == symbol_end(self.source(), i as int) && e > i && !t.is_literal()
                    && t.text() == self.source().subrange(i as int, e as int),
                None => symbol_end(self.source(), i as int) == i,
            },
    {
        let n = self.chars.len();
        let c = self.chars[i];
        let two = if self.char_is(i + 1, '=') {
            if c == '<' {
                Some(Token::SpecialLessEqual)
            } else if c == '>' {
                Some(Token::SpecialGreaterEqual)
            } else if c == ':' {
                Some(Token::SpecialAssign)
            } else {
                None
            }
        } else if c == '<' && self.char_is(i + 1, '>') {
            Some(Token::SpecialSpaceship)
        } else if c == '.' && self.char_is(i + 1, '.') {
            Some(Token::SpecialRange)
        } else {
            None
        };
        if let Some(t) = two {
            assert(self.source().subrange(i as int, i + 2) =~= t.text());
            return Some((t, i + 2));
        }
        let one = if c == '+' {
            Some(Token::SpecialPlus)
        } else if c == '-' {
            Some(Token::SpecialMinus)
        } else if c == '*' {
            Some(Token::SpecialMul)
        } else if c == '/' {
            Some(Token::SpecialDiv)
        } else if c == '=' {
            Some(Token::SpecialEqual)
        } else if c == '<' {
            Some(Token::SpecialLower)
        } else if c == '>' {
            Some(Token::SpecialGreater)
        } else if c == '[' {
            Some(Token::SpecialOpenBracket)
        } else if c == ']' {
            Some(Token::SpecialCloseBracket)
        } else if c == '.' {
            Some(Token::SpecialDot)
        } else if c == ',' {
            Some(Token::SpecialComma)
        } else if c == ';' {
            Some(Token::SpecialDotComma)
        } else if c == ':' {
            Some(Token::SpecialColon)
        } else if c == '"' {
            Some(Token::SpecialQuotation)
        } else if c == '(' {
            Some(Token::SpecialOpenParen)
        } else if c == ')' {
            Some(Token::SpecialCloseParen)
        } else {
            None
        };
        match one {
            Some(t) => {
                assert(self.source().subrange(i as int, i + 1) =~= t.text());
                Some((t, i + 1))
            },
            None => None,
        }
    }

    /// Scans the next token: its start, the token and its end. `None` where
    /// only blanks and comments remain; an error where no rule matches.
    pub fn next_token(&mut self) -> (r: Option<Result<(usize, Token<'input>, usize), LexingError>>)
        requires
            old(self).wf(),
        ensures
            final(self).wf(),
            final(self).source() == old(self).source(),
            old(self).pos() <= skip_end(old(self).source(), old(self).pos()) <= old(self).source().len(),
            ({
                let s = old(self).source();
                let i = skip_end(s, old(self).pos());
                match r {
                    None => i == s.len() && final(self).pos() == i,
                    Some(Ok((a, t, b))) => a == i && scanned(s, i, t, b as int) && final(self).pos()
                        == b,
                    Some(Err(err)) => i < s.len() && unmatched(s, i) && err == LexingError::Other
                        && final(self).pos() == i + 1,
                }
            }),
    {
        let ghost s = self.source();
        let i = self.skip_from(self.pos);
        let n = self.chars.len();
        if i >= n {
            self.pos = i;
            return None;
        }
        let c = self.chars[i];
        if is_letter_char(c) {
            let mut e = i + 1;
            while e < n && (is_letter_char(self.chars[e]) || is_digit_char(self.chars[e]))
                invariant
                    self.wf(),
                    s == self.source(),
                    n == s.len(),
                    i < e <= n,
                    alnum_end(s, i as int) == alnum_end(s, e as int),
                decreases n - e,
            {
                e += 1;
            }
            let t = match reserved_word(&self.chars, i, e) {
                Some(w) => w,
                None => Token::Identifier(self.source.substring_char(i, e)),
            };
            self.pos = e;
            return Some(Ok((i, t, e)));
        }
        if self.digit_is_at(i) || (self.sign_is_at(i) && self.digit_is_at(i + 1)) {
            let (e, is_real) = self.number_from(i);
            let text = self.source.substring_char(i, e);
            self.pos = e;
            return Some(Ok((i, if is_real { Token::Real(text) } else { Token::Integer(text) }, e)));
        }
        if c == '"' {
            let e = self.string_from(i);
            if e > 0 {
                self.pos = e;
                return Some(Ok((i, Token::String(self.source.substring_char(i, e)), e)));
            }
        }
        match self.symbol_from(i) {
            Some((t, e)) => {
                self.pos = e;
                Some(Ok((i, t, e)))
            },
            None => {
                self.pos = i + 1;
                Some(Err(LexingError::Other))
            },
        }
    }
}

} // verus!

verus! {

proof fn lemma_lexes_push<'a>(s: Seq<char>, p: int, toks: Seq<Token<'a>>, i: int, t: Token<'a>, e: int)
    requires
        lexes_until(s, p, toks, i),
        scanned(s, i, t, e),
    ensures
        lexes_until(s, p, toks.push(t), skip_end(s, e)),
    decreases toks.len(),
{
    assert(toks.push(t)[toks.len() as int] == t);
    assert(t.text().len() == e - i);
    if toks.len() == 0 {
        assert(toks.push(t).drop_first() =~= Seq::<Token<'a>>::empty());
        assert(lexes_until(s, e, Seq::<Token<'a>>::empty(), skip_end(s, e)));
    } else {
        let i0 = skip_end(s, p);
        let e0 = i0 + toks[0].text().len();
        lemma_lexes_push(s, e0, toks.drop_first(), i, t, e);
        assert(toks.push(t).drop_first() =~= toks.drop_first().push(t));
    }
}

/// Scanning `s` yields `toks` and then ends, or stops at `stop`, where no
/// token rule matches.
pub open spec fn scans_to<'a>(s: Seq<char>, toks: Seq<Token<'a>>, stop: Option<int>) -> bool {
    match stop {
        None => lexes(s, toks),
        Some(q) => lexes_until(s, 0, toks, q) && 0 <= q < s.len() && unmatched(s, q),
    }
}

/// Scans `source` up to its end or to the first position where no rule
/// matches: the tokens before it, and that position.
pub fn scan<'a>(source: &'a str) -> (r: (Vec<Token<'a>>, Option<usize>))
    ensures
        scans_to(source@, r.0@, match r.1 {
            Some(q) => Some(q as int),
            None => None,
        }),
{
    let ghost s = source@;
    let mut lexer = Lexer::new(source);
    let mut toks: Vec<Token<'a>> = Vec::new();
    loop
        invariant
            s == source@,
            lexer.wf(),
            lexer.source() == s,
            lexes_until(s, 0, toks@, skip_end(s, lexer.pos())),
        decreases s.len() - lexer.pos(),
    {
        let ghost before = lexer.pos();
        match lexer.next_token() {
            None => {
                assert(skip_end(s, before) == s.len());
                return (toks, None);
            },
            Some(Ok((a, t, b))) => {
                proof {
                    lemma_lexes_push(s, 0, toks@, a as int, t, b as int);
                }
                toks.push(t);
            },
            Some(Err(_)) => {
                return (toks, Some(lexer.pos - 1));
            },
        }
    }
}

/// Scans the whole of `source` into its tokens; on failure, the error and
/// the position where no rule matched.
pub fn tokenize<'a>(source: &'a str) -> (r: Result<Vec<Token<'a>>, (LexingError, usize)>)
    ensures
        r is Ok ==> lexes(source@, r->Ok_0@),
        r is Err ==> ({
            let (err, q) = r->Err_0;
            &&& err == LexingError::Other
            &&& q < source@.len()
            &&& unmatched(source@, q as int)
            &&& exists|toks: Seq<Token<'a>>| lexes_until(source@, 0, toks, q as int)
        }),
{
    let (toks, stop) = scan(source);
    match stop {
        None => Ok(toks),
        Some(q) => Err((LexingError::Other, q)),
    }
}

} // verus!

verus! {

/// `x` holds a decimal point or an exponent marker.
pub open spec fn has_point_or_exponent(x: Seq<char>) -> bool {
    exists|k: int| 0 <= k < x.len() && (x[k] == '.' || x[k] == 'e' || x[k] == 'E')
}

proof fn lemma_digits_end(s: Seq<char>, j: int)
    requires
        0 <= j,
    ensures
        j <= digits_end(s, j),
        digits_end(s, j) == j || digits_end(s, j) <= s.len(),
        forall|k: int| j <= k < digits_end(s, j) ==> is_digit(#[trigger] s[k]),
    decreases s.len() - j,
{
    if j < s.len() && is_digit(s[j]) {
        lemma_digits_end(s, j + 1);
    }
}

/// A numeric token is an integer exactly when its text holds neither a
/// decimal point nor an exponent marker, and a real exactly when it holds one.
pub proof fn lemma_integer_real_partition<'a>(s: Seq<char>, i: int, t: Token<'a>, e: int)
    requires
        scanned(s, i, t, e),
        t is Integer || t is Real,
    ensures
        t is Integer <==> !has_point_or_exponent(t.text()),
        t is Real <==> has_point_or_exponent(t.text()),
{
    let x = t.text();
    let m = mantissa_start(s, i);
    let d = digits_end(s, m);
    lemma_digits_end(s, m);
    assert(number_starts(s, i));
    assert(e == number_end(s, i));
    let f = fraction_end(s, d);
    if f != d {
        lemma_digits_end(s, d + 1);
    }
    if has(s, f, 'e') || has(s, f, 'E') {
        let j = if sign_at(s, f + 1) {
            f + 2
        } else {
            f + 1
        };
        lemma_digits_end(s, j);
    }
    if t is Integer {
        assert(e == d);
        assert forall|k: int| 0 <= k < x.len() implies !(x[k] == '.' || x[k] == 'e' || x[k]
            == 'E') by {
            assert(x[k] == s[i + k]);
            if i + k >= m {
                assert(is_digit(s[i + k]));
            }
        }
    } else {
        if f != d {
            assert(x[d - i] == s[d]);
        } else {
            assert(x[d - i] == s[d]);
        }
    }
}

/// `t` is the token that the longest match took at some position of `s`;
/// its text is exactly the slice of `s` it was scanned from.
pub open spec fn scanned_in<'a>(s: Seq<char>, t: Token<'a>) -> bool {
    exists|a: int| #[trigger] scanned(s, a, t, a + t.text().len())
}

/// Every token that the scanner yields is the exact slice of the source that
/// the longest match took, with nothing trimmed, folded or unescaped.
pub proof fn lemma_tokens_verbatim<'a>(s: Seq<char>, p: int, toks: Seq<Token<'a>>, q: int)
    requires
        lexes_until(s, p, toks, q),
    ensures
        forall|k: int| 0 <= k < toks.len() ==> scanned_in(s, #[trigger] toks[k]),
    decreases toks.len(),
{
    if toks.len() > 0 {
        let i = skip_end(s, p);
        let e = i + toks[0].text().len();
        lemma_tokens_verbatim(s, e, toks.drop_first(), q);
        assert forall|k: int| 0 <= k < toks.len() implies scanned_in(s, #[trigger] toks[k]) by {
            if k == 0 {
                assert(scanned(s, i, toks[0], e));
            } else {
                assert(toks[k] == toks.drop_first()[k - 1]);
            }
        }
    }
}

} // verus!

verus! {

/// Both tokens have the same class (identifier, integer, real, string, or
/// other) and the same text.
pub open spec fn same_lexeme<'a, 'b>(t: Token<'a>, u: Token<'b>) -> bool {
    &&& t.text() == u.text()
    &&& t is Identifier == u is Identifier
    &&& t is Integer == u is Integer
    &&& t is Real == u is Real
    &&& t is String == u is String
}

proof fn lemma_scanned_unique<'a, 'b>(s: Seq<char>, i: int, t: Token<'a>, e: int, u: Token<'b>, f: int)
    requires
        scanned(s, i, t, e),
        scanned(s, i, u, f),
    ensures
        e == f,
        same_lexeme(t, u),
{
}

proof fn lemma_scanned_matched<'a>(s: Seq<char>, i: int, t: Token<'a>, e: int)
    requires
        scanned(s, i, t, e),
    ensures
        !unmatched(s, i),
{
}

/// The scanner is deterministic: two token sequences of one source agree
/// token by token in class and text.
pub proof fn lemma_lexing_is_deterministic<'a, 'b>(
    s: Seq<char>,
    p: int,
    a: Seq<Token<'a>>,
    b: Seq<Token<'b>>,
)
    requires
        lexes_until(s, p, a, s.len() as int),
        lexes_until(s, p, b, s.len() as int),
    ensures
        a.len() == b.len(),
        forall|k: int| 0 <= k < a.len() ==> same_lexeme(#[trigger] a[k], b[k]),
    decreases a.len(),
{
    let i = skip_end(s, p);
    if a.len() > 0 && b.len() > 0 {
        let e = i + a[0].text().len();
        lemma_scanned_unique(s, i, a[0], e, b[0], i + b[0].text().len());
        lemma_lexing_is_deterministic(s, e, a.drop_first(), b.drop_first());
        assert forall|k: int| 0 <= k < a.len() implies same_lexeme(#[trigger] a[k], b[k]) by {
            if k > 0 {
                assert(a[k] == a.drop_first()[k - 1]);
                assert(b[k] == b.drop_first()[k - 1]);
            }
        }
    }
}

/// A source on which the scanner stops at a character that no rule matches
/// has no token sequence.
pub proof fn lemma_lex_failure_is_final<'a, 'b>(
    s: Seq<char>,
    p: int,
    a: Seq<Token<'a>>,
    q: int,
    b: Seq<Token<'b>>,
)
    requires
        lexes_until(s, p, a, q),
        0 <= q < s.len(),
        unmatched(s, q),
    ensures
        !lexes_until(s, p, b, s.len() as int),
    decreases a.len(),
{
    if lexes_until(s, p, b, s.len() as int) {
        let i = skip_end(s, p);
        if a.len() == 0 {
            if b.len() > 0 {
                lemma_scanned_matched(s, i, b[0], i + b[0].text().len());
            }
        } else {
            let e = i + a[0].text().len();
            if b.len() > 0 {
                lemma_scanned_unique(s, i, a[0], e, b[0], i + b[0].text().len());
                lemma_lex_failure_is_final(s, e, a.drop_first(), q, b.drop_first());
            }
        }
    }
}

} // verus!

verus! {

/// `x` is one numeric lexeme: an optional sign, digits, an optional fraction
/// and an optional exponent, and nothing else.
pub open spec fn is_numeric_lexeme(x: Seq<char>) -> bool {
    number_starts(x, 0) && number_end(x, 0) == x.len()
}

/// A numeric lexeme scans as one whole token with exactly its text: an
/// integer when it holds neither a decimal point nor an exponent marker, a
/// real otherwise.
pub proof fn lemma_numeric_lexeme_is_one_token<'a>(x: Seq<char>, toks: Seq<Token<'a>>)
    requires
        is_numeric_lexeme(x),
        lexes(x, toks),
    ensures
        toks.len() == 1,
        toks[0].text() == x,
        toks[0] is Integer <==> !has_point_or_exponent(x),
        toks[0] is Real <==> has_point_or_exponent(x),
{
    assert(skip_end(x, 0) == 0);
    assert(toks.len() > 0);
    let e = toks[0].text().len() as int;
    assert(scanned(x, 0, toks[0], e));
    assert(e == x.len());
    let rest = toks.drop_first();
    assert(lexes_until(x, e, rest, x.len() as int));
    if rest.len() > 0 {
        assert(skip_end(x, e) == e);
        assert(scanned(x, e, rest[0], e + rest[0].text().len()));
    }
    assert(x.subrange(0, e) =~= x);
    lemma_integer_real_partition(x, 0, toks[0], e);
}

} // verus!

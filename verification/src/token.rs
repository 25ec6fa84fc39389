use vstd::prelude::*;
use crate::text::{has_space, push_char, string_of};

verus! {

/// A token of a command: a symbol, or an expression that was enclosed in parentheses.
#[derive(Debug, PartialEq, Clone)]
pub enum Token {
    Atom(String),
    Expression(String),
}

/// The state of the tokenizer after reading a prefix of a line: the depth of
/// parentheses, the text of the token being read and the tokens completed so far.
pub struct LexState {
    pub level: int,
    pub token: Seq<char>,
    pub tokens: Seq<Seq<char>>,
}

/// Ends the current token when reading a separator at depth zero, and keeps
/// the separator as part of the token when inside parentheses.
pub open spec fn push_token_spec(
    letter: char,
    level: int,
    token: Seq<char>,
    tokens: Seq<Seq<char>>,
) -> (Seq<char>, Seq<Seq<char>>) {
    let (t, ts) = if token.len() != 0 && level == 0 {
        (Seq::<char>::empty(), tokens.push(token))
    } else {
        (token, tokens)
    };
    if level != 0 {
        (t.push(letter), ts)
    } else {
        (t, ts)
    }
}

/// The effect of reading one character.
pub open spec fn lex_step(st: LexState, letter: char) -> LexState {
    if letter == '(' {
        let (t, ts) = push_token_spec(letter, st.level, st.token, st.tokens);
        LexState { level: st.level + 1, token: t, tokens: ts }
    } else if letter == ')' {
        let (t, ts) = push_token_spec(letter, st.level - 1, st.token, st.tokens);
        LexState { level: st.level - 1, token: t, tokens: ts }
    } else if letter == ' ' {
        let (t, ts) = push_token_spec(letter, st.level, st.token, st.tokens);
        LexState { level: st.level, token: t, tokens: ts }
    } else if letter == '\n' || letter == '\r' {
        st
    } else {
        LexState { level: st.level, token: st.token.push(letter), tokens: st.tokens }
    }
}

/// The tokenizer's state after reading the whole of `s`.
pub open spec fn lex(s: Seq<char>) -> LexState
    decreases s.len(),
{
    if s.len() == 0 {
        LexState { level: 0, token: Seq::empty(), tokens: Seq::empty() }
    } else {
        lex_step(lex(s.drop_last()), s.last())
    }
}

/// The tokens of a line: the top-level symbols and parenthesised expressions
/// separated by spaces, with the outer parentheses of each expression removed.
pub open spec fn tokens_of(s: Seq<char>) -> Seq<Seq<char>> {
    let st = lex(s);
    if st.token.len() != 0 {
        st.tokens.push(st.token)
    } else {
        st.tokens
    }
}

/// The depth of parentheses after each prefix of `s` fits in an `i8`, the
/// counter that the tokenizer keeps.
pub open spec fn nesting_fits(s: Seq<char>) -> bool {
    forall|k: int| 0 <= k <= s.len() ==> -128 <= #[trigger] lex(s.take(k)).level <= 127
}

/// The token that a piece of text becomes: an expression when it holds a space.
pub open spec fn token_of(s: Seq<char>) -> (bool, Seq<char>) {
    (s.contains(' '), s)
}

impl Token {
    /// Whether the token is an expression, and its text.
    pub open spec fn spec_parts(self) -> (bool, Seq<char>) {
        match self {
            Token::Expression(s) => (true, s@),
            Token::Atom(s) => (false, s@),
        }
    }

    /// The text of the token.
    pub fn as_string(&self) -> (s: String)
        ensures
            s@ == self.spec_parts().1,
    {
        match self {
            Token::Expression(s) => s.clone(),
            Token::Atom(s) => s.clone(),
        }
    }

    /// Joins two tokens into an expression, enclosing each expression in parentheses.
    pub fn add(self, other: Token) -> (t: Token)
        ensures
            t.spec_parts() == (true, joint_text(self.spec_parts()) + " "@ + joint_text(
                other.spec_parts(),
            )),
    {
        let ghost a = self.spec_parts();
        let ghost b = other.spec_parts();
        let mut app_string = match self {
            Token::Expression(s) => {
                let mut r = string_of("(");
                r.append(s.as_str());
                r.append(")");
                r
            },
            Token::Atom(s) => s,
        };
        let arg_string = match other {
            Token::Expression(s) => {
                let mut r = string_of("(");
                r.append(s.as_str());
                r.append(")");
                r
            },
            Token::Atom(s) => s,
        };
        proof {
            reveal_strlit("(");
            reveal_strlit(")");
            reveal_strlit(" ");
        }
        app_string.append(" ");
        app_string.append(arg_string.as_str());
        let t = Token::Expression(app_string);
        assert(t.spec_parts().1 =~= joint_text(a) + " "@ + joint_text(b));
        t
    }
}

/// The text of a token when joined with another: an expression in parentheses.
pub open spec fn joint_text(p: (bool, Seq<char>)) -> Seq<char> {
    if p.0 {
        "("@ + p.1 + ")"@
    } else {
        p.1
    }
}

/// Classifies each piece of text as an expression (when it holds a space) or an atom.
pub fn parse_tokens(tokens: &[String]) -> (new_tokens: Vec<Token>)
    ensures
        new_tokens.len() == tokens.len(),
        forall|i: int|
            0 <= i < tokens.len() ==> #[trigger] new_tokens[i].spec_parts() == token_of(
                tokens[i]@,
            ),
{
    let mut new_tokens: Vec<Token> = Vec::new();
    let mut i: usize = 0;
    while i < tokens.len()
        invariant
            i <= tokens.len(),
            new_tokens.len() == i,
            forall|j: int|
                0 <= j < i ==> #[trigger] new_tokens[j].spec_parts() == token_of(tokens[j]@),
        decreases tokens.len() - i,
    {
        let token = &tokens[i];
        if has_space(token.as_str()) {
            new_tokens.push(Token::Expression(token.clone()));
        } else {
            new_tokens.push(Token::Atom(token.clone()));
        }
        i = i + 1;
    }
    new_tokens
}

/// Splits a line into its top-level tokens.
pub fn parse_line(buffer: &str) -> (tokens: Vec<String>)
    requires
        nesting_fits(buffer@),
    ensures
        tokens@.map_values(|t: String| t@) == tokens_of(buffer@),
{
    let mut tokens: Vec<String> = Vec::new();
    let mut token = String::new();
    let mut parenthesis_level: i8 = 0;
    let n = buffer.unicode_len();
    let mut i: usize = 0;
    while i < n
        invariant
            n == buffer@.len(),
            i <= n,
            nesting_fits(buffer@),
            ({
                let st = lex(buffer@.take(i as int));
                &&& st.level == parenthesis_level as int
                &&& st.token == token@
                &&& st.tokens == tokens@.map_values(|t: String| t@)
            }),
        decreases n - i,
    {
        let letter = buffer.get_char(i);
        proof {
            assert(buffer@.take(i + 1).drop_last() =~= buffer@.take(i as int));
            assert(buffer@.take(i + 1).last() == letter);
            assert(-128 <= lex(buffer@.take(i + 1)).level <= 127);
        }
        parse_letter(letter, &mut parenthesis_level, &mut token, &mut tokens);
        i = i + 1;
    }
    proof {
        assert(buffer@.take(n as int) =~= buffer@);
    }
    if !token.as_str().is_empty() {
        let ghost before = tokens@;
        tokens.push(token.clone());
        proof {
            assert(tokens@.map_values(|t: String| t@) =~= before.map_values(|t: String| t@).push(
                token@,
            ));
        }
    }
    tokens
}

/// Reads one character of a line.
fn parse_letter(letter: char, parenthesis_level: &mut i8, token: &mut String, tokens: &mut Vec<String>)
    requires
        -128 <= lex_step(
            LexState {
                level: *old(parenthesis_level) as int,
                token: old(token)@,
                tokens: old(tokens)@.map_values(|t: String| t@),
            },
            letter,
        ).level <= 127,
    ensures
        ({
            let st = lex_step(
                LexState {
                    level: *old(parenthesis_level) as int,
                    token: old(token)@,
                    tokens: old(tokens)@.map_values(|t: String| t@),
                },
                letter,
            );
            &&& st.level == *final(parenthesis_level) as int
            &&& st.token == final(token)@
            &&& st.tokens == final(tokens)@.map_values(|t: String| t@)
        }),
{
    if letter == '(' {
        push_token(letter, *parenthesis_level, token, tokens);
        *parenthesis_level += 1;
    } else if letter == ')' {
        *parenthesis_level -= 1;
        push_token(letter, *parenthesis_level, token, tokens);
    } else if letter == ' ' {
        push_token(letter, *parenthesis_level, token, tokens);
    } else if letter == '\n' || letter == '\r' {
    } else {
        push_char(token, letter);
    }
}

/// Ends the current token at a separator outside parentheses, and keeps the
/// separator inside the token when within parentheses.
fn push_token(letter: char, parenthesis_level: i8, token: &mut String, tokens: &mut Vec<String>)
    ensures
        ({
            let (t, ts) = push_token_spec(
                letter,
                parenthesis_level as int,
                old(token)@,
                old(tokens)@.map_values(|t: String| t@),
            );
            &&& t == final(token)@
            &&& ts == final(tokens)@.map_values(|t: String| t@)
        }),
{
    let ghost before = tokens@;
    if !token.as_str().is_empty() && parenthesis_level == 0 {
        tokens.push(token.clone());
        *token = String::new();
        proof {
            assert(tokens@.map_values(|t: String| t@) =~= before.map_values(|t: String| t@).push(
                old(token)@,
            ));
        }
    }
    if parenthesis_level != 0 {
        push_char(token, letter);
    }
}

} // verus!

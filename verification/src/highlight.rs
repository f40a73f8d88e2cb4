use vstd::prelude::*;
use vstd::string::StringSliceAdditionalSpecFns;
use vstd::utf8::{
    decode_utf8, encode_utf8, encode_utf8_decode_utf8, encode_utf8_valid_utf8, is_char_boundary,
};

use crate::console::Colors;

verus! {

/// A compiled regular expression.
#[verifier::external_type_specification]
#[verifier::external_body]
pub struct ExRegex(regex::Regex);

/// Whether `regex::Regex::new` accepts a pattern.
pub uninterp spec fn regex_compiles(pattern: Seq<char>) -> bool;

/// The byte range of the leftmost-first match of `pattern` in `haystack`, as
/// `regex::Regex::find` reports it.
pub uninterp spec fn regex_leftmost(pattern: Seq<char>, haystack: Seq<char>) -> Option<(int, int)>;

/// `regex::Regex::new`: a compiled pattern, when the pattern is valid.
#[verifier::external_body]
fn compile(pattern: &str) -> (r: Option<regex::Regex>)
    ensures
        r is Some <==> regex_compiles(pattern@),
{
    regex::Regex::new(pattern).ok()
}

/// A kind of token of Lua source: a pattern anchored at the start of the
/// text, and the colour its matches are drawn in.
pub struct Token {
    regex: regex::Regex,
    pattern: String,
    color: Colors,
}

impl Token {
    /// The token's pattern.
    pub closed spec fn pattern(&self) -> Seq<char> {
        self.pattern@
    }

    /// The colour of the token's matches.
    pub closed spec fn color_of(&self) -> Colors {
        self.color
    }

    /// The colour of the token's matches.
    pub fn color(&self) -> (r: Colors)
        ensures
            r == self.color_of(),
    {
        self.color
    }

    /// A token for `pattern`, when it compiles.
    pub fn new(pattern: &str, color: Colors) -> (r: Option<Token>)
        ensures
            r is Some <==> regex_compiles(pattern@),
            r matches Some(t) ==> t.pattern() == pattern@ && t.color_of() == color,
    {
        match compile(pattern) {
            Some(regex) => Some(Token { regex, pattern: String::from_str(pattern), color }),
            None => None,
        }
    }
}

/// `regex::Regex::find` with the token's regex, which only `Token::new`
/// makes, from the token's pattern: the byte range of the match, which the
/// regex crate documents as lying on character boundaries, start before end.
#[verifier::external_body]
fn find_token(token: &Token, text: &str) -> (r: Option<(usize, usize)>)
    ensures
        match r {
            Some((s, e)) => regex_leftmost(token.pattern(), text@) == Some((s as int, e as int)) && s
                <= e <= text.spec_bytes().len() && is_char_boundary(text.spec_bytes(), s as int)
                && is_char_boundary(text.spec_bytes(), e as int),
            None => regex_leftmost(token.pattern(), text@) is None,
        },
{
    token.regex.find(text).map(|m| (m.start(), m.end()))
}

/// The patterns of the tokens of Lua source, in the order they are tried,
/// with their colours: `rico:` calls, string literals, keywords, numbers,
/// operators and identifiers.
pub open spec fn lua_patterns() -> Seq<(Seq<char>, Colors)> {
    seq![
        ("^(rico):"@, Colors::Purple),
        ("^\"[^\"]*\"|^'[^']*'"@, Colors::Orange),
        ("^(local|function|end|if|then|else|elseif|for|while|do|repeat|until|return|break|and|or|not|in)\\b"@, Colors::Blue),
        ("^\\d+\\.?\\d*"@, Colors::Yellow),
        ("^[+\\-*/%=<>~]+"@, Colors::Teal),
        ("^[a-zA-Z_][a-zA-Z0-9_]*"@, Colors::Silver),
    ]
}

/// The words joined by `|`, as alternatives of a pattern.
pub open spec fn alternatives(ws: Seq<Seq<char>>) -> Seq<char>
    decreases ws.len(),
{
    if ws.len() == 0 {
        Seq::empty()
    } else if ws.len() == 1 {
        ws[0]
    } else {
        alternatives(ws.drop_last()) + seq!['|'] + ws.last()
    }
}

/// The keywords of Lua are highlighted in blue: the third pattern, tried
/// before the one for identifiers (drawn in silver), matches at the start of
/// the text any one of `local`, `function`, `end`, `if`, `then`, `else`,
/// `elseif`, `for`, `while`, `do`, `repeat`, `until`, `return`, `break`,
/// `and`, `or`, `not`, `in`, followed by a word boundary. The `rico:` calls
/// come first in purple and string literals second in orange.
pub proof fn law_lua_keywords_in_blue()
    ensures
        lua_patterns().len() == 6,
        lua_patterns()[2] == (
            "^("@ + alternatives(
                seq![
                    "local"@,
                    "function"@,
                    "end"@,
                    "if"@,
                    "then"@,
                    "else"@,
                    "elseif"@,
                    "for"@,
                    "while"@,
                    "do"@,
                    "repeat"@,
                    "until"@,
                    "return"@,
                    "break"@,
                    "and"@,
                    "or"@,
                    "not"@,
                    "in"@,
                ],
            ) + ")\\b"@,
            Colors::Blue,
        ),
        lua_patterns()[5].1 == Colors::Silver,
        lua_patterns()[0].1 == Colors::Purple,
        lua_patterns()[1].1 == Colors::Orange,
{
    reveal_strlit("^(local|function|end|if|then|else|elseif|for|while|do|repeat|until|return|break|and|or|not|in)\\b");
    reveal_strlit("^(");
    reveal_strlit(")\\b");
    reveal_strlit("local");
    reveal_strlit("function");
    reveal_strlit("end");
    reveal_strlit("if");
    reveal_strlit("then");
    reveal_strlit("else");
    reveal_strlit("elseif");
    reveal_strlit("for");
    reveal_strlit("while");
    reveal_strlit("do");
    reveal_strlit("repeat");
    reveal_strlit("until");
    reveal_strlit("return");
    reveal_strlit("break");
    reveal_strlit("and");
    reveal_strlit("or");
    reveal_strlit("not");
    reveal_strlit("in");
    let ws = seq![
        "local"@,
        "function"@,
        "end"@,
        "if"@,
        "then"@,
        "else"@,
        "elseif"@,
        "for"@,
        "while"@,
        "do"@,
        "repeat"@,
        "until"@,
        "return"@,
        "break"@,
        "and"@,
        "or"@,
        "not"@,
        "in"@,
    ];
    reveal_with_fuel(alternatives, 19);
    assert(lua_patterns()[2].0 =~= "^("@ + alternatives(ws) + ")\\b"@);
}

/// The tokens' patterns and colours.
pub open spec fn token_specs(ts: Seq<Token>) -> Seq<(Seq<char>, Colors)> {
    Seq::new(ts.len(), |i: int| (ts[i].pattern(), ts[i].color_of()))
}

/// The tokens of Lua source, or `None` when a pattern does not compile.
pub fn lua_tokens() -> (r: Option<Vec<Token>>)
    ensures
        r is Some <==> forall|i: int| 0 <= i < 6 ==> regex_compiles(#[trigger] lua_patterns()[i].0),
        r matches Some(ts) ==> token_specs(ts@) == lua_patterns(),
{
    let mut ts: Vec<Token> = Vec::new();
    let pats = [
        "^(rico):",
        "^\"[^\"]*\"|^'[^']*'",
        "^(local|function|end|if|then|else|elseif|for|while|do|repeat|until|return|break|and|or|not|in)\\b",
        "^\\d+\\.?\\d*",
        "^[+\\-*/%=<>~]+",
        "^[a-zA-Z_][a-zA-Z0-9_]*",
    ];
    let colors = [Colors::Purple, Colors::Orange, Colors::Blue, Colors::Yellow, Colors::Teal, Colors::Silver];
    assert(pats@[0]@ == lua_patterns()[0].0);
    assert(pats@[1]@ == lua_patterns()[1].0);
    assert(pats@[2]@ == lua_patterns()[2].0);
    assert(pats@[3]@ == lua_patterns()[3].0);
    assert(pats@[4]@ == lua_patterns()[4].0);
    assert(pats@[5]@ == lua_patterns()[5].0);
    let mut i: usize = 0;
    while i < 6
        invariant
            i <= 6,
            pats@.len() == 6,
            colors@.len() == 6,
            forall|j: int| 0 <= j < 6 ==> #[trigger] pats@[j]@ == lua_patterns()[j].0 && colors@[j] == lua_patterns()[j].1,
            forall|j: int| 0 <= j < i ==> regex_compiles(#[trigger] lua_patterns()[j].0),
            token_specs(ts@) == lua_patterns().take(i as int),
        decreases 6 - i,
    {
        assert(pats@[i as int]@ == lua_patterns()[i as int].0 && colors@[i as int] == lua_patterns()[i as int].1);
        match Token::new(pats[i], colors[i]) {
            Some(t) => {
                let ghost before = token_specs(ts@);
                assert(t.pattern() == lua_patterns()[i as int].0);
                assert(t.color_of() == lua_patterns()[i as int].1);
                ts.push(t);
                assert(token_specs(ts@) =~= before.push((t.pattern(), t.color_of())));
                assert(lua_patterns().take(i + 1) =~= lua_patterns().take(i as int).push(lua_patterns()[i as int]));
                assert(token_specs(ts@) =~= lua_patterns().take(i + 1));
            },
            None => {
                return None;
            },
        }
        i += 1;
    }
    assert(lua_patterns().take(6) =~= lua_patterns());
    Some(ts)
}

/// The first token whose pattern matches somewhere in `text`: its match's
/// byte range and colour.
pub open spec fn first_match(ts: Seq<(Seq<char>, Colors)>, text: Seq<char>) -> Option<(int, int, Colors)>
    decreases ts.len(),
{
    if ts.len() == 0 {
        None
    } else {
        match regex_leftmost(ts[0].0, text) {
            Some((s, e)) => Some((s, e, ts[0].1)),
            None => first_match(ts.drop_first(), text),
        }
    }
}

/// A line cut into coloured pieces, by bytes: a comment (`--`) runs to the
/// end in gray; else the first token that matches gives the piece it
/// matched, and the text goes on after the match; else one byte in silver.
/// Nothing where the editor's own code fails: a match that ends at the
/// start (the editor would loop forever) or a first character of more than
/// one byte (it cannot be cut off alone).
pub open spec fn highlighted(ts: Seq<(Seq<char>, Colors)>, b: Seq<u8>) -> Option<Seq<(Seq<u8>, Colors)>>
    decreases b.len(),
{
    if b.len() == 0 {
        Some(Seq::empty())
    } else if b.len() >= 2 && b[0] == 0x2du8 && b[1] == 0x2du8 {
        Some(seq![(b, Colors::Gray)])
    } else {
        match first_match(ts, decode_utf8(b)) {
            Some((s, e, c)) => if 0 < e && e <= b.len() && 0 <= s <= e {
                match highlighted(ts, b.skip(e)) {
                    Some(rest) => Some(seq![(b.subrange(s, e), c)] + rest),
                    None => None,
                }
            } else {
                None
            },
            None => if is_char_boundary(b, 1) {
                match highlighted(ts, b.skip(1)) {
                    Some(rest) => Some(seq![(b.take(1), Colors::Silver)] + rest),
                    None => None,
                }
            } else {
                None
            },
        }
    }
}

/// The tokens are tried in order and the first whose pattern matches wins:
/// what `first_match` gives is the match of some token's pattern, in that
/// token's colour, and no token before it matches; it gives nothing only
/// when no token matches.
pub proof fn law_first_token_wins(ts: Seq<(Seq<char>, Colors)>, text: Seq<char>)
    ensures
        first_match(ts, text) matches Some((s, e, c)) ==> exists|i: int|
            0 <= i < ts.len() && #[trigger] regex_leftmost(ts[i].0, text) == Some((s, e)) && ts[i].1 == c
                && forall|j: int| 0 <= j < i ==> regex_leftmost(#[trigger] ts[j].0, text) is None,
        first_match(ts, text) is None <==> forall|i: int|
            0 <= i < ts.len() ==> regex_leftmost(#[trigger] ts[i].0, text) is None,
    decreases ts.len(),
{
    if ts.len() > 0 {
        let rest = ts.drop_first();
        law_first_token_wins(rest, text);
        match regex_leftmost(ts[0].0, text) {
            Some((s, e)) => {
                assert(regex_leftmost(ts[0].0, text) == Some((s, e)));
            },
            None => {
                if let Some((s, e, c)) = first_match(rest, text) {
                    let i = choose|i: int|
                        0 <= i < rest.len() && #[trigger] regex_leftmost(rest[i].0, text) == Some((s, e)) && rest[i].1
                            == c && forall|j: int| 0 <= j < i ==> regex_leftmost(#[trigger] rest[j].0, text) is None;
                    assert(ts[i + 1] == rest[i]);
                    assert forall|j: int| 0 <= j < i + 1 implies regex_leftmost(#[trigger] ts[j].0, text) is None by {
                        if j > 0 {
                            assert(ts[j] == rest[j - 1]);
                        }
                    }
                }
                assert forall|i: int| 0 <= i < ts.len() && first_match(rest, text) is None implies regex_leftmost(
                    #[trigger] ts[i].0,
                    text,
                ) is None by {
                    if i > 0 {
                        assert(ts[i] == rest[i - 1]);
                    }
                }
                assert forall|i: int| 0 <= i < rest.len() && (forall|k: int|
                    0 <= k < ts.len() ==> regex_leftmost(#[trigger] ts[k].0, text) is None) implies regex_leftmost(
                    #[trigger] rest[i].0,
                    text,
                ) is None by {
                    assert(rest[i] == ts[i + 1]);
                }
            },
        }
    }
}

/// A line that starts with `--` is a comment: one piece, the whole line,
/// in gray. The empty line has no pieces.
pub proof fn law_comment_is_gray(ts: Seq<(Seq<char>, Colors)>, b: Seq<u8>)
    ensures
        b.len() >= 2 && b[0] == 0x2du8 && b[1] == 0x2du8 ==> highlighted(ts, b) == Some(seq![(b, Colors::Gray)]),
        b.len() == 0 ==> highlighted(ts, b) == Some(Seq::<(Seq<u8>, Colors)>::empty()),
{
}

/// The bytes of pieces, one after the other.
pub open spec fn joined_pieces(p: Seq<(Seq<u8>, Colors)>) -> Seq<u8>
    decreases p.len(),
{
    if p.len() == 0 {
        seq![]
    } else {
        p[0].0 + joined_pieces(p.drop_first())
    }
}

/// When every match the tokens find starts where the text does (as the
/// patterns' `^` anchors ask of the regex crate), the pieces of a
/// highlighted line, one after the other, are the line.
pub proof fn law_highlight_rejoins(ts: Seq<(Seq<char>, Colors)>, b: Seq<u8>)
    requires
        highlighted(ts, b) is Some,
        forall|t: Seq<char>| #[trigger] first_match(ts, t) matches Some((s, _, _)) ==> s == 0,
    ensures
        joined_pieces(highlighted(ts, b).unwrap()) == b,
    decreases b.len(),
{
    let p = highlighted(ts, b).unwrap();
    if b.len() == 0 {
    } else if b.len() >= 2 && b[0] == 0x2du8 && b[1] == 0x2du8 {
        assert(p.drop_first() =~= Seq::<(Seq<u8>, Colors)>::empty());
        assert(joined_pieces(p.drop_first()) == Seq::<u8>::empty());
        assert(b + Seq::<u8>::empty() =~= b);
    } else {
        match first_match(ts, decode_utf8(b)) {
            Some((s, e, c)) => {
                law_highlight_rejoins(ts, b.skip(e));
                let rest = highlighted(ts, b.skip(e)).unwrap();
                assert(p == seq![(b.subrange(s, e), c)] + rest);
                assert(p.drop_first() =~= rest);
                assert(b.subrange(0, e) + b.skip(e) =~= b);
            },
            None => {
                law_highlight_rejoins(ts, b.skip(1));
                let rest = highlighted(ts, b.skip(1)).unwrap();
                assert(p == seq![(b.take(1), Colors::Silver)] + rest);
                assert(p.drop_first() =~= rest);
                assert(b.take(1) + b.skip(1) =~= b);
            },
        }
    }
}

/// The pieces, each by its bytes and colour.
pub open spec fn pieces_of(v: Seq<(String, Colors)>) -> Seq<(Seq<u8>, Colors)> {
    Seq::new(v.len(), |i: int| (encode_utf8(v[i].0@), v[i].1))
}

/// The line could not be cut into pieces: where the editor's own code fails.
pub struct HighlightError;

/// The first token whose pattern matches in `text`.
fn first_token_match(tokens: &Vec<Token>, text: &str) -> (r: Option<(usize, usize, Colors)>)
    ensures
        match r {
            Some((s, e, c)) => first_match(token_specs(tokens@), text@) == Some((s as int, e as int, c)) && s
                <= e <= text.spec_bytes().len() && is_char_boundary(text.spec_bytes(), s as int)
                && is_char_boundary(text.spec_bytes(), e as int),
            None => first_match(token_specs(tokens@), text@) is None,
        },
{
    let mut i: usize = 0;
    assert(token_specs(tokens@).skip(0) =~= token_specs(tokens@));
    while i < tokens.len()
        invariant
            i <= tokens@.len(),
            first_match(token_specs(tokens@), text@) == first_match(token_specs(tokens@).skip(i as int), text@),
        decreases tokens@.len() - i,
    {
        let ghost rest = token_specs(tokens@).skip(i as int);
        assert(rest[0] == (tokens@[i as int].pattern(), tokens@[i as int].color_of()));
        assert(rest.drop_first() =~= token_specs(tokens@).skip(i + 1));
        match find_token(&tokens[i], text) {
            Some((s, e)) => {
                return Some((s, e, tokens[i].color()));
            },
            None => {},
        }
        i += 1;
    }
    assert(token_specs(tokens@).skip(i as int) =~= Seq::<(Seq<char>, Colors)>::empty());
    None
}

/// A character boundary of valid text is one of any valid prefix that reaches it.
proof fn lemma_boundary_prefix(b: Seq<u8>, e: int, s: int)
    requires
        vstd::utf8::valid_utf8(b),
        is_char_boundary(b, e),
        is_char_boundary(b, s),
        0 <= s <= e <= b.len(),
    ensures
        vstd::utf8::valid_utf8(b.subrange(0, e)),
        is_char_boundary(b.subrange(0, e), s),
{
    vstd::utf8::valid_utf8_split(b, e);
    let h = b.subrange(0, e);
    if s == e {
        vstd::utf8::is_char_boundary_start_end_of_seq(h);
    } else if s == 0 {
        vstd::utf8::is_char_boundary_start_end_of_seq(h);
    } else {
        vstd::utf8::is_char_boundary_iff_not_is_continuation_byte(b, s);
        vstd::utf8::is_char_boundary_iff_not_is_continuation_byte(h, s);
    }
}

/// Cuts a line of Lua into coloured pieces (see `highlighted`).
pub fn highlight_lua_line(tokens: &Vec<Token>, line: &str) -> (r: Result<Vec<(String, Colors)>, HighlightError>)
    ensures
        match r {
            Ok(v) => highlighted(token_specs(tokens@), line.spec_bytes()) == Some(pieces_of(v@)),
            Err(_) => highlighted(token_specs(tokens@), line.spec_bytes()) is None,
        },
{
    let ghost ts = token_specs(tokens@);
    let mut result: Vec<(String, Colors)> = Vec::new();
    let mut remaining: &str = line;
    proof {
        encode_utf8_valid_utf8(line@);
    }
    while remaining.as_bytes().len() > 0
        invariant
            ts == token_specs(tokens@),
            vstd::utf8::valid_utf8(remaining.spec_bytes()),
            highlighted(ts, line.spec_bytes()) matches Some(all) ==> {
                &&& highlighted(ts, remaining.spec_bytes()) matches Some(rest)
                &&& all == pieces_of(result@) + rest
            },
            highlighted(ts, line.spec_bytes()) is None ==> highlighted(ts, remaining.spec_bytes()) is None,
        decreases remaining.spec_bytes().len(),
    {
        let ghost b = remaining.spec_bytes();
        let bytes = remaining.as_bytes();
        proof {
            encode_utf8_decode_utf8(remaining@);
        }
        if bytes.len() >= 2 && bytes[0] == 0x2du8 && bytes[1] == 0x2du8 {
            let piece = remaining.to_owned();
            result.push((piece, Colors::Gray));
            proof {
                assert(pieces_of(result@) =~= pieces_of(result@.drop_last()).push((b, Colors::Gray)));
            }
            let ghost res_v = result@;
            assert(highlighted(ts, line.spec_bytes()) matches Some(all) ==> all =~= pieces_of(res_v));
            return Ok(result);
        }
        match first_token_match(tokens, remaining) {
            Some((s, e, c)) => {
                if e == 0 {
                    return Err(HighlightError);
                }
                let (head, tail) = remaining.split_at(e);
                proof {
                    lemma_boundary_prefix(b, e as int, s as int);
                    vstd::utf8::valid_utf8_split(b, e as int);
                    assert(head.spec_bytes() =~= b.subrange(0, e as int));
                }
                let (_skip, matched) = head.split_at(s);
                proof {
                    vstd::utf8::valid_utf8_split(b.subrange(0, e as int), s as int);
                    assert(matched.spec_bytes() =~= b.subrange(s as int, e as int));
                }
                let piece = matched.to_owned();
                result.push((piece, c));
                proof {
                    assert(encode_utf8(piece@) == b.subrange(s as int, e as int));
                    assert(pieces_of(result@) =~= pieces_of(result@.drop_last()).push((b.subrange(s as int, e as int), c)));
                    assert(tail.spec_bytes() =~= b.skip(e as int));
                }
                remaining = tail;
            },
            None => {
                if !remaining.is_char_boundary(1) {
                    return Err(HighlightError);
                }
                let (head, tail) = remaining.split_at(1);
                proof {
                    vstd::utf8::valid_utf8_split(b, 1);
                }
                let piece = head.to_owned();
                result.push((piece, Colors::Silver));
                proof {
                    assert(encode_utf8(piece@) == b.take(1));
                    assert(pieces_of(result@) =~= pieces_of(result@.drop_last()).push((b.take(1), Colors::Silver)));
                    assert(tail.spec_bytes() =~= b.skip(1));
                }
                remaining = tail;
            },
        }
    }
    proof {
        let res_v = result@;
        assert(highlighted(ts, remaining.spec_bytes()) == Some(Seq::<(Seq<u8>, Colors)>::empty()));
        assert(pieces_of(res_v) + Seq::<(Seq<u8>, Colors)>::empty() =~= pieces_of(res_v));
    }
    Ok(result)
}

} // verus!

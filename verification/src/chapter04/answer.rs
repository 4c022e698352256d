//! Morphological tokens: producing them, reading them back, and the
//! extractions and counts that are made of them.
//!
//! The analysis itself is the work of the `lindera` crate. What the library
//! makes of the analyser's output, and of token records read from JSON
//! lines, is stated and proved here.
use crate::json::{json_parse, parse, text_member, text_of_member, Json, JsonError};
use crate::numbers::{decimal, decimal_string};
use crate::ordered::{increasing, same_text};
use crate::sorting::{
    count_texts, lemma_same_members, occurrences, ranked_in_order, ranked_of, ranked_pairs,
    ranked_texts, sort_ranked, Ranked, Ties,
};
use crate::text::{chars_of, contains, contains_text, option_text, push_chars, texts, top};
use vstd::prelude::*;
use vstd::utf8::encode_utf8;

verus! {

// ---------------------------------------------------------------------------
// Tokens
// ---------------------------------------------------------------------------

/// One segmented word: its surface form, its dictionary base form, its part
/// of speech and the part of speech's first subdivision.
#[derive(Debug)]
pub struct Token {
    pub surface: String,
    pub base: String,
    pub pos: String,
    pub pos1: String,
}

/// A token as texts: surface, base, part of speech, subdivision.
pub type TokenText = (Seq<char>, Seq<char>, Seq<char>, Seq<char>);

/// The texts of a token.
pub open spec fn token_text(token: Token) -> TokenText {
    (token.surface@, token.base@, token.pos@, token.pos1@)
}

/// The texts of a list of tokens.
pub open spec fn token_texts(tokens: Seq<Token>) -> Seq<TokenText> {
    Seq::new(tokens.len(), |i: int| token_text(tokens[i]))
}

/// The texts of a list of token lists.
pub open spec fn batch_texts(batches: Seq<Vec<Token>>) -> Seq<Seq<TokenText>> {
    Seq::new(batches.len(), |i: int| token_texts(batches[i]@))
}

impl Token {
    /// A copy of `token`.
    pub fn from(token: &Token) -> (copy: Token)
        ensures
            token_text(copy) == token_text(*token),
    {
        Token {
            surface: token.surface.clone(),
            base: token.base.clone(),
            pos: token.pos.clone(),
            pos1: token.pos1.clone(),
        }
    }
}

/// The part of speech of verbs.
pub const VERB: &'static str = "動詞";

/// The part of speech of nouns.
pub const NOUN: &'static str = "名詞";

/// The particle that joins two nouns.
pub const PARTICLE_NO: &'static str = "の";

/// The word whose company is counted.
pub const CAT: &'static str = "猫";

/// The part of speech that the analyser gives to a word it does not know.
pub const UNKNOWN: &'static str = "UNK";

// ---------------------------------------------------------------------------
// Analysis
// ---------------------------------------------------------------------------

/// Why the analyser's output could not be made into tokens.
#[derive(Clone, Copy, Debug, PartialEq, Eq, Structural)]
pub enum TokenError {
    /// The analyser described a word with fewer details than a token needs.
    ShortDetail,
    /// The line is longer than the analyser is given.
    LineTooLong,
}

/// The longest line, in bytes of UTF-8, that is handed to the analyser. The
/// analyser adds up the costs of the words of a line in 32 bits, each word
/// adding two 16-bit costs; on a line of this length or less the sum stays
/// within the 32 bits.
pub const MAX_LINE_BYTES: usize = 32767;

/// What the `lindera` tokenizer, in normal mode with its built-in
/// dictionary, makes of a line: the words in order, each with its text and
/// the list of its details.
pub uninterp spec fn lindera_tokens(line: Seq<char>) -> Seq<(Seq<char>, Seq<Seq<char>>)>;

/// The texts of the analyser's output.
pub open spec fn analysed_texts(words: Seq<(String, Vec<String>)>) -> Seq<
    (Seq<char>, Seq<Seq<char>>),
> {
    Seq::new(words.len(), |i: int| (words[i].0@, texts(words[i].1@)))
}

/// Trusted: `lindera::tokenizer::Tokenizer::new` in mode `normal` with the
/// built-in dictionary, and `Tokenizer::tokenize` on the line. The words and
/// their details depend on the line alone. The line must be no longer than
/// `MAX_LINE_BYTES`: on a longer one the analyser's sum of costs may leave
/// its 32 bits.
#[verifier::external_body]
fn analyse(line: &str) -> (words: Vec<(String, Vec<String>)>)
    requires
        encode_utf8(line@).len() <= MAX_LINE_BYTES,
    ensures
        analysed_texts(words@) == lindera_tokens(line@),
{
    let mut tokenizer = lindera::tokenizer::Tokenizer::new("normal", "");
    tokenizer.tokenize(line).into_iter().map(|t| (t.text.to_string(), t.detail)).collect()
}

/// The token that a word of the analyser's output gives: the surface is the
/// word's text and the part of speech its first detail. A known word takes
/// its subdivision from the second detail and its base form from the
/// seventh; an unknown word has neither.
pub open spec fn token_of_word(word: (Seq<char>, Seq<Seq<char>>)) -> Option<TokenText> {
    let detail = word.1;
    if detail.len() == 0 {
        None
    } else if detail[0] == UNKNOWN@ {
        Some((word.0, Seq::empty(), detail[0], Seq::empty()))
    } else if detail.len() > 6 {
        Some((word.0, detail[6], detail[0], detail[1]))
    } else {
        None
    }
}

/// The tokens of the first `n` words; nothing where one of them has too few
/// details.
pub open spec fn tokens_of_words(words: Seq<(Seq<char>, Seq<Seq<char>>)>, n: nat) -> Option<
    Seq<TokenText>,
>
    decreases n,
{
    if n == 0 {
        Some(Seq::empty())
    } else {
        match (tokens_of_words(words, (n - 1) as nat), token_of_word(words[n - 1])) {
            (Some(before), Some(token)) => Some(before.push(token)),
            _ => None,
        }
    }
}

/// Where some words give no tokens, more of them give none either.
pub proof fn lemma_tokens_of_words_none(words: Seq<(Seq<char>, Seq<Seq<char>>)>, k: nat, n: nat)
    requires
        k <= n,
        tokens_of_words(words, k) is None,
    ensures
        tokens_of_words(words, n) is None,
    decreases n,
{
    if k < n {
        lemma_tokens_of_words_none(words, k, (n - 1) as nat);
    }
}

/// Makes a token of one word of the analyser's output.
pub fn token_from_detail(text: &str, detail: &Vec<String>) -> (r: Option<Token>)
    ensures
        match r {
            Some(token) => token_of_word((text@, texts(detail@))) == Some(token_text(token)),
            None => token_of_word((text@, texts(detail@))) is None,
        },
{
    if detail.len() == 0 {
        return None;
    }
    assert(texts(detail@)[0] == detail@[0]@);
    let pos = detail[0].clone();
    if same_text(pos.as_str(), UNKNOWN) {
        return Some(Token { surface: text.to_owned(), base: String::new(), pos, pos1: String::new() });
    }
    if detail.len() > 6 {
        assert(texts(detail@)[1] == detail@[1]@);
        assert(texts(detail@)[6] == detail@[6]@);
        Some(Token { surface: text.to_owned(), base: detail[6].clone(), pos, pos1: detail[1].clone() })
    } else {
        None
    }
}

/// The tokens of a list of tokens that may have failed.
pub open spec fn result_tokens<E>(r: Result<Vec<Token>, E>) -> Result<Seq<TokenText>, E> {
    match r {
        Ok(v) => Ok(token_texts(v@)),
        Err(e) => Err(e),
    }
}

/// What `tokenize` returns for a line: a line of more than `MAX_LINE_BYTES`
/// bytes is refused; any other is analysed and its words made into tokens.
pub open spec fn tokenized(line: Seq<char>) -> Result<Seq<TokenText>, TokenError> {
    if encode_utf8(line).len() > MAX_LINE_BYTES {
        Err(TokenError::LineTooLong)
    } else {
        match tokens_of_words(lindera_tokens(line), lindera_tokens(line).len()) {
            Some(tokens) => Ok(tokens),
            None => Err(TokenError::ShortDetail),
        }
    }
}

/// Makes tokens of the analyser's output.
pub fn tokens_from_words(words: &Vec<(String, Vec<String>)>) -> (r: Option<Vec<Token>>)
    ensures
        match r {
            Some(tokens) => tokens_of_words(analysed_texts(words@), words@.len()) == Some(
                token_texts(tokens@),
            ),
            None => tokens_of_words(analysed_texts(words@), words@.len()) is None,
        },
{
    let ghost ws = analysed_texts(words@);
    let mut out: Vec<Token> = Vec::new();
    let mut i: usize = 0;
    while i < words.len()
        invariant
            i <= words.len(),
            ws == analysed_texts(words@),
            tokens_of_words(ws, i as nat) is Some,
            tokens_of_words(ws, i as nat)->0 =~= token_texts(out@),
        decreases words.len() - i,
    {
        assert(ws[i as int] == (words@[i as int].0@, texts(words@[i as int].1@)));
        match token_from_detail(words[i].0.as_str(), &words[i].1) {
            None => {
                proof {
                    assert(tokens_of_words(ws, (i + 1) as nat) is None);
                    lemma_tokens_of_words_none(ws, (i + 1) as nat, words@.len());
                }
                return None;
            },
            Some(token) => {
                let ghost before = token_texts(out@);
                let ghost t = token_text(token);
                out.push(token);
                assert(token_texts(out@) =~= before.push(t));
            },
        }
        i = i + 1;
    }
    Some(out)
}

/// The analyser of the text.
#[derive(Debug, Default)]
pub struct NekoParser {}

impl NekoParser {
    /// The tokens of one line of text. A line of more than `MAX_LINE_BYTES`
    /// bytes is refused and not analysed.
    pub fn tokenize(&self, line: &str) -> (r: Result<Vec<Token>, TokenError>)
        ensures
            result_tokens(r) == tokenized(line@),
    {
        if line.as_bytes().len() > MAX_LINE_BYTES {
            return Err(TokenError::LineTooLong);
        }
        let words = analyse(line);
        match tokens_from_words(&words) {
            Some(tokens) => Ok(tokens),
            None => Err(TokenError::ShortDetail),
        }
    }
}

// ---------------------------------------------------------------------------
// Reading token records
// ---------------------------------------------------------------------------

/// The token that a JSON value holds: an object with the string members
/// `surface`, `base`, `pos` and `pos1`.
pub open spec fn token_of_json(j: Json) -> Option<TokenText> {
    match (
        text_member(j, "surface"@),
        text_member(j, "base"@),
        text_member(j, "pos"@),
        text_member(j, "pos1"@),
    ) {
        (Some(surface), Some(base), Some(pos), Some(pos1)) => Some((surface, base, pos, pos1)),
        _ => None,
    }
}

/// The tokens that the first `n` of the `items` hold; nothing where one of
/// them holds none.
pub open spec fn tokens_of_items(items: Seq<Json>, n: nat) -> Option<Seq<TokenText>>
    decreases n,
{
    if n == 0 {
        Some(Seq::empty())
    } else {
        match (tokens_of_items(items, (n - 1) as nat), token_of_json(items[n - 1])) {
            (Some(before), Some(token)) => Some(before.push(token)),
            _ => None,
        }
    }
}

/// Where some items give no tokens, more of them give none either.
pub proof fn lemma_tokens_of_items_none(items: Seq<Json>, k: nat, n: nat)
    requires
        k <= n,
        tokens_of_items(items, k) is None,
    ensures
        tokens_of_items(items, n) is None,
    decreases n,
{
    if k < n {
        lemma_tokens_of_items_none(items, k, (n - 1) as nat);
    }
}

/// The tokens that a line of JSON holds: the line must be an array of token
/// objects.
pub open spec fn tokens_of_line(line: Seq<char>) -> Result<Seq<TokenText>, JsonError> {
    match json_parse(line) {
        None => Err(JsonError::Syntax),
        Some(j) => match j.items() {
            None => Err(JsonError::Shape),
            Some(items) => match tokens_of_items(items, items.len()) {
                Some(tokens) => Ok(tokens),
                None => Err(JsonError::Shape),
            },
        },
    }
}

/// Reads one token object.
fn read_token(j: &Json) -> (r: Option<Token>)
    ensures
        match r {
            Some(token) => token_of_json(*j) == Some(token_text(token)),
            None => token_of_json(*j) is None,
        },
{
    let surface = text_of_member(j, "surface");
    let base = text_of_member(j, "base");
    let pos = text_of_member(j, "pos");
    let pos1 = text_of_member(j, "pos1");
    match surface {
        Some(surface) => match base {
            Some(base) => match pos {
                Some(pos) => match pos1 {
                    Some(pos1) => Some(Token { surface, base, pos, pos1 }),
                    None => None,
                },
                None => None,
            },
            None => None,
        },
        None => None,
    }
}

/// Reads the tokens of one line of JSON.
pub fn parse_line_json(line: &str) -> (r: Result<Vec<Token>, JsonError>)
    ensures
        result_tokens(r) == tokens_of_line(line@),
{
    let j = match parse(line) {
        Some(j) => j,
        None => {
            return Err(JsonError::Syntax);
        },
    };
    let items = match j.as_array() {
        Some(items) => items,
        None => {
            return Err(JsonError::Shape);
        },
    };
    let mut out: Vec<Token> = Vec::new();
    let mut i: usize = 0;
    while i < items.len()
        invariant
            i <= items.len(),
            json_parse(line@) == Some(j),
            j.items() == Some(items@),
            tokens_of_items(items@, i as nat) is Some,
            tokens_of_items(items@, i as nat)->0 =~= token_texts(out@),
        decreases items.len() - i,
    {
        match read_token(&items[i]) {
            None => {
                proof {
                    assert(tokens_of_items(items@, (i + 1) as nat) is None);
                    lemma_tokens_of_items_none(items@, (i + 1) as nat, items@.len());
                }
                return Err(JsonError::Shape);
            },
            Some(token) => {
                let ghost before = token_texts(out@);
                let ghost t = token_text(token);
                out.push(token);
                assert(token_texts(out@) =~= before.push(t));
            },
        }
        i = i + 1;
    }
    Ok(out)
}

/// A choice of lines.
pub trait Filter {
    /// Whether the filter lets `line` pass.
    spec fn accepts(&self, line: Seq<char>) -> bool;

    /// Decides whether `line` passes.
    fn is_target(&self, line: &str) -> (b: bool)
        ensures
            b == self.accepts(line@),
    ;
}

/// Lets every line pass.
pub struct NonFilter {}

impl Filter for NonFilter {
    open spec fn accepts(&self, line: Seq<char>) -> bool {
        true
    }

    fn is_target(&self, _line: &str) -> (b: bool) {
        true
    }
}

/// Lets the lines pass that mention the cat.
pub struct CatFilter {}

impl Filter for CatFilter {
    open spec fn accepts(&self, line: Seq<char>) -> bool {
        contains_text(line, CAT@)
    }

    fn is_target(&self, line: &str) -> (b: bool) {
        contains(line, CAT)
    }
}

/// The token lists of those of the first `n` lines that pass the filter, in
/// order. The first such line that cannot be read fails the whole.
pub open spec fn batches_of<F: Filter>(lines: Seq<Seq<char>>, filter: F, n: nat) -> Result<
    Seq<Seq<TokenText>>,
    JsonError,
>
    decreases n,
{
    if n == 0 {
        Ok(Seq::empty())
    } else {
        match batches_of(lines, filter, (n - 1) as nat) {
            Err(e) => Err(e),
            Ok(before) => if filter.accepts(lines[n - 1]) {
                match tokens_of_line(lines[n - 1]) {
                    Err(e) => Err(e),
                    Ok(tokens) => Ok(before.push(tokens)),
                }
            } else {
                Ok(before)
            },
        }
    }
}

/// A failure on some lines is the failure on more of them too.
pub proof fn lemma_batches_err<F: Filter>(lines: Seq<Seq<char>>, filter: F, k: nat, n: nat)
    requires
        k <= n,
        batches_of(lines, filter, k) is Err,
    ensures
        batches_of(lines, filter, n) == batches_of(lines, filter, k),
    decreases n,
{
    if k < n {
        lemma_batches_err(lines, filter, k, (n - 1) as nat);
    }
}

/// The texts of a list of token lists that may have failed.
pub open spec fn result_batches(r: Result<Vec<Vec<Token>>, JsonError>) -> Result<
    Seq<Seq<TokenText>>,
    JsonError,
> {
    match r {
        Ok(v) => Ok(batch_texts(v@)),
        Err(e) => Err(e),
    }
}

/// Reads the token lists of the lines that pass `filter`.
pub fn load_json_with_filter<F: Filter>(lines: &Vec<String>, filter: &F) -> (r: Result<
    Vec<Vec<Token>>,
    JsonError,
>)
    ensures
        result_batches(r) == batches_of(texts(lines@), *filter, lines@.len()),
{
    let ghost ls = texts(lines@);
    let mut out: Vec<Vec<Token>> = Vec::new();
    let mut i: usize = 0;
    while i < lines.len()
        invariant
            i <= lines.len(),
            ls == texts(lines@),
            batches_of(ls, *filter, i as nat) is Ok,
            batches_of(ls, *filter, i as nat)->Ok_0 =~= batch_texts(out@),
        decreases lines.len() - i,
    {
        assert(ls[i as int] == lines@[i as int]@);
        if filter.is_target(lines[i].as_str()) {
            match parse_line_json(lines[i].as_str()) {
                Err(e) => {
                    proof {
                        assert(batches_of(ls, *filter, (i + 1) as nat) == Err::<
                            Seq<Seq<TokenText>>,
                            JsonError,
                        >(e));
                        lemma_batches_err(ls, *filter, (i + 1) as nat, lines@.len());
                    }
                    return Err(e);
                },
                Ok(tokens) => {
                    let ghost before = batch_texts(out@);
                    let ghost t = token_texts(tokens@);
                    out.push(tokens);
                    assert(batch_texts(out@) =~= before.push(t));
                },
            }
        }
        i = i + 1;
    }
    Ok(out)
}

/// Reads the token lists of all lines.
pub fn load_json(lines: &Vec<String>) -> (r: Result<Vec<Vec<Token>>, JsonError>)
    ensures
        result_batches(r) == batches_of(texts(lines@), NonFilter {  }, lines@.len()),
{
    load_json_with_filter(lines, &NonFilter {  })
}

// ---------------------------------------------------------------------------
// Extractions from one token list
// ---------------------------------------------------------------------------

/// Of the first `n` tokens, the verbs: their surface forms, or their base
/// forms where `base` is true.
pub open spec fn verbs_of(tokens: Seq<TokenText>, base: bool, n: nat) -> Seq<Seq<char>>
    decreases n,
{
    if n == 0 {
        Seq::empty()
    } else if tokens[n - 1].2 == VERB@ {
        verbs_of(tokens, base, (n - 1) as nat).push(
            if base {
                tokens[n - 1].1
            } else {
                tokens[n - 1].0
            },
        )
    } else {
        verbs_of(tokens, base, (n - 1) as nat)
    }
}

/// The verbs among the tokens, in order: their surface forms, or their base
/// forms where `base` is true.
pub fn verbs(tokens: &Vec<Token>, base: bool) -> (out: Vec<String>)
    ensures
        texts(out@) == verbs_of(token_texts(tokens@), base, tokens@.len()),
{
    let ghost ts = token_texts(tokens@);
    let mut out: Vec<String> = Vec::new();
    let mut i: usize = 0;
    while i < tokens.len()
        invariant
            i <= tokens.len(),
            ts == token_texts(tokens@),
            texts(out@) == verbs_of(ts, base, i as nat),
        decreases tokens.len() - i,
    {
        let token = &tokens[i];
        assert(ts[i as int] == token_text(*token));
        if same_text(token.pos.as_str(), VERB) {
            let ghost before = texts(out@);
            if base {
                out.push(token.base.clone());
                assert(texts(out@) =~= before.push(token.base@));
            } else {
                out.push(token.surface.clone());
                assert(texts(out@) =~= before.push(token.surface@));
            }
        }
        i = i + 1;
    }
    out
}

/// One step of the search for "A の B": from the nouns and particle kept so
/// far and the next token to what is kept afterwards and what is found.
///
/// A noun starts the search anew, unless a noun and the particle are kept:
/// then the three together are found, and what is kept stays. The
/// particle, after exactly one noun, is kept too. Any other token changes
/// nothing.
pub open spec fn a_and_b_step(kept: Seq<Seq<char>>, token: TokenText) -> (
    Seq<Seq<char>>,
    Option<Seq<char>>,
) {
    if token.2 == NOUN@ {
        if kept.len() == 2 {
            (kept, Some(kept[0] + kept[1] + token.0))
        } else {
            (seq![token.0], None)
        }
    } else if token.0 == PARTICLE_NO@ && kept.len() == 1 {
        (kept.push(token.0), None)
    } else {
        (kept, None)
    }
}

/// What is kept after the first `n` tokens.
pub open spec fn a_and_b_kept(tokens: Seq<TokenText>, n: nat) -> Seq<Seq<char>>
    decreases n,
{
    if n == 0 {
        Seq::empty()
    } else {
        a_and_b_step(a_and_b_kept(tokens, (n - 1) as nat), tokens[n - 1]).0
    }
}

/// What is found among the first `n` tokens.
pub open spec fn a_and_b_found(tokens: Seq<TokenText>, n: nat) -> Seq<Seq<char>>
    decreases n,
{
    if n == 0 {
        Seq::empty()
    } else {
        match a_and_b_step(a_and_b_kept(tokens, (n - 1) as nat), tokens[n - 1]).1 {
            Some(found) => a_and_b_found(tokens, (n - 1) as nat).push(found),
            None => a_and_b_found(tokens, (n - 1) as nat),
        }
    }
}

/// Takes one step of the search for "A の B": updates what is kept and
/// returns what is found.
pub fn a_and_b_next(kept: &mut Vec<String>, token: &Token) -> (found: Option<String>)
    ensures
        texts(final(kept)@) == a_and_b_step(texts(old(kept)@), token_text(*token)).0,
        option_text(found) == a_and_b_step(
            texts(old(kept)@),
            token_text(*token),
        ).1,
{
    let ghost before = texts(kept@);
    if same_text(token.pos.as_str(), NOUN) {
        if kept.len() == 2 {
            assert(before[0] == kept@[0]@ && before[1] == kept@[1]@);
            let mut found = kept[0].clone();
            let particle = chars_of(kept[1].as_str());
            push_chars(&mut found, &particle);
            let noun = chars_of(token.surface.as_str());
            push_chars(&mut found, &noun);
            Some(found)
        } else {
            kept.clear();
            kept.push(token.surface.clone());
            assert(texts(kept@) =~= seq![token.surface@]);
            None
        }
    } else if same_text(token.surface.as_str(), PARTICLE_NO) && kept.len() == 1 {
        kept.push(token.surface.clone());
        assert(texts(kept@) =~= before.push(token.surface@));
        None
    } else {
        None
    }
}

/// The phrases "A の B" among the tokens: a noun, the particle, and a noun.
pub fn a_and_b(tokens: &Vec<Token>) -> (out: Vec<String>)
    ensures
        texts(out@) == a_and_b_found(token_texts(tokens@), tokens@.len()),
{
    let ghost ts = token_texts(tokens@);
    let mut kept: Vec<String> = Vec::new();
    let mut out: Vec<String> = Vec::new();
    assert(texts(kept@) =~= Seq::<Seq<char>>::empty());
    let mut i: usize = 0;
    while i < tokens.len()
        invariant
            i <= tokens.len(),
            ts == token_texts(tokens@),
            texts(kept@) == a_and_b_kept(ts, i as nat),
            texts(out@) == a_and_b_found(ts, i as nat),
        decreases tokens.len() - i,
    {
        assert(ts[i as int] == token_text(tokens@[i as int]));
        let ghost before = texts(out@);
        match a_and_b_next(&mut kept, &tokens[i]) {
            Some(found) => {
                out.push(found);
                assert(texts(out@) =~= before.push(found@));
            },
            None => {},
        }
        i = i + 1;
    }
    out
}

/// How many nouns in a row end at token `n`.
pub open spec fn run_length(tokens: Seq<TokenText>, n: nat) -> nat
    decreases n,
{
    if n == 0 {
        0
    } else if tokens[n - 1].2 == NOUN@ {
        run_length(tokens, (n - 1) as nat) + 1
    } else {
        0
    }
}

/// The surface forms of the nouns in a row that end at token `n`, put
/// together.
pub open spec fn run_text(tokens: Seq<TokenText>, n: nat) -> Seq<char>
    decreases n,
{
    if n == 0 {
        Seq::empty()
    } else if tokens[n - 1].2 == NOUN@ {
        run_text(tokens, (n - 1) as nat) + tokens[n - 1].0
    } else {
        Seq::empty()
    }
}

/// The runs of two or more nouns among the first `n` tokens that a token of
/// another kind has ended, each put together.
pub open spec fn runs_found(tokens: Seq<TokenText>, n: nat) -> Seq<Seq<char>>
    decreases n,
{
    if n == 0 {
        Seq::empty()
    } else if tokens[n - 1].2 != NOUN@ && run_length(tokens, (n - 1) as nat) > 1 {
        runs_found(tokens, (n - 1) as nat).push(run_text(tokens, (n - 1) as nat))
    } else {
        runs_found(tokens, (n - 1) as nat)
    }
}

/// The runs of two or more nouns in a row, each put together into one text.
/// A run counts once a token of another kind has ended it: a run at the
/// very end of the list is left out.
pub fn noun_runs(tokens: &Vec<Token>) -> (out: Vec<String>)
    ensures
        texts(out@) == runs_found(token_texts(tokens@), tokens@.len()),
{
    let ghost ts = token_texts(tokens@);
    let mut out: Vec<String> = Vec::new();
    let mut run = String::new();
    let mut length: usize = 0;
    let mut i: usize = 0;
    while i < tokens.len()
        invariant
            i <= tokens.len(),
            ts == token_texts(tokens@),
            length == run_length(ts, i as nat),
            length <= i,
            run@ == run_text(ts, i as nat),
            texts(out@) == runs_found(ts, i as nat),
        decreases tokens.len() - i,
    {
        let token = &tokens[i];
        assert(ts[i as int] == token_text(*token));
        if same_text(token.pos.as_str(), NOUN) {
            let surface = chars_of(token.surface.as_str());
            push_chars(&mut run, &surface);
            length = length + 1;
        } else {
            if length > 1 {
                let ghost before = texts(out@);
                let ghost text = run@;
                out.push(run);
                assert(texts(out@) =~= before.push(text));
            }
            run = String::new();
            length = 0;
        }
        i = i + 1;
    }
    out
}

// ---------------------------------------------------------------------------
// Extractions from all token lists
// ---------------------------------------------------------------------------

/// What is extracted from a token list.
#[derive(Clone, Copy, Debug, PartialEq, Eq, Structural)]
pub enum Extraction {
    /// The surface forms of the verbs.
    Verbs,
    /// The base forms of the verbs.
    VerbBases,
    /// The phrases "A の B".
    AAndB,
    /// The runs of nouns.
    NounRuns,
}

/// What the extraction finds in one token list.
pub open spec fn extracted(what: Extraction, tokens: Seq<TokenText>) -> Seq<Seq<char>> {
    match what {
        Extraction::Verbs => verbs_of(tokens, false, tokens.len()),
        Extraction::VerbBases => verbs_of(tokens, true, tokens.len()),
        Extraction::AAndB => a_and_b_found(tokens, tokens.len()),
        Extraction::NounRuns => runs_found(tokens, tokens.len()),
    }
}

/// What the extraction finds in the first `n` token lists, list by list.
pub open spec fn extracted_all(what: Extraction, batches: Seq<Seq<TokenText>>, n: nat) -> Seq<
    Seq<char>,
>
    decreases n,
{
    if n == 0 {
        Seq::empty()
    } else {
        extracted_all(what, batches, (n - 1) as nat) + extracted(what, batches[n - 1])
    }
}

/// What an extraction from the lines of a token file gives.
pub open spec fn extracted_from_lines(what: Extraction, lines: Seq<Seq<char>>) -> Result<
    Seq<Seq<char>>,
    JsonError,
> {
    match batches_of(lines, NonFilter {  }, lines.len()) {
        Err(e) => Err(e),
        Ok(batches) => Ok(extracted_all(what, batches, batches.len())),
    }
}

/// The views of a list of strings that may have failed.
pub open spec fn result_lines(r: Result<Vec<String>, JsonError>) -> Result<
    Seq<Seq<char>>,
    JsonError,
> {
    match r {
        Ok(v) => Ok(texts(v@)),
        Err(e) => Err(e),
    }
}

/// Makes the extraction from every token list of a token file, one JSON
/// array of tokens per line, and lists what is found in order.
pub fn extract(what: Extraction, lines: &Vec<String>) -> (r: Result<Vec<String>, JsonError>)
    ensures
        result_lines(r) == extracted_from_lines(what, texts(lines@)),
{
    let batches = match load_json(lines) {
        Ok(batches) => batches,
        Err(e) => {
            return Err(e);
        },
    };
    let ghost bs = batch_texts(batches@);
    let mut out: Vec<String> = Vec::new();
    let mut i: usize = 0;
    while i < batches.len()
        invariant
            i <= batches.len(),
            bs == batch_texts(batches@),
            texts(out@) == extracted_all(what, bs, i as nat),
        decreases batches.len() - i,
    {
        assert(bs[i as int] == token_texts(batches@[i as int]@));
        let mut here = match what {
            Extraction::Verbs => verbs(&batches[i], false),
            Extraction::VerbBases => verbs(&batches[i], true),
            Extraction::AAndB => a_and_b(&batches[i]),
            Extraction::NounRuns => noun_runs(&batches[i]),
        };
        let ghost before = texts(out@);
        let ghost added = texts(here@);
        out.append(&mut here);
        assert(texts(out@) =~= before + added);
        i = i + 1;
    }
    Ok(out)
}

/// The surface forms of all verbs of a token file.
pub fn extract_verb(lines: &Vec<String>) -> (r: Result<Vec<String>, JsonError>)
    ensures
        result_lines(r) == extracted_from_lines(Extraction::Verbs, texts(lines@)),
{
    extract(Extraction::Verbs, lines)
}

/// The base forms of all verbs of a token file.
pub fn extract_verb_base(lines: &Vec<String>) -> (r: Result<Vec<String>, JsonError>)
    ensures
        result_lines(r) == extracted_from_lines(Extraction::VerbBases, texts(lines@)),
{
    extract(Extraction::VerbBases, lines)
}

/// The phrases "A の B" of a token file.
pub fn extract_a_and_b(lines: &Vec<String>) -> (r: Result<Vec<String>, JsonError>)
    ensures
        result_lines(r) == extracted_from_lines(Extraction::AAndB, texts(lines@)),
{
    extract(Extraction::AAndB, lines)
}

/// The runs of nouns of a token file.
pub fn extract_conjunction_of_nouns(lines: &Vec<String>) -> (r: Result<Vec<String>, JsonError>)
    ensures
        result_lines(r) == extracted_from_lines(Extraction::NounRuns, texts(lines@)),
{
    extract(Extraction::NounRuns, lines)
}

// ---------------------------------------------------------------------------
// Counting surface forms
// ---------------------------------------------------------------------------

/// Of the first `n` tokens, the surface forms, without those that are the
/// text `skip`.
pub open spec fn surfaces_of(tokens: Seq<TokenText>, skip: Option<Seq<char>>, n: nat) -> Seq<
    Seq<char>,
>
    decreases n,
{
    if n == 0 {
        Seq::empty()
    } else if skip == Some(tokens[n - 1].0) {
        surfaces_of(tokens, skip, (n - 1) as nat)
    } else {
        surfaces_of(tokens, skip, (n - 1) as nat).push(tokens[n - 1].0)
    }
}

/// The surface forms of the first `n` token lists, without those that are
/// the text `skip`.
pub open spec fn surfaces_of_all(batches: Seq<Seq<TokenText>>, skip: Option<Seq<char>>, n: nat) -> Seq<
    Seq<char>,
>
    decreases n,
{
    if n == 0 {
        Seq::empty()
    } else {
        surfaces_of_all(batches, skip, (n - 1) as nat) + surfaces_of(
            batches[n - 1],
            skip,
            batches[n - 1].len(),
        )
    }
}

/// The view of an optional text.
pub open spec fn skip_text(skip: Option<&str>) -> Option<Seq<char>> {
    match skip {
        Some(s) => Some(s@),
        None => None,
    }
}

/// The surface forms of all tokens of all lists, in order, without those
/// that are the text `skip`.
pub fn surfaces(batches: &Vec<Vec<Token>>, skip: Option<&str>) -> (out: Vec<String>)
    ensures
        texts(out@) == surfaces_of_all(batch_texts(batches@), skip_text(skip), batches@.len()),
{
    let ghost bs = batch_texts(batches@);
    let ghost sk = skip_text(skip);
    let mut out: Vec<String> = Vec::new();
    let mut i: usize = 0;
    while i < batches.len()
        invariant
            i <= batches.len(),
            bs == batch_texts(batches@),
            sk == skip_text(skip),
            texts(out@) == surfaces_of_all(bs, sk, i as nat),
        decreases batches.len() - i,
    {
        let tokens = &batches[i];
        let ghost ts = token_texts(tokens@);
        assert(bs[i as int] == ts);
        let ghost start = texts(out@);
        let mut k: usize = 0;
        while k < tokens.len()
            invariant
                k <= tokens.len(),
                ts == token_texts(tokens@),
                sk == skip_text(skip),
                texts(out@) == start + surfaces_of(ts, sk, k as nat),
            decreases tokens.len() - k,
        {
            let token = &tokens[k];
            assert(ts[k as int] == token_text(*token));
            let skipped = match skip {
                Some(s) => same_text(token.surface.as_str(), s),
                None => false,
            };
            if !skipped {
                let ghost before = texts(out@);
                out.push(token.surface.clone());
                assert(texts(out@) =~= before.push(token.surface@));
                assert(start + surfaces_of(ts, sk, k as nat).push(token.surface@) =~= (start
                    + surfaces_of(ts, sk, k as nat)).push(token.surface@));
            }
            k = k + 1;
        }
        i = i + 1;
    }
    out
}

/// Whether `order` lists each different text of `items` once with the
/// number of its occurrences, in increasing order of the texts.
pub open spec fn is_count_listing(order: Seq<(nat, Seq<char>)>, items: Seq<Seq<char>>) -> bool {
    &&& increasing(ranked_texts(order))
    &&& forall|p: (nat, Seq<char>)|
        order.contains(p) <==> items.contains(p.1) && p.0 == occurrences(items, p.1)
}

/// Whether `order` lists each different text of `items` once with the
/// number of its occurrences, the more frequent first and, among equally
/// frequent ones, the earlier text first.
pub open spec fn is_count_ranking(order: Seq<(nat, Seq<char>)>, items: Seq<Seq<char>>) -> bool {
    &&& ranked_in_order(order, Ties::Ascending)
    &&& order.no_duplicates()
    &&& forall|p: (nat, Seq<char>)|
        order.contains(p) <==> items.contains(p.1) && p.0 == occurrences(items, p.1)
}

/// The lines that show counts: the text, a comma and a space, and the
/// number.
pub open spec fn count_lines(order: Seq<(nat, Seq<char>)>) -> Seq<Seq<char>> {
    Seq::new(order.len(), |i: int| order[i].1 + seq![',', ' '] + decimal(order[i].0))
}

/// The lines that show the first `limit` of the ranked items.
fn show_counts(items: &Vec<Ranked>, limit: usize) -> (out: Vec<String>)
    ensures
        texts(out@) == top(count_lines(ranked_pairs(items@)), limit as nat),
{
    let n: usize = if limit <= items.len() {
        limit
    } else {
        items.len()
    };
    let mut out: Vec<String> = Vec::new();
    let mut i: usize = 0;
    while i < n
        invariant
            i <= n,
            n <= items.len(),
            out@.len() == i,
            forall|k: int|
                0 <= k < i ==> (#[trigger] out@[k])@ == items@[k].text@ + seq![',', ' '] + decimal(
                    items@[k].count as nat,
                ),
        decreases n - i,
    {
        let mut line = items[i].text.clone();
        line.push(',');
        line.push(' ');
        let number = chars_of(decimal_string(items[i].count).as_str());
        push_chars(&mut line, &number);
        assert(line@ =~= items@[i as int].text@ + seq![',', ' '] + decimal(
            items@[i as int].count as nat,
        ));
        out.push(line);
        i = i + 1;
    }
    assert(texts(out@) =~= top(count_lines(ranked_pairs(items@)), limit as nat));
    out
}

/// How often each of the `items` occurs, one line per different text, in
/// increasing order of the texts.
pub fn frequency(items: &Vec<String>) -> (out: Vec<String>)
    ensures
        exists|order: Seq<(nat, Seq<char>)>|
            is_count_listing(order, texts(items@)) && texts(out@) == count_lines(order),
{
    let counts = count_texts(items);
    let listed = ranked_of(&counts);
    let out = show_counts(&listed, listed.len());
    assert(is_count_listing(ranked_pairs(listed@), texts(items@)));
    out
}

/// The `limit` most frequent of the `items` with the number of their
/// occurrences, one line each, the most frequent first; among equally
/// frequent texts the earlier one goes first.
pub fn frequency_top(items: &Vec<String>, limit: usize) -> (out: Vec<String>)
    ensures
        exists|order: Seq<(nat, Seq<char>)>|
            is_count_ranking(order, texts(items@)) && texts(out@) == top(
                count_lines(order),
                limit as nat,
            ),
{
    let counts = count_texts(items);
    let listed = ranked_of(&counts);
    let ghost input = ranked_pairs(listed@);
    let sorted = sort_ranked(listed, Ties::Ascending);
    let out = show_counts(&sorted, limit);
    proof {
        lemma_same_members(input, ranked_pairs(sorted@));
        assert(is_count_ranking(ranked_pairs(sorted@), texts(items@)));
    }
    out
}

/// The surface forms that are counted in a token file: those of all lines,
/// or, for the company of the cat, those of the lines that mention the cat,
/// the cat itself left out.
pub open spec fn counted_surfaces(lines: Seq<Seq<char>>, with_cat: bool) -> Result<
    Seq<Seq<char>>,
    JsonError,
> {
    if with_cat {
        match batches_of(lines, CatFilter {  }, lines.len()) {
            Err(e) => Err(e),
            Ok(batches) => Ok(surfaces_of_all(batches, Some(CAT@), batches.len())),
        }
    } else {
        match batches_of(lines, NonFilter {  }, lines.len()) {
            Err(e) => Err(e),
            Ok(batches) => Ok(surfaces_of_all(batches, None, batches.len())),
        }
    }
}

/// Collects the surface forms that are counted in a token file.
pub fn collect_surfaces(lines: &Vec<String>, with_cat: bool) -> (r: Result<Vec<String>, JsonError>)
    ensures
        result_lines(r) == counted_surfaces(texts(lines@), with_cat),
{
    if with_cat {
        match load_json_with_filter(lines, &CatFilter {  }) {
            Err(e) => Err(e),
            Ok(batches) => Ok(surfaces(&batches, Some(CAT))),
        }
    } else {
        match load_json(lines) {
            Err(e) => Err(e),
            Ok(batches) => Ok(surfaces(&batches, None)),
        }
    }
}

/// What a count over a token file gives: the listing of all counts, or the
/// ten highest counts.
pub open spec fn count_outcome(
    r: Result<Vec<String>, JsonError>,
    lines: Seq<Seq<char>>,
    with_cat: bool,
    top10: bool,
) -> bool {
    match counted_surfaces(lines, with_cat) {
        Err(e) => r == Err::<Vec<String>, JsonError>(e),
        Ok(items) => r is Ok && exists|order: Seq<(nat, Seq<char>)>|
            if top10 {
                is_count_ranking(order, items) && texts(r->Ok_0@) == top(count_lines(order), 10)
            } else {
                is_count_listing(order, items) && texts(r->Ok_0@) == count_lines(order)
            },
    }
}

/// How often each surface form occurs in a token file: one line per form,
/// in increasing order of the forms.
pub fn count_token_frequency(lines: &Vec<String>) -> (r: Result<Vec<String>, JsonError>)
    ensures
        count_outcome(r, texts(lines@), false, false),
{
    match collect_surfaces(lines, false) {
        Err(e) => Err(e),
        Ok(items) => Ok(frequency(&items)),
    }
}

/// The ten most frequent surface forms of a token file.
pub fn count_token_frequency_top10(lines: &Vec<String>) -> (r: Result<Vec<String>, JsonError>)
    ensures
        count_outcome(r, texts(lines@), false, true),
{
    match collect_surfaces(lines, false) {
        Err(e) => Err(e),
        Ok(items) => Ok(frequency_top(&items, 10)),
    }
}

/// How often each surface form occurs in the company of the cat: in the
/// lines that mention it, the cat itself left out.
pub fn count_co_occurrence_cat(lines: &Vec<String>) -> (r: Result<Vec<String>, JsonError>)
    ensures
        count_outcome(r, texts(lines@), true, false),
{
    match collect_surfaces(lines, true) {
        Err(e) => Err(e),
        Ok(items) => Ok(frequency(&items)),
    }
}

/// The ten surface forms that occur most often in the company of the cat.
pub fn count_co_occurrence_cat_top10(lines: &Vec<String>) -> (r: Result<Vec<String>, JsonError>)
    ensures
        count_outcome(r, texts(lines@), true, true),
{
    match collect_surfaces(lines, true) {
        Err(e) => Err(e),
        Ok(items) => Ok(frequency_top(&items, 10)),
    }
}

} // verus!

//! Extraction of categories, sections, file references and the basic
//! information template from an article's markup.
//!
//! Every extractor is a function of the article's text alone. The patterns
//! are searched by the `regex` crate; what is done with the matches is
//! stated here over the names that `pattern` gives to the crate's results.
//! A pattern is handed to the crate as text with every search, after the
//! crate has been asked once whether it accepts the pattern.
use crate::chapter03::pattern::{
    accepts, captures_all, group_texts, is_match, regex_accepts, regex_captures,
    regex_is_match, regex_replace_all, replace_all,
};
use crate::json::{json_parse, parse, text_member, text_of_member, Json, JsonError};
use crate::ordered::{same_text, TextMap};
use crate::text::{
    chars_of, contains, contains_text, option_text, option_texts, pieces, push_chars, split,
    texts, trim, trimmed,
};
use vstd::prelude::*;

verus! {

/// Why an extraction failed. No partial result is handed out.
#[derive(Clone, Copy, Debug, PartialEq, Eq, Structural)]
pub enum MarkupError {
    /// A pattern of the library was not accepted by the regular-expression
    /// engine.
    BadPattern,
    /// A match lacks a group whose text the extraction needs.
    MissingGroup,
    /// A heading is marked with so many `=` that its level does not fit the
    /// level's type.
    LevelOutOfRange,
}

/// One article of the dump: its title and its markup.
pub struct Article {
    pub title: String,
    pub text: String,
}

/// The lines of `text`: its parts between line feeds.
pub open spec fn lines_of(text: Seq<char>) -> Seq<Seq<char>> {
    pieces(text, seq!['\n'])
}

impl Article {
    /// The lines of the markup, in order. A text that ends in a line feed
    /// has an empty last line.
    pub fn lines_from_text(&self) -> (lines: Vec<String>)
        ensures
            texts(lines@) == lines_of(self.text@),
    {
        proof {
            reveal_strlit("\n");
            assert("\n"@ =~= seq!['\n']);
        }
        split(self.text.as_str(), "\n")
    }
}

// ---------------------------------------------------------------------------
// Groups of matches
// ---------------------------------------------------------------------------

/// Whether group `g` took part in the match `m`.
pub open spec fn has_group(m: Seq<Option<Seq<char>>>, g: int) -> bool {
    0 <= g < m.len() && m[g] is Some
}

/// The text of group `g` in each of the matches, or nothing where one of the
/// matches lacks the group.
pub open spec fn column(matches: Seq<Seq<Option<Seq<char>>>>, g: int) -> Option<Seq<Seq<char>>> {
    if forall|i: int| 0 <= i < matches.len() ==> has_group(#[trigger] matches[i], g) {
        Some(Seq::new(matches.len(), |i: int| matches[i][g]->0))
    } else {
        None
    }
}

/// The text of group `g` in every match of `pattern` in the first `n` of the
/// `inputs`, input by input and match by match; nothing where one of these
/// matches lacks the group.
pub open spec fn gathered(pattern: Seq<char>, inputs: Seq<Seq<char>>, g: int, n: nat) -> Option<
    Seq<Seq<char>>,
>
    decreases n,
{
    if n == 0 {
        Some(Seq::empty())
    } else {
        match (
            gathered(pattern, inputs, g, (n - 1) as nat),
            column(regex_captures(pattern, inputs[n - 1]), g),
        ) {
            (Some(before), Some(here)) => Some(before + here),
            _ => None,
        }
    }
}

/// The number of matches of `pattern` in the first `n` of the `inputs`.
pub open spec fn match_count(pattern: Seq<char>, inputs: Seq<Seq<char>>, n: nat) -> nat
    decreases n,
{
    if n == 0 {
        0
    } else {
        match_count(pattern, inputs, (n - 1) as nat) + regex_captures(pattern, inputs[n - 1]).len()
    }
}

/// What was gathered holds one text for each match.
pub proof fn lemma_gathered_len(pattern: Seq<char>, inputs: Seq<Seq<char>>, g: int, n: nat)
    ensures
        gathered(pattern, inputs, g, n) matches Some(all) ==> all.len() == match_count(
            pattern,
            inputs,
            n,
        ),
    decreases n,
{
    if n > 0 {
        lemma_gathered_len(pattern, inputs, g, (n - 1) as nat);
    }
}

/// Where gathering fails on some inputs, it fails on more of them too.
pub proof fn lemma_gathered_none(pattern: Seq<char>, inputs: Seq<Seq<char>>, g: int, k: nat, n: nat)
    requires
        k <= n,
        gathered(pattern, inputs, g, k) is None,
    ensures
        gathered(pattern, inputs, g, n) is None,
    decreases n,
{
    if k < n {
        lemma_gathered_none(pattern, inputs, g, k, (n - 1) as nat);
    }
}

/// The views of a list of strings that may have failed.
pub open spec fn result_texts(r: Result<Vec<String>, MarkupError>) -> Result<
    Seq<Seq<char>>,
    MarkupError,
> {
    match r {
        Ok(v) => Ok(texts(v@)),
        Err(e) => Err(e),
    }
}

/// The view of a string that may have failed.
pub open spec fn result_text(r: Result<String, MarkupError>) -> Result<Seq<char>, MarkupError> {
    match r {
        Ok(s) => Ok(s@),
        Err(e) => Err(e),
    }
}

/// Picks the text of group `g` out of each match.
pub fn column_of(matches: &Vec<Vec<Option<String>>>, g: usize) -> (r: Option<Vec<String>>)
    ensures
        option_texts(r) == column(group_texts(matches@), g as int),
{
    let ghost ms = group_texts(matches@);
    let mut out: Vec<String> = Vec::new();
    let mut i: usize = 0;
    while i < matches.len()
        invariant
            i <= matches.len(),
            ms == group_texts(matches@),
            out@.len() == i,
            forall|k: int| 0 <= k < i ==> has_group(#[trigger] ms[k], g as int),
            forall|k: int| 0 <= k < i ==> (#[trigger] out@[k])@ == ms[k][g as int]->0,
        decreases matches.len() - i,
    {
        let m = &matches[i];
        assert(ms[i as int].len() == m@.len());
        if g < m.len() {
            assert(ms[i as int][g as int] == match m@[g as int] {
                Some(s) => Some(s@),
                None => None,
            });
            match &m[g] {
                Some(s) => {
                    out.push(s.clone());
                },
                None => {
                    assert(!has_group(ms[i as int], g as int));
                    return None;
                },
            }
        } else {
            assert(!has_group(ms[i as int], g as int));
            return None;
        }
        i = i + 1;
    }
    assert(texts(out@) =~= column(ms, g as int)->0);
    Some(out)
}

/// Gathers the text of group `g` from every match of `pattern` in each of
/// the `inputs`.
fn gather(pattern: &str, inputs: &Vec<String>, g: usize) -> (r: Option<Vec<String>>)
    requires
        regex_accepts(pattern@),
    ensures
        option_texts(r) == gathered(pattern@, texts(inputs@), g as int, inputs@.len()),
{
    let ghost p = pattern@;
    let ghost ins = texts(inputs@);
    let mut out: Vec<String> = Vec::new();
    let mut i: usize = 0;
    while i < inputs.len()
        invariant
            i <= inputs.len(),
            p == pattern@,
            regex_accepts(p),
            ins == texts(inputs@),
            gathered(p, ins, g as int, i as nat) == Some(texts(out@)),
        decreases inputs.len() - i,
    {
        let matches = captures_all(pattern, inputs[i].as_str());
        assert(ins[i as int] == inputs@[i as int]@);
        match column_of(&matches, g) {
            None => {
                proof {
                    assert(gathered(p, ins, g as int, (i + 1) as nat) is None);
                    lemma_gathered_none(p, ins, g as int, (i + 1) as nat, inputs@.len());
                }
                return None;
            },
            Some(mut here) => {
                let ghost before = texts(out@);
                let ghost added = texts(here@);
                out.append(&mut here);
                assert(texts(out@) =~= before + added);
            },
        }
        i = i + 1;
    }
    Some(out)
}

// ---------------------------------------------------------------------------
// Categories
// ---------------------------------------------------------------------------

/// The pattern of a line that declares a category.
pub const CATEGORY_LINE_PATTERN: &'static str = r"\[\[Category:(.*)\]\]";

/// The pattern of a category declaration; group 1 is the category's name,
/// up to an optional `|`.
pub const CATEGORY_PATTERN: &'static str = r"\[\[Category:([^\|]+)\|?.*\]\]";

/// The lines among the first `n` of `lines` in which `pattern` matches.
pub open spec fn matching_lines(pattern: Seq<char>, lines: Seq<Seq<char>>, n: nat) -> Seq<Seq<char>>
    decreases n,
{
    if n == 0 {
        Seq::empty()
    } else if regex_is_match(pattern, lines[n - 1]) {
        matching_lines(pattern, lines, (n - 1) as nat).push(lines[n - 1])
    } else {
        matching_lines(pattern, lines, (n - 1) as nat)
    }
}

/// What `extract_category_lines` returns for an article with markup `text`.
pub open spec fn category_lines_of(text: Seq<char>) -> Result<Seq<Seq<char>>, MarkupError> {
    if !regex_accepts(CATEGORY_LINE_PATTERN@) {
        Err(MarkupError::BadPattern)
    } else {
        Ok(matching_lines(CATEGORY_LINE_PATTERN@, lines_of(text), lines_of(text).len()))
    }
}

/// The lines of the article that declare a category, whole and in document
/// order.
pub fn extract_category_lines(article: &Article) -> (r: Result<Vec<String>, MarkupError>)
    ensures
        result_texts(r) == category_lines_of(article.text@),
{
    if !accepts(CATEGORY_LINE_PATTERN) {
        return Err(MarkupError::BadPattern);
    }
    let lines = article.lines_from_text();
    let ghost p = CATEGORY_LINE_PATTERN@;
    let ghost ls = lines_of(article.text@);
    let mut out: Vec<String> = Vec::new();
    let mut i: usize = 0;
    while i < lines.len()
        invariant
            i <= lines.len(),
            p == CATEGORY_LINE_PATTERN@,
            regex_accepts(p),
            texts(lines@) == ls,
            texts(out@) == matching_lines(p, ls, i as nat),
        decreases lines.len() - i,
    {
        assert(ls[i as int] == lines@[i as int]@);
        let ghost before = texts(out@);
        if is_match(CATEGORY_LINE_PATTERN, lines[i].as_str()) {
            out.push(lines[i].clone());
            assert(texts(out@) =~= before.push(ls[i as int]));
        }
        i = i + 1;
    }
    Ok(out)
}

/// What gathering group `g` of `pattern` from the lines of `text` gives.
pub open spec fn gathered_from_lines(pattern: Seq<char>, text: Seq<char>, g: int) -> Result<
    Seq<Seq<char>>,
    MarkupError,
> {
    if !regex_accepts(pattern) {
        Err(MarkupError::BadPattern)
    } else {
        match gathered(pattern, lines_of(text), g, lines_of(text).len()) {
            Some(all) => Ok(all),
            None => Err(MarkupError::MissingGroup),
        }
    }
}

/// The text of group 1 of every match of `pattern` in each line of the
/// article, in document order. A pattern that the engine does not accept,
/// and a match in which group 1 took no part, fail the whole.
pub fn extract_groups(article: &Article, pattern: &str) -> (r: Result<Vec<String>, MarkupError>)
    ensures
        result_texts(r) == gathered_from_lines(pattern@, article.text@, 1),
{
    if !accepts(pattern) {
        return Err(MarkupError::BadPattern);
    }
    let lines = article.lines_from_text();
    match gather(pattern, &lines, 1) {
        Some(all) => Ok(all),
        None => Err(MarkupError::MissingGroup),
    }
}

/// The names of the categories that the article declares, in document
/// order, duplicates included: group 1 of every match of
/// `CATEGORY_PATTERN` in each line.
pub fn extract_categories(article: &Article) -> (r: Result<Vec<String>, MarkupError>)
    ensures
        result_texts(r) == gathered_from_lines(CATEGORY_PATTERN@, article.text@, 1),
{
    extract_groups(article, CATEGORY_PATTERN)
}

// ---------------------------------------------------------------------------
// File references
// ---------------------------------------------------------------------------

/// The pattern of a file reference; group 1 is the file's name.
pub const FILE_PATTERN: &'static str = r"\[\[ファイル:([^\|]+)(?:\|+|\]\])";

/// The names of the files that the article refers to, in document order:
/// group 1 of every match of `FILE_PATTERN` in each line.
pub fn extract_files(article: &Article) -> (r: Result<Vec<String>, MarkupError>)
    ensures
        result_texts(r) == gathered_from_lines(FILE_PATTERN@, article.text@, 1),
{
    extract_groups(article, FILE_PATTERN)
}

// ---------------------------------------------------------------------------
// Sections
// ---------------------------------------------------------------------------

/// The pattern of a heading: a run of at least two `=` (group 1), the
/// heading's text (group 2) and a closing run of `=`.
pub const SECTION_PATTERN: &'static str = r"(={2,})([^=]+)(={2,})";

/// A heading of the article and how deep it lies: a heading opened by two
/// `=` has level 1, one opened by three has level 2, and so on.
pub struct Section {
    pub section: String,
    pub level: u8,
}

/// Whether the level of a heading opened by `mark` fits the level's type.
pub open spec fn level_fits(mark: Seq<char>) -> bool {
    1 <= mark.len() <= 256
}

/// The sections that the opening runs `marks` and the heading texts `heads`
/// of the matches give, one by one: the heading trimmed, the level one less
/// than the length of the run. A level that does not fit fails the whole.
pub open spec fn sections_from_columns(marks: Seq<Seq<char>>, heads: Seq<Seq<char>>) -> Result<
    Seq<(Seq<char>, u8)>,
    MarkupError,
> {
    if forall|i: int| 0 <= i < marks.len() ==> level_fits(#[trigger] marks[i]) {
        Ok(Seq::new(marks.len(), |i: int| (trimmed(heads[i]), (marks[i].len() - 1) as u8)))
    } else {
        Err(MarkupError::LevelOutOfRange)
    }
}

/// What `extract_sections` returns for an article with markup `text`: a
/// section for each match of `SECTION_PATTERN` in each line.
pub open spec fn sections_of(text: Seq<char>) -> Result<Seq<(Seq<char>, u8)>, MarkupError> {
    let lines = lines_of(text);
    if !regex_accepts(SECTION_PATTERN@) {
        Err(MarkupError::BadPattern)
    } else {
        match (
            gathered(SECTION_PATTERN@, lines, 1, lines.len()),
            gathered(SECTION_PATTERN@, lines, 2, lines.len()),
        ) {
            (Some(marks), Some(heads)) => sections_from_columns(marks, heads),
            _ => Err(MarkupError::MissingGroup),
        }
    }
}

/// The headings and levels of a list of sections that may have failed.
pub open spec fn result_sections(r: Result<Vec<Section>, MarkupError>) -> Result<
    Seq<(Seq<char>, u8)>,
    MarkupError,
> {
    match r {
        Ok(v) => Ok(Seq::new(v@.len(), |i: int| (v@[i].section@, v@[i].level))),
        Err(e) => Err(e),
    }
}

/// The section that one match gives: the heading trimmed, the level one
/// less than the length of the opening run.
pub open spec fn section_of(mark: Seq<char>, head: Seq<char>) -> Result<(Seq<char>, u8), MarkupError> {
    if level_fits(mark) {
        Ok((trimmed(head), (mark.len() - 1) as u8))
    } else {
        Err(MarkupError::LevelOutOfRange)
    }
}

/// Makes a section of the opening run and the heading text of one match.
pub fn section_from(mark: &str, head: &str) -> (r: Result<Section, MarkupError>)
    ensures
        match r {
            Ok(section) => section_of(mark@, head@) == Ok::<(Seq<char>, u8), MarkupError>(
                (section.section@, section.level),
            ),
            Err(e) => section_of(mark@, head@) == Err::<(Seq<char>, u8), MarkupError>(e),
        },
{
    let run = chars_of(mark).len();
    if run < 1 || run > 256 {
        return Err(MarkupError::LevelOutOfRange);
    }
    let level: u8 = (run - 1) as u8;
    Ok(Section { section: trim(head), level })
}

/// The headings of the article with their levels, in document order.
pub fn extract_sections(article: &Article) -> (r: Result<Vec<Section>, MarkupError>)
    ensures
        result_sections(r) == sections_of(article.text@),
{
    if !accepts(SECTION_PATTERN) {
        return Err(MarkupError::BadPattern);
    }
    let lines = article.lines_from_text();
    let marks = match gather(SECTION_PATTERN, &lines, 1) {
        Some(marks) => marks,
        None => {
            return Err(MarkupError::MissingGroup);
        },
    };
    let heads = match gather(SECTION_PATTERN, &lines, 2) {
        Some(heads) => heads,
        None => {
            return Err(MarkupError::MissingGroup);
        },
    };
    proof {
        lemma_gathered_len(SECTION_PATTERN@, texts(lines@), 1, lines@.len());
        lemma_gathered_len(SECTION_PATTERN@, texts(lines@), 2, lines@.len());
    }
    let mut out: Vec<Section> = Vec::new();
    let mut i: usize = 0;
    while i < marks.len()
        invariant
            i <= marks.len(),
            marks.len() == heads.len(),
            out@.len() == i,
            regex_accepts(SECTION_PATTERN@),
            gathered(SECTION_PATTERN@, lines_of(article.text@), 1, lines_of(article.text@).len())
                == Some(texts(marks@)),
            gathered(SECTION_PATTERN@, lines_of(article.text@), 2, lines_of(article.text@).len())
                == Some(texts(heads@)),
            forall|k: int| 0 <= k < i ==> level_fits(#[trigger] texts(marks@)[k]),
            forall|k: int|
                0 <= k < i ==> (#[trigger] out@[k]).section@ == trimmed(texts(heads@)[k])
                    && out@[k].level == (texts(marks@)[k].len() - 1) as u8,
        decreases marks.len() - i,
    {
        assert(texts(marks@)[i as int] == marks@[i as int]@);
        assert(texts(heads@)[i as int] == heads@[i as int]@);
        match section_from(marks[i].as_str(), heads[i].as_str()) {
            Ok(section) => {
                out.push(section);
            },
            Err(e) => {
                assert(!level_fits(texts(marks@)[i as int]));
                return Err(e);
            },
        }
        i = i + 1;
    }
    let r = Ok(out);
    assert(result_sections(r)->Ok_0 =~= sections_of(article.text@)->Ok_0);
    r
}

// ---------------------------------------------------------------------------
// Cleaning of markup
// ---------------------------------------------------------------------------

/// The pattern of emphasis markup: a run of two to five apostrophes.
pub const STRONG_PATTERN: &'static str = r"('{2,5})";

/// The pattern of an internal link; the group `link` is what stands between
/// the double brackets.
pub const LINK_PATTERN: &'static str = r"(?:\[\[)(?P<link>.+?)(?:\]\])";

/// `text` with every match of `pattern` replaced by `replacement`, where the
/// pattern is accepted.
pub open spec fn replaced(pattern: Seq<char>, text: Seq<char>, replacement: Seq<char>) -> Result<
    Seq<char>,
    MarkupError,
> {
    if regex_accepts(pattern) {
        Ok(regex_replace_all(pattern, text, replacement))
    } else {
        Err(MarkupError::BadPattern)
    }
}

/// Replaces every match of `pattern` in `text` by `replacement`.
fn replace(pattern: &str, text: &str, replacement: &str) -> (r: Result<String, MarkupError>)
    ensures
        result_text(r) == replaced(pattern@, text@, replacement@),
{
    if accepts(pattern) {
        Ok(replace_all(pattern, text, replacement))
    } else {
        Err(MarkupError::BadPattern)
    }
}

/// The capability of cleaning markup out of a template value.
pub trait Cleaner {
    /// What the cleaner makes of `original`.
    spec fn cleaned(&self, original: Seq<char>) -> Result<Seq<char>, MarkupError>;

    /// Cleans `original`.
    fn remove_markup(&self, original: &str) -> (r: Result<String, MarkupError>)
        ensures
            result_text(r) == self.cleaned(original@),
    ;
}

/// Leaves the text as it is.
pub struct NoneCleaner {}

impl Cleaner for NoneCleaner {
    open spec fn cleaned(&self, original: Seq<char>) -> Result<Seq<char>, MarkupError> {
        Ok(original)
    }

    fn remove_markup(&self, original: &str) -> (r: Result<String, MarkupError>) {
        Ok(original.to_owned())
    }
}

/// Removes emphasis markup: every run of two to five apostrophes.
pub struct StrongCleaner {}

impl Cleaner for StrongCleaner {
    open spec fn cleaned(&self, original: Seq<char>) -> Result<Seq<char>, MarkupError> {
        replaced(STRONG_PATTERN@, original, ""@)
    }

    fn remove_markup(&self, original: &str) -> (r: Result<String, MarkupError>) {
        replace(STRONG_PATTERN, original, "")
    }
}

/// Removes emphasis markup first, then replaces each internal link by what
/// stands between its brackets. A piped link keeps its pipe: `[[a|b]]`
/// becomes `a|b`.
pub struct LinkCleaner {
    pub chain: StrongCleaner,
}

impl Cleaner for LinkCleaner {
    open spec fn cleaned(&self, original: Seq<char>) -> Result<Seq<char>, MarkupError> {
        match self.chain.cleaned(original) {
            Err(e) => Err(e),
            Ok(no_strong) => {
                if contains_text(no_strong, "[["@) {
                    replaced(LINK_PATTERN@, no_strong, "$link"@)
                } else {
                    Ok(no_strong)
                }
            },
        }
    }

    fn remove_markup(&self, original: &str) -> (r: Result<String, MarkupError>) {
        let no_strong = match self.chain.remove_markup(original) {
            Ok(t) => t,
            Err(e) => {
                return Err(e);
            },
        };
        if contains(no_strong.as_str(), "[[") {
            replace(LINK_PATTERN, no_strong.as_str(), "$link")
        } else {
            Ok(no_strong)
        }
    }
}

// ---------------------------------------------------------------------------
// The basic information template
// ---------------------------------------------------------------------------

/// The pattern of the basic information block: from the line that opens the
/// template to the line that holds only the closing braces. Group 1 is what
/// stands between the two.
pub const INFOBOX_PATTERN: &'static str = r"(?ms)(?:^\{\{基礎情報.+?$)(.+?)(?:^}}$)";

/// The pattern of one entry: a key (group 1), an equals sign with optional
/// whitespace around it, and the value up to the end of the entry (group 2).
pub const ENTRY_PATTERN: &'static str = r"(?ms)(.+?)(?:[\s]*)=(?:[\s]*)(.+?)\z";

/// One entry of a template as it stands in the markup.
pub struct TemplateEntry {
    pub key: String,
    pub raw_value: String,
}

/// The mapping from entry key to cleaned value.
pub type BasicInfo = TextMap<String>;

/// The separator of entries within a block: a line feed and a pipe.
pub open spec fn entry_separator() -> Seq<char> {
    seq!['\n', '|']
}

/// Of the first `n` of the `parts`, those that are more than whitespace,
/// trimmed.
pub open spec fn kept_parts(parts: Seq<Seq<char>>, n: nat) -> Seq<Seq<char>>
    decreases n,
{
    if n == 0 {
        Seq::empty()
    } else if trimmed(parts[n - 1]).len() > 0 {
        kept_parts(parts, (n - 1) as nat).push(trimmed(parts[n - 1]))
    } else {
        kept_parts(parts, (n - 1) as nat)
    }
}

/// The texts of the entries of one block: the block cut at the separator,
/// each part trimmed, blank parts left out.
pub open spec fn entry_texts_of_block(block: Seq<char>) -> Seq<Seq<char>> {
    let parts = pieces(block, entry_separator());
    kept_parts(parts, parts.len())
}

/// The texts of the entries of the first `n` of the `blocks`.
pub open spec fn entry_texts(blocks: Seq<Seq<char>>, n: nat) -> Seq<Seq<char>>
    decreases n,
{
    if n == 0 {
        Seq::empty()
    } else {
        entry_texts(blocks, (n - 1) as nat) + entry_texts_of_block(blocks[n - 1])
    }
}

/// What `template_entries` returns for an article with markup `text`.
pub open spec fn template_entries_of(text: Seq<char>) -> Result<
    Seq<(Seq<char>, Seq<char>)>,
    MarkupError,
> {
    if !regex_accepts(INFOBOX_PATTERN@) || !regex_accepts(ENTRY_PATTERN@) {
        Err(MarkupError::BadPattern)
    } else {
        match column(regex_captures(INFOBOX_PATTERN@, text), 1) {
            None => Err(MarkupError::MissingGroup),
            Some(blocks) => {
                let entries = entry_texts(blocks, blocks.len());
                match (
                    gathered(ENTRY_PATTERN@, entries, 1, entries.len()),
                    gathered(ENTRY_PATTERN@, entries, 2, entries.len()),
                ) {
                    (Some(keys), Some(raws)) => Ok(
                        Seq::new(keys.len(), |i: int| (keys[i], raws[i])),
                    ),
                    _ => Err(MarkupError::MissingGroup),
                }
            },
        }
    }
}

/// The keys and raw values of a list of entries that may have failed.
pub open spec fn result_entries(r: Result<Vec<TemplateEntry>, MarkupError>) -> Result<
    Seq<(Seq<char>, Seq<char>)>,
    MarkupError,
> {
    match r {
        Ok(v) => Ok(entry_pairs(v@)),
        Err(e) => Err(e),
    }
}

/// Cuts one block into the texts of its entries.
pub fn block_entries(block: &str) -> (out: Vec<String>)
    ensures
        texts(out@) == entry_texts_of_block(block@),
{
    proof {
        reveal_strlit("\n|");
        assert("\n|"@ =~= entry_separator());
    }
    let parts = split(block, "\n|");
    let ghost ps = texts(parts@);
    let mut out: Vec<String> = Vec::new();
    let mut i: usize = 0;
    while i < parts.len()
        invariant
            i <= parts.len(),
            ps == texts(parts@),
            texts(out@) == kept_parts(ps, i as nat),
        decreases parts.len() - i,
    {
        assert(ps[i as int] == parts@[i as int]@);
        let t = trim(parts[i].as_str());
        let ghost before = texts(out@);
        if !t.as_str().is_empty() {
            out.push(t);
            assert(texts(out@) =~= before.push(trimmed(ps[i as int])));
        }
        i = i + 1;
    }
    out
}

/// The entries of the article's basic information template as they stand in
/// the markup, in document order. A key may occur more than once.
pub fn template_entries(article: &Article) -> (r: Result<Vec<TemplateEntry>, MarkupError>)
    ensures
        result_entries(r) == template_entries_of(article.text@),
{
    if !accepts(INFOBOX_PATTERN) || !accepts(ENTRY_PATTERN) {
        return Err(MarkupError::BadPattern);
    }
    let found = captures_all(INFOBOX_PATTERN, article.text.as_str());
    let blocks = match column_of(&found, 1) {
        Some(blocks) => blocks,
        None => {
            return Err(MarkupError::MissingGroup);
        },
    };
    let ghost bs = texts(blocks@);
    let mut entries: Vec<String> = Vec::new();
    let mut b: usize = 0;
    while b < blocks.len()
        invariant
            b <= blocks.len(),
            bs == texts(blocks@),
            texts(entries@) == entry_texts(bs, b as nat),
        decreases blocks.len() - b,
    {
        assert(bs[b as int] == blocks@[b as int]@);
        let mut here = block_entries(blocks[b].as_str());
        let ghost before = texts(entries@);
        let ghost added = texts(here@);
        entries.append(&mut here);
        assert(texts(entries@) =~= before + added);
        b = b + 1;
    }
    let keys = match gather(ENTRY_PATTERN, &entries, 1) {
        Some(keys) => keys,
        None => {
            return Err(MarkupError::MissingGroup);
        },
    };
    let raws = match gather(ENTRY_PATTERN, &entries, 2) {
        Some(raws) => raws,
        None => {
            return Err(MarkupError::MissingGroup);
        },
    };
    proof {
        lemma_gathered_len(ENTRY_PATTERN@, texts(entries@), 1, entries@.len());
        lemma_gathered_len(ENTRY_PATTERN@, texts(entries@), 2, entries@.len());
    }
    let mut out: Vec<TemplateEntry> = Vec::new();
    let mut i: usize = 0;
    while i < keys.len()
        invariant
            i <= keys.len(),
            keys.len() == raws.len(),
            out@.len() == i,
            forall|k: int|
                0 <= k < i ==> (#[trigger] out@[k]).key@ == texts(keys@)[k] && out@[k].raw_value@
                    == texts(raws@)[k],
        decreases keys.len() - i,
    {
        assert(texts(keys@)[i as int] == keys@[i as int]@);
        assert(texts(raws@)[i as int] == raws@[i as int]@);
        out.push(TemplateEntry { key: keys[i].clone(), raw_value: raws[i].clone() });
        i = i + 1;
    }
    let r = Ok(out);
    assert(entry_pairs(out@) =~= template_entries_of(article.text@)->Ok_0);
    r
}

/// The map built from the first `n` of the `entries`: each key mapped to
/// its cleaned value, a later entry replacing an earlier one with the same
/// key. The first value that the cleaner fails on fails the whole.
pub open spec fn cleaned_info<T: Cleaner>(
    entries: Seq<(Seq<char>, Seq<char>)>,
    cleaner: T,
    n: nat,
) -> Result<Map<Seq<char>, Seq<char>>, MarkupError>
    decreases n,
{
    if n == 0 {
        Ok(Map::empty())
    } else {
        match cleaned_info(entries, cleaner, (n - 1) as nat) {
            Err(e) => Err(e),
            Ok(m) => match cleaner.cleaned(entries[n - 1].1) {
                Err(e) => Err(e),
                Ok(v) => Ok(m.insert(entries[n - 1].0, v)),
            },
        }
    }
}

/// A failure on some entries is the failure on more of them too.
pub proof fn lemma_cleaned_info_err<T: Cleaner>(
    entries: Seq<(Seq<char>, Seq<char>)>,
    cleaner: T,
    k: nat,
    n: nat,
)
    requires
        k <= n,
        cleaned_info(entries, cleaner, k) is Err,
    ensures
        cleaned_info(entries, cleaner, n) == cleaned_info(entries, cleaner, k),
    decreases n,
{
    if k < n {
        lemma_cleaned_info_err(entries, cleaner, k, (n - 1) as nat);
    }
}

/// What `extract_basic_info` returns for an article with markup `text`.
pub open spec fn basic_info_of<T: Cleaner>(text: Seq<char>, cleaner: T) -> Result<
    Map<Seq<char>, Seq<char>>,
    MarkupError,
> {
    match template_entries_of(text) {
        Err(e) => Err(e),
        Ok(entries) => cleaned_info(entries, cleaner, entries.len()),
    }
}

/// The values of a map of strings as texts.
pub open spec fn value_texts(m: Map<Seq<char>, String>) -> Map<Seq<char>, Seq<char>> {
    m.map_values(|s: String| s@)
}

/// The view of a basic-information map that may have failed.
pub open spec fn result_info(r: Result<BasicInfo, MarkupError>) -> Result<
    Map<Seq<char>, Seq<char>>,
    MarkupError,
> {
    match r {
        Ok(info) => Ok(value_texts(info@)),
        Err(e) => Err(e),
    }
}

/// The keys and raw values of a list of entries.
pub open spec fn entry_pairs(entries: Seq<TemplateEntry>) -> Seq<(Seq<char>, Seq<char>)> {
    Seq::new(entries.len(), |i: int| (entries[i].key@, entries[i].raw_value@))
}

/// The map of the entries: each key mapped to its value as `cleaner` cleans
/// it, a later entry replacing an earlier one with the same key.
pub fn basic_info_from<T: Cleaner>(entries: &Vec<TemplateEntry>, cleaner: T) -> (r: Result<
    BasicInfo,
    MarkupError,
>)
    ensures
        r matches Ok(info) ==> info.wf(),
        result_info(r) == cleaned_info(entry_pairs(entries@), cleaner, entries@.len()),
{
    let ghost es = entry_pairs(entries@);
    let mut info: BasicInfo = TextMap::new();
    assert(value_texts(info@) =~= Map::<Seq<char>, Seq<char>>::empty());
    let mut i: usize = 0;
    while i < entries.len()
        invariant
            i <= entries.len(),
            es == entry_pairs(entries@),
            info.wf(),
            cleaned_info(es, cleaner, i as nat) == Ok::<Map<Seq<char>, Seq<char>>, MarkupError>(
                value_texts(info@),
            ),
        decreases entries.len() - i,
    {
        let entry = &entries[i];
        assert(es[i as int] == (entries@[i as int].key@, entries@[i as int].raw_value@));
        let value = match cleaner.remove_markup(entry.raw_value.as_str()) {
            Ok(value) => value,
            Err(e) => {
                proof {
                    assert(cleaned_info(es, cleaner, (i + 1) as nat) == Err::<
                        Map<Seq<char>, Seq<char>>,
                        MarkupError,
                    >(e));
                    lemma_cleaned_info_err(es, cleaner, (i + 1) as nat, es.len());
                }
                return Err(e);
            },
        };
        let ghost before = info@;
        info.insert(entry.key.clone(), value);
        assert(value_texts(info@) =~= value_texts(before).insert(entry.key@, value@));
        i = i + 1;
    }
    Ok(info)
}

/// The basic information of the article: the entries of its template, each
/// value cleaned by `cleaner`. Where a key occurs more than once, its last
/// value stays.
pub fn extract_basic_info<T: Cleaner>(article: &Article, cleaner: T) -> (r: Result<
    BasicInfo,
    MarkupError,
>)
    ensures
        r matches Ok(info) ==> info.wf(),
        result_info(r) == basic_info_of(article.text@, cleaner),
{
    match template_entries(article) {
        Ok(entries) => {
            assert(entry_pairs(entries@) =~= template_entries_of(article.text@)->Ok_0);
            basic_info_from(&entries, cleaner)
        },
        Err(e) => Err(e),
    }
}

// ---------------------------------------------------------------------------
// Loading articles
// ---------------------------------------------------------------------------

/// The title and the markup that one line of the dump holds: the line must
/// be a JSON object with the string members `title` and `text`.
pub open spec fn article_of_line(line: Seq<char>) -> Result<(Seq<char>, Seq<char>), JsonError> {
    match json_parse(line) {
        None => Err(JsonError::Syntax),
        Some(j) => match (text_member(j, "title"@), text_member(j, "text"@)) {
            (Some(title), Some(text)) => Ok((title, text)),
            _ => Err(JsonError::Shape),
        },
    }
}

/// The articles titled `title` among the first `n` of the `lines`, in
/// order. The first line that cannot be read fails the whole, whatever its
/// title.
pub open spec fn loaded(lines: Seq<Seq<char>>, title: Seq<char>, n: nat) -> Result<
    Seq<(Seq<char>, Seq<char>)>,
    JsonError,
>
    decreases n,
{
    if n == 0 {
        Ok(Seq::empty())
    } else {
        match loaded(lines, title, (n - 1) as nat) {
            Err(e) => Err(e),
            Ok(found) => match article_of_line(lines[n - 1]) {
                Err(e) => Err(e),
                Ok(article) => if article.0 == title {
                    Ok(found.push(article))
                } else {
                    Ok(found)
                },
            },
        }
    }
}

/// A failure on some lines is the failure on more of them too.
pub proof fn lemma_loaded_err(lines: Seq<Seq<char>>, title: Seq<char>, k: nat, n: nat)
    requires
        k <= n,
        loaded(lines, title, k) is Err,
    ensures
        loaded(lines, title, n) == loaded(lines, title, k),
    decreases n,
{
    if k < n {
        lemma_loaded_err(lines, title, k, (n - 1) as nat);
    }
}

/// The titles and markups of a list of articles.
pub open spec fn article_pairs(v: Seq<Article>) -> Seq<(Seq<char>, Seq<char>)> {
    Seq::new(v.len(), |i: int| (v[i].title@, v[i].text@))
}

/// The titles and markups of a list of articles that may have failed.
pub open spec fn result_articles(r: Result<Vec<Article>, JsonError>) -> Result<
    Seq<(Seq<char>, Seq<char>)>,
    JsonError,
> {
    match r {
        Ok(v) => Ok(article_pairs(v@)),
        Err(e) => Err(e),
    }
}

/// Reads one line of the dump.
fn read_article(line: &str) -> (r: Result<Article, JsonError>)
    ensures
        match r {
            Ok(a) => article_of_line(line@) == Ok::<(Seq<char>, Seq<char>), JsonError>(
                (a.title@, a.text@),
            ),
            Err(e) => article_of_line(line@) == Err::<(Seq<char>, Seq<char>), JsonError>(e),
        },
{
    let j = match parse(line) {
        Some(j) => j,
        None => {
            return Err(JsonError::Syntax);
        },
    };
    let title = text_of_member(&j, "title");
    let text = text_of_member(&j, "text");
    match title {
        Some(title) => match text {
            Some(text) => Ok(Article { title, text }),
            None => Err(JsonError::Shape),
        },
        None => Err(JsonError::Shape),
    }
}

/// Whether every line can be read as an article.
pub open spec fn readable(lines: Seq<Seq<char>>) -> bool {
    forall|i: int| 0 <= i < lines.len() ==> article_of_line(#[trigger] lines[i]) is Ok
}

/// The articles titled `title` among the first `n` of the `lines`, in
/// order, where each of these lines can be read.
pub open spec fn titled(lines: Seq<Seq<char>>, title: Seq<char>, n: nat) -> Seq<
    (Seq<char>, Seq<char>),
>
    decreases n,
{
    if n == 0 {
        Seq::empty()
    } else {
        let article = article_of_line(lines[n - 1])->Ok_0;
        if article.0 == title {
            titled(lines, title, (n - 1) as nat).push(article)
        } else {
            titled(lines, title, (n - 1) as nat)
        }
    }
}

/// Where the first `n` lines can all be read, loading them succeeds and
/// gives the articles with the title.
pub proof fn lemma_loaded_readable(lines: Seq<Seq<char>>, title: Seq<char>, n: nat)
    requires
        n <= lines.len(),
        forall|i: int| 0 <= i < n ==> article_of_line(#[trigger] lines[i]) is Ok,
    ensures
        loaded(lines, title, n) == Ok::<Seq<(Seq<char>, Seq<char>)>, JsonError>(
            titled(lines, title, n),
        ),
    decreases n,
{
    if n > 0 {
        lemma_loaded_readable(lines, title, (n - 1) as nat);
        assert(article_of_line(lines[n - 1]) is Ok);
    }
}

/// The articles with the title `target_title` among the lines of a dump,
/// one JSON object per line, in the order of the lines. Every line must be
/// readable as an article; `load_json_checked` is there for lines of which
/// this is not known.
pub fn load_json(lines: &Vec<String>, target_title: &str) -> (found: Vec<Article>)
    requires
        readable(texts(lines@)),
    ensures
        article_pairs(found@) == titled(texts(lines@), target_title@, lines@.len()),
{
    let ghost ls = texts(lines@);
    let mut out: Vec<Article> = Vec::new();
    let mut i: usize = 0;
    while i < lines.len()
        invariant
            i <= lines.len(),
            ls == texts(lines@),
            readable(ls),
            article_pairs(out@) =~= titled(ls, target_title@, i as nat),
        decreases lines.len() - i,
    {
        assert(ls[i as int] == lines@[i as int]@);
        assert(article_of_line(ls[i as int]) is Ok);
        let ghost before = article_pairs(out@);
        if let Ok(article) = read_article(lines[i].as_str()) {
            if same_text(article.title.as_str(), target_title) {
                let ghost pair = (article.title@, article.text@);
                out.push(article);
                assert(article_pairs(out@) =~= before.push(pair));
            }
        }
        i = i + 1;
    }
    out
}

/// The articles with the title `target_title` among the lines of a dump,
/// for lines of any kind: each line is first read on its own, and the first
/// one that cannot be read as an article fails the whole, whatever its
/// title. No part of the list is handed out then.
pub fn load_json_checked(lines: &Vec<String>, target_title: &str) -> (r: Result<
    Vec<Article>,
    JsonError,
>)
    ensures
        result_articles(r) == loaded(texts(lines@), target_title@, lines@.len()),
        r is Ok <==> readable(texts(lines@)),
{
    let ghost ls = texts(lines@);
    let mut i: usize = 0;
    while i < lines.len()
        invariant
            i <= lines.len(),
            ls == texts(lines@),
            forall|k: int| 0 <= k < i ==> article_of_line(#[trigger] ls[k]) is Ok,
        decreases lines.len() - i,
    {
        assert(ls[i as int] == lines@[i as int]@);
        match read_article(lines[i].as_str()) {
            Err(e) => {
                proof {
                    lemma_loaded_readable(ls, target_title@, i as nat);
                    assert(loaded(ls, target_title@, (i + 1) as nat) == Err::<
                        Seq<(Seq<char>, Seq<char>)>,
                        JsonError,
                    >(e));
                    lemma_loaded_err(ls, target_title@, (i + 1) as nat, lines@.len());
                    assert(!(article_of_line(ls[i as int]) is Ok));
                }
                return Err(e);
            },
            Ok(_) => {},
        }
        i = i + 1;
    }
    proof {
        lemma_loaded_readable(ls, target_title@, lines@.len());
    }
    Ok(load_json(lines, target_title))
}

// ---------------------------------------------------------------------------
// The URL of the flag image
// ---------------------------------------------------------------------------

/// The key under which the basic information names the flag's image file.
pub const FLAG_KEY: &'static str = "国旗画像";

/// The address of the query service.
pub const API_ENDPOINT: &'static str = "https://en.wikipedia.org/w/api.php";

/// A query to the service: the address and the parameters, in order.
pub struct ApiRequest {
    pub endpoint: String,
    pub query: Vec<(String, String)>,
}

/// What came back from the service.
pub enum ApiReply {
    /// The request could not be carried out.
    Failed,
    /// The service answered with this status and body.
    Answered { status: u16, body: String },
}

/// Why no URL could be had from a reply.
#[derive(Clone, Copy, Debug, PartialEq, Eq, Structural)]
pub enum ApiError {
    /// The request could not be carried out.
    Transport,
    /// The service answered with a status other than 200.
    Status(u16),
    /// The body is no JSON object with a member `query`.
    Body,
    /// The answer names no URL where one is expected.
    NoUrl,
}

/// The parameters that ask for the URL of the image file `name`.
pub open spec fn image_query(name: Seq<char>) -> Seq<(Seq<char>, Seq<char>)> {
    seq![
        ("action"@, "query"@),
        ("format"@, "json"@),
        ("prop"@, "imageinfo"@),
        ("iiprop"@, "url"@),
        ("titles"@, "File:"@ + name),
    ]
}

/// The parameters of a query as texts.
pub open spec fn query_texts(query: Seq<(String, String)>) -> Seq<(Seq<char>, Seq<char>)> {
    Seq::new(query.len(), |i: int| (query[i].0@, query[i].1@))
}

/// The request that asks for the URL of the flag image, where the basic
/// information names one.
pub fn flag_request(basic_info: &BasicInfo) -> (r: Option<ApiRequest>)
    requires
        basic_info.wf(),
    ensures
        match r {
            None => !basic_info@.contains_key(FLAG_KEY@),
            Some(request) => {
                &&& basic_info@.contains_key(FLAG_KEY@)
                &&& request.endpoint@ == API_ENDPOINT@
                &&& query_texts(request.query@) == image_query(basic_info@[FLAG_KEY@]@)
            },
        },
{
    match basic_info.get(FLAG_KEY) {
        None => None,
        Some(name) => {
            let mut title = "File:".to_owned();
            let name_chars = chars_of(name.as_str());
            push_chars(&mut title, &name_chars);
            let mut query: Vec<(String, String)> = Vec::new();
            query.push(("action".to_owned(), "query".to_owned()));
            query.push(("format".to_owned(), "json".to_owned()));
            query.push(("prop".to_owned(), "imageinfo".to_owned()));
            query.push(("iiprop".to_owned(), "url".to_owned()));
            query.push(("titles".to_owned(), title));
            assert(query_texts(query@) =~= image_query(name@));
            Some(ApiRequest { endpoint: API_ENDPOINT.to_owned(), query })
        },
    }
}

/// The answer of the service to an image query.
pub struct MediaWikiResponse {
    pub query: Json,
}

/// The URL that the member `query` of an answer names: that of the first
/// image of the first page. Nothing where any step on the way is missing or
/// of another kind.
pub open spec fn image_url(query: Json) -> Option<Seq<char>> {
    match query.member("pages"@) {
        None => None,
        Some(pages) => match pages.first_member() {
            None => None,
            Some(page) => match page.member("imageinfo"@) {
                None => None,
                Some(info) => match info.first_item() {
                    None => None,
                    Some(image) => text_member(image, "url"@),
                },
            },
        },
    }
}

/// The answer that a body holds: the body must be a JSON object with a
/// member `query`.
pub open spec fn response_of(body: Seq<char>) -> Option<Json> {
    match json_parse(body) {
        None => None,
        Some(j) => j.member("query"@),
    }
}

impl MediaWikiResponse {
    /// Reads an answer from the body of a reply.
    pub fn from_body(body: &str) -> (r: Option<MediaWikiResponse>)
        ensures
            match r {
                Some(response) => response_of(body@) == Some(response.query),
                None => response_of(body@) is None,
            },
    {
        match parse(body) {
            None => None,
            Some(j) => match j {
                Json::Object(mut members) => {
                    let mut i: usize = 0;
                    while i < members.len()
                        invariant
                            i <= members.len(),
                            json_parse(body@) == Some(j),
                            j.member("query"@) == crate::json::member_from(
                                members@,
                                "query"@,
                                i as int,
                            ),
                        decreases members.len() - i,
                    {
                        if same_text(members[i].0.as_str(), "query") {
                            let found = members.remove(i);
                            return Some(MediaWikiResponse { query: found.1 });
                        }
                        i = i + 1;
                    }
                    None
                },
                _ => None,
            },
        }
    }

    /// The URL that the answer names, if it names one.
    pub fn get_url(&self) -> (r: Option<String>)
        ensures
            option_text(r) == image_url(self.query),
    {
        let pages = match self.query.get("pages") {
            Some(pages) => pages,
            None => {
                return None;
            },
        };
        let page = match pages.first_value() {
            Some(page) => page,
            None => {
                return None;
            },
        };
        let info = match page.get("imageinfo") {
            Some(info) => info,
            None => {
                return None;
            },
        };
        let image = match info.first() {
            Some(image) => image,
            None => {
                return None;
            },
        };
        text_of_member(image, "url")
    }
}

/// What a reply resolves to: the URL it names, or why it names none.
pub open spec fn resolved(reply: ApiReply) -> Result<Seq<char>, ApiError> {
    match reply {
        ApiReply::Failed => Err(ApiError::Transport),
        ApiReply::Answered { status, body } => {
            if status != 200 {
                Err(ApiError::Status(status))
            } else {
                match response_of(body@) {
                    None => Err(ApiError::Body),
                    Some(query) => match image_url(query) {
                        Some(url) => Ok(url),
                        None => Err(ApiError::NoUrl),
                    },
                }
            }
        },
    }
}

/// The view of a string that may have failed to resolve.
pub open spec fn resolved_text(r: Result<String, ApiError>) -> Result<Seq<char>, ApiError> {
    match r {
        Ok(s) => Ok(s@),
        Err(e) => Err(e),
    }
}

/// Resolves a reply of the service to the URL it names.
pub fn resolve_image_url(reply: &ApiReply) -> (r: Result<String, ApiError>)
    ensures
        resolved_text(r) == resolved(*reply),
{
    match reply {
        ApiReply::Failed => Err(ApiError::Transport),
        ApiReply::Answered { status, body } => {
            if *status != 200 {
                return Err(ApiError::Status(*status));
            }
            match MediaWikiResponse::from_body(body.as_str()) {
                None => Err(ApiError::Body),
                Some(response) => match response.get_url() {
                    Some(url) => Ok(url),
                    None => Err(ApiError::NoUrl),
                },
            }
        },
    }
}

/// The URL of the country's flag image: nothing where the basic information
/// names no flag image; otherwise what `reply`, the service's reply to
/// `flag_request`, resolves to, any failure giving nothing.
pub fn get_country_flag_url(basic_info: &BasicInfo, reply: &ApiReply) -> (r: Option<String>)
    requires
        basic_info.wf(),
    ensures
        !basic_info@.contains_key(FLAG_KEY@) ==> r is None,
        basic_info@.contains_key(FLAG_KEY@) ==> option_text(r) == (match resolved(*reply) {
            Ok(url) => Some(url),
            Err(_) => None,
        }),
{
    if !basic_info.contains_key(FLAG_KEY) {
        return None;
    }
    match resolve_image_url(reply) {
        Ok(url) => Some(url),
        Err(_) => None,
    }
}

} // verus!

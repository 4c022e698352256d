//! Line and column tools on the contents of tab-separated text files.
//!
//! Every function takes the contents of its input files as text and returns
//! the text to show or to store. Reading and writing files is left to the
//! caller.
use crate::numbers::{decimal, decimal_string, decimal_u32, parse_u32};
use crate::ordered::set_of;
use crate::sorting::{
    count_texts, lemma_same_members, occurrences, ranked_in_order, ranked_of,
    ranked_pairs, ranked_texts, sort_ranked, texts_of_ranked, Ranked, Ties,
};
use crate::text::{
    chars_of, lemma_pieces_nonempty, option_text, option_texts, pieces, push_chars, split,
    string_of, string_of_range, texts, top,
};
use vstd::prelude::*;

verus! {

/// Why a table could not be processed.
#[derive(Clone, Copy, Debug, PartialEq, Eq, Structural)]
pub enum TableError {
    /// A line has no column at the place asked for.
    MissingColumn,
    /// A column that must hold a number holds something else.
    NotANumber,
}

// ---------------------------------------------------------------------------
// Lines
// ---------------------------------------------------------------------------

/// `line` without a carriage return at its end.
pub open spec fn without_cr(line: Seq<char>) -> Seq<char> {
    if line.len() > 0 && line.last() == '\r' {
        line.drop_last()
    } else {
        line
    }
}

/// The lines of a file's contents, as a buffered reader yields them: the
/// parts between line feeds, each without its line feed and without a
/// carriage return before it. What follows the last line feed is a line too,
/// unless it is empty.
pub open spec fn file_lines(contents: Seq<char>) -> Seq<Seq<char>> {
    let parts = pieces(contents, seq!['\n']);
    let n = parts.len() as int;
    Seq::new(
        (if n > 0 && parts[n - 1].len() == 0 {
            n - 1
        } else {
            n
        }) as nat,
        |i: int|
            if i < n - 1 {
                without_cr(parts[i])
            } else {
                parts[i]
            },
    )
}

/// The lines of `contents`.
pub fn lines(contents: &str) -> (out: Vec<String>)
    ensures
        texts(out@) == file_lines(contents@),
{
    proof {
        reveal_strlit("\n");
        assert("\n"@ =~= seq!['\n']);
        lemma_pieces_nonempty(contents@, seq!['\n'], 0);
    }
    let parts = split(contents, "\n");
    let ghost ps = texts(parts@);
    let n = parts.len();
    let mut out: Vec<String> = Vec::new();
    let mut i: usize = 0;
    while i < n
        invariant
            i <= n,
            n == parts.len(),
            n >= 1,
            ps == texts(parts@),
            ps == pieces(contents@, seq!['\n']),
            out@.len() == (if i == n && ps[n - 1].len() == 0 { n - 1 } else { i as int }),
            forall|k: int| 0 <= k < out@.len() ==> (#[trigger] out@[k])@ == file_lines(contents@)[k],
        decreases n - i,
    {
        let v = chars_of(parts[i].as_str());
        assert(ps[i as int] == parts@[i as int]@);
        if i + 1 < n {
            let end: usize = if v.len() > 0 && v[v.len() - 1] == '\r' {
                v.len() - 1
            } else {
                v.len()
            };
            let line = string_of_range(&v, 0, end);
            assert(line@ == without_cr(ps[i as int])) by {
                assert(v@.subrange(0, v@.len() as int) == v@);
                if v@.len() > 0 {
                    assert(v@.subrange(0, v@.len() - 1) == v@.drop_last());
                }
            }
            out.push(line);
        } else if v.len() > 0 {
            out.push(string_of(&v));
        }
        i = i + 1;
    }
    assert(texts(out@) =~= file_lines(contents@));
    out
}

/// The given lines, each followed by a line feed.
pub open spec fn with_newlines(lines: Seq<Seq<char>>) -> Seq<char>
    decreases lines.len(),
{
    if lines.len() == 0 {
        Seq::empty()
    } else {
        with_newlines(lines.drop_last()) + lines.last() + seq!['\n']
    }
}

/// Writes the lines one after the other, each followed by a line feed.
pub fn write_lines(lines: &Vec<String>) -> (out: String)
    ensures
        out@ == with_newlines(texts(lines@)),
{
    let mut out = String::new();
    let mut i: usize = 0;
    while i < lines.len()
        invariant
            i <= lines.len(),
            out@ == with_newlines(texts(lines@).take(i as int)),
        decreases lines.len() - i,
    {
        let line = chars_of(lines[i].as_str());
        proof {
            let upto = texts(lines@).take(i as int + 1);
            assert(upto.drop_last() == texts(lines@).take(i as int));
            assert(upto.last() == line@);
        }
        push_chars(&mut out, &line);
        out.push('\n');
        i = i + 1;
    }
    assert(texts(lines@).take(lines@.len() as int) == texts(lines@));
    out
}

/// The number of lines of `contents`.
pub fn word_count(contents: &str) -> (count: usize)
    ensures
        count == file_lines(contents@).len(),
{
    lines(contents).len()
}

// ---------------------------------------------------------------------------
// Tabs to spaces
// ---------------------------------------------------------------------------

/// `s` with every tab replaced by a space.
pub open spec fn tabs_as_spaces(s: Seq<char>) -> Seq<char> {
    Seq::new(
        s.len(),
        |i: int|
            if s[i] == '\t' {
                ' '
            } else {
                s[i]
            },
    )
}

/// Replaces every tab of `contents` by a space.
pub fn tab_2_space(contents: &str) -> (out: String)
    ensures
        out@ == tabs_as_spaces(contents@),
{
    let v = chars_of(contents);
    let mut r: Vec<char> = Vec::new();
    let mut i: usize = 0;
    while i < v.len()
        invariant
            i <= v.len(),
            r@.len() == i,
            forall|k: int| 0 <= k < i ==> r@[k] == tabs_as_spaces(v@)[k],
        decreases v.len() - i,
    {
        if v[i] == '\t' {
            r.push(' ');
        } else {
            r.push(v[i]);
        }
        i = i + 1;
    }
    assert(r@ =~= tabs_as_spaces(v@));
    string_of(&r)
}

// ---------------------------------------------------------------------------
// Columns
// ---------------------------------------------------------------------------

/// The columns of a line: its parts between tabs.
pub open spec fn columns(line: Seq<char>) -> Seq<Seq<char>> {
    pieces(line, seq!['\t'])
}

/// Column `num` of the line, counted from zero, where the line has one.
pub open spec fn column_of_line(line: Seq<char>, num: int) -> Option<Seq<char>> {
    if 0 <= num < columns(line).len() {
        Some(columns(line)[num])
    } else {
        None
    }
}

/// Column `num` of each of the first `n` lines; nothing where one of them
/// has no such column.
pub open spec fn column_values(lines: Seq<Seq<char>>, num: int, n: nat) -> Option<Seq<Seq<char>>>
    decreases n,
{
    if n == 0 {
        Some(Seq::empty())
    } else {
        match (column_values(lines, num, (n - 1) as nat), column_of_line(lines[n - 1], num)) {
            (Some(before), Some(value)) => Some(before.push(value)),
            _ => None,
        }
    }
}

/// Where a column is missing from some lines, it is missing from more of
/// them too.
pub proof fn lemma_column_values_none(lines: Seq<Seq<char>>, num: int, k: nat, n: nat)
    requires
        k <= n,
        column_values(lines, num, k) is None,
    ensures
        column_values(lines, num, n) is None,
    decreases n,
{
    if k < n {
        lemma_column_values_none(lines, num, k, (n - 1) as nat);
    }
}

/// Column `num` of one line.
pub fn nth_column(line: &str, num: usize) -> (r: Option<String>)
    ensures
        option_text(r) == column_of_line(line@, num as int),
{
    proof {
        reveal_strlit("\t");
        assert("\t"@ =~= seq!['\t']);
    }
    let cols = split(line, "\t");
    if num < cols.len() {
        assert(texts(cols@)[num as int] == cols@[num as int]@);
        Some(cols[num].clone())
    } else {
        None
    }
}

/// Column `num` of every line.
pub fn column_of_lines(lines: &Vec<String>, num: usize) -> (r: Option<Vec<String>>)
    ensures
        option_texts(r) == column_values(
            texts(lines@),
            num as int,
            lines@.len(),
        ),
{
    let ghost ls = texts(lines@);
    let mut out: Vec<String> = Vec::new();
    let mut i: usize = 0;
    while i < lines.len()
        invariant
            i <= lines.len(),
            ls == texts(lines@),
            column_values(ls, num as int, i as nat) == Some(texts(out@)),
        decreases lines.len() - i,
    {
        assert(ls[i as int] == lines@[i as int]@);
        match nth_column(lines[i].as_str(), num) {
            None => {
                proof {
                    assert(column_values(ls, num as int, (i + 1) as nat) is None);
                    lemma_column_values_none(ls, num as int, (i + 1) as nat, lines@.len());
                }
                return None;
            },
            Some(value) => {
                let ghost before = texts(out@);
                out.push(value);
                assert(texts(out@) =~= before.push(column_of_line(ls[i as int], num as int)->0));
            },
        }
        i = i + 1;
    }
    Some(out)
}

/// What `extract_column` returns for a file with these contents.
pub open spec fn extracted_column(contents: Seq<char>, num: int) -> Result<Seq<char>, TableError> {
    match column_values(file_lines(contents), num, file_lines(contents).len()) {
        Some(values) => Ok(with_newlines(values)),
        None => Err(TableError::MissingColumn),
    }
}

/// The view of a text that may have failed.
pub open spec fn table_text(r: Result<String, TableError>) -> Result<Seq<char>, TableError> {
    match r {
        Ok(s) => Ok(s@),
        Err(e) => Err(e),
    }
}

/// Column `num` (counted from zero) of every line, one value per line.
pub fn extract_column(contents: &str, num: usize) -> (r: Result<String, TableError>)
    ensures
        table_text(r) == extracted_column(contents@, num as int),
{
    let ls = lines(contents);
    match column_of_lines(&ls, num) {
        Some(values) => Ok(write_lines(&values)),
        None => Err(TableError::MissingColumn),
    }
}

/// The lines of two files put side by side with a tab between them, as far
/// as both files have lines.
pub open spec fn merged(a: Seq<Seq<char>>, b: Seq<Seq<char>>) -> Seq<Seq<char>> {
    Seq::new(
        if a.len() <= b.len() {
            a.len()
        } else {
            b.len()
        },
        |i: int| a[i] + seq!['\t'] + b[i],
    )
}

/// Puts the lines of two files side by side: line by line, the first file's
/// line, a tab, and the second file's line. The longer file's extra lines
/// are left out.
pub fn merge_files(col1_contents: &str, col2_contents: &str) -> (out: String)
    ensures
        out@ == with_newlines(merged(file_lines(col1_contents@), file_lines(col2_contents@))),
{
    let a = lines(col1_contents);
    let b = lines(col2_contents);
    let n: usize = if a.len() <= b.len() {
        a.len()
    } else {
        b.len()
    };
    let mut rows: Vec<String> = Vec::new();
    let mut i: usize = 0;
    while i < n
        invariant
            i <= n,
            n <= a.len(),
            n <= b.len(),
            rows@.len() == i,
            forall|k: int|
                0 <= k < i ==> (#[trigger] rows@[k])@ == a@[k]@ + seq!['\t'] + b@[k]@,
        decreases n - i,
    {
        let mut row = a[i].clone();
        row.push('\t');
        let right = chars_of(b[i].as_str());
        push_chars(&mut row, &right);
        assert(row@ =~= a@[i as int]@ + seq!['\t'] + b@[i as int]@);
        rows.push(row);
        i = i + 1;
    }
    assert(texts(rows@) =~= merged(texts(a@), texts(b@)));
    write_lines(&rows)
}

// ---------------------------------------------------------------------------
// Head, tail and splitting
// ---------------------------------------------------------------------------

/// Copies the lines `from..to`.
fn copy_lines(ls: &Vec<String>, from: usize, to: usize) -> (out: Vec<String>)
    requires
        from <= to <= ls.len(),
    ensures
        texts(out@) == texts(ls@).subrange(from as int, to as int),
{
    let mut out: Vec<String> = Vec::new();
    let mut i: usize = from;
    while i < to
        invariant
            from <= i <= to <= ls.len(),
            out@.len() == i - from,
            forall|k: int| 0 <= k < out@.len() ==> (#[trigger] out@[k])@ == ls@[from + k]@,
        decreases to - i,
    {
        out.push(ls[i].clone());
        i = i + 1;
    }
    assert(texts(out@) =~= texts(ls@).subrange(from as int, to as int));
    out
}

/// The first `lines` lines of the file, or all of them where it has fewer.
pub fn head(contents: &str, lines: usize) -> (out: String)
    ensures
        out@ == with_newlines(top(file_lines(contents@), lines as nat)),
{
    let ls = self::lines(contents);
    let n: usize = if lines <= ls.len() {
        lines
    } else {
        ls.len()
    };
    let first = copy_lines(&ls, 0, n);
    assert(texts(ls@).subrange(0, n as int) =~= top(texts(ls@), lines as nat));
    write_lines(&first)
}

/// The last `lines` lines of the file, which must have that many.
pub fn tail(contents: &str, lines: usize) -> (out: String)
    requires
        lines <= file_lines(contents@).len(),
    ensures
        out@ == with_newlines(
            file_lines(contents@).skip(file_lines(contents@).len() - lines),
        ),
{
    let ls = self::lines(contents);
    let end = copy_lines(&ls, ls.len() - lines, ls.len());
    assert(texts(ls@).subrange(ls@.len() - lines, ls@.len() as int) =~= texts(ls@).skip(
        ls@.len() - lines,
    ));
    write_lines(&end)
}

/// How many lines each part gets when `total` lines are split into `num`
/// parts: `total / num`, rounded up.
pub open spec fn part_size(total: nat, num: nat) -> nat {
    if num == 0 {
        0
    } else if total % num == 0 {
        total / num
    } else {
        total / num + 1
    }
}

/// The lines of part `i` when a file of these lines is split into parts of
/// `size` lines: the parts follow each other, and the last lines may leave
/// a part short or empty.
pub open spec fn part_lines(lines: Seq<Seq<char>>, size: nat, i: nat) -> Seq<Seq<char>> {
    let from = if i * size <= lines.len() {
        i * size
    } else {
        lines.len()
    };
    let to = if from + size <= lines.len() {
        from + size
    } else {
        lines.len()
    };
    lines.subrange(from as int, to as int)
}

/// Splits the file into `num` parts of equally many lines, the line count
/// divided by `num` and rounded up; the last part holds what is left. The
/// result holds the contents of the parts, in order.
pub fn split_files(contents: &str, num: usize) -> (parts: Vec<String>)
    ensures
        parts@.len() == num,
        forall|i: int|
            0 <= i < num ==> (#[trigger] parts@[i])@ == with_newlines(
                part_lines(
                    file_lines(contents@),
                    part_size(file_lines(contents@).len(), num as nat),
                    i as nat,
                ),
            ),
{
    let ls = lines(contents);
    let total = ls.len();
    let mut parts: Vec<String> = Vec::new();
    if num == 0 {
        return parts;
    }
    let size: usize = if total % num == 0 {
        total / num
    } else {
        assert(total as int / num as int <= total as int / 2) by (nonlinear_arith)
            requires
                num >= 2,
                total >= 0,
        ;
        total / num + 1
    };
    let mut from: usize = 0;
    let mut i: usize = 0;
    while i < num
        invariant
            i <= num,
            num > 0,
            total == ls.len(),
            size == part_size(total as nat, num as nat),
            from <= total,
            from == (if i * size <= total { i * size } else { total as int }),
            parts@.len() == i,
            forall|k: int|
                0 <= k < i ==> (#[trigger] parts@[k])@ == with_newlines(
                    part_lines(texts(ls@), size as nat, k as nat),
                ),
        decreases num - i,
    {
        let to: usize = if size <= total - from {
            from + size
        } else {
            total
        };
        let chunk = copy_lines(&ls, from, to);
        assert(texts(chunk@) == part_lines(texts(ls@), size as nat, i as nat));
        parts.push(write_lines(&chunk));
        proof {
            assert((i + 1) * size == i * size + size) by (nonlinear_arith);
        }
        from = to;
        i = i + 1;
    }
    parts
}

// ---------------------------------------------------------------------------
// Distinct values
// ---------------------------------------------------------------------------

/// What `count_uniq_words` returns for a file with these contents.
pub open spec fn distinct_count(contents: Seq<char>, col: int) -> Result<nat, TableError> {
    match column_values(file_lines(contents), col, file_lines(contents).len()) {
        Some(values) => Ok(values.to_set().len()),
        None => Err(TableError::MissingColumn),
    }
}

/// The number of different values in column `col` (counted from zero).
pub fn count_uniq_words(contents: &str, col: usize) -> (r: Result<usize, TableError>)
    ensures
        match r {
            Ok(n) => distinct_count(contents@, col as int) == Ok::<nat, TableError>(n as nat),
            Err(e) => distinct_count(contents@, col as int) == Err::<nat, TableError>(e),
        },
{
    let ls = lines(contents);
    match column_of_lines(&ls, col) {
        Some(values) => Ok(set_of(&values).len()),
        None => Err(TableError::MissingColumn),
    }
}

// ---------------------------------------------------------------------------
// Sorting by the third column
// ---------------------------------------------------------------------------

/// The number in the third column of a line.
pub open spec fn third_number(line: Seq<char>) -> Result<nat, TableError> {
    match column_of_line(line, 2) {
        None => Err(TableError::MissingColumn),
        Some(value) => match decimal_u32(value) {
            Some(n) => Ok(n as nat),
            None => Err(TableError::NotANumber),
        },
    }
}

/// What is wrong with the first of the first `n` lines whose third column
/// is missing or holds no number; nothing where all of them are in order.
pub open spec fn first_fault(lines: Seq<Seq<char>>, n: nat) -> Option<TableError>
    decreases n,
{
    if n == 0 {
        None
    } else {
        match first_fault(lines, (n - 1) as nat) {
            Some(e) => Some(e),
            None => match third_number(lines[n - 1]) {
                Err(e) => Some(e),
                Ok(_) => None,
            },
        }
    }
}

/// A fault among some lines is the fault among more of them too.
pub proof fn lemma_first_fault_stays(lines: Seq<Seq<char>>, k: nat, n: nat)
    requires
        k <= n,
        first_fault(lines, k) is Some,
    ensures
        first_fault(lines, n) == first_fault(lines, k),
    decreases n,
{
    if k < n {
        lemma_first_fault_stays(lines, k, (n - 1) as nat);
    }
}

/// Where there is no fault, every line has its number.
pub proof fn lemma_no_fault(lines: Seq<Seq<char>>, n: nat, j: int)
    requires
        first_fault(lines, n) is None,
        0 <= j < n,
    ensures
        third_number(lines[j]) is Ok,
    decreases n,
{
    if j < n - 1 {
        lemma_no_fault(lines, (n - 1) as nat, j);
    }
}

/// Whether `order` lists each different line once with its number, larger
/// numbers first and, among equal numbers, the later text first.
pub open spec fn is_number_ranking(order: Seq<(nat, Seq<char>)>, lines: Seq<Seq<char>>) -> bool {
    &&& ranked_in_order(order, Ties::Descending)
    &&& order.no_duplicates()
    &&& forall|p: (nat, Seq<char>)|
        order.contains(p) <==> lines.contains(p.1) && third_number(p.1) == Ok::<nat, TableError>(
            p.0,
        )
}

/// Reads the number in the third column of a line.
pub fn number_of(line: &str) -> (r: Result<usize, TableError>)
    ensures
        match r {
            Ok(n) => third_number(line@) == Ok::<nat, TableError>(n as nat),
            Err(e) => third_number(line@) == Err::<nat, TableError>(e),
        },
{
    match nth_column(line, 2) {
        None => Err(TableError::MissingColumn),
        Some(value) => match parse_u32(value.as_str()) {
            Some(n) => Ok(n as usize),
            None => Err(TableError::NotANumber),
        },
    }
}

/// The different lines of the file, sorted by the number in their third
/// column, largest first; lines with the same number come in descending
/// order of their text. A line that occurs more than once is listed once.
/// The first line without a number in its third column fails the whole.
pub fn sort_on_col3(contents: &str) -> (r: Result<String, TableError>)
    ensures
        match first_fault(file_lines(contents@), file_lines(contents@).len()) {
            Some(e) => r == Err::<String, TableError>(e),
            None => r is Ok && exists|order: Seq<(nat, Seq<char>)>|
                is_number_ranking(order, file_lines(contents@)) && r->Ok_0@ == with_newlines(
                    ranked_texts(order),
                ),
        },
{
    let ls = lines(contents);
    let ghost all = file_lines(contents@);
    let mut i: usize = 0;
    while i < ls.len()
        invariant
            i <= ls.len(),
            texts(ls@) == all,
            all == file_lines(contents@),
            first_fault(all, i as nat) is None,
        decreases ls.len() - i,
    {
        assert(all[i as int] == ls@[i as int]@);
        match number_of(ls[i].as_str()) {
            Err(e) => {
                proof {
                    assert(first_fault(all, (i + 1) as nat) == Some(e));
                    lemma_first_fault_stays(all, (i + 1) as nat, all.len());
                }
                return Err(e);
            },
            Ok(_) => {},
        }
        i = i + 1;
    }
    let distinct = set_of(&ls);
    let uniq = distinct.to_vec();
    proof {
        distinct.lemma_wf();
    }
    let ghost us = texts(uniq@);
    let mut items: Vec<Ranked> = Vec::new();
    let mut k: usize = 0;
    while k < uniq.len()
        invariant
            k <= uniq.len(),
            us == texts(uniq@),
            us.to_set() == all.to_set(),
            first_fault(all, all.len()) is None,
            items@.len() == k,
            forall|j: int|
                0 <= j < k ==> (#[trigger] items@[j]).text@ == us[j] && third_number(us[j]) == Ok::<
                    nat,
                    TableError,
                >(items@[j].count as nat),
        decreases uniq.len() - k,
    {
        assert(us[k as int] == uniq@[k as int]@);
        proof {
            assert(us.to_set().contains(us[k as int]));
            assert(all.contains(us[k as int]));
            let j = choose|j: int| 0 <= j < all.len() && all[j] == us[k as int];
            lemma_no_fault(all, all.len(), j);
        }
        match number_of(uniq[k].as_str()) {
            Ok(n) => {
                items.push(Ranked { count: n, text: uniq[k].clone() });
            },
            Err(_) => {
                assert(false);
            },
        }
        k = k + 1;
    }
    let ghost input = ranked_pairs(items@);
    let sorted = sort_ranked(items, Ties::Descending);
    let out = texts_of_ranked(&sorted);
    proof {
        let order = ranked_pairs(sorted@);
        lemma_same_members(input, order);
        assert(input.no_duplicates()) by {
            assert forall|a: int, b: int| 0 <= a < input.len() && 0 <= b < input.len() && a
                != b implies input[a] != input[b] by {
                assert(input[a].1 == us[a] && input[b].1 == us[b]);
            }
        }
        assert forall|p: (nat, Seq<char>)|
            order.contains(p) <==> all.contains(p.1) && third_number(p.1) == Ok::<nat, TableError>(
                p.0,
            ) by {
            if input.contains(p) {
                let j = choose|j: int| 0 <= j < input.len() && input[j] == p;
                assert(us.to_set().contains(us[j]));
            }
            if all.contains(p.1) && third_number(p.1) == Ok::<nat, TableError>(p.0) {
                assert(us.to_set().contains(p.1));
                let j = choose|j: int| 0 <= j < us.len() && us[j] == p.1;
                assert(input[j] == p);
            }
        }
        assert(is_number_ranking(order, all));
    }
    Ok(write_lines(&out))
}

// ---------------------------------------------------------------------------
// Sorting by frequency
// ---------------------------------------------------------------------------

/// The first column of each line.
pub open spec fn first_columns(lines: Seq<Seq<char>>) -> Seq<Seq<char>> {
    Seq::new(lines.len(), |i: int| columns(lines[i])[0])
}

/// Whether `order` lists each different name once with the number of its
/// occurrences, the more frequent first and, among equally frequent ones,
/// the later text first.
pub open spec fn is_frequency_ranking(order: Seq<(nat, Seq<char>)>, names: Seq<Seq<char>>) -> bool {
    &&& ranked_in_order(order, Ties::Descending)
    &&& order.no_duplicates()
    &&& forall|p: (nat, Seq<char>)|
        order.contains(p) <==> names.contains(p.1) && p.0 == occurrences(names, p.1)
}

/// The lines that show a ranking: the number, a space, and the text.
pub open spec fn frequency_lines(order: Seq<(nat, Seq<char>)>) -> Seq<Seq<char>> {
    Seq::new(order.len(), |i: int| decimal(order[i].0) + seq![' '] + order[i].1)
}

/// The lines that show the ranked items.
fn show_ranked(items: &Vec<Ranked>) -> (out: Vec<String>)
    ensures
        texts(out@) == frequency_lines(ranked_pairs(items@)),
{
    let mut out: Vec<String> = Vec::new();
    let mut i: usize = 0;
    while i < items.len()
        invariant
            i <= items.len(),
            out@.len() == i,
            forall|k: int|
                0 <= k < i ==> (#[trigger] out@[k])@ == decimal(items@[k].count as nat) + seq![' ']
                    + items@[k].text@,
        decreases items.len() - i,
    {
        let mut line = decimal_string(items[i].count);
        line.push(' ');
        let name = chars_of(items[i].text.as_str());
        push_chars(&mut line, &name);
        out.push(line);
        i = i + 1;
    }
    assert(texts(out@) =~= frequency_lines(ranked_pairs(items@)));
    out
}

/// The first column of every line.
pub fn first_column_of_lines(lines: &Vec<String>) -> (out: Vec<String>)
    ensures
        texts(out@) == first_columns(texts(lines@)),
{
    proof {
        reveal_strlit("\t");
        assert("\t"@ =~= seq!['\t']);
    }
    let mut out: Vec<String> = Vec::new();
    let mut i: usize = 0;
    while i < lines.len()
        invariant
            i <= lines.len(),
            "\t"@ == seq!['\t'],
            out@.len() == i,
            forall|k: int| 0 <= k < i ==> (#[trigger] out@[k])@ == columns(lines@[k]@)[0],
        decreases lines.len() - i,
    {
        let cols = split(lines[i].as_str(), "\t");
        proof {
            lemma_pieces_nonempty(lines@[i as int]@, seq!['\t'], 0);
            assert(texts(cols@)[0] == cols@[0]@);
        }
        out.push(cols[0].clone());
        i = i + 1;
    }
    assert(texts(out@) =~= first_columns(texts(lines@)));
    out
}

/// How often each value of the first column occurs: one line per value,
/// the number of its occurrences, a space, and the value. The most frequent
/// value comes first; equally frequent values come in descending order of
/// their text.
pub fn sort_on_frequency(contents: &str) -> (out: String)
    ensures
        exists|order: Seq<(nat, Seq<char>)>|
            is_frequency_ranking(order, first_columns(file_lines(contents@))) && out@
                == with_newlines(frequency_lines(order)),
{
    let ls = lines(contents);
    let names = first_column_of_lines(&ls);
    let counts = count_texts(&names);
    let items = ranked_of(&counts);
    let ghost input = ranked_pairs(items@);
    let sorted = sort_ranked(items, Ties::Descending);
    let shown = show_ranked(&sorted);
    proof {
        let order = ranked_pairs(sorted@);
        lemma_same_members(input, order);
        assert(is_frequency_ranking(order, first_columns(file_lines(contents@))));
    }
    write_lines(&shown)
}

} // verus!

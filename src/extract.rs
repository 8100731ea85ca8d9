use crate::record::{
    entries_valid, has_code, record_of, scores_valid, DemocracyQualities, Dataset,
};
use crate::regime::{regime_of_label, RegimeType};
use crate::score::{score_of, score_of_chars, MAX_SCORE};
use crate::text::{
    chars_of, drop_cr_of, find_at_or_after, lemma_find_from_bounds, lines_from, lines_of,
    same_chars, slice, split, split_of, split_once, split_once_of, string_of, strip_prefix,
    strip_prefix_of, strip_suffix, strip_suffix_of, trim_suffix, trim_suffix_of,
};
use vstd::prelude::*;

verus! {

/// Where a block stands: which of its lines comes next.
#[derive(Debug, Clone, Copy, PartialEq, Eq, Structural)]
pub enum Stage {
    /// The decorative first line.
    Decoration,
    /// The line that may hold the country code after the rank column.
    CodeOrInline,
    /// The line that holds the country code.
    Code,
    /// The line with the regime type and the overall score.
    RegimeAndOverall,
    /// The line with the five sub-scores.
    SubScores,
    /// All lines read; only a separator may follow.
    Complete,
}

/// The kinds of malformed input.
#[derive(Debug, Clone, Copy, PartialEq, Eq, Structural)]
pub enum ErrorKind {
    /// A score is not one or two runs of digits joined by a `.`, or exceeds 10.00.
    MalformedScore,
    /// The regime type is not one of the four labels.
    UnknownRegimeLabel,
    /// A marker of the regime line is missing, a block closed without a regime
    /// type or without exactly six scores, or a block has too many lines.
    MalformedEntry,
    /// The input ended inside a block.
    UnterminatedTable,
    /// A country code line lacks its bracket prefix or suffix.
    MissingBracketMarker,
    /// Two blocks carry the same country code.
    DuplicateCode,
}

/// The part of a block that an error is about.
#[derive(Debug, Clone, Copy, PartialEq, Eq, Structural)]
pub enum Field {
    Code,
    RegimeType,
    OverallScore,
    SubScores,
    Layout,
}

/// Why a table could not be read: what is wrong, in which part of the block,
/// on which line (counted from 1), and the code of the block where it is
/// known (empty before it).
#[derive(Debug, Clone, PartialEq, Eq)]
pub struct ExtractError {
    pub kind: ErrorKind,
    pub field: Field,
    pub line: usize,
    pub code: String,
}

/// The model of an `ExtractError`.
pub struct Failure {
    pub kind: ErrorKind,
    pub field: Field,
    pub line: int,
    pub code: Seq<char>,
}

impl View for ExtractError {
    type V = Failure;

    open spec fn view(&self) -> Failure {
        Failure { kind: self.kind, field: self.field, line: self.line as int, code: self.code@ }
    }
}

/// What has been read of the current block.
pub struct Block {
    pub stage: Stage,
    pub code: Option<Seq<char>>,
    pub regime: Option<RegimeType>,
    pub scores: Seq<u16>,
}

/// The state of a scan: the open block and the entries of the closed ones.
pub struct Progress {
    pub block: Block,
    pub entries: Seq<(Seq<char>, DemocracyQualities)>,
}

pub open spec fn fresh_block() -> Block {
    Block { stage: Stage::Decoration, code: None, regime: None, scores: Seq::empty() }
}

pub open spec fn initial_progress() -> Progress {
    Progress { block: fresh_block(), entries: Seq::empty() }
}

/// The code of a block, empty where none has been read.
pub open spec fn code_or_empty(b: Block) -> Seq<char> {
    match b.code {
        Some(c) => c,
        None => Seq::empty(),
    }
}

pub open spec fn failure(kind: ErrorKind, field: Field, line: int, b: Block) -> Failure {
    Failure { kind, field, line, code: code_or_empty(b) }
}

pub open spec fn row_marker() -> Seq<char> {
    "|"@
}

pub open spec fn row_separator() -> Seq<char> {
    "-"@
}

pub open spec fn table_end() -> Seq<char> {
    "}"@
}

/// What precedes a country code given after the rank column.
pub open spec fn inline_code_marker() -> Seq<char> {
    "|| style=\"text-align:left;\" |{{"@
}

/// What precedes a country code on a line of its own.
pub open spec fn code_prefix() -> Seq<char> {
    " style=\"text-align:left;\" |{{"@
}

pub open spec fn closing_braces() -> Seq<char> {
    "}}"@
}

pub open spec fn column_separator() -> Seq<char> {
    "||"@
}

pub open spec fn overall_open() -> Seq<char> {
    "|'''"@
}

pub open spec fn overall_close() -> Seq<char> {
    "'''"@
}

/// The scores of the sub-score cells, each without a trailing `}}`; `None`
/// where one of them is no score.
pub open spec fn parse_scores(cells: Seq<Seq<char>>) -> Option<Seq<u16>>
    decreases cells.len(),
{
    if cells.len() == 0 {
        Some(Seq::empty())
    } else {
        match parse_scores(cells.drop_last()) {
            None => None,
            Some(vs) => match score_of(trim_suffix(cells.last(), closing_braces())) {
                None => None,
                Some(v) => Some(vs.push(v)),
            },
        }
    }
}

/// Reads a content line `s` (without its leading `|`), line number `line`,
/// into the open block `b`.
pub open spec fn read_line(b: Block, s: Seq<char>, line: int) -> Result<Block, Failure> {
    match b.stage {
        Stage::Decoration => Ok(Block { stage: Stage::CodeOrInline, ..b }),
        Stage::CodeOrInline => match split_once(s, inline_code_marker()) {
            None => Ok(Block { stage: Stage::Code, ..b }),
            Some((_, rest)) => match strip_suffix(rest, closing_braces()) {
                None => Err(failure(ErrorKind::MissingBracketMarker, Field::Code, line, b)),
                Some(code) => Ok(Block { stage: Stage::RegimeAndOverall, code: Some(code), ..b }),
            },
        },
        Stage::Code => match strip_prefix(s, code_prefix()) {
            None => Err(failure(ErrorKind::MissingBracketMarker, Field::Code, line, b)),
            Some(rest) => match strip_suffix(rest, closing_braces()) {
                None => Err(failure(ErrorKind::MissingBracketMarker, Field::Code, line, b)),
                Some(code) => Ok(Block { stage: Stage::RegimeAndOverall, code: Some(code), ..b }),
            },
        },
        Stage::RegimeAndOverall => match split_once(s, column_separator()) {
            None => Err(failure(ErrorKind::MalformedEntry, Field::RegimeType, line, b)),
            Some((name, rest)) => match regime_of_label(name) {
                None => Err(failure(ErrorKind::UnknownRegimeLabel, Field::RegimeType, line, b)),
                Some(regime) => match split_once(rest, overall_open()) {
                    None => Err(failure(ErrorKind::MalformedEntry, Field::OverallScore, line, b)),
                    Some((_, cell)) => match strip_suffix(
                        trim_suffix(cell, closing_braces()),
                        overall_close(),
                    ) {
                        None => Err(
                            failure(ErrorKind::MalformedEntry, Field::OverallScore, line, b),
                        ),
                        Some(t) => match score_of(t) {
                            None => Err(
                                failure(ErrorKind::MalformedScore, Field::OverallScore, line, b),
                            ),
                            Some(v) => Ok(
                                Block {
                                    stage: Stage::SubScores,
                                    regime: Some(regime),
                                    scores: b.scores.push(v),
                                    ..b
                                },
                            ),
                        },
                    },
                },
            },
        },
        Stage::SubScores => match parse_scores(split(s, column_separator()).drop_first()) {
            None => Err(failure(ErrorKind::MalformedScore, Field::SubScores, line, b)),
            Some(vs) => Ok(Block { stage: Stage::Complete, scores: b.scores + vs, ..b }),
        },
        Stage::Complete => Err(failure(ErrorKind::MalformedEntry, Field::Layout, line, b)),
    }
}

/// Closes the open block at line `line`: a block with a code becomes an
/// entry; one without a code is dropped.
pub open spec fn close_block(p: Progress, line: int) -> Result<Progress, Failure> {
    match p.block.code {
        None => Ok(Progress { block: fresh_block(), entries: p.entries }),
        Some(code) => match p.block.regime {
            None => Err(failure(ErrorKind::MalformedEntry, Field::RegimeType, line, p.block)),
            Some(regime) => if p.block.scores.len() != 6 {
                Err(failure(ErrorKind::MalformedEntry, Field::SubScores, line, p.block))
            } else if has_code(p.entries, code) {
                Err(failure(ErrorKind::DuplicateCode, Field::Code, line, p.block))
            } else {
                Ok(
                    Progress {
                        block: fresh_block(),
                        entries: p.entries.push((code, record_of(regime, p.block.scores))),
                    },
                )
            },
        },
    }
}

/// Whether a line closes the open block: a line that does not start with
/// `|`, or that is `|-` or `|}`.
pub open spec fn is_separator(l: Seq<char>) -> bool {
    match strip_prefix(l, row_marker()) {
        None => true,
        Some(rest) => rest == row_separator() || rest == table_end(),
    }
}

/// One line of the table, line number `line`.
pub open spec fn step(p: Progress, l: Seq<char>, line: int) -> Result<Progress, Failure> {
    if is_separator(l) {
        close_block(p, line)
    } else {
        match read_line(p.block, l.subrange(1, l.len() as int), line) {
            Err(f) => Err(f),
            Ok(b) => Ok(Progress { block: b, entries: p.entries }),
        }
    }
}

/// The lines `ls`, the first of them numbered `line`, read from `p` on.
pub open spec fn process(p: Progress, ls: Seq<Seq<char>>, line: int) -> Result<Progress, Failure>
    decreases ls.len(),
{
    if ls.len() == 0 {
        Ok(p)
    } else {
        match step(p, ls[0], line) {
            Err(f) => Err(f),
            Ok(q) => process(q, ls.drop_first(), line + 1),
        }
    }
}

/// The entries of the table `t`, in the order in which its blocks close, or
/// the first failure. Input that ends inside a block fails.
pub open spec fn extraction(t: Seq<char>) -> Result<Seq<(Seq<char>, DemocracyQualities)>, Failure> {
    let ls = lines_of(t);
    match process(initial_progress(), ls, 1) {
        Err(f) => Err(f),
        Ok(p) => match p.block.code {
            Some(c) => Err(
                Failure {
                    kind: ErrorKind::UnterminatedTable,
                    field: Field::Code,
                    line: ls.len() as int,
                    code: c,
                },
            ),
            None => Ok(p.entries),
        },
    }
}

/// The markers of the table layout, as characters.
struct Markers {
    row: Vec<char>,
    separator: Vec<char>,
    end: Vec<char>,
    inline_code: Vec<char>,
    code_prefix: Vec<char>,
    braces: Vec<char>,
    column: Vec<char>,
    open: Vec<char>,
    close: Vec<char>,
}

impl Markers {
    spec fn ok(&self) -> bool {
        &&& self.row@ == row_marker()
        &&& self.separator@ == row_separator()
        &&& self.end@ == table_end()
        &&& self.inline_code@ == inline_code_marker()
        &&& self.code_prefix@ == code_prefix()
        &&& self.braces@ == closing_braces()
        &&& self.column@ == column_separator()
        &&& self.open@ == overall_open()
        &&& self.close@ == overall_close()
        &&& self.row@.len() == 1
        &&& self.inline_code@.len() > 0
        &&& self.column@.len() > 0
        &&& self.open@.len() > 0
    }

    fn new() -> (m: Markers)
        ensures
            m.ok(),
    {
        proof {
            reveal_strlit("|");
            reveal_strlit("|| style=\"text-align:left;\" |{{");
            reveal_strlit("||");
            reveal_strlit("|'''");
        }
        Markers {
            row: chars_of("|"),
            separator: chars_of("-"),
            end: chars_of("}"),
            inline_code: chars_of("|| style=\"text-align:left;\" |{{"),
            code_prefix: chars_of(" style=\"text-align:left;\" |{{"),
            braces: chars_of("}}"),
            column: chars_of("||"),
            open: chars_of("|'''"),
            close: chars_of("'''"),
        }
    }
}

/// The state of a scan over the lines of a table.
struct Scanner {
    stage: Stage,
    code: Option<Vec<char>>,
    regime: Option<RegimeType>,
    scores: Vec<u16>,
    entries: Vec<(String, DemocracyQualities)>,
}

spec fn entries_view(v: Seq<(String, DemocracyQualities)>) -> Seq<(Seq<char>, DemocracyQualities)> {
    v.map_values(|e: (String, DemocracyQualities)| (e.0@, e.1))
}

spec fn code_view(c: Option<Vec<char>>) -> Option<Seq<char>> {
    match c {
        Some(v) => Some(v@),
        None => None,
    }
}

impl Scanner {
    spec fn block(&self) -> Block {
        Block {
            stage: self.stage,
            code: code_view(self.code),
            regime: self.regime,
            scores: self.scores@,
        }
    }

    spec fn progress(&self) -> Progress {
        Progress { block: self.block(), entries: entries_view(self.entries@) }
    }
}

fn error_at(kind: ErrorKind, field: Field, line: usize, code: &Option<Vec<char>>) -> (e: ExtractError)
    ensures
        e@ == (Failure {
            kind,
            field,
            line: line as int,
            code: match code_view(*code) {
                Some(c) => c,
                None => Seq::empty(),
            },
        }),
{
    let code = match code {
        Some(c) => string_of(c),
        None => String::new(),
    };
    ExtractError { kind, field, line, code }
}

fn regime_of_chars(name: &Vec<char>) -> (r: Option<RegimeType>)
    ensures
        r == regime_of_label(name@),
{
    let full = RegimeType::FullDemocracy;
    let flawed = RegimeType::FlawedDemocracy;
    let hybrid = RegimeType::HybridRegime;
    let authoritarian = RegimeType::Authoritarian;
    if same_chars(name, &chars_of(full.as_str())) {
        Some(full)
    } else if same_chars(name, &chars_of(flawed.as_str())) {
        Some(flawed)
    } else if same_chars(name, &chars_of(hybrid.as_str())) {
        Some(hybrid)
    } else if same_chars(name, &chars_of(authoritarian.as_str())) {
        Some(authoritarian)
    } else {
        None
    }
}

/// The scores of the cells after the first, as `parse_scores` reads them.
fn parse_cells(cells: &Vec<Vec<char>>, m: &Markers) -> (r: Option<Vec<u16>>)
    requires
        m.ok(),
        cells.len() > 0,
    ensures
        match r {
            Some(vs) => parse_scores(cells@.map_values(|v: Vec<char>| v@).drop_first()) == Some(
                vs@,
            ),
            None => parse_scores(cells@.map_values(|v: Vec<char>| v@).drop_first()) is None,
        },
{
    let ghost all = cells@.map_values(|v: Vec<char>| v@).drop_first();
    let mut vs: Vec<u16> = Vec::new();
    let mut i: usize = 1;
    while i < cells.len()
        invariant
            1 <= i <= cells.len(),
            m.ok(),
            all == cells@.map_values(|v: Vec<char>| v@).drop_first(),
            parse_scores(all.subrange(0, i - 1)) == Some(vs@),
        decreases cells.len() - i,
    {
        let ghost prefix = all.subrange(0, i as int);
        assert(prefix.drop_last() =~= all.subrange(0, i - 1));
        assert(prefix.last() == cells@[i as int]@);
        let cell = trim_suffix_of(&cells[i], &m.braces);
        match score_of_chars(&cell) {
            Some(v) => {
                vs.push(v);
            },
            None => {
                proof {
                    lemma_parse_scores_prefix_none(all, i as int);
                }
                return None;
            },
        }
        i += 1;
    }
    assert(all.subrange(0, cells.len() - 1) =~= all);
    Some(vs)
}

proof fn lemma_parse_scores_prefix_none(cells: Seq<Seq<char>>, n: int)
    requires
        0 <= n <= cells.len(),
        parse_scores(cells.subrange(0, n)) is None,
    ensures
        parse_scores(cells) is None,
    decreases cells.len() - n,
{
    if n < cells.len() {
        assert(cells.subrange(0, n + 1).drop_last() =~= cells.subrange(0, n));
        lemma_parse_scores_prefix_none(cells, n + 1);
    } else {
        assert(cells.subrange(0, n) =~= cells);
    }
}

fn read_line_exec(sc: &mut Scanner, s: &Vec<char>, line: usize, m: &Markers) -> (r: Result<
    (),
    ExtractError,
>)
    requires
        m.ok(),
    ensures
        match read_line(old(sc).block(), s@, line as int) {
            Ok(b) => r is Ok && final(sc).block() == b && final(sc).entries == old(sc).entries,
            Err(f) => r matches Err(e) && e@ == f,
        },
{
    match sc.stage {
        Stage::Decoration => {
            sc.stage = Stage::CodeOrInline;
            Ok(())
        },
        Stage::CodeOrInline => match split_once_of(s, &m.inline_code) {
            None => {
                sc.stage = Stage::Code;
                Ok(())
            },
            Some((_, rest)) => match strip_suffix_of(&rest, &m.braces) {
                None => Err(error_at(ErrorKind::MissingBracketMarker, Field::Code, line, &sc.code)),
                Some(code) => {
                    sc.code = Some(code);
                    sc.stage = Stage::RegimeAndOverall;
                    Ok(())
                },
            },
        },
        Stage::Code => match strip_prefix_of(s, &m.code_prefix) {
            None => Err(error_at(ErrorKind::MissingBracketMarker, Field::Code, line, &sc.code)),
            Some(rest) => match strip_suffix_of(&rest, &m.braces) {
                None => Err(error_at(ErrorKind::MissingBracketMarker, Field::Code, line, &sc.code)),
                Some(code) => {
                    sc.code = Some(code);
                    sc.stage = Stage::RegimeAndOverall;
                    Ok(())
                },
            },
        },
        Stage::RegimeAndOverall => match split_once_of(s, &m.column) {
            None => Err(error_at(ErrorKind::MalformedEntry, Field::RegimeType, line, &sc.code)),
            Some((name, rest)) => match regime_of_chars(&name) {
                None => Err(
                    error_at(ErrorKind::UnknownRegimeLabel, Field::RegimeType, line, &sc.code),
                ),
                Some(regime) => match split_once_of(&rest, &m.open) {
                    None => Err(
                        error_at(ErrorKind::MalformedEntry, Field::OverallScore, line, &sc.code),
                    ),
                    Some((_, cell)) => {
                        let trimmed = trim_suffix_of(&cell, &m.braces);
                        match strip_suffix_of(&trimmed, &m.close) {
                            None => Err(
                                error_at(
                                    ErrorKind::MalformedEntry,
                                    Field::OverallScore,
                                    line,
                                    &sc.code,
                                ),
                            ),
                            Some(t) => match score_of_chars(&t) {
                                None => Err(
                                    error_at(
                                        ErrorKind::MalformedScore,
                                        Field::OverallScore,
                                        line,
                                        &sc.code,
                                    ),
                                ),
                                Some(v) => {
                                    sc.scores.push(v);
                                    sc.regime = Some(regime);
                                    sc.stage = Stage::SubScores;
                                    Ok(())
                                },
                            },
                        }
                    },
                },
            },
        },
        Stage::SubScores => {
            let cells = split_of(s, &m.column);
            proof {
                lemma_split_nonempty(s@, m.column@);
            }
            match parse_cells(&cells, m) {
                None => Err(error_at(ErrorKind::MalformedScore, Field::SubScores, line, &sc.code)),
                Some(vs) => {
                    let ghost before = sc.scores@;
                    let mut k: usize = 0;
                    while k < vs.len()
                        invariant
                            k <= vs.len(),
                            sc.scores@ == before + vs@.subrange(0, k as int),
                            sc.stage == old(sc).stage,
                            sc.code == old(sc).code,
                            sc.regime == old(sc).regime,
                            sc.entries == old(sc).entries,
                            before == old(sc).scores@,
                        decreases vs.len() - k,
                    {
                        sc.scores.push(vs[k]);
                        assert(vs@.subrange(0, k + 1) =~= vs@.subrange(0, k as int).push(
                            vs@[k as int],
                        ));
                        k += 1;
                    }
                    assert(vs@.subrange(0, vs.len() as int) =~= vs@);
                    sc.stage = Stage::Complete;
                    Ok(())
                },
            }
        },
        Stage::Complete => Err(error_at(ErrorKind::MalformedEntry, Field::Layout, line, &sc.code)),
    }
}

proof fn lemma_split_nonempty(s: Seq<char>, p: Seq<char>)
    requires
        p.len() > 0,
    ensures
        split(s, p).len() > 0,
{
    lemma_find_from_bounds(s, p, 0);
}

fn close_exec(sc: &mut Scanner, line: usize) -> (r: Result<(), ExtractError>)
    ensures
        match close_block(old(sc).progress(), line as int) {
            Ok(p) => r is Ok && final(sc).progress() == p,
            Err(f) => r matches Err(e) && e@ == f,
        },
{
    let code = match &sc.code {
        None => {
            sc.stage = Stage::Decoration;
            sc.regime = None;
            sc.scores = Vec::new();
            return Ok(());
        },
        Some(c) => string_of(c),
    };
    let regime = match sc.regime {
        None => {
            return Err(error_at(ErrorKind::MalformedEntry, Field::RegimeType, line, &sc.code));
        },
        Some(regime) => regime,
    };
    if sc.scores.len() != 6 {
        return Err(error_at(ErrorKind::MalformedEntry, Field::SubScores, line, &sc.code));
    }
    let ghost entries = entries_view(sc.entries@);
    let mut i: usize = 0;
    while i < sc.entries.len()
        invariant
            i <= sc.entries.len(),
            *sc == *old(sc),
            sc.regime == Some(regime),
            sc.scores.len() == 6,
            code_view(sc.code) == Some(code@),
            entries == entries_view(sc.entries@),
            forall|k: int| 0 <= k < i ==> (#[trigger] entries[k]).0 != code@,
        decreases sc.entries.len() - i,
    {
        if sc.entries[i].0 == code {
            assert(entries[i as int].0 == code@);
            assert(has_code(entries, code@));
            return Err(error_at(ErrorKind::DuplicateCode, Field::Code, line, &sc.code));
        }
        assert(entries[i as int].0 != code@);
        i += 1;
    }
    let record = DemocracyQualities {
        overall_score: sc.scores[0],
        regime_type: regime,
        electoral_process_and_pluralism: sc.scores[1],
        functioning_of_government: sc.scores[2],
        political_participation: sc.scores[3],
        political_culture: sc.scores[4],
        civil_liberties: sc.scores[5],
    };
    assert(record == record_of(regime, sc.scores@));
    let ghost code_chars = code@;
    sc.entries.push((code, record));
    assert(entries_view(sc.entries@) =~= entries.push((code_chars, record)));
    sc.stage = Stage::Decoration;
    sc.code = None;
    sc.regime = None;
    sc.scores = Vec::new();
    Ok(())
}

fn step_exec(sc: &mut Scanner, l: &Vec<char>, line: usize, m: &Markers) -> (r: Result<
    (),
    ExtractError,
>)
    requires
        m.ok(),
    ensures
        match step(old(sc).progress(), l@, line as int) {
            Ok(p) => r is Ok && final(sc).progress() == p,
            Err(f) => r matches Err(e) && e@ == f,
        },
{
    let separator = match strip_prefix_of(l, &m.row) {
        None => true,
        Some(rest) => same_chars(&rest, &m.separator) || same_chars(&rest, &m.end),
    };
    if separator {
        close_exec(sc, line)
    } else {
        let rest = slice(l, 1, l.len());
        read_line_exec(sc, &rest, line, m)
    }
}

/// The open block holds only valid scores, and the entries are valid.
pub open spec fn progress_valid(p: Progress) -> bool {
    &&& entries_valid(p.entries)
    &&& forall|i: int| 0 <= i < p.block.scores.len() ==> #[trigger] p.block.scores[i] <= MAX_SCORE
}

proof fn lemma_parse_scores_valid(cells: Seq<Seq<char>>)
    ensures
        parse_scores(cells) matches Some(vs) ==> vs.len() == cells.len() && forall|i: int|
            0 <= i < vs.len() ==> #[trigger] vs[i] <= MAX_SCORE,
    decreases cells.len(),
{
    if cells.len() > 0 {
        lemma_parse_scores_valid(cells.drop_last());
    }
}

proof fn lemma_step_valid(p: Progress, l: Seq<char>, line: int)
    requires
        progress_valid(p),
    ensures
        step(p, l, line) matches Ok(q) ==> progress_valid(q),
{
    let s = l.subrange(1, l.len() as int);
    if p.block.stage == Stage::SubScores {
        lemma_parse_scores_valid(split(s, column_separator()).drop_first());
    }
    if let Ok(q) = step(p, l, line) {
        if is_separator(l) && p.block.code is Some {
            let code = p.block.code->Some_0;
            let e = q.entries;
            assert(e.last().1 == record_of(p.block.regime->Some_0, p.block.scores));
            assert forall|i: int, j: int|
                0 <= i < e.len() && 0 <= j < e.len() && i != j implies (#[trigger] e[i]).0
                != (#[trigger] e[j]).0 by {
                if i == e.len() - 1 {
                    assert(p.entries[j] == e[j]);
                } else if j == e.len() - 1 {
                    assert(p.entries[i] == e[i]);
                } else {
                    assert(p.entries[i] == e[i] && p.entries[j] == e[j]);
                }
            }
            assert forall|i: int| 0 <= i < e.len() implies scores_valid(#[trigger] e[i].1) by {
                if i < e.len() - 1 {
                    assert(p.entries[i] == e[i]);
                } else {
                    assert(p.block.scores[0] <= MAX_SCORE);
                    assert(p.block.scores[1] <= MAX_SCORE);
                    assert(p.block.scores[2] <= MAX_SCORE);
                    assert(p.block.scores[3] <= MAX_SCORE);
                    assert(p.block.scores[4] <= MAX_SCORE);
                    assert(p.block.scores[5] <= MAX_SCORE);
                }
            }
        }
    }
}

proof fn lemma_process_valid(p: Progress, ls: Seq<Seq<char>>, line: int)
    requires
        progress_valid(p),
    ensures
        process(p, ls, line) matches Ok(q) ==> progress_valid(q),
    decreases ls.len(),
{
    if ls.len() > 0 {
        lemma_step_valid(p, ls[0], line);
        if let Ok(q) = step(p, ls[0], line) {
            lemma_process_valid(q, ls.drop_first(), line + 1);
        }
    }
}

/// Every successful extraction gives entries with unique codes and valid scores.
pub proof fn lemma_extraction_valid(t: Seq<char>)
    ensures
        extraction(t) matches Ok(es) ==> entries_valid(es),
{
    lemma_process_valid(initial_progress(), lines_of(t), 1);
}

/// Reads the wiki-markup table `text` into its records, or reports the first
/// malformed line. Blocks become entries in the order in which they close;
/// lines outside the table's rows (the header, the table's opening line) are
/// separators. Input that ends inside a block fails with `UnterminatedTable`.
pub fn extract(text: &str) -> (r: Result<Dataset, ExtractError>)
    ensures
        match extraction(text@) {
            Ok(es) => r matches Ok(d) && d@ == es && d.wf(),
            Err(f) => r matches Err(e) && e@ == f,
        },
        text@.len() == 0 ==> (r matches Ok(d) && d@.len() == 0),
{
    let t = chars_of(text);
    let m = Markers::new();
    let newline = vec!['\n'];
    assert(newline@ =~= seq!['\n']);
    let mut sc = Scanner {
        stage: Stage::Decoration,
        code: None,
        regime: None,
        scores: Vec::new(),
        entries: Vec::new(),
    };
    assert(sc.progress().entries =~= initial_progress().entries);
    assert(sc.progress().block.scores =~= initial_progress().block.scores);
    let ghost all = lines_of(t@);
    let mut pos: usize = 0;
    let mut done: usize = 0;
    while pos < t.len()
        invariant
            pos <= t.len(),
            done <= pos,
            t@ == text@,
            m.ok(),
            newline@ == seq!['\n'],
            all == lines_of(t@),
            process(initial_progress(), all, 1) == process(
                sc.progress(),
                lines_from(t@, pos as int),
                done + 1,
            ),
            all.len() == done + lines_from(t@, pos as int).len(),
        decreases t.len() - pos,
    {
        proof {
            lemma_find_from_bounds(t@, newline@, pos as int);
        }
        let (l, next) = match find_at_or_after(&t, &newline, pos) {
            Some(j) => (drop_cr_of(slice(&t, pos, j)), j + 1),
            None => (slice(&t, pos, t.len()), t.len()),
        };
        let ghost rest = lines_from(t@, pos as int);
        assert(rest[0] == l@);
        assert(rest.drop_first() =~= lines_from(t@, next as int));
        assert(rest.len() > 0);
        let ghost before = sc.progress();
        let line = done + 1;
        match step_exec(&mut sc, &l, line, &m) {
            Err(e) => {
                assert(process(before, rest, line as int) == Err::<Progress, Failure>(e@));
                return Err(e);
            },
            Ok(()) => {},
        }
        pos = next;
        done = line;
    }
    assert(lines_from(t@, pos as int).len() == 0);
    proof {
        lemma_extraction_valid(t@);
    }
    match &sc.code {
        Some(c) => Err(error_at(ErrorKind::UnterminatedTable, Field::Code, done, &sc.code)),
        None => {
            let d = Dataset::from_entries(sc.entries);
            Ok(d)
        },
    }
}

/// A block that closes without a regime type fails with `MalformedEntry`
/// naming the regime type; no default regime is filled in.
pub proof fn lemma_block_without_regime_fails(p: Progress, line: int)
    requires
        p.block.code is Some,
        p.block.regime is None,
    ensures
        close_block(p, line) == Err::<Progress, Failure>(
            failure(ErrorKind::MalformedEntry, Field::RegimeType, line, p.block),
        ),
{
}

/// A table whose last block is never closed by a separator fails with
/// `UnterminatedTable`, naming that block's code.
pub proof fn lemma_unclosed_block_fails(t: Seq<char>)
    requires
        process(initial_progress(), lines_of(t), 1) matches Ok(p) && p.block.code is Some,
    ensures
        extraction(t) matches Err(f) && f.kind == ErrorKind::UnterminatedTable && Some(f.code)
            == process(initial_progress(), lines_of(t), 1)->Ok_0.block.code,
{
}

/// Empty input gives no entries and no error.
pub proof fn lemma_empty_input(t: Seq<char>)
    requires
        t.len() == 0,
    ensures
        extraction(t) == Ok::<Seq<(Seq<char>, DemocracyQualities)>, Failure>(Seq::empty()),
{
}

} // verus!

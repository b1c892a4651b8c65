//! Reading findings out of the tool's raw lines, and the whole pipeline from
//! raw lines to the finished report.

use vstd::prelude::*;

use crate::canon::{all_wf, canonical, clean_errors_vector, is_canonically_ordered, no_adjacent_duplicates};
use crate::diagnostic::{level_named, ErrorLevel, LineError};
use crate::ignore::{listing_entries, marked, verify_ignore};
use crate::report::{has_findings, has_unsuppressed, render_report, report_text};
use crate::text::{has_prefix, number_of, occurs_at_exec, parse_number, views};

verus! {

/// The shape of a finding in the tool's output: file, optional line and
/// column, a severity keyword closed by `]`, a description, and a rule code
/// in parentheses.
pub const LINE_PATTERN: &'static str =
    "(?m)^([^:]+):?([0-9]*):?([0-9]*):.*(Minor|Major|Info|Fatal)] (.*?) \\(([A-Z]-[A-Z][0-9]).*$";

/// The groups of the first match of `pattern` in `text`, group 0 being the
/// whole match; nothing when the pattern does not compile or does not match.
pub uninterp spec fn captures_of(pattern: Seq<char>, text: Seq<char>) -> Option<Seq<Seq<char>>>;

/// Relies on `regex::Regex::new` and `regex::Regex::captures`: the pattern is
/// compiled, and the groups of its leftmost-first match are handed out in
/// order, a group that took no part in the match as an empty string.
#[verifier::external_body]
pub(crate) fn first_captures(pattern: &str, text: &str) -> (r: Option<Vec<String>>)
    ensures
        match r {
            None => captures_of(pattern@, text@) is None,
            Some(groups) => captures_of(pattern@, text@) == Some(views(groups@)),
        },
{
    let re = regex::Regex::new(pattern).ok()?;
    let caps = re.captures(text)?;
    Some(caps.iter().map(|m| m.map_or(String::new(), |m| m.as_str().to_string())).collect())
}

/// Why a matched line could not become a finding.
#[derive(Clone, Copy, PartialEq, Eq, Structural, Debug)]
pub enum ParseError {
    /// The severity keyword is none of the four.
    UnknownLevel,
    /// A line or column number is not a `u32`.
    BadNumber,
    /// The match does not have the six groups of a finding.
    MissingGroup,
}

/// What a finding holds: file, line, column, severity, rule, description.
pub type Fields = (Seq<char>, Option<u32>, Option<u32>, ErrorLevel, Seq<char>, Seq<char>);

/// The fields of a record.
pub open spec fn fields_of(e: LineError) -> Fields {
    (e.file@, e.line_nb, e.col_nb, e.level, e.rule@, e.description@)
}

/// `e` is a newly read finding with fields `f`: not suppressed, counted once.
pub open spec fn fresh_from(e: LineError, f: Fields) -> bool {
    fields_of(e) == f && !e.ignore && e.occurrences == 1
}

/// A path with one leading `./` taken off.
pub open spec fn strip_dot(f: Seq<char>) -> Seq<char> {
    if has_prefix(f, seq!['.', '/']) {
        f.skip(2)
    } else {
        f
    }
}

/// An empty group means an absent position.
pub open spec fn position_of(s: Seq<char>) -> Result<Option<u32>, ParseError> {
    if s.len() == 0 {
        Ok(None)
    } else {
        match number_of(s) {
            Some(n) => Ok(Some(n)),
            None => Err(ParseError::BadNumber),
        }
    }
}

/// The finding that the groups of a match describe.
pub open spec fn fields_of_groups(c: Seq<Seq<char>>) -> Result<Fields, ParseError> {
    if c.len() != 7 {
        Err(ParseError::MissingGroup)
    } else {
        match position_of(c[2]) {
            Err(k) => Err(k),
            Ok(line_nb) => match position_of(c[3]) {
                Err(k) => Err(k),
                Ok(col_nb) => match level_named(c[4]) {
                    None => Err(ParseError::UnknownLevel),
                    Some(level) => Ok((strip_dot(c[1]), line_nb, col_nb, level, c[6], c[5])),
                },
            },
        }
    }
}

/// What one raw line gives: nothing if it does not match the pattern.
pub open spec fn line_outcome(line: Seq<char>) -> Result<Option<Fields>, ParseError> {
    match captures_of(LINE_PATTERN@, line) {
        None => Ok(None),
        Some(c) => match fields_of_groups(c) {
            Ok(f) => Ok(Some(f)),
            Err(k) => Err(k),
        },
    }
}

/// Drops the first two characters of a path.
pub fn skip_leading_dot(file: &str) -> (r: &str)
    ensures
        r@ == if file@.len() >= 2 {
            file@.skip(2)
        } else {
            Seq::<char>::empty()
        },
{
    let n = file.unicode_len();
    let from: usize = if n >= 2 {
        2
    } else {
        n
    };
    let r = file.substring_char(from, n);
    assert(n < 2 ==> r@ =~= Seq::<char>::empty());
    assert(n >= 2 ==> r@ =~= file@.skip(2));
    r
}

fn position_from(s: &String) -> (r: Result<Option<u32>, ParseError>)
    ensures
        r == position_of(s@),
{
    if s.as_str().unicode_len() == 0 {
        Ok(None)
    } else {
        match parse_number(s.as_str()) {
            Some(n) => Ok(Some(n)),
            None => Err(ParseError::BadNumber),
        }
    }
}

/// Builds a finding from the groups of a match of the line pattern.
pub fn line_from_groups(groups: &Vec<String>) -> (r: Result<LineError, ParseError>)
    ensures
        match fields_of_groups(views(groups@)) {
            Err(k) => r == Err::<LineError, ParseError>(k),
            Ok(f) => r matches Ok(e) && fresh_from(e, f),
        },
{
    let ghost c = views(groups@);
    if groups.len() != 7 {
        return Err(ParseError::MissingGroup);
    }
    assert(c[1] == groups@[1]@ && c[2] == groups@[2]@ && c[3] == groups@[3]@);
    assert(c[4] == groups@[4]@ && c[5] == groups@[5]@ && c[6] == groups@[6]@);
    let line_nb = match position_from(&groups[2]) {
        Ok(n) => n,
        Err(k) => return Err(k),
    };
    let col_nb = match position_from(&groups[3]) {
        Ok(n) => n,
        Err(k) => return Err(k),
    };
    let level = match ErrorLevel::from_str(groups[4].as_str()) {
        Some(l) => l,
        None => return Err(ParseError::UnknownLevel),
    };
    let raw = groups[1].as_str();
    proof {
        reveal_strlit("./");
    }
    let file = if occurs_at_exec(raw, 0, "./") {
        assert("./"@ =~= seq!['.', '/']);
        String::from_str(skip_leading_dot(raw))
    } else {
        assert("./"@ =~= seq!['.', '/']);
        String::from_str(raw)
    };
    Ok(
        LineError {
            file,
            line_nb,
            col_nb,
            level,
            rule: groups[6].clone(),
            description: groups[5].clone(),
            ignore: false,
            occurrences: 1,
        },
    )
}

/// Reads one raw line: a finding if it matches the pattern, nothing if it
/// does not, an error if it matches with groups that make no finding.
pub fn parse_line(line: &str) -> (r: Result<Option<LineError>, ParseError>)
    ensures
        match line_outcome(line@) {
            Ok(None) => r == Ok::<Option<LineError>, ParseError>(None),
            Err(k) => r == Err::<Option<LineError>, ParseError>(k),
            Ok(Some(f)) => r matches Ok(Some(e)) && fresh_from(e, f),
        },
{
    match first_captures(LINE_PATTERN, line) {
        None => Ok(None),
        Some(groups) => match line_from_groups(&groups) {
            Ok(e) => Ok(Some(e)),
            Err(k) => Err(k),
        },
    }
}

/// A line that does not match the pattern gives no finding, every time it
/// is read.
pub proof fn lemma_unmatched_line_gives_nothing(line: Seq<char>)
    requires
        captures_of(LINE_PATTERN@, line) is None,
    ensures
        line_outcome(line) == Ok::<Option<Fields>, ParseError>(None),
{
}

/// The findings of a sequence of raw lines, or the first error met.
pub open spec fn parse_all(lines: Seq<Seq<char>>) -> Result<Seq<Fields>, ParseError>
    decreases lines.len(),
{
    if lines.len() == 0 {
        Ok(Seq::<Fields>::empty())
    } else {
        match parse_all(lines.drop_last()) {
            Err(k) => Err(k),
            Ok(fs) => match line_outcome(lines.last()) {
                Err(k) => Err(k),
                Ok(None) => Ok(fs),
                Ok(Some(f)) => Ok(fs.push(f)),
            },
        }
    }
}

proof fn lemma_parse_all_error(lines: Seq<Seq<char>>, i: int)
    requires
        0 <= i <= lines.len(),
        parse_all(lines.take(i)) is Err,
    ensures
        parse_all(lines) == parse_all(lines.take(i)),
    decreases lines.len(),
{
    if i == lines.len() {
        assert(lines.take(i) =~= lines);
    } else {
        assert(lines.drop_last().take(i) =~= lines.take(i));
        lemma_parse_all_error(lines.drop_last(), i);
    }
}

/// The findings after the ignore filter, when a listing is given.
pub open spec fn filtered(p: Seq<LineError>, listing: Option<Seq<char>>) -> Seq<LineError> {
    match listing {
        None => p,
        Some(l) => p.map_values(|e: LineError| marked(e, listing_entries(l))),
    }
}

/// The outcome of a run: the canonical list, the report text, and whether
/// any finding is left unsuppressed.
pub struct Report {
    pub errors: Vec<LineError>,
    pub text: String,
    pub has_findings: bool,
}

/// Runs the pipeline on the tool's raw lines: parse, suppress what the
/// dry-run clean listing covers (when one is given), sort and merge, render.
pub fn parse_output(lines: &Vec<String>, ignore_listing: Option<&str>) -> (r: Result<
    Report,
    ParseError,
>)
    ensures
        match parse_all(views(lines@)) {
            Err(k) => r == Err::<Report, ParseError>(k),
            Ok(fs) => r matches Ok(rep) && exists|p: Seq<LineError>|
                {
                    &&& p.len() == fs.len()
                    &&& forall|i: int| 0 <= i < p.len() ==> fresh_from(#[trigger] p[i], fs[i])
                    &&& rep.errors@ == canonical(
                        filtered(
                            p,
                            match ignore_listing {
                                Some(l) => Some(l@),
                                None => None,
                            },
                        ),
                    )
                },
        },
        r matches Ok(rep) ==> {
            &&& is_canonically_ordered(rep.errors@)
            &&& all_wf(rep.errors@)
            &&& no_adjacent_duplicates(rep.errors@)
            &&& rep.text@ == report_text(rep.errors@)
            &&& rep.has_findings == has_unsuppressed(rep.errors@)
        },
{
    let ghost all = views(lines@);
    let mut errors: Vec<LineError> = Vec::new();
    let mut i: usize = 0;
    assert(all.take(0) =~= Seq::<Seq<char>>::empty());
    assert(errors@.map_values(|e: LineError| fields_of(e)) =~= Seq::<Fields>::empty());
    while i < lines.len()
        invariant
            i <= lines@.len(),
            all == views(lines@),
            parse_all(all.take(i as int)) == Ok::<Seq<Fields>, ParseError>(
                errors@.map_values(|e: LineError| fields_of(e)),
            ),
            forall|k: int|
                0 <= k < errors@.len() ==> !(#[trigger] errors@[k]).ignore
                    && errors@[k].occurrences == 1,
        decreases lines@.len() - i,
    {
        proof {
            assert(all.take(i + 1).drop_last() =~= all.take(i as int));
            assert(all.take(i + 1).last() == lines@[i as int]@);
        }
        let ghost before = errors@;
        match parse_line(lines[i].as_str()) {
            Err(k) => {
                proof {
                    lemma_parse_all_error(all, i + 1);
                }
                return Err(k);
            },
            Ok(None) => {},
            Ok(Some(e)) => {
                errors.push(e);
                assert(errors@.map_values(|e: LineError| fields_of(e)) =~= before.map_values(
                    |e: LineError| fields_of(e),
                ).push(fields_of(e)));
            },
        }
        i = i + 1;
    }
    assert(all.take(i as int) =~= all);
    let ghost parsed = errors@;
    let ghost fs = parsed.map_values(|e: LineError| fields_of(e));
    assert(forall|k: int| 0 <= k < parsed.len() ==> fresh_from(#[trigger] parsed[k], fs[k]));
    assert(all_wf(errors@));
    match ignore_listing {
        Some(listing) => {
            verify_ignore(&mut errors, listing);
            assert(errors@ =~= filtered(parsed, Some(listing@)));
        },
        None => {},
    }
    clean_errors_vector(&mut errors);
    let text = render_report(&errors);
    let findings = has_findings(&errors);
    Ok(Report { errors, text, has_findings: findings })
}

} // verus!

//! The terminal report: findings grouped under their file, then a summary
//! with one count per severity.

use vstd::prelude::*;

use crate::diagnostic::{level_color, level_label, level_word, ErrorLevel, LineError};
use crate::shared::{color_code, Colors};
use crate::text::{decimal, decimal_text};

verus! {

/// `:n` for a present position, nothing for an absent one.
pub open spec fn position_text(n: Option<u32>) -> Seq<char> {
    match n {
        Some(n) => ":"@ + decimal_text(n as nat),
        None => Seq::<char>::empty(),
    }
}

/// `file[:line][:column]`, leaving out what is absent.
pub open spec fn location_text(e: LineError) -> Seq<char> {
    e.file@ + position_text(e.line_nb) + position_text(e.col_nb)
}

/// ` (xN)` for a record counted more than once.
pub open spec fn count_text(occurrences: u32) -> Seq<char> {
    if occurrences > 1 {
        " (x"@ + decimal_text(occurrences as nat) + ")"@
    } else {
        Seq::<char>::empty()
    }
}

/// The line that shows one finding.
pub open spec fn entry_text(e: LineError) -> Seq<char> {
    color_code(level_color(e.level)) + level_label(e.level) + " ["@ + e.rule@ + "]:"@
        + color_code(Colors::RESET) + " "@ + e.description@ + " "@ + color_code(Colors::GRAY)
        + "("@ + location_text(e) + ")"@ + count_text(e.occurrences) + color_code(Colors::RESET)
        + "\n"@
}

/// The line that opens a group of findings in one file.
pub open spec fn header_text(file: Seq<char>) -> Seq<char> {
    color_code(Colors::BOLD) + file + ":"@ + color_code(Colors::RESET) + "\n"@
}

/// The file of the last finding of `s` that is shown; `None` if none is.
pub open spec fn last_shown_file(s: Seq<LineError>) -> Option<Seq<char>>
    decreases s.len(),
{
    if s.len() == 0 {
        None
    } else if s.last().ignore {
        last_shown_file(s.drop_last())
    } else {
        Some(s.last().file@)
    }
}

/// The text that `e` adds after findings whose last shown file is `prev`:
/// nothing if it is suppressed, else its line, under a header when it is the
/// first shown finding or its file differs from the previous one.
pub open spec fn item_text(prev: Option<Seq<char>>, e: LineError) -> Seq<char> {
    if e.ignore {
        Seq::<char>::empty()
    } else if prev != Some(e.file@) {
        header_text(e.file@) + entry_text(e)
    } else {
        entry_text(e)
    }
}

/// The body of the report.
pub open spec fn body_text(s: Seq<LineError>) -> Seq<char>
    decreases s.len(),
{
    if s.len() == 0 {
        Seq::<char>::empty()
    } else {
        body_text(s.drop_last()) + item_text(last_shown_file(s.drop_last()), s.last())
    }
}

/// How many findings of `s` are suppressed.
pub open spec fn count_ignored(s: Seq<LineError>) -> nat
    decreases s.len(),
{
    if s.len() == 0 {
        0
    } else {
        count_ignored(s.drop_last()) + if s.last().ignore {
            1nat
        } else {
            0nat
        }
    }
}

/// How many shown findings of `s` have severity `l`.
pub open spec fn count_level(s: Seq<LineError>, l: ErrorLevel) -> nat
    decreases s.len(),
{
    if s.len() == 0 {
        0
    } else {
        count_level(s.drop_last(), l) + if !s.last().ignore && s.last().level == l {
            1nat
        } else {
            0nat
        }
    }
}

/// Some finding of `s` is shown.
pub open spec fn has_unsuppressed(s: Seq<LineError>) -> bool {
    exists|i: int| 0 <= i < s.len() && !(#[trigger] s[i]).ignore
}

/// `amount` findings of severity `l`, as the summary line shows them.
pub open spec fn level_count_text(l: ErrorLevel, amount: nat) -> Seq<char> {
    (if l == ErrorLevel::Fatal {
        color_code(Colors::BOLD)
    } else {
        Seq::<char>::empty()
    }) + color_code(level_color(l)) + decimal_text(amount) + " "@ + level_word(l) + color_code(
        Colors::RESET,
    )
}

/// The count of one severity in the summary line.
pub open spec fn level_part(s: Seq<LineError>, l: ErrorLevel) -> Seq<char> {
    level_count_text(l, count_level(s, l))
}

/// The line on suppressed findings, if there are any.
pub open spec fn ignored_text(ignored: nat) -> Seq<char> {
    if ignored > 0 {
        color_code(Colors::BOLD) + decimal_text(ignored) + " ignored errors"@ + color_code(
            Colors::RESET,
        ) + " (use --no-ignore to see them)\n"@
    } else {
        Seq::<char>::empty()
    }
}

/// The all-clear line, or the total with one count per severity.
pub open spec fn totals_text(s: Seq<LineError>, shown: nat) -> Seq<char> {
    if shown == 0 {
        color_code(Colors::BOLD) + "There are no coding style errors!"@ + color_code(Colors::RESET)
            + "\n"@
    } else {
        color_code(Colors::BOLD) + decimal_text(shown) + " error(s)"@ + color_code(Colors::RESET)
            + ": "@ + level_part(s, ErrorLevel::Fatal) + ", "@ + level_part(s, ErrorLevel::Major)
            + ", "@ + level_part(s, ErrorLevel::Minor) + ", "@ + level_part(s, ErrorLevel::Info)
            + "\n"@
    }
}

/// The summary that closes the report.
pub open spec fn summary_text(s: Seq<LineError>) -> Seq<char> {
    ignored_text(count_ignored(s)) + totals_text(s, (s.len() - count_ignored(s)) as nat)
}

/// The whole report.
pub open spec fn report_text(s: Seq<LineError>) -> Seq<char> {
    body_text(s) + summary_text(s)
}

proof fn lemma_counts_bounded(s: Seq<LineError>)
    ensures
        count_ignored(s) <= s.len(),
        count_level(s, ErrorLevel::Fatal) + count_level(s, ErrorLevel::Major) + count_level(
            s,
            ErrorLevel::Minor,
        ) + count_level(s, ErrorLevel::Info) + count_ignored(s) == s.len(),
        count_ignored(s) == s.len() <==> !has_unsuppressed(s),
    decreases s.len(),
{
    if s.len() > 0 {
        let t = s.drop_last();
        lemma_counts_bounded(t);
        if has_unsuppressed(t) {
            let i = choose|i: int| 0 <= i < t.len() && !(#[trigger] t[i]).ignore;
            assert(s[i] == t[i]);
        }
        if has_unsuppressed(s) && s.last().ignore {
            let i = choose|i: int| 0 <= i < s.len() && !(#[trigger] s[i]).ignore;
            assert(t[i] == s[i]);
        }
        if !s.last().ignore {
            assert(!s[s.len() - 1].ignore);
        }
    }
}

fn position_part(n: Option<u32>) -> (r: String)
    ensures
        r@ == position_text(n),
{
    match n {
        Some(n) => {
            let mut r = String::from_str(":");
            r.append(decimal(n as u64).as_str());
            r
        },
        None => String::new(),
    }
}

fn count_part(occurrences: u32) -> (r: String)
    ensures
        r@ == count_text(occurrences),
{
    if occurrences > 1 {
        let mut r = String::from_str(" (x");
        r.append(decimal(occurrences as u64).as_str());
        r.append(")");
        r
    } else {
        String::new()
    }
}

fn entry_line(e: &LineError) -> (r: String)
    ensures
        r@ == entry_text(*e),
{
    let mut location = e.file.clone();
    location.append(position_part(e.line_nb).as_str());
    location.append(position_part(e.col_nb).as_str());
    let mut r = String::from_str(e.level.to_color_str());
    r.append(e.level.as_str());
    r.append(" [");
    r.append(e.rule.as_str());
    r.append("]:");
    r.append(Colors::RESET.as_str());
    r.append(" ");
    r.append(e.description.as_str());
    r.append(" ");
    r.append(Colors::GRAY.as_str());
    r.append("(");
    r.append(location.as_str());
    r.append(")");
    r.append(count_part(e.occurrences).as_str());
    r.append(Colors::RESET.as_str());
    r.append("\n");
    r
}

fn header_line(file: &String) -> (r: String)
    ensures
        r@ == header_text(file@),
{
    let mut r = String::from_str(Colors::BOLD.as_str());
    r.append(file.as_str());
    r.append(":");
    r.append(Colors::RESET.as_str());
    r.append("\n");
    r
}

/// Renders the findings that are shown, each under the header of its file
/// when the file differs from the one before.
pub fn render_body(errors: &Vec<LineError>) -> (r: String)
    ensures
        r@ == body_text(errors@),
{
    let mut out = String::new();
    let mut prev: Option<String> = None;
    let mut i: usize = 0;
    assert(errors@.take(0) =~= Seq::<LineError>::empty());
    while i < errors.len()
        invariant
            i <= errors@.len(),
            out@ == body_text(errors@.take(i as int)),
            match prev {
                None => last_shown_file(errors@.take(i as int)) is None,
                Some(f) => last_shown_file(errors@.take(i as int)) == Some(f@),
            },
        decreases errors@.len() - i,
    {
        let e = &errors[i];
        let ghost before = out@;
        proof {
            assert(errors@.take(i + 1).drop_last() =~= errors@.take(i as int));
        }
        if !e.ignore {
            let same_file = match &prev {
                Some(f) => *f == e.file,
                None => false,
            };
            if !same_file {
                out.append(header_line(&e.file).as_str());
            }
            out.append(entry_line(e).as_str());
            prev = Some(e.file.clone());
            assert(out@ =~= before + item_text(last_shown_file(errors@.take(i as int)), *e));
        } else {
            assert(out@ =~= before + item_text(last_shown_file(errors@.take(i as int)), *e));
        }
        i = i + 1;
    }
    assert(errors@.take(i as int) =~= errors@);
    out
}

fn level_count_line(l: ErrorLevel, amount: usize) -> (r: String)
    ensures
        r@ == level_count_text(l, amount as nat),
{
    let mut r = if l == ErrorLevel::Fatal {
        String::from_str(Colors::BOLD.as_str())
    } else {
        String::new()
    };
    r.append(l.to_color_str());
    r.append(decimal(amount as u64).as_str());
    r.append(" ");
    r.append(l.as_word());
    r.append(Colors::RESET.as_str());
    r
}

/// Renders the closing summary: the suppressed count if any, then either
/// the all-clear line or the total with one count per severity.
pub fn summary_errors(errors: &Vec<LineError>) -> (r: String)
    ensures
        r@ == summary_text(errors@),
{
    let mut ignored: usize = 0;
    let mut fatal: usize = 0;
    let mut major: usize = 0;
    let mut minor: usize = 0;
    let mut info: usize = 0;
    let mut i: usize = 0;
    assert(errors@.take(0) =~= Seq::<LineError>::empty());
    while i < errors.len()
        invariant
            i <= errors@.len(),
            ignored == count_ignored(errors@.take(i as int)),
            fatal == count_level(errors@.take(i as int), ErrorLevel::Fatal),
            major == count_level(errors@.take(i as int), ErrorLevel::Major),
            minor == count_level(errors@.take(i as int), ErrorLevel::Minor),
            info == count_level(errors@.take(i as int), ErrorLevel::Info),
        decreases errors@.len() - i,
    {
        proof {
            assert(errors@.take(i + 1).drop_last() =~= errors@.take(i as int));
            lemma_counts_bounded(errors@.take(i + 1));
        }
        if errors[i].ignore {
            ignored = ignored + 1;
        } else {
            match errors[i].level {
                ErrorLevel::Fatal => fatal = fatal + 1,
                ErrorLevel::Major => major = major + 1,
                ErrorLevel::Minor => minor = minor + 1,
                ErrorLevel::Info => info = info + 1,
            }
        }
        i = i + 1;
    }
    assert(errors@.take(i as int) =~= errors@);
    proof {
        lemma_counts_bounded(errors@);
    }
    let shown = errors.len() - ignored;
    let mut out = if ignored > 0 {
        let mut a = String::from_str(Colors::BOLD.as_str());
        a.append(decimal(ignored as u64).as_str());
        a.append(" ignored errors");
        a.append(Colors::RESET.as_str());
        a.append(" (use --no-ignore to see them)\n");
        a
    } else {
        String::new()
    };
    let totals = if shown == 0 {
        let mut b = String::from_str(Colors::BOLD.as_str());
        b.append("There are no coding style errors!");
        b.append(Colors::RESET.as_str());
        b.append("\n");
        b
    } else {
        let mut b = String::from_str(Colors::BOLD.as_str());
        b.append(decimal(shown as u64).as_str());
        b.append(" error(s)");
        b.append(Colors::RESET.as_str());
        b.append(": ");
        b.append(level_count_line(ErrorLevel::Fatal, fatal).as_str());
        b.append(", ");
        b.append(level_count_line(ErrorLevel::Major, major).as_str());
        b.append(", ");
        b.append(level_count_line(ErrorLevel::Minor, minor).as_str());
        b.append(", ");
        b.append(level_count_line(ErrorLevel::Info, info).as_str());
        b.append("\n");
        b
    };
    out.append(totals.as_str());
    out
}

/// Whether any finding is left once the suppressed ones are set aside.
pub fn has_findings(errors: &Vec<LineError>) -> (r: bool)
    ensures
        r == has_unsuppressed(errors@),
        !r <==> forall|i: int| 0 <= i < errors@.len() ==> (#[trigger] errors@[i]).ignore,
{
    let mut i: usize = 0;
    while i < errors.len()
        invariant
            i <= errors@.len(),
            forall|k: int| 0 <= k < i ==> (#[trigger] errors@[k]).ignore,
        decreases errors@.len() - i,
    {
        if !errors[i].ignore {
            return true;
        }
        i = i + 1;
    }
    false
}

/// Renders the whole report.
pub fn render_report(errors: &Vec<LineError>) -> (r: String)
    ensures
        r@ == report_text(errors@),
{
    let mut out = render_body(errors);
    let summary = summary_errors(errors);
    out.append(summary.as_str());
    out
}

} // verus!

//! The diagnostic record, its severity, and the equivalence used to merge
//! repeated findings.

use vstd::prelude::*;

use crate::shared::{color_code, Colors};
use crate::text::text_eq;

verus! {

/// Severity of a finding, from the most to the least serious.
#[derive(Clone, Copy, PartialEq, Eq, Structural, Debug)]
pub enum ErrorLevel {
    Fatal,
    Major,
    Minor,
    Info,
}

/// The severity that a keyword of the tool's output names.
pub open spec fn level_named(s: Seq<char>) -> Option<ErrorLevel> {
    if s == "Fatal"@ {
        Some(ErrorLevel::Fatal)
    } else if s == "Major"@ {
        Some(ErrorLevel::Major)
    } else if s == "Minor"@ {
        Some(ErrorLevel::Minor)
    } else if s == "Info"@ {
        Some(ErrorLevel::Info)
    } else {
        None
    }
}

/// The label under which a severity is shown.
pub open spec fn level_label(l: ErrorLevel) -> Seq<char> {
    match l {
        ErrorLevel::Fatal => "FATAL"@,
        ErrorLevel::Major => "MAJOR"@,
        ErrorLevel::Minor => "MINOR"@,
        ErrorLevel::Info => "INFO"@,
    }
}

/// The name of a severity in the summary line.
pub open spec fn level_word(l: ErrorLevel) -> Seq<char> {
    match l {
        ErrorLevel::Fatal => "fatal"@,
        ErrorLevel::Major => "major"@,
        ErrorLevel::Minor => "minor"@,
        ErrorLevel::Info => "info"@,
    }
}

/// The colour of a severity.
pub open spec fn level_color(l: ErrorLevel) -> Colors {
    match l {
        ErrorLevel::Fatal => Colors::RED,
        ErrorLevel::Major => Colors::RED,
        ErrorLevel::Minor => Colors::ORANGE,
        ErrorLevel::Info => Colors::BLUE,
    }
}

impl ErrorLevel {
    /// Reads one of the four keywords; any other text names no severity.
    pub fn from_str(input: &str) -> (r: Option<ErrorLevel>)
        ensures
            r == level_named(input@),
    {
        if text_eq(input, "Fatal") {
            Some(ErrorLevel::Fatal)
        } else if text_eq(input, "Major") {
            Some(ErrorLevel::Major)
        } else if text_eq(input, "Minor") {
            Some(ErrorLevel::Minor)
        } else if text_eq(input, "Info") {
            Some(ErrorLevel::Info)
        } else {
            None
        }
    }

    pub fn as_str(&self) -> (r: &'static str)
        ensures
            r@ == level_label(*self),
    {
        match *self {
            ErrorLevel::Fatal => "FATAL",
            ErrorLevel::Major => "MAJOR",
            ErrorLevel::Minor => "MINOR",
            ErrorLevel::Info => "INFO",
        }
    }

    pub fn as_word(&self) -> (r: &'static str)
        ensures
            r@ == level_word(*self),
    {
        match *self {
            ErrorLevel::Fatal => "fatal",
            ErrorLevel::Major => "major",
            ErrorLevel::Minor => "minor",
            ErrorLevel::Info => "info",
        }
    }

    pub fn to_color(&self) -> (r: Colors)
        ensures
            r == level_color(*self),
    {
        match *self {
            Self::Fatal => Colors::RED,
            Self::Major => Colors::RED,
            Self::Minor => Colors::ORANGE,
            Self::Info => Colors::BLUE,
        }
    }

    pub fn to_color_str(&self) -> (r: &'static str)
        ensures
            r@ == color_code(level_color(*self)),
    {
        self.to_color().as_str()
    }
}

/// One finding of the analysis tool.
pub struct LineError {
    /// Path of the file, without a leading `./`.
    pub file: String,
    pub line_nb: Option<u32>,
    pub col_nb: Option<u32>,
    pub level: ErrorLevel,
    /// Rule code, such as `C-O1`.
    pub rule: String,
    pub description: String,
    /// Set when version control ignores the file.
    pub ignore: bool,
    /// How many raw lines were merged into this record.
    pub occurrences: u32,
}

/// Two findings are the same one when file, position, severity and rule
/// agree; description and count do not take part.
pub open spec fn same_diag(a: LineError, b: LineError) -> bool {
    &&& a.file@ == b.file@
    &&& a.line_nb == b.line_nb
    &&& a.col_nb == b.col_nb
    &&& a.level == b.level
    &&& a.rule@ == b.rule@
}

impl LineError {
    /// Every record counts at least one raw line.
    pub open spec fn wf(&self) -> bool {
        self.occurrences >= 1
    }

    /// A copy of the record, field for field.
    pub fn duplicate(&self) -> (r: LineError)
        ensures
            r == *self,
    {
        LineError {
            file: self.file.clone(),
            line_nb: self.line_nb,
            col_nb: self.col_nb,
            level: self.level,
            rule: self.rule.clone(),
            description: self.description.clone(),
            ignore: self.ignore,
            occurrences: self.occurrences,
        }
    }
}

impl PartialEq for LineError {
    fn eq(&self, rhs: &LineError) -> (r: bool)
        ensures
            r == same_diag(*self, *rhs),
    {
        self.file == rhs.file && self.line_nb == rhs.line_nb && self.col_nb == rhs.col_nb
            && self.level == rhs.level && self.rule == rhs.rule
    }
}

impl vstd::std_specs::cmp::PartialEqSpecImpl for LineError {
    open spec fn obeys_eq_spec() -> bool {
        true
    }

    open spec fn eq_spec(&self, rhs: &LineError) -> bool {
        same_diag(*self, *rhs)
    }
}

} // verus!

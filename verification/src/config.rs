//! `settings.toml`: which merchant tables to load, and defaults for the
//! statement files themselves.

use vstd::prelude::*;

use crate::statement::{format_named, Format, UnknownFormat};
use crate::text::{chars_of, string_of, views};
use crate::xmlpatch::{parts_of, path_parts};

verus! {

/// One entry in the `[[table]]` list. Exactly one of the two keys.
#[derive(Debug, Clone)]
pub struct TableSource {
    /// A table compiled into the binary, by name.
    pub bundled: Option<String>,
    /// A YAML file on disk. `~` and `$VAR` are expanded.
    pub path: Option<String>,
}

#[derive(Debug, Clone)]
pub struct Statements {
    /// Export format of the statement files, when `--format` is not given.
    pub format: String,
    /// Directory that a bare statement name is resolved against.
    pub directory: Option<String>,
}

/// The `[budgets]` table.
#[derive(Debug, Clone)]
pub struct BudgetSource {
    /// A directory of `YYYY-MM.yaml` files. `~` and `$VAR` are expanded.
    pub path: String,
}

/// One entry in the `[[marks]]` list.
#[derive(Debug, Clone)]
pub struct MarkSource {
    /// A YAML file on disk. `~` and `$VAR` are expanded.
    pub path: String,
}

#[derive(Debug, Clone)]
pub struct Settings {
    /// Merchant tables, in order. A later table wins ties against an
    /// earlier one, so personal tables belong at the bottom.
    pub tables: Vec<TableSource>,
    pub statements: Statements,
    /// Files of hand-written marks, applied after the tables.
    pub marks: Vec<MarkSource>,
    /// Where the monthly budget files are.
    pub budgets: Option<BudgetSource>,
}

pub open spec fn is_default_tables(tables: Seq<TableSource>) -> bool {
    &&& tables.len() == 1
    &&& tables[0].bundled matches Some(name) && name@ == "se-common"@
    &&& tables[0].path is None
}

fn default_tables() -> (t: Vec<TableSource>)
    ensures
        is_default_tables(t@),
{
    let mut t: Vec<TableSource> = Vec::new();
    t.push(TableSource { bundled: Some(string_of(&chars_of("se-common"))), path: None });
    t
}

impl Default for Statements {
    /// SEB's format, and no directory.
    fn default() -> (s: Statements)
        ensures
            s.format@ == "seb"@,
            s.directory is None,
    {
        Statements { format: default_format(), directory: None }
    }
}

/// The statement format when the settings name none.
pub fn default_format() -> (r: String)
    ensures
        r@ == "seb"@,
{
    string_of(&chars_of("seb"))
}

impl Default for Settings {
    /// With no configuration at all, the bundled Swedish table is loaded
    /// so the tool does something useful out of the box.
    fn default() -> (s: Settings)
        ensures
            is_default_tables(s.tables@),
            s.statements.format@ == "seb"@,
            s.statements.directory is None,
            s.marks@.len() == 0,
            s.budgets is None,
    {
        Settings {
            tables: default_tables(),
            statements: Statements { format: default_format(), directory: None },
            marks: Vec::new(),
            budgets: None,
        }
    }
}

/// A table to load: one compiled in, by name, or a file.
#[derive(Debug, Clone, PartialEq, Eq)]
pub enum TableRef {
    Bundled(String),
    Path(String),
}

/// Why the configured tables cannot be loaded.
#[derive(Debug, Clone, PartialEq, Eq)]
pub enum SourceError {
    /// A `[[table]]` entry with both `bundled` and `path`.
    Both,
    /// A `[[table]]` entry with neither.
    Neither,
    /// No `[[table]]` entries at all.
    NoTables,
}

/// What one `[[table]]` entry asks for.
pub open spec fn source_ref(s: TableSource) -> Result<TableRef, SourceError> {
    match (s.bundled, s.path) {
        (Some(name), None) => Ok(TableRef::Bundled(name)),
        (None, Some(path)) => Ok(TableRef::Path(path)),
        (Some(_), Some(_)) => Err(SourceError::Both),
        (None, None) => Err(SourceError::Neither),
    }
}

/// The first entry that is neither one thing nor the other.
pub open spec fn first_bad_source(ss: Seq<TableSource>) -> Option<SourceError>
    decreases ss.len(),
{
    if ss.len() == 0 {
        None
    } else {
        match first_bad_source(ss.drop_last()) {
            Some(e) => Some(e),
            None => match source_ref(ss.last()) {
                Err(e) => Some(e),
                Ok(_) => None,
            },
        }
    }
}

impl Settings {
    /// The statement format the settings name.
    pub fn format(&self) -> (r: Result<Format, UnknownFormat>)
        ensures
            match r {
                Ok(f) => format_named(self.statements.format@) == Some(f),
                Err(e) => format_named(self.statements.format@) is None && e.0@
                    == self.statements.format@,
            },
    {
        Format::from_name(self.statements.format.as_str())
    }

    /// The tables to load, in the configured order: each entry names one
    /// bundled table or one file, and at least one must be configured.
    pub fn load_tables(&self) -> (r: Result<Vec<TableRef>, SourceError>)
        ensures
            match r {
                Ok(refs) => first_bad_source(self.tables@) is None && self.tables@.len() > 0
                    && refs@.len() == self.tables@.len() && forall|i: int|
                    0 <= i < refs@.len() ==> source_ref(self.tables@[i]) == Ok::<
                        TableRef,
                        SourceError,
                    >(#[trigger] refs@[i]),
                Err(e) => match first_bad_source(self.tables@) {
                    Some(f) => e == f,
                    None => self.tables@.len() == 0 && e == SourceError::NoTables,
                },
            },
    {
        let mut refs: Vec<TableRef> = Vec::new();
        let mut i: usize = 0;
        while i < self.tables.len()
            invariant
                i <= self.tables@.len(),
                first_bad_source(self.tables@.take(i as int)) is None,
                refs@.len() == i,
                forall|j: int|
                    0 <= j < i ==> source_ref(self.tables@[j]) == Ok::<TableRef, SourceError>(
                        #[trigger] refs@[j],
                    ),
            decreases self.tables.len() - i,
        {
            assert(self.tables@.take(i + 1).drop_last() =~= self.tables@.take(i as int));
            let source = &self.tables[i];
            let r = match (&source.bundled, &source.path) {
                (Some(name), None) => TableRef::Bundled(name.clone()),
                (None, Some(path)) => TableRef::Path(path.clone()),
                (Some(_), Some(_)) => {
                    proof {
                        lemma_first_bad(self.tables@, i + 1);
                    }
                    return Err(SourceError::Both);
                },
                (None, None) => {
                    proof {
                        lemma_first_bad(self.tables@, i + 1);
                    }
                    return Err(SourceError::Neither);
                },
            };
            refs.push(r);
            i = i + 1;
        }
        assert(self.tables@.take(i as int) =~= self.tables@);
        if refs.len() == 0 {
            return Err(SourceError::NoTables);
        }
        Ok(refs)
    }

    /// The files of marks to load, in order, as configured.
    pub fn load_marks(&self) -> (r: Vec<String>)
        ensures
            r@.len() == self.marks@.len(),
            forall|i: int| 0 <= i < r@.len() ==> #[trigger] r@[i] == self.marks@[i].path,
    {
        let mut out: Vec<String> = Vec::new();
        let mut i: usize = 0;
        while i < self.marks.len()
            invariant
                i <= self.marks@.len(),
                out@.len() == i,
                forall|j: int| 0 <= j < i ==> #[trigger] out@[j] == self.marks@[j].path,
            decreases self.marks.len() - i,
        {
            out.push(self.marks[i].path.clone());
            i = i + 1;
        }
        out
    }

    /// The budget directory as configured, if one is.
    pub fn budget_dir(&self) -> (r: Option<&str>)
        ensures
            match r {
                Some(p) => self.budgets matches Some(b) && p@ == b.path@,
                None => self.budgets is None,
            },
    {
        match &self.budgets {
            Some(b) => Some(b.path.as_str()),
            None => None,
        }
    }

    /// Resolves a statement argument against the configured directory,
    /// given whether it is present as written and the directory with `~` and
    /// `$VAR` expanded. An argument that is already a path, or that exists
    /// as given, is used unchanged.
    pub fn resolve_statement(&self, argument: &str, present: bool, directory: Option<&str>) -> (r:
        String)
        ensures
            r@ == if present || argument@.len() > 0 && argument@[0] == '/' || component_count(
                argument@,
            ) > 1 {
                argument@
            } else {
                match (self.statements.directory, directory) {
                    (Some(_), Some(d)) => crate::git::join_path(d@, argument@),
                    _ => argument@,
                }
            },
    {
        let cs = chars_of(argument);
        let rooted = cs.len() > 0 && cs[0] == '/';
        let dot = cs.len() > 0 && cs[0] == '.' && (cs.len() == 1 || cs[1] == '/');
        let names = parts_of(argument);
        assert(views(names@).len() == names@.len());
        let several = names.len() > 1 || (dot && names.len() == 1);
        if present || rooted || several {
            return string_of(&cs);
        }
        match (&self.statements.directory, directory) {
            (Some(_), Some(d)) => crate::git::join(d, argument),
            _ => string_of(&cs),
        }
    }
}

/// A relative path that starts with a `.` component of its own.
pub open spec fn leads_with_dot(s: Seq<char>) -> bool {
    s.len() > 0 && s[0] == '.' && (s.len() == 1 || s[1] == '/')
}

/// How many components `Path::components` finds in a path: the root, a
/// leading `.`, and each name between slashes; empty pieces and any other
/// `.` are skipped.
pub open spec fn component_count(s: Seq<char>) -> int {
    let (rooted, names) = path_parts(s);
    (if rooted {
        1int
    } else {
        0int
    }) + (if leads_with_dot(s) {
        1int
    } else {
        0int
    }) + names.len()
}

proof fn lemma_first_bad(ss: Seq<TableSource>, j: int)
    requires
        0 <= j <= ss.len(),
        first_bad_source(ss.take(j)) is Some,
    ensures
        first_bad_source(ss) == first_bad_source(ss.take(j)),
    decreases ss.len(),
{
    if ss.len() > j {
        assert(ss.drop_last().take(j) =~= ss.take(j));
        lemma_first_bad(ss.drop_last(), j);
    } else {
        assert(ss.take(j) =~= ss);
    }
}

/// Settings as read: with no `[[table]]` entries, the bundled table.
pub fn with_default_tables(settings: Settings) -> (r: Settings)
    ensures
        settings.tables@.len() == 0 ==> is_default_tables(r.tables@),
        settings.tables@.len() > 0 ==> r.tables == settings.tables,
        r.statements == settings.statements,
        r.marks == settings.marks,
        r.budgets == settings.budgets,
{
    if settings.tables.len() == 0 {
        let Settings { tables: _, statements, marks, budgets } = settings;
        Settings { tables: default_tables(), statements, marks, budgets }
    } else {
        settings
    }
}

} // verus!

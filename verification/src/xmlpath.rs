//! The little path language IntelliJ patches address XML with:
//! `project/component[@name='Foo']/option[@name='x']`, and `option/@value`
//! for the key a child is recognised by.

use vstd::prelude::*;

use crate::statement::string_views;
use crate::text::{
    chars_of, find_char, first_index, lemma_first_index, slice_vec, split_at_char, split_chars,
    string_of, trim, trim_chars, views,
};

verus! {

/// One step of a path: a tag, and attributes it must have.
#[derive(Debug, Clone, PartialEq, Eq)]
pub struct PathStep {
    pub tag: String,
    pub attrs: Vec<(String, String)>,
}

/// Where a child's key is found: a path below it and an attribute.
#[derive(Debug, Clone, PartialEq, Eq)]
pub struct MatchPath {
    pub steps: Vec<PathStep>,
    pub attribute: String,
}

/// What is wrong with a path.
#[derive(Debug, Clone, PartialEq, Eq)]
pub enum PathError {
    /// Nothing but slashes and whitespace.
    EmptyPath,
    /// A step with predicates but no tag.
    MissingTag { step: String },
    /// Something other than a predicate after a tag.
    ExpectedBracket { found: String },
    /// A predicate that does not close.
    MissingClose { found: String },
    /// A predicate that is not `[@name='value']`.
    NotAttribute { predicate: String },
    /// An attribute predicate without `=`.
    MissingEquals { predicate: String },
    /// A predicate value that is not quoted.
    Unquoted { value: String },
    /// An empty match-by.
    EmptyMatchBy,
    /// A match-by whose last segment is not `@attr`.
    NoAttribute { last: String },
}

pub enum PathFault {
    EmptyPath,
    MissingTag(Seq<char>),
    ExpectedBracket(Seq<char>),
    MissingClose(Seq<char>),
    NotAttribute(Seq<char>),
    MissingEquals(Seq<char>),
    Unquoted(Seq<char>),
    EmptyMatchBy,
    NoAttribute(Seq<char>),
}

impl View for PathError {
    type V = PathFault;

    open spec fn view(&self) -> PathFault {
        match self {
            PathError::EmptyPath => PathFault::EmptyPath,
            PathError::MissingTag { step } => PathFault::MissingTag(step@),
            PathError::ExpectedBracket { found } => PathFault::ExpectedBracket(found@),
            PathError::MissingClose { found } => PathFault::MissingClose(found@),
            PathError::NotAttribute { predicate } => PathFault::NotAttribute(predicate@),
            PathError::MissingEquals { predicate } => PathFault::MissingEquals(predicate@),
            PathError::Unquoted { value } => PathFault::Unquoted(value@),
            PathError::EmptyMatchBy => PathFault::EmptyMatchBy,
            PathError::NoAttribute { last } => PathFault::NoAttribute(last@),
        }
    }
}

pub type AttrsView = Seq<(Seq<char>, Seq<char>)>;

pub struct StepView {
    pub tag: Seq<char>,
    pub attrs: AttrsView,
}

pub open spec fn attrs_view(a: Seq<(String, String)>) -> AttrsView {
    a.map_values(|p: (String, String)| (p.0@, p.1@))
}

impl View for PathStep {
    type V = StepView;

    open spec fn view(&self) -> StepView {
        StepView { tag: self.tag@, attrs: attrs_view(self.attrs@) }
    }
}

pub open spec fn step_views(s: Seq<PathStep>) -> Seq<StepView> {
    s.map_values(|p: PathStep| p@)
}

/// A value between matching single or double quotes, without them.
pub open spec fn unquoted(s: Seq<char>) -> Option<Seq<char>> {
    if s.len() >= 2 && ((s[0] == '\'' && s.last() == '\'') || (s[0] == '"' && s.last() == '"')) {
        Some(s.subrange(1, s.len() - 1))
    } else {
        None
    }
}

/// The text between matching quotes, if it is quoted.
pub fn strip_quotes(s: &[char]) -> (r: Option<Vec<char>>)
    ensures
        match r {
            Some(v) => unquoted(s@) == Some(v@),
            None => unquoted(s@) is None,
        },
{
    let n = s.len();
    if n >= 2 && ((s[0] == '\'' && s[n - 1] == '\'') || (s[0] == '"' && s[n - 1] == '"')) {
        Some(slice_vec(s, 1, n - 1))
    } else {
        None
    }
}

/// A run of attribute predicates, `[@name='value']` each, read in order;
/// the first that is not one is the answer.
pub open spec fn predicates_of(s: Seq<char>) -> Result<AttrsView, PathFault>
    decreases s.len(),
{
    if s.len() == 0 {
        Ok(Seq::empty())
    } else if s[0] != '[' {
        Err(PathFault::ExpectedBracket(s))
    } else {
        let end = first_index(s, ']');
        if end >= s.len() {
            Err(PathFault::MissingClose(s))
        } else {
            proof {
                lemma_first_index(s, ']');
            }
            let inner = trim(s.subrange(1, end));
            if inner.len() == 0 || inner[0] != '@' {
                Err(PathFault::NotAttribute(inner))
            } else {
                let body = inner.drop_first();
                let eq = first_index(body, '=');
                if eq >= body.len() {
                    Err(PathFault::MissingEquals(body))
                } else {
                    let name = trim(body.take(eq));
                    let raw = trim(body.skip(eq + 1));
                    match unquoted(raw) {
                        None => Err(PathFault::Unquoted(raw)),
                        Some(v) => match predicates_of(s.skip(end + 1)) {
                            Err(e) => Err(e),
                            Ok(rest) => Ok(seq![(name, v)] + rest),
                        },
                    }
                }
            }
        }
    }
}

fn predicates(s: &[char]) -> (r: Result<Vec<(String, String)>, PathError>)
    ensures
        match r {
            Ok(v) => predicates_of(s@) == Ok::<AttrsView, PathFault>(attrs_view(v@)),
            Err(e) => predicates_of(s@) == Err::<AttrsView, PathFault>(e@),
        },
    decreases s.len(),
{
    if s.len() == 0 {
        let v: Vec<(String, String)> = Vec::new();
        assert(attrs_view(v@) =~= Seq::<(Seq<char>, Seq<char>)>::empty());
        return Ok(v);
    }
    if s[0] != '[' {
        let found = string_of(&slice_vec(s, 0, s.len()));
        assert(s@.subrange(0, s@.len() as int) =~= s@);
        return Err(PathError::ExpectedBracket { found });
    }
    let end = find_char(s, ']');
    proof {
        lemma_first_index(s@, ']');
    }
    if end == s.len() {
        let found = string_of(&slice_vec(s, 0, s.len()));
        assert(s@.subrange(0, s@.len() as int) =~= s@);
        return Err(PathError::MissingClose { found });
    }
    let inner = trim_chars(&slice_vec(s, 1, end));
    if inner.len() == 0 || inner[0] != '@' {
        return Err(PathError::NotAttribute { predicate: string_of(&inner) });
    }
    let body = slice_vec(&inner, 1, inner.len());
    assert(body@ =~= inner@.drop_first());
    let eq = find_char(&body, '=');
    proof {
        lemma_first_index(body@, '=');
    }
    if eq == body.len() {
        return Err(PathError::MissingEquals { predicate: string_of(&body) });
    }
    let name = trim_chars(&slice_vec(&body, 0, eq));
    let raw = trim_chars(&slice_vec(&body, eq + 1, body.len()));
    assert(body@.subrange(0, eq as int) =~= body@.take(eq as int));
    assert(body@.subrange(eq + 1, body@.len() as int) =~= body@.skip(eq + 1));
    let value = match strip_quotes(&raw) {
        Some(v) => v,
        None => {
            return Err(PathError::Unquoted { value: string_of(&raw) });
        },
    };
    let tail = slice_vec(s, end + 1, s.len());
    assert(tail@ =~= s@.skip(end + 1));
    let mut rest = predicates(&tail)?;
    let ghost later = attrs_view(rest@);
    let first = (string_of(&name), string_of(&value));
    rest.insert(0, first);
    assert(attrs_view(rest@) =~= seq![(name@, value@)] + later);
    Ok(rest)
}

/// Reads attribute predicates: `[@name='value']`, any number of them.
pub fn parse_attr_predicates(s: &str) -> (r: Result<Vec<(String, String)>, PathError>)
    ensures
        match r {
            Ok(v) => predicates_of(s@) == Ok::<AttrsView, PathFault>(attrs_view(v@)),
            Err(e) => predicates_of(s@) == Err::<AttrsView, PathFault>(e@),
        },
{
    predicates(&chars_of(s))
}

/// One step: a tag, then its predicates, the whole trimmed.
pub open spec fn step_of(input: Seq<char>) -> Result<StepView, PathFault> {
    let s = trim(input);
    let b = first_index(s, '[');
    let tag = s.take(b);
    let rest = if b < s.len() {
        s.skip(b)
    } else {
        Seq::empty()
    };
    if tag.len() == 0 {
        Err(PathFault::MissingTag(input))
    } else {
        match predicates_of(rest) {
            Err(e) => Err(e),
            Ok(attrs) => Ok(StepView { tag, attrs }),
        }
    }
}

/// Reads one step of a path.
pub fn parse_step(input: &str) -> (r: Result<PathStep, PathError>)
    ensures
        match r {
            Ok(step) => step_of(input@) == Ok::<StepView, PathFault>(step@),
            Err(e) => step_of(input@) == Err::<StepView, PathFault>(e@),
        },
{
    let s = trim_chars(&chars_of(input));
    let b = find_char(&s, '[');
    proof {
        lemma_first_index(s@, '[');
    }
    let tag = slice_vec(&s, 0, b);
    assert(tag@ =~= s@.take(b as int));
    if tag.len() == 0 {
        return Err(PathError::MissingTag { step: string_of(&chars_of(input)) });
    }
    let rest = slice_vec(&s, b, s.len());
    assert(rest@ =~= if b < s@.len() {
        s@.skip(b as int)
    } else {
        Seq::<char>::empty()
    });
    let attrs = predicates(&rest)?;
    Ok(PathStep { tag: string_of(&tag), attrs })
}

/// Leading `/` characters dropped.
pub open spec fn without_leading_slashes(s: Seq<char>) -> Seq<char>
    decreases s.len(),
{
    if s.len() > 0 && s[0] == '/' {
        without_leading_slashes(s.drop_first())
    } else {
        s
    }
}

/// The steps of the pieces, read in order; the first that fails is the
/// answer.
pub open spec fn steps_of(pieces: Seq<Seq<char>>) -> Result<Seq<StepView>, PathFault>
    decreases pieces.len(),
{
    if pieces.len() == 0 {
        Ok(Seq::empty())
    } else {
        match steps_of(pieces.drop_last()) {
            Err(e) => Err(e),
            Ok(ss) => match step_of(pieces.last()) {
                Err(e) => Err(e),
                Ok(st) => Ok(ss.push(st)),
            },
        }
    }
}

/// A path: trimmed, leading slashes dropped, then steps between slashes.
pub open spec fn path_of(input: Seq<char>) -> Result<Seq<StepView>, PathFault> {
    let t = without_leading_slashes(trim(input));
    if t.len() == 0 {
        Err(PathFault::EmptyPath)
    } else {
        steps_of(split_at_char(t, '/'))
    }
}

proof fn lemma_steps_err(pieces: Seq<Seq<char>>, j: int)
    requires
        0 <= j <= pieces.len(),
        steps_of(pieces.take(j)) is Err,
    ensures
        steps_of(pieces) == steps_of(pieces.take(j)),
    decreases pieces.len(),
{
    if pieces.len() > j {
        assert(pieces.drop_last().take(j) =~= pieces.take(j));
        lemma_steps_err(pieces.drop_last(), j);
    } else {
        assert(pieces.take(j) =~= pieces);
    }
}

fn parse_steps(pieces: &Vec<Vec<char>>, count: usize) -> (r: Result<Vec<PathStep>, PathError>)
    requires
        count <= pieces@.len(),
    ensures
        match r {
            Ok(ss) => steps_of(views(pieces@).take(count as int)) == Ok::<
                Seq<StepView>,
                PathFault,
            >(step_views(ss@)),
            Err(e) => steps_of(views(pieces@).take(count as int)) == Err::<
                Seq<StepView>,
                PathFault,
            >(e@),
        },
{
    let ghost all = views(pieces@).take(count as int);
    let mut out: Vec<PathStep> = Vec::new();
    let mut k: usize = 0;
    assert(all.take(0) =~= Seq::<Seq<char>>::empty());
    assert(step_views(out@) =~= Seq::<StepView>::empty());
    while k < count
        invariant
            k <= count <= pieces@.len(),
            all == views(pieces@).take(count as int),
            steps_of(all.take(k as int)) == Ok::<Seq<StepView>, PathFault>(step_views(out@)),
        decreases count - k,
    {
        assert(all.take(k + 1).drop_last() =~= all.take(k as int));
        assert(all.take(k + 1).last() == pieces@[k as int]@);
        let text = string_of(&pieces[k]);
        match parse_step(text.as_str()) {
            Ok(step) => {
                let ghost before = step_views(out@);
                out.push(step);
                assert(step_views(out@) =~= before.push(step@));
            },
            Err(e) => {
                proof {
                    lemma_steps_err(all, k + 1);
                }
                assert(all.take(count as int) =~= all);
                return Err(e);
            },
        }
        k = k + 1;
    }
    assert(all.take(k as int) =~= all);
    Ok(out)
}

/// Reads a path of steps.
pub fn parse_path(input: &str) -> (r: Result<Vec<PathStep>, PathError>)
    ensures
        match r {
            Ok(ss) => path_of(input@) == Ok::<Seq<StepView>, PathFault>(step_views(ss@)),
            Err(e) => path_of(input@) == Err::<Seq<StepView>, PathFault>(e@),
        },
{
    let s = trim_chars(&chars_of(input));
    let mut i: usize = 0;
    assert(s@.skip(0) =~= s@);
    while i < s.len() && s[i] == '/'
        invariant
            i <= s@.len(),
            without_leading_slashes(s@) == without_leading_slashes(s@.skip(i as int)),
        decreases s.len() - i,
    {
        assert(s@.skip(i as int).drop_first() =~= s@.skip(i + 1));
        i = i + 1;
    }
    let t = slice_vec(&s, i, s.len());
    assert(t@ =~= s@.skip(i as int));
    if t.len() == 0 {
        return Err(PathError::EmptyPath);
    }
    let pieces = split_chars(&t, '/');
    let r = parse_steps(&pieces, pieces.len());
    assert(views(pieces@).take(pieces@.len() as int) =~= views(pieces@));
    r
}

/// A match-by: steps, then `@attribute` as the last segment.
pub open spec fn match_by_of(input: Seq<char>) -> Result<(Seq<StepView>, Seq<char>), PathFault> {
    let t = trim(input);
    let parts = split_at_char(t, '/');
    let last = parts.last();
    if t.len() == 0 {
        Err(PathFault::EmptyMatchBy)
    } else if last.len() == 0 || last[0] != '@' {
        Err(PathFault::NoAttribute(last))
    } else {
        match steps_of(parts.drop_last()) {
            Err(e) => Err(e),
            Ok(ss) => Ok((ss, last.drop_first())),
        }
    }
}

/// Reads a match-by: where below a child its key attribute is.
pub fn parse_match_by(input: &str) -> (r: Result<MatchPath, PathError>)
    ensures
        match r {
            Ok(m) => match_by_of(input@) == Ok::<(Seq<StepView>, Seq<char>), PathFault>(
                (step_views(m.steps@), m.attribute@),
            ),
            Err(e) => match_by_of(input@) == Err::<(Seq<StepView>, Seq<char>), PathFault>(e@),
        },
{
    let t = trim_chars(&chars_of(input));
    if t.len() == 0 {
        return Err(PathError::EmptyMatchBy);
    }
    let parts = split_chars(&t, '/');
    proof {
        crate::text::lemma_split_nonempty(t@, '/');
    }
    let n = parts.len();
    let last = &parts[n - 1];
    assert(last@ == split_at_char(t@, '/').last());
    if last.len() == 0 || last[0] != '@' {
        return Err(PathError::NoAttribute { last: string_of(last) });
    }
    let attribute = string_of(&slice_vec(last, 1, last.len()));
    assert(last@.subrange(1, last@.len() as int) =~= last@.drop_first());
    let steps = parse_steps(&parts, n - 1)?;
    assert(views(parts@).take(n - 1) =~= split_at_char(t@, '/').drop_last());
    Ok(MatchPath { steps, attribute })
}

} // verus!

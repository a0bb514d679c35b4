use vstd::prelude::*;

verus! {

#[verifier::external_type_specification]
#[verifier::external_body]
pub struct ExPattern(glob::Pattern);

/// Whether `glob::Pattern::new` accepts a pattern text.
pub uninterp spec fn glob_accepts(pattern: Seq<char>) -> bool;

/// Whether the pattern compiled from `pattern` matches `name` with glob's
/// default match options.
pub uninterp spec fn glob_matches(pattern: Seq<char>, name: Seq<char>) -> bool;

/// A compiled shell-style pattern, together with the text it was compiled from.
///
/// The fields are private and only `compile_glob` fills them, so `compiled`
/// is always the compilation of `text`.
pub struct Glob {
    text: String,
    compiled: glob::Pattern,
}

/// Relies on glob::Pattern::new: it compiles the text or reports a
/// malformed pattern, depending on the text alone.
#[verifier::external_body]
fn compile_glob(text: &str) -> (r: Option<Glob>)
    ensures
        r is Some <==> glob_accepts(text@),
        r matches Some(g) ==> g@ == text@,
{
    match glob::Pattern::new(text) {
        Ok(p) => Some(Glob { text: text.to_string(), compiled: p }),
        Err(_) => None,
    }
}

/// Relies on glob::Pattern::matches: whether a name matches the compiled
/// pattern, which depends on the pattern's text and the name alone.
#[verifier::external_body]
fn glob_match(g: &Glob, name: &str) -> (r: bool)
    ensures
        r == glob_matches(g@, name@),
{
    g.compiled.matches(name)
}

impl View for Glob {
    type V = Seq<char>;

    closed spec fn view(&self) -> Seq<char> {
        self.text@
    }
}

impl Glob {
    /// Compiles `text`; `None` when the text is not a well-formed pattern.
    pub fn parse(text: &str) -> (r: Option<Glob>)
        ensures
            r is Some <==> glob_accepts(text@),
            r matches Some(g) ==> g@ == text@,
    {
        compile_glob(text)
    }

    /// The text this pattern was compiled from.
    pub fn as_text(&self) -> (r: &str)
        ensures
            r@ == self@,
    {
        self.text.as_str()
    }

    /// Whether `name` matches this pattern.
    pub fn matches(&self, name: &str) -> (r: bool)
        ensures
            r == glob_matches(self@, name@),
    {
        glob_match(self, name)
    }
}

/// Whether some pattern of `patterns` matches `name`.
pub open spec fn any_matches(patterns: Seq<Seq<char>>, name: Seq<char>) -> bool {
    exists|i: int| 0 <= i < patterns.len() && glob_matches(#[trigger] patterns[i], name)
}

/// The pattern texts that glob accepts, in their order.
pub open spec fn accepted(texts: Seq<Seq<char>>) -> Seq<Seq<char>> {
    texts.filter(|t: Seq<char>| glob_accepts(t))
}

pub open spec fn texts_of(v: Seq<String>) -> Seq<Seq<char>> {
    v.map_values(|s: String| s@)
}

pub open spec fn globs_of(v: Seq<Glob>) -> Seq<Seq<char>> {
    v.map_values(|g: Glob| g@)
}

/// What a `Filter` decides by: the texts of its include and exclude patterns.
pub struct FilterSpec {
    pub includes: Seq<Seq<char>>,
    pub excludes: Seq<Seq<char>>,
}

impl FilterSpec {
    /// A name is excluded when any exclude pattern matches it.
    pub open spec fn excludes_name(self, name: Seq<char>) -> bool {
        any_matches(self.excludes, name)
    }

    /// A name is included when there are no include patterns, or one matches it.
    pub open spec fn includes_name(self, name: Seq<char>) -> bool {
        self.includes.len() == 0 || any_matches(self.includes, name)
    }
}

/// The two pattern lists that decide which entries of a tree survive:
/// exclusion first and absolute, then inclusion, which admits everything
/// when it has no patterns.
pub struct Filter {
    includes: Vec<Glob>,
    excludes: Vec<Glob>,
}

impl View for Filter {
    type V = FilterSpec;

    closed spec fn view(&self) -> FilterSpec {
        FilterSpec { includes: globs_of(self.includes@), excludes: globs_of(self.excludes@) }
    }
}

/// Compiles each text that glob accepts, keeping their order; the others
/// are left out.
fn compile_all(texts: &Vec<String>) -> (r: Vec<Glob>)
    ensures
        globs_of(r@) == accepted(texts_of(texts@)),
{
    let mut out: Vec<Glob> = Vec::new();
    let mut i: usize = 0;
    while i < texts.len()
        invariant
            i <= texts@.len(),
            globs_of(out@) == accepted(texts_of(texts@).take(i as int)),
        decreases texts@.len() - i,
    {
        let ghost before = texts_of(texts@).take(i as int);
        assert(texts_of(texts@).take(i + 1) =~= before.push(texts@[i as int]@));
        reveal(Seq::filter);
        assert(before.push(texts@[i as int]@).drop_last() =~= before);
        match Glob::parse(texts[i].as_str()) {
            Some(g) => {
                out.push(g);
                assert(globs_of(out@) =~= globs_of(out@.drop_last()).push(g@));
            },
            None => {},
        }
        i = i + 1;
    }
    assert(texts_of(texts@).take(texts@.len() as int) =~= texts_of(texts@));
    out
}

/// Whether some pattern of `patterns` matches `name`.
fn any_glob_matches(patterns: &Vec<Glob>, name: &str) -> (r: bool)
    ensures
        r == any_matches(globs_of(patterns@), name@),
{
    let mut i: usize = 0;
    while i < patterns.len()
        invariant
            i <= patterns@.len(),
            forall|j: int| 0 <= j < i ==> !glob_matches(#[trigger] globs_of(patterns@)[j], name@),
        decreases patterns@.len() - i,
    {
        if patterns[i].matches(name) {
            assert(glob_matches(globs_of(patterns@)[i as int], name@));
            return true;
        }
        i = i + 1;
    }
    false
}

impl Filter {
    /// Builds a filter from pattern texts; texts that are not well-formed
    /// patterns are dropped silently.
    pub fn new(includes: &Vec<String>, excludes: &Vec<String>) -> (r: Filter)
        ensures
            r@.includes == accepted(texts_of(includes@)),
            r@.excludes == accepted(texts_of(excludes@)),
    {
        Filter { includes: compile_all(includes), excludes: compile_all(excludes) }
    }

    /// Whether an exclude pattern matches `name`.
    pub fn is_excluded(&self, name: &str) -> (r: bool)
        ensures
            r == self@.excludes_name(name@),
    {
        any_glob_matches(&self.excludes, name)
    }

    /// Whether `name` passes the include patterns (always, when there are none).
    pub fn is_included(&self, name: &str) -> (r: bool)
        ensures
            r == self@.includes_name(name@),
    {
        if self.includes.len() == 0 {
            return true;
        }
        any_glob_matches(&self.includes, name)
    }
}

} // verus!

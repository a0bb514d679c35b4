use vstd::prelude::*;

pub mod pattern;
pub mod render;
pub mod search;
pub mod split;
pub mod tree;

use crate::pattern::texts_of;

verus! {

/// How `split` places each file in its destination.
#[derive(Debug, Clone, Copy)]
pub enum SplitStrategy {
    /// Rename the file into place (the default; the source loses it).
    Move,
    /// Copy the file (`--copy`).
    Copy,
    /// Hard-link the file, copying where linking fails (`--hard-link`).
    HardLink,
}

/// A command of the tool, with its arguments.
#[derive(Debug)]
pub enum Command {
    Tree { path: String, includes: Vec<String>, excludes: Vec<String> },
    Find { pattern: String, root_dir: String },
    Clean { pattern: String, root_dir: String },
    /// `ratio` is the argument given for the train ratio, unparsed.
    Split { src: String, dst: String, ratio: Option<String>, strategy: SplitStrategy },
    Env { key: String, val: String, group: String },
    Help,
}

/// The parsed command line.
pub struct Config {
    pub cmd: Command,
}

pub const MISSING_PATTERN: &'static str = "❌Missing pattern (ex *.pyc)";

pub const MISSING_SOURCE: &'static str = "❌Missing source folder";

pub const BOTH_STRATEGIES: &'static str =
    "❌ You must select each `--hard-link` or `--copy` flag, not both.";

pub const MISSING_KEY: &'static str = "❌Missing key";

pub const MISSING_VALUE: &'static str = "❌Missing value";

pub const UNKNOWN_COMMAND: &'static str =
    "❌ Unknown command! Type 'ez_cli help' for instructions.";

/// The pieces of `s` between the occurrences of `delimiter`, as
/// `str::split` yields them.
pub uninterp spec fn split_pieces(s: Seq<char>, delimiter: Seq<char>) -> Seq<Seq<char>>;

/// `s` without leading and trailing white space, as `str::trim` gives it.
pub uninterp spec fn trimmed(s: Seq<char>) -> Seq<char>;

/// Relies on str::split: the pieces between the delimiter's occurrences.
#[verifier::external_body]
fn split_text(s: &str, delimiter: &str) -> (r: Vec<String>)
    ensures
        texts_of(r@) == split_pieces(s@, delimiter@),
{
    s.split(delimiter).map(|p| p.to_string()).collect()
}

/// Relies on str::trim: the text without surrounding white space.
#[verifier::external_body]
fn trim_text(s: &str) -> (r: String)
    ensures
        r@ == trimmed(s@),
{
    s.trim().to_string()
}

/// Some argument equals `flag`.
pub open spec fn has_flag(args: Seq<String>, flag: Seq<char>) -> bool {
    exists|i: int| 0 <= i < args.len() && (#[trigger] args[i])@ == flag
}

/// The argument after the first occurrence of `flag`, if both exist.
pub open spec fn value_after(args: Seq<String>, flag: Seq<char>) -> Option<String>
    decreases args.len(),
{
    if args.len() == 0 {
        None
    } else if args[0]@ == flag {
        if args.len() > 1 {
            Some(args[1])
        } else {
            None
        }
    } else {
        value_after(args.drop_first(), flag)
    }
}

/// The trimmed pieces of a delimited list; none when there is no list.
pub open spec fn pattern_list(list: Option<String>, delimiter: Seq<char>) -> Seq<Seq<char>> {
    match list {
        Some(s) => split_pieces(s@, delimiter).map_values(|p: Seq<char>| trimmed(p)),
        None => Seq::empty(),
    }
}

/// Whether some argument equals `flag`.
pub fn is_flag_exist(args: &[String], flag: &str) -> (r: bool)
    ensures
        r == has_flag(args@, flag@),
{
    let wanted = String::from_str(flag);
    let mut i: usize = 0;
    while i < args.len()
        invariant
            i <= args@.len(),
            wanted@ == flag@,
            forall|j: int| 0 <= j < i ==> (#[trigger] args@[j])@ != flag@,
        decreases args@.len() - i,
    {
        if args[i] == wanted {
            return true;
        }
        i = i + 1;
    }
    false
}

/// Splits an optional list at `delimiter` and trims each piece; an absent
/// list gives no pieces.
pub fn convert_list_patterns(pattern_opt: &Option<String>, delimiter: &str) -> (r: Vec<String>)
    ensures
        texts_of(r@) == pattern_list(*pattern_opt, delimiter@),
{
    match pattern_opt {
        Some(s) => {
            let pieces = split_text(s.as_str(), delimiter);
            let mut out: Vec<String> = Vec::new();
            let mut i: usize = 0;
            while i < pieces.len()
                invariant
                    i <= pieces@.len(),
                    texts_of(pieces@) == split_pieces(s@, delimiter@),
                    texts_of(out@) == texts_of(pieces@).take(i as int).map_values(
                        |p: Seq<char>| trimmed(p),
                    ),
                decreases pieces@.len() - i,
            {
                let t = trim_text(pieces[i].as_str());
                let ghost before = out@;
                out.push(t);
                assert(texts_of(out@) =~= texts_of(before).push(t@));
                assert(texts_of(out@) =~= texts_of(pieces@).take(i + 1).map_values(
                    |p: Seq<char>| trimmed(p),
                )) by {
                    assert(texts_of(pieces@)[i as int] == pieces@[i as int]@);
                }
                i = i + 1;
            }
            assert(texts_of(pieces@).take(pieces@.len() as int) =~= texts_of(pieces@));
            out
        },
        None => {
            let out: Vec<String> = Vec::new();
            assert(texts_of(out@) =~= Seq::<Seq<char>>::empty());
            out
        },
    }
}

/// The argument that follows the first `flag`, if there is one.
pub fn find_flag_value(args: &[String], flag: &str) -> (r: Option<String>)
    ensures
        r == value_after(args@, flag@),
{
    let wanted = String::from_str(flag);
    let mut i: usize = 0;
    assert(args@.skip(0) =~= args@);
    while i < args.len()
        invariant
            i <= args@.len(),
            wanted@ == flag@,
            value_after(args@, flag@) == value_after(args@.skip(i as int), flag@),
        decreases args@.len() - i,
    {
        if args[i] == wanted {
            if i + 1 < args.len() {
                return Some(args[i + 1].clone());
            }
            return None;
        }
        assert(args@.skip(i as int).drop_first() =~= args@.skip(i + 1));
        i = i + 1;
    }
    None
}

/// The command word is `w`.
pub open spec fn word_is(args: Seq<String>, w: Seq<char>) -> bool {
    args.len() >= 2 && args[1]@ == w
}

/// The text of argument `i`, or `default` when there are fewer arguments.
pub open spec fn arg_or(args: Seq<String>, i: int, default: Seq<char>) -> Seq<char> {
    if i < args.len() {
        args[i]@
    } else {
        default
    }
}

/// The command word names no command.
pub open spec fn unknown_word(args: Seq<String>) -> bool {
    args.len() >= 2 && !word_is(args, "tree"@) && !word_is(args, "find"@) && !word_is(
        args,
        "clean"@,
    ) && !word_is(args, "split"@) && !word_is(args, "env"@) && !word_is(args, "help"@)
        && !word_is(args, "--help"@) && !word_is(args, "-h"@)
}

/// The strategy that the flags choose, where they do not conflict.
pub open spec fn chosen_strategy(args: Seq<String>) -> SplitStrategy {
    if has_flag(args, "--hard-link"@) {
        SplitStrategy::HardLink
    } else if has_flag(args, "--copy"@) {
        SplitStrategy::Copy
    } else {
        SplitStrategy::Move
    }
}

/// The argument at `i`, if there is one.
fn arg_at(args: &[String], i: usize) -> (r: Option<String>)
    ensures
        r == (if i < args@.len() {
            Some(args@[i as int])
        } else {
            None
        }),
{
    if i < args.len() {
        Some(args[i].clone())
    } else {
        None
    }
}

/// The text of the argument at `i`, or `default`.
fn arg_or_default(args: &[String], i: usize, default: &str) -> (r: String)
    ensures
        r@ == arg_or(args@, i as int, default@),
{
    if i < args.len() {
        args[i].clone()
    } else {
        String::from_str(default)
    }
}

fn word_eq(args: &[String], w: &str) -> (r: bool)
    requires
        args@.len() >= 2,
    ensures
        r == word_is(args@, w@),
{
    args[1] == String::from_str(w)
}

proof fn lemma_words_distinct()
    ensures
        "tree"@ != "find"@,
        "tree"@ != "clean"@,
        "tree"@ != "split"@,
        "tree"@ != "env"@,
        "tree"@ != "help"@,
        "tree"@ != "--help"@,
        "tree"@ != "-h"@,
        "find"@ != "clean"@,
        "find"@ != "split"@,
        "find"@ != "env"@,
        "find"@ != "help"@,
        "find"@ != "--help"@,
        "find"@ != "-h"@,
        "clean"@ != "split"@,
        "clean"@ != "env"@,
        "clean"@ != "help"@,
        "clean"@ != "--help"@,
        "clean"@ != "-h"@,
        "split"@ != "env"@,
        "split"@ != "help"@,
        "split"@ != "--help"@,
        "split"@ != "-h"@,
        "env"@ != "help"@,
        "env"@ != "--help"@,
        "env"@ != "-h"@,
        "help"@ != "--help"@,
        "help"@ != "-h"@,
        "--help"@ != "-h"@,
{
    reveal_strlit("tree");
    reveal_strlit("find");
    reveal_strlit("clean");
    reveal_strlit("split");
    reveal_strlit("env");
    reveal_strlit("help");
    reveal_strlit("--help");
    reveal_strlit("-h");
    assert("tree"@.len() == 4);
    assert("find"@.len() == 4);
    assert("clean"@.len() == 5);
    assert("split"@.len() == 5);
    assert("env"@.len() == 3);
    assert("help"@.len() == 4);
    assert("--help"@.len() == 6);
    assert("-h"@.len() == 2);
    assert("clean"@[0] != "split"@[0]);
    assert("find"@[0] != "help"@[0]);
    assert("tree"@[0] != "find"@[0]);
    assert("tree"@[0] != "help"@[0]);
}

impl Config {
    /// Parses the command line; `args[0]` is the program and `args[1]` the
    /// command word. No command word means help.
    pub fn build(args: &[String]) -> (r: Result<Config, &'static str>)
        ensures
            args@.len() < 2 ==> (r matches Ok(c) && c.cmd is Help),
            word_is(args@, "tree"@) ==> (r matches Ok(c) && c.cmd matches Command::Tree {
                path,
                includes,
                excludes,
            } && path@ == arg_or(args@, 2, "."@) && texts_of(includes@) == pattern_list(
                value_after(args@, "--include"@),
                ","@,
            ) && texts_of(excludes@) == pattern_list(value_after(args@, "--exclude"@), ","@)),
            word_is(args@, "find"@) ==> if args@.len() < 3 {
                r == Err::<Config, &'static str>(MISSING_PATTERN)
            } else {
                r matches Ok(c) && c.cmd matches Command::Find { pattern, root_dir } && pattern
                    == args@[2] && root_dir@ == arg_or(args@, 3, "."@)
            },
            word_is(args@, "clean"@) ==> if args@.len() < 3 {
                r == Err::<Config, &'static str>(MISSING_PATTERN)
            } else {
                r matches Ok(c) && c.cmd matches Command::Clean { pattern, root_dir } && pattern
                    == args@[2] && root_dir@ == arg_or(args@, 3, "."@)
            },
            word_is(args@, "split"@) ==> if has_flag(args@, "--hard-link"@) && has_flag(
                args@,
                "--copy"@,
            ) {
                r == Err::<Config, &'static str>(BOTH_STRATEGIES)
            } else if args@.len() < 3 {
                r == Err::<Config, &'static str>(MISSING_SOURCE)
            } else {
                r matches Ok(c) && c.cmd matches Command::Split { src, dst, ratio, strategy }
                    && src == args@[2] && dst@ == arg_or(args@, 3, "."@) && ratio == (if args@.len()
                    > 3 {
                    Some(args@[3])
                } else {
                    None
                }) && strategy == chosen_strategy(args@)
            },
            word_is(args@, "env"@) ==> if args@.len() < 3 {
                r == Err::<Config, &'static str>(MISSING_KEY)
            } else if args@.len() < 4 {
                r == Err::<Config, &'static str>(MISSING_VALUE)
            } else {
                r matches Ok(c) && c.cmd matches Command::Env { key, val, group } && key
                    == args@[2] && val == args@[3] && group@ == match value_after(
                    args@,
                    "--group"@,
                ) {
                    Some(g) => g@,
                    None => "default"@,
                }
            },
            word_is(args@, "help"@) || word_is(args@, "--help"@) || word_is(args@, "-h"@) ==> (r matches Ok(c)
                && c.cmd is Help),
            unknown_word(args@) ==> r == Err::<Config, &'static str>(UNKNOWN_COMMAND),
    {
        if args.len() < 2 {
            return Ok(Config { cmd: Command::Help });
        }
        proof {
            lemma_words_distinct();
        }
        let cmd = if word_eq(args, "tree") {
            let path = arg_or_default(args, 2, ".");
            let includes = convert_list_patterns(&find_flag_value(args, "--include"), ",");
            let excludes = convert_list_patterns(&find_flag_value(args, "--exclude"), ",");
            Command::Tree { path, includes, excludes }
        } else if word_eq(args, "find") {
            let pattern = match arg_at(args, 2) {
                Some(p) => p,
                None => {
                    return Err(MISSING_PATTERN);
                },
            };
            Command::Find { pattern, root_dir: arg_or_default(args, 3, ".") }
        } else if word_eq(args, "clean") {
            let pattern = match arg_at(args, 2) {
                Some(p) => p,
                None => {
                    return Err(MISSING_PATTERN);
                },
            };
            Command::Clean { pattern, root_dir: arg_or_default(args, 3, ".") }
        } else if word_eq(args, "split") {
            let src = arg_at(args, 2);
            let dst = arg_or_default(args, 3, ".");
            let ratio = arg_at(args, 3);
            let hard_link = is_flag_exist(args, "--hard-link");
            let copy = is_flag_exist(args, "--copy");
            let strategy = if hard_link && copy {
                return Err(BOTH_STRATEGIES);
            } else if hard_link {
                SplitStrategy::HardLink
            } else if copy {
                SplitStrategy::Copy
            } else {
                SplitStrategy::Move
            };
            match src {
                Some(src) => Command::Split { src, dst, ratio, strategy },
                None => {
                    return Err(MISSING_SOURCE);
                },
            }
        } else if word_eq(args, "env") {
            let key = match arg_at(args, 2) {
                Some(k) => k,
                None => {
                    return Err(MISSING_KEY);
                },
            };
            let val = match arg_at(args, 3) {
                Some(v) => v,
                None => {
                    return Err(MISSING_VALUE);
                },
            };
            let group = match find_flag_value(args, "--group") {
                Some(g) => g,
                None => String::from_str("default"),
            };
            Command::Env { key, val, group }
        } else if word_eq(args, "help") || word_eq(args, "--help") || word_eq(args, "-h") {
            Command::Help
        } else {
            return Err(UNKNOWN_COMMAND);
        };
        Ok(Config { cmd })
    }
}

} // verus!

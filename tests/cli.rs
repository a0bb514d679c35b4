use ez_cli::search::{clean_step, find_step, hidden, CleanStep, FindStep};
use ez_cli::pattern::Glob;
use ez_cli::split::{partition_at, plan_split, progress_due, strategy_icon};
use ez_cli::{
    convert_list_patterns, find_flag_value, is_flag_exist, Command, Config, SplitStrategy,
    BOTH_STRATEGIES, MISSING_KEY, MISSING_PATTERN, MISSING_SOURCE, MISSING_VALUE, UNKNOWN_COMMAND,
};

fn args(v: &[&str]) -> Vec<String> {
    v.iter().map(|s| s.to_string()).collect()
}

#[test]
fn no_command_is_help() {
    assert!(matches!(Config::build(&args(&["ez"])).unwrap().cmd, Command::Help));
    assert!(matches!(Config::build(&args(&[])).unwrap().cmd, Command::Help));
    assert!(matches!(Config::build(&args(&["ez", "help"])).unwrap().cmd, Command::Help));
    assert!(matches!(Config::build(&args(&["ez", "--help"])).unwrap().cmd, Command::Help));
    assert!(matches!(Config::build(&args(&["ez", "-h"])).unwrap().cmd, Command::Help));
}

#[test]
fn tree_command_with_patterns() {
    let c = Config::build(&args(&["ez", "tree", "src", "--include", "*.rs, *.toml", "--exclude", "target"])).unwrap();
    match c.cmd {
        Command::Tree { path, includes, excludes } => {
            assert_eq!(path, "src");
            assert_eq!(includes, args(&["*.rs", "*.toml"]));
            assert_eq!(excludes, args(&["target"]));
        }
        other => panic!("unexpected {:?}", other),
    }
}

#[test]
fn tree_command_defaults() {
    match Config::build(&args(&["ez", "tree"])).unwrap().cmd {
        Command::Tree { path, includes, excludes } => {
            assert_eq!(path, ".");
            assert!(includes.is_empty());
            assert!(excludes.is_empty());
        }
        other => panic!("unexpected {:?}", other),
    }
}

#[test]
fn find_and_clean_commands() {
    match Config::build(&args(&["ez", "find", "*.pyc"])).unwrap().cmd {
        Command::Find { pattern, root_dir } => {
            assert_eq!(pattern, "*.pyc");
            assert_eq!(root_dir, ".");
        }
        other => panic!("unexpected {:?}", other),
    }
    match Config::build(&args(&["ez", "clean", "*.tmp", "/var"])).unwrap().cmd {
        Command::Clean { pattern, root_dir } => {
            assert_eq!(pattern, "*.tmp");
            assert_eq!(root_dir, "/var");
        }
        other => panic!("unexpected {:?}", other),
    }
    assert_eq!(Config::build(&args(&["ez", "find"])).err(), Some(MISSING_PATTERN));
    assert_eq!(Config::build(&args(&["ez", "clean"])).err(), Some(MISSING_PATTERN));
}

#[test]
fn split_command_strategies() {
    match Config::build(&args(&["ez", "split", "data", "out", "--copy"])).unwrap().cmd {
        Command::Split { src, dst, ratio, strategy } => {
            assert_eq!(src, "data");
            assert_eq!(dst, "out");
            assert_eq!(ratio, Some("out".to_string()));
            assert!(matches!(strategy, SplitStrategy::Copy));
        }
        other => panic!("unexpected {:?}", other),
    }
    match Config::build(&args(&["ez", "split", "data", "--hard-link"])).unwrap().cmd {
        Command::Split { strategy, .. } => assert!(matches!(strategy, SplitStrategy::HardLink)),
        other => panic!("unexpected {:?}", other),
    }
    match Config::build(&args(&["ez", "split", "data"])).unwrap().cmd {
        Command::Split { dst, ratio, strategy, .. } => {
            assert_eq!(dst, ".");
            assert_eq!(ratio, None);
            assert!(matches!(strategy, SplitStrategy::Move));
        }
        other => panic!("unexpected {:?}", other),
    }
    assert_eq!(
        Config::build(&args(&["ez", "split", "data", "--copy", "--hard-link"])).err(),
        Some(BOTH_STRATEGIES)
    );
    assert_eq!(Config::build(&args(&["ez", "split"])).err(), Some(MISSING_SOURCE));
}

#[test]
fn env_command() {
    match Config::build(&args(&["ez", "env", "K", "V", "--group", "g1"])).unwrap().cmd {
        Command::Env { key, val, group } => {
            assert_eq!(key, "K");
            assert_eq!(val, "V");
            assert_eq!(group, "g1");
        }
        other => panic!("unexpected {:?}", other),
    }
    match Config::build(&args(&["ez", "env", "K", "V"])).unwrap().cmd {
        Command::Env { group, .. } => assert_eq!(group, "default"),
        other => panic!("unexpected {:?}", other),
    }
    assert_eq!(Config::build(&args(&["ez", "env"])).err(), Some(MISSING_KEY));
    assert_eq!(Config::build(&args(&["ez", "env", "K"])).err(), Some(MISSING_VALUE));
}

#[test]
fn unknown_command() {
    assert_eq!(Config::build(&args(&["ez", "frobnicate"])).err(), Some(UNKNOWN_COMMAND));
}

#[test]
fn flag_helpers() {
    let a = args(&["ez", "tree", "--include", "*.rs", "--include", "*.md"]);
    assert!(is_flag_exist(&a, "--include"));
    assert!(!is_flag_exist(&a, "--exclude"));
    assert_eq!(find_flag_value(&a, "--include"), Some("*.rs".to_string()));
    assert_eq!(find_flag_value(&a, "--exclude"), None);
    assert_eq!(find_flag_value(&args(&["ez", "--group"]), "--group"), None);
}

#[test]
fn list_conversion() {
    assert_eq!(convert_list_patterns(&Some(" a , b,c ".to_string()), ","), args(&["a", "b", "c"]));
    assert_eq!(convert_list_patterns(&Some("x".to_string()), ","), args(&["x"]));
    assert_eq!(convert_list_patterns(&Some("".to_string()), ","), args(&[""]));
    assert_eq!(convert_list_patterns(&Some("a;b".to_string()), ";"), args(&["a", "b"]));
    assert!(convert_list_patterns(&None, ",").is_empty());
}

#[test]
fn find_decisions() {
    let g = Glob::parse("*.rs").unwrap();
    assert_eq!(find_step(&g, "main.rs", true, false), FindStep::Report);
    assert_eq!(find_step(&g, "main.py", true, false), FindStep::Skip);
    assert_eq!(find_step(&g, "src", false, true), FindStep::Descend);
    assert_eq!(find_step(&g, ".git", false, true), FindStep::Skip);
    assert_eq!(find_step(&g, "dangling", false, false), FindStep::Skip);
    assert!(hidden(".env"));
    assert!(!hidden("env"));
    assert!(!hidden(""));
}

#[test]
fn clean_decisions() {
    let g = Glob::parse("__pycache__").unwrap();
    assert_eq!(clean_step(&g, "__pycache__", false, true), CleanStep::DeleteDir);
    assert_eq!(clean_step(&g, "src", false, true), CleanStep::Descend);
    assert_eq!(clean_step(&g, "__pycache__", true, false), CleanStep::DeleteFile);
    assert_eq!(clean_step(&g, "a.py", true, false), CleanStep::Skip);
    assert_eq!(clean_step(&g, "x", false, false), CleanStep::Skip);
}

#[test]
fn split_planning() {
    let files = args(&["a", "b", "c", "d", "e"]);
    let (train, test) = partition_at(files.clone(), 2);
    assert_eq!(train, args(&["a", "b"]));
    assert_eq!(test, args(&["c", "d", "e"]));
    let (train, test) = plan_split(files.clone(), 4);
    assert_eq!(train.len(), 4);
    assert_eq!(test.len(), 1);
    let mut all: Vec<String> = train.into_iter().chain(test).collect();
    all.sort();
    assert_eq!(all, files);
}

#[test]
fn progress_and_icons() {
    assert!(!progress_due(0));
    assert!(!progress_due(5));
    assert!(progress_due(10));
    assert!(progress_due(20));
    assert_eq!(strategy_icon(SplitStrategy::Copy), "📑");
    assert_eq!(strategy_icon(SplitStrategy::HardLink), "🔗");
    assert_eq!(strategy_icon(SplitStrategy::Move), "🚚");
}

#[test]
fn split_planning_shuffles() {
    let files: Vec<String> = (0..20).map(|i| format!("f{:02}", i)).collect();
    let (train, test) = plan_split(files.clone(), 15);
    let together: Vec<String> = train.iter().chain(test.iter()).cloned().collect();
    assert_ne!(together, files);
    let mut sorted = together.clone();
    sorted.sort();
    assert_eq!(sorted, files);
}

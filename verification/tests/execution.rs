use jmake::batch::{classify_outcome, plan_waves, CommandOutcome};
use jmake::classpath::{
    filter_jar_files, has_jar_ext, is_wildcard_entry, join_classpath, wildcard_dir,
};
use jmake::commands::{create_compile_command, jar_file_name, release_dir_name, u64_to_dec};
use jmake::config::{JvmVersion, CONFIG};
use jmake::confparse::{parse_file, parse_usize};
use jmake::invoke::{build_jvm_options, class_name_of, classify_invocation, InvocationOutcome};
use jmake::strutil::split_at_char;

fn defaults() -> CONFIG {
    CONFIG {
        pre: Vec::new(),
        bin: "bin".to_string(),
        src: "src".to_string(),
        test: "test".to_string(),
        lib: "lib".to_string(),
        classpath: "bin:lib".to_string(),
        post: Vec::new(),
        comp_flags: String::new(),
        run_args: Vec::new(),
        cache: "cache".to_string(),
        threads: 2,
        jvm_version: JvmVersion::V8,
        jvm_options: Vec::new(),
    }
}

#[test]
fn batch_waves_bound_concurrency() {
    let cmds = vec!["true".to_string(), "false".to_string(), "true".to_string()];
    let waves = plan_waves(&cmds, 2);
    assert_eq!(waves, vec![vec!["true".to_string(), "false".to_string()], vec![
        "true".to_string(),
    ]]);
}

#[test]
fn batch_waves_skip_empty_commands() {
    let cmds = vec!["a".to_string(), String::new(), "b".to_string(), String::new()];
    let waves = plan_waves(&cmds, 2);
    assert_eq!(waves, vec![vec!["a".to_string()], vec!["b".to_string()]]);
}

#[test]
fn batch_of_nothing() {
    let cmds: Vec<String> = Vec::new();
    assert!(plan_waves(&cmds, 3).is_empty());
}

#[test]
fn batch_width_one_serialises() {
    let cmds = vec!["a".to_string(), "b".to_string()];
    let waves = plan_waves(&cmds, 1);
    assert_eq!(waves, vec![vec!["a".to_string()], vec!["b".to_string()]]);
}

#[test]
fn empty_config_keeps_defaults() {
    let parsed = parse_file("", defaults());
    assert_eq!(parsed.config.src, "src");
    assert_eq!(parsed.config.threads, 2);
    assert!(parsed.unknown_keys.is_empty());
}

#[test]
fn batch_outcomes_distinguish_failures() {
    // the executor reports, never raises: the three shapes stay apart
    let ok = classify_outcome(true, true);
    let failed = classify_outcome(true, false);
    let unlaunchable = classify_outcome(false, false);
    assert_eq!(ok, CommandOutcome::Success);
    assert_eq!(failed, CommandOutcome::ExitFailure);
    assert_eq!(unlaunchable, CommandOutcome::LaunchFailure);
    assert_ne!(ok, failed);
    assert_ne!(failed, unlaunchable);
}

#[test]
fn compile_command_shape() {
    let files = vec!["src/A.java".to_string(), "src/B.java".to_string()];
    let cmd = create_compile_command("bin:lib", "bin", "-g", &files);
    assert_eq!(cmd, "javac -cp \"bin:lib\" -d bin -g src/A.java src/B.java");
}

#[test]
fn compile_command_empty_for_no_files() {
    let files: Vec<String> = Vec::new();
    assert_eq!(create_compile_command("cp", "bin", "", &files), "");
}

#[test]
fn decimal_formatting() {
    assert_eq!(u64_to_dec(0), "0");
    assert_eq!(u64_to_dec(12345), "12345");
}

#[test]
fn release_names() {
    assert_eq!(release_dir_name("app", 1700000000, "cafe"), "app-1700000000cafe");
    assert_eq!(jar_file_name("app"), "app.jar");
}

#[test]
fn class_names_from_paths() {
    assert_eq!(class_name_of("bin/pkg/Main.class", "bin"), Some("pkg/Main".to_string()));
    assert_eq!(class_name_of("test/T.java", "test"), Some("T".to_string()));
    assert_eq!(class_name_of("elsewhere/Main.class", "bin"), None);
}

#[test]
fn jvm_options_start_with_classpath() {
    let extra = vec!["-Xmx1g".to_string()];
    let opts = build_jvm_options("bin:lib", &extra);
    assert_eq!(opts, vec!["-Djava.class.path=bin:lib".to_string(), "-Xmx1g".to_string()]);
}

#[test]
fn fault_isolation_yields_three_distinct_results() {
    // one lookup fault, one invocation fault, one success: three distinct
    // results, and no target's fault hides another's outcome
    let missing = classify_invocation("pkg/Gone".to_string(), false, false, None, 3);
    let raising = classify_invocation(
        "pkg/Raises".to_string(),
        true,
        false,
        Some("boom at Raises.main".to_string()),
        5,
    );
    let fine = classify_invocation("pkg/Fine".to_string(), true, true, None, 7);
    assert_eq!(missing.outcome, InvocationOutcome::LookupFault);
    assert_eq!(raising.outcome, InvocationOutcome::InvocationFault);
    assert_eq!(fine.outcome, InvocationOutcome::Success);
    assert_eq!(raising.fault, Some("boom at Raises.main".to_string()));
    assert_eq!(missing.fault, None);
    assert_eq!(fine.fault, None);
    assert_eq!(fine.elapsed_ms, 7);
    assert_eq!(fine.class_name, "pkg/Fine");
}

#[test]
fn lookup_fault_keeps_no_trace() {
    // a drained trace belongs to an invocation fault alone
    let r = classify_invocation("X".to_string(), false, false, Some("stray".to_string()), 1);
    assert_eq!(r.fault, None);
}

#[test]
fn classpath_splitting_and_joining() {
    let parts = split_at_char("bin:lib:lib/*", ':');
    assert_eq!(parts, vec!["bin".to_string(), "lib".to_string(), "lib/*".to_string()]);
    assert_eq!(join_classpath(&parts, ":"), "bin:lib:lib/*");
}

#[test]
fn wildcard_entries() {
    assert!(is_wildcard_entry("lib/*"));
    assert!(is_wildcard_entry("lib\\*"));
    assert!(!is_wildcard_entry("lib"));
    assert_eq!(wildcard_dir("lib/*"), "lib");
}

#[test]
fn jar_detection() {
    assert!(has_jar_ext("dep.jar"));
    assert!(has_jar_ext("lib/dep.jar"));
    assert!(!has_jar_ext("notes.txt"));
    assert!(!has_jar_ext(".jar"));
    assert!(!has_jar_ext("lib/.jar"));
    let names = vec!["a.jar".to_string(), "b.txt".to_string(), "c.jar".to_string()];
    assert_eq!(filter_jar_files(&names), vec!["a.jar".to_string(), "c.jar".to_string()]);
}

#[test]
fn parse_usize_values() {
    assert_eq!(parse_usize("42"), Some(42));
    assert_eq!(parse_usize("+7"), Some(7));
    assert_eq!(parse_usize("0"), Some(0));
    assert_eq!(parse_usize(""), None);
    assert_eq!(parse_usize("4a"), None);
    assert_eq!(parse_usize("99999999999999999999999999"), None);
}

#[test]
fn config_scalars_and_arrays() {
    let text = "src = mysrc\nthreads = 4\npre = [\"echo a\", \"echo b\"]\n# note\nbad_key = x\n";
    let parsed = parse_file(text, defaults());
    assert_eq!(parsed.config.src, "mysrc");
    assert_eq!(parsed.config.threads, 4);
    assert_eq!(parsed.config.pre, vec!["echo a".to_string(), "echo b".to_string()]);
    assert_eq!(parsed.unknown_keys, vec!["bad_key".to_string()]);
    // untouched fields keep their defaults
    assert_eq!(parsed.config.bin, "bin");
}

#[test]
fn config_multi_line_array() {
    // a line's trailing comma yields an empty item, as splitting at every
    // comma must: the executor and option list simply carry it along
    let text = "jvm_options = [\n\"-Xmx1g\",\n\"-Xms256m\"\n]\n";
    let parsed = parse_file(text, defaults());
    assert_eq!(
        parsed.config.jvm_options,
        vec!["-Xmx1g".to_string(), String::new(), "-Xms256m".to_string()]
    );
    assert!(parsed.unknown_keys.is_empty());
}

#[test]
fn config_version_tokens() {
    let ok = parse_file("jvm_version = 8\n", defaults());
    assert_eq!(ok.config.jvm_version, JvmVersion::V8);
    let bad = parse_file("jvm_version = 3\n", defaults());
    assert_eq!(bad.config.jvm_version, JvmVersion::Invalid);
}

#[test]
fn config_bad_thread_count_keeps_default() {
    let parsed = parse_file("threads = lots\n", defaults());
    assert_eq!(parsed.config.threads, 2);
}

#[test]
fn config_quoted_values_and_blanks() {
    let text = "\n  \nclasspath = \"a:b\"\n\nnot an assignment\n";
    let parsed = parse_file(text, defaults());
    assert_eq!(parsed.config.classpath, "a:b");
    assert!(parsed.unknown_keys.is_empty());
}

#[test]
fn config_unclosed_array_is_dropped() {
    let text = "post = [\n\"echo x\",\n";
    let parsed = parse_file(text, defaults());
    assert!(parsed.config.post.is_empty());
}

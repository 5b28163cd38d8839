use flk::commands::{
    add_command_to_shell_hook, command_exists, find_command, find_shell_hook_in_profile,
    indent_lines, remove_command_from_shell_hook,
};
use flk::env::parse_env_vars_section;
use flk::error::EditError;
use flk::interfaces::{OverlaysSection, ShellHookSection, SourcesSection};
use flk::packages::parse_packages_section;
use flk::pins::{
    remove_pin_entry,
    add_pinned_package, find_pin_for_package, pin_entry_exists, pin_has_packages,
    remove_pinned_package_with_cleanup, source_exists,
};
use flk::profile::{
    parse_profile,
    add_env_var_to_profile, parse_env_vars_from_profile, remove_env_var_from_profile,
    add_package_to_profile, env_var_exists, extract_packages_from_output, find_env_vars_in_profile,
    find_packages_in_profile, package_exists, parse_packages_from_profile,
    remove_package_from_profile,
};
use flk::model::EnvVar;
use flk::render_env::render_env_vars;
use flk::render_packages::render_packages;
use flk::render::{indent_line, nix_attr_key, nix_escape_string, nix_multiline_string, nix_string};
use flk::text::detect_indentation;

const PROFILE: &str = "{\n  packages = with pkgs; [\n    git\n  ];\n\n  envVars = {\n    VAR1 = \"value1\";\n  };\n\n  shellHook = ''\n    echo hi\n  '';\n}\n";

const PINS: &str = "{\n  sources = {\n    pkgs-abc123 = \"github:NixOS/nixpkgs/abc123\";\n  };\n  pinnedPackages = {\n    pkgs-abc123 = [\n        { pkg = \"git\"; name = \"git@2.40\"; }\n        { pkg = \"curl\"; name = \"curl@8.0\"; }\n    ];\n  };\n}\n";

#[test]
fn example_add_to_with_pkgs_list() {
    let content = "packages = with pkgs; [\n    git\n  ];";
    let section = parse_packages_section(content).unwrap();
    let out = section.add_package(content, "ripgrep", None).unwrap();
    assert_eq!(out, "packages = with pkgs; [\n    git\n    ripgrep\n  ];");
    let again = parse_packages_section(&out).unwrap();
    let names: Vec<&str> = again.entries.iter().map(|e| e.name.as_str()).collect();
    assert_eq!(names, vec!["git", "ripgrep"]);
    assert_eq!(out.matches('[').count(), 1);
}

#[test]
fn example_remove_only_env_var() {
    let content = "envVars = {\n    VAR1 = \"value1\";\n  };";
    let section = parse_env_vars_section(content).unwrap();
    let out = section.remove_env_var(content, "VAR1").unwrap();
    assert_eq!(out, "envVars = {\n  };");
    assert_eq!(parse_env_vars_section(&out).unwrap().entries.len(), 0);
}

#[test]
fn example_remove_last_pinned_package_one_line() {
    let content = "sources = { pkgs-abc123 = \"github:NixOS/nixpkgs/abc123\"; };\npinnedPackages = { pkgs-abc123 = [ { pkg = \"git\"; name = \"git@2.40\"; } ]; };\n";
    let out = remove_pinned_package_with_cleanup(content, "git@2.40").unwrap();
    assert!(!out.contains("pkgs-abc123"));
    assert_eq!(out, "sources = { };\npinnedPackages = { };\n");
}

#[test]
fn example_remove_last_pinned_package() {
    let first = remove_pinned_package_with_cleanup(PINS, "curl@8.0").unwrap();
    assert_eq!(source_exists(&first, "pkgs-abc123"), Ok(true));
    assert_eq!(pin_entry_exists(&first, "pkgs-abc123"), Ok(true));
    let out = remove_pinned_package_with_cleanup(&first, "git@2.40").unwrap();
    assert!(!out.contains("pkgs-abc123"));
    assert_eq!(source_exists(&out, "pkgs-abc123"), Ok(false));
    assert_eq!(pin_entry_exists(&out, "pkgs-abc123"), Ok(false));
    assert_eq!(out, "{\n  sources = {\n  };\n  pinnedPackages = {\n  };\n}\n");
}

#[test]
fn example_add_then_remove_command() {
    let added = add_command_to_shell_hook(PROFILE, "greet", "echo hello\necho bye", "default").unwrap();
    assert!(command_exists(&added, "greet"));
    assert!(added.contains("    # flk-command: greet\n    greet () {\n      echo hello\n      echo bye\n    }\n"));
    let removed = remove_command_from_shell_hook(&added, "greet", "default").unwrap();
    assert_eq!(removed, PROFILE);
}

#[test]
fn add_then_exists_and_duplicate() {
    let section = parse_packages_section(PROFILE).unwrap();
    assert!(!section.package_exists("ripgrep"));
    let out = section.add_package(PROFILE, "ripgrep", Some("search")).unwrap();
    let again = parse_packages_section(&out).unwrap();
    assert!(again.package_exists("ripgrep"));
    assert_eq!(again.entries[1]._comment, Some("search".to_string()));
    assert_eq!(again.add_package(&out, "ripgrep", None), Err(EditError::Duplicate));
    assert_eq!(section.add_package(PROFILE, "git", None), Err(EditError::Duplicate));
}

#[test]
fn add_detects_qualified_duplicate() {
    let content = "packages = [\n    pkgs.git\n  ];";
    let section = parse_packages_section(content).unwrap();
    assert_eq!(section.add_package(content, "git", None), Err(EditError::Duplicate));
}

#[test]
fn remove_then_absent_and_others_kept() {
    let content = "packages = [\n    git\n    curl\n    wget\n  ];\n";
    let section = parse_packages_section(content).unwrap();
    let out = section.remove_package(content, "curl").unwrap();
    assert_eq!(out, "packages = [\n    git\n    wget\n  ];\n");
    let again = parse_packages_section(&out).unwrap();
    assert!(!again.package_exists("curl"));
    assert!(again.package_exists("git"));
    assert!(again.package_exists("wget"));
    assert_eq!(again.remove_package(&out, "curl"), Err(EditError::NotFound));
}

#[test]
fn edits_keep_text_outside_the_section() {
    let section = parse_packages_section(PROFILE).unwrap();
    let out = section.add_package(PROFILE, "jq", None).unwrap();
    assert_eq!(&out[..section._list_start], &PROFILE[..section._list_start]);
    let tail = &PROFILE[section.list_end..];
    assert!(out.ends_with(tail));
    let env = parse_env_vars_section(PROFILE).unwrap();
    let out = env.add_env_var(PROFILE, "EDITOR", "vim").unwrap();
    assert_eq!(&out[..env._content_start], &PROFILE[..env._content_start]);
    assert!(out.ends_with(&PROFILE[env._content_end..]));
}

#[test]
fn removing_one_of_two_pinned_packages_keeps_the_pin() {
    let out = remove_pinned_package_with_cleanup(PINS, "git@2.40").unwrap();
    assert_eq!(source_exists(&out, "pkgs-abc123"), Ok(true));
    assert_eq!(pin_has_packages(&out, "pkgs-abc123"), Ok(true));
    assert!(!out.contains("git@2.40"));
    assert!(out.contains("curl@8.0"));
}

#[test]
fn add_pinned_package_creates_source_and_pin() {
    let content = "{\n  sources = {\n  };\n  pinnedPackages = {\n  };\n}\n";
    let out = add_pinned_package(content, "f00", "github:NixOS/nixpkgs/f00", "jq", "1.7").unwrap();
    assert_eq!(
        out,
        "{\n  sources = {\n    pkgs-f00 = \"github:NixOS/nixpkgs/f00\";\n  };\n  pinnedPackages = {\n    pkgs-f00 = [\n        { pkg = \"jq\"; name = \"jq@1.7\"; }\n    ];\n  };\n}\n"
    );
    assert_eq!(find_pin_for_package(&out, "jq@1.7"), Ok("pkgs-f00".to_string()));
    assert_eq!(
        add_pinned_package(&out, "f00", "github:NixOS/nixpkgs/f00", "jq", "1.7"),
        Err(EditError::Duplicate)
    );
    assert_eq!(remove_pinned_package_with_cleanup(&out, "jq@1.7").unwrap(), content);
}

#[test]
fn pins_errors() {
    assert_eq!(source_exists("{ }", "x"), Err(EditError::SectionNotFound));
    assert_eq!(source_exists("sources = { a = \"b\";", "x"), Err(EditError::Malformed));
    assert_eq!(find_pin_for_package(PINS, "nope@1"), Err(EditError::NotFound));
}

#[test]
fn section_errors() {
    assert!(matches!(parse_packages_section("{ }"), Err(EditError::SectionNotFound)));
    assert!(matches!(parse_packages_section("packages = [\n  git\n"), Err(EditError::Malformed)));
    assert!(matches!(parse_env_vars_section("envVars = [ ];"), Err(EditError::Malformed)));
    assert!(matches!(parse_env_vars_section("nothing"), Err(EditError::SectionNotFound)));
}

#[test]
fn env_value_is_escaped_and_reads_back() {
    let section = parse_env_vars_section(PROFILE).unwrap();
    let out = section.add_env_var(PROFILE, "QUOTED", "a\"b\\c").unwrap();
    assert!(out.contains("    QUOTED = \"a\\\"b\\\\c\";\n"));
    let again = parse_env_vars_section(&out).unwrap();
    assert_eq!(again.entries.len(), 2);
    assert_eq!(again.entries[1].value, "a\"b\\c");
    assert_eq!(again.add_env_var(&out, "QUOTED", "x"), Err(EditError::Duplicate));
    assert_eq!(again.remove_env_var(&out, "NOPE"), Err(EditError::NotFound));
}

#[test]
fn env_names_that_prefix_each_other() {
    let content = "envVars = {\n    VAR = \"1\";\n    VAR2 = \"2\";\n  };";
    let section = parse_env_vars_section(content).unwrap();
    let out = section.remove_env_var(content, "VAR").unwrap();
    assert_eq!(out, "envVars = {\n    VAR2 = \"2\";\n  };");
}

#[test]
fn render_values() {
    assert_eq!(nix_escape_string("a\"b\\c\nd\te\rf"), "a\\\"b\\\\c\\nd\\te\\rf");
    assert_eq!(nix_string("hi \"x\""), "\"hi \\\"x\\\"\"");
    assert_eq!(nix_attr_key("nixpkgs"), "nixpkgs");
    assert_eq!(nix_attr_key("pkgs-f720de5"), "pkgs-f720de5");
    assert_eq!(nix_attr_key("1abc"), "\"1abc\"");
    assert_eq!(nix_attr_key("a b"), "\"a b\"");
    assert_eq!(nix_multiline_string("", "  ", 1), "''''");
    assert_eq!(nix_multiline_string("a\nb\n", "  ", 1), "''\n    a\n    b\n  ''");
    let mut out = String::from("x");
    indent_line(&mut out, "ab", 3);
    assert_eq!(out, "xababab");
    assert_eq!(indent_lines("a\n  \nb", 2), "  a\n\n  b");
}

#[test]
fn indentation_detection() {
    assert_eq!(detect_indentation("\n\n      x\n  y"), "      ");
    assert_eq!(detect_indentation("x\ny"), "  ");
    assert_eq!(detect_indentation(""), "  ");
}

#[test]
fn shell_hook_lookups() {
    let (start, end) = find_shell_hook_in_profile(PROFILE, "default").unwrap();
    assert_eq!(&PROFILE[start..start + 14], "shellHook = ''");
    assert_eq!(&PROFILE[end..end + 3], "'';");
    assert_eq!(find_shell_hook_in_profile("{}", "default"), Err(EditError::SectionNotFound));
    assert_eq!(find_command(PROFILE, "greet", "default"), None);
    assert_eq!(
        remove_command_from_shell_hook(PROFILE, "greet", "default"),
        Err(EditError::NotFound)
    );
}

#[test]
fn profile_locators_and_edits() {
    let (a, b, with) = find_packages_in_profile(PROFILE, "default").unwrap();
    assert_eq!(&PROFILE[a..a + 1], "[");
    assert_eq!(&PROFILE[b..b + 1], "]");
    assert!(with);
    assert_eq!(package_exists(PROFILE, "git", "default"), Ok(true));
    assert_eq!(package_exists(PROFILE, "jq", "default"), Ok(false));
    let listed = parse_packages_from_profile(PROFILE, "default").unwrap();
    assert_eq!(listed.len(), 1);
    assert_eq!(listed[0].name, "git");
    let out = add_package_to_profile(PROFILE, "jq", "default").unwrap();
    assert!(out.contains("    git\n    jq\n  ];"));
    let back = remove_package_from_profile(&out, "jq", "default").unwrap();
    assert_eq!(back, PROFILE);
    let (s, e) = find_env_vars_in_profile(PROFILE, "default").unwrap();
    assert!(PROFILE[s..e].contains("VAR1"));
    assert_eq!(env_var_exists(PROFILE, "VAR1", "default"), Ok(true));
    assert_eq!(env_var_exists(PROFILE, "VAR", "default"), Ok(false));
}

#[test]
fn profile_without_with_pkgs_qualifies() {
    let content = "packages = [\n    pkgs.git\n  ];\n";
    let out = add_package_to_profile(content, "jq", "default").unwrap();
    assert_eq!(out, "packages = [\n    pkgs.git\n    pkgs.jq\n  ];\n");
    let listed = parse_packages_from_profile(&out, "default").unwrap();
    let names: Vec<&str> = listed.iter().map(|p| p.name.as_str()).collect();
    assert_eq!(names, vec!["git", "jq"]);
}

#[test]
fn search_listing() {
    let output = "NAME VERSION SOURCE DESC\nripgrep 14.1.0 nixpkgs fast-grep\nshort line\njq 1.7 nixpkgs json\n";
    let found = extract_packages_from_output(output).unwrap();
    assert_eq!(found.len(), 2);
    assert_eq!(found[0].name, "ripgrep");
    assert_eq!(found[0].version, Some("14.1.0".to_string()));
    assert_eq!(found[1].name, "jq");
}

#[test]
fn models() {
    let mut hook = ShellHookSection {
        entries: Vec::new(),
        indentation: "  ".to_string(),
        section_start: 2,
        section_end: 4,
    };
    assert_eq!(hook.add_command("a", "echo a"), Ok(()));
    assert_eq!(hook.add_command("a", "echo b"), Err(EditError::Duplicate));
    assert!(hook.command_exists("a"));
    assert_eq!(hook.apply_to_content("abcdef", "XY"), "abXYef");
    assert_eq!(hook.remove_command("a"), Ok(()));
    assert_eq!(hook.remove_command("a"), Err(EditError::NotFound));

    let mut sources = SourcesSection { entries: Vec::new(), indentation: String::new() };
    assert_eq!(sources.add_source("p", "ref"), Ok(()));
    assert!(sources.source_exists("p"));
    assert_eq!(sources.add_source("p", "ref"), Err(EditError::Duplicate));
    assert_eq!(sources.remove_source("p"), Ok(()));
    assert_eq!(sources.remove_source("p"), Err(EditError::NotFound));

    let mut pins = OverlaysSection { entries: Vec::new(), indentation: String::new() };
    assert_eq!(pins.add_package_to_pin("p", "git", "git@1"), Err(EditError::NotFound));
    assert_eq!(pins.add_pin_entry("p"), Ok(()));
    assert_eq!(pins.add_package_to_pin("p", "git", "git@1"), Ok(()));
    assert_eq!(pins.add_package_to_pin("p", "git", "git@1"), Err(EditError::Duplicate));
    assert!(pins.package_in_pin_exists("p", "git@1"));
    assert_eq!(pins.remove_package_from_pin("p", "git"), Ok(()));
    assert!(!pins.package_in_pin_exists("p", "git@1"));
    assert_eq!(pins.remove_pin_entry("p"), Ok(()));
    assert!(!pins.pin_entry_exists("p"));
}

#[test]
fn rendered_env_reads_back() {
    let vars = vec![
        EnvVar::new("RUST_LOG".to_string(), "debug".to_string()),
        EnvVar::new("GREETING".to_string(), "say \"hi\"".to_string()),
    ];
    let text = render_env_vars(&vars, "  ");
    assert_eq!(text, "envVars = {\n  RUST_LOG = \"debug\";\n  GREETING = \"say \\\"hi\\\"\";\n};");
    let section = parse_env_vars_section(&text).unwrap();
    assert_eq!(section.to_env_vars(), vars);
}

#[test]
fn profile_env_edits() {
    let out = add_env_var_to_profile(PROFILE, "EDITOR", "vi \"m\"", "default").unwrap();
    assert!(out.contains("    VAR1 = \"value1\";\n    EDITOR = \"vi \\\"m\\\"\";\n  };"));
    assert_eq!(add_env_var_to_profile(&out, "EDITOR", "x", "default"), Err(EditError::Duplicate));
    let back = remove_env_var_from_profile(&out, "EDITOR", "default").unwrap();
    assert_eq!(back, PROFILE);
    assert_eq!(remove_env_var_from_profile(PROFILE, "VAR", "default"), Err(EditError::NotFound));
    let content = "envVars = {\n    MYVAR = \"a\";\n    VAR = \"b\";\n  };";
    let out = remove_env_var_from_profile(content, "VAR", "default").unwrap();
    assert_eq!(out, "envVars = {\n    MYVAR = \"a\";\n  };");
}

#[test]
fn profile_env_listing() {
    let content = "envVars = {\n    A = \"1\";\n    B = 'two';\n    # note\n    C = plain;\n  };";
    let vars = parse_env_vars_from_profile(content, "default").unwrap();
    assert_eq!(
        vars,
        vec![("A".to_string(), "1".to_string()), ("C".to_string(), "plain".to_string())]
    );
    assert_eq!(parse_env_vars_from_profile("{}", "default"), Err(EditError::SectionNotFound));
    let escaped = "envVars = {\n    Q = \"x\\\"y\";\n  };";
    let vars = parse_env_vars_from_profile(escaped, "default").unwrap();
    assert_eq!(vars, vec![("Q".to_string(), "x\"y".to_string())]);
}

#[test]
fn profile_remove_matches_whole_names() {
    let content = "packages = with pkgs; [\n    gitui\n    git\n  ];";
    assert_eq!(
        remove_package_from_profile(content, "git", "default"),
        Ok("packages = with pkgs; [\n    gitui\n  ];".to_string())
    );
    assert_eq!(remove_package_from_profile(content, "gi", "default"), Err(EditError::NotFound));
    assert_eq!(remove_package_from_profile("{}", "git", "default"), Err(EditError::SectionNotFound));
}

#[test]
fn profile_list_drops_comments_and_needs_a_list() {
    let content = "packages = with pkgs; [\n    git # note\n  ];";
    let listed = parse_packages_from_profile(content, "default").unwrap();
    assert_eq!(listed.len(), 1);
    assert_eq!(listed[0].name, "git");
    assert_eq!(parse_packages_from_profile("", "default"), Err(EditError::SectionNotFound));
}

#[test]
fn profile_add_to_one_line_list() {
    let content = "packages = with pkgs; [ ];";
    let out = add_package_to_profile(content, "git", "default").unwrap();
    assert_eq!(out, "packages = with pkgs; [ \n    git\n];");
    assert_eq!(package_exists(&out, "git", "default"), Ok(true));
}

#[test]
fn pin_name_of_a_one_line_table() {
    let content = "pinnedPackages = { p1 = [ { pkg = \"x\"; name = \"x@1\"; } ]; p2 = [ { pkg = \"a\"; name = \"a\"; } ]; };";
    assert_eq!(find_pin_for_package(content, "a"), Ok("p2".to_string()));
    assert_eq!(find_pin_for_package(content, "b"), Err(EditError::NotFound));
}

#[test]
fn unclosed_pin_list_is_malformed() {
    let content = "pinnedPackages = {\n    p = [\n  };\n";
    assert_eq!(remove_pin_entry(content, "p"), Err(EditError::Malformed));
}

#[test]
fn command_with_inner_brace_round_trips() {
    let body = "for f in *; do\n{\necho $f\n}\ndone";
    let added = add_command_to_shell_hook(PROFILE, "each", body, "default").unwrap();
    assert!(added.contains("      }\n"));
    let removed = remove_command_from_shell_hook(&added, "each", "default").unwrap();
    assert_eq!(removed, PROFILE);
}

#[test]
fn test_add_env_var_with_quotes() {
    let section = parse_env_vars_section(PROFILE).unwrap();
    let result = section.add_env_var(PROFILE, "QUOTED", r#"value"with"quotes"#).unwrap();
    assert!(result.contains("QUOTED"));
    assert!(result.contains(r#"value\"with\"quotes"#));
}

#[test]
fn profile_from_text() {
    let profile = parse_profile("dev".to_string(), PROFILE).unwrap();
    assert_eq!(profile.name, "dev");
    assert_eq!(profile.packages.len(), 1);
    assert_eq!(profile.packages[0].name, "git");
    assert_eq!(profile.env_vars, vec![EnvVar::new("VAR1".to_string(), "value1".to_string())]);
    assert_eq!(profile.shell_hook, "echo hi");
    assert_eq!(parse_profile("x".to_string(), "{}"), Err(EditError::SectionNotFound));
}

#[test]
fn rendered_env_with_escapes_reads_back() {
    let vars = vec![EnvVar::new("Q".to_string(), "a\"b\\c\nd".to_string())];
    let text = render_env_vars(&vars, "  ");
    assert_eq!(parse_env_vars_section(&text).unwrap().to_env_vars(), vars);
}

#[test]
fn rendered_packages_read_back() {
    let content = "packages = [\n    git # version control\n    pkgs.curl\n  ];";
    let section = parse_packages_section(content).unwrap();
    let text = render_packages(&section.entries, "  ");
    assert_eq!(text, "packages = with pkgs; [\n  git # version control\n  pkgs.curl\n];");
    let again = parse_packages_section(&text).unwrap();
    let before: Vec<(String, Option<String>)> =
        section.entries.iter().map(|e| (e.name.clone(), e._comment.clone())).collect();
    let after: Vec<(String, Option<String>)> =
        again.entries.iter().map(|e| (e.name.clone(), e._comment.clone())).collect();
    assert_eq!(before, after);
}

#[test]
fn section_add_to_one_line_list() {
    let content = "packages = [ git ];";
    let section = parse_packages_section(content).unwrap();
    let out = section.add_package(content, "jq", None).unwrap();
    assert_eq!(out, "packages = [ git \n jq\n];");
    let again = parse_packages_section(&out).unwrap();
    assert!(again.package_exists("git"));
    assert!(again.package_exists("jq"));
}

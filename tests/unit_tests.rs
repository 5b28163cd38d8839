use flk::commands::{
    add_command_to_shell_hook, command_exists, parse_shell_hook_from_profile,
    remove_command_from_shell_hook,
};
use flk::env::parse_env_vars_section;
use flk::model::{EnvVar, FlakeConfig, Package, Profile};
use flk::packages::parse_packages_section;

const CONTENT: &str = r#"
    {
      description = "Test flake description";

      inputs = {
        nixpkgs.url = "github:NixOS/nixpkgs/nixos-unstable";
        flake-utils.url = "github:numtide/flake-utils";
        profile-lib.url = "github:AEduardo-dev/nix-profile-lib";
      };

      outputs = {
        self,
        flake-utils,
        nixpkgs,
        profile-lib,
      }:
        flake-utils.lib.eachDefaultSystem (system: let
          pkgs = import nixpkgs {
            inherit system overlays;
          };

          profileLib = profile-lib.lib {inherit pkgs;};

          profileDefinitions = {
            default = {
              packages = with pkgs; [
                git
                curl
              ];

              envVars = {
                VAR1 = "value1";
                VAR2 = "value2";
                VAR3 = "value3";
              };

              shellHook = ''
                echo "Welcome to the development shell!"

                # flk-command: test
                test () {
                  echo "This is a test command"
                }
              '';

              containerConfig = {
                Cmd = ["${pkgs.bashInteractive}/bin/bash"];
              };
            };
          };
        in
          profileLib.mkProfileOutputs {
            inherit profileDefinitions;
            defaultShell = "default";
            defaultImage = "default";
          });
    }
    "#;

#[test]
fn test_package_exists() {
    let section = parse_packages_section(CONTENT).unwrap();
    let exists = section.package_exists("git");
    assert!(exists);

    let not_exists = section.package_exists("nonexistent");
    assert!(!not_exists);
}

#[test]
fn test_package_exists_with_pkgs_prefix() {
    let content = r#"
          packages = [
            pkgs.git
            pkgs.curl
          ];
        "#;
    let section = parse_packages_section(content).unwrap();
    let exists = section.package_exists("git");
    assert!(exists);
}

#[test]
fn test_add_package_to_empty_list() {
    let content = r#"
    ... 
      test_package_existskgs = import nixpkgs {
        inherit system overlays;
      };

      profileLib = profile-lib.lib {inherit pkgs;};

      profileDefinitions = {
        default = {
          packages = with pkgs; [
          ];
        };
      };
    in
      profileLib.mkProfileOutputs {
... 
"#;
    let section = parse_packages_section(content).unwrap();
    let result = section.add_package(content, "ripgrep", None).unwrap();
    assert!(result.contains("ripgrep"));
}

#[test]
fn test_add_package_to_existing_list() {
    let section = parse_packages_section(CONTENT).unwrap();
    let result = section.add_package(CONTENT, "ripgrep", None).unwrap();
    assert!(result.contains("ripgrep"));
    assert!(result.contains("git"));
    assert!(result.contains("curl"));
}

#[test]
fn test_add_package_preserves_formatting() {
    let section = parse_packages_section(CONTENT).unwrap();
    let result = section.add_package(CONTENT, "ripgrep", None).unwrap();
    assert!(result.contains("    ") || result.contains("  "));
}

#[test]
fn unit_tests_test_remove_package() {
    let section = parse_packages_section(CONTENT).unwrap();
    let result = section.remove_package(CONTENT, "curl").unwrap();
    println!("{}", result);
    assert!(result.contains("git"));
    assert!(!result.contains("curl"));
}

#[test]
fn test_remove_package_from_middle() {
    let content = r#"
          packages = with pkgs; [
            git
            curl
            wget
          ];
        "#;
    let section = parse_packages_section(content).unwrap();
    let result = section.remove_package(content, "curl").unwrap();
    assert!(result.contains("git"));
    assert!(result.contains("wget"));
    assert!(!result.contains("curl"));
}

#[test]
fn test_remove_nonexistent_package() {
    let section = parse_packages_section(CONTENT).unwrap();
    let result = section.remove_package(CONTENT, "nonexistent");
    assert!(result.is_err());
}

#[test]
fn test_command_exists() {
    let exists = command_exists(CONTENT, "test");
    assert!(exists);

    let not_exists = command_exists(CONTENT, "nonexistent");
    assert!(!not_exists);
}

#[test]
fn test_add_command() {
    let result =
        add_command_to_shell_hook(CONTENT, "test_add", "echo 'test command'", "default").unwrap();
    assert!(result.contains("# flk-command: test_add"));
    assert!(result.contains("test_add ()"));
}

#[test]
fn test_add_command_with_multiline() {
    let multiline_cmd = "echo 'line 1'\necho 'line 2'\necho 'line 3'";
    let result = add_command_to_shell_hook(CONTENT, "multiline", multiline_cmd, "default").unwrap();
    assert!(result.contains("# flk-command: multiline"));
    assert!(result.contains("line 1"));
    assert!(result.contains("line 2"));
    assert!(result.contains("line 3"));
}

#[test]
fn test_add_command_with_special_chars() {
    let cmd = "cargo build --release && echo 'Done!'";
    let result = add_command_to_shell_hook(CONTENT, "build", cmd, "default").unwrap();
    assert!(result.contains("# flk-command: build"));
    assert!(result.contains("&&"));
}

#[test]
fn test_remove_command() {
    let result = remove_command_from_shell_hook(CONTENT, "test", "default").unwrap();
    assert!(!result.contains("# flk-command: test"));
    assert!(!result.contains("test ()"));
}

#[test]
fn test_remove_nonexistent_command() {
    let result = remove_command_from_shell_hook(CONTENT, "nonexistent", "default");
    assert!(result.is_err());
}

#[test]
fn test_env_var_exists() {
    let section = parse_env_vars_section(CONTENT).unwrap();
    let exists = section.env_var_exists("VAR2").unwrap();
    assert!(exists);

    let not_exists = section.env_var_exists("NONEXISTENT").unwrap();
    assert!(!not_exists);
}

#[test]
fn unit_tests_test_add_env_var() {
    let section = parse_env_vars_section(CONTENT).unwrap();
    let result = section.add_env_var(CONTENT, "MY_VAR", "test_value").unwrap();
    assert!(result.contains(" MY_VAR = \"test_value\""));
}

#[test]
fn test_add_env_var_with_special_chars() {
    let section = parse_env_vars_section(CONTENT).unwrap();
    let result = section
        .add_env_var(CONTENT, "SPECIAL", "value with $pecial ch@rs!")
        .unwrap();
    assert!(result.contains("SPECIAL"));
    assert!(result.contains("value with $pecial ch@rs!"));
}

#[test]
fn test_remove_env_var() {
    let section = parse_env_vars_section(CONTENT).unwrap();
    let result = section.remove_env_var(CONTENT, "VAR1").unwrap();
    assert!(!result.contains("VAR1"));
}

#[test]
fn test_remove_env_var_middle() {
    let section = parse_env_vars_section(CONTENT).unwrap();
    let result = section.remove_env_var(CONTENT, "VAR2").unwrap();
    assert!(result.contains("VAR1"));
    assert!(result.contains("VAR3"));
    assert!(!result.contains("VAR2"));
}

#[test]
fn unit_tests_test_parse_env_vars() {
    let section = parse_env_vars_section(CONTENT).unwrap();
    assert_eq!(section.entries.len(), 3);
    let vars: Vec<(String, String)> = section
        .entries
        .iter()
        .map(|e| (e.name.clone(), e.value.clone()))
        .collect();
    assert!(vars.contains(&("VAR1".to_string(), "value1".to_string())));
    assert!(vars.contains(&("VAR2".to_string(), "value2".to_string())));
    assert!(vars.contains(&("VAR3".to_string(), "value3".to_string())));
}

#[test]
fn test_parse_env_vars_empty() {
    let content = r#"
          envVars = {
          };
        "#;
    let section = parse_env_vars_section(content).unwrap();
    assert_eq!(section.entries.len(), 0);
}

#[test]
fn test_parse_shell_hook() {
    let hook = parse_shell_hook_from_profile(CONTENT, "default").unwrap();
    assert!(hook.contains("Welcome to the development shell!"));
    assert!(hook.contains("# flk-command: test"));
}

#[test]
fn test_parse_packages_ignores_comments() {
    let content = r#"
          packages = with pkgs; [
            git
            # This is a comment
            curl
          ];
        "#;
    let section = parse_packages_section(content).unwrap();
    let packages: Vec<_> = section.entries.iter().collect();
    assert_eq!(packages.len(), 2);
    assert!(packages.iter().any(|p| p.name == "git"));
    assert!(packages.iter().any(|p| p.name == "curl"));
}

#[test]
fn test_indent_consistency() {
    let section = parse_packages_section(CONTENT).unwrap();
    let result = section.add_package(CONTENT, "test", None).unwrap();
    let lines: Vec<&str> = result.lines().collect();
    for line in lines {
        if !line.trim().is_empty() {
            let leading_spaces = line.len() - line.trim_start().len();
            assert!(leading_spaces % 2 == 0);
        }
    }
}

#[test]
fn test_package_creation() {
    let pkg = Package::new("ripgrep".to_string());
    assert_eq!(pkg.name, "ripgrep");
    assert_eq!(pkg.version.unwrap(), "latest");
}

#[test]
fn test_env_var_creation() {
    let env = EnvVar::new("TEST_VAR".to_string(), "test_value".to_string());
    assert_eq!(env.name, "TEST_VAR");
    assert_eq!(env.value, "test_value");
}

#[test]
fn test_profile_creation() {
    let profile = Profile::new("test-profile".to_string());
    assert_eq!(profile.name, "test-profile");
    assert_eq!(profile.packages.len(), 0);
    assert_eq!(profile.env_vars.len(), 0);
}

#[test]
fn test_profile_with_data() {
    let mut profile = Profile::new("dev".to_string());
    profile.packages.push(Package::new("git".to_string()));
    profile
        .env_vars
        .push(EnvVar::new("VAR1".to_string(), "value1".to_string()));

    assert_eq!(profile.packages.len(), 1);
    assert_eq!(profile.env_vars.len(), 1);
}

#[test]
fn test_flake_config_default() {
    let config = FlakeConfig::default();
    assert!(config.inputs.is_empty());
    assert!(config.profiles.is_empty());
}

#[test]
fn test_flake_config_with_profiles() {
    let mut config = FlakeConfig::default();
    config.profiles.push(Profile::new("default".to_string()));
    config.profiles.push(Profile::new("dev".to_string()));

    assert_eq!(config.profiles.len(), 2);
}

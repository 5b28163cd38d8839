use flk::env::parse_env_vars_section;
use flk::inputs::parse_inputs_section;
use flk::packages::parse_packages_section;

#[test]
fn env_test_parse_env_vars() {
    let content = r#"{
  envVars = {
    RUST_BACKTRACE = "1";
    MY_VAR = "value";
  };
}"#;

    let section = parse_env_vars_section(content).unwrap();
    assert_eq!(section.entries.len(), 2);
    assert_eq!(section.entries[0].name, "RUST_BACKTRACE");
    assert_eq!(section.entries[0].value, "1");
}

#[test]
fn env_test_add_env_var() {
    let content = r#"{
  envVars = {
    RUST_BACKTRACE = "1";
  };
}"#;

    let section = parse_env_vars_section(content).unwrap();
    let new_content = section.add_env_var(content, "NEW_VAR", "new_value").unwrap();

    assert!(new_content.contains("NEW_VAR = \"new_value\""));
}

#[test]
fn test_parse_inputs() {
    let content = r#"{
  description = "Development environment managed by flk";

  inputs = {
    nixpkgs.url = "github:NixOS/nixpkgs/nixos-unstable";
    flake-utils. url = "github:numtide/flake-utils";
    profile-lib.url = "github:AEduardo-dev/nix-profile-lib";
  };

  outputs = inputs:  import . /. flk/default.nix inputs;
}"#;

    let section = parse_inputs_section(content).unwrap();

    assert_eq!(section.entries.len(), 3);
    assert_eq!(section.entries[0].name, "nixpkgs");
    assert_eq!(
        section.entries[0].url,
        "github:NixOS/nixpkgs/nixos-unstable"
    );
    assert_eq!(section.entries[1].name, "flake-utils");
    assert_eq!(section.entries[2].name, "profile-lib");

    let names = section.to_input_names();
    assert_eq!(names, vec!["nixpkgs", "flake-utils", "profile-lib"]);
}

#[test]
fn test_add_input() {
    let content = r#"{
  inputs = {
    nixpkgs. url = "github:NixOS/nixpkgs/nixos-unstable";
  };
}"#;

    let section = parse_inputs_section(content).unwrap();
    let new_content = section.add_input(content, "rust-overlay", "github:oxalica/rust-overlay");

    assert!(new_content.contains("rust-overlay.url"));
    assert!(new_content.contains("oxalica/rust-overlay"));
}

#[test]
fn test_remove_input() {
    let content = r#"{
  inputs = {
    nixpkgs. url = "github:NixOS/nixpkgs/nixos-unstable";
    flake-utils.url = "github:numtide/flake-utils";
  };
}"#;

    let section = parse_inputs_section(content).unwrap();
    let new_content = section.remove_input(content, "flake-utils").unwrap();

    assert!(!new_content.contains("flake-utils"));
    assert!(new_content.contains("nixpkgs"));
}

#[test]
fn test_update_input() {
    let content = r#"{
  inputs = {
    nixpkgs. url = "github:NixOS/nixpkgs/nixos-unstable";
  };
}"#;

    let section = parse_inputs_section(content).unwrap();
    let new_content = section
        .update_input(content, "nixpkgs", "github:NixOS/nixpkgs/nixos-24.05")
        .unwrap();

    assert!(new_content.contains("nixos-24.05"));
    assert!(!new_content.contains("nixos-unstable"));
}

#[test]
fn test_parse_packages() {
    let content = r#"{
  packages = with pkgs; [
    rust-bin.stable.latest.default # From rust-overlay
    rust-analyzer
    pkg-config
  ];
}"#;

    let section = parse_packages_section(content).unwrap();
    assert_eq!(section.entries.len(), 3);
    assert_eq!(section.entries[0].name, "rust-bin.stable.latest.default");
    assert_eq!(
        section.entries[0]._comment,
        Some("From rust-overlay".to_string())
    );
    assert_eq!(section.entries[1].name, "rust-analyzer");
}

#[test]
fn test_add_package() {
    let content = r#"{
  packages = with pkgs; [
    rust-analyzer
  ];
}"#;

    let section = parse_packages_section(content).unwrap();
    let new_content = section
        .add_package(content, "cargo-watch", Some("For watching"))
        .unwrap();

    assert!(new_content.contains("cargo-watch # For watching"));
}

#[test]
fn packages_test_remove_package() {
    let content = r#"{
  packages = with pkgs; [
    rust-analyzer
    cargo-watch
  ];
}"#;

    let section = parse_packages_section(content).unwrap();
    let new_content = section.remove_package(content, "cargo-watch").unwrap();

    assert!(!new_content.contains("cargo-watch"));
    assert!(new_content.contains("rust-analyzer"));
}

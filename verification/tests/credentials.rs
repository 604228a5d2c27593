use jrg::config::{
    api_key, credential_file, discover_env_file, is_env_name, key_from_entries, usable,
    AncestorDir, CredentialError, Exclusions, ResolvedPath, SeenPath, ENV_FILE_NAME, KEY_NAME,
};
use std::path::{Path, PathBuf};

/// The directories from `cwd` to the top, with a credential file in each of `files` and
/// a repository at each of `repositories`.
fn ancestors(cwd: &Path, files: &[PathBuf], repositories: &[PathBuf]) -> Vec<AncestorDir> {
    cwd.ancestors()
        .map(|dir| AncestorDir {
            env_file: dir.join(ENV_FILE_NAME),
            has_env_file: files.iter().any(|file| file == dir),
            has_git: repositories.iter().any(|root| root == dir),
        })
        .collect()
}

fn key(environment: Option<&str>, file: Option<&str>) -> Result<String, CredentialError> {
    api_key(
        environment.map(|value| value.to_string()),
        file.map(|text| text.as_bytes().to_vec()),
    )
}

#[test]
fn nearest_file_stops_at_git_and_worktree_boundaries() {
    let temp = PathBuf::from("/temp");
    let root = temp.join("project");
    let nested = root.join("src/nested");
    let roots = [root.clone()];
    assert_eq!(discover_env_file(ancestors(&nested, &[temp.clone()], &roots)), None);
    assert_eq!(
        discover_env_file(ancestors(&nested, &[temp.clone(), root.clone()], &roots)),
        Some(root.join(".jrgenv"))
    );
    assert_eq!(
        discover_env_file(ancestors(
            &nested,
            &[temp.clone(), root.clone(), root.join("src")],
            &roots
        )),
        Some(root.join("src/.jrgenv"))
    );
}

#[test]
fn outside_git_only_current_directory_is_checked() {
    let temp = PathBuf::from("/temp");
    let child = temp.join("child");
    assert_eq!(discover_env_file(ancestors(&child, &[temp.clone()], &[])), None);
    assert_eq!(
        discover_env_file(ancestors(&child, &[temp.clone(), child.clone()], &[])),
        Some(child.join(".jrgenv"))
    );
}

#[test]
fn the_nearest_of_two_repositories_is_the_boundary() {
    let outer = PathBuf::from("/outer");
    let inner = outer.join("inner");
    let cwd = inner.join("src");
    let roots = [outer.clone(), inner.clone()];
    assert_eq!(discover_env_file(ancestors(&cwd, &[outer.clone()], &roots)), None);
    assert_eq!(
        discover_env_file(ancestors(&cwd, &[outer.clone(), inner.clone()], &roots)),
        Some(inner.join(".jrgenv"))
    );
    assert_eq!(discover_env_file(Vec::new()), None);
}

#[test]
fn credentials_load_from_nearest_project_file_without_shell_execution() {
    let root = PathBuf::from("/project");
    let cwd = root.join("subdir");
    let discovered = discover_env_file(ancestors(&cwd, &[root.clone()], &[root.clone()]));
    assert_eq!(discovered, Some(root.join(".jrgenv")));
    let text = "export TYPESAFE_API_KEY='$(touch marker)'\nOTHER=unused\n";
    assert_eq!(key(None, Some(text)), Ok("$(touch marker)".to_string()));
}

#[test]
fn environment_overrides_explicit_file_and_disable_flag_works() {
    let auto = PathBuf::from(".jrgenv");
    let custom = PathBuf::from("custom.env");
    assert_eq!(
        credential_file(false, Some(custom.clone()), Some(auto.clone())),
        Some(custom.clone())
    );
    assert_eq!(credential_file(false, None, Some(auto.clone())), Some(auto.clone()));
    assert_eq!(credential_file(true, None, Some(auto.clone())), None);
    assert_eq!(credential_file(true, Some(custom), Some(auto)), None);
    let explicit = "TYPESAFE_API_KEY=explicit\n";
    assert_eq!(key(Some("environment"), Some(explicit)), Ok("environment".to_string()));
    assert_eq!(key(None, Some(explicit)), Ok("explicit".to_string()));
    assert_eq!(key(Some(" \t\u{3000}"), Some(explicit)), Ok("explicit".to_string()));
    let error = key(None, None).unwrap_err();
    assert_eq!(error, CredentialError::Missing);
    assert!(error.message().contains("Set TYPESAFE_API_KEY"));
}

#[test]
fn malformed_dotenv_diagnostic_never_contains_the_secret() {
    let error = key(None, Some("TYPESAFE_API_KEY='PRIVATE_SENTINEL\n")).unwrap_err();
    assert_eq!(error, CredentialError::Syntax);
    assert!(!error.message().contains("PRIVATE_SENTINEL"));
    assert!(error.message().contains("Invalid dotenv syntax"));
}

#[test]
fn the_first_setting_of_the_name_counts_and_must_not_be_blank() {
    let twice = "OTHER=1\nTYPESAFE_API_KEY=first\nTYPESAFE_API_KEY=second\n";
    assert_eq!(key(None, Some(twice)), Ok("first".to_string()));
    let blank = "TYPESAFE_API_KEY=\nTYPESAFE_API_KEY=second\n";
    assert_eq!(key(None, Some(blank)), Err(CredentialError::Missing));
    assert_eq!(key(None, Some("OTHER=1\n")), Err(CredentialError::Missing));
    assert_eq!(key(None, Some("")), Err(CredentialError::Missing));
    assert_eq!(
        key(None, Some("TYPESAFE_API_KEY=good\nnot a setting\n")),
        Err(CredentialError::Syntax)
    );
}

#[test]
fn dotenv_syntax_is_read_by_the_dotenv_reader() {
    let text = "# comment\nexport TYPESAFE_API_KEY=\"a b\" # trailing\n";
    assert_eq!(key(None, Some(text)), Ok("a b".to_string()));
    assert_eq!(key(None, Some("TYPESAFE_API_KEY=plain")), Ok("plain".to_string()));
}

#[test]
fn values_are_data_whatever_else_is_substituted() {
    let name = "JRG_TEST_VARIABLE_THAT_IS_NOT_SET";
    for (setting, value) in [
        ("'a$b'", "a$b"),
        ("'${HOME}'", "${HOME}"),
        ("\"a\\$b\"", "a$b"),
        ("a\\$b", "a$b"),
    ] {
        let text = format!("OTHER=$HOME\nTYPESAFE_API_KEY={setting}\nLAST=\"${{{name}}}\"\n");
        assert_eq!(key(None, Some(&text)), Ok(value.to_string()), "{setting}");
    }
    assert_eq!(key(None, Some("OTHER=$HOME\n")), Err(CredentialError::Missing));
    assert_eq!(
        key(None, Some("TYPESAFE_API_KEY=good\nOTHER=\"${HOME\"\n")),
        Err(CredentialError::Syntax)
    );
}

#[test]
fn entries_give_the_key_or_the_reason() {
    let entry = |name: &str, value: &str| Some((name.to_string(), value.to_string()));
    assert_eq!(
        key_from_entries(vec![entry("X", "1"), entry(KEY_NAME, "k"), entry(KEY_NAME, "l")]),
        Ok("k".to_string())
    );
    assert_eq!(
        key_from_entries(vec![entry(KEY_NAME, "k"), None]),
        Err(CredentialError::Syntax)
    );
    assert_eq!(key_from_entries(vec![entry(KEY_NAME, " ")]), Err(CredentialError::Missing));
    assert_eq!(key_from_entries(vec![]), Err(CredentialError::Missing));
}

#[test]
fn an_environment_value_is_used_unless_blank() {
    assert!(usable(&Some("k".to_string())));
    assert!(!usable(&Some(" \n".to_string())));
    assert!(!usable(&Some(String::new())));
    assert!(!usable(&None));
}

#[test]
fn credential_names_are_recognised() {
    for name in [".env", ".env.local", ".env.", ".jrgenv", ".jrgenv.local"] {
        assert!(is_env_name(name), "{name}");
    }
    for name in ["env", ".envrc", "a.env", ".jrgenvx", "jrgenv", "", ".ENV"] {
        assert!(!is_env_name(name), "{name}");
    }
}

fn seen(name: &str, resolved: Option<(&str, &str)>) -> SeenPath {
    SeenPath {
        name: Some(name.to_string()),
        resolved: resolved.map(|(path, name)| ResolvedPath {
            bytes: path.as_bytes().to_vec(),
            name: Some(name.to_string()),
        }),
    }
}

#[test]
fn credential_files_and_their_aliases_stay_out() {
    let exclusions = Exclusions::new(Some(b"/p/keys.txt".to_vec()));
    assert!(exclusions.contains(&seen(".env", None)));
    assert!(exclusions.contains(&seen("keys.txt", Some(("/p/keys.txt", "keys.txt")))));
    assert!(exclusions.contains(&seen("alias", Some(("/p/keys.txt", "keys.txt")))));
    assert!(exclusions.contains(&seen("alias", Some(("/p/.jrgenv", ".jrgenv")))));
    assert!(!exclusions.contains(&seen("keys.txt", Some(("/q/keys.txt", "keys.txt")))));
    assert!(!exclusions.contains(&seen("keys.txt", None)));
    let none = Exclusions::new(None);
    assert!(!none.contains(&seen("keys.txt", Some(("/p/keys.txt", "keys.txt")))));
    assert!(none.contains(&seen("x", Some(("/p/.env.local", ".env.local")))));
    assert!(!none.contains(&SeenPath { name: None, resolved: None }));
}

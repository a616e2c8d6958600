use context_compressor_mcp::compress::guard::{resolve, FileFacts, PathProbe, MAX_FILE_BYTES};
use context_compressor_mcp::compress::GuardError;

fn probe(resolved: Option<&str>, facts: Option<(bool, u64)>) -> PathProbe {
    PathProbe {
        root: Some("/scratch".to_owned()),
        resolved: resolved.map(str::to_owned),
        metadata: facts.map(|(is_file, len)| FileFacts { is_file, len }),
    }
}

#[test]
fn reads_a_normal_file_inside_the_root() {
    let p = probe(Some("/scratch/ok.rs"), Some((true, 13)));
    assert_eq!(resolve("ok.rs", &p), Ok("/scratch/ok.rs".to_owned()));
}

#[test]
fn rejects_traversal_out_of_the_root() {
    let p = probe(Some("/etc/hosts"), Some((true, 10)));
    assert_eq!(resolve("nested/../../../etc/hosts", &p), Err(GuardError::OutsideRoot));
}

#[test]
fn rejects_an_absolute_path_outside_the_root() {
    let p = probe(Some("/etc/hosts"), Some((true, 10)));
    assert_eq!(resolve("/etc/hosts", &p), Err(GuardError::OutsideRoot));
}

#[test]
fn rejects_an_empty_path() {
    let p = probe(Some("/scratch/ok.rs"), Some((true, 13)));
    assert_eq!(resolve("   ", &p), Err(GuardError::EmptyPath));
}

#[test]
fn rejects_a_missing_file() {
    let p = probe(None, None);
    assert_eq!(resolve("nope.rs", &p), Err(GuardError::NotFound));
}

#[test]
fn rejects_a_directory() {
    let p = probe(Some("/scratch/sub"), Some((false, 4096)));
    assert_eq!(resolve("sub", &p), Err(GuardError::NotARegularFile));
}

#[test]
fn rejects_deny_listed_names_and_extensions() {
    let env = probe(Some("/scratch/.env"), Some((true, 8)));
    assert_eq!(resolve(".env", &env), Err(GuardError::Denied));
    let pem = probe(Some("/scratch/server.pem"), Some((true, 8)));
    assert_eq!(resolve("server.pem", &pem), Err(GuardError::Denied));
}

#[test]
fn rejects_anything_inside_a_git_directory() {
    let p = probe(Some("/scratch/.git/config"), Some((true, 6)));
    assert_eq!(resolve(".git/config", &p), Err(GuardError::Denied));
}

#[test]
fn error_messages_never_contain_a_path() {
    let p = probe(Some("/etc/hosts"), Some((true, 10)));
    let message = resolve("/etc/hosts", &p).unwrap_err().message();
    assert!(!message.contains('/'), "{message}");
}

#[test]
fn a_file_over_the_cap_is_too_large() {
    let p = probe(Some("/scratch/big.rs"), Some((true, MAX_FILE_BYTES + 1)));
    assert_eq!(
        resolve("big.rs", &p),
        Err(GuardError::TooLarge { bytes: MAX_FILE_BYTES + 1 })
    );
    let at_cap = probe(Some("/scratch/big.rs"), Some((true, MAX_FILE_BYTES)));
    assert!(resolve("big.rs", &at_cap).is_ok());
}

#[test]
fn an_unresolvable_root_or_unreadable_metadata_is_unreadable() {
    let no_root = PathProbe { root: None, resolved: Some("/scratch/a.rs".to_owned()), metadata: None };
    assert_eq!(resolve("a.rs", &no_root), Err(GuardError::Unreadable));
    let no_meta = probe(Some("/scratch/a.rs"), None);
    assert_eq!(resolve("a.rs", &no_meta), Err(GuardError::Unreadable));
}

#[test]
fn a_sibling_that_shares_the_root_as_a_prefix_is_outside() {
    let p = probe(Some("/scratch-other/a.rs"), Some((true, 1)));
    assert_eq!(resolve("../scratch-other/a.rs", &p), Err(GuardError::OutsideRoot));
}

#[test]
fn deny_list_names_match_ignoring_case() {
    let p = probe(Some("/scratch/ID_RSA"), Some((true, 1)));
    assert_eq!(resolve("ID_RSA", &p), Err(GuardError::Denied));
}

#[test]
fn every_refusal_has_its_message() {
    assert_eq!(GuardError::EmptyPath.message(), "filePath must not be empty");
    assert_eq!(GuardError::NotFound.message(), "file not found");
    assert_eq!(GuardError::NotARegularFile.message(), "not a regular file");
    assert_eq!(GuardError::OutsideRoot.message(), "path resolves outside the allowed root");
    assert_eq!(GuardError::Denied.message(), "file name is on the sensitive-file deny list");
    assert_eq!(
        GuardError::TooLarge { bytes: 9_000_000 }.message(),
        "file is 9000000 bytes, limit is 8388608"
    );
    assert_eq!(GuardError::NotUtf8.message(), "file is not valid UTF-8 text");
    assert_eq!(GuardError::Unreadable.message(), "file could not be read");
}

#[test]
fn the_guard_refuses_the_whole_dotenv_family_and_every_ssh_key() {
    for name in [".env.local", ".ENV.Local", "id_ecdsa", "id_rsa.pub", "store.jks"] {
        let path = format!("/scratch/{name}");
        let p = probe(Some(&path), Some((true, 8)));
        assert_eq!(resolve(name, &p), Err(GuardError::Denied), "{name}");
    }
}

#[test]
fn the_guard_lets_ordinary_sources_through() {
    for name in ["environment.rs", "identity.rs", "keyboard.ts"] {
        let path = format!("/scratch/{name}");
        let p = probe(Some(&path), Some((true, 8)));
        assert_eq!(resolve(name, &p), Ok(path.clone()), "{name}");
    }
}

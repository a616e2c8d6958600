use context_compressor_mcp::compress::denylist::is_denied;

fn denied(name: &str) -> bool {
    is_denied(&format!("/project/{name}"))
}

#[test]
fn rejects_the_whole_dotenv_family_not_just_the_bare_file() {
    for name in [
        ".env",
        ".env.local",
        ".env.production",
        ".env.development.local",
    ] {
        assert!(denied(name), "{name} should be denied");
    }
}

#[test]
fn matching_is_case_insensitive() {
    for name in [".ENV.Local", "ID_RSA", "server.PEM"] {
        assert!(denied(name), "{name} should be denied");
    }
}

#[test]
fn rejects_every_ssh_key_name_not_only_rsa_and_ed25519() {
    for name in ["id_rsa", "id_rsa.pub", "id_dsa", "id_ecdsa", "id_ed25519"] {
        assert!(denied(name), "{name} should be denied");
    }
}

#[test]
fn rejects_key_and_certificate_extensions() {
    for name in [
        "server.pem",
        "private.key",
        "bundle.p12",
        "store.jks",
        "vault.kdbx",
    ] {
        assert!(denied(name), "{name} should be denied");
    }
}

#[test]
fn rejects_anything_under_a_git_directory() {
    assert!(is_denied("/project/.git/config"));
    assert!(is_denied("/project/sub/.git/hooks/pre-commit"));
}

#[test]
fn a_prefix_rule_does_not_swallow_unrelated_files() {
    for name in [
        "environment.rs",
        "identity.rs",
        "envelope.py",
        "keyboard.ts",
        "idea.md",
    ] {
        assert!(!denied(name), "{name} wrongly denied");
    }
}

#[test]
fn exact_names_match_only_whole_names() {
    assert!(denied("secrets.yaml"));
    assert!(denied(".PGPASS"));
    assert!(!denied("my-secrets.yaml.txt"));
    assert!(!denied("credentials.md"));
}

#[test]
fn a_directory_merely_named_like_git_is_not_refused() {
    assert!(!is_denied("/project/.github/workflows/ci.yml"));
    assert!(!is_denied("/project/git/config"));
}

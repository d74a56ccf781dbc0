use cry::crydna::{bytes_to_hex, Identity};
use cry::error::CryError;
use cry::secret::{SecretKey, SecretText};
use cry::ssh::{
    append_common_ssh_args, check_acl, encode_openssh_private_key, extract_var, fresh_key_name,
    icacls_args, run_ssh, temp_key_name, unix_ssh_args, whoami_windows, windows_ssh_args, KeyFile,
    KeyFileState, SshArgs, TempAgent, ToolRun,
};
use ssh_key::private::PrivateKey;

const SH: &str = "SSH_AUTH_SOCK=/tmp/ssh-abc/agent.12; export SSH_AUTH_SOCK;\n\
                  SSH_AGENT_PID=13; export SSH_AGENT_PID;\n\
                  echo Agent pid 13;\n";

const CSH: &str = "setenv SSH_AUTH_SOCK /tmp/ssh-abc/agent.12;\n\
                   setenv SSH_AGENT_PID 13;\n\
                   echo Agent pid 13;\n";

fn value(text: &str, var: &str) -> Option<String> {
    extract_var(text, var)
}

#[test]
fn variables_in_either_style() {
    for text in [SH, CSH] {
        assert_eq!(value(text, "SSH_AUTH_SOCK").unwrap(), "/tmp/ssh-abc/agent.12");
        assert_eq!(value(text, "SSH_AGENT_PID").unwrap(), "13");
        assert_eq!(value(text, "SSH_OTHER"), None);
    }
}

#[test]
fn variable_edge_cases() {
    assert_eq!(value("", "A"), None);
    assert_eq!(value("\n\n", "A"), None);
    assert_eq!(value("A=", "A").unwrap(), "");
    assert_eq!(value("  A= x y \u{3000}; z\r\n", "A").unwrap(), "x y");
    assert_eq!(value("A=1;2", "A").unwrap(), "1");
    assert_eq!(value("AB=1\nA=2", "A").unwrap(), "2");
    assert_eq!(value("A=1\nA=2", "A").unwrap(), "1");
    assert_eq!(value("setenv A 1;;\r\n", "A").unwrap(), "1");
    assert_eq!(value("setenv A 1 2;", "A").unwrap(), "1");
    assert_eq!(value("setenv A  1;", "A").unwrap(), "");
    assert_eq!(value("setenv B 1;\nsetenv A 2;", "A").unwrap(), "2");
    // A variable that is named without a value ends the search.
    assert_eq!(value("setenv A\nA=2", "A"), None);
    assert_eq!(value("setenv A;\nA=2", "A").unwrap(), "2");
}

fn finished(success: bool, stdout: &str, stderr: &str) -> ToolRun {
    ToolRun::Finished { success, stdout: stdout.to_string(), stderr: stderr.to_string() }
}

#[test]
fn agent_output() {
    let agent = TempAgent::spawn(finished(true, SH, "")).unwrap();
    assert_eq!(agent.socket, "/tmp/ssh-abc/agent.12");
    assert_eq!(agent.pid.as_deref(), Some("13"));
    assert_eq!(
        agent.kill_env(),
        ["SSH_AUTH_SOCK", "/tmp/ssh-abc/agent.12", "SSH_AGENT_PID", "13"]
    );

    let agent = TempAgent::spawn(finished(true, "SSH_AUTH_SOCK=/s;", "")).unwrap();
    assert_eq!(agent.pid, None);
    assert_eq!(agent.kill_env(), ["SSH_AUTH_SOCK", "/s"]);
}

#[test]
fn agent_failures() {
    let error = |run| TempAgent::spawn(run).unwrap_err().message();
    assert_eq!(
        error(ToolRun::NotStarted("not found".to_string())),
        "Invalid file format: Failed to spawn ssh-agent: not found\n\
         Make sure openssh-client is installed (e.g. `apt install openssh-client`)."
    );
    assert_eq!(
        error(finished(false, SH, "no")),
        "Invalid file format: ssh-agent exited with error: no"
    );
    assert_eq!(
        error(finished(true, "nothing", "")),
        "Invalid file format: Could not parse SSH_AUTH_SOCK from ssh-agent output:\nnothing"
    );
}

#[test]
fn adding_the_key() {
    let add = TempAgent::add_private_key;
    assert!(add(finished(true, "", "")).is_ok());
    assert_eq!(
        add(finished(false, "", "bad key")).unwrap_err().message(),
        "Invalid file format: ssh-add failed: bad key"
    );
    assert_eq!(
        add(ToolRun::NotStarted("gone".to_string())).unwrap_err().message(),
        "Invalid file format: Failed to spawn ssh-add: gone"
    );
}

fn args(port: Option<u16>, extra: &[&str]) -> SshArgs {
    SshArgs {
        target: "user@host".to_string(),
        passphrase: None,
        namespace: "work".to_string(),
        key_version: 1,
        sub_id: Some("deploy".to_string()),
        pass_file: None,
        port,
        ssh_args: extra.iter().map(|s| s.to_string()).collect(),
    }
}

#[test]
fn ssh_command_lines() {
    let mut argv = vec!["first".to_string()];
    append_common_ssh_args(&mut argv, &args(Some(2222), &["-v", "-A"]));
    assert_eq!(argv, ["first", "-p", "2222", "-v", "-A", "user@host"]);
    let mut argv = Vec::new();
    append_common_ssh_args(&mut argv, &args(None, &[]));
    assert_eq!(argv, ["user@host"]);
    assert_eq!(
        unix_ssh_args("/s", &args(Some(65535), &[])),
        [
            "-o",
            "IdentityAgent=/s",
            "-o",
            "IdentitiesOnly=yes",
            "-o",
            "PubkeyAuthentication=yes",
            "-o",
            "PreferredAuthentications=publickey",
            "-p",
            "65535",
            "user@host"
        ]
    );
    assert_eq!(
        windows_ssh_args(&args(None, &["-v"])),
        [
            "-o",
            "IdentitiesOnly=yes",
            "-o",
            "PubkeyAuthentication=yes",
            "-o",
            "PreferredAuthentications=publickey",
            "-o",
            "IdentityAgent=none",
            "-v",
            "user@host"
        ]
    );
}

#[test]
fn key_file_restriction() {
    assert_eq!(whoami_windows(Some("DOMAIN\\me\r\n".to_string())).unwrap(), "DOMAIN\\me");
    for nameless in [Some(" \r\n".to_string()), Some(String::new()), None] {
        assert_eq!(
            whoami_windows(nameless).unwrap_err().message(),
            "Invalid file format: Failed to determine the current user with whoami; \
             refusing to write key material to an unsecured file."
        );
    }
    assert_eq!(
        icacls_args("C:\\k.pem", "DOMAIN\\me"),
        ["C:\\k.pem", "/inheritance:r", "/grant:r", "DOMAIN\\me:F"]
    );
    assert!(check_acl(true).is_ok());
    assert_eq!(
        check_acl(false).unwrap_err().message(),
        "Invalid file format: Failed to restrict temp key file permissions with icacls; \
         refusing to write key material to an unsecured file."
    );
    assert_eq!(temp_key_name(&[0, 1, 2, 3, 0xfc, 0xfd, 0xfe, 0xff]), "cry_00010203fcfdfeff.pem");
}

#[test]
fn key_file_is_restricted_before_it_is_filled() {
    let pem = SecretText { text: "pem".to_string() };
    let mut file = KeyFile::start();
    assert!(!file.must_remove());
    file.created(Ok(())).unwrap();
    assert_eq!(file.state, KeyFileState::Empty);
    let argv = file.restriction("C:\\k.pem", Some("D\\me\n".to_string())).unwrap();
    assert_eq!(argv, ["C:\\k.pem", "/inheritance:r", "/grant:r", "D\\me:F"]);
    assert_eq!(file.state, KeyFileState::Restricting);
    file.restricted(true).unwrap();
    assert_eq!(file.state, KeyFileState::Restricted);
    assert_eq!(file.contents(&pem), "pem");
    file.written(Ok(())).unwrap();
    assert_eq!(file.state, KeyFileState::Ready);
    assert!(file.must_remove());
}

#[test]
fn key_file_failures() {
    let mut file = KeyFile::start();
    let err = file.created(Err("exists".to_string())).unwrap_err();
    assert!(matches!(err, CryError::Io(m) if m == "exists"));
    assert!(!file.must_remove());

    let mut file = KeyFile::start();
    file.created(Ok(())).unwrap();
    let err = file.restriction("k", None).unwrap_err();
    assert!(matches!(err, CryError::InvalidFormat(_)));
    assert_eq!(file.state, KeyFileState::Empty);
    assert!(file.must_remove());

    let mut file = KeyFile::start();
    file.created(Ok(())).unwrap();
    file.restriction("k", Some("me".to_string())).unwrap();
    let err = file.restricted(false).unwrap_err();
    assert!(matches!(err, CryError::InvalidFormat(_)));
    assert_eq!(file.state, KeyFileState::Empty);
    assert!(file.must_remove());

    let mut file = KeyFile::start();
    file.created(Ok(())).unwrap();
    file.restriction("k", Some("me".to_string())).unwrap();
    file.restricted(true).unwrap();
    let err = file.written(Err("disk full".to_string())).unwrap_err();
    assert!(matches!(err, CryError::Io(m) if m == "disk full"));
    assert!(file.must_remove());
}

#[test]
fn fresh_key_names_differ() {
    let a = fresh_key_name().unwrap();
    let b = fresh_key_name().unwrap();
    assert_ne!(a, b);
    assert_eq!(a.len(), "cry_.pem".len() + 16);
    assert!(a.starts_with("cry_") && a.ends_with(".pem"));
}

#[test]
fn plain_openssh_key() {
    let id = Identity { signing_key: SecretKey { bytes: [7u8; 32] } };
    for n in 0..100 {
        let comment = "c".repeat(n);
        let block = encode_openssh_private_key(&id, &comment).unwrap();
        let again = encode_openssh_private_key(&id, &comment).unwrap();
        assert_eq!(block.text, again.text);
        assert!(block.text.ends_with("-----END OPENSSH PRIVATE KEY-----\n"));
        let key = PrivateKey::from_openssh(&block.text).unwrap();
        assert!(!key.is_encrypted());
        assert_eq!(key.comment(), comment);
        let pair = key.key_data().ed25519().unwrap();
        assert_eq!(pair.private.to_bytes(), [7u8; 32]);
        assert_eq!(bytes_to_hex(pair.public.as_ref()), id.public_key_hex());
    }
}

#[test]
fn session_key_is_that_of_the_identity() {
    let block = run_ssh(&args(None, &[]), b"pw").unwrap();
    let id = Identity::derive(b"pw", "work", 1, Some("deploy")).unwrap();
    let expected = encode_openssh_private_key(&id, "CryDNA:work").unwrap();
    assert_eq!(block.text, expected.text);
}

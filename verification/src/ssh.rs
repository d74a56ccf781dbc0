//! SSH sessions with the key of an identity: what is handed to `ssh`, `ssh-agent`, `ssh-add`
//! and `icacls`, and what is read from their output.

use crate::crydna::{identity_salt, identity_tag, openssh_error, openssh_result, text_option, Identity};
use crate::error::{outcome, CryError, ErrorView};
use crate::hex::{bytes_to_hex, hex_text};
use crate::kdf::derived_key;
use crate::primitives::{
    argon2id_hash, ed25519_keypair, ed25519_public, openssh_encode, openssh_plain, openssh_writes,
    os_random, sha256_digest, OpensshFailure,
};
use crate::secret::{zeroize_bytes, SecretText};
use crate::text::{
    before, chars_of, decimal_text, first_index, has_prefix, index_of, is_white_space,
    law_first_index, law_starts_with, push_decimal,
    same_text, starts_with, string_of, trim, trim_end_of, trimmed, trimmed_end, trimmed_end_of,
};
use vstd::prelude::*;
use vstd::slice::slice_subrange;

verus! {

/// The arguments for an SSH session.
#[derive(Debug)]
pub struct SshArgs {
    /// Target, in the form `[user@]hostname`.
    pub target: String,
    /// Passphrase, in place of a prompt.
    pub passphrase: Option<String>,
    /// Namespace of the identity.
    pub namespace: String,
    /// Version of the identity.
    pub key_version: u32,
    /// Sub-identity.
    pub sub_id: Option<String>,
    /// File whose first line is the passphrase.
    pub pass_file: Option<std::path::PathBuf>,
    /// Port, handed on as `-p`.
    pub port: Option<u16>,
    /// Further arguments, handed on as they are.
    pub ssh_args: Vec<String>,
}

/// The contents of a list of strings.
pub open spec fn texts(v: Seq<String>) -> Seq<Seq<char>> {
    v.map_values(|s: String| s@)
}

/// Appends a string to a list.
fn push(argv: &mut Vec<String>, s: &str)
    ensures
        texts(final(argv)@) == texts(old(argv)@).push(s@),
{
    argv.push(s.to_owned());
    assert(texts(argv@) =~= texts(old(argv)@).push(s@));
}

/// The value of one line of the output of `ssh-agent`, if the line sets the variable: `VAR=value;`
/// with anything behind it, or `setenv VAR value;`. A line that names the variable in the
/// second form without a value ends the search.
pub open spec fn line_value(line: Seq<char>, var: Seq<char>) -> Option<Option<Seq<char>>> {
    if starts_with(line, var + "="@) {
        Some(Some(trimmed(before(line.skip(var.len() as int + 1), ';'))))
    } else if starts_with(line, "setenv "@) {
        let rest = line.skip(7);
        if before(rest, ' ') == var {
            if var.len() < rest.len() {
                Some(Some(trimmed_end_of(before(rest.skip(var.len() as int + 1), ' '), ';')))
            } else {
                Some(None)
            }
        } else {
            None
        }
    } else {
        None
    }
}

/// The value of a variable in the output of `ssh-agent`: that of the first line that sets it.
pub open spec fn var_value(text: Seq<char>, var: Seq<char>) -> Option<Seq<char>>
    decreases text.len(),
{
    if text.len() == 0 {
        None
    } else {
        let end = first_index(text, '\n');
        match line_value(trimmed(before(text, '\n')), var) {
            Some(value) => value,
            None => if end < text.len() {
                var_value(text.skip(end as int + 1), var)
            } else {
                None
            },
        }
    }
}

/// The view of an optional string.
pub open spec fn string_option(s: Option<String>) -> Option<Seq<char>> {
    match s {
        Some(t) => Some(t@),
        None => None,
    }
}

/// The view of an optional optional string.
pub open spec fn nested_option(s: Option<Option<String>>) -> Option<Option<Seq<char>>> {
    match s {
        Some(t) => Some(string_option(t)),
        None => None,
    }
}

/// The value of one line of the output of `ssh-agent`.
pub fn extract_line(line: &[char], var: &[char]) -> (r: Option<Option<String>>)
    ensures
        nested_option(r) == line_value(line@, var@),
{
    let line_len: usize = line.len();
    let assignment: Vec<char> = chars_of(string_of(var).concat("=").as_str());
    proof {
        reveal_strlit("=");
        reveal_strlit("setenv ");
    }
    if has_prefix(line, assignment.as_slice()) {
        let rest: &[char] = slice_subrange(line, assignment.len(), line_len);
        assert(rest@ =~= line@.skip(var@.len() as int + 1));
        let value: &[char] = slice_subrange(rest, 0, index_of(rest, ';'));
        assert(value@ =~= before(rest@, ';'));
        return Some(Some(string_of(trim(value))));
    }
    let setenv: Vec<char> = chars_of("setenv ");
    if !has_prefix(line, setenv.as_slice()) {
        return None;
    }
    let rest: &[char] = slice_subrange(line, 7, line_len);
    assert(rest@ =~= line@.skip(7));
    let end: usize = index_of(rest, ' ');
    let name: &[char] = slice_subrange(rest, 0, end);
    assert(name@ =~= before(rest@, ' '));
    if !same_text(name, var) {
        return None;
    }
    assert(end == var@.len());
    if end == rest.len() {
        return Some(None);
    }
    let tail: &[char] = slice_subrange(rest, end + 1, rest.len());
    assert(tail@ =~= rest@.skip(var@.len() as int + 1));
    let value: &[char] = slice_subrange(tail, 0, index_of(tail, ' '));
    assert(value@ =~= before(tail@, ' '));
    Some(Some(string_of(trim_end_of(value, ';'))))
}

/// The value of a variable in the output of `ssh-agent`, in the form of either shell family.
pub fn extract_var(text: &str, var: &str) -> (r: Option<String>)
    ensures
        string_option(r) == var_value(text@, var@),
{
    let chars: Vec<char> = chars_of(text);
    let name: Vec<char> = chars_of(var);
    let len: usize = chars.len();
    let mut pos: usize = 0;
    assert(chars@.skip(0) =~= text@);
    while pos < len
        invariant
            chars@ == text@,
            name@ == var@,
            len == chars@.len(),
            pos <= len,
            var_value(chars@.skip(pos as int), name@) == var_value(text@, var@),
        decreases len - pos,
    {
        let ghost here = chars@.skip(pos as int);
        let rest: &[char] = slice_subrange(chars.as_slice(), pos, len);
        assert(rest@ =~= here);
        let end: usize = index_of(rest, '\n');
        let line: &[char] = slice_subrange(rest, 0, end);
        assert(line@ =~= before(here, '\n'));
        match extract_line(trim(line), name.as_slice()) {
            Some(value) => {
                return value;
            },
            None => {
            },
        }
        if end == rest.len() {
            return None;
        }
        assert(here.skip(end as int + 1) =~= chars@.skip(pos + end + 1));
        pos = pos + end + 1;
    }
    assert(chars@.skip(pos as int) =~= Seq::empty());
    None
}

/// The arguments that every session ends with: the port, the further arguments, the target.
pub open spec fn common_args(args: SshArgs) -> Seq<Seq<char>> {
    (match args.port {
        Some(port) => seq!["-p"@, decimal_text(port as nat)],
        None => Seq::empty(),
    }) + texts(args.ssh_args@) + seq![args.target@]
}

/// Appends the arguments that every session ends with.
pub fn append_common_ssh_args(argv: &mut Vec<String>, args: &SshArgs)
    ensures
        texts(final(argv)@) == texts(old(argv)@) + common_args(*args),
        texts(final(argv)@) == texts(old(argv)@) + (match args.port {
            Some(port) => seq!["-p"@, decimal_text(port as nat)],
            None => Seq::empty(),
        }) + args.ssh_args@.map_values(|s: String| s@) + seq![args.target@],
{
    let ghost before = texts(argv@);
    let ghost port = match args.port {
        Some(port) => seq!["-p"@, decimal_text(port as nat)],
        None => Seq::empty(),
    };
    if let Some(number) = args.port {
        push(argv, "-p");
        let mut text: String = String::new();
        push_decimal(&mut text, number as u64);
        assert(text@ =~= decimal_text(number as nat));
        push(argv, text.as_str());
    }
    assert(texts(argv@) =~= before + port);
    let mut i: usize = 0;
    assert(texts(args.ssh_args@).take(0) =~= Seq::empty());
    assert(before + port + Seq::empty() =~= before + port);
    while i < args.ssh_args.len()
        invariant
            i <= args.ssh_args@.len(),
            texts(argv@) == before + port + texts(args.ssh_args@).take(i as int),
        decreases args.ssh_args@.len() - i,
    {
        push(argv, args.ssh_args[i].as_str());
        assert(texts(args.ssh_args@).take(i + 1) =~= texts(args.ssh_args@).take(i as int).push(
            texts(args.ssh_args@)[i as int],
        ));
        assert(texts(argv@) =~= before + port + texts(args.ssh_args@).take(i + 1));
        i = i + 1;
    }
    assert(texts(args.ssh_args@).take(i as int) =~= texts(args.ssh_args@));
    push(argv, args.target.as_str());
    assert(texts(argv@) =~= before + common_args(*args));
    assert(texts(argv@) =~= before + port + args.ssh_args@.map_values(|s: String| s@)
        + seq![args.target@]);
}

/// The arguments of `ssh` for a session that takes its key from the agent behind a socket and
/// authenticates with that key only.
pub open spec fn unix_args(socket: Seq<char>, args: SshArgs) -> Seq<Seq<char>> {
    seq![
        "-o"@,
        "IdentityAgent="@ + socket,
        "-o"@,
        "IdentitiesOnly=yes"@,
        "-o"@,
        "PubkeyAuthentication=yes"@,
        "-o"@,
        "PreferredAuthentications=publickey"@,
    ] + common_args(args)
}

/// The arguments of `ssh` for a session with an agent.
pub fn unix_ssh_args(socket: &str, args: &SshArgs) -> (r: Vec<String>)
    ensures
        texts(r@) == unix_args(socket@, *args),
        r@.map_values(|s: String| s@) == seq![
            "-o"@,
            "IdentityAgent="@ + socket@,
            "-o"@,
            "IdentitiesOnly=yes"@,
            "-o"@,
            "PubkeyAuthentication=yes"@,
            "-o"@,
            "PreferredAuthentications=publickey"@,
        ] + (match args.port {
            Some(port) => seq!["-p"@, decimal_text(port as nat)],
            None => Seq::empty(),
        }) + args.ssh_args@.map_values(|s: String| s@) + seq![args.target@],
{
    let mut argv: Vec<String> = Vec::new();
    assert(texts(argv@) =~= Seq::empty());
    push(&mut argv, "-o");
    push(&mut argv, "IdentityAgent=".to_owned().concat(socket).as_str());
    push(&mut argv, "-o");
    push(&mut argv, "IdentitiesOnly=yes");
    push(&mut argv, "-o");
    push(&mut argv, "PubkeyAuthentication=yes");
    push(&mut argv, "-o");
    push(&mut argv, "PreferredAuthentications=publickey");
    let ghost front = texts(argv@);
    append_common_ssh_args(&mut argv, args);
    assert(texts(argv@) =~= unix_args(socket@, *args));
    assert(argv@.map_values(|s: String| s@) =~= front + (match args.port {
        Some(port) => seq!["-p"@, decimal_text(port as nat)],
        None => Seq::empty(),
    }) + args.ssh_args@.map_values(|s: String| s@) + seq![args.target@]);
    argv
}

/// The arguments of `ssh`, behind `-i` and the key file, for a session that takes its key from
/// a file and authenticates with that key only.
pub open spec fn windows_args(args: SshArgs) -> Seq<Seq<char>> {
    seq![
        "-o"@,
        "IdentitiesOnly=yes"@,
        "-o"@,
        "PubkeyAuthentication=yes"@,
        "-o"@,
        "PreferredAuthentications=publickey"@,
        "-o"@,
        "IdentityAgent=none"@,
    ] + common_args(args)
}

/// The arguments of `ssh`, behind `-i` and the key file, for a session with a key file.
pub fn windows_ssh_args(args: &SshArgs) -> (r: Vec<String>)
    ensures
        texts(r@) == windows_args(*args),
        r@.map_values(|s: String| s@) == seq![
            "-o"@,
            "IdentitiesOnly=yes"@,
            "-o"@,
            "PubkeyAuthentication=yes"@,
            "-o"@,
            "PreferredAuthentications=publickey"@,
            "-o"@,
            "IdentityAgent=none"@,
        ] + (match args.port {
            Some(port) => seq!["-p"@, decimal_text(port as nat)],
            None => Seq::empty(),
        }) + args.ssh_args@.map_values(|s: String| s@) + seq![args.target@],
{
    let mut argv: Vec<String> = Vec::new();
    assert(texts(argv@) =~= Seq::empty());
    push(&mut argv, "-o");
    push(&mut argv, "IdentitiesOnly=yes");
    push(&mut argv, "-o");
    push(&mut argv, "PubkeyAuthentication=yes");
    push(&mut argv, "-o");
    push(&mut argv, "PreferredAuthentications=publickey");
    push(&mut argv, "-o");
    push(&mut argv, "IdentityAgent=none");
    let ghost front = texts(argv@);
    append_common_ssh_args(&mut argv, args);
    assert(texts(argv@) =~= windows_args(*args));
    assert(argv@.map_values(|s: String| s@) =~= front + (match args.port {
        Some(port) => seq!["-p"@, decimal_text(port as nat)],
        None => Seq::empty(),
    }) + args.ssh_args@.map_values(|s: String| s@) + seq![args.target@]);
    argv
}

/// How running a program went.
pub enum ToolRun {
    /// It could not be started; the text is the system's own description.
    NotStarted(String),
    /// It ran, successfully or not, with this output.
    Finished { success: bool, stdout: String, stderr: String },
}

/// A temporary `ssh-agent`.
#[derive(Debug)]
pub struct TempAgent {
    /// Socket of the agent.
    pub socket: String,
    /// Process of the agent, if it told.
    pub pid: Option<String>,
}

/// The mathematical counterpart of [`TempAgent`].
pub ghost struct TempAgentView {
    pub socket: Seq<char>,
    pub pid: Option<Seq<char>>,
}

impl View for TempAgent {
    type V = TempAgentView;

    open spec fn view(&self) -> TempAgentView {
        TempAgentView { socket: self.socket@, pid: string_option(self.pid) }
    }
}

/// The agent that a run of `ssh-agent -s` started, or why there is none.
pub open spec fn agent_from(run: ToolRun) -> Result<TempAgentView, ErrorView> {
    match run {
        ToolRun::NotStarted(e) => Err(
            ErrorView::InvalidFormat(
                "Failed to spawn ssh-agent: "@ + e@
                    + "\nMake sure openssh-client is installed (e.g. `apt install openssh-client`)."@,
            ),
        ),
        ToolRun::Finished { success, stdout, stderr } => if !success {
            Err(ErrorView::InvalidFormat("ssh-agent exited with error: "@ + stderr@))
        } else {
            match var_value(stdout@, "SSH_AUTH_SOCK"@) {
                None => Err(
                    ErrorView::InvalidFormat(
                        "Could not parse SSH_AUTH_SOCK from ssh-agent output:\n"@ + stdout@,
                    ),
                ),
                Some(socket) => Ok(
                    TempAgentView { socket, pid: var_value(stdout@, "SSH_AGENT_PID"@) },
                ),
            }
        },
    }
}

impl TempAgent {
    /// The agent that a run of `ssh-agent -s` started.
    pub fn spawn(run: ToolRun) -> (r: Result<TempAgent, CryError>)
        ensures
            outcome(r) == agent_from(run),
            match run {
                ToolRun::NotStarted(e) => r matches Err(x) && x is InvalidFormat
                    && x->InvalidFormat_0@ == "Failed to spawn ssh-agent: "@ + e@
                    + "\nMake sure openssh-client is installed (e.g. `apt install openssh-client`)."@,
                ToolRun::Finished { success, stdout, stderr } => if !success {
                    r matches Err(x) && x is InvalidFormat && x->InvalidFormat_0@
                        == "ssh-agent exited with error: "@ + stderr@
                } else {
                    match var_value(stdout@, "SSH_AUTH_SOCK"@) {
                        None => r matches Err(x) && x is InvalidFormat && x->InvalidFormat_0@
                            == "Could not parse SSH_AUTH_SOCK from ssh-agent output:\n"@ + stdout@,
                        Some(socket) => r matches Ok(agent) && agent.socket@ == socket && (
                        match agent.pid {
                            Some(pid) => var_value(stdout@, "SSH_AGENT_PID"@) == Some(pid@),
                            None => var_value(stdout@, "SSH_AGENT_PID"@) is None,
                        }),
                    }
                },
            },
    {
        match run {
            ToolRun::NotStarted(e) => Err(
                CryError::InvalidFormat(
                    "Failed to spawn ssh-agent: ".to_owned().concat(e.as_str()).concat(
                        "\nMake sure openssh-client is installed (e.g. `apt install openssh-client`).",
                    ),
                ),
            ),
            ToolRun::Finished { success, stdout, stderr } => {
                if !success {
                    return Err(
                        CryError::InvalidFormat(
                            "ssh-agent exited with error: ".to_owned().concat(stderr.as_str()),
                        ),
                    );
                }
                match extract_var(stdout.as_str(), "SSH_AUTH_SOCK") {
                    None => Err(
                        CryError::InvalidFormat(
                            "Could not parse SSH_AUTH_SOCK from ssh-agent output:\n".to_owned().concat(
                                stdout.as_str(),
                            ),
                        ),
                    ),
                    Some(socket) => Ok(
                        TempAgent { socket, pid: extract_var(stdout.as_str(), "SSH_AGENT_PID") },
                    ),
                }
            },
        }
    }

    /// What a run of `ssh-add -` means for the key that was piped into it.
    pub fn add_private_key(run: ToolRun) -> (r: Result<(), CryError>)
        ensures
            r is Ok <==> (run matches ToolRun::Finished { success, .. } && success),
            r matches Err(e) ==> e@ == (match run {
                ToolRun::NotStarted(m) => ErrorView::InvalidFormat(
                    "Failed to spawn ssh-add: "@ + m@,
                ),
                ToolRun::Finished { stderr, .. } => ErrorView::InvalidFormat(
                    "ssh-add failed: "@ + stderr@,
                ),
            }),
    {
        match run {
            ToolRun::NotStarted(m) => Err(
                CryError::InvalidFormat(
                    "Failed to spawn ssh-add: ".to_owned().concat(m.as_str()),
                ),
            ),
            ToolRun::Finished { success, stdout: _, stderr } => {
                if success {
                    Ok(())
                } else {
                    Err(
                        CryError::InvalidFormat(
                            "ssh-add failed: ".to_owned().concat(stderr.as_str()),
                        ),
                    )
                }
            },
        }
    }

    /// The environment variables, each name before its value, with which `ssh-agent -k` ends the agent.
    pub open spec fn spec_kill_env(self) -> Seq<Seq<char>> {
        seq!["SSH_AUTH_SOCK"@, self.socket@] + (match self.pid {
            Some(pid) => seq!["SSH_AGENT_PID"@, pid@],
            None => Seq::empty(),
        })
    }

    /// The environment variables, each name before its value, with which `ssh-agent -k` ends the
    /// agent.
    pub fn kill_env(&self) -> (r: Vec<String>)
        ensures
            texts(r@) == self.spec_kill_env(),
            r@.map_values(|s: String| s@) == (match self.pid {
                Some(pid) => seq!["SSH_AUTH_SOCK"@, self.socket@, "SSH_AGENT_PID"@, pid@],
                None => seq!["SSH_AUTH_SOCK"@, self.socket@],
            }),
    {
        let mut env: Vec<String> = Vec::new();
        assert(texts(env@) =~= Seq::empty());
        push(&mut env, "SSH_AUTH_SOCK");
        push(&mut env, self.socket.as_str());
        if let Some(pid) = &self.pid {
            push(&mut env, "SSH_AGENT_PID");
            push(&mut env, pid.as_str());
        }
        assert(texts(env@) =~= self.spec_kill_env());
        assert(env@.map_values(|s: String| s@) =~= match self.pid {
            Some(pid) => seq!["SSH_AUTH_SOCK"@, self.socket@, "SSH_AGENT_PID"@, pid@],
            None => seq!["SSH_AUTH_SOCK"@, self.socket@],
        });
        env
    }
}

/// The account of the user, from the output of `whoami`, if it ran and printed text. Without a
/// name there is no account that a key file could be restricted to.
pub open spec fn account(whoami: Option<Seq<char>>) -> Result<Seq<char>, ErrorView> {
    match whoami {
        Some(out) if trimmed(out).len() > 0 => Ok(trimmed(out)),
        _ => Err(
            ErrorView::InvalidFormat(
                "Failed to determine the current user with whoami; refusing to write key material to an unsecured file."@,
            ),
        ),
    }
}

/// The account of the user, from the output of `whoami`, if it ran and printed text.
pub fn whoami_windows(output: Option<String>) -> (r: Result<String, CryError>)
    ensures
        outcome(r) == account(string_option(output)),
        r is Ok <==> output is Some && trimmed(output->0@).len() > 0,
        r matches Ok(n) ==> n@ == trimmed(output->0@),
        r matches Err(e) ==> e@ is InvalidFormat,
{
    if let Some(out) = output {
        let chars: Vec<char> = chars_of(out.as_str());
        let name: &[char] = trim(chars.as_slice());
        if name.len() > 0 {
            return Ok(string_of(name));
        }
    }
    Err(
        CryError::InvalidFormat(
            "Failed to determine the current user with whoami; refusing to write key material to an unsecured file.".to_owned(),
        ),
    )
}

/// The arguments of `icacls` that take a file from everyone and leave it to one account.
pub open spec fn owner_only(path: Seq<char>, username: Seq<char>) -> Seq<Seq<char>> {
    seq![path, "/inheritance:r"@, "/grant:r"@, username + ":F"@]
}

/// The arguments of `icacls` that leave a key file to one account.
pub fn icacls_args(path: &str, username: &str) -> (r: Vec<String>)
    ensures
        texts(r@) == owner_only(path@, username@),
        r@.map_values(|s: String| s@) == seq![
            path@,
            "/inheritance:r"@,
            "/grant:r"@,
            username@ + ":F"@,
        ],
{
    let mut argv: Vec<String> = Vec::new();
    assert(texts(argv@) =~= Seq::empty());
    push(&mut argv, path);
    push(&mut argv, "/inheritance:r");
    push(&mut argv, "/grant:r");
    push(&mut argv, username.to_owned().concat(":F").as_str());
    assert(texts(argv@) =~= owner_only(path@, username@));
    argv
}

/// Whether key material may be written, given how `icacls` ended.
pub fn check_acl(restricted: bool) -> (r: Result<(), CryError>)
    ensures
        r is Ok <==> restricted,
        r matches Err(e) ==> e@ == ErrorView::InvalidFormat(
            "Failed to restrict temp key file permissions with icacls; refusing to write key material to an unsecured file."@,
        ),
{
    if restricted {
        Ok(())
    } else {
        Err(
            CryError::InvalidFormat(
                "Failed to restrict temp key file permissions with icacls; refusing to write key material to an unsecured file.".to_owned(),
            ),
        )
    }
}

/// What stands of a temporary key file.
#[derive(Debug, Clone, Copy, PartialEq, Eq, Structural)]
pub enum KeyFileState {
    /// No file.
    Absent,
    /// An empty file that others may be able to read.
    Empty,
    /// An empty file that is being restricted to the user.
    Restricting,
    /// An empty file that only the user can read.
    Restricted,
    /// A file with the key, that only the user can read.
    Ready,
}

/// The making of a temporary key file: it is created empty, restricted to the user, and only
/// then filled.
#[derive(Debug)]
pub struct KeyFile {
    pub state: KeyFileState,
}

impl KeyFile {
    /// Before the file is created.
    pub fn start() -> (r: KeyFile)
        ensures
            r.state == KeyFileState::Absent,
    {
        KeyFile { state: KeyFileState::Absent }
    }

    /// After the empty file was created, or could not be.
    pub fn created(&mut self, result: Result<(), String>) -> (r: Result<(), CryError>)
        requires
            old(self).state == KeyFileState::Absent,
        ensures
            final(self).state == if result is Ok {
                KeyFileState::Empty
            } else {
                KeyFileState::Absent
            },
            r is Ok <==> result is Ok,
            r matches Err(e) ==> e@ == ErrorView::Io(result->Err_0@),
    {
        match result {
            Ok(()) => {
                self.state = KeyFileState::Empty;
                Ok(())
            },
            Err(m) => Err(CryError::Io(m)),
        }
    }

    /// The arguments of `icacls` that leave the file, whose path is given, to the user whom
    /// `whoami` named. Without a name the file stays as it is, and nothing is to be written to
    /// it.
    pub fn restriction(&mut self, path: &str, whoami: Option<String>) -> (r: Result<
        Vec<String>,
        CryError,
    >)
        requires
            old(self).state == KeyFileState::Empty,
        ensures
            match account(string_option(whoami)) {
                Ok(name) => {
                    &&& r matches Ok(argv) && texts(argv@) == owner_only(path@, name)
                    &&& final(self).state == KeyFileState::Restricting
                },
                Err(why) => {
                    &&& r matches Err(e) && e@ == why
                    &&& final(self).state == KeyFileState::Empty
                },
            },
    {
        match whoami_windows(whoami) {
            Ok(name) => {
                self.state = KeyFileState::Restricting;
                Ok(icacls_args(path, name.as_str()))
            },
            Err(e) => Err(e),
        }
    }

    /// After `icacls` restricted the file, or did not.
    pub fn restricted(&mut self, restricted: bool) -> (r: Result<(), CryError>)
        requires
            old(self).state == KeyFileState::Restricting,
        ensures
            final(self).state == if restricted {
                KeyFileState::Restricted
            } else {
                KeyFileState::Empty
            },
            r is Ok <==> restricted,
            r matches Err(e) ==> e@ == ErrorView::InvalidFormat(
                "Failed to restrict temp key file permissions with icacls; refusing to write key material to an unsecured file."@,
            ),
    {
        match check_acl(restricted) {
            Ok(()) => {
                self.state = KeyFileState::Restricted;
                Ok(())
            },
            Err(e) => {
                self.state = KeyFileState::Empty;
                Err(e)
            },
        }
    }

    /// The key, to be written now: the file is there and only the user can read it.
    pub fn contents<'a>(&self, key_pem: &'a SecretText) -> (r: &'a str)
        requires
            self.state == KeyFileState::Restricted,
        ensures
            r@ == key_pem@,
    {
        key_pem.text.as_str()
    }

    /// After the key was written, or could not be.
    pub fn written(&mut self, result: Result<(), String>) -> (r: Result<(), CryError>)
        requires
            old(self).state == KeyFileState::Restricted,
        ensures
            final(self).state == if result is Ok {
                KeyFileState::Ready
            } else {
                KeyFileState::Restricted
            },
            r is Ok <==> result is Ok,
            r matches Err(e) ==> e@ == ErrorView::Io(result->Err_0@),
    {
        match result {
            Ok(()) => {
                self.state = KeyFileState::Ready;
                Ok(())
            },
            Err(m) => Err(CryError::Io(m)),
        }
    }

    /// Whether a file is there that has to be overwritten and removed in the end, on success as
    /// on failure.
    pub fn must_remove(&self) -> (r: bool)
        ensures
            r == (self.state != KeyFileState::Absent),
    {
        match self.state {
            KeyFileState::Absent => false,
            _ => true,
        }
    }
}

/// The name of a temporary key file, from eight random bytes.
pub fn temp_key_name(random: &[u8; 8]) -> (r: String)
    ensures
        r@ == "cry_"@ + hex_text(random@) + ".pem"@,
{
    "cry_".to_owned().concat(bytes_to_hex(random).as_str()).concat(".pem")
}

/// A fresh name for a temporary key file. The only error is `Io`, where the operating system
/// gives no random bytes.
pub fn fresh_key_name() -> (r: Result<String, CryError>)
    ensures
        r matches Ok(name) ==> exists|random: Seq<u8>|
            random.len() == 8 && name@ == "cry_"@ + #[trigger] hex_text(random) + ".pem"@,
        r matches Err(e) ==> e@ is Io,
{
    let mut random: [u8; 8] = [0u8; 8];
    match os_random(&mut random) {
        Ok(()) => Ok(temp_key_name(&random)),
        Err(e) => Err(CryError::Io(e)),
    }
}

/// The key pair of an identity as an unencrypted OpenSSH private key block.
pub fn encode_openssh_private_key(identity: &Identity, comment: &str) -> (r: Result<
    SecretText,
    CryError,
>)
    ensures
        outcome(r) == match openssh_plain(ed25519_keypair(identity@), comment@) {
            Ok(block) => Ok(block),
            Err(e) => Err(openssh_error(e)),
        },
        openssh_writes(comment@) ==> r is Ok,
        match openssh_plain(
            identity.signing_key.bytes@ + ed25519_public(identity.signing_key.bytes@),
            comment@,
        ) {
            Ok(block) => r matches Ok(pem) && pem.text@ == block,
            Err(e) => r matches Err(x) && x@ == openssh_error(e),
        },
{
    let mut keypair: [u8; 64] = identity.keypair_bytes();
    let block: Result<String, OpensshFailure> = openssh_encode(&keypair, comment);
    zeroize_bytes(&mut keypair);
    openssh_result(block)
}

/// The comment of the key in a session.
pub open spec fn session_comment(namespace: Seq<char>) -> Seq<char> {
    "CryDNA:"@ + namespace
}

/// The key block of a session: that of the identity that the arguments name.
pub open spec fn session_key(args: SshArgs, passphrase: Seq<u8>) -> Result<Seq<char>, ErrorView> {
    match derived_key(
        passphrase,
        identity_salt(args.namespace@, args.key_version as nat, string_option(args.sub_id)),
    ) {
        Err(e) => Err(e),
        Ok(seed) => match openssh_plain(ed25519_keypair(seed), session_comment(args.namespace@)) {
            Ok(block) => Ok(block),
            Err(e) => Err(openssh_error(e)),
        },
    }
}

/// The unencrypted private key block that a session authenticates with. It is handed to a
/// temporary agent, or to a key file that only the user can read, and wiped afterwards.
pub fn run_ssh(args: &SshArgs, passphrase: &[u8]) -> (r: Result<SecretText, CryError>)
    ensures
        outcome(r) == session_key(*args, passphrase@),
        ({
            let sub_id = match args.sub_id {
                Some(sub) => Some(sub@),
                None => None,
            };
            let secret = argon2id_hash(
                passphrase@,
                identity_salt(args.namespace@, args.key_version as nat, sub_id),
                65536,
                3,
                1,
                32,
            );
            let block = openssh_plain(
                secret + ed25519_public(secret),
                "CryDNA:"@ + args.namespace@,
            );
            passphrase@.len() <= 0xffff_ffff ==> match block {
                Ok(t) => r matches Ok(pem) && pem.text@ == t,
                Err(e) => r matches Err(x) && x@ == openssh_error(e),
            }
        }),
        passphrase@.len() <= 0xffff_ffff && openssh_writes(session_comment(args.namespace@))
            ==> r is Ok,
{
    proof {
        law_session_key(*args, passphrase@);
    }
    let sub_id: Option<&str> = match &args.sub_id {
        Some(sub) => Some(sub.as_str()),
        None => None,
    };
    assert(text_option(sub_id) == string_option(args.sub_id));
    let identity: Identity = match Identity::derive(
        passphrase,
        args.namespace.as_str(),
        args.key_version,
        sub_id,
    ) {
        Ok(identity) => identity,
        Err(e) => {
            return Err(e);
        },
    };
    let comment: String = "CryDNA:".to_owned().concat(args.namespace.as_str());
    encode_openssh_private_key(&identity, comment.as_str())
}

/// Trimming keeps a text whose ends are no white space.
proof fn lemma_trimmed_keeps(s: Seq<char>)
    requires
        s.len() > 0,
        !is_white_space(s[0]),
        !is_white_space(s.last()),
    ensures
        trimmed(s) == s,
{
}

/// Trimming the end cuts at most what follows a character that is no white space.
proof fn lemma_trimmed_end_after(front: Seq<char>, tail: Seq<char>)
    requires
        front.len() > 0,
        !is_white_space(front.last()),
    ensures
        starts_with(trimmed_end(front + tail), front),
    decreases tail.len(),
{
    if tail.len() > 0 && is_white_space(tail.last()) {
        lemma_trimmed_end_after(front, tail.drop_last());
        assert((front + tail).drop_last() =~= front + tail.drop_last());
    } else if tail.len() == 0 {
        assert(front + tail =~= front);
        assert(front.take(front.len() as int) =~= front);
    } else {
        assert((front + tail).last() == tail.last());
        assert((front + tail).take(front.len() as int) =~= front);
    }
}

/// A character that a front part does not hold comes first right behind that part.
proof fn lemma_first_behind(front: Seq<char>, c: char, tail: Seq<char>)
    requires
        !front.contains(c),
        tail.len() > 0 ==> tail[0] == c,
    ensures
        first_index(front + tail, c) == front.len(),
    decreases front.len(),
{
    if front.len() > 0 {
        let rest = front.skip(1);
        assert(front.contains(front[0]));
        assert forall|d: char| rest.contains(d) implies front.contains(d) by {
            let i = choose|i: int| 0 <= i < rest.len() && rest[i] == d;
            assert(front[i + 1] == d);
        }
        lemma_first_behind(rest, c, tail);
        assert((front + tail).skip(1) =~= rest + tail);
    }
}

/// The value of a variable is found in output for the Bourne shell family,
/// `VAR=value; export VAR;`, whatever follows.
pub proof fn law_sh_style(var: Seq<char>, value: Seq<char>, tail: Seq<char>, rest: Seq<char>)
    requires
        var.len() > 0,
        !is_white_space(var[0]),
        !var.contains('\n'),
        !value.contains('\n'),
        !value.contains(';'),
        trimmed(value) == value,
        !tail.contains('\n'),
    ensures
        var_value(var + "="@ + value + ";"@ + tail + "\n"@ + rest, var) == Some(value),
{
    reveal_strlit("=");
    reveal_strlit(";");
    reveal_strlit("\n");
    let front = var + "="@ + value + ";"@;
    let line = front + tail;
    let text = line + "\n"@ + rest;
    assert(!line.contains('\n')) by {
        if line.contains('\n') {
            let i = choose|i: int| 0 <= i < line.len() && line[i] == '\n';
            if i < var.len() {
                assert(var[i] == '\n');
            } else if var.len() < i < var.len() + 1 + value.len() {
                assert(value[i - var.len() - 1] == '\n');
            } else if i >= front.len() {
                assert(tail[i - front.len()] == '\n');
            }
        }
    }
    assert(text =~= line + ("\n"@ + rest));
    lemma_first_behind(line, '\n', "\n"@ + rest);
    assert(before(text, '\n') =~= line);
    assert(line[0] == var[0]);
    lemma_trimmed_end_after(front, tail);
    let t = trimmed(line);
    assert(t.take(front.len() as int) == front);
    assert(t.take(var.len() as int + 1) =~= var + "="@) by {
        assert(t.take(var.len() as int + 1) =~= front.take(var.len() as int + 1));
    }
    assert(starts_with(t, var + "="@));
    let after = t.skip(var.len() as int + 1);
    let more = t.skip(front.len() as int);
    assert(after =~= value + (";"@ + more)) by {
        assert(t =~= front + more);
    }
    lemma_first_behind(value, ';', ";"@ + more);
    assert(before(after, ';') =~= value);
}

/// The value of a variable is found in output for the C shell family, `setenv VAR value;`,
/// whatever follows.
pub proof fn law_csh_style(var: Seq<char>, value: Seq<char>, rest: Seq<char>)
    requires
        !var.contains('\n'),
        !var.contains(' '),
        !value.contains('\n'),
        !value.contains(' '),
        value.len() > 0 ==> value.last() != ';',
    ensures
        var_value("setenv "@ + var + " "@ + value + ";"@ + "\n"@ + rest, var) == Some(value),
{
    reveal_strlit("setenv ");
    reveal_strlit(" ");
    reveal_strlit("=");
    reveal_strlit(";");
    reveal_strlit("\n");
    let line = "setenv "@ + var + " "@ + value + ";"@;
    let text = line + "\n"@ + rest;
    assert(!line.contains('\n')) by {
        if line.contains('\n') {
            let i = choose|i: int| 0 <= i < line.len() && line[i] == '\n';
            if 7 <= i < 7 + var.len() {
                assert(var[i - 7] == '\n');
            } else if 8 + var.len() <= i < 8 + var.len() + value.len() {
                assert(value[i - 8 - var.len()] == '\n');
            }
        }
    }
    assert(text =~= line + ("\n"@ + rest));
    lemma_first_behind(line, '\n', "\n"@ + rest);
    assert(before(text, '\n') =~= line);
    lemma_trimmed_keeps(line);
    assert(!starts_with(line, var + "="@)) by {
        if starts_with(line, var + "="@) {
            let n = var.len() as int;
            assert(line.take(n + 1)[n] == '=');
            assert(line[n] == '=');
            if n >= 7 {
                assert(line.take(n + 1)[6] == var[6]);
                assert(line[6] == ' ');
                assert(var.contains(var[6]));
            }
        }
    }
    assert(line.take(7) =~= "setenv "@);
    let after = line.skip(7);
    let tail = value + ";"@;
    assert(after =~= var + (" "@ + tail));
    lemma_first_behind(var, ' ', " "@ + tail);
    assert(before(after, ' ') =~= var);
    assert(after.skip(var.len() as int + 1) =~= tail);
    assert(!tail.contains(' ')) by {
        if tail.contains(' ') {
            let i = choose|i: int| 0 <= i < tail.len() && tail[i] == ' ';
            if i < value.len() {
                assert(value[i] == ' ');
            }
        }
    }
    lemma_first_behind(tail, ' ', Seq::empty());
    assert(tail + Seq::empty() =~= tail);
    assert(before(tail, ' ') =~= tail);
    assert(tail.drop_last() =~= value);
    reveal_with_fuel(trimmed_end_of, 2);
}

/// A session authenticates with the key of the identity that its namespace, its key version and its
/// sub-identity name, all three as they are given, under the comment that names the namespace.
pub proof fn law_session_key(args: SshArgs, passphrase: Seq<u8>)
    ensures
        ({
            let sub_id = match args.sub_id {
                Some(sub) => Some(sub@),
                None => None,
            };
            let secret = argon2id_hash(
                passphrase,
                identity_salt(args.namespace@, args.key_version as nat, sub_id),
                65536,
                3,
                1,
                32,
            );
            let block = openssh_plain(
                secret + ed25519_public(secret),
                "CryDNA:"@ + args.namespace@,
            );
            &&& passphrase.len() > 0xffff_ffff ==> session_key(args, passphrase) == Err::<
                Seq<char>,
                ErrorView,
            >(ErrorView::Kdf("password is too long"@))
            &&& passphrase.len() <= 0xffff_ffff && sha256_digest(
                identity_tag(args.namespace@, args.key_version as nat, sub_id),
            ).len() == 32 ==> session_key(args, passphrase) == match block {
                Ok(t) => Ok::<Seq<char>, ErrorView>(t),
                Err(e) => Err(openssh_error(e)),
            }
        }),
{
}

/// The account of a user is the output of `whoami` without the white space around it; without
/// output there is none.
pub proof fn law_account(out: Seq<char>)
    ensures
        trimmed(out).len() > 0 ==> account(Some(out)) == Ok::<Seq<char>, ErrorView>(trimmed(out)),
        trimmed(out).len() == 0 ==> account(Some(out)) is Err,
        account(None) is Err,
{
}

/// A line that sets no variable, or another one, does not matter.
pub proof fn law_other_lines_skipped(line: Seq<char>, rest: Seq<char>, var: Seq<char>)
    requires
        !line.contains('\n'),
        !(var + "="@).is_prefix_of(trimmed(line)),
        "setenv "@.is_prefix_of(trimmed(line)) ==> !(var + " "@).is_prefix_of(
            trimmed(line).skip(7),
        ) && trimmed(line).skip(7) != var,
        !var.contains(' '),
    ensures
        var_value(line + "\n"@ + rest, var) == var_value(rest, var),
        var_value(line, var) == None::<Seq<char>>,
        var_value(Seq::empty(), var) == None::<Seq<char>>,
{
    reveal_strlit("\n");
    reveal_strlit(" ");
    let text = line + "\n"@ + rest;
    let t = trimmed(line);
    assert(text =~= line + ("\n"@ + rest));
    lemma_first_behind(line, '\n', "\n"@ + rest);
    lemma_first_behind(line, '\n', Seq::empty());
    assert(line + Seq::empty() =~= line);
    assert(before(text, '\n') =~= line);
    assert(before(line, '\n') =~= line);
    assert(text.skip(line.len() as int + 1) =~= rest);
    law_starts_with(t, var + "="@);
    law_starts_with(t, "setenv "@);
    if starts_with(t, "setenv "@) {
        let r = t.skip(7);
        law_first_index(r, ' ');
        if before(r, ' ') == var {
            let n = first_index(r, ' ') as int;
            assert(var =~= r.take(n));
            if n < r.len() {
                assert(var + " "@ =~= r.take(n + 1));
            } else {
                assert(r.take(n) =~= r);
            }
        }
    }
    assert(line_value(t, var) is None);
}

/// White space around a line does not matter, and neither does a carriage return at its end.
pub proof fn law_lines_trimmed(a: Seq<char>, b: Seq<char>, rest: Seq<char>, var: Seq<char>)
    requires
        !a.contains('\n'),
        !b.contains('\n'),
        trimmed(a) == trimmed(b),
    ensures
        var_value(a + "\n"@ + rest, var) == var_value(b + "\n"@ + rest, var),
{
    reveal_strlit("\n");
    let x = a + "\n"@ + rest;
    let y = b + "\n"@ + rest;
    assert(x =~= a + ("\n"@ + rest));
    assert(y =~= b + ("\n"@ + rest));
    lemma_first_behind(a, '\n', "\n"@ + rest);
    lemma_first_behind(b, '\n', "\n"@ + rest);
    assert(before(x, '\n') =~= a);
    assert(before(y, '\n') =~= b);
    assert(x.skip(a.len() as int + 1) =~= rest);
    assert(y.skip(b.len() as int + 1) =~= rest);
}

/// The last line may lack its line feed.
pub proof fn law_last_line(line: Seq<char>, var: Seq<char>)
    requires
        !line.contains('\n'),
    ensures
        var_value(line + "\n"@, var) == var_value(line, var),
{
    reveal_strlit("\n");
    lemma_first_behind(line, '\n', "\n"@);
    lemma_first_behind(line, '\n', Seq::empty());
    assert(line + Seq::empty() =~= line);
    assert(before(line + "\n"@, '\n') =~= line);
    assert(before(line, '\n') =~= line);
    assert((line + "\n"@).skip(line.len() as int + 1) =~= Seq::empty());
    if line.len() == 0 {
        assert(trimmed(line) =~= Seq::empty());
        reveal_strlit("setenv ");
        reveal_strlit("=");
        assert(line_value(Seq::empty(), var) is None);
        assert(var_value("\n"@, var) is None) by {
            assert(line + "\n"@ =~= "\n"@);
        }
        assert(line + "\n"@ =~= "\n"@);
    } else {
        let end = line.len() as int;
        assert(var_value((line + "\n"@).skip(end + 1), var) is None);
    }
}

/// `setenv` with the variable and nothing behind it ends the search without a value; with more
/// words behind it, the first is the value, without semicolons at its end.
pub proof fn law_setenv_words(var: Seq<char>, value: Seq<char>, more: Seq<char>, rest: Seq<char>)
    requires
        var.len() > 0,
        !is_white_space(var.last()),
        !var.contains('\n'),
        !var.contains(' '),
        !value.contains('\n'),
        !value.contains(' '),
        more.len() > 0,
        !more.contains('\n'),
        !is_white_space(more.last()),
    ensures
        var_value("setenv "@ + var + "\n"@ + rest, var) == None::<Seq<char>>,
        var_value("setenv "@ + var + " "@ + value + " "@ + more + "\n"@ + rest, var) == Some(
            trimmed_end_of(value, ';'),
        ),
{
    reveal_strlit("setenv ");
    reveal_strlit(" ");
    reveal_strlit("=");
    reveal_strlit("\n");
    let bare = "setenv "@ + var;
    let full = "setenv "@ + var + " "@ + value + " "@ + more;
    assert(!bare.contains('\n')) by {
        if bare.contains('\n') {
            let i = choose|i: int| 0 <= i < bare.len() && bare[i] == '\n';
            assert(var[i - 7] == '\n');
        }
    }
    assert(!full.contains('\n')) by {
        if full.contains('\n') {
            let i = choose|i: int| 0 <= i < full.len() && full[i] == '\n';
            let n = 7 + var.len();
            if 7 <= i < n {
                assert(var[i - 7] == '\n');
            } else if n + 1 <= i < n + 1 + value.len() {
                assert(value[i - n - 1] == '\n');
            } else if i >= n + 2 + value.len() {
                assert(more[i - n - 2 - value.len()] == '\n');
            }
        }
    }
    assert(bare.take(7) =~= "setenv "@);
    assert(full.take(7) =~= "setenv "@);
    lemma_not_assignment(bare, var);
    lemma_not_assignment(full, var);
    lemma_trimmed_keeps(bare);
    assert(full.last() == more.last());
    lemma_trimmed_keeps(full);
    assert(bare.skip(7) =~= var);
    lemma_first_behind(var, ' ', Seq::empty());
    assert(var + Seq::empty() =~= var);
    assert(before(var, ' ') =~= var);
    let after = full.skip(7);
    let tail = value + (" "@ + more);
    assert(after =~= var + (" "@ + tail));
    lemma_first_behind(var, ' ', " "@ + tail);
    assert(before(after, ' ') =~= var);
    assert(after.skip(var.len() as int + 1) =~= tail);
    lemma_first_behind(value, ' ', " "@ + more);
    assert(before(tail, ' ') =~= value);
    let x = bare + "\n"@ + rest;
    let y = full + "\n"@ + rest;
    assert(x =~= bare + ("\n"@ + rest));
    assert(y =~= full + ("\n"@ + rest));
    lemma_first_behind(bare, '\n', "\n"@ + rest);
    lemma_first_behind(full, '\n', "\n"@ + rest);
    assert(before(x, '\n') =~= bare);
    assert(before(y, '\n') =~= full);
}

/// A line that starts with `setenv ` assigns no variable whose name holds no space.
proof fn lemma_not_assignment(line: Seq<char>, var: Seq<char>)
    requires
        line.len() >= 7,
        line.take(7) == "setenv "@,
        !var.contains(' '),
    ensures
        !starts_with(line, var + "="@),
{
    reveal_strlit("setenv ");
    reveal_strlit("=");
    assert forall|i: int| 0 <= i < 7 implies #[trigger] line[i] == "setenv "@[i] by {
        assert(line.take(7)[i] == line[i]);
    }
    if starts_with(line, var + "="@) {
        let n = var.len() as int;
        assert(line.take(n + 1)[n] == '=');
        assert(line[n] == '=');
        if n >= 7 {
            assert(line.take(n + 1)[6] == var[6]);
            assert(line[6] == ' ');
            assert(var.contains(var[6]));
        } else {
            assert("setenv "@[n] == '=');
        }
    }
}

} // verus!

//! Local-server setup and serving: the persisted environment config, the
//! choice of server binary, the exact server command line, what a setup
//! run does, and the resumable model download's control.
use vstd::prelude::*;

use crate::text::{
    copy_string, decimal, is_ws, join, own_str, push_decimal, push_joined, push_str, shell_quote, shell_quoted,
    string_of, trim_seq, ascii_lowercase, chars_of, to_ascii_lowercase, trim_chars,
};

verus! {

/// Repository of the default model.
pub const DEFAULT_HF_REPO: &'static str = "unsloth/gemma-4-E2B-it-qat-GGUF";

/// Model file inside [`DEFAULT_HF_REPO`].
pub const DEFAULT_GGUF_FILE: &'static str = "gemma-4-E2B-it-qat-UD-Q4_K_XL.gguf";

/// Model alias the server serves.
pub const DEFAULT_MODEL_ALIAS: &'static str = "gemma-4-e2b-qat";

/// Bind host.
pub const DEFAULT_HOST: &'static str = "127.0.0.1";

/// Bind port.
pub const DEFAULT_PORT: u16 = 18136;

/// The phase subcommands: prepare the environment, or serve the model.
#[derive(Debug)]
pub enum PhaseCommand {
    /// Detect the server, download the model, and write the config.
    Setup(SetupArgs),
    /// Launch the local inference server in the foreground.
    Serve(ServeArgs),
}

/// Options of the setup phase.
#[derive(Debug)]
pub struct SetupArgs {
    /// Assume "yes" to the download confirmation.
    pub yes: bool,
    /// Download the model even if present.
    pub force: bool,
    /// Report what would happen; download and write nothing.
    pub dry_run: bool,
    /// Directory for the model file (default: the cache directory).
    pub gguf_dir: Option<String>,
    /// Explicit server binary path, tried first.
    pub llama_server: Option<String>,
    /// Repository to download from.
    pub hf_repo: String,
    /// Model file inside the repository.
    pub gguf_file: String,
    /// Model alias served.
    pub model_alias: String,
    /// Bind host.
    pub host: String,
    /// Bind port.
    pub port: u16,
    /// Environment variable holding the download token.
    pub hf_token_env: String,
}

/// Options of the serve phase.
#[derive(Debug)]
pub struct ServeArgs {
    /// Print the server command line and exit.
    pub dry_run: bool,
    /// Override the config's bind host.
    pub host: Option<String>,
    /// Override the config's bind port.
    pub port: Option<u16>,
    /// Override the config's model alias.
    pub model_alias: Option<String>,
}

/// The persisted environment config written by setup and read by serve
/// and the mesh path.
#[derive(Debug)]
pub struct PtgConfig {
    /// Path of the server binary, if one was found.
    pub server_path: Option<String>,
    /// Path of the model file.
    pub gguf_path: String,
    /// Bind host.
    pub host: String,
    /// Bind port.
    pub port: u16,
    /// Model alias served.
    pub model_alias: String,
}

/// The base URL `http://host:port`.
pub open spec fn url_of(host: Seq<char>, port: u16) -> Seq<char> {
    "http://"@ + host + ":"@ + decimal(port as nat)
}

impl PtgConfig {
    /// The OpenAI-compatible base URL, `http://host:port`.
    pub fn server_url(&self) -> (u: String)
        ensures
            u@ == url_of(self.host@, self.port),
    {
        let mut v: Vec<char> = Vec::new();
        push_str(&mut v, "http://");
        push_str(&mut v, self.host.as_str());
        push_str(&mut v, ":");
        push_decimal(&mut v, self.port as u64);
        string_of(&v)
    }
}

/// The first candidate that is non-empty and runnable.
pub open spec fn first_runnable(cands: Seq<Seq<char>>, runnable: Seq<bool>, m: int) -> Option<int>
    decreases m,
{
    if m <= 0 {
        None
    } else {
        match first_runnable(cands, runnable, m - 1) {
            Some(k) => Some(k),
            None => if cands[m - 1].len() > 0 && runnable[m - 1] {
                Some(m - 1)
            } else {
                None
            },
        }
    }
}

/// Choose the server binary: the first candidate, in resolution order,
/// that is non-empty and runnable (`runnable[k]` tells whether candidate
/// `k` exists and is executable).
pub fn detect_server(candidates: &Vec<String>, runnable: &Vec<bool>) -> (r: Option<String>)
    requires
        candidates@.len() == runnable@.len(),
    ensures
        match first_runnable(candidates@.map_values(|s: String| s@), runnable@, candidates@.len() as int) {
            Some(k) => r matches Some(s) && s@ == candidates@[k]@,
            None => r is None,
        },
{
    let ghost cv = candidates@.map_values(|s: String| s@);
    let mut k: usize = 0;
    while k < candidates.len()
        invariant
            0 <= k <= candidates@.len(),
            candidates@.len() == runnable@.len(),
            cv == candidates@.map_values(|s: String| s@),
            first_runnable(cv, runnable@, k as int) is None,
        decreases candidates@.len() - k,
    {
        assert(cv[k as int] == candidates@[k as int]@);
        if !candidates[k].as_str().is_empty() && runnable[k] {
            proof {
                lemma_first_runnable_extend(cv, runnable@, k + 1, candidates@.len() as int);
            }
            return Some(copy_string(&candidates[k]));
        }
        k = k + 1;
    }
    None
}

proof fn lemma_first_runnable_extend(cands: Seq<Seq<char>>, runnable: Seq<bool>, m: int, n: int)
    requires
        0 <= m <= n,
        first_runnable(cands, runnable, m) is Some,
    ensures
        first_runnable(cands, runnable, n) == first_runnable(cands, runnable, m),
    decreases n - m,
{
    if n > m {
        lemma_first_runnable_extend(cands, runnable, m, n - 1);
    }
}

/// The server's arguments.
pub open spec fn server_args(gguf: Seq<char>, host: Seq<char>, port: u16, alias: Seq<char>) -> Seq<Seq<char>> {
    seq![
        "-m"@, gguf, "--host"@, host, "--port"@, decimal(port as nat), "-c"@, "4096"@, "-ngl"@, "99"@,
        "-fa"@, "on"@, "--jinja"@, "--alias"@, alias, "--reasoning"@, "off"@, "--reasoning-format"@, "none"@,
    ]
}

fn push_arg(v: &mut Vec<String>, s: &str)
    ensures
        final(v)@.map_values(|x: String| x@) == old(v)@.map_values(|x: String| x@).push(s@),
{
    v.push(own_str(s));
    assert(v@.map_values(|x: String| x@) =~= old(v)@.map_values(|x: String| x@).push(s@));
}

/// The exact server flags for serving `gguf` on `host:port` under `alias`
/// (the server path itself is not among them).
pub fn build_server_command(_server: &str, gguf: &str, host: &str, port: u16, alias: &str) -> (v: Vec<String>)
    ensures
        v@.map_values(|x: String| x@) == server_args(gguf@, host@, port, alias@),
{
    let mut v: Vec<String> = Vec::new();
    push_arg(&mut v, "-m");
    push_arg(&mut v, gguf);
    push_arg(&mut v, "--host");
    push_arg(&mut v, host);
    push_arg(&mut v, "--port");
    let mut p: Vec<char> = Vec::new();
    push_decimal(&mut p, port as u64);
    let ps = string_of(&p);
    push_arg(&mut v, ps.as_str());
    push_arg(&mut v, "-c");
    push_arg(&mut v, "4096");
    push_arg(&mut v, "-ngl");
    push_arg(&mut v, "99");
    push_arg(&mut v, "-fa");
    push_arg(&mut v, "on");
    push_arg(&mut v, "--jinja");
    push_arg(&mut v, "--alias");
    push_arg(&mut v, alias);
    push_arg(&mut v, "--reasoning");
    push_arg(&mut v, "off");
    push_arg(&mut v, "--reasoning-format");
    push_arg(&mut v, "none");
    assert(v@.map_values(|x: String| x@) =~= server_args(gguf@, host@, port, alias@));
    v
}

/// A command line for display: the program, a space, then each argument
/// shell-quoted, separated by spaces.
pub fn command_line(program: &str, args: &Vec<String>) -> (s: String)
    ensures
        s@ == program@ + " "@ + join(args@.map_values(|x: String| shell_quoted(x@)), " "@),
{
    let mut quoted: Vec<String> = Vec::new();
    let mut j: usize = 0;
    while j < args.len()
        invariant
            0 <= j <= args@.len(),
            quoted@.map_values(|x: String| x@) == args@.map_values(|x: String| shell_quoted(x@)).take(j as int),
        decreases args@.len() - j,
    {
        let ghost before = quoted@;
        quoted.push(shell_quote(args[j].as_str()));
        assert(quoted@.map_values(|x: String| x@) =~= before.map_values(|x: String| x@).push(shell_quoted(args@[j as int]@)));
        assert(args@.map_values(|x: String| shell_quoted(x@)).take(j + 1) =~= args@.map_values(
            |x: String| shell_quoted(x@),
        ).take(j as int).push(shell_quoted(args@[j as int]@)));
        j = j + 1;
    }
    assert(args@.map_values(|x: String| shell_quoted(x@)).take(j as int) =~= args@.map_values(|x: String| shell_quoted(x@)));
    let mut v: Vec<char> = Vec::new();
    push_str(&mut v, program);
    push_str(&mut v, " ");
    push_joined(&mut v, &quoted, " ");
    string_of(&v)
}

/// Where `serve` binds and what it serves: each override, else the
/// config's value.
pub fn serve_target(cfg: &PtgConfig, host: Option<String>, port: Option<u16>, alias: Option<String>) -> (r: (
    String,
    u16,
    String,
))
    ensures
        r.0@ == match host {
            Some(h) => h@,
            None => cfg.host@,
        },
        r.1 == match port {
            Some(p) => p,
            None => cfg.port,
        },
        r.2@ == match alias {
            Some(a) => a@,
            None => cfg.model_alias@,
        },
{
    let h = match host {
        Some(h) => h,
        None => copy_string(&cfg.host),
    };
    let p = match port {
        Some(p) => p,
        None => cfg.port,
    };
    let a = match alias {
        Some(a) => a,
        None => copy_string(&cfg.model_alias),
    };
    (h, p, a)
}

/// What a setup run does about the model and the config.
#[derive(Debug, Clone, Copy, PartialEq, Eq)]
pub struct SetupPlan {
    /// The model must be fetched (forced, or missing).
    pub need_download: bool,
    /// Ask before the (multi-GB) download.
    pub ask_confirmation: bool,
    /// Download (after a confirmation, where one is asked).
    pub download: bool,
    /// Write the config at the end.
    pub write_config: bool,
}

/// Plan a setup run: the model is fetched when forced or missing; a dry
/// run downloads and writes nothing; otherwise the download is confirmed
/// first unless `yes` was given.
pub fn plan_setup(force: bool, model_present: bool, dry_run: bool, yes: bool) -> (p: SetupPlan)
    ensures
        p.need_download == (force || !model_present),
        p.ask_confirmation == (p.need_download && !dry_run && !yes),
        p.download == (p.need_download && !dry_run),
        p.write_config == !dry_run,
{
    let need_download = force || !model_present;
    SetupPlan {
        need_download,
        ask_confirmation: need_download && !dry_run && !yes,
        download: need_download && !dry_run,
        write_config: !dry_run,
    }
}

/// Whether a confirmation answer accepts: `y` or `Y`, surrounding
/// whitespace ignored.
pub fn confirmation_accepted(line: &str) -> (r: bool)
    ensures
        r == (ascii_lowercase(trim_seq(line@)) == seq!['y']),
{
    let v = chars_of(line);
    let t = trim_chars(&v);
    let l = to_ascii_lowercase(&t);
    if l.len() == 1 && l[0] == 'y' {
        assert(l@ =~= seq!['y']);
        true
    } else {
        false
    }
}

// ---------------------------------------------------------------------------
// Resumable download
// ---------------------------------------------------------------------------

/// The download URL of `repo/file`.
pub fn download_url(repo: &str, file: &str) -> (u: String)
    ensures
        u@ == "https://huggingface.co/"@ + repo@ + "/resolve/main/"@ + file@,
{
    let mut v: Vec<char> = Vec::new();
    push_str(&mut v, "https://huggingface.co/");
    push_str(&mut v, repo);
    push_str(&mut v, "/resolve/main/");
    push_str(&mut v, file);
    string_of(&v)
}

/// The most attempts a stalled download gets.
pub const MAX_DOWNLOAD_ATTEMPTS: u32 = 5;

/// What to do with a response to a download request.
#[derive(Debug, Clone, Copy, PartialEq, Eq)]
pub enum ResponseAction {
    /// Access refused (401 or 403): the model is gated.
    Gated,
    /// Any other non-success status.
    Failed,
    /// Stream the body into the partial file: appended when the server
    /// honored the range (206), otherwise into a fresh file, after deleting
    /// the old partial file when `discard_partial`.
    Write { append: bool, discard_partial: bool },
}

/// What to do once a body has been written.
#[derive(Debug, Clone, Copy, PartialEq, Eq)]
pub enum BodyAction {
    /// The file is whole (or its length is unknown): move it into place.
    Complete,
    /// Short of the expected length: request the rest.
    Resume,
    /// Short of the expected length after the last allowed attempt.
    Stalled { have: u64, expected_total: u64, attempts: u32 },
}

/// The control state of a resumable download: the bytes already on disk
/// and the attempts made.
#[derive(Debug)]
pub struct DownloadControl {
    pub have_bytes: u64,
    pub attempt: u32,
}

impl DownloadControl {
    /// Between attempts, fewer than the maximum have been made.
    pub open spec fn wf(&self) -> bool {
        self.attempt < MAX_DOWNLOAD_ATTEMPTS
    }

    /// Start with the bytes of an existing partial file.
    pub fn new(existing_bytes: u64) -> (c: Self)
        ensures
            c.wf(),
            c.have_bytes == existing_bytes,
            c.attempt == 0,
    {
        DownloadControl { have_bytes: existing_bytes, attempt: 0 }
    }

    /// Start an attempt; returns the `Range` header value asking for the
    /// bytes from `have_bytes` on.
    pub fn begin_attempt(&mut self) -> (range: String)
        requires
            old(self).wf(),
        ensures
            final(self).attempt == old(self).attempt + 1,
            final(self).have_bytes == old(self).have_bytes,
            range@ == "bytes="@ + decimal(old(self).have_bytes as nat) + "-"@,
    {
        self.attempt = self.attempt + 1;
        let mut v: Vec<char> = Vec::new();
        push_str(&mut v, "bytes=");
        push_decimal(&mut v, self.have_bytes);
        push_str(&mut v, "-");
        string_of(&v)
    }

    /// Decide on a response's HTTP status. A full (200) response to a
    /// resumed request restarts from zero.
    pub fn on_response(&mut self, status: u16) -> (a: ResponseAction)
        ensures
            final(self).attempt == old(self).attempt,
            a == if status == 401 || status == 403 {
                ResponseAction::Gated
            } else if status == 200 && old(self).have_bytes > 0 {
                ResponseAction::Write { append: false, discard_partial: true }
            } else if status < 200 || status > 299 {
                ResponseAction::Failed
            } else {
                ResponseAction::Write { append: status == 206, discard_partial: false }
            },
            final(self).have_bytes == if status == 200 && old(self).have_bytes > 0 {
                0
            } else {
                old(self).have_bytes
            },
    {
        if status == 401 || status == 403 {
            ResponseAction::Gated
        } else if status == 200 && self.have_bytes > 0 {
            self.have_bytes = 0;
            ResponseAction::Write { append: false, discard_partial: true }
        } else if status < 200 || status > 299 {
            ResponseAction::Failed
        } else {
            ResponseAction::Write { append: status == 206, discard_partial: false }
        }
    }

    /// Decide once a body is written: `final_len` bytes are on disk, the
    /// response announced `total` bytes, counted from `have_bytes` when
    /// `resumed`.
    pub fn on_body(&mut self, resumed: bool, total: Option<u64>, final_len: u64) -> (a: BodyAction)
        requires
            1 <= old(self).attempt <= MAX_DOWNLOAD_ATTEMPTS,
            resumed ==> (total matches Some(t) ==> old(self).have_bytes + t <= u64::MAX),
        ensures
            final(self).attempt == old(self).attempt,
            match total {
                None => a == BodyAction::Complete && final(self).have_bytes == old(self).have_bytes,
                Some(t) => {
                    let expected = if resumed { (old(self).have_bytes + t) as u64 } else { t };
                    if final_len >= expected {
                        a == BodyAction::Complete && final(self).have_bytes == old(self).have_bytes
                    } else if old(self).attempt >= MAX_DOWNLOAD_ATTEMPTS {
                        a == (BodyAction::Stalled { have: final_len, expected_total: expected, attempts: old(self).attempt })
                            && final(self).have_bytes == final_len
                    } else {
                        a == BodyAction::Resume && final(self).have_bytes == final_len && final(self).wf()
                    }
                },
            },
    {
        match total {
            None => BodyAction::Complete,
            Some(t) => {
                let expected = if resumed { self.have_bytes + t } else { t };
                if final_len >= expected {
                    BodyAction::Complete
                } else {
                    self.have_bytes = final_len;
                    if self.attempt >= MAX_DOWNLOAD_ATTEMPTS {
                        BodyAction::Stalled { have: final_len, expected_total: expected, attempts: self.attempt }
                    } else {
                        BodyAction::Resume
                    }
                }
            },
        }
    }
}

/// The message of a stalled download.
pub fn stalled_message(have: u64, expected_total: u64, attempts: u32) -> (m: String)
    ensures
        m@ == "download stalled at "@ + decimal(have as nat) + "/"@ + decimal(expected_total as nat)
            + " bytes after "@ + decimal(attempts as nat) + " attempts"@,
{
    let mut v: Vec<char> = Vec::new();
    push_str(&mut v, "download stalled at ");
    push_decimal(&mut v, have);
    push_str(&mut v, "/");
    push_decimal(&mut v, expected_total);
    push_str(&mut v, " bytes after ");
    push_decimal(&mut v, attempts as u64);
    push_str(&mut v, " attempts");
    string_of(&v)
}

/// The server URL used when neither a flag nor a config gives one.
pub const FALLBACK_SERVER_URL: &'static str = "http://localhost:8000";

/// The model used when neither a flag nor a config gives one.
pub const FALLBACK_MODEL: &'static str = "solidrust/Gemma-4-2B-Multimodal-Q4_K_M";

/// The server URL and model a mesh run talks to, by priority: the flag (or
/// its environment variable), else the config written by setup, else the
/// bundled fallback.
pub fn resolve_endpoint(url: Option<String>, model: Option<String>, cfg: &Option<PtgConfig>) -> (r: (String, String))
    ensures
        r.0@ == match url {
            Some(u) => u@,
            None => match cfg {
                Some(c) => url_of(c.host@, c.port),
                None => FALLBACK_SERVER_URL@,
            },
        },
        r.1@ == match model {
            Some(m) => m@,
            None => match cfg {
                Some(c) => c.model_alias@,
                None => FALLBACK_MODEL@,
            },
        },
{
    let u = match url {
        Some(u) => u,
        None => match cfg {
            Some(c) => c.server_url(),
            None => own_str(FALLBACK_SERVER_URL),
        },
    };
    let m = match model {
        Some(m) => m,
        None => match cfg {
            Some(c) => copy_string(&c.model_alias),
            None => own_str(FALLBACK_MODEL),
        },
    };
    (u, m)
}

// ---------------------------------------------------------------------------
// Where things live
// ---------------------------------------------------------------------------

/// An environment value that is set and non-empty.
pub open spec fn given(o: Option<String>) -> Option<Seq<char>> {
    match o {
        Some(s) => if s@.len() > 0 { Some(s@) } else { None },
        None => None,
    }
}

fn given_string(o: Option<String>) -> (r: Option<String>)
    ensures
        match r {
            Some(s) => given(o) == Some(s@),
            None => given(o) is None,
        },
{
    match o {
        Some(s) => if s.as_str().is_empty() { None } else { Some(s) },
        None => None,
    }
}

/// The home directory: `HOME`, else (on Windows) `USERPROFILE`, else empty.
pub open spec fn home_path(home: Option<String>, userprofile: Option<String>, windows: bool) -> Seq<char> {
    match given(home) {
        Some(h) => h,
        None => if windows {
            match given(userprofile) {
                Some(u) => u,
                None => Seq::empty(),
            }
        } else {
            Seq::empty()
        },
    }
}

/// Pick the home directory from the `HOME` and `USERPROFILE` values.
pub fn home_base(home: Option<String>, userprofile: Option<String>, windows: bool) -> (r: String)
    ensures
        r@ == home_path(home, userprofile, windows),
{
    match given_string(home) {
        Some(h) => h,
        None => if windows {
            match given_string(userprofile) {
                Some(u) => u,
                None => String::new(),
            }
        } else {
            String::new()
        },
    }
}

/// The config file's path components: `PTG_CONFIG`, else (on Windows)
/// `APPDATA/ptg/config.toml`, else `XDG_CONFIG_HOME/ptg/config.toml`, else
/// `<home>/.config/ptg/config.toml`.
pub open spec fn config_parts(
    ptg_config: Option<String>,
    appdata: Option<String>,
    xdg_config: Option<String>,
    home: Seq<char>,
    windows: bool,
) -> Seq<Seq<char>> {
    match given(ptg_config) {
        Some(p) => seq![p],
        None => match (if windows { given(appdata) } else { None }) {
            Some(a) => seq![a, "ptg"@, "config.toml"@],
            None => match given(xdg_config) {
                Some(x) => seq![x, "ptg"@, "config.toml"@],
                None => seq![home, ".config"@, "ptg"@, "config.toml"@],
            },
        },
    }
}

fn parts3(a: String, b: &str, c: &str) -> (v: Vec<String>)
    ensures
        v@.map_values(|s: String| s@) == seq![a@, b@, c@],
{
    let mut v: Vec<String> = Vec::new();
    v.push(a);
    v.push(own_str(b));
    v.push(own_str(c));
    assert(v@.map_values(|s: String| s@) =~= seq![a@, b@, c@]);
    v
}

fn parts4(a: String, b: &str, c: &str, d: &str) -> (v: Vec<String>)
    ensures
        v@.map_values(|s: String| s@) == seq![a@, b@, c@, d@],
{
    let mut v: Vec<String> = Vec::new();
    v.push(a);
    v.push(own_str(b));
    v.push(own_str(c));
    v.push(own_str(d));
    assert(v@.map_values(|s: String| s@) =~= seq![a@, b@, c@, d@]);
    v
}

/// The config file's path, as components to join, from the environment
/// values and the home directory.
pub fn config_path_parts(
    ptg_config: Option<String>,
    appdata: Option<String>,
    xdg_config: Option<String>,
    home: String,
    windows: bool,
) -> (v: Vec<String>)
    ensures
        v@.map_values(|s: String| s@) == config_parts(ptg_config, appdata, xdg_config, home@, windows),
{
    if let Some(p) = given_string(ptg_config) {
        let mut v: Vec<String> = Vec::new();
        v.push(p);
        assert(v@.map_values(|s: String| s@) =~= seq![v@[0]@]);
        return v;
    }
    if windows {
        if let Some(a) = given_string(appdata) {
            return parts3(a, "ptg", "config.toml");
        }
    }
    match given_string(xdg_config) {
        Some(x) => parts3(x, "ptg", "config.toml"),
        None => parts4(home, ".config", "ptg", "config.toml"),
    }
}

/// The model cache directory's components: (on Windows)
/// `LOCALAPPDATA/ptg/gguf`, else `XDG_CACHE_HOME/ptg/gguf`, else
/// `<home>/.cache/ptg/gguf`.
pub open spec fn gguf_dir_parts_of(
    local_appdata: Option<String>,
    xdg_cache: Option<String>,
    home: Seq<char>,
    windows: bool,
) -> Seq<Seq<char>> {
    match (if windows { given(local_appdata) } else { None }) {
        Some(l) => seq![l, "ptg"@, "gguf"@],
        None => match given(xdg_cache) {
            Some(x) => seq![x, "ptg"@, "gguf"@],
            None => seq![home, ".cache"@, "ptg"@, "gguf"@],
        },
    }
}

/// The model cache directory, as components to join.
pub fn gguf_dir_parts(local_appdata: Option<String>, xdg_cache: Option<String>, home: String, windows: bool) -> (v: Vec<
    String,
>)
    ensures
        v@.map_values(|s: String| s@) == gguf_dir_parts_of(local_appdata, xdg_cache, home@, windows),
{
    if windows {
        if let Some(l) = given_string(local_appdata) {
            return parts3(l, "ptg", "gguf");
        }
    }
    match given_string(xdg_cache) {
        Some(x) => parts3(x, "ptg", "gguf"),
        None => parts4(home, ".cache", "ptg", "gguf"),
    }
}

/// The server binary's file name.
pub open spec fn server_exe(windows: bool) -> Seq<char> {
    if windows { "llama-server.exe"@ } else { "llama-server"@ }
}

/// The server candidates in resolution order, each as path components: the
/// explicit path, `PTG_LLAMA_SERVER`, `LLAMA_SERVER` (each when given),
/// then `<home>/.cache/ptg/bin/<exe>` and
/// `<home>/llama-spike/llama.cpp/build/bin/<exe>`.
pub open spec fn candidate_parts(
    explicit: Option<String>,
    ptg_llama: Option<String>,
    llama: Option<String>,
    home: Seq<char>,
    windows: bool,
) -> Seq<Seq<Seq<char>>> {
    let first: Seq<Seq<Seq<char>>> = match explicit {
        Some(e) => seq![seq![e@]],
        None => Seq::empty(),
    };
    let second: Seq<Seq<Seq<char>>> = match given(ptg_llama) {
        Some(v) => seq![seq![v]],
        None => Seq::empty(),
    };
    let third: Seq<Seq<Seq<char>>> = match given(llama) {
        Some(v) => seq![seq![v]],
        None => Seq::empty(),
    };
    first + second + third + seq![
        seq![home, ".cache"@, "ptg"@, "bin"@, server_exe(windows)],
        seq![home, "llama-spike"@, "llama.cpp"@, "build"@, "bin"@, server_exe(windows)],
    ]
}

/// The views of a list of component lists.
pub open spec fn parts_view(v: Seq<Vec<String>>) -> Seq<Seq<Seq<char>>> {
    v.map_values(|p: Vec<String>| p@.map_values(|s: String| s@))
}

fn one_part(s: String) -> (v: Vec<String>)
    ensures
        v@.map_values(|x: String| x@) == seq![s@],
{
    let mut v: Vec<String> = Vec::new();
    v.push(s);
    assert(v@.map_values(|x: String| x@) =~= seq![s@]);
    v
}

fn exe_name(windows: bool) -> (s: &'static str)
    ensures
        s@ == server_exe(windows),
{
    if windows { "llama-server.exe" } else { "llama-server" }
}

/// The server candidates in resolution order, each as components to join.
pub fn server_candidate_parts(
    explicit: Option<String>,
    ptg_llama: Option<String>,
    llama: Option<String>,
    home: String,
    windows: bool,
) -> (v: Vec<Vec<String>>)
    ensures
        parts_view(v@) == candidate_parts(explicit, ptg_llama, llama, home@, windows),
{
    let ghost want = candidate_parts(explicit, ptg_llama, llama, home@, windows);
    let ghost e0 = explicit;
    let ghost p0 = ptg_llama;
    let ghost l0 = llama;
    let mut v: Vec<Vec<String>> = Vec::new();
    if let Some(e) = explicit {
        v.push(one_part(e));
    }
    assert(parts_view(v@) =~= match e0 {
        Some(e) => seq![seq![e@]],
        None => Seq::<Seq<Seq<char>>>::empty(),
    });
    let ghost after1 = parts_view(v@);
    if let Some(p) = given_string(ptg_llama) {
        v.push(one_part(p));
    }
    assert(parts_view(v@) =~= after1 + match given(p0) {
        Some(x) => seq![seq![x]],
        None => Seq::<Seq<Seq<char>>>::empty(),
    });
    let ghost after2 = parts_view(v@);
    if let Some(l) = given_string(llama) {
        v.push(one_part(l));
    }
    assert(parts_view(v@) =~= after2 + match given(l0) {
        Some(x) => seq![seq![x]],
        None => Seq::<Seq<Seq<char>>>::empty(),
    });
    let exe = exe_name(windows);
    let mut a: Vec<String> = Vec::new();
    a.push(copy_string(&home));
    a.push(own_str(".cache"));
    a.push(own_str("ptg"));
    a.push(own_str("bin"));
    a.push(own_str(exe));
    let mut b: Vec<String> = Vec::new();
    b.push(home);
    b.push(own_str("llama-spike"));
    b.push(own_str("llama.cpp"));
    b.push(own_str("build"));
    b.push(own_str("bin"));
    b.push(own_str(exe));
    let ghost hv = b@[0]@;
    assert(a@.map_values(|s: String| s@) =~= seq![hv, ".cache"@, "ptg"@, "bin"@, server_exe(windows)]);
    assert(b@.map_values(|s: String| s@) =~= seq![hv, "llama-spike"@, "llama.cpp"@, "build"@, "bin"@, server_exe(windows)]);
    let ghost after3 = parts_view(v@);
    v.push(a);
    v.push(b);
    assert(parts_view(v@) =~= after3 + seq![
        seq![hv, ".cache"@, "ptg"@, "bin"@, server_exe(windows)],
        seq![hv, "llama-spike"@, "llama.cpp"@, "build"@, "bin"@, server_exe(windows)],
    ]);
    v
}

} // verus!

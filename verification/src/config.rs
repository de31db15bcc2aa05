//! The user's configuration: where it lies, how its paths are resolved and what
//! makes it valid.
//!
//! Paths that are handed to the operating system are byte strings.

use vstd::prelude::*;
use crate::text;

verus! {

#[derive(Debug, Clone)]
pub struct Config {
    pub model: ModelConfig,
    pub audio: AudioConfig,
    pub inference: InferenceConfig,
    pub output: OutputConfig,
    pub notification: NotificationConfig,
    pub ipc: IpcConfig,
}

#[derive(Debug, Clone)]
pub struct ModelConfig {
    pub path: String,
    pub language: String,
    pub use_gpu: bool,
    pub gpu_device: i32,
    pub n_threads: i32,
}

#[derive(Debug, Clone)]
pub struct AudioConfig {
    pub device: String,
    pub sample_rate: u32,
    pub max_recording_secs: u64,
}

#[derive(Debug, Clone)]
pub struct InferenceConfig {
    pub stream_step_ms: u32,
    pub stream_window_secs: u32,
    pub initial_prompt: String,
    pub system_prompt: String,
}

#[derive(Debug, Clone)]
pub struct OutputConfig {
    pub primary_selection: bool,
    pub newline_on_finish: bool,
    pub typing_delay_ms: u32,
}

#[derive(Debug, Clone)]
pub struct NotificationConfig {
    pub notify_on_start: bool,
    pub start_message: String,
    pub notify_on_finish: bool,
    pub finish_message: String,
    pub start_timeout_ms: u32,
    pub finish_timeout_ms: u32,
}

#[derive(Debug, Clone)]
pub struct IpcConfig {
    pub socket_path: String,
}

/// Why a configuration cannot be used.
#[derive(Debug, Clone, Copy, PartialEq, Eq, Structural)]
pub enum ConfigError {
    /// No directory for configuration files is known.
    NoConfigDir,
    /// No directory for sockets is known, and none is configured.
    NoRuntimeDir,
    /// The transcription window, in seconds, is longer than the model takes.
    WindowTooLong(u32),
}

/// What a valid configuration gives reason to mention.
#[derive(Debug, Clone, Copy, PartialEq, Eq, Structural)]
pub enum ConfigNotice {
    /// The step between two hypotheses, in milliseconds, is very short.
    ShortStep(u32),
    /// The model runs without a GPU.
    CpuInference,
    /// The language is Portuguese.
    Portuguese,
    /// The language is detected for every hypothesis.
    AutoLanguage,
}

impl ConfigError {
    /// The message for the user.
    pub open spec fn message_of(self) -> Seq<char> {
        match self {
            ConfigError::NoConfigDir =>
                "Não foi possível determinar $XDG_CONFIG_HOME / ~/.config"@,
            ConfigError::NoRuntimeDir =>
                "Não foi possível determinar $XDG_RUNTIME_DIR. Defina [ipc] socket_path no config.toml."@,
            ConfigError::WindowTooLong(secs) => "[inference] stream_window_secs = "@
                + text::numeral(secs as nat, 10)
                + " é maior que 30s (limite arquitetural do Whisper)."@,
        }
    }

    /// The message for the user.
    pub fn message(&self) -> (s: String)
        ensures
            s@ == self.message_of(),
    {
        match self {
            ConfigError::NoConfigDir =>
                "Não foi possível determinar $XDG_CONFIG_HOME / ~/.config".to_owned(),
            ConfigError::NoRuntimeDir =>
                "Não foi possível determinar $XDG_RUNTIME_DIR. Defina [ipc] socket_path no config.toml.".to_owned(),
            ConfigError::WindowTooLong(secs) => {
                let mut s: String = "[inference] stream_window_secs = ".to_owned();
                s.append(text::to_numeral(*secs as u64, 10).as_str());
                s.append(" é maior que 30s (limite arquitetural do Whisper).");
                s
            },
        }
    }
}

impl ConfigNotice {
    /// Whether the notice warns of something, or only tells it.
    pub fn is_warning(&self) -> (b: bool)
        ensures
            b == (*self !is Portuguese),
    {
        match self {
            ConfigNotice::Portuguese => false,
            _ => true,
        }
    }

    /// The text of the notice.
    pub open spec fn message_of(self) -> Seq<char> {
        match self {
            ConfigNotice::ShortStep(ms) => "[inference] stream_step_ms = "@ + text::numeral(
                ms as nat,
                10,
            ) + "ms é muito baixo e pode causar engasgos na GPU."@,
            ConfigNotice::CpuInference =>
                "[model] use_gpu = false — inferência em CPU causará extrema latência no streaming."@,
            ConfigNotice::Portuguese =>
                "[model] language = \"pt\" — idioma Português do Brasil ativado."@,
            ConfigNotice::AutoLanguage =>
                "[model] language = \"auto\" — detecção automática adiciona latência ao streaming. Considere fixar."@,
        }
    }

    /// The text of the notice.
    pub fn message(&self) -> (s: String)
        ensures
            s@ == self.message_of(),
    {
        match self {
            ConfigNotice::ShortStep(ms) => {
                let mut s: String = "[inference] stream_step_ms = ".to_owned();
                s.append(text::to_numeral(*ms as u64, 10).as_str());
                s.append("ms é muito baixo e pode causar engasgos na GPU.");
                s
            },
            ConfigNotice::CpuInference =>
                "[model] use_gpu = false — inferência em CPU causará extrema latência no streaming.".to_owned(),
            ConfigNotice::Portuguese =>
                "[model] language = \"pt\" — idioma Português do Brasil ativado.".to_owned(),
            ConfigNotice::AutoLanguage =>
                "[model] language = \"auto\" — detecção automática adiciona latência ao streaming. Considere fixar.".to_owned(),
        }
    }
}

// ---------------------------------------------------------------------------
// Directories
// ---------------------------------------------------------------------------

/// `dirs::home_dir` gives the user's home directory, as the environment and the
/// user database have it. The result is its path as text; nothing is claimed of
/// it, since it is the machine's to decide.
#[verifier::external_body]
fn home_dir() -> (dir: Option<String>) {
    match dirs::home_dir() {
        Some(path) => Some(path.to_string_lossy().into_owned()),
        None => None,
    }
}

/// `dirs::config_dir` gives the directory for configuration files, as the
/// environment has it. The result is the bytes of its path; nothing is claimed
/// of it, since it is the machine's to decide.
#[verifier::external_body]
fn config_dir() -> (dir: Option<Vec<u8>>) {
    match dirs::config_dir() {
        Some(path) => Some(path.as_os_str().as_encoded_bytes().to_vec()),
        None => None,
    }
}

/// `dirs::runtime_dir` gives the directory for sockets, as the environment has
/// it. The result is the bytes of its path. A directory that the environment
/// does not name by an absolute path is not given; nothing more is claimed of
/// it, since it is the machine's to decide.
#[verifier::external_body]
fn runtime_dir() -> (dir: Option<Vec<u8>>)
    ensures
        dir matches Some(d) ==> is_absolute(d@),
{
    match dirs::runtime_dir() {
        Some(path) => Some(path.as_os_str().as_encoded_bytes().to_vec()),
        None => None,
    }
}

/// Whether a path begins at the root.
pub open spec fn is_absolute(path: Seq<u8>) -> bool {
    path.len() > 0 && path[0] == 0x2f
}

/// The path of `name` in the directory `dir`: an absolute `name` stands for
/// itself, and a separator is added where `dir` does not end in one.
pub open spec fn path_join(dir: Seq<u8>, name: Seq<u8>) -> Seq<u8> {
    if is_absolute(name) {
        name
    } else if dir.len() == 0 || dir.last() == 0x2f {
        dir + name
    } else {
        dir.push(0x2f) + name
    }
}

/// The path of `name` in the directory `dir`.
pub fn join_path(dir: &Vec<u8>, name: &str) -> (path: Vec<u8>)
    ensures
        path@ == path_join(dir@, vstd::utf8::encode_utf8(name@)),
{
    let tail: &[u8] = name.as_bytes();
    let mut path: Vec<u8> = Vec::new();
    if tail.len() == 0 || tail[0] != 0x2f {
        let mut i: usize = 0;
        while i < dir.len()
            invariant
                i <= dir@.len(),
                path@ == dir@.take(i as int),
            decreases dir@.len() - i,
        {
            path.push(dir[i]);
            i += 1;
        }
        proof {
            assert(path@ =~= dir@);
        }
        if dir.len() > 0 && dir[dir.len() - 1] != 0x2f {
            path.push(0x2f);
        }
    }
    let ghost start = path@;
    let mut i: usize = 0;
    while i < tail.len()
        invariant
            i <= tail@.len(),
            path@ == start + tail@.take(i as int),
        decreases tail@.len() - i,
    {
        path.push(tail[i]);
        i += 1;
        proof {
            assert(path@ =~= start + tail@.take(i as int));
        }
    }
    proof {
        assert(tail@.take(tail@.len() as int) =~= tail@);
        assert(Seq::<u8>::empty() + tail@ =~= tail@);
    }
    path
}

/// The text path of `name` below the directory `dir`: a separator is added where
/// `dir` does not end in one. What `name` begins with does not matter.
pub open spec fn path_below(dir: Seq<char>, name: Seq<char>) -> Seq<char> {
    if dir.len() == 0 || dir.last() == '/' {
        dir + name
    } else {
        dir.push('/') + name
    }
}

/// Whether a path is given from the home directory on: `~`, or one that begins
/// with `~/`. Before anything else a `~` is kept: `~name` stands for the home
/// directory of another user, which is not known here.
pub open spec fn from_home(path: Seq<char>) -> bool {
    path == "~"@ || text::begins_with(path, "~/"@)
}

/// A path that begins with `~/` lies in the home directory, and `~` is the home
/// directory, where one is known.
pub open spec fn resolved_path(path: Seq<char>, home: Option<Seq<char>>) -> Seq<char> {
    match home {
        Some(dir) if path == "~"@ => dir,
        Some(dir) if text::begins_with(path, "~/"@) => path_below(dir, path.skip(2)),
        _ => path,
    }
}

/// The path with a leading `~` replaced by the home directory.
pub fn resolve_path(path: &str, home: &Option<String>) -> (r: String)
    ensures
        r@ == resolved_path(
            path@,
            match home {
                Some(dir) => Some(dir@),
                None => None,
            },
        ),
{
    if text::same_text(path, "~") {
        return match home {
            Some(dir) => dir.clone(),
            None => path.to_owned(),
        };
    }
    if !text::starts_with(path, "~/") {
        return path.to_owned();
    }
    match home {
        None => path.to_owned(),
        Some(dir) => {
            proof {
                reveal_strlit("~/");
            }
            let v: Vec<char> = text::to_chars(path);
            let rest: String = text::from_chars(&v, 2, v.len());
            proof {
                assert(rest@ =~= path@.skip(2));
            }
            let d: Vec<char> = text::to_chars(dir.as_str());
            let mut r: String = dir.clone();
            if d.len() > 0 && d[d.len() - 1] != '/' {
                r.push('/');
            }
            r.append(rest.as_str());
            r
        },
    }
}

// ---------------------------------------------------------------------------
// Config
// ---------------------------------------------------------------------------

/// The longest window, in seconds, that the model takes.
pub const MAX_WINDOW_SECS: u32 = 30;

/// The step, in milliseconds, below which the GPU may choke.
pub const MIN_STEP_MS: u32 = 100;

/// The configuration with another path to the model.
pub open spec fn with_model_path(c: Config, path: String) -> Config {
    Config { model: ModelConfig { path, ..c.model }, ..c }
}

/// What a configuration gives reason to mention, in order.
pub open spec fn notices(c: Config) -> Seq<ConfigNotice> {
    let step = if c.inference.stream_step_ms < MIN_STEP_MS {
        seq![ConfigNotice::ShortStep(c.inference.stream_step_ms)]
    } else {
        Seq::empty()
    };
    let gpu = if !c.model.use_gpu {
        seq![ConfigNotice::CpuInference]
    } else {
        Seq::empty()
    };
    let language = if c.model.language@ == "pt"@ {
        seq![ConfigNotice::Portuguese]
    } else if c.model.language@ == "auto"@ {
        seq![ConfigNotice::AutoLanguage]
    } else {
        Seq::empty()
    };
    step + gpu + language
}

/// The path of the configuration file in the directory `dir`.
pub open spec fn config_file_in(dir: Seq<u8>) -> Seq<u8> {
    path_join(
        path_join(dir, vstd::utf8::encode_utf8("amanuense"@)),
        vstd::utf8::encode_utf8("config.toml"@),
    )
}

/// The path of the socket in the directory `dir`.
pub open spec fn socket_file_in(dir: Seq<u8>) -> Seq<u8> {
    path_join(dir, vstd::utf8::encode_utf8("amanuense.sock"@))
}

impl Config {
    /// Makes a parsed configuration ready for use: its paths are resolved first,
    /// then it is checked.
    pub fn load(parsed: Config) -> (r: Result<(Config, Vec<ConfigNotice>), ConfigError>)
        ensures
            match r {
                Ok((c, v)) => {
                    &&& parsed.inference.stream_window_secs <= MAX_WINDOW_SECS
                    &&& c == with_model_path(parsed, c.model.path)
                    &&& exists|home: Option<Seq<char>>|
                        c.model.path@ == #[trigger] resolved_path(parsed.model.path@, home)
                    &&& v@ == notices(parsed)
                },
                Err(e) => {
                    &&& parsed.inference.stream_window_secs > MAX_WINDOW_SECS
                    &&& e == ConfigError::WindowTooLong(parsed.inference.stream_window_secs)
                },
            },
    {
        let mut config: Config = parsed;
        config.resolve_paths();
        match config.validate() {
            Ok(v) => Ok((config, v)),
            Err(e) => Err(e),
        }
    }

    /// The path of the configuration file: the given one, or the default.
    pub fn path_or_default(given: Option<Vec<u8>>) -> (r: Result<Vec<u8>, ConfigError>)
        ensures
            match given {
                Some(path) => r == Ok::<Vec<u8>, ConfigError>(path),
                None => match r {
                    Ok(path) => exists|dir: Seq<u8>| path@ == #[trigger] config_file_in(dir),
                    Err(e) => e == ConfigError::NoConfigDir,
                },
            },
    {
        match given {
            Some(path) => Ok(path),
            None => Config::default_path(),
        }
    }

    /// The path of the configuration file, where none is given.
    pub fn default_path() -> (r: Result<Vec<u8>, ConfigError>)
        ensures
            match r {
                Ok(path) => exists|dir: Seq<u8>| path@ == #[trigger] config_file_in(dir),
                Err(e) => e == ConfigError::NoConfigDir,
            },
    {
        let dir: Option<Vec<u8>> = config_dir();
        Config::path_in(&dir)
    }

    /// The path of the configuration file, from the directory for such files.
    pub fn path_in(dir: &Option<Vec<u8>>) -> (r: Result<Vec<u8>, ConfigError>)
        ensures
            match (dir, r) {
                (Some(d), Ok(path)) => path@ == config_file_in(d@),
                (None, Err(e)) => e == ConfigError::NoConfigDir,
                _ => false,
            },
    {
        match dir {
            Some(d) => {
                let sub: Vec<u8> = join_path(d, "amanuense");
                Ok(join_path(&sub, "config.toml"))
            },
            None => Err(ConfigError::NoConfigDir),
        }
    }

    /// Replaces a leading `~` in the path to the model by the home directory.
    pub fn resolve_paths(&mut self)
        ensures
            *final(self) == with_model_path(*old(self), final(self).model.path),
            exists|home: Option<Seq<char>>|
                final(self).model.path@ == #[trigger] resolved_path(old(self).model.path@, home),
    {
        let path: &str = self.model.path.as_str();
        let home: Option<String> = if text::same_text(path, "~") || text::starts_with(path, "~/") {
            home_dir()
        } else {
            None
        };
        self.resolve_paths_in(&home);
    }

    /// Replaces a leading `~` in the path to the model by the directory `home`.
    pub fn resolve_paths_in(&mut self, home: &Option<String>)
        ensures
            *final(self) == with_model_path(*old(self), final(self).model.path),
            final(self).model.path@ == resolved_path(
                old(self).model.path@,
                match home {
                    Some(dir) => Some(dir@),
                    None => None,
                },
            ),
    {
        let path: String = resolve_path(self.model.path.as_str(), home);
        self.model.path = path;
    }

    /// Checks the configuration: the window must not be longer than the model
    /// takes. The notices say what else is worth mentioning.
    pub fn validate(&self) -> (r: Result<Vec<ConfigNotice>, ConfigError>)
        ensures
            match r {
                Ok(v) => self.inference.stream_window_secs <= MAX_WINDOW_SECS && v@ == notices(
                    *self,
                ),
                Err(e) => self.inference.stream_window_secs > MAX_WINDOW_SECS && e
                    == ConfigError::WindowTooLong(self.inference.stream_window_secs),
            },
    {
        if self.inference.stream_window_secs > MAX_WINDOW_SECS {
            return Err(ConfigError::WindowTooLong(self.inference.stream_window_secs));
        }
        let mut v: Vec<ConfigNotice> = Vec::new();
        if self.inference.stream_step_ms < MIN_STEP_MS {
            v.push(ConfigNotice::ShortStep(self.inference.stream_step_ms));
        }
        if !self.model.use_gpu {
            v.push(ConfigNotice::CpuInference);
        }
        if text::same_text(self.model.language.as_str(), "pt") {
            v.push(ConfigNotice::Portuguese);
        } else if text::same_text(self.model.language.as_str(), "auto") {
            v.push(ConfigNotice::AutoLanguage);
        }
        proof {
            assert(v@ =~= notices(*self));
        }
        Ok(v)
    }
}

impl IpcConfig {
    /// The path of the socket: the configured one, or one in the directory for
    /// sockets.
    pub fn resolved_socket_path(&self) -> (r: Result<Vec<u8>, ConfigError>)
        ensures
            self.socket_path@.len() > 0 ==> (r matches Ok(path) && path@
                == vstd::utf8::encode_utf8(self.socket_path@)),
            self.socket_path@.len() == 0 ==> match r {
                Ok(path) => exists|dir: Seq<u8>|
                    is_absolute(dir) && path@ == #[trigger] socket_file_in(dir),
                Err(e) => e == ConfigError::NoRuntimeDir,
            },
    {
        let dir: Option<Vec<u8>> = if self.socket_path.as_str().is_empty() {
            runtime_dir()
        } else {
            None
        };
        self.socket_path_in(&dir)
    }

    /// The path of the socket, from the directory for sockets.
    pub fn socket_path_in(&self, dir: &Option<Vec<u8>>) -> (r: Result<Vec<u8>, ConfigError>)
        ensures
            self.socket_path@.len() > 0 ==> (r matches Ok(path) && path@
                == vstd::utf8::encode_utf8(self.socket_path@)),
            self.socket_path@.len() == 0 ==> match (dir, r) {
                (Some(d), Ok(path)) => path@ == socket_file_in(d@),
                (None, Err(e)) => e == ConfigError::NoRuntimeDir,
                _ => false,
            },
    {
        if !self.socket_path.as_str().is_empty() {
            return Ok(self.socket_path.as_str().as_bytes_vec());
        }
        match dir {
            Some(d) => Ok(join_path(d, "amanuense.sock")),
            None => Err(ConfigError::NoRuntimeDir),
        }
    }
}

/// The prompt that two configured prompts make together: each is trimmed, a
/// blank one is left out, and a blank line stands between two.
pub open spec fn prompt_of(system: Seq<char>, initial: Seq<char>) -> Option<Seq<char>> {
    let sys = text::trimmed(system);
    let init = text::trimmed(initial);
    if sys.len() > 0 && init.len() > 0 {
        Some(sys + "\n\n"@ + init)
    } else if sys.len() > 0 {
        Some(sys)
    } else if init.len() > 0 {
        Some(init)
    } else {
        None
    }
}

impl InferenceConfig {
    /// The configured prompts as one, or nothing where both are blank.
    pub fn effective_prompt(&self) -> (r: Option<String>)
        ensures
            match r {
                Some(p) => prompt_of(self.system_prompt@, self.initial_prompt@) == Some(p@),
                None => prompt_of(self.system_prompt@, self.initial_prompt@) is None,
            },
    {
        let sys: String = text::trim(self.system_prompt.as_str());
        let init: String = text::trim(self.initial_prompt.as_str());
        let has_sys: bool = !sys.as_str().is_empty();
        let has_init: bool = !init.as_str().is_empty();
        if has_sys && has_init {
            let mut p: String = sys;
            p.append("\n\n");
            p.append(init.as_str());
            Some(p)
        } else if has_sys {
            Some(sys)
        } else if has_init {
            Some(init)
        } else {
            None
        }
    }
}

// ---------------------------------------------------------------------------
// Laws
// ---------------------------------------------------------------------------

/// A path that is not given from the home directory on is left as it is.
pub proof fn law_other_paths_stay(path: Seq<char>, home: Option<Seq<char>>)
    requires
        !from_home(path),
    ensures
        resolved_path(path, home) == path,
{
}

/// Resolving a path twice is resolving it once, the home directory being given
/// by an absolute path.
pub proof fn law_resolving_is_idempotent(path: Seq<char>, home: Option<Seq<char>>)
    requires
        home matches Some(dir) ==> dir.len() > 0 && dir[0] == '/',
    ensures
        resolved_path(resolved_path(path, home), home) == resolved_path(path, home),
{
    reveal_strlit("~");
    reveal_strlit("~/");
    let r = resolved_path(path, home);
    if home is Some && from_home(path) {
        assert(r[0] == '/');
        if text::begins_with(r, "~/"@) {
            assert(r.take(2)[0] == r[0]);
        }
    }
}

/// A path that is given from the home directory on lies below it: the home
/// directory stands in front.
pub proof fn law_home_stands_in_front(path: Seq<char>, home: Seq<char>)
    requires
        from_home(path),
    ensures
        home.is_prefix_of(resolved_path(path, Some(home))),
{
    reveal_strlit("~");
    reveal_strlit("~/");
    assert(home.is_prefix_of(home + path.skip(2)));
    assert(home.is_prefix_of(home.push('/') + path.skip(2)));
    assert(home.is_prefix_of(home));
}

/// In a directory that is given by an absolute path, the socket lies at an
/// absolute path below it.
pub proof fn law_default_socket_lies_in_directory(dir: Seq<u8>)
    requires
        is_absolute(dir),
    ensures
        is_absolute(socket_file_in(dir)),
        dir.is_prefix_of(socket_file_in(dir)),
        socket_file_in(dir).len() > dir.len(),
{
    reveal_strlit("amanuense.sock");
    let name = vstd::utf8::encode_utf8("amanuense.sock"@);
    vstd::utf8::is_ascii_chars_encode_utf8("amanuense.sock"@);
    assert(dir.is_prefix_of(dir + name));
    assert(dir.is_prefix_of(dir.push(0x2f) + name));
}

/// There is no prompt exactly where both configured prompts are blank.
pub proof fn law_no_prompt_means_blank(system: Seq<char>, initial: Seq<char>)
    ensures
        (prompt_of(system, initial) is None) == (text::trimmed(system).len() == 0
            && text::trimmed(initial).len() == 0),
        prompt_of(system, initial) matches Some(p) ==> p.len() > 0,
{
}

/// A path below the home directory is the home directory, one separator between,
/// and what stands behind `~/`; `~` alone is the home directory.
pub proof fn law_path_lies_below_home(rest: Seq<char>, home: Seq<char>)
    requires
        home.len() > 0,
    ensures
        resolved_path(seq!['~', '/'] + rest, Some(home)) == (if home.last() == '/' {
            home + rest
        } else {
            home + seq!['/'] + rest
        }),
        resolved_path(seq!['~'], Some(home)) == home,
        resolved_path(seq!['~', '/'] + rest, None) == seq!['~', '/'] + rest,
        resolved_path(seq!['~'], None) == seq!['~'],
{
    reveal_strlit("~");
    reveal_strlit("~/");
    let path = seq!['~', '/'] + rest;
    assert("~"@ =~= seq!['~']);
    assert("~/"@ =~= seq!['~', '/']);
    assert(path.take(2) =~= "~/"@);
    assert(path.skip(2) =~= rest);
    assert(path.len() >= 2);
    assert(home.push('/') + rest =~= home + seq!['/'] + rest);
}

/// In a directory, a name that does not begin at the root stands behind one
/// separator; one that does stands for itself.
pub proof fn law_names_stand_in_their_directory(dir: Seq<u8>, name: Seq<u8>)
    requires
        dir.len() > 0,
    ensures
        name.len() > 0 && name[0] == 0x2f ==> path_join(dir, name) == name,
        (name.len() == 0 || name[0] != 0x2f) && dir.last() == 0x2f ==> path_join(dir, name) == dir
            + name,
        (name.len() == 0 || name[0] != 0x2f) && dir.last() != 0x2f ==> path_join(dir, name) == dir
            + seq![0x2fu8] + name,
{
    assert(dir.push(0x2f) + name =~= dir + seq![0x2fu8] + name);
}

/// The configuration file and the socket lie in their directories under their
/// names.
pub proof fn law_files_have_their_places(dir: Seq<u8>)
    requires
        dir.len() > 0,
        dir.last() != 0x2f,
    ensures
        config_file_in(dir) == dir + vstd::utf8::encode_utf8("/amanuense/config.toml"@),
        socket_file_in(dir) == dir + vstd::utf8::encode_utf8("/amanuense.sock"@),
{
    reveal_strlit("amanuense");
    reveal_strlit("config.toml");
    reveal_strlit("amanuense.sock");
    reveal_strlit("/amanuense/config.toml");
    reveal_strlit("/amanuense.sock");
    vstd::utf8::is_ascii_chars_encode_utf8("amanuense"@);
    vstd::utf8::is_ascii_chars_encode_utf8("config.toml"@);
    vstd::utf8::is_ascii_chars_encode_utf8("amanuense.sock"@);
    vstd::utf8::is_ascii_chars_encode_utf8("/amanuense/config.toml"@);
    vstd::utf8::is_ascii_chars_encode_utf8("/amanuense.sock"@);
    assert(config_file_in(dir) =~= dir + vstd::utf8::encode_utf8("/amanuense/config.toml"@));
    assert(socket_file_in(dir) =~= dir + vstd::utf8::encode_utf8("/amanuense.sock"@));
}

/// Each reason to mention something is mentioned exactly where it holds, once.
pub proof fn law_notices_are_given_with_reason(c: Config)
    ensures
        notices(c).contains(ConfigNotice::ShortStep(c.inference.stream_step_ms)) == (
        c.inference.stream_step_ms < 100),
        notices(c).contains(ConfigNotice::CpuInference) == !c.model.use_gpu,
        notices(c).contains(ConfigNotice::Portuguese) == (c.model.language@ == "pt"@),
        notices(c).contains(ConfigNotice::AutoLanguage) == (c.model.language@ == "auto"@),
        notices(c).no_duplicates(),
        forall|i: int|
            0 <= i < notices(c).len() ==> ((#[trigger] notices(c)[i]) matches ConfigNotice::ShortStep(
                ms,
            ) ==> ms == c.inference.stream_step_ms),
{
    reveal_strlit("pt");
    reveal_strlit("auto");
    assert("pt"@.len() != "auto"@.len());
    let n = notices(c);
    let step = c.inference.stream_step_ms < 100;
    let cpu = !c.model.use_gpu;
    let s: int = if step { 1 } else { 0 };
    let g: int = if cpu { 1 } else { 0 };
    if step {
        assert(n[0] == ConfigNotice::ShortStep(c.inference.stream_step_ms));
    }
    if cpu {
        assert(n[s] == ConfigNotice::CpuInference);
    }
    if c.model.language@ == "pt"@ {
        assert(n[s + g] == ConfigNotice::Portuguese);
    }
    if c.model.language@ == "auto"@ {
        assert(n[s + g] == ConfigNotice::AutoLanguage);
    }
}

/// Of the configured prompts, the one that is not blank is the prompt; where both
/// are not, the system's stands first, and an empty line between them.
pub proof fn law_prompts_are_joined(system: Seq<char>, initial: Seq<char>)
    ensures
        ({
            let a = text::trimmed(system);
            let b = text::trimmed(initial);
            &&& a.len() > 0 && b.len() > 0 ==> prompt_of(system, initial) == Some(
                a + seq!['\n', '\n'] + b,
            )
            &&& a.len() > 0 && b.len() == 0 ==> prompt_of(system, initial) == Some(a)
            &&& a.len() == 0 && b.len() > 0 ==> prompt_of(system, initial) == Some(b)
            &&& a.len() == 0 && b.len() == 0 ==> prompt_of(system, initial) is None
        }),
{
    reveal_strlit("\n\n");
    assert("\n\n"@ =~= seq!['\n', '\n']);
}

/// The longest window is half a minute.
pub proof fn law_window_is_half_a_minute_at_most(
    c: Config,
    r: Result<Vec<ConfigNotice>, ConfigError>,
)
    requires
        call_ensures(Config::validate, (&c,), r),
    ensures
        (r is Ok) == (c.inference.stream_window_secs <= 30),
        r matches Err(e) ==> e == ConfigError::WindowTooLong(c.inference.stream_window_secs),
        r matches Ok(v) ==> v@ == notices(c),
{
}

/// Loading changes nothing of a configuration but the path to the model.
pub proof fn law_loading_keeps_settings(c: Config, path: String)
    ensures
        ({
            let r = with_model_path(c, path);
            &&& r.model.path == path
            &&& r.model.language == c.model.language
            &&& r.model.use_gpu == c.model.use_gpu
            &&& r.model.gpu_device == c.model.gpu_device
            &&& r.model.n_threads == c.model.n_threads
            &&& r.audio == c.audio
            &&& r.inference == c.inference
            &&& r.output == c.output
            &&& r.notification == c.notification
            &&& r.ipc == c.ipc
        }),
{
}

/// A message about a number tells the number.
pub proof fn law_messages_tell_numbers(n: u32) -> (r: (
    (Seq<char>, Seq<char>),
    (Seq<char>, Seq<char>),
))
    ensures
        ConfigError::WindowTooLong(n).message_of() == r.0.0 + text::numeral(n as nat, 10) + r.0.1,
        ConfigNotice::ShortStep(n).message_of() == r.1.0 + text::numeral(n as nat, 10) + r.1.1,
{
    (
        (
            "[inference] stream_window_secs = "@,
            " é maior que 30s (limite arquitetural do Whisper)."@,
        ),
        (
            "[inference] stream_step_ms = "@,
            "ms é muito baixo e pode causar engasgos na GPU."@,
        ),
    )
}

/// Only a `~` that stands alone or before a separator is replaced.
pub proof fn law_only_a_leading_tilde_is_replaced(path: Seq<char>, home: Option<Seq<char>>)
    requires
        path.len() == 0 || path[0] != '~' || (path.len() > 1 && path[1] != '/'),
    ensures
        resolved_path(path, home) == path,
{
    reveal_strlit("~");
    reveal_strlit("~/");
    if text::begins_with(path, "~/"@) {
        assert(path.take(2)[0] == path[0]);
        assert(path.take(2)[1] == path[1]);
    }
}

} // verus!

use amanuense::config::{
    join_path, resolve_path, AudioConfig, Config, ConfigError, ConfigNotice, InferenceConfig,
    IpcConfig, ModelConfig, NotificationConfig, OutputConfig,
};

fn sample_config() -> Config {
    Config {
        model: ModelConfig {
            path: "~/.local/share/whisper/model.bin".to_string(),
            language: "pt".to_string(),
            use_gpu: true,
            gpu_device: 0,
            n_threads: 4,
        },
        audio: AudioConfig {
            device: "default".to_string(),
            sample_rate: 16000,
            max_recording_secs: 300,
        },
        inference: InferenceConfig {
            stream_step_ms: 500,
            stream_window_secs: 15,
            initial_prompt: "".to_string(),
            system_prompt: "".to_string(),
        },
        output: OutputConfig {
            primary_selection: true,
            newline_on_finish: false,
            typing_delay_ms: 2,
        },
        notification: NotificationConfig {
            notify_on_start: true,
            start_message: "Gravando".to_string(),
            notify_on_finish: true,
            finish_message: "Pronto".to_string(),
            start_timeout_ms: 0,
            finish_timeout_ms: 3000,
        },
        ipc: IpcConfig { socket_path: "".to_string() },
    }
}

fn prompt_with(system: &str, initial: &str) -> Option<String> {
    let mut c = sample_config();
    c.inference.system_prompt = system.to_string();
    c.inference.initial_prompt = initial.to_string();
    c.inference.effective_prompt()
}

#[test]
fn prompts_are_trimmed_and_joined() {
    assert_eq!(prompt_with("", "  "), None);
    assert_eq!(prompt_with(" Estilo formal. ", ""), Some("Estilo formal.".to_string()));
    assert_eq!(prompt_with("\n", " Rust, cargo"), Some("Rust, cargo".to_string()));
    assert_eq!(prompt_with("a ", " b"), Some("a\n\nb".to_string()));
}

#[test]
fn home_replaces_the_tilde() {
    let home = Some("/home/ana".to_string());
    assert_eq!(resolve_path("~/m.bin", &home), "/home/ana/m.bin");
    assert_eq!(resolve_path("~/a/~/b", &home), "/home/ana/a/~/b");
    assert_eq!(resolve_path("~ana/m.bin", &home), "~ana/m.bin");
    assert_eq!(resolve_path("~", &home), "/home/ana");
    assert_eq!(resolve_path("~", &None), "~");
    assert_eq!(resolve_path("/abs/m.bin", &home), "/abs/m.bin");
    assert_eq!(resolve_path("~/m.bin", &None), "~/m.bin");
    assert_eq!(resolve_path("~/", &home), "/home/ana/");
    assert_eq!(resolve_path("~//x", &home), "/home/ana//x");
    assert_eq!(resolve_path("~/m.bin", &Some("/".to_string())), "/m.bin");
    let once = resolve_path("~/m.bin", &home);
    assert_eq!(resolve_path(&once, &home), once);
}

#[test]
fn home_is_that_of_the_user() {
    let mut c = sample_config();
    c.resolve_paths();
    let expected = match dirs::home_dir() {
        Some(home) => {
            home.join(".local/share/whisper/model.bin").to_string_lossy().to_string()
        }
        None => "~/.local/share/whisper/model.bin".to_string(),
    };
    assert_eq!(c.model.path, expected);
    c.model.path = "~".to_string();
    c.resolve_paths();
    let expected = match dirs::home_dir() {
        Some(home) => home.to_string_lossy().to_string(),
        None => "~".to_string(),
    };
    assert_eq!(c.model.path, expected);
}

#[test]
fn only_the_model_path_is_resolved() {
    let mut c = sample_config();
    c.ipc.socket_path = "~/s.sock".to_string();
    c.resolve_paths_in(&Some("/h".to_string()));
    assert_eq!(c.model.path, "/h/.local/share/whisper/model.bin");
    assert_eq!(c.ipc.socket_path, "~/s.sock");
}

#[test]
fn windows_up_to_thirty_seconds_are_valid() {
    let mut c = sample_config();
    c.inference.stream_window_secs = 30;
    assert_eq!(c.validate(), Ok(vec![ConfigNotice::Portuguese]));
    c.inference.stream_window_secs = 31;
    assert_eq!(c.validate(), Err(ConfigError::WindowTooLong(31)));
    assert_eq!(
        ConfigError::WindowTooLong(31).message(),
        "[inference] stream_window_secs = 31 é maior que 30s (limite arquitetural do Whisper)."
    );
    assert!(matches!(Config::load(c), Err(ConfigError::WindowTooLong(31))));
}

#[test]
fn notices_come_in_order() {
    let mut c = sample_config();
    c.inference.stream_step_ms = 99;
    c.model.use_gpu = false;
    c.model.language = "auto".to_string();
    let expected = vec![
        ConfigNotice::ShortStep(99),
        ConfigNotice::CpuInference,
        ConfigNotice::AutoLanguage,
    ];
    assert_eq!(c.validate(), Ok(expected));
    c.inference.stream_step_ms = 100;
    c.model.use_gpu = true;
    c.model.language = "en".to_string();
    assert_eq!(c.validate(), Ok(vec![]));
}

#[test]
fn notices_tell_what_they_are() {
    assert!(ConfigNotice::ShortStep(50).is_warning());
    assert!(ConfigNotice::CpuInference.is_warning());
    assert!(ConfigNotice::AutoLanguage.is_warning());
    assert!(!ConfigNotice::Portuguese.is_warning());
    assert_eq!(
        ConfigNotice::ShortStep(50).message(),
        "[inference] stream_step_ms = 50ms é muito baixo e pode causar engasgos na GPU."
    );
    assert_eq!(
        ConfigNotice::Portuguese.message(),
        "[model] language = \"pt\" — idioma Português do Brasil ativado."
    );
    assert!(ConfigNotice::CpuInference.message().starts_with("[model] use_gpu = false"));
    assert!(ConfigNotice::AutoLanguage.message().ends_with("Considere fixar."));
}

#[test]
fn loading_resolves_and_checks() {
    let mut c = sample_config();
    c.model.path = "/models/m.bin".to_string();
    let (loaded, notices) = Config::load(c).unwrap();
    assert_eq!(loaded.model.path, "/models/m.bin");
    assert_eq!(loaded.audio.sample_rate, 16000);
    assert_eq!(notices, vec![ConfigNotice::Portuguese]);
}

#[test]
fn the_configuration_file_has_its_place() {
    let dir = Some(b"/home/ana/.config".to_vec());
    assert_eq!(
        Config::path_in(&dir),
        Ok(b"/home/ana/.config/amanuense/config.toml".to_vec())
    );
    assert_eq!(Config::path_in(&None), Err(ConfigError::NoConfigDir));
    assert_eq!(
        ConfigError::NoConfigDir.message(),
        "Não foi possível determinar $XDG_CONFIG_HOME / ~/.config"
    );
    assert_eq!(Config::path_or_default(Some(b"x.toml".to_vec())), Ok(b"x.toml".to_vec()));
}

#[test]
fn the_default_place_is_that_of_the_user() {
    let expected = match dirs::config_dir() {
        Some(dir) => {
            Ok(dir.join("amanuense").join("config.toml").as_os_str().as_encoded_bytes().to_vec())
        }
        None => Err(ConfigError::NoConfigDir),
    };
    assert_eq!(Config::default_path(), expected);
    assert_eq!(Config::path_or_default(None), expected);
}

#[test]
fn the_socket_has_its_place() {
    let configured = IpcConfig { socket_path: "/tmp/ç.sock".to_string() };
    assert_eq!(configured.resolved_socket_path(), Ok("/tmp/ç.sock".as_bytes().to_vec()));
    assert_eq!(configured.socket_path_in(&None), Ok("/tmp/ç.sock".as_bytes().to_vec()));
    let default = IpcConfig { socket_path: "".to_string() };
    let dir = Some(b"/run/user/1000".to_vec());
    assert_eq!(default.socket_path_in(&dir), Ok(b"/run/user/1000/amanuense.sock".to_vec()));
    assert_eq!(default.socket_path_in(&None), Err(ConfigError::NoRuntimeDir));
    assert_eq!(
        ConfigError::NoRuntimeDir.message(),
        "Não foi possível determinar $XDG_RUNTIME_DIR. Defina [ipc] socket_path no config.toml."
    );
    let expected = match dirs::runtime_dir() {
        Some(dir) => Ok(dir.join("amanuense.sock").as_os_str().as_encoded_bytes().to_vec()),
        None => Err(ConfigError::NoRuntimeDir),
    };
    assert_eq!(default.resolved_socket_path(), expected);
}

#[test]
fn paths_are_joined_as_the_system_does() {
    for dir in ["/a", "/a/", "", "/", "a/b"] {
        for name in ["x", "x/y", "/abs", ""] {
            let expected = std::path::Path::new(dir).join(name);
            assert_eq!(
                join_path(&dir.as_bytes().to_vec(), name),
                expected.as_os_str().as_encoded_bytes().to_vec()
            );
        }
    }
}

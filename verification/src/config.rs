//! Application configuration.
//!
//! Configuration is layered: the defaults, then the config file, then the
//! environment. A setting comes from the last of them that has it.

use vstd::prelude::*;
use vstd::string::*;

verus! {

#[derive(Debug, Clone)]
pub struct Settings {
    pub models_dir: String,
    /// If set, the named preset replaces the model section at startup. The command
    /// line overrides this.
    pub model_preset: Option<String>,
    pub server: ServerConfig,
    pub model: ModelConfig,
    pub database: DatabaseConfig,
}

#[derive(Debug, Clone)]
pub struct ServerConfig {
    pub host: String,
    pub port: u16,
}

#[derive(Debug, Clone)]
pub struct ModelConfig {
    pub repo: String,
    pub filename: String,
    pub sha256: String,
    pub context_length: u32,
    /// -1 puts all layers on the GPU, 0 none, N the first N.
    pub gpu_layers: i32,
}

#[derive(Debug, Clone)]
pub struct DatabaseConfig {
    pub path: String,
}

/// One layer of configuration: what a source says, and nothing where it says nothing.
#[derive(Debug, Clone)]
pub struct SettingsLayer {
    pub models_dir: Option<String>,
    pub model_preset: Option<String>,
    pub host: Option<String>,
    pub port: Option<u16>,
    pub repo: Option<String>,
    pub filename: Option<String>,
    pub sha256: Option<String>,
    pub context_length: Option<u32>,
    pub gpu_layers: Option<i32>,
    pub database_path: Option<String>,
}

impl Default for SettingsLayer {
    fn default() -> (layer: Self)
        ensures
            layer == empty_layer(),
    {
        SettingsLayer {
            models_dir: None,
            model_preset: None,
            host: None,
            port: None,
            repo: None,
            filename: None,
            sha256: None,
            context_length: None,
            gpu_layers: None,
            database_path: None,
        }
    }
}

/// A layer that says nothing.
pub open spec fn empty_layer() -> SettingsLayer {
    SettingsLayer {
        models_dir: None,
        model_preset: None,
        host: None,
        port: None,
        repo: None,
        filename: None,
        sha256: None,
        context_length: None,
        gpu_layers: None,
        database_path: None,
    }
}

/// A text setting: from the environment if it is there, else from the file if it is
/// there, else the default.
pub open spec fn layered_text(
    file: Option<String>,
    env: Option<String>,
    default: Seq<char>,
) -> Seq<char> {
    match (file, env) {
        (_, Some(s)) => s@,
        (Some(s), None) => s@,
        (None, None) => default,
    }
}

/// Any other setting, in the same order.
pub open spec fn layered<T>(file: Option<T>, env: Option<T>, default: T) -> T {
    match (file, env) {
        (_, Some(v)) => v,
        (Some(v), None) => v,
        (None, None) => default,
    }
}

fn pick_text(file: Option<String>, env: Option<String>, default: &str) -> (out: String)
    ensures
        out@ == layered_text(file, env, default@),
{
    match env {
        Some(s) => s,
        None => match file {
            Some(s) => s,
            None => default.to_owned(),
        },
    }
}

fn pick<T>(file: Option<T>, env: Option<T>, default: T) -> (out: T)
    ensures
        out == layered(file, env, default),
{
    match env {
        Some(v) => v,
        None => match file {
            Some(v) => v,
            None => default,
        },
    }
}

pub const DEFAULT_MODELS_DIR: &'static str = "./models";

pub const DEFAULT_HOST: &'static str = "0.0.0.0";

pub const DEFAULT_PORT: u16 = 6969;

pub const DEFAULT_REPO: &'static str = "Qwen/Qwen2.5-Coder-7B-Instruct-GGUF";

pub const DEFAULT_FILENAME: &'static str = "qwen2.5-coder-7b-instruct-q4_k_m.gguf";

pub const DEFAULT_CONTEXT_LENGTH: u32 = 8192;

pub const DEFAULT_GPU_LAYERS: i32 = -1;

pub const DEFAULT_DATABASE_PATH: &'static str = "./data/backend.db";

impl Settings {
    /// Where models are kept by default.
    pub fn default_models_dir() -> (out: String)
        ensures
            out@ == "./models"@,
    {
        DEFAULT_MODELS_DIR.to_owned()
    }

    /// Lays the environment over the config file, and both over the defaults.
    pub fn load(file: SettingsLayer, env: SettingsLayer) -> (s: Settings)
        ensures
            s.models_dir@ == layered_text(file.models_dir, env.models_dir, "./models"@),
            s.model_preset == (match env.model_preset {
                Some(p) => Some(p),
                None => file.model_preset,
            }),
            s.server.host@ == layered_text(file.host, env.host, "0.0.0.0"@),
            s.server.port == layered(file.port, env.port, 6969),
            s.model.repo@ == layered_text(
                file.repo,
                env.repo,
                "Qwen/Qwen2.5-Coder-7B-Instruct-GGUF"@,
            ),
            s.model.filename@ == layered_text(
                file.filename,
                env.filename,
                "qwen2.5-coder-7b-instruct-q4_k_m.gguf"@,
            ),
            s.model.sha256@ == layered_text(file.sha256, env.sha256, ""@),
            s.model.context_length == layered(file.context_length, env.context_length, 8192),
            s.model.gpu_layers == layered(file.gpu_layers, env.gpu_layers, DEFAULT_GPU_LAYERS),
            s.database.path@ == layered_text(
                file.database_path,
                env.database_path,
                "./data/backend.db"@,
            ),
    {
        Settings {
            models_dir: pick_text(file.models_dir, env.models_dir, DEFAULT_MODELS_DIR),
            model_preset: match env.model_preset {
                Some(p) => Some(p),
                None => file.model_preset,
            },
            server: ServerConfig {
                host: pick_text(file.host, env.host, DEFAULT_HOST),
                port: pick(file.port, env.port, DEFAULT_PORT),
            },
            model: ModelConfig {
                repo: pick_text(file.repo, env.repo, DEFAULT_REPO),
                filename: pick_text(file.filename, env.filename, DEFAULT_FILENAME),
                sha256: pick_text(file.sha256, env.sha256, ""),
                context_length: pick(
                    file.context_length,
                    env.context_length,
                    DEFAULT_CONTEXT_LENGTH,
                ),
                gpu_layers: pick(file.gpu_layers, env.gpu_layers, DEFAULT_GPU_LAYERS),
            },
            database: DatabaseConfig {
                path: pick_text(file.database_path, env.database_path, DEFAULT_DATABASE_PATH),
            },
        }
    }
}

impl Default for ServerConfig {
    fn default() -> (c: Self)
        ensures
            c.host@ == "0.0.0.0"@,
            c.port == 6969,
    {
        ServerConfig { host: DEFAULT_HOST.to_owned(), port: DEFAULT_PORT }
    }
}

impl Default for ModelConfig {
    fn default() -> (c: Self)
        ensures
            c.repo@ == "Qwen/Qwen2.5-Coder-7B-Instruct-GGUF"@,
            c.filename@ == "qwen2.5-coder-7b-instruct-q4_k_m.gguf"@,
            c.sha256@ == ""@,
            c.context_length == 8192,
            c.gpu_layers == -1,
    {
        ModelConfig {
            repo: DEFAULT_REPO.to_owned(),
            filename: DEFAULT_FILENAME.to_owned(),
            sha256: "".to_owned(),
            context_length: DEFAULT_CONTEXT_LENGTH,
            gpu_layers: DEFAULT_GPU_LAYERS,
        }
    }
}

impl Default for DatabaseConfig {
    fn default() -> (c: Self)
        ensures
            c.path@ == "./data/backend.db"@,
    {
        DatabaseConfig { path: DEFAULT_DATABASE_PATH.to_owned() }
    }
}

/// A setting comes from the environment wherever the environment has it, whatever the file
/// says; from the file where only the file has it; and is the default where neither has it.
pub proof fn law_last_layer_wins<T>(file: Option<T>, env: Option<T>, value: T, default: T)
    ensures
        layered(file, Some(value), default) == value,
        layered(Some(value), None, default) == value,
        layered(None, None, default) == default,
        layered(file, env, default) == default || file == Some(layered(file, env, default)) || env
            == Some(layered(file, env, default)),
{
}

/// So does a text, an empty one too.
pub proof fn law_last_text_wins(
    file: Option<String>,
    env: Option<String>,
    value: String,
    default: Seq<char>,
)
    ensures
        layered_text(file, Some(value), default) == value@,
        layered_text(Some(value), None, default) == value@,
        layered_text(None, None, default) == default,
{
}

} // verus!

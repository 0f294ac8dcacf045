//! The app's persistent configuration, and the changes the commands make to it.
use vstd::prelude::*;

verus! {

/// The app's configuration, saved as `config.json` in the per-user app
/// configuration folder.
pub struct AppConfig {
    /// Whether an Ollama binary was found or installed.
    pub ollama_installed: bool,
    /// Where the Ollama binary is.
    pub ollama_path: Option<String>,
    /// What `ollama --version` reported.
    pub ollama_version: Option<String>,
    /// Tag of the installed embedding model.
    pub embedding_model_tag: Option<String>,
    /// Tag of the installed chat model.
    pub chat_model_tag: Option<String>,
    /// Dimension of the embedding model's vectors.
    pub embedding_dim: Option<i32>,
    /// Whether the models were pulled.
    pub models_installed: bool,
    /// The chosen source folder.
    pub source_folder: Option<String>,
    /// When the source folder was last indexed (RFC 3339).
    pub last_indexed_at: Option<String>,
    /// Whether the app checks for updates once an hour and installs them
    /// (still asking before restarting).
    pub auto_update_enabled: bool,
}

/// The configuration of a first run: nothing installed, nothing chosen.
pub open spec fn is_default_config(c: AppConfig) -> bool {
    &&& !c.ollama_installed
    &&& c.ollama_path is None
    &&& c.ollama_version is None
    &&& c.embedding_model_tag is None
    &&& c.chat_model_tag is None
    &&& c.embedding_dim is None
    &&& !c.models_installed
    &&& c.source_folder is None
    &&& c.last_indexed_at is None
    &&& !c.auto_update_enabled
}

impl AppConfig {
    /// The configuration of a first run.
    pub fn new() -> (r: AppConfig)
        ensures
            is_default_config(r),
    {
        AppConfig {
            ollama_installed: false,
            ollama_path: None,
            ollama_version: None,
            embedding_model_tag: None,
            chat_model_tag: None,
            embedding_dim: None,
            models_installed: false,
            source_folder: None,
            last_indexed_at: None,
            auto_update_enabled: false,
        }
    }
}

/// `a` and `b` agree on the Ollama and model settings.
pub open spec fn same_install(a: AppConfig, b: AppConfig) -> bool {
    &&& a.ollama_installed == b.ollama_installed
    &&& a.ollama_path == b.ollama_path
    &&& a.ollama_version == b.ollama_version
    &&& a.embedding_model_tag == b.embedding_model_tag
    &&& a.chat_model_tag == b.chat_model_tag
    &&& a.embedding_dim == b.embedding_dim
    &&& a.models_installed == b.models_installed
}

/// `a` and `b` agree on the folder, indexing and update settings.
pub open spec fn same_usage(a: AppConfig, b: AppConfig) -> bool {
    &&& a.source_folder == b.source_folder
    &&& a.last_indexed_at == b.last_indexed_at
    &&& a.auto_update_enabled == b.auto_update_enabled
}

/// Records a found or installed Ollama binary and its version; nothing else
/// changes.
pub fn record_ollama(cfg: &mut AppConfig, path: String, version: Option<String>)
    ensures
        final(cfg).ollama_installed,
        final(cfg).ollama_path == Some(path),
        final(cfg).ollama_version == version,
        final(cfg).embedding_model_tag == old(cfg).embedding_model_tag,
        final(cfg).chat_model_tag == old(cfg).chat_model_tag,
        final(cfg).embedding_dim == old(cfg).embedding_dim,
        final(cfg).models_installed == old(cfg).models_installed,
        same_usage(*final(cfg), *old(cfg)),
{
    cfg.ollama_installed = true;
    cfg.ollama_path = Some(path);
    cfg.ollama_version = version;
}

/// Records the pulled models and the embedding dimension; nothing else changes.
pub fn record_models(cfg: &mut AppConfig, embedding_tag: String, chat_tag: String, dim: i32)
    ensures
        final(cfg).embedding_model_tag == Some(embedding_tag),
        final(cfg).chat_model_tag == Some(chat_tag),
        final(cfg).embedding_dim == Some(dim),
        final(cfg).models_installed,
        final(cfg).ollama_installed == old(cfg).ollama_installed,
        final(cfg).ollama_path == old(cfg).ollama_path,
        final(cfg).ollama_version == old(cfg).ollama_version,
        same_usage(*final(cfg), *old(cfg)),
{
    cfg.embedding_model_tag = Some(embedding_tag);
    cfg.chat_model_tag = Some(chat_tag);
    cfg.embedding_dim = Some(dim);
    cfg.models_installed = true;
}

/// Records the chosen source folder; nothing else changes.
pub fn set_source_folder(cfg: &mut AppConfig, folder: String)
    ensures
        final(cfg).source_folder == Some(folder),
        final(cfg).last_indexed_at == old(cfg).last_indexed_at,
        final(cfg).auto_update_enabled == old(cfg).auto_update_enabled,
        same_install(*final(cfg), *old(cfg)),
{
    cfg.source_folder = Some(folder);
}

/// Records when the source folder was last indexed; nothing else changes.
pub fn record_indexed_at(cfg: &mut AppConfig, when: String)
    ensures
        final(cfg).last_indexed_at == Some(when),
        final(cfg).source_folder == old(cfg).source_folder,
        final(cfg).auto_update_enabled == old(cfg).auto_update_enabled,
        same_install(*final(cfg), *old(cfg)),
{
    cfg.last_indexed_at = Some(when);
}

/// Turns the hourly update check on or off; nothing else changes.
pub fn set_auto_update_enabled(cfg: &mut AppConfig, enabled: bool)
    ensures
        final(cfg).auto_update_enabled == enabled,
        final(cfg).source_folder == old(cfg).source_folder,
        final(cfg).last_indexed_at == old(cfg).last_indexed_at,
        same_install(*final(cfg), *old(cfg)),
{
    cfg.auto_update_enabled = enabled;
}

/// A setting that a command needs and the configuration lacks.
#[derive(Debug, Clone, Copy, PartialEq, Eq, Structural)]
pub enum MissingSetting {
    /// No source folder was chosen.
    SourceFolder,
    /// No embedding model was installed.
    EmbeddingModel,
    /// The embedding dimension is unknown (no embedding model was installed).
    EmbeddingDim,
    /// No chat model was installed.
    ChatModel,
}

/// The source folder, or which setting is missing.
pub fn source_folder(cfg: &AppConfig) -> (r: Result<String, MissingSetting>)
    ensures
        match cfg.source_folder {
            Some(s) => r == Ok::<String, MissingSetting>(s),
            None => r == Err::<String, MissingSetting>(MissingSetting::SourceFolder),
        },
{
    match &cfg.source_folder {
        Some(s) => Ok(s.clone()),
        None => Err(MissingSetting::SourceFolder),
    }
}

/// The embedding model's tag, or which setting is missing.
pub fn embedding_model(cfg: &AppConfig) -> (r: Result<String, MissingSetting>)
    ensures
        match cfg.embedding_model_tag {
            Some(s) => r == Ok::<String, MissingSetting>(s),
            None => r == Err::<String, MissingSetting>(MissingSetting::EmbeddingModel),
        },
{
    match &cfg.embedding_model_tag {
        Some(s) => Ok(s.clone()),
        None => Err(MissingSetting::EmbeddingModel),
    }
}

/// The chat model's tag, or which setting is missing.
pub fn chat_model(cfg: &AppConfig) -> (r: Result<String, MissingSetting>)
    ensures
        match cfg.chat_model_tag {
            Some(s) => r == Ok::<String, MissingSetting>(s),
            None => r == Err::<String, MissingSetting>(MissingSetting::ChatModel),
        },
{
    match &cfg.chat_model_tag {
        Some(s) => Ok(s.clone()),
        None => Err(MissingSetting::ChatModel),
    }
}

/// What opening the vector database needs: the source folder and the
/// embedding dimension, checked in that order.
pub fn vector_db_settings(cfg: &AppConfig) -> (r: Result<(String, i32), MissingSetting>)
    ensures
        match (cfg.source_folder, cfg.embedding_dim) {
            (Some(s), Some(d)) => r == Ok::<(String, i32), MissingSetting>((s, d)),
            (None, _) => r == Err::<(String, i32), MissingSetting>(MissingSetting::SourceFolder),
            (Some(_), None) => r == Err::<(String, i32), MissingSetting>(
                MissingSetting::EmbeddingDim,
            ),
        },
{
    let source = match source_folder(cfg) {
        Ok(s) => s,
        Err(e) => return Err(e),
    };
    match cfg.embedding_dim {
        Some(d) => Ok((source, d)),
        None => Err(MissingSetting::EmbeddingDim),
    }
}

/// What indexing and restoring need: the source folder and the embedding
/// model, checked in that order.
pub fn indexing_settings(cfg: &AppConfig) -> (r: Result<(String, String), MissingSetting>)
    ensures
        match (cfg.source_folder, cfg.embedding_model_tag) {
            (Some(s), Some(m)) => r == Ok::<(String, String), MissingSetting>((s, m)),
            (None, _) => r == Err::<(String, String), MissingSetting>(MissingSetting::SourceFolder),
            (Some(_), None) => r == Err::<(String, String), MissingSetting>(
                MissingSetting::EmbeddingModel,
            ),
        },
{
    let source = match source_folder(cfg) {
        Ok(s) => s,
        Err(e) => return Err(e),
    };
    match embedding_model(cfg) {
        Ok(m) => Ok((source, m)),
        Err(e) => Err(e),
    }
}

} // verus!

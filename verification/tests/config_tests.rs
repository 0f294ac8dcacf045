use local_rag_app::config::{
    indexing_settings, record_indexed_at, record_models, record_ollama, set_auto_update_enabled,
    set_source_folder, vector_db_settings, AppConfig, MissingSetting, chat_model,
};

#[test]
fn first_run_config() {
    let c = AppConfig::new();
    assert!(!c.ollama_installed && !c.models_installed && !c.auto_update_enabled);
    assert!(c.source_folder.is_none() && c.embedding_dim.is_none());
}

#[test]
fn settings_report_what_is_missing() {
    let mut c = AppConfig::new();
    assert_eq!(vector_db_settings(&c).unwrap_err(), MissingSetting::SourceFolder);
    assert_eq!(indexing_settings(&c).unwrap_err(), MissingSetting::SourceFolder);
    assert_eq!(chat_model(&c).unwrap_err(), MissingSetting::ChatModel);
    set_source_folder(&mut c, "/docs".to_string());
    assert_eq!(vector_db_settings(&c).unwrap_err(), MissingSetting::EmbeddingDim);
    assert_eq!(indexing_settings(&c).unwrap_err(), MissingSetting::EmbeddingModel);
    record_models(&mut c, "bge-m3".to_string(), "qwen2.5:7b".to_string(), 1024);
    assert_eq!(vector_db_settings(&c).unwrap(), ("/docs".to_string(), 1024));
    assert_eq!(indexing_settings(&c).unwrap(), ("/docs".to_string(), "bge-m3".to_string()));
    assert_eq!(chat_model(&c).unwrap(), "qwen2.5:7b");
    assert!(c.models_installed);
}

#[test]
fn updates_touch_only_their_fields() {
    let mut c = AppConfig::new();
    record_ollama(&mut c, "/x/ollama".to_string(), Some("0.5".to_string()));
    set_auto_update_enabled(&mut c, true);
    record_indexed_at(&mut c, "2024-01-01T00:00:00+08:00".to_string());
    assert!(c.ollama_installed);
    assert_eq!(c.ollama_path.as_deref(), Some("/x/ollama"));
    assert!(c.auto_update_enabled);
    assert_eq!(c.last_indexed_at.as_deref(), Some("2024-01-01T00:00:00+08:00"));
    assert!(c.source_folder.is_none() && !c.models_installed);
}

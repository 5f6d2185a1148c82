use co_worker_lite::config::{
    DatabaseConfig, ModelConfig, ServerConfig, Settings, SettingsLayer,
};

#[test]
fn defaults_run_without_any_file() {
    let s = Settings::load(SettingsLayer::default(), SettingsLayer::default());
    assert_eq!(s.models_dir, "./models");
    assert_eq!(s.models_dir, Settings::default_models_dir());
    assert_eq!(s.model_preset, None);
    let server = ServerConfig::default();
    assert_eq!((s.server.host, s.server.port), (server.host, server.port));
    assert_eq!(server.port, 6969);
    let model = ModelConfig::default();
    assert_eq!(s.model.repo, model.repo);
    assert_eq!(s.model.filename, model.filename);
    assert_eq!(s.model.sha256, "");
    assert_eq!(s.model.context_length, 8192);
    assert_eq!(s.model.gpu_layers, -1);
    assert_eq!(s.database.path, DatabaseConfig::default().path);
}

#[test]
fn the_environment_goes_over_the_file() {
    let file = SettingsLayer {
        host: Some("127.0.0.1".to_string()),
        port: Some(8080),
        gpu_layers: Some(20),
        model_preset: Some("qwen-coder-3b".to_string()),
        sha256: Some("aa".to_string()),
        ..SettingsLayer::default()
    };
    let env = SettingsLayer {
        port: Some(9090),
        gpu_layers: Some(0),
        model_preset: Some("codestral-22b".to_string()),
        database_path: Some("/tmp/x.db".to_string()),
        ..SettingsLayer::default()
    };
    let s = Settings::load(file, env);
    assert_eq!(s.server.host, "127.0.0.1");
    assert_eq!(s.server.port, 9090);
    assert_eq!(s.model.gpu_layers, 0);
    assert_eq!(s.model.sha256, "aa");
    assert_eq!(s.model_preset, Some("codestral-22b".to_string()));
    assert_eq!(s.database.path, "/tmp/x.db");
    assert_eq!(s.model.context_length, 8192);
}

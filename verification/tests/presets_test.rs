use co_worker_lite::config::{Settings, SettingsLayer};
use co_worker_lite::model::presets::{apply, find, presets, render_listing, select};

fn settings() -> Settings {
    Settings::load(SettingsLayer::default(), SettingsLayer::default())
}

#[test]
fn presets_are_found_whatever_the_case() {
    for p in presets() {
        assert_eq!(find(p.name).unwrap().filename, p.filename);
        assert_eq!(find(&p.name.to_uppercase()).unwrap().filename, p.filename);
    }
    assert!(find("gpt").is_none());
    assert!(find("").is_none());
    assert_eq!(find("Codestral-22B").unwrap().min_ram_gib, 24);
}

#[test]
fn applying_a_preset_keeps_what_depends_on_the_machine() {
    let mut s = settings();
    s.model.gpu_layers = 12;
    s.model.sha256 = "abc".to_string();
    s.models_dir = "/m".to_string();
    apply(&mut s, &find("qwen-coder-14b").unwrap());
    assert_eq!(s.model.repo, "Qwen/Qwen2.5-Coder-14B-Instruct-GGUF");
    assert_eq!(s.model.filename, "qwen2.5-coder-14b-instruct-q4_k_m.gguf");
    assert_eq!(s.model.context_length, 16384);
    assert_eq!(s.model.gpu_layers, 12);
    assert_eq!(s.model.sha256, "");
    assert_eq!(s.models_dir, "/m");
}

#[test]
fn a_context_length_of_ones_own_stays() {
    let mut s = settings();
    s.model.context_length = 20000;
    apply(&mut s, &find("qwen-coder-14b").unwrap());
    assert_eq!(s.model.context_length, 20000);
}

#[test]
fn the_command_line_goes_before_the_configuration() {
    let mut s = settings();
    s.model_preset = Some("qwen-coder-3b".to_string());
    assert_eq!(select(&mut s, Some("codestral-22b".to_string())), Ok(Some("codestral-22b".to_string())));
    assert_eq!(s.model.filename, "Codestral-22B-v0.1-Q4_K_M.gguf");
    let mut s = settings();
    s.model_preset = Some("qwen-coder-3b".to_string());
    assert_eq!(select(&mut s, None), Ok(Some("qwen-coder-3b".to_string())));
    assert_eq!(s.model.filename, "qwen2.5-coder-3b-instruct-q4_k_m.gguf");
    let mut s = settings();
    assert_eq!(select(&mut s, None), Ok(None));
    assert_eq!(s.model.filename, "qwen2.5-coder-7b-instruct-q4_k_m.gguf");
}

#[test]
fn an_unknown_preset_is_an_error() {
    let mut s = settings();
    assert_eq!(
        select(&mut s, Some("nope".to_string())),
        Err("unknown preset 'nope'. Run `co_worker_lite --list-presets` to see the catalog.".to_string())
    );
    assert_eq!(s.model.context_length, 8192);
}

#[test]
fn the_listing_is_aligned() {
    let out = render_listing();
    let mut expected = String::from("Available model presets:\n\n");
    expected.push_str(&format!(
        "  {:<24}  {:>9}  {:>7}  {:>9}  {}\n",
        "NAME", "SIZE", "MIN RAM", "CTX", "DESCRIPTION"
    ));
    expected.push_str(&format!(
        "  {:<24}  {:>9}  {:>7}  {:>9}  {}\n",
        "----", "----", "-------", "---", "-----------"
    ));
    for p in presets() {
        let size = if p.approx_size_mib >= 1024 {
            format!("{:.1} GiB", p.approx_size_mib as f32 / 1024.0)
        } else {
            format!("{} MiB", p.approx_size_mib)
        };
        expected.push_str(&format!(
            "  {:<24}  {:>9}  {:>4} GB  {:>9}  {}\n",
            p.name,
            size,
            p.min_ram_gib,
            format!("{}K", p.context_length / 1024),
            p.description,
        ));
    }
    expected.push_str("\nSelect with: --preset <name>, model_preset = \"<name>\" in config.toml,\nor LLM_BACKEND_MODEL_PRESET=<name>.\n");
    assert_eq!(out, expected);
    assert!(out.contains("  qwen-coder-3b               2.1 GiB     4 GB         8K  Smallest."));
    let mut starts = vec!["DESCRIPTION".to_string(), "-----------".to_string()];
    starts.extend(presets().iter().map(|p| p.description.to_string()));
    let rows: Vec<&str> = out.lines().filter(|l| l.starts_with("  ")).collect();
    assert_eq!(rows.len(), starts.len());
    for (row, start) in rows.iter().zip(&starts) {
        assert_eq!(row.find(start.as_str()), Some(59));
    }
}

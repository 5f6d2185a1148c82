use co_worker_lite::api::models::{
    catalog, ensure_model_loaded, list_models, load_model, LoadAction, LoadEvent,
};
use co_worker_lite::error::AppError;
use co_worker_lite::model::presets::presets;
use co_worker_lite::types::ModelKind;

fn files(list: &[(&str, u64)]) -> Vec<(String, u64)> {
    list.iter().map(|(n, s)| (n.to_string(), *s)).collect()
}

const SEVEN: &str = "qwen2.5-coder-7b-instruct-q4_k_m.gguf";

#[test]
fn local_models_show_which_one_is_loaded() {
    let r = list_models(&files(&[("a.gguf", 1), ("b.gguf", 2)]), "b.gguf");
    let shown: Vec<(String, u64, bool)> =
        r.models.into_iter().map(|m| (m.name, m.size_bytes, m.loaded)).collect();
    assert_eq!(shown, vec![("a.gguf".to_string(), 1, false), ("b.gguf".to_string(), 2, true)]);
}

#[test]
fn the_catalog_merges_presets_and_files() {
    let c = catalog(&files(&[("mine.gguf", 5), (SEVEN, 77), ("mine.gguf", 6)]), SEVEN, 2048);
    assert_eq!(c.current, SEVEN);
    assert_eq!(c.entries.len(), presets().len() + 1);
    for (e, p) in c.entries.iter().zip(presets()) {
        assert_eq!(e.name, p.name);
        assert_eq!(e.kind, ModelKind::Preset);
        assert_eq!(e.loaded, p.filename == SEVEN);
        assert_eq!(e.present, p.filename == SEVEN);
    }
    assert_eq!(c.entries[1].size_bytes, Some(77));
    assert_eq!(c.entries[0].size_bytes, None);
    let mine = c.entries.last().unwrap();
    assert_eq!(mine.kind, ModelKind::Local);
    assert_eq!((mine.name.as_str(), mine.filename.as_str()), ("mine.gguf", "mine.gguf"));
    assert_eq!((mine.repo.as_str(), mine.size_bytes), ("", Some(5)));
    assert_eq!(mine.context_length, 2048);
    assert!(mine.present && !mine.loaded);
    assert_eq!(mine.description, None);
}

#[test]
fn a_preset_is_downloaded_opened_and_measured() {
    let (l, a) = load_model("Qwen-Coder-7B".to_string(), true, 2048).unwrap();
    assert!(matches!(a, LoadAction::AskCurrent));
    let (l, a) = l.next(Ok(LoadEvent::Current("other.gguf".to_string()))).unwrap();
    match a {
        LoadAction::Download { repo, filename } => {
            assert_eq!(repo, "Qwen/Qwen2.5-Coder-7B-Instruct-GGUF");
            assert_eq!(filename, SEVEN);
        }
        other => panic!("{other:?}"),
    }
    let (l, a) = l.next(Ok(LoadEvent::Downloaded)).unwrap();
    assert!(matches!(a, LoadAction::Open { ref filename, context_length: 8192 } if filename == SEVEN));
    let (l, a) = l.next(Ok(LoadEvent::Opened)).unwrap();
    assert!(matches!(a, LoadAction::Measure(ref f) if f == SEVEN));
    let (_, a) = l.next(Ok(LoadEvent::Measured(Some(9)))).unwrap();
    match a {
        LoadAction::Answer(e) => {
            assert_eq!(e.name, "qwen-coder-7b");
            assert_eq!(e.filename, SEVEN);
            assert_eq!(e.kind, ModelKind::Preset);
            assert_eq!(e.size_bytes, Some(9));
            assert_eq!(e.min_ram_gib, Some(8));
            assert!(e.present && e.loaded);
        }
        other => panic!("{other:?}"),
    }
}

#[test]
fn a_loaded_model_is_left_alone() {
    let (l, _) = load_model("qwen-coder-7b".to_string(), true, 2048).unwrap();
    let (_, a) = l.next(Ok(LoadEvent::Current(SEVEN.to_string()))).unwrap();
    assert!(matches!(a, LoadAction::Measure(_)));
}

#[test]
fn a_local_file_is_opened_where_it_is() {
    let (l, a) = load_model("mine.gguf".to_string(), true, 2048).unwrap();
    assert!(matches!(a, LoadAction::LookFor(ref f) if f == "mine.gguf"));
    let (l, a) = l.next(Ok(LoadEvent::Exists(true))).unwrap();
    assert!(matches!(a, LoadAction::AskCurrent));
    let (_, a) = l.next(Ok(LoadEvent::Current("other".to_string()))).unwrap();
    assert!(matches!(a, LoadAction::Open { ref filename, context_length: 2048 } if filename == "mine.gguf"));
}

#[test]
fn an_unknown_model_is_refused() {
    let (l, _) = load_model("mine.gguf".to_string(), true, 2048).unwrap();
    match l.next(Ok(LoadEvent::Exists(false))) {
        Err(AppError::BadRequest(m)) => {
            assert_eq!(m, "unknown model: mine.gguf (no matching preset and no local file)")
        }
        _ => panic!(),
    }
    match load_model("mine.gguf".to_string(), false, 2048) {
        Err(AppError::Internal(m)) => {
            assert_eq!(m, "model loading is not available when running with the stub backend")
        }
        _ => panic!(),
    }
}

#[test]
fn a_failed_load_ends_with_its_error() {
    let (l, _) = load_model("qwen-coder-3b".to_string(), true, 2048).unwrap();
    let (l, _) = l.next(Ok(LoadEvent::Current("x".to_string()))).unwrap();
    match l.next(Err(AppError::Http("down".to_string()))) {
        Err(AppError::Http(m)) => assert_eq!(m, "down"),
        _ => panic!(),
    }
    let (l, _) = load_model("qwen-coder-3b".to_string(), true, 2048).unwrap();
    assert!(matches!(l.next(Ok(LoadEvent::Opened)), Err(AppError::Internal(_))));
}

#[test]
fn a_pinned_model_is_swapped_in() {
    assert!(ensure_model_loaded("stub".to_string(), "stub", false, 1).unwrap().is_none());
    assert!(ensure_model_loaded(String::new(), "stub", false, 1).unwrap().is_none());
    assert!(ensure_model_loaded("x.gguf".to_string(), "stub", false, 1).is_err());
    let (_, a) = ensure_model_loaded(SEVEN.to_string(), "stub", true, 1).unwrap().unwrap();
    assert!(matches!(a, LoadAction::AskCurrent));
    let (_, a) = ensure_model_loaded("x.gguf".to_string(), "stub", true, 1).unwrap().unwrap();
    assert!(matches!(a, LoadAction::LookFor(_)));
}

#[test]
fn a_loading_fails_only_before_the_model_is_opened() {
    let other = || Ok(LoadEvent::Current("other.gguf".to_string()));
    let gone = || Err(AppError::Io("gone".to_string()));
    let (l, _) = load_model("qwen-coder-7b".to_string(), true, 2048).unwrap();
    let (l, _) = l.next(other()).unwrap();
    assert!(matches!(l.next(gone()), Err(AppError::Io(_))));
    let (l, _) = load_model("qwen-coder-7b".to_string(), true, 2048).unwrap();
    let (l, _) = l.next(other()).unwrap();
    let (l, _) = l.next(Ok(LoadEvent::Downloaded)).unwrap();
    let (l, _) = l.next(Ok(LoadEvent::Opened)).unwrap();
    match l.next(gone()) {
        Ok((_, LoadAction::Answer(e))) => {
            assert_eq!((e.filename.as_str(), e.size_bytes, e.loaded), (SEVEN, None, true))
        }
        _ => panic!(),
    }
}

use amnia_desktop::ollama::{
    installed_entries, list_ollama_models, pull_outcome, suggested_models, ModelEntry, TagsModel,
};

fn view(v: &[ModelEntry]) -> Vec<(String, u64, bool)> {
    v.iter().map(|e| (e.name.clone(), e.size_bytes, e.installed)).collect()
}

fn catalogue() -> Vec<(String, u64, bool)> {
    vec![
        ("llama3.2:1b".to_string(), 1_300_000_000, false),
        ("llama3.2:3b".to_string(), 2_000_000_000, false),
        ("qwen2.5:7b".to_string(), 4_700_000_000, false),
        ("mistral:7b".to_string(), 4_400_000_000, false),
        ("phi3:mini".to_string(), 2_300_000_000, false),
        ("gemma2:2b".to_string(), 1_600_000_000, false),
    ]
}

#[test]
fn catalogue_is_fixed() {
    assert_eq!(view(&suggested_models()), catalogue());
}

#[test]
fn empty_install_lists_the_catalogue() {
    assert_eq!(view(&list_ollama_models(Vec::new())), catalogue());
}

#[test]
fn installed_models_come_first_and_hide_suggestions() {
    let installed = vec![
        ModelEntry { name: "mistral:7b".to_string(), size_bytes: 7, installed: true },
        ModelEntry { name: "custom:latest".to_string(), size_bytes: 9, installed: true },
    ];
    let list = view(&list_ollama_models(installed));
    let mut expected = vec![
        ("mistral:7b".to_string(), 7, true),
        ("custom:latest".to_string(), 9, true),
    ];
    expected.extend(catalogue().into_iter().filter(|e| e.0 != "mistral:7b"));
    assert_eq!(list, expected);
    assert_eq!(list.len(), 7);
}

#[test]
fn installed_entries_are_marked_installed() {
    let tags = vec![
        TagsModel { name: "a".to_string(), size: 1 },
        TagsModel { name: "b".to_string(), size: 0 },
    ];
    assert_eq!(
        view(&installed_entries(tags)),
        vec![("a".to_string(), 1, true), ("b".to_string(), 0, true)]
    );
}

#[test]
fn pull_message() {
    let r = pull_outcome("phi3:mini".to_string());
    assert_eq!(r.model, "phi3:mini");
    assert_eq!(r.message, "Pulled phi3:mini");
}

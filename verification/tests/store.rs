use reticle_app::store::{default_store, BundledSessionStore, FsSessionStore};

#[test]
fn stores_name_their_origin() {
    assert_eq!(FsSessionStore.origin_label(), "filesystem");
    assert_eq!(BundledSessionStore.origin_label(), "bundled demo");
    assert_eq!(default_store().origin_label(), "filesystem");
}

#[test]
fn fs_store_trims_the_reference_and_prompts_when_blank() {
    let store = FsSessionStore;
    assert_eq!(store.reference_path("  runs/a.transcript.jsonl \n"), Ok("runs/a.transcript.jsonl".to_owned()));
    assert_eq!(store.reference_path("   "), Err("Enter a transcript .jsonl path".to_owned()));
    assert_eq!(store.reference_path(""), Err("Enter a transcript .jsonl path".to_owned()));
}

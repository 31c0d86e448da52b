use lettuce_core::kokoro::{
    available_voices_from_listing, download_url, idle_progress, is_valid_voice_id,
    model_download_plan, removable_paths, voice_download_plan, DownloadState, KokoroModelVariant,
};

fn strings(items: &[&str]) -> Vec<String> {
    items.iter().map(|s| s.to_string()).collect()
}

#[test]
fn idle_progress_is_empty() {
    let p = idle_progress();
    assert_eq!(p.status, "idle");
    assert_eq!(p.downloaded, 0);
    assert_eq!(p.total_files, 0);
    assert!(p.current_file_name.is_empty());
    assert!(p.variant.is_none());
}

#[test]
fn model_plan_fetches_config_tokenizer_and_model() {
    let plan = model_download_plan(KokoroModelVariant::Fp16);
    assert_eq!(plan.len(), 4);
    assert_eq!(plan[0].remote_path, "config.json");
    assert_eq!(plan[2].local_relative_path, "tokenizer_config.json");
    assert_eq!(plan[3].remote_path, "onnx/model_fp16.onnx");
    assert_eq!(plan[3].local_relative_path, "onnx/model_fp16.onnx");
    assert_eq!(plan[3].progress_name, "model_fp16.onnx");
    assert_eq!(model_download_plan(KokoroModelVariant::Int8)[3].progress_name, "model_quantized.onnx");
    assert_eq!(model_download_plan(KokoroModelVariant::Fp32)[3].remote_path, "onnx/model.onnx");
}

#[test]
fn voice_ids_are_ascii_words() {
    assert!(is_valid_voice_id("af_heart"));
    assert!(is_valid_voice_id("bm-george2"));
    assert!(!is_valid_voice_id(""));
    assert!(!is_valid_voice_id("  "));
    assert!(!is_valid_voice_id("a b"));
    assert!(!is_valid_voice_id("../x"));
}

#[test]
fn a_voice_plan_fetches_one_file() {
    let plan = voice_download_plan("af_heart").ok().unwrap();
    assert_eq!(plan.len(), 1);
    assert_eq!(plan[0].remote_path, "voices/af_heart.bin");
    assert_eq!(plan[0].local_relative_path, "voices/af_heart.bin");
    assert_eq!(plan[0].progress_name, "af_heart.bin");
    assert_eq!(voice_download_plan("../x").err().unwrap(), "Unsupported voice id: ../x");
}

#[test]
fn offered_voices_are_sorted_unique_and_flagged() {
    let files = strings(&[
        "voices/bm_george.bin",
        "voices/af_heart.bin",
        "config.json",
        "voices/af_heart.bin",
        "voices/bad id.bin",
        "voices/.bin",
        "voices/am_adam.pt",
        "onnx/voices/zz.bin",
    ]);
    let voices = available_voices_from_listing(&files, &strings(&["af_heart", "other"]));
    assert_eq!(voices.len(), 2);
    assert_eq!(voices[0].id, "af_heart");
    assert!(voices[0].installed);
    assert_eq!(voices[1].id, "bm_george");
    assert!(!voices[1].installed);
}

#[test]
fn a_second_download_is_refused_while_one_runs() {
    let mut state = DownloadState::new();
    state
        .begin(4, Some("config.json".to_string()), "/tmp/kokoro".to_string(), "model".to_string(), Some("fp16".to_string()), None)
        .ok()
        .unwrap();
    assert!(state.is_downloading);
    assert_eq!(state.progress.status, "downloading");
    assert_eq!(state.progress.current_file_index, 1);
    assert_eq!(state.progress.current_file_name, "config.json");
    let refused = state.begin(1, None, "/tmp/other".to_string(), "voice".to_string(), None, None);
    assert_eq!(refused.err().unwrap(), "Kokoro download already in progress");
    assert_eq!(state.progress.asset_root, Some("/tmp/kokoro".to_string()));
}

#[test]
fn progress_follows_the_files() {
    let mut state = DownloadState::new();
    state.begin(2, None, "/a".to_string(), "voice".to_string(), None, Some("af".to_string())).ok().unwrap();
    state.start_file(1, "af.bin");
    assert_eq!(state.progress.current_file_index, 2);
    assert_eq!(state.progress.status, "Downloading af.bin");
    state.add_total(100);
    state.add_downloaded(40);
    state.add_downloaded(u64::MAX);
    assert_eq!(state.progress.total, 100);
    assert_eq!(state.progress.downloaded, u64::MAX);
    state.complete();
    assert!(!state.is_downloading);
    assert_eq!(state.progress.status, "completed");
}

#[test]
fn a_failure_after_a_cancel_request_reads_cancelled() {
    let mut state = DownloadState::new();
    state.begin(1, None, "/a".to_string(), "model".to_string(), None, None).ok().unwrap();
    assert!(state.request_cancel());
    assert!(state.cancel_requested);
    assert!(state.fail());
    assert_eq!(state.progress.status, "cancelled");
    assert!(!state.is_downloading && !state.cancel_requested);

    let mut other = DownloadState::new();
    other.begin(1, None, "/a".to_string(), "model".to_string(), None, None).ok().unwrap();
    assert!(!other.fail());
    assert_eq!(other.progress.status, "failed");
}

#[test]
fn cancelling_with_nothing_running_resets_progress() {
    let mut state = DownloadState::new();
    assert!(!state.request_cancel());
    assert_eq!(state.progress.status, "cancelled");
    let mut running = DownloadState::new();
    running.begin(1, None, "/a".to_string(), "model".to_string(), None, None).ok().unwrap();
    running.request_cancel();
    running.finish_cancel();
    assert!(!running.is_downloading);
    assert_eq!(running.progress.status, "cancelled");
    assert_eq!(running.progress.total_files, 0);
}

#[test]
fn only_new_files_are_removed_after_a_failure() {
    let owned = strings(&["/a/config.json", "/a/onnx/model.onnx"]);
    let pre = strings(&["/a/config.json"]);
    assert_eq!(removable_paths(&owned, &pre), strings(&["/a/onnx/model.onnx"]));
}

#[test]
fn files_are_fetched_from_the_model_repository() {
    assert_eq!(
        download_url("config.json"),
        "https://huggingface.co/onnx-community/Kokoro-82M-v1.0-ONNX/resolve/main/config.json"
    );
}

use lettuce_core::offload::{
    block_index, candidate_gpu_layers, context_bucket_upper, estimate_mtp_compute_reserve_bytes,
    estimate_mtp_gpu_reserve_bytes, estimated_runtime_reserve_bytes, kv_value_eighths,
    merge_cached_candidate_layers, model_weight_split_bytes, offload_costs_from_tensors,
    plan_multi_gpu_distribution, plan_smart_gpu_offload, reserve_device_vram,
    select_mtp_gpu_device, compute_recommended_context, FlashAttentionPolicy, LlamaModelMetadata,
    ModelOffloadCosts,
};

fn large_context_metadata() -> LlamaModelMetadata {
    LlamaModelMetadata {
        model_size_bytes: 16 * 1024 * 1024 * 1024,
        layer_count: 60,
        nextn_layer_count: 0,
        max_context_length: 262_144,
        n_embd: 4096,
        n_head: 32,
        n_head_kv: 8,
    }
}

fn costs(units: &[u64]) -> ModelOffloadCosts {
    ModelOffloadCosts::from_unit_bytes(units.to_vec())
}

/// The tensor split llama.cpp is given: the weights as fractions of their sum.
fn tensor_split(weights: &[u64]) -> Vec<f32> {
    let w: Vec<f32> = weights.iter().map(|v| *v as f32).collect();
    let n = w.len();
    if n == 0 {
        return Vec::new();
    }
    let sum: f32 = w.iter().copied().filter(|x| *x > 0.0).sum();
    if sum <= 0.0 {
        return vec![1.0 / n as f32; n];
    }
    w.iter().map(|x| x.max(0.0) / sum).collect()
}

/// Whole layers in proportion to `weights` (largest remainder).
fn distribute(total: u32, weights: &[f32]) -> Vec<u32> {
    let n = weights.len();
    if n == 0 {
        return Vec::new();
    }
    if total == 0 {
        return vec![0u32; n];
    }
    let sum: f32 = weights.iter().copied().filter(|w| *w > 0.0).sum();
    let raw: Vec<f32> = if sum <= 0.0 {
        vec![total as f32 / n as f32; n]
    } else {
        weights.iter().map(|w| (w.max(0.0) / sum) * total as f32).collect()
    };
    let mut out: Vec<u32> = raw.iter().map(|r| r.floor() as u32).collect();
    let assigned: u32 = out.iter().copied().sum();
    let mut remainder = total.saturating_sub(assigned);
    let mut order: Vec<usize> = (0..n).collect();
    order.sort_by(|a, b| {
        let fa = raw[*a] - raw[*a].floor();
        let fb = raw[*b] - raw[*b].floor();
        fb.partial_cmp(&fa).unwrap_or(std::cmp::Ordering::Equal)
    });
    let mut i = 0;
    while remainder > 0 {
        let idx = order[i % n];
        out[idx] += 1;
        remainder -= 1;
        i += 1;
    }
    out
}

#[test]
fn mtp_compute_reserve_scales_with_context_and_has_a_floor() {
    assert_eq!(estimate_mtp_compute_reserve_bytes(16_384), 384 * 1024 * 1024);
    assert_eq!(estimate_mtp_compute_reserve_bytes(8_192), 192 * 1024 * 1024);
    assert_eq!(estimate_mtp_compute_reserve_bytes(1), 128 * 1024 * 1024);
}

#[test]
fn mtp_uses_the_selected_device_with_the_most_free_vram() {
    let selected = [4, 7, 9];
    let free = [8, 24, 16];

    assert_eq!(select_mtp_gpu_device(&selected, &free), Some(7));
    assert_eq!(reserve_device_vram(&selected, &free, Some(7), 6), vec![8, 18, 16]);
}

#[test]
fn runtime_reserve_holds_attention_scratch_when_flash_attention_disabled() {
    let available = 16_u64 * 1024 * 1024 * 1024;

    let reserve = estimated_runtime_reserve_bytes(
        &large_context_metadata(),
        available,
        32_768,
        2048,
        FlashAttentionPolicy::Disabled,
    );

    assert_eq!(reserve, available / 20 + 4_294_967_296);
}

#[test]
fn runtime_reserve_assumes_flash_attention_for_auto_policy_on_every_backend() {
    let available = 16_u64 * 1024 * 1024 * 1024;

    let auto_reserve = estimated_runtime_reserve_bytes(
        &large_context_metadata(),
        available,
        32_768,
        2048,
        FlashAttentionPolicy::Auto,
    );
    let enabled_reserve = estimated_runtime_reserve_bytes(
        &large_context_metadata(),
        available,
        32_768,
        2048,
        FlashAttentionPolicy::Enabled,
    );

    assert_eq!(auto_reserve, enabled_reserve);
    assert_eq!(auto_reserve, available / 20);
}

#[test]
fn metadata_counts_output_tensor_as_an_offload_layer() {
    let metadata = large_context_metadata();

    assert_eq!(metadata.offload_layer_count(), 61);
    assert_eq!(metadata.normalize_requested_gpu_layers(59), 59);
    assert_eq!(metadata.normalize_requested_gpu_layers(60), 61);
    assert_eq!(metadata.normalize_requested_gpu_layers(99), 61);
}

#[test]
fn metadata_counts_bundled_nextn_and_output_layers() {
    let metadata = LlamaModelMetadata { nextn_layer_count: 1, ..large_context_metadata() };

    assert_eq!(metadata.model_layer_count(), 61);
    assert_eq!(metadata.offload_layer_count(), 62);
    assert_eq!(metadata.normalize_requested_gpu_layers(60), 62);
    assert_eq!(metadata.normalize_requested_gpu_layers(62), 62);
}

#[test]
fn candidate_ladder_does_not_exceed_the_vram_estimate() {
    let candidates = candidate_gpu_layers(61, 60);

    assert_eq!(candidates.first(), Some(&60));
    assert!(!candidates.contains(&61));
    assert_eq!(candidates.last(), Some(&0));
}

#[test]
fn full_offload_places_all_model_weights_on_gpu() {
    let metadata = large_context_metadata();

    let (cpu_bytes, gpu_bytes) =
        model_weight_split_bytes(&metadata, None, metadata.offload_layer_count());

    assert_eq!(cpu_bytes, 0);
    assert_eq!(gpu_bytes, metadata.model_size_bytes);
}

#[test]
fn proportional_distribution_caps_total_to_per_device_free_capacity() {
    let dist = plan_multi_gpu_distribution("proportional", &[8, 24], 60, 1, 0, 60, None, None);

    assert_eq!(dist.n_gpu_layers, 32);
    assert!(dist.distribute_by_weights);
    let per_device_layers = distribute(dist.n_gpu_layers, &tensor_split(&[8, 24]));
    assert_eq!(per_device_layers, vec![8, 24]);
}

#[test]
fn balanced_distribution_keeps_even_split_for_identical_cards() {
    let dist = plan_multi_gpu_distribution("balanced", &[16, 16], 60, 1, 0, 32, None, None);

    assert_eq!(dist.n_gpu_layers, 32);
    assert_eq!(dist.per_device_layers, vec![16, 16]);
    assert_eq!(tensor_split(&dist.split_weights), vec![0.5, 0.5]);
}

#[test]
fn balanced_distribution_respects_a_sidecar_reduced_device_budget() {
    let dist = plan_multi_gpu_distribution("balanced", &[4, 16], 20, 1, 0, 16, None, None);

    assert_eq!(dist.n_gpu_layers, 16);
    assert_eq!(dist.per_device_layers, vec![4, 12]);
    assert_eq!(tensor_split(&dist.split_weights), vec![0.25, 0.75]);
}

#[test]
fn gpu_bytes_takes_the_last_units_output_layer_first() {
    // blocks 0..2 then the output layer, matching llama.cpp's il ordering.
    let costs = costs(&[10, 20, 30, 1000]);
    assert_eq!(costs.gpu_bytes(0), 0);
    assert_eq!(costs.gpu_bytes(1), 1000, "first unit offloaded is the output");
    assert_eq!(costs.gpu_bytes(2), 1030);
    assert_eq!(costs.gpu_bytes(4), 1060);
    assert_eq!(costs.gpu_bytes(99), 1060, "saturates at the unit count");
}

#[test]
fn a_heavy_output_layer_is_not_averaged_away() {
    let costs = costs(&[10, 20, 30, 1000]);
    assert_eq!(costs.max_units_within(900, 0, 3), 0);
    assert_eq!(costs.max_units_within(1000, 0, 3), 1);
    assert_eq!(costs.max_units_within(1029, 0, 3), 1);
    assert_eq!(costs.max_units_within(1030, 0, 3), 2);
}

#[test]
fn kv_is_charged_per_block_but_not_for_the_output_unit() {
    let costs = costs(&[10, 20, 30, 1000]);
    // Output alone: no KV.
    assert_eq!(costs.max_units_within(1000, 5, 3), 1);
    // Output + one block: one KV charge.
    assert_eq!(costs.max_units_within(1034, 5, 3), 1);
    assert_eq!(costs.max_units_within(1035, 5, 3), 2);
}

#[test]
fn kv_charges_stop_at_the_attention_layer_count() {
    // nextn blocks sit in the unit list but are not attention layers.
    let costs = costs(&[10, 20, 30, 1000]);
    assert_eq!(costs.max_units_within(1030, 5, 0), 2, "no KV charged at all");
}

#[test]
fn block_index_parses_only_repeating_layers() {
    assert_eq!(block_index("blk.0.attn_q.weight"), Some(0));
    assert_eq!(block_index("blk.64.nextn.eh_proj.weight"), Some(64));
    assert_eq!(block_index("output.weight"), None);
    assert_eq!(block_index("token_embd.weight"), None);
    assert_eq!(block_index("blk.notanumber.weight"), None);
}

// --- further cases -------------------------------------------------------

#[test]
fn block_index_edge_cases() {
    assert_eq!(block_index("blk.+7.x"), Some(7));
    assert_eq!(block_index("blk.4294967295.x"), Some(u32::MAX));
    assert_eq!(block_index("blk.4294967296.x"), None);
    assert_eq!(block_index("blk..x"), None);
    assert_eq!(block_index("blk.12"), None);
    assert_eq!(block_index("BLK.1.x"), None);
}

#[test]
fn tensor_index_yields_per_unit_costs() {
    let tensors = vec![
        ("token_embd.weight".to_string(), 500u64),
        ("blk.0.attn_q.weight".to_string(), 10),
        ("blk.0.ffn.weight".to_string(), 5),
        ("blk.2.attn_q.weight".to_string(), 7),
        ("output_norm.weight".to_string(), 3),
        ("output.weight".to_string(), 900),
    ];
    let costs = offload_costs_from_tensors(&tensors).unwrap();
    assert_eq!(costs.unit_count(), 4);
    assert_eq!(costs.gpu_bytes(1), 903);
    assert_eq!(costs.gpu_bytes(4), 903 + 7 + 0 + 15);
}

#[test]
fn tied_head_duplicates_the_embedding_on_the_output_unit() {
    let tensors = vec![
        ("token_embd.weight".to_string(), 500u64),
        ("blk.0.attn_q.weight".to_string(), 10),
        ("output_norm.weight".to_string(), 3),
    ];
    let costs = offload_costs_from_tensors(&tensors).unwrap();
    assert_eq!(costs.unit_count(), 2);
    assert_eq!(costs.gpu_bytes(1), 503);
    assert!(offload_costs_from_tensors(&[("output.weight".to_string(), 1)]).is_none());
}

#[test]
fn kv_value_sizes_by_cache_type() {
    assert_eq!(kv_value_eighths(None), 16);
    assert_eq!(kv_value_eighths(Some(" F32 ")), 32);
    assert_eq!(kv_value_eighths(Some("q8_0")), 8);
    assert_eq!(kv_value_eighths(Some("Q6_K")), 6);
    assert_eq!(kv_value_eighths(Some("q5_1")), 5);
    assert_eq!(kv_value_eighths(Some("iq4_nl")), 4);
    assert_eq!(kv_value_eighths(Some("iq3_xxs")), 3);
    assert_eq!(kv_value_eighths(Some("iq1_s")), 2);
    assert_eq!(kv_value_eighths(Some("bf16")), 16);
}

#[test]
fn recommended_context_uses_the_memory_the_cache_lives_in() {
    let m = LlamaModelMetadata { max_context_length: 1_000_000, ..large_context_metadata() };
    let gib = 1024 * 1024 * 1024u64;
    // VRAM: 10 GiB minus a reserve of 2 GiB, at 1 MiB per token.
    assert_eq!(
        compute_recommended_context(&m, None, Some(10 * gib), Some(true), 1024 * 1024),
        Some(8192)
    );
    // RAM: 32 GiB minus the 16 GiB model and a 6.4 GiB reserve.
    let ram = 32 * gib;
    let expected = (ram - 16 * gib - ram / 5) / (1024 * 1024);
    assert_eq!(
        compute_recommended_context(&m, Some(ram), None, Some(false), 1024 * 1024),
        Some(expected as u32)
    );
    assert_eq!(compute_recommended_context(&m, Some(ram), None, None, 0), None);
    assert_eq!(compute_recommended_context(&m, None, None, Some(true), 1), None);
    // Capped by the training context.
    assert_eq!(
        compute_recommended_context(&large_context_metadata(), Some(ram), None, None, 1),
        Some(262_144)
    );
}

#[test]
fn context_buckets() {
    assert_eq!(context_bucket_upper(0), 4096);
    assert_eq!(context_bucket_upper(4097), 8192);
    assert_eq!(context_bucket_upper(65_536), 65_536);
    assert_eq!(context_bucket_upper(65_537), 73_728);
    assert_eq!(context_bucket_upper(u32::MAX), (u32::MAX / 8192) * 8192);
}

#[test]
fn cached_candidates_come_first_without_repeats() {
    assert_eq!(merge_cached_candidate_layers(40, 60, &[40, 30, 99, 0]), vec![40, 30, 20, 10, 0]);
    assert_eq!(merge_cached_candidate_layers(40, 0, &[8, 8]), vec![8, 0]);
}

#[test]
fn mtp_gpu_reserve_adds_weights_and_compute() {
    let m = large_context_metadata();
    assert_eq!(
        estimate_mtp_gpu_reserve_bytes(&m, 16_384),
        m.model_size_bytes + 384 * 1024 * 1024
    );
}

#[test]
fn priority_fills_first_device_and_spills_the_rest_onto_the_last() {
    let dist = plan_multi_gpu_distribution("priority", &[10, 10], 100, 1, 0, 30, None, Some(4));
    assert_eq!(dist.per_device_layers, vec![4, 26]);
    assert_eq!(dist.n_gpu_layers, 30);
    assert_eq!(dist.main_gpu, Some(0));
}

#[test]
fn manual_counts_follow_the_device_order() {
    let dist = plan_multi_gpu_distribution("manual", &[1, 1, 1], 10, 1, 0, 5, Some(&[6, 7]), None);
    assert_eq!(dist.per_device_layers, vec![6, 7, 0]);
    assert_eq!(dist.n_gpu_layers, 10);
    assert_eq!(dist.split_weights, vec![6, 7, 0]);
    let none = plan_multi_gpu_distribution("manual", &[1], 10, 1, 0, 5, None, None);
    assert_eq!(none.n_gpu_layers, 0);
    assert!(none.split_weights.is_empty());
}

#[test]
fn no_devices_means_no_layout() {
    let dist = plan_multi_gpu_distribution("balanced", &[], 10, 1, 0, 5, None, None);
    assert_eq!(dist.n_gpu_layers, 0);
    assert!(dist.per_device_layers.is_empty());
}

#[test]
fn smart_plan_with_unit_costs() {
    let m = LlamaModelMetadata {
        model_size_bytes: 1060,
        layer_count: 3,
        nextn_layer_count: 0,
        max_context_length: 4096,
        n_embd: 64,
        n_head: 8,
        n_head_kv: 8,
    };
    let costs = costs(&[10, 20, 30, 1000]);
    let plan = plan_smart_gpu_offload(
        &m,
        Some(&costs),
        Some(1 << 40),
        Some(4 * 1024 * 1024 * 1024),
        Some(2048),
        512,
        Some(false),
        0,
        FlashAttentionPolicy::Auto,
        0,
        false,
    );
    assert_eq!(plan.total_layers, 4);
    assert_eq!(plan.planned_context, 2048);
    assert_eq!(plan.estimated_gpu_layers, 4);
    assert_eq!(plan.candidate_gpu_layers, vec![4, 3, 2, 1, 0]);
    assert!(!plan.kqv_vram_reserved);
    assert_eq!(plan.kv_bytes_per_layer, 0);
    assert_eq!(plan.bytes_per_layer, 354);
}

#[test]
fn priority_puts_the_overflow_on_the_last_device() {
    let layout = plan_multi_gpu_distribution("priority", &[10, 10], 10, 4, 0, 10, None, None);
    assert_eq!(layout.per_device_layers, vec![2, 8]);
    assert_eq!(layout.n_gpu_layers, 10);
    assert_eq!(layout.main_gpu, Some(0));
}

#[test]
fn balanced_stops_when_every_device_is_full() {
    let layout = plan_multi_gpu_distribution("balanced", &[8, 20], 10, 4, 0, 10, None, None);
    assert_eq!(layout.per_device_layers, vec![2, 5]);
    assert_eq!(layout.n_gpu_layers, 7);
    assert_eq!(layout.split_weights, vec![2, 5]);
}

#[test]
fn balanced_keeps_devices_below_capacity_within_one_layer() {
    let layout = plan_multi_gpu_distribution("balanced", &[400, 400, 12], 30, 4, 0, 11, None, None);
    assert_eq!(layout.per_device_layers, vec![4, 4, 3]);
    assert_eq!(layout.n_gpu_layers, 11);
}

use ptg::bench::{
    aggregate_usage, check_tick_bounds, median, median_opt, mono_token_budget, run_id, run_nonce, run_order,
    selected_conditions, sum_opt, CallUsage, Condition,
};
use ptg::judge::{
    echo_screen_against_sources, exclusion_reason, levenshtein, majority_winner, mean_gap, normalize_verdict,
    scores_well_formed,
    run_is_analyzed, sources_for, sphere_remit, tally, verdict_json_text, verdicts_disagree, Verdict,
};
use ptg::setup::{
    build_server_command, command_line, confirmation_accepted, detect_server, download_url, plan_setup,
    resolve_endpoint, serve_target, BodyAction, DownloadControl, PtgConfig, ResponseAction,
};
use ptg::text::{bounded_claim_excerpt, extract_json_block, shell_quote};

fn config() -> PtgConfig {
    PtgConfig {
        server_path: Some("/x/llama-server".into()),
        gguf_path: "/y/model.gguf".into(),
        host: "127.0.0.1".into(),
        port: 18136,
        model_alias: "gemma-4-e2b-qat".into(),
    }
}

#[test]
fn server_command_has_required_flags() {
    let args = build_server_command("/x/llama-server", "/m/gguf", "127.0.0.1", 18136, "alias");
    let joined = args.join(" ");
    for required in [
        "-m /m/gguf",
        "--host 127.0.0.1",
        "--port 18136",
        "-c 4096",
        "-ngl 99",
        "-fa on",
        "--jinja",
        "--alias alias",
        "--reasoning off",
        "--reasoning-format none",
    ] {
        assert!(joined.contains(required), "server command missing `{required}`: got {joined}");
    }
}

#[test]
fn shell_quote_passes_simple_args() {
    assert_eq!(shell_quote("4096"), "4096");
    assert_eq!(shell_quote("/path/to gguf"), "'/path/to gguf'");
}

#[test]
fn shell_quote_escapes_single_quotes() {
    assert_eq!(shell_quote("it's"), "'it'\\''s'");
}

#[test]
fn server_url_joins_host_and_port() {
    assert_eq!(config().server_url(), "http://127.0.0.1:18136");
}

#[test]
fn detect_server_takes_first_runnable_non_empty() {
    let cands = vec!["".to_string(), "/a".to_string(), "/b".to_string(), "/c".to_string()];
    assert_eq!(detect_server(&cands, &vec![true, false, true, true]), Some("/b".to_string()));
    assert_eq!(detect_server(&cands, &vec![true, false, false, false]), None);
}

#[test]
fn dry_run_command_line_quotes_arguments() {
    let args = build_server_command("/x/llama-server", "/m/my model.gguf", "127.0.0.1", 80, "a");
    let line = command_line("/x/llama-server", &args);
    assert!(line.starts_with("/x/llama-server -m '/m/my model.gguf' --host 127.0.0.1 --port 80 "));
}

#[test]
fn endpoint_prefers_flag_then_config_then_fallback() {
    let cfg = Some(config());
    assert_eq!(
        resolve_endpoint(Some("http://h:1".into()), None, &cfg),
        ("http://h:1".to_string(), "gemma-4-e2b-qat".to_string())
    );
    assert_eq!(
        resolve_endpoint(None, None, &None),
        ("http://localhost:8000".to_string(), "solidrust/Gemma-4-2B-Multimodal-Q4_K_M".to_string())
    );
    assert_eq!(resolve_endpoint(None, Some("m".into()), &cfg).0, "http://127.0.0.1:18136");
}

#[test]
fn serve_overrides_config() {
    let cfg = config();
    assert_eq!(serve_target(&cfg, None, Some(9), None), ("127.0.0.1".to_string(), 9, "gemma-4-e2b-qat".to_string()));
}

#[test]
fn setup_plan_covers_dry_run_and_confirmation() {
    let p = plan_setup(false, false, false, false);
    assert!(p.need_download && p.ask_confirmation && p.download && p.write_config);
    let p = plan_setup(false, false, true, false);
    assert!(p.need_download && !p.ask_confirmation && !p.download && !p.write_config);
    let p = plan_setup(false, true, false, false);
    assert!(!p.need_download && !p.download && p.write_config);
    assert!(confirmation_accepted(" Y \n"));
    assert!(!confirmation_accepted("yes"));
}

#[test]
fn download_control_resumes_then_stalls() {
    assert_eq!(download_url("r/x", "f.gguf"), "https://huggingface.co/r/x/resolve/main/f.gguf");
    let mut c = DownloadControl::new(10);
    assert_eq!(c.begin_attempt(), "bytes=10-");
    assert_eq!(c.on_response(206), ResponseAction::Write { append: true, discard_partial: false });
    assert_eq!(c.on_body(true, Some(100), 50), BodyAction::Resume);
    assert_eq!(c.have_bytes, 50);
    assert_eq!(c.begin_attempt(), "bytes=50-");
    assert_eq!(c.on_response(200), ResponseAction::Write { append: false, discard_partial: true });
    assert_eq!(c.have_bytes, 0);
    assert_eq!(c.on_body(false, Some(100), 100), BodyAction::Complete);
    assert_eq!(c.on_response(403), ResponseAction::Gated);
    assert_eq!(c.on_response(500), ResponseAction::Failed);
    let mut d = DownloadControl::new(0);
    for _ in 0..4 {
        d.begin_attempt();
        assert_eq!(d.on_body(false, Some(10), 5), BodyAction::Resume);
    }
    d.begin_attempt();
    assert_eq!(d.on_body(false, Some(10), 5), BodyAction::Stalled { have: 5, expected_total: 10, attempts: 5 });
}

#[test]
fn bounded_claim_excerpt_short_text_unchanged() {
    assert_eq!(bounded_claim_excerpt("short answer", 180), "short answer");
}

#[test]
fn bounded_claim_excerpt_truncates_at_sentence_boundary() {
    let pred = "First sentence ends here. This is a very long continuation that \
               should not appear in the excerpt because we already hit a boundary.";
    let out = bounded_claim_excerpt(pred, 40);
    assert_eq!(out, "First sentence ends here.");
}

#[test]
fn bounded_claim_excerpt_truncates_at_word_boundary_with_ellipsis() {
    let pred = "alpha beta gamma delta epsilon zeta eta theta iota kappa";
    let out = bounded_claim_excerpt(pred, 30);
    assert!(out.ends_with('…'), "ends with ellipsis: {out}");
    assert!(!out.contains("kappa"), "does not reach the end: {out}");
    assert!(!out.is_empty());
}

#[test]
fn bounded_claim_excerpt_is_char_safe_on_multibyte() {
    let pred = "能量守恒定律指出 — energy is conserved — and cannot be created or \
               destroyed in an isolated system ever under any circumstances at all.";
    let out = bounded_claim_excerpt(pred, 20);
    assert!(out.chars().count() <= 22, "respect char budget: {out}");
    assert!(!out.is_empty());
}

#[test]
fn bounded_claim_excerpt_empty_input_yields_empty() {
    assert_eq!(bounded_claim_excerpt("   \t\n ", 180), "");
}

#[test]
fn bounded_claim_excerpt_word_cut_is_exact() {
    assert_eq!(bounded_claim_excerpt("alpha beta gamma delta epsilon zeta eta", 30), "alpha beta gamma delta …");
}

#[test]
fn extract_json_block_handles_nested() {
    let content = r#"noise {"a": {"b": 1}, "c": 2} tail"#;
    assert_eq!(extract_json_block(content), r#"{"a": {"b": 1}, "c": 2}"#);
}

#[test]
fn extract_json_block_falls_back_to_whole_text() {
    assert_eq!(extract_json_block("} no block {"), "} no block {");
}

#[test]
fn levenshtein_counts_edits_in_chars() {
    assert_eq!(levenshtein("kitten", "sitting"), 3);
    assert_eq!(levenshtein("", "abc"), 3);
    assert_eq!(levenshtein("é—x", "e—x"), 1);
    assert_eq!(levenshtein("same", "same"), 0);
}

#[test]
fn sources_follow_the_reference_wiring() {
    assert_eq!(sources_for("CC_MATH_01"), vec!["CC_PHYSICS_01", "CC_CODE_01"]);
    assert_eq!(sources_for("CC_CODE_01"), vec!["CC_PSYCH_01"]);
    assert!(sources_for("CC_PSYCH_01").is_empty());
    assert_eq!(sphere_remit("CC_CODE_01").0, "coding");
    assert_eq!(sphere_remit("CC_X"), ("unknown", "the assigned reference frame"));
}

#[test]
fn exclusion_reasons_have_priority() {
    assert_eq!(exclusion_reason(false, true, true), Some("determinism_failed"));
    assert_eq!(exclusion_reason(true, true, true), Some("tick2_truncated"));
    assert_eq!(exclusion_reason(true, false, true), Some("tick2_echoed_neighbor"));
    assert_eq!(exclusion_reason(true, false, false), None);
    assert!(run_is_analyzed("mesh_adaptive", true, false, Some(2), Some(2)));
    assert!(!run_is_analyzed("mesh_adaptive", true, false, Some(1), Some(2)));
    assert!(!run_is_analyzed("mono_x4", true, false, Some(2), Some(2)));
}

#[test]
fn echo_screen_finds_forty_char_windows() {
    let src = "0123456789abcdefghijklmnopqrstuvwxyzABCDEFG".to_string();
    let hit = format!("prefix {} suffix", &src[2..42]);
    assert!(echo_screen_against_sources(Some(&hit), &vec![src.clone()]));
    assert!(!echo_screen_against_sources(Some(&src[0..39]), &vec![src.clone()]));
    assert!(!echo_screen_against_sources(None, &vec![src.clone()]));
    assert!(!echo_screen_against_sources(Some(&hit), &vec!["short".to_string()]));
}

#[test]
fn verdict_text_strips_fences_and_filler() {
    assert_eq!(verdict_json_text("```json\n{\"winner\":\"A\"}\n```"), "{\"winner\":\"A\"}");
    assert_eq!(verdict_json_text("  sure: {\"a\":1} ok "), "{\"a\":1}");
    assert_eq!(verdict_json_text("no json"), "no json");
}

fn verdict(winner: &str, a: &[i64], b: &[i64]) -> Verdict {
    let names = ["factual_correctness", "reasoning_quality", "reference_frame_grounding", "concision_signal"];
    let side = |v: &[i64]| {
        let mut s = v.iter().zip(names.iter()).map(|(x, n)| (n.to_string(), *x)).collect::<Vec<_>>();
        s.sort();
        s
    };
    Verdict {
        winner: winner.to_string(),
        scores: vec![("A".to_string(), side(a)), ("B".to_string(), side(b))],
        rationale: String::new(),
    }
}

#[test]
fn verdicts_normalize_to_ticks() {
    let v = verdict("A", &[5, 4, 4, 3], &[3, 3, 3, 3]);
    assert_eq!(normalize_verdict(&v, 2), ("tick_2".to_string(), 4));
    assert_eq!(normalize_verdict(&v, 1), ("tick_1".to_string(), -4));
    let t = verdict("tie", &[1], &[1]);
    assert_eq!(normalize_verdict(&t, 1), ("tie".to_string(), 0));
}

#[test]
fn verdict_reduction_majority_gap_and_disagreement() {
    let v = vec![("tick_2".to_string(), 3), ("tick_1".to_string(), -2)];
    assert!(verdicts_disagree(&v));
    let agree = vec![("tick_2".to_string(), 3), ("tick_2".to_string(), 0)];
    assert!(!verdicts_disagree(&agree));
    let three = vec![("tick_2".to_string(), 3), ("tick_1".to_string(), -2), ("tick_2".to_string(), 2)];
    assert_eq!(majority_winner(&three), Some("tick_2".to_string()));
    assert_eq!(mean_gap(&three), Some(1));
    let split = vec![("tick_2".to_string(), -7), ("tick_1".to_string(), 0)];
    assert_eq!(majority_winner(&split), Some("tie".to_string()));
    assert_eq!(mean_gap(&split), Some(-3));
    assert_eq!(majority_winner(&vec![]), None);
    assert_eq!(mean_gap(&vec![]), None);
}

#[test]
fn tally_counts_in_key_order() {
    let keys = vec!["tick2_truncated".to_string(), "determinism_failed".to_string(), "tick2_truncated".to_string()];
    assert_eq!(tally(&keys), vec![("determinism_failed".to_string(), 1), ("tick2_truncated".to_string(), 2)]);
    assert!(tally(&vec![]).is_empty());
}

#[test]
fn conditions_and_run_order() {
    assert_eq!(Condition::SphereX4NoLateral.label(), "sphere_x4_no_lateral");
    let all = selected_conditions(None);
    assert_eq!(all, vec![Condition::MeshAdaptive, Condition::SphereX4NoLateral, Condition::MonoAllPrompts, Condition::MonoX4]);
    assert_eq!(selected_conditions(Some(Condition::MonoX4)), vec![Condition::MonoX4]);
    assert_eq!(
        run_order(&all, 1, 2),
        vec![Condition::MonoX4, Condition::MeshAdaptive, Condition::SphereX4NoLateral, Condition::MonoAllPrompts]
    );
    assert_eq!(run_order(&vec![], 3, 3), vec![]);
}

#[test]
fn nonce_and_run_id() {
    assert_eq!(run_nonce(20260623, 1, 2), 20260623 * 1_000_000 + 1000 + 2);
    assert_eq!(run_nonce(u64::MAX, 1, 2), u64::MAX);
    assert_eq!(run_id(Condition::MonoX4, "P1", 0, 7), "mono_x4_P1_0_7");
    assert_eq!(mono_token_budget(None, 1024, 2), 2048);
    assert_eq!(mono_token_budget(Some(5), 1024, 2), 5);
    assert_eq!(mono_token_budget(None, u32::MAX, 2), u32::MAX);
    assert!(check_tick_bounds(2, 2).is_ok());
    assert_eq!(check_tick_bounds(3, 2).err(), Some("--min-ticks (3) must be <= --max-ticks (2)".to_string()));
}

#[test]
fn sums_and_medians() {
    assert_eq!(sum_opt(&vec![Some(1), Some(2)]), Some(3));
    assert_eq!(sum_opt(&vec![Some(1), None]), None);
    assert_eq!(sum_opt(&vec![]), Some(0));
    assert_eq!(median(&vec![5, 1, 3, 2]), 3);
    assert_eq!(median(&vec![9]), 9);
    assert_eq!(median(&vec![]), 0);
    assert_eq!(median_opt(&vec![]), None);
    assert_eq!(median_opt(&vec![4, 4, 1]), Some(4));
}

#[test]
fn usage_rolls_up() {
    let call = |p: Option<u32>, c: Option<u32>, lat: u64, tr: bool| CallUsage {
        prompt_tokens: p,
        completion_tokens: Some(10),
        total_tokens: p.map(|x| x + 10),
        cached_tokens: c,
        latency_ms: lat,
        truncated: tr,
    };
    let u = aggregate_usage(&vec![call(Some(100), Some(40), 5, false), call(Some(50), Some(60), 7, true)]);
    assert_eq!(u.call_count, 2);
    assert_eq!(u.sum_call_latency_ms, 12);
    assert!(u.truncated);
    assert_eq!(u.prompt_tokens_gross, Some(150));
    assert_eq!(u.total_tokens_gross, Some(170));
    assert_eq!(u.cached_tokens_gross, Some(100));
    assert_eq!(u.prompt_tokens_cache_adjusted, Some(50));
    assert_eq!(u.total_tokens_cache_adjusted, Some(70));
    let v = aggregate_usage(&vec![call(None, Some(1), 1, false)]);
    assert_eq!(v.prompt_tokens_gross, None);
    assert_eq!(v.prompt_tokens_cache_adjusted, None);
}

#[test]
fn claim_excerpt_cuts_at_the_first_sentence_end() {
    assert_eq!(bounded_claim_excerpt("One. Two. Three four five six", 12), "One.");
    assert_eq!(bounded_claim_excerpt("A.B.CD", 4), "A.");
    assert_eq!(bounded_claim_excerpt("Wait! Really? Yes indeed", 15), "Wait!");
}

#[test]
fn score_tables_must_be_maps() {
    assert!(verdict("A", &[1, 2, 3, 4], &[4, 3, 2, 1]).scores.len() == 2);
    assert!(scores_well_formed(&verdict("A", &[1, 2, 3, 4], &[4, 3, 2, 1]).scores));
    let dup = vec![("A".to_string(), vec![]), ("A".to_string(), vec![])];
    assert!(!scores_well_formed(&dup));
    let unsorted = vec![("B".to_string(), vec![]), ("A".to_string(), vec![])];
    assert!(!scores_well_formed(&unsorted));
    let inner = vec![("A".to_string(), vec![("x".to_string(), 1), ("x".to_string(), 2)])];
    assert!(!scores_well_formed(&inner));
    assert!(scores_well_formed(&Vec::new()));
}

use ptg::bench::{bench_input, mono_prompt, perspective_label, MONO_INSTRUCTION};
use ptg::column::{PROMPT_CODING, PROMPT_MATHEMATICS, PROMPT_PHYSICS, PROMPT_PSYCHOLOGY};

#[test]
fn bench_input_places_the_nonce_before_the_task() {
    assert_eq!(
        bench_input(20260623000001, "Why?"),
        "BENCH_RUN_ID: 20260623000001; ignore this identifier.\n\nTASK:\nWhy?"
    );
    assert_eq!(bench_input(0, ""), "BENCH_RUN_ID: 0; ignore this identifier.\n\nTASK:\n");
}

#[test]
fn mono_prompt_holds_all_four_spheres_then_the_task() {
    let p = mono_prompt("TASK X");
    let expected = format!(
        "{PROMPT_PHYSICS}\n\n{PROMPT_MATHEMATICS}\n\n{PROMPT_CODING}\n\n{PROMPT_PSYCHOLOGY}\n\nTASK X\n\n{MONO_INSTRUCTION}"
    );
    assert_eq!(p, expected);
    assert!(p.ends_with("giving that perspective's analysis."));
    assert!(p.contains("{\"reference_frame_coordinates\": ..., \"prediction\": ..., \"confidence\": 0.0}"));
}

#[test]
fn perspective_label_follows_the_first_sphere_field() {
    let keys = |ks: &[&str]| ks.iter().map(|k| k.to_string()).collect::<Vec<String>>();
    assert_eq!(perspective_label(&keys(&["isolated_variables", "empirical_observation"])), "empirical");
    assert_eq!(perspective_label(&keys(&["deductive_synthesis"])), "mathematics");
    assert_eq!(perspective_label(&keys(&["algorithmic_analysis", "behavioral_synthesis"])), "coding");
    assert_eq!(perspective_label(&keys(&["behavioral_synthesis"])), "psychology");
    assert_eq!(perspective_label(&keys(&["deductive_synthesis", "empirical_observation"])), "empirical");
    assert_eq!(perspective_label(&keys(&[])), "unknown");
}

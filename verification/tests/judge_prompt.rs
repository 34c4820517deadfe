use ptg::judge::{judge_prompt, sphere_remit};

fn reference_prompt(column_id: &str, a: &str, b: &str) -> String {
    let (sphere, remit) = sphere_remit(column_id);
    format!(
        "You are an independent benchmark judge evaluating two BLINDED drafts of the same \
reference-frame analysis. The labels \"Answer A\" and \"Answer B\" are arbitrary; do not infer \
which is which or anything from order. These are two drafts of an analysis for the SAME task.\n\n\
Reference frame being judged:\n- column: {column_id}\n- frame: {sphere}\n- remit: {remit}\n\n\
Each draft is a JSON object with reference_frame_coordinates, prediction, confidence, and \
sphere-specific domain fields.\n\n\
Judging rules (STRICT):\n\
- Do NOT reward verbosity, length, repetition, formatting, or JSON labels.\n\
- Do NOT reward an answer for having more words or more fields.\n\
- A concise answer can beat a longer one. Prefer high-signal analytical content.\n\
- Penalize hallucinated facts, unsupported causal claims, contradictions of the task, and filler.\n\
- Judge ONLY the content shown; do not speculate about which draft had extra context.\n\n\
Score each answer 1-5 on these FOUR dimensions (only):\n\
1. factual_correctness: 1 = contradicts/invents important facts; 5 = preserves stated facts/numbers, no unsupported claims.\n\
2. reasoning_quality: 1 = incoherent, restatement-only, or causally invalid; 5 = clear plausible causal/logical chain.\n\
3. reference_frame_grounding: 1 = generic prose outside the assigned frame; 5 = strongly grounded in the {sphere} frame.\n\
4. concision_signal: 1 = verbose filler; 5 = concise, high-signal, no unnecessary verbosity.\n\n\
Answer A:\n{a}\n\nAnswer B:\n{b}\n\n\
Return ONLY a valid JSON object with exactly this shape:\n\
{{\"winner\":\"A\"|\"B\"|\"tie\",\"scores\":{{\"A\":{{\"factual_correctness\":N,\"reasoning_quality\":N,\"reference_frame_grounding\":N,\"concision_signal\":N}},\"B\":{{...same...}}}},\"rationale\":\"1-3 sentences\"}}"
    )
}

#[test]
fn judge_prompt_frames_each_receiver() {
    for id in ["CC_PHYSICS_01", "CC_MATH_01", "CC_CODE_01", "CC_OTHER"] {
        let a = "{\n  \"prediction\": \"x\"\n}";
        let b = "{\n  \"prediction\": \"y\"\n}";
        assert_eq!(judge_prompt(id, a, b), reference_prompt(id, a, b));
    }
}

#[test]
fn judge_prompt_names_the_frame_twice() {
    let p = judge_prompt("CC_MATH_01", "A", "B");
    assert!(p.contains("- frame: mathematics\n"));
    assert!(p.contains("strongly grounded in the mathematics frame."));
    assert!(p.contains("Answer A:\nA\n\nAnswer B:\nB\n\n"));
    assert!(p.ends_with("\"rationale\":\"1-3 sentences\"}"));
}

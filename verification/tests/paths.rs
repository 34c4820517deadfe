use ptg::setup::{config_path_parts, gguf_dir_parts, home_base, server_candidate_parts};

fn s(x: &str) -> String {
    x.to_string()
}

#[test]
fn server_candidates_includes_explicit_first() {
    let cands = server_candidate_parts(Some(s("/custom/llama-server")), None, None, s("/home/u"), false);
    assert_eq!(cands.first(), Some(&vec![s("/custom/llama-server")]));
}

#[test]
fn server_candidates_includes_env_vars_when_set() {
    let cands = server_candidate_parts(None, Some(s("/env/ptg/llama-server")), None, s("/home/u"), false);
    assert!(cands.iter().any(|p| p == &vec![s("/env/ptg/llama-server")]));
}

#[test]
fn server_candidates_in_resolution_order() {
    let cands = server_candidate_parts(Some(s("/x")), Some(s("")), Some(s("/l")), s("/h"), true);
    assert_eq!(
        cands,
        vec![
            vec![s("/x")],
            vec![s("/l")],
            vec![s("/h"), s(".cache"), s("ptg"), s("bin"), s("llama-server.exe")],
            vec![s("/h"), s("llama-spike"), s("llama.cpp"), s("build"), s("bin"), s("llama-server.exe")],
        ]
    );
}

#[test]
fn config_path_respects_ptg_config_env() {
    let parts = config_path_parts(Some(s("/tmp/ptg-test-config.toml")), None, Some(s("/xdg")), s("/h"), false);
    assert_eq!(parts, vec![s("/tmp/ptg-test-config.toml")]);
}

#[test]
fn config_path_falls_back_in_order() {
    assert_eq!(
        config_path_parts(Some(s("")), Some(s("C:/AppData")), Some(s("/xdg")), s("/h"), true),
        vec![s("C:/AppData"), s("ptg"), s("config.toml")]
    );
    assert_eq!(
        config_path_parts(None, Some(s("C:/AppData")), Some(s("/xdg")), s("/h"), false),
        vec![s("/xdg"), s("ptg"), s("config.toml")]
    );
    assert_eq!(config_path_parts(None, None, None, s("/h"), false), vec![s("/h"), s(".config"), s("ptg"), s("config.toml")]);
}

#[test]
fn default_gguf_dir_is_under_ptg() {
    let d = gguf_dir_parts(None, None, s("/h"), false).join("/");
    assert!(d.contains("ptg"), "gguf dir should be under ptg: {d}");
    assert!(d.contains("gguf"), "gguf dir should end in gguf: {d}");
    assert_eq!(gguf_dir_parts(Some(s("L")), Some(s("X")), s("/h"), true), vec![s("L"), s("ptg"), s("gguf")]);
    assert_eq!(gguf_dir_parts(Some(s("L")), Some(s("X")), s("/h"), false), vec![s("X"), s("ptg"), s("gguf")]);
}

#[test]
fn home_prefers_home_then_userprofile() {
    assert_eq!(home_base(Some(s("/h")), Some(s("U")), true), "/h");
    assert_eq!(home_base(Some(s("")), Some(s("U")), true), "U");
    assert_eq!(home_base(None, Some(s("U")), false), "");
}

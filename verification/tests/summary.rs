use ptg::bench::{group_stats, summary_flags, tick_buckets, RunFigures};

fn fig(condition: &str, parse_ok: bool, wall: u64, ticks: Option<u32>) -> RunFigures {
    RunFigures {
        condition: condition.to_string(),
        parse_ok,
        wall_latency_ms: wall,
        sum_call_latency_ms: wall * 2,
        total_tokens_gross: Some(wall * 10),
        total_tokens_cache_adjusted: None,
        call_count: 4,
        truncated: false,
        ticks_run: ticks,
        stabilized: Some(ticks == Some(1)),
    }
}

#[test]
fn group_stats_of_a_condition() {
    let rs = vec![
        fig("mesh_adaptive", true, 30, Some(2)),
        fig("mesh_adaptive", false, 10, Some(1)),
        fig("mono_x4", true, 99, None),
        fig("mesh_adaptive", true, 20, Some(2)),
    ];
    let g = group_stats(&rs, "mesh_adaptive", None);
    assert_eq!((g.n, g.parse_ok, g.wall_median, g.wall_min, g.wall_max), (3, 2, 20, 10, 30));
    assert_eq!((g.sum_call_median, g.gross_median, g.cache_adjusted_median), (40, Some(200), None));
    assert_eq!((g.ticks_min, g.ticks_max, g.stabilized), (1, 2, 1));
    let two = group_stats(&rs, "mesh_adaptive", Some(2));
    assert_eq!((two.n, two.wall_median), (2, 30));
    assert_eq!(tick_buckets(&rs, "mesh_adaptive"), vec![1, 2]);
    assert!(tick_buckets(&rs, "mono_x4").is_empty());
}

#[test]
fn summary_flags_report_unmeasured_mechanism_and_parse_failures() {
    let rs = vec![fig("mesh_adaptive", true, 1, Some(1)), fig("mono_x4", false, 1, None)];
    assert_eq!(summary_flags(&rs), (true, 1));
    let rs = vec![fig("mesh_adaptive", true, 1, Some(2)), fig("mesh_adaptive", true, 1, Some(1))];
    assert_eq!(summary_flags(&rs), (false, 0));
    assert_eq!(summary_flags(&Vec::new()), (false, 0));
}

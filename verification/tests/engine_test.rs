use idc_runtime::tokenizer::tokenize_lines;
use idc_runtime::ast::build_ast;
use idc_runtime::engine::Runtime;
use idc_runtime::logger::{LogLevel, Logger};

fn program(src: &[&str]) -> Vec<idc_runtime::ast::AstNode> {
    let lines: Vec<String> = src.iter().map(|s| s.to_string()).collect();
    let tokens = tokenize_lines(&lines);
    build_ast(&tokens).unwrap()
}

#[test]
fn test_end_to_end_start_event_prints_zero() {
    let ast = program(&["on start", "  remember x", "  respond {{x}}"]);
    let mut rt = Runtime::new(false);
    rt.load_script(ast);
    rt.run();
    assert_eq!(rt.outputs.len(), 1);
    assert_eq!(rt.outputs[0].as_str(), "0");
}

#[test]
fn test_start_fires_before_queue_drains() {
    let ast = program(&["respond late", "on start", "  respond early"]);
    let mut rt = Runtime::new(false);
    rt.load_script(ast);
    rt.run();
    assert_eq!(rt.outputs.len(), 2);
    assert_eq!(rt.outputs[0].as_str(), "early");
    assert_eq!(rt.outputs[1].as_str(), "late");
}

#[test]
fn test_self_triggering_handler_runs_once() {
    let ast = program(&["on loop", "  respond once", "  trigger loop"]);
    let mut rt = Runtime::new(false);
    rt.load_script(ast);
    rt.trigger_event("loop");
    let count = rt.outputs.iter().filter(|o| o.as_str() == "once").count();
    assert_eq!(count, 1);
    // the re-entrant call is skipped with a logged warning
    let warned = rt
        .logger
        .recorded
        .iter()
        .any(|(lv, m)| *lv == LogLevel::Warn && m.contains("recursive"));
    assert!(warned);
}

#[test]
fn test_periodic_block_fires_on_multiples() {
    let ast = program(&["every 3", "  respond fire", "on tick", "  respond tock"]);
    let mut rt = Runtime::new(false);
    rt.load_script(ast);
    let mut fire_ticks: Vec<u32> = Vec::new();
    for t in 1..=9u32 {
        let before = rt.outputs.iter().filter(|o| o.as_str() == "fire").count();
        rt.tick();
        let after = rt.outputs.iter().filter(|o| o.as_str() == "fire").count();
        if after > before {
            fire_ticks.push(t);
        }
    }
    assert_eq!(fire_ticks, vec![3, 6, 9]);
    // the generic handler fires at every tick regardless of intervals
    let tocks = rt.outputs.iter().filter(|o| o.as_str() == "tock").count();
    assert_eq!(tocks, 9);
}

#[test]
fn test_if_and_unless_gate_children() {
    let ast = program(&[
        "if (1 < 2)",
        "  respond yes",
        "if (2 < 1)",
        "  respond no",
        "unless (2 < 1)",
        "  respond also",
    ]);
    let mut rt = Runtime::new(false);
    rt.load_script(ast);
    rt.run();
    let outs: Vec<&str> = rt.outputs.iter().map(|s| s.as_str()).collect();
    assert_eq!(outs, vec!["yes", "also"]);
}

#[test]
fn test_stop_halts_remaining_siblings() {
    let ast = program(&[
        "on start",
        "  respond first",
        "  stop",
        "  respond second",
    ]);
    let mut rt = Runtime::new(false);
    rt.load_script(ast);
    rt.run();
    let outs: Vec<&str> = rt.outputs.iter().map(|s| s.as_str()).collect();
    assert_eq!(outs, vec!["first"]);
}

#[test]
fn test_remember_and_event_scope_promotion() {
    // promote_on_tick defaults to on for the engine but off for the store;
    // the start handler promotes its scope explicitly
    let ast = program(&["on start", "  remember x", "  respond before"]);
    let mut rt = Runtime::new(false);
    rt.load_script(ast);
    rt.run();
    assert_eq!(rt.memory.get("x"), Some("0".to_string()));
}

#[test]
fn test_set_promote_always_at_load() {
    let ast = program(&["set promote_always false"]);
    let mut rt = Runtime::new(false);
    assert!(rt.promote_on_tick);
    rt.load_script(ast);
    assert!(!rt.promote_on_tick);
}

#[test]
fn test_invalid_every_interval_is_dropped() {
    let ast = program(&["every abc", "  respond never", "every 0", "  respond nor"]);
    let mut rt = Runtime::new(false);
    rt.load_script(ast);
    for _ in 0..4 {
        rt.tick();
    }
    let fired = rt.outputs.iter().any(|o| o.as_str() == "never" || o.as_str() == "nor");
    assert!(!fired);
}

#[test]
fn test_load_writes_resolved_value() {
    let ast = program(&["on start", "  load 2+3 as sum to global"]);
    let mut rt = Runtime::new(false);
    rt.load_script(ast);
    rt.run();
    assert_eq!(rt.memory.get("sum"), Some("5".to_string()));
}

#[test]
fn test_unknown_event_without_missing_handler_is_ignored() {
    let ast = program(&["on start", "  respond ok"]);
    let mut rt = Runtime::new(false);
    rt.load_script(ast);
    rt.trigger_event("ghost");
    assert_eq!(rt.outputs.len(), 0);
}

#[test]
fn test_missing_handler_runs_for_unknown_events() {
    let ast = program(&["on missing", "  respond handled"]);
    let mut rt = Runtime::new(false);
    rt.load_script(ast);
    rt.trigger_event("ghost");
    let outs: Vec<&str> = rt.outputs.iter().map(|s| s.as_str()).collect();
    assert_eq!(outs, vec!["handled"]);
    // the handler ran under its own scope with the unresolved name recorded
    let fell_back = rt
        .logger
        .recorded
        .iter()
        .any(|(lv, m)| *lv == LogLevel::Warn && m.contains("missing"));
    assert!(fell_back);
}

#[test]
fn test_respond_event_evaluates_expression() {
    let ast = program(&["on start", "  respond_event (6*7)"]);
    let mut rt = Runtime::new(false);
    rt.load_script(ast);
    rt.run();
    let outs: Vec<&str> = rt.outputs.iter().map(|s| s.as_str()).collect();
    assert_eq!(outs, vec!["42"]);
}

#[test]
fn test_transparent_grouping_runs_children() {
    let ast = program(&["bundle things", "  respond inner"]);
    let mut rt = Runtime::new(false);
    rt.load_script(ast);
    rt.run();
    let outs: Vec<&str> = rt.outputs.iter().map(|s| s.as_str()).collect();
    assert_eq!(outs, vec!["inner"]);
}

#[test]
fn test_tick_marker_recorded() {
    let ast = program(&["set promote_always true"]);
    let mut rt = Runtime::new(false);
    rt.load_script(ast);
    rt.tick();
    rt.tick();
    let outs: Vec<&str> = rt.outputs.iter().map(|s| s.as_str()).collect();
    assert_eq!(outs, vec!["[TICK 1]", "[TICK 2]"]);
    assert_eq!(rt.tick_counter, 2);
}

#[test]
fn test_wait_records_a_marker() {
    let ast = program(&["on start", "  respond before", "  wait 1", "  respond after"]);
    let mut rt = Runtime::new(false);
    rt.load_script(ast);
    rt.run();
    let outs: Vec<&str> = rt.outputs.iter().map(|s| s.as_str()).collect();
    assert_eq!(outs, vec!["before", "[WAIT]", "after"]);
}

#[test]
fn test_leading_plus_interval_is_accepted() {
    let ast = program(&["every +2", "  respond beat"]);
    let mut rt = Runtime::new(false);
    rt.load_script(ast);
    rt.tick();
    rt.tick();
    let beats = rt.outputs.iter().filter(|o| o.as_str() == "beat").count();
    assert_eq!(beats, 1);
}

#[test]
fn test_reflect_emits_deterministic_views() {
    let ast = program(&[
        "on start",
        "  reflect stack",
        "  reflect flags",
        "on other",
        "  respond x",
    ]);
    let mut rt = Runtime::new(false);
    rt.load_script(ast);
    rt.run();
    let outs: Vec<&str> = rt.outputs.iter().map(|s| s.as_str()).collect();
    assert_eq!(outs[0], "[REFLECT stack] start");
    assert_eq!(
        outs[1],
        "[REFLECT flags] promote_on_tick: true scope chain: [global > event:start]"
    );
}

#[test]
fn test_filtered_trace_selects_newest_first() {
    let mut log = Logger::new();
    log.trace("[PROMOTE] one");
    log.trace("plain line");
    log.trace("[PROMOTE] two");
    let all = log.reflect_trace_filtered(None, None);
    assert_eq!(all.len(), 3);
    assert_eq!(all[0].as_str(), "[PROMOTE] two");
    let picked = log.reflect_trace_filtered(Some("[PROMOTE]"), Some(1));
    assert_eq!(picked.len(), 1);
    assert_eq!(picked[0].as_str(), "[PROMOTE] two");
}

#[test]
fn test_promote_memory_if_condition() {
    let mut rt = Runtime::new(false);
    rt.memory.enter_scope("work");
    rt.memory.set("x", "5");
    rt.promote_memory_if("(1 == 2)");
    assert_eq!(rt.memory.flatten_map().get("x").map(|s| s.clone()), Some("5".to_string()));
    rt.memory.set_promote_on_tick(false);
    rt.memory.exit_scope();
    assert_eq!(rt.memory.get("x"), None);
    rt.memory.enter_scope("work2");
    rt.memory.set("y", "6");
    rt.promote_memory_if("(2 == 2)");
    rt.memory.exit_scope();
    assert_eq!(rt.memory.get("y"), Some("6".to_string()));
}

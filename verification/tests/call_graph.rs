use aura_decomp::call_graph::build_interactive_graph;

fn f(addr: u64, name: &str) -> (u64, String, usize, bool) {
    (addr, name.to_string(), 8, true)
}

fn jal(from: u64, to: u64) -> (u64, u64, u64, String) {
    (from, to, from + 4, "jal".to_string())
}

#[test]
fn self_recursive_entry_has_depth_zero() {
    let g = build_interactive_graph(&[f(0x1000, "main")], &[jal(0x1000, 0x1000)], 0x1000, &[]);
    assert_eq!(g.statistics.max_call_depth, 0);
}

#[test]
fn call_depth_is_the_breadth_first_distance() {
    // main -> a, main -> b, a -> b, b -> c: c is two calls from main.
    let funcs = [f(0x1000, "main"), f(0x2000, "a"), f(0x3000, "b"), f(0x4000, "c")];
    let edges = [jal(0x1000, 0x2000), jal(0x1000, 0x3000), jal(0x2000, 0x3000), jal(0x3000, 0x4000)];
    let g = build_interactive_graph(&funcs, &edges, 0x1000, &[]);
    assert_eq!(g.statistics.max_call_depth, 2);
}

#[test]
fn call_chain_depth_counts_calls() {
    let funcs = [f(0x1000, "main"), f(0x2000, "a"), f(0x3000, "b")];
    let edges = [jal(0x1000, 0x2000), jal(0x2000, 0x3000), jal(0x3000, 0x1000)];
    let g = build_interactive_graph(&funcs, &edges, 0x1000, &[]);
    assert_eq!(g.statistics.max_call_depth, 2);
}

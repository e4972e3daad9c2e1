//! Call-graph nodes for a list of detected PS1 functions: one node per
//! function, with room for caller and callee counts.
use vstd::prelude::*;

verus! {

/// A node of the call graph.
#[derive(Debug)]
pub struct EnhancedCallGraphNode {
    pub address: u32,
    pub name: Option<String>,
    pub size: usize,
    /// Number of incoming calls.
    pub caller_count: usize,
    /// Number of outgoing calls.
    pub callee_count: usize,
}

/// The nodes, their number and the hot paths found.
#[derive(Debug)]
pub struct EnhancedCallGraphResult {
    pub nodes: Vec<EnhancedCallGraphNode>,
    pub total_functions: usize,
    pub hot_paths: Vec<String>,
}

pub open spec fn name_view(o: Option<String>) -> Option<Seq<char>> {
    match o {
        Some(s) => Some(s@),
        None => None,
    }
}

/// A node as plain values: address, name, size, callers, callees.
pub open spec fn enhanced_node_view(n: EnhancedCallGraphNode) -> (u32, Option<Seq<char>>, usize, usize, usize) {
    (n.address, name_view(n.name), n.size, n.caller_count, n.callee_count)
}

fn clone_name(o: &Option<String>) -> (r: Option<String>)
    ensures
        name_view(r) == name_view(*o),
{
    match o {
        Some(s) => Some(s.clone()),
        None => None,
    }
}

/// One node per function `(address, name)`, in order, with size and counts
/// 0; no hot paths yet.
pub fn analyze_call_graph(functions: &[(u32, Option<String>)]) -> (r: EnhancedCallGraphResult)
    ensures
        r.nodes@.map_values(|n: EnhancedCallGraphNode| enhanced_node_view(n)) == functions@.map_values(
            |f: (u32, Option<String>)| (f.0, name_view(f.1), 0usize, 0usize, 0usize),
        ),
        r.total_functions == functions@.len(),
        r.hot_paths@.len() == 0,
{
    let mut nodes: Vec<EnhancedCallGraphNode> = Vec::new();
    let mut k: usize = 0;
    while k < functions.len()
        invariant
            k <= functions@.len(),
            nodes@.map_values(|n: EnhancedCallGraphNode| enhanced_node_view(n)) == functions@.take(k as int).map_values(
                |f: (u32, Option<String>)| (f.0, name_view(f.1), 0usize, 0usize, 0usize),
            ),
        decreases functions@.len() - k,
    {
        let node = EnhancedCallGraphNode {
            address: functions[k].0,
            name: clone_name(&functions[k].1),
            size: 0,
            caller_count: 0,
            callee_count: 0,
        };
        let ghost before = nodes@.map_values(|n: EnhancedCallGraphNode| enhanced_node_view(n));
        nodes.push(node);
        assert(nodes@.map_values(|n: EnhancedCallGraphNode| enhanced_node_view(n)) =~= functions@.take(k + 1).map_values(
            |f: (u32, Option<String>)| (f.0, name_view(f.1), 0usize, 0usize, 0usize),
        )) by {
            assert(nodes@.map_values(|n: EnhancedCallGraphNode| enhanced_node_view(n)) =~= before.push(enhanced_node_view(node)));
        }
        k = k + 1;
    }
    assert(functions@.take(k as int) =~= functions@);
    let total = nodes.len();
    EnhancedCallGraphResult { nodes, total_functions: total, hot_paths: Vec::new() }
}

/// The call graph of `functions`, as `analyze_call_graph` builds it; never fails.
pub fn get_enhanced_call_graph(functions: Vec<(u32, Option<String>)>) -> (r: Result<EnhancedCallGraphResult, String>)
    ensures
        r matches Ok(g) && g.nodes@.map_values(|n: EnhancedCallGraphNode| enhanced_node_view(n)) == functions@.map_values(
            |f: (u32, Option<String>)| (f.0, name_view(f.1), 0usize, 0usize, 0usize),
        ) && g.total_functions == functions@.len() && g.hot_paths@.len() == 0,
{
    Ok(analyze_call_graph(functions.as_slice()))
}

} // verus!

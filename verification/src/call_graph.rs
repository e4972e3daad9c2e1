//! The interactive call graph: one node per function plus one per call
//! target that starts no function, one edge per call, per-node call counts,
//! and statistics (named and external counts, SDK libraries, the busiest
//! functions and the call depth reached from the entry point).
use vstd::prelude::*;
use crate::text::{hex_fixed, hex_min, owned, push_char, push_hex_fixed, push_hex_min64, push_str};

verus! {

#[derive(Debug, Clone)]
pub struct GraphNode {
    pub id: String,
    pub address: u64,
    pub name: String,
    pub size: usize,
    pub is_named: bool,
    pub library: Option<String>,
    pub call_count: usize,
    pub called_by_count: usize,
    pub is_entry: bool,
    pub is_external: bool,
}

#[derive(Debug, Clone)]
pub struct GraphEdge {
    pub source: String,
    pub target: String,
    pub callsite: u64,
    pub kind: String,
}

#[derive(Debug, Clone)]
pub struct HubFunction {
    pub name: String,
    pub address: u64,
    pub call_count: usize,
    pub called_by_count: usize,
    pub score: usize,
}

#[derive(Debug, Clone)]
pub struct GraphStatistics {
    pub total_functions: usize,
    pub named_functions: usize,
    pub external_functions: usize,
    pub total_edges: usize,
    pub max_call_depth: usize,
    pub libraries: Vec<String>,
    pub hub_functions: Vec<HubFunction>,
}

#[derive(Debug, Clone)]
pub struct InteractiveCallGraph {
    pub nodes: Vec<GraphNode>,
    pub edges: Vec<GraphEdge>,
    pub statistics: GraphStatistics,
}

// ---------------------------------------------------------------------------
// Node identifiers and per-address facts
// ---------------------------------------------------------------------------

/// `0x` and the address in uppercase hex, at least eight digits (`0x{:08X}`).
pub open spec fn id_text(a: u64) -> Seq<char> {
    "0x"@ + if a <= u32::MAX { hex_fixed(a as nat, 8) } else { hex_min(a as nat) }
}

fn id_of(a: u64) -> (s: String)
    ensures
        s@ == id_text(a),
{
    let mut s = owned("0x");
    if a <= 0xFFFF_FFFF {
        push_hex_fixed(&mut s, a as u32, 8);
    } else {
        push_hex_min64(&mut s, a);
    }
    s
}

/// `ext_0x{:08X}`.
pub open spec fn ext_name(a: u64) -> Seq<char> {
    "ext_"@ + id_text(a)
}

/// How many edges among the first `n` leave `a`.
pub open spec fn calls_from(edges: Seq<(u64, u64, u64, String)>, a: u64, n: int) -> nat
    decreases n,
{
    if n <= 0 {
        0
    } else {
        calls_from(edges, a, n - 1) + if edges[n - 1].0 == a { 1nat } else { 0nat }
    }
}

/// How many edges among the first `n` enter `a`.
pub open spec fn calls_to(edges: Seq<(u64, u64, u64, String)>, a: u64, n: int) -> nat
    decreases n,
{
    if n <= 0 {
        0
    } else {
        calls_to(edges, a, n - 1) + if edges[n - 1].1 == a { 1nat } else { 0nat }
    }
}

/// The library the last SDK match for `name` among the first `n` records.
pub open spec fn lib_of(sdk: Seq<(String, String)>, name: Seq<char>, n: int) -> Option<Seq<char>>
    decreases n,
{
    if n <= 0 {
        None
    } else if sdk[n - 1].0@ == name {
        Some(sdk[n - 1].1@)
    } else {
        lib_of(sdk, name, n - 1)
    }
}

/// Some function starts at `a`.
pub open spec fn is_function(functions: Seq<(u64, String, usize, bool)>, a: u64) -> bool {
    exists|i: int| 0 <= i < functions.len() && #[trigger] functions[i].0 == a
}

/// A call target that starts no function.
pub open spec fn is_external_target(functions: Seq<(u64, String, usize, bool)>, edges: Seq<(u64, u64, u64, String)>, a: u64) -> bool {
    (exists|i: int| 0 <= i < edges.len() && #[trigger] edges[i].1 == a) && !is_function(functions, a)
}

/// A node as plain values: id, address, name, size, named, library, calls
/// made, calls received, entry, external.
pub type NodeView = (Seq<char>, u64, Seq<char>, usize, bool, Option<Seq<char>>, nat, nat, bool, bool);

pub open spec fn opt_view(o: Option<String>) -> Option<Seq<char>> {
    match o {
        Some(s) => Some(s@),
        None => None,
    }
}

pub open spec fn node_view(n: GraphNode) -> NodeView {
    (n.id@, n.address, n.name@, n.size, n.is_named, opt_view(n.library), n.call_count as nat, n.called_by_count as nat,
        n.is_entry, n.is_external)
}

/// The node of function `f`.
pub open spec fn function_node(
    f: (u64, String, usize, bool),
    edges: Seq<(u64, u64, u64, String)>,
    entry: u64,
    sdk: Seq<(String, String)>,
) -> NodeView {
    (id_text(f.0), f.0, f.1@, f.2, f.3, lib_of(sdk, f.1@, sdk.len() as int), calls_from(edges, f.0, edges.len() as int),
        calls_to(edges, f.0, edges.len() as int), f.0 == entry, false)
}

/// The node of an external call target `a`.
pub open spec fn external_node(a: u64, edges: Seq<(u64, u64, u64, String)>) -> NodeView {
    (id_text(a), a, ext_name(a), 0, false, None, calls_from(edges, a, edges.len() as int), calls_to(
        edges,
        a,
        edges.len() as int,
    ), false, true)
}

/// An edge as plain values: source id, target id, call site, kind.
pub type EdgeView = (Seq<char>, Seq<char>, u64, Seq<char>);

pub open spec fn edge_view(e: GraphEdge) -> EdgeView {
    (e.source@, e.target@, e.callsite, e.kind@)
}

/// The edge for call `e`.
pub open spec fn call_edge(e: (u64, u64, u64, String)) -> EdgeView {
    (id_text(e.0), id_text(e.1), e.2, e.3@)
}

// ---------------------------------------------------------------------------
// Sorted lists
// ---------------------------------------------------------------------------

/// Strictly increasing addresses.
pub open spec fn increasing(s: Seq<u64>) -> bool {
    forall|i: int, j: int| 0 <= i < j < s.len() ==> s[i] < s[j]
}

/// Lexicographic order of character sequences (by code point, as `String`s order).
pub open spec fn lex_lt(a: Seq<char>, b: Seq<char>) -> bool
    decreases a.len(),
{
    if a.len() == 0 {
        b.len() > 0
    } else if b.len() == 0 {
        false
    } else if a[0] != b[0] {
        (a[0] as int) < (b[0] as int)
    } else {
        lex_lt(a.drop_first(), b.drop_first())
    }
}

/// Strictly increasing strings.
pub open spec fn lex_increasing(s: Seq<Seq<char>>) -> bool {
    forall|i: int, j: int| 0 <= i < j < s.len() ==> lex_lt(s[i], s[j])
}

proof fn lemma_lex_trans(a: Seq<char>, b: Seq<char>, c: Seq<char>)
    requires
        lex_lt(a, b),
        lex_lt(b, c),
    ensures
        lex_lt(a, c),
    decreases a.len(),
{
    if a.len() > 0 && b.len() > 0 && c.len() > 0 && a[0] == b[0] && b[0] == c[0] {
        lemma_lex_trans(a.drop_first(), b.drop_first(), c.drop_first());
    }
}

proof fn lemma_lex_total(a: Seq<char>, b: Seq<char>)
    ensures
        lex_lt(a, b) || lex_lt(b, a) || a == b,
    decreases a.len(),
{
    if a.len() > 0 && b.len() > 0 && a[0] == b[0] {
        lemma_lex_total(a.drop_first(), b.drop_first());
        if a.drop_first() == b.drop_first() {
            assert(a =~= seq![a[0]] + a.drop_first());
            assert(b =~= seq![b[0]] + b.drop_first());
        }
    } else if a.len() == 0 && b.len() == 0 {
        assert(a =~= b);
    } else if a.len() > 0 && b.len() > 0 {
        assert(a[0] != b[0]);
        assert((a[0] as int) != (b[0] as int));
    }
}

proof fn lemma_lex_irrefl(a: Seq<char>)
    ensures
        !lex_lt(a, a),
    decreases a.len(),
{
    if a.len() > 0 {
        lemma_lex_irrefl(a.drop_first());
    }
}

/// The characters of `s`.
fn chars_of(s: &String) -> (v: Vec<char>)
    ensures
        v@ == s@,
{
    let mut v: Vec<char> = Vec::new();
    for c in it: s.as_str().chars()
        invariant
            it.seq() == s@,
            v@ == s@.take(it.index()),
    {
        v.push(c);
        assert(v@ =~= s@.take(it.index() + 1));
    }
    assert(v@ =~= s@);
    v
}

fn str_lt(a: &String, b: &String) -> (r: bool)
    ensures
        r == lex_lt(a@, b@),
{
    let x = chars_of(a);
    let y = chars_of(b);
    assert(x@.skip(0) =~= x@);
    assert(y@.skip(0) =~= y@);
    assert(x@.take(0) =~= y@.take(0));
    let mut i: usize = 0;
    while i < x.len() && i < y.len() && x[i] == y[i]
        invariant
            i <= x@.len(),
            i <= y@.len(),
            x@.take(i as int) == y@.take(i as int),
            lex_lt(a@, b@) == lex_lt(x@.skip(i as int), y@.skip(i as int)),
            x@ == a@,
            y@ == b@,
        decreases x@.len() - i,
    {
        assert(x@.skip(i as int).drop_first() =~= x@.skip(i + 1));
        assert(y@.skip(i as int).drop_first() =~= y@.skip(i + 1));
        assert(x@.take(i + 1) =~= x@.take(i as int).push(x@[i as int]));
        assert(y@.take(i + 1) =~= y@.take(i as int).push(y@[i as int]));
        i = i + 1;
    }
    if i == x.len() {
        i < y.len()
    } else if i == y.len() {
        false
    } else {
        x[i] < y[i]
    }
}

// ---------------------------------------------------------------------------
// Building the graph
// ---------------------------------------------------------------------------

/// Insert `a` into a strictly increasing list (no change when present).
fn insert_sorted(v: &mut Vec<u64>, a: u64)
    requires
        increasing(old(v)@),
    ensures
        increasing(final(v)@),
        final(v)@.to_set() == old(v)@.to_set().insert(a),
{
    let mut k: usize = 0;
    while k < v.len() && v[k] < a
        invariant
            k <= v@.len(),
            v@ == old(v)@,
            increasing(v@),
            forall|j: int| 0 <= j < k ==> v@[j] < a,
        decreases v@.len() - k,
    {
        k = k + 1;
    }
    if k < v.len() && v[k] == a {
        assert(v@.to_set().insert(a) =~= v@.to_set()) by {
            assert(v@.contains(a));
        }
        return;
    }
    let ghost o = v@;
    v.insert(k, a);
    assert(v@ =~= o.take(k as int).push(a) + o.skip(k as int));
    assert(increasing(v@)) by {
        assert forall|i: int, j: int| 0 <= i < j < v@.len() implies v@[i] < v@[j] by {
            if j < k {
            } else if j == k {
            } else if i < k {
                assert(v@[j] == o[j - 1]);
                assert(o[k as int] > a);
                if j - 1 > k {
                    assert(o[k as int] < o[j - 1]);
                }
            } else if i == k {
                assert(v@[j] == o[j - 1]);
                if j - 1 > k {
                    assert(o[k as int] < o[j - 1]);
                }
            } else {
                assert(v@[i] == o[i - 1] && v@[j] == o[j - 1]);
            }
        }
    }
    assert(v@.to_set() =~= o.to_set().insert(a)) by {
        assert forall|x: u64| v@.to_set().contains(x) <==> o.to_set().insert(a).contains(x) by {
            if v@.contains(x) {
                let i = choose|i: int| 0 <= i < v@.len() && v@[i] == x;
                if i < k {
                    assert(o[i] == x);
                } else if i > k {
                    assert(o[i - 1] == x);
                }
            }
            if o.contains(x) {
                let i = choose|i: int| 0 <= i < o.len() && o[i] == x;
                if i < k {
                    assert(v@[i] == x);
                } else {
                    assert(v@[i + 1] == x);
                }
            }
            if x == a {
                assert(v@[k as int] == a);
            }
        }
    }
}

/// The call targets among the first `n` edges that start no function.
pub open spec fn external_set(
    functions: Seq<(u64, String, usize, bool)>,
    edges: Seq<(u64, u64, u64, String)>,
    n: int,
) -> Set<u64> {
    Set::new(|a: u64| (exists|i: int| 0 <= i < n && #[trigger] edges[i].1 == a) && !is_function(functions, a))
}

fn function_starts(functions: &[(u64, String, usize, bool)], a: u64) -> (b: bool)
    ensures
        b == is_function(functions@, a),
{
    let mut k: usize = 0;
    while k < functions.len()
        invariant
            k <= functions@.len(),
            forall|j: int| 0 <= j < k ==> #[trigger] functions@[j].0 != a,
        decreases functions@.len() - k,
    {
        if functions[k].0 == a {
            return true;
        }
        k = k + 1;
    }
    false
}

/// The external call targets, sorted, each once.
fn external_targets(functions: &[(u64, String, usize, bool)], edges: &[(u64, u64, u64, String)]) -> (v: Vec<u64>)
    ensures
        increasing(v@),
        v@.to_set() == external_set(functions@, edges@, edges@.len() as int),
{
    let mut v: Vec<u64> = Vec::new();
    let mut k: usize = 0;
    assert(v@.to_set() =~= external_set(functions@, edges@, 0));
    while k < edges.len()
        invariant
            k <= edges@.len(),
            increasing(v@),
            v@.to_set() == external_set(functions@, edges@, k as int),
        decreases edges@.len() - k,
    {
        let to = edges[k].1;
        let ghost o = v@.to_set();
        if !function_starts(functions, to) {
            insert_sorted(&mut v, to);
        }
        assert(v@.to_set() =~= external_set(functions@, edges@, k + 1)) by {
            assert forall|a: u64| #[trigger] external_set(functions@, edges@, k + 1).contains(a) <==> v@.to_set().contains(a) by {
                if external_set(functions@, edges@, k + 1).contains(a) && a != to {
                    let i = choose|i: int| 0 <= i < k + 1 && #[trigger] edges@[i].1 == a;
                    assert(i < k);
                    assert(external_set(functions@, edges@, k as int).contains(a));
                }
                if o.contains(a) {
                    let i = choose|i: int| 0 <= i < k && #[trigger] edges@[i].1 == a;
                    assert(0 <= i < k + 1);
                }
                if a == to && !is_function(functions@, a) {
                    assert(edges@[k as int].1 == a);
                }
            }
        }
        k = k + 1;
    }
    v
}

fn count_calls(edges: &[(u64, u64, u64, String)], a: u64) -> (r: (usize, usize))
    ensures
        r.0 == calls_from(edges@, a, edges@.len() as int),
        r.1 == calls_to(edges@, a, edges@.len() as int),
        r.0 <= edges@.len(),
        r.1 <= edges@.len(),
{
    let mut from: usize = 0;
    let mut to: usize = 0;
    let mut k: usize = 0;
    while k < edges.len()
        invariant
            k <= edges@.len(),
            from == calls_from(edges@, a, k as int),
            to == calls_to(edges@, a, k as int),
            from <= k,
            to <= k,
        decreases edges@.len() - k,
    {
        if edges[k].0 == a {
            from = from + 1;
        }
        if edges[k].1 == a {
            to = to + 1;
        }
        k = k + 1;
    }
    (from, to)
}

fn library_for(sdk: &[(String, String)], name: &String) -> (r: Option<String>)
    ensures
        opt_view(r) == lib_of(sdk@, name@, sdk@.len() as int),
{
    let mut k: usize = sdk.len();
    while k > 0
        invariant
            k <= sdk@.len(),
            lib_of(sdk@, name@, sdk@.len() as int) == lib_of(sdk@, name@, k as int),
        decreases k,
    {
        if sdk[k - 1].0 == *name {
            return Some(sdk[k - 1].1.clone());
        }
        k = k - 1;
    }
    None
}

// ---------------------------------------------------------------------------
// Statistics
// ---------------------------------------------------------------------------

/// How many of the first `n` nodes are named.
pub open spec fn count_named(nodes: Seq<NodeView>, n: int) -> nat
    decreases n,
{
    if n <= 0 {
        0
    } else {
        count_named(nodes, n - 1) + if nodes[n - 1].4 { 1nat } else { 0nat }
    }
}

/// How many of the first `n` nodes are external.
pub open spec fn count_external(nodes: Seq<NodeView>, n: int) -> nat
    decreases n,
{
    if n <= 0 {
        0
    } else {
        count_external(nodes, n - 1) + if nodes[n - 1].9 { 1nat } else { 0nat }
    }
}

/// The libraries named by the first `n` nodes.
pub open spec fn library_set(nodes: Seq<NodeView>, n: int) -> Set<Seq<char>> {
    Set::new(|l: Seq<char>| exists|i: int| 0 <= i < n && #[trigger] nodes[i].5 == Some(l))
}

/// A hub as plain values: name, address, calls made, calls received, score.
pub type HubView = (Seq<char>, u64, nat, nat, nat);

pub open spec fn hub_view(h: HubFunction) -> HubView {
    (h.name@, h.address, h.call_count as nat, h.called_by_count as nat, h.score as nat)
}

/// Insert `h` after every element whose score is at least its own (a stable
/// descending insertion).
pub open spec fn insert_desc(s: Seq<HubView>, h: HubView) -> Seq<HubView>
    decreases s.len(),
{
    if s.len() == 0 {
        seq![h]
    } else if s.last().4 >= h.4 {
        s.push(h)
    } else {
        insert_desc(s.drop_last(), h).push(s.last())
    }
}

/// The hubs sorted by descending score, ties in input order.
pub open spec fn sort_desc(s: Seq<HubView>) -> Seq<HubView>
    decreases s.len(),
{
    if s.len() == 0 {
        Seq::empty()
    } else {
        insert_desc(sort_desc(s.drop_last()), s.last())
    }
}

/// The hub candidates among the first `n` nodes: non-external nodes with calls.
pub open spec fn hub_candidates(nodes: Seq<NodeView>, n: int) -> Seq<HubView>
    decreases n,
{
    if n <= 0 {
        Seq::empty()
    } else {
        let v = nodes[n - 1];
        if !v.9 && v.6 + v.7 > 0 {
            hub_candidates(nodes, n - 1).push((v.2, v.1, v.6, v.7, v.6 + v.7))
        } else {
            hub_candidates(nodes, n - 1)
        }
    }
}

fn insert_hub(v: &mut Vec<HubFunction>, h: HubFunction)
    ensures
        final(v)@.map_values(|x: HubFunction| hub_view(x)) == insert_desc(old(v)@.map_values(|x: HubFunction| hub_view(x)), hub_view(h)),
    decreases old(v)@.len(),
{
    let ghost o = v@.map_values(|x: HubFunction| hub_view(x));
    if v.len() == 0 {
        v.push(h);
        assert(v@.map_values(|x: HubFunction| hub_view(x)) =~= seq![hub_view(h)]);
    } else if v[v.len() - 1].score >= h.score {
        v.push(h);
        assert(v@.map_values(|x: HubFunction| hub_view(x)) =~= o.push(hub_view(h)));
    } else {
        let last = v.pop().unwrap();
        assert(v@.map_values(|x: HubFunction| hub_view(x)) =~= o.drop_last());
        insert_hub(v, h);
        v.push(last);
        assert(v@.map_values(|x: HubFunction| hub_view(x)) =~= insert_desc(o.drop_last(), hub_view(h)).push(o.last()));
    }
}

// ---------------------------------------------------------------------------
// Call depth
// ---------------------------------------------------------------------------

/// The ids reachable from `root` through at most `d` edges.
pub open spec fn within(edges: Seq<EdgeView>, root: Seq<char>, d: nat) -> Set<Seq<char>>
    decreases d,
{
    if d == 0 {
        set![root]
    } else {
        let prev = within(edges, root, (d - 1) as nat);
        prev.union(Set::new(|t: Seq<char>| exists|i: int| 0 <= i < edges.len() && prev.contains(edges[i].0) && edges[i].1 == t))
    }
}

/// The breadth-first depth from `root`: the first level from `d` on at
/// which no new id is reached, looking at most `fuel` levels further.
pub open spec fn bfs_levels(edges: Seq<EdgeView>, root: Seq<char>, d: nat, fuel: nat) -> nat
    decreases fuel,
{
    if fuel == 0 || within(edges, root, d + 1) == within(edges, root, d) {
        d
    } else {
        bfs_levels(edges, root, d + 1, (fuel - 1) as nat)
    }
}

/// The largest breadth-first distance from the entry node to a node it
/// reaches through call edges (0 when no node is the entry).
pub open spec fn max_depth(nodes: Seq<NodeView>, edges: Seq<EdgeView>) -> nat {
    match first_entry(nodes, 0) {
        None => 0,
        Some(i) => bfs_levels(edges, nodes[i].0, 0, (edges.len() + 1) as nat),
    }
}

/// The index of the first entry node at or after `i`.
pub open spec fn first_entry(nodes: Seq<NodeView>, i: int) -> Option<int>
    decreases nodes.len() - i,
{
    if i < 0 || i >= nodes.len() {
        None
    } else if nodes[i].8 {
        Some(i)
    } else {
        first_entry(nodes, i + 1)
    }
}

fn contains_id(v: &Vec<String>, id: &String) -> (b: bool)
    ensures
        b == v@.map_values(|s: String| s@).contains(id@),
{
    let mut k: usize = 0;
    while k < v.len()
        invariant
            k <= v@.len(),
            forall|j: int| 0 <= j < k ==> #[trigger] v@[j]@ != id@,
        decreases v@.len() - k,
    {
        if v[k] == *id {
            assert(v@.map_values(|s: String| s@)[k as int] == id@);
            return true;
        }
        k = k + 1;
    }
    let ghost m = v@.map_values(|s: String| s@);
    assert(!m.contains(id@)) by {
        if m.contains(id@) {
            let j = choose|j: int| 0 <= j < m.len() && #[trigger] m[j] == id@;
            assert(v@[j]@ != id@);
        }
    }
    false
}

proof fn lemma_visited_push(v: Seq<String>, x: String)
    ensures
        v.push(x).map_values(|s: String| s@).to_set() == v.map_values(|s: String| s@).to_set().insert(x@),
{
    let a = v.push(x).map_values(|s: String| s@);
    let b = v.map_values(|s: String| s@);
    assert(a =~= b.push(x@));
    assert forall|t: Seq<char>| a.to_set().contains(t) <==> b.to_set().insert(x@).contains(t) by {
        if a.contains(t) {
            let i = choose|i: int| 0 <= i < a.len() && a[i] == t;
            if i < b.len() {
                assert(b[i] == t);
            }
        }
        if b.contains(t) {
            let i = choose|i: int| 0 <= i < b.len() && b[i] == t;
            assert(a[i] == t);
        }
        if t == x@ {
            assert(a[b.len() as int] == t);
        }
    }
    assert(a.to_set() =~= b.to_set().insert(x@));
}

fn ids_of(v: &Vec<String>) -> (r: Vec<String>)
    ensures
        r@.map_values(|s: String| s@) == v@.map_values(|s: String| s@),
{
    let mut r: Vec<String> = Vec::new();
    let mut j: usize = 0;
    while j < v.len()
        invariant
            j <= v@.len(),
            r@.map_values(|s: String| s@) == v@.map_values(|s: String| s@).take(j as int),
        decreases v@.len() - j,
    {
        let ghost before = r@.map_values(|s: String| s@);
        r.push(v[j].clone());
        assert(r@.map_values(|s: String| s@) =~= before.push(v@[j as int]@));
        assert(v@.map_values(|s: String| s@).take(j + 1) =~= v@.map_values(|s: String| s@).take(j as int).push(v@[j as int]@));
        j = j + 1;
    }
    assert(v@.map_values(|s: String| s@).take(j as int) =~= v@.map_values(|s: String| s@));
    r
}

/// The largest breadth-first distance from the entry node through the
/// edges: level by level, the ids reached so far grow by the targets of the
/// edges leaving them, until a level adds nothing.
pub fn compute_max_depth(nodes: &[GraphNode], edges: &Vec<GraphEdge>) -> (r: usize)
    requires
        edges@.len() < usize::MAX,
    ensures
        r == max_depth(nodes@.map_values(|n: GraphNode| node_view(n)), edges@.map_values(|e: GraphEdge| edge_view(e))),
{
    let ghost nv = nodes@.map_values(|n: GraphNode| node_view(n));
    let ghost ev = edges@.map_values(|e: GraphEdge| edge_view(e));
    let mut e: usize = 0;
    while e < nodes.len() && !nodes[e].is_entry
        invariant
            e <= nodes@.len(),
            nv == nodes@.map_values(|n: GraphNode| node_view(n)),
            first_entry(nv, 0) == first_entry(nv, e as int),
        decreases nodes@.len() - e,
    {
        e = e + 1;
    }
    if e == nodes.len() {
        return 0;
    }
    let ghost root = nodes@[e as int].id@;
    let mut vis: Vec<String> = Vec::new();
    let r0 = nodes[e].id.clone();
    proof {
        lemma_visited_push(vis@, r0);
        assert(vis@.map_values(|s: String| s@).to_set() =~= Set::<Seq<char>>::empty());
    }
    vis.push(r0);
    assert(vis@.map_values(|s: String| s@).to_set() =~= within(ev, root, 0));
    let mut d: usize = 0;
    let mut fuel: usize = edges.len() + 1;
    loop
        invariant
            ev == edges@.map_values(|e: GraphEdge| edge_view(e)),
            ev.len() < usize::MAX,
            d + fuel == ev.len() + 1,
            vis@.map_values(|s: String| s@).to_set() == within(ev, root, d as nat),
            bfs_levels(ev, root, d as nat, fuel as nat) == max_depth(nodes@.map_values(|n: GraphNode| node_view(n)), ev),
        decreases fuel,
    {
        if fuel == 0 {
            return d;
        }
        let ghost w = within(ev, root, d as nat);
        let mut nx: Vec<String> = ids_of(&vis);
        let mut added: bool = false;
        let mut k: usize = 0;
        while k < edges.len()
            invariant
                ev == edges@.map_values(|e: GraphEdge| edge_view(e)),
                k <= ev.len(),
                vis@.map_values(|s: String| s@).to_set() == w,
                nx@.map_values(|s: String| s@).to_set() == w.union(Set::new(|t: Seq<char>| exists|i: int|
                    0 <= i < k && w.contains(ev[i].0) && ev[i].1 == t)),
                added == exists|i: int| 0 <= i < k && w.contains(ev[i].0) && !w.contains(#[trigger] ev[i].1),
            decreases ev.len() - k,
        {
            let ghost s0 = nx@.map_values(|s: String| s@).to_set();
            let ghost a0 = added;
            let src = contains_id(&vis, &edges[k].source);
            if src {
                if !contains_id(&nx, &edges[k].target) {
                    assert(!s0.contains(edges@[k as int].target@));
                    let t = edges[k].target.clone();
                    proof { lemma_visited_push(nx@, t); }
                    nx.push(t);
                    added = true;
                }
            }
            proof {
                let wk = Set::new(|t: Seq<char>| exists|i: int| 0 <= i < k && w.contains(ev[i].0) && ev[i].1 == t);
                let wk1 = Set::new(|t: Seq<char>| exists|i: int| 0 <= i < k + 1 && w.contains(ev[i].0) && ev[i].1 == t);
                assert(ev[k as int].0 == edges@[k as int].source@ && ev[k as int].1 == edges@[k as int].target@);
                assert forall|t: Seq<char>| #[trigger] wk1.contains(t) <==> (wk.contains(t) || (t == ev[k as int].1 && w.contains(ev[k as int].0))) by {
                    if wk1.contains(t) {
                        let i = choose|i: int| 0 <= i < k + 1 && w.contains(ev[i].0) && ev[i].1 == t;
                        if i < k {
                            assert(wk.contains(t));
                        }
                    }
                }
                assert(nx@.map_values(|s: String| s@).to_set() =~= w.union(wk1));
                if src && !added {
                    assert(w.contains(ev[k as int].0));
                }
                if !src {
                    assert(!w.contains(ev[k as int].0));
                }
                if added && !a0 {
                    assert(w.contains(ev[k as int].0) && !w.contains(ev[k as int].1));
                }
                if src && !w.contains(ev[k as int].1) {
                    if s0.contains(ev[k as int].1) {
                        assert(wk.contains(ev[k as int].1));
                        let i = choose|i: int| 0 <= i < k && w.contains(ev[i].0) && ev[i].1 == ev[k as int].1;
                        assert(!w.contains(ev[i].1));
                    }
                }
            }
            k = k + 1;
        }
        proof {
            let nxt = within(ev, root, (d + 1) as nat);
            assert(nxt == w.union(Set::new(|t: Seq<char>| exists|i: int| 0 <= i < ev.len() && w.contains(ev[i].0) && ev[i].1 == t)));
            assert(nx@.map_values(|s: String| s@).to_set() =~= nxt);
            if added {
                let i = choose|i: int| 0 <= i < ev.len() && w.contains(ev[i].0) && !w.contains(#[trigger] ev[i].1);
                assert(nxt.contains(ev[i].1));
                assert(nxt != w);
            } else {
                assert(nxt =~= w);
            }
        }
        if !added {
            return d;
        }
        vis = nx;
        d = d + 1;
        fuel = fuel - 1;
    }
}



/// Insert `x` into a strictly increasing list of strings (no change when present).
pub(crate) fn insert_sorted_str(v: &mut Vec<String>, x: String)
    requires
        lex_increasing(old(v)@.map_values(|s: String| s@)),
    ensures
        lex_increasing(final(v)@.map_values(|s: String| s@)),
        final(v)@.map_values(|s: String| s@).to_set() == old(v)@.map_values(|s: String| s@).to_set().insert(x@),
{
    let ghost o = v@.map_values(|s: String| s@);
    let mut k: usize = 0;
    while k < v.len() && str_lt(&v[k], &x)
        invariant
            k <= v@.len(),
            v@.map_values(|s: String| s@) == o,
            lex_increasing(o),
            forall|j: int| 0 <= j < k ==> lex_lt(#[trigger] o[j], x@),
        decreases v@.len() - k,
    {
        k = k + 1;
    }
    if k < v.len() && v[k] == x {
        assert(o.to_set().insert(x@) =~= o.to_set()) by {
            assert(o[k as int] == x@);
        }
        return;
    }
    proof {
        if k < o.len() {
            lemma_lex_total(o[k as int], x@);
        }
    }
    let ghost ov = v@;
    v.insert(k, x);
    let ghost n = v@.map_values(|s: String| s@);
    assert(n =~= o.take(k as int).push(x@) + o.skip(k as int)) by {
        assert(v@ =~= ov.take(k as int).push(x) + ov.skip(k as int));
    }
    assert(lex_increasing(n)) by {
        assert forall|i: int, j: int| 0 <= i < j < n.len() implies lex_lt(n[i], n[j]) by {
            if j < k {
            } else if j == k {
            } else if i < k {
                assert(n[j] == o[j - 1]);
                if j - 1 > k {
                    lemma_lex_trans(x@, o[k as int], o[j - 1]);
                }
                lemma_lex_trans(o[i], x@, o[j - 1]);
            } else if i == k {
                assert(n[j] == o[j - 1]);
                if j - 1 > k {
                    lemma_lex_trans(x@, o[k as int], o[j - 1]);
                }
            } else {
                assert(n[i] == o[i - 1] && n[j] == o[j - 1]);
            }
        }
    }
    assert(n.to_set() =~= o.to_set().insert(x@)) by {
        assert forall|t: Seq<char>| n.to_set().contains(t) <==> o.to_set().insert(x@).contains(t) by {
            if n.contains(t) {
                let i = choose|i: int| 0 <= i < n.len() && n[i] == t;
                if i < k {
                    assert(o[i] == t);
                } else if i > k {
                    assert(o[i - 1] == t);
                }
            }
            if o.contains(t) {
                let i = choose|i: int| 0 <= i < o.len() && o[i] == t;
                if i < k {
                    assert(n[i] == t);
                } else {
                    assert(n[i + 1] == t);
                }
            }
            if t == x@ {
                assert(n[k as int] == t);
            }
        }
    }
}

/// Build the interactive call graph from functions `(address, name, size,
/// named)`, calls `(from, to, call site, kind)`, the entry point and SDK
/// matches `(name, library)`. Each function becomes a node (its library the
/// last SDK match for its name); each call target that starts no function
/// becomes an external node (in ascending address order); each call becomes
/// an edge between `0x{:08X}` ids. Nodes count the calls they make and
/// receive. The statistics give the totals, the named and external counts,
/// the distinct libraries in order, the (at most 20) busiest non-external
/// nodes by calls made plus received (ties in node order), and the call
/// depth reached from the entry.
pub fn build_interactive_graph(
    functions: &[(u64, String, usize, bool)],
    edges: &[(u64, u64, u64, String)],
    entry_point: u64,
    sdk_matches: &[(String, String)],
) -> (g: InteractiveCallGraph)
    requires
        edges@.len() <= usize::MAX / 2,
    ensures
        exists|xs: Seq<u64>|
            {
                &&& increasing(xs)
                &&& xs.to_set() == external_set(functions@, edges@, edges@.len() as int)
                &&& g.nodes@.map_values(|n: GraphNode| node_view(n)) == functions@.map_values(
                    |f: (u64, String, usize, bool)| function_node(f, edges@, entry_point, sdk_matches@),
                ) + xs.map_values(|a: u64| external_node(a, edges@))
            },
        g.edges@.map_values(|e: GraphEdge| edge_view(e)) == edges@.map_values(|e: (u64, u64, u64, String)| call_edge(e)),
        g.statistics.total_functions == functions@.len(),
        g.statistics.total_edges == edges@.len(),
        g.statistics.named_functions == count_named(
            g.nodes@.map_values(|n: GraphNode| node_view(n)),
            g.nodes@.len() as int,
        ),
        g.statistics.external_functions == count_external(
            g.nodes@.map_values(|n: GraphNode| node_view(n)),
            g.nodes@.len() as int,
        ),
        lex_increasing(g.statistics.libraries@.map_values(|s: String| s@)),
        g.statistics.libraries@.map_values(|s: String| s@).to_set() == library_set(
            g.nodes@.map_values(|n: GraphNode| node_view(n)),
            g.nodes@.len() as int,
        ),
        g.statistics.hub_functions@.map_values(|h: HubFunction| hub_view(h)) == ({
            let sorted = sort_desc(hub_candidates(g.nodes@.map_values(|n: GraphNode| node_view(n)), g.nodes@.len() as int));
            if sorted.len() <= 20 { sorted } else { sorted.take(20) }
        }),
        g.statistics.max_call_depth == max_depth(
            g.nodes@.map_values(|n: GraphNode| node_view(n)),
            g.edges@.map_values(|e: GraphEdge| edge_view(e)),
        ),
{
    let ghost fv = functions@.map_values(|f: (u64, String, usize, bool)| function_node(f, edges@, entry_point, sdk_matches@));
    let mut nodes: Vec<GraphNode> = Vec::new();
    let mut k: usize = 0;
    while k < functions.len()
        invariant
            k <= functions@.len(),
            edges@.len() <= usize::MAX / 2,
            fv == functions@.map_values(|f: (u64, String, usize, bool)| function_node(f, edges@, entry_point, sdk_matches@)),
            nodes@.map_values(|n: GraphNode| node_view(n)) == fv.take(k as int),
            forall|i: int| 0 <= i < nodes@.len() ==> #[trigger] nodes@[i].call_count <= edges@.len()
                && nodes@[i].called_by_count <= edges@.len(),
        decreases functions@.len() - k,
    {
        let f = &functions[k];
        let (cc, cb) = count_calls(edges, f.0);
        let node = GraphNode {
            id: id_of(f.0),
            address: f.0,
            name: f.1.clone(),
            size: f.2,
            is_named: f.3,
            library: library_for(sdk_matches, &f.1),
            call_count: cc,
            called_by_count: cb,
            is_entry: f.0 == entry_point,
            is_external: false,
        };
        let ghost before = nodes@.map_values(|n: GraphNode| node_view(n));
        nodes.push(node);
        assert(nodes@.map_values(|n: GraphNode| node_view(n)) =~= fv.take(k + 1)) by {
            assert(nodes@.map_values(|n: GraphNode| node_view(n)) =~= before.push(node_view(node)));
        }
        k = k + 1;
    }
    assert(fv.take(k as int) =~= fv);
    let xs = external_targets(functions, edges);
    let mut q: usize = 0;
    while q < xs.len()
        invariant
            q <= xs@.len(),
            nodes@.map_values(|n: GraphNode| node_view(n)) == fv + xs@.take(q as int).map_values(|a: u64| external_node(a, edges@)),
            forall|i: int| 0 <= i < nodes@.len() ==> #[trigger] nodes@[i].call_count <= edges@.len()
                && nodes@[i].called_by_count <= edges@.len(),
        decreases xs@.len() - q,
    {
        let a = xs[q];
        let (cc, cb) = count_calls(edges, a);
        let mut name = owned("ext_");
        let id = id_of(a);
        push_str(&mut name, id.as_str());
        let node = GraphNode {
            id,
            address: a,
            name,
            size: 0,
            is_named: false,
            library: None,
            call_count: cc,
            called_by_count: cb,
            is_entry: false,
            is_external: true,
        };
        let ghost before = nodes@.map_values(|n: GraphNode| node_view(n));
        nodes.push(node);
        assert(nodes@.map_values(|n: GraphNode| node_view(n)) =~= before.push(node_view(node)));
        assert(xs@.take(q + 1).map_values(|a: u64| external_node(a, edges@)) =~= xs@.take(q as int).map_values(
            |a: u64| external_node(a, edges@),
        ).push(external_node(a, edges@)));
        q = q + 1;
    }
    assert(xs@.take(q as int) =~= xs@);
    let ghost nv = nodes@.map_values(|n: GraphNode| node_view(n));
    let mut graph_edges: Vec<GraphEdge> = Vec::new();
    let mut k: usize = 0;
    while k < edges.len()
        invariant
            k <= edges@.len(),
            graph_edges@.map_values(|e: GraphEdge| edge_view(e)) == edges@.take(k as int).map_values(
                |e: (u64, u64, u64, String)| call_edge(e),
            ),
        decreases edges@.len() - k,
    {
        let e = &edges[k];
        let ge = GraphEdge { source: id_of(e.0), target: id_of(e.1), callsite: e.2, kind: e.3.clone() };
        let ghost before = graph_edges@.map_values(|e: GraphEdge| edge_view(e));
        graph_edges.push(ge);
        assert(graph_edges@.map_values(|e: GraphEdge| edge_view(e)) =~= edges@.take(k + 1).map_values(
            |e: (u64, u64, u64, String)| call_edge(e),
        )) by {
            assert(graph_edges@.map_values(|e: GraphEdge| edge_view(e)) =~= before.push(edge_view(ge)));
        }
        k = k + 1;
    }
    assert(edges@.take(k as int) =~= edges@);
    // Statistics.
    let mut named: usize = 0;
    let mut ext: usize = 0;
    let mut libs: Vec<String> = Vec::new();
    let mut hubs: Vec<HubFunction> = Vec::new();
    let mut k: usize = 0;
    assert(libs@.map_values(|s: String| s@).to_set() =~= library_set(nv, 0));
    while k < nodes.len()
        invariant
            k <= nodes@.len(),
            nv == nodes@.map_values(|n: GraphNode| node_view(n)),
            edges@.len() <= usize::MAX / 2,
            forall|i: int| 0 <= i < nodes@.len() ==> #[trigger] nodes@[i].call_count <= edges@.len()
                && nodes@[i].called_by_count <= edges@.len(),
            named == count_named(nv, k as int),
            ext == count_external(nv, k as int),
            named <= k,
            ext <= k,
            lex_increasing(libs@.map_values(|s: String| s@)),
            libs@.map_values(|s: String| s@).to_set() == library_set(nv, k as int),
            hubs@.map_values(|h: HubFunction| hub_view(h)) == sort_desc(hub_candidates(nv, k as int)),
        decreases nodes@.len() - k,
    {
        let n = &nodes[k];
        if n.is_named {
            named = named + 1;
        }
        if n.is_external {
            ext = ext + 1;
        }
        let ghost lb = libs@.map_values(|s: String| s@).to_set();
        match &n.library {
            Some(l) => {
                insert_sorted_str(&mut libs, l.clone());
            },
            None => {},
        }
        assert(libs@.map_values(|s: String| s@).to_set() =~= library_set(nv, k + 1)) by {
            assert forall|l: Seq<char>| #[trigger] library_set(nv, k + 1).contains(l) <==> libs@.map_values(|s: String| s@).to_set().contains(l) by {
                if library_set(nv, k + 1).contains(l) {
                    let i = choose|i: int| 0 <= i < k + 1 && #[trigger] nv[i].5 == Some(l);
                    if i < k {
                        assert(library_set(nv, k as int).contains(l));
                    }
                }
                if lb.contains(l) {
                    let i = choose|i: int| 0 <= i < k && #[trigger] nv[i].5 == Some(l);
                    assert(0 <= i < k + 1);
                }
                if nv[k as int].5 == Some(l) {
                    assert(0 <= k < k + 1);
                }
            }
        }
        if !n.is_external && n.call_count + n.called_by_count > 0 {
            let h = HubFunction {
                name: n.name.clone(),
                address: n.address,
                call_count: n.call_count,
                called_by_count: n.called_by_count,
                score: n.call_count + n.called_by_count,
            };
            insert_hub(&mut hubs, h);
            assert(hub_candidates(nv, k + 1).drop_last() =~= hub_candidates(nv, k as int));
        }
        k = k + 1;
    }
    let ghost all_hubs = hubs@.map_values(|h: HubFunction| hub_view(h));
    if hubs.len() > 20 {
        hubs.truncate(20);
        assert(hubs@.map_values(|h: HubFunction| hub_view(h)) =~= all_hubs.take(20));
    }
    let max_call_depth = compute_max_depth(&nodes, &graph_edges);
    let statistics = GraphStatistics {
        total_functions: functions.len(),
        named_functions: named,
        external_functions: ext,
        total_edges: graph_edges.len(),
        max_call_depth,
        libraries: libs,
        hub_functions: hubs,
    };
    InteractiveCallGraph { nodes, edges: graph_edges, statistics }
}

} // verus!

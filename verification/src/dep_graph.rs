//! Target dependency graph for a Makefile.
//!
//! Builds a directed graph from target names to their prerequisites, folding
//! together multiple rules for the same target (make accumulates their
//! prerequisites). Pattern rules (`%.o`) and special accumulating targets
//! (`.PHONY`, `.PRECIOUS`, …) are excluded — their semantics aren't a plain
//! dependency edge. Edges are only added for prerequisites that are themselves
//! defined as targets; undefined names are files on disk and aren't part of
//! the in-Makefile graph.

use vstd::prelude::*;
use vstd::string::StringSliceAdditionalSpecFns;

use crate::builtins::{contains_str, strs_view};
use crate::makefile::{Makefile, RuleView, rules_view};
use crate::strs::{bytes_contain, lemma_str_lt_order, str_eq, str_less, str_lt, strings_view, utf8};

verus! {

/// Special targets where multiple definitions accumulate prerequisites rather
/// than redefining the rule.
pub open spec fn spec_accumulating_targets() -> Seq<Seq<char>> {
    seq![
        ".PHONY"@,
        ".SUFFIXES"@,
        ".PRECIOUS"@,
        ".INTERMEDIATE"@,
        ".SECONDARY"@,
        ".IGNORE"@,
        ".SILENT"@,
        ".NOTPARALLEL"@,
    ]
}

pub fn accumulating_targets() -> (v: Vec<&'static str>)
    ensures
        strs_view(v@) == spec_accumulating_targets(),
{
    let v: Vec<&'static str> = vec![
        ".PHONY",
        ".SUFFIXES",
        ".PRECIOUS",
        ".INTERMEDIATE",
        ".SECONDARY",
        ".IGNORE",
        ".SILENT",
        ".NOTPARALLEL",
    ];
    assert(strs_view(v@) =~= spec_accumulating_targets());
    v
}

/// A target takes part in the graph unless it is a pattern (holds `%`) or
/// a special target whose definitions accumulate.
pub open spec fn spec_is_graph_target(name: Seq<char>) -> bool {
    !(utf8(name).contains(0x25u8) || (utf8(name).len() > 0 && utf8(name)[0] == 0x2e
        && spec_accumulating_targets().contains(name)))
}

/// Should this target name participate in the dependency graph?
pub fn is_graph_target(name: &str) -> (r: bool)
    ensures
        r == spec_is_graph_target(name@),
{
    let bytes = name.as_bytes();
    !(bytes_contain(bytes, 0x25) || (bytes.len() > 0 && bytes[0] == 0x2e && contains_str(
        &accumulating_targets(),
        name,
    )))
}

/// Strictly increasing in the order of `str`.
pub open spec fn sorted_strs(s: Seq<Seq<char>>) -> bool {
    forall|i: int, j: int| 0 <= i < j < s.len() ==> str_lt(#[trigger] s[i], #[trigger] s[j])
}

/// Strictly increasing indices.
pub open spec fn sorted_idx(s: Seq<usize>) -> bool {
    forall|i: int, j: int| 0 <= i < j < s.len() ==> #[trigger] s[i] < #[trigger] s[j]
}

/// The abstract graph: sorted node names and an adjacency matrix.
pub struct GraphView {
    pub nodes: Seq<Seq<char>>,
    pub adj: Seq<Seq<bool>>,
}

/// An `n` by `n` matrix without self-loops.
pub open spec fn adj_ok(adj: Seq<Seq<bool>>, n: int) -> bool {
    &&& adj.len() == n
    &&& forall|i: int| 0 <= i < n ==> (#[trigger] adj[i]).len() == n && !adj[i][i]
}

impl GraphView {
    pub open spec fn wf(self) -> bool {
        &&& self.nodes.len() <= usize::MAX
        &&& sorted_strs(self.nodes)
        &&& adj_ok(self.adj, self.nodes.len() as int)
    }

    /// Edge between node indices.
    pub open spec fn idx_edge(self, i: int, j: int) -> bool {
        0 <= i < self.adj.len() && 0 <= j < self.adj[i].len() && self.adj[i][j]
    }

    /// There is an edge from target `a` to its prerequisite `b`.
    pub open spec fn has_edge(self, a: Seq<char>, b: Seq<char>) -> bool {
        exists|i: int, j: int|
            0 <= i < self.nodes.len() && 0 <= j < self.nodes.len() && #[trigger] self.nodes[i] == a
                && #[trigger] self.nodes[j] == b && self.idx_edge(i, j)
    }

    /// The prerequisites of `a`: the targets it has an edge to.
    pub open spec fn prerequisite_set(self, a: Seq<char>) -> Set<Seq<char>> {
        Set::new(|b: Seq<char>| self.has_edge(a, b))
    }

    /// The referrers of `b`: the targets that have an edge to it.
    pub open spec fn referrer_set(self, b: Seq<char>) -> Set<Seq<char>> {
        Set::new(|a: Seq<char>| self.has_edge(a, b))
    }

    /// The length in edges of the longest path that continues `path` from
    /// its last node without visiting a node of `path` again.
    pub open spec fn longest_extension(self, path: Seq<usize>) -> nat
        decreases self.nodes.len() - path.len(), self.nodes.len() + 1,
    {
        if path.len() == 0 || path.len() >= self.nodes.len() {
            0
        } else {
            self.best_step(path, 0)
        }
    }

    /// The longest continuation of `path` through a successor `j` or later
    /// of its last node.
    pub open spec fn best_step(self, path: Seq<usize>, j: int) -> nat
        decreases self.nodes.len() - path.len(), self.nodes.len() - j,
    {
        if path.len() == 0 || path.len() >= self.nodes.len() || j < 0 || j >= self.nodes.len() {
            0
        } else {
            let rest = self.best_step(path, j + 1);
            if self.idx_edge(path.last() as int, j) && !path.contains(j as usize) {
                let here = 1 + self.longest_extension(path.push(j as usize));
                if here > rest {
                    here
                } else {
                    rest
                }
            } else {
                rest
            }
        }
    }

    /// A simple path of node indices, starting from its smallest node.
    pub open spec fn idx_path(self, p: Seq<usize>) -> bool {
        &&& p.len() >= 1
        &&& p.no_duplicates()
        &&& forall|k: int| 0 <= k < p.len() ==> #[trigger] p[k] < self.nodes.len()
        &&& forall|k: int| 1 <= k < p.len() ==> p[0] < #[trigger] p[k]
        &&& forall|k: int| 0 <= k < p.len() - 1 ==> self.idx_edge(#[trigger] p[k] as int, p[k + 1] as int)
    }

    /// A simple cycle of node indices, of length at least two, starting from
    /// its smallest node.
    pub open spec fn idx_cycle(self, c: Seq<usize>) -> bool {
        &&& self.idx_path(c)
        &&& c.len() >= 2
        &&& self.idx_edge(c[c.len() - 1] as int, c[0] as int)
    }

    /// `c` is a simple cycle of at least two targets, written from its
    /// smallest target.
    pub open spec fn is_cycle(self, c: Seq<Seq<char>>) -> bool {
        &&& c.len() >= 2
        &&& c.no_duplicates()
        &&& forall|k: int| 0 <= k < c.len() - 1 ==> self.has_edge(#[trigger] c[k], c[k + 1])
        &&& self.has_edge(c[c.len() - 1], c[0])
        &&& forall|k: int| 1 <= k < c.len() ==> str_lt(c[0], #[trigger] c[k])
    }
}

/// `g` is the dependency graph of `m`: well formed, with the graph targets
/// of `m` as nodes and its dependencies as edges.
pub open spec fn graph_of(g: GraphView, m: &Makefile) -> bool {
    &&& g.wf()
    &&& forall|a: Seq<char>| g.nodes.contains(a) <==> defines_graph_target(m, a)
    &&& forall|a: Seq<char>, b: Seq<char>| g.has_edge(a, b) <==> spec_dependency(m, a, b)
}

/// `g` is the dependency graph of the rules `rules`: well formed, with
/// their graph targets as nodes and their dependencies as edges.
pub open spec fn graph_for(g: GraphView, rules: Seq<RuleView>) -> bool {
    &&& g.wf()
    &&& forall|a: Seq<char>| #[trigger] g.nodes.contains(a) <==> exists|i: int| 0 <= i < rules.len() && rule_defines(#[trigger] rules[i], a)
    &&& forall|a: Seq<char>, b: Seq<char>| #[trigger] g.has_edge(a, b) <==> rules_dependency(rules, a, b)
}

/// The dependency `a → b` among `rules`.
pub open spec fn rules_dependency(rules: Seq<RuleView>, a: Seq<char>, b: Seq<char>) -> bool {
    &&& exists|i: int| 0 <= i < rules.len() && rule_edge(#[trigger] rules[i], a, b)
    &&& exists|i: int| 0 <= i < rules.len() && rule_defines(#[trigger] rules[i], b)
}

/// The dependency graph of `rules`.
pub open spec fn rules_graph(rules: Seq<RuleView>) -> GraphView {
    choose|g: GraphView| graph_for(g, rules)
}

/// The graph of a Makefile is the graph of its rules.
proof fn lemma_graph_of_rules(g: GraphView, m: &Makefile)
    requires
        graph_of(g, m),
    ensures
        graph_for(g, rules_view(m.rules@)),
{
    let rules = rules_view(m.rules@);
    assert forall|i: int| 0 <= i < m.rules@.len() implies #[trigger] rules[i] == m.rules@[i]@ by {}
    assert forall|a: Seq<char>| #[trigger] g.nodes.contains(a) <==> exists|i: int| 0 <= i < rules.len() && rule_defines(#[trigger] rules[i], a) by {
        if g.nodes.contains(a) {
            assert(defines_graph_target(m, a));
            let i = choose|i: int| 0 <= i < m.rules@.len() && rule_defines(#[trigger] m.rules@[i]@, a);
            assert(rules[i] == m.rules@[i]@);
        }
        if exists|i: int| 0 <= i < rules.len() && rule_defines(#[trigger] rules[i], a) {
            let i = choose|i: int| 0 <= i < rules.len() && rule_defines(#[trigger] rules[i], a);
            assert(rules[i] == m.rules@[i]@);
            assert(defines_graph_target(m, a));
        }
    }
    assert forall|a: Seq<char>, b: Seq<char>| #[trigger] g.has_edge(a, b) <==> rules_dependency(rules, a, b) by {
        if g.has_edge(a, b) {
            assert(spec_dependency(m, a, b));
            let i = choose|i: int| 0 <= i < m.rules@.len() && rule_edge(#[trigger] m.rules@[i]@, a, b);
            assert(rules[i] == m.rules@[i]@);
            let j = choose|j: int| 0 <= j < m.rules@.len() && rule_defines(#[trigger] m.rules@[j]@, b);
            assert(rules[j] == m.rules@[j]@);
        }
        if rules_dependency(rules, a, b) {
            let i = choose|i: int| 0 <= i < rules.len() && rule_edge(#[trigger] rules[i], a, b);
            assert(rules[i] == m.rules@[i]@);
            let j = choose|j: int| 0 <= j < rules.len() && rule_defines(#[trigger] rules[j], b);
            assert(rules[j] == m.rules@[j]@);
            assert(defines_graph_target(m, b));
            assert(spec_dependency(m, a, b));
        }
    }
}

/// Strictly sorted name sequences with the same elements are equal.
proof fn lemma_sorted_strs_unique(s: Seq<Seq<char>>, t: Seq<Seq<char>>)
    requires
        sorted_strs(s),
        sorted_strs(t),
        forall|c: Seq<char>| #![trigger s.contains(c)] #![trigger t.contains(c)] s.contains(c) <==> t.contains(c),
    ensures
        s == t,
    decreases s.len(),
{
    if s.len() == 0 {
        if t.len() > 0 {
            assert(t.contains(t[0]));
            assert(s.contains(t[0]));
        }
        assert(s =~= t);
    } else {
        assert(s.contains(s[0]));
        assert(t.contains(s[0]));
        let j = choose|j: int| 0 <= j < t.len() && t[j] == s[0];
        assert(t.contains(t[0]));
        assert(s.contains(t[0]));
        let i = choose|i: int| 0 <= i < s.len() && s[i] == t[0];
        if j > 0 {
            assert(str_lt(t[0], t[j]));
            lemma_str_lt_order(s[0], s[i], s[0]);
            if i > 0 {
                assert(str_lt(s[0], s[i]));
            }
        }
        assert(t[0] == s[0]);
        let s1 = s.drop_first();
        let t1 = t.drop_first();
        assert forall|c: Seq<char>| #![trigger s1.contains(c)] #![trigger t1.contains(c)] s1.contains(c) <==> t1.contains(c) by {
            if s1.contains(c) {
                let k = choose|k: int| 0 <= k < s1.len() && s1[k] == c;
                assert(s[k + 1] == c);
                assert(s.contains(c));
                let m = choose|m: int| 0 <= m < t.len() && t[m] == c;
                assert(str_lt(s[0], s[k + 1]));
                lemma_str_lt_order(s[0], s[0], s[0]);
                assert(m != 0);
                assert(t1[m - 1] == c);
            }
            if t1.contains(c) {
                let k = choose|k: int| 0 <= k < t1.len() && t1[k] == c;
                assert(t[k + 1] == c);
                assert(t.contains(c));
                let m = choose|m: int| 0 <= m < s.len() && s[m] == c;
                assert(str_lt(t[0], t[k + 1]));
                lemma_str_lt_order(t[0], t[0], t[0]);
                assert(m != 0);
                assert(s1[m - 1] == c);
            }
        }
        assert forall|a: int, b: int| 0 <= a < b < s1.len() implies str_lt(#[trigger] s1[a], #[trigger] s1[b]) by {
            assert(str_lt(s[a + 1], s[b + 1]));
        }
        assert forall|a: int, b: int| 0 <= a < b < t1.len() implies str_lt(#[trigger] t1[a], #[trigger] t1[b]) by {
            assert(str_lt(t[a + 1], t[b + 1]));
        }
        lemma_sorted_strs_unique(s1, t1);
        assert forall|k: int| 0 <= k < s.len() implies s[k] == t[k] by {
            if k > 0 {
                assert(s[k] == s1[k - 1]);
                assert(t[k] == t1[k - 1]);
            }
        }
        assert(s =~= t);
    }
}

/// The rules determine their graph.
proof fn lemma_graph_unique(g1: GraphView, g2: GraphView, rules: Seq<RuleView>)
    requires
        graph_for(g1, rules),
        graph_for(g2, rules),
    ensures
        g1 == g2,
{
    assert forall|c: Seq<char>| #![trigger g1.nodes.contains(c)] #![trigger g2.nodes.contains(c)] g1.nodes.contains(c) <==> g2.nodes.contains(c) by {
        assert(g1.nodes.contains(c) <==> exists|i: int| 0 <= i < rules.len() && rule_defines(#[trigger] rules[i], c));
        assert(g2.nodes.contains(c) <==> exists|i: int| 0 <= i < rules.len() && rule_defines(#[trigger] rules[i], c));
    }
    lemma_sorted_strs_unique(g1.nodes, g2.nodes);
    let n = g1.nodes.len() as int;
    assert forall|i: int, j: int| 0 <= i < n && 0 <= j < n implies #[trigger] g1.adj[i][j] == g2.adj[i][j] by {
        let a = g1.nodes[i];
        let b = g1.nodes[j];
        assert(g1.has_edge(a, b) == g2.has_edge(a, b));
        if g1.adj[i][j] {
            assert(g1.idx_edge(i, j));
            assert(g2.has_edge(a, b));
            let (i2, j2) = choose|i2: int, j2: int|
                0 <= i2 < g2.nodes.len() && 0 <= j2 < g2.nodes.len() && #[trigger] g2.nodes[i2] == a
                    && #[trigger] g2.nodes[j2] == b && g2.idx_edge(i2, j2);
            lemma_sorted_distinct(g2.nodes, i, i2);
            lemma_sorted_distinct(g2.nodes, j, j2);
        }
        if g2.adj[i][j] {
            assert(g2.idx_edge(i, j));
            assert(g1.has_edge(a, b));
            let (i2, j2) = choose|i2: int, j2: int|
                0 <= i2 < g1.nodes.len() && 0 <= j2 < g1.nodes.len() && #[trigger] g1.nodes[i2] == a
                    && #[trigger] g1.nodes[j2] == b && g1.idx_edge(i2, j2);
            lemma_sorted_distinct(g1.nodes, i, i2);
            lemma_sorted_distinct(g1.nodes, j, j2);
        }
    }
    assert forall|i: int| 0 <= i < n implies #[trigger] g1.adj[i] == g2.adj[i] by {
        assert(g1.adj[i] =~= g2.adj[i]);
    }
    assert(g1.adj =~= g2.adj);
}

/// The graph of a Makefile is `rules_graph` of its rules.
pub(crate) proof fn lemma_graph_of_is_rules_graph(g: GraphView, m: &Makefile)
    requires
        graph_of(g, m),
    ensures
        g == rules_graph(rules_view(m.rules@)),
{
    lemma_graph_of_rules(g, m);
    lemma_graph_unique(g, rules_graph(rules_view(m.rules@)), rules_view(m.rules@));
}

/// The depth of target `t`: the longest path from it through the graph.
pub open spec fn depth_of(g: GraphView, t: Seq<char>) -> nat {
    if g.nodes.contains(t) {
        g.longest_extension(seq![(choose|i: int| 0 <= i < g.nodes.len() && g.nodes[i] == t) as usize])
    } else {
        0
    }
}

/// Directed graph of target → prerequisites built from a parsed Makefile.
pub struct DependencyGraph {
    nodes: Vec<String>,
    adj: Vec<Vec<bool>>,
}

pub open spec fn rows_view(s: Seq<Vec<bool>>) -> Seq<Seq<bool>> {
    s.map_values(|v: Vec<bool>| v@)
}

impl View for DependencyGraph {
    type V = GraphView;

    closed spec fn view(&self) -> GraphView {
        GraphView { nodes: strings_view(self.nodes@), adj: rows_view(self.adj@) }
    }
}

/// Rule `r` defines `a` as a graph target.
pub open spec fn rule_defines(r: RuleView, a: Seq<char>) -> bool {
    r.targets.contains(a) && spec_is_graph_target(a)
}

/// Some rule of `m` defines `a` as a graph target.
pub open spec fn defines_graph_target(m: &Makefile, a: Seq<char>) -> bool {
    exists|i: int| 0 <= i < m.rules@.len() && rule_defines(#[trigger] m.rules@[i]@, a)
}

/// `b` is a prerequisite of the graph target `a` in rule `r`.
pub open spec fn rule_edge(r: RuleView, a: Seq<char>, b: Seq<char>) -> bool {
    rule_defines(r, a) && r.prerequisites.contains(b) && a != b
}

/// The dependency `a → b` of `m`: a rule lists `b` as a prerequisite of the
/// graph target `a`, `b` is itself a graph target, and `a` is not `b`.
pub open spec fn spec_dependency(m: &Makefile, a: Seq<char>, b: Seq<char>) -> bool {
    &&& exists|i: int| 0 <= i < m.rules@.len() && rule_edge(#[trigger] m.rules@[i]@, a, b)
    &&& defines_graph_target(m, b)
}

/// Index of `s` in `v`, if present.
fn find_str(v: &Vec<String>, s: &str) -> (r: Option<usize>)
    ensures
        r matches Some(i) ==> i < v@.len() && v@[i as int]@ == s@,
        r is None ==> !strings_view(v@).contains(s@),
{
    let mut i: usize = 0;
    while i < v.len()
        invariant
            i <= v@.len(),
            forall|j: int| 0 <= j < i ==> v@[j]@ != s@,
        decreases v@.len() - i,
    {
        if str_eq(v[i].as_str(), s) {
            return Some(i);
        }
        i += 1;
    }
    proof {
        if strings_view(v@).contains(s@) {
            let k = choose|k: int| 0 <= k < strings_view(v@).len() && strings_view(v@)[k] == s@;
            assert(v@[k]@ == s@);
        }
    }
    None
}

/// Insert `s` into the strictly sorted `v`, unless it is already there.
fn insert_sorted_str(v: &mut Vec<String>, s: &String)
    requires
        sorted_strs(strings_view(old(v)@)),
    ensures
        sorted_strs(strings_view(final(v)@)),
        forall|a: Seq<char>|
            strings_view(final(v)@).contains(a) <==> strings_view(old(v)@).contains(a) || a == s@,
{
    let ghost old_v = strings_view(v@);
    let mut i: usize = 0;
    while i < v.len() && str_less(v[i].as_str(), s.as_str())
        invariant
            i <= v@.len(),
            strings_view(v@) == old_v,
            sorted_strs(old_v),
            forall|j: int| 0 <= j < i ==> str_lt(#[trigger] old_v[j], s@),
        decreases v@.len() - i,
    {
        i += 1;
    }
    if i < v.len() && str_eq(v[i].as_str(), s.as_str()) {
        assert(old_v[i as int] == s@);
        return;
    }
    proof {
        if i < v@.len() {
            lemma_str_lt_order(old_v[i as int], s@, s@);
        }
    }
    v.insert(i, s.clone());
    let ghost nv = strings_view(v@);
    assert(nv =~= old_v.insert(i as int, s@));
    assert forall|a: int, b: int| 0 <= a < b < nv.len() implies str_lt(#[trigger] nv[a], #[trigger] nv[b]) by {
        if b < i {
        } else if a < i && b == i {
        } else if a < i && b > i {
            lemma_str_lt_order(nv[a], s@, nv[b]);
            lemma_str_lt_order(s@, old_v[i as int], nv[b]);
            if b > i + 1 {
                assert(str_lt(old_v[i as int], old_v[b - 1]));
            }
        } else if a == i {
            lemma_str_lt_order(s@, old_v[i as int], nv[b]);
            if b > i + 1 {
                assert(str_lt(old_v[i as int], old_v[b - 1]));
            }
        } else {
            assert(str_lt(old_v[a - 1], old_v[b - 1]));
        }
    }
    assert forall|a: Seq<char>| nv.contains(a) <==> old_v.contains(a) || a == s@ by {
        if nv.contains(a) {
            let k = choose|k: int| 0 <= k < nv.len() && nv[k] == a;
            if k < i {
                assert(old_v[k] == a);
            } else if k > i {
                assert(old_v[k - 1] == a);
            }
        }
        if old_v.contains(a) {
            let k = choose|k: int| 0 <= k < old_v.len() && old_v[k] == a;
            if k < i {
                assert(nv[k] == a);
            } else {
                assert(nv[k + 1] == a);
            }
        }
        if a == s@ {
            assert(nv[i as int] == a);
        }
    }
}

proof fn lemma_push_contains<A>(s: Seq<A>, x: A, y: A)
    ensures
        s.push(x).contains(y) <==> s.contains(y) || y == x,
{
    if s.push(x).contains(y) {
        let k = choose|k: int| 0 <= k < s.push(x).len() && s.push(x)[k] == y;
        if k < s.len() {
            assert(s[k] == y);
        }
    }
    if s.contains(y) {
        let k = choose|k: int| 0 <= k < s.len() && s[k] == y;
        assert(s.push(x)[k] == y);
    }
    if y == x {
        assert(s.push(x)[s.len() as int] == y);
    }
}

proof fn lemma_sorted_distinct(s: Seq<Seq<char>>, i: int, j: int)
    requires
        sorted_strs(s),
        0 <= i < s.len(),
        0 <= j < s.len(),
        s[i] == s[j],
    ensures
        i == j,
{
    if i < j {
        lemma_str_lt_order(s[i], s[j], s[j]);
    } else if j < i {
        lemma_str_lt_order(s[j], s[i], s[i]);
    }
}

/// Add the edge `i → j`.
fn set_edge(adj: &mut Vec<Vec<bool>>, i: usize, j: usize)
    requires
        adj_ok(rows_view(old(adj)@), old(adj)@.len() as int),
        i < old(adj)@.len(),
        j < old(adj)@.len(),
        i != j,
    ensures
        final(adj)@.len() == old(adj)@.len(),
        adj_ok(rows_view(final(adj)@), final(adj)@.len() as int),
        forall|i2: int, j2: int|
            0 <= i2 < final(adj)@.len() && 0 <= j2 < final(adj)@.len() ==> #[trigger] final(adj)@[i2]@[j2]
                == (old(adj)@[i2]@[j2] || (i2 == i && j2 == j)),
{
    let ghost before = adj@;
    assert(rows_view(before)[i as int] == before[i as int]@);
    adj[i].set(j, true);
    proof {
        let n = before.len() as int;
        assert forall|i2: int| 0 <= i2 < n implies (#[trigger] rows_view(adj@)[i2]).len() == n && !rows_view(adj@)[i2][i2] by {
            assert(rows_view(before)[i2] == before[i2]@);
        }
        assert forall|i2: int, j2: int| 0 <= i2 < n && 0 <= j2 < n implies #[trigger] adj@[i2]@[j2] == (before[i2]@[j2] || (i2 == i && j2 == j)) by {
            assert(rows_view(before)[i2] == before[i2]@);
        }
    }
}

/// Add edges from node `i` (named `t`) to every node among `prereqs`, other
/// than `t` itself.
fn add_target_edges(adj: &mut Vec<Vec<bool>>, nodes: &Vec<String>, i: usize, t: &String, prereqs: &Vec<String>)
    requires
        adj_ok(rows_view(old(adj)@), nodes@.len() as int),
        sorted_strs(strings_view(nodes@)),
        i < nodes@.len(),
        nodes@[i as int]@ == t@,
    ensures
        adj_ok(rows_view(final(adj)@), nodes@.len() as int),
        forall|i2: int, j: int|
            0 <= i2 < nodes@.len() && 0 <= j < nodes@.len() ==> #[trigger] final(adj)@[i2]@[j]
                == (old(adj)@[i2]@[j] || (i2 == i && strings_view(prereqs@).contains(nodes@[j]@) && nodes@[j]@ != t@)),
{
    let ghost n = nodes@.len() as int;
    let ghost start = adj@;
    let mut k: usize = 0;
    while k < prereqs.len()
        invariant
            n == nodes@.len(),
            i < n,
            nodes@[i as int]@ == t@,
            sorted_strs(strings_view(nodes@)),
            k <= prereqs@.len(),
            adj_ok(rows_view(adj@), n),
            adj@.len() == n,
            start.len() == n,
            forall|i2: int, j: int|
                0 <= i2 < n && 0 <= j < n ==> #[trigger] adj@[i2]@[j] == (start[i2]@[j]
                    || (i2 == i && strings_view(prereqs@.subrange(0, k as int)).contains(nodes@[j]@)
                    && nodes@[j]@ != t@)),
        decreases prereqs@.len() - k,
    {
        let ghost before = adj@;
        let ghost pk = strings_view(prereqs@.subrange(0, k as int));
        let ghost pk1 = strings_view(prereqs@.subrange(0, (k + 1) as int));
        assert(pk1 =~= pk.push(prereqs@[k as int]@));
        assert forall|x: Seq<char>| pk1.contains(x) <==> pk.contains(x) || x == prereqs@[k as int]@ by {
            lemma_push_contains(pk, prereqs@[k as int]@, x);
        }
        if !str_eq(prereqs[k].as_str(), t.as_str()) {
            if let Some(j) = find_str(nodes, prereqs[k].as_str()) {
                set_edge(adj, i, j);
                proof {
                    assert forall|i2: int, j2: int| 0 <= i2 < n && 0 <= j2 < n implies #[trigger] adj@[i2]@[j2] == (start[i2]@[j2]
                        || (i2 == i && pk1.contains(nodes@[j2]@) && nodes@[j2]@ != t@)) by {
                        if nodes@[j2]@ == prereqs@[k as int]@ {
                            lemma_sorted_distinct(strings_view(nodes@), j as int, j2);
                        }
                        assert(before[i2]@[j2] == (start[i2]@[j2] || (i2 == i && pk.contains(nodes@[j2]@) && nodes@[j2]@ != t@)));
                    }
                }
            } else {
                proof {
                    assert forall|i2: int, j2: int| 0 <= i2 < n && 0 <= j2 < n implies #[trigger] adj@[i2]@[j2] == (start[i2]@[j2]
                        || (i2 == i && pk1.contains(nodes@[j2]@) && nodes@[j2]@ != t@)) by {
                        assert(strings_view(nodes@)[j2] == nodes@[j2]@);
                        assert(before[i2]@[j2] == (start[i2]@[j2] || (i2 == i && pk.contains(nodes@[j2]@) && nodes@[j2]@ != t@)));
                    }
                }
            }
        } else {
            proof {
                assert forall|i2: int, j2: int| 0 <= i2 < n && 0 <= j2 < n implies #[trigger] adj@[i2]@[j2] == (start[i2]@[j2]
                    || (i2 == i && pk1.contains(nodes@[j2]@) && nodes@[j2]@ != t@)) by {
                    assert(before[i2]@[j2] == (start[i2]@[j2] || (i2 == i && pk.contains(nodes@[j2]@) && nodes@[j2]@ != t@)));
                }
            }
        }
        k += 1;
    }
    assert(prereqs@.subrange(0, k as int) =~= prereqs@);
}

/// The edges of rule `r` between the given nodes.
pub open spec fn rule_edge_between(targets: Seq<Seq<char>>, prereqs: Seq<Seq<char>>, a: Seq<char>, b: Seq<char>) -> bool {
    targets.contains(a) && spec_is_graph_target(a) && prereqs.contains(b) && a != b
}

/// Add the edges of one rule.
fn add_rule_edges(adj: &mut Vec<Vec<bool>>, nodes: &Vec<String>, targets: &Vec<String>, prereqs: &Vec<String>)
    requires
        adj_ok(rows_view(old(adj)@), nodes@.len() as int),
        sorted_strs(strings_view(nodes@)),
        forall|a: Seq<char>| strings_view(targets@).contains(a) && spec_is_graph_target(a) ==> strings_view(nodes@).contains(a),
    ensures
        adj_ok(rows_view(final(adj)@), nodes@.len() as int),
        forall|i: int, j: int|
            0 <= i < nodes@.len() && 0 <= j < nodes@.len() ==> #[trigger] final(adj)@[i]@[j]
                == (old(adj)@[i]@[j] || rule_edge_between(strings_view(targets@), strings_view(prereqs@), nodes@[i]@, nodes@[j]@)),
{
    let ghost n = nodes@.len() as int;
    let ghost start = adj@;
    let mut k: usize = 0;
    while k < targets.len()
        invariant
            n == nodes@.len(),
            sorted_strs(strings_view(nodes@)),
            forall|a: Seq<char>| strings_view(targets@).contains(a) && spec_is_graph_target(a) ==> strings_view(nodes@).contains(a),
            k <= targets@.len(),
            adj_ok(rows_view(adj@), n),
            adj@.len() == n,
            start.len() == n,
            forall|i: int, j: int|
                0 <= i < n && 0 <= j < n ==> #[trigger] adj@[i]@[j] == (start[i]@[j]
                    || rule_edge_between(strings_view(targets@.subrange(0, k as int)), strings_view(prereqs@), nodes@[i]@, nodes@[j]@)),
        decreases targets@.len() - k,
    {
        let ghost before = adj@;
        let ghost tk = strings_view(targets@.subrange(0, k as int));
        let ghost tk1 = strings_view(targets@.subrange(0, (k + 1) as int));
        assert(tk1 =~= tk.push(targets@[k as int]@));
        assert forall|x: Seq<char>| tk1.contains(x) <==> tk.contains(x) || x == targets@[k as int]@ by {
            lemma_push_contains(tk, targets@[k as int]@, x);
        }
        if is_graph_target(targets[k].as_str()) {
            assert(strings_view(targets@)[k as int] == targets@[k as int]@);
            let found = find_str(nodes, targets[k].as_str());
            if let Some(i) = found {
                add_target_edges(adj, nodes, i, &targets[k], prereqs);
                proof {
                    assert forall|i2: int, j: int| 0 <= i2 < n && 0 <= j < n implies #[trigger] adj@[i2]@[j] == (start[i2]@[j]
                        || rule_edge_between(tk1, strings_view(prereqs@), nodes@[i2]@, nodes@[j]@)) by {
                        if nodes@[i2]@ == targets@[k as int]@ {
                            lemma_sorted_distinct(strings_view(nodes@), i as int, i2);
                        }
                        assert(before[i2]@[j] == (start[i2]@[j] || rule_edge_between(tk, strings_view(prereqs@), nodes@[i2]@, nodes@[j]@)));
                    }
                }
            } else {
                assert(strings_view(nodes@).contains(targets@[k as int]@));
            }
        } else {
            proof {
                assert forall|i2: int, j: int| 0 <= i2 < n && 0 <= j < n implies #[trigger] adj@[i2]@[j] == (start[i2]@[j]
                    || rule_edge_between(tk1, strings_view(prereqs@), nodes@[i2]@, nodes@[j]@)) by {
                    assert(before[i2]@[j] == (start[i2]@[j] || rule_edge_between(tk, strings_view(prereqs@), nodes@[i2]@, nodes@[j]@)));
                }
            }
        }
        k += 1;
    }
    assert(targets@.subrange(0, k as int) =~= targets@);
}

impl DependencyGraph {
    #[verifier::type_invariant]
    spec fn well_formed(self) -> bool {
        self@.wf() && self.adj@.len() == self.nodes@.len()
    }

    /// Build the graph from a parsed Makefile. See the module docs for the
    /// filtering rules applied to targets and prerequisites.
    pub fn from_makefile(makefile: &Makefile) -> (g: Self)
        ensures
            g@.wf(),
            forall|a: Seq<char>| g@.nodes.contains(a) <==> defines_graph_target(makefile, a),
            forall|a: Seq<char>, b: Seq<char>| g@.has_edge(a, b) <==> spec_dependency(makefile, a, b),
            graph_of(g@, makefile),
    {
        let rules = &makefile.rules;
        let mut nodes: Vec<String> = Vec::new();
        let mut ri: usize = 0;
        while ri < rules.len()
            invariant
                ri <= rules@.len(),
                rules == &makefile.rules,
                sorted_strs(strings_view(nodes@)),
                forall|a: Seq<char>| #[trigger] strings_view(nodes@).contains(a) <==> exists|i: int| 0 <= i < ri && rule_defines(#[trigger] rules@[i]@, a),
            decreases rules@.len() - ri,
        {
            let targets = &rules[ri].targets;
            let mut ti: usize = 0;
            while ti < targets.len()
                invariant
                    ri < rules@.len(),
                    targets == &rules@[ri as int].targets,
                    ti <= targets@.len(),
                    sorted_strs(strings_view(nodes@)),
                    forall|a: Seq<char>| #[trigger] strings_view(nodes@).contains(a) <==> (exists|i: int| 0 <= i < ri && rule_defines(#[trigger] rules@[i]@, a))
                        || (strings_view(targets@.subrange(0, ti as int)).contains(a) && spec_is_graph_target(a)),
                decreases targets@.len() - ti,
            {
                let ghost tk = strings_view(targets@.subrange(0, ti as int));
                let ghost tk1 = strings_view(targets@.subrange(0, (ti + 1) as int));
                assert(tk1 =~= tk.push(targets@[ti as int]@));
                assert forall|x: Seq<char>| tk1.contains(x) <==> tk.contains(x) || x == targets@[ti as int]@ by {
                    lemma_push_contains(tk, targets@[ti as int]@, x);
                }
                let ghost before = strings_view(nodes@);
                let ghost t = targets@[ti as int]@;
                if is_graph_target(targets[ti].as_str()) {
                    insert_sorted_str(&mut nodes, &targets[ti]);
                    assert(forall|a: Seq<char>| #[trigger] strings_view(nodes@).contains(a) <==> before.contains(a) || a == t);
                    assert(spec_is_graph_target(t));
                } else {
                    assert(!spec_is_graph_target(t));
                }
                assert forall|a: Seq<char>| #[trigger] strings_view(nodes@).contains(a) <==> (exists|i: int| 0 <= i < ri && rule_defines(#[trigger] rules@[i]@, a))
                        || (tk1.contains(a) && spec_is_graph_target(a)) by {
                    assert(#[trigger] before.contains(a) <==> (exists|i: int| 0 <= i < ri && rule_defines(#[trigger] rules@[i]@, a))
                        || (tk.contains(a) && spec_is_graph_target(a)));
                }
                ti += 1;
            }
            proof {
                assert(targets@.subrange(0, ti as int) =~= targets@);
                assert(strings_view(targets@) == rules@[ri as int]@.targets);
                assert forall|a: Seq<char>| #[trigger] strings_view(nodes@).contains(a) <==> exists|i: int| 0 <= i < ri + 1 && rule_defines(#[trigger] rules@[i]@, a) by {
                    if exists|i: int| 0 <= i < ri + 1 && rule_defines(#[trigger] rules@[i]@, a) {
                        let i = choose|i: int| 0 <= i < ri + 1 && rule_defines(#[trigger] rules@[i]@, a);
                        if i == ri {
                        }
                    }
                }
            }
            ri += 1;
        }
        let n = nodes.len();
        let mut adj: Vec<Vec<bool>> = Vec::new();
        let mut i: usize = 0;
        while i < n
            invariant
                n == nodes@.len(),
                i <= n,
                adj@.len() == i,
                forall|m: int| 0 <= m < i ==> (#[trigger] adj@[m])@ == Seq::new(n as nat, |x: int| false),
            decreases n - i,
        {
            let mut row: Vec<bool> = Vec::new();
            let mut k: usize = 0;
            while k < n
                invariant
                    k <= n,
                    row@ == Seq::new(k as nat, |x: int| false),
                decreases n - k,
            {
                row.push(false);
                k += 1;
                assert(row@ =~= Seq::new(k as nat, |x: int| false));
            }
            adj.push(row);
            i += 1;
        }
        proof {
            assert forall|m: int| 0 <= m < n implies (#[trigger] rows_view(adj@)[m]).len() == n && !rows_view(adj@)[m][m] by {
                assert(rows_view(adj@)[m] == adj@[m]@);
            }
        }
        ri = 0;
        while ri < rules.len()
            invariant
                ri <= rules@.len(),
                rules == &makefile.rules,
                n == nodes@.len(),
                sorted_strs(strings_view(nodes@)),
                forall|a: Seq<char>| #[trigger] strings_view(nodes@).contains(a) <==> defines_graph_target(makefile, a),
                adj_ok(rows_view(adj@), n as int),
                adj@.len() == n,
                forall|i: int, j: int|
                    0 <= i < n && 0 <= j < n ==> #[trigger] adj@[i]@[j]
                        == exists|r: int| 0 <= r < ri && rule_edge(#[trigger] rules@[r]@, nodes@[i]@, nodes@[j]@),
            decreases rules@.len() - ri,
        {
            let ghost before = adj@;
            let ghost rv = rules@[ri as int]@;
            proof {
                assert forall|a: Seq<char>| strings_view(rules@[ri as int].targets@).contains(a) && spec_is_graph_target(a) implies strings_view(nodes@).contains(a) by {
                    assert(rules@[ri as int]@.targets == strings_view(rules@[ri as int].targets@));
                    assert(rule_defines(rules@[ri as int]@, a));
                    assert(defines_graph_target(makefile, a));
                }
            }
            add_rule_edges(&mut adj, &nodes, &rules[ri].targets, &rules[ri].prerequisites);
            proof {
                assert forall|i: int, j: int| 0 <= i < n && 0 <= j < n implies #[trigger] adj@[i]@[j]
                    == exists|r: int| 0 <= r < ri + 1 && rule_edge(#[trigger] rules@[r]@, nodes@[i]@, nodes@[j]@) by {
                    assert(rule_edge(rv, nodes@[i]@, nodes@[j]@) == rule_edge_between(strings_view(rules@[ri as int].targets@), strings_view(rules@[ri as int].prerequisites@), nodes@[i]@, nodes@[j]@));
                    if exists|r: int| 0 <= r < ri + 1 && rule_edge(#[trigger] rules@[r]@, nodes@[i]@, nodes@[j]@) {
                        let r = choose|r: int| 0 <= r < ri + 1 && rule_edge(#[trigger] rules@[r]@, nodes@[i]@, nodes@[j]@);
                        if r < ri {
                        }
                    }
                    assert(before[i]@[j] == exists|r: int| 0 <= r < ri && rule_edge(#[trigger] rules@[r]@, nodes@[i]@, nodes@[j]@));
                }
            }
            ri += 1;
        }
        let g = DependencyGraph { nodes, adj };
        proof {
            let gv = g@;
            assert(gv.nodes == strings_view(g.nodes@));
            assert forall|a: Seq<char>| gv.nodes.contains(a) <==> defines_graph_target(makefile, a) by {}
            assert forall|a: Seq<char>, b: Seq<char>| gv.has_edge(a, b) <==> spec_dependency(makefile, a, b) by {
                if gv.has_edge(a, b) {
                    let (i, j) = choose|i: int, j: int|
                        0 <= i < gv.nodes.len() && 0 <= j < gv.nodes.len() && #[trigger] gv.nodes[i] == a
                            && #[trigger] gv.nodes[j] == b && gv.idx_edge(i, j);
                    assert(rows_view(g.adj@)[i] == g.adj@[i]@);
                    assert(g.adj@[i]@[j]);
                    assert(strings_view(g.nodes@)[j] == b);
                    assert(strings_view(g.nodes@).contains(b));
                }
                if spec_dependency(makefile, a, b) {
                    let r = choose|r: int| 0 <= r < rules@.len() && rule_edge(#[trigger] rules@[r]@, a, b);
                    assert(rule_defines(rules@[r]@, a));
                    assert(defines_graph_target(makefile, a));
                    assert(strings_view(g.nodes@).contains(a));
                    assert(strings_view(g.nodes@).contains(b));
                    let i = choose|i: int| 0 <= i < strings_view(g.nodes@).len() && strings_view(g.nodes@)[i] == a;
                    let j = choose|j: int| 0 <= j < strings_view(g.nodes@).len() && strings_view(g.nodes@)[j] == b;
                    assert(g.adj@[i]@[j]);
                    assert(rows_view(g.adj@)[i] == g.adj@[i]@);
                    assert(gv.idx_edge(i, j));
                    assert(gv.nodes[i] == a && gv.nodes[j] == b);
                }
            }
        }
        g
    }
}

/// The names `nodes[j]` with `flags[j]` set, in order.
fn names_where(nodes: &Vec<String>, flags: &Vec<bool>) -> (r: Vec<String>)
    requires
        sorted_strs(strings_view(nodes@)),
        flags@.len() == nodes@.len(),
    ensures
        sorted_strs(strings_view(r@)),
        forall|b: Seq<char>| #[trigger] strings_view(r@).contains(b) <==> exists|j: int|
            0 <= j < nodes@.len() && flags@[j] && #[trigger] nodes@[j]@ == b,
{
    let mut r: Vec<String> = Vec::new();
    let ghost mut idx: Seq<int> = Seq::empty();
    let mut j: usize = 0;
    while j < nodes.len()
        invariant
            j <= nodes@.len(),
            flags@.len() == nodes@.len(),
            sorted_strs(strings_view(nodes@)),
            idx.len() == r@.len(),
            forall|k: int| 0 <= k < idx.len() ==> 0 <= #[trigger] idx[k] < j && r@[k]@ == nodes@[idx[k]]@ && flags@[idx[k]],
            forall|k1: int, k2: int| 0 <= k1 < k2 < idx.len() ==> #[trigger] idx[k1] < #[trigger] idx[k2],
            forall|j2: int| 0 <= j2 < j && flags@[j2] ==> exists|k: int| 0 <= k < idx.len() && #[trigger] idx[k] == j2,
        decreases nodes@.len() - j,
    {
        let ghost old_idx = idx;
        if flags[j] {
            r.push(nodes[j].clone());
            proof {
                idx = idx.push(j as int);
                assert(idx[idx.len() - 1] == j);
            }
        }
        proof {
            assert forall|j2: int| 0 <= j2 < j + 1 && flags@[j2] implies exists|k: int| 0 <= k < idx.len() && #[trigger] idx[k] == j2 by {
                if j2 < j {
                    let k = choose|k: int| 0 <= k < old_idx.len() && #[trigger] old_idx[k] == j2;
                    assert(idx[k] == j2);
                } else {
                    assert(idx[idx.len() - 1] == j2);
                }
            }
        }
        j += 1;
    }
    proof {
        let rv = strings_view(r@);
        assert forall|a: int, b: int| 0 <= a < b < rv.len() implies str_lt(#[trigger] rv[a], #[trigger] rv[b]) by {
            assert(strings_view(nodes@)[idx[a]] == nodes@[idx[a]]@);
            assert(strings_view(nodes@)[idx[b]] == nodes@[idx[b]]@);
        }
        assert forall|b: Seq<char>| #[trigger] rv.contains(b) <==> exists|j: int|
            0 <= j < nodes@.len() && flags@[j] && #[trigger] nodes@[j]@ == b by {
            if rv.contains(b) {
                let k = choose|k: int| 0 <= k < rv.len() && rv[k] == b;
                assert(nodes@[idx[k]]@ == b);
            }
            if exists|j: int| 0 <= j < nodes@.len() && flags@[j] && #[trigger] nodes@[j]@ == b {
                let j = choose|j: int| 0 <= j < nodes@.len() && flags@[j] && #[trigger] nodes@[j]@ == b;
                let k = choose|k: int| 0 <= k < idx.len() && #[trigger] idx[k] == j;
                assert(rv[k] == b);
            }
        }
    }
    r
}

impl DependencyGraph {
    /// The targets that have an entry in the graph, in sorted order.
    pub fn targets(&self) -> (r: Vec<String>)
        ensures
            strings_view(r@) == self@.nodes,
    {
        let mut r: Vec<String> = Vec::new();
        let mut i: usize = 0;
        while i < self.nodes.len()
            invariant
                i <= self.nodes@.len(),
                r@.len() == i,
                strings_view(r@) == strings_view(self.nodes@.subrange(0, i as int)),
            decreases self.nodes@.len() - i,
        {
            let ghost old_r = r@;
            let c = self.nodes[i].clone();
            assert(c@ == self.nodes@[i as int]@);
            r.push(c);
            i += 1;
            assert(r@[i - 1]@ == self.nodes@.subrange(0, i as int)[i - 1]@);
            assert forall|k: int| 0 <= k < i implies #[trigger] strings_view(r@)[k] == strings_view(self.nodes@.subrange(0, i as int))[k] by {
                if k < i - 1 {
                    assert(strings_view(old_r)[k] == strings_view(self.nodes@.subrange(0, i - 1))[k]);
                }
            }
            assert(strings_view(r@) =~= strings_view(self.nodes@.subrange(0, i as int)));
        }
        assert(self.nodes@.subrange(0, i as int) =~= self.nodes@);
        r
    }

    /// Direct prerequisites of `target` that are themselves targets, in sorted
    /// order. Empty for unknown or leaf targets.
    pub fn prerequisites(&self, target: &str) -> (r: Vec<String>)
        ensures
            sorted_strs(strings_view(r@)),
            forall|b: Seq<char>| #[trigger] strings_view(r@).contains(b) <==> self@.prerequisite_set(target@).contains(b),
    {
        proof {
            use_type_invariant(self);
        }
        match find_str(&self.nodes, target) {
            Some(i) => {
                assert(rows_view(self.adj@)[i as int] == self.adj@[i as int]@);
                let r = names_where(&self.nodes, &self.adj[i]);
                proof {
                    let g = self@;
                    assert(rows_view(self.adj@)[i as int] == self.adj@[i as int]@);
                    assert forall|b: Seq<char>| #[trigger] strings_view(r@).contains(b) <==> g.has_edge(target@, b) by {
                        if g.has_edge(target@, b) {
                            let (i2, j) = choose|i2: int, j: int|
                                0 <= i2 < g.nodes.len() && 0 <= j < g.nodes.len() && #[trigger] g.nodes[i2] == target@
                                    && #[trigger] g.nodes[j] == b && g.idx_edge(i2, j);
                            assert(g.nodes[i as int] == target@);
                            lemma_sorted_distinct(g.nodes, i as int, i2);
                            assert(rows_view(self.adj@)[i2] == self.adj@[i2]@);
                            assert(self.nodes@[j]@ == b);
                        }
                        if strings_view(r@).contains(b) {
                            let j = choose|j: int| 0 <= j < self.nodes@.len() && self.adj@[i as int]@[j] && #[trigger] self.nodes@[j]@ == b;
                            assert(g.nodes[i as int] == target@ && g.nodes[j] == b && g.idx_edge(i as int, j));
                        }
                    }
                }
                r
            },
            None => {
                let r: Vec<String> = Vec::new();
                proof {
                    let g = self@;
                    assert forall|b: Seq<char>| #[trigger] strings_view(r@).contains(b) <==> g.has_edge(target@, b) by {
                        if g.has_edge(target@, b) {
                            let (i2, j) = choose|i2: int, j: int|
                                0 <= i2 < g.nodes.len() && 0 <= j < g.nodes.len() && #[trigger] g.nodes[i2] == target@
                                    && #[trigger] g.nodes[j] == b && g.idx_edge(i2, j);
                            assert(g.nodes.contains(target@));
                        }
                    }
                }
                r
            },
        }
    }

    /// Targets that list `target` as a prerequisite, in sorted order.
    pub fn referrers(&self, target: &str) -> (r: Vec<String>)
        ensures
            sorted_strs(strings_view(r@)),
            forall|a: Seq<char>| #[trigger] strings_view(r@).contains(a) <==> self@.referrer_set(target@).contains(a),
    {
        proof {
            use_type_invariant(self);
        }
        let n = self.nodes.len();
        let found = find_str(&self.nodes, target);
        let mut col: Vec<bool> = Vec::new();
        let mut i: usize = 0;
        while i < n
            invariant
                n == self.nodes@.len(),
                self@.wf(),
                self.adj@.len() == n,
                i <= n,
                col@.len() == i,
                found matches Some(t) ==> t < n,
                forall|k: int| 0 <= k < i ==> #[trigger] col@[k] == (match found {
                    Some(t) => self.adj@[k]@[t as int],
                    None => false,
                }),
            decreases n - i,
        {
            assert(rows_view(self.adj@)[i as int] == self.adj@[i as int]@);
            let flag = match found {
                Some(t) => self.adj[i][t],
                None => false,
            };
            col.push(flag);
            i += 1;
        }
        let r = names_where(&self.nodes, &col);
        proof {
            let g = self@;
            assert forall|a: Seq<char>| #[trigger] strings_view(r@).contains(a) <==> g.has_edge(a, target@) by {
                if g.has_edge(a, target@) {
                    let (i2, j) = choose|i2: int, j: int|
                        0 <= i2 < g.nodes.len() && 0 <= j < g.nodes.len() && #[trigger] g.nodes[i2] == a
                            && #[trigger] g.nodes[j] == target@ && g.idx_edge(i2, j);
                    assert(g.nodes.contains(target@));
                    let t = found.unwrap();
                    assert(g.nodes[t as int] == target@);
                    lemma_sorted_distinct(g.nodes, t as int, j);
                    assert(rows_view(self.adj@)[i2] == self.adj@[i2]@);
                    assert(col@[i2]);
                    assert(self.nodes@[i2]@ == a);
                }
                if strings_view(r@).contains(a) {
                    let k = choose|k: int| 0 <= k < self.nodes@.len() && col@[k] && #[trigger] self.nodes@[k]@ == a;
                    let t = found.unwrap();
                    assert(rows_view(self.adj@)[k] == self.adj@[k]@);
                    assert(g.nodes[k] == a && g.nodes[t as int] == target@ && g.idx_edge(k, t as int));
                }
            }
        }
        r
    }
}

pub open spec fn paths_view(s: Seq<Vec<usize>>) -> Seq<Seq<usize>> {
    s.map_values(|v: Vec<usize>| v@)
}

/// A sequence without duplicates of values below `n` has at most `n` elements.
proof fn lemma_distinct_len(s: Seq<usize>, n: nat)
    requires
        s.no_duplicates(),
        forall|k: int| 0 <= k < s.len() ==> #[trigger] s[k] < n,
    ensures
        s.len() <= n,
    decreases n,
{
    if n == 0 {
        if s.len() > 0 {
            assert(s[0] < 0);
        }
    } else {
        let m = (n - 1) as usize;
        if s.contains(m) {
            let k = choose|k: int| 0 <= k < s.len() && s[k] == m;
            let t = s.remove(k);
            assert forall|a: int, b: int| 0 <= a < b < t.len() implies t[a] != t[b] by {
                let a2 = if a < k { a } else { a + 1 };
                let b2 = if b < k { b } else { b + 1 };
                assert(s[a2] != s[b2]);
            }
            assert forall|a: int| 0 <= a < t.len() implies #[trigger] t[a] < (n - 1) as nat by {
                let a2 = if a < k { a } else { a + 1 };
                assert(s[a2] != s[k]);
            }
            lemma_distinct_len(t, (n - 1) as nat);
        } else {
            assert forall|a: int| 0 <= a < s.len() implies #[trigger] s[a] < (n - 1) as nat by {
                assert(s[a] != m);
            }
            lemma_distinct_len(s, (n - 1) as nat);
        }
    }
}

fn contains_idx(v: &Vec<usize>, x: usize) -> (r: bool)
    ensures
        r == v@.contains(x),
{
    let mut i: usize = 0;
    while i < v.len()
        invariant
            i <= v@.len(),
            forall|j: int| 0 <= j < i ==> v@[j] != x,
        decreases v@.len() - i,
    {
        if v[i] == x {
            assert(v@[i as int] == x);
            return true;
        }
        i += 1;
    }
    false
}

fn same_path(a: &Vec<usize>, b: &Vec<usize>) -> (r: bool)
    ensures
        r == (a@ == b@),
{
    if a.len() != b.len() {
        return false;
    }
    let mut i: usize = 0;
    while i < a.len()
        invariant
            a@.len() == b@.len(),
            i <= a@.len(),
            forall|j: int| 0 <= j < i ==> a@[j] == b@[j],
        decreases a@.len() - i,
    {
        if a[i] != b[i] {
            return false;
        }
        i += 1;
    }
    assert(a@ =~= b@);
    true
}

fn contains_path(out: &Vec<Vec<usize>>, p: &Vec<usize>) -> (r: bool)
    ensures
        r == paths_view(out@).contains(p@),
{
    let mut i: usize = 0;
    while i < out.len()
        invariant
            i <= out@.len(),
            forall|j: int| 0 <= j < i ==> out@[j]@ != p@,
        decreases out@.len() - i,
    {
        if same_path(&out[i], p) {
            assert(paths_view(out@)[i as int] == p@);
            return true;
        }
        i += 1;
    }
    proof {
        if paths_view(out@).contains(p@) {
            let k = choose|k: int| 0 <= k < paths_view(out@).len() && paths_view(out@)[k] == p@;
            assert(out@[k]@ == p@);
        }
    }
    false
}

fn copy_path(p: &Vec<usize>) -> (r: Vec<usize>)
    ensures
        r@ == p@,
{
    let mut r: Vec<usize> = Vec::new();
    let mut i: usize = 0;
    while i < p.len()
        invariant
            i <= p@.len(),
            r@ == p@.subrange(0, i as int),
        decreases p@.len() - i,
    {
        r.push(p[i]);
        i += 1;
        assert(r@ =~= p@.subrange(0, i as int));
    }
    assert(p@.subrange(0, i as int) =~= p@);
    r
}

/// `a` comes before `b` in lexicographic order: at the first place where
/// they differ `a` is smaller, or `a` is a proper prefix of `b`.
pub open spec fn idx_lex_lt(a: Seq<usize>, b: Seq<usize>) -> bool
    decreases a.len(),
{
    if a.len() == 0 {
        b.len() > 0
    } else if b.len() == 0 {
        false
    } else if a[0] < b[0] {
        true
    } else if a[0] == b[0] {
        idx_lex_lt(a.drop_first(), b.drop_first())
    } else {
        false
    }
}

/// Strictly increasing in lexicographic order.
pub open spec fn idx_sorted(s: Seq<Seq<usize>>) -> bool {
    forall|i: int, j: int| 0 <= i < j < s.len() ==> idx_lex_lt(#[trigger] s[i], #[trigger] s[j])
}

/// The simple cycles of `g`, each from its smallest node, in lexicographic
/// order of their node indices: the order in which a depth-first walk that
/// starts from each node in turn and tries successors in index order finds
/// them. (The nodes are sorted by name, so this is also the order of the
/// names.)
pub open spec fn cycle_list(g: GraphView) -> Seq<Seq<usize>> {
    choose|s: Seq<Seq<usize>>| idx_sorted(s) && forall|c: Seq<usize>| #[trigger] s.contains(c) <==> g.idx_cycle(c)
}

/// The cycles of `g`, by name, in the order of `cycle_list`.
pub open spec fn cycle_names(g: GraphView) -> Seq<Seq<Seq<char>>> {
    cycle_list(g).map_values(|c: Seq<usize>| names_of(g.nodes, c))
}

/// Equal up to `k`, then smaller at `k` or ended at `k`: lexicographically
/// smaller.
proof fn lemma_lex_at(a: Seq<usize>, b: Seq<usize>, k: int)
    requires
        0 <= k <= a.len(),
        k <= b.len(),
        a.subrange(0, k) == b.subrange(0, k),
        (k == a.len() && k < b.len()) || (k < a.len() && k < b.len() && a[k] < b[k]),
    ensures
        idx_lex_lt(a, b),
    decreases k,
{
    if k > 0 {
        assert(a[0] == a.subrange(0, k)[0]);
        assert(b[0] == b.subrange(0, k)[0]);
        assert(a.drop_first().subrange(0, k - 1) =~= a.subrange(0, k).drop_first());
        assert(b.drop_first().subrange(0, k - 1) =~= b.subrange(0, k).drop_first());
        lemma_lex_at(a.drop_first(), b.drop_first(), k - 1);
    }
}

proof fn lemma_lex_asymmetric(a: Seq<usize>, b: Seq<usize>)
    ensures
        idx_lex_lt(a, b) ==> !idx_lex_lt(b, a),
    decreases a.len(),
{
    if a.len() > 0 && b.len() > 0 && a[0] == b[0] {
        lemma_lex_asymmetric(a.drop_first(), b.drop_first());
    }
}

/// Two strictly sorted sequences with the same elements are equal.
proof fn lemma_sorted_unique(s: Seq<Seq<usize>>, t: Seq<Seq<usize>>)
    requires
        idx_sorted(s),
        idx_sorted(t),
        forall|c: Seq<usize>| #![trigger s.contains(c)] #![trigger t.contains(c)] s.contains(c) <==> t.contains(c),
    ensures
        s == t,
    decreases s.len(),
{
    if s.len() == 0 {
        if t.len() > 0 {
            assert(t.contains(t[0]));
            assert(s.contains(t[0]));
        }
        assert(s =~= t);
    } else {
        assert(s.contains(s[0]));
        assert(t.contains(s[0]));
        assert(t.len() > 0);
        let j = choose|j: int| 0 <= j < t.len() && t[j] == s[0];
        assert(t.contains(t[0]));
        assert(s.contains(t[0]));
        let i = choose|i: int| 0 <= i < s.len() && s[i] == t[0];
        if j > 0 {
            assert(idx_lex_lt(t[0], t[j]));
            if i > 0 {
                assert(idx_lex_lt(s[0], s[i]));
                lemma_lex_asymmetric(s[0], s[i]);
            } else {
                lemma_lex_asymmetric(s[0], s[0]);
            }
        }
        assert(t[0] == s[0]);
        let s1 = s.drop_first();
        let t1 = t.drop_first();
        assert forall|c: Seq<usize>| #![trigger s1.contains(c)] #![trigger t1.contains(c)] s1.contains(c) <==> t1.contains(c) by {
            if s1.contains(c) {
                let k = choose|k: int| 0 <= k < s1.len() && s1[k] == c;
                assert(s[k + 1] == c);
                assert(s.contains(c));
                let m = choose|m: int| 0 <= m < t.len() && t[m] == c;
                assert(idx_lex_lt(s[0], s[k + 1]));
                lemma_lex_asymmetric(s[0], s[0]);
                assert(m != 0);
                assert(t1[m - 1] == c);
            }
            if t1.contains(c) {
                let k = choose|k: int| 0 <= k < t1.len() && t1[k] == c;
                assert(t[k + 1] == c);
                assert(t.contains(c));
                let m = choose|m: int| 0 <= m < s.len() && s[m] == c;
                assert(idx_lex_lt(t[0], t[k + 1]));
                lemma_lex_asymmetric(t[0], t[0]);
                assert(m != 0);
                assert(s1[m - 1] == c);
            }
        }
        assert forall|a: int, b: int| 0 <= a < b < s1.len() implies idx_lex_lt(#[trigger] s1[a], #[trigger] s1[b]) by {
            assert(idx_lex_lt(s[a + 1], s[b + 1]));
        }
        assert forall|a: int, b: int| 0 <= a < b < t1.len() implies idx_lex_lt(#[trigger] t1[a], #[trigger] t1[b]) by {
            assert(idx_lex_lt(t[a + 1], t[b + 1]));
        }
        lemma_sorted_unique(s1, t1);
        assert(s.len() == t.len());
        assert forall|k: int| 0 <= k < s.len() implies s[k] == t[k] by {
            if k > 0 {
                assert(s[k] == s1[k - 1]);
                assert(t[k] == t1[k - 1]);
            }
        }
        assert(s =~= t);
    }
}

/// A cycle has been looked for, from `path` on, before trying successor `v`.
pub open spec fn cycle_done(c: Seq<usize>, path: Seq<usize>, v: int) -> bool {
    (c.len() == path.len() && path[0] < v) || (c.len() > path.len() && c[path.len() as int] < v)
}

/// The entries of `out` from `from` on all start with `p` and are in
/// lexicographic order.
pub open spec fn with_prefix_sorted(out: Seq<Seq<usize>>, from: int, p: Seq<usize>) -> bool {
    &&& forall|k: int| from <= k < out.len() ==> (#[trigger] out[k]).len() >= p.len() && out[k].subrange(0, p.len() as int) == p
    &&& forall|i: int, j: int| from <= i < j < out.len() ==> idx_lex_lt(#[trigger] out[i], #[trigger] out[j])
}

/// The entries of `out` from `from` on are `p` itself or continue it with a
/// successor between `s` and `v`.
pub open spec fn below_successor(out: Seq<Seq<usize>>, from: int, p: Seq<usize>, s: usize, v: int) -> bool {
    forall|k: int| from <= k < out.len() ==> (#[trigger] out[k]).len() == p.len() || (s < out[k][p.len() as int] && out[k][p.len() as int] < v)
}

impl DependencyGraph {
    /// Record every cycle that extends `path`.
    fn extend_cycles(&self, path: &mut Vec<usize>, out: &mut Vec<Vec<usize>>)
        requires
            self@.wf(),
            self.adj@.len() == self.nodes@.len(),
            self@.idx_path(old(path)@),
            forall|k: int| 0 <= k < old(out)@.len() ==> self@.idx_cycle(#[trigger] old(out)@[k]@),
            paths_view(old(out)@).no_duplicates(),
        ensures
            final(path)@ == old(path)@,
            final(out)@.len() >= old(out)@.len(),
            forall|k: int| 0 <= k < old(out)@.len() ==> #[trigger] final(out)@[k]@ == old(out)@[k]@,
            forall|k: int| 0 <= k < final(out)@.len() ==> self@.idx_cycle(#[trigger] final(out)@[k]@),
            paths_view(final(out)@).no_duplicates(),
            forall|c: Seq<usize>|
                self@.idx_cycle(c) && c.len() >= old(path)@.len() && #[trigger] c.subrange(0, old(path)@.len() as int)
                    == old(path)@ ==> paths_view(final(out)@).contains(c),
            with_prefix_sorted(paths_view(final(out)@), old(out)@.len() as int, old(path)@),
        decreases self.nodes@.len() - old(path)@.len(),
    {
        let ghost g = self@;
        let ghost p0 = path@;
        let ghost out0 = out@;
        let n = self.nodes.len();
        proof {
            lemma_distinct_len(p0, n as nat);
        }
        let last = path[path.len() - 1];
        let s = path[0];
        assert(rows_view(self.adj@)[last as int] == self.adj@[last as int]@);
        let mut v: usize = 0;
        while v < n
            invariant
                g == self@,
                g.wf(),
                self.adj@.len() == n,
                n == self.nodes@.len(),
                path@ == p0,
                p0 == old(path)@,
                g.idx_path(p0),
                p0.len() <= n,
                last == p0[p0.len() - 1],
                s == p0[0],
                self.adj@[last as int]@.len() == n,
                rows_view(self.adj@)[last as int] == self.adj@[last as int]@,
                v <= n,
                out@.len() >= out0.len(),
                forall|k: int| 0 <= k < out0.len() ==> #[trigger] out@[k]@ == out0[k]@,
                forall|k: int| 0 <= k < out@.len() ==> g.idx_cycle(#[trigger] out@[k]@),
                paths_view(out@).no_duplicates(),
                forall|c: Seq<usize>|
                    g.idx_cycle(c) && c.len() >= p0.len() && #[trigger] c.subrange(0, p0.len() as int) == p0
                        && cycle_done(c, p0, v as int) ==> paths_view(out@).contains(c),
                with_prefix_sorted(paths_view(out@), out0.len() as int, p0),
                below_successor(paths_view(out@), out0.len() as int, p0, s, v as int),
            decreases n - v,
        {
            let ghost out1 = out@;
            if self.adj[last][v] {
                if v == s {
                    if path.len() >= 2 && !contains_path(out, path) {
                        let copy = copy_path(path);
                        out.push(copy);
                        proof {
                            assert(paths_view(out@) =~= paths_view(out1).push(p0));
                            assert(out@[out@.len() - 1]@ == p0);
                            assert(paths_view(out@)[out@.len() - 1] == p0);
                            assert(paths_view(out@).contains(p0));
                            assert forall|a: int, b: int| 0 <= a < b < paths_view(out@).len() implies paths_view(out@)[a] != paths_view(out@)[b] by {
                                if b == out@.len() - 1 {
                                    assert(paths_view(out1)[a] == paths_view(out@)[a]);
                                } else {
                                    assert(paths_view(out1)[a] != paths_view(out1)[b]);
                                }
                            }
                            if out1.len() > out0.len() {
                                let e = paths_view(out1)[out0.len() as int];
                                if e.len() == p0.len() {
                                    assert(e =~= e.subrange(0, p0.len() as int));
                                    assert(paths_view(out1).contains(p0));
                                }
                            }
                            assert(out1.len() == out0.len());
                            assert(p0.subrange(0, p0.len() as int) =~= p0);
                        }
                    }
                    proof {
                        assert forall|c: Seq<usize>|
                            g.idx_cycle(c) && c.len() >= p0.len() && #[trigger] c.subrange(0, p0.len() as int) == p0
                                && cycle_done(c, p0, v + 1) implies paths_view(out@).contains(c) by {
                            if c.len() == p0.len() && v == s {
                                assert(c =~= p0);
                                assert(paths_view(out@).contains(c) || paths_view(out1).contains(c));
                                if paths_view(out1).contains(c) {
                                    let k = choose|k: int| 0 <= k < paths_view(out1).len() && paths_view(out1)[k] == c;
                                    assert(paths_view(out@)[k] == c);
                                }
                            } else if c.len() > p0.len() && c[p0.len() as int] == v {
                                assert(c[0] == p0[0]);
                                assert(c[0] < c[p0.len() as int]);
                            } else {
                                assert(paths_view(out1).contains(c));
                                let k = choose|k: int| 0 <= k < paths_view(out1).len() && paths_view(out1)[k] == c;
                                assert(paths_view(out@)[k] == c);
                            }
                        }
                    }
                } else if v > s && !contains_idx(path, v) {
                    path.push(v);
                    proof {
                        let p1 = path@;
                        assert(p1 == p0.push(v));
                        assert(g.idx_edge(last as int, v as int));
                        assert forall|a: int, b: int| 0 <= a < b < p1.len() implies p1[a] != p1[b] by {
                            if b == p1.len() - 1 {
                                assert(p0[a] == p1[a]);
                            } else {
                                assert(p0[a] != p0[b]);
                            }
                        }
                        assert(g.idx_path(p1));
                        lemma_distinct_len(p1, n as nat);
                    }
                    assert(path@.len() <= n);
                    assert(path@.len() == p0.len() + 1);
                    let ghost pv = path@;
                    self.extend_cycles(path, out);
                    let _ = path.pop();
                    proof {
                        assert(path@ =~= p0);
                        let po = paths_view(out@);
                        let k0 = p0.len() as int;
                        assert(pv.subrange(0, k0) =~= p0);
                        assert forall|k: int| out1.len() <= k < po.len() implies (#[trigger] po[k]).len() > k0
                            && po[k].subrange(0, k0) == p0 && po[k][k0] == v by {
                            assert(po[k].subrange(0, pv.len() as int) == pv);
                            assert(po[k].subrange(0, k0) =~= pv.subrange(0, k0));
                            assert(po[k][k0] == po[k].subrange(0, pv.len() as int)[k0]);
                        }
                        assert forall|k: int| out0.len() <= k < out1.len() implies #[trigger] po[k] == paths_view(out1)[k] by {
                            assert(out@[k]@ == out1[k]@);
                        }
                        assert forall|k: int| out0.len() <= k < po.len() implies (#[trigger] po[k]).len() >= k0
                            && po[k].subrange(0, k0) == p0 by {
                            if k < out1.len() {
                                assert(po[k] == paths_view(out1)[k]);
                            } else {
                                assert(po[k].len() > k0);
                            }
                        }
                        assert forall|i: int, j: int| out0.len() <= i < j < po.len() implies idx_lex_lt(#[trigger] po[i], #[trigger] po[j]) by {
                            if j < out1.len() {
                                assert(po[i] == paths_view(out1)[i]);
                                assert(po[j] == paths_view(out1)[j]);
                            } else if i < out1.len() {
                                assert(po[i] == paths_view(out1)[i]);
                                assert(po[j].len() > k0 && po[j].subrange(0, k0) == p0 && po[j][k0] == v);
                                lemma_lex_at(po[i], po[j], k0);
                            }
                        }
                        assert forall|k: int| out0.len() <= k < po.len() implies (#[trigger] po[k]).len() == k0
                            || (s < po[k][k0] && po[k][k0] < v + 1) by {
                            if k < out1.len() {
                                assert(po[k] == paths_view(out1)[k]);
                            } else {
                                assert(po[k][k0] == v);
                            }
                        }
                        assert forall|c: Seq<usize>|
                            g.idx_cycle(c) && c.len() >= p0.len() && #[trigger] c.subrange(0, p0.len() as int) == p0
                                && cycle_done(c, p0, v + 1) implies paths_view(out@).contains(c) by {
                            if c.len() > p0.len() && c[p0.len() as int] == v {
                                assert(c.subrange(0, (p0.len() + 1) as int) =~= p0.push(v));
                            } else {
                                assert(paths_view(out1).contains(c));
                                let k = choose|k: int| 0 <= k < paths_view(out1).len() && paths_view(out1)[k] == c;
                                assert(paths_view(out@)[k] == c);
                            }
                        }
                    }
                } else {
                    proof {
                        assert forall|c: Seq<usize>|
                            g.idx_cycle(c) && c.len() >= p0.len() && #[trigger] c.subrange(0, p0.len() as int) == p0
                                && cycle_done(c, p0, v + 1) implies paths_view(out@).contains(c) by {
                            if c.len() > p0.len() && c[p0.len() as int] == v {
                                assert(c[0] == p0[0]);
                                if v < s {
                                    assert(c[0] < c[p0.len() as int]);
                                } else {
                                    let k = choose|k: int| 0 <= k < p0.len() && p0[k] == v;
                                    assert(c[k] == p0[k]);
                                }
                            }
                        }
                    }
                }
            } else {
                proof {
                    assert forall|c: Seq<usize>|
                        g.idx_cycle(c) && c.len() >= p0.len() && #[trigger] c.subrange(0, p0.len() as int) == p0
                            && cycle_done(c, p0, v + 1) implies paths_view(out@).contains(c) by {
                        if c.len() == p0.len() && v == s {
                            assert(c =~= p0);
                            assert(c[c.len() - 1] == last);
                        } else if c.len() > p0.len() && c[p0.len() as int] == v {
                            assert(c[p0.len() - 1] == last);
                            assert(g.idx_edge(c[p0.len() - 1] as int, c[p0.len() as int] as int));
                        }
                    }
                }
            }
            v += 1;
        }
        proof {
            assert forall|c: Seq<usize>|
                g.idx_cycle(c) && c.len() >= p0.len() && #[trigger] c.subrange(0, p0.len() as int) == p0
                    implies paths_view(out@).contains(c) by {
                assert(cycle_done(c, p0, n as int));
            }
        }
    }
}

/// The names of the nodes of an index sequence.
pub open spec fn names_of(nodes: Seq<Seq<char>>, c: Seq<usize>) -> Seq<Seq<char>> {
    c.map_values(|i: usize| nodes[i as int])
}

pub open spec fn cycles_view(s: Seq<Vec<String>>) -> Seq<Seq<Seq<char>>> {
    s.map_values(|v: Vec<String>| strings_view(v@))
}

proof fn lemma_sorted_lt(s: Seq<Seq<char>>, i: int, j: int)
    requires
        sorted_strs(s),
        0 <= i < s.len(),
        0 <= j < s.len(),
        str_lt(s[i], s[j]),
    ensures
        i < j,
{
    if j < i {
        lemma_str_lt_order(s[j], s[i], s[j]);
    } else if i == j {
        lemma_str_lt_order(s[i], s[i], s[i]);
    }
}

/// An index cycle names a cycle.
proof fn lemma_idx_cycle_names(g: GraphView, c: Seq<usize>)
    requires
        g.wf(),
        g.idx_cycle(c),
    ensures
        g.is_cycle(names_of(g.nodes, c)),
{
    let cn = names_of(g.nodes, c);
    assert forall|a: int, b: int| 0 <= a < b < cn.len() implies cn[a] != cn[b] by {
        if cn[a] == cn[b] {
            lemma_sorted_distinct(g.nodes, c[a] as int, c[b] as int);
        }
    }
    assert forall|k: int| 0 <= k < cn.len() - 1 implies g.has_edge(#[trigger] cn[k], cn[k + 1]) by {
        assert(g.idx_edge(c[k] as int, c[k + 1] as int));
        assert(g.nodes[c[k] as int] == cn[k] && g.nodes[c[k + 1] as int] == cn[k + 1]);
    }
    assert(g.idx_edge(c[c.len() - 1] as int, c[0] as int));
    assert(g.nodes[c[c.len() - 1] as int] == cn[cn.len() - 1] && g.nodes[c[0] as int] == cn[0]);
    assert forall|k: int| 1 <= k < cn.len() implies str_lt(cn[0], #[trigger] cn[k]) by {
        assert(c[0] < c[k]);
    }
}

/// A named cycle comes from an index cycle.
proof fn lemma_names_cycle_idx(g: GraphView, cn: Seq<Seq<char>>) -> (c: Seq<usize>)
    requires
        g.wf(),
        g.is_cycle(cn),
    ensures
        g.idx_cycle(c),
        names_of(g.nodes, c) == cn,
{
    let n = g.nodes.len();
    assert forall|k: int| 0 <= k < cn.len() implies g.nodes.contains(#[trigger] cn[k]) by {
        if k < cn.len() - 1 {
            assert(g.has_edge(cn[k], cn[k + 1]));
            let (i, j) = choose|i: int, j: int|
                0 <= i < g.nodes.len() && 0 <= j < g.nodes.len() && #[trigger] g.nodes[i] == cn[k]
                    && #[trigger] g.nodes[j] == cn[k + 1] && g.idx_edge(i, j);
            assert(g.nodes[i] == cn[k]);
        } else {
            let (i, j) = choose|i: int, j: int|
                0 <= i < g.nodes.len() && 0 <= j < g.nodes.len() && #[trigger] g.nodes[i] == cn[cn.len() - 1]
                    && #[trigger] g.nodes[j] == cn[0] && g.idx_edge(i, j);
            assert(g.nodes[i] == cn[k]);
        }
    }
    let c = Seq::new(cn.len(), |k: int| (choose|i: int| 0 <= i < n && g.nodes[i] == cn[k]) as usize);
    assert forall|k: int| 0 <= k < cn.len() implies #[trigger] c[k] < n && g.nodes[c[k] as int] == cn[k] by {
        assert(g.nodes.contains(cn[k]));
        let i = choose|i: int| 0 <= i < n && g.nodes[i] == cn[k];
        assert(c[k] == i as usize);
    }
    assert(names_of(g.nodes, c) =~= cn);
    assert forall|a: int, b: int| 0 <= a < b < c.len() implies c[a] != c[b] by {
        assert(cn[a] != cn[b]);
    }
    assert forall|k: int| 1 <= k < c.len() implies c[0] < #[trigger] c[k] by {
        assert(str_lt(cn[0], cn[k]));
        lemma_sorted_lt(g.nodes, c[0] as int, c[k] as int);
    }
    assert forall|k: int| 0 <= k < c.len() - 1 implies g.idx_edge(#[trigger] c[k] as int, c[k + 1] as int) by {
        assert(g.has_edge(cn[k], cn[k + 1]));
        let (i, j) = choose|i: int, j: int|
            0 <= i < g.nodes.len() && 0 <= j < g.nodes.len() && #[trigger] g.nodes[i] == cn[k]
                && #[trigger] g.nodes[j] == cn[k + 1] && g.idx_edge(i, j);
        lemma_sorted_distinct(g.nodes, i, c[k] as int);
        lemma_sorted_distinct(g.nodes, j, c[k + 1] as int);
    }
    let (i, j) = choose|i: int, j: int|
        0 <= i < g.nodes.len() && 0 <= j < g.nodes.len() && #[trigger] g.nodes[i] == cn[cn.len() - 1]
            && #[trigger] g.nodes[j] == cn[0] && g.idx_edge(i, j);
    lemma_sorted_distinct(g.nodes, i, c[c.len() - 1] as int);
    lemma_sorted_distinct(g.nodes, j, c[0] as int);
    c
}

/// Distinct index sequences name distinct sequences.
proof fn lemma_names_injective(g: GraphView, c1: Seq<usize>, c2: Seq<usize>)
    requires
        g.wf(),
        forall|k: int| 0 <= k < c1.len() ==> #[trigger] c1[k] < g.nodes.len(),
        forall|k: int| 0 <= k < c2.len() ==> #[trigger] c2[k] < g.nodes.len(),
        names_of(g.nodes, c1) == names_of(g.nodes, c2),
    ensures
        c1 == c2,
{
    assert(c1.len() == names_of(g.nodes, c1).len());
    assert forall|k: int| 0 <= k < c1.len() implies c1[k] == c2[k] by {
        assert(names_of(g.nodes, c1)[k] == names_of(g.nodes, c2)[k]);
        lemma_sorted_distinct(g.nodes, c1[k] as int, c2[k] as int);
    }
    assert(c1 =~= c2);
}

impl DependencyGraph {
    /// The names of the nodes of a path.
    fn path_names(&self, c: &Vec<usize>) -> (r: Vec<String>)
        requires
            forall|k: int| 0 <= k < c@.len() ==> #[trigger] c@[k] < self.nodes@.len(),
        ensures
            strings_view(r@) == names_of(self@.nodes, c@),
    {
        let mut r: Vec<String> = Vec::new();
        let mut i: usize = 0;
        while i < c.len()
            invariant
                i <= c@.len(),
                forall|k: int| 0 <= k < c@.len() ==> #[trigger] c@[k] < self.nodes@.len(),
                r@.len() == i,
                strings_view(r@) == names_of(self@.nodes, c@.subrange(0, i as int)),
            decreases c@.len() - i,
        {
            let ghost old_r = r@;
            let name = self.nodes[c[i]].clone();
            r.push(name);
            i += 1;
            assert forall|k: int| 0 <= k < i implies #[trigger] strings_view(r@)[k] == names_of(self@.nodes, c@.subrange(0, i as int))[k] by {
                if k < i - 1 {
                    assert(strings_view(old_r)[k] == names_of(self@.nodes, c@.subrange(0, i - 1))[k]);
                } else {
                    assert(strings_view(self.nodes@)[c@[k] as int] == self.nodes@[c@[k] as int]@);
                }
            }
            assert(strings_view(r@) =~= names_of(self@.nodes, c@.subrange(0, i as int)));
        }
        assert(c@.subrange(0, i as int) =~= c@);
        r
    }

    /// Find all simple cycles of length ≥ 2 in the graph.
    ///
    /// Each cycle is returned as the list of target names visited, with the
    /// smallest name first (canonical rotation) so equivalent rotations dedupe.
    /// Self-loops are not returned — callers that care about them should check
    /// for `prereq == target` separately. Cycles are returned in the order a
    /// depth-first walk over sorted nodes discovers them, which is the
    /// lexicographic order of their nodes (`cycle_names`).
    pub fn find_cycles(&self) -> (r: Vec<Vec<String>>)
        ensures
            cycles_view(r@).no_duplicates(),
            forall|c: Seq<Seq<char>>| #[trigger] cycles_view(r@).contains(c) <==> self@.is_cycle(c),
            cycles_view(r@) == cycle_names(self@),
    {
        proof {
            use_type_invariant(self);
        }
        let ghost g = self@;
        let n = self.nodes.len();
        let mut out: Vec<Vec<usize>> = Vec::new();
        let mut s: usize = 0;
        while s < n
            invariant
                g == self@,
                g.wf(),
                self.adj@.len() == n,
                n == self.nodes@.len(),
                s <= n,
                forall|k: int| 0 <= k < out@.len() ==> g.idx_cycle(#[trigger] out@[k]@),
                paths_view(out@).no_duplicates(),
                forall|c: Seq<usize>| g.idx_cycle(c) && c[0] < s ==> #[trigger] paths_view(out@).contains(c),
                idx_sorted(paths_view(out@)),
                forall|k: int| 0 <= k < out@.len() ==> (#[trigger] out@[k]@)[0] < s,
            decreases n - s,
        {
            let mut path: Vec<usize> = Vec::new();
            path.push(s);
            let ghost out1 = out@;
            let ghost p = path@;
            self.extend_cycles(&mut path, &mut out);
            proof {
                let po = paths_view(out@);
                assert forall|k: int| out1.len() <= k < po.len() implies (#[trigger] po[k])[0] == s by {
                    assert(po[k].subrange(0, 1) == p);
                    assert(po[k][0] == po[k].subrange(0, 1)[0]);
                }
                assert forall|k: int| 0 <= k < out1.len() implies #[trigger] po[k] == paths_view(out1)[k] by {
                    assert(out@[k]@ == out1[k]@);
                }
                assert forall|i: int, j: int| 0 <= i < j < po.len() implies idx_lex_lt(#[trigger] po[i], #[trigger] po[j]) by {
                    if j < out1.len() {
                        assert(po[i] == paths_view(out1)[i]);
                        assert(po[j] == paths_view(out1)[j]);
                    } else if i < out1.len() {
                        assert(po[i] == paths_view(out1)[i]);
                        assert(out1[i]@[0] < s);
                        assert(g.idx_cycle(out@[i]@));
                        assert(g.idx_cycle(out@[j]@));
                        assert(po[i].subrange(0, 0) =~= po[j].subrange(0, 0));
                        lemma_lex_at(po[i], po[j], 0);
                    }
                }
                assert forall|k: int| 0 <= k < out@.len() implies (#[trigger] out@[k]@)[0] < s + 1 by {
                    if k < out1.len() {
                        assert(out@[k]@ == out1[k]@);
                    } else {
                        assert(po[k] == out@[k]@);
                    }
                }
            }
            proof {
                assert forall|c: Seq<usize>| g.idx_cycle(c) && c[0] < s + 1 implies #[trigger] paths_view(out@).contains(c) by {
                    if c[0] == s {
                        assert(c.subrange(0, 1) =~= path@);
                    } else {
                        assert(paths_view(out1).contains(c));
                        let k = choose|k: int| 0 <= k < paths_view(out1).len() && paths_view(out1)[k] == c;
                        assert(paths_view(out@)[k] == c);
                    }
                }
            }
            s += 1;
        }
        let mut r: Vec<Vec<String>> = Vec::new();
        let mut k: usize = 0;
        while k < out.len()
            invariant
                g == self@,
                g.wf(),
                n == self.nodes@.len(),
                k <= out@.len(),
                r@.len() == k,
                forall|m: int| 0 <= m < out@.len() ==> g.idx_cycle(#[trigger] out@[m]@),
                forall|m: int| 0 <= m < k ==> #[trigger] cycles_view(r@)[m] == names_of(g.nodes, out@[m]@),
            decreases out@.len() - k,
        {
            assert(g.idx_cycle(out@[k as int]@));
            let names = self.path_names(&out[k]);
            let ghost old_r = r@;
            r.push(names);
            proof {
                assert forall|m: int| 0 <= m < k + 1 implies #[trigger] cycles_view(r@)[m] == names_of(g.nodes, out@[m]@) by {
                    if m < k {
                        assert(cycles_view(old_r)[m] == names_of(g.nodes, out@[m]@));
                    }
                }
            }
            k += 1;
        }
        proof {
            let cv = cycles_view(r@);
            let po = paths_view(out@);
            assert forall|c: Seq<usize>| #[trigger] po.contains(c) <==> g.idx_cycle(c) by {
                if po.contains(c) {
                    let m = choose|m: int| 0 <= m < po.len() && po[m] == c;
                    assert(g.idx_cycle(out@[m]@));
                }
                if g.idx_cycle(c) {
                    assert(c[0] < n);
                }
            }
            lemma_sorted_unique(po, cycle_list(g));
            assert(cv =~= cycle_names(g)) by {
                assert forall|m: int| 0 <= m < cv.len() implies cv[m] == cycle_names(g)[m] by {
                    assert(cv[m] == names_of(g.nodes, out@[m]@));
                    assert(po[m] == out@[m]@);
                }
            }
            assert forall|a: int, b: int| 0 <= a < b < cv.len() implies cv[a] != cv[b] by {
                assert(paths_view(out@)[a] != paths_view(out@)[b]);
                if cv[a] == cv[b] {
                    assert(g.idx_cycle(out@[a]@));
                    assert(g.idx_cycle(out@[b]@));
                    lemma_names_injective(g, out@[a]@, out@[b]@);
                }
            }
            assert forall|c: Seq<Seq<char>>| #[trigger] cv.contains(c) <==> g.is_cycle(c) by {
                if cv.contains(c) {
                    let m = choose|m: int| 0 <= m < cv.len() && cv[m] == c;
                    lemma_idx_cycle_names(g, out@[m]@);
                }
                if g.is_cycle(c) {
                    let ci = lemma_names_cycle_idx(g, c);
                    assert(paths_view(out@).contains(ci));
                    let m = choose|m: int| 0 <= m < paths_view(out@).len() && paths_view(out@)[m] == ci;
                    assert(cv[m] == c);
                }
            }
        }
        r
    }
}

/// `b` is among the prerequisites of `a` exactly when `a` is among the
/// referrers of `b`: the two queries read the same edges in opposite
/// directions.
pub proof fn lemma_prerequisites_mirror_referrers(g: GraphView, a: Seq<char>, b: Seq<char>)
    ensures
        g.prerequisite_set(a).contains(b) <==> g.referrer_set(b).contains(a),
{
}

/// The graph has no self-loops: no target is its own prerequisite.
pub proof fn lemma_no_self_loops(g: GraphView, a: Seq<char>)
    requires
        g.wf(),
    ensures
        !g.has_edge(a, a),
        !g.prerequisite_set(a).contains(a),
{
    if g.has_edge(a, a) {
        let (i, j) = choose|i: int, j: int|
            0 <= i < g.nodes.len() && 0 <= j < g.nodes.len() && #[trigger] g.nodes[i] == a && #[trigger] g.nodes[j] == a
                && g.idx_edge(i, j);
        lemma_sorted_distinct(g.nodes, i, j);
        assert(!g.adj[i][i]);
    }
}

/// A continuation of `path` has at most as many edges as there are nodes
/// outside `path`.
proof fn lemma_best_step_bound(g: GraphView, path: Seq<usize>, j: int)
    ensures
        g.best_step(path, j) <= g.nodes.len() - path.len() || g.best_step(path, j) == 0,
        g.longest_extension(path) == 0 || g.longest_extension(path) == g.best_step(path, 0),
    decreases g.nodes.len() - path.len(), g.nodes.len() - j,
{
    let n = g.nodes.len();
    if path.len() == 0 || path.len() >= n {
    } else {
        if 0 <= j < n {
            lemma_best_step_bound(g, path, j + 1);
            if g.idx_edge(path.last() as int, j) && !path.contains(j as usize) {
                lemma_best_step_bound(g, path.push(j as usize), 0);
            }
        }
    }
}

impl DependencyGraph {
    /// The longest continuation of `path`, found by walking every simple
    /// path from it.
    fn longest_ext(&self, path: &mut Vec<usize>) -> (r: usize)
        requires
            self@.wf(),
            self.adj@.len() == self.nodes@.len(),
            old(path)@.len() >= 1,
            forall|k: int| 0 <= k < old(path)@.len() ==> #[trigger] old(path)@[k] < self.nodes@.len(),
        ensures
            final(path)@ == old(path)@,
            r == self@.longest_extension(old(path)@),
        decreases self.nodes@.len() - old(path)@.len(),
    {
        let ghost g = self@;
        let ghost p0 = path@;
        let n = self.nodes.len();
        if path.len() >= n {
            return 0;
        }
        let last = path[path.len() - 1];
        assert(rows_view(self.adj@)[last as int] == self.adj@[last as int]@);
        let mut best: usize = 0;
        let mut j: usize = n;
        proof {
            lemma_best_step_bound(g, p0, n as int);
            lemma_best_step_bound(g, p0, 0);
        }
        while j > 0
            invariant
                g == self@,
                g.wf(),
                self.adj@.len() == n,
                n == self.nodes@.len(),
                j <= n,
                path@ == p0,
                old(path)@ == p0,
                p0.len() >= 1,
                p0.len() < n,
                last == p0.last(),
                last < n,
                self.adj@[last as int]@ == g.adj[last as int],
                forall|k: int| 0 <= k < p0.len() ==> #[trigger] p0[k] < n,
                best == g.best_step(p0, j as int),
            decreases j,
        {
            j -= 1;
            proof {
                lemma_best_step_bound(g, p0, j as int);
            }
            if self.adj[last][j] && !contains_idx(path, j) {
                path.push(j);
                proof {
                    assert forall|k: int| 0 <= k < path@.len() implies #[trigger] path@[k] < n by {
                        if k < p0.len() {
                            assert(path@[k] == p0[k]);
                        }
                    }
                    assert(path@ == p0.push(j));
                    lemma_best_step_bound(g, p0.push(j), 0);
                    assert(self.nodes@.len() - path@.len() < self.nodes@.len() - p0.len());
                }
                let sub = self.longest_ext(path);
                path.pop();
                assert(path@ =~= p0);
                let here = 1 + sub;
                if here > best {
                    best = here;
                }
            }
        }
        best
    }

    /// The length in edges of the longest path from `target` down through
    /// its prerequisites that visits no target twice; 0 for a target that is
    /// not in the graph.
    pub fn longest_path_length(&self, target: &str) -> (r: usize)
        ensures
            forall|i: int|
                0 <= i < self@.nodes.len() && #[trigger] self@.nodes[i] == target@ ==> r == self@.longest_extension(
                    seq![i as usize],
                ),
            !self@.nodes.contains(target@) ==> r == 0,
            r == depth_of(self@, target@),
    {
        proof {
            use_type_invariant(self);
        }
        match find_str(&self.nodes, target) {
            Some(i) => {
                let mut path: Vec<usize> = Vec::new();
                path.push(i);
                assert(path@ == seq![i]);
                let r = self.longest_ext(&mut path);
                proof {
                    assert(self@.nodes[i as int] == target@);
                    assert forall|i2: int| 0 <= i2 < self@.nodes.len() && #[trigger] self@.nodes[i2] == target@ implies r
                        == self@.longest_extension(seq![i2 as usize]) by {
                        lemma_sorted_distinct(self@.nodes, i as int, i2);
                    }
                    assert(self@.nodes.contains(target@));
                    let c = choose|c: int| 0 <= c < self@.nodes.len() && self@.nodes[c] == target@;
                    assert(self@.nodes[c] == target@);
                }
                r
            },
            None => {
                proof {
                    assert forall|i2: int| 0 <= i2 < self@.nodes.len() && #[trigger] self@.nodes[i2] == target@ implies false by {
                        assert(strings_view(self.nodes@)[i2] == target@);
                    }
                    assert(!self@.nodes.contains(target@));
                }
                0
            },
        }
    }
}

} // verus!

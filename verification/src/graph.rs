use vstd::prelude::*;
use vstd::seq_lib::*;
use vstd::set_lib::*;
use crate::scan::{get_classes, tokens_of};
use crate::strutil::{views_of, unit_name, file_stem};

verus! {

/// One compilation unit: a source file path and its textual contents.
pub struct SourceUnit {
    pub path: String,
    pub contents: String,
}

/// The unit names (file stems) of a list of units, in input order.
pub open spec fn stems_of(units: Seq<SourceUnit>) -> Seq<Seq<char>> {
    units.map_values(|u: SourceUnit| unit_name(u.path@))
}

/// The distinct elements of `s`, each at its first occurrence, in order
/// of discovery.
pub open spec fn dedup_first(s: Seq<Seq<char>>) -> Seq<Seq<char>>
    decreases s.len(),
{
    if s.len() == 0 {
        Seq::empty()
    } else if dedup_first(s.drop_last()).contains(s.last()) {
        dedup_first(s.drop_last())
    } else {
        dedup_first(s.drop_last()).push(s.last())
    }
}

pub proof fn lemma_dedup_first(s: Seq<Seq<char>>)
    ensures
        forall|x: Seq<char>| dedup_first(s).contains(x) <==> s.contains(x),
        forall|i: int, j: int|
            0 <= i < j < dedup_first(s).len() ==> dedup_first(s)[i] != dedup_first(s)[j],
    decreases s.len(),
{
    if s.len() > 0 {
        let pre = s.drop_last();
        let d = dedup_first(s);
        let dp = dedup_first(pre);
        lemma_dedup_first(pre);
        assert forall|x: Seq<char>| d.contains(x) implies s.contains(x) by {
            let kk = choose|kk: int| 0 <= kk < d.len() && d[kk] == x;
            if dp.contains(s.last()) || kk < dp.len() {
                assert(dp[kk] == x);
                assert(dp.contains(x));
                assert(pre.contains(x));
                let k = choose|k: int| 0 <= k < pre.len() && pre[k] == x;
                assert(s[k] == x);
            } else {
                assert(d[kk] == s.last());
                assert(s[s.len() - 1] == x);
            }
        }
        assert forall|x: Seq<char>| s.contains(x) implies d.contains(x) by {
            let k = choose|k: int| 0 <= k < s.len() && s[k] == x;
            if k < s.len() - 1 {
                assert(pre[k] == x);
                assert(pre.contains(x));
                assert(dp.contains(x));
                let kk = choose|kk: int| 0 <= kk < dp.len() && dp[kk] == x;
                assert(d[kk] == x);
            } else {
                if dp.contains(s.last()) {
                    assert(d.contains(x));
                } else {
                    assert(d[d.len() - 1] == x);
                }
            }
        }
        assert forall|i: int, j: int| 0 <= i < j < d.len() implies d[i] != d[j] by {
            if !dp.contains(s.last()) && j == d.len() - 1 {
                assert(d[i] == dp[i]);
                assert(dp.contains(dp[i]));
                assert(d[j] == s.last());
            } else {
                assert(d[i] == dp[i] && d[j] == dp[j]);
            }
        }
    }
}

/// Index of the last unit whose derived name is `name`, or -1 when none has it.
pub open spec fn last_with_name(units: Seq<SourceUnit>, name: Seq<char>) -> int
    decreases units.len(),
{
    if units.len() == 0 {
        -1
    } else if unit_name(units.last().path@) == name {
        units.len() - 1
    } else {
        last_with_name(units.drop_last(), name)
    }
}

/// The tokens among `toks` that name a known unit other than `own`:
/// the reference edges a unit's token list yields.
pub open spec fn filter_refs(toks: Seq<Seq<char>>, own: Seq<char>, valid: Seq<Seq<char>>) -> Seq<
    Seq<char>,
>
    decreases toks.len(),
{
    if toks.len() == 0 {
        Seq::empty()
    } else {
        let rest = filter_refs(toks.drop_last(), own, valid);
        if valid.contains(toks.last()) && toks.last() != own {
            rest.push(toks.last())
        } else {
            rest
        }
    }
}

/// The dependency names that an edge list yields, in edge order.
pub open spec fn dep_names(names: Seq<String>, row: Seq<usize>) -> Seq<Seq<char>> {
    row.map_values(|d: usize| names[d as int]@)
}

/// The dependency names a unit's contents yield: its identifier tokens,
/// kept when they name another known unit.
pub open spec fn filtered_refs(contents: Seq<char>, own: Seq<char>, valid: Seq<Seq<char>>) -> Seq<
    Seq<char>,
> {
    filter_refs(tokens_of(contents), own, valid)
}

/// Dependency graph over the units of one target: one node per distinct
/// unit name; `deps[i]` lists, as node indices, the units that node `i`
/// references, in order of appearance and with repeats kept.
pub struct DepGraph {
    pub names: Vec<String>,
    pub paths: Vec<String>,
    pub deps: Vec<Vec<usize>>,
}

impl DepGraph {
    /// Number of nodes.
    pub open spec fn n(self) -> int {
        self.names@.len() as int
    }

    /// Well-formed: one path and one dependency list per node, every edge
    /// target a node other than its source, names distinct and derived
    /// from the paths, paths distinct.
    pub open spec fn wf(self) -> bool {
        &&& self.paths@.len() == self.names@.len()
        &&& self.deps@.len() == self.names@.len()
        &&& forall|i: int, k: int|
            0 <= i < self.n() && 0 <= k < self.deps@[i]@.len() ==> (#[trigger] self.deps@[i]@[k])
                < self.names@.len() && self.deps@[i]@[k] as int != i
        &&& forall|i: int, j: int|
            0 <= i < j < self.n() ==> self.names@[i]@ != self.names@[j]@
        &&& forall|i: int|
            0 <= i < self.n() ==> (#[trigger] self.names@[i]@) == unit_name(self.paths@[i]@)
        &&& forall|i: int, j: int|
            0 <= i < j < self.n() ==> self.paths@[i]@ != self.paths@[j]@
    }

    /// An edge from node `i` to node `d`: unit `i` references unit `d`.
    pub open spec fn edge(self, i: int, d: int) -> bool {
        &&& 0 <= i < self.n()
        &&& exists|k: int|
            0 <= k < self.deps@[i]@.len() && (#[trigger] self.deps@[i]@[k]) as int == d
    }

    /// The graph has no reference cycle: some ranking of the nodes
    /// decreases along every edge.
    pub open spec fn acyclic(self) -> bool {
        exists|rank: Seq<nat>|
            rank.len() == self.n() && (forall|i: int, d: int|
                #[trigger] self.edge(i, d) ==> rank[d] < rank[i])
    }

    /// `ord` lists every node exactly once.
    pub open spec fn complete_ordering(self, ord: Seq<usize>) -> bool {
        &&& ord.len() == self.n()
        &&& forall|k: int| 0 <= k < ord.len() ==> (#[trigger] ord[k]) < self.names@.len()
        &&& ord.no_duplicates()
        &&& forall|i: int| 0 <= i < self.n() ==> ord.contains(#[trigger] (i as usize))
    }

    /// Every node of `ord` comes after all the nodes it references.
    pub open spec fn respects_deps(self, ord: Seq<usize>) -> bool {
        forall|k: int, m: int|
            0 <= k < ord.len() && 0 <= m < self.deps@[ord[k] as int]@.len() ==> placed_before(
                ord,
                k,
                #[trigger] self.deps@[ord[k] as int]@[m],
            )
    }
}

/// Some position of `ord` before `k` holds node `d`.
pub open spec fn placed_before(ord: Seq<usize>, k: int, d: usize) -> bool {
    exists|k2: int| 0 <= k2 < k && ord[k2] == d
}

/// One instance of `respects_deps`: the `m`-th dependency of the node at
/// position `k` already stands at some earlier position.
proof fn lemma_respects_instance(g: DepGraph, ord: Seq<usize>, k: int, m: int)
    requires
        g.respects_deps(ord),
        0 <= k < ord.len(),
        0 <= m < g.deps@[ord[k] as int]@.len(),
    ensures
        placed_before(ord, k, g.deps@[ord[k] as int]@[m]),
{
    assert(0 <= k < ord.len() && 0 <= m < g.deps@[ord[k] as int]@.len());
}

/// Node `i` still waits on some unemitted dependency.
pub open spec fn blocked(g: DepGraph, emitted: Seq<bool>, i: int) -> bool {
    exists|m: int|
        0 <= m < g.deps@[i]@.len() && !emitted[(#[trigger] g.deps@[i]@[m]) as int]
}

/// A distinct sequence of indices below `n` has at most `n` elements.
proof fn lemma_distinct_bound(ord: Seq<usize>, n: int)
    requires
        0 <= n,
        ord.no_duplicates(),
        forall|k: int| 0 <= k < ord.len() ==> ((#[trigger] ord[k]) as int) < n,
    ensures
        ord.len() <= n,
{
    let m = ord.map_values(|u: usize| u as int);
    assert(m.no_duplicates());
    m.unique_seq_to_set();
    lemma_int_range(0, n);
    assert(m.to_set().subset_of(set_int_range(0, n))) by {
        assert forall|x: int| m.to_set().contains(x) implies set_int_range(0, n).contains(x) by {
            let k = choose|k: int| 0 <= k < m.len() && m[k] == x;
            assert(ord[k] as int == x);
        }
    }
    lemma_len_subset(m.to_set(), set_int_range(0, n));
}

/// A distinct sequence of indices below `n` that contains every one of
/// them has exactly `n` elements.
proof fn lemma_complete_len(ord: Seq<usize>, n: int)
    requires
        0 <= n <= usize::MAX as int,
        ord.no_duplicates(),
        forall|k: int| 0 <= k < ord.len() ==> ((#[trigger] ord[k]) as int) < n,
        forall|i: int| 0 <= i < n ==> ord.contains(#[trigger] (i as usize)),
    ensures
        ord.len() == n,
{
    lemma_distinct_bound(ord, n);
    let m = ord.map_values(|u: usize| u as int);
    assert(m.no_duplicates());
    m.unique_seq_to_set();
    lemma_int_range(0, n);
    assert(set_int_range(0, n).subset_of(m.to_set())) by {
        assert forall|x: int| set_int_range(0, n).contains(x) implies m.to_set().contains(x) by {
            assert(ord.contains(x as usize));
            let k = choose|k: int| 0 <= k < ord.len() && ord[k] == x as usize;
            assert(m[k] == x);
        }
    }
    lemma_len_subset(set_int_range(0, n), m.to_set());
}

/// Among the unemitted nodes there is one of minimal rank, provided some
/// unemitted node has rank at most `k`.
proof fn lemma_min_rank(rank: Seq<nat>, emitted: Seq<bool>, k: nat)
    requires
        emitted.len() == rank.len(),
        exists|i: int| 0 <= i < emitted.len() && !emitted[i] && rank[i] <= k,
    ensures
        exists|m: int|
            0 <= m < emitted.len() && !emitted[m] && (forall|x: int|
                0 <= x < emitted.len() && !emitted[x] ==> rank[m] <= rank[x]),
    decreases k,
{
    if k > 0 && exists|i: int| 0 <= i < emitted.len() && !emitted[i] && rank[i] <= k - 1 {
        lemma_min_rank(rank, emitted, (k - 1) as nat);
    } else {
        let i0 = choose|i: int| 0 <= i < emitted.len() && !emitted[i] && rank[i] <= k;
        assert forall|x: int| 0 <= x < emitted.len() && !emitted[x] implies rank[i0] <= rank[x] by {
            if k > 0 {
                assert(!(rank[x] <= k - 1));
            }
        }
    }
}

/// In an acyclic graph, a state where every unemitted node waits on an
/// unemitted dependency can only be the state where every node is emitted.
proof fn lemma_dag_not_stuck(g: DepGraph, emitted: Seq<bool>)
    requires
        g.wf(),
        g.acyclic(),
        emitted.len() == g.n(),
        forall|i: int| 0 <= i < g.n() && !emitted[i] ==> blocked(g, emitted, i),
    ensures
        forall|i: int| 0 <= i < g.n() ==> emitted[i],
{
    let rank = choose|rank: Seq<nat>|
        rank.len() == g.n() && (forall|i: int, d: int|
            #[trigger] g.edge(i, d) ==> rank[d] < rank[i]);
    assert forall|i: int| 0 <= i < g.n() implies emitted[i] by {
        if !emitted[i] {
            lemma_min_rank(rank, emitted, rank[i]);
            let m = choose|m: int|
                0 <= m < emitted.len() && !emitted[m] && (forall|x: int|
                    0 <= x < emitted.len() && !emitted[x] ==> rank[m] <= rank[x]);
            assert(blocked(g, emitted, m));
            let e = choose|e: int|
                0 <= e < g.deps@[m]@.len() && !emitted[(#[trigger] g.deps@[m]@[e]) as int];
            let d = g.deps@[m]@[e] as int;
            assert(g.edge(m, d));
            assert(rank[d] < rank[m]);
            assert(rank[m] <= rank[d]);
        }
    }
}

/// Bookkeeping shared by both phases of the orderer: one emitted flag per
/// node, and `ord` lists exactly the emitted nodes, each once.
pub open spec fn order_state_ok(g: DepGraph, emitted: Seq<bool>, ord: Seq<usize>) -> bool {
    &&& emitted.len() == g.n()
    &&& forall|k: int| 0 <= k < ord.len() ==> (#[trigger] ord[k]) < g.names@.len()
    &&& ord.no_duplicates()
    &&& forall|i: int| 0 <= i < g.n() ==> (emitted[i] <==> ord.contains(i as usize))
}

/// Orders the nodes of `g` so that every unit comes after every unit it
/// references, whenever the graph is acyclic. Every node appears exactly
/// once whatever the shape of the graph; nodes still waiting on a cycle
/// when no further progress is possible are appended in discovery order.
pub fn topo_order(g: &DepGraph) -> (ord: Vec<usize>)
    requires
        g.wf(),
    ensures
        g.complete_ordering(ord@),
        g.acyclic() ==> g.respects_deps(ord@),
        exists|m: int|
            0 <= m <= ord@.len() && g.respects_deps(#[trigger] ord@.subrange(0, m)) && (forall|
                k1: int,
                k2: int,
            |
                m <= k1 < k2 < ord@.len() ==> ord@[k1] < ord@[k2]),
{
    let n = g.names.len();
    let mut emitted: Vec<bool> = Vec::new();
    let mut t: usize = 0;
    while t < n
        invariant
            emitted@.len() == t,
            t <= n,
            forall|i: int| 0 <= i < t ==> !emitted@[i],
        decreases n - t,
    {
        emitted.push(false);
        t += 1;
    }
    let mut ord: Vec<usize> = Vec::new();
    let mut progress = true;
    while progress
        invariant
            g.wf(),
            n == g.n(),
            order_state_ok(*g, emitted@, ord@),
            g.respects_deps(ord@),
            ord@.len() <= n,
            !progress ==> (forall|i: int|
                0 <= i < g.n() && !emitted@[i] ==> blocked(*g, emitted@, i)),
        decreases n - ord@.len() + (if progress { 1int } else { 0int }),
    {
        proof {
            lemma_distinct_bound(ord@, n as int);
        }
        let ghost len0 = ord@.len();
        progress = false;
        let mut i: usize = 0;
        while i < n
            invariant
                g.wf(),
                n == g.n(),
                order_state_ok(*g, emitted@, ord@),
                g.respects_deps(ord@),
                i <= n,
                ord@.len() <= n,
                ord@.len() >= len0,
                progress ==> ord@.len() > len0,
                !progress ==> ord@.len() == len0,
                !progress ==> (forall|ii: int|
                    0 <= ii < i && !emitted@[ii] ==> blocked(*g, emitted@, ii)),
            decreases n - i,
        {
            if !emitted[i] {
                let row = &g.deps[i];
                let mut all_in = true;
                let mut m: usize = 0;
                while m < row.len()
                    invariant
                        g.wf(),
                        n == g.n(),
                        i < n,
                        row == &g.deps[i as int],
                        emitted@.len() == n,
                        m <= row@.len(),
                        all_in ==> (forall|mm: int|
                            0 <= mm < m ==> emitted@[(#[trigger] row@[mm]) as int]),
                        !all_in ==> blocked(*g, emitted@, i as int),
                    ensures
                        all_in ==> (forall|mm: int|
                            0 <= mm < row@.len() ==> emitted@[(#[trigger] row@[mm]) as int]),
                        !all_in ==> blocked(*g, emitted@, i as int),
                    decreases row@.len() - m,
                {
                    if !emitted[row[m]] {
                        all_in = false;
                        proof {
                            assert(g.deps@[i as int]@[m as int] == row@[m as int]);
                        }
                        break ;
                    }
                    m += 1;
                }
                if all_in {
                    let ghost old_ord = ord@;
                    let ghost old_emitted = emitted@;
                    emitted.set(i, true);
                    ord.push(i);
                    progress = true;
                    proof {
                        lemma_distinct_bound(old_ord, n as int);
                        assert(!old_ord.contains(i));
                        assert(ord@.drop_last() =~= old_ord);
                        assert(ord@.no_duplicates());
                        assert forall|x: int| 0 <= x < g.n() implies (emitted@[x] <==> ord@.contains(
                            x as usize,
                        )) by {
                            if x == i as int {
                                assert(ord@[ord@.len() - 1] == i);
                            } else {
                                if old_ord.contains(x as usize) {
                                    let kk = choose|kk: int|
                                        0 <= kk < old_ord.len() && old_ord[kk] == x as usize;
                                    assert(ord@[kk] == x as usize);
                                } else {
                                    if ord@.contains(x as usize) {
                                        let kk = choose|kk: int|
                                            0 <= kk < ord@.len() && ord@[kk] == x as usize;
                                        assert(kk < old_ord.len());
                                        assert(old_ord[kk] == x as usize);
                                    }
                                }
                            }
                        }
                        assert forall|k: int, mm: int|
                            0 <= k < ord@.len() && 0 <= mm
                                < g.deps@[ord@[k] as int]@.len() implies placed_before(
                            ord@,
                            k,
                            #[trigger] g.deps@[ord@[k] as int]@[mm],
                        ) by {
                            if k < old_ord.len() {
                                assert(ord@[k] == old_ord[k]);
                                lemma_respects_instance(*g, old_ord, k, mm);
                                let k2 = choose|k2: int|
                                    0 <= k2 < k && old_ord[k2] == g.deps@[old_ord[k] as int]@[mm];
                                assert(ord@[k2] == g.deps@[ord@[k] as int]@[mm]);
                            } else {
                                assert(ord@[k] == i);
                                let dd = g.deps@[i as int]@[mm];
                                assert(old_emitted[dd as int]);
                                assert(old_ord.contains(dd));
                                let k2 = choose|k2: int|
                                    0 <= k2 < old_ord.len() && old_ord[k2] == dd;
                                assert(ord@[k2] == dd);
                            }
                        }
                        lemma_distinct_bound(ord@, n as int);
                    }
                }
            }
            i += 1;
        }
    }
    // No further progress: on an acyclic graph every node has been emitted.
    proof {
        if g.acyclic() {
            lemma_dag_not_stuck(*g, emitted@);
            assert forall|x: int| 0 <= x < n implies ord@.contains(#[trigger] (x as usize)) by {
                assert(emitted@[x]);
            }
            lemma_complete_len(ord@, n as int);
        }
    }
    let ghost ord1 = ord@;
    // Cycle fallback: append whatever still waits, in discovery order.
    let mut i: usize = 0;
    while i < n
        invariant
            g.wf(),
            n == g.n(),
            order_state_ok(*g, emitted@, ord@),
            i <= n,
            forall|ii: int| 0 <= ii < i ==> emitted@[ii],
            g.acyclic() ==> ord@ == ord1,
            g.respects_deps(ord1),
            g.acyclic() ==> ord1.len() == n,
            g.acyclic() ==> (forall|ii: int| 0 <= ii < n ==> emitted@[ii]),
            ord1.len() <= ord@.len(),
            ord1 == ord@.subrange(0, ord1.len() as int),
            forall|k: int| ord1.len() <= k < ord@.len() ==> ((#[trigger] ord@[k]) as int) < i,
            forall|k1: int, k2: int|
                ord1.len() <= k1 < k2 < ord@.len() ==> ord@[k1] < ord@[k2],
        decreases n - i,
    {
        if !emitted[i] {
            let ghost old_ord = ord@;
            let ghost old_emitted = emitted@;
            emitted.set(i, true);
            ord.push(i);
            proof {
                if g.acyclic() {
                    assert(old_emitted[i as int]);
                    assert(false);
                }
                assert(ord1 =~= ord@.subrange(0, ord1.len() as int));
                assert(!old_ord.contains(i));
                assert(ord@.drop_last() =~= old_ord);
                assert(ord@.no_duplicates());
                assert forall|x: int| 0 <= x < g.n() implies (emitted@[x] <==> ord@.contains(
                    x as usize,
                )) by {
                    if x == i as int {
                        assert(ord@[ord@.len() - 1] == i);
                    } else {
                        if old_ord.contains(x as usize) {
                            let kk = choose|kk: int|
                                0 <= kk < old_ord.len() && old_ord[kk] == x as usize;
                            assert(ord@[kk] == x as usize);
                        } else {
                            if ord@.contains(x as usize) {
                                let kk = choose|kk: int|
                                    0 <= kk < ord@.len() && ord@[kk] == x as usize;
                                assert(kk < old_ord.len());
                                assert(old_ord[kk] == x as usize);
                            }
                        }
                    }
                }
            }
        }
        i += 1;
    }
    proof {
        assert forall|x: int| 0 <= x < n implies ord@.contains(#[trigger] (x as usize)) by {
            assert(emitted@[x]);
        }
        lemma_complete_len(ord@, n as int);
        // the output: a dependency-respecting prefix, then the fallback
        // tail in discovery order
        assert(g.respects_deps(ord@.subrange(0, ord1.len() as int)));
        assert(0 <= ord1.len() <= ord@.len() && g.respects_deps(
            ord@.subrange(0, ord1.len() as int),
        ) && (forall|k1: int, k2: int|
            ord1.len() <= k1 < k2 < ord@.len() ==> ord@[k1] < ord@[k2]));
    }
    ord
}

/// Builds the dependency graph of `units`. One node stands for each
/// distinct unit name, placed at the name's first occurrence; when several
/// units share a name, the last of them supplies the node's path and
/// contents. A node's edge list holds its references — the identifier
/// tokens of its contents that name another known unit — in order of
/// appearance.
pub fn create_hashmap(units: &Vec<SourceUnit>) -> (g: DepGraph)
    ensures
        g.wf(),
        views_of(g.names@) == dedup_first(stems_of(units@)),
        forall|i: int|
            0 <= i < g.n() ==> {
                let w = last_with_name(units@, (#[trigger] g.names@[i])@);
                &&& 0 <= w < units@.len()
                &&& g.paths@[i]@ == units@[w].path@
                &&& dep_names(g.names@, g.deps@[i]@) == filtered_refs(
                    units@[w].contents@,
                    g.names@[i]@,
                    stems_of(units@),
                )
            },
{
    let nu = units.len();
    let mut names: Vec<String> = Vec::new();
    let mut paths: Vec<String> = Vec::new();
    let mut srcs: Vec<usize> = Vec::new();
    let mut t: usize = 0;
    proof {
        assert(units@.subrange(0, 0) =~= Seq::<SourceUnit>::empty());
        assert(stems_of(units@.subrange(0, 0)) =~~= Seq::<Seq<char>>::empty());
        assert(views_of(names@) =~~= dedup_first(stems_of(units@.subrange(0, 0))));
    }
    while t < nu
        invariant
            nu == units@.len(),
            t <= nu,
            paths@.len() == names@.len(),
            srcs@.len() == names@.len(),
            views_of(names@) == dedup_first(stems_of(units@.subrange(0, t as int))),
            forall|i: int|
                0 <= i < names@.len() ==> {
                    &&& ((#[trigger] srcs@[i]) as int) < t
                    &&& srcs@[i] as int == last_with_name(
                        units@.subrange(0, t as int),
                        names@[i]@,
                    )
                    &&& paths@[i]@ == units@[srcs@[i] as int].path@
                    &&& names@[i]@ == unit_name(paths@[i]@)
                },
            forall|i: int, j: int| 0 <= i < j < names@.len() ==> names@[i]@ != names@[j]@,
        decreases nu - t,
    {
        let ghost pre = units@.subrange(0, t as int);
        let ghost pre1 = units@.subrange(0, t + 1);
        let stem = file_stem(&units[t].path);
        let mut f: usize = 0;
        let mut found = false;
        let mut fidx: usize = 0;
        while f < names.len()
            invariant
                f <= names@.len(),
                found ==> fidx < names@.len() && names@[fidx as int]@ == stem@,
                !found ==> (forall|j: int| 0 <= j < f ==> names@[j]@ != stem@),
            decreases names@.len() - f,
        {
            if !found && names[f] == stem {
                found = true;
                fidx = f;
            }
            f += 1;
        }
        proof {
            assert(pre1.drop_last() =~= pre);
            assert(stems_of(pre1).drop_last() =~~= stems_of(pre));
            assert(stems_of(pre1).last() == stem@);
            if found {
                assert(views_of(names@)[fidx as int] == stem@);
                assert(dedup_first(stems_of(pre)).contains(stem@));
            } else {
                if dedup_first(stems_of(pre)).contains(stem@) {
                    let j = choose|j: int|
                        0 <= j < views_of(names@).len() && views_of(names@)[j] == stem@;
                    assert(names@[j]@ == stem@);
                }
            }
        }
        if found {
            let ghost old_paths = paths@;
            let ghost old_srcs = srcs@;
            paths.set(fidx, units[t].path.clone());
            srcs.set(fidx, t);
            proof {
                assert(views_of(names@) =~~= dedup_first(stems_of(pre1)));
                assert forall|i: int| 0 <= i < names@.len() implies {
                    &&& ((#[trigger] srcs@[i]) as int) < t + 1
                    &&& srcs@[i] as int == last_with_name(pre1, names@[i]@)
                    &&& paths@[i]@ == units@[srcs@[i] as int].path@
                    &&& names@[i]@ == unit_name(paths@[i]@)
                } by {
                    if i == fidx as int {
                        assert(unit_name(pre1.last().path@) == names@[i]@);
                        assert(last_with_name(pre1, names@[i]@) == t as int);
                    } else {
                        assert(names@[i]@ != stem@);
                        assert(unit_name(pre1.last().path@) != names@[i]@);
                        assert(last_with_name(pre1, names@[i]@) == last_with_name(
                            pre,
                            names@[i]@,
                        ));
                        assert(srcs@[i] == old_srcs[i] && paths@[i] == old_paths[i]);
                    }
                }
            }
        } else {
            let ghost old_names = names@;
            names.push(stem);
            paths.push(units[t].path.clone());
            srcs.push(t);
            proof {
                assert(views_of(names@) =~~= views_of(old_names).push(stem@));
                assert(views_of(names@) =~~= dedup_first(stems_of(pre1)));
                assert forall|i: int| 0 <= i < names@.len() implies {
                    &&& ((#[trigger] srcs@[i]) as int) < t + 1
                    &&& srcs@[i] as int == last_with_name(pre1, names@[i]@)
                    &&& paths@[i]@ == units@[srcs@[i] as int].path@
                    &&& names@[i]@ == unit_name(paths@[i]@)
                } by {
                    if i == names@.len() - 1 {
                        assert(names@[i]@ == stem@);
                        assert(unit_name(pre1.last().path@) == stem@);
                        assert(last_with_name(pre1, stem@) == t as int);
                    } else {
                        assert(names@[i]@ == old_names[i]@);
                        assert(names@[i]@ != stem@);
                        assert(last_with_name(pre1, names@[i]@) == last_with_name(
                            pre,
                            names@[i]@,
                        ));
                    }
                }
                assert forall|i: int, j: int|
                    0 <= i < j < names@.len() implies names@[i]@ != names@[j]@ by {
                    if j == names@.len() - 1 {
                        assert(names@[i]@ == old_names[i]@);
                    }
                }
            }
        }
        t += 1;
    }
    proof {
        assert(units@.subrange(0, nu as int) =~= units@);
        lemma_dedup_first(stems_of(units@));
    }
    let n = names.len();
    let mut deps: Vec<Vec<usize>> = Vec::new();
    let mut i: usize = 0;
    while i < n
        invariant
            nu == units@.len(),
            n == names@.len(),
            paths@.len() == n,
            srcs@.len() == n,
            views_of(names@) == dedup_first(stems_of(units@)),
            forall|ii: int|
                0 <= ii < n ==> {
                    &&& ((#[trigger] srcs@[ii]) as int) < nu
                    &&& srcs@[ii] as int == last_with_name(units@, names@[ii]@)
                    &&& paths@[ii]@ == units@[srcs@[ii] as int].path@
                    &&& names@[ii]@ == unit_name(paths@[ii]@)
                },
            forall|ii: int, j: int| 0 <= ii < j < n ==> names@[ii]@ != names@[j]@,
            deps@.len() == i,
            i <= n,
            forall|ii: int, kk: int|
                0 <= ii < i && 0 <= kk < deps@[ii]@.len() ==> ((#[trigger] deps@[ii]@[kk]) as int)
                    < n && deps@[ii]@[kk] as int != ii,
            forall|ii: int|
                0 <= ii < i ==> dep_names(names@, (#[trigger] deps@[ii])@) == filtered_refs(
                    units@[srcs@[ii] as int].contents@,
                    names@[ii]@,
                    stems_of(units@),
                ),
        decreases n - i,
    {
        let src = srcs[i];
        let toks = get_classes(units[src].contents.as_str());
        let ghost tokviews = tokens_of(units@[src as int].contents@);
        let mut row: Vec<usize> = Vec::new();
        let mut m: usize = 0;
        proof {
            assert(tokviews.subrange(0, 0) =~~= Seq::<Seq<char>>::empty());
            assert(dep_names(names@, row@) =~~= filter_refs(
                tokviews.subrange(0, 0),
                names@[i as int]@,
                stems_of(units@),
            ));
        }
        while m < toks.len()
            invariant
                nu == units@.len(),
                n == names@.len(),
                i < n,
                (src as int) < nu,
                views_of(names@) == dedup_first(stems_of(units@)),
                forall|ii: int, j: int| 0 <= ii < j < n ==> names@[ii]@ != names@[j]@,
                tokviews == tokens_of(units@[src as int].contents@),
                views_of(toks@) == tokviews,
                m <= toks@.len(),
                forall|kk: int|
                    0 <= kk < row@.len() ==> ((#[trigger] row@[kk]) as int) < n && row@[kk] as int
                        != i as int,
                dep_names(names@, row@) == filter_refs(
                    tokviews.subrange(0, m as int),
                    names@[i as int]@,
                    stems_of(units@),
                ),
            decreases toks@.len() - m,
        {
            let tok = &toks[m];
            let mut f: usize = 0;
            let mut found = false;
            let mut fidx: usize = 0;
            while f < names.len()
                invariant
                    f <= names@.len(),
                    found ==> fidx < names@.len() && names@[fidx as int]@ == tok@,
                    !found ==> (forall|j: int| 0 <= j < f ==> names@[j]@ != tok@),
                decreases names@.len() - f,
            {
                if !found && names[f] == *tok {
                    found = true;
                    fidx = f;
                }
                f += 1;
            }
            let ghost tv = tokviews[m as int];
            let ghost old_row = row@;
            proof {
                lemma_dedup_first(stems_of(units@));
                assert(tv == toks@[m as int]@);
                if found {
                    assert(views_of(names@)[fidx as int] == tv);
                    assert(dedup_first(stems_of(units@)).contains(tv));
                    assert(stems_of(units@).contains(tv));
                } else {
                    if stems_of(units@).contains(tv) {
                        let j = choose|j: int|
                            0 <= j < views_of(names@).len() && views_of(names@)[j] == tv;
                        assert(names@[j]@ == tv);
                    }
                }
            }
            if found && fidx != i {
                row.push(fidx);
            }
            proof {
                assert(tokviews.subrange(0, m + 1).drop_last() =~~= tokviews.subrange(
                    0,
                    m as int,
                ));
                assert(tokviews.subrange(0, m + 1).last() == tv);
                if found && fidx != i as usize {
                    assert(names@[fidx as int]@ != names@[i as int]@);
                    assert(dep_names(names@, row@) =~~= dep_names(names@, old_row).push(
                        names@[fidx as int]@,
                    ));
                } else {
                    if found {
                        assert(tv == names@[i as int]@);
                    } else {
                        assert(!stems_of(units@).contains(tv));
                    }
                }
                assert(dep_names(names@, row@) =~~= filter_refs(
                    tokviews.subrange(0, m + 1),
                    names@[i as int]@,
                    stems_of(units@),
                ));
            }
            m += 1;
        }
        proof {
            assert(tokviews.subrange(0, toks@.len() as int) =~~= tokviews);
        }
        deps.push(row);
        i += 1;
    }
    let g = DepGraph { names, paths, deps };
    proof {
        assert forall|ii: int, j: int| 0 <= ii < j < g.n() implies g.paths@[ii]@ != g.paths@[j]@ by {
            assert(((srcs@[ii]) as int) < nu);
            assert(((srcs@[j]) as int) < nu);
            if g.paths@[ii]@ == g.paths@[j]@ {
                assert(g.names@[ii]@ == unit_name(g.paths@[ii]@));
                assert(g.names@[j]@ == unit_name(g.paths@[j]@));
            }
        }
        assert forall|ii: int| 0 <= ii < g.n() implies (#[trigger] g.names@[ii]@) == unit_name(
            g.paths@[ii]@,
        ) by {
            assert(((srcs@[ii]) as int) < nu);
        }
        assert(g.wf());
        assert forall|i2: int| 0 <= i2 < g.n() implies {
            let w = last_with_name(units@, (#[trigger] g.names@[i2])@);
            &&& 0 <= w < units@.len()
            &&& g.paths@[i2]@ == units@[w].path@
            &&& dep_names(g.names@, g.deps@[i2]@) == filtered_refs(
                units@[w].contents@,
                g.names@[i2]@,
                stems_of(units@),
            )
        } by {
            assert(srcs@[i2] as int == last_with_name(units@, g.names@[i2]@));
        }
    }
    g
}

/// `a` appears at some position of `rs` strictly before some position
/// holding `b`.
pub open spec fn precedes(rs: Seq<Seq<char>>, a: Seq<char>, b: Seq<char>) -> bool {
    exists|k1: int, k2: int| 0 <= k1 < k2 < rs.len() && rs[k1] == a && rs[k2] == b
}

/// Orders the units' paths for compilation: the output holds exactly the
/// graph's paths, each once, and on an acyclic graph every unit's path
/// comes after the paths of all the units it references.
pub fn topological_sort(g: &DepGraph) -> (r: Vec<String>)
    requires
        g.wf(),
    ensures
        r@.len() == g.paths@.len(),
        forall|k1: int, k2: int| 0 <= k1 < k2 < r@.len() ==> r@[k1]@ != r@[k2]@,
        forall|i: int| 0 <= i < g.n() ==> views_of(r@).contains(#[trigger] g.paths@[i]@),
        forall|k: int|
            0 <= k < r@.len() ==> exists|i: int|
                0 <= i < g.n() && (#[trigger] r@[k]@) == g.paths@[i]@,
        g.acyclic() ==> (forall|i: int, m: int|
            0 <= i < g.n() && 0 <= m < g.deps@[i]@.len() ==> precedes(
                views_of(r@),
                g.paths@[(#[trigger] g.deps@[i]@[m]) as int]@,
                g.paths@[i]@,
            )),
{
    let ord = topo_order(g);
    let mut r: Vec<String> = Vec::new();
    let mut k: usize = 0;
    while k < ord.len()
        invariant
            g.wf(),
            g.complete_ordering(ord@),
            k <= ord@.len(),
            r@.len() == k,
            forall|kk: int| 0 <= kk < k ==> (#[trigger] r@[kk])@ == g.paths@[ord@[kk] as int]@,
        decreases ord@.len() - k,
    {
        let idx = ord[k];
        r.push(g.paths[idx].clone());
        k += 1;
    }
    proof {
        assert forall|k1: int, k2: int| 0 <= k1 < k2 < r@.len() implies r@[k1]@ != r@[k2]@ by {
            assert(ord@[k1] != ord@[k2]);
        }
        assert forall|i: int| 0 <= i < g.n() implies views_of(r@).contains(
            #[trigger] g.paths@[i]@,
        ) by {
            assert(ord@.contains(i as usize));
            let kk = choose|kk: int| 0 <= kk < ord@.len() && ord@[kk] == i as usize;
            assert(views_of(r@)[kk] == g.paths@[i]@);
        }
        assert forall|k: int| 0 <= k < r@.len() implies exists|i: int|
            0 <= i < g.n() && (#[trigger] r@[k]@) == g.paths@[i]@ by {
            assert(0 <= (ord@[k] as int) && (ord@[k] as int) < g.n() && r@[k]@ == g.paths@[ord@[k] as int]@);
        }
        if g.acyclic() {
            assert forall|i: int, m: int|
                0 <= i < g.n() && 0 <= m < g.deps@[i]@.len() implies precedes(
                views_of(r@),
                g.paths@[(#[trigger] g.deps@[i]@[m]) as int]@,
                g.paths@[i]@,
            ) by {
                assert(ord@.contains(i as usize));
                let k2 = choose|k2: int| 0 <= k2 < ord@.len() && ord@[k2] == i as usize;
                lemma_respects_instance(*g, ord@, k2, m);
                let k1 = choose|k1: int| 0 <= k1 < k2 && ord@[k1] == g.deps@[i]@[m];
                assert(views_of(r@)[k1] == g.paths@[g.deps@[i]@[m] as int]@);
                assert(views_of(r@)[k2] == g.paths@[i]@);
            }
        }
    }
    r
}

} // verus!

use jmake::graph::{create_hashmap, topo_order, topological_sort, SourceUnit};
use jmake::scan::get_classes;

fn unit(path: &str, contents: &str) -> SourceUnit {
    SourceUnit { path: path.to_string(), contents: contents.to_string() }
}

fn position(order: &Vec<String>, path: &str) -> usize {
    order.iter().position(|p| p == path).expect("path missing from order")
}

#[test]
fn scanner_finds_uppercase_tokens() {
    let toks = get_classes("class Foo extends Bar { Baz_9 qux fooBar }");
    assert_eq!(toks, vec!["Foo", "Bar", "Baz_9"]);
}

#[test]
fn scanner_keeps_tokens_inside_literals() {
    // a lexical heuristic, not a parse: tokens inside strings are reported
    let toks = get_classes("print(\"Hello World\")");
    assert_eq!(toks, vec!["Hello", "World"]);
}

#[test]
fn scanner_requires_run_boundary() {
    // an uppercase letter inside an identifier run starts no token
    let toks = get_classes("fooBar FooBar");
    assert_eq!(toks, vec!["FooBar"]);
}

#[test]
fn scanner_empty_contents() {
    assert_eq!(get_classes(""), Vec::<String>::new());
}

#[test]
fn graph_filters_to_known_units() {
    let units = vec![
        unit("src/A.src", "B String C unknown A"),
        unit("src/B.src", "nothing here"),
        unit("src/C.src", "A"),
    ];
    let g = create_hashmap(&units);
    assert_eq!(g.names, vec!["A", "B", "C"]);
    // A's references: B and C are known units; String is not; A itself is dropped
    assert_eq!(g.deps[0], vec![1, 2]);
    assert_eq!(g.deps[1], Vec::<usize>::new());
    assert_eq!(g.deps[2], vec![0]);
}

#[test]
fn end_to_end_expected_order() {
    // A references B, B references nothing, C references A: order [B, A, C]
    let units = vec![
        unit("src/A.src", "B"),
        unit("src/B.src", "x y z"),
        unit("src/C.src", "A"),
    ];
    let g = create_hashmap(&units);
    let order = topological_sort(&g);
    assert_eq!(order, vec!["src/B.src", "src/A.src", "src/C.src"]);
}

#[test]
fn isolated_units_appear_once() {
    let units = vec![unit("u/P.s", ""), unit("u/Q.s", ""), unit("u/R.s", "")];
    let g = create_hashmap(&units);
    let order = topological_sort(&g);
    assert_eq!(order.len(), 3);
    for p in ["u/P.s", "u/Q.s", "u/R.s"] {
        assert_eq!(order.iter().filter(|x| x.as_str() == p).count(), 1);
    }
}

#[test]
fn cycle_still_complete_and_deterministic() {
    // A and B reference each other; C references A; D stands alone
    let units = vec![
        unit("s/A.j", "B"),
        unit("s/B.j", "A"),
        unit("s/C.j", "A"),
        unit("s/D.j", ""),
    ];
    let g = create_hashmap(&units);
    let once = topological_sort(&g);
    let twice = topological_sort(&g);
    assert_eq!(once, twice);
    assert_eq!(once.len(), 4);
    for p in ["s/A.j", "s/B.j", "s/C.j", "s/D.j"] {
        assert_eq!(once.iter().filter(|x| x.as_str() == p).count(), 1);
    }
}

#[test]
fn duplicate_names_collapse_to_one_node() {
    let units = vec![unit("a/Foo.j", "Bar"), unit("b/Foo.j", ""), unit("a/Bar.j", "")];
    let g = create_hashmap(&units);
    assert_eq!(g.names, vec!["Foo", "Bar"]);
    // the last unit with the name supplies the node's path and contents
    assert_eq!(g.paths[0], "b/Foo.j");
    assert_eq!(g.deps[0], Vec::<usize>::new());
}

#[test]
fn index_order_matches_path_order() {
    let units = vec![unit("x/M.j", "N"), unit("x/N.j", "")];
    let g = create_hashmap(&units);
    let idx = topo_order(&g);
    let paths = topological_sort(&g);
    let by_idx: Vec<String> = idx.iter().map(|i| g.paths[*i].clone()).collect();
    assert_eq!(by_idx, paths);
}

#[test]
fn empty_unit_list() {
    let units: Vec<SourceUnit> = Vec::new();
    let g = create_hashmap(&units);
    assert!(g.names.is_empty());
    assert!(topological_sort(&g).is_empty());
}

struct Lcg(u64);

impl Lcg {
    fn next(&mut self) -> u64 {
        self.0 = self.0.wrapping_mul(6364136223846793005).wrapping_add(1442695040888963407);
        self.0 >> 33
    }
}

#[test]
fn random_dags_respect_every_edge() {
    // randomized ordering property over acyclic graphs of size up to 20:
    // unit i may only reference units with a smaller generation number,
    // so every generated graph is acyclic
    let mut rng = Lcg(0x5eed);
    for round in 0..50 {
        let n = 2 + (rng.next() as usize) % 19;
        let mut names: Vec<String> = Vec::new();
        for i in 0..n {
            names.push(format!("U{}x{}", round, i));
        }
        let mut units: Vec<SourceUnit> = Vec::new();
        let mut edges: Vec<(usize, usize)> = Vec::new();
        for i in 0..n {
            let mut contents = String::new();
            for j in 0..i {
                if rng.next() % 3 == 0 {
                    contents.push(' ');
                    contents.push_str(&names[j]);
                    edges.push((i, j));
                }
            }
            units.push(SourceUnit {
                path: format!("gen/{}.unit", names[i]),
                contents,
            });
        }
        let g = create_hashmap(&units);
        let order = topological_sort(&g);
        assert_eq!(order.len(), n);
        for p in units.iter() {
            assert_eq!(order.iter().filter(|x| x.as_str() == p.path.as_str()).count(), 1);
        }
        for (src, dep) in edges {
            let ps = position(&order, &units[src].path);
            let pd = position(&order, &units[dep].path);
            assert!(pd < ps, "dependency must come first");
        }
    }
}

#[test]
fn random_graphs_with_cycles_stay_total() {
    // totality holds whatever the shape: random graphs, cycles allowed
    let mut rng = Lcg(0xfeed);
    for round in 0..30 {
        let n = 1 + (rng.next() as usize) % 20;
        let mut names: Vec<String> = Vec::new();
        for i in 0..n {
            names.push(format!("V{}x{}", round, i));
        }
        let mut units: Vec<SourceUnit> = Vec::new();
        for i in 0..n {
            let mut contents = String::new();
            for j in 0..n {
                if j != i && rng.next() % 4 == 0 {
                    contents.push(' ');
                    contents.push_str(&names[j]);
                }
            }
            units.push(SourceUnit {
                path: format!("gen/{}.unit", names[i]),
                contents,
            });
        }
        let g = create_hashmap(&units);
        let order = topological_sort(&g);
        assert_eq!(order.len(), n);
        for p in units.iter() {
            assert_eq!(order.iter().filter(|x| x.as_str() == p.path.as_str()).count(), 1);
        }
    }
}

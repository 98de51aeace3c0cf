use std::collections::BTreeSet;

use infinite_craft::set_enum::{
    check_fits, collect_extensions, collect_new_pairs, collect_new_pairs_with_prefix, try_collect_new_pairs, CapacityExceeded,
    Queue,
};
use infinite_craft::subset::{keep_smallest, kept_items};
use infinite_craft::element_set::within_token_limits;
use infinite_craft::subset::{get_max_removal, get_unreachable};
use infinite_craft::lines::element_span;
use infinite_craft::path::alternatives;
use infinite_craft::seqs::{merge, merge_card, merge_ex};
use infinite_craft::{
    default_init, get_path, Cache, ElementSet, Graph, Pair, RecipeSet, Search, SymPair, UniformFamily, NOTHING,
};

const A: u32 = 1;
const B: u32 = 2;
const C: u32 = 3;

fn small_rule() -> RecipeSet {
    let mut r = RecipeSet::new();
    r.insert(A, A, B).unwrap();
    r.insert(A, B, C).unwrap();
    r
}

fn pair_set(v: &[Pair]) -> BTreeSet<[u32; 2]> {
    v.iter().map(|p| p.get()).collect()
}

#[test]
fn sym_pair_is_canonical() {
    for &(a, b) in &[(0u32, 0u32), (1, 2), (7, 3), (u32::MAX, 5), (9, 9)] {
        assert_eq!(SymPair::new(a, b), SymPair::new(b, a));
        assert_eq!(SymPair::new(a, b).get(), [a.min(b), a.max(b)]);
        assert_eq!(SymPair::new(a, b).as_u64(), ((a.min(b) as u64) << 32) | a.max(b) as u64);
    }
    assert_ne!(SymPair::new(4, 4), SymPair::new(4, 5));
}

#[test]
fn pair_round_trip() {
    let p = Pair::new(3, 0xdead_beef);
    assert_eq!(p.get(), [3, 0xdead_beef]);
    assert_eq!(p.as_u64(), (3u64 << 32) | 0xdead_beef);
    assert!(Pair::new(1, 2) < Pair::new(2, 1));
}

#[test]
fn recipe_set_lookups_and_conflict() {
    let mut r = RecipeSet::new();
    assert_eq!(r.get(A, B), None);
    r.insert(A, B, C).unwrap();
    assert_eq!(r.get(B, A), Some(C));
    assert!(r.contains(A, B) && r.contains(B, A));
    r.insert(B, B, NOTHING).unwrap();
    assert_eq!(r.get(B, B), Some(NOTHING));
    assert_eq!(r.insert(B, A, C), Ok(()));
    assert_eq!(r.insert(B, A, 7), Err(C));
    assert_eq!(r.get(A, B), Some(C));
    assert_eq!(r.num_recipes(), 2);
    assert_eq!(r.limit(), 4);
}

#[test]
fn merge_functions() {
    let mut out = vec![9];
    merge(&[1, 4, 6], &[2, 4, 7], &mut out);
    assert_eq!(out, vec![9, 1, 2, 4, 6, 7]);
    assert_eq!(merge_card(&[1, 4, 6], &[2, 4, 7]), 5);
    assert_eq!(merge_card(&[], &[]), 0);
    let mut out = Vec::new();
    merge_ex(&[1, 4], &[2], 3, &mut out);
    assert_eq!(out, vec![1, 2, 3, 4]);
    let mut out = Vec::new();
    merge_ex(&[1, 4], &[2], 4, &mut out);
    assert_eq!(out, vec![1, 2, 4]);
}

#[test]
fn family_keeps_smallest_and_caps_width() {
    let mut src = UniformFamily::new();
    src.set_single_empty();
    let mut f = UniformFamily::new();
    assert!(f.is_empty());
    assert!(f.add_merge(&src, &src, 5, 10));
    assert_eq!(f.card(), 1);
    assert_eq!(f.iter().to_vec(), vec![vec![5]]);
    // The same candidate again changes nothing.
    assert!(!f.add_merge(&src, &src, 5, 10));

    let mut g = UniformFamily::new();
    let mut one = UniformFamily::new();
    assert!(one.add_merge(&src, &src, 2, 10));
    let mut other = UniformFamily::new();
    assert!(other.add_merge(&src, &src, 1, 10));
    // Candidates {2, 7} and {1, 7}, kept sorted.
    assert!(g.add_merge(&one, &src, 7, 10));
    assert!(g.add_merge(&other, &src, 7, 10));
    assert_eq!(g.card(), 2);
    assert_eq!(g.len(), 2);
    assert_eq!(g.iter().to_vec(), vec![vec![1, 7], vec![2, 7]]);
    // A smaller candidate replaces them.
    assert!(g.add_merge(&src, &src, 7, 10));
    assert_eq!(g.iter().to_vec(), vec![vec![7]]);

    let mut capped = UniformFamily::new();
    assert!(capped.add_merge(&one, &src, 7, 1));
    assert!(!capped.add_merge(&other, &src, 7, 1));
    assert_eq!(capped.len(), 1);
    capped.sort_dedup();
    assert_eq!(capped.iter().to_vec(), vec![vec![2, 7]]);
    capped.clear();
    assert!(capped.is_empty());
    assert_eq!(capped.card(), usize::MAX);
}

#[test]
fn enumerator_small_rule_scenario() {
    let n = 4;
    let init = [A];
    let mut recipe = RecipeSet::new();
    let (p0, c0) = collect_new_pairs(0, n, &init, &recipe);
    assert_eq!(pair_set(&p0), [[A, A]].into_iter().collect());
    assert_eq!(c0, 1);
    recipe.insert(A, A, B).unwrap();
    let (p1, c1) = collect_new_pairs(1, n, &init, &recipe);
    assert_eq!(pair_set(&p1), [[B, A], [B, B]].into_iter().collect());
    assert_eq!(c1, 1);
    recipe.insert(A, B, C).unwrap();
    recipe.insert(B, B, NOTHING).unwrap();
    let (p2, c2) = collect_new_pairs(2, n, &init, &recipe);
    assert_eq!(pair_set(&p2), [[C, A], [C, B], [C, C]].into_iter().collect());
    assert_eq!(c2, 1);
}

fn synthetic(n: u32) -> RecipeSet {
    let mut r = RecipeSet::new();
    for a in 1..n {
        for b in a..n {
            let w = (a * 7 + b * 3) % (n + 4);
            if w < n && (a + b) % 3 != 0 {
                r.insert(a, b, w).unwrap();
            }
        }
    }
    r
}

#[test]
fn fan_out_matches_serial() {
    let n = 14;
    let recipe = synthetic(n);
    let init = [1, 2];
    for depth in 1..5usize {
        let serial = collect_new_pairs_with_prefix(depth, 1, n as usize, &init, &recipe);
        for prefix in 2..=depth + 1 {
            let split = collect_new_pairs_with_prefix(depth, prefix, n as usize, &init, &recipe);
            assert_eq!(pair_set(&split.0), pair_set(&serial.0));
            assert_eq!(split.1, serial.1);
        }
        let default = collect_new_pairs(depth, n as usize, &init, &recipe);
        assert_eq!(pair_set(&default.0), pair_set(&serial.0));
        assert_eq!(default.1, serial.1);
        for p in &serial.0 {
            let [u, v] = p.get();
            assert!(!recipe.contains(u, v));
        }
    }
}

#[test]
fn queue_restores_flags() {
    let mut q = Queue::new(5, &[1]);
    q.enqueue(2);
    q.enqueue(2);
    q.enqueue(1);
    assert_eq!(q.as_slice(), &[2]);
    assert_eq!(q.dequeue(), Some(2));
    assert_eq!(q.dequeue(), None);
    let t = q.tail();
    q.enqueue(3);
    assert_eq!(q.tail(), t + 1);
    q.truncate(t);
    q.enqueue(3);
    assert_eq!(q.as_slice(), &[3]);
}

fn small_search(recipe: &RecipeSet) -> Search {
    let graph = Graph::from_recipes(4, recipe);
    let mut s = Search::new(4, usize::MAX, 10);
    s.search_from_source(&[A], &graph);
    s
}

#[test]
fn search_small_rule_scenario() {
    let mut recipe = small_rule();
    recipe.insert(B, B, NOTHING).unwrap();
    let s = small_search(&recipe);
    assert_eq!(s.min_card(A), 0);
    assert_eq!(s.min_card(B), 1);
    assert_eq!(s.sets(B).iter().to_vec(), vec![vec![B]]);
    assert_eq!(s.min_card(C), 2);
    assert_eq!(s.sets(C).iter().to_vec(), vec![vec![B, C]]);
    assert!(s.reached(C));
    assert!(!s.reached(NOTHING));
}

#[test]
fn path_small_rule_scenario() {
    let recipe = small_rule();
    let path = get_path(&[A], &[B, C], &recipe);
    assert_eq!(path, vec![[A, A, B], [B, A, C]]);
    // An item that nothing makes stays unsettled.
    let path = get_path(&[A], &[B, 3 + 5], &recipe);
    assert_eq!(path, vec![[A, A, B]]);
}

fn check_paths(s: &Search, source: &[u32], recipe: &RecipeSet, n: u32) {
    for u in 1..n {
        let fam = s.sets(u);
        for set in fam.iter() {
            assert_eq!(set.len(), s.min_card(u));
            let path = get_path(source, set, recipe);
            let mut made: Vec<u32> = path.iter().map(|t| t[2]).collect();
            made.sort();
            assert_eq!(&made, set);
        }
    }
}

#[test]
fn search_families_round_trip_through_paths() {
    let n = 14;
    let recipe = synthetic(n);
    let graph = Graph::from_recipes(n as usize, &recipe);
    let mut s = Search::new(n as usize, usize::MAX, 300);
    let source = [1, 2];
    s.search_from_source(&source, &graph);
    check_paths(&s, &source, &recipe, n);
}

#[test]
fn search_ignores_recipe_order() {
    let n = 14u32;
    let forward = synthetic(n);
    let mut backward = RecipeSet::new();
    for i in (0..forward.num_recipes()).rev() {
        let (a, b, w) = forward.entry(i);
        backward.insert(b, a, w).unwrap();
    }
    let source = [1, 2];
    let run = |r: &RecipeSet| {
        let g = Graph::from_recipes(n as usize, r);
        let mut s = Search::new(n as usize, 1, 300);
        s.search_from_source(&source, &g);
        (0..n).map(|u| s.min_card(u)).collect::<Vec<_>>()
    };
    assert_eq!(run(&forward), run(&backward));
}

#[test]
fn subset_reachability() {
    // A + A = B, A + D = C: C needs the pool item D.
    let d = 4;
    let mut recipe = RecipeSet::new();
    recipe.insert(A, A, B).unwrap();
    recipe.insert(A, d, C).unwrap();
    let mut remain = vec![false; 5];
    let target = [C];
    assert_eq!(get_unreachable(&[A], &[], &target, &mut remain, &recipe), vec![C]);
    assert_eq!(remain, vec![false; 5]);
    assert_eq!(get_unreachable(&[A, d], &[], &target, &mut remain, &recipe), Vec::<u32>::new());
    assert_eq!(get_unreachable(&[A], &[B], &[B, C], &mut remain, &recipe), vec![C]);
    assert_eq!(remain, vec![false; 5]);
}

#[test]
fn subset_max_removal() {
    // A + A = B, A + B = C, A + D = C: to reach C, either B or D is needed.
    let d = 4;
    let mut recipe = RecipeSet::new();
    recipe.insert(A, A, B).unwrap();
    recipe.insert(A, B, C).unwrap();
    recipe.insert(A, d, C).unwrap();
    let mut remain = vec![false; 5];
    let mut out = Vec::new();
    get_max_removal(&[A, d], &[C], &[B], &mut remain, &recipe, &mut out);
    assert_eq!(out, vec![vec![B]]);
    assert_eq!(remain, vec![false; 5]);
    let mut out = Vec::new();
    get_max_removal(&[A], &[C], &[B, d], &mut remain, &recipe, &mut out);
    assert_eq!(out, vec![vec![d]]);
    let mut out = Vec::new();
    get_max_removal(&[A], &[d], &[B], &mut remain, &recipe, &mut out);
    assert_eq!(out, vec![Vec::<u32>::new()]);
}

#[test]
fn element_set_interning() {
    let mut e = ElementSet::new();
    assert_eq!(e.len(), 1);
    assert_eq!(e.name(NOTHING), "Nothing");
    assert_eq!(e.intern(""), NOTHING);
    let w = e.intern("Water");
    assert_eq!(w, 1);
    assert_eq!(e.intern("Water"), 1);
    let w2 = e.intern("water");
    assert_eq!(w2, 2);
    assert_eq!(e.canon(w2), w);
    assert_eq!(e.canon(w), w);
    assert_eq!(e.name(w2), "water");
    assert_eq!(e.items(), vec![1, 2]);
    assert_eq!(e.token_count(w), None);
    e.set_token_count(w, 3);
    assert_eq!(e.token_count(w), Some(3));
}

#[test]
fn cache_interning_and_pairs() {
    let mut c = Cache::new();
    assert_eq!(c.name(0), "Nothing");
    assert_eq!(c.tokenize(0), Some(0));
    let fire = c.intern("Fire");
    let water = c.intern("Water");
    assert_eq!((fire, water), (1, 2));
    assert_eq!(c.intern("Fire"), 1);
    assert_eq!(c.tokenize(fire), None);
    c.insert_tokenize(fire, 2);
    assert_eq!(c.tokenize(fire), Some(2));
    let steam = c.intern("Steam");
    assert_eq!(c.insert_pair([fire, water], steam), Ok(()));
    assert_eq!(c.pair([water, fire]), Some(steam));
    assert_eq!(c.insert_pair([water, fire], fire), Err(steam));
    assert_eq!(c.pair([fire, fire]), None);
}

#[test]
fn default_init_items() {
    assert_eq!(default_init(), vec!["Water", "Fire", "Wind", "Earth"]);
}

fn span_text(line: &str) -> Option<String> {
    let chars: Vec<char> = line.chars().collect();
    element_span(&chars).map(|(a, b)| chars[a..b].iter().collect())
}

#[test]
fn item_lines() {
    assert_eq!(span_text("  Steam \t"), Some("Steam".to_string()));
    assert_eq!(span_text("Fire + Water -> Steam"), Some("Steam".to_string()));
    assert_eq!(span_text("a -> b -> Mud "), Some("Mud".to_string()));
    assert_eq!(span_text("# Fire"), None);
    assert_eq!(span_text("   "), None);
    assert_eq!(span_text(""), None);
    assert_eq!(span_text("\u{3000}Lava\u{A0}"), Some("Lava".to_string()));
    assert_eq!(span_text("x ->"), Some("x ->".to_string()));
}

#[test]
fn capacity_is_checked() {
    let recipe = small_rule();
    assert!(check_fits(4, &[A], &recipe));
    assert!(!check_fits(3, &[A], &recipe));
    assert!(!check_fits(4, &[4], &recipe));
    assert!(!check_fits(0, &[], &RecipeSet::new()));
    assert_eq!(try_collect_new_pairs(1, 3, &[A], &recipe).unwrap_err(), CapacityExceeded { n: 3 });
    // A + B is known already: only B + B is new.
    let (pairs, count) = try_collect_new_pairs(1, 4, &[A], &recipe).unwrap();
    assert_eq!(pair_set(&pairs), [[B, B]].into_iter().collect());
    assert_eq!(count, 1);
}

#[test]
fn extensions_and_kept_items() {
    let recipe = small_rule();
    let ext = collect_extensions(2, 4, &[A], &recipe);
    assert_eq!(ext, vec![vec![], vec![B], vec![B, C]]);
    assert_eq!(kept_items(&[4, 5, 6], &[5], &[9]), vec![4, 6, 9]);
    assert_eq!(kept_items(&[], &[], &[]), Vec::<u32>::new());
}

#[test]
fn alternative_steps() {
    // A + A = B, B + B = C, A + B = D, D + B = E, C + B = E.
    let (d, e) = (4, 5);
    let mut recipe = RecipeSet::new();
    recipe.insert(A, A, B).unwrap();
    recipe.insert(B, B, C).unwrap();
    recipe.insert(A, B, d).unwrap();
    recipe.insert(d, B, e).unwrap();
    recipe.insert(C, B, e).unwrap();
    let path = get_path(&[A], &[B, C, d, e], &recipe);
    assert_eq!(path, vec![[A, A, B], [B, B, C], [B, A, d], [C, B, e]]);
    assert_eq!(alternatives(&path, 3, &recipe), vec![[d, B, e], [C, B, e]]);
    assert_eq!(alternatives(&path, 0, &recipe), Vec::<[u32; 3]>::new());
}

#[test]
fn snapshots_are_checked() {
    assert!(Queue::from_buf(vec![2, 3], 1, 5, &[1]).is_some());
    assert!(Queue::from_buf(vec![2, 3], 3, 5, &[1]).is_none());
    assert!(Queue::from_buf(vec![2, 2], 0, 5, &[1]).is_none());
    assert!(Queue::from_buf(vec![2, 1], 0, 5, &[1]).is_none());
    assert!(Queue::from_buf(vec![0], 0, 5, &[1]).is_none());
    assert!(Queue::from_buf(vec![7], 0, 5, &[1]).is_none());
    let q = Queue::from_buf(vec![2, 3], 1, 5, &[1]).unwrap();
    assert_eq!(q.as_slice(), &[3]);
    assert_eq!(q.head(), 1);
}

#[test]
fn smallest_sets_are_kept() {
    let mut sets: Vec<Vec<u32>> = Vec::new();
    keep_smallest(&mut sets, vec![3, 4, 5]);
    keep_smallest(&mut sets, vec![9, 9, 9, 9]);
    assert_eq!(sets, vec![vec![3, 4, 5]]);
    keep_smallest(&mut sets, vec![1, 2, 3]);
    keep_smallest(&mut sets, vec![3, 4, 5]);
    assert_eq!(sets, vec![vec![3, 4, 5], vec![1, 2, 3]]);
    keep_smallest(&mut sets, vec![7]);
    assert_eq!(sets, vec![vec![7]]);
}

#[test]
fn token_limits() {
    assert!(within_token_limits([3, 20], [20, 20]));
    assert!(!within_token_limits([21, 2], [20, 20]));
    assert!(!within_token_limits([2, 21], [20, 20]));
}

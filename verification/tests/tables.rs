use ocr_corrector::sets::{LetterSet, PairSet, TextSet};
use ocr_corrector::tables::{LetterCounts, NgramCounts, PairCounts, RuleCounts};

fn run(ws: &[&str]) -> Vec<String> {
    ws.iter().map(|w| w.to_string()).collect()
}

#[test]
fn pair_table_counts_each_item() {
    let mut t = PairCounts::new();
    assert_eq!(t.get(('a', 'b')), None);
    assert!(t.count_all(&[('a', 'b'), ('b', 'a'), ('a', 'b')]));
    assert_eq!(t.get(('a', 'b')), Some(2));
    assert_eq!(t.get(('b', 'a')), Some(1));
    assert_eq!(t.len(), 2);
    t.set(('a', 'b'), 7);
    let mut es = t.entries();
    es.sort();
    assert_eq!(es, vec![(('a', 'b'), 7), (('b', 'a'), 1)]);
}

#[test]
fn letter_table_counts_each_item() {
    let mut t = LetterCounts::new();
    assert!(t.count_all(&['ъ', 'ъ', 'ь']));
    assert_eq!(t.get('ъ'), Some(2));
    assert_eq!(t.get('ь'), Some(1));
    assert_eq!(t.get('а'), None);
    t.set('а', 3);
    let mut es = t.entries();
    es.sort();
    assert_eq!(es, vec![('а', 3), ('ъ', 2), ('ь', 1)]);
}

#[test]
fn rule_table_counts_each_item() {
    let mut t = RuleCounts::new();
    let ab = ("a".to_string(), "b".to_string());
    let ba = ("b".to_string(), "a".to_string());
    assert!(t.count_all(&[ab.clone(), ba.clone(), ab.clone()]));
    assert_eq!(t.get(&ab.0, &ab.1), Some(2));
    assert_eq!(t.get(&ba.0, &ba.1), Some(1));
    assert_eq!(t.get(&ab.0, &ab.0), None);
    t.set(ba.clone(), 9);
    let mut es = t.entries();
    es.sort();
    assert_eq!(es, vec![(ab, 2), (ba, 9)]);
    assert_eq!(t.len(), 2);
}

#[test]
fn run_table_counts_and_forgets_single_runs() {
    let mut t = NgramCounts::new();
    assert!(t.count_all(&[run(&["a", "b"]), run(&["b", "a"]), run(&["a", "b"])]));
    assert_eq!(t.get(&run(&["a", "b"])), Some(2));
    assert_eq!(t.get(&run(&["b", "a"])), Some(1));
    assert_eq!(t.get(&run(&["ab"])), None);
    t.drop_singles();
    assert_eq!(t.get(&run(&["a", "b"])), Some(2));
    assert_eq!(t.get(&run(&["b", "a"])), None);
    assert_eq!(t.len(), 1);
    t.set(run(&["x"]), 4);
    let mut es = t.entries();
    es.sort();
    assert_eq!(es, vec![(run(&["a", "b"]), 2), (run(&["x"]), 4)]);
}

#[test]
fn tables_refuse_counts_past_the_end() {
    let mut t = PairCounts::new();
    t.set(('a', 'b'), usize::MAX);
    assert!(!t.count_all(&[('c', 'd'), ('a', 'b')]));
    let mut t = LetterCounts::new();
    t.set('a', usize::MAX - 1);
    assert!(t.count_all(&['a']));
    assert_eq!(t.get('a'), Some(usize::MAX));
    assert!(!t.count_all(&['a']));
    let mut t = RuleCounts::new();
    t.set(("a".to_string(), "b".to_string()), usize::MAX);
    assert!(!t.count_all(&[("a".to_string(), "b".to_string())]));
    let mut t = NgramCounts::new();
    t.set(run(&["a"]), usize::MAX);
    assert!(!t.count_all(&[run(&["a"])]));
}

#[test]
fn counting_in_another_order_gives_the_same_table() {
    let xs = [('a', 'b'), ('c', 'd')];
    let ys = [('c', 'd'), ('e', 'f')];
    let mut one = PairCounts::new();
    assert!(one.count_all(&xs) && one.count_all(&ys));
    let mut two = PairCounts::new();
    assert!(two.count_all(&ys) && two.count_all(&xs));
    let mut both = PairCounts::new();
    assert!(both.count_all(&[xs, ys].concat()));
    let mut e1 = one.entries();
    let mut e2 = two.entries();
    let mut e3 = both.entries();
    e1.sort();
    e2.sort();
    e3.sort();
    assert_eq!(e1, e2);
    assert_eq!(e1, e3);
}

#[test]
fn sets_hold_what_was_put_in() {
    let mut t = TextSet::new();
    assert!(!t.contains("да"));
    t.insert("да".to_string());
    t.insert("да".to_string());
    assert!(t.contains("да"));
    assert!(!t.contains("нет"));
    assert_eq!(t.len(), 1);
    let mut p = PairSet::new();
    p.insert(('a', 'b'));
    assert!(p.contains(&('a', 'b')));
    assert!(!p.contains(&('b', 'a')));
    assert_eq!(p.len(), 1);
    let mut l = LetterSet::new();
    l.insert('a');
    l.insert('b');
    assert!(l.contains(&'b'));
    assert!(!l.contains(&'c'));
    assert_eq!(l.len(), 2);
}

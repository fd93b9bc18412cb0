use toipe::trie::{Trie, TrieErr, TrieErrKind};

fn built(words: &[&str]) -> Trie {
    let mut trie = Trie::new();
    for word in words {
        assert!(trie.insert(word).is_ok());
    }
    trie
}

fn sampled(trie: &Trie) -> Vec<String> {
    (0..trie.num_words()).map(|id| trie.sample(id).ok().unwrap()).collect()
}

fn sorted(mut words: Vec<String>) -> Vec<String> {
    words.sort();
    words
}

const CORPUS: [&str; 14] = [
    "the", "then", "there", "the", "a", "an", "and", "to", "toe", "total", "the", "tea", "ten",
    "a",
];

#[test]
fn empty_trie_has_no_words() {
    let trie = Trie::new();
    assert_eq!(trie.num_words(), 0);
    assert_eq!(trie.to_text(), "root (count=0, index=0)\nNum. nodes = 1\n");
}

#[test]
fn empty_trie_fails_to_sample() {
    let trie = Trie::new();
    assert_eq!(trie.sample(0).err(), Some(TrieErr { kind: TrieErrKind::EmptyTrie }));
    assert_eq!(trie.sample(17).err(), Some(TrieErr::empty_trie()));
    let compressed = trie.compress().ok().unwrap();
    assert_eq!(compressed.num_words(), 0);
    assert_eq!(compressed.sample(0).err(), Some(TrieErr::empty_trie()));
}

#[test]
fn frequency_weighting_is_exact_by_rank() {
    let mut words = vec!["a"];
    words.extend(std::iter::repeat("b").take(9));
    let trie = built(&words);
    assert_eq!(trie.num_words(), 10);
    assert_eq!(trie.sample(0).ok().unwrap(), "a");
    for k in 1..=9 {
        assert_eq!(trie.sample(k).ok().unwrap(), "b");
    }
    assert_eq!(trie.sample(10).ok().unwrap(), trie.sample(0).ok().unwrap());
    let compressed = trie.compress().ok().unwrap();
    assert_eq!(compressed.sample(0).ok().unwrap(), "a");
    for k in 1..=9 {
        assert_eq!(compressed.sample(k).ok().unwrap(), "b");
    }
    assert_eq!(compressed.sample(10).ok().unwrap(), "a");
}

#[test]
fn cat_car_cat_end_to_end() {
    let trie = built(&["cat", "car", "cat"]);
    assert_eq!(trie.num_words(), 3);
    assert_eq!(sampled(&trie), vec!["cat", "cat", "car"]);
    let compressed = trie.compress().ok().unwrap();
    assert_eq!(compressed.num_words(), 3);
    assert_eq!(compressed.sample(0).ok().unwrap(), "cat");
    assert_eq!(compressed.sample(1).ok().unwrap(), "cat");
    assert_eq!(compressed.sample(2).ok().unwrap(), "car");
}

#[test]
fn cat_car_cat_counts_before_compression() {
    let trie = built(&["cat", "car", "cat"]);
    let expected = "root (count=3, index=0)\n\
                    \x20   c (count=3, index=1)\n\
                    \x20       ca (count=3, index=2)\n\
                    \x20           cat (count=2, index=3)\n\
                    \x20           car (count=1, index=4)\n\
                    Num. nodes = 5\n";
    assert_eq!(trie.to_text(), expected);
}

#[test]
fn cat_car_cat_counts_after_compression() {
    let compressed = built(&["cat", "car", "cat"]).compress().ok().unwrap();
    let expected = "root (count=3, index=0)\n\
                    \x20   ca (count=3, index=1)\n\
                    \x20       cat (count=2, index=2)\n\
                    \x20       car (count=1, index=3)\n\
                    Num. nodes = 4\n";
    assert_eq!(compressed.to_text(), expected);
}

#[test]
fn a_word_that_is_a_prefix_keeps_its_node() {
    let trie = built(&["ab", "a", "ab"]);
    let compressed = trie.compress().ok().unwrap();
    let expected = "root (count=3, index=0)\n\
                    \x20   a (count=3, index=1)\n\
                    \x20       ab (count=2, index=2)\n\
                    Num. nodes = 3\n";
    assert_eq!(compressed.to_text(), expected);
    assert_eq!(sampled(&compressed), vec!["ab", "ab", "a"]);
}

#[test]
fn a_long_chain_becomes_one_edge() {
    let trie = built(&["hello"]);
    assert_eq!(trie.preorder_iter().len(), 6);
    let compressed = trie.compress().ok().unwrap();
    assert_eq!(
        compressed.preorder_iter(),
        vec![(String::new(), 0, 0), ("hello".to_string(), 1, 1)]
    );
    assert_eq!(compressed.sample(0).ok().unwrap(), "hello");
}

#[test]
fn the_root_is_never_merged_away() {
    let trie = built(&["x", "x"]);
    let compressed = trie.compress().ok().unwrap();
    assert_eq!(
        compressed.to_text(),
        "root (count=2, index=0)\n    x (count=2, index=1)\nNum. nodes = 2\n"
    );
}

#[test]
fn the_empty_word_ends_at_the_root() {
    let trie = built(&["", "a", ""]);
    assert_eq!(trie.num_words(), 3);
    assert_eq!(sampled(&trie), vec!["a", "", ""]);
    let compressed = trie.compress().ok().unwrap();
    assert_eq!(sampled(&compressed), vec!["a", "", ""]);
}

#[test]
fn compression_preserves_every_rank() {
    let trie = built(&CORPUS);
    let compressed = trie.compress().ok().unwrap();
    assert_eq!(trie.num_words(), 14);
    assert_eq!(compressed.num_words(), 14);
    assert_eq!(sampled(&trie), sampled(&compressed));
}

#[test]
fn sampling_every_rank_gives_the_corpus() {
    let trie = built(&CORPUS);
    let corpus: Vec<String> = CORPUS.iter().map(|w| w.to_string()).collect();
    assert_eq!(sorted(sampled(&trie)), sorted(corpus.clone()));
    let compressed = trie.compress().ok().unwrap();
    assert_eq!(sorted(sampled(&compressed)), sorted(corpus));
}

#[test]
fn compression_does_not_add_nodes() {
    let trie = built(&CORPUS);
    let compressed = trie.compress().ok().unwrap();
    assert_eq!(trie.preorder_iter().len(), 18);
    assert_eq!(compressed.preorder_iter().len(), 14);
    assert!(compressed.to_text().ends_with("Num. nodes = 14\n"));
}

#[test]
fn compression_is_idempotent() {
    let once = built(&CORPUS).compress().ok().unwrap();
    let twice = once.compress().ok().unwrap();
    assert_eq!(once.to_text(), twice.to_text());
    assert_eq!(sampled(&once), sampled(&twice));
}

#[test]
fn sampling_wraps_around() {
    let trie = built(&CORPUS).compress().ok().unwrap();
    let n = trie.num_words();
    for id in 0..(3 * n) {
        assert_eq!(trie.sample(id).ok().unwrap(), trie.sample(id + n).ok().unwrap());
    }
    assert_eq!(trie.sample(u64::MAX).ok().unwrap(), trie.sample(u64::MAX % n).ok().unwrap());
}

#[test]
fn counts_are_conserved_in_the_listing() {
    let trie = built(&["to", "tea", "ten", "to", "t"]);
    let expected = "root (count=5, index=0)\n\
                    \x20   t (count=5, index=1)\n\
                    \x20       to (count=2, index=2)\n\
                    \x20       te (count=2, index=3)\n\
                    \x20           tea (count=1, index=4)\n\
                    \x20           ten (count=1, index=5)\n\
                    Num. nodes = 6\n";
    assert_eq!(trie.to_text(), expected);
    assert_eq!(trie.compress().ok().unwrap().to_text(), expected);
}

#[test]
fn insert_can_be_chained() {
    let mut trie = Trie::new();
    let chained = trie.insert("one").and_then(|t| t.insert("two")).and_then(|t| t.insert("one"));
    assert!(chained.is_ok());
    assert_eq!(trie.num_words(), 3);
    assert_eq!(sampled(&trie), vec!["one", "one", "two"]);
}

#[test]
fn words_beyond_ascii_are_kept() {
    let trie = built(&["über", "übel", "日本語", "über"]);
    let compressed = trie.compress().ok().unwrap();
    assert_eq!(sampled(&compressed), vec!["über", "über", "übel", "日本語"]);
}

#[test]
fn node_info_names_parents_and_keys() {
    let trie = built(&["cat", "car", "cat"]);
    let (prefixes, parents) = trie.get_node_info();
    assert_eq!(prefixes, vec!["", "c", "a", "t", "r"]);
    assert_eq!(parents, vec![0, 0, 1, 2, 2]);
    let (prefixes, parents) = trie.compress().ok().unwrap().get_node_info();
    assert_eq!(prefixes, vec!["", "ca", "t", "r"]);
    assert_eq!(parents, vec![0, 0, 1, 1]);
}

#[test]
fn preorder_lists_children_in_order() {
    let trie = built(&["b", "a", "b"]);
    assert_eq!(
        trie.preorder_iter(),
        vec![(String::new(), 0, 0), ("b".to_string(), 1, 1), ("a".to_string(), 2, 1)]
    );
}

#[test]
fn trie_errors_have_messages() {
    assert_eq!(TrieErr::empty_trie().to_text(), "TrieErr: Cannot sample from an empty trie");
    assert_eq!(TrieErr::missing_node(0).to_text(), "TrieErr: Could not get node at index 0");
    assert_eq!(TrieErr::missing_node(120).to_text(), "TrieErr: Could not get node at index 120");
    assert_eq!(TrieErr::missing_node(7).kind, TrieErrKind::MissingNode(7));
    assert_ne!(TrieErr::missing_node(7), TrieErr::empty_trie());
}

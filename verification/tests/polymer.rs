use advent::polymer::{get_char_max, get_char_min, inc_by, read_data, Chain};

fn lines(text: &str) -> Vec<Vec<char>> {
    text.lines().map(|l| l.chars().collect()).collect()
}

const SAMPLE: &str = "NNCB\n

CH -> B
HH -> N
CB -> H
NH -> C
HB -> C
HC -> B
HN -> C
NN -> C
BH -> H
NC -> B
NB -> B
BN -> B
BB -> N
BC -> B
CC -> N
CN -> C";

fn sample() -> (Vec<char>, Vec<((char, char), char)>) {
    // the first line keeps its line feed, as the reader expects
    let mut all: Vec<Vec<char>> = vec!["NNCB\n".chars().collect(), vec![]];
    all.extend(lines(SAMPLE).into_iter().skip(3));
    read_data(&all).unwrap()
}

#[test]
fn read_data_chain_and_rules() {
    let (chain, rules) = sample();
    assert_eq!(chain, vec!['N', 'N', 'C', 'B']);
    assert_eq!(rules.len(), 16);
    assert_eq!(rules[0], (('C', 'H'), 'B'));
    assert_eq!(rules[15], (('C', 'N'), 'C'));
}

#[test]
fn polymer_rejects_malformed() {
    assert!(read_data(&vec![]).is_none());
    assert!(read_data(&lines("AB\n")).is_none());
    assert!(read_data(&vec![vec![], vec![]]).is_none());
    assert!(read_data(&lines("AB\n\nA -> B")).is_none());
    assert!(read_data(&lines("AB\n\nAB->C")).is_none());
}

#[test]
fn inc_by_adds_or_inserts() {
    let mut map = Vec::new();
    let ab = (Some('a'), Some('b'));
    let end = (Some('b'), None);
    inc_by(&mut map, ab, 2);
    inc_by(&mut map, end, 1);
    inc_by(&mut map, ab, 5);
    assert_eq!(map, vec![(ab, 7), (end, 1)]);
}

#[test]
fn init_counts_pairs() {
    let chain = Chain::init(&vec!['N', 'N', 'N']);
    assert_eq!(
        chain.links,
        vec![((None, Some('N')), 1), ((Some('N'), Some('N')), 2), ((Some('N'), None), 1)]
    );
    assert!(Chain::init(&vec![]).links.is_empty());
}

#[test]
fn sample_scores() {
    let (start, rules) = sample();
    let mut chain = Chain::init(&start);
    chain.apply_map(&rules);
    // NCNBCHB
    let total: usize = chain.links.iter().map(|l| l.1).sum();
    assert_eq!(total, 8);
    for _ in 1..10 {
        chain.apply_map(&rules);
    }
    assert_eq!(chain.get_chain_score(), Some(1588));
    for _ in 0..30 {
        chain.apply_map(&rules);
    }
    assert_eq!(chain.get_chain_score(), Some(2188189693529));
}

#[test]
fn score_of_empty_chain() {
    assert_eq!(Chain::init(&vec![]).get_chain_score(), None);
    assert_eq!(Chain::init(&vec!['A']).get_chain_score(), Some(0));
    assert_eq!(Chain::init(&vec!['A', 'A', 'B']).get_chain_score(), Some(1));
}

#[test]
fn most_and_least_frequent() {
    let chain: Vec<char> = "NCNBCHB".chars().collect();
    assert_eq!(get_char_max(&chain), Some(2));
    assert_eq!(get_char_min(&chain), Some(1));
    assert_eq!(get_char_max(&vec![]), None);
    assert_eq!(get_char_min(&vec![]), None);
    assert_eq!(get_char_max(&vec!['x', 'x', 'x']), Some(3));
    assert_eq!(get_char_min(&vec!['x', 'x', 'x']), Some(3));
}

/// The chain after one step, element by element.
fn grow(chain: &[char], rules: &[((char, char), char)]) -> Vec<char> {
    let mut out = vec![chain[0]];
    for w in chain.windows(2) {
        // the last rule for a pair decides
        if let Some(r) = rules.iter().rev().find(|r| r.0 == (w[0], w[1])) {
            out.push(r.1);
        }
        out.push(w[1]);
    }
    out
}

fn spread(chain: &[char]) -> usize {
    let count = |c: char| chain.iter().filter(|x| **x == c).count();
    let most = chain.iter().map(|c| count(*c)).max().unwrap();
    let least = chain.iter().map(|c| count(*c)).min().unwrap();
    most - least
}

#[test]
fn counted_links_follow_the_chain() {
    let (chain, rules) = sample();
    let mut links = Chain::init(&chain);
    let mut whole = chain.clone();
    assert_eq!(links.get_chain_score(), Some(spread(&whole)));
    for step in 1..=10 {
        links.apply_map(&rules);
        whole = grow(&whole, &rules);
        assert_eq!(links.get_chain_score(), Some(spread(&whole)));
        // every link is counted as often as it stands in the chain
        let pairs: usize = links.links.iter().map(|l| l.1).sum();
        assert_eq!(pairs, whole.len() + 1);
        if step == 1 {
            assert_eq!(whole.iter().collect::<String>(), "NCNBCHB");
        }
        if step == 4 {
            assert_eq!(
                whole.iter().collect::<String>(),
                "NBBNBNBBCCNBCNCCNBBNBBNBBBNBBNBBCBHCBHHNHCBBCBHCB"
            );
        }
    }
    assert_eq!(whole.len(), 3073);
    assert_eq!(spread(&whole), 1588);
}

#[test]
fn chain_without_rules_stays() {
    let chain: Vec<char> = "abca".chars().collect();
    let mut links = Chain::init(&chain);
    let before = links.links.clone();
    links.apply_map(&vec![]);
    assert_eq!(links.links, before);
    assert_eq!(links.get_chain_score(), Some(1));
    let one = Chain::init(&vec!['x']);
    assert_eq!(one.get_chain_score(), Some(0));
    assert_eq!(Chain::init(&vec![]).get_chain_score(), None);
}

use advent::caves::{
    find_path_cnt, read_data, reachable_from, try_find_path_cnt, without, VisitState,
};

fn lines(text: &str) -> Vec<Vec<char>> {
    text.lines().map(|l| l.chars().collect()).collect()
}

const SMALL: &str = "start-A
start-b
A-c
A-b
b-d
A-end
b-end";

const MEDIUM: &str = "dc-end
HN-start
start-kj
dc-start
dc-HN
LN-dc
HN-end
kj-sa
kj-HN
kj-dc";

#[test]
fn read_data_numbers_caves_in_order() {
    let (start, end, paths, big) = read_data(&lines(SMALL)).unwrap();
    assert_eq!(start, 0);
    assert_eq!(end, 5);
    assert_eq!(big, vec![false, true, false, false, false, false]);
    assert_eq!(paths.len(), 14);
    assert_eq!(&paths[0..4], &[(0, 1), (1, 0), (0, 2), (2, 0)]);
}

#[test]
fn read_data_needs_start_and_end() {
    assert!(read_data(&lines("a-b")).is_none());
    assert!(read_data(&lines("start-b")).is_none());
    assert!(read_data(&lines("start end")).is_none());
    assert!(read_data(&lines("start-")).is_none());
    assert!(read_data(&lines("start-end\n")).is_some());
}

#[test]
fn reachable_and_without() {
    let paths = vec![(0, 1), (1, 0), (0, 2), (2, 0), (1, 2), (2, 1)];
    assert_eq!(reachable_from(&paths, 0), vec![1, 2]);
    assert_eq!(reachable_from(&paths, 3), vec![]);
    assert_eq!(without(&paths, 0), vec![(1, 2), (2, 1)]);
    assert_eq!(without(&paths, 3), paths);
}

#[test]
fn is_needy_and_next_states() {
    assert!(VisitState::Needs(3).is_needy());
    assert!(!VisitState::CanTwice.is_needy());
    assert!(!VisitState::NoTwice.is_needy());
    let paths = vec![(0, 1), (1, 0), (1, 2), (2, 1)];
    let big = VisitState::NoTwice.next_states(1, false, &paths, true);
    assert_eq!(big.len(), 1);
    assert_eq!(big[0].1, paths);
    let twice = VisitState::CanTwice.next_states(1, false, &paths, false);
    assert_eq!(twice.len(), 2);
    assert!(matches!(twice[0].0, VisitState::CanTwice));
    assert!(twice[0].1.is_empty());
    assert!(matches!(twice[1].0, VisitState::Needs(1)));
    assert_eq!(twice[1].1, paths);
    let back = VisitState::Needs(1).next_states(1, false, &paths, false);
    assert!(matches!(back[0].0, VisitState::NoTwice));
    let other = VisitState::Needs(2).next_states(1, false, &paths, false);
    assert!(matches!(other[0].0, VisitState::Needs(2)));
    let first = VisitState::CanTwice.next_states(0, true, &paths, false);
    assert_eq!(first.len(), 1);
    assert!(matches!(first[0].0, VisitState::CanTwice));
    assert_eq!(first[0].1, vec![(1, 2), (2, 1)]);
}

#[test]
fn small_sample_counts() {
    let (start, end, paths, big) = read_data(&lines(SMALL)).unwrap();
    assert_eq!(find_path_cnt(start, end, &paths, &big, VisitState::NoTwice, true), 10);
    assert_eq!(find_path_cnt(start, end, &paths, &big, VisitState::CanTwice, true), 36);
}

#[test]
fn medium_sample_counts() {
    let (start, end, paths, big) = read_data(&lines(MEDIUM)).unwrap();
    assert_eq!(find_path_cnt(start, end, &paths, &big, VisitState::NoTwice, true), 19);
    assert_eq!(find_path_cnt(start, end, &paths, &big, VisitState::CanTwice, true), 103);
}

#[test]
fn walk_that_is_already_there() {
    assert_eq!(find_path_cnt(4, 4, &vec![], &vec![], VisitState::NoTwice, true), 1);
    assert_eq!(find_path_cnt(4, 4, &vec![], &vec![], VisitState::Needs(1), false), 0);
}

fn keeps_the_rule(walk: &[usize], big: &[bool], twice: bool) -> bool {
    let times = |c: usize| walk.iter().filter(|&&x| x == c).count();
    let small: Vec<usize> = (0..big.len()).filter(|&c| !big[c]).collect();
    if small.iter().any(|&c| times(c) > 2) {
        return false;
    }
    let doubles = small.iter().filter(|&&c| times(c) == 2).count();
    if twice {
        doubles <= 1 && (big[walk[0]] || times(walk[0]) == 1)
    } else {
        doubles == 0
    }
}

fn extend(
    walk: &mut Vec<usize>,
    end: usize,
    paths: &[(usize, usize)],
    big: &[bool],
    twice: bool,
    found: &mut usize,
) {
    let here = *walk.last().unwrap();
    if here == end {
        if keeps_the_rule(walk, big, twice) {
            *found += 1;
        }
        return;
    }
    for t in 0..big.len() {
        if paths.contains(&(here, t)) {
            walk.push(t);
            if (0..big.len()).all(|c| big[c] || walk.iter().filter(|&&x| x == c).count() <= 2) {
                extend(walk, end, paths, big, twice, found);
            }
            walk.pop();
        }
    }
}

fn walks_one_by_one(
    start: usize,
    end: usize,
    paths: &[(usize, usize)],
    big: &[bool],
    twice: bool,
) -> usize {
    let mut found = 0;
    extend(&mut vec![start], end, paths, big, twice, &mut found);
    found
}

#[test]
fn count_agrees_with_listing_the_walks() {
    for text in [SMALL, MEDIUM] {
        let (start, end, paths, big) = read_data(&lines(text)).unwrap();
        assert_eq!(
            find_path_cnt(start, end, &paths, &big, VisitState::NoTwice, true),
            walks_one_by_one(start, end, &paths, &big, false)
        );
        assert_eq!(
            find_path_cnt(start, end, &paths, &big, VisitState::CanTwice, true),
            walks_one_by_one(start, end, &paths, &big, true)
        );
    }
}

#[test]
fn count_agrees_where_a_cave_leads_to_itself() {
    // 0 -> 1 -> 2 with a passage from 1 to itself, and a big cave 3 beside 1
    let paths = vec![(0, 1), (1, 1), (1, 2), (1, 3), (3, 1)];
    let big = vec![false, false, false, true];
    assert_eq!(find_path_cnt(0, 2, &paths, &big, VisitState::NoTwice, true), 1);
    assert_eq!(walks_one_by_one(0, 2, &paths, &big, false), 1);
    // 0 1 2; 0 1 1 2; 0 1 3 1 2
    assert_eq!(find_path_cnt(0, 2, &paths, &big, VisitState::CanTwice, true), 3);
    assert_eq!(walks_one_by_one(0, 2, &paths, &big, true), 3);
}

#[test]
fn count_agrees_where_the_walk_sets_out_from_a_big_cave() {
    // the big cave 0 between the small caves 1 and 2, and the end 3
    let paths = vec![(0, 1), (1, 0), (0, 2), (2, 0), (2, 3), (1, 3)];
    let big = vec![true, false, false, false];
    let once = find_path_cnt(0, 3, &paths, &big, VisitState::NoTwice, true);
    assert_eq!(once, walks_one_by_one(0, 3, &paths, &big, false));
    assert_eq!(once, 4);
    let twice = find_path_cnt(0, 3, &paths, &big, VisitState::CanTwice, true);
    assert_eq!(twice, walks_one_by_one(0, 3, &paths, &big, true));
}

#[test]
fn a_passage_listed_twice_counts_twice() {
    let paths = vec![(0, 1), (0, 1), (1, 2)];
    let big = vec![false, false, false];
    assert_eq!(find_path_cnt(0, 2, &paths, &big, VisitState::NoTwice, true), 2);
    assert_eq!(walks_one_by_one(0, 2, &paths, &big, false), 1);
}

#[test]
fn checked_count_agrees_with_the_count() {
    for text in [SMALL, MEDIUM] {
        let (start, end, paths, big) = read_data(&lines(text)).unwrap();
        for state in [VisitState::NoTwice, VisitState::CanTwice] {
            assert_eq!(
                try_find_path_cnt(start, end, &paths, &big, state, true),
                Some(find_path_cnt(start, end, &paths, &big, state, true))
            );
        }
    }
    let (start, end, paths, big) = read_data(&lines(SMALL)).unwrap();
    assert_eq!(try_find_path_cnt(start, end, &paths, &big, VisitState::NoTwice, true), Some(10));
    assert_eq!(try_find_path_cnt(start, end, &paths, &big, VisitState::CanTwice, true), Some(36));
    assert_eq!(try_find_path_cnt(end, end, &paths, &big, VisitState::Needs(2), false), Some(0));
}

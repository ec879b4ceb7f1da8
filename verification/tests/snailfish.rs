use advent::snailfish::{
    best_pair, parse_single, read_data, sum_all, tokenise, SnailNum, SnailToken,
};

fn chars(s: &str) -> Vec<char> {
    s.chars().collect()
}

fn num(s: &str) -> SnailNum {
    let tokens = tokenise(&chars(s)).unwrap();
    let mut pos = 0;
    parse_single(&tokens, &mut pos).unwrap()
}

fn show(n: &SnailNum) -> String {
    n.fmt().into_iter().collect()
}

const HOMEWORK: &str = "[[[0,[5,8]],[[1,7],[9,6]]],[[4,[1,2]],[[1,4],2]]]
[[[5,[2,8]],4],[5,[[9,9],0]]]
[6,[[[6,2],[5,6]],[[7,6],[4,7]]]]
[[[6,[0,7]],[0,9]],[4,[9,[9,0]]]]
[[[7,[6,4]],[3,[1,3]]],[[[5,5],1],9]]
[[6,[[7,3],[3,2]]],[[[3,8],[5,7]],4]]
[[[[5,4],[7,7]],8],[[8,3],8]]
[[9,3],[[9,9],[6,[4,9]]]]
[[2,[[7,7],7]],[[5,8],[[9,3],[0,2]]]]
[[[[5,2],5],[8,[3,7]]],[[5,[7,5]],[4,4]]]";

#[test]
fn tokens() {
    assert_eq!(
        tokenise(&chars("[1,[23,4]]\n")),
        Some(vec![
            SnailToken::Open,
            SnailToken::Num(1),
            SnailToken::Open,
            SnailToken::Num(23),
            SnailToken::Num(4),
        ])
    );
    assert_eq!(tokenise(&chars("")), Some(vec![]));
    assert_eq!(tokenise(&chars("[1,x]")), None);
    assert_eq!(tokenise(&chars("[99999999999,1]")), None);
}

#[test]
fn parse_single_moves_cursor() {
    let tokens = tokenise(&chars("[1,2][3,4]")).unwrap();
    let mut pos = 0;
    assert_eq!(show(&parse_single(&tokens, &mut pos).unwrap()), "[1,2]");
    assert_eq!(pos, 3);
    assert_eq!(show(&parse_single(&tokens, &mut pos).unwrap()), "[3,4]");
    assert_eq!(pos, 6);
    assert!(parse_single(&tokens, &mut pos).is_none());
    let short = tokenise(&chars("[1")).unwrap();
    let mut pos = 0;
    assert!(parse_single(&short, &mut pos).is_none());
}

#[test]
fn explode_examples() {
    for (from, to) in [
        ("[[[[[9,8],1],2],3],4]", "[[[[0,9],2],3],4]"),
        ("[7,[6,[5,[4,[3,2]]]]]", "[7,[6,[5,[7,0]]]]"),
        ("[[6,[5,[4,[3,2]]]],1]", "[[6,[5,[7,0]]],3]"),
        ("[[3,[2,[1,[7,3]]]],[6,[5,[4,[3,2]]]]]", "[[3,[2,[8,0]]],[9,[5,[4,[3,2]]]]]"),
        ("[[3,[2,[8,0]]],[9,[5,[4,[3,2]]]]]", "[[3,[2,[8,0]]],[9,[5,[7,0]]]]"),
    ] {
        let mut n = num(from);
        assert!(n.attempt_explode(None, None, 4));
        assert_eq!(show(&n), to);
    }
    let mut calm = num("[[1,2],[3,4]]");
    assert!(!calm.attempt_explode(None, None, 4));
    assert_eq!(show(&calm), "[[1,2],[3,4]]");
}

#[test]
fn explode_hands_to_outer_neighbours() {
    let mut n = num("[3,4]");
    let mut left = 10;
    let mut right = 20;
    assert!(n.attempt_explode(Some(&mut left), Some(&mut right), 0));
    assert_eq!(show(&n), "0");
    assert_eq!((left, right), (13, 24));
}

#[test]
fn split_examples() {
    let mut n = num("[10,11]");
    assert!(n.attempt_split());
    assert_eq!(show(&n), "[[5,5],11]");
    assert!(n.attempt_split());
    assert_eq!(show(&n), "[[5,5],[5,6]]");
    assert!(!n.attempt_split());
    let mut all = num("[10,21]");
    assert!(all.fully_split());
    assert_eq!(show(&all), "[[5,5],[[5,5],[5,6]]]");
    assert!(!all.fully_split());
}

#[test]
fn fully_explode_runs_until_calm() {
    let mut n = num("[[3,[2,[1,[7,3]]]],[6,[5,[4,[3,2]]]]]");
    assert!(n.fully_explode());
    assert_eq!(show(&n), "[[3,[2,[8,0]]],[9,[5,[7,0]]]]");
    assert!(!n.fully_explode());
}

#[test]
fn leftmost_and_rightmost() {
    let mut n = num("[[1,2],[3,[4,5]]]");
    *n.leftmost() += 10;
    *n.rightmost() += 20;
    assert_eq!(show(&n), "[[11,2],[3,[4,25]]]");
    assert_eq!(num("7").assume_lit(), 7);
}

#[test]
fn addition_example() {
    let sum = num("[[[[4,3],4],4],[7,[[8,4],9]]]").add(num("[1,1]"));
    assert_eq!(show(&sum), "[[[[0,7],4],[[7,8],[6,0]]],[8,1]]");
}

#[test]
fn magnitudes() {
    assert_eq!(num("[9,1]").mag(), 29);
    assert_eq!(num("[[1,2],[[3,4],5]]").mag(), 143);
    assert_eq!(num("[[[[8,7],[7,7]],[[8,6],[7,7]]],[[[0,7],[6,6]],[8,7]]]").mag(), 3488);
    assert_eq!(num("5").mag(), 5);
}

#[test]
fn small_sums() {
    let lines: Vec<Vec<char>> = ["[1,1]", "[2,2]", "[3,3]", "[4,4]", "[5,5]", "[6,6]"]
        .iter()
        .map(|s| chars(s))
        .collect();
    let data = read_data(&lines).unwrap();
    assert_eq!(show(&sum_all(&data)), "[[[[5,0],[7,4]],[5,5]],[6,6]]");
}

#[test]
fn homework() {
    let lines: Vec<Vec<char>> = HOMEWORK.lines().map(chars).collect();
    let data = read_data(&lines).unwrap();
    let sum = sum_all(&data);
    assert_eq!(show(&sum), "[[[[6,6],[7,6]],[[7,7],[7,0]]],[[[7,7],[7,7]],[[7,8],[9,9]]]]");
    assert_eq!(sum.mag(), 4140);
    assert_eq!(best_pair(&data), 3993);
}

#[test]
fn snailfish_rejects_malformed() {
    assert!(read_data(&vec![chars("[1,2]"), chars("[1,")]).is_none());
    assert!(read_data(&vec![chars("")]).is_none());
}

#[test]
fn written_as_read() {
    for text in ["0", "[1,2]", "[[1,2],3]", "[9,[8,7]]", "[[[[1,3],[5,3]],[[1,3],[8,7]]],[[[4,9],[6,9]],[[8,2],[7,3]]]]", "[120,[4294967295,10]]"] {
        assert_eq!(show(&num(text)), text);
    }
    let built = SnailNum::Pair(Box::new(SnailNum::Lit(7)), Box::new(SnailNum::Lit(1000)));
    assert_eq!(show(&built), "[7,1000]");
}

#[test]
fn best_pair_takes_both_orders() {
    // addition is not commutative: the better order counts
    let data = vec![num("[[2,[[7,7],7]],[[5,8],[[9,3],[0,2]]]]"), num("[[[0,[5,8]],[[1,7],[9,6]]],[[4,[1,2]],[[1,4],2]]]")];
    let ab = data[0].copy().add(data[1].copy()).mag();
    let ba = data[1].copy().add(data[0].copy()).mag();
    assert_eq!(ab, 3993);
    assert_eq!(best_pair(&data), ab.max(ba));
    assert_eq!(best_pair(&vec![num("[1,2]")]), 0);
    assert_eq!(best_pair(&vec![]), 0);
}

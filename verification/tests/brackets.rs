use advent::brackets::{read_data, score_line, solve, Action, LineScore, PType};

fn lines(text: &str) -> Vec<Vec<char>> {
    text.lines().map(|l| l.chars().collect()).collect()
}

const SAMPLE: &str = "[({(<(())[]>[[{[]{<()<>>
[(()[<>])]({[<{<<[]>>(
{([(<{}[<>[]}>{[]{[(<()>
(((({<>}<{<{<>}{[]{[]{}
[[<[([]))<([[{}[[()]]]
[{[{({}]{}}([{[{{{}}([]
{<[[]]>}<{[{[{[]{()[[[]
[<(<(<(<{}))><([]([]()
<{([([[(<>()){}]>(<<{{
<{([{{}}[<[[[<>{}]]]>[]]";

fn score(text: &str) -> Option<LineScore> {
    score_line(&read_data(&lines(text))[0])
}

#[test]
fn read_data_maps_brackets() {
    let data = read_data(&lines("(]x{>\n"));
    assert_eq!(
        data[0],
        vec![
            (PType::Paren, Action::Open),
            (PType::Square, Action::Close),
            (PType::Curly, Action::Open),
            (PType::Arrow, Action::Close),
        ]
    );
}

#[test]
fn corrupt_lines_score_by_bracket() {
    assert!(matches!(score("(]"), Some(LineScore::Corrupt(57))));
    assert!(matches!(score("{()()()>"), Some(LineScore::Corrupt(25137))));
    assert!(matches!(score("(((()))}"), Some(LineScore::Corrupt(1197))));
    assert!(matches!(score("<([]){()}[{}])"), Some(LineScore::Corrupt(3))));
    assert!(matches!(score(")"), Some(LineScore::Corrupt(3))));
}

#[test]
fn incomplete_lines_score_by_completion() {
    assert!(matches!(score("[({(<(())[]>[[{[]{<()<>>"), Some(LineScore::Completion(288957))));
    assert!(matches!(score("<{([{{}}[<[[[<>{}]]]>[]]"), Some(LineScore::Completion(294))));
    assert!(matches!(score("()"), Some(LineScore::Completion(0))));
    assert!(matches!(score("("), Some(LineScore::Completion(1))));
    assert!(matches!(score("<("), Some(LineScore::Completion(9))));
}

#[test]
fn deep_nesting_overflows() {
    let deep: String = std::iter::repeat('<').take(40).collect();
    assert!(score(&deep).is_none());
}

#[test]
fn bracket_sample_scores() {
    let data = read_data(&lines(SAMPLE));
    assert_eq!(solve(&data), Some((26397, 288957)));
}

#[test]
fn solve_without_open_lines() {
    let data = read_data(&lines("(]\n{>"));
    assert_eq!(solve(&data), None);
}

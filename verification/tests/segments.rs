use advent::segments::{decode, entry_from, get_true_digits, p1, p2, read_data, read_line, LetterSet};

fn lines(text: &str) -> Vec<Vec<char>> {
    text.lines().map(|l| l.chars().collect()).collect()
}

const SAMPLE: &str = "be cfbegad cbdgef fgaecd cgeb fdcge agebfd fecdb fabcd edb | fdgacbe cefdb cefbgd gcbe
edbfga begcd cbg gc gcadebf fbgde acbgfd abcde gfcbed gfec | fcgedb cgb dgebacf gc
fgaebd cg bdaec gdafb agbcfd gdcbef bgcad gfac gcb cdgabef | cg cg fdcagb cbg
fbegcd cbd adcefb dageb afcb bc aefdc ecdab fgdeca fcdbega | efabcd cedba gadfec cb
aecbfdg fbg gf bafeg dbefa fcge gcbea fcaegb dgceab fcbdga | gecf egdcabf bgf bfgea
fgeab ca afcebg bdacfeg cfaedg gcfdb baec bfadeg bafgc acf | gebdcfa ecba ca fadegcb
dbcfg fgd bdegcaf fgec aegbdf ecdfab fbedc dacgb gdcebf gf | cefg dcbef fcge gbcadfe
bdfegc cbegaf gecbf dfcage bdacg ed bedf ced adcbefg gebcd | ed bcgafe cdgba cbgef
egadfb cdbfeg cegd fecab cgb gbdefca cg fgcdab egfdb bfceg | gbdfcae bgc cg cgb
gcafb gcf dcaebfg ecagb gf abcdeg gaef cafbge fdbac fegbdc | fgae cfgab fg bagce";

const ONE: &str =
    "acedgfb cdfbe gcdfa fbcad dab cefabd cdfgeb eafb cagedb ab | cdfeb fcadb cdfeb cdbaf";

#[test]
fn letter_sets() {
    let a = LetterSet::new(0b0101);
    let b = LetterSet::new(0b0110);
    assert_eq!(a.bitor(b), LetterSet::new(0b0111));
    assert_eq!(a.bitand(b), LetterSet::new(0b0100));
    assert_eq!(a.bitxor(b), LetterSet::new(0b0011));
    assert_eq!(a.letter_cnt(), 2);
    assert_eq!(LetterSet::new(127).letter_cnt(), 7);
    assert_eq!(LetterSet::new(0).letter_cnt(), 0);
    let mut c = a;
    c.bitor_assign(b);
    assert_eq!(c, LetterSet::new(0b0111));
}

#[test]
fn read_line_maps_wires_to_bits() {
    let entry = read_line(&"ab gfa | c".chars().collect()).unwrap();
    assert_eq!(entry, vec![LetterSet::new(3), LetterSet::new(1 + 32 + 64), LetterSet::new(4)]);
    assert!(read_line(&"ab xyz".chars().collect()).is_none());
}

#[test]
fn entry_from_skips_the_bar() {
    let words = vec![Some(vec!['a']), Some(vec!['|']), None, Some(vec!['b', 'a'])];
    assert_eq!(entry_from(&words), Some(vec![LetterSet::new(1), LetterSet::new(3)]));
    assert_eq!(entry_from(&vec![Some(vec!['h'])]), None);
}

#[test]
fn single_entry_decodes() {
    let entry = read_line(&ONE.chars().collect()).unwrap();
    assert_eq!(entry.len(), 14);
    assert_eq!(decode(&entry), Some(5353));
    let digits = get_true_digits(&entry[0..10].to_vec());
    // with wires a..g as bits 1..64: "ab" is 1, "dab" is 7, "eafb" is 4, "acedgfb" is 8
    assert_eq!(digits[1], LetterSet::new(1 + 2));
    assert_eq!(digits[7], LetterSet::new(1 + 2 + 8));
    assert_eq!(digits[4], LetterSet::new(1 + 2 + 16 + 32));
    assert_eq!(digits[8], LetterSet::new(127));
}

#[test]
fn display_sample_counts() {
    let data = read_data(&lines(SAMPLE)).unwrap();
    assert_eq!(data.len(), 10);
    assert_eq!(p1(&data), Some(26));
    assert_eq!(p2(&data), Some(61229));
}

#[test]
fn short_entry_cannot_be_decoded() {
    let entry = read_line(&"ab abc".chars().collect()).unwrap();
    assert_eq!(decode(&entry), None);
    assert_eq!(p2(&vec![entry.clone()]), None);
    assert_eq!(p1(&vec![entry]), Some(0));
}

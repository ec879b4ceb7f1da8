use advent::alu::{
    collect_big, collect_small, p1, p2, parse_ab, parse_ins, parse_reg, parse_rval, read_data,
    split_reg_ins, Ins, RVal, RegIns, RegInsType,
};

fn chars(s: &str) -> Vec<char> {
    s.chars().collect()
}

fn program(text: &str) -> Vec<Ins> {
    let lines: Vec<Vec<char>> = text.lines().map(chars).collect();
    read_data(&lines).unwrap()
}

#[test]
fn registers_and_operands() {
    assert_eq!(parse_reg(&chars("w")), Some(0));
    assert_eq!(parse_reg(&chars("x")), Some(1));
    assert_eq!(parse_reg(&chars("y")), Some(2));
    assert_eq!(parse_reg(&chars("z")), Some(3));
    assert_eq!(parse_reg(&chars("a")), None);
    assert_eq!(parse_reg(&chars("ww")), None);
    assert_eq!(parse_reg(&chars("")), None);
    assert!(matches!(parse_rval(&chars("y")), Some(RVal::Reg(2))));
    assert!(matches!(parse_rval(&chars("-17")), Some(RVal::Val(-17))));
    assert!(matches!(parse_rval(&chars("26")), Some(RVal::Val(26))));
    assert!(parse_rval(&chars("q")).is_none());
    assert!(matches!(parse_ab(&chars("x -3")), Some((1, RVal::Val(-3)))));
    assert!(matches!(parse_ab(&chars("z w")), Some((3, RVal::Reg(0)))));
    assert!(parse_ab(&chars("3 w")).is_none());
    assert!(parse_ab(&chars("xw")).is_none());
}

#[test]
fn instructions() {
    assert!(matches!(parse_ins(&chars("inp w")), Some(Ins::Inp(0))));
    assert!(matches!(
        parse_ins(&chars("add x 5")),
        Some(Ins::Reg(RegIns { t: RegInsType::Add, a: 1, b: RVal::Val(5) }))
    ));
    assert!(matches!(
        parse_ins(&chars("mul y z")),
        Some(Ins::Reg(RegIns { t: RegInsType::Mul, a: 2, b: RVal::Reg(3) }))
    ));
    assert!(matches!(
        parse_ins(&chars("div z 26")),
        Some(Ins::Reg(RegIns { t: RegInsType::Div, a: 3, b: RVal::Val(26) }))
    ));
    assert!(matches!(
        parse_ins(&chars("mod x 26")),
        Some(Ins::Reg(RegIns { t: RegInsType::Mod, a: 1, b: RVal::Val(26) }))
    ));
    assert!(matches!(
        parse_ins(&chars("eql x w")),
        Some(Ins::Reg(RegIns { t: RegInsType::Eql, a: 1, b: RVal::Reg(0) }))
    ));
    assert!(parse_ins(&chars("sub x 1")).is_none());
    assert!(parse_ins(&chars("inp 5")).is_none());
    assert!(parse_ins(&chars("add")).is_none());
    assert!(parse_ins(&chars("add x")).is_none());
    assert!(read_data(&vec![chars("inp w"), chars("nop")]).is_none());
    assert_eq!(read_data(&vec![]).unwrap().len(), 0);
}

#[test]
fn operations() {
    let mut regs = [7i64, -7, 3, 0];
    RegInsType::Add.exec(&mut regs, 0, RVal::Val(5));
    assert_eq!(regs, [12, -7, 3, 0]);
    RegInsType::Mul.exec(&mut regs, 0, RVal::Reg(2));
    assert_eq!(regs, [36, -7, 3, 0]);
    RegInsType::Div.exec(&mut regs, 1, RVal::Val(2));
    assert_eq!(regs, [36, -3, 3, 0]);
    RegInsType::Mod.exec(&mut regs, 1, RVal::Val(5));
    assert_eq!(regs, [36, 2, 3, 0]);
    RegInsType::Eql.exec(&mut regs, 2, RVal::Val(3));
    assert_eq!(regs, [36, 2, 1, 0]);
    RegInsType::Eql.exec(&mut regs, 0, RVal::Reg(1));
    assert_eq!(regs, [0, 2, 1, 0]);
}

#[test]
fn operations_that_cannot_be_done() {
    let mut regs = [i64::MAX, 1, 0, i64::MIN];
    assert!(!RegInsType::Add.try_exec(&mut regs, 0, RVal::Val(1)));
    assert!(!RegInsType::Mul.try_exec(&mut regs, 0, RVal::Val(2)));
    assert!(!RegInsType::Div.try_exec(&mut regs, 1, RVal::Reg(2)));
    assert!(!RegInsType::Mod.try_exec(&mut regs, 1, RVal::Val(0)));
    assert!(!RegInsType::Div.try_exec(&mut regs, 3, RVal::Val(-1)));
    assert!(!RegInsType::Add.try_exec(&mut regs, 4, RVal::Val(1)));
    assert!(!RegInsType::Add.try_exec(&mut regs, 0, RVal::Reg(9)));
    assert_eq!(regs, [i64::MAX, 1, 0, i64::MIN]);
    assert!(RegInsType::Add.try_exec(&mut regs, 0, RVal::Val(-1)));
    assert_eq!(regs[0], i64::MAX - 1);
    let ins = RegIns { t: RegInsType::Mod, a: 1, b: RVal::Val(0) };
    assert!(!ins.try_exec(&mut regs));
    let ins = RegIns { t: RegInsType::Add, a: 1, b: RVal::Val(41) };
    assert!(ins.try_exec(&mut regs));
    assert_eq!(regs[1], 42);
    ins.exec(&mut regs);
    assert_eq!(regs[1], 83);
}

#[test]
fn kinds_of_instruction() {
    let inp = Ins::Inp(2);
    let reg = Ins::Reg(RegIns { t: RegInsType::Add, a: 1, b: RVal::Val(5) });
    assert!(!inp.is_reg());
    assert!(reg.is_reg());
    assert_eq!(inp.unwrap_inp(), 2);
    assert!(matches!(reg.unwrap_reg(), RegIns { t: RegInsType::Add, a: 1, b: RVal::Val(5) }));
}

#[test]
fn cutting_the_program() {
    let ls = program("inp w\nadd z w\nmul z 2\ninp x\nadd z x");
    assert_eq!(split_reg_ins(&ls, 0), 0);
    assert_eq!(split_reg_ins(&ls, 1), 3);
    assert_eq!(split_reg_ins(&ls, 2), 3);
    assert_eq!(split_reg_ins(&ls, 3), 3);
    assert_eq!(split_reg_ins(&ls, 4), 5);
    assert_eq!(split_reg_ins(&ls, 5), 5);
}

#[test]
fn collecting_states() {
    let items = vec![([0, 0, 0, 1], 5u64), ([0, 0, 0, 2], 6), ([0, 0, 0, 1], 7), ([0, 0, 0, 2], 4)];
    assert_eq!(collect_big(&items), vec![([0, 0, 0, 1], 7), ([0, 0, 0, 2], 6)]);
    assert_eq!(collect_small(&items), vec![([0, 0, 0, 1], 5), ([0, 0, 0, 2], 4)]);
    assert!(collect_big(&vec![]).is_empty());
}

#[test]
fn one_digit() {
    let ls = program("inp w\nadd z w\nadd z -5");
    assert_eq!(p1(&ls), Some(5));
    assert_eq!(p2(&ls), Some(5));
}

#[test]
fn two_equal_digits() {
    let ls = program("inp w\nadd z w\ninp w\nmul w -1\nadd z w");
    assert_eq!(p1(&ls), Some(99));
    assert_eq!(p2(&ls), Some(11));
}

#[test]
fn second_digit_three_more() {
    let ls = program("inp x\ninp y\nadd x 3\neql x y\neql x 0\nadd z x");
    assert_eq!(p1(&ls), Some(69));
    assert_eq!(p2(&ls), Some(14));
}

#[test]
fn no_digits_fit() {
    let ls = program("inp w\nadd z w\nadd z 1");
    assert_eq!(p1(&ls), None);
    assert_eq!(p2(&ls), None);
}

#[test]
fn no_input_at_all() {
    assert_eq!(p1(&program("add z 0")), Some(0));
    assert_eq!(p1(&program("add z 1")), None);
    assert_eq!(p2(&vec![]), Some(0));
}

#[test]
fn a_failing_instruction_gives_none() {
    let ls = program("inp w\ndiv w 0\nmul z 0");
    assert_eq!(p1(&ls), None);
    let ls = program("inp w\nadd z 5\nmod z 0\nmul z 0");
    assert_eq!(p2(&ls), None);
    let ls = program("inp w\nadd z 5\nmod z -1");
    assert_eq!(p1(&ls), Some(9));
}

/// Runs a program on digits, the slow way.
fn run(ls: &[Ins], digits: &[i64]) -> Option<[i64; 4]> {
    let mut regs = [0i64; 4];
    let mut next = 0;
    for ins in ls {
        match ins {
            Ins::Inp(r) => {
                regs[*r as usize] = digits[next];
                next += 1;
            },
            Ins::Reg(op) => {
                if !op.try_exec(&mut regs) {
                    return None;
                }
            },
        }
    }
    Some(regs)
}

#[test]
fn search_agrees_with_trying_every_number() {
    let ls = program(
        "inp w\nadd z w\nmod z 3\ninp x\nmul x 2\nadd z x\nadd z -8\ninp y\nmul y z\nadd y -4\nmul z 0\nadd z y\nmul z z\nadd z -16",
    );
    let mut accepted = Vec::new();
    for a in 1..=9 {
        for b in 1..=9 {
            for c in 1..=9 {
                if run(&ls, &[a, b, c]).unwrap()[3] == 0 {
                    accepted.push((a * 100 + b * 10 + c) as u64);
                }
            }
        }
    }
    assert!(!accepted.is_empty());
    assert_eq!(p1(&ls), accepted.iter().copied().max());
    assert_eq!(p2(&ls), accepted.iter().copied().min());
}

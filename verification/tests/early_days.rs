use aoc24::day::d1;
use aoc24::day::d2::{self, Report, SafetyReport};
use aoc24::day::d3::{find_instructions, read_instructions, Instruction, Machine};
use aoc24::day::d4::{Crossword, Point};
use aoc24::harness::part::Part;

#[test]
fn test_d1_read_and_solve() {
    let input = b"3   4\n4   3\n2   5\n1   3\n3   9\n3   3\n";
    let parsed = d1::Input::read(input).unwrap();
    assert_eq!(parsed.l, vec![3, 4, 2, 1, 3, 3]);
    assert_eq!(parsed.r, vec![4, 3, 5, 3, 9, 3]);
    assert!(parsed.l_contains(4));
    assert!(!parsed.l_contains(9));
    let again = d1::Input::read(input).unwrap();
    assert_eq!(d1::P1::solve(parsed), Ok(11));
    assert_eq!(d1::P2::solve(again), Ok(13));
}

#[test]
fn test_d1_read_rejects_short_line() {
    assert!(d1::Input::read(b"3 4\n7\n").is_err());
    assert!(d1::Input::read(b"3 four\n").is_err());
}

#[test]
fn test_is_safe() {
    let inputs = [
        (Report(vec![7, 6, 4, 2, 1]), SafetyReport::Safe, true),
        (Report(vec![1, 2, 7, 8, 9]), SafetyReport::Unsafe(1), false),
        (Report(vec![9, 7, 6, 2, 1]), SafetyReport::Unsafe(2), false),
        (Report(vec![1, 3, 2, 4, 5]), SafetyReport::Unsafe(1), true),
        (Report(vec![8, 6, 4, 4, 1]), SafetyReport::Unsafe(2), true),
        (Report(vec![1, 3, 6, 7, 9]), SafetyReport::Safe, true),
    ];

    for (report, expected_safety, expected_safe_with_tolerance) in inputs {
        assert_eq!(expected_safety, report.safety());
        assert_eq!(expected_safe_with_tolerance, report.safe_with_tolerance());
    }
}

#[test]
fn test_d2_counts() {
    let input = b"7 6 4 2 1\n1 2 7 8 9\n9 7 6 2 1\n1 3 2 4 5\n8 6 4 4 1\n1 3 6 7 9\n";
    let reports = d2::read_reports(input).unwrap();
    assert_eq!(reports.len(), 6);
    assert_eq!(d2::P1::solve(&reports), Ok(2));
    assert_eq!(d2::P2::solve(&reports), Ok(4));
    assert!(d2::read_reports(b"1 2 x\n").is_err());
}

#[test]
fn test_find_instructions_pt1() {
    let haystack = r"xmul(2,4)%&mul[3,7]!@^do_not_mul(5,5)+mul(32,64]then(mul(11,8)mul(8,5))";

    assert_eq!(
        vec![
            Instruction::Mul(2, 4),
            Instruction::Mul(5, 5),
            Instruction::Mul(11, 8),
            Instruction::Mul(8, 5),
        ],
        find_instructions(haystack.as_bytes())
    );
}

#[test]
fn test_find_instructions_pt2() {
    let haystack = r"xmul(2,4)&mul[3,7]!^don't()_mul(5,5)+mul(32,64](mul(11,8)undo()?mul(8,5))";

    assert_eq!(
        vec![
            Instruction::Mul(2, 4),
            Instruction::Dont,
            Instruction::Mul(5, 5),
            Instruction::Mul(11, 8),
            Instruction::Do,
            Instruction::Mul(8, 5),
        ],
        find_instructions(haystack.as_bytes())
    );
}

#[test]
fn test_machine_pt1() {
    let instructions = vec![
        Instruction::Mul(2, 4),
        Instruction::Dont,
        Instruction::Mul(5, 5),
        Instruction::Mul(11, 8),
        Instruction::Do,
        Instruction::Mul(8, 5),
    ];
    let expected_result = 161;

    let machine = Machine::new(Part::One);
    assert_eq!(
        expected_result,
        machine.execute_all(&instructions).count
    )
}

#[test]
fn test_machine_pt2() {
    let instructions = vec![
        Instruction::Mul(2, 4),
        Instruction::Dont,
        Instruction::Mul(5, 5),
        Instruction::Mul(11, 8),
        Instruction::Do,
        Instruction::Mul(8, 5),
    ];
    let expected_result = 48;

    let machine = Machine::new(Part::Two);
    assert_eq!(
        expected_result,
        machine.execute_all(&instructions).count
    )
}

#[test]
fn test_d3_read_and_solve() {
    let input = b"xmul(2,4)&mul[3,7]!^don't()_mul(5,5)+mul(32,64](mul(11,8)undo()?mul(8,5))";
    let instructions = read_instructions(input);
    assert_eq!(instructions.len(), 6);
    assert_eq!(aoc24::day::d3::P1::solve(&instructions), Ok(161));
    assert_eq!(aoc24::day::d3::P2::solve(&instructions), Ok(48));
}

#[test]
fn test_has_word() {
    let crossword = Crossword(vec![
        vec!['.', '.', 'X', '.', '.', '.'],
        vec!['.', 'S', 'A', 'M', 'X', '.'],
        vec!['.', 'A', '.', '.', 'A', '.'],
        vec!['X', 'M', 'A', 'S', '.', 'S'],
        vec!['.', 'X', '.', '.', '.', '.'],
    ]);

    assert!(!crossword.has_word("xmas", 0, Point::new(0, 0), Point::new(1, 0)));
    assert!(!crossword.has_word("xmas", 0, Point::new(5, 0), Point::new(1, 0)));

    assert!(crossword.has_word("XMAS", 0, Point::new(2, 0), Point::new(1, 1)));
    assert!(crossword.has_word("XMAS", 0, Point::new(4, 1), Point::new(-1, 0)));
    assert!(crossword.has_word("XMAS", 0, Point::new(0, 3), Point::new(1, 0)));
    assert!(crossword.has_word("XMAS", 0, Point::new(1, 4), Point::new(0, -1)));
}

#[test]
fn test_word_count() {
    let crossword = Crossword(vec![
        vec!['.', '.', '.', 'S', '.', '.', '.'],
        vec!['.', '.', '.', 'A', '.', '.', '.'],
        vec!['.', '.', '.', 'M', '.', '.', '.'],
        vec!['.', '.', '.', 'X', '.', '.', '.'],
        vec!['.', '.', '.', 'M', '.', '.', '.'],
        vec!['.', '.', '.', 'A', '.', '.', '.'],
        vec!['.', '.', '.', 'S', '.', '.', '.'],
    ]);

    assert_eq!(2, crossword.words_from_point("XMAS", Point::new(3, 3)));
}

#[test]
fn test_d4_solve() {
    let input = b"MMMSXXMASM\nMSAMXMSMSA\nAMXSXMAAMM\nMSAMASMSMX\nXMASAMXAMM\nXXAMMXXAMA\nSMSMSASXSS\nSAXAMASAAA\nMAMMMXMMMM\nMXMXAXMASX\n";
    let cw = Crossword::read(input).unwrap();
    assert_eq!(aoc24::day::d4::P1::solve(cw).unwrap(), 18);
    let cw2 = Crossword::read(input).unwrap();
    assert_eq!(aoc24::day::d4::P2::solve(cw2).unwrap(), 9);
}

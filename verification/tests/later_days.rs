use aoc24::day::d11;
use aoc24::day::d13::{self, Machine};
use aoc24::day::d14::{Bathroom, Robot};
use aoc24::day::d7::{read_equations, Equation};
use aoc24::day::d9::{compute_checksum, fragment_disk, read_disk};

#[test]
fn test_d7_concat() {
    assert_eq!(aoc24::day::d7::concat(15, 6), 156);
    assert_eq!(aoc24::day::d7::concat(0, 7), 7);
    assert_eq!(aoc24::day::d7::concat(123, 456), 123456);
}

#[test]
fn test_d7_can_solve() {
    let eq = Equation { target: 190, terms: vec![10, 19] };
    assert!(eq.can_solve(false));
    let eq = Equation { target: 83, terms: vec![17, 5] };
    assert!(!eq.can_solve(false));
    let eq = Equation { target: 156, terms: vec![15, 6] };
    assert!(!eq.can_solve(false));
    assert!(eq.can_solve(true));
}

#[test]
fn test_d7_solve() {
    let input = b"190: 10 19\n3267: 81 40 27\n83: 17 5\n156: 15 6\n7290: 6 8 6 15\n161011: 16 10 13\n192: 17 8 14\n21037: 9 7 18 13\n292: 11 6 16 20\n";
    let eqs = read_equations(input).unwrap();
    assert_eq!(aoc24::day::d7::P1::solve(&eqs), Ok(3749));
    assert_eq!(aoc24::day::d7::P2::solve(&eqs), Ok(11387));
    assert!(read_equations(b"12 34\n").is_err());
}

#[test]
fn test_d9_example() {
    let disk = read_disk(b"2333133121414131402\n").unwrap();
    assert_eq!(aoc24::day::d9::P1::solve(disk), Ok(1928));
    assert!(read_disk(b"12x4").is_err());
}

#[test]
fn test_d9_fragment_and_checksum() {
    // "12345": one block of file 0, two gaps, three of file 1, four
    // gaps, five of file 2
    let mut disk = read_disk(b"12345").unwrap();
    assert_eq!(disk.len(), 15);
    fragment_disk(&mut disk);
    let compacted: Vec<Option<usize>> = disk.clone();
    for (i, b) in compacted.iter().enumerate() {
        if i < 9 {
            assert!(b.is_some());
        } else {
            assert!(b.is_none());
        }
    }
    assert_eq!(compute_checksum(&disk), 60);
}

#[test]
fn test_d11_split_digits() {
    assert_eq!(d11::split_digits(2024), Some((20, 24)));
    assert_eq!(d11::split_digits(99), Some((9, 9)));
    assert_eq!(d11::split_digits(1), None);
    assert_eq!(d11::split_digits(0), None);
    assert_eq!(d11::split_digits(1000), Some((10, 0)));
}

#[test]
fn test_d11_counts() {
    let stones = d11::read_stones(b"125 17\n").unwrap();
    assert_eq!(stones, vec![125, 17]);
    let mut cache = std::collections::HashMap::new();
    assert_eq!(d11::dfs_count(125, 6, &mut cache) + d11::dfs_count(17, 6, &mut cache), 22);
    assert_eq!(aoc24::day::d11::P1::solve(&stones), Ok(55312));
    assert_eq!(d11::try_total(&stones, 25), Some(55312));
    // a chain that multiplies out of u64 is reported, not computed
    assert_eq!(d11::try_total(&vec![10000000000000003], 1), None);
}

#[test]
fn test_d13_parse_and_min_tokens() {
    let block = b"Button A: X+94, Y+34\nButton B: X+22, Y+67\nPrize: X=8400, Y=5400";
    let m = Machine::parse(block).unwrap();
    assert_eq!(m.move_a, (94, 34));
    assert_eq!(m.move_b, (22, 67));
    assert_eq!(m.prize_position, (8400, 5400));
    assert_eq!(d13::min_tokens(&m), 280);

    let unwinnable = Machine { move_a: (26, 66), move_b: (67, 21), prize_position: (12748, 12176) };
    assert_eq!(d13::min_tokens(&unwinnable), 0);
}

#[test]
fn test_d13_parse_retries_past_partial_matches() {
    // a bare literal with no numbers after it is not a match; the
    // search moves on to the next place the whole pattern fits
    let block = b"Button A: X+oops\nButton A: X+94, Y+34\nButton B: X+22, Y+67\nPrize: X=8400, Y=5400";
    let m = Machine::parse(block).unwrap();
    assert_eq!(m.move_a, (94, 34));
    assert!(Machine::parse(b"Button A: X+oops\nButton B: X+22, Y+67\nPrize: X=8400, Y=5400").is_err());
}

#[test]
fn test_d14_parse_retries_past_partial_matches() {
    let r = Robot::parse(b"p=x p=0,4 v=3,-3").unwrap();
    assert_eq!(r.pos, (0, 4));
    assert_eq!(r.velocity, (3, -3));
}

#[test]
fn test_d13_solve() {
    let input = b"Button A: X+94, Y+34\nButton B: X+22, Y+67\nPrize: X=8400, Y=5400\n\nButton A: X+26, Y+66\nButton B: X+67, Y+21\nPrize: X=12748, Y=12176\n\nButton A: X+17, Y+86\nButton B: X+84, Y+37\nPrize: X=7870, Y=6450\n\nButton A: X+69, Y+23\nButton B: X+27, Y+71\nPrize: X=18641, Y=10279\n";
    let machines = d13::read_machines(input).unwrap();
    assert_eq!(machines.len(), 4);
    assert_eq!(aoc24::day::d13::P1::solve(&machines), Ok(480));
    assert!(d13::read_machines(b"Button A: nope\n").is_err());
}

#[test]
fn test_d14_robot_parse() {
    let r = Robot::parse(b"p=0,4 v=3,-3").unwrap();
    assert_eq!(r.pos, (0, 4));
    assert_eq!(r.velocity, (3, -3));
    assert!(Robot::parse(b"p=1,2").is_err());
}

#[test]
fn test_d14_safety_factor() {
    let input = b"p=0,4 v=3,-3\np=6,3 v=-1,-3\np=10,3 v=-1,2\np=2,0 v=2,-1\np=0,0 v=1,3\np=3,0 v=-2,-2\np=7,6 v=-1,-3\np=3,0 v=-1,-2\np=9,3 v=2,3\np=7,3 v=-1,2\np=2,4 v=2,-3\np=9,5 v=-3,-3\n";
    let parsed = Bathroom::read(input).unwrap();
    assert_eq!(parsed.robots.len(), 12);
    // the example room is smaller than the real one
    let mut room = Bathroom { width: 11, height: 7, robots: parsed.robots };
    room.tick_seconds(100);
    assert_eq!(room.safety_factor(), 12);
}

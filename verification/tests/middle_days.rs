use aoc24::day::d10::TrailMap;
use aoc24::day::d12::GardenMap;
use aoc24::day::d5::{self, is_in_order, midpoint, reorder, PageMap, PageSet};
use aoc24::day::d6::{Direction, GuardMap, Point};
use aoc24::day::d8::AntennaMap;

const D5_EXAMPLE: &[u8] = b"47|53\n97|13\n97|61\n97|47\n75|29\n61|13\n75|53\n29|13\n97|29\n53|29\n61|53\n97|53\n61|29\n47|13\n75|47\n97|75\n47|61\n75|61\n47|29\n75|13\n53|13\n\n75,47,61,53,29\n97,61,53,29,13\n75,29,13\n75,97,47,61,53\n61,13,29\n97,13,75,29,47\n";

#[test]
fn test_d5_parse_and_order() {
    let input = d5::Input::read(D5_EXAMPLE).unwrap();
    assert_eq!(input.rules.len(), 21);
    assert_eq!(input.updates.len(), 6);
    assert_eq!(input.rules[0], (47, 53));
    assert_eq!(input.updates[0], vec![75, 47, 61, 53, 29]);
    assert!(is_in_order(&input.updates[0], &input.rules));
    assert!(!is_in_order(&input.updates[3], &input.rules));
    assert_eq!(midpoint(&input.updates[0]), 61);
    let fixed = reorder(&input.updates[3], &input.rules);
    assert_eq!(fixed, vec![97, 75, 47, 61, 53]);
}

#[test]
fn test_d5_solve() {
    let input = d5::Input::read(D5_EXAMPLE).unwrap();
    assert_eq!(d5::P1::solve(&input), Ok(143));
    assert_eq!(d5::P2::solve(&input), Ok(123));
    assert!(d5::Input::read(b"5000000000|2\n").is_err());
}

#[test]
fn test_d5_page_collections() {
    let mut m: PageMap<u32> = PageMap::new();
    assert_eq!(m.len(), 0);
    m.add(&7, 70);
    m.add(&9, 90);
    assert!(m.has(&7));
    assert!(!m.has(&8));
    assert_eq!(m.get(&9), Some(&90));
    assert_eq!(m.len(), 2);
    m.del(&7);
    assert!(!m.has(&7));
    assert_eq!(m.iter(), vec![9]);

    // the map difference compares values: equal entries drop out,
    // differing or missing ones keep this map's value
    let mut m1: PageMap<u32> = PageMap::new();
    m1.add(&2, 9);
    m1.add(&5, 1);
    m1.add(&7, 3);
    let mut m2: PageMap<u32> = PageMap::new();
    m2.add(&5, 2);
    m2.add(&7, 3);
    let diff = m1.difference(&m2);
    assert_eq!(diff.get(&2), Some(&9));
    assert_eq!(diff.get(&5), Some(&1));
    assert_eq!(diff.get(&7), None);
    assert_eq!(diff.iter(), vec![2, 5]);

    let mut a = PageSet::new();
    a.add(3);
    a.add(5);
    a.add(8);
    let mut b = PageSet::new();
    b.add(5);
    b.add(9);
    assert_eq!(a.len(), 3);
    assert_eq!(a.intersect_count(&b), 1);
    let d = a.difference(&b);
    assert!(d.has(&3) && d.has(&8) && !d.has(&5));
    assert_eq!(d.iter(), vec![3, 8]);
    a.del(&3);
    assert!(!a.has(&3));
    assert_eq!(b.iter(), vec![5, 9]);
}

const D6_EXAMPLE: &[u8] = b"....#.....\n.........#\n..........\n..#.......\n.......#..\n..........\n.#..^.....\n........#.\n#.........\n......#...\n";

#[test]
fn test_d6_map() {
    let map = GuardMap::read(D6_EXAMPLE).unwrap();
    assert_eq!(map.guard_origin.0, Point { x: 4, y: 6 });
    assert_eq!(map.guard_origin.1, Direction::North);
    assert_eq!(Direction::North.turn(), Direction::East);
    assert_eq!(Direction::West.facing(), Point { x: -1, y: 0 });
    assert!(GuardMap::read(b"....\n....\n").is_err());

    let mut map2 = GuardMap::read(D6_EXAMPLE).unwrap();
    let first = map2.move_guard().unwrap();
    assert_eq!(first, map.guard_origin);
    assert_eq!(map2.cur_guard.unwrap().0, Point { x: 4, y: 5 });
    let spot = Point { x: 3, y: 6 };
    assert!(map2.can_place_obstacle(&spot));
    map2.place_obstacle(&spot);
    assert!(!map2.can_place_obstacle(&Point { x: 2, y: 2 }));
    map2.reset();
    assert_eq!(map2.cur_guard, Some(map.guard_origin));
    assert!(map2.obstacle.is_none());
}

#[test]
fn test_d6_solve() {
    let map = GuardMap::read(D6_EXAMPLE).unwrap();
    assert_eq!(aoc24::day::d6::P1::solve(map), Ok(41));
    let map2 = GuardMap::read(D6_EXAMPLE).unwrap();
    assert_eq!(aoc24::day::d6::P2::solve(map2), Ok(6));
}

const D8_EXAMPLE: &[u8] = b"............\n........0...\n.....0......\n.......0....\n....0.......\n......A.....\n............\n............\n........A...\n.........A..\n............\n............\n";

#[test]
fn test_d8_read() {
    let map = AntennaMap::read(D8_EXAMPLE).unwrap();
    assert_eq!(map.rows, 12);
    assert_eq!(map.cols, 12);
    assert_eq!(map.antennae_by_freq.len(), 2);
    assert_eq!(map.antennae_by_freq[0].0, '0');
    assert_eq!(map.antennae_by_freq[0].1.len(), 4);
    assert_eq!(map.antennae_by_freq[1].0, 'A');
    assert_eq!(map.antennae_by_freq[1].1, vec![(6, 5), (8, 8), (9, 9)]);
}

#[test]
fn test_d8_solve() {
    let map = AntennaMap::read(D8_EXAMPLE).unwrap();
    assert_eq!(aoc24::day::d8::P1::solve(map), Ok(14));
    let map2 = AntennaMap::read(D8_EXAMPLE).unwrap();
    assert_eq!(aoc24::day::d8::P2::solve(map2), Ok(34));
}

const D10_EXAMPLE: &[u8] = b"89010123\n78121874\n87430965\n96549874\n45678903\n32019012\n01329801\n10456732\n";

#[test]
fn test_d10_scores() {
    let map = TrailMap::read(D10_EXAMPLE).unwrap();
    assert_eq!(map.rows(), 8);
    assert_eq!(map.cols(), 8);
    assert_eq!(map.trailheads.len(), 9);
    assert_eq!(map.compute_score(&map.trailheads[0]), 5);
    assert_eq!(aoc24::day::d10::P1::solve(&map), Ok(36));
    assert!(TrailMap::read(b"01x\n").is_err());
}

const D12_EXAMPLE: &[u8] = b"AAAA\nBBCD\nBBCC\nEEEC\n";

#[test]
fn test_d12_regions() {
    let map = GardenMap::read(D12_EXAMPLE);
    assert_eq!(map.rows(), 4);
    assert_eq!(map.cols(), 4);
    let region = aoc24::day::d12::find_region(&map, 0, 0);
    assert_eq!(region.area(), 4);
    assert_eq!(region.perimeter(), 10);
    assert_eq!(region.sides(), 4);
    assert_eq!(region.fence_price(), 40);
    assert_eq!(region.bulk_price(), 16);
}

#[test]
fn test_d12_solve() {
    let map = GardenMap::read(D12_EXAMPLE);
    assert_eq!(aoc24::day::d12::P1::solve(&map), Ok(140));
    assert_eq!(aoc24::day::d12::P2::solve(&map), Ok(80));
}

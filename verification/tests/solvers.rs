use puzzles::day01;
use puzzles::day09;
use puzzles::day02::{self, Command};
use puzzles::day04::{self, Board};
use puzzles::day05::{self, Point};
use puzzles::day06;
use puzzles::day07;
use puzzles::day09::Floor;
use puzzles::day10;
use puzzles::day12::{self, from_edges};
use puzzles::day13::{self, Fold};
use puzzles::day14;
use puzzles::day15::{self, Grid};
use puzzles::day16::{self, BitStream};
use puzzles::day17;
use puzzles::day21::{self, Universe};
use puzzles::day22::{Cuboid, Range};

#[test]
fn depth_increases() {
    let input = vec![199, 200, 208, 210, 200, 207, 240, 269, 260, 263];
    assert_eq!(day01::part_1(&input), 7);
    assert_eq!(day01::part_2(&input), 5);
}

#[test]
fn steering() {
    let input = vec![
        Command::Forward(5),
        Command::Down(5),
        Command::Forward(8),
        Command::Up(3),
        Command::Down(8),
        Command::Forward(2),
    ];
    assert_eq!(day02::part_1(&input), 150);
    assert_eq!(day02::part_2(&input), 900);
}

#[test]
fn bingo_first_winner() {
    let board = Board { entries: (0..25).collect(), marked: vec![false; 25] };
    let numbers = vec![20, 0, 1, 2, 3, 4];
    let r = day04::part_1(&numbers, vec![board]);
    // row 0 completes at draw 4; unmarked sum is 300 - 10 - 20 = 270
    assert_eq!(r, Some(4 * 270));
}


#[test]
fn vent_overlaps() {
    let segs: Vec<(Point, Point)> = vec![
        (Point(0, 9), Point(5, 9)),
        (Point(8, 0), Point(0, 8)),
        (Point(9, 4), Point(3, 4)),
        (Point(2, 2), Point(2, 1)),
        (Point(7, 0), Point(7, 4)),
        (Point(6, 4), Point(2, 0)),
        (Point(0, 9), Point(2, 9)),
        (Point(3, 4), Point(1, 4)),
        (Point(0, 0), Point(8, 8)),
        (Point(5, 5), Point(8, 2)),
    ];
    assert_eq!(day05::part_1(&segs), 5);
    assert_eq!(day05::part_2(&segs), 12);
}

#[test]
fn fish_population() {
    // timers 3,4,3,1,2 as counts per timer value
    let counts = vec![0, 1, 1, 2, 1, 0, 0, 0, 0];
    assert_eq!(day06::part_1(counts.clone()), 5934);
    assert_eq!(day06::part_2(counts), 26984457539);
}

#[test]
fn crab_fuel() {
    let crabs = vec![16, 1, 2, 0, 4, 2, 7, 1, 2, 14];
    assert_eq!(day07::part_1(&crabs), Some(37));
    assert_eq!(day07::part_2(&crabs), Some(168));
}

#[test]
fn low_points() {
    let rows = [
        [2u8, 1, 9, 9, 9, 4, 3, 2, 1, 0],
        [3, 9, 8, 7, 8, 9, 4, 9, 2, 1],
        [9, 8, 5, 6, 7, 8, 9, 8, 9, 2],
        [8, 7, 6, 7, 8, 9, 6, 7, 8, 9],
        [9, 8, 9, 9, 9, 6, 5, 6, 7, 8],
    ];
    let mut heightmap = Vec::new();
    for r in rows.iter() {
        heightmap.extend_from_slice(r);
    }
    let floor = Floor { heightmap, width: 10 };
    assert_eq!(day09::part_1(&floor), 15);
    let (higher, minimum) = floor.higher_adjacent_positions(1);
    assert!(minimum);
    assert_eq!(higher, vec![0, 11, 2]);
    assert_eq!(floor.risk_at(1), 2);
}

#[test]
fn bracket_scores() {
    let lines: Vec<Vec<u8>> = [
        "[({(<(())[]>[[{[]{<()<>>",
        "[(()[<>])]({[<{<<[]>>(",
        "{([(<{}[<>[]}>{[]{[(<()>",
        "(((({<>}<{<{<>}{[]{[]{}",
        "[[<[([]))<([[{}[[()]]]",
        "[{[{({}]{}}([{[{{{}}([]",
        "{<[[]]>}<{[{[{[]{()[[[]",
        "[<(<(<(<{}))><([]([]()",
        "<{([([[(<>()){}]>(<<{{",
        "<{([{{}}[<[[[<>{}]]]>[]]",
    ]
    .iter()
    .map(|s| s.bytes().collect())
    .collect();
    assert_eq!(day10::part_1(&lines), 26397);
    assert_eq!(day10::part_2(&lines), Some(288957));
}

#[test]
fn cave_routes_small_example() {
    // start-A, start-b, A-c, A-b, b-d, A-end, b-end
    // nodes: 0 start, 1 end, 2 A (large), 3 b, 4 c, 5 d
    let edges = vec![(0usize, 2usize), (0, 3), (2, 4), (2, 3), (3, 5), (2, 1), (3, 1)];
    let small = vec![true, true, false, true, true, true];
    let g = from_edges(6, small, 0, 1, &edges).unwrap();
    assert_eq!(day12::part_1(&g), Some(10));
    assert_eq!(day12::part_2(&g), Some(36));
    // the relaxed mode never counts fewer routes than the strict mode
    assert!(day12::part_2(&g).unwrap() >= day12::part_1(&g).unwrap());
}

#[test]
fn cave_routes_no_path() {
    let edges = vec![(0usize, 2usize)];
    let small = vec![true, true, true];
    let g = from_edges(3, small, 0, 1, &edges).unwrap();
    assert_eq!(day12::part_1(&g), Some(0));
    assert_eq!(day12::part_2(&g), Some(0));
}

#[test]
fn paper_fold() {
    let dots: Vec<(i64, i64)> = vec![
        (6, 10),
        (0, 14),
        (9, 10),
        (0, 3),
        (10, 4),
        (4, 11),
        (6, 0),
        (6, 12),
        (4, 1),
        (0, 13),
        (10, 12),
        (3, 4),
        (3, 0),
        (8, 4),
        (1, 10),
        (2, 14),
        (8, 10),
        (9, 0),
    ];
    let folds = vec![Fold::Y(7), Fold::X(5)];
    assert_eq!(day13::part_1(dots, &folds), 17);
}

#[test]
fn polymer_growth() {
    let template = b"NNCB";
    let rule_list: [(&[u8; 2], u8); 16] = [
        (b"CH", b'B'),
        (b"HH", b'N'),
        (b"CB", b'H'),
        (b"NH", b'C'),
        (b"HB", b'C'),
        (b"HC", b'B'),
        (b"HN", b'C'),
        (b"NN", b'C'),
        (b"BH", b'H'),
        (b"NC", b'B'),
        (b"NB", b'B'),
        (b"BN", b'B'),
        (b"BB", b'N'),
        (b"BC", b'B'),
        (b"CC", b'N'),
        (b"CN", b'C'),
    ];
    let mut pairs = vec![0u64; 676];
    let mut letters = vec![0u64; 26];
    let mut rules = vec![0u8; 676];
    for w in template.windows(2) {
        let a = (w[0] - b'A') as usize;
        let b = (w[1] - b'A') as usize;
        pairs[a * 26 + b] += 1;
    }
    for &c in template.iter() {
        letters[(c - b'A') as usize] += 1;
    }
    for (pair, out) in rule_list.iter() {
        let a = (pair[0] - b'A') as usize;
        let b = (pair[1] - b'A') as usize;
        rules[a * 26 + b] = out - b'A';
    }
    assert_eq!(day14::part_1(pairs.clone(), letters.clone(), &rules), Some(1588));
    assert_eq!(day14::part_2(pairs, letters, &rules), Some(2188189693529));
}

#[test]
fn shortest_path_unit_grid() {
    // a five-by-five grid of weight 1: the cost is the eight steps taken,
    // the starting cell's own weight never being charged
    let rows = vec![vec![1u8; 5]; 5];
    let grid = Grid::new(rows).unwrap();
    assert_eq!(day15::a_star(&grid, (0, 0), (4, 4)), Some(8));
    assert_eq!(day15::part_1(&grid), Some(8));
}

#[test]
fn shortest_path_example() {
    let text = [
        "1163751742",
        "1381373672",
        "2136511328",
        "3694931569",
        "7463417111",
        "1319128137",
        "1359912421",
        "3125421639",
        "1293138521",
        "2311944581",
    ];
    let rows: Vec<Vec<u8>> = text.iter().map(|s| s.bytes().map(|b| b - b'0').collect()).collect();
    let grid = Grid::new(rows).unwrap();
    assert_eq!(day15::part_1(&grid), Some(40));
    assert_eq!(day15::part_2(&grid), Some(315));
}

#[test]
fn tiled_weights() {
    let grid = Grid::new(vec![vec![8u8]]).unwrap();
    let tiled = day15::tile5(&grid);
    // weight 8 shifted by tile offsets wraps back into 1..=9
    assert_eq!(tiled.rows[0][0], 8);
    assert_eq!(tiled.rows[0][1], 9);
    assert_eq!(tiled.rows[0][2], 1);
    assert_eq!(tiled.rows[1][1], 1);
    assert_eq!(tiled.rows[4][4], 7);
    for ty in 0..5 {
        for tx in 0..5 {
            let w = tiled.rows[ty][tx];
            assert!(1 <= w && w <= 9);
        }
    }
}

#[test]
fn no_path_signal() {
    // a single-cell grid has no walk to a different cell, but querying the
    // same cell twice costs nothing
    let grid = Grid::new(vec![vec![5u8]]).unwrap();
    assert_eq!(day15::a_star(&grid, (0, 0), (0, 0)), Some(0));
}

fn hex_to_stream(hex: &str) -> BitStream {
    let mut bits = Vec::new();
    for c in hex.chars() {
        let v = c.to_digit(16).unwrap();
        for k in (0..4).rev() {
            bits.push((v >> k) & 1 == 1);
        }
    }
    BitStream { bits, pos: 0 }
}

#[test]
fn packet_literal() {
    let mut stream = hex_to_stream("D2FE28");
    let p = day16::Packet::parse(&mut stream).unwrap();
    assert_eq!(p.version, 6);
    assert_eq!(p.ptype, 4);
    assert_eq!(p.value(), Some(2021));
}

#[test]
fn packet_versions() {
    assert_eq!(day16::part_1(hex_to_stream("8A004A801A8002F478")), Some(16));
    assert_eq!(day16::part_1(hex_to_stream("620080001611562C8802118E34")), Some(12));
    assert_eq!(day16::part_1(hex_to_stream("C0015000016115A2E0802F182340")), Some(23));
    assert_eq!(day16::part_1(hex_to_stream("A0016C880162017C3686B18A3D4780")), Some(31));
}

#[test]
fn packet_values() {
    assert_eq!(day16::part_2(hex_to_stream("C200B40A82")), Some(3));
    assert_eq!(day16::part_2(hex_to_stream("04005AC33890")), Some(54));
    assert_eq!(day16::part_2(hex_to_stream("880086C3E88112")), Some(7));
    assert_eq!(day16::part_2(hex_to_stream("CE00C43D881120")), Some(9));
    assert_eq!(day16::part_2(hex_to_stream("D8005AC2A8F0")), Some(1));
    assert_eq!(day16::part_2(hex_to_stream("F600BC2D8F")), Some(0));
    assert_eq!(day16::part_2(hex_to_stream("9C005AC2F8F0")), Some(0));
    assert_eq!(day16::part_2(hex_to_stream("9C0141080250320F1802104A08")), Some(1));
}

#[test]
fn probe_launch() {
    let target = (20, 30, -10, -5);
    assert_eq!(day17::part_1(target), 45);
    assert_eq!(day17::part_2(target), 112);
}

#[test]
fn deterministic_dice_game() {
    assert_eq!(day21::part_1((4, 8)), 739785);
}

#[test]
fn branching_dice_game() {
    // the published tally for starting positions four and eight
    let (a, b) = day21::count_wins((4, 8)).unwrap();
    assert_eq!(a.max(b), 444356092776315);
    assert_eq!(day21::part_2((4, 8)), Some(444356092776315));
    assert_eq!(a, 444356092776315);
    assert_eq!(b, 341960390180808);
}

#[test]
fn memo_is_write_once() {
    let mut memo = day21::ScoreMemo::new();
    let u = Universe { positions: (10, 10), scores: (20, 20) };
    // at score twenty every landing wins outright, so all 27 branches go to
    // the mover
    let w = (27u64, 0u64);
    memo.insert(u, w);
    assert_eq!(memo.get(&u), Some(w));
    memo.insert(u, w);
    assert_eq!(memo.get(&u), Some(w));
}

#[test]
fn reactor_ranges() {
    let a = Range(0, 2);
    let b = Range(1, 1);
    assert_eq!(a.length(), 3);
    assert!(a.contains(1));
    assert!(!a.contains(3));
    assert!(a.intersects(&b));
    let pieces = a.split(&b);
    assert_eq!(pieces.len(), 3);
    assert_eq!(pieces[0].0, 0);
    assert_eq!(pieces[2].1, 2);
}

#[test]
fn reactor_subtract() {
    let big = Cuboid { x: Range(0, 2), y: Range(0, 2), z: Range(0, 2) };
    let small = Cuboid { x: Range(1, 1), y: Range(1, 1), z: Range(1, 1) };
    assert_eq!(big.volume(), 27);
    assert!(big.intersects(&small));
    assert!(big.contains(1, 1, 1));
    let pieces = big.subtract(&small);
    let total: i64 = pieces.iter().map(|c| c.volume()).sum();
    assert_eq!(total, 26);
    // the carved pieces never cover the removed cell
    for c in pieces.iter() {
        assert!(!c.contains(1, 1, 1));
    }
    // disjoint boxes leave the original untouched
    let far = Cuboid { x: Range(10, 11), y: Range(0, 2), z: Range(0, 2) };
    let pieces2 = big.subtract(&far);
    assert_eq!(pieces2.len(), 1);
    assert_eq!(pieces2[0].volume(), 27);
}

#[test]
fn reboot_steps() {
    // the small example: three overlapping on-steps and one off-step
    let steps = vec![
        (true, Cuboid { x: Range(10, 12), y: Range(10, 12), z: Range(10, 12) }),
        (true, Cuboid { x: Range(11, 13), y: Range(11, 13), z: Range(11, 13) }),
        (false, Cuboid { x: Range(9, 11), y: Range(9, 11), z: Range(9, 11) }),
        (true, Cuboid { x: Range(10, 10), y: Range(10, 10), z: Range(10, 10) }),
    ];
    assert_eq!(puzzles::day22::part_2(&steps), Some(39));
}

#[test]
fn dice_roll_cycles() {
    let mut die = day21::DeterministicDie { value: 0, rolls: 0 };
    assert_eq!(die.roll(), 1);
    assert_eq!(die.roll(), 2);
    assert_eq!(die.rolls, 2);
    let mut late = day21::DeterministicDie { value: 99, rolls: 99 };
    assert_eq!(late.roll(), 100);
    assert_eq!(late.roll(), 1);
}

use advent_solvers::adapters;
use advent_solvers::allergens::Ingredient;
use advent_solvers::boarding::{update_range, Seat};
use advent_solvers::combat::Player;
use advent_solvers::customs;
use advent_solvers::docking::{Op as MaskOp, Operation};
use advent_solvers::encoding;
use advent_solvers::expenses;
use advent_solvers::handheld::{Instruction, Op};
use advent_solvers::handshake::encrypt;
use advent_solvers::hexfloor;
use advent_solvers::messages;
use advent_solvers::navigation::{Action, Direction, Ship, Waypoint};
use advent_solvers::passwords::PwdEntry;
use advent_solvers::shuttle::Prediction;
use advent_solvers::tickets;
use advent_solvers::toboggan::{Position as TPosition, TreeGrid};

#[test]
fn test_update_range() {
    assert_eq!(update_range((0, 127), true), (0, 63));
    assert_eq!(update_range((0, 63), false), (32, 63));
    assert_eq!(update_range((32, 63), true), (32, 47));
    assert_eq!(update_range((32, 47), false), (40, 47));
    assert_eq!(update_range((40, 47), false), (44, 47));
    assert_eq!(update_range((44, 47), true), (44, 45));
    assert_eq!(update_range((44, 45), true), (44, 44));
}

#[test]
fn test_boarding_pass() {
    let cases = [("FBFBBFFRLR", 44, 5, 357), ("BFFFBBFRRR", 70, 7, 567), (
        "FFFBBBFRRR",
        14,
        7,
        119,
    ), ("BBFFBBFRLL", 102, 4, 820)];
    for (input, row, seat, id) in cases {
        let s = Seat::from_string(input);
        assert_eq!(s.row, row);
        assert_eq!(s.seat, seat);
        assert_eq!(s.id(), id);
    }
}

#[test]
fn test_password_policies() {
    let e = PwdEntry::from_string("1-3 a: abcde").unwrap();
    assert!(e.q1_is_valid());
    assert!(e.q2_is_valid());
    let e = PwdEntry::from_string("1-3 b: cdefg").unwrap();
    assert!(!e.q1_is_valid());
    assert!(!e.q2_is_valid());
    let e = PwdEntry::from_string("2-9 c: ccccccccc").unwrap();
    assert!(e.q1_is_valid());
    assert!(!e.q2_is_valid());
    assert!(PwdEntry::from_string("no dashes here").is_none());
}

fn tree_map() -> TreeGrid {
    let rows = [
        "..##.......",
        "#...#...#..",
        ".#....#..#.",
        "..#.#...#.#",
        ".#...##..#.",
        "..#.##.....",
        ".#.#.#....#",
        ".#........#",
        "#.##...#...",
        "#...##....#",
        ".#..#...#.#",
    ];
    TreeGrid { trees: rows.iter().map(|r| TreeGrid::from_string(r)).collect() }
}

#[test]
fn test_tree_line() {
    assert_eq!(
        TreeGrid::from_string("..##......."),
        vec![
            false, false, true, true, false, false, false, false, false, false, false
        ],
    );
}

#[test]
fn test_count_trees() {
    let map = tree_map();
    assert_eq!(map.count_trees_on_slope(&TPosition::new(3, 1)), 7);
}

#[test]
fn test_mult_trees() {
    let map = tree_map();
    let slopes = vec![
        TPosition::new(1, 1),
        TPosition::new(3, 1),
        TPosition::new(5, 1),
        TPosition::new(7, 1),
        TPosition::new(1, 2),
    ];
    assert_eq!(map.mult_trees_on_slopes(&slopes), 336);
}

#[test]
fn test_customs_sums() {
    // groups: abc / a b c / ab ac / a a a a / b
    let mut groups: Vec<customs::Group> = Vec::new();
    let people: [(&[&str]);5] = [
        (&["abc"]),
        (&["a", "b", "c"]),
        (&["ab", "ac"]),
        (&["a", "a", "a", "a"]),
        (&["b"]),
    ];
    for answers in people {
        let mut g = customs::Group { size: 0, answers: Vec::new() };
        for person in answers {
            g.size += 1;
            for c in person.chars() {
                g.insert(&c);
            }
        }
        groups.push(g);
    }
    assert_eq!(customs::groups_sums_anyone(&groups), 11);
    assert_eq!(customs::groups_sums_everyone(&groups), 6);
    groups[0].clear();
    assert_eq!(groups[0].sum_anyone(), 0);
}

#[test]
fn test_first_invalid() {
    let values: Vec<u64> = vec![
        35, 20, 15, 25, 47, 40, 62, 55, 65, 95, 102, 117, 150, 182, 127, 219, 299, 277, 309, 576,
    ];
    assert_eq!(encoding::first_invalid(&values, 5), Some(127));
}

#[test]
fn test_weakness_window() {
    let values: Vec<u64> = vec![
        35, 20, 15, 25, 47, 40, 62, 55, 65, 95, 102, 117, 150, 182, 127, 219, 299, 277, 309, 576,
    ];
    let mut found = None;
    for size in 2..values.len() {
        if let Some(w) = encoding::has_weakness(&values, 127, size) {
            found = Some(w);
            break;
        }
    }
    let w = found.unwrap();
    assert_eq!(w.iter().copied().min().unwrap(), 15);
    assert_eq!(w.iter().copied().max().unwrap(), 47);
    assert_eq!(w.iter().copied().sum::<u64>(), 127);
}

#[test]
fn test_encrypt() {
    assert_eq!(encrypt(7, 8, 20201227), 5764801);
    assert_eq!(encrypt(7, 11, 20201227), 17807724);
    assert_eq!(encrypt(17807724, 8, 20201227), 14897079);
    assert_eq!(encrypt(5764801, 11, 20201227), 14897079);
}

#[test]
fn test_handle_expenses_pair() {
    let expenses: Vec<u32> = vec![1721, 979, 366, 299, 675, 1456];
    let w = expenses::handle_expenses(&expenses, 2020, 2).unwrap();
    let mut sorted = w.clone();
    sorted.sort();
    assert_eq!(sorted, vec![299, 1721]);
    assert_eq!(expenses::mult(&w), 514579);
}

#[test]
fn test_handle_expenses_triple() {
    let expenses: Vec<u32> = vec![1721, 979, 366, 299, 675, 1456];
    let w = expenses::handle_expenses(&expenses, 2020, 3).unwrap();
    let mut sorted = w.clone();
    sorted.sort();
    assert_eq!(sorted, vec![366, 675, 979]);
    assert_eq!(expenses::mult(&w), 241861950);
}

#[test]
fn test_handle_expenses_none() {
    let expenses: Vec<u32> = vec![1, 2, 3, 4];
    assert!(expenses::handle_expenses(&expenses, 1000, 2).is_none());
}

#[test]
fn test_adapters() {
    let contents: Vec<usize> = vec![1, 4, 5, 6, 7, 10, 11, 12, 15, 16, 19, 22];
    assert_eq!(adapters::device_jolt(&contents), 22);
    let next = adapters::find_potential_next(&contents, 4);
    assert_eq!(next, vec![5, 6, 7]);
    assert!(adapters::is_valid(&contents, 0, 22));
    assert!(!adapters::is_valid(&contents, 0, 26));
    let combi = adapters::Combi { combination: vec![1, 4], left: vec![5, 6, 7, 10] };
    assert_eq!(combi.find_potential_next(), vec![5, 6, 7]);
}

#[test]
fn test_shuttle_waits() {
    let p = Prediction {
        when: 939,
        timetable: vec![
            Some(7),
            Some(13),
            None,
            None,
            Some(59),
            None,
            Some(31),
            Some(19),
        ],
    };
    let waits = p.build_wait();
    // the earliest catchable departure is bus 59 at time 944
    let (bus, depart) = waits.iter().copied().min_by_key(|&(_, d)| d).unwrap();
    assert_eq!((bus, depart), (59, 944));
    assert_eq!(p.build_sync_table(), vec![7, 13, 1, 1, 59, 1, 31, 19]);
}

#[test]
fn test_combat_score() {
    let p = Player { name: vec!['P'], cards: vec![3, 2, 10, 6, 8, 5, 9, 4, 7, 1] };
    assert_eq!(p.score(), 306);
}

#[test]
fn test_combat_draw_and_clone() {
    let mut p = Player::new();
    p.cards = vec![9, 2, 6];
    let sub = p.recurse_clone(2);
    assert_eq!(sub.cards, vec![9, 2]);
    assert_eq!(p.draw(), 9);
    assert_eq!(p.cards, vec![2, 6]);
}

#[test]
fn test_ship_follows_orders() {
    let orders = ["F10", "N3", "F7", "R90", "F11"];
    let mut ship = Ship::new();
    for o in orders {
        let a = Action::from_string(o).unwrap();
        ship.apply(&a);
    }
    assert_eq!(ship.east, 17);
    assert_eq!(ship.north, -8);
    assert_eq!(ship.travelled(), 25);
}

#[test]
fn test_direction_turns() {
    let e = Direction::E;
    let l90 = Action { action: Direction::L, value: 90 };
    let r90 = Action { action: Direction::R, value: 90 };
    let l180 = Action { action: Direction::L, value: 180 };
    assert_eq!(e.apply(&l90), Direction::N);
    assert_eq!(Direction::N.apply(&l90), Direction::W);
    assert_eq!(e.apply(&r90), Direction::S);
    assert_eq!(e.apply(&l180), Direction::W);
    assert_eq!(e.apply(&Action { action: Direction::F, value: 90 }), Direction::E);
}

#[test]
fn test_waypoint_moves() {
    let orders = ["F10", "N3", "F7", "R90", "F11"];
    let mut ship = Ship::new();
    let mut wp = Waypoint::new();
    for o in orders {
        let a = Action::from_string(o).unwrap();
        if let Direction::F = a.action {
            ship.north += wp.north * a.value;
            ship.east += wp.east * a.value;
        } else {
            wp.apply(&a);
        }
    }
    assert_eq!(ship.east, 214);
    assert_eq!(ship.north, -72);
}

#[test]
fn test_hex_walks() {
    let walk = hexfloor::Direction::vector_from_string("esenee");
    assert_eq!(
        walk,
        vec![
            hexfloor::Direction::E,
            hexfloor::Direction::SE,
            hexfloor::Direction::NE,
            hexfloor::Direction::E,
        ],
    );
    let origin = hexfloor::Position::new(0, 0);
    let end = origin.follow(&walk);
    assert_eq!((end.x, end.y), (3, 0));
    // a step and its opposite return home
    let back = hexfloor::Direction::vector_from_string("nwsw");
    let end = origin.follow(&back);
    assert_eq!((end.x, end.y), (-1, 0));
    assert_eq!(origin.neighbours().len(), 6);
    assert_eq!(hexfloor::Direction::from_string("se"), Some(hexfloor::Direction::SE));
    assert_eq!(hexfloor::Direction::from_string("x"), None);
}

#[test]
fn test_handheld_instructions() {
    assert_eq!(Op::from_string("nop"), Op::Nop);
    assert_eq!(Op::from_string("jmp"), Op::Jmp);
    assert_eq!(Op::from_string("acc"), Op::Acc);
    assert_eq!(Op::from_string("wat"), Op::Nop);
    let i = Instruction::from_string("acc +7").unwrap();
    assert_eq!(i.op, Op::Acc);
    assert_eq!(i.value, 7);
    assert_eq!(i.execute(), (7, 1));
    let j = Instruction::from_string("jmp -3").unwrap();
    assert_eq!(j.op, Op::Jmp);
    assert_eq!(j.value, -3);
    assert_eq!(j.execute(), (0, -3));
    assert!(Instruction::from_string("acc").is_none());
    let prog = Instruction::to_program(&vec![i, j]);
    assert_eq!(prog.len(), 2);
    assert_eq!(prog[0], (i, None));
}

fn message_rules() -> Vec<messages::Rule> {
    let lines = [
        "0: 4 1 5",
        "1: 2 3 | 3 2",
        "2: 4 4 | 5 5",
        "3: 4 5 | 5 4",
        "4: \"a\"",
        "5: \"b\"",
    ];
    lines.iter().map(|l| messages::Rule::from_string(l).unwrap()).collect()
}

#[test]
fn test_rule_parse() {
    let r = messages::Rule::from_string("1: 2 3 | 3 2").unwrap();
    assert_eq!(r.name, 1);
    assert_eq!(r.ref_a, vec![2, 3]);
    assert_eq!(r.ref_b, vec![3, 2]);
    let v = messages::Rule::from_string("4: \"a\"").unwrap();
    assert_eq!(v.name, 4);
    assert_eq!(v.value, vec!['a']);
    assert!(messages::Rule::from_string("nonsense").is_none());
}

#[test]
fn test_rule_to_regex() {
    let rules = message_rules();
    let r0: String = rules[0].to_regex(&rules, 7).unwrap().into_iter().collect();
    assert_eq!(r0, "(a((aa|bb)(ab|ba)|(ab|ba)(aa|bb))b)");
    let r4: String = rules[4].to_regex(&rules, 7).unwrap().into_iter().collect();
    assert_eq!(r4, "a");
}

#[test]
fn test_count_matches() {
    let entries: Vec<Vec<char>> = ["ababbb", "bababa", "abbbab", "aaabbb", "aaaabbb"]
        .iter()
        .map(|e| e.chars().collect())
        .collect();
    let input = messages::Input { rules: message_rules(), entries };
    assert_eq!(input.count_matches(0), Some(2));
}

#[test]
fn test_regex_really_matches() {
    // a pattern that matches only one of the two messages: a constant
    // answer from the matcher would get the count wrong
    let rules = vec![
        messages::Rule::from_string("0: 1 1").unwrap(),
        messages::Rule::from_string("1: \"a\"").unwrap(),
    ];
    let entries: Vec<Vec<char>> = vec![vec!['a', 'a'], vec!['a', 'b']];
    let input = messages::Input { rules, entries };
    assert_eq!(input.count_matches(0), Some(1));
}

#[test]
fn test_cyclic_rules_rejected() {
    let rules = vec![messages::Rule::from_string("0: 0").unwrap()];
    let input = messages::Input { rules, entries: vec![vec!['a']] };
    assert_eq!(input.count_matches(0), None);
}

#[test]
fn test_ticket_rules() {
    let rules = vec![
        tickets::Rule { field: "class".chars().collect(), ranges: vec![(1, 3), (5, 7)] },
        tickets::Rule { field: "row".chars().collect(), ranges: vec![(6, 11), (33, 44)] },
        tickets::Rule { field: "seat".chars().collect(), ranges: vec![(13, 40), (45, 50)] },
    ];
    assert!(rules[0].is_valid(2));
    assert!(!rules[0].is_valid(4));
    let input = tickets::Input {
        rules,
        my_ticket: vec![7, 1, 14],
        nearby_tickets: vec![
            vec![7, 3, 47],
            vec![40, 4, 50],
            vec![55, 2, 20],
            vec![38, 6, 12],
        ],
    };
    assert_eq!(input.ticket_err_rate(&vec![40, 4, 50]), 4);
    assert_eq!(input.compute_err_rate(), 71);
}

#[test]
fn test_docking_masks() {
    let empty = Operation::empty_mask();
    assert!(empty.ignore_mask());
    assert_eq!(empty.apply_on_value(42), 42);
    // mask = XXXXXXXXXXXXXXXXXXXXXXXXXXXXX1XXXX0X keeps the X bits and
    // forces bit six on and bit one off
    let mask = Operation { op: MaskOp::NewMask, a: 0x1f_ffff_ffbd, b: 64 };
    assert!(!mask.ignore_mask());
    assert_eq!(mask.apply_on_value(11), 73);
    assert_eq!(mask.apply_on_value(101), 101);
    assert_eq!(mask.apply_on_value(0), 64);
}

#[test]
fn test_safe_ingredients() {
    let mut a = Ingredient::new(&"mxmxvkd".chars().collect());
    a.count = 3;
    a.potential_allergen.push("dairy".chars().collect());
    let mut b = Ingredient::new(&"kfcds".chars().collect());
    b.count = 1;
    let list = vec![a, b];
    let safe = Ingredient::search_safe_food(&list);
    assert_eq!(safe, vec![1]);
}

#[test]
fn test_floor_flips() {
    let walks: Vec<Vec<hexfloor::Direction>> = ["esew", "nwwswee"]
        .iter()
        .map(|w| hexfloor::Direction::vector_from_string(w))
        .collect();
    let floor = hexfloor::Floor::create_map(&walks);
    // esew ends one step south-east; nwwswee walks a loop back to the start
    assert_eq!(floor.count(true), 2);
    assert_eq!(floor.count(false), 0);
    // flipping the same tile twice turns it white again, but keeps the entry
    let twice: Vec<Vec<hexfloor::Direction>> =
        vec![hexfloor::Direction::vector_from_string("e"), hexfloor::Direction::vector_from_string("e")];
    let floor = hexfloor::Floor::create_map(&twice);
    assert_eq!(floor.count(true), 0);
    assert_eq!(floor.count(false), 1);
}

#[test]
fn test_black_neighbours() {
    let walks: Vec<Vec<hexfloor::Direction>> =
        vec![hexfloor::Direction::vector_from_string("e"), hexfloor::Direction::vector_from_string("w")];
    let floor = hexfloor::Floor::create_map(&walks);
    assert_eq!(floor.black_neighbours(&hexfloor::Position::new(0, 0)), 2);
    assert_eq!(floor.black_neighbours(&hexfloor::Position::new(5, 5)), 0);
}

#[test]
fn test_earliest_bus() {
    let p = Prediction {
        when: 939,
        timetable: vec![
            Some(7),
            Some(13),
            None,
            None,
            Some(59),
            None,
            Some(31),
            Some(19),
        ],
    };
    assert_eq!(p.earliest_bus(), (59, 5));
}

#[test]
fn test_passport_fields() {
    let field = |k: &str, v: &str| -> (Vec<char>, Vec<char>) {
        (k.chars().collect(), v.chars().collect())
    };
    let complete = vec![
        field("ecl", "gry"),
        field("pid", "860033327"),
        field("eyr", "2020"),
        field("hcl", "#fffffd"),
        field("byr", "1937"),
        field("iyr", "2017"),
        field("cid", "147"),
        field("hgt", "183cm"),
    ];
    assert!(advent_solvers::passports::valid_passport_data(&complete));
    let missing_hgt = vec![
        field("iyr", "2013"),
        field("ecl", "amb"),
        field("cid", "350"),
        field("eyr", "2023"),
        field("pid", "028048884"),
        field("hcl", "#cfa07d"),
        field("byr", "1929"),
    ];
    assert!(!advent_solvers::passports::valid_passport_data(&missing_hgt));
}

#[test]
fn test_floor_days_pass() {
    let walks: Vec<Vec<hexfloor::Direction>> = [
        "sesenwnenenewseeswwswswwnenewsewsw",
        "neeenesenwnwwswnenewnwwsewnenwseswesw",
        "seswneswswsenwwnwse",
        "nwnwneseeswswnenewneswwnewseswneseene",
        "swweswneswnenwsewnwneneseenw",
        "eesenwseswswnenwswnwnwsewwnwsene",
        "sewnenenenesenwsewnenwwwse",
        "wenwwweseeeweswwwnwwe",
        "wsweesenenewnwwnwsenewsenwwsesesenwne",
        "neeswseenwwswnwswswnw",
        "nenwswwsewswnenenewsenwsenwnesesenew",
        "enewnwewneswsewnwswenweswnenwsenwsw",
        "sweneswneswneneenwnewenewwneswswnese",
        "swwesenesewenwneswnwwneseswwne",
        "enesenwswwswneneswsenwnewswseenwsese",
        "wnwnesenesenenwwnenwsewesewsesesew",
        "nenewswnwewswnenesenwnesewesw",
        "eneswnwswnwsenenwnwnwwseeswneewsenese",
        "neswnwewnwnwseenwseesewsenwsweewe",
        "wseweeenwnesenwwwswnew",
    ]
        .iter()
        .map(|w| hexfloor::Direction::vector_from_string(w))
        .collect();
    let floor = hexfloor::Floor::create_map(&walks);
    assert_eq!(floor.count(true), 10);
    assert_eq!(floor.next().count(true), 15);
    assert_eq!(floor.run_for(10).count(true), 37);
}

use puzlib::{
    read_grid, read_grid_numbers, read_grid_records, read_grid_to_map, read_line,
    read_line_record, read_line_sep, read_lines, read_number_lists, read_number_records,
    read_numbers, read_string_records,
};

const SAMPLES: [&str; 14] = [
    "",
    "\n",
    "one",
    "one\n",
    "one\ntwo",
    "one\r\ntwo\r\n",
    "one\n\ntwo\n\n\nthree",
    "\n\none\n\n",
    "one\r",
    "one\r\n\r\ntwo",
    "  padded \n lines\t\n\n",
    "\u{a0}wide\u{3000}\n",
    "a\n\n\n\nb",
    "\r\n\r\n",
];

#[test]
fn read_lines_agrees_with_std() {
    for text in SAMPLES {
        let expected: Vec<String> = text
            .lines()
            .filter(|s| !s.is_empty())
            .map(|s| s.to_string())
            .collect();
        assert_eq!(expected, read_lines(text), "on {:?}", text);
    }
}

#[test]
fn read_lines_of_a_small_text() {
    assert_eq!(
        vec!["1234".to_string(), "4567".to_string(), "12".to_string()],
        read_lines("1234\n4567\n\n12\n")
    );
}

#[test]
fn read_string_records_agrees_with_std() {
    for text in SAMPLES {
        let expected: Vec<String> = text
            .split("\n\n")
            .filter(|s| !s.is_empty())
            .map(|s| s.to_string())
            .collect();
        assert_eq!(expected, read_string_records(text), "on {:?}", text);
    }
    assert_eq!(
        vec!["a\nb".to_string(), "\nc".to_string()],
        read_string_records("a\nb\n\n\nc")
    );
}

#[test]
fn read_line_leaves_out_line_feeds() {
    for text in SAMPLES {
        let expected: Vec<char> = text.chars().filter(|&chr| chr != '\n').collect();
        assert_eq!(expected, read_line(text), "on {:?}", text);
    }
    assert_eq!(vec!['a', 'b', '\r', 'c'], read_line("a\nb\r\nc\n"));
}

#[test]
fn read_line_sep_agrees_with_std() {
    for text in SAMPLES {
        for sep in [",", "\n", "ne", "\n\n", " ", ""] {
            let expected: Vec<String> = text.trim().split(sep).map(|s| s.into()).collect();
            assert_eq!(expected, read_line_sep(text, sep), "on {:?} by {:?}", text, sep);
        }
    }
    assert_eq!(
        vec!["a".to_string(), "".to_string(), "b".to_string()],
        read_line_sep(" a, , b \n", ", ")
    );
    assert_eq!(
        vec!["".to_string(), "a".to_string()],
        read_line_sep("aaa", "aa")
    );
}

#[test]
fn read_grid_agrees_with_std() {
    for text in SAMPLES {
        let expected: Vec<Vec<char>> = text.trim().lines().map(|l| l.chars().collect()).collect();
        assert_eq!(expected, read_grid(text), "on {:?}", text);
    }
    assert_eq!(
        vec![vec!['#', '.'], vec!['.', '#']],
        read_grid("\n#.\n.#\n\n")
    );
}

#[test]
fn read_grid_numbers_gives_digits() {
    assert_eq!(
        vec![vec![1, 2, 3], vec![], vec![9, 0]],
        read_grid_numbers("123\n\n90\n")
    );
    // a character after the digits counts on from nine
    assert_eq!(vec![vec![10, 49]], read_grid_numbers(":a"));
    assert_eq!(Vec::<Vec<u8>>::new(), read_grid_numbers(""));
}

#[test]
fn read_grid_to_map_gives_every_cell_its_place() {
    assert_eq!(
        vec![
            ((0, 0), 'a'),
            ((0, 1), 'b'),
            ((2, 0), 'c'),
            ((3, 0), 'd'),
            ((3, 1), 'e'),
            ((3, 2), 'f'),
        ],
        read_grid_to_map("ab\n\nc\r\ndef")
    );
    for text in SAMPLES {
        let expected: Vec<((usize, usize), char)> = text
            .lines()
            .enumerate()
            .flat_map(|(row, line)| {
                line.chars()
                    .enumerate()
                    .map(|(col, ch)| ((row, col), ch))
                    .collect::<Vec<_>>()
            })
            .collect();
        assert_eq!(expected, read_grid_to_map(text), "on {:?}", text);
    }
}

#[test]
fn read_grid_records_splits_on_empty_lines() {
    let input = "..##.
.#...

..#..
....#";
    let expected = vec![
        vec![
            vec!['.', '.', '#', '#', '.'],
            vec!['.', '#', '.', '.', '.'],
        ],
        vec![
            vec!['.', '.', '#', '.', '.'],
            vec!['.', '.', '.', '.', '#'],
        ],
    ];
    let actual = read_grid_records(input);
    assert_eq!(expected, actual);
    for text in SAMPLES {
        let expected: Vec<Vec<Vec<char>>> = text
            .split("\n\n")
            .map(|l| l.lines().map(|r| r.chars().collect()).collect())
            .collect();
        assert_eq!(expected, read_grid_records(text), "on {:?}", text);
    }
}

fn number(text: &str) -> i64 {
    text.parse::<i64>().expect("Unable to parse number")
}

#[test]
fn read_numbers_parses_every_line() {
    assert_eq!(vec![12, -7, 0, 4], read_numbers("12\n-7\n\n0\r\n+4\n", number));
    assert_eq!(Vec::<i64>::new(), read_numbers("\n\n", number));
    let sizes: Vec<usize> = read_numbers("a\nbcd\n", |s: &str| s.len());
    assert_eq!(vec![1, 3], sizes);
}

#[test]
fn read_number_records_groups_by_empty_lines() {
    assert_eq!(
        vec![vec![1234, 4567], vec![3423, 2543]],
        read_number_records("1234\n4567\n\n3423\n2543", number)
    );
    assert_eq!(
        vec![vec![1], vec![2, 3]],
        read_number_records("\n\n1\n\n\n2\n3\n\n", number)
    );
}

#[test]
fn read_number_lists_splits_every_line() {
    assert_eq!(
        vec![vec![1, 2, 3], vec![40], vec![-5, 6]],
        read_number_lists("1 2 3\n40\n\n-5 6\n", " ", number)
    );
    assert_eq!(
        vec![vec![7, 8], vec![9, 10]],
        read_number_lists("7, 8\n9, 10", ", ", number)
    );
}

#[test]
fn read_line_record_splits_on_commas() {
    assert_eq!(vec![3, 4, -5], read_line_record(" 3,4,-5\n", number));
    assert_eq!(vec![42], read_line_record("42", number));
}

#[test]
fn white_space_is_what_std_trims() {
    let listed = |code: u32| {
        (0x9..=0xd).contains(&code)
            || [0x20, 0x85, 0xa0, 0x1680, 0x2028, 0x2029, 0x202f, 0x205f, 0x3000].contains(&code)
            || (0x2000..=0x200a).contains(&code)
    };
    for code in 0..=0x10ffff_u32 {
        if let Some(c) = char::from_u32(code) {
            assert_eq!(listed(code), c.is_whitespace(), "code point {:x}", code);
            if listed(code) || code % 997 == 0 {
                let text = format!("{c}a{c}");
                let pieces = read_line_sep(&text, ",");
                let expected = if listed(code) { "a".to_string() } else { text.clone() };
                assert_eq!(vec![expected], pieces, "code point {:x}", code);
            }
        }
    }
}

#[test]
fn an_empty_separator_parts_every_character() {
    assert_eq!(
        vec!["", "r", "u", "s", "t", ""],
        read_line_sep(" rust\n", "")
    );
    assert_eq!(vec!["", ""], read_line_sep("", ""));
    let sizes: Vec<Vec<usize>> = read_number_lists("ab\n\nc", "", |s: &str| s.len());
    assert_eq!(vec![vec![0, 1, 1, 0], vec![0, 1, 0]], sizes);
}

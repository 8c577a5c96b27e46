use othello::board::Board;

fn fresh(size: usize) -> Board {
    let mut b = Board::new(size);
    b.init();
    b
}

fn marker_positions(text: &str) -> Vec<(usize, usize)> {
    let mut found = Vec::new();
    let lines: Vec<&str> = text.split('\n').collect();
    let mut row = 0;
    for line in lines.iter().skip(1) {
        if line.starts_with('-') {
            continue;
        }
        row += 1;
        let cells: Vec<&str> = line.split('|').collect();
        for (k, cell) in cells.iter().enumerate().skip(1) {
            if *cell == "@" {
                found.push((row, k));
            }
        }
    }
    found
}

#[test]
fn renders_two_by_two() {
    let b = fresh(2);
    assert_eq!(b.to_string(), " |1-2|\n1|o|x|\n-----|\n2|x|o|\n-----|");
}

#[test]
fn renders_empty_board_with_two_digit_labels() {
    let b = Board::new(10);
    let text = b.to_string();
    let first = text.split('\n').next().unwrap();
    assert_eq!(first, " |1-2-3-4-5-6-7-8-9-10|");
    assert!(text.contains("\n10| | | | | | | | | | |\n"));
    assert!(text.ends_with("\n---------------------|"));
}

#[test]
fn marks_replace_glyphs() {
    let b = fresh(2);
    assert_eq!(b.to_string_with_marks(&vec![(1, 2)]), " |1-2|\n1|o|@|\n-----|\n2|x|o|\n-----|");
}

#[test]
fn marks_found_exactly_where_requested() {
    let b = fresh(8);
    let marks = vec![(1, 1), (4, 4), (5, 3), (8, 8)];
    let text = b.to_string_with_marks(&marks);
    assert_eq!(marker_positions(&text), marks);
    assert!(marker_positions(&b.to_string()).is_empty());
}

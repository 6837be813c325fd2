use rested::scratch::{
    history_entries, pick_index, scratch_file_name, scratch_file_names, sort_by_modification,
    HistoryIndexMode, HistorySubsetSelection, NumberError, SelectionError,
};

#[test]
fn a_selection_is_a_number_or_a_range() {
    assert_eq!(HistorySubsetSelection::from_str("1"), Ok(HistorySubsetSelection::Single(1)));
    assert_eq!(HistorySubsetSelection::from_str("+5"), Ok(HistorySubsetSelection::Single(5)));
    assert_eq!(
        HistorySubsetSelection::from_str("1..3"),
        Ok(HistorySubsetSelection::Range { start: 1, end: 3 })
    );
    assert_eq!(
        HistorySubsetSelection::from_str("3..1"),
        Ok(HistorySubsetSelection::Range { start: 3, end: 1 })
    );
}

#[test]
fn a_selection_reports_the_number_it_cannot_read() {
    let err = |s: &str| HistorySubsetSelection::from_str(s).unwrap_err();
    assert_eq!(err(""), SelectionError::Number(NumberError::Empty));
    assert_eq!(err(".."), SelectionError::Number(NumberError::Empty));
    assert_eq!(err("a"), SelectionError::Number(NumberError::InvalidDigit));
    assert_eq!(err("+"), SelectionError::Number(NumberError::InvalidDigit));
    assert_eq!(err("-1"), SelectionError::Number(NumberError::InvalidDigit));
    assert_eq!(err("1...3"), SelectionError::Number(NumberError::InvalidDigit));
    assert_eq!(err(" 1"), SelectionError::Number(NumberError::InvalidDigit));
    assert_eq!(err("99999999999999999999999"), SelectionError::Number(NumberError::PosOverflow));
    assert_eq!(err("99999999999999999999999x"), SelectionError::Number(NumberError::PosOverflow));
    assert_eq!(err("x..99999999999999999999999"), SelectionError::Number(NumberError::InvalidDigit));
    assert_eq!(err("1..2..3"), SelectionError::Shape);
}

#[test]
fn selection_errors_read_as_std_and_the_command_say_them() {
    for (s, text) in [
        ("", "cannot parse integer from empty string"),
        ("z", "invalid digit found in string"),
        ("99999999999999999999999", "number too large to fit in target type"),
    ] {
        assert_eq!(HistorySubsetSelection::from_str(s).unwrap_err().message(), text);
        assert_eq!(s.parse::<usize>().unwrap_err().to_string(), text);
    }
    assert_eq!(
        SelectionError::Shape.message(),
        "invalid selection defined, should be a number like 1 or a range like 1..3"
    );
}

#[test]
fn the_history_counts_back_from_the_newest_or_on_from_the_oldest() {
    assert_eq!(history_entries(3, HistoryIndexMode::Ago, None), vec![(2, 0), (1, 1), (0, 2)]);
    assert_eq!(history_entries(3, HistoryIndexMode::Since, None), vec![(0, 0), (1, 1), (2, 2)]);
    assert_eq!(
        history_entries(3, HistoryIndexMode::Ago, Some(HistorySubsetSelection::Range { start: 0, end: 1 })),
        vec![(1, 1), (0, 2)]
    );
    assert_eq!(
        history_entries(3, HistoryIndexMode::Since, Some(HistorySubsetSelection::Single(1))),
        vec![(1, 1)]
    );
    assert_eq!(
        history_entries(3, HistoryIndexMode::Since, Some(HistorySubsetSelection::Single(7))),
        vec![]
    );
    assert!(history_entries(0, HistoryIndexMode::Ago, None).is_empty());
}

#[test]
fn a_pick_names_a_file_or_nothing() {
    assert_eq!(pick_index(3, 0, HistoryIndexMode::Ago), Some(2));
    assert_eq!(pick_index(3, 2, HistoryIndexMode::Ago), Some(0));
    assert_eq!(pick_index(3, 1, HistoryIndexMode::Since), Some(1));
    assert_eq!(pick_index(3, 3, HistoryIndexMode::Since), None);
    assert_eq!(pick_index(3, 3, HistoryIndexMode::Ago), None);
    assert_eq!(pick_index(0, 0, HistoryIndexMode::Ago), None);
}

#[test]
fn files_are_ordered_by_time_and_equal_times_keep_their_order() {
    let entries = vec![
        ("c".to_string(), 30u128),
        ("a".to_string(), 10),
        ("b1".to_string(), 20),
        ("b2".to_string(), 20),
        ("z".to_string(), 5),
        ("b3".to_string(), 20),
    ];
    let sorted = sort_by_modification(entries);
    let names: Vec<&str> = sorted.iter().map(|(n, _)| n.as_str()).collect();
    assert_eq!(names, vec!["z", "a", "b1", "b2", "b3", "c"]);
}

#[test]
fn only_files_with_the_rd_extension_are_scratch_files() {
    let entries = vec![
        ("a.rd".to_string(), 1u128),
        (".rd".to_string(), 2),
        ("b.txt".to_string(), 3),
        ("c.rd.bak".to_string(), 4),
        ("..rd".to_string(), 5),
        ("rd".to_string(), 6),
        ("é.rd".to_string(), 7),
    ];
    assert_eq!(scratch_file_names(entries), vec!["a.rd".to_string(), "..rd".to_string(), "é.rd".to_string()]);
    for name in ["a.rd", ".rd", "b.txt", "c.rd.bak", "..rd", "rd", "é.rd"] {
        let by_path = std::path::Path::new(name).extension().map(|e| e == "rd").unwrap_or(false);
        let kept = !scratch_file_names(vec![(name.to_string(), 0)]).is_empty();
        assert_eq!(by_path, kept, "{name}");
    }
}

#[test]
fn a_new_scratch_file_is_named_after_its_time() {
    assert_eq!(scratch_file_name(1700000000123), "scratch-1700000000123.rd");
    assert_eq!(scratch_file_name(0), "scratch-0.rd");
    assert_eq!(scratch_file_name(u128::MAX), format!("scratch-{}.rd", u128::MAX));
}

#[test]
fn a_picked_file_is_listed_under_the_number_it_was_picked_by() {
    for mode in [HistoryIndexMode::Ago, HistoryIndexMode::Since] {
        let listing = history_entries(5, mode, None);
        for number in 0..5 {
            let position = pick_index(5, number, mode).unwrap();
            assert!(listing.contains(&(number, position)));
        }
    }
}

#[test]
fn numbers_and_ranges_read_back_from_their_text() {
    for (a, b) in [(0usize, 0usize), (7, 12), (usize::MAX, 3)] {
        assert_eq!(HistorySubsetSelection::from_str(&a.to_string()), Ok(HistorySubsetSelection::Single(a)));
        assert_eq!(
            HistorySubsetSelection::from_str(&format!("{a}..{b}")),
            Ok(HistorySubsetSelection::Range { start: a, end: b })
        );
    }
}

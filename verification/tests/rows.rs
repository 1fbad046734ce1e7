use csv_cut::{normalize_row, process_row};

fn row(cells: &[&str]) -> Vec<String> {
    cells.iter().map(|cell| cell.to_string()).collect()
}

#[test]
fn without_partitions_every_cell_is_kept() {
    let cells = row(&[" Name ", "30.0", "null", "say \"hi\""]);
    assert_eq!(process_row(&cells, 0), row(&["Name", "30", "", "say \"\"hi\"\""]));
}

#[test]
fn partitions_drop_the_last_cells_before_cleaning() {
    let cells = row(&["John", "30.0", "New York", "1.0"]);
    assert_eq!(process_row(&cells, 1), row(&["John", "30", "New York"]));
    assert_eq!(process_row(&cells, 2), row(&["John", "30"]));
    assert_eq!(process_row(&cells, 3), row(&["John"]));
}

#[test]
fn as_many_partitions_as_cells_leave_the_empty_row() {
    let cells = row(&["a", "b", "c"]);
    assert_eq!(process_row(&cells, 3), Vec::<String>::new());
}

#[test]
fn more_partitions_than_cells_leave_the_empty_row() {
    let cells = row(&["a", "b", "c"]);
    assert_eq!(process_row(&cells, 4), Vec::<String>::new());
    assert_eq!(process_row(&cells, usize::MAX), Vec::<String>::new());
}

#[test]
fn the_empty_row_stays_empty() {
    assert_eq!(process_row(&Vec::new(), 0), Vec::<String>::new());
    assert_eq!(process_row(&Vec::new(), 5), Vec::<String>::new());
}

#[test]
fn row_length_is_the_length_less_the_partitions() {
    for len in 0..6usize {
        let cells: Vec<String> = (0..len).map(|i| format!("c{i}")).collect();
        for partitions in 0..8usize {
            let expected = if partitions > 0 { len.saturating_sub(partitions) } else { len };
            let cleaned = process_row(&cells, partitions);
            assert_eq!(cleaned.len(), expected);
            assert_eq!(cleaned[..], cells[..expected]);
        }
    }
}

#[test]
fn cells_keep_their_order() {
    let cells = row(&["3.0", "2.0", "1.0", "0.0"]);
    assert_eq!(process_row(&cells, 1), row(&["3", "2", "1"]));
}

#[test]
fn the_normal_row_differs_from_the_cleaned_row_in_its_quotes_only() {
    let cells = row(&[" Name ", "30.0", "null", "say \"hi\"", "dropped"]);
    assert_eq!(normalize_row(&cells, 1), row(&["Name", "30", "", "say \"hi\""]));
    assert_eq!(process_row(&cells, 1), row(&["Name", "30", "", "say \"\"hi\"\""]));
    assert_eq!(normalize_row(&cells, 5), Vec::<String>::new());
    assert_eq!(normalize_row(&cells, 6), Vec::<String>::new());
}

use rust_dtw_algorithm::csv::{assemble_table, field_bounds, ParsedLine};

fn fields<'a>(text: &'a str, separator: u8) -> Vec<&'a str> {
    field_bounds(text.as_bytes(), separator)
        .into_iter()
        .map(|(a, b)| &text[a..b])
        .collect()
}

#[test]
fn splits_like_str_split() {
    for text in ["1.0,2.5,-3", "abc", "", ",", ",,", "a,,b,", "x;y,z"] {
        let expected: Vec<&str> = text.split(',').collect();
        assert_eq!(fields(text, b','), expected);
    }
}

#[test]
fn splits_samples_on_semicolon() {
    assert_eq!(fields("1,2,3;4,5,6;", b';'), vec!["1,2,3", "4,5,6", ""]);
}

#[test]
fn field_bounds_exact_ranges() {
    assert_eq!(field_bounds(b"ab,c", b','), vec![(0, 2), (3, 4)]);
    assert_eq!(field_bounds(b"", b','), vec![(0, 0)]);
    assert_eq!(field_bounds(b",", b','), vec![(0, 0), (1, 1)]);
}

#[test]
fn split_then_join_gives_back_the_line() {
    for text in ["0.1,0.2,0.3", "a,,b,", ",leading", "héllo,wörld"] {
        let joined = fields(text, b',').join(",");
        assert_eq!(joined, text);
        assert!(fields(text, b',').iter().all(|f| !f.contains(',')));
    }
}

#[test]
fn table_keeps_parsed_multi_field_lines() {
    let lines = vec![
        ParsedLine { fields: 1, values: None },
        ParsedLine { fields: 3, values: Some(vec![1.0f32, 2.0, 3.0]) },
        ParsedLine { fields: 3, values: None },
        ParsedLine { fields: 2, values: Some(vec![4.0f32, 5.0]) },
        ParsedLine { fields: 1, values: Some(vec![9.0f32]) },
    ];
    let (data, rows, columns) = assemble_table(&lines);
    assert_eq!(data, vec![1.0, 2.0, 3.0, 4.0, 5.0]);
    assert_eq!(rows, 2);
    assert_eq!(columns, 3);
}

#[test]
fn table_columns_come_from_first_multi_field_line_even_unparsed() {
    let lines = vec![
        ParsedLine { fields: 4, values: None },
        ParsedLine { fields: 2, values: Some(vec![1u8, 2]) },
    ];
    assert_eq!(assemble_table(&lines), (vec![1u8, 2], 1, 4));
}

#[test]
fn empty_table() {
    let lines: Vec<ParsedLine<f32>> = Vec::new();
    assert_eq!(assemble_table(&lines), (Vec::new(), 0, 0));
    let lines = vec![ParsedLine::<f32> { fields: 1, values: None }];
    assert_eq!(assemble_table(&lines), (Vec::new(), 0, 0));
}

#[test]
fn uniform_lines_fill_rows_times_columns() {
    let lines = vec![
        ParsedLine { fields: 1, values: None },
        ParsedLine { fields: 3, values: Some(vec![1i32, 2, 3]) },
        ParsedLine { fields: 3, values: Some(vec![4i32, 5, 6]) },
        ParsedLine { fields: 3, values: Some(vec![7i32, 8, 9]) },
    ];
    let (data, rows, columns) = assemble_table(&lines);
    assert_eq!(rows, 3);
    assert_eq!(columns, 3);
    assert_eq!(data.len(), rows * columns);
}

#[test]
fn field_bounds_ranges_are_adjacent_around_separators() {
    let text = b"ab,,cde,f";
    let r = field_bounds(text, b',');
    assert_eq!(r[0].0, 0);
    assert_eq!(r[r.len() - 1].1, text.len());
    for k in 0..r.len() - 1 {
        assert_eq!(text[r[k].1], b',');
        assert_eq!(r[k].1 + 1, r[k + 1].0);
    }
}

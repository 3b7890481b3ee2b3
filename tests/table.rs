use beam_kit::table::{Alignment, Table, TableCell};

fn cell(text: &str, alignment: Alignment) -> TableCell {
    TableCell { content: text.to_string(), alignment }
}

fn sample() -> Table {
    let mut t = Table::new();
    t.header = vec![cell("name", Alignment::Left), cell("score", Alignment::Left)];
    t.body = vec![
        vec![cell("a", Alignment::Left), cell("10", Alignment::Right)],
        vec![cell("bcd", Alignment::Left), cell("7", Alignment::Right)],
    ];
    t.footer = vec![cell("total", Alignment::Left), cell("17", Alignment::Right)];
    t
}

#[test]
fn table_renders_padded_columns() {
    let t = sample();
    assert!(t.validate());
    assert_eq!(t.calculate_column_content_widths(), vec![5, 5]);
    assert_eq!(
        t.render(),
        vec![
            "| name  | score |",
            "|-------|-------|",
            "| a     |    10 |",
            "| bcd   |     7 |",
            "|-------|-------|",
            "| total |    17 |",
        ]
    );
}

#[test]
fn table_counts_display_columns() {
    let mut t = Table::new();
    t.header = vec![cell("x", Alignment::Right)];
    t.body = vec![vec![cell("日本", Alignment::Right)]];
    t.footer = vec![cell("", Alignment::Left)];
    assert_eq!(t.calculate_column_content_widths(), vec![4]);
    assert_eq!(t.render()[0], "|    x |");
    assert_eq!(cell("日本", Alignment::Left).format(6), "日本  ");
}

#[test]
fn table_with_ragged_rows_is_invalid() {
    let mut t = sample();
    t.body.push(vec![cell("z", Alignment::Left)]);
    assert!(!t.validate());
    let mut u = sample();
    u.footer.pop();
    assert!(!u.validate());
    assert!(Table::new().validate());
}

use neoscim::cell::CellType;
use neoscim::grid::Grid;
use neoscim::session::App;

fn num(v: f64) -> CellType {
    CellType::duck_type(v.to_string(), Some(v.to_string()))
}

fn text(s: &str) -> CellType {
    CellType::duck_type(s.to_string(), None)
}

#[test]
fn test_cells() {
    let mut grid = Grid::new();

    assert!(grid.get_cell_raw(0, 0).is_none());
    grid.set_cell("A0", text("Hello"));
    assert!(grid.get_cell("A0").is_some());

    assert_eq!(grid.get_cell("A0").as_ref().unwrap().to_string(), String::from("Hello"));
}

#[test]
fn c_to_i() {
    assert_eq!(Grid::char_to_idx("a"), 0);
    assert_eq!(Grid::char_to_idx("A"), 0);
    assert_eq!(Grid::char_to_idx("z"), 25);
    assert_eq!(Grid::char_to_idx("Z"), 25);
    // the second letter counts 26 more
    assert_eq!(Grid::char_to_idx("aa"), 26);

    assert_eq!(Grid::parse_to_idx("A0"), Some((0, 0)));
    assert_eq!(Grid::parse_to_idx("AA0"), Some((26, 0)));
    assert_eq!(Grid::parse_to_idx("A1"), Some((0, 1)));
    assert_eq!(Grid::parse_to_idx("A10"), Some((0, 10)));
    assert_eq!(Grid::parse_to_idx("Aa10"), Some((26, 10)));
}

#[test]
fn i_to_c() {
    assert_eq!(Grid::num_to_char(0).trim(), "A");
    assert_eq!(Grid::num_to_char(25).trim(), "Z");
    assert_eq!(Grid::num_to_char(26), "AA");
    assert_eq!(Grid::num_to_char(51), "AZ");
    assert_eq!(Grid::num_to_char(701), "ZZ");
}

#[test]
fn cell_strings() {
    let mut grid = Grid::new();

    assert!(grid.get_grid().get_cell_raw(0, 0).is_none());
    grid.set_cell("A0", text("Hello"));
    assert!(grid.get_cell("A0").is_some());

    assert_eq!(grid.get_cell("A0").as_ref().unwrap().to_string(), String::from("Hello"));
}

#[test]
fn alphanumeric_indexing() {
    assert_eq!(Grid::parse_to_idx("A0"), Some((0, 0)));
    assert_eq!(Grid::parse_to_idx("$A0"), Some((0, 0)));
    assert_eq!(Grid::parse_to_idx("A$0"), Some((0, 0)));
    assert_eq!(Grid::parse_to_idx("$A$0"), Some((0, 0)));
    assert_eq!(Grid::parse_to_idx("AA0"), Some((26, 0)));
    assert_eq!(Grid::parse_to_idx("A1"), Some((0, 1)));
    assert_eq!(Grid::parse_to_idx("A10"), Some((0, 10)));
    assert_eq!(Grid::parse_to_idx("Aa10"), Some((26, 10)));
    assert_eq!(Grid::parse_to_idx("invalid"), None);
    assert_eq!(Grid::parse_to_idx("1"), None);
    assert_eq!(Grid::parse_to_idx("A"), None);
    assert_eq!(Grid::parse_to_idx(":"), None);
    assert_eq!(Grid::parse_to_idx("="), None);
    assert_eq!(Grid::parse_to_idx("A:A"), None);

    assert_eq!(Grid::num_to_char(0).trim(), "A");
    assert_eq!(Grid::num_to_char(25).trim(), "Z");
    assert_eq!(Grid::num_to_char(26), "AA");
    assert_eq!(Grid::num_to_char(51), "AZ");
    assert_eq!(Grid::num_to_char(701), "ZZ");
}

#[test]
fn grid_max() {
    let mut grid = Grid::new();

    grid.set_cell("A0", num(1.));
    let (mx, my) = grid.get_grid().max();
    assert_eq!(mx, 0);
    assert_eq!(my, 0);

    grid.set_cell("B0", num(1.));
    let (mx, my) = grid.get_grid().max();
    assert_eq!(mx, 1);
    assert_eq!(my, 0);

    grid.set_cell("B5", num(1.));
    let (mx, my) = grid.get_grid().max();
    assert_eq!(mx, 1);
    assert_eq!(my, 5);
}

#[test]
fn parse_csv() {
    //standard parsing
    assert_eq!(
        Grid::parse_csv_line("1,2,3"),
        vec![Some("1".to_string()), Some("2".to_string()), Some("3".to_string())]
    );

    // comma in a cell
    assert_eq!(
        Grid::parse_csv_line("1,\",\",3"),
        vec![Some("1".to_string()), Some(",".to_string()), Some("3".to_string())]
    );

    // quotes in a cell
    assert_eq!(
        Grid::parse_csv_line("1,she said \"\"wow\"\",3"),
        vec![Some("1".to_string()), Some("she said \"wow\"".to_string()), Some("3".to_string())]
    );

    // quotes and comma in cell
    assert_eq!(
        Grid::parse_csv_line("1,\"she said \"\"hello, world\"\"\",3"),
        vec![Some("1".to_string()), Some("she said \"hello, world\"".to_string()), Some("3".to_string())]
    );

    // ending with a quote
    assert_eq!(
        Grid::parse_csv_line("1,she said \"\"hello world\"\""),
        vec![Some("1".to_string()), Some("she said \"hello world\"".to_string())]
    );

    // ending with a quote with a comma
    assert_eq!(
        Grid::parse_csv_line("1,\"she said \"\"hello, world\"\"\""),
        vec![Some("1".to_string()), Some("she said \"hello, world\"".to_string())]
    );

    // starting with a quote
    assert_eq!(
        Grid::parse_csv_line("\"\"hello world\"\" is what she said,1"),
        vec![Some("\"hello world\" is what she said".to_string()), Some("1".to_string())]
    );

    // starting with a quote with a comma
    assert_eq!(
        Grid::parse_csv_line("\"\"\"hello, world\"\" is what she said\",1"),
        vec![Some("\"hello, world\" is what she said".to_string()), Some("1".to_string())]
    );
}

#[test]
fn cursor_fns() {
    // surprisingly, this test was needed
    let mut app = App::new();
    let c = app.grid.cursor();
    assert_eq!(c, (0, 0));

    app.grid.mv_cursor_to(1, 0);
    assert_eq!(app.grid.cursor(), (1, 0));
}

#[test]
fn insert_col_before_1() {
    let mut grid = Grid::new();

    grid.set_cell("A0", num(2.));
    grid.set_cell("B0", text("=A0*2"));
    grid.set_cell("B1", text("=B0"));

    grid.mv_cursor_to(1, 0);

    grid.insert_column_before(grid.cursor()).unwrap();

    // cell didn't get translated
    let cell = grid.get_cell("A0").as_ref().expect("Just set it");
    assert_eq!(cell.to_string(), "2");

    // cell referencing another cell on the same side of the insertion
    let cell = grid.get_cell("C1").as_ref().expect("Just set it");
    assert_eq!(cell.to_string(), "=C0");
}

#[test]
fn insert_col_before_2() {
    let mut grid = Grid::new();

    grid.set_cell("A0", num(2.));
    grid.set_cell("B0", text("=A0*2"));
    grid.set_cell("B1", text("=B0"));

    grid.mv_cursor_to(0, 0);

    grid.insert_column_before(grid.cursor()).unwrap();

    let cell = grid.get_cell("B0").as_ref().expect("Just set it");
    assert_eq!(cell.to_string(), "2");

    // cell referencing another cell on the same side of the insertion
    let cell = grid.get_cell("C1").as_ref().expect("Just set it");
    assert_eq!(cell.to_string(), "=C0");
}

#[test]
fn insert_col_before_3() {
    let mut grid = Grid::new();

    grid.set_cell("A0", num(2.));
    grid.set_cell("A1", num(2.));
    grid.set_cell("B0", text("=A0*A1"));

    grid.mv_cursor_to(0, 0);

    grid.insert_column_before(grid.cursor()).unwrap();

    let cell = grid.get_cell("C0").as_ref().expect("Just set it");
    assert_eq!(cell.to_string(), "=B0*B1");
}

#[test]
fn insert_row_above_1() {
    let mut grid = Grid::new();

    grid.set_cell("A1", num(2.));
    grid.set_cell("A0", text("=A1*2"));
    grid.set_cell("B0", text("=A0"));

    // shift half down
    grid.mv_cursor_to(0, 1);
    grid.insert_row_above(grid.cursor()).unwrap();

    // cell didn't get translated
    let cell = grid.get_cell("A0").as_ref().expect("Just set it");
    assert_eq!(cell.to_string(), "=A2*2");

    // cell referencing another cell on the same side of the insertion
    let cell = grid.get_cell("B0").as_ref().expect("Just set it");
    assert_eq!(cell.to_string(), "=A0");
}

#[test]
fn insert_row_above_2() {
    let mut grid = Grid::new();

    grid.set_cell("A1", num(2.));
    grid.set_cell("A0", text("=A1*2"));
    grid.set_cell("B0", text("=A0"));

    // shift nothing down
    grid.mv_cursor_to(0, 2);
    grid.insert_row_above(grid.cursor()).unwrap();

    // cell didn't get translated
    let cell = grid.get_cell("A0").as_ref().expect("Just set it");
    assert_eq!(cell.to_string(), "=A1*2");

    // cell referencing another cell on the same side of the insertion
    let cell = grid.get_cell("B0").as_ref().expect("Just set it");
    assert_eq!(cell.to_string(), "=A0");
}

#[test]
fn insert_row_above_3() {
    let mut grid = Grid::new();

    grid.set_cell("A1", num(2.));
    grid.set_cell("A0", text("=A1*2"));
    grid.set_cell("B0", text("=A0"));

    // shift everything down
    grid.mv_cursor_to(0, 0);
    grid.insert_row_above(grid.cursor()).unwrap();

    // cell didn't get translated
    let cell = grid.get_cell("A1").as_ref().expect("Just set it");
    assert_eq!(cell.to_string(), "=A2*2");

    // cell referencing another cell on the same side of the insertion
    let cell = grid.get_cell("B1").as_ref().expect("Just set it");
    assert_eq!(cell.to_string(), "=A1");
}

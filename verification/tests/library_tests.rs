use neoscim::cell::{CellStyle, CellType, Color, FormatRule, Formatting, TranslateFault};
use neoscim::csv::parse_sheet;
use neoscim::grid::{Grid, GridFault, LEN};
use neoscim::message::{MsgType, StatusMessage};
use neoscim::mode::{EditBuffer, Mode};
use neoscim::refs::column_letters;
use neoscim::screen::center_text;
use neoscim::session::{App, Effect, Key, KeyFault, Outcome};
use neoscim::squares::{clip_display, header_shade, overflow_width, square_area, square_index, Shade};
use neoscim::vars::{Marks, Vars};

fn text(s: &str) -> CellType {
    CellType::duck_type(s.to_string(), None)
}

fn shown(c: &Option<CellType>) -> Option<String> {
    c.as_ref().map(|v| v.to_string())
}

#[test]
fn reference_round_trip_examples() {
    for (x, y) in [(0usize, 0usize), (25, 7), (26, 10), (51, 999), (27, 3), (52, 0), (701, 99), (400, 12)] {
        let name: String = column_letters(x).into_iter().collect();
        let r = format!("{name}{y}");
        assert_eq!(Grid::parse_to_idx(&r), Some((x, y)));
    }
}

#[test]
fn plain_fields_round_trip_example() {
    let fields = ["12", "abc", "x y", "=A0+1"];
    let line = fields.join(",");
    let cells = Grid::parse_csv_line(&line);
    assert_eq!(cells, fields.iter().map(|f| Some(f.to_string())).collect::<Vec<_>>());
}

#[test]
fn undo_takes_back_an_insert() {
    let mut grid = Grid::new();
    grid.set_cell("A0", text("=A1*2"));
    grid.set_cell("A1", text("x"));
    grid.insert_row_above((0, 0)).unwrap();
    assert_eq!(shown(grid.get_cell("A1")), Some("=A2*2".to_string()));
    grid.undo();
    assert_eq!(shown(grid.get_cell("A0")), Some("=A1*2".to_string()));
    assert_eq!(shown(grid.get_cell("A1")), Some("x".to_string()));
    assert!(grid.get_cell("A2").is_none());
    // nothing left to take back
    grid.undo();
    assert_eq!(shown(grid.get_cell("A0")), Some("=A1*2".to_string()));
}

#[test]
fn rule_round_trip_example() {
    let style = CellStyle { fg: Some(Color::Red), bg: None };
    let rule = FormatRule::LT("3.5".to_string(), style);
    let line = rule.serialize();
    assert_eq!(line, "<,3.5,Red,Reset");
    let back = FormatRule::deserialize(&line, Some("3.5".to_string())).expect("reads back");
    assert_eq!(back.sign_char(), '<');
    assert_eq!(back.get_threashold(), "3.5");
    assert_eq!(back.get_style(), style);
    assert!(FormatRule::deserialize("<,3.5,Red", Some("3.5".to_string())).is_none());
    assert!(FormatRule::deserialize("?,3.5,Red,Blue", Some("3.5".to_string())).is_none());
    assert!(FormatRule::deserialize("<,x,Red,Blue", None).is_none());
}

#[test]
fn count_repeats_a_motion() {
    let mut app = App::new();
    app.mode = Mode::Chord(EditBuffer::new('5'));
    Mode::process_key(&mut app, 'j').unwrap();
    assert_eq!(app.grid.cursor(), (0, 5));
    assert!(matches!(app.mode, Mode::Normal));

    app.mode = Mode::Chord(EditBuffer::new('7'));
    Mode::process_key(&mut app, 'G').unwrap();
    assert_eq!(app.grid.cursor(), (0, 7));

    // moves stop at the sheet's edge
    app.grid.mv_cursor_to(LEN - 2, 0);
    app.mode = Mode::Chord(EditBuffer::new('9'));
    Mode::process_key(&mut app, 'l').unwrap();
    assert_eq!(app.grid.cursor(), (LEN - 1, 0));
}

#[test]
fn multibyte_chord_key_is_a_fault() {
    let mut app = App::new();
    app.mode = Mode::Chord(EditBuffer::new('g'));
    assert_eq!(Mode::process_key(&mut app, 'é'), Err(KeyFault::Slice));
}

#[test]
fn centring_without_a_screen_is_a_fault() {
    let mut app = App::new();
    app.mode = Mode::Chord(EditBuffer::new('z'));
    assert_eq!(Mode::process_key(&mut app, 'z'), Err(KeyFault::Screen));
    assert_eq!(app.follow_cursor(), Err(KeyFault::Screen));
}

#[test]
fn centring_scrolls_to_the_cursor() {
    let mut app = App::new();
    app.screen.how_many_cells_fit_in(100, 12, &app.vars);
    app.grid.mv_cursor_to(40, 30);
    app.mode = Mode::Chord(EditBuffer::new('z'));
    Mode::process_key(&mut app, 'z').unwrap();
    // 8 cells across and 10 down: the centre is 4 and 5 cells in
    assert_eq!((app.screen.scroll_x(), app.screen.scroll_y()), (36, 25));
}

#[test]
fn paste_past_the_edge_is_a_fault() {
    let mut app = App::new();
    app.grid.set_cell("A0", text("x"));
    app.mode = Mode::Chord(EditBuffer::new('y'));
    Mode::process_key(&mut app, 'y').unwrap();
    app.grid.mv_cursor_to(LEN, 0);
    assert_eq!(Mode::process_key(&mut app, 'p'), Err(KeyFault::Grid(GridFault::OutOfGrid)));
}

#[test]
fn count_of_empty_clipboard_is_a_fault() {
    let mut app = App::new();
    app.mode = Mode::Chord(EditBuffer::new('g'));
    assert_eq!(Mode::process_key(&mut app, 'p'), Err(KeyFault::EmptyClipboard));
}

#[test]
fn far_momentum_is_a_fault() {
    let mut app = App::new();
    app.grid.mv_cursor_to(1 << 31, 0);
    app.mode = Mode::Chord(EditBuffer::new('y'));
    Mode::process_key(&mut app, 'y').unwrap();
    app.grid.mv_cursor_to(1, 0);
    assert_eq!(Mode::process_key(&mut app, 'p'), Err(KeyFault::Overflow));
}

#[test]
fn pasting_a_function_call_is_a_fault() {
    let mut app = App::new();
    app.grid.set_cell("A0", text("=sum(B:B)"));
    app.mode = Mode::Chord(EditBuffer::new('y'));
    Mode::process_key(&mut app, 'y').unwrap();
    app.grid.mv_cursor_to(0, 1);
    assert_eq!(
        Mode::process_key(&mut app, 'p'),
        Err(KeyFault::Grid(GridFault::Translate(TranslateFault::CallsFunction)))
    );
}

#[test]
fn paste_moves_references() {
    let mut app = App::new();
    app.grid.set_cell("B1", text("=A0+$A$0+A$1"));
    app.grid.mv_cursor_to(1, 1);
    app.mode = Mode::Chord(EditBuffer::new('y'));
    Mode::process_key(&mut app, 'y').unwrap();
    app.grid.mv_cursor_to(3, 4);
    Mode::process_key(&mut app, 'p').unwrap();
    assert_eq!(shown(app.grid.get_cell("D4")), Some("=C3+$A$0+C$1".to_string()));
}

#[test]
fn visual_cut_and_yank() {
    let mut app = App::new();
    app.grid.set_cell("A0", text("a"));
    app.grid.set_cell("B1", text("b"));
    Mode::process_key(&mut app, 'v').unwrap();
    Mode::process_key(&mut app, 'l').unwrap();
    Mode::process_key(&mut app, 'j').unwrap();
    Mode::process_key(&mut app, 'y').unwrap();
    assert!(matches!(app.mode, Mode::Normal));
    assert_eq!(app.clipboard.copied().len(), 2);
    assert_eq!(app.msg.shown_text(), "Yanked 4 cells");

    Mode::process_key(&mut app, 'v').unwrap();
    Mode::process_key(&mut app, 'k').unwrap();
    Mode::process_key(&mut app, 'x').unwrap();
    assert!(app.grid.get_cell("B1").is_none());
    assert!(app.grid.get_cell("A0").is_some());
    assert!(app.grid.needs_to_be_saved());
}

#[test]
fn marks_remember_positions() {
    let mut app = App::new();
    app.grid.mv_cursor_to(3, 4);
    app.mode = Mode::Chord(EditBuffer::new('m'));
    Mode::process_key(&mut app, 'a').unwrap();
    app.grid.mv_cursor_to(0, 0);
    app.mode = Mode::Chord(EditBuffer::new('\''));
    Mode::process_key(&mut app, 'a').unwrap();
    assert_eq!(app.grid.cursor(), (3, 4));

    let mut marks = Marks::new();
    marks.insert('q', (1, 2));
    marks.insert('q', (5, 6));
    assert_eq!(marks.get(&'q'), Some(&(5, 6)));
    assert_eq!(marks.get(&'r'), None);
}

#[test]
fn unknown_key_starts_a_chord() {
    let mut app = App::new();
    Mode::process_key(&mut app, 'q').unwrap();
    assert!(matches!(&app.mode, Mode::Chord(b) if b.as_string() == "q"));
    Mode::process_key(&mut app, 'q').unwrap();
    assert!(matches!(&app.mode, Mode::Chord(b) if b.as_string() == "qq"));
}

#[test]
fn insert_and_commit() {
    let mut app = App::new();
    app.handle_key(Key::Char('r')).unwrap();
    app.handle_key(Key::Char('=')).unwrap();
    app.handle_key(Key::Char('B')).unwrap();
    app.handle_key(Key::Char('1')).unwrap();
    app.handle_key(Key::Char('x')).unwrap();
    app.handle_key(Key::Backspace).unwrap();
    match app.handle_key(Key::Enter).unwrap() {
        Effect::Commit { pos, text } => {
            assert_eq!(pos, (0, 0));
            assert_eq!(text, "=B1");
            app.commit(pos, text, None).unwrap();
        }
        _ => panic!("expected a commit"),
    }
    assert!(matches!(app.grid.get_cell("A0"), Some(CellType::Equation(e)) if e == "=B1"));
    app.commit((1, 0), "2.5".to_string(), Some("2.5".to_string())).unwrap();
    assert!(matches!(app.grid.get_cell("B0"), Some(CellType::Number(n)) if n == "2.5"));
    app.commit((1, 0), String::new(), None).unwrap();
    assert!(app.grid.get_cell("B0").is_none());
    assert_eq!(app.commit((LEN, 0), "x".to_string(), None), Err(KeyFault::Grid(GridFault::OutOfGrid)));
}

#[test]
fn commands_set_quit_and_save() {
    let mut app = App::new();
    app.mode = Mode::Command(EditBuffer::from(":set length=5".to_string()));
    assert!(matches!(Mode::process_cmd(&mut app), Ok(Effect::Nothing)));
    assert_eq!(app.vars.get("length"), Some(&"5".to_string()));
    assert_eq!(app.screen.get_cell_width(&app.vars), 5);
    assert_eq!(app.msg.msg_type(), MsgType::Error);
    assert_eq!(app.msg.shown_text(), "set <key>=<value>");

    app.mode = Mode::Command(EditBuffer::from(":w".to_string()));
    assert!(matches!(Mode::process_cmd(&mut app), Ok(Effect::Nothing)));
    assert_eq!(app.msg.shown_text(), "No file selected");

    app.mode = Mode::Command(EditBuffer::from(":w   out.csv".to_string()));
    match Mode::process_cmd(&mut app) {
        Ok(Effect::Save { path }) => assert_eq!(path, "out.csv"),
        _ => panic!("expected a save"),
    }
    app.grid.set_cell("A0", text("x"));
    app.report(Outcome::Saved("/some/dir/out.csv".to_string()));
    assert_eq!(app.msg.shown_text(), "Saved file out.csv");
    assert_eq!(app.file, Some("/some/dir/out.csv".to_string()));
    assert!(!app.grid.needs_to_be_saved());

    app.grid.set_cell("A1", text("y"));
    app.mode = Mode::Command(EditBuffer::from(":q".to_string()));
    Mode::process_cmd(&mut app).unwrap();
    assert!(!app.exit);
    assert_eq!(app.msg.shown_text(), "File not saved");
    app.mode = Mode::Command(EditBuffer::from(":q!".to_string()));
    Mode::process_cmd(&mut app).unwrap();
    assert!(app.exit);

    app.mode = Mode::Command(EditBuffer::from(String::new()));
    assert!(matches!(Mode::process_cmd(&mut app), Err(KeyFault::Slice)));
}

#[test]
fn block_commands() {
    let mut app = App::new();
    app.grid.set_cell("A0", text("a"));
    app.grid.mv_cursor_to(1, 1);
    app.mode = Mode::VisualCmd((0, 0), EditBuffer::from(":fill xi-yi=x,y".to_string()));
    match Mode::process_cmd(&mut app) {
        Ok(Effect::Fill { at, texts }) => {
            assert_eq!(at, (0, 0));
            assert_eq!(texts, vec![vec!["0-0=0,0", "0-1=0,1"], vec!["1-0=1,0", "1-1=1,1"]]);
            let numbers = vec![vec![None, None], vec![None, Some("7".to_string())]];
            app.fill(at, &texts, &numbers).unwrap();
        }
        _ => panic!("expected a fill"),
    }
    assert_eq!(shown(app.grid.get_cell("B0")), Some("1-0=1,0".to_string()));
    assert!(matches!(app.grid.get_cell("B1"), Some(CellType::Number(n)) if n == "7"));

    app.mode = Mode::VisualCmd((0, 0), EditBuffer::from(":export part.csv".to_string()));
    match Mode::process_cmd(&mut app) {
        Ok(Effect::Export { path, sheet }) => {
            assert_eq!(path, "part.csv");
            assert_eq!(shown(sheet.get_cell("A0")), Some("0-0=0,0".to_string()));
            assert!(sheet.get_cell("C0").is_none());
        }
        _ => panic!("expected an export"),
    }

    app.mode = Mode::VisualCmd((0, 0), EditBuffer::from(":plot".to_string()));
    match Mode::process_cmd(&mut app) {
        Ok(Effect::Plot { output, title, .. }) => {
            assert_eq!(output, "plot.png");
            assert_eq!(title, "unknown");
        }
        _ => panic!("expected a plot"),
    }
    app.report(Outcome::PlotMissing);
    assert_eq!(app.msg.shown_text(), "Error - Is gnuplot installed?");

    app.mode = Mode::VisualCmd((0, 0), EditBuffer::from(":export".to_string()));
    assert!(matches!(Mode::process_cmd(&mut app), Ok(Effect::Nothing)));
    assert_eq!(app.msg.shown_text(), "export <path.csv>");
}

#[test]
fn save_targets() {
    assert_eq!(Grid::save_target("a.csv"), (true, "a.csv".to_string()));
    assert_eq!(Grid::save_target("a.txt"), (true, "a.txt".to_string()));
    assert_eq!(Grid::save_target("a.nscim"), (false, "a.nscim".to_string()));
    assert_eq!(Grid::save_target("dir/a"), (true, "dir/a.csv".to_string()));
}

#[test]
fn csv_text_of_a_sheet() {
    let mut grid = Grid::new();
    grid.set_cell("A0", CellType::duck_type("1".to_string(), Some("1".to_string())));
    grid.set_cell("B1", text("a,b"));
    grid.set_cell("A1", text("=A0*2"));
    assert_eq!(grid.csv_text(false, &Vec::new()), "1,\n=A0*2,\"a,b\"\n");
    let values = vec![vec![None, Some("2".to_string())]];
    assert_eq!(grid.csv_text(true, &values), "1,\n2,\"a,b\"\n");
}

#[test]
fn sheet_lines_and_cells() {
    let rows = parse_sheet("1,2\r\n3\n\n,x");
    assert_eq!(
        rows,
        vec![
            vec![Some("1".to_string()), Some("2".to_string())],
            vec![Some("3".to_string())],
            vec![],
            vec![None, Some("x".to_string())],
        ]
    );
}

#[test]
fn saved_sheet_reads_back() {
    let mut grid = Grid::new();
    grid.set_cell("A0", text("x"));
    grid.set_cell("C0", text("=A0"));
    grid.set_cell("B2", text("hello world"));
    let saved = grid.csv_text(false, &Vec::new());
    assert_eq!(saved, "x,,=A0
,,
,hello world,
");
    let rows = parse_sheet(&saved);
    assert_eq!(
        rows,
        vec![
            vec![Some("x".to_string()), None, Some("=A0".to_string())],
            vec![None, None],
            vec![None, Some("hello world".to_string())],
        ]
    );
}

#[test]
fn sheet_from_rows() {
    let rows = vec![vec![Some(text("a")), None], vec![None, Some(text("=A0"))]];
    let grid = Grid::from_rows(&rows);
    assert_eq!(shown(grid.get_cell("A0")), Some("a".to_string()));
    assert_eq!(shown(grid.get_cell("B1")), Some("=A0".to_string()));
    assert!(grid.get_cell("B0").is_none());
    assert!(!grid.needs_to_be_saved());
}

#[test]
fn header_text_is_centred() {
    assert_eq!(center_text("99", 4), " 99");
    assert_eq!(center_text("99", 5), " 99");
    assert_eq!(center_text("12345", 3), "12345");
    assert_eq!(neoscim::grid::get_header_size(), 4);
}

#[test]
fn messages_show_their_text() {
    let m = StatusMessage::info("hello");
    assert_eq!(m.shown_text(), "hello");
    assert_eq!(m.text_after(4), "");
    assert_eq!(m.text_after(3), "hello");
    assert_eq!(StatusMessage::none().shown_text(), "");
    assert_eq!(StatusMessage::error("bad").msg_type(), MsgType::Error);
}

#[test]
fn settings_map() {
    let mut vars = Vars::new();
    assert!(vars.get("height").is_none());
    vars.insert("height".to_string(), "3".to_string());
    vars.insert("height".to_string(), "x".to_string());
    assert_eq!(vars.get("height"), Some(&"x".to_string()));
    let app = App::new();
    // a setting that is no number leaves the default
    assert_eq!(app.screen.get_cell_height(&vars), 1);
}

#[test]
fn window_follows_the_cursor() {
    let mut app = App::new();
    app.screen.how_many_cells_fit_in(100, 12, &app.vars);
    app.grid.mv_cursor_to(50, 40);
    app.follow_cursor().unwrap();
    assert_eq!((app.screen.scroll_x(), app.screen.scroll_y()), (42, 30));
    app.handle_key(Key::Up).unwrap();
    app.follow_cursor().unwrap();
    assert_eq!(app.grid.cursor(), (50, 39));
    assert_eq!(app.screen.scroll_y(), 30);
}

#[test]
fn squares_show_cells_after_the_scroll() {
    assert_eq!(square_index(0, 7), 0);
    assert_eq!(square_index(3, 7), 9);
    assert_eq!(header_shade(3, 3), Shade::Cursor);
    assert_eq!(header_shade(4, 3), Shade::Even);
    assert_eq!(header_shade(5, 3), Shade::Odd);
}

#[test]
fn text_runs_on_into_empty_cells() {
    let mut grid = Grid::new();
    grid.set_cell("A0", text("hello world"));
    assert_eq!(overflow_width(&grid, 0, 0, 11, 4), 11);
    grid.set_cell("C0", text("x"));
    assert_eq!(overflow_width(&grid, 0, 0, 11, 4), 8);
    grid.set_cell("B0", text("y"));
    assert_eq!(overflow_width(&grid, 0, 0, 11, 4), 4);
    // a cell beyond the text's reach does not cut it
    assert_eq!(overflow_width(&grid, 0, 0, 4, 4), 4);
}

#[test]
fn text_cut_to_its_width() {
    assert_eq!(clip_display("hello world", 11), Some("hello world".to_string()));
    assert_eq!(clip_display("hello world", 8), Some("hello \u{2026}".to_string()));
    assert_eq!(clip_display("hi", 1), None);
    assert_eq!(clip_display("h\u{e9}llo", 3), Some("h\u{2026}".to_string()));
    assert_eq!(clip_display("h\u{e9}llo", 4), None);
}

#[test]
fn squares_on_the_screen() {
    assert_eq!(square_area(0, 1, (0, 0, 80, 24), (9, 1), 4, None), Some((0, 1, 4, 1)));
    assert_eq!(square_area(2, 1, (0, 0, 80, 24), (9, 1), 4, Some(20)), Some((13, 1, 20, 1)));
    assert_eq!(square_area(2, 1, (0, 0, 80, 24), (9, 1), 4, Some(3)), Some((13, 1, 9, 1)));
    assert_eq!(square_area(1, 1, (0, 0, 80, 24), (3, 1), 4, None), None);
    assert_eq!(square_area(1, 0, (0, 0, 10, 24), (9, 1), 4, Some(20)), Some((4, 0, 9, 1)));
}

#[test]
fn status_line_file_name() {
    let mut app = App::new();
    assert_eq!(app.file_name_display(), "[No Name]");
    app.file = Some("dir/sheet.csv".to_string());
    assert_eq!(app.file_name_display(), "sheet.csv");
    app.grid.set_cell("A0", text("x"));
    assert_eq!(app.file_name_display(), "sheet.csv[+]");
    app.file = Some("/".to_string());
    assert_eq!(app.file_name_display(), "[No Name][+]");
}

#[test]
fn command_line_width() {
    assert_eq!(Mode::Normal.chars_to_display(&Some(text("abc"))), 3);
    assert_eq!(Mode::Normal.chars_to_display(&None), 0);
    assert_eq!(Mode::Insert(EditBuffer::from("hello".to_string())).chars_to_display(&None), 5);
    assert_eq!(Mode::Visual((0, 0)).chars_to_display(&Some(text("abc"))), 0);
}

#[test]
fn plot_script_filled_in() {
    let template = "plot '$FILE' title '$TITLE' x '$XLABEL' y '$YLABEL' to '$OUTPUT' / $TITLE";
    assert_eq!(
        neoscim::session::plot_script(template, "sheet.csv"),
        "plot '/tmp/plot.csv' title 'sheet.csv' x 'hard-coded x' y 'hard-coded y' to '/tmp/output.png' / sheet.csv"
    );
}

#[test]
fn rule_style_changed_in_place() {
    let mut rule = FormatRule::GT("5".to_string(), CellStyle::default());
    *rule.get_style_mut() = CellStyle { fg: Some(Color::Red), bg: Some(Color::Blue) };
    assert_eq!(rule.get_style(), CellStyle { fg: Some(Color::Red), bg: Some(Color::Blue) });
    assert_eq!(rule.sign_char(), '>');
    assert_eq!(rule.get_threashold(), "5");
}

#[test]
fn first_applying_rule_styles_a_value() {
    let red = CellStyle { fg: Some(Color::Red), bg: None };
    let blue = CellStyle { fg: None, bg: Some(Color::Blue) };
    let fmt = Formatting { rules: vec![FormatRule::GT("5".to_string(), red), FormatRule::LT("2".to_string(), blue)] };
    assert_eq!(fmt.eval_for_style(&vec![false, true]), blue);
    assert_eq!(fmt.eval_for_style(&vec![true, true]), red);
    assert_eq!(fmt.eval_for_style(&vec![false, false]), CellStyle::default());
}

#[test]
fn contents_equal_by_kind_and_text() {
    assert_eq!(CellType::Number("1".to_string()), CellType::Number("1".to_string()));
    assert_ne!(CellType::Number("1".to_string()), CellType::String("1".to_string()));
    assert_ne!(CellType::Equation("=A0".to_string()), CellType::Equation("=A1".to_string()));
    assert_eq!(CellType::duck_type("=A0".to_string(), None), CellType::Equation("=A0".to_string()));
}

#[test]
fn columns_read_in_base_26() {
    assert_eq!(Grid::parse_to_idx("BA0"), Some((52, 0)));
    assert_eq!(Grid::parse_to_idx("AB0"), Some((27, 0)));
    assert_eq!(Grid::parse_to_idx("ZZ99"), Some((701, 99)));
    assert_eq!(Grid::parse_to_idx("$z$z5"), Some((701, 5)));
    assert_eq!(Grid::char_to_idx("AAA"), 702);
    assert_eq!(Grid::num_to_char(701), "ZZ");
}

#[test]
fn saved_text_with_commas_reads_back() {
    let mut grid = Grid::new();
    grid.set_cell("A0", text("a,b"));
    grid.set_cell("B0", text(","));
    grid.set_cell("A1", text("x"));
    let saved = grid.csv_text(false, &Vec::new());
    assert_eq!(saved, "\"a,b\",\",\"\nx,\n");
    assert_eq!(
        parse_sheet(&saved),
        vec![vec![Some("a,b".to_string()), Some(",".to_string())], vec![Some("x".to_string())]]
    );
}

#[test]
fn dirty_flag_follows_changes() {
    let mut grid = Grid::new();
    assert!(!grid.needs_to_be_saved());
    grid.mv_cursor_to(3, 4);
    assert!(!grid.needs_to_be_saved());
    grid.set_cell("A0", text("x"));
    assert!(grid.needs_to_be_saved());
    grid.mark_saved();
    assert!(!grid.needs_to_be_saved());
    assert_eq!(grid.insert_row_above((0, 0)), Ok(()));
    assert!(grid.needs_to_be_saved());
    grid.mark_saved();
    grid.undo();
    assert!(grid.needs_to_be_saved());
    assert_eq!(shown(grid.get_cell("A0")), Some("x".to_string()));
}

#[test]
fn formula_of_an_equation() {
    assert_eq!(neoscim::cell::equation_formula("=A0+1"), Ok("A0+1".to_string()));
    assert_eq!(neoscim::cell::equation_formula("="), Ok("".to_string()));
    assert_eq!(neoscim::cell::equation_formula("12"), Err("\"12\" is not an equation".to_string()));
}

#[test]
fn quotes_written_doubled_and_read_back() {
    let c = CellType::String("say \"hi\", ok".to_string());
    assert_eq!(c.escaped_csv_string(), "\"say \"\"hi\"\", ok\"");
    assert_eq!(Grid::parse_csv_line(&c.escaped_csv_string()), vec![Some("say \"hi\", ok".to_string())]);
    assert_eq!(CellType::String("a\"b".to_string()).escaped_csv_string(), "a\"\"b");
    let mut grid = Grid::new();
    grid.set_cell("A0", text("a\"b"));
    grid.set_cell("B0", text("\"x,y\""));
    grid.set_cell("C0", text("\""));
    let saved = grid.csv_text(false, &Vec::new());
    assert_eq!(saved, "a\"\"b,\"\"\"x,y\"\"\",\"\"\n");
    assert_eq!(
        parse_sheet(&saved),
        vec![vec![Some("a\"b".to_string()), Some("\"x,y\"".to_string()), Some("\"".to_string())]]
    );
}

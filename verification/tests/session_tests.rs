use neoscim::cell::CellType;
use neoscim::mode::{EditBuffer, Mode};
use neoscim::session::App;

fn text(s: &str) -> CellType {
    CellType::duck_type(s.to_string(), None)
}

fn num(v: f64) -> CellType {
    CellType::duck_type(v.to_string(), Some(v.to_string()))
}

#[test]
fn test_quit_cmd() {
    let mut app = App::new();
    assert!(!app.exit);

    app.mode = Mode::Command(EditBuffer::from(":q".to_string()));
    let _ = Mode::process_cmd(&mut app);

    assert!(app.exit);
}

#[test]
fn copy_paste() {
    let mut app = App::new();

    app.grid.set_cell("A0", text("hello"));
    app.grid.mv_cursor_to(0, 0);

    app.mode = Mode::Chord(EditBuffer::new('y'));
    let _ = Mode::process_key(&mut app, 'y');
    // yy will have set mode back to normal at this point

    assert_eq!(app.clipboard.copied().len(), 1);
    assert!(app.clipboard.copied()[0][0].as_ref().is_some_and(|c| c.to_string() == "hello"));

    app.grid.mv_cursor_to(1, 1);
    let _ = Mode::process_key(&mut app, 'p');

    let a = app.grid.get_cell("B1").as_ref().expect("Should've been set by paste");
    assert_eq!(a.to_string(), "hello");
}

#[test]
fn momentum_y_pos() {
    let mut app = App::new();

    app.grid.set_cell("A0", text("hello"));
    app.grid.mv_cursor_to(0, 0);

    app.mode = Mode::Chord(EditBuffer::new('y'));
    let _ = Mode::process_key(&mut app, 'y');

    app.grid.mv_cursor_to(0, 1);
    let _ = Mode::process_key(&mut app, 'p');

    assert_eq!(app.clipboard.momentum(), (0, 1));
}

#[test]
fn momentum_y_neg() {
    let mut app = App::new();

    app.grid.set_cell("A1", text("hello"));
    app.grid.mv_cursor_to(0, 1);

    app.mode = Mode::Chord(EditBuffer::new('y'));
    let _ = Mode::process_key(&mut app, 'y');

    app.grid.mv_cursor_to(0, 0);
    let _ = Mode::process_key(&mut app, 'p');

    assert_eq!(app.clipboard.momentum(), (0, -1));
}

#[test]
fn momentum_x_pos() {
    let mut app = App::new();

    app.grid.set_cell("A0", text("hello"));
    app.grid.mv_cursor_to(0, 0);

    app.mode = Mode::Chord(EditBuffer::new('y'));
    let _ = Mode::process_key(&mut app, 'y');

    app.grid.mv_cursor_to(1, 0);
    let _ = Mode::process_key(&mut app, 'p');

    assert_eq!(app.clipboard.momentum(), (1, 0));
}

#[test]
fn momentum_x_neg() {
    let mut app = App::new();

    app.grid.set_cell("B0", text("hello"));
    app.grid.mv_cursor_to(1, 0);

    app.mode = Mode::Chord(EditBuffer::new('y'));
    let _ = Mode::process_key(&mut app, 'y');

    app.grid.mv_cursor_to(0, 0);
    let _ = Mode::process_key(&mut app, 'p');

    assert_eq!(app.clipboard.momentum(), (-1, 0));
}

#[test]
fn diagonal_momentum() {
    let mut app = App::new();

    app.grid.set_cell("A1", text("hello"));
    app.grid.mv_cursor_to(0, 1);

    app.mode = Mode::Chord(EditBuffer::new('y'));
    let _ = Mode::process_key(&mut app, 'y');

    app.grid.mv_cursor_to(1, 0);
    assert_eq!(app.grid.cursor(), (1, 0));
    let _ = Mode::process_key(&mut app, 'p');

    assert_eq!(app.clipboard.momentum(), (0, -1));
    assert_eq!(app.grid.cursor(), (1, 0));

    app.grid.apply_momentum(app.clipboard.momentum());

    assert_eq!(app.grid.cursor(), (1, 0));
}

#[test]
fn movement_keybinds() {
    let mut app = App::new();

    assert_eq!(app.grid.cursor(), (0, 0));
    let _ = Mode::process_key(&mut app, 'j');
    assert_eq!(app.grid.cursor(), (0, 1));

    let _ = Mode::process_key(&mut app, 'l');
    assert_eq!(app.grid.cursor(), (1, 1));

    let _ = Mode::process_key(&mut app, 'k');
    assert_eq!(app.grid.cursor(), (1, 0));

    let _ = Mode::process_key(&mut app, 'h');
    assert_eq!(app.grid.cursor(), (0, 0));
}

#[test]
fn keybinds() {
    let mut app = App::new();

    // start at B1
    app.grid.mv_cursor_to(1, 1);
    assert_eq!(app.grid.cursor(), (1, 1));

    // gg
    app.mode = Mode::Chord(EditBuffer::new('g'));
    let _ = Mode::process_key(&mut app, 'g');
    assert_eq!(app.grid.cursor(), (1, 0));

    // 0
    app.mode = Mode::Normal;
    let _ = Mode::process_key(&mut app, '0');
    assert_eq!(app.grid.cursor(), (0, 0));

    // 10l
    // this should mean all the directions work
    app.grid.mv_cursor_to(0, 0);
    app.mode = Mode::Chord(EditBuffer::new('1'));
    let _ = Mode::process_key(&mut app, '0');
    let _ = Mode::process_key(&mut app, 'l');
    assert_eq!(app.grid.cursor(), (10, 0));
}

#[test]
fn cell_eval_depth() {
    let mut app = App::new();

    app.grid.set_cell("A0", num(1.));
    app.grid.set_cell("A1", text("=A0+$A$0"));

    app.grid.mv_cursor_to(0, 1);
    app.mode = Mode::Chord(EditBuffer::new('y'));
    let _ = Mode::process_key(&mut app, 'y');
    let _ = Mode::process_key(&mut app, 'j');
    app.mode = Mode::Chord(EditBuffer::new('5'));
    let _ = Mode::process_key(&mut app, 'p');

    assert_eq!(app.grid.cursor(), (0, 7));

    let c = app.grid.get_cell("A6").as_ref().expect("Just set it");

    assert_eq!(c.to_string(), "=A5+$A$0");
}

#[test]
fn saving_neoscim() {
    // setup grid
    // This should be 1..10 in the A column, then
    // 1^2..10^2 in the B column.
    let mut app = App::new();
    app.grid.set_cell("A0", num(1.));
    app.grid.set_cell("B0", text("=A0^2"));

    app.grid.set_cell("A1", text("=A0+A$0"));
    app.grid.set_cell("B1", text("=A1^2"));

    app.grid.mv_cursor_to(0, 1);
    app.mode = Mode::Visual(app.grid.cursor());
    let _ = Mode::process_key(&mut app, 'l');
    let _ = Mode::process_key(&mut app, 'y');
    app.mode = Mode::Normal;
    app.grid.mv_cursor_to(0, 2);
    for _ in 0..10 {
        let _ = Mode::process_key(&mut app, 'p');
    }
    // setup done

    // insure that the cells are there
    let cell = app.grid.get_cell_raw(0, 10).as_ref().expect("Should've been set");
    assert_eq!(cell.escaped_csv_string(), "=A9+A$0");
    let cell = app.grid.get_cell_raw(1, 10).as_ref().expect("Should've been set");
    assert_eq!(cell.escaped_csv_string(), "=A10^2");

    // the text the file gets: formulas, not values
    let filename = format!("/tmp/file.{}", neoscim::grid::CUSTOM_EXT);
    let (resolve, target) = neoscim::grid::Grid::save_target(&filename);
    assert!(!resolve);
    assert_eq!(target, filename);
    let buf = app.grid.csv_text(resolve, &Vec::new());
    let line = buf.lines().skip(10).next();
    assert_eq!(line, Some("=A9+A$0,=A10^2"));
}

use neoscim::session::App;

#[test]
fn fit_cells() {
    let mut app = App::new();
    app.vars.insert("length".to_string(), 10.to_string());
    app.vars.insert("height".to_string(), 1.to_string());

    let (x, y) = app.screen.how_many_cells_fit_in(181, 14, &app.vars);
    assert_eq!(x, 18);
    assert_eq!(y, 14);
}

#[test]
fn scroll() {
    let mut app = App::new();
    app.vars.insert("length".to_string(), 10.to_string());
    app.vars.insert("height".to_string(), 1.to_string());

    // We have to check how many cells fit, because screen learns the width
    // of the area by rumour here.
    let (x, y) = app.screen.how_many_cells_fit_in(181, 14, &app.vars);
    assert_eq!(x, 18);
    assert_eq!(y, 14);

    // we aren't scrolled at all yet
    app.screen.scroll_based_on_cursor_location((0, 0), &app.vars);
    assert_eq!(app.screen.scroll_x(), 0);
    assert_eq!(app.screen.scroll_y(), 0);

    // at the edge of visible, but shouldn't scroll yet
    app.screen.scroll_based_on_cursor_location((16, 0), &app.vars);
    assert_eq!(app.screen.scroll_x(), 0);
    assert_eq!(app.screen.scroll_y(), 0);

    // scroll 1 right
    app.screen.scroll_based_on_cursor_location((17, 0), &app.vars);
    assert_eq!(app.screen.scroll_x(), 1);
    assert_eq!(app.screen.scroll_y(), 0);

    // cursor comes back, scroll should stay
    app.screen.scroll_based_on_cursor_location((16, 0), &app.vars);
    assert_eq!(app.screen.scroll_x(), 1);
    assert_eq!(app.screen.scroll_y(), 0);

    // scroll left
    app.screen.scroll_based_on_cursor_location((0, 0), &app.vars);
    assert_eq!(app.screen.scroll_x(), 0);
    assert_eq!(app.screen.scroll_y(), 0);

    // now for y

    // we aren't scrolled at all yet
    app.screen.scroll_based_on_cursor_location((0, 0), &app.vars);
    assert_eq!(app.screen.scroll_x(), 0);
    assert_eq!(app.screen.scroll_y(), 0);

    app.screen.scroll_based_on_cursor_location((0, 12), &app.vars);
    assert_eq!(app.screen.scroll_x(), 0);
    assert_eq!(app.screen.scroll_y(), 0);

    app.screen.scroll_based_on_cursor_location((0, 13), &app.vars);
    assert_eq!(app.screen.scroll_x(), 0);
    assert_eq!(app.screen.scroll_y(), 1);

    app.screen.scroll_based_on_cursor_location((0, 12), &app.vars);
    assert_eq!(app.screen.scroll_x(), 0);
    assert_eq!(app.screen.scroll_y(), 1);

    app.screen.scroll_based_on_cursor_location((0, 0), &app.vars);
    assert_eq!(app.screen.scroll_x(), 0);
    assert_eq!(app.screen.scroll_y(), 0);
}

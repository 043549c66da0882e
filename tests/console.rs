use thek::console::{
    ColorScheme, ConIndex, Console, ConsoleChar, ConsoleColor, ConsoleWriter, CONSOLE_CELLS,
};
use thek::plot::PlotTextController;
use thek::screen::{KError, ScreenCmd, ScreenConsole};

#[test]
fn color_from_low_nibble() {
    assert_eq!(ConsoleColor::from(0u8), ConsoleColor::Black);
    assert_eq!(ConsoleColor::from(4u8), ConsoleColor::Red);
    assert_eq!(ConsoleColor::from(0x1Fu8), ConsoleColor::White);
    assert_eq!(ConsoleColor::from(0xFEu8), ConsoleColor::Yellow);
    assert_eq!(ConsoleColor::LightBlue.code(), 9);
}

#[test]
fn scheme_and_char_attribute() {
    let s = ColorScheme::new(ConsoleColor::White, ConsoleColor::Red);
    assert_eq!(s.fg(), ConsoleColor::White);
    assert_eq!(s.bg(), ConsoleColor::Red);
    let c = ConsoleChar::new(b'A', s);
    assert_eq!(c.get_char(), b'A');
    assert_eq!(c.get_color(), 0x4F);
    let d = ColorScheme::default();
    assert_eq!(ConsoleChar::new(b'x', d).get_color(), 0x07);
}

#[test]
fn console_set_char_bounds() {
    let mut con = Console::new(ColorScheme::new(ConsoleColor::Green, ConsoleColor::Black));
    assert_eq!(con.len(), 2000);
    assert_eq!(con.set_char(0, b'H'), Ok(()));
    assert_eq!(con.set_char(CONSOLE_CELLS - 1, b'Z'), Ok(()));
    assert_eq!(con.set_char(CONSOLE_CELLS, b'!'), Err("Position out of bounds"));
    let red = ConsoleChar::new(b'R', ColorScheme::new(ConsoleColor::Red, ConsoleColor::Blue));
    assert_eq!(con.set_console_char(usize::MAX, red), Err("Position out of bounds"));
    let red = ConsoleChar::new(b'R', ColorScheme::new(ConsoleColor::Red, ConsoleColor::Blue));
    assert_eq!(con.set_console_char(5, red), Ok(()));
    assert_eq!(con.get(ConIndex::Col(5, 0)), 0x14);
    assert_eq!(con.buffer()[0], b'H');
    assert_eq!(con.buffer()[1], 0x02);
    assert_eq!(con.get(ConIndex::Cha(79, 24)), b'Z');
    assert_eq!(con.get(ConIndex::Col(79, 24)), 0x02);
}

#[test]
fn console_index_set_and_write_at() {
    let mut con = Console::default();
    con.set(ConIndex::Cha(75, 20), b'A');
    con.set(ConIndex::Col(75, 20), 0x0A);
    assert_eq!(con.get(ConIndex::Cha(75, 20)), b'A');
    assert_eq!(con.get(ConIndex::Col(75, 20)), 0x0A);
    con.write_at(78, 0, b"Hello");
    assert_eq!(con.get(ConIndex::Cha(78, 0)), b'H');
    assert_eq!(con.get(ConIndex::Cha(79, 0)), b'e');
    assert_eq!(con.get(ConIndex::Cha(0, 1)), b'l');
    assert_eq!(con.get(ConIndex::Col(0, 1)), 0x07);
    con.write_at(79, 24, b"xyz");
    assert_eq!(con.get(ConIndex::Cha(79, 24)), b'x');
    con.write_at(80, 0, b"no");
    assert_eq!(con.get(ConIndex::Cha(0, 1)), b'l');
}

#[test]
fn writer_wraps_and_breaks_lines() {
    let mut w = ConsoleWriter::new(Console::default());
    w.write_str("ab\ncd");
    assert_eq!(w.get_xy(), (2, 1));
    assert_eq!(w.pos(), 82);
    assert_eq!(w.console().get(ConIndex::Cha(0, 0)), b'a');
    assert_eq!(w.console().get(ConIndex::Cha(1, 1)), b'd');
    for _ in 0..78 {
        w.inc_pos();
    }
    assert_eq!(w.get_xy(), (0, 2));
    for _ in 0..22 {
        w.line_break();
    }
    assert_eq!(w.get_xy(), (0, 24));
    w.line_break();
    assert_eq!(w.get_xy(), (0, 0));
}

#[test]
fn screen_console_prints_and_moves() {
    let (w, k) = (ConsoleColor::White, ConsoleColor::Black);
    let mut con = ScreenConsole::new(w, k, Some((80, 25)), Some((0, 0)));
    let out = con.write_str("hi\nx");
    assert_eq!(
        out,
        vec![
            ScreenCmd::Print(0, 0, w, k, b'h'),
            ScreenCmd::Print(1, 0, w, k, b'i'),
            ScreenCmd::Print(0, 1, w, k, b'x'),
            ScreenCmd::Print(1, 1, w, k, b' '),
            ScreenCmd::SetCursor(1, 1),
        ]
    );
    assert_eq!(con.get_xy(), (1, 1));
    assert_eq!(con.pos(), 81);
    assert_eq!(con.get_colors(), (w, k));
    assert_eq!(con.set_xy(80, 0), Err(KError::OutBounds));
    assert_eq!(con.get_xy(), (1, 1));
    assert_eq!(
        con.set_xy(79, 24),
        Ok(vec![ScreenCmd::Print(79, 24, w, k, b' '), ScreenCmd::SetCursor(79, 24)])
    );
    con.inc_pos();
    assert_eq!(con.get_xy(), (0, 0));
    assert_eq!(con.get_size(), (80, 25));
    con.set_xy(5, 24).unwrap();
    con.line_break();
    assert_eq!(con.get_xy(), (0, 0));
}

#[test]
fn screen_console_larger_than_standard_skips_closing_commands() {
    let (w, k) = (ConsoleColor::Yellow, ConsoleColor::Blue);
    let mut con = ScreenConsole::new(w, k, Some((100, 30)), Some((85, 0)));
    let out = con.write_str("a");
    assert_eq!(out, vec![ScreenCmd::Print(85, 0, w, k, b'a')]);
    assert_eq!(con.get_xy(), (86, 0));
    assert_eq!(con.write_str(""), vec![]);
}

#[test]
fn plot_controller_tabs_and_scrolls() {
    let mut pc = PlotTextController::new(ConsoleColor::White, ConsoleColor::Blue, (8, 2), (0, 0));
    assert_eq!(pc.get_size(), (8, 2));
    assert_eq!(pc.write_str("a\tb"), Ok(()));
    assert_eq!(pc.get_xy(), (5, 0));
    assert_eq!(pc.read(4, 0), Ok((b'b', ConsoleColor::White, ConsoleColor::Blue)));
    assert_eq!(pc.read(5, 0), Ok((0, ConsoleColor::White, ConsoleColor::Blue)));
    pc.write_str("\tz").unwrap();
    assert_eq!(pc.read(7, 0), Ok((b'z', ConsoleColor::White, ConsoleColor::Blue)));
    assert_eq!(pc.get_xy(), (0, 1));
    pc.write_str("q\n").unwrap();
    // the first row scrolled away
    assert_eq!(pc.read(0, 0), Ok((b'q', ConsoleColor::White, ConsoleColor::Blue)));
    assert_eq!(pc.read(0, 1), Ok((0, ConsoleColor::White, ConsoleColor::Blue)));
    assert_eq!(pc.get_xy(), (0, 1));
    assert_eq!(pc.read(8, 0), Err(KError::OutBounds));
    assert_eq!(pc.set_xy(3, 0), Ok(()));
    assert_eq!(pc.get_xy(), (3, 0));
}

#[test]
fn plot_controller_keeps_off_screen_cursor() {
    let mut pc = PlotTextController::new(ConsoleColor::White, ConsoleColor::Blue, (8, 2), (0, 0));
    assert_eq!(pc.set_xy(8, 0), Err(KError::OutBounds));
    assert_eq!(pc.get_xy(), (8, 0));
    assert_eq!(pc.write_str("x"), Err(KError::OutBounds));
    assert_eq!(pc.get_xy(), (8, 0));
    // a line break brings the cursor back on the screen
    assert_eq!(pc.write_str("\ny"), Ok(()));
    assert_eq!(pc.read(0, 1), Ok((b'y', ConsoleColor::White, ConsoleColor::Blue)));
    assert_eq!(pc.get_xy(), (1, 1));
}

#[test]
fn plot_controller_on_empty_screen() {
    let mut pc = PlotTextController::new(ConsoleColor::White, ConsoleColor::Black, (0, 0), (0, 0));
    assert_eq!(pc.get_size(), (0, 0));
    assert_eq!(pc.get_xy(), (0, 0));
    assert_eq!(pc.read(0, 0), Err(KError::OutBounds));
    assert_eq!(pc.write_str("a"), Err(KError::OutBounds));
    assert_eq!(pc.write_str("\n"), Err(KError::OutBounds));
    assert_eq!(pc.set_xy(2, 3), Err(KError::OutBounds));
    assert_eq!(pc.get_xy(), (2, 3));
}

#[test]
fn screen_console_accepts_off_screen_cursor() {
    let (w, k) = (ConsoleColor::White, ConsoleColor::Black);
    let mut con = ScreenConsole::new(w, k, Some((80, 25)), Some((100, 0)));
    assert_eq!(con.get_xy(), (100, 0));
    assert_eq!(con.pos(), 100);
    let out = con.write_str("a");
    assert_eq!(
        out,
        vec![
            ScreenCmd::Print(100, 0, w, k, b'a'),
            ScreenCmd::Print(0, 1, w, k, b' '),
            ScreenCmd::SetCursor(0, 1),
        ]
    );
    assert_eq!(con.get_xy(), (0, 1));
}

#[test]
fn screen_console_failed_queries_start_at_origin() {
    let (w, k) = (ConsoleColor::White, ConsoleColor::Black);
    let mut con = ScreenConsole::new(w, k, None, None);
    assert_eq!(con.get_size(), (0, 0));
    assert_eq!(con.get_xy(), (0, 0));
    con.inc_pos();
    assert_eq!(con.get_xy(), (0, 0));
    con.line_break();
    assert_eq!(con.get_xy(), (0, 0));
    let con2 = ScreenConsole::new(w, k, Some((80, 25)), None);
    assert_eq!(con2.get_size(), (80, 25));
    assert_eq!(con2.get_xy(), (0, 0));
}

use color_render::color::OutEvent;
use color_render::color_img::ColorImgPrinter;

fn colored(text: &str, front: usize, back: usize) -> OutEvent {
    OutEvent::Colored { text: String::from(text), front, back }
}

fn plain(text: &str) -> OutEvent {
    OutEvent::Plain { text: String::from(text) }
}

#[test]
fn roundtrip_single_red_run() {
    let mut printer = ColorImgPrinter::new("img.txt", 0);
    let events = printer.print_color("\u{1b}[0m\u{1b}[38;2;255;0;0mA\u{1b}[0m\n");
    assert_eq!(events, vec![colored("A", 0xff0000, 0), plain("\n")]);
}

#[test]
fn malformed_red_channel_defaults_to_zero() {
    let mut printer = ColorImgPrinter::new("img.txt", 0);
    let events = printer.print_color("\u{1b}[0m\u{1b}[38;2;x;0;0mB\n");
    assert_eq!(events, vec![colored("B", 0x000000, 0), plain("\n")]);
}

#[test]
fn out_of_range_channel_defaults_to_zero() {
    let mut printer = ColorImgPrinter::new("img.txt", 0);
    let events = printer.print_color("\u{1b}[0m\u{1b}[38;2;300;0;7mX\n");
    assert_eq!(events, vec![colored("X", 0x000007, 0), plain("\n")]);
}

#[test]
fn two_segments_one_line() {
    let mut printer = ColorImgPrinter::new("img.txt", 0);
    let events = printer.print_color(
        "\u{1b}[0m\u{1b}[38;2;1;2;3mAB\u{1b}[0m\u{1b}[38;2;4;5;6mCD\u{1b}[0m\n",
    );
    assert_eq!(
        events,
        vec![colored("AB", 0x010203, 0), colored("CD", 0x040506, 0), plain("\n")]
    );
}

#[test]
fn two_lines_each_terminated() {
    let mut printer = ColorImgPrinter::new("img.txt", 0);
    let events = printer.print_color(
        "\u{1b}[0m\u{1b}[38;2;9;9;9mup\u{1b}[0m\n\u{1b}[0m\u{1b}[38;2;8;8;8mdown\u{1b}[0m\n",
    );
    assert_eq!(
        events,
        vec![
            colored("up", 0x090909, 0),
            plain("\n"),
            colored("down", 0x080808, 0),
            plain("\n"),
        ]
    );
}

#[test]
fn annotation_on_real_line_is_indented() {
    let mut printer = ColorImgPrinter::new("img.txt", 2);
    printer.registe_info(0, 0x111111, 0x222222, String::from("note"));
    let events = printer.print_color("\u{1b}[0m\u{1b}[38;2;255;0;0mA\u{1b}[0m\n");
    assert_eq!(
        events,
        vec![
            colored("A", 0xff0000, 0),
            plain("\t\t"),
            colored("note", 0x111111, 0x222222),
            plain("\n"),
        ]
    );
}

#[test]
fn annotation_beyond_lines_emitted_once() {
    let mut printer = ColorImgPrinter::new("img.txt", 1);
    printer.registe_info(2, 0x0000ff, 0, String::from("late"));
    let events = printer.print_color("\u{1b}[0m\u{1b}[38;2;255;0;0mA\u{1b}[0m\n");
    assert_eq!(
        events,
        vec![
            colored("A", 0xff0000, 0),
            plain("\n"),
            plain("\n"),
            plain("\t"),
            colored("late", 0x0000ff, 0),
            plain("\n"),
        ]
    );
}

#[test]
fn later_annotation_registration_wins() {
    let mut printer = ColorImgPrinter::new("img.txt", 0);
    printer.registe_info(0, 0x111111, 0, String::from("first"));
    printer.registe_info(0, 0x222222, 0, String::from("second"));
    let events = printer.print_color("\u{1b}[0m\u{1b}[38;2;1;1;1mZ\n");
    assert_eq!(
        events,
        vec![
            colored("Z", 0x010101, 0),
            plain(""),
            colored("second", 0x222222, 0),
            plain("\n"),
        ]
    );
}

#[test]
fn empty_lines_are_skipped() {
    let mut printer = ColorImgPrinter::new("img.txt", 0);
    let events = printer.print_color("\n\n\u{1b}[0m\u{1b}[38;2;1;1;1mQ\n\n");
    assert_eq!(events, vec![colored("Q", 0x010101, 0), plain("\n")]);
}

#[test]
fn tab_size_accessors() {
    let mut printer = ColorImgPrinter::new("img.txt", 3);
    assert_eq!(printer.tab_size(), 3);
    printer.set_tab_size(5);
    assert_eq!(printer.tab_size(), 5);
    assert_eq!(printer.path(), "img.txt");
}

#[test]
fn embedded_reset_is_stripped_from_text() {
    let mut printer = ColorImgPrinter::new("img.txt", 0);
    let events = printer.print_color("\u{1b}[0m\u{1b}[38;2;1;2;3mA\u{1b}[0mB\n");
    assert_eq!(events, vec![colored("AB", 0x010203, 0), plain("\n")]);
}

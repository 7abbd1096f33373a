use color_render::color::OutEvent;
use color_render::renderer::Renderer;

fn colored(text: &str, front: usize, back: usize) -> OutEvent {
    OutEvent::Colored { text: String::from(text), front, back }
}

fn plain(text: &str) -> OutEvent {
    OutEvent::Plain { text: String::from(text) }
}

#[test]
fn test() {
    let mut render = Renderer::new();
    render.register_char('o', 0xff0000, 0);
    render.register_char('b', 0x00ff00, 0);
    render.register_char('c', 0x0000ff, 0);
    render.register_string("hello", 0xF0FFF0, 0).unwrap();
    render.render("hello dragonos color lib");

    Renderer::render_println("hello dragonos color lib", 0, 0);
}

#[test]
fn empty_rules_single_run() {
    let render = Renderer::new();
    let events = render.render("any text at all");
    assert_eq!(events, vec![colored("any text at all", 0xffffff, 0)]);
}

#[test]
fn empty_rules_empty_text() {
    let render = Renderer::new();
    let events = render.render("");
    assert_eq!(events, Vec::<OutEvent>::new());
}

#[test]
fn single_char_rule_isolates_runs() {
    let mut render = Renderer::new();
    render.register_char('o', 0xff0000, 0);
    let events = render.render("foo");
    assert_eq!(
        events,
        vec![colored("f", 0xffffff, 0), colored("oo", 0xff0000, 0)]
    );
}

#[test]
fn string_rule_wins_over_char_rule() {
    let mut render = Renderer::new();
    render.register_char('h', 0xff0000, 0);
    render.register_string("hello", 0x0000ff, 0).unwrap();
    let events = render.render("hello");
    assert_eq!(events, vec![colored("hello", 0x0000ff, 0)]);
}

#[test]
fn runs_partition_input_exactly() {
    let mut render = Renderer::new();
    render.register_char('o', 0xff0000, 0);
    render.register_char('l', 0x00ff00, 0);
    render.register_string("or", 0x123456, 0).unwrap();
    let input = "hello colorful world";
    let events = render.render(input);
    let mut joined = String::new();
    for e in &events {
        match e {
            OutEvent::Colored { text, .. } => joined.push_str(text),
            OutEvent::Plain { .. } => panic!("render emits colored runs only"),
        }
    }
    assert_eq!(joined, input);
}

#[test]
fn render_is_deterministic() {
    let mut render = Renderer::new();
    render.register_char('a', 0xff0000, 0);
    render.register_string("ab", 0x00ff00, 0).unwrap();
    render.register_string("ba", 0x0000ff, 0).unwrap();
    let first = render.render("abababab");
    let second = render.render("abababab");
    assert_eq!(first, second);
}

#[test]
fn later_string_rule_wins_overlap() {
    let mut render = Renderer::new();
    render.register_string("ab", 0x111111, 0).unwrap();
    render.register_string("bc", 0x222222, 0).unwrap();
    let events = render.render("abc");
    assert_eq!(
        events,
        vec![colored("a", 0x111111, 0), colored("bc", 0x222222, 0)]
    );
}

#[test]
fn empty_string_rule_is_rejected() {
    let mut render = Renderer::new();
    assert!(render.register_string("", 0xff0000, 0).is_err());
    let events = render.render("abc");
    assert_eq!(events, vec![colored("abc", 0xffffff, 0)]);
}

#[test]
fn set_default_changes_uncovered_text() {
    let mut render = Renderer::new();
    render.set_default(0x00ff00, 0x000040);
    let events = render.render("xy");
    assert_eq!(events, vec![colored("xy", 0x00ff00, 0x000040)]);
}

#[test]
fn unregister_char_restores_default() {
    let mut render = Renderer::new();
    render.register_char('o', 0xff0000, 0);
    render.unregister_char('o');
    let events = render.render("foo");
    assert_eq!(events, vec![colored("foo", 0xffffff, 0)]);
}

#[test]
fn unregister_string_restores_default() {
    let mut render = Renderer::new();
    render.register_string("foo", 0xff0000, 0).unwrap();
    render.unregister_string("foo");
    let events = render.render("foo");
    assert_eq!(events, vec![colored("foo", 0xffffff, 0)]);
}

#[test]
fn unregister_all_clears_both_tables() {
    let mut render = Renderer::new();
    render.register_char('a', 0xff0000, 0);
    render.register_char('b', 0x00ff00, 0);
    render.register_string("ab", 0x0000ff, 0).unwrap();
    render.unregister_all_char();
    render.unregister_all_string();
    let events = render.render("ab");
    assert_eq!(events, vec![colored("ab", 0xffffff, 0)]);
}

#[test]
fn reregistering_char_overwrites_color() {
    let mut render = Renderer::new();
    render.register_char('x', 0xff0000, 0);
    render.register_char('x', 0x00ff00, 0);
    let events = render.render("x");
    assert_eq!(events, vec![colored("x", 0x00ff00, 0)]);
}

#[test]
fn substring_indexes_overlapping() {
    let indexes = Renderer::get_sub_string_indexs("aaa", "aa");
    assert_eq!(indexes, vec![0, 1]);
}

#[test]
fn substring_indexes_disjoint() {
    let indexes = Renderer::get_sub_string_indexs("hellohello", "hello");
    assert_eq!(indexes, vec![0, 5]);
}

#[test]
fn substring_indexes_absent() {
    let indexes = Renderer::get_sub_string_indexs("hello", "xyz");
    assert_eq!(indexes, Vec::<usize>::new());
}

#[test]
fn char_indexing_handles_multibyte() {
    let mut render = Renderer::new();
    render.register_char('\u{f6}', 0xff0000, 0);
    let events = render.render("f\u{f6}\u{f6}");
    assert_eq!(
        events,
        vec![colored("f", 0xffffff, 0), colored("\u{f6}\u{f6}", 0xff0000, 0)]
    );
    let indexes = Renderer::get_sub_string_indexs("\u{f6}a\u{f6}a", "\u{f6}a");
    assert_eq!(indexes, vec![0, 2]);
}

#[test]
fn renderln_appends_line_terminator() {
    let render = Renderer::new();
    let events = render.renderln("hi");
    assert_eq!(events, vec![colored("hi", 0xffffff, 0), plain("\n")]);
}

#[test]
fn render_print_single_event() {
    let e = Renderer::render_print("info", 0x102030, 5);
    assert_eq!(e, colored("info", 0x102030, 5));
}

#[test]
fn render_println_appends_newline_to_run() {
    let e = Renderer::render_println("info", 0x102030, 5);
    assert_eq!(e, colored("info\n", 0x102030, 5));
}

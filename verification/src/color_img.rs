//! The escape-sequence importer: replays a truecolor-SGR-encoded text file
//! (as produced by an external image-to-ANSI converter) onto the display
//! sink, with optional per-line side annotations.
//!
//! Each non-empty line of the file is split on the fixed reset-then-set-
//! foreground marker; each resulting segment, after stripping embedded plain
//! reset markers, has the shape `<red>;<green>;<blue>m<text>` with decimal
//! channels. A channel that is missing, not a number, or out of the 0..=255
//! range degrades to 0 instead of aborting the call. The three channels are
//! packed into one 24-bit foreground value; the background is always unset.

use vstd::prelude::*;
use vstd::string::*;

use crate::color::EventView;
use crate::color::OutEvent;
use crate::color::event_views;
use crate::text::channel;
use crate::text::channel_of;
use crate::text::find_from;
use crate::text::find_at;
use crate::text::lemma_find_from;
use crate::text::remove_all;
use crate::text::remove_all_spec;
use crate::text::split_on;
use crate::text::split_on_spec;
use crate::text::str_views;

verus! {

/// The plain reset marker embedded in color-coded segments.
pub open spec fn reset_marker() -> Seq<char> {
    seq!['\u{1b}', '[', '0', 'm']
}

/// The reset-then-set-foreground marker that separates consecutive
/// truecolor-coded segments of one line.
pub open spec fn seg_marker() -> Seq<char> {
    seq!['\u{1b}', '[', '0', 'm', '\u{1b}', '[', '3', '8', ';', '2', ';']
}

/// The line-terminator event.
pub open spec fn newline_event() -> EventView {
    EventView::Plain { text: seq!['\n'] }
}

/// `n` tab characters: the indentation put before an annotation.
pub open spec fn tabs(n: int) -> Seq<char> {
    Seq::new(
        if n >= 0 {
            n as nat
        } else {
            0
        },
        |i: int| '\t',
    )
}

/// Splits `s` at the first occurrence of `ch`: the part before it and the
/// part after it. Without an occurrence, the whole of `s` and an empty rest.
pub open spec fn split_first(s: Seq<char>, ch: char) -> (Seq<char>, Seq<char>) {
    match find_from(s, seq![ch], 0) {
        None => (s, Seq::empty()),
        Some(p) => (s.subrange(0, p), s.subrange(p + 1, s.len() as int)),
    }
}

/// Decodes one color-coded segment: strips the plain reset markers, reads
/// the three `;`-separated decimal channels up to the `m` mark, packs them
/// into one 24-bit color, and keeps the rest as the literal run text.
pub open spec fn decode_segment(seg: Seq<char>) -> (u32, Seq<char>) {
    let c = remove_all_spec(seg, reset_marker());
    let p1 = split_first(c, ';');
    let p2 = split_first(p1.1, ';');
    let p3 = split_first(p2.1, 'm');
    (
        (channel_of(p1.0) * 0x10000 + channel_of(p2.0) * 0x100 + channel_of(p3.0)) as u32,
        p3.1,
    )
}

/// The parts of `parts` that are non-empty, in order.
pub open spec fn nonempty_only(parts: Seq<Seq<char>>) -> Seq<Seq<char>>
    decreases parts.len(),
{
    if parts.len() == 0 {
        Seq::empty()
    } else if parts.last().len() > 0 {
        nonempty_only(parts.drop_last()).push(parts.last())
    } else {
        nonempty_only(parts.drop_last())
    }
}

/// The (color, text) pairs decoded from one line: one per non-empty
/// marker-separated segment.
pub open spec fn decode_line(line: Seq<char>) -> Seq<(u32, Seq<char>)> {
    nonempty_only(split_on_spec(line, seg_marker())).map_values(
        |p: Seq<char>| decode_segment(p),
    )
}

/// The non-empty lines of the file content, in order: empty lines produce
/// no output and do not count toward line numbering.
pub open spec fn lines_of(content: Seq<char>) -> Seq<Seq<char>> {
    nonempty_only(split_on_spec(content, seq!['\n']))
}

/// One colored put per decoded segment.
pub open spec fn seg_events(segs: Seq<(u32, Seq<char>)>) -> Seq<EventView> {
    segs.map_values(
        |s: (u32, Seq<char>)| EventView::Colored { text: s.1, front: s.0 as usize, back: 0 },
    )
}

/// The annotation registered for output line `ln`, the latest registration
/// winning.
pub open spec fn info_lookup(table: Seq<(usize, u32, u32, Seq<char>)>, ln: int) -> Option<
    (u32, u32, Seq<char>),
>
    decreases table.len(),
{
    if table.len() == 0 {
        None
    } else if table.last().0 as int == ln {
        Some((table.last().1, table.last().2, table.last().3))
    } else {
        info_lookup(table.drop_last(), ln)
    }
}

/// The annotation table without every entry for line `ln`, order kept.
pub open spec fn remove_info_key(table: Seq<(usize, u32, u32, Seq<char>)>, ln: int) -> Seq<
    (usize, u32, u32, Seq<char>),
>
    decreases table.len(),
{
    if table.len() == 0 {
        Seq::empty()
    } else if table.last().0 as int == ln {
        remove_info_key(table.drop_last(), ln)
    } else {
        remove_info_key(table.drop_last(), ln).push(table.last())
    }
}

/// What is emitted for line `ln`'s annotation: nothing when none is
/// registered; else the indentation as one plain event, then the annotation
/// text as one colored put.
pub open spec fn ann_events(
    table: Seq<(usize, u32, u32, Seq<char>)>,
    tab_size: usize,
    ln: int,
) -> Seq<EventView> {
    match info_lookup(table, ln) {
        Some(a) => seq![
            EventView::Plain { text: tabs(tab_size as int) },
            EventView::Colored { text: a.2, front: a.0 as usize, back: a.1 as usize },
        ],
        None => Seq::empty(),
    }
}

/// Everything emitted for one non-empty line numbered `ln`: its decoded
/// segments, its annotation if any, then a line terminator.
pub open spec fn line_events(
    table: Seq<(usize, u32, u32, Seq<char>)>,
    tab_size: usize,
    line: Seq<char>,
    ln: int,
) -> Seq<EventView> {
    seg_events(decode_line(line)) + ann_events(table, tab_size, ln) + seq![newline_event()]
}

/// Everything emitted for the lines `i..` of the file.
pub open spec fn body_events(
    table: Seq<(usize, u32, u32, Seq<char>)>,
    tab_size: usize,
    lines: Seq<Seq<char>>,
    i: int,
) -> Seq<EventView>
    decreases lines.len() - i,
    when 0 <= i
{
    if i >= lines.len() {
        Seq::empty()
    } else {
        line_events(table, tab_size, lines[i], i) + body_events(table, tab_size, lines, i + 1)
    }
}

/// Everything emitted after the real lines, for line numbers `from..to`:
/// per number, its annotation if any, then a line terminator.
pub open spec fn tail_events(
    table: Seq<(usize, u32, u32, Seq<char>)>,
    tab_size: usize,
    from: int,
    to: int,
) -> Seq<EventView>
    decreases to - from,
    when from <= to
{
    if from >= to {
        Seq::empty()
    } else {
        ann_events(table, tab_size, from) + seq![newline_event()] + tail_events(
            table,
            tab_size,
            from + 1,
            to,
        )
    }
}

/// The state of an importer, mathematically: the source path, the tab
/// count put before annotations, the annotation table in registration
/// order, and the tracked maximum line count.
pub struct PrinterView {
    pub path: Seq<char>,
    pub tab_size: usize,
    pub extern_info: Seq<(usize, u32, u32, Seq<char>)>,
    pub max_line: usize,
}

impl PrinterView {
    /// Annotation line numbers are unique and all lie below the tracked
    /// maximum line count.
    pub open spec fn wf(self) -> bool {
        &&& forall|i: int, j: int|
            0 <= i < j < self.extern_info.len() ==> self.extern_info[i].0 != self.extern_info[j].0
        &&& forall|i: int|
            0 <= i < self.extern_info.len() ==> (self.extern_info[i].0 as int) < self.max_line
    }
}

/// Everything one `print_color` call emits for the given file content in
/// state `v`: the events of every non-empty line in order, then, up to the
/// tracked maximum line count, one annotation-bearing empty line per
/// remaining registered line number.
pub open spec fn import_events(v: PrinterView, content: Seq<char>) -> Seq<EventView> {
    let lines = lines_of(content);
    let maxl = if v.max_line as int >= lines.len() {
        v.max_line as int
    } else {
        lines.len() as int
    };
    body_events(v.extern_info, v.tab_size, lines, 0) + tail_events(
        v.extern_info,
        v.tab_size,
        lines.len() as int,
        maxl,
    )
}

/// Replays a truecolor ANSI text file onto the display sink, with optional
/// per-line side annotations.
pub struct ColorImgPrinter {
    path: String,
    tab_size: usize,
    extern_info: Vec<(usize, u32, u32, String)>,
    max_line: usize,
}

impl View for ColorImgPrinter {
    type V = PrinterView;

    closed spec fn view(&self) -> PrinterView {
        PrinterView {
            path: self.path@,
            tab_size: self.tab_size,
            extern_info: self.extern_info@.map_values(
                |e: (usize, u32, u32, String)| (e.0, e.1, e.2, e.3@),
            ),
            max_line: self.max_line,
        }
    }
}

/// The views of a list of decoded segments, in order.
pub open spec fn seg_views(segs: Seq<(u32, String)>) -> Seq<(u32, Seq<char>)> {
    segs.map_values(|s: (u32, String)| (s.0, s.1@))
}

/// The (color, text) pairs of the non-empty parts, in order.
pub open spec fn decode_parts(parts: Seq<Seq<char>>) -> Seq<(u32, Seq<char>)> {
    nonempty_only(parts).map_values(|p: Seq<char>| decode_segment(p))
}

/// The plain reset marker, as a string.
fn reset_lit() -> (s: &'static str)
    ensures
        s@ == reset_marker(),
{
    let s = "\u{1b}[0m";
    proof {
        reveal_strlit("\u{1b}[0m");
        assert(s@ =~= reset_marker());
    }
    s
}

/// The segment-separator marker, as a string.
fn seg_lit() -> (s: &'static str)
    ensures
        s@ == seg_marker(),
{
    let s = "\u{1b}[0m\u{1b}[38;2;";
    proof {
        reveal_strlit("\u{1b}[0m\u{1b}[38;2;");
        assert(s@ =~= seg_marker());
    }
    s
}

/// The line terminator, as a string.
fn nl_lit() -> (s: &'static str)
    ensures
        s@ == seq!['\n'],
{
    let s = "\n";
    proof {
        reveal_strlit("\n");
        assert(s@ =~= seq!['\n']);
    }
    s
}

/// Splits `s` at the first occurrence of the one-character pattern `pat`.
fn split_first_exec<'a>(s: &'a str, pat: &'a str) -> (r: (&'a str, &'a str))
    requires
        pat@.len() == 1,
    ensures
        r.0@ == split_first(s@, pat@[0]).0,
        r.1@ == split_first(s@, pat@[0]).1,
{
    let n = s.unicode_len();
    proof {
        assert(pat@ =~= seq![pat@[0]]);
    }
    match find_at(s, pat, 0) {
        Some(p) => {
            proof {
                lemma_find_from(s@, pat@, 0);
            }
            (s.substring_char(0, p), s.substring_char(p + 1, n))
        },
        None => {
            let e = "";
            proof {
                reveal_strlit("");
                assert(e@ =~= Seq::<char>::empty());
            }
            (s, e)
        },
    }
}

/// Decodes one color-coded segment into its packed color and literal text.
fn decode_segment_exec(seg: &str) -> (r: (u32, String))
    ensures
        r.0 == decode_segment(seg@).0,
        r.1@ == decode_segment(seg@).1,
{
    let cleaned = remove_all(seg, reset_lit());
    let semi = ";";
    let em = "m";
    proof {
        reveal_strlit(";");
        reveal_strlit("m");
    }
    let (red_s, rest1) = split_first_exec(cleaned.as_str(), semi);
    let (green_s, rest2) = split_first_exec(rest1, semi);
    let (blue_s, text) = split_first_exec(rest2, em);
    let red = channel(red_s);
    let green = channel(green_s);
    let blue = channel(blue_s);
    let color = red * 0x10000 + green * 0x100 + blue;
    proof {
        assert(semi@[0] == ';');
        assert(em@[0] == 'm');
    }
    (color, text.to_owned())
}

/// Decodes one line into its (color, text) pairs, skipping empty segments.
#[verifier::loop_isolation(false)]
fn decode_line_exec(line: &str) -> (segs: Vec<(u32, String)>)
    ensures
        seg_views(segs@) == decode_line(line@),
{
    let parts = split_on(line, seg_lit());
    let ghost pseq = str_views(parts@);
    let mut segs: Vec<(u32, String)> = Vec::new();
    let mut i: usize = 0;
    while i < parts.len()
        invariant
            i <= parts.len(),
            seg_views(segs@) == decode_parts(pseq.take(i as int)),
        decreases parts.len() - i,
    {
        let ghost pre = seg_views(segs@);
        proof {
            assert(pseq.take(i + 1).drop_last() =~= pseq.take(i as int));
            assert(pseq.take(i + 1).last() == pseq[i as int]);
            assert(pseq[i as int] == parts@[i as int]@);
        }
        if parts[i].unicode_len() > 0 {
            let d = decode_segment_exec(parts[i].as_str());
            let ghost dv = (d.0, d.1@);
            segs.push(d);
            proof {
                assert(nonempty_only(pseq.take(i + 1)) =~= nonempty_only(
                    pseq.take(i as int),
                ).push(pseq[i as int]));
                assert(decode_parts(pseq.take(i + 1)) =~= decode_parts(pseq.take(i as int)).push(
                    decode_segment(pseq[i as int]),
                ));
                assert(seg_views(segs@) =~= pre.push(dv));
            }
        } else {
            proof {
                assert(nonempty_only(pseq.take(i + 1)) == nonempty_only(pseq.take(i as int)));
            }
        }
        i += 1;
    }
    proof {
        assert(pseq.take(parts@.len() as int) =~= pseq);
    }
    segs
}

/// After all line numbers in `from..to`, appending one more number emits its
/// annotation and a line terminator at the end.
proof fn lemma_tail_snoc(
    table: Seq<(usize, u32, u32, Seq<char>)>,
    tab_size: usize,
    from: int,
    to: int,
)
    requires
        from <= to,
    ensures
        tail_events(table, tab_size, from, to + 1) == tail_events(table, tab_size, from, to)
            + ann_events(table, tab_size, to) + seq![newline_event()],
    decreases to - from,
{
    if from == to {
        assert(tail_events(table, tab_size, from + 1, to + 1) =~= Seq::<EventView>::empty());
        assert(tail_events(table, tab_size, from, to) =~= Seq::<EventView>::empty());
        assert(tail_events(table, tab_size, from, to + 1) =~= tail_events(
            table,
            tab_size,
            from,
            to,
        ) + ann_events(table, tab_size, to) + seq![newline_event()]);
    } else {
        lemma_tail_snoc(table, tab_size, from + 1, to);
        assert(tail_events(table, tab_size, from, to + 1) =~= tail_events(
            table,
            tab_size,
            from,
            to,
        ) + ann_events(table, tab_size, to) + seq![newline_event()]);
    }
}

/// With unique line numbers, any entry present decides the annotation
/// lookup, and an absent line number looks up to `None`.
proof fn lemma_info_lookup_unique(table: Seq<(usize, u32, u32, Seq<char>)>, ln: int)
    requires
        forall|i: int, j: int| 0 <= i < j < table.len() ==> table[i].0 != table[j].0,
    ensures
        (forall|j: int| 0 <= j < table.len() ==> table[j].0 as int != ln) ==> info_lookup(
            table,
            ln,
        ) is None,
        forall|j: int|
            0 <= j < table.len() && table[j].0 as int == ln ==> info_lookup(table, ln) == Some(
                (table[j].1, table[j].2, table[j].3),
            ),
    decreases table.len(),
{
    if table.len() > 0 {
        if table.last().0 as int == ln {
            assert forall|j: int|
                0 <= j < table.len() && table[j].0 as int == ln implies info_lookup(table, ln)
                == Some((table[j].1, table[j].2, table[j].3)) by {
                if j < table.len() - 1 {
                    assert(table[j].0 != table[table.len() - 1].0);
                }
            }
        } else {
            lemma_info_lookup_unique(table.drop_last(), ln);
            assert forall|j: int|
                0 <= j < table.len() && table[j].0 as int == ln implies info_lookup(table, ln)
                == Some((table[j].1, table[j].2, table[j].3)) by {
                assert(table.drop_last()[j] == table[j]);
            }
        }
    }
}

impl ColorImgPrinter {
    /// An importer for the truecolor ANSI text file at `path`, with the
    /// given annotation indentation width, no annotations, and a zero
    /// tracked line count.
    pub fn new(path: &str, tab_size: usize) -> (r: ColorImgPrinter)
        ensures
            r@.wf(),
            r@.path == path@,
            r@.tab_size == tab_size,
            r@.extern_info.len() == 0,
            r@.max_line == 0,
    {
        let r = ColorImgPrinter {
            path: path.to_owned(),
            tab_size,
            extern_info: Vec::new(),
            max_line: 0,
        };
        proof {
            assert(r@.extern_info =~= Seq::<(usize, u32, u32, Seq<char>)>::empty());
        }
        r
    }

    /// The configured annotation indentation width, in tabs.
    pub fn tab_size(&self) -> (r: usize)
        ensures
            r == self@.tab_size,
    {
        self.tab_size
    }

    /// Replaces the annotation indentation width.
    pub fn set_tab_size(&mut self, size: usize)
        ensures
            final(self)@.tab_size == size,
            final(self)@.path == old(self)@.path,
            final(self)@.extern_info == old(self)@.extern_info,
            final(self)@.max_line == old(self)@.max_line,
    {
        self.tab_size = size;
    }

    /// The path of the source file this importer replays.
    pub fn path(&self) -> (r: &str)
        ensures
            r@ == self@.path,
    {
        self.path.as_str()
    }

    /// Registers the annotation shown beside output line `line_num`; a later
    /// registration for the same line number overwrites the earlier one. The
    /// tracked maximum line count grows to cover the annotated line.
    #[verifier::loop_isolation(false)]
    pub fn registe_info(&mut self, line_num: usize, front: u32, back: u32, info: String)
        requires
            old(self)@.wf(),
            line_num < usize::MAX,
        ensures
            final(self)@.wf(),
            info_lookup(final(self)@.extern_info, line_num as int) == Some((front, back, info@)),
            forall|l: int|
                l != line_num as int ==> info_lookup(final(self)@.extern_info, l) == info_lookup(
                    old(self)@.extern_info,
                    l,
                ),
            final(self)@.path == old(self)@.path,
            final(self)@.tab_size == old(self)@.tab_size,
            final(self)@.max_line as int == (if old(self)@.max_line as int >= line_num + 1 {
                old(self)@.max_line as int
            } else {
                line_num + 1
            }),
    {
        let ghost table0 = self@.extern_info;
        self.remove_info_entry(line_num);
        let ghost table1 = self@.extern_info;
        self.extern_info.push((line_num, front, back, info));
        if self.max_line < line_num + 1 {
            self.max_line = line_num + 1;
        }
        proof {
            assert(self@.extern_info =~= table1.push(
                (line_num, front, back, self@.extern_info.last().3),
            ));
            assert(self@.extern_info.last().0 == line_num);
            assert(self@.extern_info.drop_last() =~= table1);
            lemma_info_lookup_unique(table1, line_num as int);
            assert forall|l: int|
                l != line_num as int implies info_lookup(self@.extern_info, l) == info_lookup(
                table0,
                l,
            ) by {
                assert(info_lookup(self@.extern_info, l) == info_lookup(table1, l));
            }
        }
    }

    /// Removes any annotation entry with line number `ln`; the view of the
    /// table becomes `remove_info_key` of the old one.
    #[verifier::loop_isolation(false)]
    fn remove_info_entry(&mut self, ln: usize)
        requires
            old(self)@.wf(),
        ensures
            final(self)@.wf(),
            final(self)@.extern_info == remove_info_key(old(self)@.extern_info, ln as int),
            forall|j: int|
                0 <= j < final(self)@.extern_info.len() ==> final(self)@.extern_info[j].0 != ln,
            forall|l: int|
                l != ln as int ==> info_lookup(final(self)@.extern_info, l) == info_lookup(
                    old(self)@.extern_info,
                    l,
                ),
            final(self)@.path == old(self)@.path,
            final(self)@.tab_size == old(self)@.tab_size,
            final(self)@.max_line == old(self)@.max_line,
    {
        let ghost table0 = self@.extern_info;
        let n = self.extern_info.len();
        let mut i: usize = 0;
        while i < n
            invariant
                n == self.extern_info.len(),
                i <= n,
                forall|j: int| 0 <= j < i ==> self@.extern_info[j].0 != ln,
                self@ == old(self)@,
            decreases n - i,
        {
            if self.extern_info[i].0 == ln {
                self.extern_info.remove(i);
                proof {
                    assert(self@.extern_info =~= table0.remove(i as int));
                    lemma_remove_info_key(table0, ln as int, i as int);
                    table0.remove_ensures(i as int);
                    assert forall|i1: int, j1: int|
                        0 <= i1 < j1 < self@.extern_info.len() implies self@.extern_info[i1].0
                        != self@.extern_info[j1].0 by {
                        table0.remove_ensures(i as int);
                        if j1 < i {
                            assert(self@.extern_info[i1] == table0[i1]);
                            assert(self@.extern_info[j1] == table0[j1]);
                        } else if i1 < i {
                            assert(self@.extern_info[i1] == table0[i1]);
                            assert(self@.extern_info[j1] == table0[j1 + 1]);
                        } else {
                            assert(self@.extern_info[i1] == table0[i1 + 1]);
                            assert(self@.extern_info[j1] == table0[j1 + 1]);
                        }
                    }
                    assert forall|j: int|
                        0 <= j < self@.extern_info.len() implies self@.extern_info[j].0 != ln by {
                        table0.remove_ensures(i as int);
                        if j < i {
                            assert(self@.extern_info[j] == table0[j]);
                        } else {
                            assert(self@.extern_info[j] == table0[j + 1]);
                            assert(table0[i as int].0 != table0[j + 1].0);
                        }
                    }
                    assert forall|j: int|
                        0 <= j < self@.extern_info.len() implies (self@.extern_info[j].0 as int)
                        < self@.max_line by {
                        table0.remove_ensures(i as int);
                        if j < i {
                            assert(self@.extern_info[j] == table0[j]);
                        } else {
                            assert(self@.extern_info[j] == table0[j + 1]);
                        }
                    }
                    assert forall|l: int|
                        l != ln as int implies info_lookup(self@.extern_info, l) == info_lookup(
                        table0,
                        l,
                    ) by {
                        lemma_info_lookup_unique(table0, l);
                        lemma_info_lookup_unique(self@.extern_info, l);
                        if exists|j: int| 0 <= j < table0.len() && table0[j].0 as int == l {
                            let j = choose|j: int|
                                0 <= j < table0.len() && table0[j].0 as int == l;
                            table0.remove_ensures(i as int);
                            if j < i {
                                assert(self@.extern_info[j] == table0[j]);
                            } else {
                                assert(j > i);
                                assert(self@.extern_info[j - 1] == table0[j]);
                            }
                        } else {
                            assert forall|j: int|
                                0 <= j < self@.extern_info.len() implies self@.extern_info[j].0
                                    as int != l by {
                                table0.remove_ensures(i as int);
                                if j < i {
                                    assert(self@.extern_info[j] == table0[j]);
                                } else {
                                    assert(self@.extern_info[j] == table0[j + 1]);
                                }
                            }
                        }
                    }
                }
                return ;
            }
            i += 1;
        }
        proof {
            lemma_remove_info_key_absent(table0, ln as int);
        }
    }

    /// The annotation registered for output line `ln`, if any.
    #[verifier::loop_isolation(false)]
    fn lookup_info(&self, ln: usize) -> (r: Option<(u32, u32, String)>)
        ensures
            match r {
                Some(a) => info_lookup(self@.extern_info, ln as int) == Some((a.0, a.1, a.2@)),
                None => info_lookup(self@.extern_info, ln as int) is None,
            },
    {
        let ghost table = self@.extern_info;
        let mut i: usize = self.extern_info.len();
        proof {
            assert(table.take(i as int) =~= table);
        }
        while i > 0
            invariant
                i <= table.len(),
                info_lookup(table, ln as int) == info_lookup(table.take(i as int), ln as int),
            decreases i,
        {
            i -= 1;
            proof {
                assert(table.take(i + 1).last() == table[i as int]);
                assert(table.take(i + 1).drop_last() =~= table.take(i as int));
            }
            if self.extern_info[i].0 == ln {
                let e = &self.extern_info[i];
                return Some((e.1, e.2, e.3.clone()));
            }
        }
        None
    }

    /// Appends line `ln`'s annotation events, if an annotation is
    /// registered: the tab indentation as one plain event, then the
    /// annotation text as one colored put.
    #[verifier::loop_isolation(false)]
    fn emit_annotation(&self, events: &mut Vec<OutEvent>, ln: usize)
        ensures
            event_views(final(events)@) == event_views(old(events)@) + ann_events(
                self@.extern_info,
                self@.tab_size,
                ln as int,
            ),
    {
        let ghost base = event_views(events@);
        match self.lookup_info(ln) {
            Some(a) => {
                let mut t = String::new();
                let tab = "\t";
                proof {
                    reveal_strlit("\t");
                    assert(tab@ =~= seq!['\t']);
                    assert(t@ =~= tabs(0));
                }
                let mut k: usize = 0;
                while k < self.tab_size
                    invariant
                        k <= self.tab_size,
                        t@ == tabs(k as int),
                    decreases self.tab_size - k,
                {
                    t.append(tab);
                    proof {
                        assert(t@ =~= tabs(k + 1));
                    }
                    k += 1;
                }
                events.push(OutEvent::Plain { text: t });
                events.push(
                    OutEvent::Colored { text: a.2, front: a.0 as usize, back: a.1 as usize },
                );
                proof {
                    assert(event_views(events@) =~= base + ann_events(
                        self@.extern_info,
                        self@.tab_size,
                        ln as int,
                    ));
                }
            },
            None => {
                proof {
                    assert(base + ann_events(self@.extern_info, self@.tab_size, ln as int)
                        =~= base);
                }
            },
        }
    }

    /// Replays the given file content onto the sink: decodes every
    /// non-empty line into colored runs, interleaves registered line
    /// annotations, terminates each line, and, past the real lines, emits
    /// one annotation-bearing empty line per remaining registered line
    /// number up to the tracked maximum line count, which first grows to
    /// the number of non-empty lines read.
    #[verifier::loop_isolation(false)]
    pub fn print_color(&mut self, content: &str) -> (events: Vec<OutEvent>)
        requires
            old(self)@.wf(),
        ensures
            final(self)@.wf(),
            final(self)@.path == old(self)@.path,
            final(self)@.tab_size == old(self)@.tab_size,
            final(self)@.extern_info == old(self)@.extern_info,
            final(self)@.max_line as int == (if old(self)@.max_line as int >= lines_of(
                content@,
            ).len() {
                old(self)@.max_line as int
            } else {
                lines_of(content@).len() as int
            }),
            event_views(events@) == import_events(old(self)@, content@),
    {
        let ghost table = self@.extern_info;
        let ghost tabn = self@.tab_size;
        let ghost lns = lines_of(content@);
        let parts = split_on(content, nl_lit());
        let ghost pseq = str_views(parts@);
        let mut lines: Vec<String> = Vec::new();
        let mut i: usize = 0;
        while i < parts.len()
            invariant
                i <= parts.len(),
                str_views(lines@) == nonempty_only(pseq.take(i as int)),
            decreases parts.len() - i,
        {
            let ghost pre = str_views(lines@);
            proof {
                assert(pseq.take(i + 1).drop_last() =~= pseq.take(i as int));
                assert(pseq.take(i + 1).last() == pseq[i as int]);
                assert(pseq[i as int] == parts@[i as int]@);
            }
            if parts[i].unicode_len() > 0 {
                lines.push(parts[i].clone());
                proof {
                    assert(str_views(lines@) =~= pre.push(pseq[i as int]));
                }
            }
            i += 1;
        }
        proof {
            assert(pseq.take(parts@.len() as int) =~= pseq);
            assert(str_views(lines@) == lns);
        }
        let lcount = lines.len();
        if lcount > self.max_line {
            self.max_line = lcount;
        }
        let ghost maxl: int = if old(self)@.max_line as int >= lns.len() {
            old(self)@.max_line as int
        } else {
            lns.len() as int
        };
        proof {
            assert(lns.len() == lcount);
            assert(self.max_line as int == maxl);
            assert(self@.extern_info == table);
            assert(self@.tab_size == tabn);
        }
        let mut events: Vec<OutEvent> = Vec::new();
        proof {
            assert(event_views(events@) + body_events(table, tabn, lns, 0) =~= body_events(
                table,
                tabn,
                lns,
                0,
            ));
        }
        let mut ln: usize = 0;
        while ln < lcount
            invariant
                ln <= lcount,
                self@.extern_info == table,
                self@.tab_size == tabn,
                event_views(events@) + body_events(table, tabn, lns, ln as int) == body_events(
                    table,
                    tabn,
                    lns,
                    0,
                ),
            decreases lcount - ln,
        {
            let ghost base0 = event_views(events@);
            let segs = decode_line_exec(lines[ln].as_str());
            let ghost dsegs = decode_line(lns[ln as int]);
            proof {
                assert(lines@[ln as int]@ == lns[ln as int]);
                assert(seg_views(segs@) == dsegs);
                assert(seg_events(dsegs).len() == segs@.len());
                assert(seg_events(dsegs).take(0) =~= Seq::<EventView>::empty());
                assert(base0 + seg_events(dsegs).take(0) =~= base0);
            }
            let mut si: usize = 0;
            while si < segs.len()
                invariant
                    si <= segs.len(),
                    event_views(events@) == base0 + seg_events(dsegs).take(si as int),
                decreases segs.len() - si,
            {
                let ghost pre = event_views(events@);
                let e = &segs[si];
                events.push(OutEvent::Colored { text: e.1.clone(), front: e.0 as usize, back: 0 });
                proof {
                    assert(seg_views(segs@)[si as int] == (segs@[si as int].0, segs@[
                        si as int
                    ].1@));
                    assert(event_views(events@) =~= pre.push(seg_events(dsegs)[si as int]));
                    assert(seg_events(dsegs).take(si + 1) =~= seg_events(dsegs).take(
                        si as int,
                    ).push(seg_events(dsegs)[si as int]));
                    assert(base0 + seg_events(dsegs).take(si + 1) =~= (base0 + seg_events(
                        dsegs,
                    ).take(si as int)).push(seg_events(dsegs)[si as int]));
                }
                si += 1;
            }
            proof {
                assert(seg_events(dsegs).take(segs@.len() as int) =~= seg_events(dsegs));
            }
            proof {
                assert(event_views(events@) == base0 + seg_events(dsegs));
            }
            self.emit_annotation(&mut events, ln);
            proof {
                assert(event_views(events@) == (base0 + seg_events(dsegs)) + ann_events(
                    table,
                    tabn,
                    ln as int,
                ));
            }
            let ghost mid = event_views(events@);
            events.push(OutEvent::Plain { text: nl_lit().to_owned() });
            proof {
                assert(event_views(events@) =~= mid.push(newline_event()));
                assert(event_views(events@) =~= base0 + (seg_events(dsegs) + ann_events(
                    table,
                    tabn,
                    ln as int,
                ) + seq![newline_event()]));
                assert(line_events(table, tabn, lns[ln as int], ln as int) == seg_events(dsegs)
                    + ann_events(table, tabn, ln as int) + seq![newline_event()]);
                assert(body_events(table, tabn, lns, ln as int) == line_events(
                    table,
                    tabn,
                    lns[ln as int],
                    ln as int,
                ) + body_events(table, tabn, lns, ln + 1));
                assert(event_views(events@) + body_events(table, tabn, lns, ln + 1) =~= base0
                    + body_events(table, tabn, lns, ln as int));
            }
            ln += 1;
        }
        proof {
            assert(body_events(table, tabn, lns, lcount as int) =~= Seq::<EventView>::empty());
            assert(event_views(events@) + Seq::<EventView>::empty() =~= event_views(events@));
            assert(event_views(events@) == body_events(table, tabn, lns, 0));
            assert(tail_events(table, tabn, lcount as int, lcount as int) =~= Seq::<
                EventView,
            >::empty());
            assert(event_views(events@) + tail_events(table, tabn, lcount as int, lcount as int)
                =~= event_views(events@));
        }
        let mut l2: usize = lcount;
        while l2 < self.max_line
            invariant
                lcount <= l2 <= self.max_line,
                self.max_line as int == maxl,
                self@.extern_info == table,
                self@.tab_size == tabn,
                event_views(events@) == body_events(table, tabn, lns, 0) + tail_events(
                    table,
                    tabn,
                    lcount as int,
                    l2 as int,
                ),
            decreases self.max_line - l2,
        {
            let ghost pre = event_views(events@);
            self.emit_annotation(&mut events, l2);
            events.push(OutEvent::Plain { text: nl_lit().to_owned() });
            proof {
                lemma_tail_snoc(table, tabn, lcount as int, l2 as int);
                assert(event_views(events@) =~= pre + ann_events(table, tabn, l2 as int) + seq![
                    newline_event(),
                ]);
                assert(event_views(events@) =~= body_events(table, tabn, lns, 0) + tail_events(
                    table,
                    tabn,
                    lcount as int,
                    l2 + 1,
                ));
            }
            l2 += 1;
        }
        proof {
            assert(import_events(old(self)@, content@) == body_events(table, tabn, lns, 0)
                + tail_events(table, tabn, lcount as int, maxl));
        }
        events
    }
}

/// `n` empty output lines: one line-terminator event per line.
pub open spec fn newlines(n: int) -> Seq<EventView> {
    Seq::new(
        if n >= 0 {
            n as nat
        } else {
            0
        },
        |i: int| newline_event(),
    )
}

proof fn lemma_tail_no_ann(
    table: Seq<(usize, u32, u32, Seq<char>)>,
    tab_size: usize,
    from: int,
    to: int,
)
    requires
        from <= to,
        forall|l: int| from <= l < to ==> info_lookup(table, l) is None,
    ensures
        tail_events(table, tab_size, from, to) == newlines(to - from),
    decreases to - from,
{
    if from == to {
        assert(tail_events(table, tab_size, from, to) =~= newlines(0));
    } else {
        lemma_tail_no_ann(table, tab_size, from + 1, to);
        assert(info_lookup(table, from) is None);
        assert(ann_events(table, tab_size, from) =~= Seq::<EventView>::empty());
        assert(tail_events(table, tab_size, from, to) =~= newlines(to - from));
    }
}

proof fn lemma_tail_split(
    table: Seq<(usize, u32, u32, Seq<char>)>,
    tab_size: usize,
    a: int,
    b: int,
    c: int,
)
    requires
        a <= b <= c,
    ensures
        tail_events(table, tab_size, a, c) == tail_events(table, tab_size, a, b) + tail_events(
            table,
            tab_size,
            b,
            c,
        ),
    decreases b - a,
{
    if a == b {
        assert(tail_events(table, tab_size, a, b) =~= Seq::<EventView>::empty());
        assert(tail_events(table, tab_size, a, b) + tail_events(table, tab_size, b, c)
            =~= tail_events(table, tab_size, a, c));
    } else {
        lemma_tail_split(table, tab_size, a + 1, b, c);
        assert(tail_events(table, tab_size, a, c) =~= tail_events(table, tab_size, a, b)
            + tail_events(table, tab_size, b, c));
    }
}

/// An annotation registered for a line at or beyond the number of real
/// lines is still emitted, exactly once, after all real lines, on an empty
/// line carrying only that annotation: with a single registered annotation
/// at line `ln`, the call emits the real lines' events, then one empty line
/// per line number before `ln`, then the indented annotation on its own
/// terminated line, then one empty line per remaining tracked line number.
pub proof fn lemma_annotation_beyond_lines(v: PrinterView, content: Seq<char>)
    requires
        v.wf(),
        v.extern_info.len() == 1,
        v.extern_info[0].0 as int >= lines_of(content).len(),
    ensures
        import_events(v, content) == body_events(v.extern_info, v.tab_size, lines_of(content), 0)
            + newlines(v.extern_info[0].0 as int - lines_of(content).len()) + seq![
            EventView::Plain { text: tabs(v.tab_size as int) },
            EventView::Colored {
                text: v.extern_info[0].3,
                front: v.extern_info[0].1 as usize,
                back: v.extern_info[0].2 as usize,
            },
            newline_event(),
        ] + newlines(v.max_line as int - (v.extern_info[0].0 as int + 1)),
{
    let table = v.extern_info;
    let tab = v.tab_size;
    let e = table[0];
    let ln = e.0 as int;
    let lns = lines_of(content);
    let bl = lns.len() as int;
    assert(ln < v.max_line as int);
    let maxl = v.max_line as int;
    assert(table.last() == e);
    assert(table.drop_last() =~= Seq::<(usize, u32, u32, Seq<char>)>::empty());
    assert(info_lookup(table, ln) == Some((e.1, e.2, e.3)));
    assert forall|l: int| l != ln implies info_lookup(table, l) is None by {
        assert(table.last().0 as int != l);
        assert(info_lookup(table.drop_last(), l) is None);
    }
    lemma_tail_split(table, tab, bl, ln, maxl);
    lemma_tail_no_ann(table, tab, bl, ln);
    lemma_tail_no_ann(table, tab, ln + 1, maxl);
    assert(tail_events(table, tab, ln, maxl) == ann_events(table, tab, ln) + seq![
        newline_event(),
    ] + tail_events(table, tab, ln + 1, maxl));
    assert(ann_events(table, tab, ln) == seq![
        EventView::Plain { text: tabs(tab as int) },
        EventView::Colored { text: e.3, front: e.1 as usize, back: e.2 as usize },
    ]);
    assert(import_events(v, content) == body_events(table, tab, lns, 0) + tail_events(
        table,
        tab,
        bl,
        maxl,
    ));
    assert(import_events(v, content) =~= body_events(table, tab, lns, 0) + newlines(ln - bl)
        + seq![
        EventView::Plain { text: tabs(tab as int) },
        EventView::Colored { text: e.3, front: e.1 as usize, back: e.2 as usize },
        newline_event(),
    ] + newlines(maxl - (ln + 1)));
}

/// Removing line `ln` keeps every other entry, in order, and drops `ln`.
proof fn lemma_remove_info_key(table: Seq<(usize, u32, u32, Seq<char>)>, ln: int, i: int)
    requires
        forall|i1: int, j1: int| 0 <= i1 < j1 < table.len() ==> table[i1].0 != table[j1].0,
        0 <= i < table.len(),
        table[i].0 as int == ln,
    ensures
        remove_info_key(table, ln) == table.remove(i),
    decreases table.len(),
{
    if i == table.len() - 1 {
        lemma_remove_info_key_absent(table.drop_last(), ln);
        assert(table.remove(i) =~= table.drop_last());
    } else {
        assert(table[i].0 != table[table.len() - 1].0);
        lemma_remove_info_key(table.drop_last(), ln, i);
        assert(table.drop_last().remove(i).push(table.last()) =~= table.remove(i));
    }
}

/// Removing a line number that no entry has leaves the table unchanged.
proof fn lemma_remove_info_key_absent(table: Seq<(usize, u32, u32, Seq<char>)>, ln: int)
    requires
        forall|j: int| 0 <= j < table.len() ==> table[j].0 as int != ln,
    ensures
        remove_info_key(table, ln) == table,
    decreases table.len(),
{
    if table.len() > 0 {
        lemma_remove_info_key_absent(table.drop_last(), ln);
        assert(table.drop_last().push(table.last()) =~= table);
    }
}

} // verus!

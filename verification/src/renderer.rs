//! The rule-based renderer: character rules and substring rules map text to
//! per-character colors, and rendering partitions the text into maximal
//! contiguous same-color runs, the unit handed to the display sink.
//!
//! Substring rules take priority over character rules at every covered
//! position. Among substring rules, the most recently registered rule wins
//! where two rules cover the same position: rules are kept in registration
//! order and applied in that order, later assignments overwriting earlier
//! ones, which makes rendering deterministic.

use vstd::prelude::*;
use vstd::string::*;

use crate::color::ColorPair;
use crate::color::EventView;
use crate::color::OutEvent;
use crate::color::event_views;
use crate::text::occurs_at;
use crate::text::find_from;
use crate::text::lemma_find_from;
use crate::text::match_at;
use crate::text::find_at;
use crate::text::str_eq;

verus! {

/// Registering a rule that breaks a rule-table constraint: the only such
/// constraint is a substring rule whose word is empty.
#[derive(Clone, Copy, Debug, PartialEq, Eq, Structural)]
pub enum RuleError {
    InvalidRule,
}

/// The mathematical state of a [`Renderer`]: the character rules, the
/// substring rules in registration order, and the default color.
pub struct RendererView {
    pub char_rules: Seq<(char, ColorPair)>,
    pub string_rules: Seq<(Seq<char>, ColorPair)>,
    pub default_color: ColorPair,
}

/// Every key occurs at most once in the character-rule table.
pub open spec fn unique_char_keys(rules: Seq<(char, ColorPair)>) -> bool {
    forall|i: int, j: int| 0 <= i < j < rules.len() ==> rules[i].0 != rules[j].0
}

/// Every word occurs at most once in the substring-rule table, and every
/// word is non-empty.
pub open spec fn wf_string_rules(rules: Seq<(Seq<char>, ColorPair)>) -> bool {
    &&& forall|i: int, j: int| 0 <= i < j < rules.len() ==> rules[i].0 != rules[j].0
    &&& forall|i: int| 0 <= i < rules.len() ==> rules[i].0.len() >= 1
}

impl RendererView {
    /// Rule-table validity: keys are unique in both tables and every
    /// registered word is non-empty.
    pub open spec fn wf(self) -> bool {
        unique_char_keys(self.char_rules) && wf_string_rules(self.string_rules)
    }
}

/// The color the character rules give to `c`, the latest entry winning.
pub open spec fn char_lookup(rules: Seq<(char, ColorPair)>, c: char) -> Option<ColorPair>
    decreases rules.len(),
{
    if rules.len() == 0 {
        None
    } else if rules.last().0 == c {
        Some(rules.last().1)
    } else {
        char_lookup(rules.drop_last(), c)
    }
}

/// The character rules without every entry for key `c`, order kept.
pub open spec fn remove_char_key(rules: Seq<(char, ColorPair)>, c: char) -> Seq<(char, ColorPair)>
    decreases rules.len(),
{
    if rules.len() == 0 {
        Seq::empty()
    } else if rules.last().0 == c {
        remove_char_key(rules.drop_last(), c)
    } else {
        remove_char_key(rules.drop_last(), c).push(rules.last())
    }
}

/// The substring rules without every entry for word `w`, order kept.
pub open spec fn remove_word_key(rules: Seq<(Seq<char>, ColorPair)>, w: Seq<char>) -> Seq<
    (Seq<char>, ColorPair),
>
    decreases rules.len(),
{
    if rules.len() == 0 {
        Seq::empty()
    } else if rules.last().0 == w {
        remove_word_key(rules.drop_last(), w)
    } else {
        remove_word_key(rules.drop_last(), w).push(rules.last())
    }
}

/// Position `i` of `text` lies inside some occurrence of `word`.
pub open spec fn covers(text: Seq<char>, word: Seq<char>, i: int) -> bool {
    exists|p: int| occurs_at(text, word, p) && p <= i < p + word.len()
}

/// The color the substring rules give to position `i` of `text`: the latest
/// rule covering `i` wins.
pub open spec fn string_lookup(
    rules: Seq<(Seq<char>, ColorPair)>,
    text: Seq<char>,
    i: int,
) -> Option<ColorPair>
    decreases rules.len(),
{
    if rules.len() == 0 {
        None
    } else if covers(text, rules.last().0, i) {
        Some(rules.last().1)
    } else {
        string_lookup(rules.drop_last(), text, i)
    }
}

/// The resolved color of position `i` of `text`: substring rules first, then
/// character rules, then the default color.
pub open spec fn color_at(v: RendererView, text: Seq<char>, i: int) -> ColorPair {
    match string_lookup(v.string_rules, text, i) {
        Some(c) => c,
        None => match char_lookup(v.char_rules, text[i]) {
            Some(c) => c,
            None => v.default_color,
        },
    }
}

/// Renders text to a character-cell display through declarative color rules.
pub struct Renderer {
    char_rules: Vec<(char, ColorPair)>,
    string_rules: Vec<(String, ColorPair)>,
    default_color: ColorPair,
}

impl View for Renderer {
    type V = RendererView;

    closed spec fn view(&self) -> RendererView {
        RendererView {
            char_rules: self.char_rules@,
            string_rules: self.string_rules@.map_values(|p: (String, ColorPair)| (p.0@, p.1)),
            default_color: self.default_color,
        }
    }
}

/// With unique keys, any entry present decides the lookup, and an absent key
/// looks up to `None`.
proof fn lemma_char_lookup_unique(rules: Seq<(char, ColorPair)>, c: char)
    requires
        forall|i: int, j: int| 0 <= i < j < rules.len() ==> rules[i].0 != rules[j].0,
    ensures
        (forall|j: int| 0 <= j < rules.len() ==> rules[j].0 != c) ==> char_lookup(rules, c)
            is None,
        forall|j: int|
            0 <= j < rules.len() && rules[j].0 == c ==> char_lookup(rules, c) == Some(rules[j].1),
    decreases rules.len(),
{
    if rules.len() > 0 {
        if rules.last().0 == c {
            assert forall|j: int|
                0 <= j < rules.len() && rules[j].0 == c implies char_lookup(rules, c) == Some(
                rules[j].1,
            ) by {
                if j < rules.len() - 1 {
                    assert(rules[j].0 != rules[rules.len() - 1].0);
                }
            }
        } else {
            lemma_char_lookup_unique(rules.drop_last(), c);
            assert forall|j: int|
                0 <= j < rules.len() && rules[j].0 == c implies char_lookup(rules, c) == Some(
                rules[j].1,
            ) by {
                assert(rules.drop_last()[j] == rules[j]);
            }
        }
    }
}

/// Removing key `c` keeps every other entry, in order, and drops `c`.
proof fn lemma_remove_char_key(rules: Seq<(char, ColorPair)>, c: char, i: int)
    requires
        forall|i1: int, j1: int| 0 <= i1 < j1 < rules.len() ==> rules[i1].0 != rules[j1].0,
        0 <= i < rules.len(),
        rules[i].0 == c,
    ensures
        remove_char_key(rules, c) == rules.remove(i),
    decreases rules.len(),
{
    if i == rules.len() - 1 {
        lemma_remove_char_key_absent(rules.drop_last(), c);
        assert(rules.remove(i) =~= rules.drop_last());
    } else {
        assert(rules[i].0 != rules[rules.len() - 1].0);
        lemma_remove_char_key(rules.drop_last(), c, i);
        assert(rules.drop_last().remove(i).push(rules.last()) =~= rules.remove(i));
    }
}

/// Removing a key that no entry has leaves the rules unchanged.
proof fn lemma_remove_char_key_absent(rules: Seq<(char, ColorPair)>, c: char)
    requires
        forall|j: int| 0 <= j < rules.len() ==> rules[j].0 != c,
    ensures
        remove_char_key(rules, c) == rules,
    decreases rules.len(),
{
    if rules.len() > 0 {
        lemma_remove_char_key_absent(rules.drop_last(), c);
        assert(rules.drop_last().push(rules.last()) =~= rules);
    }
}

/// Removing word `w` keeps every other entry, in order, and drops `w`.
proof fn lemma_remove_word_key(rules: Seq<(Seq<char>, ColorPair)>, w: Seq<char>, i: int)
    requires
        forall|i1: int, j1: int| 0 <= i1 < j1 < rules.len() ==> rules[i1].0 != rules[j1].0,
        0 <= i < rules.len(),
        rules[i].0 == w,
    ensures
        remove_word_key(rules, w) == rules.remove(i),
    decreases rules.len(),
{
    if i == rules.len() - 1 {
        lemma_remove_word_key_absent(rules.drop_last(), w);
        assert(rules.remove(i) =~= rules.drop_last());
    } else {
        assert(rules[i].0 != rules[rules.len() - 1].0);
        lemma_remove_word_key(rules.drop_last(), w, i);
        assert(rules.drop_last().remove(i).push(rules.last()) =~= rules.remove(i));
    }
}

/// Removing a word that no entry has leaves the rules unchanged.
proof fn lemma_remove_word_key_absent(rules: Seq<(Seq<char>, ColorPair)>, w: Seq<char>)
    requires
        forall|j: int| 0 <= j < rules.len() ==> rules[j].0 != w,
    ensures
        remove_word_key(rules, w) == rules,
    decreases rules.len(),
{
    if rules.len() > 0 {
        lemma_remove_word_key_absent(rules.drop_last(), w);
        assert(rules.drop_last().push(rules.last()) =~= rules);
    }
}

impl Renderer {
    /// A renderer with no rules and the factory default colors: white
    /// foreground on black background.
    pub fn new() -> (r: Renderer)
        ensures
            r@.wf(),
            r@.char_rules.len() == 0,
            r@.string_rules.len() == 0,
            r@.default_color == (ColorPair { front: 0xffffff, back: 0 }),
    {
        let r = Renderer {
            char_rules: Vec::new(),
            string_rules: Vec::new(),
            default_color: ColorPair { front: 0xffffff, back: 0 },
        };
        proof {
            assert(r@.string_rules =~= Seq::<(Seq<char>, ColorPair)>::empty());
        }
        r
    }

    /// Replaces the default color pair; rules are untouched.
    pub fn set_default(&mut self, front_color: usize, back_color: usize)
        ensures
            final(self)@.default_color == (ColorPair { front: front_color, back: back_color }),
            final(self)@.char_rules == old(self)@.char_rules,
            final(self)@.string_rules == old(self)@.string_rules,
    {
        self.default_color = ColorPair { front: front_color, back: back_color };
    }

    /// Registers a character rule; a later registration for the same
    /// character overwrites the earlier one.
    pub fn register_char(&mut self, ch: char, front_color: usize, back_color: usize)
        requires
            old(self)@.wf(),
        ensures
            final(self)@.wf(),
            char_lookup(final(self)@.char_rules, ch) == Some(
                ColorPair { front: front_color, back: back_color },
            ),
            forall|d: char|
                d != ch ==> char_lookup(final(self)@.char_rules, d) == char_lookup(
                    old(self)@.char_rules,
                    d,
                ),
            final(self)@.string_rules == old(self)@.string_rules,
            final(self)@.default_color == old(self)@.default_color,
    {
        let ghost rules0 = self@.char_rules;
        self.remove_char_entry(ch);
        let ghost rules1 = self@.char_rules;
        let col = ColorPair { front: front_color, back: back_color };
        self.char_rules.push((ch, col));
        proof {
            assert(self@.char_rules == rules1.push((ch, col)));
            assert(self@.char_rules.last() == (ch, col));
            assert(self@.char_rules.drop_last() =~= rules1);
            lemma_char_lookup_unique(rules1, ch);
            assert forall|d: char|
                d != ch implies char_lookup(self@.char_rules, d) == char_lookup(rules0, d) by {
                assert(char_lookup(self@.char_rules, d) == char_lookup(rules1, d));
            }
        }
    }

    /// Removes any character-rule entry with key `ch`; the view of the
    /// char-rule table becomes `remove_char_key` of the old one.
    #[verifier::loop_isolation(false)]
    fn remove_char_entry(&mut self, ch: char)
        requires
            old(self)@.wf(),
        ensures
            final(self)@.wf(),
            final(self)@.char_rules == remove_char_key(old(self)@.char_rules, ch),
            forall|j: int|
                0 <= j < final(self)@.char_rules.len() ==> final(self)@.char_rules[j].0 != ch,
            forall|d: char|
                d != ch ==> char_lookup(final(self)@.char_rules, d) == char_lookup(
                    old(self)@.char_rules,
                    d,
                ),
            final(self)@.string_rules == old(self)@.string_rules,
            final(self)@.default_color == old(self)@.default_color,
    {
        let ghost rules0 = self@.char_rules;
        let n = self.char_rules.len();
        let mut i: usize = 0;
        while i < n
            invariant
                n == self.char_rules.len(),
                i <= n,
                forall|j: int| 0 <= j < i ==> self@.char_rules[j].0 != ch,
                self@ == old(self)@,
            decreases n - i,
        {
            if self.char_rules[i].0 == ch {
                self.char_rules.remove(i);
                proof {
                    lemma_remove_char_key(rules0, ch, i as int);
                    rules0.remove_ensures(i as int);
                    assert forall|i1: int, j1: int|
                        0 <= i1 < j1 < self@.char_rules.len() implies self@.char_rules[i1].0
                        != self@.char_rules[j1].0 by {
                        rules0.remove_ensures(i as int);
                        if j1 < i {
                            assert(self@.char_rules[i1] == rules0[i1]);
                            assert(self@.char_rules[j1] == rules0[j1]);
                        } else if i1 < i {
                            assert(self@.char_rules[i1] == rules0[i1]);
                            assert(self@.char_rules[j1] == rules0[j1 + 1]);
                        } else {
                            assert(self@.char_rules[i1] == rules0[i1 + 1]);
                            assert(self@.char_rules[j1] == rules0[j1 + 1]);
                        }
                    }
                    assert forall|j: int|
                        0 <= j < self@.char_rules.len() implies self@.char_rules[j].0 != ch by {
                        rules0.remove_ensures(i as int);
                        if j < i {
                            assert(self@.char_rules[j] == rules0[j]);
                        } else {
                            assert(self@.char_rules[j] == rules0[j + 1]);
                            assert(rules0[i as int].0 != rules0[j + 1].0);
                        }
                    }
                    assert forall|d: char|
                        d != ch implies char_lookup(self@.char_rules, d) == char_lookup(
                        rules0,
                        d,
                    ) by {
                        lemma_char_lookup_unique(rules0, d);
                        lemma_char_lookup_unique(self@.char_rules, d);
                        if exists|j: int| 0 <= j < rules0.len() && rules0[j].0 == d {
                            let j = choose|j: int| 0 <= j < rules0.len() && rules0[j].0 == d;
                            rules0.remove_ensures(i as int);
                            if j < i {
                                assert(self@.char_rules[j] == rules0[j]);
                            } else {
                                assert(j > i);
                                assert(self@.char_rules[j - 1] == rules0[j]);
                            }
                        } else {
                            assert forall|j: int|
                                0 <= j < self@.char_rules.len() implies self@.char_rules[j].0
                                != d by {
                                rules0.remove_ensures(i as int);
                                if j < i {
                                    assert(self@.char_rules[j] == rules0[j]);
                                } else {
                                    assert(self@.char_rules[j] == rules0[j + 1]);
                                }
                            }
                        }
                    }
                }
                return ;
            }
            i += 1;
        }
        proof {
            lemma_remove_char_key_absent(rules0, ch);
        }
    }

    /// Removes any rule registered for `ch`; removing an absent key is a
    /// no-op.
    pub fn unregister_char(&mut self, ch: char)
        requires
            old(self)@.wf(),
        ensures
            final(self)@.wf(),
            char_lookup(final(self)@.char_rules, ch) is None,
            forall|d: char|
                d != ch ==> char_lookup(final(self)@.char_rules, d) == char_lookup(
                    old(self)@.char_rules,
                    d,
                ),
            final(self)@.string_rules == old(self)@.string_rules,
            final(self)@.default_color == old(self)@.default_color,
    {
        self.remove_char_entry(ch);
        proof {
            lemma_char_lookup_unique(self@.char_rules, ch);
        }
    }

    /// Drops every character rule.
    pub fn unregister_all_char(&mut self)
        requires
            old(self)@.wf(),
        ensures
            final(self)@.wf(),
            final(self)@.char_rules.len() == 0,
            final(self)@.string_rules == old(self)@.string_rules,
            final(self)@.default_color == old(self)@.default_color,
    {
        self.char_rules.clear();
    }

    /// Drops every substring rule.
    pub fn unregister_all_string(&mut self)
        requires
            old(self)@.wf(),
        ensures
            final(self)@.wf(),
            final(self)@.string_rules.len() == 0,
            final(self)@.char_rules == old(self)@.char_rules,
            final(self)@.default_color == old(self)@.default_color,
    {
        self.string_rules.clear();
        proof {
            assert(self@.string_rules =~= Seq::<(Seq<char>, ColorPair)>::empty());
        }
    }

    /// Registers a substring rule for the non-empty `word`; a later
    /// registration for the same word overwrites the earlier one and moves it
    /// to the newest position, so it also wins every later overlap. An empty
    /// word is an invalid rule: it is rejected and the state is unchanged.
    pub fn register_string(&mut self, word: &str, front_color: usize, back_color: usize) -> (r:
        Result<(), RuleError>)
        requires
            old(self)@.wf(),
        ensures
            final(self)@.wf(),
            word@.len() == 0 ==> r == Err::<(), RuleError>(RuleError::InvalidRule) && final(self)@
                == old(self)@,
            word@.len() > 0 ==> r == Ok::<(), RuleError>(()) && final(self)@.string_rules
                == remove_word_key(old(self)@.string_rules, word@).push(
                (word@, ColorPair { front: front_color, back: back_color }),
            ),
            final(self)@.char_rules == old(self)@.char_rules,
            final(self)@.default_color == old(self)@.default_color,
    {
        if word.unicode_len() == 0 {
            return Err(RuleError::InvalidRule);
        }
        let ghost rules0 = self@.string_rules;
        self.remove_word_entry(word);
        let ghost rules1 = self@.string_rules;
        let col = ColorPair { front: front_color, back: back_color };
        self.string_rules.push((word.to_owned(), col));
        proof {
            assert(self@.string_rules =~= rules1.push((word@, col)));
            assert(self@.string_rules.last() == (word@, col));
        }
        Ok(())
    }

    /// Removes any substring-rule entry with key `word@`; the view of the
    /// string-rule table becomes `remove_word_key` of the old one.
    #[verifier::loop_isolation(false)]
    fn remove_word_entry(&mut self, word: &str)
        requires
            old(self)@.wf(),
        ensures
            final(self)@.wf(),
            final(self)@.string_rules == remove_word_key(old(self)@.string_rules, word@),
            forall|j: int|
                0 <= j < final(self)@.string_rules.len() ==> final(self)@.string_rules[j].0
                    != word@,
            final(self)@.char_rules == old(self)@.char_rules,
            final(self)@.default_color == old(self)@.default_color,
    {
        let ghost rules0 = self@.string_rules;
        let n = self.string_rules.len();
        let mut i: usize = 0;
        while i < n
            invariant
                n == self.string_rules.len(),
                i <= n,
                forall|j: int| 0 <= j < i ==> self@.string_rules[j].0 != word@,
                self@ == old(self)@,
            decreases n - i,
        {
            if str_eq(self.string_rules[i].0.as_str(), word) {
                self.string_rules.remove(i);
                proof {
                    assert(self@.string_rules =~= rules0.remove(i as int));
                    lemma_remove_word_key(rules0, word@, i as int);
                    rules0.remove_ensures(i as int);
                    assert forall|i1: int, j1: int|
                        0 <= i1 < j1 < self@.string_rules.len() implies self@.string_rules[i1].0
                        != self@.string_rules[j1].0 by {
                        rules0.remove_ensures(i as int);
                        if j1 < i {
                            assert(self@.string_rules[i1] == rules0[i1]);
                            assert(self@.string_rules[j1] == rules0[j1]);
                        } else if i1 < i {
                            assert(self@.string_rules[i1] == rules0[i1]);
                            assert(self@.string_rules[j1] == rules0[j1 + 1]);
                        } else {
                            assert(self@.string_rules[i1] == rules0[i1 + 1]);
                            assert(self@.string_rules[j1] == rules0[j1 + 1]);
                        }
                    }
                    assert forall|j: int|
                        0 <= j < self@.string_rules.len() implies self@.string_rules[j].0
                        != word@ by {
                        rules0.remove_ensures(i as int);
                        if j < i {
                            assert(self@.string_rules[j] == rules0[j]);
                        } else {
                            assert(self@.string_rules[j] == rules0[j + 1]);
                            assert(rules0[i as int].0 != rules0[j + 1].0);
                        }
                    }
                    assert forall|j: int|
                        0 <= j < self@.string_rules.len() implies self@.string_rules[j].0.len()
                        >= 1 by {
                        rules0.remove_ensures(i as int);
                        if j < i {
                            assert(self@.string_rules[j] == rules0[j]);
                        } else {
                            assert(self@.string_rules[j] == rules0[j + 1]);
                        }
                    }
                }
                return ;
            }
            i += 1;
        }
        proof {
            lemma_remove_word_key_absent(rules0, word@);
        }
    }

    /// The color the character rules alone give `c`, scanning the table.
    #[verifier::loop_isolation(false)]
    fn lookup_char_rule(&self, c: char) -> (r: Option<ColorPair>)
        ensures
            r == char_lookup(self@.char_rules, c),
    {
        let ghost rules = self@.char_rules;
        let mut i: usize = self.char_rules.len();
        proof {
            assert(rules.take(i as int) =~= rules);
        }
        while i > 0
            invariant
                i <= rules.len(),
                char_lookup(rules, c) == char_lookup(rules.take(i as int), c),
            decreases i,
        {
            i -= 1;
            let e = self.char_rules[i];
            proof {
                assert(rules.take(i + 1).last() == rules[i as int]);
                assert(rules.take(i + 1).drop_last() =~= rules.take(i as int));
            }
            if e.0 == c {
                return Some(e.1);
            }
        }
        None
    }

    /// Removes any rule registered for `word`; removing an absent word is a
    /// no-op.
    pub fn unregister_string(&mut self, word: &str)
        requires
            old(self)@.wf(),
        ensures
            final(self)@.wf(),
            final(self)@.string_rules == remove_word_key(old(self)@.string_rules, word@),
            final(self)@.char_rules == old(self)@.char_rules,
            final(self)@.default_color == old(self)@.default_color,
    {
        self.remove_word_entry(word);
    }
}

/// The substring-rule stage of the color resolution, considering only the
/// first `r` registered substring rules.
pub open spec fn color_upto(v: RendererView, text: Seq<char>, i: int, r: int) -> ColorPair {
    match string_lookup(v.string_rules.take(r), text, i) {
        Some(c) => c,
        None => match char_lookup(v.char_rules, text[i]) {
            Some(c) => c,
            None => v.default_color,
        },
    }
}

/// Position `i` lies inside an occurrence of `word` starting before `lim`.
pub open spec fn covered_before(text: Seq<char>, word: Seq<char>, i: int, lim: int) -> bool {
    exists|p: int| p < lim && occurs_at(text, word, p) && p <= i < p + word.len()
}

/// An explicit occurrence position witnesses `covered_before`.
proof fn lemma_covered_intro(text: Seq<char>, word: Seq<char>, i: int, p: int, lim: int)
    requires
        occurs_at(text, word, p),
        p <= i < p + word.len(),
        p < lim,
    ensures
        covered_before(text, word, i, lim),
{
    assert(p < lim && occurs_at(text, word, p) && p <= i < p + word.len());
}

/// An explicit occurrence position witnesses `covers`.
proof fn lemma_covers_intro(text: Seq<char>, word: Seq<char>, i: int, p: int)
    requires
        occurs_at(text, word, p),
        p <= i < p + word.len(),
    ensures
        covers(text, word, i),
{
    assert(occurs_at(text, word, p) && p <= i < p + word.len());
}

/// The end of the maximal constant-color run beginning at position `i`: the
/// first later position whose resolved color differs, or the text's end.
pub open spec fn run_end(v: RendererView, text: Seq<char>, i: int) -> int
    recommends
        0 <= i < text.len(),
    decreases text.len() - i,
{
    if i + 1 >= text.len() {
        text.len() as int
    } else if color_at(v, text, i + 1) != color_at(v, text, i) {
        i + 1
    } else {
        run_end(v, text, i + 1)
    }
}

/// `run_end` bounds, constancy of the color inside the run, and maximality.
pub proof fn lemma_run_end(v: RendererView, text: Seq<char>, i: int)
    requires
        0 <= i < text.len(),
    ensures
        i < run_end(v, text, i) <= text.len(),
        forall|k: int|
            i <= k < run_end(v, text, i) ==> color_at(v, text, k) == color_at(v, text, i),
        run_end(v, text, i) < text.len() ==> color_at(v, text, run_end(v, text, i)) != color_at(
            v,
            text,
            i,
        ),
    decreases text.len() - i,
{
    if i + 1 >= text.len() {
    } else if color_at(v, text, i + 1) != color_at(v, text, i) {
    } else {
        lemma_run_end(v, text, i + 1);
    }
}

/// The run decomposition of `text` from position `i` on: the maximal
/// contiguous spans of equal resolved color, with their color, in order.
pub open spec fn runs_from(v: RendererView, text: Seq<char>, i: int) -> Seq<(Seq<char>, ColorPair)>
    decreases text.len() - i,
    when 0 <= i
    via runs_from_dec
{
    if i >= text.len() {
        Seq::empty()
    } else {
        seq![(text.subrange(i, run_end(v, text, i)), color_at(v, text, i))] + runs_from(
            v,
            text,
            run_end(v, text, i),
        )
    }
}

#[via_fn]
proof fn runs_from_dec(v: RendererView, text: Seq<char>, i: int) {
    if i < text.len() {
        lemma_run_end(v, text, i);
    }
}

/// The sink events of a run decomposition: one colored put per run.
pub open spec fn run_events(runs: Seq<(Seq<char>, ColorPair)>) -> Seq<EventView> {
    runs.map_values(
        |r: (Seq<char>, ColorPair)|
            EventView::Colored { text: r.0, front: r.1.front, back: r.1.back },
    )
}

/// Everything `render` emits for `text` in state `v`: one colored put per
/// maximal same-color run, left to right.
pub open spec fn render_spec(v: RendererView, text: Seq<char>) -> Seq<EventView> {
    run_events(runs_from(v, text, 0))
}

/// All start positions of occurrences of `word` in `text` at or after
/// `from`, in increasing order; overlapping occurrences all count, since the
/// scan advances by one character after each match.
pub open spec fn occurrences_from(text: Seq<char>, word: Seq<char>, from: int) -> Seq<int>
    recommends
        word.len() >= 1,
    decreases text.len() - from,
    when 0 <= from && word.len() >= 1
    via occurrences_from_dec
{
    match find_from(text, word, from) {
        None => Seq::empty(),
        Some(p) => seq![p] + occurrences_from(text, word, p + 1),
    }
}

#[via_fn]
proof fn occurrences_from_dec(text: Seq<char>, word: Seq<char>, from: int) {
    lemma_find_from(text, word, from);
}

impl Renderer {
    /// All start positions of occurrences of `word` inside `src`, in
    /// increasing character positions, overlapping occurrences included.
    pub fn get_sub_string_indexs(src: &str, word: &str) -> (indexs: Vec<usize>)
        requires
            word@.len() >= 1,
        ensures
            indexs@.map_values(|x: usize| x as int) == occurrences_from(src@, word@, 0),
    {
        let n = src.unicode_len();
        let mut indexs: Vec<usize> = Vec::new();
        let mut start: usize = 0;
        loop
            invariant_except_break
                word@.len() >= 1,
                n == src@.len(),
                start <= n,
                indexs@.map_values(|x: usize| x as int) + occurrences_from(
                    src@,
                    word@,
                    start as int,
                ) == occurrences_from(src@, word@, 0),
            ensures
                indexs@.map_values(|x: usize| x as int) == occurrences_from(src@, word@, 0),
            decreases n - start,
        {
            let ghost prev = indexs@.map_values(|x: usize| x as int);
            match find_at(src, word, start) {
                Some(p) => {
                    proof {
                        lemma_find_from(src@, word@, start as int);
                    }
                    indexs.push(p);
                    proof {
                        assert(indexs@.map_values(|x: usize| x as int) =~= prev.push(p as int));
                        assert(occurrences_from(src@, word@, start as int) == seq![p as int]
                            + occurrences_from(src@, word@, p + 1));
                        assert(prev.push(p as int) + occurrences_from(src@, word@, p + 1) =~= prev
                            + occurrences_from(src@, word@, start as int));
                    }
                    start = p + 1;
                },
                None => {
                    proof {
                        assert(occurrences_from(src@, word@, start as int) =~= Seq::<
                            int,
                        >::empty());
                        assert(prev + Seq::<int>::empty() =~= prev);
                    }
                    break ;
                },
            }
        }
        indexs
    }

    /// Renders `src` against the registered rules: resolves a color for
    /// every character position (substring rules over character rules over
    /// the default color) and emits one colored put per maximal same-color
    /// run, partitioning `src` exactly, left to right.
    #[verifier::loop_isolation(false)]
    pub fn render(&self, src: &str) -> (events: Vec<OutEvent>)
        requires
            self@.wf(),
        ensures
            event_views(events@) == render_spec(self@, src@),
    {
        let ghost v = self@;
        let n = src.unicode_len();
        let mut colors: Vec<ColorPair> = Vec::new();
        let mut i: usize = 0;
        while i < n
            invariant
                colors@.len() == i,
                i <= n,
                forall|k: int| 0 <= k < i ==> colors@[k] == color_upto(v, src@, k, 0),
            decreases n - i,
        {
            let c = src.get_char(i);
            let col = match self.lookup_char_rule(c) {
                Some(x) => x,
                None => self.default_color,
            };
            colors.push(col);
            proof {
                assert(v.string_rules.take(0).len() == 0);
            }
            i += 1;
        }
        let mut r: usize = 0;
        while r < self.string_rules.len()
            invariant
                colors@.len() == n,
                r <= self.string_rules.len(),
                forall|k: int| 0 <= k < n ==> colors@[k] == color_upto(v, src@, k, r as int),
            decreases self.string_rules.len() - r,
        {
            let word_s = self.string_rules[r].0.clone();
            let word: &str = word_s.as_str();
            let col = self.string_rules[r].1;
            let wlen = word.unicode_len();
            proof {
                assert(v.string_rules[r as int] == (word@, col));
                assert(word@.len() >= 1);
            }
            let mut p: usize = 0;
            while p <= n && wlen <= n - p
                invariant
                    colors@.len() == n,
                    p <= n + 1,
                    forall|k: int|
                        0 <= k < n ==> colors@[k] == (if covered_before(
                            src@,
                            word@,
                            k,
                            p as int,
                        ) {
                            col
                        } else {
                            color_upto(v, src@, k, r as int)
                        }),
                decreases n - p,
            {
                if match_at(src, word, p) {
                    let ghost pre = colors@;
                    let mut q: usize = p;
                    while q < p + wlen
                        invariant
                            colors@.len() == n,
                            p <= q <= p + wlen <= n,
                            forall|k: int| 0 <= k < p ==> colors@[k] == pre[k],
                            forall|k: int| q <= k < n ==> colors@[k] == pre[k],
                            forall|k: int| p <= k < q ==> colors@[k] == col,
                        decreases p + wlen - q,
                    {
                        colors[q] = col;
                        q += 1;
                    }
                    proof {
                        assert(occurs_at(src@, word@, p as int));
                        assert forall|k: int| 0 <= k < n implies colors@[k] == (if covered_before(
                            src@,
                            word@,
                            k,
                            p + 1,
                        ) {
                            col
                        } else {
                            color_upto(v, src@, k, r as int)
                        }) by {
                            if p <= k < p + wlen {
                                lemma_covered_intro(src@, word@, k, p as int, p + 1);
                                assert(colors@[k] == col);
                                assert(covered_before(src@, word@, k, p + 1));
                            } else {
                                assert(colors@[k] == pre[k]);
                                assert(pre[k] == (if covered_before(src@, word@, k, p as int) {
                                    col
                                } else {
                                    color_upto(v, src@, k, r as int)
                                }));
                                if covered_before(src@, word@, k, p + 1) {
                                    let p2 = choose|p2: int|
                                        p2 < p + 1 && occurs_at(src@, word@, p2) && p2 <= k < p2
                                            + word@.len();
                                    assert(p2 < p);
                                    lemma_covered_intro(src@, word@, k, p2, p as int);
                                } else {
                                    if covered_before(src@, word@, k, p as int) {
                                        let p2 = choose|p2: int|
                                            p2 < p && occurs_at(src@, word@, p2) && p2 <= k < p2
                                                + word@.len();
                                        lemma_covered_intro(src@, word@, k, p2, p + 1);
                                    }
                                }
                            }
                        }
                    }
                } else {
                    proof {
                        assert(!occurs_at(src@, word@, p as int));
                        assert forall|k: int| 0 <= k < n implies (covered_before(
                            src@,
                            word@,
                            k,
                            p + 1,
                        ) == covered_before(src@, word@, k, p as int)) by {
                            if covered_before(src@, word@, k, p + 1) {
                                let p2 = choose|p2: int|
                                    p2 < p + 1 && occurs_at(src@, word@, p2) && p2 <= k < p2
                                        + word@.len();
                                assert(p2 != p);
                                lemma_covered_intro(src@, word@, k, p2, p as int);
                            }
                            if covered_before(src@, word@, k, p as int) {
                                let p2 = choose|p2: int|
                                    p2 < p && occurs_at(src@, word@, p2) && p2 <= k < p2
                                        + word@.len();
                                lemma_covered_intro(src@, word@, k, p2, p + 1);
                            }
                        }
                    }
                }
                p += 1;
            }
            proof {
                assert forall|k: int| 0 <= k < n implies colors@[k] == color_upto(
                    v,
                    src@,
                    k,
                    r + 1,
                ) by {
                    if covers(src@, word@, k) {
                        let p2 = choose|p2: int|
                            occurs_at(src@, word@, p2) && p2 <= k < p2 + word@.len();
                        assert(p2 + word@.len() <= n);
                        assert(p2 < p);
                        lemma_covered_intro(src@, word@, k, p2, p as int);
                    } else {
                        if covered_before(src@, word@, k, p as int) {
                            let p2 = choose|p2: int|
                                p2 < p && occurs_at(src@, word@, p2) && p2 <= k < p2
                                    + word@.len();
                            lemma_covers_intro(src@, word@, k, p2);
                        }
                    }
                    assert(v.string_rules.take(r + 1).last() == v.string_rules[r as int]);
                    assert(v.string_rules.take(r + 1).drop_last() =~= v.string_rules.take(
                        r as int,
                    ));
                }
            }
            r += 1;
        }
        proof {
            assert(v.string_rules.take(v.string_rules.len() as int) =~= v.string_rules);
            assert forall|k: int| 0 <= k < n implies colors@[k] == color_at(v, src@, k) by {
                assert(colors@[k] == color_upto(v, src@, k, v.string_rules.len() as int));
            }
        }
        let mut events: Vec<OutEvent> = Vec::new();
        proof {
            assert(event_views(events@) + run_events(runs_from(v, src@, 0)) =~= render_spec(
                v,
                src@,
            ));
        }
        let mut s: usize = 0;
        while s < n
            invariant
                s <= n,
                event_views(events@) + run_events(runs_from(v, src@, s as int)) == render_spec(
                    v,
                    src@,
                ),
            decreases n - s,
        {
            let c = colors[s];
            let mut j: usize = s + 1;
            while j < n && colors[j] == c
                invariant
                    s < j <= n,
                    forall|k: int|
                        s <= k < j ==> color_at(v, src@, k) == color_at(v, src@, s as int),
                decreases n - j,
            {
                j += 1;
            }
            proof {
                lemma_run_end(v, src@, s as int);
                let re = run_end(v, src@, s as int);
                if re < j {
                    assert(color_at(v, src@, re) == color_at(v, src@, s as int));
                    assert(false);
                }
                if j < re {
                    assert(color_at(v, src@, j as int) == color_at(v, src@, s as int));
                    assert(false);
                }
                assert(j == re);
            }
            let ghost pre_events = event_views(events@);
            let piece = src.substring_char(s, j);
            events.push(OutEvent::Colored { text: piece.to_owned(), front: c.front, back: c.back });
            proof {
                let ghost ev = EventView::Colored {
                    text: src@.subrange(s as int, j as int),
                    front: c.front,
                    back: c.back,
                };
                assert(event_views(events@) =~= pre_events.push(ev));
                assert(runs_from(v, src@, s as int) == seq![
                    (src@.subrange(s as int, j as int), color_at(v, src@, s as int)),
                ] + runs_from(v, src@, j as int));
                assert(run_events(runs_from(v, src@, s as int)) =~= seq![ev] + run_events(
                    runs_from(v, src@, j as int),
                ));
                assert(pre_events.push(ev) + run_events(runs_from(v, src@, j as int)) =~= pre_events
                    + run_events(runs_from(v, src@, s as int)));
            }
            s = j;
        }
        proof {
            assert(runs_from(v, src@, n as int) =~= Seq::<(Seq<char>, ColorPair)>::empty());
            assert(run_events(runs_from(v, src@, n as int)) =~= Seq::<EventView>::empty());
            assert(event_views(events@) + Seq::<EventView>::empty() =~= event_views(events@));
        }
        events
    }

    /// Renders `src` and terminates the line: the runs of `render`, then one
    /// plain line-terminator event.
    pub fn renderln(&self, src: &str) -> (events: Vec<OutEvent>)
        requires
            self@.wf(),
        ensures
            event_views(events@) == render_spec(self@, src@).push(
                EventView::Plain { text: seq!['\n'] },
            ),
    {
        let mut events = self.render(src);
        events.push(OutEvent::Plain { text: String::from_str("\n") });
        proof {
            reveal_strlit("\n");
            assert("\n"@ =~= seq!['\n']);
            assert(event_views(events@) =~= render_spec(self@, src@).push(
                EventView::Plain { text: seq!['\n'] },
            ));
        }
        events
    }

    /// One colored put of the whole `info` text in the given explicit
    /// colors, bypassing the rule state.
    pub fn render_print(info: &str, front_color: usize, back_color: usize) -> (e: OutEvent)
        ensures
            e@ == (EventView::Colored { text: info@, front: front_color, back: back_color }),
    {
        OutEvent::Colored { text: info.to_owned(), front: front_color, back: back_color }
    }

    /// One colored put of `info` followed by a line terminator, in the given
    /// explicit colors.
    pub fn render_println(info: &str, front_color: usize, back_color: usize) -> (e: OutEvent)
        ensures
            e@ == (EventView::Colored {
                text: info@.push('\n'),
                front: front_color,
                back: back_color,
            }),
    {
        let mut text = info.to_owned();
        text.append("\n");
        proof {
            reveal_strlit("\n");
            assert(text@ =~= info@.push('\n'));
        }
        OutEvent::Colored { text, front: front_color, back: back_color }
    }
}

/// The text of each run, concatenated in order.
pub open spec fn concat_runs(runs: Seq<(Seq<char>, ColorPair)>) -> Seq<char>
    decreases runs.len(),
{
    if runs.len() == 0 {
        Seq::empty()
    } else {
        runs.first().0 + concat_runs(runs.drop_first())
    }
}

proof fn lemma_runs_partition_from(v: RendererView, text: Seq<char>, i: int)
    requires
        0 <= i <= text.len(),
    ensures
        concat_runs(runs_from(v, text, i)) == text.subrange(i, text.len() as int),
    decreases text.len() - i,
{
    if i == text.len() {
        assert(runs_from(v, text, i) =~= Seq::<(Seq<char>, ColorPair)>::empty());
        assert(text.subrange(i, text.len() as int) =~= Seq::<char>::empty());
    } else {
        lemma_run_end(v, text, i);
        let j = run_end(v, text, i);
        lemma_runs_partition_from(v, text, j);
        let head = (text.subrange(i, j), color_at(v, text, i));
        let rest = runs_from(v, text, j);
        assert(runs_from(v, text, i) == seq![head] + rest);
        assert((seq![head] + rest).first() == head);
        assert((seq![head] + rest).drop_first() =~= rest);
        assert(text.subrange(i, j) + text.subrange(j, text.len() as int) =~= text.subrange(
            i,
            text.len() as int,
        ));
    }
}

/// Run partitioning is exact: concatenating the emitted run texts in order
/// reproduces the rendered text, with no gaps, overlaps, or reordering.
pub proof fn lemma_runs_partition(v: RendererView, text: Seq<char>)
    ensures
        concat_runs(runs_from(v, text, 0)) == text,
{
    lemma_runs_partition_from(v, text, 0);
    assert(text.subrange(0, text.len() as int) =~= text);
}

/// The total character length of the first `k` runs.
pub open spec fn runs_len_prefix(runs: Seq<(Seq<char>, ColorPair)>, k: int) -> int
    decreases k,
{
    if k <= 0 {
        0
    } else {
        runs_len_prefix(runs, k - 1) + runs[k - 1].0.len()
    }
}

proof fn lemma_prefix_cons(
    head: (Seq<char>, ColorPair),
    rest: Seq<(Seq<char>, ColorPair)>,
    k: int,
)
    requires
        1 <= k <= rest.len() + 1,
    ensures
        runs_len_prefix(seq![head] + rest, k) == head.0.len() + runs_len_prefix(rest, k - 1),
    decreases k,
{
    reveal_with_fuel(runs_len_prefix, 3);
    if k == 1 {
        assert((seq![head] + rest)[0] == head);
        assert(runs_len_prefix(seq![head] + rest, 0) == 0);
        assert(runs_len_prefix(rest, 0) == 0);
    } else {
        lemma_prefix_cons(head, rest, k - 1);
        assert((seq![head] + rest)[k - 1] == rest[k - 2]);
        assert(runs_len_prefix(rest, k - 1) == runs_len_prefix(rest, k - 2) + rest[k - 2].0.len());
    }
}

proof fn lemma_runs_exact_from(v: RendererView, text: Seq<char>, i: int)
    requires
        0 <= i <= text.len(),
    ensures
        forall|k: int|
            0 <= k < runs_from(v, text, i).len() ==> runs_from(v, text, i)[k].0.len() >= 1,
        forall|k: int|
            0 <= k && k + 1 < runs_from(v, text, i).len() ==> (#[trigger] runs_from(
                v,
                text,
                i,
            )[k]).1 != runs_from(v, text, i)[k + 1].1,
        forall|k: int, off: int|
            0 <= k < runs_from(v, text, i).len() && 0 <= off < runs_from(v, text, i)[k].0.len()
                ==> runs_from(v, text, i)[k].0[off] == text[i + runs_len_prefix(
                runs_from(v, text, i),
                k,
            ) + off] && runs_from(v, text, i)[k].1 == color_at(
                v,
                text,
                i + runs_len_prefix(runs_from(v, text, i), k) + off,
            ),
    decreases text.len() - i,
{
    if i < text.len() {
        lemma_run_end(v, text, i);
        let j = run_end(v, text, i);
        lemma_runs_exact_from(v, text, j);
        let runs = runs_from(v, text, i);
        let rest = runs_from(v, text, j);
        let head = (text.subrange(i, j), color_at(v, text, i));
        assert(runs == seq![head] + rest);
        assert forall|k: int| 1 <= k < runs.len() implies runs[k] == rest[k - 1]
            && runs_len_prefix(runs, k) == (j - i) + runs_len_prefix(rest, k - 1) by {
            lemma_prefix_cons(head, rest, k);
        }
        assert forall|k: int| 0 <= k && k + 1 < runs.len() implies (#[trigger] runs[k]).1 != runs[k
            + 1].1 by {
            if k == 0 {
                assert(rest.len() > 0);
                assert(j < text.len());
                assert(rest[0].0.len() >= 1);
                assert(rest[0].0[0] == text[j + runs_len_prefix(rest, 0) + 0]);
                assert(runs[1] == rest[0]);
                assert(runs[1].1 == color_at(v, text, j));
                assert(runs[0].1 == color_at(v, text, i));
            } else {
                assert((seq![head] + rest)[k] == rest[k - 1]);
                assert((seq![head] + rest)[k + 1] == rest[k]);
                assert((rest[k - 1]).1 != rest[k].1);
            }
        }
        assert forall|k: int, off: int|
            0 <= k < runs.len() && 0 <= off < runs[k].0.len() implies runs[k].0[off] == text[i
            + runs_len_prefix(runs, k) + off] && runs[k].1 == color_at(
            v,
            text,
            i + runs_len_prefix(runs, k) + off,
        ) by {
            if k == 0 {
                assert(runs[0] == head);
                assert(head.0[off] == text[i + off]);
            } else {
                assert(runs[k] == rest[k - 1]);
                assert(rest[k - 1].0[off] == text[j + runs_len_prefix(rest, k - 1) + off]);
            }
        }
    }
}

/// Every emitted run is non-empty, adjacent runs differ in color (so runs
/// are maximal), each run's text is the matching span of the rendered text,
/// and each run carries exactly the resolved color of every position it
/// covers.
pub proof fn lemma_runs_exact(v: RendererView, text: Seq<char>)
    ensures
        forall|k: int|
            0 <= k < runs_from(v, text, 0).len() ==> runs_from(v, text, 0)[k].0.len() >= 1,
        forall|k: int|
            0 <= k && k + 1 < runs_from(v, text, 0).len() ==> (#[trigger] runs_from(
                v,
                text,
                0,
            )[k]).1 != runs_from(v, text, 0)[k + 1].1,
        forall|k: int, off: int|
            0 <= k < runs_from(v, text, 0).len() && 0 <= off < runs_from(v, text, 0)[k].0.len()
                ==> runs_from(v, text, 0)[k].0[off] == text[runs_len_prefix(
                runs_from(v, text, 0),
                k,
            ) + off] && runs_from(v, text, 0)[k].1 == color_at(
                v,
                text,
                runs_len_prefix(runs_from(v, text, 0), k) + off,
            ),
{
    lemma_runs_exact_from(v, text, 0);
}

proof fn lemma_run_end_uniform(v: RendererView, text: Seq<char>, i: int)
    requires
        0 <= i < text.len(),
        forall|k: int| i <= k < text.len() ==> color_at(v, text, k) == color_at(v, text, i),
    ensures
        run_end(v, text, i) == text.len(),
    decreases text.len() - i,
{
    if i + 1 < text.len() {
        lemma_run_end_uniform(v, text, i + 1);
    }
}

/// When every position of a non-empty text resolves to one same color, the
/// whole text is emitted as a single run in that color.
pub proof fn lemma_uniform_single_run(v: RendererView, text: Seq<char>)
    requires
        text.len() > 0,
        forall|k: int| 0 <= k < text.len() ==> #[trigger] color_at(v, text, k) == color_at(v, text, 0),
    ensures
        runs_from(v, text, 0) == seq![(text, color_at(v, text, 0))],
{
    lemma_run_end_uniform(v, text, 0);
    assert(text.subrange(0, text.len() as int) =~= text);
    assert(runs_from(v, text, text.len() as int) =~= Seq::<(Seq<char>, ColorPair)>::empty());
    assert(seq![(text, color_at(v, text, 0))] + Seq::<(Seq<char>, ColorPair)>::empty() =~= seq![
        (text, color_at(v, text, 0)),
    ]);
}

/// With no rules registered, `render` emits exactly one run covering the
/// full text in the default color pair, and nothing at all for empty text.
pub proof fn lemma_render_no_rules(v: RendererView, text: Seq<char>)
    requires
        v.char_rules.len() == 0,
        v.string_rules.len() == 0,
    ensures
        text.len() == 0 ==> render_spec(v, text) == Seq::<EventView>::empty(),
        text.len() > 0 ==> render_spec(v, text) == seq![
            EventView::Colored {
                text: text,
                front: v.default_color.front,
                back: v.default_color.back,
            },
        ],
{
    if text.len() == 0 {
        assert(runs_from(v, text, 0) =~= Seq::<(Seq<char>, ColorPair)>::empty());
        assert(render_spec(v, text) =~= Seq::<EventView>::empty());
    } else {
        assert forall|k: int| 0 <= k < text.len() implies #[trigger] color_at(v, text, k)
            == color_at(v, text, 0) by {
            assert(color_at(v, text, k) == v.default_color);
            assert(color_at(v, text, 0) == v.default_color);
        }
        lemma_uniform_single_run(v, text);
        assert(color_at(v, text, 0) == v.default_color);
        assert(render_spec(v, text) =~= seq![
            EventView::Colored {
                text: text,
                front: v.default_color.front,
                back: v.default_color.back,
            },
        ]);
    }
}

/// With a single character rule and no substring rules, every occurrence of
/// the rule's character resolves to the rule's color and every other
/// position resolves to the default color.
pub proof fn lemma_single_char_rule(
    v: RendererView,
    text: Seq<char>,
    c: char,
    col: ColorPair,
    i: int,
)
    requires
        v.string_rules.len() == 0,
        v.char_rules == seq![(c, col)],
        0 <= i < text.len(),
    ensures
        color_at(v, text, i) == (if text[i] == c {
            col
        } else {
            v.default_color
        }),
{
    assert(string_lookup(v.string_rules, text, i) is None);
    assert(v.char_rules.last() == (c, col));
    assert(v.char_rules.drop_last() =~= Seq::<(char, ColorPair)>::empty());
    if text[i] == c {
        assert(char_lookup(v.char_rules, text[i]) == Some(col));
    } else {
        assert(char_lookup(Seq::<(char, ColorPair)>::empty(), text[i]) is None);
        assert(char_lookup(v.char_rules, text[i]) is None);
    }
}

proof fn lemma_string_lookup_wins(
    rules: Seq<(Seq<char>, ColorPair)>,
    text: Seq<char>,
    i: int,
    r: int,
)
    requires
        0 <= r < rules.len(),
        covers(text, rules[r].0, i),
        forall|q: int| r < q < rules.len() ==> !covers(text, rules[q].0, i),
    ensures
        string_lookup(rules, text, i) == Some(rules[r].1),
    decreases rules.len(),
{
    if r == rules.len() - 1 {
        assert(rules.last() == rules[r]);
    } else {
        assert(!covers(text, rules.last().0, i));
        assert forall|q: int|
            r < q < rules.drop_last().len() implies !covers(
            text,
            rules.drop_last()[q].0,
            i,
        ) by {
            assert(rules.drop_last()[q] == rules[q]);
        }
        assert(rules.drop_last()[r] == rules[r]);
        lemma_string_lookup_wins(rules.drop_last(), text, i, r);
    }
}

/// A substring rule always wins over any character rule: when rule `r` is
/// the latest substring rule covering position `i`, that position resolves
/// to rule `r`'s color, whatever the character rules say.
pub proof fn lemma_string_rule_wins(v: RendererView, text: Seq<char>, i: int, r: int)
    requires
        0 <= r < v.string_rules.len(),
        covers(text, v.string_rules[r].0, i),
        forall|q: int| r < q < v.string_rules.len() ==> !covers(text, v.string_rules[q].0, i),
    ensures
        color_at(v, text, i) == v.string_rules[r].1,
{
    lemma_string_lookup_wins(v.string_rules, text, i, r);
}

} // verus!

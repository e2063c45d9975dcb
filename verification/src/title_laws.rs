//! What holds of the title of every document.

use vstd::prelude::*;
use vstd::utf8::{decode_utf8, valid_utf8};
use crate::assembly::document_title;
use crate::text::{
    fields, is_char, is_space, joined, lemma_field_alone, lemma_fields_at_separator, lemma_run,
    lemma_run_is, lemma_trimmed_end_is, lemma_until, lemma_until_is, run, trimmed, trimmed_end_of,
    trimmed_start, until, white_space,
};
use crate::titles::{
    all_of, atx_heading, collapsed, first_heading, has_markup, heading_at, is_digit, is_underline,
    lines, looks_like_block, markup_char, nodes_text, parsed_nodes, plain_title, setext_heading,
    title_in, title_of, HeadingNodeView,
};
use crate::word_laws::{
    law_names_are_split_at_their_last_dot, law_trimming, law_white_space_is_trimmed,
};

verus! {

// ---------------------------------------------------------------------------
// White space
// ---------------------------------------------------------------------------

/// Text whose only white space is single spaces between its words.
pub open spec fn tidy(t: Seq<char>) -> bool {
    &&& t.len() > 0
    &&& !white_space(t[0])
    &&& !white_space(t[t.len() - 1])
    &&& forall|i: int|
        0 <= i < t.len() && white_space(#[trigger] t[i]) ==> t[i] == ' ' && !white_space(t[i + 1])
}

/// Text of white space alone.
pub open spec fn blank(t: Seq<char>) -> bool {
    forall|i: int| 0 <= i < t.len() ==> white_space(#[trigger] t[i])
}

proof fn lemma_joined_in_two(a: Seq<Seq<char>>, b: Seq<Seq<char>>)
    requires
        a.len() > 0,
        b.len() > 0,
    ensures
        joined(a + b, seq![' ']) == joined(a, seq![' ']) + seq![' '] + joined(b, seq![' ']),
    decreases b.len(),
{
    let all = a + b;
    assert(all.last() == b.last());
    if b.len() == 1 {
        assert(all.drop_last() =~= a);
        assert(joined(b, seq![' ']) == b[0]);
    } else {
        assert(all.drop_last() =~= a + b.drop_last());
        lemma_joined_in_two(a, b.drop_last());
        assert(joined(all, seq![' ']) =~= joined(a, seq![' ']) + seq![' '] + joined(b, seq![' ']));
    }
}

proof fn lemma_fields_at_gap(a: Seq<char>, gap: Seq<char>, b: Seq<char>)
    requires
        blank(gap),
        gap.len() > 0,
    ensures
        fields(a + gap + b, is_space()) == fields(a, is_space()) + fields(b, is_space()),
    decreases gap.len(),
{
    assert(is_space()(gap[0]));
    let rest = gap.drop_first();
    assert(a + gap + b =~= a + seq![gap[0]] + (rest + b));
    lemma_fields_at_separator(a, gap[0], rest + b, is_space());
    if rest.len() > 0 {
        assert forall|i: int| 0 <= i < rest.len() implies white_space(#[trigger] rest[i]) by {
            assert(rest[i] == gap[i + 1]);
        }
        let none = Seq::<char>::empty();
        lemma_fields_at_gap(none, rest, b);
        assert(none + rest + b =~= rest + b);
        assert(fields(none, is_space()) =~= Seq::<Seq<char>>::empty());
        assert(fields(none, is_space()) + fields(b, is_space()) =~= fields(b, is_space()));
    } else {
        assert(rest + b =~= b);
    }
}

/// White space between two texts becomes one space, however much of it there is.
pub proof fn law_gaps_become_spaces(a: Seq<char>, gap: Seq<char>, b: Seq<char>)
    requires
        blank(gap),
        gap.len() > 0,
        collapsed(a) is Some,
        collapsed(b) is Some,
    ensures
        collapsed(a + gap + b) == Some(collapsed(a)->0 + seq![' '] + collapsed(b)->0),
{
    lemma_fields_at_gap(a, gap, b);
    lemma_joined_in_two(fields(a, is_space()), fields(b, is_space()));
}

/// White space before and after a text is left out.
pub proof fn law_ends_are_left_out(gap: Seq<char>, t: Seq<char>)
    requires
        blank(gap),
    ensures
        collapsed(gap + t) == collapsed(t),
        collapsed(t + gap) == collapsed(t),
{
    let none = Seq::<char>::empty();
    assert(fields(none, is_space()) =~= Seq::<Seq<char>>::empty());
    if gap.len() > 0 {
        lemma_fields_at_gap(none, gap, t);
        lemma_fields_at_gap(t, gap, none);
        assert(none + gap + t =~= gap + t);
        assert(t + gap + none =~= t + gap);
        assert(fields(none, is_space()) + fields(t, is_space()) =~= fields(t, is_space()));
        assert(fields(t, is_space()) + fields(none, is_space()) =~= fields(t, is_space()));
    } else {
        assert(gap + t =~= t);
        assert(t + gap =~= t);
    }
}

/// Tidy text stays as it is.
pub proof fn law_tidy_text_stays(t: Seq<char>)
    requires
        tidy(t),
    ensures
        collapsed(t) == Some(t),
    decreases t.len(),
{
    lemma_until(t, is_space());
    let k = until(t, is_space()) as int;
    let word = t.take(k);
    assert(!is_space()(t[0]));
    assert forall|i: int| 0 <= i < word.len() implies !is_space()(#[trigger] word[i]) by {
        assert(word[i] == t[i]);
    }
    lemma_field_alone(word, is_space());
    if k == t.len() {
        assert(word =~= t);
    } else {
        assert(white_space(t[k]));
        let rest = t.skip(k + 1);
        assert(rest[0] == t[k + 1]);
        assert forall|i: int| 0 <= i < rest.len() && white_space(#[trigger] rest[i]) implies rest[i]
            == ' ' && !white_space(rest[i + 1]) by {
            assert(rest[i] == t[i + k + 1]);
            assert(rest[i + 1] == t[i + k + 2]);
        }
        law_tidy_text_stays(rest);
        let gap = seq![t[k]];
        assert(t =~= word + gap + rest);
        law_gaps_become_spaces(word, gap, rest);
        assert(joined(seq![word], seq![' ']) == word);
    }
}

// ---------------------------------------------------------------------------
// Headings
// ---------------------------------------------------------------------------

/// A number of the same character.
pub open spec fn many(c: char, n: nat) -> Seq<char> {
    Seq::new(n, |i: int| c)
}

/// Whether text begins like an item of a numbered list: digits, a point or a bracket, a space.
pub open spec fn numbered(t: Seq<char>) -> bool {
    exists|k: int|
        #![trigger t[k]]
        0 < k < t.len() - 1 && (t[k] == '.' || t[k] == ')') && (t[k + 1] == ' ' || t[k + 1]
            == '\t') && forall|i: int| 0 <= i < k ==> '0' <= #[trigger] t[i] <= '9'
}

/// Plain text of one line: it begins and ends with something else than white space, and holds
/// neither a line feed, nor a mark of inline markup, nor a number sign, nor the marker of a block.
pub open spec fn plain_line(t: Seq<char>) -> bool {
    &&& t.len() > 0
    &&& !white_space(t[0])
    &&& !white_space(t[t.len() - 1])
    &&& forall|i: int| 0 <= i < t.len() ==> #[trigger] t[i] != '\n' && t[i] != '#' && t[i] != '*'
        && t[i] != '_' && t[i] != '`' && t[i] != '[' && t[i] != ']' && t[i] != '<' && t[i] != '&'
        && t[i] != '\\'
    &&& t[0] != '>'
    &&& !((t[0] == '-' || t[0] == '+') && t.len() > 1 && t[1] == ' ')
    &&& !numbered(t)
}

/// The end of a text, or the end of a line and whatever follows it.
pub open spec fn line_end(ending: Seq<char>) -> bool {
    ending.len() == 0 || ending[0] == '\n' || (ending.len() > 1 && ending[0] == '\r' && ending[1]
        == '\n')
}

/// What follows the end of a line.
spec fn next_lines(ending: Seq<char>) -> Seq<char> {
    if ending[0] == '\n' {
        ending.skip(1)
    } else {
        ending.skip(2)
    }
}

proof fn lemma_first_line(line: Seq<char>, ending: Seq<char>)
    requires
        line_end(ending),
        line.len() > 0 || ending.len() > 0,
        line.len() > 0 ==> line[line.len() - 1] != '\r',
        forall|i: int| 0 <= i < line.len() ==> #[trigger] line[i] != '\n',
    ensures
        lines(line + ending).len() > 0,
        lines(line + ending)[0] == line,
        ending.len() > 0 ==> lines(line + ending).drop_first() == lines(next_lines(ending)),
        ending.len() == 0 ==> lines(line + ending).len() == 1,
{
    let all = line + ending;
    assert forall|i: int| 0 <= i < line.len() implies !is_char('\n')(#[trigger] all[i]) by {
        assert(all[i] == line[i]);
    }
    if ending.len() > 0 && ending[0] != '\n' {
        let k = line.len() + 1;
        assert(all[line.len() as int] == '\r');
        assert(all[k as int] == '\n');
        assert forall|i: int| 0 <= i < k implies !is_char('\n')(#[trigger] all[i]) by {}
        lemma_until_is(all, is_char('\n'), k);
        assert(all.take(k as int) =~= line.push('\r'));
        assert(line.push('\r').drop_last() =~= line);
        assert(all.skip(k as int + 1) =~= ending.skip(2));
        assert(lines(all) =~= seq![line] + lines(ending.skip(2)));
        assert(lines(all).drop_first() =~= lines(ending.skip(2)));
    } else if ending.len() > 0 {
        assert(all[line.len() as int] == '\n');
        lemma_until_is(all, is_char('\n'), line.len());
        assert(all.take(line.len() as int) =~= line);
        assert(all.skip(line.len() as int + 1) =~= ending.skip(1));
        assert(lines(all) =~= seq![line] + lines(ending.skip(1)));
        assert(lines(all).drop_first() =~= lines(ending.skip(1)));
    } else {
        lemma_until_is(all, is_char('\n'), all.len());
        assert(all =~= line);
    }
}

proof fn lemma_plain_title(t: Seq<char>)
    requires
        plain_line(t),
    ensures
        plain_title(t) == collapsed(t),
        trimmed(t) == t,
{
    let none = Seq::<char>::empty();
    law_trimming(none, t, none);
    assert(none + t + none =~= t);
    assert(!has_markup(t)) by {
        if has_markup(t) {
            let i = choose|i: int| 0 <= i < t.len() && markup_char(#[trigger] t[i]);
            assert(markup_char(t[i]));
        }
    }
    assert(trimmed_start(t) =~= t);
    lemma_run(t, is_digit());
    let k = run(t, is_digit()) as int;
    if looks_like_block(t) {
        assert(0 < k < t.len() - 1 && (t[k] == '.' || t[k] == ')'));
        assert forall|i: int| 0 <= i < k implies '0' <= #[trigger] t[i] <= '9' by {
            assert(is_digit()(t[i]));
        }
        assert(numbered(t));
    }
}

/// A line of one to six number signs, a space or a tab, and a text is a heading, with number signs
/// behind the text or not.
proof fn lemma_atx(n: nat, gap: char, t: Seq<char>, m: nat)
    requires
        1 <= n <= 6,
        gap == ' ' || gap == '\t',
        plain_line(t),
    ensures
        atx_heading(many('#', n) + seq![gap] + t) == Some(t),
        atx_heading(many('#', n) + seq![gap] + t + seq![' '] + many('#', m)) == Some(t),
{
    let none = Seq::<char>::empty();
    lemma_plain_title(t);
    let short = many('#', n) + seq![gap] + t;
    let long = many('#', n) + seq![gap] + t + seq![' '] + many('#', m);
    lemma_level(n, seq![gap] + t);
    assert(short =~= many('#', n) + (seq![gap] + t));
    lemma_level(n, seq![gap] + t + seq![' '] + many('#', m));
    assert(long =~= many('#', n) + (seq![gap] + t + seq![' '] + many('#', m)));
    law_trimming(seq![gap], t, none);
    assert(seq![gap] + t + none =~= seq![gap] + t);
    lemma_trimmed_end_is(t, is_char('#'), t.len() as int);
    assert(t.take(t.len() as int) =~= t);
    if m == 0 {
        law_trimming(seq![gap], t, seq![' ']);
        assert(seq![gap] + t + seq![' '] + many('#', m) =~= seq![gap] + t + seq![' ']);
    } else {
        let closed = t + seq![' '] + many('#', m);
        law_trimming(seq![gap], closed, none);
        assert(seq![gap] + closed + none =~= seq![gap] + t + seq![' '] + many('#', m));
        lemma_trimmed_end_is(closed, is_char('#'), t.len() as int + 1);
        assert(closed.take(t.len() as int + 1) =~= t + seq![' ']);
        law_trimming(none, t, seq![' ']);
        assert(none + t + seq![' '] =~= t + seq![' ']);
    }
}

/// The number signs that a line begins with.
proof fn lemma_level(n: nat, rest: Seq<char>)
    requires
        n > 0,
        rest.len() > 0 ==> rest[0] != '#',
    ensures
        ({
            let line = many('#', n) + rest;
            &&& trimmed_start(line) == line
            &&& run(line, is_char('#')) == n
            &&& line.skip(n as int) == rest
        }),
{
    let line = many('#', n) + rest;
    assert(!is_space()(line[0]));
    lemma_run_is(line, is_space(), 0);
    assert(line.skip(0) =~= line);
    assert forall|i: int| 0 <= i < n implies is_char('#')(#[trigger] line[i]) by {}
    if rest.len() > 0 {
        assert(line[n as int] == rest[0]);
    }
    lemma_run_is(line, is_char('#'), n);
    assert(line.skip(n as int) =~= rest);
}

/// The title of a document that begins with a heading of any of the six levels is the text of the
/// heading with its white space collapsed, whatever follows, and with number signs behind it or
/// not. Where the text is tidy, it is the text itself.
pub proof fn law_headings_of_every_level_are_titles(
    n: nat,
    gap: char,
    t: Seq<char>,
    m: nat,
    ending: Seq<char>,
)
    requires
        1 <= n <= 6,
        gap == ' ' || gap == '\t',
        plain_line(t),
        line_end(ending),
    ensures
        title_of(many('#', n) + seq![gap] + t + ending) == collapsed(t),
        title_of(many('#', n) + seq![gap] + t + seq![' '] + many('#', m) + ending) == collapsed(t),
        tidy(t) ==> title_of(many('#', n) + seq![gap] + t + ending) == Some(t),
{
    let short = many('#', n) + seq![gap] + t;
    let long = many('#', n) + seq![gap] + t + seq![' '] + many('#', m);
    lemma_atx(n, gap, t, m);
    lemma_plain_title(t);
    assert forall|i: int| 0 <= i < short.len() implies #[trigger] short[i] != '\n' by {
        if i > n {
            assert(short[i] == t[i - n - 1]);
        }
    }
    assert forall|i: int| 0 <= i < long.len() implies #[trigger] long[i] != '\n' by {
        if n < i <= n + t.len() {
            assert(long[i] == t[i - n - 1]);
        }
    }
    assert(short[short.len() - 1] == t[t.len() - 1]);
    lemma_first_line(short, ending);
    lemma_first_line(long, ending);
    if tidy(t) {
        law_tidy_text_stays(t);
    }
}

/// White space before the number signs of a heading does not matter.
pub proof fn law_headings_may_be_indented(lead: Seq<char>, n: nat, t: Seq<char>, ending: Seq<char>)
    requires
        blank(lead),
        forall|i: int| 0 <= i < lead.len() ==> #[trigger] lead[i] != '\n',
        1 <= n <= 6,
        plain_line(t),
        line_end(ending),
    ensures
        title_of(lead + many('#', n) + seq![' '] + t + ending) == collapsed(t),
{
    let line = many('#', n) + seq![' '] + t;
    let all = lead + many('#', n) + seq![' '] + t;
    let none = Seq::<char>::empty();
    law_trimming(lead, line, none);
    law_trimming(none, line, none);
    assert(lead + line + none =~= all);
    assert(none + line + none =~= line);
    assert(line + none =~= line);
    assert(atx_heading(all) == atx_heading(line));
    lemma_atx(n, ' ', t, 0);
    lemma_plain_title(t);
    assert(all =~= lead + line);
    assert forall|i: int| 0 <= i < all.len() implies #[trigger] all[i] != '\n' by {
        if i < lead.len() {
            assert(all[i] == lead[i]);
        } else if i > lead.len() + n {
            assert(all[i] == t[i - lead.len() - n - 1]);
        }
    }
    assert(all[all.len() - 1] == t[t.len() - 1]);
    lemma_first_line(all, ending);
}

/// A line underlined with equals signs or hyphens is a title, whatever follows.
pub proof fn law_underlined_lines_are_titles(
    t: Seq<char>,
    feed: Seq<char>,
    mark: char,
    n: nat,
    ending: Seq<char>,
)
    requires
        plain_line(t),
        feed == seq!['\n'] || feed == seq!['\r', '\n'],
        mark == '=' || mark == '-',
        n > 0,
        line_end(ending),
    ensures
        title_of(t + feed + many(mark, n) + ending) == collapsed(t),
        tidy(t) ==> title_of(t + feed + many(mark, n) + ending) == Some(t),
{
    let none = Seq::<char>::empty();
    let underline = many(mark, n);
    let rest = underline + ending;
    let all = t + feed + underline + ending;
    lemma_plain_title(t);
    assert(all =~= t + (feed + rest));
    assert((feed + rest)[0] == feed[0]);
    assert(feed.len() == 2 ==> (feed + rest)[1] == feed[1]);
    lemma_first_line(t, feed + rest);
    assert(next_lines(feed + rest) =~= rest);
    lemma_first_line(underline, ending);
    law_trimming(none, underline, none);
    assert(none + underline + none =~= underline);
    assert(all_of(underline, mark));
    assert(is_underline(underline));
    assert(atx_heading(t) is None) by {
        lemma_run_is(t, is_char('#'), 0);
        assert(trimmed_start(t) =~= t) by {
            law_trimming(none, t, none);
            assert(none + t + none =~= t);
            assert(t + none =~= t);
        }
    }
    assert(heading_at(None, t) is None);
    assert(heading_at(Some(t), underline) == Some(t));
    assert(lines(all)[0] == t);
    assert(lines(all).drop_first()[0] == underline);
    assert(first_heading(None, lines(all)) == first_heading(Some(t), lines(all).drop_first()));
    if tidy(t) {
        law_tidy_text_stays(t);
    }
}

/// Whether a line is no heading by itself: it is empty, or begins with something else than white
/// space and a number sign, or with more than six number signs, or with number signs and something
/// else than white space.
pub open spec fn no_heading(line: Seq<char>, n: nat) -> bool {
    &&& forall|i: int| 0 <= i < line.len() ==> #[trigger] line[i] != '\n'
    &&& line.len() > 0 ==> line[line.len() - 1] != '\r'
    &&& n <= line.len()
    &&& forall|i: int| 0 <= i < n ==> #[trigger] line[i] == '#'
    &&& n < line.len() ==> line[n as int] != '#'
    &&& n == 0 && line.len() > 0 ==> !white_space(line[0])
    &&& 1 <= n <= 6 && n < line.len() ==> !white_space(line[n as int])
}

/// A line that is no heading, and stands alone, has no part in the title: the search goes on behind
/// it.
pub proof fn law_other_lines_are_passed_over(line: Seq<char>, n: nat, rest: Seq<char>)
    requires
        no_heading(line, n),
    ensures
        title_of(line + seq!['\n', '\n'] + rest) == title_of(rest),
        title_of(line) is None,
{
    let none = Seq::<char>::empty();
    assert(atx_heading(line) is None) by {
        if line.len() > 0 {
            assert(!is_space()(line[0]));
        }
        lemma_run_is(line, is_space(), 0);
        assert(line.skip(0) =~= line);
        assert forall|i: int| 0 <= i < n implies is_char('#')(#[trigger] line[i]) by {}
        lemma_run_is(line, is_char('#'), n);
    }
    let ending = seq!['\n', '\n'] + rest;
    assert(line + ending =~= line + seq!['\n', '\n'] + rest);
    lemma_first_line(line, ending);
    let second = ending.skip(1);
    assert(next_lines(ending) == second);
    assert(next_lines(seq!['\n'] + rest) =~= rest);
    assert(second =~= none + (seq!['\n'] + rest));
    lemma_first_line(none, seq!['\n'] + rest);
    assert((seq!['\n'] + rest).skip(1) =~= rest);
    law_white_space_is_trimmed(none);
    assert(trimmed(none) =~= none);
    assert(heading_at(Some(line), none) is None) by {
        assert(trimmed_start(none) =~= none);
        assert(atx_heading(none) is None);
    }
    let all = lines(line + ending);
    assert(first_heading(None, all) == first_heading(Some(line), all.drop_first()));
    assert(first_heading(Some(line), all.drop_first()) == first_heading(
        Some(none),
        all.drop_first().drop_first(),
    ));
    let others = lines(rest);
    assert(all.drop_first().drop_first() == others);
    if others.len() > 0 {
        assert(setext_heading(Some(none), others[0]) is None);
        assert(heading_at(Some(none), others[0]) == heading_at(None, others[0]));
    }
    if line.len() > 0 {
        lemma_first_line(line, none);
        assert(line + none =~= line);
        let alone = lines(line);
        assert(alone.drop_first().len() == 0);
        assert(heading_at(None, alone[0]) is None);
        assert(first_heading(Some(line), alone.drop_first()) is None);
    } else {
        assert(lines(line).len() == 0);
    }
}

/// A blank line has no part in the title, and cannot be underlined.
pub proof fn law_blank_lines_are_passed_over(gap: Seq<char>, rest: Seq<char>)
    requires
        blank(gap),
        forall|i: int| 0 <= i < gap.len() ==> #[trigger] gap[i] != '\n',
        gap.len() > 0 ==> gap[gap.len() - 1] != '\r',
    ensures
        title_of(gap + seq!['\n'] + rest) == title_of(rest),
{
    let ending = seq!['\n'] + rest;
    assert(gap + ending =~= gap + seq!['\n'] + rest);
    assert(ending.skip(1) =~= rest);
    lemma_first_line(gap, ending);
    law_white_space_is_trimmed(gap);
    assert(atx_heading(gap) is None) by {
        assert(trimmed_start(gap).len() == 0) by {
            assert forall|i: int| 0 <= i < gap.len() implies is_space()(#[trigger] gap[i]) by {}
            lemma_run_is(gap, is_space(), gap.len());
        }
    }
    let all = lines(gap + ending);
    let others = lines(rest);
    assert(heading_at(None, gap) is None);
    assert(first_heading(None, all) == first_heading(Some(gap), all.drop_first()));
    assert(all.drop_first() == others);
    if others.len() > 0 {
        assert(setext_heading(Some(gap), others[0]) is None);
        assert(heading_at(Some(gap), others[0]) == heading_at(None, others[0]));
    }
}

/// A line that is no heading has no part in the title, either, where the next line follows at once
/// and begins with anything but white space or the sign of an underline.
pub proof fn law_text_may_stand_before_a_heading(line: Seq<char>, n: nat, rest: Seq<char>)
    requires
        no_heading(line, n),
        rest.len() > 0,
        rest[0] != '=' && rest[0] != '-',
        !white_space(rest[0]),
    ensures
        title_of(line + seq!['\n'] + rest) == title_of(rest),
{
    let ending = seq!['\n'] + rest;
    assert(line + ending =~= line + seq!['\n'] + rest);
    assert(ending.skip(1) =~= rest);
    lemma_first_line(line, ending);
    assert(atx_heading(line) is None) by {
        if line.len() > 0 {
            assert(!is_space()(line[0]));
        }
        lemma_run_is(line, is_space(), 0);
        assert(line.skip(0) =~= line);
        assert forall|i: int| 0 <= i < n implies is_char('#')(#[trigger] line[i]) by {}
        lemma_run_is(line, is_char('#'), n);
    }
    let all = lines(line + ending);
    let others = lines(rest);
    assert(heading_at(None, line) is None);
    assert(first_heading(None, all) == first_heading(Some(line), all.drop_first()));
    assert(all.drop_first() == others);
    lemma_until(rest, is_char('\n'));
    let k = until(rest, is_char('\n')) as int;
    assert(white_space('\n') && white_space('\r'));
    assert(k > 0);
    let first = others[0];
    assert(first.len() > 0 && first[0] == rest[0]) by {
        if k < rest.len() && rest.take(k).last() == '\r' {
            assert(k > 1);
        }
    }
    assert(!is_underline(first)) by {
        let mark = first[0];
        lemma_trimmed_keeps_first(first);
        assert(trimmed(first)[0] == mark);
    }
    assert(setext_heading(Some(line), first) is None);
    assert(heading_at(Some(line), first) == heading_at(None, first));
}

proof fn lemma_trimmed_keeps_first(s: Seq<char>)
    requires
        s.len() > 0,
        !white_space(s[0]),
    ensures
        trimmed(s).len() > 0,
        trimmed(s)[0] == s[0],
{
    assert(!is_space()(s[0]));
    lemma_run_is(s, is_space(), 0);
    assert(s.skip(0) =~= s);
    lemma_end_keeps_first(s);
}

proof fn lemma_end_keeps_first(s: Seq<char>)
    requires
        s.len() > 0,
        !is_space()(s[0]),
    ensures
        trimmed_end_of(s, is_space()).len() > 0,
        trimmed_end_of(s, is_space())[0] == s[0],
    decreases s.len(),
{
    if is_space()(s.last()) {
        lemma_end_keeps_first(s.drop_last());
    }
}

// ---------------------------------------------------------------------------
// Markup, and documents without a heading
// ---------------------------------------------------------------------------

/// A heading with a mark of inline markup in it is parsed, and has the text of its nodes as its
/// title.
pub proof fn law_markup_is_parsed(t: Seq<char>, i: int)
    requires
        0 <= i < t.len(),
        t[i] == '*' || t[i] == '_' || t[i] == '`' || t[i] == '[' || t[i] == ']' || t[i] == '<'
            || t[i] == '&' || t[i] == '\\',
    ensures
        plain_title(t) == collapsed(nodes_text(parsed_nodes(t))),
{
    assert(markup_char(t[i]));
}

/// A heading that begins with the marker of a block is parsed, too: a quotation, an item of a list
/// with a mark and a space, or one with a number, a point or a bracket, and a space or a tab.
pub proof fn law_block_markers_are_parsed(t: Seq<char>)
    requires
        t.len() > 1,
        t[0] == '>' || ((t[0] == '-' || t[0] == '+') && t[1] == ' ') || numbered(t),
    ensures
        plain_title(t) == collapsed(nodes_text(parsed_nodes(t))),
{
    assert(trimmed_start(t) =~= t) by {
        if numbered(t) {
            let k = choose|k: int|
                #![trigger t[k]]
                0 < k < t.len() - 1 && (t[k] == '.' || t[k] == ')') && (t[k + 1] == ' ' || t[k + 1]
                    == '\t') && forall|i: int| 0 <= i < k ==> '0' <= #[trigger] t[i] <= '9';
            assert('0' <= t[0] <= '9');
        }
        lemma_run_is(t, is_space(), 0);
    }
    if numbered(t) {
        let k = choose|k: int|
            #![trigger t[k]]
            0 < k < t.len() - 1 && (t[k] == '.' || t[k] == ')') && (t[k + 1] == ' ' || t[k + 1]
                == '\t') && forall|i: int| 0 <= i < k ==> '0' <= #[trigger] t[i] <= '9';
        assert forall|i: int| 0 <= i < k implies is_digit()(#[trigger] t[i]) by {
            assert('0' <= t[i] <= '9');
        }
        lemma_run_is(t, is_digit(), k as nat);
    }
}

/// The text of nodes is the text of the first of them, and then that of the others; text and code
/// stand as they are, a break is a space, and nothing else has text.
pub proof fn law_nodes_are_read_in_order(nodes: Seq<HeadingNodeView>, text: Seq<char>)
    ensures
        nodes_text(nodes.push(HeadingNodeView::Text(text))) == nodes_text(nodes) + text,
        nodes_text(nodes.push(HeadingNodeView::Code(text))) == nodes_text(nodes) + text,
        nodes_text(nodes.push(HeadingNodeView::SoftBreak)) == nodes_text(nodes) + seq![' '],
        nodes_text(nodes.push(HeadingNodeView::LineBreak)) == nodes_text(nodes) + seq![' '],
        nodes_text(nodes.push(HeadingNodeView::Other)) == nodes_text(nodes),
        nodes_text(Seq::empty()).len() == 0,
{
    assert(nodes.push(HeadingNodeView::Text(text)).drop_last() =~= nodes);
    assert(nodes.push(HeadingNodeView::Code(text)).drop_last() =~= nodes);
    assert(nodes.push(HeadingNodeView::SoftBreak).drop_last() =~= nodes);
    assert(nodes.push(HeadingNodeView::LineBreak).drop_last() =~= nodes);
    assert(nodes.push(HeadingNodeView::Other).drop_last() =~= nodes);
    assert(nodes_text(nodes) + Seq::<char>::empty() =~= nodes_text(nodes));
}

/// A document without a heading, or that cannot be read, is called by the stem of its name, with
/// every hyphen and underscore made a space and nothing else changed.
pub proof fn law_documents_without_heading_have_their_stem(
    directory: Seq<Seq<u8>>,
    stem: Seq<u8>,
    extension: Seq<u8>,
    contents: Result<Vec<u8>, String>,
)
    requires
        stem.len() > 0,
        valid_utf8(stem),
        forall|i: int| 0 <= i < extension.len() ==> #[trigger] extension[i] != 46,
        contents matches Ok(bytes) ==> title_in(bytes@) is None,
    ensures
        ({
            let title = document_title(
                directory.push(stem + seq![46u8] + extension),
                contents,
            );
            let text = decode_utf8(stem);
            &&& title.len() == text.len()
            &&& forall|i: int|
                0 <= i < text.len() ==> #[trigger] title[i] == (if text[i] == '-' || text[i] == '_' {
                    ' '
                } else {
                    text[i]
                })
        }),
{
    law_names_are_split_at_their_last_dot(stem, extension);
    assert(directory.push(stem + seq![46u8] + extension).last() == stem + seq![46u8] + extension);
}

/// A document without a heading whose name is not UTF-8 has no title of its own.
pub proof fn law_documents_may_be_untitled(
    directory: Seq<Seq<u8>>,
    stem: Seq<u8>,
    extension: Seq<u8>,
    contents: Result<Vec<u8>, String>,
)
    requires
        stem.len() > 0,
        !valid_utf8(stem),
        forall|i: int| 0 <= i < extension.len() ==> #[trigger] extension[i] != 46,
        contents matches Ok(bytes) ==> title_in(bytes@) is None,
    ensures
        document_title(directory.push(stem + seq![46u8] + extension), contents) == "Untitled"@,
{
    law_names_are_split_at_their_last_dot(stem, extension);
    assert(directory.push(stem + seq![46u8] + extension).last() == stem + seq![46u8] + extension);
}

/// A document with a title in the first 65536 bytes of its contents has that title, and what
/// follows them has no part in it.
pub proof fn law_titles_are_searched_in_the_first_bytes(
    path: Seq<Seq<u8>>,
    bytes: Vec<u8>,
    start: Seq<u8>,
    rest: Seq<u8>,
)
    requires
        bytes@ == start + rest,
        start.len() <= 65536,
        rest.len() > 0 ==> start.len() == 65536,
        valid_utf8(start),
        title_of(decode_utf8(start)) is Some,
    ensures
        document_title(path, Ok(bytes)) == title_of(decode_utf8(start))->0,
{
    if rest.len() == 0 {
        assert(start + rest =~= start);
    } else {
        assert((start + rest).take(65536) =~= start);
    }
}

} // verus!

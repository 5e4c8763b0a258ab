//! How an nginx configuration is read: what is written as a tree of statements
//! is read as that tree.

use super::nginx::{lemma_ahead_twice, lemma_start_is_free};
use super::text::{blank, law_first_character, law_numbers_add_up, number_of};
use crate::parsers::nginx;
use crate::parsers::nginx::{BlockView, DirectiveView, ItemView, TokView};
use crate::parsers::{lemma_prepend_twice, prepended};
use crate::text;
use vstd::prelude::*;

verus! {

/// A piece of a word: one character, or a text between quotes.
pub enum Segment {
    Plain(char),
    Quoted(char, Seq<char>),
}

/// A statement: words and a semicolon, or words and a block.
pub enum Statement {
    Simple(Seq<Seq<Segment>>),
    Nested(Seq<Seq<Segment>>, Seq<Statement>),
}

/// Whether a piece can be part of a word.
pub open spec fn is_segment(s: Segment) -> bool {
    match s {
        Segment::Plain(c) => {
            &&& !text::is_white_space(c)
            &&& c != ';' && c != '{' && c != '}' && c != '#' && c != '"' && c != '\''
        },
        Segment::Quoted(q, t) => {
            &&& q == '"' || q == '\''
            &&& !t.contains(q)
            &&& !t.contains('\n')
        },
    }
}

/// How a word is written.
pub open spec fn raw_of(word: Seq<Segment>) -> Seq<char>
    decreases word.len(),
{
    if word.len() == 0 {
        Seq::empty()
    } else {
        (match word[0] {
            Segment::Plain(c) => seq![c],
            Segment::Quoted(q, t) => seq![q] + t + seq![q],
        }) + raw_of(word.drop_first())
    }
}

/// What a word says.
pub open spec fn said_of(word: Seq<Segment>) -> Seq<char>
    decreases word.len(),
{
    if word.len() == 0 {
        Seq::empty()
    } else {
        (match word[0] {
            Segment::Plain(c) => seq![c],
            Segment::Quoted(_, t) => t,
        }) + said_of(word.drop_first())
    }
}

/// Whether pieces make up a word.
pub open spec fn is_word(word: Seq<Segment>) -> bool {
    &&& forall|k: int| 0 <= k < word.len() ==> is_segment(#[trigger] word[k])
    &&& said_of(word).len() > 0
}

/// Whether words make up the head of a statement.
pub open spec fn is_head(words: Seq<Seq<Segment>>) -> bool {
    words.len() > 0 && forall|k: int| 0 <= k < words.len() ==> is_word(#[trigger] words[k])
}

/// Whether a statement can be written.
pub open spec fn is_statement(s: Statement) -> bool
    decreases s,
{
    match s {
        Statement::Simple(words) => is_head(words),
        Statement::Nested(words, children) => is_head(words) && are_statements(children),
    }
}

/// Whether each statement of a list can be written.
pub open spec fn are_statements(list: Seq<Statement>) -> bool
    decreases list,
{
    list.len() == 0 || (is_statement(list[0]) && are_statements(list.drop_first()))
}

/// How the words of a statement are written.
pub open spec fn raws(words: Seq<Seq<Segment>>) -> Seq<Seq<char>> {
    Seq::new(words.len(), |k: int| raw_of(words[k]))
}

/// What the words of a statement say.
pub open spec fn saids(words: Seq<Seq<Segment>>) -> Seq<Seq<char>> {
    Seq::new(words.len(), |k: int| said_of(words[k]))
}

/// Whether a text can stand between two words: white space of any kind, also
/// over several lines.
pub open spec fn is_gap(gap: Seq<char>) -> bool {
    blank(gap) && gap.len() > 0
}

/// The text of a statement, with a gap between each two words.
pub open spec fn statement_text(s: Statement, gap: Seq<char>) -> Seq<char>
    decreases s,
{
    match s {
        Statement::Simple(words) => text::joined(raws(words), gap) + seq![';', '\n'],
        Statement::Nested(words, children) => text::joined(raws(words), gap) + gap + seq!['{', '\n']
            + statements_text(children, gap) + seq!['}', '\n'],
    }
}

/// The text of some statements.
pub open spec fn statements_text(list: Seq<Statement>, gap: Seq<char>) -> Seq<char>
    decreases list,
{
    if list.len() == 0 {
        Seq::empty()
    } else {
        statement_text(list[0], gap) + statements_text(list.drop_first(), gap)
    }
}

/// The number of line ends between the words of a head.
pub open spec fn head_lines(words: Seq<Seq<Segment>>, gap: Seq<char>) -> nat
    decreases words.len(),
{
    if words.len() <= 1 {
        0
    } else {
        number_of(gap, '\n') + head_lines(words.drop_first(), gap)
    }
}

/// The number of lines of a statement.
pub open spec fn height(s: Statement, gap: Seq<char>) -> nat
    decreases s,
{
    match s {
        Statement::Simple(words) => head_lines(words, gap) + 1,
        Statement::Nested(words, children) => head_lines(words, gap) + number_of(gap, '\n') + 2
            + heights(children, gap),
    }
}

/// The number of lines of some statements.
pub open spec fn heights(list: Seq<Statement>, gap: Seq<char>) -> nat
    decreases list,
{
    if list.len() == 0 {
        0
    } else {
        height(list[0], gap) + heights(list.drop_first(), gap)
    }
}

/// What a statement that begins on a line is read as.
pub open spec fn item_of(s: Statement, gap: Seq<char>, line: nat) -> ItemView
    decreases s,
{
    match s {
        Statement::Simple(words) => ItemView::Directive(
            DirectiveView {
                keyword: text::lowered(said_of(words[0])),
                args: text::joined(saids(words.drop_first()), seq![' ']),
                line,
                raw: text::joined(raws(words), seq![' ']),
            },
        ),
        Statement::Nested(words, children) => ItemView::Block(
            BlockView {
                name: text::lowered(said_of(words[0])),
                args: text::joined(saids(words.drop_first()), seq![' ']),
                line,
                raw: text::joined(raws(words), seq![' ']),
                children: items_of(
                    children,
                    gap,
                    line + head_lines(words, gap) + number_of(gap, '\n') + 1,
                ),
            },
        ),
    }
}

/// What statements from a line on are read as.
pub open spec fn items_of(list: Seq<Statement>, gap: Seq<char>, line: nat) -> Seq<ItemView>
    decreases list,
{
    if list.len() == 0 {
        Seq::empty()
    } else {
        seq![item_of(list[0], gap, line)] + items_of(
            list.drop_first(),
            gap,
            line + height(list[0], gap),
        )
    }
}

spec fn word_tokens(words: Seq<Seq<Segment>>, gap: Seq<char>, line: nat) -> Seq<TokView>
    decreases words.len(),
{
    if words.len() == 0 {
        Seq::empty()
    } else {
        seq![TokView::Word(said_of(words[0]), raw_of(words[0]), line)] + word_tokens(
            words.drop_first(),
            gap,
            line + number_of(gap, '\n'),
        )
    }
}

spec fn tokens_of(s: Statement, gap: Seq<char>, line: nat) -> Seq<TokView>
    decreases s,
{
    match s {
        Statement::Simple(words) => word_tokens(words, gap, line) + seq![
            TokView::Semi(line + head_lines(words, gap)),
        ],
        Statement::Nested(words, children) => {
            let open = line + head_lines(words, gap) + number_of(gap, '\n');
            word_tokens(words, gap, line) + seq![TokView::LBrace(open)] + all_tokens_of(
                children,
                gap,
                open + 1,
            ) + seq![TokView::RBrace(open + 1 + heights(children, gap))]
        },
    }
}

spec fn all_tokens_of(list: Seq<Statement>, gap: Seq<char>, line: nat) -> Seq<TokView>
    decreases list,
{
    if list.len() == 0 {
        Seq::empty()
    } else {
        tokens_of(list[0], gap, line) + all_tokens_of(
            list.drop_first(),
            gap,
            line + height(list[0], gap),
        )
    }
}

proof fn lemma_no_newlines(s: Seq<char>)
    requires
        !s.contains('\n'),
    ensures
        nginx::newline_count(s) == 0,
    decreases s.len(),
{
    if s.len() > 0 {
        let front = s.drop_last();
        assert forall|i: int| 0 <= i < front.len() implies front[i] != '\n' by {
            assert(s.contains(s[i]));
        }
        lemma_no_newlines(front);
        assert(s.contains(s[s.len() - 1]));
    }
}

/// A word that goes on takes up its next pieces.
proof fn lemma_word(
    pieces: Seq<Segment>,
    rest: Seq<char>,
    line: nat,
    word: Seq<char>,
    raw: Seq<char>,
)
    requires
        forall|k: int| 0 <= k < pieces.len() ==> is_segment(#[trigger] pieces[k]),
    ensures
        nginx::lexed(raw_of(pieces) + rest, line, word, raw, line) == nginx::lexed(
            rest,
            line,
            word + said_of(pieces),
            raw + raw_of(pieces),
            line,
        ),
    decreases pieces.len(),
{
    if pieces.len() == 0 {
        assert(raw_of(pieces) + rest =~= rest);
        assert(word + said_of(pieces) =~= word);
        assert(raw + raw_of(pieces) =~= raw);
    } else {
        let tail = pieces.drop_first();
        assert forall|k: int| 0 <= k < tail.len() implies is_segment(#[trigger] tail[k]) by {
            assert(tail[k] == pieces[k + 1]);
        }
        assert(is_segment(pieces[0]));
        let s = raw_of(pieces) + rest;
        let after = raw_of(tail) + rest;
        match pieces[0] {
            Segment::Plain(c) => {
                assert(s =~= seq![c] + after);
                assert(s[0] == c);
                assert(s.drop_first() =~= after);
                lemma_word(tail, rest, line, word.push(c), raw.push(c));
                assert(word.push(c) + said_of(tail) =~= word + said_of(pieces));
                assert(raw.push(c) + raw_of(tail) =~= raw + raw_of(pieces));
            },
            Segment::Quoted(q, t) => {
                assert(s =~= seq![q] + (t + seq![q] + after));
                assert(s[0] == q);
                let inner = t + seq![q] + after;
                assert(s.drop_first() =~= inner);
                law_first_character(t, q, after);
                assert(inner.take(t.len() as int) =~= t);
                assert(inner.skip(t.len() as int + 1) =~= after);
                assert(s.take(t.len() as int + 2) =~= seq![q] + t + seq![q]);
                lemma_no_newlines(t);
                let quoted = seq![q] + t + seq![q];
                lemma_word(tail, rest, line, word + t, raw + quoted);
                assert(word + t + said_of(tail) =~= word + said_of(pieces));
                assert(raw + quoted + raw_of(tail) =~= raw + raw_of(pieces));
            },
        }
    }
}

pub(crate) proof fn lemma_joined_front(
    first: Seq<char>,
    rest: Seq<Seq<char>>,
    sep: Seq<char>,
)
    requires
        rest.len() > 0,
    ensures
        text::joined(seq![first] + rest, sep) == first + sep + text::joined(rest, sep),
    decreases rest.len(),
{
    let all = seq![first] + rest;
    reveal_with_fuel(text::joined, 2);
    if rest.len() == 1 {
        assert(all.drop_last() =~= seq![first]);
        assert(all.last() == rest[0]);
    } else {
        let front = rest.drop_last();
        lemma_joined_front(first, front, sep);
        assert(all.drop_last() =~= seq![first] + front);
        assert(all.last() == rest.last());
        assert(text::joined(all, sep) =~= first + sep + text::joined(rest, sep));
    }
}

/// The rest of a text behind some statements.
spec fn lexed_from(s: Seq<char>, line: nat) -> Result<Seq<TokView>, Seq<char>> {
    nginx::lexed(s, line, Seq::empty(), Seq::empty(), line)
}

proof fn lemma_newline(rest: Seq<char>, line: nat)
    ensures
        lexed_from(seq!['\n'] + rest, line) == lexed_from(rest, line + 1),
{
    let none = Seq::<char>::empty();
    let s = seq!['\n'] + rest;
    assert(s[0] == '\n');
    assert(s.drop_first() =~= rest);
    lemma_start_is_free(rest, line + 1, none, line, line + 1);
    crate::parsers::lemma_prepend_nothing(lexed_from(rest, line + 1));
    assert(nginx::flushed(none, none, line) =~= Seq::<TokView>::empty());
}

/// White space ends a word, and moves down by its line ends.
proof fn lemma_gap(gap: Seq<char>, rest: Seq<char>, line: nat, word: Seq<char>, raw: Seq<char>)
    requires
        is_gap(gap),
    ensures
        nginx::lexed(gap + rest, line, word, raw, line) == prepended(
            nginx::flushed(word, raw, line),
            lexed_from(rest, line + number_of(gap, '\n')),
        ),
    decreases gap.len(),
{
    let none = Seq::<char>::empty();
    let c = gap[0];
    let tail = gap.drop_first();
    let s = gap + rest;
    assert(s[0] == c);
    assert(s.drop_first() =~= tail + rest);
    assert(text::is_white_space(gap[0]));
    let down = if c == '\n' {
        line + 1
    } else {
        line
    };
    assert(gap =~= seq![c] + tail);
    law_numbers_add_up(seq![c], tail, '\n');
    assert(number_of(seq![c], '\n') == if c == '\n' {
        1nat
    } else {
        0nat
    }) by {
        law_numbers_add_up(seq![c], none, '\n');
        if c != '\n' {
            assert(!seq![c].contains('\n'));
        }
    }
    lemma_start_is_free(tail + rest, down, none, line, down);
    assert(nginx::lexed(s, line, word, raw, line) == prepended(
        nginx::flushed(word, raw, line),
        lexed_from(tail + rest, down),
    ));
    if tail.len() == 0 {
        assert(tail + rest =~= rest);
        law_numbers_add_up(tail, none, '\n');
    } else {
        assert forall|i: int| 0 <= i < tail.len() implies #[trigger] text::is_white_space(
            tail[i],
        ) by {
            assert(tail[i] == gap[i + 1]);
        }
        lemma_gap(tail, rest, down, none, none);
        assert(nginx::flushed(none, none, down) =~= Seq::<TokView>::empty());
        crate::parsers::lemma_prepend_nothing(lexed_from(rest, down + number_of(tail, '\n')));
    }
}

/// The words of a head, with the last one still open.
proof fn lemma_head(words: Seq<Seq<Segment>>, gap: Seq<char>, rest: Seq<char>, line: nat)
    requires
        is_head(words),
        is_gap(gap),
    ensures
        lexed_from(text::joined(raws(words), gap) + rest, line) == prepended(
            word_tokens(words.drop_last(), gap, line),
            nginx::lexed(
                rest,
                line + head_lines(words, gap),
                said_of(words.last()),
                raw_of(words.last()),
                line + head_lines(words, gap),
            ),
        ),
    decreases words.len(),
{
    let none = Seq::<char>::empty();
    let first = words[0];
    assert(is_word(words[0]));
    assert(none + said_of(first) =~= said_of(first));
    assert(none + raw_of(first) =~= raw_of(first));
    if words.len() == 1 {
        assert(raws(words) =~= seq![raw_of(first)]);
        lemma_word(first, rest, line, none, none);
        assert(word_tokens(words.drop_last(), gap, line) =~= Seq::<TokView>::empty());
        crate::parsers::lemma_prepend_nothing(
            nginx::lexed(rest, line, said_of(words.last()), raw_of(words.last()), line),
        );
    } else {
        let tail = words.drop_first();
        assert forall|k: int| 0 <= k < tail.len() implies is_word(#[trigger] tail[k]) by {
            assert(tail[k] == words[k + 1]);
        }
        let done = seq![TokView::Word(said_of(first), raw_of(first), line)];
        assert(nginx::flushed(said_of(first), raw_of(first), line) =~= done);
        let down = line + number_of(gap, '\n');
        assert(raws(words) =~= seq![raw_of(first)] + raws(tail));
        lemma_joined_front(raw_of(first), raws(tail), gap);
        let after = text::joined(raws(tail), gap) + rest;
        assert(text::joined(raws(words), gap) + rest =~= raw_of(first) + (gap + after));
        lemma_word(first, gap + after, line, none, none);
        lemma_gap(gap, after, line, said_of(first), raw_of(first));
        lemma_head(tail, gap, rest, down);
        assert(tail.last() == words.last());
        let low = down + head_lines(tail, gap);
        assert(low == line + head_lines(words, gap));
        lemma_prepend_twice(
            done,
            word_tokens(tail.drop_last(), gap, down),
            nginx::lexed(rest, low, said_of(words.last()), raw_of(words.last()), low),
        );
        assert(words.drop_last().drop_first() =~= tail.drop_last());
        assert(words.drop_last()[0] == first);
        assert(done + word_tokens(tail.drop_last(), gap, down) =~= word_tokens(
            words.drop_last(),
            gap,
            line,
        ));
    }
}

proof fn lemma_head_tokens(words: Seq<Seq<Segment>>, gap: Seq<char>, line: nat)
    requires
        is_head(words),
    ensures
        word_tokens(words.drop_last(), gap, line) + nginx::flushed(
            said_of(words.last()),
            raw_of(words.last()),
            line + head_lines(words, gap),
        ) == word_tokens(words, gap, line),
        word_tokens(words, gap, line).len() == words.len(),
    decreases words.len(),
{
    assert(is_word(words[words.len() - 1]));
    let tail = words.drop_first();
    if words.len() == 1 {
        reveal_with_fuel(word_tokens, 2);
        assert(word_tokens(words.drop_last(), gap, line) =~= Seq::<TokView>::empty());
        assert(word_tokens(tail, gap, line + number_of(gap, '\n')) =~= Seq::<TokView>::empty());
        assert(word_tokens(words.drop_last(), gap, line) + nginx::flushed(
            said_of(words.last()),
            raw_of(words.last()),
            line,
        ) =~= word_tokens(words, gap, line));
    } else {
        assert forall|k: int| 0 <= k < tail.len() implies is_word(#[trigger] tail[k]) by {
            assert(tail[k] == words[k + 1]);
        }
        let down = line + number_of(gap, '\n');
        lemma_head_tokens(tail, gap, down);
        assert(words.drop_last().drop_first() =~= tail.drop_last());
        assert(words.drop_last()[0] == words[0]);
        assert(tail.last() == words.last());
        assert(word_tokens(words.drop_last(), gap, line) + nginx::flushed(
            said_of(words.last()),
            raw_of(words.last()),
            line + head_lines(words, gap),
        ) =~= word_tokens(words, gap, line));
    }
}

/// The token of a sign.
spec fn sign(c: char, line: nat) -> TokView {
    if c == ';' {
        TokView::Semi(line)
    } else if c == '{' {
        TokView::LBrace(line)
    } else {
        TokView::RBrace(line)
    }
}

proof fn lemma_sign(c: char, rest: Seq<char>, line: nat, word: Seq<char>, raw: Seq<char>)
    requires
        c == ';' || c == '{' || c == '}',
    ensures
        nginx::lexed(seq![c] + rest, line, word, raw, line) == prepended(
            nginx::flushed(word, raw, line).push(sign(c, line)),
            lexed_from(rest, line),
        ),
{
    let s = seq![c] + rest;
    assert(s[0] == c);
    assert(s.drop_first() =~= rest);
}

/// A head and the sign directly behind it.
proof fn lemma_simple(
    words: Seq<Seq<Segment>>,
    gap: Seq<char>,
    c: char,
    rest: Seq<char>,
    line: nat,
)
    requires
        is_head(words),
        is_gap(gap),
        c == ';' || c == '{' || c == '}',
    ensures
        lexed_from(text::joined(raws(words), gap) + (seq![c] + rest), line) == prepended(
            word_tokens(words, gap, line) + seq![sign(c, line + head_lines(words, gap))],
            lexed_from(rest, line + head_lines(words, gap)),
        ),
{
    lemma_head(words, gap, seq![c] + rest, line);
    lemma_head_tokens(words, gap, line);
    let low = line + head_lines(words, gap);
    let word = said_of(words.last());
    let raw = raw_of(words.last());
    lemma_sign(c, rest, low, word, raw);
    let done = nginx::flushed(word, raw, low);
    let front = word_tokens(words.drop_last(), gap, line);
    lemma_prepend_twice(front, done.push(sign(c, low)), lexed_from(rest, low));
    assert(front + done.push(sign(c, low)) =~= word_tokens(words, gap, line) + seq![sign(c, low)]);
}

/// A head and the brace that opens its block.
proof fn lemma_opening(words: Seq<Seq<Segment>>, gap: Seq<char>, rest: Seq<char>, line: nat)
    requires
        is_head(words),
        is_gap(gap),
    ensures
        lexed_from(text::joined(raws(words), gap) + (gap + (seq!['{', '\n'] + rest)), line)
            == prepended(
            word_tokens(words, gap, line) + seq![
                TokView::LBrace(line + head_lines(words, gap) + number_of(gap, '\n')),
            ],
            lexed_from(rest, line + head_lines(words, gap) + number_of(gap, '\n') + 1),
        ),
{
    let none = Seq::<char>::empty();
    let after = seq!['\n'] + rest;
    let brace = seq!['{'] + after;
    assert(seq!['{', '\n'] + rest =~= brace);
    lemma_head(words, gap, gap + brace, line);
    lemma_head_tokens(words, gap, line);
    let low = line + head_lines(words, gap);
    let word = said_of(words.last());
    let raw = raw_of(words.last());
    lemma_gap(gap, brace, low, word, raw);
    let at = low + number_of(gap, '\n');
    lemma_sign('{', after, at, none, none);
    lemma_newline(rest, at);
    let done = nginx::flushed(word, raw, low);
    let open = seq![TokView::LBrace(at)];
    assert(nginx::flushed(none, none, at).push(sign('{', at)) =~= open);
    let front = word_tokens(words.drop_last(), gap, line);
    let tail = lexed_from(rest, at + 1);
    lemma_prepend_twice(done, open, tail);
    lemma_prepend_twice(front, done + open, tail);
    assert(front + (done + open) =~= word_tokens(words, gap, line) + open);
}

proof fn lemma_closing(rest: Seq<char>, line: nat)
    ensures
        lexed_from(seq!['}', '\n'] + rest, line) == prepended(
            seq![TokView::RBrace(line)],
            lexed_from(rest, line + 1),
        ),
{
    let none = Seq::<char>::empty();
    let after = seq!['\n'] + rest;
    assert(seq!['}', '\n'] + rest =~= seq!['}'] + after);
    lemma_sign('}', after, line, none, none);
    lemma_newline(rest, line);
    assert(nginx::flushed(none, none, line).push(sign('}', line)) =~= seq![TokView::RBrace(line)]);
}

proof fn lemma_statement_lexed(s: Statement, gap: Seq<char>, rest: Seq<char>, line: nat)
    requires
        is_statement(s),
        is_gap(gap),
    ensures
        lexed_from(statement_text(s, gap) + rest, line) == prepended(
            tokens_of(s, gap, line),
            lexed_from(rest, line + height(s, gap)),
        ),
    decreases s,
{
    match s {
        Statement::Simple(words) => {
            let after = seq!['\n'] + rest;
            assert(statement_text(s, gap) + rest =~= text::joined(raws(words), gap) + (seq![';']
                + after));
            lemma_simple(words, gap, ';', after, line);
            lemma_newline(rest, line + head_lines(words, gap));
        },
        Statement::Nested(words, children) => {
            let end = seq!['}', '\n'] + rest;
            let inner = statements_text(children, gap) + end;
            assert(statement_text(s, gap) + rest =~= text::joined(raws(words), gap) + (gap + (seq![
                '{',
                '\n',
            ] + inner)));
            lemma_opening(words, gap, inner, line);
            let at = line + head_lines(words, gap) + number_of(gap, '\n');
            lemma_statements_lexed(children, gap, end, at + 1);
            let low = at + 1 + heights(children, gap);
            lemma_closing(rest, low);
            let head = word_tokens(words, gap, line) + seq![TokView::LBrace(at)];
            let close = seq![TokView::RBrace(low)];
            let body = all_tokens_of(children, gap, at + 1);
            let tail = lexed_from(rest, low + 1);
            lemma_prepend_twice(body, close, tail);
            lemma_prepend_twice(head, body + close, tail);
            assert(head + (body + close) =~= tokens_of(s, gap, line));
            assert(low + 1 == line + height(s, gap));
        },
    }
}

proof fn lemma_statements_lexed(list: Seq<Statement>, gap: Seq<char>, rest: Seq<char>, line: nat)
    requires
        are_statements(list),
        is_gap(gap),
    ensures
        lexed_from(statements_text(list, gap) + rest, line) == prepended(
            all_tokens_of(list, gap, line),
            lexed_from(rest, line + heights(list, gap)),
        ),
    decreases list,
{
    if list.len() == 0 {
        assert(statements_text(list, gap) + rest =~= rest);
        crate::parsers::lemma_prepend_nothing(lexed_from(rest, line));
        assert(all_tokens_of(list, gap, line) =~= Seq::<TokView>::empty());
    } else {
        let tail = list.drop_first();
        let behind = statements_text(tail, gap) + rest;
        assert(statements_text(list, gap) + rest =~= statement_text(list[0], gap) + behind);
        lemma_statement_lexed(list[0], gap, behind, line);
        lemma_statements_lexed(tail, gap, rest, line + height(list[0], gap));
        lemma_prepend_twice(
            tokens_of(list[0], gap, line),
            all_tokens_of(tail, gap, line + height(list[0], gap)),
            lexed_from(rest, line + heights(list, gap)),
        );
    }
}

/// Whether the tokens from a position on begin with some tokens.
spec fn stand_at(toks: Seq<TokView>, pos: int, part: Seq<TokView>) -> bool {
    &&& 0 <= pos
    &&& pos + part.len() <= toks.len()
    &&& forall|k: int| 0 <= k < part.len() ==> #[trigger] part[k] == toks[pos + k]
}

proof fn lemma_stand_add(toks: Seq<TokView>, pos: int, a: Seq<TokView>, b: Seq<TokView>)
    requires
        stand_at(toks, pos, a + b),
    ensures
        stand_at(toks, pos, a),
        stand_at(toks, pos + a.len(), b),
{
    assert forall|k: int| 0 <= k < a.len() implies #[trigger] a[k] == toks[pos + k] by {
        assert((a + b)[k] == a[k]);
    }
    assert forall|k: int| 0 <= k < b.len() implies #[trigger] b[k] == toks[pos + a.len() + k] by {
        assert((a + b)[a.len() + k] == b[k]);
    }
}

proof fn lemma_runs(
    toks: Seq<TokView>,
    pos: int,
    words: Seq<Seq<Segment>>,
    gap: Seq<char>,
    line: nat,
)
    requires
        stand_at(toks, pos, word_tokens(words, gap, line)),
        pos + words.len() < toks.len() ==> !(toks[pos + words.len()] is Word),
    ensures
        nginx::word_run(toks, pos) == saids(words),
        nginx::raw_run(toks, pos) == raws(words),
        word_tokens(words, gap, line).len() == words.len(),
        words.len() > 0 ==> toks[pos] == TokView::Word(said_of(words[0]), raw_of(words[0]), line),
    decreases words.len(),
{
    if words.len() == 0 {
        assert(saids(words) =~= Seq::<Seq<char>>::empty());
        assert(raws(words) =~= Seq::<Seq<char>>::empty());
        assert(word_tokens(words, gap, line).len() == 0);
    } else {
        let tail = words.drop_first();
        let down = line + number_of(gap, '\n');
        let first = seq![TokView::Word(said_of(words[0]), raw_of(words[0]), line)];
        lemma_stand_add(toks, pos, first, word_tokens(tail, gap, down));
        assert(first[0] == toks[pos + 0]);
        lemma_runs(toks, pos + 1, tail, gap, down);
        assert(saids(words) =~= seq![said_of(words[0])] + saids(tail));
        assert(raws(words) =~= seq![raw_of(words[0])] + raws(tail));
    }
}

proof fn lemma_fields(words: Seq<Seq<Segment>>)
    requires
        is_head(words),
    ensures
        saids(words).skip(1) == saids(words.drop_first()),
        saids(words)[0] == said_of(words[0]),
        " "@ == seq![' '],
{
    reveal_strlit(" ");
    assert(" "@ =~= seq![' ']);
    assert(saids(words).skip(1) =~= saids(words.drop_first()));
}

proof fn lemma_statement_level(
    toks: Seq<TokView>,
    pos: int,
    s: Statement,
    gap: Seq<char>,
    line: nat,
    top: bool,
)
    requires
        is_statement(s),
        stand_at(toks, pos, tokens_of(s, gap, line)),
    ensures
        nginx::level(toks, pos, top) == nginx::ahead(
            seq![item_of(s, gap, line)],
            nginx::level(toks, pos + tokens_of(s, gap, line).len(), top),
        ),
    decreases s,
{
    match s {
        Statement::Simple(words) => {
            let own = word_tokens(words, gap, line);
            let end = seq![TokView::Semi(line + head_lines(words, gap))];
            lemma_head_tokens(words, gap, line);
            lemma_stand_add(toks, pos, own, end);
            assert(end[0] == toks[pos + own.len() + 0]);
            lemma_runs(toks, pos, words, gap, line);
            lemma_fields(words);
            assert(tokens_of(s, gap, line).len() == words.len() + 1);
        },
        Statement::Nested(words, children) => {
            let own = word_tokens(words, gap, line);
            let at = line + head_lines(words, gap) + number_of(gap, '\n');
            let open = seq![TokView::LBrace(at)];
            let body = all_tokens_of(children, gap, at + 1);
            let close = seq![TokView::RBrace(at + 1 + heights(children, gap))];
            lemma_head_tokens(words, gap, line);
            lemma_stand_add(toks, pos, own + open + body, close);
            lemma_stand_add(toks, pos, own + open, body);
            lemma_stand_add(toks, pos, own, open);
            assert(open[0] == toks[pos + own.len() + 0]);
            lemma_runs(toks, pos, words, gap, line);
            lemma_fields(words);
            let inside = pos + words.len() + 1;
            assert((own + open).len() == words.len() + 1);
            lemma_statements_level(toks, inside, children, gap, at + 1, false);
            let last = inside + body.len();
            assert((own + open + body).len() == words.len() + 1 + body.len());
            assert(close[0] == toks[last + 0]);
            assert(nginx::level(toks, last, false) == Ok::<(Seq<ItemView>, int), Seq<char>>(
                (Seq::empty(), last + 1),
            ));
            let items = items_of(children, gap, at + 1);
            assert(items + Seq::<ItemView>::empty() =~= items);
            assert(tokens_of(s, gap, line).len() == words.len() + 2 + body.len());
            assert(pos < last + 1 <= toks.len());
        },
    }
}

proof fn lemma_statements_level(
    toks: Seq<TokView>,
    pos: int,
    list: Seq<Statement>,
    gap: Seq<char>,
    line: nat,
    top: bool,
)
    requires
        are_statements(list),
        stand_at(toks, pos, all_tokens_of(list, gap, line)),
    ensures
        nginx::level(toks, pos, top) == nginx::ahead(
            items_of(list, gap, line),
            nginx::level(toks, pos + all_tokens_of(list, gap, line).len(), top),
        ),
    decreases list,
{
    if list.len() == 0 {
        if let Ok((items, _)) = nginx::level(toks, pos, top) {
            assert(Seq::<ItemView>::empty() + items =~= items);
        }
        assert(items_of(list, gap, line) =~= Seq::<ItemView>::empty());
    } else {
        let first = tokens_of(list[0], gap, line);
        let tail = list.drop_first();
        let down = line + height(list[0], gap);
        lemma_stand_add(toks, pos, first, all_tokens_of(tail, gap, down));
        lemma_statement_level(toks, pos, list[0], gap, line, top);
        lemma_statements_level(toks, pos + first.len(), tail, gap, down, top);
        lemma_ahead_twice(
            seq![item_of(list[0], gap, line)],
            items_of(tail, gap, down),
            nginx::level(toks, pos + all_tokens_of(list, gap, line).len(), top),
        );
    }
}

/// What is written as a tree of statements is read as that tree, whatever white
/// space stands between the words: names in lower case, arguments with one
/// blank between them and without their quotes, and for each statement the line
/// on which it begins and its head with its quotes.
pub proof fn law_statements_are_read(list: Seq<Statement>, gap: Seq<char>)
    requires
        are_statements(list),
        is_gap(gap),
    ensures
        nginx::parsed_content(statements_text(list, gap)) == Ok::<Seq<ItemView>, Seq<char>>(
            items_of(list, gap, 1),
        ),
{
    let none = Seq::<char>::empty();
    lemma_statements_lexed(list, gap, none, 1);
    assert(statements_text(list, gap) + none =~= statements_text(list, gap));
    let toks = all_tokens_of(list, gap, 1);
    assert(toks + Seq::<TokView>::empty() =~= toks);
    assert(lexed_from(none, (1 + heights(list, gap)) as nat) == Ok::<Seq<TokView>, Seq<char>>(
        Seq::empty(),
    ));
    assert(nginx::tokens(statements_text(list, gap)) == Ok::<Seq<TokView>, Seq<char>>(toks));
    lemma_statements_level(toks, 0, list, gap, 1, true);
    let items = items_of(list, gap, 1);
    assert(items + Seq::<ItemView>::empty() =~= items);
}

proof fn lemma_comment(
    a: Seq<char>,
    comment: Seq<char>,
    b: Seq<char>,
    line: nat,
    word: Seq<char>,
    raw: Seq<char>,
    start: nat,
)
    requires
        nginx::lexed(a, line, word, raw, start) is Ok,
        !comment.contains('\n'),
    ensures
        nginx::lexed(a + (seq!['#'] + comment + seq!['\n'] + b), line, word, raw, start)
            == nginx::lexed(a + (seq!['\n'] + b), line, word, raw, start),
    decreases a.len(),
{
    let none = Seq::<char>::empty();
    let x = seq!['#'] + comment + seq!['\n'] + b;
    let y = seq!['\n'] + b;
    let word_start = if word.len() == 0 {
        line
    } else {
        start
    };
    if a.len() == 0 {
        assert(a + x =~= x);
        assert(a + y =~= y);
        assert(x[0] == '#');
        assert(y[0] == '\n');
        let rest = comment + seq!['\n'] + b;
        assert(x.drop_first() =~= rest);
        assert(y.drop_first() =~= b);
        law_first_character(comment, '\n', b);
        assert(rest.skip(comment.len() as int + 1) =~= b);
    } else {
        let c = a[0];
        let rest = a.drop_first();
        assert((a + x)[0] == c && (a + y)[0] == c);
        assert((a + x).drop_first() =~= rest + x);
        assert((a + y).drop_first() =~= rest + y);
        if c == '\n' {
            lemma_comment(rest, comment, b, line + 1, none, none, start);
        } else if c == '#' {
            let n = text::char_index(rest, '\n');
            text::lemma_char_index(rest, '\n');
            if n >= rest.len() {
                let open = rest + seq!['#'] + comment;
                assert forall|i: int| 0 <= i < open.len() implies open[i] != '\n' by {
                    if i < rest.len() {
                        assert(open[i] == rest[i]);
                    } else if i > rest.len() {
                        assert(open[i] == comment[i - rest.len() - 1]);
                        assert(comment.contains(comment[i - rest.len() - 1]));
                    }
                }
                assert forall|i: int| 0 <= i < rest.len() implies rest[i] != '\n' by {}
                law_first_character(open, '\n', b);
                law_first_character(rest, '\n', b);
                assert(rest + x =~= open + seq!['\n'] + b);
                assert(rest + y =~= rest + seq!['\n'] + b);
                assert((open + seq!['\n'] + b).skip(open.len() as int + 1) =~= b);
                assert((rest + seq!['\n'] + b).skip(rest.len() as int + 1) =~= b);
            } else {
                let head = rest.take(n);
                let tail = rest.skip(n + 1);
                assert forall|i: int| 0 <= i < head.len() implies head[i] != '\n' by {}
                assert(rest + x =~= head + seq!['\n'] + (tail + x));
                assert(rest + y =~= head + seq!['\n'] + (tail + y));
                law_first_character(head, '\n', tail + x);
                law_first_character(head, '\n', tail + y);
                assert((rest + x).skip(n + 1) =~= tail + x);
                assert((rest + y).skip(n + 1) =~= tail + y);
                lemma_comment(tail, comment, b, line + 1, none, none, start);
            }
        } else if c == '"' || c == '\'' {
            let n = text::char_index(rest, c);
            text::lemma_char_index(rest, c);
            if n < rest.len() {
                let head = rest.take(n);
                let tail = rest.skip(n + 1);
                assert forall|i: int| 0 <= i < head.len() implies head[i] != c by {}
                assert(rest + x =~= head + seq![c] + (tail + x));
                assert(rest + y =~= head + seq![c] + (tail + y));
                law_first_character(head, c, tail + x);
                law_first_character(head, c, tail + y);
                assert((rest + x).skip(n + 1) =~= tail + x);
                assert((rest + y).skip(n + 1) =~= tail + y);
                assert((rest + x).take(n) =~= head);
                assert((rest + y).take(n) =~= head);
                assert((a + x).take(n + 2) =~= a.take(n + 2));
                assert((a + y).take(n + 2) =~= a.take(n + 2));
                lemma_comment(
                    tail,
                    comment,
                    b,
                    line + nginx::newline_count(head),
                    word + head,
                    raw + a.take(n + 2),
                    word_start,
                );
            }
        } else if text::is_white_space(c) || c == ';' || c == '{' || c == '}' {
            lemma_comment(rest, comment, b, line, none, none, start);
        } else {
            lemma_comment(rest, comment, b, line, word.push(c), raw.push(c), word_start);
        }
    }
}

/// A `#` outside of quotes makes a comment of the rest of its line, also where
/// it stands directly behind a word.
pub proof fn law_comments_are_left_out(a: Seq<char>, comment: Seq<char>, b: Seq<char>)
    requires
        nginx::tokens(a) is Ok,
        !comment.contains('\n'),
    ensures
        nginx::parsed_content(a + (seq!['#'] + comment + seq!['\n'] + b)) == nginx::parsed_content(
            a + (seq!['\n'] + b),
        ),
{
    lemma_comment(a, comment, b, 1, Seq::empty(), Seq::empty(), 1);
}

/// White space in front of a text does not matter, but for its line ends.
pub proof fn law_leading_space_is_left_out(c: char, b: Seq<char>)
    requires
        text::is_white_space(c),
        c != '\n',
    ensures
        nginx::parsed_content(seq![c] + b) == nginx::parsed_content(b),
{
    let none = Seq::<char>::empty();
    assert(is_gap(seq![c]));
    lemma_gap(seq![c], b, 1, none, none);
    law_numbers_add_up(seq![c], none, '\n');
    assert(!seq![c].contains('\n'));
    assert(nginx::flushed(none, none, 1) =~= Seq::<TokView>::empty());
    crate::parsers::lemma_prepend_nothing(lexed_from(b, 1));
}

proof fn lemma_after(list: Seq<Statement>, gap: Seq<char>, end: Seq<char>, more: Seq<TokView>)
    requires
        are_statements(list),
        is_gap(gap),
        lexed_from(end, (1 + heights(list, gap)) as nat) == Ok::<Seq<TokView>, Seq<char>>(more),
    ensures
        nginx::tokens(statements_text(list, gap) + end) == Ok::<Seq<TokView>, Seq<char>>(
            all_tokens_of(list, gap, 1) + more,
        ),
        nginx::level(all_tokens_of(list, gap, 1) + more, 0, true) == nginx::ahead(
            items_of(list, gap, 1),
            nginx::level(
                all_tokens_of(list, gap, 1) + more,
                all_tokens_of(list, gap, 1).len() as int,
                true,
            ),
        ),
{
    lemma_statements_lexed(list, gap, end, 1);
    let toks = all_tokens_of(list, gap, 1);
    lemma_statements_level(toks + more, 0, list, gap, 1, true);
}

proof fn lemma_one_sign(c: char, line: nat)
    requires
        c == ';' || c == '{' || c == '}',
    ensures
        lexed_from(seq![c], line) == Ok::<Seq<TokView>, Seq<char>>(
            seq![sign(c, line)],
        ),
{
    let none = Seq::<char>::empty();
    assert(seq![c] + none =~= seq![c]);
    lemma_sign(c, none, line, none, none);
    assert(lexed_from(none, line) == Ok::<Seq<TokView>, Seq<char>>(Seq::empty()));
    let t = sign(c, line);
    assert(nginx::flushed(none, none, line).push(t) + Seq::<TokView>::empty() =~= seq![t]);
}

/// A sign that nothing leads to is refused, and the error names its line.
pub proof fn law_stray_signs_are_refused(list: Seq<Statement>, gap: Seq<char>)
    requires
        are_statements(list),
        is_gap(gap),
    ensures
        nginx::parsed_content(statements_text(list, gap) + seq!['}']) == Err::<
            Seq<ItemView>,
            Seq<char>,
        >(
            "line "@ + text::decimal_text(1 + heights(list, gap))
                + ": unexpected '}' with no matching '{'"@,
        ),
        nginx::parsed_content(statements_text(list, gap) + seq![';']) == Err::<
            Seq<ItemView>,
            Seq<char>,
        >(
            "line "@ + text::decimal_text(1 + heights(list, gap))
                + ": unexpected ';' with no directive"@,
        ),
        nginx::parsed_content(statements_text(list, gap) + seq!['{']) == Err::<
            Seq<ItemView>,
            Seq<char>,
        >(
            "line "@ + text::decimal_text(1 + heights(list, gap))
                + ": unexpected '{' with no block name"@,
        ),
{
    let line = (1 + heights(list, gap)) as nat;
    let toks = all_tokens_of(list, gap, 1);
    let n = toks.len() as int;
    lemma_one_sign('}', line);
    lemma_one_sign(';', line);
    lemma_one_sign('{', line);
    lemma_after(list, gap, seq!['}'], seq![TokView::RBrace(line)]);
    lemma_after(list, gap, seq![';'], seq![TokView::Semi(line)]);
    lemma_after(list, gap, seq!['{'], seq![TokView::LBrace(line)]);
    assert((toks + seq![TokView::RBrace(line)])[n] == TokView::RBrace(line));
    assert((toks + seq![TokView::Semi(line)])[n] == TokView::Semi(line));
    assert((toks + seq![TokView::LBrace(line)])[n] == TokView::LBrace(line));
}

/// A statement that is not ended is refused: at the end of the file, where the
/// error names the line on which it begins, and before a brace that closes a
/// block, where it names the line of the brace.
pub proof fn law_open_statements_are_refused(
    list: Seq<Statement>,
    gap: Seq<char>,
    words: Seq<Seq<Segment>>,
)
    requires
        are_statements(list),
        is_gap(gap),
        is_head(words),
    ensures
        nginx::parsed_content(statements_text(list, gap) + text::joined(raws(words), gap)) == Err::<
            Seq<ItemView>,
            Seq<char>,
        >(
            "line "@ + text::decimal_text(1 + heights(list, gap))
                + ": unexpected end of file, expected ';' or '{'"@,
        ),
        nginx::parsed_content(
            statements_text(list, gap) + (text::joined(raws(words), gap) + seq!['}']),
        ) == Err::<Seq<ItemView>, Seq<char>>(
            "line "@ + text::decimal_text(1 + heights(list, gap) + head_lines(words, gap))
                + ": unexpected '}' before ';' or '{'"@,
        ),
{
    let none = Seq::<char>::empty();
    let line = (1 + heights(list, gap)) as nat;
    let toks = all_tokens_of(list, gap, 1);
    let n = toks.len() as int;
    let head = text::joined(raws(words), gap);
    let own = word_tokens(words, gap, line);
    let low = line + head_lines(words, gap);
    lemma_head(words, gap, none, line);
    lemma_head_tokens(words, gap, line);
    assert(head + none =~= head);
    lemma_after(list, gap, head, own);
    let a = toks + own;
    assert forall|k: int| 0 <= k < own.len() implies #[trigger] own[k] == a[n + k] by {}
    lemma_runs(a, n, words, gap, line);
    let close = seq!['}'];
    let brace = seq![TokView::RBrace(low)];
    lemma_simple(words, gap, '}', none, line);
    assert(close + none =~= close);
    assert(lexed_from(none, low) == Ok::<Seq<TokView>, Seq<char>>(Seq::empty()));
    assert(own + brace + Seq::<TokView>::empty() =~= own + brace);
    lemma_after(list, gap, head + close, own + brace);
    let b = toks + (own + brace);
    assert forall|k: int| 0 <= k < own.len() implies #[trigger] own[k] == b[n + k] by {
        assert((own + brace)[k] == own[k]);
    }
    assert((own + brace)[own.len() as int] == TokView::RBrace(low));
    assert(b[n + own.len()] == TokView::RBrace(low));
    lemma_runs(b, n, words, gap, line);
}

/// A quote that is not closed is refused, and the error names its line.
pub proof fn law_open_quotes_are_refused(
    list: Seq<Statement>,
    gap: Seq<char>,
    q: char,
    rest: Seq<char>,
)
    requires
        are_statements(list),
        is_gap(gap),
        q == '"' || q == '\'',
        !rest.contains(q),
    ensures
        nginx::parsed_content(statements_text(list, gap) + (seq![q] + rest)) == Err::<
            Seq<ItemView>,
            Seq<char>,
        >("line "@ + text::decimal_text(1 + heights(list, gap)) + ": unterminated quoted string"@),
{
    let s = seq![q] + rest;
    assert(s[0] == q);
    assert(s.drop_first() =~= rest);
    law_first_character(rest, q, Seq::empty());
    lemma_statements_lexed(list, gap, s, 1);
}

/// Line ends are counted wherever they stand, also within quotes.
pub proof fn law_line_ends_are_counted(s: Seq<char>)
    ensures
        nginx::newline_count(s) == number_of(s, '\n'),
    decreases s.len(),
{
    reveal(Seq::filter);
    if s.len() > 0 {
        law_line_ends_are_counted(s.drop_last());
    }
}

/// A block that is not closed is refused.
pub proof fn law_open_blocks_are_refused(
    list: Seq<Statement>,
    gap: Seq<char>,
    words: Seq<Seq<Segment>>,
    children: Seq<Statement>,
)
    requires
        are_statements(list),
        is_gap(gap),
        is_head(words),
        are_statements(children),
    ensures
        nginx::parsed_content(
            statements_text(list, gap) + (text::joined(raws(words), gap) + (gap + (seq!['{', '\n']
                + statements_text(children, gap)))),
        ) == Err::<Seq<ItemView>, Seq<char>>(
            "unexpected end of file: unterminated block, missing '}'"@,
        ),
{
    let none = Seq::<char>::empty();
    let line = (1 + heights(list, gap)) as nat;
    let toks = all_tokens_of(list, gap, 1);
    let n = toks.len() as int;
    let own = word_tokens(words, gap, line);
    let at = line + head_lines(words, gap) + number_of(gap, '\n');
    let inner = statements_text(children, gap);
    let end = text::joined(raws(words), gap) + (gap + (seq!['{', '\n'] + inner));
    lemma_head_tokens(words, gap, line);
    lemma_opening(words, gap, inner, line);
    lemma_statements_lexed(children, gap, none, at + 1);
    assert(inner + none =~= inner);
    let body = all_tokens_of(children, gap, at + 1);
    let nothing = Seq::<TokView>::empty();
    let low = (at + 1 + heights(children, gap)) as nat;
    assert(lexed_from(none, low) == Ok::<Seq<TokView>, Seq<char>>(nothing));
    assert(body + nothing =~= body);
    let open = seq![TokView::LBrace(at)];
    let more = own + open + body;
    lemma_after(list, gap, end, more);
    let a = toks + more;
    assert forall|k: int| 0 <= k < more.len() implies #[trigger] more[k] == a[n + k] by {}
    assert(stand_at(a, n, more));
    lemma_stand_add(a, n, own + open, body);
    lemma_stand_add(a, n, own, open);
    assert(open[0] == a[n + own.len() + 0]);
    lemma_runs(a, n, words, gap, line);
    let inside = n + words.len() + 1;
    assert((own + open).len() == words.len() + 1);
    lemma_statements_level(a, inside, children, gap, at + 1, false);
    assert(inside + body.len() == a.len());
}

} // verus!

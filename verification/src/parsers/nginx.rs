//! Parser and rule set for nginx configuration files.
//!
//! nginx configs are a nested block language (`http { server { location /x
//! { ... } } }`). A directive set in a block applies to everything beneath it
//! unless overridden, so the parser builds a tree and the rules walk it with
//! the context inherited from the enclosing blocks.

use crate::finding::{add_finding, if_violated, views, Finding, FindingView, Severity, SourceKind};
use crate::names::NameSet;
use crate::order;
use crate::parsers::{lemma_prepend_nothing, lemma_prepend_twice, prepended};
use crate::text;
use vstd::prelude::*;
use vstd::slice::slice_subrange;

verus! {

/// A directive: a keyword and its arguments, ended by `;`.
#[derive(Debug)]
pub struct Directive {
    /// Lower-cased keyword.
    pub keyword: String,
    pub args: String,
    pub line: usize,
    /// The directive as it is written, up to the semicolon.
    pub raw: String,
}

/// A block: a name, its arguments, and items between braces.
#[derive(Debug)]
pub struct Block {
    /// Lower-cased block name, e.g. "http", "server", "location", "if".
    pub name: String,
    pub args: String,
    pub line: usize,
    /// The head as it is written, up to the opening brace.
    pub raw: String,
    pub children: Vec<Item>,
}

/// An entry of a block or of the file.
#[derive(Debug)]
pub enum Item {
    Directive(Directive),
    Block(Block),
}

/// What a directive says.
#[verifier::ext_equal]
pub struct DirectiveView {
    pub keyword: Seq<char>,
    pub args: Seq<char>,
    pub line: nat,
    pub raw: Seq<char>,
}

/// What a block says.
#[verifier::ext_equal]
pub struct BlockView {
    pub name: Seq<char>,
    pub args: Seq<char>,
    pub line: nat,
    pub raw: Seq<char>,
    pub children: Seq<ItemView>,
}

/// What an item says.
#[verifier::ext_equal]
pub enum ItemView {
    Directive(DirectiveView),
    Block(BlockView),
}

impl View for Directive {
    type V = DirectiveView;

    open spec fn view(&self) -> DirectiveView {
        DirectiveView {
            keyword: self.keyword@,
            args: self.args@,
            line: self.line as nat,
            raw: self.raw@,
        }
    }
}

impl View for Block {
    type V = BlockView;

    open spec fn view(&self) -> BlockView {
        block_view(*self)
    }
}

impl View for Item {
    type V = ItemView;

    open spec fn view(&self) -> ItemView {
        item_view(*self)
    }
}

/// What an item says.
pub open spec fn item_view(i: Item) -> ItemView
    decreases i,
{
    match i {
        Item::Directive(d) => ItemView::Directive(d@),
        Item::Block(b) => ItemView::Block(block_view(b)),
    }
}

/// What a block says.
pub open spec fn block_view(b: Block) -> BlockView
    decreases b,
{
    BlockView {
        name: b.name@,
        args: b.args@,
        line: b.line as nat,
        raw: b.raw@,
        children: items_view(b.children@),
    }
}

/// What the items of a list say.
pub open spec fn items_view(s: Seq<Item>) -> Seq<ItemView>
    decreases s,
{
    if s.len() == 0 {
        Seq::empty()
    } else {
        items_view(s.drop_last()).push(item_view(s.last()))
    }
}

proof fn lemma_items_view(s: Seq<Item>)
    ensures
        items_view(s).len() == s.len(),
        forall|i: int| 0 <= i < s.len() ==> items_view(s)[i] == item_view(#[trigger] s[i]),
    decreases s.len(),
{
    if s.len() > 0 {
        lemma_items_view(s.drop_last());
        assert forall|i: int| 0 <= i < s.len() implies items_view(s)[i] == item_view(
            #[trigger] s[i],
        ) by {
            if i < s.len() - 1 {
                assert(s.drop_last()[i] == s[i]);
            }
        }
    }
}

impl Clone for Directive {
    fn clone(&self) -> (r: Directive)
        ensures
            r@ == self@,
    {
        Directive {
            keyword: self.keyword.clone(),
            args: self.args.clone(),
            line: self.line,
            raw: self.raw.clone(),
        }
    }
}

impl Clone for Block {
    fn clone(&self) -> (r: Block)
        ensures
            r@ == self@,
    {
        copy_block(self)
    }
}

impl Clone for Item {
    fn clone(&self) -> (r: Item)
        ensures
            r@ == self@,
    {
        copy_item(self)
    }
}

fn copy_item(i: &Item) -> (r: Item)
    ensures
        r@ == i@,
    decreases i,
{
    match i {
        Item::Directive(d) => Item::Directive(d.clone()),
        Item::Block(b) => Item::Block(copy_block(b)),
    }
}

fn copy_block(b: &Block) -> (r: Block)
    ensures
        r@ == b@,
    decreases b,
{
    let mut children: Vec<Item> = Vec::new();
    let mut i: usize = 0;
    assert(b.children@.take(0) =~= Seq::empty());
    while i < b.children.len()
        invariant
            i <= b.children@.len(),
            items_view(children@) == items_view(b.children@.take(i as int)),
        decreases b.children@.len() - i,
    {
        let child = copy_item(&b.children[i]);
        let ghost before = children@;
        children.push(child);
        proof {
            assert(children@.drop_last() =~= before);
            assert(b.children@.take(i + 1).drop_last() =~= b.children@.take(i as int));
        }
        i += 1;
    }
    assert(b.children@.take(i as int) =~= b.children@);
    Block {
        name: b.name.clone(),
        args: b.args.clone(),
        line: b.line,
        raw: b.raw.clone(),
        children,
    }
}

/// A token of the configuration language, with its line. A word is held
/// without its quotes and as it is written.
#[derive(Debug)]
enum Tok {
    Word(String, String, usize),
    Semi(usize),
    LBrace(usize),
    RBrace(usize),
}

/// What a token says.
#[verifier::ext_equal]
pub enum TokView {
    Word(Seq<char>, Seq<char>, nat),
    Semi(nat),
    LBrace(nat),
    RBrace(nat),
}

impl View for Tok {
    type V = TokView;

    closed spec fn view(&self) -> TokView {
        match self {
            Tok::Word(w, raw, l) => TokView::Word(w@, raw@, *l as nat),
            Tok::Semi(l) => TokView::Semi(*l as nat),
            Tok::LBrace(l) => TokView::LBrace(*l as nat),
            Tok::RBrace(l) => TokView::RBrace(*l as nat),
        }
    }
}

spec fn tok_views(toks: Seq<Tok>) -> Seq<TokView> {
    toks.map_values(|t: Tok| t@)
}

/// The number of line ends in a text.
pub open spec fn newline_count(s: Seq<char>) -> nat
    decreases s.len(),
{
    if s.len() == 0 {
        0
    } else {
        newline_count(s.drop_last()) + (if s.last() == '\n' {
            1nat
        } else {
            0nat
        })
    }
}

/// The word collected so far, if there is one.
pub open spec fn flushed(word: Seq<char>, raw: Seq<char>, start: nat) -> Seq<TokView> {
    if word.len() > 0 {
        seq![TokView::Word(word, raw, start)]
    } else {
        Seq::empty()
    }
}

/// An error message about a line.
pub open spec fn line_error(line: nat, what: Seq<char>) -> Seq<char> {
    "line "@ + text::decimal_text(line) + what
}

/// The tokens of the text `s` that begins on line `line`, after the part
/// `word`, written `raw`, of a word that began on line `start`. White space, comments (`#` to
/// the end of the line), `;`, `{` and `}` end a word; quotes add what stands
/// between them to the word, whatever it is.
pub open spec fn lexed(
    s: Seq<char>,
    line: nat,
    word: Seq<char>,
    raw: Seq<char>,
    start: nat,
) -> Result<Seq<TokView>, Seq<char>>
    decreases s.len(),
{
    if s.len() == 0 {
        Ok(flushed(word, raw, start))
    } else {
        let c = s[0];
        let rest = s.drop_first();
        let word_start = if word.len() == 0 {
            line
        } else {
            start
        };
        let none = Seq::<char>::empty();
        if c == '\n' {
            prepended(flushed(word, raw, start), lexed(rest, line + 1, none, none, start))
        } else if c == '#' {
            let n = text::char_index(rest, '\n');
            proof {
                text::lemma_char_index(rest, '\n');
            }
            if n >= rest.len() {
                Ok(flushed(word, raw, start))
            } else {
                prepended(flushed(word, raw, start), lexed(rest.skip(n + 1), line + 1, none, none, start))
            }
        } else if c == '"' || c == '\'' {
            let n = text::char_index(rest, c);
            proof {
                text::lemma_char_index(rest, c);
            }
            if n >= rest.len() {
                Err(line_error(word_start, ": unterminated quoted string"@))
            } else {
                lexed(
                    rest.skip(n + 1),
                    line + newline_count(rest.take(n)),
                    word + rest.take(n),
                    raw + s.take(n + 2),
                    word_start,
                )
            }
        } else if text::is_white_space(c) {
            prepended(flushed(word, raw, start), lexed(rest, line, none, none, start))
        } else if c == ';' {
            prepended(
                flushed(word, raw, start).push(TokView::Semi(line)),
                lexed(rest, line, none, none, start),
            )
        } else if c == '{' {
            prepended(
                flushed(word, raw, start).push(TokView::LBrace(line)),
                lexed(rest, line, none, none, start),
            )
        } else if c == '}' {
            prepended(
                flushed(word, raw, start).push(TokView::RBrace(line)),
                lexed(rest, line, none, none, start),
            )
        } else {
            lexed(rest, line, word.push(c), raw.push(c), word_start)
        }
    }
}

/// The tokens of a file.
pub open spec fn tokens(content: Seq<char>) -> Result<Seq<TokView>, Seq<char>> {
    lexed(content, 1, Seq::empty(), Seq::empty(), 1)
}

/// The number of line ends in a text.
fn count_newlines(t: &[char]) -> (r: usize)
    ensures
        r == newline_count(t@),
        r <= t@.len(),
{
    let mut i: usize = 0;
    let mut n: usize = 0;
    while i < t.len()
        invariant
            i <= t@.len(),
            n <= i,
            n == newline_count(t@.take(i as int)),
        decreases t@.len() - i,
    {
        assert(t@.take(i + 1).drop_last() =~= t@.take(i as int));
        if t[i] == '\n' {
            n += 1;
        }
        i += 1;
    }
    assert(t@.take(i as int) =~= t@);
    n
}

/// An error message about a line.
fn error_at(line: usize, what: &str) -> (r: String)
    ensures
        r@ == line_error(line as nat, what@),
{
    let mut message = "line ".to_owned();
    message.append(text::decimal(line).as_str());
    message.append(what);
    message
}

/// Ends the word collected so far.
fn flush(tokens: &mut Vec<Tok>, word: &mut Vec<char>, raw: &mut Vec<char>, start: usize)
    ensures
        tok_views(final(tokens)@) == tok_views(old(tokens)@) + flushed(
            old(word)@,
            old(raw)@,
            start as nat,
        ),
        final(word)@ == Seq::<char>::empty(),
        final(raw)@ == Seq::<char>::empty(),
{
    let ghost before = tok_views(tokens@);
    if word.len() > 0 {
        tokens.push(
            Tok::Word(text::string_of(word.as_slice()), text::string_of(raw.as_slice()), start),
        );
    }
    word.clear();
    raw.clear();
    assert(tok_views(tokens@) =~= before + flushed(old(word)@, old(raw)@, start as nat));
    assert(word@ =~= Seq::<char>::empty());
    assert(raw@ =~= Seq::<char>::empty());
}

/// Appends a token.
fn push_tok(tokens: &mut Vec<Tok>, t: Tok)
    ensures
        tok_views(final(tokens)@) == tok_views(old(tokens)@).push(t@),
{
    let ghost before = tok_views(tokens@);
    let ghost added = t@;
    tokens.push(t);
    assert(tok_views(tokens@) =~= before.push(added));
}

/// Splits a file into tokens.
#[verifier::rlimit(30)]
fn tokenize(content: &[char]) -> (r: Result<Vec<Tok>, String>)
    ensures
        match tokens(content@) {
            Ok(toks) => r is Ok && tok_views(r->Ok_0@) == toks,
            Err(m) => r is Err && r->Err_0@ == m,
        },
{
    let ghost s = content@;
    let ghost none = Seq::<char>::empty();
    let mut tokens: Vec<Tok> = Vec::new();
    let mut word: Vec<char> = Vec::new();
    let mut raw: Vec<char> = Vec::new();
    let mut start: usize = 1;
    // Line ends seen so far; the current line is one more.
    let mut ends: usize = 0;
    let mut i: usize = 0;
    proof {
        assert(s.skip(0) =~= s);
        assert(tok_views(tokens@) =~= Seq::empty());
        assert(word@ =~= none);
        assert(raw@ =~= none);
        lemma_prepend_nothing(lexed(s, 1, none, none, 1));
    }
    while i < content.len()
        invariant
            s == content@,
            none == Seq::<char>::empty(),
            i <= s.len(),
            ends <= i,
            lexed(s, 1, none, none, 1) == prepended(
                tok_views(tokens@),
                lexed(s.skip(i as int), (ends + 1) as nat, word@, raw@, start as nat),
            ),
        decreases s.len() - i,
    {
        let c = content[i];
        let ghost here = s.skip(i as int);
        let ghost rest = s.skip(i + 1);
        let ghost seen = tok_views(tokens@);
        let ghost collected = word@;
        let ghost written = raw@;
        let ghost began = start as nat;
        let ghost line = (ends + 1) as nat;
        proof {
            assert(here[0] == c);
            assert(here.drop_first() =~= rest);
        }
        if c == '\n' {
            flush(&mut tokens, &mut word, &mut raw, start);
            ends += 1;
            i += 1;
            proof {
                lemma_prepend_twice(
                    seen,
                    flushed(collected, written, began),
                    lexed(rest, line + 1, none, none, began),
                );
            }
        } else if c == '#' {
            flush(&mut tokens, &mut word, &mut raw, start);
            let tail = slice_subrange(content, i + 1, content.len());
            assert(tail@ =~= rest);
            let n: usize = text::find_char(tail, '\n');
            if n >= tail.len() {
                return Ok(tokens);
            }
            proof {
                assert(rest.skip(n + 1) =~= s.skip(i + 1 + n + 1));
                lemma_prepend_twice(
                    seen,
                    flushed(collected, written, began),
                    lexed(rest.skip(n + 1), line + 1, none, none, began),
                );
            }
            ends += 1;
            i = i + 1 + n + 1;
        } else if c == '"' || c == '\'' {
            if word.len() == 0 {
                start = ends + 1;
            }
            let tail = slice_subrange(content, i + 1, content.len());
            assert(tail@ =~= rest);
            let n: usize = text::find_char(tail, c);
            if n >= tail.len() {
                return Err(error_at(start, ": unterminated quoted string"));
            }
            let quoted = slice_subrange(tail, 0, n);
            assert(quoted@ =~= rest.take(n as int));
            word.extend_from_slice(quoted);
            assert(word@ =~= collected + rest.take(n as int));
            raw.push(c);
            raw.extend_from_slice(quoted);
            raw.push(c);
            proof {
                text::lemma_char_index(rest, c);
                assert(here.take(n + 2) =~= seq![c] + rest.take(n as int) + seq![c]);
                assert(raw@ =~= written + here.take(n + 2));
            }
            assert(rest.skip(n + 1) =~= s.skip(i + 1 + n + 1));
            ends = ends + count_newlines(quoted);
            i = i + 1 + n + 1;
        } else if text::white_space(c) {
            flush(&mut tokens, &mut word, &mut raw, start);
            i += 1;
            proof {
                lemma_prepend_twice(
                    seen,
                    flushed(collected, written, began),
                    lexed(rest, line, none, none, began),
                );
            }
        } else if c == ';' || c == '{' || c == '}' {
            flush(&mut tokens, &mut word, &mut raw, start);
            let t = if c == ';' {
                Tok::Semi(ends + 1)
            } else if c == '{' {
                Tok::LBrace(ends + 1)
            } else {
                Tok::RBrace(ends + 1)
            };
            let ghost tv = t@;
            push_tok(&mut tokens, t);
            i += 1;
            proof {
                let added = flushed(collected, written, began).push(tv);
                assert(tok_views(tokens@) =~= seen + added);
                lemma_prepend_twice(seen, added, lexed(rest, line, none, none, began));
            }
        } else {
            if word.len() == 0 {
                start = ends + 1;
            }
            word.push(c);
            raw.push(c);
            i += 1;
        }
    }
    proof {
        assert(s.skip(i as int).len() == 0);
    }
    flush(&mut tokens, &mut word, &mut raw, start);
    Ok(tokens)
}

/// The words that stand in a row from token `pos` on.
pub open spec fn word_run(toks: Seq<TokView>, pos: int) -> Seq<Seq<char>>
    decreases toks.len() - pos,
{
    if 0 <= pos < toks.len() && toks[pos] is Word {
        seq![toks[pos]->Word_0] + word_run(toks, pos + 1)
    } else {
        Seq::empty()
    }
}

pub(crate) proof fn lemma_word_run(toks: Seq<TokView>, pos: int)
    requires
        0 <= pos <= toks.len(),
    ensures
        pos + word_run(toks, pos).len() <= toks.len(),
    decreases toks.len() - pos,
{
    if pos < toks.len() && toks[pos] is Word {
        lemma_word_run(toks, pos + 1);
    }
}

/// The words that stand in a row from token `pos` on, as they are written.
pub open spec fn raw_run(toks: Seq<TokView>, pos: int) -> Seq<Seq<char>>
    decreases toks.len() - pos,
{
    if 0 <= pos < toks.len() && toks[pos] is Word {
        seq![toks[pos]->Word_1] + raw_run(toks, pos + 1)
    } else {
        Seq::empty()
    }
}

/// The directive that a row of words writes.
pub open spec fn directive(
    words: Seq<Seq<char>>,
    raws: Seq<Seq<char>>,
    line: nat,
) -> DirectiveView {
    DirectiveView {
        keyword: text::lowered(words[0]),
        args: text::joined(words.skip(1), " "@),
        line,
        raw: text::joined(raws, " "@),
    }
}

/// The block that a row of words opens.
pub open spec fn block(
    words: Seq<Seq<char>>,
    raws: Seq<Seq<char>>,
    line: nat,
    children: Seq<ItemView>,
) -> BlockView {
    BlockView {
        name: text::lowered(words[0]),
        args: text::joined(words.skip(1), " "@),
        line,
        raw: text::joined(raws, " "@),
        children,
    }
}

/// A result of `level` with `head` in front of its items.
pub open spec fn ahead(head: Seq<ItemView>, rest: Result<(Seq<ItemView>, int), Seq<char>>) -> Result<
    (Seq<ItemView>, int),
    Seq<char>,
> {
    match rest {
        Ok((items, next)) => Ok((head + items, next)),
        Err(m) => Err(m),
    }
}

/// The items that stand from token `pos` on, up to the end of the file on the
/// top level and up to the closing brace elsewhere, with the position behind
/// them; or the first error.
pub open spec fn level(toks: Seq<TokView>, pos: int, top: bool) -> Result<
    (Seq<ItemView>, int),
    Seq<char>,
>
    decreases toks.len() - pos,
{
    if pos < 0 || pos >= toks.len() {
        if top {
            Ok((Seq::empty(), pos))
        } else {
            Err("unexpected end of file: unterminated block, missing '}'"@)
        }
    } else {
        match toks[pos] {
            TokView::RBrace(l) => if top {
                Err(line_error(l, ": unexpected '}' with no matching '{'"@))
            } else {
                Ok((Seq::empty(), pos + 1))
            },
            TokView::Semi(l) => Err(line_error(l, ": unexpected ';' with no directive"@)),
            TokView::LBrace(l) => Err(line_error(l, ": unexpected '{' with no block name"@)),
            TokView::Word(_, _, line) => {
                let words = word_run(toks, pos);
                let raws = raw_run(toks, pos);
                let end = pos + words.len();
                if end >= toks.len() {
                    Err(line_error(line, ": unexpected end of file, expected ';' or '{'"@))
                } else {
                    match toks[end] {
                        TokView::RBrace(l) => Err(
                            line_error(l, ": unexpected '}' before ';' or '{'"@),
                        ),
                        TokView::LBrace(_) => match level(toks, end + 1, false) {
                            Err(m) => Err(m),
                            // A block always ends behind its name and within the file.
                            Ok((children, next)) => if pos < next <= toks.len() {
                                ahead(
                                    seq![ItemView::Block(block(words, raws, line, children))],
                                    level(toks, next, top),
                                )
                            } else {
                                arbitrary()
                            },
                        },
                        _ => ahead(
                            seq![ItemView::Directive(directive(words, raws, line))],
                            level(toks, end + 1, top),
                        ),
                    }
                }
            },
        }
    }
}

/// A level ends behind the position where it began.
pub(crate) proof fn lemma_level_advances(toks: Seq<TokView>, pos: int, top: bool)
    requires
        0 <= pos <= toks.len(),
    ensures
        level(toks, pos, top) matches Ok((_, next)) ==> pos <= next <= toks.len(),
    decreases toks.len() - pos,
{
    if pos < toks.len() && toks[pos] is Word {
        let words = word_run(toks, pos);
        let end = pos + words.len();
        lemma_word_run(toks, pos);
        if end < toks.len() {
            if toks[end] is LBrace {
                lemma_level_advances(toks, end + 1, false);
                if level(toks, end + 1, false) is Ok {
                    let next = level(toks, end + 1, false)->Ok_0.1;
                    lemma_level_advances(toks, next, top);
                }
            } else if !(toks[end] is RBrace) {
                lemma_level_advances(toks, end + 1, top);
            }
        }
    }
}

/// The tree of a file.
pub open spec fn parsed_content(content: Seq<char>) -> Result<Seq<ItemView>, Seq<char>> {
    match tokens(content) {
        Ok(toks) => match level(toks, 0, true) {
            Ok((items, _)) => Ok(items),
            Err(m) => Err(m),
        },
        Err(m) => Err(m),
    }
}

/// Collects the words that stand in a row from token `pos` on, without their
/// quotes and as they are written.
fn take_words(tokens: &[Tok], pos: usize) -> (r: (Vec<String>, Vec<String>))
    requires
        pos <= tokens@.len(),
    ensures
        text::string_texts(r.0@) == word_run(tok_views(tokens@), pos as int),
        text::string_texts(r.1@) == raw_run(tok_views(tokens@), pos as int),
        pos + r.0@.len() <= tokens@.len(),
{
    let ghost tv = tok_views(tokens@);
    let mut words: Vec<String> = Vec::new();
    let mut raws: Vec<String> = Vec::new();
    let mut i: usize = pos;
    assert(text::string_texts(words@) + word_run(tv, pos as int) =~= word_run(tv, pos as int));
    assert(text::string_texts(raws@) + raw_run(tv, pos as int) =~= raw_run(tv, pos as int));
    while i < tokens.len()
        invariant
            pos <= i <= tokens@.len(),
            tv == tok_views(tokens@),
            words@.len() == i - pos,
            text::string_texts(words@) + word_run(tv, i as int) == word_run(tv, pos as int),
            text::string_texts(raws@) + raw_run(tv, i as int) == raw_run(tv, pos as int),
        ensures
            pos <= i <= tokens@.len(),
            words@.len() == i - pos,
            i < tokens@.len() ==> !(tokens@[i as int] is Word),
            text::string_texts(words@) + word_run(tv, i as int) == word_run(tv, pos as int),
            text::string_texts(raws@) + raw_run(tv, i as int) == raw_run(tv, pos as int),
        decreases tokens@.len() - i,
    {
        assert(tv[i as int] == tokens@[i as int]@);
        match &tokens[i] {
            Tok::Word(w, raw, _) => {
                let ghost before = text::string_texts(words@);
                let ghost written = text::string_texts(raws@);
                words.push(w.clone());
                raws.push(raw.clone());
                proof {
                    assert(text::string_texts(words@) =~= before.push(w@));
                    assert(text::string_texts(words@) + word_run(tv, i + 1) =~= before + word_run(
                        tv,
                        i as int,
                    ));
                    assert(text::string_texts(raws@) =~= written.push(raw@));
                    assert(text::string_texts(raws@) + raw_run(tv, i + 1) =~= written + raw_run(
                        tv,
                        i as int,
                    ));
                }
                i += 1;
            },
            _ => {
                break;
            },
        }
    }
    assert(i < tokens@.len() ==> tv[i as int] == tokens@[i as int]@);
    assert(text::string_texts(words@) + word_run(tv, i as int) =~= text::string_texts(words@));
    assert(text::string_texts(raws@) + raw_run(tv, i as int) =~= text::string_texts(raws@));
    (words, raws)
}

/// The arguments of a row of words: all but the first.
fn join_args(words: &Vec<String>) -> (r: String)
    requires
        words@.len() > 0,
    ensures
        r@ == text::joined(text::string_texts(words@).skip(1), " "@),
{
    let rest = slice_subrange(words.as_slice(), 1, words.len());
    assert(text::string_texts(rest@) =~= text::string_texts(words@).skip(1));
    text::join(rest, " ")
}

/// The lower-cased first word.
fn lower_head(words: &Vec<String>) -> (r: String)
    requires
        words@.len() > 0,
    ensures
        r@ == text::lowered(text::string_texts(words@)[0]),
{
    let chars = text::chars_of(words[0].as_str());
    text::string_of(text::to_lower(chars.as_slice()).as_slice())
}

/// What `parse_level` answers.
spec fn level_agrees(
    r: Result<(Vec<Item>, usize), String>,
    expected: Result<(Seq<ItemView>, int), Seq<char>>,
) -> bool {
    match expected {
        Ok((items, next)) => r is Ok && items_view(r->Ok_0.0@) == items && r->Ok_0.1 == next,
        Err(m) => r is Err && r->Err_0@ == m,
    }
}

proof fn lemma_ahead_one(
    head: Seq<ItemView>,
    item: ItemView,
    rest: Result<(Seq<ItemView>, int), Seq<char>>,
)
    ensures
        ahead(head, ahead(seq![item], rest)) == ahead(head.push(item), rest),
{
    if rest is Ok {
        assert(head + (seq![item] + rest->Ok_0.0) =~= head.push(item) + rest->Ok_0.0);
    }
}

/// Appends an item.
fn push_item(items: &mut Vec<Item>, i: Item)
    ensures
        items_view(final(items)@) == items_view(old(items)@).push(i@),
{
    let ghost before = items@;
    items.push(i);
    assert(items@.drop_last() =~= before);
}

/// Parses the items that stand from token `start` on.
#[verifier::rlimit(40)]
fn parse_level(tokens: &[Tok], start: usize, top: bool) -> (r: Result<(Vec<Item>, usize), String>)
    requires
        start <= tokens@.len(),
    ensures
        level_agrees(r, level(tok_views(tokens@), start as int, top)),
    decreases tokens@.len() - start,
{
    let ghost tv = tok_views(tokens@);
    let mut items: Vec<Item> = Vec::new();
    let mut pos: usize = start;
    proof {
        assert(items_view(items@) =~= Seq::empty());
        let whole = level(tv, start as int, top);
        if whole is Ok {
            assert(Seq::<ItemView>::empty() + whole->Ok_0.0 =~= whole->Ok_0.0);
        }
    }
    while pos < tokens.len()
        invariant
            start <= pos <= tokens@.len(),
            tv == tok_views(tokens@),
            level(tv, start as int, top) == ahead(items_view(items@), level(tv, pos as int, top)),
        decreases tokens@.len() - pos,
    {
        let ghost seen = items_view(items@);
        assert(tv[pos as int] == tokens@[pos as int]@);
        match &tokens[pos] {
            Tok::RBrace(l) => {
                if top {
                    return Err(error_at(*l, ": unexpected '}' with no matching '{'"));
                }
                assert(seen + Seq::<ItemView>::empty() =~= seen);
                return Ok((items, pos + 1));
            },
            Tok::Semi(l) => {
                return Err(error_at(*l, ": unexpected ';' with no directive"));
            },
            Tok::LBrace(l) => {
                return Err(error_at(*l, ": unexpected '{' with no block name"));
            },
            Tok::Word(_, _, line) => {
                let (words, raws) = take_words(tokens, pos);
                let ghost ws = text::string_texts(words@);
                let ghost rs = text::string_texts(raws@);
                proof {
                    assert(ws == word_run(tv, pos as int));
                    assert(ws.len() == words@.len());
                    assert(ws.len() > 0);
                }
                let end: usize = pos + words.len();
                if end >= tokens.len() {
                    return Err(
                        error_at(*line, ": unexpected end of file, expected ';' or '{'"),
                    );
                }
                assert(tv[end as int] == tokens@[end as int]@);
                match &tokens[end] {
                    Tok::RBrace(l) => {
                        return Err(error_at(*l, ": unexpected '}' before ';' or '{'"));
                    },
                    Tok::LBrace(_) => {
                        let (children, next) = match parse_level(tokens, end + 1, false) {
                            Ok(inner) => inner,
                            Err(message) => {
                                return Err(message);
                            },
                        };
                        let b = Item::Block(
                            Block {
                                name: lower_head(&words),
                                args: join_args(&words),
                                line: *line,
                                raw: text::join(raws.as_slice(), " "),
                                children,
                            },
                        );
                        proof {
                            lemma_level_advances(tv, end + 1, false);
                            assert(b@ == ItemView::Block(
                                block(ws, rs, *line as nat, items_view(children@)),
                            ));
                            lemma_ahead_one(seen, b@, level(tv, next as int, top));
                        }
                        push_item(&mut items, b);
                        pos = next;
                    },
                    _ => {
                        let d = Item::Directive(
                            Directive {
                                keyword: lower_head(&words),
                                args: join_args(&words),
                                line: *line,
                                raw: text::join(raws.as_slice(), " "),
                            },
                        );
                        proof {
                            assert(d@ == ItemView::Directive(directive(ws, rs, *line as nat)));
                            lemma_ahead_one(seen, d@, level(tv, end + 1, top));
                        }
                        push_item(&mut items, d);
                        pos = end + 1;
                    },
                }
            },
        }
    }
    if top {
        assert(items_view(items@) + Seq::<ItemView>::empty() =~= items_view(items@));
        Ok((items, pos))
    } else {
        Err("unexpected end of file: unterminated block, missing '}'".to_owned())
    }
}

/// Parses nginx config `content` into a tree of directives and blocks.
///
/// # Errors
/// Returns an error for malformed input: unterminated quotes, a `;` or `{`
/// with no preceding directive/block name, or an unbalanced `{`/`}`.
pub fn parse(content: &str) -> (r: Result<Vec<Item>, String>)
    ensures
        match parsed_content(content@) {
            Ok(items) => r is Ok && items_view(r->Ok_0@) == items,
            Err(m) => r is Err && r->Err_0@ == m,
        },
{
    let chars = text::chars_of(content);
    match tokenize(chars.as_slice()) {
        Ok(tokens) => match parse_level(tokens.as_slice(), 0, true) {
            Ok((items, _)) => Ok(items),
            Err(message) => Err(message),
        },
        Err(message) => Err(message),
    }
}

/// Protocol versions with known weaknesses.
pub const WEAK_SSL_PROTOCOLS: [&'static str; 4] = ["tlsv1", "tlsv1.1", "sslv2", "sslv3"];

/// Parts of cipher names that stand for weak ciphers.
pub const WEAK_CIPHER_TOKENS: [&'static str; 6] = [
    "rc4",
    "md5",
    "3des",
    "null",
    "export",
    "des-cbc3",
];

/// The directives that work reliably inside `if`.
pub const SAFE_IN_IF: [&'static str; 4] = ["return", "rewrite", "break", "set"];

pub const AUTOINDEX: &'static str = "Directory listing is enabled: any request to a directory without an index file returns a full file listing, exposing filenames (backups, source, credentials) an attacker would otherwise have to guess.";

pub const AUTOINDEX_FIX: &'static str = "Remove the directive or set 'autoindex off;'.";

pub const SERVER_TOKENS: &'static str = "The nginx version number is disclosed in the Server header and default error pages, helping an attacker match known CVEs to your exact build.";

pub const SERVER_TOKENS_FIX: &'static str = "Set 'server_tokens off;'.";

pub const BODY_SIZE: &'static str = "Request body size is unbounded, letting a client stream an arbitrarily large upload and exhaust disk, memory or bandwidth (a low-effort denial of service).";

pub const BODY_SIZE_FIX: &'static str = "Set an explicit upper bound, e.g. 'client_max_body_size 10m;'.";

pub const PROTOCOLS: &'static str = "TLSv1/TLSv1.1/SSLv2/SSLv3 have known cryptographic weaknesses (POODLE, BEAST, weak ciphers) and allow protocol-downgrade attacks against clients.";

pub const PROTOCOLS_FIX: &'static str = "Set 'ssl_protocols TLSv1.2 TLSv1.3;'.";

pub const CIPHERS_HEAD: &'static str = "Weak cipher token(s) allowed (";

pub const CIPHERS_TAIL: &'static str = "); these are vulnerable to known plaintext-recovery or downgrade attacks.";

pub const CIPHERS_FIX: &'static str = "Use a modern cipher suite, e.g. 'ssl_ciphers ECDHE-ECDSA-AES128-GCM-SHA256:ECDHE-RSA-AES128-GCM-SHA256;' with 'ssl_prefer_server_ciphers off;'.";

pub const IF_BODY: &'static str = "nginx 'if' in a location context only reliably supports return/rewrite/break/set. Any other directive inside it (proxy_pass, add_header, etc.) can behave unpredictably, which has previously been used to bypass intended access or header controls.";

pub const IF_BODY_FIX: &'static str = "Move the logic out of 'if' using nginx's built-in variables/maps, or restrict the if body to return/rewrite.";

pub const ALIAS: &'static str = "Without a trailing slash on both the location prefix and the alias target, nginx's prefix matching lets a crafted path (e.g. appending '../') escape the intended directory and read files elsewhere on disk.";

pub const PROXY_HOST: &'static str = "Without forwarding the original Host header, the backend sees nginx's upstream address instead of the real request host, which can break host-based routing, generate wrong absolute URLs, or bypass backend virtual-host security checks.";

pub const PROXY_HOST_FIX: &'static str = "Add 'proxy_set_header Host $host;' in this location (or an ancestor server/http block).";

pub const PLAINTEXT: &'static str = "Plaintext HTTP is served with no redirect to HTTPS, so credentials and session cookies can be sent or intercepted in cleartext by any on-path attacker.";

pub const PLAINTEXT_FIX: &'static str = "Add 'return 301 https://$host$request_uri;' in this server block (or terminate TLS here).";

pub const NOSNIFF: &'static str = "Without 'nosniff', browsers may MIME-sniff a response into an executable context (e.g. treating an uploaded file as HTML/JS), enabling stored XSS from user-supplied content.";

pub const FRAMING: &'static str = "Without this header, the response can be framed by another site, enabling clickjacking attacks that trick users into acting on this site unknowingly.";

pub const HSTS: &'static str = "Without HSTS, a browser will happily fall back to plaintext HTTP on this host, leaving a window for SSL-stripping attacks even though TLS is available.";

pub const HSTS_FIX: &'static str = "Add 'add_header Strict-Transport-Security \"max-age=63072000; includeSubDomains\" always;'.";

/// A finding in an nginx configuration.
pub open spec fn report(
    rule_id: Seq<char>,
    severity: Severity,
    file: Seq<char>,
    line: nat,
    evidence: Seq<char>,
    consequence: Seq<char>,
    fix: Seq<char>,
) -> FindingView {
    FindingView {
        rule_id,
        severity,
        source: SourceKind::Nginx,
        file,
        line,
        evidence,
        consequence,
        fix,
    }
}

/// What the enclosing blocks set for the items beneath them.
#[verifier::ext_equal]
pub struct CtxView {
    /// The lower-cased names of the headers that are added.
    pub headers: Set<Seq<char>>,
    /// Whether the `Host` header is forwarded.
    pub proxy_host_set: bool,
}

/// The context of a whole file.
pub open spec fn no_ctx() -> CtxView {
    CtxView { headers: Set::empty(), proxy_host_set: false }
}

/// The directives that stand directly in a list of items.
pub open spec fn own(items: Seq<ItemView>) -> Seq<DirectiveView>
    decreases items.len(),
{
    if items.len() == 0 {
        Seq::empty()
    } else {
        match items.last() {
            ItemView::Directive(d) => own(items.drop_last()).push(d),
            ItemView::Block(_) => own(items.drop_last()),
        }
    }
}

/// The first directive with the given keyword.
pub open spec fn first_named(ds: Seq<DirectiveView>, keyword: Seq<char>) -> Option<DirectiveView>
    decreases ds.len(),
{
    if ds.len() == 0 {
        None
    } else if ds[0].keyword == keyword {
        Some(ds[0])
    } else {
        first_named(ds.drop_first(), keyword)
    }
}

/// The lower-cased first argument.
pub open spec fn header_name(args: Seq<char>) -> Option<Seq<char>> {
    let words = text::word_seq(args);
    if words.len() > 0 {
        Some(text::lowered(words[0]))
    } else {
        None
    }
}

/// The header that a directive adds to responses, if it adds one.
pub open spec fn added_header(d: DirectiveView) -> Option<Seq<char>> {
    if d.keyword == "add_header"@ {
        header_name(d.args)
    } else {
        None
    }
}

/// The headers that directives add.
pub open spec fn headers_of(ds: Seq<DirectiveView>) -> Set<Seq<char>>
    decreases ds.len(),
{
    if ds.len() == 0 {
        Set::empty()
    } else {
        match added_header(ds.last()) {
            Some(name) => headers_of(ds.drop_last()).insert(name),
            None => headers_of(ds.drop_last()),
        }
    }
}

/// The headers that items add, at any depth.
pub open spec fn deep_headers(items: Seq<ItemView>) -> Set<Seq<char>>
    decreases items,
{
    if items.len() == 0 {
        Set::empty()
    } else {
        deep_headers(items.drop_last()).union(item_headers(items.last()))
    }
}

/// The headers that an item adds, at any depth.
pub open spec fn item_headers(i: ItemView) -> Set<Seq<char>>
    decreases i,
{
    match i {
        ItemView::Directive(d) => match added_header(d) {
            Some(name) => Set::empty().insert(name),
            None => Set::empty(),
        },
        ItemView::Block(b) => deep_headers(b.children),
    }
}

/// Whether a directive forwards the `Host` header to the backend.
pub open spec fn forwards_host(d: DirectiveView) -> bool {
    let words = text::word_seq(d.args);
    d.keyword == "proxy_set_header"@ && words.len() > 0 && text::same_ignoring_case(
        words[0],
        "host"@,
    )
}

/// Whether any of the directives forwards the `Host` header.
pub open spec fn any_forwards_host(ds: Seq<DirectiveView>) -> bool {
    exists|i: int| 0 <= i < ds.len() && forwards_host(#[trigger] ds[i])
}

/// The context inside a block: what is inherited and what the block sets.
pub open spec fn inner_ctx(b: BlockView, ctx: CtxView) -> CtxView {
    CtxView {
        headers: ctx.headers.union(headers_of(own(b.children))),
        proxy_host_set: ctx.proxy_host_set || any_forwards_host(own(b.children)),
    }
}

/// Whether a directive makes its server a TLS server.
pub open spec fn enables_tls(d: DirectiveView) -> bool {
    ||| d.keyword == "ssl_certificate"@
    ||| d.keyword == "listen"@ && text::occurs(text::lowered(d.args), "ssl"@)
}

/// Whether a server serves TLS.
pub open spec fn tls_server(b: BlockView) -> bool {
    exists|i: int| 0 <= i < own(b.children).len() && enables_tls(#[trigger] own(b.children)[i])
}

/// Whether a directive redirects to HTTPS.
pub open spec fn directive_redirects(d: DirectiveView) -> bool {
    let a = text::lowered(d.args);
    ||| d.keyword == "return"@ && (text::occurs(a, "301"@) || text::occurs(a, "302"@))
        && text::occurs(a, "https"@)
    ||| d.keyword == "rewrite"@ && text::occurs(a, "https"@)
}

/// Whether any item redirects to HTTPS, at any depth.
pub open spec fn redirects(items: Seq<ItemView>) -> bool
    decreases items,
{
    items.len() > 0 && (redirects(items.drop_last()) || item_redirects(items.last()))
}

/// Whether an item redirects to HTTPS, at any depth.
pub open spec fn item_redirects(i: ItemView) -> bool
    decreases i,
{
    match i {
        ItemView::Directive(d) => directive_redirects(d),
        ItemView::Block(b) => redirects(b.children),
    }
}

/// Whether an argument is the given word, in any ASCII case.
pub open spec fn says(args: Seq<char>, word: Seq<char>) -> bool {
    text::same_ignoring_case(text::trimmed(args), word)
}

/// The findings on a directive wherever it stands.
pub open spec fn directive_findings(file: Seq<char>, d: DirectiveView) -> Seq<FindingView> {
    if_violated(
        d.keyword == "autoindex"@ && says(d.args, "on"@),
        report("NGX001"@, Severity::High, file, d.line, d.raw, AUTOINDEX@, AUTOINDEX_FIX@),
    ) + if_violated(
        d.keyword == "server_tokens"@ && says(d.args, "on"@),
        report(
            "NGX002"@,
            Severity::Low,
            file,
            d.line,
            d.raw,
            SERVER_TOKENS@,
            SERVER_TOKENS_FIX@,
        ),
    ) + if_violated(
        d.keyword == "client_max_body_size"@ && text::trimmed(d.args) == "0"@,
        report("NGX009"@, Severity::Medium, file, d.line, d.raw, BODY_SIZE@, BODY_SIZE_FIX@),
    )
}

/// Whether a protocol list names a weak protocol.
pub open spec fn names_weak_protocol(args: Seq<char>) -> bool {
    exists|i: int|
        0 <= i < text::word_seq(args).len() && text::among(
            WEAK_SSL_PROTOCOLS@,
            text::lowered(#[trigger] text::word_seq(args)[i]),
        )
}

/// The weak tokens that occur in a cipher list.
pub open spec fn weak_tokens(args: Seq<char>, toks: Seq<&str>) -> Seq<Seq<char>>
    decreases toks.len(),
{
    if toks.len() == 0 {
        Seq::empty()
    } else if text::occurs(text::lowered(args), toks.last()@) {
        weak_tokens(args, toks.drop_last()).push(toks.last()@)
    } else {
        weak_tokens(args, toks.drop_last())
    }
}

/// The findings on a TLS setting that stands directly in a block.
pub open spec fn tls_findings(file: Seq<char>, d: DirectiveView) -> Seq<FindingView> {
    if_violated(
        d.keyword == "ssl_protocols"@ && names_weak_protocol(d.args),
        report("NGX004"@, Severity::High, file, d.line, d.raw, PROTOCOLS@, PROTOCOLS_FIX@),
    ) + if_violated(
        d.keyword == "ssl_ciphers"@ && weak_tokens(d.args, WEAK_CIPHER_TOKENS@).len() > 0,
        report(
            "NGX005"@,
            Severity::High,
            file,
            d.line,
            d.raw,
            CIPHERS_HEAD@ + text::joined(weak_tokens(d.args, WEAK_CIPHER_TOKENS@), ", "@)
                + CIPHERS_TAIL@,
            CIPHERS_FIX@,
        ),
    )
}

/// The findings on the TLS settings among directives.
pub open spec fn all_tls_findings(file: Seq<char>, ds: Seq<DirectiveView>) -> Seq<FindingView>
    decreases ds.len(),
{
    if ds.len() == 0 {
        Seq::empty()
    } else {
        all_tls_findings(file, ds.drop_last()) + tls_findings(file, ds.last())
    }
}

/// The first directive that is not safe inside `if`.
pub open spec fn first_unsafe(ds: Seq<DirectiveView>) -> Option<DirectiveView>
    decreases ds.len(),
{
    if ds.len() == 0 {
        None
    } else if !text::among(SAFE_IN_IF@, ds[0].keyword) {
        Some(ds[0])
    } else {
        first_unsafe(ds.drop_first())
    }
}

/// An `if` block is to hold only directives that are safe in it.
pub open spec fn if_findings(file: Seq<char>, b: BlockView) -> Seq<FindingView> {
    match first_unsafe(own(b.children)) {
        Some(_) if b.name == "if"@ => seq![
            report("NGX011"@, Severity::Medium, file, b.line, b.raw, IF_BODY@, IF_BODY_FIX@),
        ],
        _ => Seq::empty(),
    }
}

/// Whether neither the location nor its alias ends with a slash. A location
/// that matches by regular expression is left out.
pub open spec fn alias_escapes(location: Seq<char>, alias: Seq<char>) -> bool {
    &&& !text::ends(location, "/"@)
    &&& !text::ends(alias, "/"@)
    &&& !location.contains('~')
}

/// A location with an alias is to have a slash at the end of both.
pub open spec fn alias_findings(file: Seq<char>, b: BlockView) -> Seq<FindingView> {
    match first_named(own(b.children), "alias"@) {
        Some(alias) if alias_escapes(text::trimmed(b.args), text::trimmed(alias.args)) => seq![
            report(
                "NGX012"@,
                Severity::High,
                file,
                alias.line,
                alias.raw,
                ALIAS@,
                "Add a trailing slash to both, e.g. 'location "@ + text::trimmed(b.args)
                    + "/ { alias "@ + text::trimmed(alias.args) + "/; }'."@,
            ),
        ],
        _ => Seq::empty(),
    }
}

/// A location that proxies is to forward the `Host` header.
pub open spec fn proxy_findings(file: Seq<char>, b: BlockView, ctx: CtxView) -> Seq<FindingView> {
    match first_named(own(b.children), "proxy_pass"@) {
        Some(pass) if !ctx.proxy_host_set => seq![
            report(
                "NGX010"@,
                Severity::Medium,
                file,
                pass.line,
                pass.raw,
                PROXY_HOST@,
                PROXY_HOST_FIX@,
            ),
        ],
        _ => Seq::empty(),
    }
}

/// The findings on a `location` block in the context inside it.
pub open spec fn location_findings(file: Seq<char>, b: BlockView, ctx: CtxView) -> Seq<
    FindingView,
> {
    if b.name == "location"@ {
        alias_findings(file, b) + proxy_findings(file, b, ctx)
    } else {
        Seq::empty()
    }
}

/// What a missing required header leads to.
pub open spec fn missing_consequence(key: Seq<char>) -> Seq<char> {
    if key == "x-content-type-options"@ {
        NOSNIFF@
    } else {
        FRAMING@
    }
}

/// The value to give a required header.
pub open spec fn header_value(key: Seq<char>) -> Seq<char> {
    if key == "x-content-type-options"@ {
        "nosniff"@
    } else {
        "DENY"@
    }
}

/// The findings on a required header.
pub open spec fn header_findings(
    file: Seq<char>,
    b: BlockView,
    have: Set<Seq<char>>,
    rule_id: Seq<char>,
    key: Seq<char>,
    display: Seq<char>,
) -> Seq<FindingView> {
    if_violated(
        !have.contains(key),
        report(
            rule_id,
            Severity::Low,
            file,
            b.line,
            b.raw,
            missing_consequence(key),
            "Add 'add_header "@ + display + " "@ + header_value(key)
                + ";' (at http, server, or this location level)."@,
        ),
    )
}

/// The headers that a server adds or inherits.
pub open spec fn server_headers(b: BlockView, ctx: CtxView) -> Set<Seq<char>> {
    ctx.headers.union(deep_headers(b.children))
}

/// The findings on a `server` block in the context inside it.
pub open spec fn server_findings(file: Seq<char>, b: BlockView, ctx: CtxView) -> Seq<FindingView> {
    if b.name == "server"@ {
        let have = server_headers(b, ctx);
        if_violated(
            !tls_server(b) && !redirects(b.children),
            report(
                "NGX003"@,
                Severity::Medium,
                file,
                b.line,
                b.raw,
                PLAINTEXT@,
                PLAINTEXT_FIX@,
            ),
        ) + header_findings(
            file,
            b,
            have,
            "NGX006"@,
            "x-content-type-options"@,
            "X-Content-Type-Options"@,
        ) + header_findings(file, b, have, "NGX007"@, "x-frame-options"@, "X-Frame-Options"@)
            + if_violated(
            tls_server(b) && !have.contains("strict-transport-security"@),
            report("NGX008"@, Severity::Low, file, b.line, b.raw, HSTS@, HSTS_FIX@),
        )
    } else {
        Seq::empty()
    }
}

/// The findings on a block itself, in the context inside it.
pub open spec fn block_findings(file: Seq<char>, b: BlockView, ctx: CtxView) -> Seq<FindingView> {
    all_tls_findings(file, own(b.children)) + if_findings(file, b) + location_findings(
        file,
        b,
        ctx,
    ) + server_findings(file, b, ctx)
}

/// The findings on items and everything beneath them.
pub open spec fn walked(file: Seq<char>, items: Seq<ItemView>, ctx: CtxView) -> Seq<FindingView>
    decreases items,
{
    if items.len() == 0 {
        Seq::empty()
    } else {
        walked(file, items.drop_last(), ctx) + item_findings(file, items.last(), ctx)
    }
}

/// The findings on an item and everything beneath it.
pub open spec fn item_findings(file: Seq<char>, i: ItemView, ctx: CtxView) -> Seq<FindingView>
    decreases i,
{
    match i {
        ItemView::Directive(d) => directive_findings(file, d),
        ItemView::Block(b) => block_findings(file, b, inner_ctx(b, ctx)) + walked(
            file,
            b.children,
            inner_ctx(b, ctx),
        ),
    }
}

/// The findings on a whole file. The TLS settings that stand outside every
/// block are looked at like those in one.
pub open spec fn tree_findings(file: Seq<char>, items: Seq<ItemView>) -> Seq<FindingView> {
    all_tls_findings(file, own(items)) + walked(file, items, no_ctx())
}

/// The outcome of an audit: the findings in order, or the parse error.
pub open spec fn audited(file: Seq<char>, content: Seq<char>) -> Result<
    Seq<FindingView>,
    Seq<char>,
> {
    match parsed_content(content) {
        Ok(items) => Ok(order::sorted(tree_findings(file, items))),
        Err(m) => Err(m),
    }
}

/// A finding in an nginx configuration.
fn mk(
    rule_id: &str,
    severity: Severity,
    file: &str,
    line: usize,
    evidence: &str,
    consequence: &str,
    fix: &str,
) -> (r: Finding)
    ensures
        r@ == report(rule_id@, severity, file@, line as nat, evidence@, consequence@, fix@),
{
    Finding::new(rule_id, severity, SourceKind::Nginx, file, line, evidence, consequence, fix)
}

/// What the directives of a list say.
pub open spec fn directive_views(ds: Seq<&Directive>) -> Seq<DirectiveView> {
    ds.map_values(|d: &Directive| d@)
}

/// The directives that stand directly in a list of items.
fn own_directives(items: &Vec<Item>) -> (r: Vec<&Directive>)
    ensures
        directive_views(r@) == own(items_view(items@)),
{
    let mut out: Vec<&Directive> = Vec::new();
    let ghost children = items_view(items@);
    let mut i: usize = 0;
    proof {
        lemma_items_view(items@);
        assert(directive_views(out@) =~= Seq::empty());
    }
    while i < items.len()
        invariant
            i <= items@.len(),
            children == items_view(items@),
            children.len() == items@.len(),
            forall|j: int|
                0 <= j < children.len() ==> children[j] == item_view(#[trigger] items@[j]),
            directive_views(out@) == own(children.take(i as int)),
        decreases items@.len() - i,
    {
        let ghost before = directive_views(out@);
        assert(children.take(i + 1).drop_last() =~= children.take(i as int));
        assert(children.take(i + 1).last() == item_view(items@[i as int]));
        if let Item::Directive(d) = &items[i] {
            out.push(d);
            assert(directive_views(out@) =~= before.push(d@));
        }
        i += 1;
    }
    assert(children.take(i as int) =~= children);
    out
}

/// The first directive of a block with the given keyword.
fn find_own<'a>(own_ds: &Vec<&'a Directive>, keyword: &str) -> (r: Option<&'a Directive>)
    ensures
        match first_named(directive_views(own_ds@), keyword@) {
            Some(d) => r is Some && r->0@ == d,
            None => r is None,
        },
{
    let ghost dv = directive_views(own_ds@);
    let mut i: usize = 0;
    assert(dv.skip(0) =~= dv);
    while i < own_ds.len()
        invariant
            i <= own_ds@.len(),
            dv == directive_views(own_ds@),
            first_named(dv, keyword@) == first_named(dv.skip(i as int), keyword@),
        decreases own_ds@.len() - i,
    {
        assert(dv.skip(i as int)[0] == own_ds@[i as int]@);
        assert(dv.skip(i as int).drop_first() =~= dv.skip(i + 1));
        if text::str_eq(own_ds[i].keyword.as_str(), keyword) {
            return Some(own_ds[i]);
        }
        i += 1;
    }
    None
}

/// The lower-cased first argument.
fn header_name_of(args: &str) -> (r: Option<String>)
    ensures
        match header_name(args@) {
            Some(name) => r is Some && r->0@ == name,
            None => r is None,
        },
{
    let chars = text::chars_of(args);
    let words = text::words(chars.as_slice());
    assert(text::texts(words@).len() == words@.len());
    if words.len() > 0 {
        assert(text::texts(words@)[0] == words@[0]@);
        Some(text::string_of(text::to_lower(words[0]).as_slice()))
    } else {
        None
    }
}

/// The header that a directive adds, if it adds one.
fn header_added_by(d: &Directive) -> (r: Option<String>)
    ensures
        match added_header(d@) {
            Some(name) => r is Some && r->0@ == name,
            None => r is None,
        },
{
    if text::str_eq(d.keyword.as_str(), "add_header") {
        header_name_of(d.args.as_str())
    } else {
        None
    }
}

/// Whether a directive forwards the `Host` header.
fn sets_proxy_host(d: &Directive) -> (r: bool)
    ensures
        r == forwards_host(d@),
{
    if !text::str_eq(d.keyword.as_str(), "proxy_set_header") {
        return false;
    }
    let chars = text::chars_of(d.args.as_str());
    let words = text::words(chars.as_slice());
    assert(text::texts(words@).len() == words@.len());
    if words.len() > 0 {
        assert(text::texts(words@)[0] == words@[0]@);
        text::eq_ignore_case(words[0], "host")
    } else {
        false
    }
}

/// Directives inherited from enclosing blocks.
#[derive(Debug)]
pub struct Ctx {
    /// The lower-cased names of the headers that are added.
    pub headers: NameSet,
    /// Whether the `Host` header is forwarded.
    pub proxy_host_set: bool,
}

impl View for Ctx {
    type V = CtxView;

    open spec fn view(&self) -> CtxView {
        CtxView { headers: self.headers@, proxy_host_set: self.proxy_host_set }
    }
}

impl Ctx {
    /// Whether the set of headers is valid.
    pub open spec fn wf(self) -> bool {
        self.headers.wf()
    }

    /// The context inside a block with the given directives.
    fn enter(&self, own_ds: &Vec<&Directive>) -> (r: Ctx)
        requires
            self.wf(),
        ensures
            r.wf(),
            r@.headers == self@.headers.union(headers_of(directive_views(own_ds@))),
            r@.proxy_host_set == (self@.proxy_host_set || any_forwards_host(
                directive_views(own_ds@),
            )),
    {
        let ghost dv = directive_views(own_ds@);
        let mut headers = self.headers.copy();
        let mut proxy_host_set = self.proxy_host_set;
        let mut i: usize = 0;
        assert(headers@ =~= self.headers@.union(headers_of(dv.take(0))));
        while i < own_ds.len()
            invariant
                i <= own_ds@.len(),
                dv == directive_views(own_ds@),
                headers.wf(),
                headers@ == self.headers@.union(headers_of(dv.take(i as int))),
                proxy_host_set == (self.proxy_host_set || any_forwards_host(dv.take(i as int))),
            decreases own_ds@.len() - i,
        {
            let d = own_ds[i];
            proof {
                assert(dv[i as int] == d@);
                assert(dv.take(i + 1).drop_last() =~= dv.take(i as int));
                assert(dv.take(i + 1).last() == d@);
                assert(any_forwards_host(dv.take(i + 1)) == (any_forwards_host(dv.take(i as int))
                    || forwards_host(d@))) by {
                    let shorter = dv.take(i as int);
                    let longer = dv.take(i + 1);
                    if any_forwards_host(longer) {
                        let k = choose|k: int|
                            0 <= k < longer.len() && forwards_host(#[trigger] longer[k]);
                        if k < i {
                            assert(shorter[k] == longer[k]);
                        }
                    }
                    if any_forwards_host(shorter) {
                        let k = choose|k: int|
                            0 <= k < shorter.len() && forwards_host(#[trigger] shorter[k]);
                        assert(longer[k] == shorter[k]);
                    }
                    assert(longer[i as int] == d@);
                }
            }
            if let Some(name) = header_added_by(d) {
                headers.insert(name);
                assert(headers@ =~= self.headers@.union(headers_of(dv.take(i + 1))));
            }
            if sets_proxy_host(d) {
                proxy_host_set = true;
            }
            i += 1;
        }
        assert(dv.take(i as int) =~= dv);
        Ctx { headers, proxy_host_set }
    }
}

/// Whether a server serves TLS.
fn is_tls_server(server: &Block, own_ds: &Vec<&Directive>) -> (r: bool)
    requires
        directive_views(own_ds@) == own(server@.children),
    ensures
        r == tls_server(server@),
{
    let ghost dv = own(server@.children);
    let mut i: usize = 0;
    while i < own_ds.len()
        invariant
            i <= own_ds@.len(),
            dv == directive_views(own_ds@),
            dv == own(server@.children),
            forall|j: int| 0 <= j < i ==> !enables_tls(#[trigger] dv[j]),
        decreases own_ds@.len() - i,
    {
        let d = own_ds[i];
        assert(dv[i as int] == d@);
        if text::str_eq(d.keyword.as_str(), "ssl_certificate") {
            return true;
        }
        if text::str_eq(d.keyword.as_str(), "listen") {
            let lower = text::to_lower(text::chars_of(d.args.as_str()).as_slice());
            if text::contains(lower.as_slice(), "ssl") {
                return true;
            }
        }
        i += 1;
    }
    false
}

/// Whether a directive redirects to HTTPS.
fn redirects_to_https(d: &Directive) -> (r: bool)
    ensures
        r == directive_redirects(d@),
{
    let lower = text::to_lower(text::chars_of(d.args.as_str()).as_slice());
    let a = lower.as_slice();
    if text::str_eq(d.keyword.as_str(), "return") && (text::contains(a, "301") || text::contains(
        a,
        "302",
    )) && text::contains(a, "https") {
        return true;
    }
    text::str_eq(d.keyword.as_str(), "rewrite") && text::contains(a, "https")
}

/// Whether any item redirects to HTTPS, at any depth.
fn has_https_redirect(items: &Vec<Item>) -> (r: bool)
    ensures
        r == redirects(items_view(items@)),
    decreases items,
{
    let ghost iv = items_view(items@);
    let mut i: usize = 0;
    proof {
        lemma_items_view(items@);
    }
    while i < items.len()
        invariant
            i <= items@.len(),
            iv == items_view(items@),
            iv.len() == items@.len(),
            forall|j: int| 0 <= j < iv.len() ==> iv[j] == item_view(#[trigger] items@[j]),
            !redirects(iv.take(i as int)),
        decreases items@.len() - i,
    {
        proof {
            reveal_with_fuel(item_view, 3);
            reveal_with_fuel(redirects, 3);
            reveal_with_fuel(item_redirects, 3);
            assert(iv.take(i + 1).drop_last() =~= iv.take(i as int));
            assert(iv.take(i + 1).last() == item_view(items@[i as int]));
        }
        let found = match &items[i] {
            Item::Directive(d) => redirects_to_https(d),
            Item::Block(b) => has_https_redirect(&b.children),
        };
        if found {
            proof {
                lemma_redirects_grows(iv, i + 1);
            }
            return true;
        }
        i += 1;
    }
    assert(iv.take(i as int) =~= iv);
    false
}

proof fn lemma_redirects_grows(items: Seq<ItemView>, k: int)
    requires
        0 <= k <= items.len(),
        redirects(items.take(k)),
    ensures
        redirects(items),
    decreases items.len() - k,
{
    if k == items.len() {
        assert(items.take(k) =~= items);
    } else {
        assert(items.take(k + 1).drop_last() =~= items.take(k));
        lemma_redirects_grows(items, k + 1);
    }
}

/// Adds the headers that items add, at any depth.
fn collect_headers(items: &Vec<Item>, out: &mut NameSet)
    requires
        old(out).wf(),
    ensures
        final(out).wf(),
        final(out)@ == old(out)@.union(deep_headers(items_view(items@))),
    decreases items,
{
    let ghost iv = items_view(items@);
    let ghost before = out@;
    let mut i: usize = 0;
    proof {
        lemma_items_view(items@);
        assert(out@ =~= before.union(deep_headers(iv.take(0))));
    }
    while i < items.len()
        invariant
            i <= items@.len(),
            iv == items_view(items@),
            iv.len() == items@.len(),
            forall|j: int| 0 <= j < iv.len() ==> iv[j] == item_view(#[trigger] items@[j]),
            out.wf(),
            out@ == before.union(deep_headers(iv.take(i as int))),
        decreases items@.len() - i,
    {
        proof {
            reveal_with_fuel(item_view, 3);
            reveal_with_fuel(deep_headers, 3);
            reveal_with_fuel(item_headers, 3);
            assert(iv.take(i + 1).drop_last() =~= iv.take(i as int));
            assert(iv.take(i + 1).last() == item_view(items@[i as int]));
        }
        match &items[i] {
            Item::Directive(d) => {
                if let Some(name) = header_added_by(d) {
                    out.insert(name);
                }
            },
            Item::Block(b) => {
                collect_headers(&b.children, out);
            },
        }
        assert(out@ =~= before.union(deep_headers(iv.take(i + 1))));
        i += 1;
    }
    assert(iv.take(i as int) =~= iv);
}

/// Whether arguments are the given word, in any ASCII case.
fn is_word(args: &str, word: &str) -> (r: bool)
    ensures
        r == says(args@, word@),
{
    let chars = text::chars_of(args);
    text::eq_ignore_case(text::trim(chars.as_slice()), word)
}

/// Checks a directive wherever it stands.
fn check_directive(file: &str, d: &Directive, findings: &mut Vec<Finding>)
    ensures
        views(final(findings)@) == views(old(findings)@) + directive_findings(file@, d@),
{
    let keyword = d.keyword.as_str();
    let args = d.args.as_str();
    if text::str_eq(keyword, "autoindex") && is_word(args, "on") {
        add_finding(
            findings,
            mk(
                "NGX001",
                Severity::High,
                file,
                d.line,
                d.raw.as_str(),
                AUTOINDEX,
                AUTOINDEX_FIX,
            ),
        );
    }
    if text::str_eq(keyword, "server_tokens") && is_word(args, "on") {
        add_finding(
            findings,
            mk(
                "NGX002",
                Severity::Low,
                file,
                d.line,
                d.raw.as_str(),
                SERVER_TOKENS,
                SERVER_TOKENS_FIX,
            ),
        );
    }
    let chars = text::chars_of(args);
    if text::str_eq(keyword, "client_max_body_size") && text::is_str(
        text::trim(chars.as_slice()),
        "0",
    ) {
        add_finding(
            findings,
            mk(
                "NGX009",
                Severity::Medium,
                file,
                d.line,
                d.raw.as_str(),
                BODY_SIZE,
                BODY_SIZE_FIX,
            ),
        );
    }
    assert(views(findings@) =~= views(old(findings)@) + directive_findings(file@, d@));
}

/// Whether a protocol list names a weak protocol.
fn has_weak_protocol(args: &str) -> (r: bool)
    ensures
        r == names_weak_protocol(args@),
{
    let chars = text::chars_of(args);
    let words = text::words(chars.as_slice());
    let ghost ws = text::word_seq(args@);
    let mut i: usize = 0;
    while i < words.len()
        invariant
            i <= words@.len(),
            ws == text::word_seq(args@),
            ws == text::texts(words@),
            forall|j: int|
                0 <= j < i ==> !text::among(
                    WEAK_SSL_PROTOCOLS@,
                    text::lowered(#[trigger] ws[j]),
                ),
        decreases words@.len() - i,
    {
        assert(ws[i as int] == words@[i as int]@);
        if text::is_among(&WEAK_SSL_PROTOCOLS, text::to_lower(words[i]).as_slice()) {
            return true;
        }
        i += 1;
    }
    false
}

/// The weak tokens that occur in a cipher list.
fn find_weak_tokens(args: &str) -> (r: Vec<String>)
    ensures
        text::string_texts(r@) == weak_tokens(args@, WEAK_CIPHER_TOKENS@),
{
    let lower = text::to_lower(text::chars_of(args).as_slice());
    let toks = WEAK_CIPHER_TOKENS;
    let mut out: Vec<String> = Vec::new();
    let mut i: usize = 0;
    assert(text::string_texts(out@) =~= Seq::empty());
    while i < toks.len()
        invariant
            i <= toks@.len(),
            lower@ == text::lowered(args@),
            text::string_texts(out@) == weak_tokens(args@, toks@.take(i as int)),
        decreases toks@.len() - i,
    {
        let ghost before = text::string_texts(out@);
        assert(toks@.take(i + 1).drop_last() =~= toks@.take(i as int));
        if text::contains(lower.as_slice(), toks[i]) {
            out.push(toks[i].to_owned());
            assert(text::string_texts(out@) =~= before.push(toks@[i as int]@));
        }
        i += 1;
    }
    assert(toks@.take(i as int) =~= toks@);
    out
}

/// Checks a TLS setting.
fn check_tls(file: &str, d: &Directive, findings: &mut Vec<Finding>)
    ensures
        views(final(findings)@) == views(old(findings)@) + tls_findings(file@, d@),
{
    if text::str_eq(d.keyword.as_str(), "ssl_protocols") && has_weak_protocol(d.args.as_str()) {
        add_finding(
            findings,
            mk(
                "NGX004",
                Severity::High,
                file,
                d.line,
                d.raw.as_str(),
                PROTOCOLS,
                PROTOCOLS_FIX,
            ),
        );
    }
    if text::str_eq(d.keyword.as_str(), "ssl_ciphers") {
        let weak = find_weak_tokens(d.args.as_str());
        assert(text::string_texts(weak@).len() == weak@.len());
        if weak.len() > 0 {
            let mut consequence = CIPHERS_HEAD.to_owned();
            consequence.append(text::join(weak.as_slice(), ", ").as_str());
            consequence.append(CIPHERS_TAIL);
            add_finding(
                findings,
                mk(
                    "NGX005",
                    Severity::High,
                    file,
                    d.line,
                    d.raw.as_str(),
                    consequence.as_str(),
                    CIPHERS_FIX,
                ),
            );
        }
    }
    assert(views(findings@) =~= views(old(findings)@) + tls_findings(file@, d@));
}

/// Checks the TLS settings among the directives of a block.
fn check_all_tls(file: &str, own_ds: &Vec<&Directive>, findings: &mut Vec<Finding>)
    ensures
        views(final(findings)@) == views(old(findings)@) + all_tls_findings(
            file@,
            directive_views(own_ds@),
        ),
{
    let ghost dv = directive_views(own_ds@);
    let ghost before = views(findings@);
    let mut i: usize = 0;
    assert(before + all_tls_findings(file@, dv.take(0)) =~= before);
    while i < own_ds.len()
        invariant
            i <= own_ds@.len(),
            dv == directive_views(own_ds@),
            views(findings@) == before + all_tls_findings(file@, dv.take(i as int)),
        decreases own_ds@.len() - i,
    {
        assert(dv.take(i + 1).drop_last() =~= dv.take(i as int));
        assert(dv.take(i + 1).last() == own_ds@[i as int]@);
        check_tls(file, own_ds[i], findings);
        assert(views(findings@) =~= before + all_tls_findings(file@, dv.take(i + 1)));
        i += 1;
    }
    assert(dv.take(i as int) =~= dv);
}

/// The first directive that is not safe inside `if`.
fn find_unsafe<'a>(own_ds: &Vec<&'a Directive>) -> (r: Option<&'a Directive>)
    ensures
        match first_unsafe(directive_views(own_ds@)) {
            Some(d) => r is Some && r->0@ == d,
            None => r is None,
        },
{
    let ghost dv = directive_views(own_ds@);
    let mut i: usize = 0;
    assert(dv.skip(0) =~= dv);
    while i < own_ds.len()
        invariant
            i <= own_ds@.len(),
            dv == directive_views(own_ds@),
            first_unsafe(dv) == first_unsafe(dv.skip(i as int)),
        decreases own_ds@.len() - i,
    {
        assert(dv.skip(i as int)[0] == own_ds@[i as int]@);
        assert(dv.skip(i as int).drop_first() =~= dv.skip(i + 1));
        let keyword = text::chars_of(own_ds[i].keyword.as_str());
        if !text::is_among(&SAFE_IN_IF, keyword.as_slice()) {
            return Some(own_ds[i]);
        }
        i += 1;
    }
    None
}

/// Checks an `if` block.
fn check_if(file: &str, block: &Block, own_ds: &Vec<&Directive>, findings: &mut Vec<Finding>)
    requires
        directive_views(own_ds@) == own(block@.children),
    ensures
        views(final(findings)@) == views(old(findings)@) + if_findings(file@, block@),
{
    if text::str_eq(block.name.as_str(), "if") {
        if find_unsafe(own_ds).is_some() {
            add_finding(
                findings,
                mk(
                    "NGX011",
                    Severity::Medium,
                    file,
                    block.line,
                    block.raw.as_str(),
                    IF_BODY,
                    IF_BODY_FIX,
                ),
            );
        }
    }
}

/// Checks the alias of a location.
fn check_alias(file: &str, block: &Block, own_ds: &Vec<&Directive>, findings: &mut Vec<Finding>)
    requires
        directive_views(own_ds@) == own(block@.children),
    ensures
        views(final(findings)@) == views(old(findings)@) + alias_findings(file@, block@),
{
    if let Some(alias) = find_own(own_ds, "alias") {
        let block_args = text::chars_of(block.args.as_str());
        let alias_args = text::chars_of(alias.args.as_str());
        let location = text::trim(block_args.as_slice());
        let target = text::trim(alias_args.as_slice());
        if !text::ends_with(location, "/") && !text::ends_with(target, "/") && !text::has_char(
            location,
            '~',
        ) {
            let mut fix = "Add a trailing slash to both, e.g. 'location ".to_owned();
            fix.append(text::string_of(location).as_str());
            fix.append("/ { alias ");
            fix.append(text::string_of(target).as_str());
            fix.append("/; }'.");
            add_finding(
                findings,
                mk(
                    "NGX012",
                    Severity::High,
                    file,
                    alias.line,
                    alias.raw.as_str(),
                    ALIAS,
                    fix.as_str(),
                ),
            );
        }
    }
}

/// Checks a `location` block in the context inside it.
fn check_location(
    file: &str,
    block: &Block,
    own_ds: &Vec<&Directive>,
    ctx: &Ctx,
    findings: &mut Vec<Finding>,
)
    requires
        directive_views(own_ds@) == own(block@.children),
    ensures
        views(final(findings)@) == views(old(findings)@) + location_findings(file@, block@, ctx@),
{
    if text::str_eq(block.name.as_str(), "location") {
        check_alias(file, block, own_ds, findings);
        if let Some(pass) = find_own(own_ds, "proxy_pass") {
            if !ctx.proxy_host_set {
                add_finding(
                    findings,
                    mk(
                        "NGX010",
                        Severity::Medium,
                        file,
                        pass.line,
                        pass.raw.as_str(),
                        PROXY_HOST,
                        PROXY_HOST_FIX,
                    ),
                );
            }
        }
    }
    assert(views(findings@) =~= views(old(findings)@) + location_findings(file@, block@, ctx@));
}

/// What a missing required header leads to.
fn missing_header_consequence(key: &str) -> (r: &'static str)
    ensures
        r@ == missing_consequence(key@),
{
    if text::str_eq(key, "x-content-type-options") {
        NOSNIFF
    } else {
        FRAMING
    }
}

/// The value to give a required header.
fn default_header_value(key: &str) -> (r: &'static str)
    ensures
        r@ == header_value(key@),
{
    if text::str_eq(key, "x-content-type-options") {
        "nosniff"
    } else {
        "DENY"
    }
}

/// Checks that a server has a required header.
fn check_header(
    file: &str,
    block: &Block,
    have: &NameSet,
    rule_id: &str,
    key: &str,
    display: &str,
    findings: &mut Vec<Finding>,
)
    ensures
        views(final(findings)@) == views(old(findings)@) + header_findings(
            file@,
            block@,
            have@,
            rule_id@,
            key@,
            display@,
        ),
{
    if !have.contains(key) {
        let mut fix = "Add 'add_header ".to_owned();
        fix.append(display);
        fix.append(" ");
        fix.append(default_header_value(key));
        fix.append(";' (at http, server, or this location level).");
        add_finding(
            findings,
            mk(
                rule_id,
                Severity::Low,
                file,
                block.line,
                block.raw.as_str(),
                missing_header_consequence(key),
                fix.as_str(),
            ),
        );
    }
}

/// Checks a `server` block in the context inside it.
fn check_server(
    file: &str,
    block: &Block,
    own_ds: &Vec<&Directive>,
    ctx: &Ctx,
    findings: &mut Vec<Finding>,
)
    requires
        ctx.wf(),
        directive_views(own_ds@) == own(block@.children),
    ensures
        views(final(findings)@) == views(old(findings)@) + server_findings(file@, block@, ctx@),
{
    if text::str_eq(block.name.as_str(), "server") {
        let tls = is_tls_server(block, own_ds);
        if !tls && !has_https_redirect(&block.children) {
            add_finding(
                findings,
                mk(
                    "NGX003",
                    Severity::Medium,
                    file,
                    block.line,
                    block.raw.as_str(),
                    PLAINTEXT,
                    PLAINTEXT_FIX,
                ),
            );
        }
        let mut have = ctx.headers.copy();
        collect_headers(&block.children, &mut have);
        check_header(
            file,
            block,
            &have,
            "NGX006",
            "x-content-type-options",
            "X-Content-Type-Options",
            findings,
        );
        check_header(
            file,
            block,
            &have,
            "NGX007",
            "x-frame-options",
            "X-Frame-Options",
            findings,
        );
        if tls && !have.contains("strict-transport-security") {
            add_finding(
                findings,
                mk("NGX008", Severity::Low, file, block.line, block.raw.as_str(), HSTS, HSTS_FIX),
            );
        }
    }
    assert(views(findings@) =~= views(old(findings)@) + server_findings(file@, block@, ctx@));
}

/// Checks a block and everything beneath it, in the context around it.
fn check_block(file: &str, block: &Block, ctx: &Ctx, findings: &mut Vec<Finding>)
    requires
        ctx.wf(),
    ensures
        views(final(findings)@) == views(old(findings)@) + item_findings(
            file@,
            ItemView::Block(block@),
            ctx@,
        ),
    decreases block,
{
    let own_ds = own_directives(&block.children);
    let inner = ctx.enter(&own_ds);
    assert(inner@ =~= inner_ctx(block@, ctx@));
    check_all_tls(file, &own_ds, findings);
    check_if(file, block, &own_ds, findings);
    check_location(file, block, &own_ds, &inner, findings);
    check_server(file, block, &own_ds, &inner, findings);
    assert(views(findings@) =~= views(old(findings)@) + block_findings(file@, block@, inner@));
    walk(file, &block.children, &inner, findings);
    assert(views(findings@) =~= views(old(findings)@) + item_findings(
        file@,
        ItemView::Block(block@),
        ctx@,
    ));
}

/// Checks items and everything beneath them, and appends what is found.
pub fn walk(file: &str, items: &Vec<Item>, ctx: &Ctx, findings: &mut Vec<Finding>)
    requires
        ctx.wf(),
    ensures
        views(final(findings)@) == views(old(findings)@) + walked(
            file@,
            items_view(items@),
            ctx@,
        ),
    decreases items,
{
    let ghost iv = items_view(items@);
    let ghost before = views(findings@);
    let mut i: usize = 0;
    proof {
        lemma_items_view(items@);
        assert(before + walked(file@, iv.take(0), ctx@) =~= before);
    }
    while i < items.len()
        invariant
            ctx.wf(),
            i <= items@.len(),
            iv == items_view(items@),
            iv.len() == items@.len(),
            forall|j: int| 0 <= j < iv.len() ==> iv[j] == item_view(#[trigger] items@[j]),
            views(findings@) == before + walked(file@, iv.take(i as int), ctx@),
        decreases items@.len() - i,
    {
        proof {
            reveal_with_fuel(item_view, 3);
            reveal_with_fuel(walked, 3);
            reveal_with_fuel(item_findings, 3);
            assert(iv.take(i + 1).drop_last() =~= iv.take(i as int));
            assert(iv.take(i + 1).last() == item_view(items@[i as int]));
        }
        match &items[i] {
            Item::Directive(d) => {
                check_directive(file, d, findings);
            },
            Item::Block(b) => {
                check_block(file, b, ctx, findings);
            },
        }
        assert(views(findings@) =~= before + walked(file@, iv.take(i + 1), ctx@));
        i += 1;
    }
    assert(iv.take(i as int) =~= iv);
}

/// Parses and audits `content`, returning every rule violation found.
///
/// # Errors
/// Returns an error if `content` cannot be parsed (see [`parse`]).
pub fn audit(file: &str, content: &str) -> (r: Result<Vec<Finding>, String>)
    ensures
        match audited(file@, content@) {
            Ok(fs) => r is Ok && views(r->Ok_0@) == fs,
            Err(m) => r is Err && r->Err_0@ == m,
        },
{
    let tree = match parse(content) {
        Ok(tree) => tree,
        Err(message) => {
            return Err(message);
        },
    };
    let mut findings: Vec<Finding> = Vec::new();
    let ctx = Ctx { headers: NameSet::new(), proxy_host_set: false };
    assert(ctx@ =~= no_ctx());
    let own_ds = own_directives(&tree);
    assert(views(findings@) =~= Seq::empty());
    check_all_tls(file, &own_ds, &mut findings);
    walk(file, &tree, &ctx, &mut findings);
    assert(views(findings@) =~= tree_findings(file@, items_view(tree@)));
    Ok(order::sort(findings))
}

} // verus!

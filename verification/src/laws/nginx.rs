//! What holds of every audit of an nginx configuration.

use crate::finding::{FindingView, SourceKind};
use crate::laws::{
    all_labelled, lemma_all_add, lemma_labelled_add, lemma_labelled_again, lemma_labelled_sorted,
    lemma_none_add, lemma_none_counts_nothing, lemma_numbers, lemma_of_rule_add, lemma_of_rule_none,
    lemma_of_rule_one, nginx_documented, none_of, number, of_rule,
};
use crate::order;
use crate::parsers::nginx::{
    ahead, alias_findings, all_tls_findings, any_forwards_host, audited, block, block_findings,
    directive, directive_findings, first_named, flushed, headers_of, if_findings, inner_ctx,
    item_findings, lemma_level_advances, lemma_word_run, level, lexed, location_findings,
    newline_count, no_ctx, own, parsed_content, proxy_findings, raw_run, says, server_findings,
    server_headers, tls_findings, tokens, tree_findings, walked, word_run, BlockView, CtxView,
    DirectiveView, ItemView, TokView,
};
use crate::parsers::{lemma_prepend_twice, prepended};
use crate::text;
use vstd::prelude::*;

verus! {

proof fn lemma_newlines_add(a: Seq<char>, b: Seq<char>)
    ensures
        newline_count(a + b) == newline_count(a) + newline_count(b),
    decreases b.len(),
{
    if b.len() == 0 {
        assert(a + b =~= a);
    } else {
        lemma_newlines_add(a, b.drop_last());
        assert((a + b).drop_last() =~= a + b.drop_last());
    }
}

/// The line of a token.
pub open spec fn line_of(t: TokView) -> nat {
    match t {
        TokView::Word(_, _, l) => l,
        TokView::Semi(l) => l,
        TokView::LBrace(l) => l,
        TokView::RBrace(l) => l,
    }
}

/// The line on which position `p` of a text lies.
pub open spec fn line_at(content: Seq<char>, p: int) -> nat {
    1 + newline_count(content.take(p))
}

/// How a token is written.
pub open spec fn written(t: TokView) -> Seq<char> {
    match t {
        TokView::Word(_, raw, _) => raw,
        TokView::Semi(_) => seq![';'],
        TokView::LBrace(_) => seq!['{'],
        TokView::RBrace(_) => seq!['}'],
    }
}

/// Whether a token is written at position `p` of a text, and says so by its
/// line.
pub open spec fn begins_at(t: TokView, content: Seq<char>, p: int) -> bool {
    text::stands_at(content, written(t), p) && line_of(t) == line_at(content, p)
}

/// Whether a token has the line of a position of the text at which it is
/// written.
pub open spec fn lies_in(t: TokView, content: Seq<char>) -> bool {
    exists|p: int| begins_at(t, content, p)
}

/// Whether every token lies in a text.
pub open spec fn all_lie_in(toks: Seq<TokView>, content: Seq<char>) -> bool {
    forall|k: int| 0 <= k < toks.len() ==> lies_in(#[trigger] toks[k], content)
}

proof fn lemma_no_newlines(s: Seq<char>)
    requires
        forall|j: int| 0 <= j < s.len() ==> s[j] != '\n',
    ensures
        newline_count(s) == 0,
    decreases s.len(),
{
    if s.len() > 0 {
        lemma_no_newlines(s.drop_last());
    }
}

proof fn lemma_line_step(content: Seq<char>, i: int)
    requires
        0 <= i < content.len(),
    ensures
        line_at(content, i + 1) == line_at(content, i) + (if content[i] == '\n' {
            1nat
        } else {
            0nat
        }),
{
    assert(content.take(i + 1).drop_last() =~= content.take(i));
}

proof fn lemma_line_jump(content: Seq<char>, i: int, j: int)
    requires
        0 <= i <= j <= content.len(),
    ensures
        line_at(content, j) == line_at(content, i) + newline_count(content.subrange(i, j)),
{
    assert(content.take(j) =~= content.take(i) + content.subrange(i, j));
    lemma_newlines_add(content.take(i), content.subrange(i, j));
}

proof fn lemma_lie_in_add(a: Seq<TokView>, b: Seq<TokView>, content: Seq<char>)
    requires
        all_lie_in(a, content),
        all_lie_in(b, content),
    ensures
        all_lie_in(a + b, content),
{
}

/// Whether the part of a word that was read up to position `i` is written in
/// front of it and began on line `start`.
spec fn word_began(
    content: Seq<char>,
    i: int,
    word: Seq<char>,
    raw: Seq<char>,
    start: nat,
) -> bool {
    &&& text::stands_at(content, raw, i - raw.len())
    &&& word.len() > 0 ==> start == line_at(content, i - raw.len())
    &&& word.len() == 0 ==> newline_count(raw) == 0
}

/// More of a word, up to position `j`.
proof fn lemma_word_goes_on(
    content: Seq<char>,
    i: int,
    j: int,
    word: Seq<char>,
    raw: Seq<char>,
    start: nat,
    more: Seq<char>,
)
    requires
        0 <= i <= j <= content.len(),
        word_began(content, i, word, raw, start),
        word.len() + more.len() == 0 ==> newline_count(content.subrange(i, j)) == 0,
    ensures
        word_began(
            content,
            j,
            word + more,
            raw + content.subrange(i, j),
            if word.len() == 0 {
                line_at(content, i)
            } else {
                start
            },
        ),
{
    let p = i - raw.len();
    let longer = raw + content.subrange(i, j);
    assert(content.subrange(p, j) =~= content.subrange(p, i) + content.subrange(i, j));
    lemma_newlines_add(raw, content.subrange(i, j));
    lemma_line_jump(content, p, i);
}

#[verifier::spinoff_prover]
proof fn lemma_lexed_lies(
    content: Seq<char>,
    i: int,
    word: Seq<char>,
    raw: Seq<char>,
    start: nat,
)
    requires
        0 <= i <= content.len(),
        word_began(content, i, word, raw, start),
    ensures
        lexed(content.skip(i), line_at(content, i), word, raw, start) matches Ok(toks)
            ==> all_lie_in(toks, content),
    decreases content.len() - i,
{
    let s = content.skip(i);
    let line = line_at(content, i);
    let none = Seq::<char>::empty();
    let done = flushed(word, raw, start);
    assert(all_lie_in(done, content)) by {
        if word.len() > 0 {
            assert(begins_at(TokView::Word(word, raw, start), content, i - raw.len()));
        }
    }
    if i < content.len() {
        let c = s[0];
        let rest = s.drop_first();
        assert(rest =~= content.skip(i + 1));
        lemma_line_step(content, i);
        let word_start = if word.len() == 0 {
            line
        } else {
            start
        };
        if c == '\n' {
            lemma_none_began(content, i + 1, start);
            lemma_lexed_lies(content, i + 1, none, none, start);
            lemma_prepend_lies(done, lexed(rest, line + 1, none, none, start), content);
        } else if c == '#' {
            let k = text::char_index(rest, '\n');
            text::lemma_char_index(rest, '\n');
            if k < rest.len() {
                let j = i + 1 + k;
                assert(rest.skip(k + 1) =~= content.skip(j + 1));
                lemma_line_jump(content, i + 1, j);
                let comment = content.subrange(i + 1, j);
                assert forall|m: int| 0 <= m < comment.len() implies #[trigger] comment[m]
                    != '\n' by {
                    assert(rest[m] == content[i + 1 + m]);
                }
                lemma_no_newlines(comment);
                assert(content[j] == rest[k]);
                lemma_line_step(content, j);
                lemma_none_began(content, j + 1, start);
                lemma_lexed_lies(content, j + 1, none, none, start);
                lemma_prepend_lies(
                    done,
                    lexed(rest.skip(k + 1), line + 1, none, none, start),
                    content,
                );
            }
        } else if c == '"' || c == '\'' {
            let k = text::char_index(rest, c);
            text::lemma_char_index(rest, c);
            if k < rest.len() {
                let j = i + 1 + k;
                assert(rest.skip(k + 1) =~= content.skip(j + 1));
                assert(rest.take(k) =~= content.subrange(i + 1, j));
                lemma_line_jump(content, i + 1, j);
                assert(content[j] == rest[k]);
                lemma_line_step(content, j);
                let more = content.subrange(i, j + 1);
                assert(more =~= s.take(k + 2));
                if k == 0 {
                    assert(more =~= seq![c, c]);
                    lemma_no_newlines(more);
                }
                lemma_word_goes_on(content, i, j + 1, word, raw, start, rest.take(k));
                lemma_lexed_lies(content, j + 1, word + rest.take(k), raw + more, word_start);
            }
        } else if text::is_white_space(c) {
            lemma_none_began(content, i + 1, start);
            lemma_lexed_lies(content, i + 1, none, none, start);
            lemma_prepend_lies(done, lexed(rest, line, none, none, start), content);
        } else if c == ';' || c == '{' || c == '}' {
            let t = if c == ';' {
                TokView::Semi(line)
            } else if c == '{' {
                TokView::LBrace(line)
            } else {
                TokView::RBrace(line)
            };
            assert(content.subrange(i, i + 1) =~= seq![c]);
            assert(begins_at(t, content, i));
            assert(all_lie_in(done.push(t), content));
            lemma_none_began(content, i + 1, start);
            lemma_lexed_lies(content, i + 1, none, none, start);
            lemma_prepend_lies(done.push(t), lexed(rest, line, none, none, start), content);
        } else {
            lemma_word_goes_on(content, i, i + 1, word, raw, start, seq![c]);
            assert(content.subrange(i, i + 1) =~= seq![c]);
            assert(raw + seq![c] =~= raw.push(c));
            assert(word + seq![c] =~= word.push(c));
            lemma_lexed_lies(content, i + 1, word.push(c), raw.push(c), word_start);
        }
    }
}

proof fn lemma_none_began(content: Seq<char>, i: int, start: nat)
    requires
        0 <= i <= content.len(),
    ensures
        word_began(content, i, Seq::empty(), Seq::empty(), start),
{
    assert(content.subrange(i, i) =~= Seq::empty());
}

proof fn lemma_prepend_lies(
    head: Seq<TokView>,
    rest: Result<Seq<TokView>, Seq<char>>,
    content: Seq<char>,
)
    requires
        all_lie_in(head, content),
        rest matches Ok(toks) ==> all_lie_in(toks, content),
    ensures
        prepended(head, rest) matches Ok(toks) ==> all_lie_in(toks, content),
{
    if let Ok(toks) = rest {
        lemma_lie_in_add(head, toks, content);
    }
}

/// Every token stands in the file as it is written, and has the line of the
/// position where it does: one more than the line ends in front of it.
pub proof fn law_tokens_have_their_line(content: Seq<char>)
    requires
        tokens(content) is Ok,
    ensures
        all_lie_in(tokens(content)->Ok_0, content),
{
    assert(content.skip(0) =~= content);
    assert(content.take(0) =~= Seq::empty());
    lemma_none_began(content, 0, 1);
    lemma_lexed_lies(content, 0, Seq::empty(), Seq::empty(), 1);
}

/// Whether a directive is written from the `k`-th token on.
pub open spec fn directive_at(d: DirectiveView, toks: Seq<TokView>, k: int) -> bool {
    &&& 0 <= k < toks.len()
    &&& toks[k] is Word
    &&& d == directive(word_run(toks, k), raw_run(toks, k), line_of(toks[k]))
}

/// Whether a block is written from the `k`-th token on.
pub open spec fn block_at(b: BlockView, toks: Seq<TokView>, k: int) -> bool {
    &&& 0 <= k < toks.len()
    &&& toks[k] is Word
    &&& b == block(word_run(toks, k), raw_run(toks, k), line_of(toks[k]), b.children)
}

/// Whether every directive and block, at any depth, is written somewhere among
/// tokens.
pub open spec fn items_written(items: Seq<ItemView>, toks: Seq<TokView>) -> bool
    decreases items,
{
    items.len() == 0 || (items_written(items.drop_last(), toks) && item_written(
        items.last(),
        toks,
    ))
}

/// Whether an item, and everything beneath it, is written somewhere among
/// tokens.
pub open spec fn item_written(i: ItemView, toks: Seq<TokView>) -> bool
    decreases i,
{
    match i {
        ItemView::Directive(d) => exists|k: int| directive_at(d, toks, k),
        ItemView::Block(b) => (exists|k: int| block_at(b, toks, k)) && items_written(
            b.children,
            toks,
        ),
    }
}

proof fn lemma_items_written_prepend(i: ItemView, items: Seq<ItemView>, toks: Seq<TokView>)
    requires
        item_written(i, toks),
        items_written(items, toks),
    ensures
        items_written(seq![i] + items, toks),
    decreases items.len(),
{
    let all = seq![i] + items;
    if items.len() == 0 {
        assert(all.drop_last() =~= Seq::empty());
        assert(all.last() == i);
        reveal_with_fuel(items_written, 2);
    } else {
        lemma_items_written_prepend(i, items.drop_last(), toks);
        assert(all.drop_last() =~= seq![i] + items.drop_last());
    }
}

proof fn lemma_directive_written(d: DirectiveView, toks: Seq<TokView>, k: int)
    requires
        directive_at(d, toks, k),
    ensures
        item_written(ItemView::Directive(d), toks),
{
    let i = ItemView::Directive(d);
    assert(i->Directive_0 == d);
    assert(exists|k: int| directive_at(i->Directive_0, toks, k));
}

proof fn lemma_level_written(toks: Seq<TokView>, pos: int, top: bool)
    requires
        0 <= pos <= toks.len(),
    ensures
        level(toks, pos, top) matches Ok((items, _)) ==> items_written(items, toks),
    decreases toks.len() - pos,
{
    if pos < toks.len() && toks[pos] is Word {
        let words = word_run(toks, pos);
        let raws = raw_run(toks, pos);
        let line = line_of(toks[pos]);
        let end = pos + words.len();
        lemma_word_run(toks, pos);
        if end < toks.len() {
            if toks[end] is LBrace {
                lemma_level_written(toks, end + 1, false);
                lemma_level_advances(toks, end + 1, false);
                if let Ok((children, next)) = level(toks, end + 1, false) {
                    let b = block(words, raws, line, children);
                    lemma_level_written(toks, next, top);
                    assert(block_at(b, toks, pos));
                    assert(item_written(ItemView::Block(b), toks)) by {
                        reveal_with_fuel(item_written, 2);
                    }
                    if let Ok((rest, _)) = level(toks, next, top) {
                        lemma_items_written_prepend(ItemView::Block(b), rest, toks);
                    }
                }
            } else if !(toks[end] is RBrace) {
                let d = directive(words, raws, line);
                assert(directive_at(d, toks, pos));
                lemma_directive_written(d, toks, pos);
                lemma_level_written(toks, end + 1, top);
                if let Ok((rest, _)) = level(toks, end + 1, top) {
                    lemma_items_written_prepend(ItemView::Directive(d), rest, toks);
                }
            }
        }
    }
}

/// Whether a finding shows what is written from the `k`-th token on: it has
/// the line of that token, and its evidence is the row of words that begins
/// there, as they are written, with a space between them.
pub open spec fn shows(f: FindingView, toks: Seq<TokView>, k: int) -> bool {
    &&& 0 <= k < toks.len()
    &&& toks[k] is Word
    &&& f.line == line_of(toks[k])
    &&& f.evidence == text::joined(raw_run(toks, k), " "@)
}

/// Whether a finding is one that an audit of a file of the given tokens may
/// report: it names the file, it has the severity that its rule is documented
/// with, and it shows a directive or the head of a block on its line.
pub open spec fn sound(f: FindingView, file: Seq<char>, toks: Seq<TokView>) -> bool {
    &&& f.file == file
    &&& f.source == SourceKind::Nginx
    &&& nginx_documented(f.rule_id, f.severity)
    &&& exists|k: int| shows(f, toks, k)
}

/// Whether every directive of a list is written somewhere among tokens.
spec fn directives_written(ds: Seq<DirectiveView>, toks: Seq<TokView>) -> bool {
    forall|i: int| 0 <= i < ds.len() ==> item_written(ItemView::Directive(#[trigger] ds[i]), toks)
}

proof fn lemma_own_written(items: Seq<ItemView>, toks: Seq<TokView>)
    requires
        items_written(items, toks),
    ensures
        directives_written(own(items), toks),
    decreases items.len(),
{
    if items.len() > 0 {
        lemma_own_written(items.drop_last(), toks);
        assert(item_written(items.last(), toks));
    }
}

proof fn lemma_first_named_is_one(ds: Seq<DirectiveView>, keyword: Seq<char>)
    ensures
        first_named(ds, keyword) matches Some(d) ==> ds.contains(d),
    decreases ds.len(),
{
    if ds.len() > 0 && ds[0].keyword != keyword {
        let rest = ds.drop_first();
        lemma_first_named_is_one(rest, keyword);
        if let Some(d) = first_named(rest, keyword) {
            let k = choose|k: int| 0 <= k < rest.len() && rest[k] == d;
            assert(ds[k + 1] == d);
        }
    }
}

/// A finding that shows a written directive is sound.
proof fn lemma_shown_directive(
    f: FindingView,
    d: DirectiveView,
    file: Seq<char>,
    toks: Seq<TokView>,
)
    requires
        item_written(ItemView::Directive(d), toks),
        f.file == file,
        f.source == SourceKind::Nginx,
        nginx_documented(f.rule_id, f.severity),
        f.line == d.line,
        f.evidence == d.raw,
    ensures
        sound(f, file, toks),
{
    let k = choose|k: int| directive_at(d, toks, k);
    assert(shows(f, toks, k));
}

/// A finding that shows the head of a written block is sound.
proof fn lemma_shown_block(f: FindingView, b: BlockView, file: Seq<char>, toks: Seq<TokView>)
    requires
        exists|k: int| block_at(b, toks, k),
        f.file == file,
        f.source == SourceKind::Nginx,
        nginx_documented(f.rule_id, f.severity),
        f.line == b.line,
        f.evidence == b.raw,
    ensures
        sound(f, file, toks),
{
    let k = choose|k: int| block_at(b, toks, k);
    assert(shows(f, toks, k));
}

proof fn lemma_directive_sound(file: Seq<char>, d: DirectiveView, toks: Seq<TokView>)
    requires
        item_written(ItemView::Directive(d), toks),
    ensures
        directive_findings(file, d).all(|f: FindingView| sound(f, file, toks)),
{
    let fs = directive_findings(file, d);
    assert forall|i: int| 0 <= i < fs.len() implies sound(#[trigger] fs[i], file, toks) by {
        lemma_shown_directive(fs[i], d, file, toks);
    }
}

proof fn lemma_all_tls_sound(file: Seq<char>, ds: Seq<DirectiveView>, toks: Seq<TokView>)
    requires
        directives_written(ds, toks),
    ensures
        all_tls_findings(file, ds).all(|f: FindingView| sound(f, file, toks)),
    decreases ds.len(),
{
    if ds.len() > 0 {
        let head = ds.drop_last();
        let d = ds.last();
        assert forall|i: int| 0 <= i < head.len() implies item_written(
            ItemView::Directive(#[trigger] head[i]),
            toks,
        ) by {
            assert(head[i] == ds[i]);
        }
        lemma_all_tls_sound(file, head, toks);
        assert(item_written(ItemView::Directive(ds[ds.len() - 1]), toks));
        let fs = tls_findings(file, d);
        assert forall|i: int| 0 <= i < fs.len() implies sound(#[trigger] fs[i], file, toks) by {
            lemma_shown_directive(fs[i], d, file, toks);
        }
        lemma_all_add(
            all_tls_findings(file, head),
            fs,
            |f: FindingView| sound(f, file, toks),
        );
    }
}

proof fn lemma_location_sound(
    file: Seq<char>,
    b: BlockView,
    ctx: CtxView,
    toks: Seq<TokView>,
)
    requires
        items_written(b.children, toks),
    ensures
        location_findings(file, b, ctx).all(|f: FindingView| sound(f, file, toks)),
{
    let ds = own(b.children);
    lemma_own_written(b.children, toks);
    lemma_first_named_is_one(ds, "alias"@);
    lemma_first_named_is_one(ds, "proxy_pass"@);
    let aliases = alias_findings(file, b);
    assert forall|i: int| 0 <= i < aliases.len() implies sound(
        #[trigger] aliases[i],
        file,
        toks,
    ) by {
        lemma_shown_directive(aliases[i], first_named(ds, "alias"@)->0, file, toks);
    }
    let proxies = proxy_findings(file, b, ctx);
    assert forall|i: int| 0 <= i < proxies.len() implies sound(
        #[trigger] proxies[i],
        file,
        toks,
    ) by {
        lemma_shown_directive(proxies[i], first_named(ds, "proxy_pass"@)->0, file, toks);
    }
    lemma_all_add(aliases, proxies, |f: FindingView| sound(f, file, toks));
}

proof fn lemma_server_sound(file: Seq<char>, b: BlockView, ctx: CtxView, toks: Seq<TokView>)
    requires
        exists|k: int| block_at(b, toks, k),
    ensures
        server_findings(file, b, ctx).all(|f: FindingView| sound(f, file, toks)),
{
    let fs = server_findings(file, b, ctx);
    assert forall|i: int| 0 <= i < fs.len() implies sound(#[trigger] fs[i], file, toks) by {
        lemma_shown_block(fs[i], b, file, toks);
    }
}

proof fn lemma_if_sound(file: Seq<char>, b: BlockView, toks: Seq<TokView>)
    requires
        exists|k: int| block_at(b, toks, k),
    ensures
        if_findings(file, b).all(|f: FindingView| sound(f, file, toks)),
{
    let fs = if_findings(file, b);
    assert forall|i: int| 0 <= i < fs.len() implies sound(#[trigger] fs[i], file, toks) by {
        lemma_shown_block(fs[i], b, file, toks);
    }
}

proof fn lemma_block_sound(file: Seq<char>, b: BlockView, ctx: CtxView, toks: Seq<TokView>)
    requires
        exists|k: int| block_at(b, toks, k),
        items_written(b.children, toks),
    ensures
        block_findings(file, b, ctx).all(|f: FindingView| sound(f, file, toks)),
{
    let pred = |f: FindingView| sound(f, file, toks);
    let ds = own(b.children);
    lemma_own_written(b.children, toks);
    lemma_all_tls_sound(file, ds, toks);
    lemma_if_sound(file, b, toks);
    lemma_location_sound(file, b, ctx, toks);
    lemma_server_sound(file, b, ctx, toks);
    lemma_all_add(all_tls_findings(file, ds), if_findings(file, b), pred);
    lemma_all_add(
        all_tls_findings(file, ds) + if_findings(file, b),
        location_findings(file, b, ctx),
        pred,
    );
    lemma_all_add(
        all_tls_findings(file, ds) + if_findings(file, b) + location_findings(file, b, ctx),
        server_findings(file, b, ctx),
        pred,
    );
}

proof fn lemma_walked_sound(
    file: Seq<char>,
    items: Seq<ItemView>,
    ctx: CtxView,
    toks: Seq<TokView>,
)
    requires
        items_written(items, toks),
    ensures
        walked(file, items, ctx).all(|f: FindingView| sound(f, file, toks)),
    decreases items,
{
    if items.len() > 0 {
        lemma_walked_sound(file, items.drop_last(), ctx, toks);
        lemma_item_sound(file, items.last(), ctx, toks);
        lemma_all_add(
            walked(file, items.drop_last(), ctx),
            item_findings(file, items.last(), ctx),
            |f: FindingView| sound(f, file, toks),
        );
    }
}

proof fn lemma_item_sound(file: Seq<char>, i: ItemView, ctx: CtxView, toks: Seq<TokView>)
    requires
        item_written(i, toks),
    ensures
        item_findings(file, i, ctx).all(|f: FindingView| sound(f, file, toks)),
    decreases i,
{
    match i {
        ItemView::Directive(d) => lemma_directive_sound(file, d, toks),
        ItemView::Block(b) => {
            let inner = inner_ctx(b, ctx);
            reveal_with_fuel(item_written, 2);
            lemma_block_sound(file, b, inner, toks);
            lemma_walked_sound(file, b.children, inner, toks);
            lemma_all_add(
                block_findings(file, b, inner),
                walked(file, b.children, inner),
                |f: FindingView| sound(f, file, toks),
            );
            reveal_with_fuel(item_findings, 2);
        },
    }
}

/// Every finding names the audited file, has the severity that its rule is
/// documented with, and shows the directive, or the head of the block, that
/// begins on its line.
pub proof fn law_findings_are_sound(file: Seq<char>, content: Seq<char>)
    requires
        audited(file, content) is Ok,
    ensures
        audited(file, content)->Ok_0.all(
            |f: FindingView| sound(f, file, tokens(content)->Ok_0),
        ),
{
    let items = parsed_content(content)->Ok_0;
    let toks = tokens(content)->Ok_0;
    lemma_level_written(toks, 0, true);
    let pred = |f: FindingView| sound(f, file, toks);
    lemma_own_written(items, toks);
    lemma_all_tls_sound(file, own(items), toks);
    lemma_walked_sound(file, items, no_ctx(), toks);
    lemma_all_add(all_tls_findings(file, own(items)), walked(file, items, no_ctx()), pred);
    order::lemma_sort_keeps_all(tree_findings(file, items), pred);
}

proof fn lemma_tls_is_none_of(file: Seq<char>, ds: Seq<DirectiveView>, rule_id: Seq<char>)
    requires
        number(rule_id) != 4,
        number(rule_id) != 5,
    ensures
        none_of(all_tls_findings(file, ds), rule_id),
    decreases ds.len(),
{
    if ds.len() > 0 {
        lemma_numbers();
        lemma_tls_is_none_of(file, ds.drop_last(), rule_id);
        lemma_none_add(
            all_tls_findings(file, ds.drop_last()),
            tls_findings(file, ds.last()),
            rule_id,
        );
    }
}

proof fn lemma_block_is_none_of(
    file: Seq<char>,
    b: BlockView,
    ctx: CtxView,
    rule_id: Seq<char>,
)
    requires
        number(rule_id) != 4,
        number(rule_id) != 5,
        number(rule_id) != 11,
        none_of(location_findings(file, b, ctx), rule_id),
        none_of(server_findings(file, b, ctx), rule_id),
    ensures
        none_of(block_findings(file, b, ctx), rule_id),
{
    lemma_numbers();
    let ds = own(b.children);
    lemma_tls_is_none_of(file, ds, rule_id);
    lemma_none_add(all_tls_findings(file, ds), if_findings(file, b), rule_id);
    lemma_none_add(
        all_tls_findings(file, ds) + if_findings(file, b),
        location_findings(file, b, ctx),
        rule_id,
    );
    lemma_none_add(
        all_tls_findings(file, ds) + if_findings(file, b) + location_findings(file, b, ctx),
        server_findings(file, b, ctx),
        rule_id,
    );
}

proof fn lemma_location_is_none_of(
    file: Seq<char>,
    b: BlockView,
    ctx: CtxView,
    rule_id: Seq<char>,
)
    requires
        number(rule_id) != 10 && number(rule_id) != 12,
    ensures
        none_of(location_findings(file, b, ctx), rule_id),
{
    lemma_numbers();
    if b.name == "location"@ {
        lemma_none_add(alias_findings(file, b), proxy_findings(file, b, ctx), rule_id);
    }
}

proof fn lemma_server_is_none_of(
    file: Seq<char>,
    b: BlockView,
    ctx: CtxView,
    rule_id: Seq<char>,
)
    requires
        number(rule_id) != 3 && !(6 <= number(rule_id) <= 8),
    ensures
        none_of(server_findings(file, b, ctx), rule_id),
{
    lemma_numbers();
}

/// The rules on missing headers, each with the header that it asks for.
pub open spec fn asks_for(rule_id: Seq<char>, header: Seq<char>) -> bool {
    ||| rule_id == "NGX006"@ && header == "x-content-type-options"@
    ||| rule_id == "NGX007"@ && header == "x-frame-options"@
    ||| rule_id == "NGX008"@ && header == "strict-transport-security"@
}

proof fn lemma_server_has_header(
    file: Seq<char>,
    b: BlockView,
    ctx: CtxView,
    rule_id: Seq<char>,
    header: Seq<char>,
)
    requires
        asks_for(rule_id, header),
        ctx.headers.contains(header),
    ensures
        none_of(server_findings(file, b, ctx), rule_id),
{
    lemma_numbers();
    assert(server_headers(b, ctx).contains(header));
}

proof fn lemma_header_below(
    file: Seq<char>,
    items: Seq<ItemView>,
    ctx: CtxView,
    rule_id: Seq<char>,
    header: Seq<char>,
)
    requires
        asks_for(rule_id, header),
        ctx.headers.contains(header),
    ensures
        none_of(walked(file, items, ctx), rule_id),
    decreases items,
{
    if items.len() > 0 {
        lemma_header_below(file, items.drop_last(), ctx, rule_id, header);
        lemma_header_below_item(file, items.last(), ctx, rule_id, header);
        lemma_none_add(
            walked(file, items.drop_last(), ctx),
            item_findings(file, items.last(), ctx),
            rule_id,
        );
    }
}

proof fn lemma_header_below_item(
    file: Seq<char>,
    i: ItemView,
    ctx: CtxView,
    rule_id: Seq<char>,
    header: Seq<char>,
)
    requires
        asks_for(rule_id, header),
        ctx.headers.contains(header) || (i is Block && headers_of(
            own(i->Block_0.children),
        ).contains(header)),
    ensures
        none_of(item_findings(file, i, ctx), rule_id),
    decreases i,
{
    lemma_numbers();
    match i {
        ItemView::Directive(d) => {},
        ItemView::Block(b) => {
            let inner = inner_ctx(b, ctx);
            assert(inner.headers.contains(header));
            lemma_location_is_none_of(file, b, inner, rule_id);
            lemma_server_has_header(file, b, inner, rule_id, header);
            lemma_block_is_none_of(file, b, inner, rule_id);
            lemma_header_below(file, b.children, inner, rule_id, header);
            lemma_none_add(
                block_findings(file, b, inner),
                walked(file, b.children, inner),
                rule_id,
            );
            reveal_with_fuel(item_findings, 2);
        },
    }
}

/// A header that a block adds, or that it inherits, is never reported missing
/// on that block or on anything beneath it.
pub proof fn law_header_is_inherited(
    file: Seq<char>,
    b: BlockView,
    ctx: CtxView,
    rule_id: Seq<char>,
    header: Seq<char>,
)
    requires
        asks_for(rule_id, header),
        ctx.headers.contains(header) || headers_of(own(b.children)).contains(header),
    ensures
        none_of(item_findings(file, ItemView::Block(b), ctx), rule_id),
{
    lemma_header_below_item(file, ItemView::Block(b), ctx, rule_id, header);
}

/// Whether every block on the top level adds a header itself.
pub open spec fn every_block_adds(items: Seq<ItemView>, header: Seq<char>) -> bool {
    forall|i: int|
        0 <= i < items.len() && #[trigger] items[i] is Block ==> headers_of(
            own(items[i]->Block_0.children),
        ).contains(header)
}

proof fn lemma_header_on_top(
    file: Seq<char>,
    items: Seq<ItemView>,
    ctx: CtxView,
    rule_id: Seq<char>,
    header: Seq<char>,
)
    requires
        asks_for(rule_id, header),
        every_block_adds(items, header),
    ensures
        none_of(walked(file, items, ctx), rule_id),
    decreases items.len(),
{
    if items.len() > 0 {
        let head = items.drop_last();
        assert forall|i: int| 0 <= i < head.len() && #[trigger] head[i] is Block implies headers_of(
            own(head[i]->Block_0.children),
        ).contains(header) by {
            assert(head[i] == items[i]);
        }
        lemma_header_on_top(file, head, ctx, rule_id, header);
        lemma_numbers();
        match items.last() {
            ItemView::Directive(d) => {
                assert(none_of(item_findings(file, items.last(), ctx), rule_id));
            },
            ItemView::Block(b) => {
                assert(items[items.len() - 1] is Block);
                law_header_is_inherited(file, b, ctx, rule_id, header);
            },
        }
        lemma_none_add(walked(file, head, ctx), item_findings(file, items.last(), ctx), rule_id);
    }
}

/// A file whose top-level blocks (such as `http`) add a header is never
/// reported to miss it.
pub proof fn law_header_set_on_top_is_never_missing(
    file: Seq<char>,
    content: Seq<char>,
    rule_id: Seq<char>,
    header: Seq<char>,
)
    requires
        asks_for(rule_id, header),
        audited(file, content) is Ok,
        every_block_adds(parsed_content(content)->Ok_0, header),
    ensures
        none_of(audited(file, content)->Ok_0, rule_id),
{
    let items = parsed_content(content)->Ok_0;
    lemma_header_on_top(file, items, no_ctx(), rule_id, header);
    lemma_numbers();
    lemma_tls_is_none_of(file, own(items), rule_id);
    lemma_none_add(
        all_tls_findings(file, own(items)),
        walked(file, items, no_ctx()),
        rule_id,
    );
    order::lemma_sort_keeps_all(
        tree_findings(file, items),
        |f: FindingView| f.rule_id != rule_id,
    );
}

proof fn lemma_host_below(file: Seq<char>, items: Seq<ItemView>, ctx: CtxView)
    requires
        ctx.proxy_host_set,
    ensures
        none_of(walked(file, items, ctx), "NGX010"@),
    decreases items,
{
    if items.len() > 0 {
        lemma_host_below(file, items.drop_last(), ctx);
        lemma_host_below_item(file, items.last(), ctx);
        lemma_none_add(
            walked(file, items.drop_last(), ctx),
            item_findings(file, items.last(), ctx),
            "NGX010"@,
        );
    }
}

proof fn lemma_host_below_item(file: Seq<char>, i: ItemView, ctx: CtxView)
    requires
        ctx.proxy_host_set || (i is Block && any_forwards_host(own(i->Block_0.children))),
    ensures
        none_of(item_findings(file, i, ctx), "NGX010"@),
    decreases i,
{
    lemma_numbers();
    match i {
        ItemView::Directive(d) => {},
        ItemView::Block(b) => {
            let inner = inner_ctx(b, ctx);
            lemma_server_is_none_of(file, b, inner, "NGX010"@);
            lemma_block_is_none_of(file, b, inner, "NGX010"@);
            lemma_host_below(file, b.children, inner);
            lemma_none_add(
                block_findings(file, b, inner),
                walked(file, b.children, inner),
                "NGX010"@,
            );
            reveal_with_fuel(item_findings, 2);
        },
    }
}

/// Where a block forwards the `Host` header, or inherits that it is forwarded,
/// no proxied location in it is reported to drop the header.
pub proof fn law_host_forwarding_is_inherited(file: Seq<char>, b: BlockView, ctx: CtxView)
    requires
        ctx.proxy_host_set || any_forwards_host(own(b.children)),
    ensures
        none_of(item_findings(file, ItemView::Block(b), ctx), "NGX010"@),
{
    lemma_host_below_item(file, ItemView::Block(b), ctx);
}

/// Whether a directive violates one of the rules on directives that may stand
/// anywhere.
pub open spec fn violates(rule_id: Seq<char>, d: DirectiveView) -> bool {
    ||| rule_id == "NGX001"@ && d.keyword == "autoindex"@ && says(d.args, "on"@)
    ||| rule_id == "NGX002"@ && d.keyword == "server_tokens"@ && says(d.args, "on"@)
    ||| rule_id == "NGX009"@ && d.keyword == "client_max_body_size"@ && text::trimmed(d.args)
        == "0"@
}

/// How many directives, at any depth, violate a rule.
pub open spec fn violations(items: Seq<ItemView>, rule_id: Seq<char>) -> nat
    decreases items,
{
    if items.len() == 0 {
        0
    } else {
        violations(items.drop_last(), rule_id) + item_violations(items.last(), rule_id)
    }
}

/// How many directives of an item, at any depth, violate a rule.
pub open spec fn item_violations(i: ItemView, rule_id: Seq<char>) -> nat
    decreases i,
{
    match i {
        ItemView::Directive(d) => if violates(rule_id, d) {
            1
        } else {
            0
        },
        ItemView::Block(b) => violations(b.children, rule_id),
    }
}

proof fn lemma_directive_counts(file: Seq<char>, d: DirectiveView, rule_id: Seq<char>)
    requires
        rule_id == "NGX001"@ || rule_id == "NGX002"@ || rule_id == "NGX009"@,
    ensures
        of_rule(directive_findings(file, d), rule_id).len() == item_violations(
            ItemView::Directive(d),
            rule_id,
        ),
{
    lemma_numbers();
    let fs = directive_findings(file, d);
    reveal_strlit("autoindex");
    reveal_strlit("server_tokens");
    reveal_strlit("client_max_body_size");
    assert("autoindex"@.len() == 9);
    assert("server_tokens"@.len() == 13);
    assert("client_max_body_size"@.len() == 20);
    if fs.len() == 0 {
        assert(fs =~= Seq::empty());
        lemma_of_rule_none(rule_id);
    } else {
        assert(fs =~= seq![fs[0]]);
        lemma_of_rule_one(fs[0], rule_id);
    }
}

proof fn lemma_walked_counts(
    file: Seq<char>,
    items: Seq<ItemView>,
    ctx: CtxView,
    rule_id: Seq<char>,
)
    requires
        rule_id == "NGX001"@ || rule_id == "NGX002"@ || rule_id == "NGX009"@,
    ensures
        of_rule(walked(file, items, ctx), rule_id).len() == violations(items, rule_id),
    decreases items,
{
    if items.len() == 0 {
        lemma_of_rule_none(rule_id);
    } else {
        lemma_walked_counts(file, items.drop_last(), ctx, rule_id);
        lemma_item_counts(file, items.last(), ctx, rule_id);
        lemma_of_rule_add(
            walked(file, items.drop_last(), ctx),
            item_findings(file, items.last(), ctx),
            rule_id,
        );
    }
}

proof fn lemma_item_counts(file: Seq<char>, i: ItemView, ctx: CtxView, rule_id: Seq<char>)
    requires
        rule_id == "NGX001"@ || rule_id == "NGX002"@ || rule_id == "NGX009"@,
    ensures
        of_rule(item_findings(file, i, ctx), rule_id).len() == item_violations(i, rule_id),
    decreases i,
{
    match i {
        ItemView::Directive(d) => lemma_directive_counts(file, d, rule_id),
        ItemView::Block(b) => {
            lemma_numbers();
            let inner = inner_ctx(b, ctx);
            lemma_location_is_none_of(file, b, inner, rule_id);
            lemma_server_is_none_of(file, b, inner, rule_id);
            lemma_block_is_none_of(file, b, inner, rule_id);
            lemma_none_counts_nothing(block_findings(file, b, inner), rule_id);
            lemma_walked_counts(file, b.children, inner, rule_id);
            lemma_of_rule_add(
                block_findings(file, b, inner),
                walked(file, b.children, inner),
                rule_id,
            );
            reveal_with_fuel(item_findings, 2);
            reveal_with_fuel(item_violations, 2);
        },
    }
}

/// `autoindex on`, `server_tokens on` and `client_max_body_size 0` are each
/// reported exactly once, however deep they stand.
pub proof fn law_directives_are_reported_once(
    file: Seq<char>,
    content: Seq<char>,
    rule_id: Seq<char>,
)
    requires
        rule_id == "NGX001"@ || rule_id == "NGX002"@ || rule_id == "NGX009"@,
        audited(file, content) is Ok,
    ensures
        of_rule(audited(file, content)->Ok_0, rule_id).len() == violations(
            parsed_content(content)->Ok_0,
            rule_id,
        ),
{
    let items = parsed_content(content)->Ok_0;
    let tls = all_tls_findings(file, own(items));
    lemma_walked_counts(file, items, no_ctx(), rule_id);
    lemma_numbers();
    lemma_tls_is_none_of(file, own(items), rule_id);
    lemma_none_counts_nothing(tls, rule_id);
    lemma_of_rule_add(tls, walked(file, items, no_ctx()), rule_id);
    order::lemma_sort_keeps_count(
        tree_findings(file, items),
        |f: FindingView| f.rule_id == rule_id,
    );
}

/// How many blocks are open behind the tokens from `a` to `b`, counted from
/// those open before them.
pub open spec fn depth(toks: Seq<TokView>, a: int, b: int) -> int
    decreases b - a,
{
    if a >= b {
        0
    } else {
        (match toks[a] {
            TokView::LBrace(_) => 1int,
            TokView::RBrace(_) => -1int,
            _ => 0int,
        }) + depth(toks, a + 1, b)
    }
}

proof fn lemma_depth_add(toks: Seq<TokView>, a: int, b: int, c: int)
    requires
        a <= b <= c,
    ensures
        depth(toks, a, c) == depth(toks, a, b) + depth(toks, b, c),
    decreases b - a,
{
    if a < b {
        lemma_depth_add(toks, a + 1, b, c);
    }
}

proof fn lemma_words_have_no_depth(toks: Seq<TokView>, pos: int)
    requires
        0 <= pos <= toks.len(),
    ensures
        depth(toks, pos, pos + word_run(toks, pos).len()) == 0,
    decreases toks.len() - pos,
{
    if pos < toks.len() && toks[pos] is Word {
        lemma_words_have_no_depth(toks, pos + 1);
    }
}

proof fn lemma_level_balances(toks: Seq<TokView>, pos: int, top: bool)
    requires
        0 <= pos <= toks.len(),
    ensures
        level(toks, pos, top) matches Ok((_, next)) ==> {
            &&& pos <= next <= toks.len()
            &&& top ==> next == toks.len()
            &&& depth(toks, pos, next) == if top {
                0int
            } else {
                -1int
            }
        },
    decreases toks.len() - pos,
{
    lemma_level_advances(toks, pos, top);
    if pos < toks.len() && toks[pos] is RBrace {
        reveal_with_fuel(depth, 2);
    }
    if pos < toks.len() && toks[pos] is Word {
        let words = word_run(toks, pos);
        let end = pos + words.len();
        lemma_word_run(toks, pos);
        lemma_words_have_no_depth(toks, pos);
        if end < toks.len() {
            reveal_with_fuel(depth, 2);
            lemma_depth_add(toks, pos, end, end + 1);
            if toks[end] is LBrace {
                lemma_level_balances(toks, end + 1, false);
                if let Ok((_, next)) = level(toks, end + 1, false) {
                    lemma_level_balances(toks, next, top);
                    lemma_depth_add(toks, pos, end + 1, next);
                    if let Ok((_, last)) = level(toks, next, top) {
                        lemma_depth_add(toks, pos, next, last);
                    }
                }
            } else if !(toks[end] is RBrace) {
                lemma_level_balances(toks, end + 1, top);
                if let Ok((_, last)) = level(toks, end + 1, top) {
                    lemma_depth_add(toks, pos, end + 1, last);
                }
            }
        }
    }
}

/// A file that parses is read to its end, and its braces are balanced.
pub proof fn law_parsed_files_are_balanced(content: Seq<char>)
    requires
        parsed_content(content) is Ok,
    ensures
        tokens(content) is Ok,
        level(tokens(content)->Ok_0, 0, true) matches Ok((_, next)) && next == tokens(
            content,
        )->Ok_0.len(),
        depth(tokens(content)->Ok_0, 0, tokens(content)->Ok_0.len() as int) == 0,
{
    lemma_level_balances(tokens(content)->Ok_0, 0, true);
}

/// What is found on two lists of items is what is found on each: nothing in one
/// affects the other.
pub proof fn law_walks_add_up(
    file: Seq<char>,
    a: Seq<ItemView>,
    b: Seq<ItemView>,
    ctx: CtxView,
)
    ensures
        walked(file, a + b, ctx) == walked(file, a, ctx) + walked(file, b, ctx),
    decreases b.len(),
{
    if b.len() == 0 {
        assert(a + b =~= a);
        assert(walked(file, b, ctx) =~= Seq::empty());
        assert(walked(file, a, ctx) + walked(file, b, ctx) =~= walked(file, a, ctx));
    } else {
        law_walks_add_up(file, a, b.drop_last(), ctx);
        assert((a + b).drop_last() =~= a + b.drop_last());
        assert(walked(file, a, ctx) + walked(file, b, ctx) =~= walked(file, a, ctx) + walked(
            file,
            b.drop_last(),
            ctx,
        ) + item_findings(file, b.last(), ctx));
    }
}

/// A token that stands `k` lines further down.
pub open spec fn moved_token(t: TokView, k: nat) -> TokView {
    match t {
        TokView::Word(w, raw, l) => TokView::Word(w, raw, l + k),
        TokView::Semi(l) => TokView::Semi(l + k),
        TokView::LBrace(l) => TokView::LBrace(l + k),
        TokView::RBrace(l) => TokView::RBrace(l + k),
    }
}

/// Tokens that stand `k` lines further down.
pub open spec fn moved_tokens(toks: Seq<TokView>, k: nat) -> Seq<TokView> {
    toks.map_values(|t: TokView| moved_token(t, k))
}

/// Items that stand `k` lines further down, with everything beneath them.
pub open spec fn moved_items(items: Seq<ItemView>, k: nat) -> Seq<ItemView>
    decreases items,
{
    if items.len() == 0 {
        Seq::empty()
    } else {
        moved_items(items.drop_last(), k).push(moved_item(items.last(), k))
    }
}

/// An item that stands `k` lines further down, with everything beneath it.
pub open spec fn moved_item(i: ItemView, k: nat) -> ItemView
    decreases i,
{
    match i {
        ItemView::Directive(d) => ItemView::Directive(DirectiveView { line: d.line + k, ..d }),
        ItemView::Block(b) => ItemView::Block(
            BlockView { line: b.line + k, children: moved_items(b.children, k), ..b },
        ),
    }
}

proof fn lemma_moved_items_prepend(i: ItemView, items: Seq<ItemView>, k: nat)
    ensures
        moved_items(seq![i] + items, k) == seq![moved_item(i, k)] + moved_items(items, k),
    decreases items.len(),
{
    let all = seq![i] + items;
    if items.len() == 0 {
        assert(all.drop_last() =~= Seq::empty());
        assert(all.last() == i);
        reveal_with_fuel(moved_items, 2);
        assert(moved_items(all, k) =~= seq![moved_item(i, k)] + moved_items(items, k));
    } else {
        lemma_moved_items_prepend(i, items.drop_last(), k);
        assert(all.drop_last() =~= seq![i] + items.drop_last());
        assert(moved_items(all, k) =~= seq![moved_item(i, k)] + moved_items(items, k));
    }
}

proof fn lemma_moved_prepended(
    head: Seq<TokView>,
    rest: Result<Seq<TokView>, Seq<char>>,
    moved_rest: Result<Seq<TokView>, Seq<char>>,
    k: nat,
)
    requires
        rest matches Ok(toks) ==> moved_rest == Ok::<Seq<TokView>, Seq<char>>(
            moved_tokens(toks, k),
        ),
    ensures
        prepended(head, rest) matches Ok(toks) ==> prepended(moved_tokens(head, k), moved_rest)
            == Ok::<Seq<TokView>, Seq<char>>(moved_tokens(toks, k)),
{
    if let Ok(toks) = rest {
        assert(moved_tokens(head + toks, k) =~= moved_tokens(head, k) + moved_tokens(toks, k));
    }
}

/// A text that begins further down has the same tokens further down.
#[verifier::spinoff_prover]
proof fn lemma_lexed_further_down(
    s: Seq<char>,
    line: nat,
    word: Seq<char>,
    raw: Seq<char>,
    start: nat,
    k: nat,
)
    ensures
        lexed(s, line, word, raw, start) matches Ok(toks) ==> lexed(
            s,
            line + k,
            word,
            raw,
            start + k,
        ) == Ok::<Seq<TokView>, Seq<char>>(moved_tokens(toks, k)),
    decreases s.len(),
{
    let none = Seq::<char>::empty();
    let done = flushed(word, raw, start);
    assert(moved_tokens(done, k) =~= flushed(word, raw, start + k));
    if s.len() > 0 {
        let c = s[0];
        let rest = s.drop_first();
        let word_start = if word.len() == 0 {
            line
        } else {
            start
        };
        if c == '\n' {
            lemma_lexed_further_down(rest, line + 1, none, none, start, k);
            lemma_moved_prepended(
                done,
                lexed(rest, line + 1, none, none, start),
                lexed(rest, line + 1 + k, none, none, start + k),
                k,
            );
            assert(line + k + 1 == line + 1 + k);
        } else if c == '#' {
            let n = text::char_index(rest, '\n');
            text::lemma_char_index(rest, '\n');
            if n < rest.len() {
                let tail = rest.skip(n + 1);
                lemma_lexed_further_down(tail, line + 1, none, none, start, k);
                lemma_moved_prepended(
                    done,
                    lexed(tail, line + 1, none, none, start),
                    lexed(tail, line + 1 + k, none, none, start + k),
                    k,
                );
                assert(line + k + 1 == line + 1 + k);
            }
        } else if c == '"' || c == '\'' {
            let n = text::char_index(rest, c);
            text::lemma_char_index(rest, c);
            if n < rest.len() {
                let down = newline_count(rest.take(n));
                lemma_lexed_further_down(
                    rest.skip(n + 1),
                    line + down,
                    word + rest.take(n),
                    raw + s.take(n + 2),
                    word_start,
                    k,
                );
                assert(line + down + k == line + k + down);
            }
        } else if text::is_white_space(c) {
            lemma_lexed_further_down(rest, line, none, none, start, k);
            lemma_moved_prepended(
                done,
                lexed(rest, line, none, none, start),
                lexed(rest, line + k, none, none, start + k),
                k,
            );
        } else if c == ';' || c == '{' || c == '}' {
            let t = if c == ';' {
                TokView::Semi(line)
            } else if c == '{' {
                TokView::LBrace(line)
            } else {
                TokView::RBrace(line)
            };
            lemma_lexed_further_down(rest, line, none, none, start, k);
            lemma_moved_prepended(
                done.push(t),
                lexed(rest, line, none, none, start),
                lexed(rest, line + k, none, none, start + k),
                k,
            );
            assert(moved_tokens(done.push(t), k) =~= flushed(word, raw, start + k).push(
                moved_token(t, k),
            ));
        } else {
            lemma_lexed_further_down(rest, line, word.push(c), raw.push(c), word_start, k);
        }
    }
}

/// Where no word has begun, it does not matter where the last one did.
pub(crate) proof fn lemma_start_is_free(s: Seq<char>, line: nat, raw: Seq<char>, start: nat, other: nat)
    ensures
        lexed(s, line, Seq::empty(), raw, start) == lexed(s, line, Seq::empty(), raw, other),
    decreases s.len(),
{
    let none = Seq::<char>::empty();
    if s.len() > 0 {
        let c = s[0];
        let rest = s.drop_first();
        if c == '\n' {
            lemma_start_is_free(rest, line + 1, none, start, other);
        } else if c == '#' {
            let n = text::char_index(rest, '\n');
            text::lemma_char_index(rest, '\n');
            if n < rest.len() {
                lemma_start_is_free(rest.skip(n + 1), line + 1, none, start, other);
            }
        } else if c != '"' && c != '\'' {
            lemma_start_is_free(rest, line, none, start, other);
        }
    }
}

proof fn lemma_char_index_add(a: Seq<char>, b: Seq<char>, c: char)
    requires
        text::char_index(a, c) < a.len(),
    ensures
        text::char_index(a + b, c) == text::char_index(a, c),
    decreases a.len(),
{
    if a[0] != c {
        lemma_char_index_add(a.drop_first(), b, c);
        assert((a + b).drop_first() =~= a.drop_first() + b);
    }
}

/// The tokens of a text that goes on with `b` behind a line end: those in front
/// of `b`, and those of `b`.
#[verifier::spinoff_prover]
proof fn lemma_lexed_add(
    a: Seq<char>,
    b: Seq<char>,
    line: nat,
    word: Seq<char>,
    raw: Seq<char>,
    start: nat,
)
    requires
        a.len() > 0,
        a.last() == '\n',
        lexed(a, line, word, raw, start) is Ok,
    ensures
        lexed(a + b, line, word, raw, start) == prepended(
            lexed(a, line, word, raw, start)->Ok_0,
            lexed(b, line + newline_count(a), Seq::empty(), Seq::empty(), 1),
        ),
    decreases a.len(), 0int,
{
    let none = Seq::<char>::empty();
    let done = flushed(word, raw, start);
    let c = a[0];
    let rest = a.drop_first();
    assert((a + b)[0] == c);
    assert((a + b).drop_first() =~= rest + b);
    assert(a =~= seq![c] + rest);
    lemma_newlines_add(seq![c], rest);
    lemma_newlines_of_one(c);
    let word_start = if word.len() == 0 {
        line
    } else {
        start
    };
    if c == '\n' {
        lemma_rest_add(rest, b, line + 1, start, done);
    } else if c == '#' {
        let n = text::char_index(rest, '\n');
        text::lemma_char_index(rest, '\n');
        assert(rest[rest.len() - 1] == '\n');
        assert(n < rest.len());
        lemma_char_index_add(rest, b, '\n');
        let tail = rest.skip(n + 1);
        assert((rest + b).skip(n + 1) =~= tail + b);
        assert(rest =~= rest.take(n) + (seq!['\n'] + tail));
        lemma_no_newlines(rest.take(n));
        lemma_newlines_add(rest.take(n), seq!['\n'] + tail);
        lemma_newlines_add(seq!['\n'], tail);
        lemma_newlines_of_one('\n');
        lemma_rest_add(tail, b, line + 1, start, done);
    } else if c == '"' || c == '\'' {
        let n = text::char_index(rest, c);
        text::lemma_char_index(rest, c);
        lemma_char_index_add(rest, b, c);
        let tail = rest.skip(n + 1);
        assert(rest[rest.len() - 1] == '\n');
        assert((rest + b).skip(n + 1) =~= tail + b);
        assert((rest + b).take(n) =~= rest.take(n));
        assert((a + b).take(n + 2) =~= a.take(n + 2));
        assert(rest =~= rest.take(n) + (seq![c] + tail));
        lemma_newlines_add(rest.take(n), seq![c] + tail);
        lemma_newlines_add(seq![c], tail);
        lemma_lexed_add(
            tail,
            b,
            line + newline_count(rest.take(n)),
            word + rest.take(n),
            raw + a.take(n + 2),
            word_start,
        );
    } else if text::is_white_space(c) {
        lemma_rest_add(rest, b, line, start, done);
    } else if c == ';' || c == '{' || c == '}' {
        let t = if c == ';' {
            TokView::Semi(line)
        } else if c == '{' {
            TokView::LBrace(line)
        } else {
            TokView::RBrace(line)
        };
        lemma_rest_add(rest, b, line, start, done.push(t));
    } else {
        lemma_lexed_add(rest, b, line, word.push(c), raw.push(c), word_start);
    }
}

proof fn lemma_newlines_of_one(c: char)
    ensures
        newline_count(seq![c]) == if c == '\n' {
            1nat
        } else {
            0nat
        },
{
    reveal_with_fuel(newline_count, 2);
    assert(seq![c].drop_last() =~= Seq::<char>::empty());
}

/// The tokens of the rest of a text, which may be empty, behind tokens that
/// were read.
proof fn lemma_rest_add(
    rest: Seq<char>,
    b: Seq<char>,
    line: nat,
    start: nat,
    head: Seq<TokView>,
)
    requires
        rest.len() > 0 ==> rest.last() == '\n',
        lexed(rest, line, Seq::empty(), Seq::empty(), start) is Ok,
    ensures
        prepended(head, lexed(rest + b, line, Seq::empty(), Seq::empty(), start)) == prepended(
            prepended(head, lexed(rest, line, Seq::empty(), Seq::empty(), start))->Ok_0,
            lexed(b, line + newline_count(rest), Seq::empty(), Seq::empty(), 1),
        ),
    decreases rest.len(), 1int,
{
    let none = Seq::<char>::empty();
    let after = lexed(b, line + newline_count(rest), none, none, 1);
    let own_toks = lexed(rest, line, none, none, start)->Ok_0;
    if rest.len() == 0 {
        assert(rest + b =~= b);
        lemma_start_is_free(b, line, none, start, 1);
        assert(own_toks =~= Seq::empty());
        assert(head + own_toks =~= head);
    } else {
        lemma_lexed_add(rest, b, line, none, none, start);
        lemma_prepend_twice(head, own_toks, after);
    }
}

pub(crate) proof fn lemma_ahead_twice(
    first: Seq<ItemView>,
    second: Seq<ItemView>,
    rest: Result<(Seq<ItemView>, int), Seq<char>>,
)
    ensures
        ahead(first, ahead(second, rest)) == ahead(first + second, rest),
{
    if let Ok((items, _)) = rest {
        assert(first + (second + items) =~= first + second + items);
    }
}

/// A row of words ends at a token that is no word, and is the same whatever
/// stands behind that token.
proof fn lemma_run_before(a: Seq<TokView>, b: Seq<TokView>, pos: int)
    requires
        0 <= pos <= a.len(),
        pos + word_run(a, pos).len() < a.len(),
    ensures
        word_run(a + b, pos) == word_run(a, pos),
        raw_run(a + b, pos) == raw_run(a, pos),
    decreases a.len() - pos,
{
    assert((a + b)[pos] == a[pos]);
    if a[pos] is Word {
        lemma_run_before(a, b, pos + 1);
    }
}

/// A level that ends is the same whatever stands behind it; on the top level
/// what stands behind it goes on.
#[verifier::spinoff_prover]
proof fn lemma_level_before(a: Seq<TokView>, b: Seq<TokView>, pos: int, top: bool)
    requires
        0 <= pos <= a.len(),
        level(a, pos, top) is Ok,
    ensures
        level(a + b, pos, top) == if top {
            ahead(level(a, pos, top)->Ok_0.0, level(a + b, a.len() as int, true))
        } else {
            level(a, pos, top)
        },
    decreases a.len() - pos,
{
    let all = a + b;
    let after = level(all, a.len() as int, true);
    if pos == a.len() {
        if let Ok((items, _)) = after {
            assert(Seq::<ItemView>::empty() + items =~= items);
        }
    } else {
        assert(all[pos] == a[pos]);
        if a[pos] is Word {
            let words = word_run(a, pos);
            let raws = raw_run(a, pos);
            let line = line_of(a[pos]);
            let end = pos + words.len();
            lemma_word_run(a, pos);
            lemma_run_before(a, b, pos);
            assert(all[end] == a[end]);
            if a[end] is LBrace {
                lemma_level_before(a, b, end + 1, false);
                lemma_level_advances(a, end + 1, false);
                if let Ok((children, next)) = level(a, end + 1, false) {
                    let one = seq![ItemView::Block(block(words, raws, line, children))];
                    lemma_level_before(a, b, next, top);
                    if let Ok((items, _)) = level(a, next, top) {
                        lemma_ahead_twice(one, items, after);
                    }
                }
            } else {
                let one = seq![ItemView::Directive(directive(words, raws, line))];
                lemma_level_before(a, b, end + 1, top);
                if let Ok((items, _)) = level(a, end + 1, top) {
                    lemma_ahead_twice(one, items, after);
                }
            }
        }
    }
}

proof fn lemma_run_behind(a: Seq<TokView>, b: Seq<TokView>, pos: int, k: nat)
    requires
        0 <= pos <= b.len(),
    ensures
        word_run(a + moved_tokens(b, k), a.len() + pos) == word_run(b, pos),
        raw_run(a + moved_tokens(b, k), a.len() + pos) == raw_run(b, pos),
    decreases b.len() - pos,
{
    let all = a + moved_tokens(b, k);
    if pos < b.len() {
        assert(all[a.len() + pos] == moved_token(b[pos], k));
        if b[pos] is Word {
            lemma_run_behind(a, b, pos + 1, k);
        }
    }
}

/// A level behind other tokens and further down is the same level further down.
#[verifier::spinoff_prover]
proof fn lemma_level_behind(a: Seq<TokView>, b: Seq<TokView>, pos: int, top: bool, k: nat)
    requires
        0 <= pos <= b.len(),
        level(b, pos, top) is Ok,
    ensures
        level(b, pos, top) matches Ok((items, next)) && level(
            a + moved_tokens(b, k),
            a.len() + pos,
            top,
        ) == Ok::<(Seq<ItemView>, int), Seq<char>>((moved_items(items, k), a.len() + next)),
    decreases b.len() - pos,
{
    let all = a + moved_tokens(b, k);
    let at = a.len() + pos;
    if pos < b.len() {
        assert(all[at] == moved_token(b[pos], k));
        if b[pos] is Word {
            let words = word_run(b, pos);
            let raws = raw_run(b, pos);
            let line = line_of(b[pos]);
            let end = pos + words.len();
            lemma_word_run(b, pos);
            lemma_run_behind(a, b, pos, k);
            assert(all[a.len() + end] == moved_token(b[end], k));
            if b[end] is LBrace {
                lemma_level_behind(a, b, end + 1, false, k);
                lemma_level_advances(b, end + 1, false);
                if let Ok((children, next)) = level(b, end + 1, false) {
                    let i = ItemView::Block(block(words, raws, line, children));
                    lemma_level_behind(a, b, next, top, k);
                    if let Ok((items, _)) = level(b, next, top) {
                        lemma_moved_items_prepend(i, items, k);
                    }
                    reveal_with_fuel(moved_item, 2);
                    assert(moved_item(i, k) == ItemView::Block(
                        block(words, raws, line + k, moved_items(children, k)),
                    ));
                }
            } else {
                let i = ItemView::Directive(directive(words, raws, line));
                lemma_level_behind(a, b, end + 1, top, k);
                if let Ok((items, _)) = level(b, end + 1, top) {
                    lemma_moved_items_prepend(i, items, k);
                }
            }
        }
    }
}

/// Two files that parse can be put together where the first ends with a line
/// end: the tree is that of the first followed by that of the second, with the
/// lines of the first added to every line.
pub proof fn law_files_can_be_put_together(a: Seq<char>, b: Seq<char>)
    requires
        a.len() > 0,
        a.last() == '\n',
        parsed_content(a) is Ok,
        parsed_content(b) is Ok,
    ensures
        parsed_content(a + b) == Ok::<Seq<ItemView>, Seq<char>>(
            parsed_content(a)->Ok_0 + moved_items(parsed_content(b)->Ok_0, newline_count(a)),
        ),
{
    let none = Seq::<char>::empty();
    let k = newline_count(a);
    let ta = tokens(a)->Ok_0;
    let tb = tokens(b)->Ok_0;
    lemma_lexed_add(a, b, 1, none, none, 1);
    lemma_lexed_further_down(b, 1, none, none, 1, k);
    lemma_start_is_free(b, 1 + k, none, 1 + k, 1);
    let all = ta + moved_tokens(tb, k);
    assert(tokens(a + b) == Ok::<Seq<TokView>, Seq<char>>(all));
    lemma_level_balances(ta, 0, true);
    lemma_level_before(ta, moved_tokens(tb, k), 0, true);
    lemma_level_behind(ta, tb, 0, true, k);
}

proof fn lemma_labelled_tls(file: Seq<char>, other: Seq<char>, ds: Seq<DirectiveView>)
    ensures
        all_tls_findings(other, ds) == all_labelled(all_tls_findings(file, ds), other),
    decreases ds.len(),
{
    if ds.len() > 0 {
        let d = ds.last();
        lemma_labelled_tls(file, other, ds.drop_last());
        assert(tls_findings(other, d) =~= all_labelled(tls_findings(file, d), other));
        lemma_labelled_add(all_tls_findings(file, ds.drop_last()), tls_findings(file, d), other);
    } else {
        assert(all_labelled(Seq::empty(), other) =~= Seq::empty());
    }
}

proof fn lemma_labelled_if(file: Seq<char>, other: Seq<char>, b: BlockView)
    ensures
        if_findings(other, b) == all_labelled(if_findings(file, b), other),
{
    assert(if_findings(other, b) =~= all_labelled(if_findings(file, b), other));
}

proof fn lemma_labelled_location(file: Seq<char>, other: Seq<char>, b: BlockView, ctx: CtxView)
    ensures
        location_findings(other, b, ctx) == all_labelled(location_findings(file, b, ctx), other),
{
    assert(alias_findings(other, b) =~= all_labelled(alias_findings(file, b), other));
    assert(proxy_findings(other, b, ctx) =~= all_labelled(proxy_findings(file, b, ctx), other));
    assert(all_labelled(Seq::empty(), other) =~= Seq::empty());
    lemma_labelled_add(alias_findings(file, b), proxy_findings(file, b, ctx), other);
}

proof fn lemma_labelled_server(file: Seq<char>, other: Seq<char>, b: BlockView, ctx: CtxView)
    ensures
        server_findings(other, b, ctx) == all_labelled(server_findings(file, b, ctx), other),
{
    assert(server_findings(other, b, ctx) =~= all_labelled(server_findings(file, b, ctx), other));
}

proof fn lemma_labelled_block(file: Seq<char>, other: Seq<char>, b: BlockView, ctx: CtxView)
    ensures
        block_findings(other, b, ctx) == all_labelled(block_findings(file, b, ctx), other),
{
    let tls = all_tls_findings(file, own(b.children));
    let ifs = if_findings(file, b);
    let location = location_findings(file, b, ctx);
    let server = server_findings(file, b, ctx);
    lemma_labelled_tls(file, other, own(b.children));
    lemma_labelled_if(file, other, b);
    lemma_labelled_location(file, other, b, ctx);
    lemma_labelled_server(file, other, b, ctx);
    lemma_labelled_add(tls, ifs, other);
    lemma_labelled_add(tls + ifs, location, other);
    lemma_labelled_add(tls + ifs + location, server, other);
}

proof fn lemma_labelled_walk(
    file: Seq<char>,
    other: Seq<char>,
    items: Seq<ItemView>,
    ctx: CtxView,
)
    ensures
        walked(other, items, ctx) == all_labelled(walked(file, items, ctx), other),
    decreases items,
{
    if items.len() > 0 {
        lemma_labelled_walk(file, other, items.drop_last(), ctx);
        lemma_labelled_item(file, other, items.last(), ctx);
        lemma_labelled_add(
            walked(file, items.drop_last(), ctx),
            item_findings(file, items.last(), ctx),
            other,
        );
    } else {
        assert(all_labelled(Seq::empty(), other) =~= Seq::empty());
    }
}

proof fn lemma_labelled_item(file: Seq<char>, other: Seq<char>, i: ItemView, ctx: CtxView)
    ensures
        item_findings(other, i, ctx) == all_labelled(item_findings(file, i, ctx), other),
    decreases i,
{
    match i {
        ItemView::Directive(d) => {
            assert(directive_findings(other, d) =~= all_labelled(
                directive_findings(file, d),
                other,
            ));
        },
        ItemView::Block(b) => {
            let inner = inner_ctx(b, ctx);
            lemma_labelled_block(file, other, b, inner);
            lemma_labelled_walk(file, other, b.children, inner);
            lemma_labelled_add(
                block_findings(file, b, inner),
                walked(file, b.children, inner),
                other,
            );
            reveal_with_fuel(item_findings, 2);
        },
    }
}

proof fn lemma_labelled_tree(file: Seq<char>, other: Seq<char>, items: Seq<ItemView>)
    ensures
        tree_findings(other, items) == all_labelled(tree_findings(file, items), other),
{
    lemma_labelled_tls(file, other, own(items));
    lemma_labelled_walk(file, other, items, no_ctx());
    lemma_labelled_add(
        all_tls_findings(file, own(items)),
        walked(file, items, no_ctx()),
        other,
    );
}

pub(crate) proof fn lemma_file_is_a_label(file: Seq<char>, other: Seq<char>, content: Seq<char>)
    ensures
        audited(other, content) == match audited(file, content) {
            Ok(fs) => Ok(all_labelled(fs, other)),
            Err(m) => Err(m),
        },
{
    if let Ok(items) = parsed_content(content) {
        lemma_labelled_tree(file, file, items);
        lemma_labelled_again(tree_findings(file, items), file);
        lemma_labelled_tree(file, other, items);
        lemma_labelled_sorted(tree_findings(file, items), file, other);
    }
}

} // verus!

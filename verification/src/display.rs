//! Rendering a tree back to text, in canonical form.
//!
//! A block is rendered as its name, a line with `{`, one line for each property, its
//! child blocks, and `}`. What stands inside a block is padded with one tab more
//! than the block itself, a line feed inside a key or value included. The document's
//! top-level blocks follow each other, a line feed between them, none after the
//! last.
//!
//! The padding is the work of [`PadAdapter`]: what stands inside a block is written
//! through an adapter, which puts the padding before each line when the line
//! begins. The functions [`block_text`] and [`vmf_text`] say what text comes of it.
use crate::ast::{lemma_block_view, props_view, Block, BlockView, Property, PropertyView};
use crate::scan::{char, is_not_no_fail, lemma_span, CharClass};
use crate::text::Text;
use std::fmt;
use vstd::prelude::*;
use vstd::string::StringExecFns;

verus! {

/// The error of a sink that could not take what was written to it:
/// `std::fmt::Error`, which holds nothing.
#[verifier::external_type_specification]
#[verifier::external_body]
pub struct ExFmtError(fmt::Error);

/// Something that accepts written text, piece after piece: a buffer in memory, or
/// whatever else a caller puts behind it.
pub trait TextSink: Sized {
    /// All that was written so far, for a sink that keeps account of it.
    open spec fn text(&self) -> Seq<char> {
        arbitrary()
    }

    /// Whether [`TextSink::text`] is an account of what the sink took. A sink that
    /// is to be verified against its text says so; the default keeps no account,
    /// and nothing is said of its text.
    open spec fn keeps_text(&self) -> bool {
        false
    }

    /// Whether the sink takes whatever is written to it. A sink that is to be
    /// verified as one that never fails says so; the default promises nothing.
    open spec fn reliable(&self) -> bool {
        false
    }

    /// Writes `s` after what was written before, or fails.
    fn write_str(&mut self, s: &str) -> (r: fmt::Result)
        ensures
            old(self).keeps_text() && r is Ok ==> final(self).keeps_text() && final(self).text()
                == old(self).text() + s@,
            old(self).reliable() ==> r is Ok && final(self).reliable(),
    ;
}

/// What a write of `text` to a sink leaves: on success, in a sink that keeps account
/// of its text, the text after what was written before; and success, if the sink is
/// reliable, which it then stays.
pub open spec fn wrote<W: TextSink>(before: W, after: W, r: fmt::Result, text: Seq<char>) -> bool {
    &&& before.keeps_text() && r is Ok ==> after.keeps_text() && after.text() == before.text()
        + text
    &&& before.reliable() ==> r is Ok && after.reliable()
}

impl TextSink for String {
    open spec fn text(&self) -> Seq<char> {
        self@
    }

    open spec fn keeps_text(&self) -> bool {
        true
    }

    open spec fn reliable(&self) -> bool {
        true
    }

    fn write_str(&mut self, s: &str) -> (r: fmt::Result) {
        self.append(s);
        Ok(())
    }
}

/// `text` with each of its line feeds followed by `padding`.
pub open spec fn padded(text: Seq<char>, padding: Seq<char>) -> Seq<char>
    decreases text.len(),
{
    if text.len() == 0 {
        text
    } else if text[0] == '\n' {
        seq!['\n'] + padding + padded(text.skip(1), padding)
    } else {
        seq![text[0]] + padded(text.skip(1), padding)
    }
}

/// The padding inside a block whose own lines are padded with `padding`.
pub open spec fn deeper(padding: Seq<char>) -> Seq<char> {
    padding + seq!['\t']
}

/// A property as text: `"key" "value"`.
pub open spec fn property_text(p: PropertyView) -> Seq<char> {
    seq!['"'] + p.key + seq!['"', ' ', '"'] + p.value + seq!['"']
}

/// A property as one line of a block whose content is padded with `padding`.
pub open spec fn property_line(p: PropertyView, padding: Seq<char>) -> Seq<char> {
    padding + padded(property_text(p), padding) + seq!['\n']
}

/// A block from its name to its closing brace, as it stands where lines are padded
/// with `padding`. The first line's padding is not part of it.
pub open spec fn block_text_in(b: BlockView, padding: Seq<char>) -> Seq<char>
    decreases b,
{
    padded(b.name, padding) + seq!['\n'] + padding + seq!['{', '\n'] + props_text(
        b.props,
        deeper(padding),
    ) + blocks_text(b.blocks, deeper(padding)) + padding + seq!['}']
}

/// Properties as the lines of a block whose content is padded with `padding`.
pub open spec fn props_text(props: Seq<PropertyView>, padding: Seq<char>) -> Seq<char>
    decreases props.len(),
{
    if props.len() == 0 {
        Seq::empty()
    } else {
        props_text(props.drop_last(), padding) + property_line(props.last(), padding)
    }
}

/// Child blocks as the lines of a block whose content is padded with `padding`.
pub open spec fn blocks_text(blocks: Seq<BlockView>, padding: Seq<char>) -> Seq<char>
    decreases blocks,
{
    if blocks.len() == 0 {
        Seq::empty()
    } else {
        blocks_text(blocks.drop_last(), padding) + padding + block_text_in(blocks.last(), padding)
            + seq!['\n']
    }
}

/// A block in canonical form, at the top level.
pub open spec fn block_text(b: BlockView) -> Seq<char> {
    block_text_in(b, Seq::empty())
}

/// Top-level blocks in canonical form: a line feed between them, none after the last.
pub open spec fn document_text(blocks: Seq<BlockView>) -> Seq<char>
    decreases blocks.len(),
{
    if blocks.len() == 0 {
        Seq::empty()
    } else if blocks.len() == 1 {
        block_text(blocks.last())
    } else {
        document_text(blocks.drop_last()) + seq!['\n'] + block_text(blocks.last())
    }
}

/// A document in canonical form: its top-level blocks. The root has no text of its own.
pub open spec fn vmf_text(v: BlockView) -> Seq<char> {
    document_text(v.blocks)
}

/// Padding is added piece by piece.
pub proof fn lemma_padded_concat(a: Seq<char>, b: Seq<char>, padding: Seq<char>)
    ensures
        padded(a + b, padding) == padded(a, padding) + padded(b, padding),
    decreases a.len(),
{
    if a.len() == 0 {
        assert(a + b =~= b);
        assert(padded(a, padding) + padded(b, padding) =~= padded(b, padding));
    } else {
        assert((a + b).skip(1) =~= a.skip(1) + b);
        lemma_padded_concat(a.skip(1), b, padding);
        if a[0] == '\n' {
            assert(padded(a + b, padding) =~= padded(a, padding) + padded(b, padding));
        } else {
            assert(padded(a + b, padding) =~= padded(a, padding) + padded(b, padding));
        }
    }
}

/// Text without a line feed is its own padded form.
pub proof fn lemma_padded_plain(text: Seq<char>, padding: Seq<char>)
    requires
        !text.contains('\n'),
    ensures
        padded(text, padding) == text,
    decreases text.len(),
{
    if text.len() > 0 {
        assert(text.contains(text[0]));
        assert forall|c: char| text.skip(1).contains(c) implies text.contains(c) by {
            let i = choose|i: int| 0 <= i < text.skip(1).len() && text.skip(1)[i] == c;
            assert(text[i + 1] == c);
        }
        lemma_padded_plain(text.skip(1), padding);
        assert(seq![text[0]] + text.skip(1) =~= text);
    }
}

/// With no padding, text is its own padded form.
pub proof fn lemma_padded_empty(text: Seq<char>)
    ensures
        padded(text, Seq::empty()) == text,
    decreases text.len(),
{
    if text.len() > 0 {
        lemma_padded_empty(text.skip(1));
        assert(seq![text[0]] + Seq::<char>::empty() + text.skip(1) =~= text);
        assert(seq![text[0]] + text.skip(1) =~= text);
    }
}

/// The padding that an adapter holds back: after a line feed it is written only
/// once the next line begins.
pub open spec fn held_back(on_newline: bool, padding: Seq<char>) -> Seq<char> {
    if on_newline {
        padding
    } else {
        Seq::empty()
    }
}

/// What an adapter hands to its sink when `text` is written through it: the text
/// with `padding` before each of its characters that begins a line. The first
/// character begins a line if `on_newline` says that a line feed came last; after
/// the last character no padding is written, a line feed though it be.
pub open spec fn lazily_padded(text: Seq<char>, padding: Seq<char>, on_newline: bool) -> Seq<char>
    decreases text.len(),
{
    if text.len() == 0 {
        text
    } else {
        held_back(on_newline, padding) + seq![text[0]] + lazily_padded(
            text.skip(1),
            padding,
            text[0] == '\n',
        )
    }
}

/// Whether a line feed came last once `text` was written: as before, if there was
/// nothing to write.
pub open spec fn at_line_start(text: Seq<char>, on_newline: bool) -> bool {
    if text.len() == 0 {
        on_newline
    } else {
        text.last() == '\n'
    }
}

/// What was handed to the sink, and the padding that is then held back, are the
/// padding that was held back before, and the text with the padding after each of
/// its line feeds.
pub proof fn lemma_lazily_padded(text: Seq<char>, padding: Seq<char>, on_newline: bool)
    ensures
        lazily_padded(text, padding, on_newline) + held_back(
            at_line_start(text, on_newline),
            padding,
        ) == held_back(on_newline, padding) + padded(text, padding),
    decreases text.len(),
{
    let left = lazily_padded(text, padding, on_newline) + held_back(
        at_line_start(text, on_newline),
        padding,
    );
    let right = held_back(on_newline, padding) + padded(text, padding);
    if text.len() == 0 {
        assert(left =~= right);
    } else {
        let rest = text.skip(1);
        let next = text[0] == '\n';
        lemma_lazily_padded(rest, padding, next);
        if rest.len() > 0 {
            assert(rest.last() == text.last());
        }
        assert(at_line_start(text, on_newline) == at_line_start(rest, next));
        assert(left =~= held_back(on_newline, padding) + seq![text[0]] + (lazily_padded(
            rest,
            padding,
            next,
        ) + held_back(at_line_start(rest, next), padding)));
        assert(right =~= held_back(on_newline, padding) + seq![text[0]] + (held_back(next, padding)
            + padded(rest, padding)));
    }
}

/// Text that begins with a line without a line feed is handed on with the padding
/// that was held back, then that line, then the rest.
proof fn lemma_lazily_plain(line: Seq<char>, rest: Seq<char>, padding: Seq<char>, on_newline: bool)
    requires
        line.len() > 0,
        !line.contains('\n'),
    ensures
        lazily_padded(line + rest, padding, on_newline) == held_back(on_newline, padding) + line
            + lazily_padded(rest, padding, false),
    decreases line.len(),
{
    let text = line + rest;
    assert(line.contains(line[0]));
    assert(text[0] == line[0]);
    if line.len() == 1 {
        assert(text.skip(1) =~= rest);
        assert(lazily_padded(text, padding, on_newline) =~= held_back(on_newline, padding) + line
            + lazily_padded(rest, padding, false));
    } else {
        let shorter = line.skip(1);
        assert(text.skip(1) =~= shorter + rest);
        assert forall|c: char| shorter.contains(c) implies line.contains(c) by {
            let i = choose|i: int| 0 <= i < shorter.len() && shorter[i] == c;
            assert(line[i + 1] == c);
        }
        lemma_lazily_plain(shorter, rest, padding, false);
        assert(lazily_padded(text, padding, on_newline) =~= held_back(on_newline, padding) + line
            + lazily_padded(rest, padding, false));
    }
}

/// Text that begins with a line and its line feed is handed on with the padding
/// that was held back, then that line and the line feed, then the rest, which begins
/// a line.
proof fn lemma_lazily_line(line: Seq<char>, rest: Seq<char>, padding: Seq<char>, on_newline: bool)
    requires
        !line.contains('\n'),
    ensures
        lazily_padded(line + seq!['\n'] + rest, padding, on_newline) == held_back(
            on_newline,
            padding,
        ) + line + seq!['\n'] + lazily_padded(rest, padding, true),
        at_line_start(line + seq!['\n'] + rest, on_newline) == at_line_start(rest, true),
{
    let fed = seq!['\n'] + rest;
    let text = line + seq!['\n'] + rest;
    assert(text =~= line + fed);
    assert(fed.skip(1) =~= rest);
    assert(fed[0] == '\n');
    if rest.len() > 0 {
        assert(text.last() == rest.last());
    } else {
        assert(text.last() == '\n');
    }
    if line.len() > 0 {
        lemma_lazily_plain(line, fed, padding, on_newline);
        assert(lazily_padded(fed, padding, false) =~= seq!['\n'] + lazily_padded(
            rest,
            padding,
            true,
        ));
        assert(lazily_padded(text, padding, on_newline) =~= held_back(on_newline, padding) + line
            + seq!['\n'] + lazily_padded(rest, padding, true));
    } else {
        assert(text =~= fed);
        assert(lazily_padded(text, padding, on_newline) =~= held_back(on_newline, padding) + line
            + seq!['\n'] + lazily_padded(rest, padding, true));
    }
}

/// Writes `s` to `f`, if there is anything to write.
pub(crate) fn write_piece<W: TextSink>(f: &mut W, s: &str) -> (r: fmt::Result)
    ensures
        wrote(*old(f), *final(f), r, s@),
{
    if s.is_empty() {
        proof {
            assert(f.text() + s@ =~= f.text());
        }
        Ok(())
    } else {
        f.write_str(s)
    }
}

/// Writes through to a sink, and pads what stands inside a block: each line that is
/// written through it begins with the padding. After a line feed the padding is
/// held back until the next line begins; `on_newline` says that it is.
pub struct PadAdapter<'a, W> {
    pub buf: &'a mut W,
    pub padding: &'a str,
    pub on_newline: bool,
}

/// What writing through an adapter leaves. On success, in a sink that keeps account
/// of its text: first the padding that was held back, then `text`; and the adapter
/// is at the start of a line as `ends_line` says. And success, if the sink is
/// reliable, which it then stays. The padding is the adapter's as before.
pub open spec fn passed<'a, W: TextSink>(
    before: PadAdapter<'a, W>,
    after: PadAdapter<'a, W>,
    r: fmt::Result,
    text: Seq<char>,
    ends_line: bool,
) -> bool {
    &&& after.padding@ == before.padding@
    &&& r is Ok ==> after.on_newline == ends_line
    &&& before.buf.keeps_text() && r is Ok ==> after.buf.keeps_text() && after.buf.text()
        == before.buf.text() + held_back(before.on_newline, before.padding@) + text
    &&& before.buf.reliable() ==> r is Ok && after.buf.reliable()
}

/// What writing whole lines through an adapter leaves that stood at the start of a
/// line: on success, in a sink that keeps account of its text, the lines after what
/// was written before, and the adapter at the start of a line again. And success,
/// if the sink is reliable, which it then stays.
pub open spec fn passed_lines<'a, W: TextSink>(
    before: PadAdapter<'a, W>,
    after: PadAdapter<'a, W>,
    r: fmt::Result,
    lines: Seq<char>,
) -> bool {
    &&& after.padding@ == before.padding@
    &&& r is Ok ==> after.on_newline
    &&& before.buf.keeps_text() && r is Ok ==> after.buf.keeps_text() && after.buf.text()
        == before.buf.text() + lines
    &&& before.buf.reliable() ==> r is Ok && after.buf.reliable()
}

impl<'a, W: TextSink> PadAdapter<'a, W> {
    /// An adapter that writes to `buf` and pads with `padding`. Nothing is held
    /// back at first.
    pub fn new(buf: &'a mut W, padding: &'a str) -> (adapter: Self)
        ensures
            *adapter.buf == *old(buf),
            *final(adapter.buf) == *final(buf),
            adapter.padding@ == padding@,
            !adapter.on_newline,
    {
        PadAdapter { buf, padding, on_newline: false }
    }

    /// An adapter on the same sink for what stands one block further in, padded with
    /// `padding`. It holds back what this one holds back.
    pub fn inside<'b>(&'b mut self, padding: &'b str) -> (inner: PadAdapter<'b, W>)
        ensures
            *inner.buf == *old(self).buf,
            *final(inner.buf) == *final(self).buf,
            *final(final(self).buf) == *final(old(self).buf),
            final(self).padding@ == old(self).padding@,
            final(self).on_newline == old(self).on_newline,
            inner.padding@ == padding@,
            inner.on_newline == old(self).on_newline,
    {
        PadAdapter { buf: &mut *self.buf, padding, on_newline: self.on_newline }
    }

    /// Writes `s` to the sink, line by line: before each line the padding, if a line
    /// feed came last. Where the sink fails, the writing ends there.
    pub fn write_str(&mut self, s: &str) -> (r: fmt::Result)
        ensures
            final(self).padding@ == old(self).padding@,
            *final(final(self).buf) == *final(old(self).buf),
            r is Ok ==> final(self).on_newline == at_line_start(s@, old(self).on_newline),
            old(self).buf.keeps_text() && r is Ok ==> final(self).buf.keeps_text(),
            old(self).buf.keeps_text() && r is Ok ==> final(self).buf.text() == old(
                self,
            ).buf.text() + lazily_padded(s@, old(self).padding@, old(self).on_newline),
            old(self).buf.reliable() ==> r is Ok && final(self).buf.reliable(),
    {
        let ghost before = self.buf.text();
        let ghost whole = lazily_padded(s@, self.padding@, self.on_newline);
        let mut rest = s;
        proof {
            reveal_strlit("\n");
            assert("\n"@ =~= seq!['\n']);
            assert(before + whole =~= before + lazily_padded(rest@, self.padding@, self.on_newline));
        }
        loop
            invariant
                before == old(self).buf.text(),
                whole == lazily_padded(s@, old(self).padding@, old(self).on_newline),
                self.padding@ == old(self).padding@,
                *final(self.buf) == *final(old(self).buf),
                old(self).buf.reliable() ==> self.buf.reliable(),
                old(self).buf.keeps_text() ==> self.buf.keeps_text() && self.buf.text()
                    + lazily_padded(rest@, self.padding@, self.on_newline) == before + whole,
                at_line_start(rest@, self.on_newline) == at_line_start(s@, old(self).on_newline),
                "\n"@ == seq!['\n'],
            decreases rest@.len(),
        {
            let ghost written = self.buf.text();
            let ghost flag = self.on_newline;
            let ghost held = held_back(flag, self.padding@);
            let ghost pad = self.padding@;
            match is_not_no_fail("\n", rest) {
                None => {
                    return Ok(());
                },
                Some((tail, line)) => {
                    proof {
                        let class = CharClass::NoneOf("\n"@);
                        lemma_span(rest@, class);
                        assert("\n"@.contains('\n')) by {
                            assert("\n"@[0] == '\n');
                        }
                        assert(rest@ =~= line@ + tail@);
                        assert(!line@.contains('\n')) by {
                            if line@.contains('\n') {
                                let i = choose|i: int| 0 <= i < line@.len() && line@[i] == '\n';
                                assert(class.has(rest@[i]));
                            }
                        }
                        if tail@.len() > 0 {
                            assert(tail@[0] == rest@[line@.len() as int]);
                        }
                    }
                    match char('\n', tail) {
                        None => {
                            proof {
                                assert(tail@.len() == 0);
                                assert(rest@ =~= line@);
                                assert(lazily_padded(tail@, pad, false) =~= tail@);
                                if line@.len() > 0 {
                                    lemma_lazily_plain(line@, tail@, pad, flag);
                                    assert(line@.contains(line@.last()));
                                }
                            }
                            if !line.is_empty() {
                                if self.on_newline {
                                    write_piece(self.buf, self.padding)?;
                                }
                                self.on_newline = false;
                                self.buf.write_str(line)?;
                                proof {
                                    if old(self).buf.keeps_text() {
                                        assert(self.buf.text() =~= written + lazily_padded(
                                            rest@,
                                            pad,
                                            flag,
                                        ));
                                    }
                                }
                            } else {
                                proof {
                                    if old(self).buf.keeps_text() {
                                        assert(written + lazily_padded(rest@, pad, flag)
                                            =~= written);
                                    }
                                }
                            }
                            return Ok(());
                        },
                        Some((next, _)) => {
                            proof {
                                assert(tail@ =~= seq!['\n'] + next@);
                                assert(rest@ =~= line@ + seq!['\n'] + next@);
                                lemma_lazily_line(line@, next@, pad, flag);
                            }
                            if self.on_newline {
                                write_piece(self.buf, self.padding)?;
                            }
                            self.on_newline = true;
                            write_piece(self.buf, line)?;
                            self.buf.write_str("\n")?;
                            proof {
                                if old(self).buf.keeps_text() {
                                    assert(self.buf.text() + lazily_padded(next@, pad, true)
                                        =~= written + lazily_padded(rest@, pad, flag));
                                }
                            }
                            rest = next;
                        },
                    }
                },
            }
        }
    }
}

/// Writes a piece of one line through the adapter: text that is not empty and
/// holds no line feed.
pub(crate) fn write_word<W: TextSink>(out: &mut PadAdapter<'_, W>, s: &str) -> (r: fmt::Result)
    requires
        s@.len() > 0,
        !s@.contains('\n'),
    ensures
        *final(final(out).buf) == *final(old(out).buf),
        passed(*old(out), *final(out), r, s@, false),
{
    proof {
        lemma_lazily_padded(s@, out.padding@, out.on_newline);
        lemma_padded_plain(s@, out.padding@);
        assert(s@.contains(s@.last()));
    }
    let ghost before = out.buf.text();
    let ghost held = held_back(out.on_newline, out.padding@);
    out.write_str(s)?;
    proof {
        if old(out).buf.keeps_text() {
            assert(out.buf.text() =~= before + held + s@);
        }
    }
    Ok(())
}

/// Writes a line feed through the adapter.
pub(crate) fn write_line_feed<W: TextSink>(out: &mut PadAdapter<'_, W>) -> (r: fmt::Result)
    ensures
        *final(final(out).buf) == *final(old(out).buf),
        passed(*old(out), *final(out), r, seq!['\n'], true),
{
    proof {
        reveal_strlit("\n");
        assert("\n"@ =~= seq!['\n']);
        assert(lazily_padded("\n"@.skip(1), out.padding@, true) =~= Seq::empty());
    }
    let ghost before = out.buf.text();
    let ghost held = held_back(out.on_newline, out.padding@);
    out.write_str("\n")?;
    proof {
        if old(out).buf.keeps_text() {
            assert(out.buf.text() =~= before + held + seq!['\n']);
        }
    }
    Ok(())
}

/// Writes `s` and a line feed through the adapter.
pub(crate) fn write_line<W: TextSink>(out: &mut PadAdapter<'_, W>, s: &str) -> (r:
    fmt::Result)
    ensures
        *final(final(out).buf) == *final(old(out).buf),
        passed(*old(out), *final(out), r, padded(s@, old(out).padding@) + seq!['\n'], true),
{
    proof {
        lemma_lazily_padded(s@, out.padding@, out.on_newline);
    }
    let ghost before = out.buf.text();
    let ghost held = held_back(out.on_newline, out.padding@);
    out.write_str(s)?;
    let ghost written = out.buf.text();
    let ghost pending = held_back(out.on_newline, out.padding@);
    write_line_feed(out)?;
    proof {
        if old(out).buf.keeps_text() {
            let lazily = lazily_padded(s@, out.padding@, old(out).on_newline);
            assert(written + pending =~= before + (lazily + pending));
            assert(before + (held + padded(s@, out.padding@)) =~= before + held + padded(
                s@,
                out.padding@,
            ));
            assert(written + pending =~= before + held + padded(s@, out.padding@));
            assert(out.buf.text() =~= (written + pending) + seq!['\n']);
            assert(out.buf.text() =~= before + held + (padded(s@, out.padding@) + seq!['\n']));
        }
    }
    Ok(())
}

/// The padded text of a property is its quotes around its padded key and value.
pub proof fn lemma_property_text_padded(p: PropertyView, padding: Seq<char>)
    ensures
        padded(property_text(p), padding) == seq!['"'] + padded(p.key, padding) + seq![
            '"',
            ' ',
            '"',
        ] + padded(p.value, padding) + seq!['"'],
{
    let open = seq!['"'];
    let mid = seq!['"', ' ', '"'];
    lemma_padded_concat(open + p.key + mid + p.value, open, padding);
    lemma_padded_concat(open + p.key + mid, p.value, padding);
    lemma_padded_concat(open + p.key, mid, padding);
    lemma_padded_concat(open, p.key, padding);
    assert(!open.contains('\n'));
    assert(!mid.contains('\n'));
    lemma_padded_plain(open, padding);
    lemma_padded_plain(mid, padding);
}

/// Writes the head of a block through the adapter: the line of its name and the
/// line of its opening brace.
pub(crate) fn write_head<W: TextSink>(out: &mut PadAdapter<'_, W>, name: &str) -> (r:
    fmt::Result)
    ensures
        *final(final(out).buf) == *final(old(out).buf),
        passed(
            *old(out),
            *final(out),
            r,
            padded(name@, old(out).padding@) + seq!['\n'] + old(out).padding@ + seq!['{', '\n'],
            true,
        ),
{
    let ghost pad = out.padding@;
    let ghost before = out.buf.text();
    let ghost held = held_back(out.on_newline, pad);
    proof {
        reveal_strlit("{");
        assert("{"@ =~= seq!['{']);
        assert(!"{"@.contains('\n'));
        lemma_padded_plain("{"@, pad);
    }
    write_line(out, name)?;
    let ghost named = out.buf.text();
    write_line(out, "{")?;
    proof {
        if old(out).buf.keeps_text() {
            assert(named =~= before + held + (padded(name@, pad) + seq!['\n']));
            assert(out.buf.text() =~= named + pad + (seq!['{'] + seq!['\n']));
            assert(out.buf.text() =~= before + held + (padded(name@, pad) + seq!['\n'] + pad
                + seq!['{', '\n']));
        }
    }
    Ok(())
}

/// Writes the closing brace of a block through the adapter.
pub(crate) fn write_foot<W: TextSink>(out: &mut PadAdapter<'_, W>) -> (r: fmt::Result)
    ensures
        *final(final(out).buf) == *final(old(out).buf),
        passed(*old(out), *final(out), r, seq!['}'], false),
{
    proof {
        reveal_strlit("}");
        assert("}"@ =~= seq!['}']);
        assert(!"}"@.contains('\n'));
    }
    write_word(out, "}")
}

/// Writes `text` through the adapter, and after it `word`: a piece of one line, which
/// is not empty and holds no line feed.
fn write_before_word<W: TextSink>(out: &mut PadAdapter<'_, W>, text: &str, word: &str) -> (r:
    fmt::Result)
    requires
        word@.len() > 0,
        !word@.contains('\n'),
    ensures
        *final(final(out).buf) == *final(old(out).buf),
        passed(*old(out), *final(out), r, padded(text@, old(out).padding@) + word@, false),
{
    let ghost pad = out.padding@;
    let ghost before = out.buf.text();
    let ghost held = held_back(out.on_newline, pad);
    proof {
        lemma_lazily_padded(text@, pad, out.on_newline);
    }
    out.write_str(text)?;
    let ghost written = out.buf.text();
    let ghost pending = held_back(out.on_newline, pad);
    write_word(out, word)?;
    proof {
        if old(out).buf.keeps_text() {
            let lazily = lazily_padded(text@, pad, old(out).on_newline);
            assert(written + pending =~= before + (lazily + pending));
            assert(before + (held + padded(text@, pad)) =~= before + held + padded(text@, pad));
            assert(out.buf.text() =~= (written + pending) + word@);
            assert(out.buf.text() =~= before + held + (padded(text@, pad) + word@));
        }
    }
    Ok(())
}

/// Writes a property through the adapter: `"key" "value"`.
pub(crate) fn write_property<'a, K: Text<'a>, V: Text<'a>, W: TextSink>(
    out: &mut PadAdapter<'_, W>,
    prop: &Property<K, V>,
) -> (r: fmt::Result)
    ensures
        *final(final(out).buf) == *final(old(out).buf),
        passed(*old(out), *final(out), r, padded(property_text(prop@), old(out).padding@), false),
{
    let ghost p = out.padding@;
    let ghost before = out.buf.text();
    let ghost held = held_back(out.on_newline, p);
    let ghost open = seq!['"'];
    let ghost mid = seq!['"', ' ', '"'];
    proof {
        reveal_strlit("\"");
        reveal_strlit("\" \"");
        assert("\""@ =~= open);
        assert("\" \""@ =~= mid);
        assert(!open.contains('\n'));
        assert(!mid.contains('\n'));
        lemma_property_text_padded(prop@, p);
    }
    write_word(out, "\"")?;
    let ghost opened = out.buf.text();
    write_before_word(out, prop.key.as_str(), "\" \"")?;
    let ghost keyed = out.buf.text();
    write_before_word(out, prop.value.as_str(), "\"")?;
    proof {
        if old(out).buf.keeps_text() {
            assert(opened =~= before + held + open);
            assert(keyed =~= opened + (padded(prop.key@, p) + mid));
            assert(out.buf.text() =~= keyed + (padded(prop.value@, p) + open));
            assert(out.buf.text() =~= before + held + padded(property_text(prop@), p));
        }
    }
    Ok(())
}

impl<'a, K: Text<'a>, V: Text<'a>> Property<K, V> {
    /// Writes the property to `f`: `"key" "value"`.
    pub fn fmt<W: TextSink>(&self, f: &mut W) -> (r: fmt::Result)
        ensures
            wrote(*old(f), *final(f), r, property_text(self@)),
    {
        proof {
            reveal_strlit("");
            assert(""@ =~= Seq::<char>::empty());
            lemma_padded_empty(property_text(self@));
        }
        let ghost before = f.text();
        let mut out = PadAdapter::new(f, "");
        let r = write_property(&mut out, self);
        proof {
            if old(f).keeps_text() && r is Ok {
                assert(out.buf.text() =~= before + property_text(self@));
            }
        }
        r
    }

    /// The property as text: `"key" "value"`.
    pub fn to_string(&self) -> (s: String)
        ensures
            s@ == property_text(self@),
    {
        let mut s = String::new();
        let _ = self.fmt(&mut s);
        s
    }
}

/// The padding inside a block whose own lines are padded with `padding`.
pub(crate) fn deeper_padding(padding: &str) -> (inner: String)
    ensures
        inner@ == deeper(padding@),
{
    proof {
        reveal_strlit("\t");
        assert("\t"@ =~= seq!['\t']);
    }
    let mut inner = padding.to_owned();
    inner.append("\t");
    inner
}

/// Writes a property as one line through the adapter, which stands at the start of
/// a line.
pub(crate) fn write_property_line<'a, K: Text<'a>, V: Text<'a>, W: TextSink>(
    out: &mut PadAdapter<'_, W>,
    prop: &Property<K, V>,
) -> (r: fmt::Result)
    requires
        old(out).on_newline,
    ensures
        *final(final(out).buf) == *final(old(out).buf),
        passed_lines(*old(out), *final(out), r, property_line(prop@, old(out).padding@)),
{
    let ghost before = out.buf.text();
    write_property(out, prop)?;
    write_line_feed(out)?;
    proof {
        if old(out).buf.keeps_text() {
            assert(out.buf.text() =~= before + property_line(prop@, out.padding@));
        }
    }
    Ok(())
}

/// Writes properties as lines through the adapter, which stands at the start of a
/// line.
pub(crate) fn write_props<'a, S: Text<'a>, W: TextSink>(
    out: &mut PadAdapter<'_, W>,
    props: &Vec<Property<S, S>>,
) -> (r: fmt::Result)
    requires
        old(out).on_newline,
    ensures
        *final(final(out).buf) == *final(old(out).buf),
        passed_lines(
            *old(out),
            *final(out),
            r,
            props_text(props_view(props@), old(out).padding@),
        ),
{
    let ghost before = out.buf.text();
    let ghost all = props_view(props@);
    let mut i: usize = 0;
    proof {
        assert(all.take(0) =~= Seq::empty());
        assert(before + props_text(all.take(0), out.padding@) =~= before);
    }
    while i < props.len()
        invariant
            i <= props.len(),
            before == old(out).buf.text(),
            out.on_newline,
            out.padding@ == old(out).padding@,
            *final(out.buf) == *final(old(out).buf),
            old(out).buf.reliable() ==> out.buf.reliable(),
            old(out).buf.keeps_text() ==> out.buf.keeps_text() && out.buf.text() == before
                + props_text(all.take(i as int), out.padding@),
            all == props_view(props@),
        decreases props.len() - i,
    {
        write_property_line(out, &props[i])?;
        proof {
            let next = all.take(i + 1);
            assert(next.drop_last() =~= all.take(i as int));
            assert(next.last() == props[i as int]@);
            if old(out).buf.keeps_text() {
                assert(out.buf.text() =~= before + props_text(next, out.padding@));
            }
        }
        i = i + 1;
    }
    proof {
        assert(all.take(i as int) =~= all);
    }
    Ok(())
}

impl<'a, S: Text<'a>> Block<S> {
    /// Writes what stands inside the block, its properties and its child blocks,
    /// through the adapter of the block's inside, which stands at the start of a
    /// line.
    fn write_items<W: TextSink>(&self, inner: &mut PadAdapter<'_, W>) -> (r: fmt::Result)
        requires
            old(inner).on_newline,
        ensures
            *final(final(inner).buf) == *final(old(inner).buf),
            passed_lines(
                *old(inner),
                *final(inner),
                r,
                props_text(self@.props, old(inner).padding@) + blocks_text(
                    self@.blocks,
                    old(inner).padding@,
                ),
            ),
        decreases self, 0nat,
    {
        let ghost view = self@;
        let ghost before = inner.buf.text();
        let ghost pad = inner.padding@;
        proof {
            lemma_block_view(*self);
        }
        write_props(inner, &self.props)?;
        let ghost head = inner.buf.text();
        let mut i: usize = 0;
        proof {
            assert(view.blocks.take(0) =~= Seq::empty());
            assert(head + blocks_text(view.blocks.take(0), pad) =~= head);
        }
        while i < self.blocks.len()
            invariant
                i <= self.blocks.len(),
                view == self@,
                pad == old(inner).padding@,
                inner.padding@ == pad,
                inner.on_newline,
                *final(inner.buf) == *final(old(inner).buf),
                old(inner).buf.reliable() ==> inner.buf.reliable(),
                old(inner).buf.keeps_text() ==> inner.buf.keeps_text() && inner.buf.text() == head
                    + blocks_text(view.blocks.take(i as int), pad),
                view.blocks.len() == self.blocks.len(),
                forall|j: int| 0 <= j < self.blocks.len() ==> view.blocks[j] == self.blocks[j]@,
            decreases self.blocks.len() - i,
        {
            let ghost written = inner.buf.text();
            self.blocks[i].write_through(inner)?;
            write_line_feed(inner)?;
            proof {
                let next = view.blocks.take(i + 1);
                assert(next.drop_last() =~= view.blocks.take(i as int));
                assert(next.last() == self.blocks[i as int]@);
                if old(inner).buf.keeps_text() {
                    assert(inner.buf.text() =~= written + pad + block_text_in(
                        self.blocks[i as int]@,
                        pad,
                    ) + seq!['\n']);
                    assert(inner.buf.text() =~= head + blocks_text(next, pad));
                }
            }
            i = i + 1;
        }
        proof {
            assert(view.blocks.take(i as int) =~= view.blocks);
            if old(inner).buf.keeps_text() {
                assert(inner.buf.text() =~= before + (props_text(view.props, pad) + blocks_text(
                    view.blocks,
                    pad,
                )));
            }
        }
        Ok(())
    }

    /// Writes the block through the adapter of the lines among which it stands: its
    /// name and its braces through this adapter, what stands inside it through an
    /// adapter for its inside.
    pub(crate) fn write_through<W: TextSink>(&self, out: &mut PadAdapter<'_, W>) -> (r:
        fmt::Result)
        ensures
            *final(final(out).buf) == *final(old(out).buf),
            passed(*old(out), *final(out), r, block_text_in(self@, old(out).padding@), false),
        decreases self, 1nat,
    {
        let ghost view = self@;
        let ghost pad = out.padding@;
        let ghost before = out.buf.text();
        let ghost held = held_back(out.on_newline, pad);
        proof {
            lemma_block_view(*self);
        }
        write_head(out, self.name.as_str())?;
        let ghost head = out.buf.text();
        let padding = deeper_padding(out.padding);
        let mut inner = out.inside(padding.as_str());
        let r = self.write_items(&mut inner);
        let at_line_start = inner.on_newline;
        out.on_newline = at_line_start;
        r?;
        let ghost items = out.buf.text();
        write_foot(out)?;
        proof {
            if old(out).buf.keeps_text() {
                assert(out.buf.text() =~= items + pad + seq!['}']);
                assert(out.buf.text() =~= before + held + block_text_in(view, pad));
            }
        }
        Ok(())
    }

    /// Writes the block to `f` in canonical form.
    pub fn fmt<W: TextSink>(&self, f: &mut W) -> (r: fmt::Result)
        ensures
            wrote(*old(f), *final(f), r, block_text(self@)),
    {
        proof {
            reveal_strlit("");
            assert(""@ =~= Seq::<char>::empty());
        }
        let ghost before = f.text();
        let mut out = PadAdapter::new(f, "");
        let r = self.write_through(&mut out);
        proof {
            if old(f).keeps_text() && r is Ok {
                assert(out.buf.text() =~= before + block_text(self@));
            }
        }
        r
    }

    /// The block in canonical form.
    pub fn to_string(&self) -> (s: String)
        ensures
            s@ == block_text(self@),
    {
        let mut s = String::new();
        let _ = self.fmt(&mut s);
        s
    }
}

/// Lines of properties one after the other are the lines of them all.
pub proof fn lemma_props_text_concat(
    first: Seq<PropertyView>,
    second: Seq<PropertyView>,
    padding: Seq<char>,
)
    ensures
        props_text(first + second, padding) == props_text(first, padding) + props_text(
            second,
            padding,
        ),
    decreases second.len(),
{
    if second.len() == 0 {
        assert(first + second =~= first);
        assert(props_text(first, padding) + props_text(second, padding) =~= props_text(
            first,
            padding,
        ));
    } else {
        assert((first + second).drop_last() =~= first + second.drop_last());
        assert((first + second).last() == second.last());
        lemma_props_text_concat(first, second.drop_last(), padding);
        assert(props_text(first + second, padding) =~= props_text(first, padding) + props_text(
            second,
            padding,
        ));
    }
}

} // verus!

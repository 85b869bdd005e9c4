//! The markdown preview: which block each source line becomes. Fences open
//! and close code blocks; outside them a line is blank, display math, a
//! heading, a quote, a task, a list item, a table row, a rule, a line of
//! HTML (shown with its tags removed) or a paragraph.

use vstd::prelude::*;
use vstd::string::*;

use crate::diff::{lines_of, text_lines};
use crate::markdown::{
    edit_parts_spec, heading_spec, list_item_spec, markdown_edit_parts, markdown_heading,
    markdown_list_item, markdown_table_row, markdown_task_item, table_row_spec, task_item_spec,
};
use crate::text::{
    chars_of, concat, drop_trailing, ends_with, ends_with_chars, skip_leading, slice_vec,
    starts_with, starts_with_chars, string_of, strip_end, strip_start, trim, trim_chars, CharSet,
};

verus! {

/// A fence line (```` ``` ```` or `~~~`) opens or closes a code block.
pub open spec fn is_fence(line: Seq<char>) -> bool {
    starts_with(trim(line), "```"@) || starts_with(trim(line), "~~~"@)
}

/// Whether a code block is open after the first `k` lines.
pub open spec fn code_state(lines: Seq<Seq<char>>, k: int) -> bool
    decreases k,
{
    if k <= 0 {
        false
    } else if is_fence(lines[k - 1]) {
        !code_state(lines, k - 1)
    } else {
        code_state(lines, k - 1)
    }
}

/// `s` with every `pat` replaced by `rep`, left to right (`str::replace`).
pub open spec fn replace_seq(s: Seq<char>, pat: Seq<char>, rep: Seq<char>) -> Seq<char>
    decreases s.len(),
{
    if s.len() == 0 {
        Seq::empty()
    } else if pat.len() > 0 && starts_with(s, pat) {
        rep + replace_seq(s.skip(pat.len() as int), pat, rep)
    } else {
        seq![s[0]] + replace_seq(s.drop_first(), pat, rep)
    }
}

/// `s` with everything from a `<` to the next `>` left out.
pub open spec fn strip_tags(s: Seq<char>, in_tag: bool) -> Seq<char>
    decreases s.len(),
{
    if s.len() == 0 {
        Seq::empty()
    } else if s[0] == '<' {
        strip_tags(s.drop_first(), true)
    } else if s[0] == '>' {
        strip_tags(s.drop_first(), false)
    } else if !in_tag {
        seq![s[0]] + strip_tags(s.drop_first(), in_tag)
    } else {
        strip_tags(s.drop_first(), in_tag)
    }
}

/// The text of an HTML line: `<br>` forms become line breaks, other tags go.
pub open spec fn html_text(t: Seq<char>) -> Seq<char> {
    let a = replace_seq(t, "<br>"@, seq!['\n']);
    let b = replace_seq(a, "<br/>"@, seq!['\n']);
    let c = replace_seq(b, "<br />"@, seq!['\n']);
    trim(strip_tags(c, false))
}

/// What a preview line shows.
#[derive(Debug, PartialEq, Eq)]
pub enum PreviewBlock {
    /// A line inside a code block, as written.
    Code(String),
    Blank,
    /// `$$ ... $$` display math: the formula.
    Math(String),
    /// A heading: its level and text.
    Heading(usize, String),
    Quote(String),
    /// A task: done or not, and its text.
    Task(bool, String),
    ListItem(String),
    /// A table row's cells; none for a separator row.
    TableRow(Vec<String>),
    Rule,
    /// An HTML line with its tags removed.
    Html(String),
    Paragraph(String),
}

pub enum BlockView {
    Code(Seq<char>),
    Blank,
    Math(Seq<char>),
    Heading(nat, Seq<char>),
    Quote(Seq<char>),
    Task(bool, Seq<char>),
    ListItem(Seq<char>),
    TableRow(Seq<Seq<char>>),
    Rule,
    Html(Seq<char>),
    Paragraph(Seq<char>),
}

pub open spec fn block_view(b: PreviewBlock) -> BlockView {
    match b {
        PreviewBlock::Code(t) => BlockView::Code(t@),
        PreviewBlock::Blank => BlockView::Blank,
        PreviewBlock::Math(t) => BlockView::Math(t@),
        PreviewBlock::Heading(l, t) => BlockView::Heading(l as nat, t@),
        PreviewBlock::Quote(t) => BlockView::Quote(t@),
        PreviewBlock::Task(d, t) => BlockView::Task(d, t@),
        PreviewBlock::ListItem(t) => BlockView::ListItem(t@),
        PreviewBlock::TableRow(c) => BlockView::TableRow(c.deep_view()),
        PreviewBlock::Rule => BlockView::Rule,
        PreviewBlock::Html(t) => BlockView::Html(t@),
        PreviewBlock::Paragraph(t) => BlockView::Paragraph(t@),
    }
}

/// The block a source line becomes; `in_code` when a code block is open.
pub open spec fn classify_spec(line: Seq<char>, in_code: bool) -> BlockView {
    let t = trim(line);
    if in_code {
        BlockView::Code(edit_parts_spec(line, true).1)
    } else if t.len() == 0 {
        BlockView::Blank
    } else if starts_with(t, "$$"@) && ends_with(t, "$$"@) && t.len() > 4 {
        BlockView::Math(trim(strip_end(strip_start(t, CharSet::Dollar), CharSet::Dollar)))
    } else if heading_spec(t) is Some {
        {
            let h = heading_spec(t)->0;
            BlockView::Heading(h.0, h.1)
        }
    } else if starts_with(t, "> "@) {
        BlockView::Quote(t.skip(2))
    } else if task_item_spec(line) is Some {
        {
            let task = task_item_spec(line)->0;
            BlockView::Task(task.0, task.1)
        }
    } else if list_item_spec(t) is Some {
        BlockView::ListItem(list_item_spec(t)->0)
    } else if table_row_spec(t) is Some {
        BlockView::TableRow(table_row_spec(t)->0)
    } else if starts_with(t, "---"@) || starts_with(t, "***"@) {
        BlockView::Rule
    } else if starts_with(t, "<"@) && ends_with(t, ">"@) {
        BlockView::Html(html_text(t))
    } else {
        BlockView::Paragraph(t)
    }
}

/// One shown line: its index in the source, its editable parts (prefix,
/// text, suffix) and its block.
#[derive(Debug, PartialEq, Eq)]
pub struct PreviewLine {
    pub index: usize,
    pub prefix: String,
    pub text: String,
    pub suffix: String,
    pub block: PreviewBlock,
}

pub struct LineView {
    pub index: int,
    pub edit: (Seq<char>, Seq<char>, Seq<char>),
    pub block: BlockView,
}

pub open spec fn line_view(l: PreviewLine) -> LineView {
    LineView { index: l.index as int, edit: (l.prefix@, l.text@, l.suffix@), block: block_view(l.block) }
}

pub open spec fn lines_view(v: Seq<PreviewLine>) -> Seq<LineView> {
    v.map_values(|l: PreviewLine| line_view(l))
}

/// The shown lines for the first `k` source lines (fences are not shown).
pub open spec fn preview_upto(lines: Seq<Seq<char>>, k: int) -> Seq<LineView>
    decreases k,
{
    if k <= 0 {
        Seq::empty()
    } else if is_fence(lines[k - 1]) {
        preview_upto(lines, k - 1)
    } else {
        let code = code_state(lines, k - 1);
        preview_upto(lines, k - 1).push(
            LineView {
                index: k - 1,
                edit: edit_parts_spec(lines[k - 1], code),
                block: classify_spec(lines[k - 1], code),
            },
        )
    }
}

pub open spec fn preview_spec(source: Seq<char>) -> Seq<LineView> {
    preview_upto(lines_of(source), lines_of(source).len() as int)
}

fn copy_str(s: &str) -> (r: String)
    ensures
        r@ == s@,
{
    string_of(&chars_of(s))
}

fn replace_all(v: &[char], pat: &[char], rep: &[char]) -> (r: Vec<char>)
    ensures
        r@ == replace_seq(v@, pat@, rep@),
{
    let mut out: Vec<char> = Vec::new();
    let mut i: usize = 0;
    proof {
        assert(v@.skip(0) =~= v@);
    }
    while i < v.len()
        invariant
            i <= v@.len(),
            out@ + replace_seq(v@.skip(i as int), pat@, rep@) == replace_seq(v@, pat@, rep@),
        decreases v.len() - i,
    {
        let rest = slice_vec(v, i, v.len());
        proof {
            assert(rest@ =~= v@.skip(i as int));
        }
        if pat.len() > 0 && starts_with_chars(&rest, pat) {
            proof {
                assert(v@.skip(i as int).skip(pat@.len() as int) =~= v@.skip(i + pat@.len()));
                assert(out@ + rep@ + replace_seq(v@.skip(i + pat@.len()), pat@, rep@) =~= out@ + (rep@
                    + replace_seq(v@.skip(i as int).skip(pat@.len() as int), pat@, rep@)));
            }
            out = concat(&out, rep);
            i = i + pat.len();
        } else {
            proof {
                assert(v@.skip(i as int).drop_first() =~= v@.skip(i + 1));
                assert(out@.push(v@[i as int]) + replace_seq(v@.skip(i + 1), pat@, rep@) =~= out@ + (seq![
                    v@.skip(i as int)[0],
                ] + replace_seq(v@.skip(i as int).drop_first(), pat@, rep@)));
            }
            out.push(v[i]);
            i += 1;
        }
    }
    proof {
        assert(v@.skip(i as int) =~= Seq::<char>::empty());
        assert(out@ + Seq::<char>::empty() =~= out@);
    }
    out
}

fn remove_tags(v: &[char]) -> (r: Vec<char>)
    ensures
        r@ == strip_tags(v@, false),
{
    let mut out: Vec<char> = Vec::new();
    let mut in_tag = false;
    let mut i: usize = 0;
    proof {
        assert(v@.skip(0) =~= v@);
    }
    while i < v.len()
        invariant
            i <= v@.len(),
            out@ + strip_tags(v@.skip(i as int), in_tag) == strip_tags(v@, false),
        decreases v.len() - i,
    {
        let ghost rest = v@.skip(i as int);
        proof {
            assert(rest.drop_first() =~= v@.skip(i + 1));
            assert(rest[0] == v@[i as int]);
        }
        let c = v[i];
        if c == '<' {
            in_tag = true;
        } else if c == '>' {
            in_tag = false;
        } else if !in_tag {
            proof {
                assert(out@.push(c) + strip_tags(v@.skip(i + 1), in_tag) =~= out@ + (seq![c] + strip_tags(
                    rest.drop_first(),
                    in_tag,
                )));
            }
            out.push(c);
        }
        i += 1;
    }
    proof {
        assert(v@.skip(i as int) =~= Seq::<char>::empty());
        assert(out@ + Seq::<char>::empty() =~= out@);
    }
    out
}

fn html_plain(t: &[char]) -> (r: Vec<char>)
    ensures
        r@ == html_text(t@),
{
    let nl = vec!['\n'];
    proof {
        reveal_strlit("<br>");
        reveal_strlit("<br/>");
        reveal_strlit("<br />");
    }
    let a = replace_all(t, &chars_of("<br>"), &nl);
    let b = replace_all(&a, &chars_of("<br/>"), &nl);
    let c = replace_all(&b, &chars_of("<br />"), &nl);
    proof {
        assert(nl@ =~= seq!['\n']);
    }
    trim_chars(&remove_tags(&c))
}

/// The block for one source line; see [`classify_spec`].
pub fn classify_line(line: &str, in_code: bool) -> (r: PreviewBlock)
    ensures
        block_view(r) == classify_spec(line@, in_code),
{
    let t = trim_chars(&chars_of(line));
    let ts = string_of(&t);
    proof {
        reveal_strlit("$$");
        reveal_strlit("> ");
        reveal_strlit("---");
        reveal_strlit("***");
        reveal_strlit("<");
        reveal_strlit(">");
    }
    if in_code {
        let parts = markdown_edit_parts(line, true);
        return match parts {
            Some((_, text, _)) => PreviewBlock::Code(text),
            None => PreviewBlock::Code(copy_str(line)),
        };
    }
    if t.len() == 0 {
        return PreviewBlock::Blank;
    }
    let dd = chars_of("$$");
    if starts_with_chars(&t, &dd) && ends_with_chars(&t, &dd) && t.len() > 4 {
        let lo = skip_leading(&t, 0, t.len(), CharSet::Dollar);
        let hi = drop_trailing(&t, lo, t.len(), CharSet::Dollar);
        let inner = slice_vec(&t, lo, hi);
        proof {
            assert(t@.subrange(0, t@.len() as int) =~= t@);
            assert(inner@ == strip_end(strip_start(t@, CharSet::Dollar), CharSet::Dollar));
        }
        return PreviewBlock::Math(string_of(&trim_chars(&inner)));
    }
    if let Some((level, text)) = markdown_heading(ts.as_str()) {
        return PreviewBlock::Heading(level, copy_str(text));
    }
    if starts_with_chars(&t, &chars_of("> ")) {
        let rest = slice_vec(&t, 2, t.len());
        proof {
            assert(rest@ =~= t@.skip(2));
        }
        return PreviewBlock::Quote(string_of(&rest));
    }
    if let Some((done, text)) = markdown_task_item(line) {
        return PreviewBlock::Task(done, copy_str(text));
    }
    if let Some(text) = markdown_list_item(ts.as_str()) {
        return PreviewBlock::ListItem(copy_str(text));
    }
    if let Some(cells) = markdown_table_row(ts.as_str()) {
        return PreviewBlock::TableRow(cells);
    }
    if starts_with_chars(&t, &chars_of("---")) || starts_with_chars(&t, &chars_of("***")) {
        return PreviewBlock::Rule;
    }
    if starts_with_chars(&t, &chars_of("<")) && ends_with_chars(&t, &chars_of(">")) {
        return PreviewBlock::Html(string_of(&html_plain(&t)));
    }
    PreviewBlock::Paragraph(ts)
}

fn is_fence_line(line: &str) -> (r: bool)
    ensures
        r == is_fence(line@),
{
    let t = trim_chars(&chars_of(line));
    proof {
        reveal_strlit("```");
        reveal_strlit("~~~");
    }
    starts_with_chars(&t, &chars_of("```")) || starts_with_chars(&t, &chars_of("~~~"))
}

/// The preview of a markdown source: one entry per line that is not a code
/// fence, in order, with its index, its editable parts and its block.
pub fn preview_blocks(source: &str) -> (r: Vec<PreviewLine>)
    ensures
        lines_view(r@) == preview_spec(source@),
{
    let lines = text_lines(source);
    let ghost ls = lines_of(source@);
    let mut out: Vec<PreviewLine> = Vec::new();
    let mut in_code = false;
    let mut k: usize = 0;
    proof {
        assert(lines_view(out@) =~= Seq::<LineView>::empty());
    }
    while k < lines.len()
        invariant
            lines.deep_view() == ls,
            k <= ls.len(),
            in_code == code_state(ls, k as int),
            lines_view(out@) == preview_upto(ls, k as int),
        decreases lines.len() - k,
    {
        let line = lines[k].as_str();
        proof {
            assert(ls[k as int] == lines@[k as int]@);
        }
        if is_fence_line(line) {
            in_code = !in_code;
        } else {
            let block = classify_line(line, in_code);
            let entry = match markdown_edit_parts(line, in_code) {
                Some((prefix, text, suffix)) => PreviewLine { index: k, prefix, text, suffix, block },
                None => PreviewLine { index: k, prefix: String::new(), text: copy_str(line), suffix: String::new(), block },
            };
            let ghost before = out@;
            out.push(entry);
            proof {
                assert(lines_view(out@) =~= lines_view(before).push(line_view(entry)));
            }
        }
        k += 1;
    }
    out
}

} // verus!

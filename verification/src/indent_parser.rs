//! Programs as text: lines are grouped by indentation into blocks, and
//! the lines of a block into items.

use crate::ast;
use crate::context::texts;
use crate::lexer::{room, LineError};
use crate::line_parser::{parse_line, parse_line_spec};
use crate::text::{chars_of, slice_text};
use vstd::prelude::*;
use vstd::string::StringExecFns;

verus! {

broadcast use crate::ast::lemma_item_view;

/// A logical line and the block indented under it.
pub struct IndentedCode {
    pub line: String,
    pub sublines: Vec<IndentedCode>,
}

/// The mathematical value of [`IndentedCode`].
pub struct BlockView {
    pub line: Seq<char>,
    pub sublines: Seq<BlockView>,
}

impl View for IndentedCode {
    type V = BlockView;

    open spec fn view(&self) -> BlockView
        decreases self,
    {
        BlockView {
            line: self.line@,
            sublines: Seq::new(
                self.sublines@.len(),
                |i: int|
                    if 0 <= i < self.sublines@.len() {
                        self.sublines@[i].view()
                    } else {
                        BlockView { line: Seq::empty(), sublines: Seq::empty() }
                    },
            ),
        }
    }
}

/// The values of a sequence of blocks, element by element.
pub open spec fn block_views(s: Seq<IndentedCode>) -> Seq<BlockView> {
    Seq::new(s.len(), |i: int| s[i]@)
}

/// The value of a block, one level unfolded.
pub broadcast proof fn lemma_block_view(b: IndentedCode)
    ensures
        #[trigger] b@ == (BlockView { line: b.line@, sublines: block_views(b.sublines@) }),
{
    reveal_with_fuel(<IndentedCode as View>::view, 2);
    assert(b@.sublines =~= block_views(b.sublines@));
}

/// A line that is no line of the grammar, and why.
#[derive(Debug)]
pub struct ParseError {
    pub line: String,
    pub error: LineError,
}

/// The mathematical value of a [`ParseError`].
pub struct ParseErrorView {
    pub line: Seq<char>,
    pub error: LineError,
}

impl View for ParseError {
    type V = ParseErrorView;

    open spec fn view(&self) -> ParseErrorView {
        ParseErrorView { line: self.line@, error: self.error }
    }
}

/// The number of characters of `s` from `from` up to the end of the line.
pub open spec fn line_len(s: Seq<char>, from: nat) -> nat
    decreases room(s.len(), from),
{
    if from < s.len() && s[from as int] != '\n' {
        1 + line_len(s, from + 1)
    } else {
        0
    }
}

/// The number of characters of `line` from `from` up to the comment,
/// which begins at the first `--`.
pub open spec fn code_len(line: Seq<char>, from: nat) -> nat
    decreases room(line.len(), from),
{
    if from >= line.len() {
        0
    } else if line[from as int] == '-' && from + 1 < line.len() && line[from as int + 1] == '-' {
        0
    } else {
        1 + code_len(line, from + 1)
    }
}

/// `line` without its comment.
pub open spec fn strip(line: Seq<char>) -> Seq<char> {
    line.subrange(0, code_len(line, 0) as int)
}

/// The lines of `s` from `from` on, each without its comment. A newline
/// ends a line; what follows the last newline is a line too.
pub open spec fn code_lines(s: Seq<char>, from: nat) -> Seq<Seq<char>>
    decreases room(s.len(), from),
{
    let end = from + line_len(s, from);
    let line = strip(s.subrange(from as int, end as int));
    if end < s.len() {
        seq![line] + code_lines(s, end + 1)
    } else {
        seq![line]
    }
}

/// The number of spaces of `line` from `from` up to the first character
/// that is none.
pub open spec fn space_run(line: Seq<char>, from: nat) -> nat
    decreases room(line.len(), from),
{
    if from < line.len() && line[from as int] == ' ' {
        1 + space_run(line, from + 1)
    } else {
        0
    }
}

/// The indentation of `line`: the number of spaces it begins with.
pub open spec fn indent_of(line: Seq<char>) -> nat {
    space_run(line, 0)
}

/// Whether `line` holds spaces only.
pub open spec fn is_blank(line: Seq<char>) -> bool {
    indent_of(line) == line.len()
}

/// The number of blank lines in a row from `pos` on.
pub open spec fn blank_run(lines: Seq<Seq<char>>, pos: nat) -> nat
    decreases room(lines.len(), pos),
{
    if pos < lines.len() && is_blank(lines[pos as int]) {
        1 + blank_run(lines, pos + 1)
    } else {
        0
    }
}

/// The indentation of the first line at or after `pos` that is not
/// blank, if there is one.
pub open spec fn find_line_spec(lines: Seq<Seq<char>>, pos: nat) -> Option<nat> {
    let p = pos + blank_run(lines, pos);
    if p < lines.len() {
        Some(indent_of(lines[p as int]))
    } else {
        None
    }
}

/// Whether `line` ends in a backslash, and so goes on in the next line.
pub open spec fn continues(line: Seq<char>) -> bool {
    line.len() > 0 && line.last() == '\\'
}

/// The logical line that begins at the first line at or after `pos` that
/// is not blank, and the number of lines it takes, the blank ones before
/// it included. A line that ends in a backslash goes on, without the
/// backslash, in the next line that is not blank.
pub open spec fn joined_spec(lines: Seq<Seq<char>>, pos: nat) -> (Seq<char>, nat)
    decreases room(lines.len(), pos), 1nat,
{
    let skipped = blank_run(lines, pos);
    let p = pos + skipped;
    if p >= lines.len() {
        (Seq::empty(), skipped)
    } else {
        let r = joined_at(lines, p);
        (r.0, skipped + 1 + r.1)
    }
}

/// The logical line that begins with the line at `p`, and the number of
/// lines it takes after that one.
pub open spec fn joined_at(lines: Seq<Seq<char>>, p: nat) -> (Seq<char>, nat)
    decreases room(lines.len(), p), 0nat,
{
    if p < lines.len() && continues(lines[p as int]) {
        let r = joined_spec(lines, p + 1);
        (lines[p as int].drop_last() + r.0, r.1)
    } else if p < lines.len() {
        (lines[p as int], 0)
    } else {
        (Seq::empty(), 0)
    }
}

/// The blocks at indentation `indent` from `pos` on, one after the other,
/// each with the block nested under it, and the number of lines they
/// take. They end before the first line of another indentation.
pub open spec fn level_spec(lines: Seq<Seq<char>>, pos: nat, indent: nat) -> (Seq<BlockView>, nat)
    decreases room(lines.len(), pos), 0nat,
{
    let skipped = blank_run(lines, pos);
    let p = pos + skipped;
    if p < lines.len() && indent_of(lines[p as int]) == indent {
        let j = joined_at(lines, p);
        let p1 = p + 1 + j.1;
        let subs = nested_spec(lines, p1, indent + 1);
        let p2 = p1 + subs.1;
        let more = level_spec(lines, p2, indent);
        (
            seq![BlockView { line: j.0, sublines: subs.0 }] + more.0,
            skipped + 1 + j.1 + subs.1 + more.1,
        )
    } else {
        (Seq::empty(), skipped)
    }
}

/// The blocks from `pos` on whose indentation is that of the first line
/// there, where that is `min_indent` or more; else none.
pub open spec fn nested_spec(lines: Seq<Seq<char>>, pos: nat, min_indent: nat) -> (
    Seq<BlockView>,
    nat,
)
    decreases room(lines.len(), pos), 1nat,
{
    let skipped = blank_run(lines, pos);
    let p = pos + skipped;
    if p < lines.len() && indent_of(lines[p as int]) >= min_indent {
        level_spec(lines, pos, indent_of(lines[p as int]))
    } else {
        (Seq::empty(), skipped)
    }
}

/// The item made of an annotation alone.
pub open spec fn lone(a: ast::AnnotationView) -> ast::ItemView {
    ast::ItemView { annotation: Some(a), definition: None, associated: Seq::empty() }
}

/// `item` in front of the items that follow it.
pub open spec fn with_item(
    item: ast::ItemView,
    rest: Result<Seq<ast::ItemView>, ParseErrorView>,
) -> Result<Seq<ast::ItemView>, ParseErrorView> {
    match rest {
        Ok(items) => Ok(seq![item] + items),
        Err(x) => Err(x),
    }
}

/// The items that the blocks from `k` on make up, where `pending` is an
/// annotation read before them that waits for its definition. A
/// definition takes the annotation that waits and the items of the block
/// nested under it. An annotation lets the one that waits go as an item
/// of its own and waits in turn; the block nested under it is not read.
/// At the end an annotation that still waits is an item of its own.
pub open spec fn group_spec(
    blocks: Seq<BlockView>,
    k: nat,
    pending: Option<ast::AnnotationView>,
) -> Result<Seq<ast::ItemView>, ParseErrorView>
    decreases blocks, blocks.len() - k,
{
    if k >= blocks.len() {
        match pending {
            Some(a) => Ok(seq![lone(a)]),
            None => Ok(Seq::empty()),
        }
    } else {
        match parse_line_spec(blocks[k as int].line) {
            Err(x) => Err(ParseErrorView { line: blocks[k as int].line, error: x }),
            Ok(ast::LineView::Function(d)) => match group_spec(blocks[k as int].sublines, 0, None) {
                Err(x) => Err(x),
                Ok(associated) => with_item(
                    ast::ItemView { annotation: pending, definition: Some(d), associated },
                    group_spec(blocks, k + 1, None),
                ),
            },
            Ok(ast::LineView::Annotation(a)) => match pending {
                Some(p) => with_item(lone(p), group_spec(blocks, k + 1, Some(a))),
                None => group_spec(blocks, k + 1, Some(a)),
            },
        }
    }
}

/// The items of the program text `s`.
pub open spec fn program_spec(s: Seq<char>) -> Result<Seq<ast::ItemView>, ParseErrorView> {
    group_spec(nested_spec(code_lines(s, 0), 0, 0).0, 0, None)
}

/// The value of a result that carries items.
pub open spec fn items_view(r: Result<Vec<ast::Item>, ParseError>) -> Result<
    Seq<ast::ItemView>,
    ParseErrorView,
> {
    match r {
        Ok(v) => Ok(ast::item_views(v@)),
        Err(x) => Err(x@),
    }
}

/// The number of spaces that `line` begins with.
pub fn count_indent(line: &str) -> (r: usize)
    ensures
        r == indent_of(line@),
{
    let cs = chars_of(line);
    let mut result: usize = 0;
    while result < cs.len() && cs[result] == ' '
        invariant
            result <= cs.len(),
            cs@ == line@,
            indent_of(line@) == result + space_run(line@, result as nat),
        decreases cs.len() - result,
    {
        result += 1;
    }
    result
}

/// The number of characters of `line`.
fn length(line: &str) -> (r: usize)
    ensures
        r == line@.len(),
{
    line.unicode_len()
}

/// Skips the blank lines from `pos` on. Gives the position of the first
/// line that is not blank, and its indentation if there is such a line.
pub fn find_line(lines: &Vec<String>, pos: usize) -> (r: (Option<usize>, usize))
    ensures
        r.1 == pos + blank_run(texts(lines@), pos as nat),
        pos <= lines.len() ==> r.1 <= lines.len(),
        match r.0 {
            Some(i) => find_line_spec(texts(lines@), pos as nat) == Some(i as nat),
            None => find_line_spec(texts(lines@), pos as nat) is None,
        },
        r.0 is Some <==> r.1 < lines.len(),
        r.0 is Some ==> !is_blank(texts(lines@)[r.1 as int]),
        blank_run(texts(lines@), r.1 as nat) == 0,
{
    let ghost ls = texts(lines@);
    if pos > lines.len() {
        return (None, pos);
    }
    let mut p: usize = pos;
    while p < lines.len()
        invariant
            pos <= p <= lines.len(),
            ls == texts(lines@),
            blank_run(ls, pos as nat) == (p - pos) + blank_run(ls, p as nat),
        decreases lines.len() - p,
    {
        let line = lines[p].as_str();
        let count = count_indent(line);
        if count != length(line) {
            assert(ls[p as int] == line@);
            return (Some(count), p);
        }
        assert(ls[p as int] == line@);
        p += 1;
    }
    (None, p)
}

/// Joins the logical line that begins at the first line at or after `pos`
/// that is not blank. Gives its text and the position after it.
pub fn concat_lines(lines: &Vec<String>, pos: usize) -> (r: (String, usize))
    ensures
        r.0@ == joined_spec(texts(lines@), pos as nat).0,
        r.1 == pos + joined_spec(texts(lines@), pos as nat).1,
        pos <= lines.len() ==> r.1 <= lines.len(),
{
    let ghost ls = texts(lines@);
    let ghost goal = joined_spec(ls, pos as nat);
    let mut result = String::new();
    if pos > lines.len() {
        return (result, pos);
    }
    let mut at: usize = pos;
    loop
        invariant
            pos <= at <= lines.len(),
            ls == texts(lines@),
            goal == joined_spec(ls, pos as nat),
            goal.0 == result@ + joined_spec(ls, at as nat).0,
            pos + goal.1 == at + joined_spec(ls, at as nat).1,
        decreases lines.len() - at,
    {
        let ghost sofar = result@;
        let ghost here = joined_spec(ls, at as nat);
        let found = find_line(lines, at);
        let p = found.1;
        if found.0.is_none() {
            proof {
                assert(sofar + Seq::<char>::empty() =~= sofar);
            }
            return (result, p);
        }
        let line = lines[p].as_str();
        assert(ls[p as int] == line@);
        let n = length(line);
        assert(n > 0) by {
            assert(!is_blank(line@));
        }
        let last = line.get_char(n - 1);
        if last == '\\' {
            let piece = line.substring_char(0, n - 1);
            result.append(piece);
            at = p + 1;
            proof {
                assert(piece@ =~= line@.drop_last());
                let r = joined_spec(ls, at as nat);
                assert(here.0 == line@.drop_last() + r.0);
                assert(sofar + (line@.drop_last() + r.0) =~= result@ + r.0);
            }
        } else {
            result.append(line);
            proof {
                assert(here.0 == line@);
            }
            return (result, p + 1);
        }
    }
}

/// The blocks at indentation `indent` from `pos` on.
fn split_level(lines: &Vec<String>, pos: usize, indent: usize) -> (r: (Vec<IndentedCode>, usize))
    requires
        pos <= lines.len(),
    ensures
        block_views(r.0@) == level_spec(texts(lines@), pos as nat, indent as nat).0,
        r.1 == pos + level_spec(texts(lines@), pos as nat, indent as nat).1,
        r.1 <= lines.len(),
    decreases lines.len() - pos, 0nat,
{
    let ghost ls = texts(lines@);
    let ghost goal = level_spec(ls, pos as nat, indent as nat);
    let mut result: Vec<IndentedCode> = Vec::new();
    let mut at: usize = pos;
    assert(block_views(result@) =~= Seq::<BlockView>::empty());
    assert(Seq::<BlockView>::empty() + goal.0 =~= goal.0);
    loop
        invariant
            pos <= at <= lines.len(),
            ls == texts(lines@),
            goal == level_spec(ls, pos as nat, indent as nat),
            goal.0 == block_views(result@) + level_spec(ls, at as nat, indent as nat).0,
            pos + goal.1 == at + level_spec(ls, at as nat, indent as nat).1,
        decreases lines.len() - at,
    {
        let ghost acc = block_views(result@);
        let ghost here = level_spec(ls, at as nat, indent as nat);
        let found = find_line(lines, at);
        let p = found.1;
        let same = match found.0 {
            Some(i) => i == indent,
            None => false,
        };
        if !same {
            proof {
                assert(acc + Seq::<BlockView>::empty() =~= acc);
            }
            return (result, p);
        }
        let (line, p1) = concat_lines(lines, p);
        proof {
            assert(blank_run(ls, p as nat) == 0) by {
                assert(!is_blank(ls[p as int]));
            }
            assert(joined_spec(ls, p as nat).0 == joined_at(ls, p as nat).0);
            assert(joined_spec(ls, p as nat).1 == 1 + joined_at(ls, p as nat).1);
        }
        let width = length(lines[p].as_str());
        proof {
            // A line that is not blank has more characters than spaces in front.
            lemma_indent_bound(ls[p as int]);
            assert(ls[p as int] == lines[p as int]@);
            assert(indent < width);
        }
        let (sublines, p2) = split_indenting_helper(lines, p1, indent + 1);
        let block = IndentedCode { line, sublines };
        let ghost bv = block@;
        proof {
            lemma_block_view(block);
        }
        result.push(block);
        at = p2;
        proof {
            let more = level_spec(ls, at as nat, indent as nat);
            let j = joined_at(ls, p as nat);
            let subs = nested_spec(ls, p1 as nat, (indent + 1) as nat);
            assert(bv == BlockView { line: j.0, sublines: subs.0 });
            assert(here.0 == seq![bv] + more.0);
            assert(block_views(result@) =~= acc.push(bv));
            assert(acc + (seq![bv] + more.0) =~= acc.push(bv) + more.0);
        }
    }
}

/// A line begins with no more spaces than it has characters.
pub proof fn lemma_indent_bound(line: Seq<char>)
    ensures
        indent_of(line) <= line.len(),
{
    lemma_space_run_bound(line, 0);
}

/// From `from` on there are no more spaces than characters.
pub proof fn lemma_space_run_bound(line: Seq<char>, from: nat)
    ensures
        space_run(line, from) <= room(line.len(), from),
    decreases room(line.len(), from),
{
    if from < line.len() && line[from as int] == ' ' {
        lemma_space_run_bound(line, from + 1);
    }
}

/// The blocks from `pos` on whose indentation is that of the first line
/// there, where that is `min_indent` or more.
pub fn split_indenting_helper(lines: &Vec<String>, pos: usize, min_indent: usize) -> (r: (
    Vec<IndentedCode>,
    usize,
))
    ensures
        block_views(r.0@) == nested_spec(texts(lines@), pos as nat, min_indent as nat).0,
        r.1 == pos + nested_spec(texts(lines@), pos as nat, min_indent as nat).1,
        pos <= lines.len() ==> r.1 <= lines.len(),
    decreases lines.len() - pos, 1nat,
{
    if pos > lines.len() {
        let none: Vec<IndentedCode> = Vec::new();
        assert(block_views(none@) =~= Seq::<BlockView>::empty());
        return (none, pos);
    }
    let found = find_line(lines, pos);
    let indent = match found.0 {
        None => {
            let none: Vec<IndentedCode> = Vec::new();
            assert(block_views(none@) =~= Seq::<BlockView>::empty());
            return (none, found.1);
        },
        Some(i) => i,
    };
    if indent < min_indent {
        let none: Vec<IndentedCode> = Vec::new();
        assert(block_views(none@) =~= Seq::<BlockView>::empty());
        return (none, found.1);
    }
    split_level(lines, pos, indent)
}

/// Groups the lines of a program into blocks by their indentation.
pub fn split_indenting(lines: &Vec<String>) -> (r: Vec<IndentedCode>)
    ensures
        block_views(r@) == nested_spec(texts(lines@), 0, 0).0,
{
    split_indenting_helper(lines, 0, 0).0
}

/// `line` without its comment.
pub fn strip_comment(line: &str) -> (r: String)
    ensures
        r@ == strip(line@),
{
    let cs = chars_of(line);
    let n = cs.len();
    let mut i: usize = 0;
    while i < n
        invariant
            i <= n,
            n == cs.len(),
            cs@ == line@,
            code_len(line@, 0) == i + code_len(line@, i as nat),
        decreases n - i,
    {
        if cs[i] == '-' && i + 1 < n && cs[i + 1] == '-' {
            return slice_text(line, 0, i);
        }
        i += 1;
    }
    slice_text(line, 0, i)
}

/// The lines of a program text, each without its comment.
pub fn split_lines(input: &str) -> (r: Vec<String>)
    ensures
        texts(r@) == code_lines(input@, 0),
{
    let cs = chars_of(input);
    let n = cs.len();
    let ghost s = input@;
    let mut out: Vec<String> = Vec::new();
    let mut from: usize = 0;
    assert(texts(out@) =~= Seq::<Seq<char>>::empty());
    assert(Seq::<Seq<char>>::empty() + code_lines(s, 0) =~= code_lines(s, 0));
    loop
        invariant
            from <= n,
            n == cs.len(),
            cs@ == s,
            s == input@,
            code_lines(s, 0) == texts(out@) + code_lines(s, from as nat),
        decreases n - from,
    {
        let mut end: usize = from;
        while end < n && cs[end] != '\n'
            invariant
                from <= end <= n,
                n == cs.len(),
                cs@ == s,
                line_len(s, from as nat) == (end - from) + line_len(s, end as nat),
            decreases n - end,
        {
            end += 1;
        }
        let ghost acc = texts(out@);
        let line = strip_comment(input.substring_char(from, end));
        let ghost lv = line@;
        out.push(line);
        proof {
            assert(texts(out@) =~= acc.push(lv));
            assert(line_len(s, end as nat) == 0);
        }
        if end < n {
            proof {
                let rest = code_lines(s, (end + 1) as nat);
                assert(acc + (seq![lv] + rest) =~= acc.push(lv) + rest);
            }
            from = end + 1;
        } else {
            proof {
                assert(acc + seq![lv] =~= acc.push(lv));
            }
            return out;
        }
    }
}

/// `acc` in front of the items that follow.
pub open spec fn prefixed(
    acc: Seq<ast::ItemView>,
    rest: Result<Seq<ast::ItemView>, ParseErrorView>,
) -> Result<Seq<ast::ItemView>, ParseErrorView> {
    match rest {
        Ok(items) => Ok(acc + items),
        Err(x) => Err(x),
    }
}

/// An item in front of what follows is the last of what came before.
proof fn lemma_prefixed_push(
    acc: Seq<ast::ItemView>,
    item: ast::ItemView,
    rest: Result<Seq<ast::ItemView>, ParseErrorView>,
)
    ensures
        prefixed(acc, with_item(item, rest)) == prefixed(acc.push(item), rest),
{
    if rest is Ok {
        assert(acc + (seq![item] + rest->Ok_0) =~= acc.push(item) + rest->Ok_0);
    }
}

fn lone_item(a: ast::Annotation) -> (r: ast::Item)
    ensures
        r@ == lone(a@),
{
    let r = ast::Item { annotation: Some(a), definition: None, associated: Vec::new() };
    assert(ast::item_views(Seq::<ast::Item>::empty()) =~= Seq::<ast::ItemView>::empty());
    r
}

/// Reads programs: text in, items out.
pub struct ProgramParser {}

impl ProgramParser {
    /// A parser.
    pub fn new() -> (r: Self) {
        ProgramParser {  }
    }

    /// The items of a program text. Comments are dropped, the lines are
    /// grouped by indentation, and each line is read by the line grammar.
    pub fn parse(&self, input: &str) -> (res: Result<Vec<ast::Item>, ParseError>)
        ensures
            items_view(res) == program_spec(input@),
    {
        let lines = split_lines(input);
        let indented = split_indenting(&lines);
        self.from_indented(&indented)
    }

    /// The items that a sequence of blocks makes up.
    pub fn from_indented(&self, indented: &Vec<IndentedCode>) -> (res: Result<
        Vec<ast::Item>,
        ParseError,
    >)
        ensures
            items_view(res) == group_spec(block_views(indented@), 0, None),
        decreases indented,
    {
        let ghost blocks = block_views(indented@);
        let ghost goal = group_spec(blocks, 0, None);
        let mut result: Vec<ast::Item> = Vec::new();
        let mut annotation: Option<ast::Annotation> = None;
        let mut k: usize = 0;
        assert(ast::item_views(result@) =~= Seq::<ast::ItemView>::empty());
        assert(prefixed(Seq::empty(), goal) == goal) by {
            if goal is Ok {
                assert(Seq::<ast::ItemView>::empty() + goal->Ok_0 =~= goal->Ok_0);
            }
        }
        while k < indented.len()
            invariant
                k <= indented.len(),
                blocks == block_views(indented@),
                goal == group_spec(blocks, 0, None),
                goal == prefixed(
                    ast::item_views(result@),
                    group_spec(blocks, k as nat, ast::annotation_view(annotation)),
                ),
            decreases indented.len() - k,
        {
            let ghost acc = ast::item_views(result@);
            let ghost pending = ast::annotation_view(annotation);
            let block = &indented[k];
            proof {
                lemma_block_view(*block);
            }
            let output = match parse_line(block.line.as_str()) {
                Err(x) => {
                    return Err(ParseError { line: block.line.clone(), error: x });
                },
                Ok(l) => l,
            };
            match output {
                ast::Line::Function(definition) => {
                    let associated = match self.from_indented(&block.sublines) {
                        Err(e) => {
                            return Err(e);
                        },
                        Ok(v) => v,
                    };
                    let item = ast::Item {
                        annotation: annotation.take(),
                        definition: Some(definition),
                        associated,
                    };
                    let ghost iv = item@;
                    result.push(item);
                    proof {
                        assert(ast::item_views(result@) =~= acc.push(iv));
                        lemma_prefixed_push(acc, iv, group_spec(blocks, (k + 1) as nat, None));
                    }
                },
                ast::Line::Annotation(it) => {
                    match annotation.take() {
                        Some(waiting) => {
                            let item = lone_item(waiting);
                            let ghost iv = item@;
                            result.push(item);
                            proof {
                                assert(ast::item_views(result@) =~= acc.push(iv));
                                lemma_prefixed_push(
                                    acc,
                                    iv,
                                    group_spec(blocks, (k + 1) as nat, Some(it@)),
                                );
                            }
                        },
                        None => {},
                    }
                    annotation = Some(it);
                },
            }
            k += 1;
        }
        let ghost acc = ast::item_views(result@);
        match annotation {
            Some(waiting) => {
                let item = lone_item(waiting);
                let ghost iv = item@;
                result.push(item);
                assert(ast::item_views(result@) =~= acc + seq![iv]);
            },
            None => {
                assert(acc + Seq::<ast::ItemView>::empty() =~= acc);
            },
        }
        Ok(result)
    }
}

} // verus!

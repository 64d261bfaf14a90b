//! Parse a recorded shell session (`cd` and `ls` commands with their
//! output) into a directory tree held in a flat arena, with directory
//! sizes accumulated up the tree as listings are processed.

use vstd::prelude::*;

use crate::directory::Directory;
use crate::text::digits_val;
use crate::text::lines_of;
use crate::text::spec_lines;
use crate::text::spec_tokens;
use crate::text::token_is_num;
use crate::text::tokens_of;

verus! {

/// What a session line is: a command (starts with `$`), a directory entry
/// (starts with `dir`), or a file entry.
#[derive(Debug, PartialEq, Eq, Structural)]
pub enum LineType {
    Command,
    File,
    Directory,
}

pub open spec fn spec_line_type(seg: Seq<char>) -> LineType {
    if seg.len() >= 1 && seg[0] == '$' {
        LineType::Command
    } else if seg.len() >= 3 && seg[0] == 'd' && seg[1] == 'i' && seg[2] == 'r' {
        LineType::Directory
    } else {
        LineType::File
    }
}

pub open spec fn ls_chars() -> Seq<char> {
    seq!['l', 's']
}

pub open spec fn cd_chars() -> Seq<char> {
    seq!['c', 'd']
}

/// A file entry line carries its size and its name.
pub open spec fn file_line_ok(seg: Seq<char>) -> bool {
    spec_tokens(seg).len() >= 2 && token_is_num(spec_tokens(seg)[0])
}

/// The size a session line contributes: the size of a file entry, nothing
/// otherwise.
pub open spec fn line_size(seg: Seq<char>) -> int {
    if spec_line_type(seg) == LineType::File && file_line_ok(seg) {
        digits_val(spec_tokens(seg)[0])
    } else {
        0
    }
}

/// The total size the lines of `[p, q)` contribute.
pub open spec fn range_total(lines: Seq<Seq<char>>, p: int, q: int) -> int
    decreases q - p,
{
    if p >= q {
        0
    } else {
        line_size(lines[p]) + range_total(lines, p + 1, q)
    }
}

pub proof fn lemma_range_total_nonneg(lines: Seq<Seq<char>>, p: int, q: int)
    ensures
        range_total(lines, p, q) >= 0,
    decreases q - p,
{
    if p < q {
        if spec_line_type(lines[p]) == LineType::File && file_line_ok(lines[p]) {
            lemma_digits_nonneg_for(spec_tokens(lines[p])[0]);
        }
        lemma_range_total_nonneg(lines, p + 1, q);
    }
}

proof fn lemma_digits_nonneg_for(s: Seq<char>)
    requires
        crate::text::all_digits(s),
    ensures
        digits_val(s) >= 0,
    decreases s.len(),
{
    if s.len() > 0 {
        assert(crate::text::all_digits(s.drop_last()));
        lemma_digits_nonneg_for(s.drop_last());
    }
}

/// Totals over adjacent ranges add up.
pub proof fn lemma_range_total_split(lines: Seq<Seq<char>>, p: int, m: int, q: int)
    requires
        p <= m <= q,
    ensures
        range_total(lines, p, q) == range_total(lines, p, m) + range_total(lines, m, q),
    decreases m - p,
{
    if p < m {
        lemma_range_total_split(lines, p + 1, m, q);
    }
}

/// A well-formed session: it opens with a command, every command is `ls`
/// or `cd`, every file entry is well formed, and the line after a `cd`
/// command is again a command.
pub open spec fn session_ok(lines: Seq<Seq<char>>) -> bool {
    &&& (lines.len() > 0 ==> spec_line_type(lines[0]) == LineType::Command)
    &&& forall|k: int|
        0 <= k < lines.len() && spec_line_type(#[trigger] lines[k]) == LineType::Command ==> {
            &&& spec_tokens(lines[k]).len() >= 2
            &&& (spec_tokens(lines[k])[1] == ls_chars() || spec_tokens(lines[k])[1] == cd_chars())
        }
    &&& forall|k: int|
        0 <= k < lines.len() && spec_line_type(#[trigger] lines[k]) == LineType::File
            ==> file_line_ok(lines[k])
    &&& forall|k: int|
        0 <= k < lines.len() && spec_line_type(#[trigger] lines[k]) == LineType::Directory
            ==> spec_tokens(lines[k]).len() >= 2
    &&& forall|k: int|
        0 <= k < lines.len() - 1 && spec_line_type(#[trigger] lines[k]) == LineType::Command
            && spec_tokens(lines[k])[1] == cd_chars() ==> spec_line_type(lines[k + 1])
            == LineType::Command
}

/// The first child in the list whose directory bears the name.
pub open spec fn find_child(arena: Seq<Directory>, children: Seq<usize>, name: Seq<char>) -> Option<
    usize,
>
    decreases children.len(),
{
    if children.len() == 0 {
        None
    } else if 0 <= children[0] < arena.len() && arena[children[0] as int].name@ == name {
        Some(children[0])
    } else {
        find_child(arena, children.drop_first(), name)
    }
}

/// The sum of the recorded file sizes.
pub open spec fn files_sum(files: Seq<(String, usize)>) -> int
    decreases files.len(),
{
    if files.len() == 0 {
        0
    } else {
        files_sum(files.drop_last()) + files.last().1
    }
}

proof fn lemma_files_sum_nonneg(files: Seq<(String, usize)>)
    ensures
        files_sum(files) >= 0,
    decreases files.len(),
{
    if files.len() > 0 {
        lemma_files_sum_nonneg(files.drop_last());
    }
}

proof fn lemma_files_sum_update(files: Seq<(String, usize)>, i: int, v: (String, usize))
    requires
        0 <= i < files.len(),
    ensures
        files_sum(files.update(i, v)) == files_sum(files) + v.1 - files[i].1,
    decreases files.len(),
{
    let t = files.update(i, v);
    if i == files.len() - 1 {
        assert(t.drop_last() =~= files.drop_last());
        assert(t.last() == v);
    } else {
        assert(t.drop_last() =~= files.drop_last().update(i, v));
        assert(t.last() == files.last());
        lemma_files_sum_update(files.drop_last(), i, v);
    }
}

/// The session parser: the lines, a cursor into them, the directory arena
/// and the directory currently entered.
pub struct Parser {
    pub contents: Vec<String>,
    pub pos: usize,
    pub arena: Vec<Directory>,
    pub cursor: usize,
}

impl Parser {
    pub open spec fn lines_view(self) -> Seq<Seq<char>> {
        self.contents.deep_view()
    }

    /// The arena is a tree rooted at slot zero: parents point strictly
    /// downward, children strictly upward, and the cursor is valid.
    pub open spec fn wf(self) -> bool {
        &&& self.arena@.len() >= 1
        &&& self.cursor < self.arena@.len()
        &&& self.pos <= self.contents@.len()
        &&& self.arena@[0].parent is None
        &&& forall|i: int| 0 <= i < self.arena@.len() ==> (#[trigger] self.arena@[i]).idx == i
        &&& forall|i: int|
            1 <= i < self.arena@.len() ==> ((#[trigger] self.arena@[i]).parent matches Some(p)
                && p < i)
        &&& forall|i: int, k: int|
            0 <= i < self.arena@.len() && 0 <= k < (#[trigger] self.arena@[i]).children@.len()
                ==> i < #[trigger] self.arena@[i].children@[k] < self.arena@.len()
    }

    /// A parser over the session text, with just the root directory.
    pub fn new(contents: &str) -> (r: Parser)
        ensures
            r.wf(),
            r.lines_view() == spec_lines(contents@),
            r.pos == 0,
            r.cursor == 0,
            r.arena@.len() == 1,
            r.arena@[0].size == 0,
            r.arena@[0].parent is None,
    {
        let directory = Directory::new("root", 0, None);
        let parser = Parser { contents: lines_of(contents), pos: 0, cursor: 0, arena: vec![directory] };
        parser
    }

    /// Classify a session line.
    pub fn parse_line_type(&self, line: &str) -> (r: LineType)
        ensures
            r == spec_line_type(line@),
    {
        let len = line.unicode_len();
        if len >= 1 && line.get_char(0) == '$' {
            LineType::Command
        } else if len >= 3 && line.get_char(0) == 'd' && line.get_char(1) == 'i' && line.get_char(2)
            == 'r' {
            LineType::Directory
        } else {
            LineType::File
        }
    }

    /// Read a file entry: its size and its name.
    pub fn parse_file(&self, line: &str) -> (r: (usize, String))
        requires
            file_line_ok(line@),
        ensures
            r.0 == digits_val(spec_tokens(line@)[0]),
            r.1@ == spec_tokens(line@)[1],
    {
        let tokens = tokens_of(line);
        proof {
            assert(tokens@[0]@ == spec_tokens(line@)[0]);
            assert(tokens@[1]@ == spec_tokens(line@)[1]);
        }
        let value = crate::text::parse_usize(tokens[0].as_str());
        let name = tokens[1].clone();
        (value, name)
    }

    /// Read the name of a directory entry.
    pub fn parse_dir_name(&self, line: &str) -> (r: String)
        requires
            spec_tokens(line@).len() >= 2,
        ensures
            r@ == spec_tokens(line@)[1],
    {
        let tokens = tokens_of(line);
        proof {
            assert(tokens@[1]@ == spec_tokens(line@)[1]);
        }
        tokens[1].clone()
    }

    /// Record a file size under its name, replacing an earlier entry of the
    /// same name.
    fn insert_file(files: &mut Vec<(String, usize)>, name: String, size: usize)
        ensures
            files_sum(final(files)@) <= files_sum(old(files)@) + size,
            files_sum(final(files)@) >= 0,
    {
        proof {
            lemma_files_sum_nonneg(files@);
        }
        let mut i: usize = 0;
        while i < files.len()
            invariant
                i <= files@.len(),
                files@ == old(files)@,
            decreases files@.len() - i,
        {
            if crate::text::str_eq(files[i].0.as_str(), name.as_str()) {
                proof {
                    lemma_files_sum_update(files@, i as int, (name, size));
                    lemma_files_sum_nonneg(files@.update(i as int, (name, size)));
                }
                files[i] = (name, size);
                return ;
            }
            i = i + 1;
        }
        files.push((name, size));
        proof {
            assert(files@.drop_last() =~= old(files)@);
            lemma_files_sum_nonneg(files@);
        }
    }

    /// Process an `ls` listing: skip the command line, record the listed
    /// files under the current directory, append the listed directories as
    /// its children, and add the file total to the current directory and
    /// all its ancestors.
    #[verifier::rlimit(100)]
    pub fn process_ls(&mut self)
        requires
            old(self).wf(),
            session_ok(old(self).lines_view()),
            forall|i: int|
                0 <= i < old(self).arena@.len() ==> (#[trigger] old(self).arena@[i]).size
                    + range_total(old(self).lines_view(), old(self).pos as int, old(
                    self).contents@.len() as int) <= usize::MAX,
        ensures
            final(self).wf(),
            final(self).contents == old(self).contents,
            final(self).cursor == old(self).cursor,
            final(self).pos >= old(self).pos,
            old(self).pos < old(self).contents@.len() ==> final(self).pos > old(self).pos,
            final(self).pos <= old(self).contents@.len(),
            final(self).pos < old(self).contents@.len() ==> spec_line_type(
                old(self).lines_view()[final(self).pos as int],
            ) == LineType::Command,
            final(self).arena@.len() >= old(self).arena@.len(),
            forall|i: int|
                0 <= i < old(self).arena@.len() ==> {
                    &&& (#[trigger] final(self).arena@[i]).idx == old(self).arena@[i].idx
                    &&& final(self).arena@[i].name@ == old(self).arena@[i].name@
                    &&& final(self).arena@[i].parent == old(self).arena@[i].parent
                    &&& final(self).arena@[i].size >= old(self).arena@[i].size
                },
            forall|i: int|
                0 <= i < final(self).arena@.len() ==> (#[trigger] final(self).arena@[i]).size
                    + range_total(old(self).lines_view(), final(self).pos as int, old(
                    self).contents@.len() as int) <= usize::MAX,
    {
        let ghost lines = self.lines_view();
        let ghost pos0 = self.pos as int;
        let len = self.contents.len();
        let n = len;
        if self.pos < len {
            self.pos = self.pos + 1;  // remove $ ls
        }
        let ghost start = self.pos as int;
        proof {
            lemma_range_total_split(lines, pos0, start, len as int);
            lemma_range_total_nonneg(lines, pos0, start);
            lemma_range_total_nonneg(lines, start, len as int);
        }
        let mut files: Vec<(String, usize)> = Vec::new();
        while self.pos < n && self.parse_line_type(self.contents[self.pos].as_str())
            != LineType::Command
            invariant
                self.contents == old(self).contents,
                self.cursor == old(self).cursor,
                lines == self.lines_view(),
                n == len,
                len == self.contents@.len(),
                session_ok(lines),
                start <= self.pos as int <= len,
                self.wf(),
                files_sum(files@) >= 0,
                files_sum(files@) <= range_total(lines, start, self.pos as int),
                self.arena@.len() >= old(self).arena@.len(),
                forall|i: int|
                    0 <= i < old(self).arena@.len() ==> {
                        &&& (#[trigger] self.arena@[i]).idx == old(self).arena@[i].idx
                        &&& self.arena@[i].name@ == old(self).arena@[i].name@
                        &&& self.arena@[i].parent == old(self).arena@[i].parent
                        &&& self.arena@[i].size == old(self).arena@[i].size
                    },
                forall|i: int|
                    old(self).arena@.len() <= i < self.arena@.len() ==> (
                    #[trigger] self.arena@[i]).size == 0,
                forall|i: int|
                    0 <= i < old(self).arena@.len() ==> (#[trigger] old(self).arena@[i]).size
                        + range_total(lines, pos0, len as int) <= usize::MAX,
            decreases len - self.pos,
        {
            let line = self.contents[self.pos].clone();
            proof {
                assert(line@ == lines[self.pos as int]);
                lemma_range_total_split(lines, start, self.pos as int, self.pos as int + 1);
                lemma_range_total_split(lines, start, self.pos as int + 1, len as int);
                lemma_range_total_nonneg(lines, start, self.pos as int);
            }
            let lt = self.parse_line_type(line.as_str());
            proof {
                assert(range_total(lines, self.pos as int + 1, self.pos as int + 1) == 0);
                assert(range_total(lines, self.pos as int, self.pos as int + 1) == line_size(
                    lines[self.pos as int],
                ));
            }
            if lt == LineType::File {
                proof {
                    assert(spec_line_type(lines[self.pos as int]) == LineType::File);
                    assert(file_line_ok(lines[self.pos as int]));
                    assert(line_size(lines[self.pos as int]) == digits_val(
                        spec_tokens(lines[self.pos as int])[0],
                    ));
                }
                let (size, fname) = self.parse_file(line.as_str());
                Self::insert_file(&mut files, fname, size);
            } else {
                proof {
                    assert(spec_line_type(lines[self.pos as int]) != LineType::File);
                    assert(line_size(lines[self.pos as int]) == 0);
                }
                let name = self.parse_dir_name(line.as_str());
                let new_idx = self.arena.len();
                let directory = Directory::new(name.as_str(), new_idx, Some(self.cursor));
                let mut cur = self.arena[self.cursor].duplicate();
                cur.children.push(new_idx);
                let cursor = self.cursor;
                self.arena[cursor] = cur;
                self.arena.push(directory);
            }
            self.pos = self.pos + 1;
        }
        // The listing's file total flows up the tree.
        proof {
            lemma_range_total_split(lines, start, self.pos as int, len as int);
            lemma_range_total_nonneg(lines, self.pos as int, len as int);
            lemma_files_sum_nonneg(files@);
        }
        let mut value: usize = 0;
        let mut i: usize = 0;
        while i < files.len()
            invariant
                i <= files@.len(),
                value == files_sum(files@.subrange(0, i as int)),
                files_sum(files@.subrange(0, i as int)) <= files_sum(files@),
                files_sum(files@) + range_total(lines, self.pos as int, len as int)
                    <= usize::MAX,
                range_total(lines, self.pos as int, len as int) >= 0,
            decreases files@.len() - i,
        {
            proof {
                lemma_files_sum_prefix(files@, i as int + 1);
                assert(files@.subrange(0, i as int + 1).drop_last() =~= files@.subrange(
                    0,
                    i as int,
                ));
            }
            value = value + files[i].1;
            i = i + 1;
        }
        proof {
            assert(files@.subrange(0, files@.len() as int) =~= files@);
        }
        // Record the files under the current directory.
        let cursor = self.cursor;
        let mut cur = self.arena[cursor].duplicate();
        let mut k: usize = 0;
        while k < files.len()
            invariant
                k <= files@.len(),
                cursor < self.arena@.len(),
                cur.idx == self.arena@[cursor as int].idx,
                cur.name@ == self.arena@[cursor as int].name@,
                cur.parent == self.arena@[cursor as int].parent,
                cur.children@ == self.arena@[cursor as int].children@,
                cur.size == self.arena@[cursor as int].size,
            decreases files@.len() - k,
        {
            let fname = files[k].0.clone();
            let fsize = files[k].1;
            Self::insert_file(&mut cur.files, fname, fsize);
            k = k + 1;
        }
        self.arena[cursor] = cur;
        proof {
            assert(self.wf());
            lemma_range_total_nonneg(lines, start, self.pos as int);
        }
        self.propagate_value(value);
    }

    /// Process a `cd` line: step to the parent on `..`, into a named child
    /// when one exists, and stay put otherwise.
    pub fn process_cd(&mut self)
        requires
            old(self).wf(),
        ensures
            final(self).wf(),
            final(self).contents == old(self).contents,
            final(self).arena == old(self).arena,
            old(self).pos < old(self).contents@.len() ==> final(self).pos == old(self).pos + 1,
            old(self).pos >= old(self).contents@.len() ==> final(self).pos == old(self).pos
                && final(self).cursor == old(self).cursor,
            old(self).pos < old(self).contents@.len() ==> {
                let toks = spec_tokens(old(self).lines_view()[old(self).pos as int]);
                if toks.len() < 3 {
                    final(self).cursor == old(self).cursor
                } else if toks[2] == seq!['.', '.'] {
                    final(self).cursor == (match old(self).arena@[old(self).cursor as int].parent {
                        Some(p) => p as int,
                        None => old(self).cursor as int,
                    })
                } else {
                    final(self).cursor == (match find_child(
                        old(self).arena@,
                        old(self).arena@[old(self).cursor as int].children@,
                        toks[2],
                    ) {
                        Some(c) => c as int,
                        None => old(self).cursor as int,
                    })
                }
            },
    {
        if self.pos >= self.contents.len() {
            return ;
        }
        let line = self.contents[self.pos].clone();
        self.pos = self.pos + 1;
        proof {
            assert(line@ == old(self).lines_view()[old(self).pos as int]);
        }
        let tokens = tokens_of(line.as_str());
        if tokens.len() < 3 {
            return ;
        }
        proof {
            assert(tokens@[2]@ == spec_tokens(line@)[2]);
        }
        let name = tokens[2].clone();
        let nlen = name.as_str().unicode_len();
        if nlen == 2 && name.as_str().get_char(0) == '.' && name.as_str().get_char(1) == '.' {
            proof {
                assert(name@ =~= seq!['.', '.']);
            }
            match self.arena[self.cursor].parent {
                Some(parent) => {
                    self.cursor = parent;
                },
                None => {},
            }
        } else {
            proof {
                assert(name@ != seq!['.', '.']) by {
                    if name@ == seq!['.', '.'] {
                        assert(name@.len() == 2 && name@[0] == '.' && name@[1] == '.');
                    }
                }
            }
            // Walk the children in order and enter the first name match.
            let children = crate::text::copy_vec(&self.arena[self.cursor].children);
            proof {
                assert(children@.skip(0) =~= children@);
            }
            let mut k: usize = 0;
            while k < children.len()
                invariant
                    self.wf(),
                    self.contents == old(self).contents,
                    self.arena == old(self).arena,
                    self.pos == old(self).pos + 1,
                    children@ == self.arena@[self.cursor as int].children@,
                    self.cursor == old(self).cursor,
                    name@ == spec_tokens(old(self).lines_view()[old(self).pos as int])[2],
                    spec_tokens(old(self).lines_view()[old(self).pos as int]).len() >= 3,
                    name@ != seq!['.', '.'],
                    old(self).pos < old(self).contents@.len(),
                    k <= children@.len(),
                    forall|j: int|
                        0 <= j < children@.len() ==> old(self).cursor < #[trigger] children@[j]
                            < self.arena@.len(),
                    find_child(self.arena@, children@.skip(k as int), name@) == find_child(
                        self.arena@,
                        children@,
                        name@,
                    ),
                decreases children@.len() - k,
            {
                proof {
                    assert(children@.skip(k as int)[0] == children@[k as int]);
                    assert(children@.skip(k as int).drop_first() =~= children@.skip(
                        k as int + 1,
                    ));
                }
                let child = children[k];
                if crate::text::str_eq(self.arena[child].name.as_str(), name.as_str()) {
                    proof {
                        assert(self.arena@[child as int].name@ == name@);
                        assert(children@.skip(k as int)[0] == child);
                        assert(find_child(self.arena@, children@.skip(k as int), name@) == Some(
                            child,
                        ));
                    }
                    self.cursor = child;
                    return ;
                }
                proof {
                    assert(self.arena@[child as int].name@ != name@);
                }
                k = k + 1;
            }
            proof {
                assert(children@.skip(children@.len() as int) =~= Seq::<usize>::empty());
            }
        }
    }

    /// Dispatch the command line under the cursor to `ls` or `cd`
    /// processing.
    #[verifier::rlimit(100)]
    pub fn process_command(&mut self)
        requires
            old(self).wf(),
            session_ok(old(self).lines_view()),
            old(self).pos < old(self).contents@.len() ==> spec_line_type(
                old(self).lines_view()[old(self).pos as int],
            ) == LineType::Command,
            forall|i: int|
                0 <= i < old(self).arena@.len() ==> (#[trigger] old(self).arena@[i]).size
                    + range_total(old(self).lines_view(), old(self).pos as int, old(
                    self).contents@.len() as int) <= usize::MAX,
        ensures
            final(self).wf(),
            final(self).contents == old(self).contents,
            final(self).pos >= old(self).pos,
            old(self).pos < old(self).contents@.len() ==> final(self).pos > old(self).pos,
            final(self).pos <= old(self).contents@.len(),
            final(self).pos < old(self).contents@.len() ==> spec_line_type(
                old(self).lines_view()[final(self).pos as int],
            ) == LineType::Command,
            forall|i: int|
                0 <= i < final(self).arena@.len() ==> (#[trigger] final(self).arena@[i]).size
                    + range_total(old(self).lines_view(), final(self).pos as int, old(
                    self).contents@.len() as int) <= usize::MAX,
    {
        let ghost lines = self.lines_view();
        if self.pos >= self.contents.len() {
            proof {
                lemma_range_total_nonneg(lines, self.pos as int, self.contents@.len() as int);
            }
            return ;
        }
        let line = self.contents[self.pos].clone();
        proof {
            assert(line@ == lines[self.pos as int]);
        }
        let tokens = tokens_of(line.as_str());
        proof {
            assert(spec_tokens(line@).len() >= 2);
            assert(tokens@[1]@ == spec_tokens(line@)[1]);
        }
        let cmd = &tokens[1];
        let clen = cmd.as_str().unicode_len();
        if clen == 2 && cmd.as_str().get_char(0) == 'l' && cmd.as_str().get_char(1) == 's' {
            self.process_ls();
        } else {
            proof {
                assert(cmd@ != ls_chars()) by {
                    if cmd@ == ls_chars() {
                        assert(cmd@.len() == 2 && cmd@[0] == 'l' && cmd@[1] == 's');
                    }
                }
                assert(spec_tokens(line@)[1] == cd_chars());
            }
            let ghost p0 = self.pos as int;
            self.process_cd();
            proof {
                lemma_range_total_split(lines, p0, self.pos as int, self.contents@.len() as int);
                lemma_range_total_nonneg(lines, p0, self.pos as int);
                if (self.pos as int) < self.contents@.len() {
                    assert(spec_line_type(lines[self.pos as int]) == LineType::Command);
                }
            }
        }
    }

    /// Replay the whole session.
    #[verifier::rlimit(100)]
    pub fn parse(&mut self)
        requires
            old(self).wf(),
            session_ok(old(self).lines_view()),
            old(self).pos < old(self).contents@.len() ==> spec_line_type(
                old(self).lines_view()[old(self).pos as int],
            ) == LineType::Command,
            forall|i: int|
                0 <= i < old(self).arena@.len() ==> (#[trigger] old(self).arena@[i]).size
                    + range_total(old(self).lines_view(), old(self).pos as int, old(
                    self).contents@.len() as int) <= usize::MAX,
        ensures
            final(self).wf(),
            final(self).contents == old(self).contents,
            final(self).pos == final(self).contents@.len(),
    {
        let ghost lines = self.lines_view();
        while self.pos < self.contents.len()
            invariant
                self.wf(),
                self.contents == old(self).contents,
                lines == self.lines_view(),
                session_ok(lines),
                self.pos < self.contents@.len() ==> spec_line_type(lines[self.pos as int])
                    == LineType::Command,
                forall|i: int|
                    0 <= i < self.arena@.len() ==> (#[trigger] self.arena@[i]).size + range_total(
                        lines,
                        self.pos as int,
                        self.contents@.len() as int,
                    ) <= usize::MAX,
            decreases self.contents@.len() - self.pos,
        {
            self.process_command();
        }
    }

    /// The root directory: follow parent links from the cursor all the way
    /// up. With a well-formed arena that is always slot zero.
    pub fn get_root(&self) -> (r: Option<Directory>)
        requires
            self.wf(),
        ensures
            match r {
                Some(d) => {
                    &&& d.idx == self.arena@[0].idx
                    &&& d.size == self.arena@[0].size
                    &&& d.name@ == self.arena@[0].name@
                    &&& d.parent == self.arena@[0].parent
                },
                None => false,
            },
    {
        let mut at = self.cursor;
        while self.arena[at].parent.is_some()
            invariant
                self.wf(),
                at < self.arena@.len(),
            decreases at,
        {
            let p = self.arena[at].parent.unwrap();
            proof {
                if at >= 1 {
                } else {
                    assert(self.arena@[0].parent is None);
                }
            }
            at = p;
        }
        proof {
            if at != 0 {
                assert((self.arena@[at as int].parent matches Some(q) && q < at));
            }
        }
        Some(self.arena[at].duplicate())
    }

    /// Add `value` to the size of the current directory and every one of
    /// its ancestors; every other directory keeps its size.
    pub fn propagate_value(&mut self, value: usize)
        requires
            old(self).wf(),
            forall|i: int|
                0 <= i < old(self).arena@.len() ==> (#[trigger] old(self).arena@[i]).size + value
                    <= usize::MAX,
        ensures
            final(self).wf(),
            final(self).contents == old(self).contents,
            final(self).pos == old(self).pos,
            final(self).cursor == old(self).cursor,
            final(self).arena@.len() == old(self).arena@.len(),
            forall|i: int|
                0 <= i < old(self).arena@.len() ==> {
                    &&& (#[trigger] final(self).arena@[i]).idx == old(self).arena@[i].idx
                    &&& final(self).arena@[i].name@ == old(self).arena@[i].name@
                    &&& final(self).arena@[i].parent == old(self).arena@[i].parent
                    &&& final(self).arena@[i].children@ == old(self).arena@[i].children@
                    &&& final(self).arena@[i].files.deep_view() == old(self).arena@[i].files.deep_view()
                    &&& (final(self).arena@[i].size == old(self).arena@[i].size || final(self).arena@[i].size == old(self).arena@[i].size + value)
                },
            final(self).arena@[old(self).cursor as int].size == old(self).arena@[old(self).cursor as int].size + value,
    {
        let mut at = self.cursor;
        let ghost mut done: Set<int> = Set::empty();
        loop
            invariant_except_break
                forall|i: int| #[trigger] done.contains(i) ==> i > at,
            invariant
                self.wf(),
                self.contents == old(self).contents,
                self.pos == old(self).pos,
                self.cursor == old(self).cursor,
                self.arena@.len() == old(self).arena@.len(),
                at < self.arena@.len(),
                done.contains(old(self).cursor as int) || (at == old(self).cursor && done
                    =~= Set::<int>::empty()),
                forall|i: int|
                    0 <= i < old(self).arena@.len() ==> (#[trigger] old(self).arena@[i]).size
                        + value <= usize::MAX,
                forall|i: int|
                    0 <= i < old(self).arena@.len() ==> {
                        &&& (#[trigger] self.arena@[i]).idx == old(self).arena@[i].idx
                        &&& self.arena@[i].name@ == old(self).arena@[i].name@
                        &&& self.arena@[i].parent == old(self).arena@[i].parent
                        &&& self.arena@[i].children@ == old(self).arena@[i].children@
                        &&& self.arena@[i].files.deep_view() == old(self).arena@[i].files.deep_view()
                        &&& self.arena@[i].size == old(self).arena@[i].size + (
                        if done.contains(i) {
                            value as int
                        } else {
                            0int
                        })
                    },
            ensures
                self.wf(),
                self.contents == old(self).contents,
                self.pos == old(self).pos,
                self.cursor == old(self).cursor,
                self.arena@.len() == old(self).arena@.len(),
                done.contains(old(self).cursor as int),
                forall|i: int|
                    0 <= i < old(self).arena@.len() ==> {
                        &&& (#[trigger] self.arena@[i]).idx == old(self).arena@[i].idx
                        &&& self.arena@[i].name@ == old(self).arena@[i].name@
                        &&& self.arena@[i].parent == old(self).arena@[i].parent
                        &&& self.arena@[i].children@ == old(self).arena@[i].children@
                        &&& self.arena@[i].files.deep_view() == old(self).arena@[i].files.deep_view()
                        &&& self.arena@[i].size == old(self).arena@[i].size + (
                        if done.contains(i) {
                            value as int
                        } else {
                            0int
                        })
                    },
            decreases at,
        {
            proof {
                assert(!done.contains(at as int));
                assert(self.arena@[at as int].idx == old(self).arena@[at as int].idx);
                assert(self.arena@[at as int].size == old(self).arena@[at as int].size);
            }
            let mut cur = self.arena[at].duplicate();
            proof {
                assert(cur.size as int + value as int <= usize::MAX as int);
            }
            cur.size = cur.size + value;
            let slot = at;
            self.arena[slot] = cur;
            proof {
                done = done.insert(at as int);
            }
            match self.arena[at].parent {
                Some(p) => {
                    proof {
                        if at == 0 {
                            assert(self.arena@[0].parent is None);
                            assert(false);
                        }
                    }
                    at = p;
                },
                None => {
                    break ;
                },
            }
        }
    }

    /// Every directory the predicate accepts, in arena order.
    pub fn find_directories<F: Fn(&Directory) -> bool>(&self, predicate: F) -> (r: Vec<
        &Directory,
    >)
        requires
            forall|i: int|
                0 <= i < self.arena@.len() ==> predicate.requires((&self.arena@[i],)),
        ensures
            forall|j: int|
                0 <= j < r@.len() ==> predicate.ensures((#[trigger] r@[j],), true),
    {
        let mut directories: Vec<&Directory> = Vec::new();
        let mut i: usize = 0;
        while i < self.arena.len()
            invariant
                i <= self.arena@.len(),
                forall|k: int|
                    0 <= k < self.arena@.len() ==> predicate.requires((&self.arena@[k],)),
                forall|j: int|
                    0 <= j < directories@.len() ==> predicate.ensures(
                        (#[trigger] directories@[j],),
                        true,
                    ),
            decreases self.arena@.len() - i,
        {
            let directory = &self.arena[i];
            if predicate(directory) {
                directories.push(directory);
                proof {
                    assert(predicate.ensures((directories@[directories@.len() - 1],), true));
                }
            }
            i = i + 1;
        }
        directories
    }

    /// The first index in the list whose directory the predicate accepts.
    pub fn find_among<F: Fn(usize) -> bool>(&self, idxs: &[usize], predicate: F) -> (r: Option<
        &Directory,
    >)
        requires
            forall|k: int| 0 <= k < idxs@.len() ==> #[trigger] idxs@[k] < self.arena@.len(),
            forall|k: int|
                0 <= k < idxs@.len() ==> predicate.requires((#[trigger] idxs@[k],)),
        ensures
            match r {
                Some(d) => exists|k: int|
                    0 <= k < idxs@.len() && *d == self.arena@[#[trigger] idxs@[k] as int]
                        && predicate.ensures((idxs@[k],), true),
                None => forall|k: int|
                    0 <= k < idxs@.len() ==> predicate.ensures((#[trigger] idxs@[k],), false),
            },
    {
        let mut k: usize = 0;
        while k < idxs.len()
            invariant
                k <= idxs@.len(),
                forall|j: int| 0 <= j < idxs@.len() ==> #[trigger] idxs@[j] < self.arena@.len(),
                forall|j: int|
                    0 <= j < idxs@.len() ==> predicate.requires((#[trigger] idxs@[j],)),
                forall|j: int|
                    0 <= j < k ==> predicate.ensures((#[trigger] idxs@[j],), false),
            decreases idxs@.len() - k,
        {
            let index = idxs[k];
            if predicate(index) {
                return Some(&self.arena[index]);
            }
            k = k + 1;
        }
        None
    }
}

proof fn lemma_files_sum_prefix(files: Seq<(String, usize)>, i: int)
    requires
        0 <= i <= files.len(),
    ensures
        files_sum(files.subrange(0, i)) <= files_sum(files),
    decreases files.len() - i,
{
    if i < files.len() {
        lemma_files_sum_prefix(files, i + 1);
        assert(files.subrange(0, i + 1).drop_last() =~= files.subrange(0, i));
    } else {
        assert(files.subrange(0, i) =~= files);
    }
}

} // verus!

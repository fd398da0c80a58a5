//! Line-level processing of a source text: splitting a source into lines,
//! recognizing include directives in comment lines, and collecting the
//! recognized directives together with the line they were found on.

use vstd::prelude::*;

verus! {

use vstd::string::StrSliceExecFns;
use vstd::string::StringExecFns;
use crate::text::{
    lines_of, split_lines, skip_ws, end_ws, is_space, is_space_char, lemma_skip_ws_is,
    lemma_end_ws_is, dec_digits, fmt_usize, str_eq,
};

/// Alias for a list of views into each line of a source.
pub type Lines<'a> = Vec<&'a str>;

/// Representation of a source as a list of lines.
pub struct Source<'a>(Lines<'a>);

impl<'a> View for Source<'a> {
    type V = Seq<Seq<char>>;

    closed spec fn view(&self) -> Seq<Seq<char>> {
        self.0.deep_view()
    }
}

/// A preprocessing command.
#[derive(Debug, Clone, Copy)]
pub enum PreprocCommand<'a> {
    /// (Global)-include directive.
    Include(&'a str),
    /// Local-include directive.
    IncludeLocal(&'a str),
}

/// Specification-level value of a [`PreprocCommand`].
pub enum CommandModel {
    Include(Seq<char>),
    IncludeLocal(Seq<char>),
}

impl<'a> View for PreprocCommand<'a> {
    type V = CommandModel;

    open spec fn view(&self) -> CommandModel {
        match self {
            PreprocCommand::Include(f) => CommandModel::Include(f@),
            PreprocCommand::IncludeLocal(f) => CommandModel::IncludeLocal(f@),
        }
    }
}

/// A trait for parsing a single line of a source.
///
/// `parse_spec` is the implementation's specification: the mathematical
/// description of what it recognizes in one line. `parse_line` must decide it.
pub trait ParseLine: Sized {
    /// What the parser recognizes in `line`: `None` for an ordinary line,
    /// `Some(Ok(command))` for a well-formed directive, `Some(Err(message))`
    /// for a line that looks like a directive but is malformed.
    spec fn parse_spec(&self, line: Seq<char>) -> Option<Result<CommandModel, Seq<char>>>;

    /// Parse a single line. Returns `Some` if the line represents a
    /// preprocessing command, with the contained value being `Ok(command)` if
    /// the command parsed successfully, otherwise `Err(text)` with `text`
    /// explaining the cause of the failure. Returns `None` if the line was
    /// not a preprocessing command.
    fn parse_line<'a>(&self, line: &'a str) -> (r: Option<Result<PreprocCommand<'a>, String>>)
        ensures
            match r {
                None => self.parse_spec(line@) is None,
                Some(Ok(c)) => self.parse_spec(line@) == Some(Ok::<CommandModel, Seq<char>>(c@)),
                Some(Err(m)) => self.parse_spec(line@) == Some(
                    Err::<CommandModel, Seq<char>>(m@),
                ),
            },
    ;
}

/// The keyword that opens a directive, after the comment marker and `&`.
pub open spec fn directive_word() -> Seq<char> {
    seq!['i', 'n', 'c', 'l', 'u', 'd', 'e']
}

/// The message for a directive whose argument is malformed.
pub open spec fn bad_argument_msg(rem: Seq<char>) -> Seq<char> {
    "invalid include statement `"@ + rem + "`"@
}

/// The message for a directive-looking line without the keyword.
pub open spec fn bad_statement_msg(rem: Seq<char>) -> Seq<char> {
    "invalid preproc statement `"@ + rem + "`"@
}

/// The grammar of one directive line, for marker `marker`: the line matches
/// when it begins with the marker immediately followed by `&`; the remainder,
/// after trimming leading whitespace, must begin with the directive keyword;
/// what follows (trimmed on both sides) must be either `<name>` (global form)
/// or `"name"` (local form).
pub open spec fn comment_parse(marker: Seq<char>, line: Seq<char>) -> Option<
    Result<CommandModel, Seq<char>>,
> {
    let pre = marker.push('&');
    if !pre.is_prefix_of(line) {
        None
    } else {
        let rem = line.subrange(pre.len() as int, line.len() as int);
        let after = rem.subrange(skip_ws(rem), rem.len() as int);
        if !directive_word().is_prefix_of(after) {
            Some(Err(bad_statement_msg(rem)))
        } else {
            let tail = after.subrange(directive_word().len() as int, after.len() as int);
            let com0 = tail.subrange(skip_ws(tail), tail.len() as int);
            let com = com0.subrange(0, end_ws(com0));
            if com.len() >= 2 && com[0] == '<' && com.last() == '>' {
                Some(Ok(CommandModel::Include(com.subrange(1, com.len() - 1))))
            } else if com.len() >= 2 && com[0] == '"' && com.last() == '"' {
                Some(Ok(CommandModel::IncludeLocal(com.subrange(1, com.len() - 1))))
            } else {
                Some(Err(bad_argument_msg(rem)))
            }
        }
    }
}

/// A parser that will explore the comments of a source, looking for the
/// character `&` appended after the comment string as the start of a
/// preprocessing command. The recognized grammar is [`comment_parse`].
pub struct CommentParser(String);

impl CommentParser {
    /// The comment marker this parser was built with.
    pub closed spec fn marker(&self) -> Seq<char> {
        self.0@
    }

    /// Builds a parser for the given comment marker.
    pub fn new(marker: &str) -> (r: CommentParser)
        ensures
            r.marker() == marker@,
    {
        CommentParser(marker.to_owned())
    }
}

impl From<&str> for CommentParser {
    fn from(s: &str) -> (r: CommentParser) {
        CommentParser::new(s)
    }
}

impl vstd::std_specs::convert::FromSpecImpl<&str> for CommentParser {
    open spec fn obeys_from_spec() -> bool {
        false
    }

    open spec fn from_spec(s: &str) -> CommentParser {
        arbitrary()
    }
}

impl From<String> for CommentParser {
    fn from(s: String) -> (r: CommentParser) {
        CommentParser(s)
    }
}

impl vstd::std_specs::convert::FromSpecImpl<String> for CommentParser {
    open spec fn obeys_from_spec() -> bool {
        false
    }

    open spec fn from_spec(s: String) -> CommentParser {
        arbitrary()
    }
}

impl ParseLine for CommentParser {
    open spec fn parse_spec(&self, line: Seq<char>) -> Option<Result<CommandModel, Seq<char>>> {
        comment_parse(self.marker(), line)
    }

    fn parse_line<'a>(&self, line: &'a str) -> (r: Option<Result<PreprocCommand<'a>, String>>) {
        let marker: &str = self.0.as_str();
        let mlen: usize = marker.unicode_len();
        let llen: usize = line.unicode_len();
        let ghost pre = self.marker().push('&');
        if llen <= mlen {
            proof {
                assert(!pre.is_prefix_of(line@));
            }
            return None;
        }
        let mut j: usize = 0;
        while j < mlen
            invariant
                0 <= j <= mlen,
                mlen < llen,
                mlen == marker@.len(),
                llen == line@.len(),
                marker@ == self.marker(),
                pre == self.marker().push('&'),
                forall|k: int| 0 <= k < j ==> line@[k] == marker@[k],
            decreases mlen - j,
        {
            if line.get_char(j) != marker.get_char(j) {
                proof {
                    assert(pre.len() == mlen + 1);
                    assert(pre[j as int] == marker@[j as int]);
                    if pre.is_prefix_of(line@) {
                        assert(pre =~= line@.subrange(0, pre.len() as int));
                        assert(line@.subrange(0, pre.len() as int)[j as int] == line@[j as int]);
                        assert(false);
                    }
                }
                return None;
            }
            j = j + 1;
        }
        if line.get_char(mlen) != '&' {
            proof {
                assert(pre.len() == mlen + 1);
                assert(pre[mlen as int] == '&');
                if pre.is_prefix_of(line@) {
                    assert(pre =~= line@.subrange(0, pre.len() as int));
                    assert(line@.subrange(0, pre.len() as int)[mlen as int] == line@[mlen as int]);
                    assert(false);
                }
            }
            return None;
        }
        proof {
            assert(pre =~= line@.subrange(0, pre.len() as int));
        }
        let rem: &'a str = line.substring_char(mlen + 1, llen);
        let rlen: usize = llen - (mlen + 1);
        proof {
            assert(rem@.len() == rlen);
        }
        let mut a: usize = 0;
        while a < rlen && is_space_char(rem.get_char(a))
            invariant
                0 <= a <= rlen,
                rlen == rem@.len(),
                forall|k: int| 0 <= k < a ==> is_space(rem@[k]),
            decreases rlen - a,
        {
            a = a + 1;
        }
        proof {
            lemma_skip_ws_is(rem@, a as int);
        }
        let ghost after = rem@.subrange(a as int, rlen as int);
        if rlen - a < 7 {
            proof {
                assert(after.len() < 7);
                assert(!directive_word().is_prefix_of(after));
            }
            return Some(Err(statement_error(rem)));
        }
        let c0 = rem.get_char(a);
        let c1 = rem.get_char(a + 1);
        let c2 = rem.get_char(a + 2);
        let c3 = rem.get_char(a + 3);
        let c4 = rem.get_char(a + 4);
        let c5 = rem.get_char(a + 5);
        let c6 = rem.get_char(a + 6);
        if !(c0 == 'i' && c1 == 'n' && c2 == 'c' && c3 == 'l' && c4 == 'u' && c5 == 'd' && c6
            == 'e') {
            proof {
                assert(!directive_word().is_prefix_of(after)) by {
                    if directive_word().is_prefix_of(after) {
                        assert(forall|k: int|
                            0 <= k < 7 ==> after.subrange(0, 7)[k] == #[trigger] after[k]);
                        assert(forall|k: int| 0 <= k < 7 ==> after[k] == directive_word()[k]);
                        assert(after[0] == 'i' && after[1] == 'n' && after[2] == 'c' && after[3]
                            == 'l' && after[4] == 'u' && after[5] == 'd' && after[6] == 'e');
                    }
                }
            }
            return Some(Err(statement_error(rem)));
        }
        proof {
            assert(directive_word().is_prefix_of(after)) by {
                assert(directive_word() =~= after.subrange(0, 7));
            }
        }
        let mut b: usize = a + 7;
        while b < rlen && is_space_char(rem.get_char(b))
            invariant
                a + 7 <= b <= rlen,
                rlen == rem@.len(),
                forall|k: int| a + 7 <= k < b ==> is_space(rem@[k]),
            decreases rlen - b,
        {
            b = b + 1;
        }
        let mut e: usize = rlen;
        while e > b && is_space_char(rem.get_char(e - 1))
            invariant
                b <= e <= rlen,
                rlen == rem@.len(),
                forall|k: int| e <= k < rlen ==> is_space(rem@[k]),
            decreases e,
        {
            e = e - 1;
        }
        proof {
            let tail = after.subrange(7, after.len() as int);
            assert(forall|k: int| 0 <= k < tail.len() ==> tail[k] == rem@[a + 7 + k]);
            lemma_skip_ws_is(tail, b - (a + 7));
            let com0 = tail.subrange(skip_ws(tail), tail.len() as int);
            assert(com0 =~= rem@.subrange(b as int, rlen as int));
            lemma_end_ws_is(com0, e - b);
            assert(com0.subrange(0, end_ws(com0)) =~= rem@.subrange(b as int, e as int));
        }
        let ghost com = rem@.subrange(b as int, e as int);
        if e - b >= 2 && rem.get_char(b) == '<' && rem.get_char(e - 1) == '>' {
            let fname: &'a str = rem.substring_char(b + 1, e - 1);
            proof {
                assert(com.subrange(1, com.len() - 1) =~= fname@);
            }
            Some(Ok(PreprocCommand::Include(fname)))
        } else if e - b >= 2 && rem.get_char(b) == '"' && rem.get_char(e - 1) == '"' {
            let fname: &'a str = rem.substring_char(b + 1, e - 1);
            proof {
                assert(com.subrange(1, com.len() - 1) =~= fname@);
            }
            Some(Ok(PreprocCommand::IncludeLocal(fname)))
        } else {
            proof {
                assert(!(com.len() >= 2 && com[0] == '<' && com.last() == '>'));
                assert(!(com.len() >= 2 && com[0] == '"' && com.last() == '"'));
            }
            Some(Err(argument_error(rem)))
        }
    }
}

/// Builds the [`bad_statement_msg`] text.
fn statement_error(rem: &str) -> (r: String)
    ensures
        r@ == bad_statement_msg(rem@),
{
    let mut msg = String::from_str("invalid preproc statement `");
    msg.append(rem);
    msg.append("`");
    msg
}

/// Builds the [`bad_argument_msg`] text.
fn argument_error(rem: &str) -> (r: String)
    ensures
        r@ == bad_argument_msg(rem@),
{
    let mut msg = String::from_str("invalid include statement `");
    msg.append(rem);
    msg.append("`");
    msg
}

/// The message that [`Source::process`] reports for a malformed directive:
/// the line index in decimal, then the parser's own message.
pub open spec fn line_err_msg(i: nat, m: Seq<char>) -> Seq<char> {
    "line "@ + dec_digits(i) + ": "@ + m
}

/// What processing a whole source yields, starting at line `i`: the commands
/// of the remaining lines in order, each with its line index, or the message
/// for the first malformed line.
pub open spec fn process_spec<P: ParseLine>(p: P, lines: Seq<Seq<char>>, i: int) -> Result<
    Seq<(int, CommandModel)>,
    Seq<char>,
>
    decreases lines.len() - i,
{
    if i < 0 || i >= lines.len() {
        Ok(Seq::empty())
    } else {
        match p.parse_spec(lines[i]) {
            None => process_spec(p, lines, i + 1),
            Some(Ok(c)) => match process_spec(p, lines, i + 1) {
                Ok(rest) => Ok(seq![(i, c)] + rest),
                Err(e) => Err(e),
            },
            Some(Err(m)) => Err(line_err_msg(i as nat, m)),
        }
    }
}

impl<'a> Source<'a> {
    /// Split the `source` into lines.
    pub fn from_str(source: &'a str) -> (r: Source<'a>)
        ensures
            r@ == lines_of(source@),
    {
        Source(split_lines(source))
    }

    /// Process the [`Source`] using `parser`, see [`ParseLine`], to parse
    /// each line. Returns the recognized commands with their line indices,
    /// or the error message for the first malformed line.
    pub fn process<T: ParseLine>(&self, parser: &T) -> (r: Result<PreprocessPoints<'a>, String>)
        ensures
            match r {
                Ok(pp) => process_spec(*parser, self@, 0) == Ok::<_, Seq<char>>(pp@),
                Err(e) => process_spec(*parser, self@, 0) == Err::<Seq<(int, CommandModel)>, _>(
                    e@,
                ),
            },
    {
        let mut pp = PreprocessPoints::new();
        let n = self.0.len();
        let mut i: usize = 0;
        proof {
            assert(self@.len() == n);
        }
        while i < n
            invariant
                0 <= i <= n,
                n == self.0.len(),
                self@.len() == n,
                self@ == self.0.deep_view(),
                match process_spec(*parser, self@, i as int) {
                    Ok(rest) => process_spec(*parser, self@, 0) == Ok::<_, Seq<char>>(pp@ + rest),
                    Err(e) => process_spec(*parser, self@, 0) == Err::<
                        Seq<(int, CommandModel)>,
                        _,
                    >(e),
                },
            decreases n - i,
        {
            let line: &'a str = self.0[i];
            proof {
                assert(line@ == self@[i as int]);
            }
            match parser.parse_line(line) {
                None => {},
                Some(Ok(com)) => {
                    let ghost old_pp = pp@;
                    pp.push(i, com);
                    proof {
                        let rest1 = match process_spec(*parser, self@, i as int + 1) {
                            Ok(rest) => rest,
                            Err(_) => Seq::empty(),
                        };
                        if process_spec(*parser, self@, i as int + 1) is Ok {
                            assert(old_pp + (seq![(i as int, com@)] + rest1) =~= (old_pp.push(
                                (i as int, com@),
                            )) + rest1);
                        }
                    }
                },
                Some(Err(s)) => {
                    let mut msg = String::from_str("line ");
                    let num = fmt_usize(i);
                    msg.append(num.as_str());
                    msg.append(": ");
                    msg.append(s.as_str());
                    proof {
                        assert(msg@ == line_err_msg(i as nat, s@));
                    }
                    return Err(msg);
                },
            }
            i = i + 1;
        }
        proof {
            assert(pp@ + Seq::<(int, CommandModel)>::empty() =~= pp@);
        }
        Ok(pp)
    }
}

/// Parsed include point.
#[derive(Debug)]
pub enum IncludePoint<'a> {
    /// A local include directive, with line number and file name to be included.
    Local(usize, &'a str),
    /// A global include directive, with line number and file name to be included.
    Global(usize, &'a str),
}

/// Specification-level value of an [`IncludePoint`].
pub enum PointModel {
    Local(int, Seq<char>),
    Global(int, Seq<char>),
}

impl<'a> View for IncludePoint<'a> {
    type V = PointModel;

    open spec fn view(&self) -> PointModel {
        match self {
            IncludePoint::Local(i, f) => PointModel::Local(*i as int, f@),
            IncludePoint::Global(i, f) => PointModel::Global(*i as int, f@),
        }
    }
}

impl<'a> DeepView for IncludePoint<'a> {
    type V = PointModel;

    open spec fn deep_view(&self) -> PointModel {
        self.view()
    }
}

impl<'a> PartialEq for IncludePoint<'a> {
    fn eq(&self, other: &IncludePoint<'a>) -> (r: bool) {
        match (self, other) {
            (IncludePoint::Local(i, f), IncludePoint::Local(j, g)) => *i == *j && str_eq(f, g),
            (IncludePoint::Global(i, f), IncludePoint::Global(j, g)) => *i == *j && str_eq(f, g),
            _ => false,
        }
    }
}

impl<'a> vstd::std_specs::cmp::PartialEqSpecImpl for IncludePoint<'a> {
    open spec fn obeys_eq_spec() -> bool {
        true
    }

    open spec fn eq_spec(&self, other: &IncludePoint<'a>) -> bool {
        match (self, other) {
            (IncludePoint::Local(i, f), IncludePoint::Local(j, g)) => i == j && f@ == g@,
            (IncludePoint::Global(i, f), IncludePoint::Global(j, g)) => i == j && f@ == g@,
            _ => false,
        }
    }
}

impl<'a> Eq for IncludePoint<'a> {

}

/// The include points corresponding to a list of recognized commands.
pub open spec fn include_points_of(cmds: Seq<(int, CommandModel)>) -> Seq<PointModel> {
    cmds.map_values(
        |t: (int, CommandModel)|
            match t.1 {
                CommandModel::Include(f) => PointModel::Global(t.0, f),
                CommandModel::IncludeLocal(f) => PointModel::Local(t.0, f),
            },
    )
}

/// A wrapper around a vector containing preprocess commands and at what line
/// number each command was called from.
#[derive(Debug)]
pub struct PreprocessPoints<'a>(Vec<(usize, PreprocCommand<'a>)>);

impl<'a> View for PreprocessPoints<'a> {
    type V = Seq<(int, CommandModel)>;

    closed spec fn view(&self) -> Seq<(int, CommandModel)> {
        Seq::new(self.0@.len(), |k: int| (self.0@[k].0 as int, self.0@[k].1@))
    }
}

impl<'a> PreprocessPoints<'a> {
    /// Initializes the struct.
    pub fn new() -> (r: PreprocessPoints<'a>)
        ensures
            r@ == Seq::<(int, CommandModel)>::empty(),
    {
        let r = PreprocessPoints(Vec::new());
        proof {
            assert(r@ =~= Seq::<(int, CommandModel)>::empty());
        }
        r
    }

    /// Add a command and at what line number it was called.
    pub fn push(&mut self, i: usize, com: PreprocCommand<'a>)
        ensures
            final(self)@ == old(self)@.push((i as int, com@)),
    {
        self.0.push((i, com));
        proof {
            assert(self@ =~= old(self)@.push((i as int, com@)));
        }
    }

    /// Extract only the [`IncludePoint`]s.
    pub fn get_include_points(&self) -> (r: Vec<IncludePoint<'a>>)
        ensures
            r.deep_view() == include_points_of(self@),
    {
        let mut r: Vec<IncludePoint<'a>> = Vec::new();
        let n = self.0.len();
        let mut i: usize = 0;
        while i < n
            invariant
                0 <= i <= n,
                n == self.0.len(),
                r.deep_view() == include_points_of(self@.subrange(0, i as int)),
            decreases n - i,
        {
            let (linenr, command) = self.0[i];
            let p = match command {
                PreprocCommand::Include(filename) => IncludePoint::Global(linenr, filename),
                PreprocCommand::IncludeLocal(filename) => IncludePoint::Local(linenr, filename),
            };
            let ghost old_r = r.deep_view();
            r.push(p);
            proof {
                assert(r.deep_view() =~= old_r.push(p@));
                assert(self@.subrange(0, i as int).push(self@[i as int]) =~= self@.subrange(
                    0,
                    i as int + 1,
                ));
                assert(r.deep_view() =~= include_points_of(self@.subrange(0, i as int + 1)));
            }
            i = i + 1;
        }
        proof {
            assert(self@.subrange(0, n as int) =~= self@);
        }
        r
    }
}

} // verus!

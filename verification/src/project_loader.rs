//! The compilation-database side of project loading: the entry format, and
//! the pure logic that turns one database entry into a compilation-unit
//! specification — command-line splitting and compiler-argument filtering.
//! Reading the database file and parsing its serialized form stay with the
//! caller; this module works on plain values.

use vstd::prelude::*;
use core::mem;
use vstd::string::StrSliceExecFns;
use vstd::string::StringExecFns;
use crate::text::{ends_with, ends_with_seq, starts_with, starts_with_seq, str_eq};

verus! {

/// One entry of a compilation database: the working directory, the source
/// file (relative to the directory, or absolute), and the compile command in
/// one of two shapes.
#[derive(Debug)]
pub struct CompileCommandEntry {
    pub directory: String,
    pub file: String,
    pub command: String,
    pub arguments: Vec<String>,
}

/// One compilation unit: a source path and the compiler arguments to parse
/// it with.
#[derive(Debug)]
pub struct UnitSpec {
    pub source: String,
    pub args: Vec<String>,
}

/// A loaded project: its root and its compilation units.
#[derive(Debug)]
pub struct CProject {
    pub root: String,
    pub units: Vec<UnitSpec>,
}

// ---------------------------------------------------------------------------
// Command-line splitting.
// ---------------------------------------------------------------------------

/// The splitter state after some prefix: finished words, the word being
/// accumulated, and whether a single or double quote is open.
pub open spec fn shlex_step(
    st: (Seq<Seq<char>>, Seq<char>, bool, bool),
    c: char,
) -> (Seq<Seq<char>>, Seq<char>, bool, bool) {
    let (args, cur, in_single, in_double) = st;
    if c == '\'' && !in_double {
        (args, cur, !in_single, in_double)
    } else if c == '"' && !in_single {
        (args, cur, in_single, !in_double)
    } else if (c == ' ' || c == '\t') && !in_single && !in_double {
        if cur.len() > 0 {
            (args.push(cur), Seq::empty(), in_single, in_double)
        } else {
            (args, cur, in_single, in_double)
        }
    } else {
        (args, cur.push(c), in_single, in_double)
    }
}

pub open spec fn shlex_run(s: Seq<char>) -> (Seq<Seq<char>>, Seq<char>, bool, bool)
    decreases s.len(),
{
    if s.len() == 0 {
        (Seq::empty(), Seq::empty(), false, false)
    } else {
        shlex_step(shlex_run(s.drop_last()), s.last())
    }
}

/// The words of a command line, split on unquoted blanks; quotes group but
/// are not kept.
pub open spec fn spec_shlex(s: Seq<char>) -> Seq<Seq<char>> {
    let (args, cur, _, _) = shlex_run(s);
    if cur.len() > 0 {
        args.push(cur)
    } else {
        args
    }
}

/// Splits a command line into words. Single and double quotes group their
/// content; an unmatched quote simply extends to the end of the line.
pub fn shlex_split(cmd: &str) -> (r: Vec<String>)
    ensures
        r.deep_view() == spec_shlex(cmd@),
{
    let n = cmd.unicode_len();
    let mut args: Vec<String> = Vec::new();
    let mut current = String::new();
    let mut in_single = false;
    let mut in_double = false;
    let mut i: usize = 0;
    proof {
        assert(cmd@.take(0) =~= Seq::<char>::empty());
        assert(args.deep_view() =~= shlex_run(cmd@.take(0)).0);
        assert(current@ =~= shlex_run(cmd@.take(0)).1);
    }
    while i < n
        invariant
            i <= n,
            n == cmd@.len(),
            args.deep_view() == shlex_run(cmd@.take(i as int)).0,
            current@ == shlex_run(cmd@.take(i as int)).1,
            in_single == shlex_run(cmd@.take(i as int)).2,
            in_double == shlex_run(cmd@.take(i as int)).3,
        decreases n - i,
    {
        let c = cmd.get_char(i);
        let ghost pre = (args.deep_view(), current@, in_single, in_double);
        if c == '\'' && !in_double {
            in_single = !in_single;
        } else if c == '"' && !in_single {
            in_double = !in_double;
        } else if (c == ' ' || c == '\t') && !in_single && !in_double {
            if !current.as_str().is_empty() {
                let mut w = String::new();
                mem::swap(&mut w, &mut current);
                args.push(w);
            }
        } else {
            push_char_of(&mut current, cmd, i);
        }
        proof {
            assert(cmd@.take(i + 1).drop_last() =~= cmd@.take(i as int));
            assert(cmd@.take(i + 1).last() == cmd@[i as int]);
            assert(args.deep_view() =~= shlex_step(pre, c).0);
            assert(current@ =~= shlex_step(pre, c).1);
            assert(in_single == shlex_step(pre, c).2);
            assert(in_double == shlex_step(pre, c).3);
        }
        i += 1;
    }
    proof {
        assert(cmd@.take(n as int) =~= cmd@);
    }
    if !current.as_str().is_empty() {
        args.push(current);
        proof {
            assert(args.deep_view() =~= spec_shlex(cmd@));
        }
        args
    } else {
        proof {
            assert(args.deep_view() =~= spec_shlex(cmd@));
        }
        args
    }
}

/// Appends character `i` of `src` to `s`.
fn push_char_of(s: &mut String, src: &str, i: usize)
    requires
        i < src@.len(),
        src@.len() <= usize::MAX,
    ensures
        final(s)@ == old(s)@ + seq![src@[i as int]],
{
    let piece = src.substring_char(i, i + 1);
    s.append(piece);
    proof {
        assert(piece@ =~= seq![src@[i as int]]);
    }
}

// ---------------------------------------------------------------------------
// Compiler-argument filtering.
// ---------------------------------------------------------------------------

/// The preprocessor's file-inclusion option, spelled out character by
/// character: a dash followed by the letters i, n, c, l, u, d, e.
pub open spec fn is_inclusion_option(a: Seq<char>) -> bool {
    a == seq!['-', 'i', 'n', 'c', 'l', 'u', 'd', 'e']
}

/// Recognizes the file-inclusion option.
pub fn is_inclusion_option_token(a: &str) -> (r: bool)
    ensures
        r == is_inclusion_option(a@),
{
    let n = a.unicode_len();
    if n != 8 {
        proof {
            assert(seq!['-', 'i', 'n', 'c', 'l', 'u', 'd', 'e'].len() == 8);
        }
        return false;
    }
    let ok = a.get_char(0) == '-' && a.get_char(1) == 'i' && a.get_char(2) == 'n' && a.get_char(3)
        == 'c' && a.get_char(4) == 'l' && a.get_char(5) == 'u' && a.get_char(6) == 'd'
        && a.get_char(7) == 'e';
    proof {
        let w = seq!['-', 'i', 'n', 'c', 'l', 'u', 'd', 'e'];
        if ok {
            assert(a@ =~= w);
        } else {
            if a@ == w {
                assert(a@[0] == '-' && a@[1] == 'i' && a@[2] == 'n' && a@[3] == 'c' && a@[4] == 'l'
                    && a@[5] == 'u' && a@[6] == 'd' && a@[7] == 'e');
            }
        }
    }
    ok
}

/// The filtered argument list from position `i` on; `skip` drops the next
/// argument (it belongs to an option already handled).
pub open spec fn spec_filter_from(args: Seq<Seq<char>>, i: int, skip: bool) -> Seq<Seq<char>>
    decreases args.len() - i when 0 <= i <= args.len()
{
    if i >= args.len() {
        Seq::empty()
    } else if skip {
        spec_filter_from(args, i + 1, false)
    } else {
        let a = args[i];
        if a == "-c"@ || a == "-o"@ {
            spec_filter_from(args, i + 1, true)
        } else if ends_with_seq(a, ".c"@) || ends_with_seq(a, ".o"@) {
            spec_filter_from(args, i + 1, false)
        } else if (a == "-isystem"@ || is_inclusion_option(a)) && i + 1 < args.len() {
            seq![a, args[i + 1]] + spec_filter_from(args, i + 2, false)
        } else {
            seq![a] + spec_filter_from(args, i + 1, false)
        }
    }
}

/// The compiler arguments kept for the parser: source and output options
/// are dropped together with their value tokens, while the system
/// search-path and file-inclusion options keep their following value token
/// with them; anything else passes through.
pub open spec fn spec_filter_args(args: Seq<Seq<char>>) -> Seq<Seq<char>> {
    spec_filter_from(args, 0, false)
}

/// Filters a compile command's arguments down to what the parser needs.
pub fn filter_compiler_args(args: &Vec<String>) -> (r: Vec<String>)
    ensures
        r.deep_view() == spec_filter_args(args.deep_view()),
{
    let n = args.len();
    let mut out: Vec<String> = Vec::new();
    let mut skip_next = false;
    let mut i: usize = 0;
    proof {
        assert(out.deep_view() + spec_filter_from(args.deep_view(), 0, false) =~~= spec_filter_args(
            args.deep_view(),
        ));
    }
    while i < n
        invariant
            i <= n,
            n == args@.len(),
            out.deep_view() + spec_filter_from(args.deep_view(), i as int, skip_next)
                =~~= spec_filter_args(args.deep_view()),
        decreases n - i,
    {
        let ghost pre = out.deep_view();
        let a = &args[i];
        proof {
            assert(args.deep_view()[i as int] == args@[i as int]@);
        }
        if skip_next {
            skip_next = false;
        } else if str_eq(a.as_str(), "-c") || str_eq(a.as_str(), "-o") {
            skip_next = true;
        } else if ends_with(a.as_str(), ".c") || ends_with(a.as_str(), ".o") {
            // a source or object name: dropped
        } else if (str_eq(a.as_str(), "-isystem") || is_inclusion_option_token(a.as_str())) && i
            + 1 < n {
            out.push(a.clone());
            out.push(args[i + 1].clone());
            skip_next = true;
            proof {
                assert(out.deep_view() =~~= pre + seq![args@[i as int]@, args@[i + 1]@]);
            }
        } else {
            out.push(a.clone());
            proof {
                assert(out.deep_view() =~~= pre.push(args@[i as int]@));
            }
        }
        proof {
            assert(out.deep_view() + spec_filter_from(args.deep_view(), i + 1, skip_next)
                =~~= spec_filter_args(args.deep_view()));
        }
        i += 1;
    }
    out
}

// ---------------------------------------------------------------------------
// From a database entry to a unit specification.
// ---------------------------------------------------------------------------

/// The normalized source path of an entry: kept as given when absolute,
/// otherwise joined onto the working directory.
pub open spec fn spec_entry_source(directory: Seq<char>, file: Seq<char>) -> Seq<char> {
    if starts_with_seq(file, "/"@) {
        file
    } else {
        directory + "/"@ + file
    }
}

/// Normalizes an entry's source path.
pub fn entry_source_path(directory: &str, file: &str) -> (r: String)
    ensures
        r@ == spec_entry_source(directory@, file@),
{
    if starts_with(file, "/") {
        file.to_owned()
    } else {
        let mut s = String::new();
        s.append(directory);
        s.append("/");
        s.append(file);
        s
    }
}

/// The argument list a unit gets: the `arguments` array when present, else
/// the split `command`, else nothing — filtered either way.
pub open spec fn spec_unit_args(e: CompileCommandEntry) -> Seq<Seq<char>> {
    if e.arguments@.len() > 0 {
        spec_filter_args(e.arguments.deep_view())
    } else if e.command@.len() > 0 {
        spec_filter_args(spec_shlex(e.command@))
    } else {
        Seq::empty()
    }
}

impl CompileCommandEntry {
    /// Builds the compilation-unit specification of one database entry:
    /// normalized source path and filtered compiler arguments.
    pub fn to_unit_spec(&self) -> (r: UnitSpec)
        ensures
            r.source@ == spec_entry_source(self.directory@, self.file@),
            r.args.deep_view() == spec_unit_args(*self),
    {
        let source = entry_source_path(self.directory.as_str(), self.file.as_str());
        let args = if self.arguments.len() > 0 {
            filter_compiler_args(&self.arguments)
        } else if !self.command.as_str().is_empty() {
            let words = shlex_split(self.command.as_str());
            filter_compiler_args(&words)
        } else {
            Vec::new()
        };
        proof {
            if self.arguments@.len() == 0 && self.command@.len() == 0 {
                assert(args.deep_view() =~~= spec_unit_args(*self));
            }
        }
        UnitSpec { source, args }
    }
}

} // verus!

//! The configuration of a run: where the bytes come from, where they go,
//! and whether they are compressed.

use vstd::prelude::*;
use crate::codec::CompressionLevel;
use crate::codec::DEFAULT_LEVEL;
use crate::error::ErrorKind;

verus! {

/// `c` is white space: a character with the Unicode property White_Space.
pub open spec fn is_space(c: char) -> bool {
    let n = c as u32;
    ||| 0x09 <= n <= 0x0D
    ||| n == 0x20
    ||| n == 0x85
    ||| n == 0xA0
    ||| n == 0x1680
    ||| 0x2000 <= n <= 0x200A
    ||| n == 0x2028
    ||| n == 0x2029
    ||| n == 0x202F
    ||| n == 0x205F
    ||| n == 0x3000
}

/// The number of characters of `s` before its first white space: all of
/// them where it holds none.
pub open spec fn word_length(s: Seq<char>) -> nat
    decreases s.len(),
{
    if s.len() == 0 || is_space(s[0]) {
        0
    } else {
        1 + word_length(s.drop_first())
    }
}

/// The words of `s`: its longest runs of characters that are not white
/// space, in their order.
pub open spec fn words(s: Seq<char>) -> Seq<Seq<char>>
    decreases s.len(),
    via words_decreases
{
    if s.len() == 0 {
        Seq::empty()
    } else if is_space(s[0]) {
        words(s.drop_first())
    } else {
        let n = word_length(s) as int;
        seq![s.take(n)] + words(s.skip(n))
    }
}

/// The texts of a list of strings.
pub open spec fn texts(v: Seq<String>) -> Seq<Seq<char>> {
    v.map_values(|s: String| s@)
}

/// A word ends at the first white space and nowhere before it.
pub proof fn lemma_word_length(s: Seq<char>)
    ensures
        word_length(s) <= s.len(),
        forall|i: int| 0 <= i < word_length(s) ==> !is_space(s[i]),
        word_length(s) < s.len() ==> is_space(s[word_length(s) as int]),
    decreases s.len(),
{
    if s.len() == 0 || is_space(s[0]) {
    } else {
        let t = s.drop_first();
        lemma_word_length(t);
        assert forall|i: int| 0 <= i < word_length(s) implies !is_space(s[i]) by {
            if i > 0 {
                assert(s[i] == t[i - 1]);
            }
        }
        if word_length(s) < s.len() {
            assert(s[word_length(s) as int] == t[word_length(t) as int]);
        }
    }
}

/// A position with white space, or the end, and no white space before it is
/// where the word ends.
pub proof fn lemma_word_length_is(s: Seq<char>, n: int)
    requires
        0 <= n <= s.len(),
        forall|i: int| 0 <= i < n ==> !is_space(s[i]),
        n < s.len() ==> is_space(s[n]),
    ensures
        word_length(s) == n,
    decreases s.len(),
{
    if s.len() == 0 || is_space(s[0]) {
    } else {
        let t = s.drop_first();
        assert forall|i: int| 0 <= i < n - 1 implies !is_space(t[i]) by {
            assert(t[i] == s[i + 1]);
        }
        lemma_word_length_is(t, n - 1);
    }
}

#[via_fn]
proof fn words_decreases(s: Seq<char>) {
    lemma_word_length(s);
}

/// Every word holds a character, and none that is white space.
pub proof fn lemma_words_are_words(s: Seq<char>)
    ensures
        forall|k: int| 0 <= k < words(s).len() ==> (#[trigger] words(s)[k]).len() > 0,
        forall|k: int, i: int|
            0 <= k < words(s).len() && 0 <= i < words(s)[k].len() ==> !is_space(
                #[trigger] words(s)[k][i],
            ),
    decreases s.len(),
{
    if s.len() == 0 {
        assert(words(s).len() == 0);
    } else if is_space(s[0]) {
        lemma_words_are_words(s.drop_first());
        assert(words(s) == words(s.drop_first()));
    } else {
        let n = word_length(s) as int;
        let rest = words(s.skip(n));
        lemma_word_length(s);
        lemma_words_are_words(s.skip(n));
        assert(words(s) == seq![s.take(n)] + rest);
        assert forall|k: int| 0 <= k < words(s).len() implies (#[trigger] words(s)[k]).len()
            > 0 by {
            if k > 0 {
                assert(words(s)[k] == rest[k - 1]);
            }
        }
        assert forall|k: int, i: int|
            0 <= k < words(s).len() && 0 <= i < words(s)[k].len() implies !is_space(
            #[trigger] words(s)[k][i],
        ) by {
            if k > 0 {
                assert(words(s)[k] == rest[k - 1]);
                assert(!is_space(rest[k - 1][i]));
            } else {
                assert(words(s)[0][i] == s[i]);
            }
        }
    }
}

/// Whether `c` is white space.
pub fn is_whitespace(c: char) -> (space: bool)
    ensures
        space == is_space(c),
{
    let n = c as u32;
    (0x09 <= n && n <= 0x0D) || n == 0x20 || n == 0x85 || n == 0xA0 || n == 0x1680 || (0x2000 <= n
        && n <= 0x200A) || n == 0x2028 || n == 0x2029 || n == 0x202F || n == 0x205F || n
        == 0x3000
}

/// Cuts a command at its white space into words.
pub fn split_command(command: &str) -> (result: Vec<String>)
    ensures
        texts(result@) == words(command@),
{
    let n = command.unicode_len();
    let mut result: Vec<String> = Vec::new();
    let mut i: usize = 0;
    proof {
        assert(command@.skip(0) =~= command@);
        assert(texts(result@) + words(command@) =~= words(command@));
    }
    while i < n
        invariant
            n == command@.len(),
            i <= n,
            texts(result@) + words(command@.skip(i as int)) == words(command@),
        decreases n - i,
    {
        let ghost rest = command@.skip(i as int);
        let ghost before = texts(result@);
        if is_whitespace(command.get_char(i)) {
            proof {
                assert(rest.drop_first() =~= command@.skip(i + 1));
            }
            i += 1;
        } else {
            let start = i;
            while i < n && !is_whitespace(command.get_char(i))
                invariant
                    n == command@.len(),
                    start <= i <= n,
                    forall|k: int| start <= k < i ==> !is_space(command@[k]),
                decreases n - i,
            {
                i += 1;
            }
            let word = command.substring_char(start, i).to_owned();
            result.push(word);
            proof {
                let len = i - start;
                assert forall|k: int| 0 <= k < len implies !is_space(rest[k]) by {
                    assert(rest[k] == command@[start + k]);
                }
                lemma_word_length_is(rest, len);
                assert(rest.take(len) =~= command@.subrange(start as int, i as int));
                assert(rest.skip(len) =~= command@.skip(i as int));
                assert(texts(result@) =~= before.push(rest.take(len)));
                assert(before.push(rest.take(len)) + words(rest.skip(len)) =~= before + (
                seq![rest.take(len)] + words(rest.skip(len))));
            }
        }
    }
    proof {
        assert(command@.skip(n as int) =~= Seq::<char>::empty());
        assert(texts(result@) + Seq::<Seq<char>>::empty() =~= texts(result@));
    }
    result
}

/// A command to start: the program and what it is given.
#[derive(Debug)]
pub struct CommandLine {
    /// The name of the program.
    pub program: String,
    /// The arguments, in their order.
    pub arguments: Vec<String>,
}

impl CommandLine {
    /// The words of the command line: the program, then the arguments.
    pub open spec fn tokens(&self) -> Seq<Seq<char>> {
        seq![self.program@] + texts(self.arguments@)
    }
}

/// Reads a command: its first word is the program, the others are the
/// arguments. A command without a word is not one.
pub fn parse_command(command: &str) -> (result: Result<CommandLine, ErrorKind>)
    ensures
        match result {
            Ok(line) => {
                &&& words(command@).len() > 0
                &&& line.tokens() == words(command@)
                &&& line.program@.len() > 0
                &&& forall|i: int| 0 <= i < line.program@.len() ==> !is_space(line.program@[i])
            },
            Err(e) => e == ErrorKind::Configuration && words(command@).len() == 0,
        },
{
    let mut tokens = split_command(command);
    proof {
        lemma_words_are_words(command@);
    }
    if tokens.len() == 0 {
        return Err(ErrorKind::Configuration);
    }
    let ghost all = texts(tokens@);
    let program = tokens.remove(0);
    proof {
        assert(seq![program@] + texts(tokens@) =~= all);
        assert(program@ == words(command@)[0]);
        assert forall|i: int| 0 <= i < program@.len() implies !is_space(program@[i]) by {
            assert(!is_space(words(command@)[0][i]));
        }
    }
    Ok(CommandLine { program, arguments: tokens })
}

/// Where the bytes come from.
#[derive(Debug)]
pub enum Source {
    /// From the standard input of this process.
    StandardInput,
    /// From the standard output of a child process started for the run.
    ChildStdout(CommandLine),
}

impl Source {
    /// The source for a command, or for none.
    pub open spec fn matches_command(&self, command: Option<Seq<char>>) -> bool {
        match (*self, command) {
            (Source::StandardInput, None) => true,
            (Source::ChildStdout(line), Some(text)) => words(text).len() > 0 && line.tokens()
                == words(text),
            _ => false,
        }
    }

    /// Whether the source needs a child process.
    pub fn has_child(&self) -> (child: bool)
        ensures
            child == (self is ChildStdout),
    {
        match self {
            Source::StandardInput => false,
            Source::ChildStdout(_) => true,
        }
    }
}

/// The level that a compression option asks for: what the option names, or
/// 6 where it names nothing.
pub open spec fn level_wanted(option: Option<i64>) -> int {
    match option {
        Some(level) => level as int,
        None => DEFAULT_LEVEL as int,
    }
}

/// Reads the compression option: absent, given without a level, or given
/// with one. A level outside 1 to 9 is refused.
pub fn select_compression(option: Option<Option<i64>>) -> (result: Result<
    Option<CompressionLevel>,
    ErrorKind,
>)
    ensures
        match result {
            Ok(None) => option is None,
            Ok(Some(level)) => 1 <= level.level() <= 9 && (option matches Some(wanted)
                && level.level() == level_wanted(wanted)),
            Err(e) => e == ErrorKind::Configuration && (option matches Some(Some(wanted)) && !(1
                <= wanted <= 9)),
        },
{
    match option {
        None => Ok(None),
        Some(None) => Ok(Some(CompressionLevel::default())),
        Some(Some(wanted)) => match CompressionLevel::new(wanted) {
            Ok(level) => Ok(Some(level)),
            Err(e) => Err(e),
        },
    }
}

/// A configuration that a run can start from.
#[derive(Debug)]
pub struct Configuration {
    /// Where the bytes come from.
    pub source: Source,
    /// The path of the destination file.
    pub destination: String,
    /// The compression level, where the output is to be compressed.
    pub compression: Option<CompressionLevel>,
}

/// The options are usable: there is a destination, the command, if there is
/// one, has a word, and the level, if there is one, lies between 1 and 9.
pub open spec fn usable(
    command: Option<Seq<char>>,
    destination: Option<Seq<char>>,
    compression: Option<Option<i64>>,
) -> bool {
    &&& destination is Some
    &&& command matches Some(text) ==> words(text).len() > 0
    &&& compression matches Some(Some(level)) ==> 1 <= level <= 9
}

/// The text of a string, if there is one.
pub open spec fn text_of(s: Option<&str>) -> Option<Seq<char>> {
    match s {
        Some(text) => Some(text@),
        None => None,
    }
}

impl Configuration {
    /// Checks the options of a run and puts them together.
    pub fn new(command: Option<&str>, destination: Option<&str>, compression: Option<Option<i64>>) -> (result: Result<Configuration, ErrorKind>)
        ensures
            match result {
                Ok(configuration) => {
                    &&& usable(text_of(command), text_of(destination), compression)
                    &&& configuration.source.matches_command(text_of(command))
                    &&& Some(configuration.destination@) == text_of(destination)
                    &&& match (compression, configuration.compression) {
                        (None, None) => true,
                        (Some(wanted), Some(level)) => level.level() == level_wanted(wanted),
                        _ => false,
                    }
                },
                Err(e) => e == ErrorKind::Configuration && !usable(
                    text_of(command),
                    text_of(destination),
                    compression,
                ),
            },
    {
        let path = match destination {
            Some(path) => path.to_owned(),
            None => {
                return Err(ErrorKind::Configuration);
            },
        };
        let source = match command {
            Some(text) => match parse_command(text) {
                Ok(line) => Source::ChildStdout(line),
                Err(e) => {
                    return Err(e);
                },
            },
            None => Source::StandardInput,
        };
        match select_compression(compression) {
            Ok(level) => Ok(Configuration { source, destination: path, compression: level }),
            Err(e) => Err(e),
        }
    }
}

} // verus!

//! Finding the evaluation bundle.

use vstd::prelude::*;

use super::digest;
use super::digest::md5_file;
use crate::text;
use crate::text::{chars_of, is_text, text_of, trim};
use crate::text_laws;

verus! {

/// What the helper is asked to do.
#[derive(Debug, Clone, Copy, PartialEq, Eq)]
pub enum Command {
    /// Take the consumed files out of a bundle.
    Setup,
    /// Write the lock file anew.
    Relock,
    /// Nothing that it knows.
    Usage,
}

/// What the first argument of the helper asks for.
pub fn parse_command(first: Option<&str>) -> (command: Command)
    ensures
        command == match first {
            Some(s) => if s@ == "setup-segger"@ {
                Command::Setup
            } else if s@ == "relock-segger"@ {
                Command::Relock
            } else {
                Command::Usage
            },
            None => Command::Usage,
        },
{
    match first {
        Some(s) => {
            let chars: Vec<char> = chars_of(s);
            if is_text(chars.as_slice(), "setup-segger") {
                Command::Setup
            } else if is_text(chars.as_slice(), "relock-segger") {
                Command::Relock
            } else {
                Command::Usage
            }
        },
        None => Command::Usage,
    }
}

/// Where the path of the bundle comes from.
pub enum ZipChoice {
    /// It was given with `--zip`.
    Given(String),
    /// `--zip` was given without a path.
    MissingPath,
    /// The environment names it.
    FromEnvironment,
    /// The user is to be asked.
    Ask,
    /// Nobody can say.
    NotGiven,
}

/// How many arguments come before the first `--zip`; all of them where there is none.
pub open spec fn before_flag(args: Seq<String>) -> nat
    decreases args.len(),
{
    if args.len() == 0 || args[0]@ == "--zip"@ {
        0
    } else {
        before_flag(args.skip(1)) + 1
    }
}

/// Where the path of the bundle comes from: `--zip`, else the environment, else a prompt
/// where there is someone to answer it.
pub open spec fn is_choice(
    args: Seq<String>,
    in_environment: bool,
    interactive: bool,
    choice: ZipChoice,
) -> bool {
    let n = before_flag(args) as int;
    if n + 1 < args.len() {
        choice matches ZipChoice::Given(path) && path@ == args[n + 1]@
    } else if n < args.len() {
        choice is MissingPath
    } else if in_environment {
        choice is FromEnvironment
    } else if interactive {
        choice is Ask
    } else {
        choice is NotGiven
    }
}

/// Decide where the path of the bundle comes from.
pub fn resolve_zip(args: &Vec<String>, in_environment: bool, interactive: bool) -> (choice:
    ZipChoice)
    ensures
        is_choice(args@, in_environment, interactive, choice),
{
    let mut i: usize = 0;
    assert(args@.skip(0) =~= args@);
    while i < args.len()
        invariant
            i <= args@.len(),
            before_flag(args@) == i + before_flag(args@.skip(i as int)),
        decreases args@.len() - i,
    {
        let chars: Vec<char> = chars_of(args[i].as_str());
        assert(args@.skip(i as int)[0] == args@[i as int]);
        assert(args@.skip(i as int).skip(1) =~= args@.skip(i + 1));
        if is_text(chars.as_slice(), "--zip") {
            if args.len() - i > 1 {
                return ZipChoice::Given(args[i + 1].clone());
            }
            return ZipChoice::MissingPath;
        }
        i = i + 1;
    }
    if in_environment {
        ZipChoice::FromEnvironment
    } else if interactive {
        ZipChoice::Ask
    } else {
        ZipChoice::NotGiven
    }
}

/// A quotation mark.
pub open spec fn is_quote(c: char) -> bool {
    c == '"' || c == '\''
}

/// A text without the quotation marks that it begins with.
pub open spec fn unquote_start(s: Seq<char>) -> Seq<char>
    decreases s.len(),
{
    if s.len() > 0 && is_quote(s[0]) {
        unquote_start(s.skip(1))
    } else {
        s
    }
}

/// A text without the quotation marks that it ends with.
pub open spec fn unquote_end(s: Seq<char>) -> Seq<char>
    decreases s.len(),
{
    if s.len() > 0 && is_quote(s.last()) {
        unquote_end(s.drop_last())
    } else {
        s
    }
}

/// The path in a line that the user entered: without white space around it, and without
/// quotation marks around that.
pub open spec fn path_in(line: Seq<char>) -> Seq<char> {
    unquote_end(unquote_start(text::trimmed(line)))
}

/// The path in a line that the user entered; nothing if there is none.
pub fn entered_path(line: &str) -> (path: Option<String>)
    ensures
        match path {
            Some(p) => p@ == path_in(line@) && p@.len() > 0,
            None => path_in(line@).len() == 0,
        },
{
    let chars: Vec<char> = chars_of(line);
    let s: &[char] = trim(chars.as_slice());
    let mut start: usize = 0;
    assert(s@.skip(0) =~= s@);
    while start < s.len() && (s[start] == '"' || s[start] == '\'')
        invariant
            start <= s@.len(),
            unquote_start(s@) == unquote_start(s@.skip(start as int)),
        decreases s@.len() - start,
    {
        assert(s@.skip(start as int).skip(1) =~= s@.skip(start + 1));
        start = start + 1;
    }
    assert(unquote_start(s@) == s@.skip(start as int));
    let mut end: usize = s.len();
    assert(s@.subrange(start as int, end as int) =~= s@.skip(start as int));
    while end > start && (s[end - 1] == '"' || s[end - 1] == '\'')
        invariant
            start <= end <= s@.len(),
            path_in(line@) == unquote_end(s@.subrange(start as int, end as int)),
        decreases end,
    {
        assert(s@.subrange(start as int, end as int).drop_last() =~= s@.subrange(
            start as int,
            end - 1,
        ));
        end = end - 1;
    }
    if start == end {
        return None;
    }
    Some(text_of(&s[start..end]))
}

/// Whether a bundle is the one that the firmware is developed against, by the MD5 that
/// its publisher gives.
pub open spec fn is_known_bundle(zip: Seq<u8>) -> bool {
    digest::hex_text(digest::md5_digest(zip)) == "f0cc414564ea198195c44e5f8c09e409"@
}

/// What to say of the MD5 of a bundle. One that differs is most likely a newer release.
pub fn md5_note(zip: &[u8]) -> (note: String)
    ensures
        note@ == if is_known_bundle(zip@) {
            "ZIP MD5 matches SEGGER emPower, Embedded Studio (2023-06-26)."@
        } else {
            "note: ZIP MD5 "@ + digest::hex_text(digest::md5_digest(zip@))
                + " != expected f0cc414564ea198195c44e5f8c09e409.\n      Likely a newer bundle than locked; will verify per file instead."@
        },
{
    let md5: String = md5_file(zip);
    let chars: Vec<char> = chars_of(md5.as_str());
    if is_text(chars.as_slice(), "f0cc414564ea198195c44e5f8c09e409") {
        return "ZIP MD5 matches SEGGER emPower, Embedded Studio (2023-06-26).".to_owned();
    }
    let mut note = "note: ZIP MD5 ".to_owned();
    note.append(md5.as_str());
    note.append(
        " != expected f0cc414564ea198195c44e5f8c09e409.\n      Likely a newer bundle than locked; will verify per file instead.",
    );
    note
}

/// Arguments of which none is `--zip`.
pub open spec fn no_flag(args: Seq<String>) -> bool {
    forall|i: int| 0 <= i < args.len() ==> (#[trigger] args[i])@ != "--zip"@
}

proof fn lemma_before_flag(args: Seq<String>, rest: Seq<String>)
    requires
        no_flag(args),
        rest.len() > 0 ==> rest[0]@ == "--zip"@,
    ensures
        before_flag(args + rest) == args.len(),
    decreases args.len(),
{
    if args.len() == 0 {
        assert(args + rest =~= rest);
    } else {
        assert(args[0]@ != "--zip"@);
        let front = args.skip(1);
        assert forall|i: int| 0 <= i < front.len() implies (#[trigger] front[i])@ != "--zip"@ by {
            assert(args[i + 1]@ != "--zip"@);
        }
        assert((args + rest).skip(1) =~= front + rest);
        assert((args + rest)[0] == args[0]);
        lemma_before_flag(front, rest);
    }
}

/// The argument behind the first `--zip` is the path of the bundle, wherever it stands and
/// whatever comes behind it.
pub proof fn the_flag_gives_the_path(
    before: Seq<String>,
    flag: String,
    path: String,
    behind: Seq<String>,
    in_environment: bool,
    interactive: bool,
    choice: ZipChoice,
)
    requires
        no_flag(before),
        flag@ == "--zip"@,
        is_choice(before + seq![flag, path] + behind, in_environment, interactive, choice),
    ensures
        choice matches ZipChoice::Given(given) && given@ == path@,
{
    let rest = seq![flag, path] + behind;
    let args = before + seq![flag, path] + behind;
    lemma_before_flag(before, rest);
    assert(args =~= before + rest);
    assert(args[before.len() as int + 1] == path);
}

/// A `--zip` at the end lacks its path. Without any, the environment comes before the user.
pub proof fn without_a_path_others_are_asked(
    before: Seq<String>,
    flag: String,
    in_environment: bool,
    interactive: bool,
    choice: ZipChoice,
)
    requires
        no_flag(before),
        flag@ == "--zip"@,
    ensures
        is_choice(before.push(flag), in_environment, interactive, choice) ==> choice is MissingPath,
        is_choice(before, in_environment, interactive, choice) ==> {
            &&& choice is FromEnvironment <==> in_environment
            &&& choice is Ask <==> !in_environment && interactive
            &&& choice is NotGiven <==> !in_environment && !interactive
        },
{
    lemma_before_flag(before, seq![flag]);
    assert(before.push(flag) =~= before + seq![flag]);
    lemma_before_flag(before, Seq::empty());
    assert(before + Seq::<String>::empty() =~= before);
}

/// A text of quotation marks.
pub open spec fn all_quotes(s: Seq<char>) -> bool {
    forall|i: int| 0 <= i < s.len() ==> #[trigger] s[i] == '"' || s[i] == '\''
}

proof fn lemma_unquote_start(pre: Seq<char>, rest: Seq<char>)
    requires
        all_quotes(pre),
        rest.len() > 0 ==> rest[0] != '"' && rest[0] != '\'',
    ensures
        unquote_start(pre + rest) == rest,
    decreases pre.len(),
{
    if pre.len() == 0 {
        assert(pre + rest =~= rest);
    } else {
        assert((pre + rest).skip(1) =~= pre.skip(1) + rest);
        assert((pre + rest)[0] == pre[0]);
        lemma_unquote_start(pre.skip(1), rest);
    }
}

proof fn lemma_unquote_end(front: Seq<char>, post: Seq<char>)
    requires
        all_quotes(post),
        front.len() > 0 ==> front.last() != '"' && front.last() != '\'',
    ensures
        unquote_end(front + post) == front,
    decreases post.len(),
{
    if post.len() == 0 {
        assert(front + post =~= front);
    } else {
        assert((front + post).drop_last() =~= front + post.drop_last());
        assert((front + post).last() == post.last());
        lemma_unquote_end(front, post.drop_last());
    }
}

/// A path is taken as it was entered, but for the quotation marks around it, and the white
/// space around those.
pub proof fn paths_lose_their_quotes(
    white: Seq<char>,
    open: Seq<char>,
    path: Seq<char>,
    close: Seq<char>,
    more: Seq<char>,
)
    requires
        text_laws::all_white(white),
        text_laws::all_white(more),
        all_quotes(open),
        all_quotes(close),
        path.len() > 0,
        path[0] != '"' && path[0] != '\'' && path.last() != '"' && path.last() != '\'',
        open.len() == 0 ==> !text::is_white(path[0]),
        close.len() == 0 ==> !text::is_white(path.last()),
    ensures
        path_in(white + (open + path + close) + more) == path,
{
    let inner = open + path + close;
    assert(inner[0] == if open.len() > 0 {
        open[0]
    } else {
        path[0]
    });
    assert(inner.last() == if close.len() > 0 {
        close.last()
    } else {
        path.last()
    });
    text_laws::trimming_takes_white_space_away(white, inner, more);
    assert(inner =~= open + (path + close));
    lemma_unquote_start(open, path + close);
    lemma_unquote_end(path, close);
}

/// A line of nothing but white space and quotation marks holds no path.
pub proof fn empty_lines_hold_no_path(white: Seq<char>, quotes: Seq<char>, more: Seq<char>)
    requires
        text_laws::all_white(white),
        text_laws::all_white(more),
        all_quotes(quotes),
    ensures
        path_in(white + quotes + more).len() == 0,
{
    if quotes.len() > 0 {
        assert(quotes[0] == '"' || quotes[0] == '\'');
        assert(quotes.last() == '"' || quotes.last() == '\'');
    }
    text_laws::trimming_takes_white_space_away(white, quotes, more);
    lemma_unquote_start(quotes, Seq::empty());
    assert(quotes + Seq::<char>::empty() =~= quotes);
}

/// The MD5 of the bundle that the firmware is developed against, byte by byte.
pub open spec fn known_md5() -> Seq<u8> {
    seq![
        0xf0u8, 0xcc, 0x41, 0x45, 0x64, 0xea, 0x19, 0x81, 0x95, 0xc4, 0x4e, 0x5f, 0x8c, 0x09, 0xe4,
        0x09,
    ]
}

/// A bundle is known exactly if the MD5 of all its bytes is the one that its publisher gives.
pub proof fn bundles_are_known_by_their_md5(zip: Seq<u8>)
    ensures
        is_known_bundle(zip) <==> digest::md5_digest(zip) == known_md5(),
{
    reveal_strlit("f0cc414564ea198195c44e5f8c09e409");
    let text = digest::hex_text(known_md5());
    assert(text =~= "f0cc414564ea198195c44e5f8c09e409"@);
    if is_known_bundle(zip) {
        digest::hex_is_faithful(digest::md5_digest(zip), known_md5());
    }
}

} // verus!

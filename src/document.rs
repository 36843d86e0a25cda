//! Dispatch of a document read on the extension of its path.

use vstd::prelude::*;
use crate::converter::{conversion_args, from_flag_prefix, to_markdown_flag, ConverterState};

verus! {

/// A rich input format that the external converter turns into Markdown.
#[derive(Clone, Copy, Debug, PartialEq, Eq, Structural)]
pub enum FromType {
    Docx,
}

impl FromType {
    /// The converter's name for the format.
    pub open spec fn name(self) -> Seq<char> {
        match self {
            FromType::Docx => seq!['d', 'o', 'c', 'x'],
        }
    }

    pub fn to_string(&self) -> (r: String)
        ensures
            r@ == self.name(),
    {
        match self {
            FromType::Docx => {
                proof {
                    reveal_strlit("docx");
                }
                String::from_str("docx")
            },
        }
    }
}

/// How a document is handled, decided by its extension alone.
#[derive(Clone, Copy, Debug, PartialEq, Eq, Structural)]
pub enum DocumentKind {
    /// Plain text, tabular text or structured-record text, read verbatim.
    PlainText,
    /// Markdown, read verbatim.
    Markdown,
    /// A binary document handed to the converter.
    RichDocument(FromType),
    /// Anything else.
    Unsupported,
}

impl DocumentKind {
    /// Whether the file's contents are returned unchanged.
    pub open spec fn is_verbatim(self) -> bool {
        self == DocumentKind::PlainText || self == DocumentKind::Markdown
    }
}

/// Index of the last `.` in `s`, or -1 when there is none.
pub open spec fn last_dot(s: Seq<char>) -> int
    decreases s.len(),
{
    if s.len() == 0 {
        -1
    } else if s.last() == '.' {
        s.len() - 1
    } else {
        last_dot(s.drop_last())
    }
}

/// What follows the last `.` of a path; the whole path when it has no `.`.
pub open spec fn extension_of(s: Seq<char>) -> Seq<char> {
    s.subrange(last_dot(s) + 1, s.len() as int)
}

/// The kind of a document with extension `e`.
pub open spec fn kind_of_extension(e: Seq<char>) -> DocumentKind {
    if e == seq!['d', 'o', 'c', 'x'] {
        DocumentKind::RichDocument(FromType::Docx)
    } else if e == seq!['m', 'd'] {
        DocumentKind::Markdown
    } else if e == seq!['t', 'x', 't'] || e == seq!['c', 's', 'v'] || e == seq!['j', 's', 'o', 'n'] {
        DocumentKind::PlainText
    } else {
        DocumentKind::Unsupported
    }
}

/// The kind of the document at `path`.
pub open spec fn kind_of_path(path: Seq<char>) -> DocumentKind {
    kind_of_extension(extension_of(path))
}

proof fn lemma_last_dot_bounds(s: Seq<char>)
    ensures
        -1 <= last_dot(s) < s.len(),
        last_dot(s) >= 0 ==> s[last_dot(s)] == '.',
    decreases s.len(),
{
    if s.len() > 0 && s.last() != '.' {
        lemma_last_dot_bounds(s.drop_last());
    }
}

/// Index of the last `.` in `path`, or `None`.
fn find_last_dot(path: &str) -> (r: Option<usize>)
    ensures
        match r {
            Some(i) => i == last_dot(path@),
            None => last_dot(path@) == -1,
        },
{
    let n = path.unicode_len();
    let mut found: Option<usize> = None;
    let mut i: usize = 0;
    while i < n
        invariant
            n == path@.len(),
            i <= n,
            match found {
                Some(k) => k == last_dot(path@.subrange(0, i as int)),
                None => last_dot(path@.subrange(0, i as int)) == -1,
            },
        decreases n - i,
    {
        let c = path.get_char(i);
        assert(path@.subrange(0, i + 1).drop_last() =~= path@.subrange(0, i as int));
        if c == '.' {
            found = Some(i);
        }
        i = i + 1;
    }
    assert(path@.subrange(0, n as int) =~= path@);
    found
}

/// The extension of `path`: what follows its last `.`, or all of it.
pub fn extension(path: &str) -> (r: &str)
    ensures
        r@ == extension_of(path@),
{
    proof {
        lemma_last_dot_bounds(path@);
    }
    let n = path.unicode_len();
    match find_last_dot(path) {
        Some(i) => path.substring_char(i + 1, n),
        None => path.substring_char(0, n),
    }
}

/// Classifies the document at `path` by its extension.
pub fn classify(path: &str) -> (r: DocumentKind)
    ensures
        r == kind_of_path(path@),
{
    let e = extension(path);
    let e = String::from_str(e);
    proof {
        reveal_strlit("docx");
        reveal_strlit("md");
        reveal_strlit("txt");
        reveal_strlit("csv");
        reveal_strlit("json");
        assert("docx"@ =~= seq!['d', 'o', 'c', 'x']);
        assert("md"@ =~= seq!['m', 'd']);
        assert("txt"@ =~= seq!['t', 'x', 't']);
        assert("csv"@ =~= seq!['c', 's', 'v']);
        assert("json"@ =~= seq!['j', 's', 'o', 'n']);
    }
    if e == String::from_str("docx") {
        DocumentKind::RichDocument(FromType::Docx)
    } else if e == String::from_str("md") {
        DocumentKind::Markdown
    } else if e == String::from_str("txt") || e == String::from_str("csv") || e == String::from_str(
        "json",
    ) {
        DocumentKind::PlainText
    } else {
        DocumentKind::Unsupported
    }
}

/// The reply for a document whose extension is not handled.
pub open spec fn unsupported_reply() -> Seq<char> {
    seq![
        'U', 'n', 's', 'u', 'p', 'p', 'o', 'r', 't', 'e', 'd', ' ', 'f', 'i', 'l', 'e', ' ', 't',
        'y', 'p', 'e',
    ]
}

/// What a read of a document comes to.
pub enum ReadPlan {
    /// Return the file's contents unchanged.
    Verbatim,
    /// Hand the file's bytes to the converter with these arguments and
    /// return its Markdown output.
    Convert(Vec<String>),
    /// The converter is needed but has not been warmed up successfully.
    ConverterUnavailable,
    /// Return this text without reading the file.
    Reply(String),
}

/// Decides how the document at `path` is read, given the converter's state.
pub fn plan_read(path: &str, converter: ConverterState) -> (r: ReadPlan)
    ensures
        kind_of_path(path@).is_verbatim() <==> r is Verbatim,
        kind_of_path(path@) == DocumentKind::Unsupported <==> (r is Reply && r->Reply_0@
            == unsupported_reply()),
        match kind_of_path(path@) {
            DocumentKind::RichDocument(f) => if converter == ConverterState::Ready {
                r is Convert && r->Convert_0@.len() == 2 && r->Convert_0@[0]@ == from_flag_prefix()
                    + f.name() && r->Convert_0@[1]@ == to_markdown_flag()
            } else {
                r is ConverterUnavailable
            },
            _ => true,
        },
{
    match classify(path) {
        DocumentKind::PlainText | DocumentKind::Markdown => ReadPlan::Verbatim,
        DocumentKind::RichDocument(f) => {
            if converter.is_ready() {
                ReadPlan::Convert(conversion_args(f))
            } else {
                ReadPlan::ConverterUnavailable
            }
        },
        DocumentKind::Unsupported => {
            proof {
                reveal_strlit("Unsupported file type");
                assert("Unsupported file type"@ =~= unsupported_reply());
            }
            ReadPlan::Reply(String::from_str("Unsupported file type"))
        },
    }
}

} // verus!

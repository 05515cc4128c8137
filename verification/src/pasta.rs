use vstd::prelude::*;
use vstd::string::StrSliceExecFns;

use crate::text::{str_eq, string_from_chars};

verus! {

/// What a paste holds: plain text, a single well-formed URL, or an
/// uploaded file.
#[derive(Clone, Copy, Debug, PartialEq, Eq, Structural)]
pub enum PastaKind {
    Text,
    Url,
    File,
}

/// The mathematical shape of a paste record.
pub ghost struct PastaV {
    pub id: u64,
    pub content: Seq<char>,
    pub file: Seq<char>,
    pub created: u64,
    pub kind: PastaKind,
    pub expiration: u64,
}

/// A stored paste. `expiration == 0` means the paste never expires;
/// `file` holds the sentinel name when no file is attached.
#[derive(Debug)]
pub struct Pasta {
    pub id: u64,
    pub content: String,
    pub file: String,
    pub created: u64,
    pub kind: PastaKind,
    pub expiration: u64,
}

impl View for Pasta {
    type V = PastaV;

    open spec fn view(&self) -> PastaV {
        PastaV {
            id: self.id,
            content: self.content@,
            file: self.file@,
            created: self.created,
            kind: self.kind,
            expiration: self.expiration,
        }
    }
}

impl DeepView for Pasta {
    type V = PastaV;

    open spec fn deep_view(&self) -> PastaV {
        self@
    }
}

impl PartialEq for Pasta {
    fn eq(&self, other: &Pasta) -> (r: bool) {
        self.id == other.id && self.content == other.content && self.file == other.file
            && self.created == other.created && self.kind == other.kind && self.expiration
            == other.expiration
    }
}

impl vstd::std_specs::cmp::PartialEqSpecImpl for Pasta {
    open spec fn obeys_eq_spec() -> bool {
        true
    }

    open spec fn eq_spec(&self, other: &Pasta) -> bool {
        self@ == other@
    }
}

impl Pasta {
    /// A fresh record equal to this one, field for field.
    pub fn duplicated(&self) -> (r: Pasta)
        ensures
            r@ == self@,
    {
        Pasta {
            id: self.id,
            content: self.content.clone(),
            file: self.file.clone(),
            created: self.created,
            kind: self.kind,
            expiration: self.expiration,
        }
    }
}

/// The sentinel file name meaning "no file attached".
pub open spec fn no_file() -> Seq<char> {
    "no-file"@
}

/// The sentinel file name, as a string.
pub fn no_file_name() -> (r: String)
    ensures
        r@ == no_file(),
{
    let s = "no-file";
    s.to_owned()
}

/// A file name with every space replaced by an underscore.
pub open spec fn normalized(s: Seq<char>) -> Seq<char> {
    s.map_values(|c: char| if c == ' ' { '_' } else { c })
}

/// Replace every space of a file name by an underscore.
pub fn normalize_file_name(s: &str) -> (r: String)
    ensures
        r@ == normalized(s@),
{
    let len = s.unicode_len();
    let mut v: Vec<char> = Vec::new();
    let mut i: usize = 0;
    while i < len
        invariant
            len == s@.len(),
            i <= len,
            v@ == normalized(s@.take(i as int)),
        decreases len - i,
    {
        let c = s.get_char(i);
        if c == ' ' {
            v.push('_');
        } else {
            v.push(c);
        }
        proof {
            assert(v@ =~= normalized(s@.take(i + 1 as int)));
        }
        i = i + 1;
    }
    proof {
        assert(s@.take(len as int) =~= s@);
    }
    string_from_chars(&v)
}

/// What linkify's `LinkFinder::spans` yields first for a text: the first
/// span's characters, paired with whether that span is a URL link. The
/// spans are a function of the text alone.
pub uninterp spec fn first_link_span(s: Seq<char>) -> Option<(Seq<char>, bool)>;

/// Relies on linkify's `LinkFinder::spans`: the first span of an empty
/// text is absent; otherwise the first span is a prefix of the text, and
/// `Span::kind` says whether it is a URL link.
#[verifier::external_body]
fn find_first_span(s: &str) -> (r: Option<(String, bool)>)
    ensures
        match r {
            Some(p) => first_link_span(s@) == Some((p.0@, p.1)),
            None => first_link_span(s@) is None,
        },
{
    let finder = linkify::LinkFinder::new();
    let mut spans = finder.spans(s);
    match spans.next() {
        None => None,
        Some(sp) => Some((sp.as_str().to_owned(), sp.kind() == Some(&linkify::LinkKind::Url))),
    }
}

/// A text is a single well-formed URL exactly when its first link span is
/// a URL link covering the whole text.
pub open spec fn spec_is_url(s: Seq<char>) -> bool {
    match first_link_span(s) {
        Some(p) => p.1 && p.0 == s,
        None => false,
    }
}

/// Whether a content string parses as a single URL spanning the entire
/// input.
pub fn is_valid_url(url: &str) -> (r: bool)
    ensures
        r == spec_is_url(url@),
{
    match find_first_span(url) {
        None => false,
        Some((t, k)) => k && str_eq(t.as_str(), url),
    }
}

/// The kind a new paste gets: `File` when a file payload is attached,
/// `Url` when the content alone is a well-formed URL, `Text` otherwise.
pub open spec fn classify(content: Seq<char>, with_file: bool) -> PastaKind {
    if with_file {
        PastaKind::File
    } else if spec_is_url(content) {
        PastaKind::Url
    } else {
        PastaKind::Text
    }
}

} // verus!

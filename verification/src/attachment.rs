//! Attachment metadata: the columns a message attachment row carries and
//! the lookups over them — media-type classification by the major token
//! of a MIME string, and path, extension and display-name helpers. The
//! database access that fills these rows lives outside the library.

use vstd::prelude::*;
use vstd::string::StrSliceExecFns;

verus! {

/// The media class of an attachment, keyed by the major type token of
/// its MIME string; each variant carries the full MIME string.
#[derive(Debug, PartialEq, Eq)]
pub enum MediaType<'a> {
    Image(&'a str),
    Video(&'a str),
    Audio(&'a str),
    Text(&'a str),
    Application(&'a str),
    Other(&'a str),
    Unknown,
}

/// One row of attachment metadata.
#[derive(Debug)]
pub struct Attachment {
    pub rowid: i32,
    pub filename: Option<String>,
    pub mime_type: Option<String>,
    pub transfer_name: Option<String>,
    pub total_bytes: i32,
    pub hide_attachment: i32,
    pub copied_path: Option<String>,
}

/// The characters before the first `sep`, or all of them if it never
/// occurs.
pub open spec fn prefix_before(s: Seq<char>, sep: char) -> Seq<char>
    decreases s.len(),
{
    if s.len() == 0 {
        s
    } else if s[0] == sep {
        Seq::empty()
    } else {
        seq![s[0]] + prefix_before(s.drop_first(), sep)
    }
}

/// The characters after the last `sep`, or all of them if it never
/// occurs.
pub open spec fn suffix_after(s: Seq<char>, sep: char) -> Seq<char>
    decreases s.len(),
{
    if s.len() == 0 {
        s
    } else if s.last() == sep {
        Seq::empty()
    } else {
        suffix_after(s.drop_last(), sep) + seq![s.last()]
    }
}

/// If no `sep` occurs before position `i`, and `i` is either the end or
/// a `sep`, then the prefix before the first `sep` is exactly the first
/// `i` characters.
pub proof fn lemma_prefix_before_found(s: Seq<char>, sep: char, i: int)
    requires
        0 <= i <= s.len(),
        forall|j: int| 0 <= j < i ==> s[j] != sep,
        i == s.len() || s[i] == sep,
    ensures
        prefix_before(s, sep) == s.take(i),
    decreases s.len(),
{
    if s.len() == 0 {
        assert(s.take(i) =~= s);
    } else if i == 0 {
        assert(s.take(0) =~= Seq::<char>::empty());
    } else {
        lemma_prefix_before_found(s.drop_first(), sep, i - 1);
        assert(s.take(i) =~= seq![s[0]] + s.drop_first().take(i - 1));
    }
}

/// If the last `sep` stands at position `i`, the suffix after the last
/// `sep` is exactly what follows position `i`.
pub proof fn lemma_suffix_after_found(s: Seq<char>, sep: char, i: int)
    requires
        0 <= i < s.len(),
        s[i] == sep,
        forall|j: int| i < j < s.len() ==> s[j] != sep,
    ensures
        suffix_after(s, sep) == s.skip(i + 1),
    decreases s.len(),
{
    if i == s.len() - 1 {
        assert(s.skip(i + 1) =~= Seq::<char>::empty());
    } else {
        lemma_suffix_after_found(s.drop_last(), sep, i);
        assert(s.skip(i + 1) =~= s.drop_last().skip(i + 1) + seq![s.last()]);
    }
}

/// If `sep` never occurs, the suffix after the last `sep` is the whole
/// sequence.
pub proof fn lemma_suffix_after_none(s: Seq<char>, sep: char)
    requires
        forall|j: int| 0 <= j < s.len() ==> s[j] != sep,
    ensures
        suffix_after(s, sep) == s,
    decreases s.len(),
{
    if s.len() > 0 {
        lemma_suffix_after_none(s.drop_last(), sep);
        assert(s =~= s.drop_last() + seq![s.last()]);
    }
}

/// Compare two strings character by character.
fn str_eq(a: &str, b: &str) -> (r: bool)
    ensures
        r == (a@ == b@),
{
    let na = a.unicode_len();
    let nb = b.unicode_len();
    if na != nb {
        return false;
    }
    let mut i: usize = 0;
    while i < na
        invariant
            i <= na,
            na == a@.len(),
            na == b@.len(),
            forall|j: int| 0 <= j < i ==> a@[j] == b@[j],
        decreases na - i,
    {
        if a.get_char(i) != b.get_char(i) {
            return false;
        }
        i = i + 1;
    }
    proof {
        assert(a@ =~= b@);
    }
    true
}

/// The extension of a path's final `/`-separated component: the
/// characters after its last `.`, unless the component holds no `.`
/// past its first character.
pub open spec fn spec_extension(path: Seq<char>) -> Option<Seq<char>> {
    let comp = suffix_after(path, '/');
    if exists|j: int| 1 <= j < comp.len() && comp[j] == '.' {
        Some(suffix_after(comp, '.'))
    } else {
        None
    }
}

impl Attachment {
    /// Classify the attachment by the major type token of its MIME
    /// string: the characters before the first `/`. A missing MIME
    /// string is `Unknown`; an unrecognized token is `Other`.
    pub fn mime_type(&self) -> (r: MediaType<'_>)
        ensures
            self.mime_type is None ==> r is Unknown,
            self.mime_type matches Some(m) ==> ({
                let major = prefix_before(m@, '/');
                if major == "image"@ {
                    r matches MediaType::Image(s) && s@ == m@
                } else if major == "video"@ {
                    r matches MediaType::Video(s) && s@ == m@
                } else if major == "audio"@ {
                    r matches MediaType::Audio(s) && s@ == m@
                } else if major == "text"@ {
                    r matches MediaType::Text(s) && s@ == m@
                } else if major == "application"@ {
                    r matches MediaType::Application(s) && s@ == m@
                } else {
                    r matches MediaType::Other(s) && s@ == m@
                }
            }),
    {
        match &self.mime_type {
            Some(mime) => {
                let m: &str = mime.as_str();
                let n = m.unicode_len();
                let mut i: usize = 0;
                while i < n && m.get_char(i) != '/'
                    invariant
                        i <= n,
                        n == m@.len(),
                        forall|j: int| 0 <= j < i ==> m@[j] != '/',
                    decreases n - i,
                {
                    i = i + 1;
                }
                proof {
                    lemma_prefix_before_found(m@, '/', i as int);
                }
                let major = m.substring_char(0, i);
                if str_eq(major, "image") {
                    MediaType::Image(m)
                } else if str_eq(major, "video") {
                    MediaType::Video(m)
                } else if str_eq(major, "audio") {
                    MediaType::Audio(m)
                } else if str_eq(major, "text") {
                    MediaType::Text(m)
                } else if str_eq(major, "application") {
                    MediaType::Application(m)
                } else {
                    MediaType::Other(m)
                }
            },
            None => MediaType::Unknown,
        }
    }

    /// The stored path of the attachment, if the row carries one.
    pub fn path(&self) -> (r: Option<&str>)
        ensures
            r is Some <==> self.filename is Some,
            r matches Some(p) ==> self.filename matches Some(f) && p@ == f@,
    {
        match &self.filename {
            Some(name) => Some(name.as_str()),
            None => None,
        }
    }

    /// The extension of the stored path, if the row carries a path whose
    /// final component has one.
    pub fn extension(&self) -> (r: Option<&str>)
        ensures
            self.filename is None ==> r is None,
            self.filename matches Some(f) ==> ({
                &&& (r is Some <==> spec_extension(f@) is Some)
                &&& (r matches Some(e) ==> spec_extension(f@) == Some(e@))
            }),
    {
        let name = match &self.filename {
            Some(name) => name,
            None => {
                return None;
            },
        };
        let s: &str = name.as_str();
        let n = s.unicode_len();
        // Index of the first character of the final path component.
        let mut comp_start: usize = 0;
        let mut i: usize = 0;
        while i < n
            invariant
                i <= n,
                n == s@.len(),
                comp_start <= i,
                comp_start == 0 ==> forall|j: int| 0 <= j < i ==> s@[j] != '/',
                comp_start >= 1 ==> s@[comp_start - 1] == '/' && forall|j: int|
                    comp_start <= j < i ==> s@[j] != '/',
            decreases n - i,
        {
            if s.get_char(i) == '/' {
                comp_start = i + 1;
            }
            i = i + 1;
        }
        proof {
            if comp_start == 0 {
                lemma_suffix_after_none(s@, '/');
            } else {
                lemma_suffix_after_found(s@, '/', comp_start - 1);
            }
            assert(suffix_after(s@, '/') == s@.skip(comp_start as int));
        }
        let ghost comp = suffix_after(s@, '/');
        // Absolute index of the last `.` strictly inside the component.
        let mut last_dot: Option<usize> = None;
        let mut k: usize = comp_start;
        while k < n
            invariant
                comp_start <= k <= n,
                n == s@.len(),
                comp == s@.skip(comp_start as int),
                last_dot is None ==> forall|j: int| comp_start < j < k ==> s@[j] != '.',
                last_dot matches Some(d) ==> comp_start < d < k && s@[d as int] == '.' && forall|
                    j: int,
                |
                    d < j < k ==> s@[j] != '.',
            decreases n - k,
        {
            if k > comp_start && s.get_char(k) == '.' {
                last_dot = Some(k);
            }
            k = k + 1;
        }
        match last_dot {
            Some(d) => {
                proof {
                    let rel = d - comp_start;
                    assert(comp[rel] == '.');
                    assert(forall|j: int| rel < j < comp.len() ==> comp[j] != '.');
                    lemma_suffix_after_found(comp, '.', rel);
                    assert(comp.skip(rel + 1) =~= s@.skip(d + 1));
                }
                Some(s.substring_char(d + 1, n))
            },
            None => {
                proof {
                    assert(forall|j: int| 1 <= j < comp.len() ==> comp[j] != '.');
                }
                None
            },
        }
    }

    /// A display name for the attachment: the transfer name when there
    /// is one, else the stored path, else a fixed note that the metadata
    /// is missing.
    pub fn filename(&self) -> (r: &str)
        ensures
            self.transfer_name matches Some(t) ==> r@ == t@,
            self.transfer_name is None ==> (self.filename matches Some(f) ==> r@ == f@),
            self.transfer_name is None && self.filename is None ==> r@
                == "Attachment missing name metadata!"@,
    {
        match &self.transfer_name {
            Some(transfer_name) => transfer_name.as_str(),
            None => match &self.filename {
                Some(filename) => filename.as_str(),
                None => "Attachment missing name metadata!",
            },
        }
    }
}

} // verus!

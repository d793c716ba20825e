//! Validated primitive values of the domain.

use crate::base::{DomainError, DomainResult, ValueObject};
use crate::text::{chars_of, has_prefix, is_blank, starts_with, string_of};
use vstd::prelude::*;

verus! {

pub open spec fn http_prefix() -> Seq<char> {
    seq!['h', 't', 't', 'p', ':', '/', '/']
}

pub open spec fn https_prefix() -> Seq<char> {
    seq!['h', 't', 't', 'p', 's', ':', '/', '/']
}

/// A well-formed URL text: non-empty and starting with `http://` or `https://`.
pub open spec fn is_url_text(s: Seq<char>) -> bool {
    s.len() > 0 && (has_prefix(s, http_prefix()) || has_prefix(s, https_prefix()))
}

pub fn is_url(s: &[char]) -> (r: bool)
    ensures
        r == is_url_text(s@),
{
    let http = vec!['h', 't', 't', 'p', ':', '/', '/'];
    let https = vec!['h', 't', 't', 'p', 's', ':', '/', '/'];
    proof {
        assert(http@ =~= http_prefix());
        assert(https@ =~= https_prefix());
    }
    s.len() > 0 && (starts_with(s, http.as_slice()) || starts_with(s, https.as_slice()))
}

/// Identifier of a page: a non-empty string.
#[derive(Debug, Hash)]
pub struct PageId(String);

impl View for PageId {
    type V = Seq<char>;

    closed spec fn view(&self) -> Seq<char> {
        self.0@
    }
}

impl PageId {
    /// An identifier is never empty.
    #[verifier::type_invariant]
    pub closed spec fn nonempty(self) -> bool {
        self.0@.len() > 0
    }

    pub proof fn lemma_nonempty(&self)
        requires
            self.nonempty(),
        ensures
            self@.len() > 0,
    {
    }

    pub fn new(id: &str) -> (r: DomainResult<PageId>)
        ensures
            id@.len() > 0 <==> r is Ok,
            r matches Ok(p) ==> p@ == id@,
            r matches Err(e) ==> e is InvalidValue,
    {
        if id.is_empty() {
            return Err(DomainError::InvalidValue("PageId cannot be empty".to_string()));
        }
        Ok(PageId(id.to_string()))
    }

    pub fn as_str(&self) -> (r: &str)
        ensures
            r@ == self@,
    {
        self.0.as_str()
    }
}

impl Clone for PageId {
    fn clone(&self) -> (r: Self)
        ensures
            r@ == self@,
    {
        proof {
            use_type_invariant(self);
        }
        PageId(self.0.clone())
    }
}

impl PartialEq for PageId {
    fn eq(&self, o: &PageId) -> (r: bool) {
        self.0 == o.0
    }
}

impl vstd::std_specs::cmp::PartialEqSpecImpl for PageId {
    open spec fn obeys_eq_spec() -> bool {
        true
    }

    open spec fn eq_spec(&self, o: &PageId) -> bool {
        self@ == o@
    }
}

impl Eq for PageId {

}

impl ValueObject for PageId {

}

/// Identifier of a block: a non-empty string.
#[derive(Debug, Hash)]
pub struct BlockId(String);

impl View for BlockId {
    type V = Seq<char>;

    closed spec fn view(&self) -> Seq<char> {
        self.0@
    }
}

impl BlockId {
    /// An identifier is never empty.
    #[verifier::type_invariant]
    pub closed spec fn nonempty(self) -> bool {
        self.0@.len() > 0
    }

    pub proof fn lemma_nonempty(&self)
        requires
            self.nonempty(),
        ensures
            self@.len() > 0,
    {
    }

    pub fn new(id: &str) -> (r: DomainResult<BlockId>)
        ensures
            id@.len() > 0 <==> r is Ok,
            r matches Ok(b) ==> b@ == id@,
            r matches Err(e) ==> e is InvalidValue,
    {
        if id.is_empty() {
            return Err(DomainError::InvalidValue("BlockId cannot be empty".to_string()));
        }
        Ok(BlockId(id.to_string()))
    }

    pub fn as_str(&self) -> (r: &str)
        ensures
            r@ == self@,
    {
        self.0.as_str()
    }

    pub fn same(&self, o: &BlockId) -> (r: bool)
        ensures
            r == (self@ == o@),
    {
        self.0 == o.0
    }
}

impl Clone for BlockId {
    fn clone(&self) -> (r: Self)
        ensures
            r@ == self@,
    {
        proof {
            use_type_invariant(self);
        }
        BlockId(self.0.clone())
    }
}

impl PartialEq for BlockId {
    fn eq(&self, o: &BlockId) -> (r: bool) {
        self.0 == o.0
    }
}

impl vstd::std_specs::cmp::PartialEqSpecImpl for BlockId {
    open spec fn obeys_eq_spec() -> bool {
        true
    }

    open spec fn eq_spec(&self, o: &BlockId) -> bool {
        self@ == o@
    }
}

impl Eq for BlockId {

}

impl ValueObject for BlockId {

}

/// A web address beginning with `http://` or `https://`.
#[derive(Debug, Hash)]
pub struct Url {
    value: String,
}

impl View for Url {
    type V = Seq<char>;

    closed spec fn view(&self) -> Seq<char> {
        self.value@
    }
}

/// The first index at or after `i` where `p` occurs in `s`, if any.
pub open spec fn find_from(s: Seq<char>, p: Seq<char>, i: int) -> Option<int>
    decreases s.len() + 1 - i,
{
    if i < 0 || i + p.len() > s.len() {
        None
    } else if s.subrange(i, i + p.len()) == p {
        Some(i)
    } else {
        find_from(s, p, i + 1)
    }
}

pub open spec fn scheme_separator() -> Seq<char> {
    seq![':', '/', '/']
}

/// The characters of `s` from `i` up to (not including) the first `/` at or after `i`.
pub open spec fn up_to_slash(s: Seq<char>, i: int) -> Seq<char>
    decreases s.len() - i,
{
    if i < 0 || i >= s.len() || s[i] == '/' {
        Seq::empty()
    } else {
        seq![s[i]] + up_to_slash(s, i + 1)
    }
}

/// The host part of a URL text: what lies between the first `://` and the next `/`.
pub open spec fn domain_of(s: Seq<char>) -> Option<Seq<char>> {
    match find_from(s, scheme_separator(), 0) {
        Some(k) => Some(up_to_slash(s, k + 3)),
        None => None,
    }
}

impl Url {
    /// A URL always starts with its scheme.
    #[verifier::type_invariant]
    pub closed spec fn well_formed(self) -> bool {
        is_url_text(self.value@)
    }

    pub proof fn lemma_well_formed(&self)
        requires
            self.well_formed(),
        ensures
            is_url_text(self@),
    {
    }

    pub fn new(url: &str) -> (r: DomainResult<Url>)
        ensures
            r is Ok <==> is_url_text(url@),
            r matches Ok(u) ==> u@ == url@,
            r matches Err(e) ==> e is InvalidValue,
    {
        if url.is_empty() {
            return Err(DomainError::InvalidValue("URL cannot be empty".to_string()));
        }
        let cs = chars_of(url);
        if !is_url(cs.as_slice()) {
            return Err(
                DomainError::InvalidValue("URL must start with http:// or https://".to_string()),
            );
        }
        Ok(Url { value: url.to_string() })
    }

    pub fn as_str(&self) -> (r: &str)
        ensures
            r@ == self@,
    {
        self.value.as_str()
    }

    pub fn same(&self, o: &Url) -> (r: bool)
        ensures
            r == (self@ == o@),
    {
        self.value == o.value
    }

    /// The host part of the URL, a best-effort extraction.
    pub fn domain(&self) -> (r: Option<String>)
        ensures
            r matches Some(d) ==> domain_of(self@) == Some(d@),
            r is None ==> domain_of(self@) is None,
    {
        let s = chars_of(self.value.as_str());
        let sep = vec![':', '/', '/'];
        proof {
            assert(sep@ =~= scheme_separator());
        }
        let n = s.len();
        let mut i: usize = 0;
        let mut found = false;
        while !found && i < s.len() && s.len() - i >= 3
            invariant
                sep@ == scheme_separator(),
                n == s@.len(),
                i <= s@.len(),
                found ==> s@.len() - i >= 3 && find_from(s@, scheme_separator(), 0) == Some(
                    i as int,
                ),
                !found ==> find_from(s@, scheme_separator(), 0) == find_from(
                    s@,
                    scheme_separator(),
                    i as int,
                ),
            decreases s.len() - i + (if found { 0int } else { 1int }),
        {
            if crate::text::starts_with_at(s.as_slice(), sep.as_slice(), i) {
                found = true;
            } else {
                i = i + 1;
            }
        }
        if !found {
            return None;
        }
        let start = i + 3;
        let mut j: usize = start;
        while j < s.len() && s[j] != '/'
            invariant
                start <= j <= s@.len(),
                up_to_slash(s@, start as int) == s@.subrange(start as int, j as int) + up_to_slash(
                    s@,
                    j as int,
                ),
            decreases s.len() - j,
        {
            proof {
                assert(s@.subrange(start as int, j + 1) =~= s@.subrange(start as int, j as int)
                    + seq![s@[j as int]]);
            }
            j = j + 1;
        }
        proof {
            assert(s@.subrange(start as int, j as int) + Seq::<char>::empty() =~= s@.subrange(
                start as int,
                j as int,
            ));
        }
        Some(crate::text::string_range(s.as_slice(), start, j))
    }
}

impl Clone for Url {
    fn clone(&self) -> (r: Self)
        ensures
            r@ == self@,
    {
        proof {
            use_type_invariant(self);
        }
        Url { value: self.value.clone() }
    }
}

impl PartialEq for Url {
    fn eq(&self, o: &Url) -> (r: bool) {
        self.value == o.value
    }
}

impl vstd::std_specs::cmp::PartialEqSpecImpl for Url {
    open spec fn obeys_eq_spec() -> bool {
        true
    }

    open spec fn eq_spec(&self, o: &Url) -> bool {
        self@ == o@
    }
}

impl Eq for Url {

}

impl ValueObject for Url {

}

/// A link to another page: `[[title]]` (a page reference) or `#title` (a tag).
#[derive(Debug, Hash)]
pub struct PageReference {
    title: String,
    is_tag: bool,
}

impl View for PageReference {
    type V = (Seq<char>, bool);

    closed spec fn view(&self) -> (Seq<char>, bool) {
        (self.title@, self.is_tag)
    }
}

/// How a reference is written: `#title` for a tag, `[[title]]` otherwise.
pub open spec fn reference_text(r: (Seq<char>, bool)) -> Seq<char> {
    if r.1 {
        seq!['#'] + r.0
    } else {
        seq!['[', '['] + r.0 + seq![']', ']']
    }
}

impl PageReference {
    /// A reference always has a title.
    #[verifier::type_invariant]
    pub closed spec fn titled(self) -> bool {
        self.title@.len() > 0
    }

    pub proof fn lemma_titled(&self)
        requires
            self.titled(),
        ensures
            self@.0.len() > 0,
    {
    }

    /// A reference written `[[title]]`.
    pub fn from_brackets(title: &str) -> (r: DomainResult<PageReference>)
        ensures
            r is Ok <==> title@.len() > 0,
            r matches Ok(p) ==> p@ == (title@, false),
            r matches Err(e) ==> e is InvalidValue,
    {
        if title.is_empty() {
            return Err(DomainError::InvalidValue("Page reference title cannot be empty".to_string()));
        }
        Ok(PageReference { title: title.to_string(), is_tag: false })
    }

    /// A reference written `#title`.
    pub fn from_tag(title: &str) -> (r: DomainResult<PageReference>)
        ensures
            r is Ok <==> title@.len() > 0,
            r matches Ok(p) ==> p@ == (title@, true),
            r matches Err(e) ==> e is InvalidValue,
    {
        if title.is_empty() {
            return Err(DomainError::InvalidValue("Tag cannot be empty".to_string()));
        }
        Ok(PageReference { title: title.to_string(), is_tag: true })
    }

    pub fn title(&self) -> (r: &str)
        ensures
            r@ == self@.0,
    {
        self.title.as_str()
    }

    pub fn is_tag(&self) -> (r: bool)
        ensures
            r == self@.1,
    {
        self.is_tag
    }

    pub fn is_page_reference(&self) -> (r: bool)
        ensures
            r == !self@.1,
    {
        !self.is_tag
    }

    pub fn same(&self, o: &PageReference) -> (r: bool)
        ensures
            r == (self@ == o@),
    {
        self.is_tag == o.is_tag && self.title == o.title
    }

    /// The reference as it is written in a block.
    pub fn to_string(&self) -> (r: String)
        ensures
            r@ == reference_text(self@),
    {
        if self.is_tag {
            let head = string_of(vec!['#'].as_slice());
            head.concat(self.title.as_str())
        } else {
            let head = string_of(vec!['[', '['].as_slice());
            let close = string_of(vec![']', ']'].as_slice());
            let r = head.concat(self.title.as_str()).concat(close.as_str());
            r
        }
    }
}

impl Clone for PageReference {
    fn clone(&self) -> (r: Self)
        ensures
            r@ == self@,
    {
        proof {
            use_type_invariant(self);
        }
        PageReference { title: self.title.clone(), is_tag: self.is_tag }
    }
}

impl PartialEq for PageReference {
    fn eq(&self, o: &PageReference) -> (r: bool) {
        self.is_tag == o.is_tag && self.title == o.title
    }
}

impl vstd::std_specs::cmp::PartialEqSpecImpl for PageReference {
    open spec fn obeys_eq_spec() -> bool {
        true
    }

    open spec fn eq_spec(&self, o: &PageReference) -> bool {
        self@ == o@
    }
}

impl Eq for PageReference {

}

impl ValueObject for PageReference {

}

/// The text of a block.
#[derive(Debug)]
pub struct BlockContent {
    text: String,
}

impl View for BlockContent {
    type V = Seq<char>;

    closed spec fn view(&self) -> Seq<char> {
        self.text@
    }
}

impl BlockContent {
    pub fn new(text: &str) -> (r: BlockContent)
        ensures
            r@ == text@,
    {
        BlockContent { text: text.to_string() }
    }

    pub fn from_string(text: String) -> (r: BlockContent)
        ensures
            r@ == text@,
    {
        BlockContent { text }
    }

    pub fn as_str(&self) -> (r: &str)
        ensures
            r@ == self@,
    {
        self.text.as_str()
    }

    /// Whether the text is empty once trimmed.
    pub fn is_empty(&self) -> (r: bool)
        ensures
            r == is_blank(self@),
    {
        let cs = chars_of(self.text.as_str());
        crate::text::blank(cs.as_slice())
    }
}

impl Clone for BlockContent {
    fn clone(&self) -> (r: Self)
        ensures
            r@ == self@,
    {
        BlockContent { text: self.text.clone() }
    }
}

impl PartialEq for BlockContent {
    fn eq(&self, o: &BlockContent) -> (r: bool) {
        self.text == o.text
    }
}

impl vstd::std_specs::cmp::PartialEqSpecImpl for BlockContent {
    open spec fn obeys_eq_spec() -> bool {
        true
    }

    open spec fn eq_spec(&self, o: &BlockContent) -> bool {
        self@ == o@
    }
}

impl Eq for BlockContent {

}

impl ValueObject for BlockContent {

}

/// Depth of a block in its page's tree; 0 is the root level.
#[derive(Debug, Clone, Copy, PartialEq, Eq, Structural, PartialOrd, Ord, Hash)]
pub struct IndentLevel(usize);

impl View for IndentLevel {
    type V = nat;

    closed spec fn view(&self) -> nat {
        self.0 as nat
    }
}

impl IndentLevel {
    pub fn root() -> (r: IndentLevel)
        ensures
            r@ == 0,
    {
        IndentLevel(0)
    }

    pub fn new(level: usize) -> (r: IndentLevel)
        ensures
            r@ == level,
    {
        IndentLevel(level)
    }

    pub fn value(&self) -> (r: usize)
        ensures
            r == self@,
    {
        self.0
    }

    pub fn increment(&self) -> (r: IndentLevel)
        requires
            self@ < usize::MAX,
        ensures
            r@ == self@ + 1,
    {
        IndentLevel(self.0 + 1)
    }

    pub fn decrement(&self) -> (r: Option<IndentLevel>)
        ensures
            self@ > 0 <==> r is Some,
            r matches Some(l) ==> l@ + 1 == self@,
    {
        if self.0 > 0 {
            Some(IndentLevel(self.0 - 1))
        } else {
            None
        }
    }
}

impl ValueObject for IndentLevel {

}

/// What the file system reported of a directory candidate.
pub struct DirectoryProbe {
    pub exists: bool,
    pub is_dir: bool,
    pub pages_is_dir: bool,
    pub journals_is_dir: bool,
}

/// Relies on `std::path::Path::exists`: whether something is at the path.
#[verifier::external_body]
pub(crate) fn path_exists(path: &str) -> (r: bool) {
    std::path::Path::new(path).exists()
}

/// Relies on `std::path::Path::is_dir`: whether a directory is at the path.
#[verifier::external_body]
pub(crate) fn path_is_dir(path: &str) -> (r: bool) {
    std::path::Path::new(path).is_dir()
}

/// The result of joining `name` onto `base` as `std::path::Path::join` does.
pub uninterp spec fn joined_path(base: Seq<char>, name: Seq<char>) -> Seq<char>;

/// Relies on `std::path::Path::join`; the result is read back as UTF-8, lossily.
#[verifier::external_body]
pub(crate) fn join_path(base: &str, name: &str) -> (r: String)
    ensures
        r@ == joined_path(base@, name@),
{
    std::path::Path::new(base).join(name).to_string_lossy().to_string()
}

pub open spec fn pages_name() -> Seq<char> {
    seq!['p', 'a', 'g', 'e', 's']
}

pub open spec fn journals_name() -> Seq<char> {
    seq!['j', 'o', 'u', 'r', 'n', 'a', 'l', 's']
}

/// A knowledge-base root that holds `pages/` and `journals/` directories.
#[derive(Debug)]
pub struct LogseqDirectoryPath {
    path: String,
}

impl View for LogseqDirectoryPath {
    type V = Seq<char>;

    closed spec fn view(&self) -> Seq<char> {
        self.path@
    }
}

impl LogseqDirectoryPath {
    /// Accepts `path` when the probe shows a directory with both subdirectories.
    pub fn validate(path: &str, probe: &DirectoryProbe) -> (r: DomainResult<LogseqDirectoryPath>)
        ensures
            r is Ok <==> probe.exists && probe.is_dir && probe.pages_is_dir
                && probe.journals_is_dir,
            r matches Ok(d) ==> d@ == path@,
            r matches Err(e) ==> e is InvalidValue,
    {
        if !probe.exists {
            return Err(DomainError::InvalidValue("Directory does not exist".to_string()));
        }
        if !probe.is_dir {
            return Err(DomainError::InvalidValue("Path is not a directory".to_string()));
        }
        if !probe.pages_is_dir {
            return Err(
                DomainError::InvalidValue(
                    "Directory does not contain a 'pages' subdirectory".to_string(),
                ),
            );
        }
        if !probe.journals_is_dir {
            return Err(
                DomainError::InvalidValue(
                    "Directory does not contain a 'journals' subdirectory".to_string(),
                ),
            );
        }
        Ok(LogseqDirectoryPath { path: path.to_string() })
    }

    /// Looks at the file system and validates `path`.
    pub fn new(path: &str) -> (r: DomainResult<LogseqDirectoryPath>)
        ensures
            r matches Ok(d) ==> d@ == path@,
            r matches Err(e) ==> e is InvalidValue,
    {
        let pages = join_path(path, "pages");
        let journals = join_path(path, "journals");
        let probe = DirectoryProbe {
            exists: path_exists(path),
            is_dir: path_is_dir(path),
            pages_is_dir: path_exists(pages.as_str()) && path_is_dir(pages.as_str()),
            journals_is_dir: path_exists(journals.as_str()) && path_is_dir(journals.as_str()),
        };
        Self::validate(path, &probe)
    }

    pub fn as_path(&self) -> (r: &str)
        ensures
            r@ == self@,
    {
        self.path.as_str()
    }

    pub fn pages_dir(&self) -> (r: String)
        ensures
            r@ == joined_path(self@, pages_name()),
    {
        proof {
            reveal_strlit("pages");
        }
        let r = join_path(self.path.as_str(), "pages");
        proof {
            assert("pages"@ =~= pages_name());
        }
        r
    }

    pub fn journals_dir(&self) -> (r: String)
        ensures
            r@ == joined_path(self@, journals_name()),
    {
        proof {
            reveal_strlit("journals");
        }
        let r = join_path(self.path.as_str(), "journals");
        proof {
            assert("journals"@ =~= journals_name());
        }
        r
    }
}

impl Clone for LogseqDirectoryPath {
    fn clone(&self) -> (r: Self)
        ensures
            r@ == self@,
    {
        LogseqDirectoryPath { path: self.path.clone() }
    }
}

/// Progress of an import run.
#[derive(Debug)]
pub struct ImportProgress {
    files_processed: usize,
    total_files: usize,
    current_file: Option<String>,
}

impl ImportProgress {
    pub closed spec fn processed(&self) -> nat {
        self.files_processed as nat
    }

    pub closed spec fn total(&self) -> nat {
        self.total_files as nat
    }

    pub closed spec fn current(&self) -> Option<Seq<char>> {
        match self.current_file {
            Some(f) => Some(f@),
            None => None,
        }
    }

    pub fn new(total_files: usize) -> (r: ImportProgress)
        ensures
            r.processed() == 0,
            r.total() == total_files,
            r.current() is None,
    {
        ImportProgress { files_processed: 0, total_files, current_file: None }
    }

    pub fn increment(&mut self)
        requires
            old(self).processed() < usize::MAX,
        ensures
            final(self).processed() == old(self).processed() + 1,
            final(self).total() == old(self).total(),
            final(self).current() == old(self).current(),
    {
        self.files_processed = self.files_processed + 1;
    }

    pub fn set_current_file(&mut self, file: Option<String>)
        ensures
            final(self).processed() == old(self).processed(),
            final(self).total() == old(self).total(),
            final(self).current() == (match file {
                Some(f) => Some(f@),
                None => None,
            }),
    {
        self.current_file = file;
    }

    pub fn files_processed(&self) -> (r: usize)
        ensures
            r == self.processed(),
    {
        self.files_processed
    }

    pub fn total_files(&self) -> (r: usize)
        ensures
            r == self.total(),
    {
        self.total_files
    }

    pub fn current_file(&self) -> (r: Option<&String>)
        ensures
            r matches Some(f) ==> self.current() == Some(f@),
            r is None ==> self.current() is None,
    {
        match &self.current_file {
            Some(f) => Some(f),
            None => None,
        }
    }
}

impl Clone for ImportProgress {
    fn clone(&self) -> (r: Self)
        ensures
            r.processed() == self.processed(),
            r.total() == self.total(),
            r.current() == self.current(),
    {
        let current_file = match &self.current_file {
            Some(f) => Some(f.clone()),
            None => None,
        };
        ImportProgress { files_processed: self.files_processed, total_files: self.total_files, current_file }
    }
}

/// The decimal digits of `n`, most significant first, with no leading zero.
pub open spec fn decimal(n: nat) -> Seq<char>
    decreases n,
{
    if n < 10 {
        seq![digit_char(n)]
    } else {
        decimal(n / 10) + seq![digit_char(n % 10)]
    }
}

pub open spec fn digit_char(d: nat) -> char {
    ((48 + d) as u8) as char
}

pub fn decimal_digits(n: usize) -> (r: Vec<char>)
    ensures
        r@ == decimal(n as nat),
    decreases n,
{
    let d = (48 + (n % 10) as u8) as char;
    if n < 10 {
        vec![d]
    } else {
        let mut r = decimal_digits(n / 10);
        r.push(d);
        r
    }
}

pub open spec fn chunk_infix() -> Seq<char> {
    seq!['-', 'c', 'h', 'u', 'n', 'k', '-']
}

/// The canonical identifier of chunk `index` of a block: `{block}-chunk-{index}`.
pub open spec fn chunk_id_text(block: Seq<char>, index: nat) -> Seq<char> {
    block + chunk_infix() + decimal(index)
}

/// Identifier of a text chunk: a non-empty string.
#[derive(Debug, Hash)]
pub struct ChunkId(String);

impl View for ChunkId {
    type V = Seq<char>;

    closed spec fn view(&self) -> Seq<char> {
        self.0@
    }
}

impl ChunkId {
    pub fn new(id: &str) -> (r: DomainResult<ChunkId>)
        ensures
            id@.len() > 0 <==> r is Ok,
            r matches Ok(c) ==> c@ == id@,
            r matches Err(e) ==> e is InvalidValue,
    {
        if id.is_empty() {
            return Err(DomainError::InvalidValue("ChunkId cannot be empty".to_string()));
        }
        Ok(ChunkId(id.to_string()))
    }

    pub fn from_block(block_id: &BlockId, chunk_index: usize) -> (r: ChunkId)
        ensures
            r@ == chunk_id_text(block_id@, chunk_index as nat),
    {
        let mut tail = vec!['-', 'c', 'h', 'u', 'n', 'k', '-'];
        let mut digits = decimal_digits(chunk_index);
        tail.append(&mut digits);
        let t = string_of(tail.as_slice());
        let s = block_id.as_str().to_string().concat(t.as_str());
        proof {
            assert(s@ =~= chunk_id_text(block_id@, chunk_index as nat));
        }
        ChunkId(s)
    }

    pub fn as_str(&self) -> (r: &str)
        ensures
            r@ == self@,
    {
        self.0.as_str()
    }
}

impl Clone for ChunkId {
    fn clone(&self) -> (r: Self)
        ensures
            r@ == self@,
    {
        ChunkId(self.0.clone())
    }
}

impl PartialEq for ChunkId {
    fn eq(&self, o: &ChunkId) -> (r: bool) {
        self.0 == o.0
    }
}

impl vstd::std_specs::cmp::PartialEqSpecImpl for ChunkId {
    open spec fn obeys_eq_spec() -> bool {
        true
    }

    open spec fn eq_spec(&self, o: &ChunkId) -> bool {
        self@ == o@
    }
}

impl Eq for ChunkId {

}

impl ValueObject for ChunkId {

}

/// The embedding models the library knows.
#[derive(Debug, Clone, Copy, PartialEq, Eq, Structural, Hash)]
pub enum EmbeddingModel {
    /// all-MiniLM-L6-v2, with 384 dimensions.
    AllMiniLML6V2,
}

impl EmbeddingModel {
    pub open spec fn dimensions(&self) -> nat {
        match self {
            EmbeddingModel::AllMiniLML6V2 => 384,
        }
    }

    pub fn dimension_count(&self) -> (r: usize)
        ensures
            r == self.dimensions(),
    {
        match self {
            EmbeddingModel::AllMiniLML6V2 => 384,
        }
    }

    pub fn model_name(&self) -> (r: &'static str)
        ensures
            *self == EmbeddingModel::AllMiniLML6V2 ==> r@ == "sentence-transformers/all-MiniLM-L6-v2"@,
    {
        match self {
            EmbeddingModel::AllMiniLML6V2 => "sentence-transformers/all-MiniLM-L6-v2",
        }
    }
}

impl Default for EmbeddingModel {
    fn default() -> (r: Self)
        ensures
            r == EmbeddingModel::AllMiniLML6V2,
    {
        EmbeddingModel::AllMiniLML6V2
    }
}

impl ValueObject for EmbeddingModel {

}

} // verus!

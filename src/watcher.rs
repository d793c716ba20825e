//! File events from a watched knowledge base, and which of them matter.

use vstd::prelude::*;

verus! {

/// What happened to a file.
#[derive(Debug, Clone, Copy, PartialEq, Eq, Structural)]
pub enum FileEventKind {
    Created,
    Modified,
    Deleted,
}

/// A change to one file.
#[derive(Debug)]
pub struct FileEvent {
    pub path: String,
    pub kind: FileEventKind,
}

/// The extension of a path, as `std::path::Path::extension` reports it.
pub uninterp spec fn extension_of(p: Seq<char>) -> Option<Seq<char>>;

/// The path and its ancestors, nearest first, as `std::path::Path::ancestors` yields them.
pub uninterp spec fn ancestors_of(p: Seq<char>) -> Seq<Seq<char>>;

/// The last component of a path, as `std::path::Path::file_name` reports it.
pub uninterp spec fn file_name_of(p: Seq<char>) -> Option<Seq<char>>;

/// Relies on `std::path::Path::extension`, read back lossily as UTF-8.
#[verifier::external_body]
fn path_extension(p: &str) -> (r: Option<String>)
    ensures
        r matches Some(e) ==> extension_of(p@) == Some(e@),
        r is None ==> extension_of(p@) is None,
{
    match std::path::Path::new(p).extension() {
        Some(e) => Some(e.to_string_lossy().into_owned()),
        None => None,
    }
}

/// Relies on `std::path::Path::ancestors`, each read back lossily as UTF-8.
#[verifier::external_body]
fn path_ancestors(p: &str) -> (r: Vec<String>)
    ensures
        r@.map_values(|s: String| s@) == ancestors_of(p@),
{
    std::path::Path::new(p).ancestors().map(|a| a.to_string_lossy().into_owned()).collect()
}

/// Relies on `std::path::Path::file_name`, read back lossily as UTF-8.
#[verifier::external_body]
fn path_file_name(p: &str) -> (r: Option<String>)
    ensures
        r matches Some(n) ==> file_name_of(p@) == Some(n@),
        r is None ==> file_name_of(p@) is None,
{
    match std::path::Path::new(p).file_name() {
        Some(n) => Some(n.to_string_lossy().into_owned()),
        None => None,
    }
}

/// The file names of a path and of each of its ancestors, nearest first.
pub open spec fn ancestor_names_of(p: Seq<char>) -> Seq<Option<Seq<char>>> {
    ancestors_of(p).map_values(|a: Seq<char>| file_name_of(a))
}

pub open spec fn md_text() -> Seq<char> {
    seq!['m', 'd']
}

pub open spec fn is_tree_dir_name(n: Option<Seq<char>>) -> bool {
    n == Some(crate::value_objects::pages_name()) || n == Some(crate::value_objects::journals_name())
}

/// A directory the scan does not enter: a hidden one (its name starts with `.`) or `logseq`.
pub open spec fn skipped_dir_name(n: Seq<char>) -> bool {
    (n.len() > 0 && n[0] == '.') || n == seq!['l', 'o', 'g', 's', 'e', 'q']
}

/// Whether the directory scan enters a directory of this name.
pub fn is_traversed_dir(name: &str) -> (r: bool)
    ensures
        r == !skipped_dir_name(name@),
{
    let cs = crate::text::chars_of(name);
    if cs.len() > 0 && cs[0] == '.' {
        return false;
    }
    let logseq = vec!['l', 'o', 'g', 's', 'e', 'q'];
    if cs.len() == logseq.len() && crate::text::starts_with(cs.as_slice(), logseq.as_slice()) {
        proof {
            assert(cs@ =~= seq!['l', 'o', 'g', 's', 'e', 'q']);
        }
        return false;
    }
    proof {
        if cs@ == seq!['l', 'o', 'g', 's', 'e', 'q'] {
            assert(cs@.subrange(0, 6) =~= logseq@);
        }
    }
    true
}

/// Whether the scan keeps a file: its extension is `md`.
pub fn is_markdown_file(path: &str) -> (r: bool)
    ensures
        r == (extension_of(path@) == Some(md_text())),
{
    match path_extension(path) {
        Some(e) => {
            proof {
                reveal_strlit("md");
                assert("md"@ =~= md_text());
            }
            crate::text::same_text(e.as_str(), "md")
        },
        None => false,
    }
}

impl FileEvent {
    /// Whether the file's extension is `md`.
    pub fn is_markdown(&self) -> (r: bool)
        ensures
            r == (extension_of(self.path@) == Some(md_text())),
    {
        match path_extension(self.path.as_str()) {
            Some(e) => {
                proof {
                    reveal_strlit("md");
                    assert("md"@ =~= md_text());
                }
                crate::text::same_text(e.as_str(), "md")
            },
            None => false,
        }
    }

    /// Whether the path lies under a directory named `pages` or `journals` (or is one).
    pub fn is_in_logseq_dirs(&self) -> (r: bool)
        ensures
            r == exists|i: int| 0 <= i < ancestor_names_of(self.path@).len() && is_tree_dir_name(#[trigger] ancestor_names_of(self.path@)[i]),
    {
        let ancestors = path_ancestors(self.path.as_str());
        let ghost av = ancestors@.map_values(|s: String| s@);
        let ghost nv = ancestor_names_of(self.path@);
        proof {
            reveal_strlit("pages");
            reveal_strlit("journals");
            assert("pages"@ =~= crate::value_objects::pages_name());
            assert("journals"@ =~= crate::value_objects::journals_name());
        }
        let mut i: usize = 0;
        while i < ancestors.len()
            invariant
                i <= ancestors@.len(),
                nv == ancestor_names_of(self.path@),
                av == ancestors@.map_values(|s: String| s@),
                av == ancestors_of(self.path@),
                nv.len() == av.len(),
                "pages"@ == crate::value_objects::pages_name(),
                "journals"@ == crate::value_objects::journals_name(),
                forall|j: int| 0 <= j < i ==> !is_tree_dir_name(#[trigger] nv[j]),
            decreases ancestors.len() - i,
        {
            let name = path_file_name(ancestors[i].as_str());
            proof {
                assert(av[i as int] == ancestors@[i as int]@);
                assert(nv[i as int] == file_name_of(av[i as int]));
            }
            match &name {
                Some(n) => {
                    if crate::text::same_text(n.as_str(), "pages") || crate::text::same_text(n.as_str(), "journals") {
                        proof {
                            assert(nv[i as int] == Some(n@));
                            assert(is_tree_dir_name(nv[i as int]));
                            assert(nv == ancestor_names_of(self.path@));
                        }
                        return true;
                    }
                },
                None => {},
            }
            i = i + 1;
        }
        false
    }

    /// Whether the event concerns a markdown file of the knowledge base.
    pub fn is_relevant(&self) -> (r: bool)
        ensures
            r == (extension_of(self.path@) == Some(md_text()) && exists|i: int|
                0 <= i < ancestor_names_of(self.path@).len() && is_tree_dir_name(
                    #[trigger] ancestor_names_of(self.path@)[i],
                )),
    {
        self.is_markdown() && self.is_in_logseq_dirs()
    }
}

} // verus!

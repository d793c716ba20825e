//! Turning block text into input for an embedding model: markup removed, context
//! spliced in, and long texts cut into overlapping word windows.

use crate::parser::{lemma_token_end, token_end, tokens_from};
use crate::text::{chars_of, is_whitespace, string_of};
use vstd::prelude::*;

verus! {

/// `ws` joined with single spaces.
pub open spec fn joined(ws: Seq<Seq<char>>) -> Seq<char>
    decreases ws.len(),
{
    if ws.len() == 0 {
        Seq::empty()
    } else if ws.len() == 1 {
        ws[0]
    } else {
        joined(ws.drop_last()) + seq![' '] + ws.last()
    }
}

/// The word windows from `start` on: each takes up to `max` words, the next one starting
/// `overlap` words before the previous one ended, until the last word is taken.
pub open spec fn windows_from(ws: Seq<Seq<char>>, start: int, max: nat, overlap: nat) -> Seq<Seq<char>>
    decreases ws.len() - start,
{
    if start < 0 || start >= ws.len() || overlap >= max {
        Seq::empty()
    } else {
        let end = if start + max < ws.len() { start + max } else { ws.len() as int };
        if end >= ws.len() {
            seq![joined(ws.subrange(start, end))]
        } else {
            seq![joined(ws.subrange(start, end))] + windows_from(ws, end - overlap, max, overlap)
        }
    }
}

/// The chunks of a text: the text itself when it has at most `max` words, else its windows.
pub open spec fn chunks_of(text: Seq<char>, max: nat, overlap: nat) -> Seq<Seq<char>> {
    let ws = tokens_from(text, 0);
    if ws.len() <= max {
        seq![text]
    } else {
        windows_from(ws, 0, max, overlap)
    }
}

/// The whitespace-separated words of `s`.
pub fn split_words(s: &[char]) -> (r: Vec<Vec<char>>)
    ensures
        r@.map_values(|w: Vec<char>| w@) == tokens_from(s@, 0),
{
    let n = s.len();
    let mut out: Vec<Vec<char>> = Vec::new();
    let mut i: usize = 0;
    while i < n
        invariant
            n == s@.len(),
            i <= n,
            out@.map_values(|w: Vec<char>| w@) + tokens_from(s@, i as int) == tokens_from(s@, 0),
        decreases n - i,
    {
        if is_whitespace(s[i]) {
            i = i + 1;
        } else {
            let mut e: usize = i;
            while e < n && !is_whitespace(s[e])
                invariant
                    n == s@.len(),
                    i <= e <= n,
                    token_end(s@, i as int) == token_end(s@, e as int),
                decreases n - e,
            {
                e = e + 1;
            }
            proof {
                lemma_token_end(s@, i as int);
            }
            let w = crate::text::copy_range(s, i, e);
            let ghost before = out@;
            out.push(w);
            proof {
                assert(e == n ==> tokens_from(s@, e as int) =~= Seq::<Seq<char>>::empty());
                assert(tokens_from(s@, i as int) =~= seq![w@] + tokens_from(s@, e as int));
                assert(out@.map_values(|w: Vec<char>| w@) =~= before.map_values(|w: Vec<char>| w@).push(w@));
                assert(out@.map_values(|w: Vec<char>| w@) + tokens_from(s@, e as int) =~= before.map_values(|w: Vec<char>| w@) + tokens_from(s@, i as int));
            }
            i = e;
        }
    }
    proof {
        assert(tokens_from(s@, i as int) =~= Seq::<Seq<char>>::empty());
        assert(out@.map_values(|w: Vec<char>| w@) + Seq::<Seq<char>>::empty() =~= out@.map_values(|w: Vec<char>| w@));
    }
    out
}

/// The words `ws[from..to]` joined with single spaces.
pub fn join_words(ws: &Vec<Vec<char>>, from: usize, to: usize) -> (r: Vec<char>)
    requires
        from <= to <= ws@.len(),
    ensures
        r@ == joined(ws@.map_values(|w: Vec<char>| w@).subrange(from as int, to as int)),
{
    let ghost wv = ws@.map_values(|w: Vec<char>| w@);
    let mut out: Vec<char> = Vec::new();
    let mut k: usize = from;
    while k < to
        invariant
            from <= k <= to <= ws@.len(),
            wv == ws@.map_values(|w: Vec<char>| w@),
            out@ == joined(wv.subrange(from as int, k as int)),
        decreases to - k,
    {
        let ghost before = out@;
        if k > from {
            out.push(' ');
        }
        let w = &ws[k];
        let mut j: usize = 0;
        let ghost mid = out@;
        while j < w.len()
            invariant
                j <= w@.len(),
                out@ == mid + w@.subrange(0, j as int),
            decreases w.len() - j,
        {
            out.push(w[j]);
            proof {
                assert(out@ =~= mid + w@.subrange(0, j + 1));
            }
            j = j + 1;
        }
        proof {
            assert(w@.subrange(0, w@.len() as int) =~= w@);
            assert(wv[k as int] == w@);
            let sub = wv.subrange(from as int, k + 1);
            assert(sub.drop_last() =~= wv.subrange(from as int, k as int));
            assert(sub.last() == w@);
            if k > from {
                assert(out@ =~= before + seq![' '] + w@);
            } else {
                assert(wv.subrange(from as int, k as int).len() == 0);
                assert(out@ =~= w@);
            }
        }
        k = k + 1;
    }
    out
}

/// What `regex::Regex::replace_all` makes of `text` for `pattern` and `replacement`.
pub uninterp spec fn regex_replaced(pattern: Seq<char>, text: Seq<char>, replacement: Seq<char>) -> Seq<char>;

/// Whether `regex::Regex::new` accepts the pattern.
pub uninterp spec fn regex_compiles(pattern: Seq<char>) -> bool;

/// The text with the pattern's matches replaced, or the text itself when the pattern does not
/// compile.
pub open spec fn replaced_or_kept(pattern: Seq<char>, text: Seq<char>, replacement: Seq<char>) -> Seq<char> {
    if regex_compiles(pattern) {
        regex_replaced(pattern, text, replacement)
    } else {
        text
    }
}

pub open spec fn marker_pattern() -> Seq<char> {
    "^(TODO|DONE|LATER|NOW|IN-PROGRESS)\\s+"@
}

pub open spec fn reference_pattern() -> Seq<char> {
    "\\[\\[([^\\]]+)\\]\\]"@
}

pub open spec fn tag_pattern() -> Seq<char> {
    "#(\\w+)"@
}

/// Block text without a leading status marker, with `[[title]]` and `#tag` reduced to their
/// names.
pub open spec fn cleaned(content: Seq<char>) -> Seq<char> {
    replaced_or_kept(
        tag_pattern(),
        replaced_or_kept(reference_pattern(), replaced_or_kept(marker_pattern(), content, ""@), "$1"@),
        "$1"@,
    )
}

/// Relies on `regex::Regex::new` and `Regex::replace_all`: each match of the pattern replaced,
/// `$1` standing for its first group; `None` when the pattern does not compile.
#[verifier::external_body]
fn replace_matches(pattern: &str, text: &str, replacement: &str) -> (r: Option<String>)
    ensures
        r is Some <==> regex_compiles(pattern@),
        r matches Some(s) ==> s@ == regex_replaced(pattern@, text@, replacement@),
{
    match regex::Regex::new(pattern) {
        Ok(re) => Some(re.replace_all(text, replacement).into_owned()),
        Err(_) => None,
    }
}

pub open spec fn page_label() -> Seq<char> {
    seq!['P', 'a', 'g', 'e', ':', ' ']
}

pub open spec fn context_label() -> Seq<char> {
    seq!['C', 'o', 'n', 't', 'e', 'x', 't', ':', ' ']
}

/// `ps` joined with `sep`.
pub open spec fn joined_with(ps: Seq<Seq<char>>, sep: Seq<char>) -> Seq<char>
    decreases ps.len(),
{
    if ps.len() == 0 {
        Seq::empty()
    } else if ps.len() == 1 {
        ps[0]
    } else {
        joined_with(ps.drop_last(), sep) + sep + ps.last()
    }
}

/// The context lines: the page title when there is one, then the last two path entries.
pub open spec fn context_parts(title: Seq<char>, path: Seq<Seq<char>>) -> Seq<Seq<char>> {
    let head: Seq<Seq<char>> = if title.len() > 0 {
        seq![page_label() + title]
    } else {
        Seq::empty()
    };
    let k = if path.len() < 2 { path.len() as int } else { 2 };
    if path.len() > 0 {
        head.push(context_label() + joined_with(path.subrange(path.len() - k, path.len() as int), seq![' ', '>', ' ']))
    } else {
        head
    }
}

/// The text with its context spliced in front: `parts. text`, or the text alone.
pub open spec fn spliced(title: Seq<char>, path: Seq<Seq<char>>, body: Seq<char>) -> Seq<char> {
    let parts = context_parts(title, path);
    if parts.len() > 0 {
        joined_with(parts, seq!['.', ' ']) + seq!['.', ' '] + crate::text::trim(body)
    } else {
        crate::text::trim(body)
    }
}

pub open spec fn string_views(v: Seq<String>) -> Seq<Seq<char>> {
    v.map_values(|s: String| s@)
}

/// Prepares block text for an embedding model.
pub struct TextPreprocessor;

impl TextPreprocessor {
    pub fn new() -> (r: TextPreprocessor) {
        TextPreprocessor
    }

    /// The cleaned text with its page title and the last two entries of its hierarchy path
    /// spliced in front.
    pub fn add_context(&self, text: &str, page_title: &str, hierarchy_path: &[String]) -> (r: String)
        ensures
            r@ == spliced(page_title@, hierarchy_path@.map_values(|s: String| s@), text@),
    {
        let ghost path = hierarchy_path@.map_values(|s: String| s@);
        let mut parts: Vec<Vec<char>> = Vec::new();
        let mut t = chars_of(page_title);
        if t.len() > 0 {
            let mut p = vec!['P', 'a', 'g', 'e', ':', ' '];
            p.append(&mut t);
            parts.push(p);
        }
        let n = hierarchy_path.len();
        if n > 0 {
            let k: usize = if n < 2 { n } else { 2 };
            let mut c = vec!['C', 'o', 'n', 't', 'e', 'x', 't', ':', ' '];
            let ghost c0 = c@;
            let mut i: usize = n - k;
            while i < n
                invariant
                    k <= n,
                    n - k <= i <= n,
                    n == hierarchy_path@.len(),
                    k >= 1,
                    path == hierarchy_path@.map_values(|s: String| s@),
                    c@ == c0 + joined_with(path.subrange(n - k, i as int), seq![' ', '>', ' ']),
                decreases n - i,
            {
                let ghost before = c@;
                if i > n - k {
                    c.push(' ');
                    c.push('>');
                    c.push(' ');
                }
                let mut w = chars_of(hierarchy_path[i].as_str());
                c.append(&mut w);
                proof {
                    let sub = path.subrange(n - k, i + 1);
                    assert(sub.drop_last() =~= path.subrange(n - k, i as int));
                    assert(sub.last() == hierarchy_path@[i as int]@);
                    if i > n - k {
                        assert(c@ =~= before + seq![' ', '>', ' '] + hierarchy_path@[i as int]@);
                    } else {
                        assert(c@ =~= c0 + hierarchy_path@[i as int]@);
                    }
                }
                i = i + 1;
            }
            parts.push(c);
        }
        let ghost pv = parts@.map_values(|v: Vec<char>| v@);
        proof {
            assert(pv =~= context_parts(page_title@, path));
        }
        let tv = chars_of(text);
        let body = crate::text::trim_chars(tv.as_slice());
        if parts.len() == 0 {
            return string_of(body.as_slice());
        }
        let mut out: Vec<char> = Vec::new();
        let mut j: usize = 0;
        while j < parts.len()
            invariant
                j <= parts@.len(),
                pv == parts@.map_values(|v: Vec<char>| v@),
                out@ == joined_with(pv.take(j as int), seq!['.', ' ']),
            decreases parts.len() - j,
        {
            let ghost before = out@;
            if j > 0 {
                out.push('.');
                out.push(' ');
            }
            let mut piece = parts[j].clone();
            out.append(&mut piece);
            proof {
                assert(pv.take(j + 1).drop_last() =~= pv.take(j as int));
                assert(pv.take(j + 1).last() == parts@[j as int]@);
                if j > 0 {
                    assert(out@ =~= before + seq!['.', ' '] + parts@[j as int]@);
                } else {
                    assert(out@ =~= parts@[j as int]@);
                }
            }
            j = j + 1;
        }
        proof {
            assert(pv.take(parts@.len() as int) =~= pv);
        }
        out.push('.');
        out.push(' ');
        let mut b = body;
        out.append(&mut b);
        proof {
            assert(out@ =~= joined_with(pv, seq!['.', ' ']) + seq!['.', ' '] + crate::text::trim(text@));
        }
        string_of(out.as_slice())
    }

    /// The block text made ready for embedding: a leading status marker dropped, `[[title]]`
    /// and `#tag` reduced to their names, and the context spliced in front.
    pub fn preprocess(&self, content: &str, page_title: &str, hierarchy_path: &[String]) -> (r: String)
        ensures
            r@ == spliced(page_title@, string_views(hierarchy_path@), cleaned(content@)),
    {
        let no_marker = match replace_matches("^(TODO|DONE|LATER|NOW|IN-PROGRESS)\\s+", content, "") {
            Some(t) => t,
            None => content.to_string(),
        };
        let no_refs = match replace_matches("\\[\\[([^\\]]+)\\]\\]", no_marker.as_str(), "$1") {
            Some(t) => t,
            None => no_marker,
        };
        let no_tags = match replace_matches("#(\\w+)", no_refs.as_str(), "$1") {
            Some(t) => t,
            None => no_refs,
        };
        let r = self.add_context(no_tags.as_str(), page_title, hierarchy_path);
        proof {
            assert(string_views(hierarchy_path@) == hierarchy_path@.map_values(|s: String| s@));
            assert(r@ == spliced(page_title@, string_views(hierarchy_path@), no_tags@));
        }
        r
    }

    /// Cuts `text` into chunks of at most `max_words` words; consecutive chunks share
    /// `overlap_words` words. A text of at most `max_words` words is its own only chunk.
    pub fn chunk_text(&self, text: &str, max_words: usize, overlap_words: usize) -> (r: Vec<String>)
        requires
            overlap_words < max_words,
        ensures
            r@.map_values(|c: String| c@) == chunks_of(text@, max_words as nat, overlap_words as nat),
            r@.len() >= 1,
    {
        let s = chars_of(text);
        let words = split_words(s.as_slice());
        let ghost wv = words@.map_values(|w: Vec<char>| w@);
        let n = words.len();
        let mut chunks: Vec<String> = Vec::new();
        if n <= max_words {
            chunks.push(text.to_string());
            proof {
                assert(chunks@.map_values(|c: String| c@) =~= seq![text@]);
            }
            return chunks;
        }
        let mut start: usize = 0;
        let mut done = false;
        while !done
            invariant
                n == wv.len(),
                wv == words@.map_values(|w: Vec<char>| w@),
                wv == tokens_from(text@, 0),
                overlap_words < max_words,
                n > max_words,
                start < n,
                !done ==> chunks@.map_values(|c: String| c@) + windows_from(wv, start as int, max_words as nat, overlap_words as nat)
                    == windows_from(wv, 0, max_words as nat, overlap_words as nat),
                done ==> chunks@.map_values(|c: String| c@) == windows_from(wv, 0, max_words as nat, overlap_words as nat),
            decreases n - start + (if done { 0int } else { 1int }),
        {
            let end = if max_words < n - start { start + max_words } else { n };
            let piece = join_words(&words, start, end);
            let ghost before = chunks@;
            chunks.push(string_of(piece.as_slice()));
            proof {
                assert(chunks@.map_values(|c: String| c@) =~= before.map_values(|c: String| c@).push(piece@));
            }
            if end >= n {
                proof {
                    assert(windows_from(wv, start as int, max_words as nat, overlap_words as nat) =~= seq![piece@]);
                    assert(before.map_values(|c: String| c@).push(piece@) =~= before.map_values(|c: String| c@) + seq![piece@]);
                }
                done = true;
            } else {
                proof {
                    let rest = windows_from(wv, end - overlap_words, max_words as nat, overlap_words as nat);
                    assert(windows_from(wv, start as int, max_words as nat, overlap_words as nat) == seq![piece@] + rest);
                    assert(before.map_values(|c: String| c@).push(piece@) + rest =~= before.map_values(|c: String| c@) + (seq![piece@] + rest));
                }
                start = end - overlap_words;
            }
        }
        chunks
    }
}

} // verus!

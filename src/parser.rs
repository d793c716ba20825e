//! The markdown parser: indented bullet lines become a page's block tree.

use crate::aggregates::{has_id, Page};
use crate::base::DomainError;
use crate::entities::{push_new, Block, BlockView};
use crate::text::{
    blank, chars_of, is_ascii_punct, is_ascii_punctuation, is_blank, is_whitespace, skip_whitespace,
    string_of, trim_start, whitespace_of,
};
use crate::value_objects::{decimal, decimal_digits, digit_char, is_url_text, BlockContent, BlockId, IndentLevel, PageId, PageReference, Url};
use vstd::prelude::*;

verus! {

/// Why a file could not be turned into a page.
#[derive(Debug)]
pub enum ParseError {
    /// The file could not be read.
    Io(String),
    /// An indented line has no block one level up to hang from.
    InvalidMarkdown(String),
    /// A domain rule refused a value.
    Domain(DomainError),
}

pub type ParseResult<T> = Result<T, ParseError>;

pub open spec fn io_label() -> Seq<char> {
    seq!['I', 'O', ' ', 'e', 'r', 'r', 'o', 'r', ':', ' ']
}

pub open spec fn markdown_label() -> Seq<char> {
    seq![
        'I', 'n', 'v', 'a', 'l', 'i', 'd', ' ', 'm', 'a', 'r', 'k', 'd', 'o', 'w', 'n', ' ', 's',
        't', 'r', 'u', 'c', 't', 'u', 'r', 'e', ':', ' ',
    ]
}

pub open spec fn domain_label() -> Seq<char> {
    seq!['D', 'o', 'm', 'a', 'i', 'n', ' ', 'e', 'r', 'r', 'o', 'r', ':', ' ']
}

impl ParseError {
    /// The error rendered for people.
    pub open spec fn text(&self) -> Seq<char> {
        match self {
            ParseError::Io(m) => io_label() + m@,
            ParseError::InvalidMarkdown(m) => markdown_label() + m@,
            ParseError::Domain(e) => domain_label() + e.label() + e.message(),
        }
    }

    pub fn to_string(&self) -> (r: String)
        ensures
            r@ == self.text(),
    {
        match self {
            ParseError::Io(m) => {
                let head = string_of(vec!['I', 'O', ' ', 'e', 'r', 'r', 'o', 'r', ':', ' '].as_slice());
                let r = head.concat(m.as_str());
                proof {
                    assert(r@ =~= self.text());
                }
                r
            },
            ParseError::InvalidMarkdown(m) => {
                let head = string_of(
                    vec![
                        'I', 'n', 'v', 'a', 'l', 'i', 'd', ' ', 'm', 'a', 'r', 'k', 'd', 'o', 'w',
                        'n', ' ', 's', 't', 'r', 'u', 'c', 't', 'u', 'r', 'e', ':', ' ',
                    ].as_slice(),
                );
                let r = head.concat(m.as_str());
                proof {
                    assert(r@ =~= self.text());
                }
                r
            },
            ParseError::Domain(e) => {
                let head = string_of(
                    vec!['D', 'o', 'm', 'a', 'i', 'n', ' ', 'e', 'r', 'r', 'o', 'r', ':', ' '].as_slice(),
                );
                let inner = e.to_string();
                let r = head.concat(inner.as_str());
                proof {
                    assert(r@ =~= self.text());
                }
                r
            },
        }
    }
}

/// The parser of outliner markdown.
pub struct LogseqMarkdownParser;

/// Index of the first line break at or after `i`, or the length.
pub open spec fn line_end(s: Seq<char>, i: int) -> int
    decreases s.len() - i,
{
    if i >= s.len() || i < 0 {
        s.len() as int
    } else if s[i] == '\n' {
        i
    } else {
        line_end(s, i + 1)
    }
}

/// A line as it lies between `i` and `e`, without the carriage return of a `\r\n` break.
pub open spec fn line_text(s: Seq<char>, i: int, e: int) -> Seq<char> {
    if e < s.len() && e > i && s[e - 1] == '\r' {
        s.subrange(i, e - 1)
    } else {
        s.subrange(i, e)
    }
}

/// The lines of `s` from index `i` on, split at `\n`; a final line break ends the last line.
pub open spec fn lines_from(s: Seq<char>, i: int) -> Seq<Seq<char>>
    decreases s.len() - i,
{
    if i < 0 || i >= s.len() {
        Seq::empty()
    } else {
        let e = line_end(s, i);
        if e < i || e > s.len() {
            Seq::empty()
        } else if e == s.len() {
            seq![line_text(s, i, e)]
        } else {
            seq![line_text(s, i, e)] + lines_from(s, e + 1)
        }
    }
}

pub proof fn lemma_line_end_bounds(s: Seq<char>, i: int)
    requires
        0 <= i <= s.len(),
    ensures
        i <= line_end(s, i) <= s.len(),
        line_end(s, i) < s.len() ==> s[line_end(s, i)] == '\n',
    decreases s.len() - i,
{
    if i < s.len() && s[i] != '\n' {
        lemma_line_end_bounds(s, i + 1);
    }
}

/// Indent level of `s` from index `i`: each tab is one level, each complete pair of spaces in
/// a run of spaces is one level (an odd space left over counts for nothing), and the scan
/// stops at any other character.
pub open spec fn indent_from(s: Seq<char>, i: int) -> nat
    decreases s.len() - i,
{
    if i < 0 || i >= s.len() {
        0
    } else if s[i] == '\t' {
        1 + indent_from(s, i + 1)
    } else if s[i] == ' ' {
        if i + 1 < s.len() && s[i + 1] == ' ' {
            1 + indent_from(s, i + 2)
        } else {
            indent_from(s, i + 1)
        }
    } else {
        0
    }
}

pub open spec fn is_bullet(c: char) -> bool {
    c == '-' || c == '*' || c == '+'
}

/// The content of a line: leading whitespace dropped, then a bullet marker with its space.
pub open spec fn content_of(line: Seq<char>) -> Seq<char> {
    let t = trim_start(line);
    if t.len() >= 2 && is_bullet(t[0]) && t[1] == ' ' {
        t.subrange(2, t.len() as int)
    } else if t.len() >= 1 && is_bullet(t[0]) {
        trim_start(t.subrange(1, t.len() as int))
    } else {
        t
    }
}

/// The (level, content) entries of the lines that hold something.
pub open spec fn entries_of(lines: Seq<Seq<char>>) -> Seq<(nat, Seq<char>)>
    decreases lines.len(),
{
    if lines.len() == 0 {
        Seq::empty()
    } else {
        let line = lines.last();
        let rest = entries_of(lines.drop_last());
        if is_blank(line) || is_blank(content_of(line)) {
            rest
        } else {
            rest.push((indent_from(line, 0), content_of(line)))
        }
    }
}

/// The entries that a text yields.
pub open spec fn entries_of_text(s: Seq<char>) -> Seq<(nat, Seq<char>)> {
    entries_of(lines_from(s, 0))
}

pub open spec fn entry_views(v: Seq<(usize, String)>) -> Seq<(nat, Seq<char>)> {
    v.map_values(|e: (usize, String)| (e.0 as nat, e.1@))
}

/// Index of the first whitespace at or after `i`, or the length.
pub open spec fn token_end(s: Seq<char>, i: int) -> int
    decreases s.len() - i,
{
    if i < 0 || i >= s.len() {
        s.len() as int
    } else if whitespace_of(s[i]) {
        i
    } else {
        token_end(s, i + 1)
    }
}

/// The whitespace-separated words of `s` from index `i` on.
pub open spec fn tokens_from(s: Seq<char>, i: int) -> Seq<Seq<char>>
    decreases s.len() - i,
{
    if i < 0 || i >= s.len() {
        Seq::empty()
    } else if whitespace_of(s[i]) {
        tokens_from(s, i + 1)
    } else {
        let e = token_end(s, i);
        if e <= i || e > s.len() {
            Seq::empty()
        } else if e == s.len() {
            seq![s.subrange(i, e)]
        } else {
            seq![s.subrange(i, e)] + tokens_from(s, e)
        }
    }
}

/// `t` without its trailing ASCII punctuation.
pub open spec fn trim_end_punct(t: Seq<char>) -> Seq<char>
    decreases t.len(),
{
    if t.len() > 0 && is_ascii_punct(t.last()) {
        trim_end_punct(t.drop_last())
    } else {
        t
    }
}

/// The words that, once stripped of trailing punctuation, are URLs.
pub open spec fn keep_urls(ts: Seq<Seq<char>>) -> Seq<Seq<char>>
    decreases ts.len(),
{
    if ts.len() == 0 {
        Seq::empty()
    } else {
        let u = trim_end_punct(ts.last());
        keep_urls(ts.drop_last()) + (if is_url_text(u) {
            seq![u]
        } else {
            Seq::empty()
        })
    }
}

/// The URLs written in a text, in order.
pub open spec fn urls_in_text(s: Seq<char>) -> Seq<Seq<char>> {
    keep_urls(tokens_from(s, 0))
}

/// Index of the first `]]` at or after `p`, or -1.
pub open spec fn close_from(s: Seq<char>, p: int) -> int
    decreases s.len() - p,
{
    if p < 0 || p + 1 >= s.len() {
        -1
    } else if s[p] == ']' && s[p + 1] == ']' {
        p
    } else {
        close_from(s, p + 1)
    }
}

/// Index of the first whitespace or ASCII punctuation at or after `p`, or the length.
pub open spec fn tag_end(s: Seq<char>, p: int) -> int
    decreases s.len() - p,
{
    if p < 0 || p >= s.len() {
        s.len() as int
    } else if whitespace_of(s[p]) || is_ascii_punct(s[p]) {
        p
    } else {
        tag_end(s, p + 1)
    }
}

/// The references written in `s` from index `pos` on: `[[title]]` with a non-empty title, and
/// `#tag` at the start or after whitespace, the tag running to whitespace or punctuation.
pub open spec fn refs_from(s: Seq<char>, pos: int) -> Seq<(Seq<char>, bool)>
    decreases s.len() - pos,
{
    if pos < 0 || pos >= s.len() {
        Seq::empty()
    } else if pos + 1 < s.len() && s[pos] == '[' && s[pos + 1] == '[' {
        let q = close_from(s, pos + 2);
        if q < pos + 2 || q + 2 > s.len() {
            Seq::empty()
        } else {
            let t = s.subrange(pos + 2, q);
            (if t.len() > 0 {
                seq![(t, false)]
            } else {
                Seq::empty()
            }) + refs_from(s, q + 2)
        }
    } else if s[pos] == '#' && (pos == 0 || whitespace_of(s[pos - 1])) && pos + 1 < s.len() {
        let e = tag_end(s, pos + 1);
        if e <= pos + 1 || e > s.len() {
            refs_from(s, pos + 1)
        } else {
            seq![(s.subrange(pos + 1, e), true)] + refs_from(s, e)
        }
    } else {
        refs_from(s, pos + 1)
    }
}

/// The references written in a text, in order.
pub open spec fn refs_in_text(s: Seq<char>) -> Seq<(Seq<char>, bool)> {
    refs_from(s, 0)
}

/// `s` with repeats dropped, first occurrences kept in order.
pub open spec fn dedup<A>(s: Seq<A>) -> Seq<A>
    decreases s.len(),
{
    if s.len() == 0 {
        Seq::empty()
    } else {
        push_new(dedup(s.drop_last()), s.last())
    }
}

pub proof fn lemma_token_end(s: Seq<char>, i: int)
    requires
        0 <= i <= s.len(),
    ensures
        i <= token_end(s, i) <= s.len(),
    decreases s.len() - i,
{
    if i < s.len() && !whitespace_of(s[i]) {
        lemma_token_end(s, i + 1);
    }
}

pub proof fn lemma_tag_end(s: Seq<char>, i: int)
    requires
        0 <= i <= s.len(),
    ensures
        i <= tag_end(s, i) <= s.len(),
    decreases s.len() - i,
{
    if i < s.len() && !(whitespace_of(s[i]) || is_ascii_punct(s[i])) {
        lemma_tag_end(s, i + 1);
    }
}

/// The nearest entry before `t` whose level is at most `l`, or -1.
pub open spec fn nearest_at_most(es: Seq<(nat, Seq<char>)>, t: int, l: nat) -> int
    decreases t,
{
    if t <= 0 {
        -1
    } else if es[t - 1].0 <= l {
        t - 1
    } else {
        nearest_at_most(es, t - 1, l)
    }
}

/// The entry that entry `t` hangs from: the latest block still open one level up.
pub open spec fn parent_entry(es: Seq<(nat, Seq<char>)>, t: int) -> int {
    if es[t].0 == 0 {
        -1
    } else {
        nearest_at_most(es, t, (es[t].0 - 1) as nat)
    }
}

/// Entry `t` is at the root level, or a block is open exactly one level up.
pub open spec fn placeable(es: Seq<(nat, Seq<char>)>, t: int) -> bool {
    es[t].0 == 0 || (parent_entry(es, t) >= 0 && es[parent_entry(es, t)].0 + 1 == es[t].0)
}

/// Every entry can be placed in the tree.
pub open spec fn well_nested(es: Seq<(nat, Seq<char>)>) -> bool {
    forall|t: int| 0 <= t < es.len() ==> #[trigger] placeable(es, t)
}

/// The block that entry `t` becomes when the blocks get identifiers `ids`.
pub open spec fn parsed_block(es: Seq<(nat, Seq<char>)>, ids: Seq<Seq<char>>, t: int) -> BlockView {
    BlockView {
        id: ids[t],
        content: es[t].1,
        indent: es[t].0,
        parent: if es[t].0 == 0 {
            None
        } else {
            Some(ids[parent_entry(es, t)])
        },
        children: Seq::empty(),
        urls: dedup(urls_in_text(es[t].1)),
        refs: dedup(refs_in_text(es[t].1)),
    }
}

/// The identifiers of the blocks.
pub open spec fn ids_of(bs: Seq<BlockView>) -> Seq<Seq<char>> {
    bs.map_values(|b: BlockView| b.id)
}

/// The blocks are the entries' blocks, one per entry and in order (children aside).
pub open spec fn parsed_as(bs: Seq<BlockView>, es: Seq<(nat, Seq<char>)>) -> bool {
    &&& bs.len() == es.len()
    &&& forall|t: int|
        0 <= t < bs.len() ==> crate::aggregates::as_stored(#[trigger] bs[t]) == parsed_block(
            es,
            ids_of(bs),
            t,
        )
}

/// No identifier occurs twice.
pub open spec fn distinct(ids: Seq<Seq<char>>) -> bool {
    forall|a: int, b: int| 0 <= a < ids.len() && 0 <= b < ids.len() && a != b ==> ids[a] != ids[b]
}

pub open spec fn block_id_views(v: Seq<BlockId>) -> Seq<Seq<char>> {
    v.map_values(|b: BlockId| b@)
}

/// Relies on `uuid::Uuid::new_v4` and its `Display`: a random version-4 UUID as text.
#[verifier::external_body]
fn random_uuid_text() -> (r: String) {
    uuid::Uuid::new_v4().to_string()
}

pub proof fn lemma_decimal_len(n: nat)
    ensures
        decimal(n).len() >= 1,
        n >= 10 ==> decimal(n).len() >= 2,
    decreases n,
{
    if n >= 10 {
        lemma_decimal_len(n / 10);
    }
}

/// Different numbers have different decimal forms.
pub proof fn lemma_decimal_injective(a: nat, b: nat)
    requires
        decimal(a) == decimal(b),
    ensures
        a == b,
    decreases a,
{
    lemma_decimal_len(a);
    lemma_decimal_len(b);
    if a < 10 && b < 10 {
        assert(decimal(a)[0] == digit_char(a));
        assert(decimal(b)[0] == digit_char(b));
        assert((48 + a) as u8 == (48 + b) as u8);
    } else if a >= 10 && b >= 10 {
        let da = decimal(a);
        let db = decimal(b);
        assert(da.drop_last() =~= decimal(a / 10));
        assert(db.drop_last() =~= decimal(b / 10));
        lemma_decimal_injective(a / 10, b / 10);
        assert(da.last() == digit_char(a % 10));
        assert(db.last() == digit_char(b % 10));
        assert((48 + a % 10) as u8 == (48 + b % 10) as u8);
    } else {
        assert(decimal(a).len() != decimal(b).len());
    }
}

/// Identifiers for `n` blocks of one page: `block-`, a random UUID drawn once, `-` and the
/// block's number. They are distinct by construction.
pub fn block_ids(n: usize) -> (r: Vec<BlockId>)
    ensures
        r@.len() == n,
        distinct(block_id_views(r@)),
{
    let u = random_uuid_text();
    let head = string_of(vec!['b', 'l', 'o', 'c', 'k', '-'].as_slice());
    let dash = string_of(vec!['-'].as_slice());
    let prefix = head.concat(u.as_str()).concat(dash.as_str());
    let ghost pv = prefix@;
    let mut ids: Vec<BlockId> = Vec::new();
    let mut k: usize = 0;
    while k < n
        invariant
            k <= n,
            ids@.len() == k,
            prefix@ == pv,
            pv.len() > 0,
            forall|m: int| 0 <= m < k ==> (#[trigger] ids@[m])@ == pv + decimal(m as nat),
        decreases n - k,
    {
        let digits = decimal_digits(k);
        let tail = string_of(digits.as_slice());
        let text = prefix.clone().concat(tail.as_str());
        match BlockId::new(text.as_str()) {
            Ok(b) => {
                ids.push(b);
            },
            Err(_) => {
                proof {
                    assert(text@.len() > 0);
                }
            },
        }
        k = k + 1;
    }
    proof {
        assert forall|a: int, b: int| 0 <= a < ids@.len() && 0 <= b < ids@.len() && a != b implies block_id_views(ids@)[a] != block_id_views(ids@)[b] by {
            if block_id_views(ids@)[a] == block_id_views(ids@)[b] {
                let x = pv + decimal(a as nat);
                let y = pv + decimal(b as nat);
                assert(x.subrange(pv.len() as int, x.len() as int) =~= decimal(a as nat));
                assert(y.subrange(pv.len() as int, y.len() as int) =~= decimal(b as nat));
                lemma_decimal_injective(a as nat, b as nat);
            }
        }
    }
    ids
}

/// A line whose content is empty once its bullet is stripped yields no entry.
pub proof fn lemma_empty_content_discarded(lines: Seq<Seq<char>>, line: Seq<char>)
    requires
        is_blank(content_of(line)),
    ensures
        entries_of(lines.push(line)) == entries_of(lines),
{
    assert(lines.push(line).drop_last() =~= lines);
}

/// An indented entry with no block open one level up makes the whole text ill-nested.
pub proof fn lemma_missing_parent_fails(es: Seq<(nat, Seq<char>)>, t: int)
    requires
        0 <= t < es.len(),
        !placeable(es, t),
    ensures
        !well_nested(es),
{
}

/// A block is open at level `k` just before entry `i`: some earlier entry has level `k` and no
/// entry since is shallower.
pub open spec fn frame_open(es: Seq<(nat, Seq<char>)>, i: int, k: nat) -> bool {
    exists|j: int|
        0 <= j < i && (#[trigger] es[j]).0 == k && forall|m: int| j < m < i ==> (#[trigger] es[m]).0 >= k
}

pub proof fn lemma_nearest_shape(es: Seq<(nat, Seq<char>)>, t: int, l: nat)
    requires
        0 <= t <= es.len(),
    ensures
        nearest_at_most(es, t, l) >= 0 ==> es[nearest_at_most(es, t, l)].0 <= l,
        forall|m: int| nearest_at_most(es, t, l) < m < t && 0 <= m ==> (#[trigger] es[m]).0 > l,
    decreases t,
{
    lemma_nearest_bounds(es, t, l);
    if t > 0 && es[t - 1].0 > l {
        lemma_nearest_shape(es, t - 1, l);
    }
}

/// An indented entry can be placed exactly when a block is open one level up: the nearest
/// earlier entry at most one level up is exactly one level up.
pub proof fn lemma_placeable_iff_frame(es: Seq<(nat, Seq<char>)>, t: int)
    requires
        0 <= t < es.len(),
        es[t].0 >= 1,
    ensures
        placeable(es, t) <==> frame_open(es, t, (es[t].0 - 1) as nat),
{
    let k = (es[t].0 - 1) as nat;
    let s = nearest_at_most(es, t, k);
    lemma_nearest_shape(es, t, k);
    lemma_nearest_bounds(es, t, k);
    if placeable(es, t) {
        assert(s >= 0 && es[s].0 == k);
        assert forall|m: int| s < m < t implies (#[trigger] es[m]).0 >= k by {}
        assert(frame_open(es, t, k));
    }
    if frame_open(es, t, k) {
        let j = choose|j: int|
            0 <= j < t && (#[trigger] es[j]).0 == k && forall|m: int| j < m < t ==> (#[trigger] es[m]).0 >= k;
        if s < j {
            assert(es[j].0 > k);
        }
        assert(s >= j);
        assert(es[s].0 >= k);
        assert(placeable(es, t));
    }
}

pub proof fn lemma_nearest_bounds(es: Seq<(nat, Seq<char>)>, t: int, l: nat)
    requires
        0 <= t <= es.len(),
    ensures
        -1 <= nearest_at_most(es, t, l) < t,
    decreases t,
{
    if t > 0 && es[t - 1].0 > l {
        lemma_nearest_bounds(es, t - 1, l);
    }
}

/// A fresh page identifier, `page-` followed by a random UUID.
pub fn fresh_page_id() -> (r: PageId)
    ensures
        r@.len() > 0,
{
    let u = random_uuid_text();
    let head = string_of(vec!['p', 'a', 'g', 'e', '-'].as_slice());
    let text = head.concat(u.as_str());
    match PageId::new(text.as_str()) {
        Ok(p) => p,
        Err(_) => {
            proof {
                assert(text@[0] == 'p');
            }
            PageId::new("page").unwrap()
        },
    }
}

pub proof fn lemma_add_url_dedup(us: Seq<Seq<char>>, k: int)
    requires
        0 <= k < us.len(),
    ensures
        dedup(us.take(k + 1)) == push_new(dedup(us.take(k)), us[k]),
{
    assert(us.take(k + 1).drop_last() =~= us.take(k));
}

impl LogseqMarkdownParser {
    /// The URLs written in a text, in order (repeats kept).
    pub fn extract_urls(content: &str) -> (r: Vec<Url>)
        ensures
            crate::entities::url_texts(r@) == urls_in_text(content@),
    {
        let s = chars_of(content);
        let n = s.len();
        let mut out: Vec<Url> = Vec::new();
        let ghost mut done: Seq<Seq<char>> = Seq::empty();
        let mut i: usize = 0;
        while i < n
            invariant
                n == s@.len(),
                s@ == content@,
                i <= n,
                done + tokens_from(s@, i as int) == tokens_from(s@, 0),
                crate::entities::url_texts(out@) == keep_urls(done),
            decreases n - i,
        {
            if is_whitespace(s[i]) {
                i = i + 1;
            } else {
                let mut e: usize = i;
                while e < n && !is_whitespace(s[e])
                    invariant
                        n == s@.len(),
                        i <= e <= n,
                        token_end(s@, i as int) == token_end(s@, e as int),
                    decreases n - e,
                {
                    e = e + 1;
                }
                proof {
                    lemma_token_end(s@, i as int);
                }
                let tok = crate::text::copy_range(s.as_slice(), i, e);
                let mut m: usize = e - i;
                proof {
                    assert(tok@.subrange(0, m as int) =~= tok@);
                }
                while m > 0 && is_ascii_punctuation(tok[m - 1])
                    invariant
                        m <= tok@.len(),
                        trim_end_punct(tok@) == trim_end_punct(tok@.subrange(0, m as int)),
                    decreases m,
                {
                    proof {
                        assert(tok@.subrange(0, m as int).drop_last() =~= tok@.subrange(0, m - 1));
                    }
                    m = m - 1;
                }
                proof {
                    assert(tok@.subrange(0, tok@.len() as int) =~= tok@);
                }
                let cand = crate::text::copy_range(tok.as_slice(), 0, m);
                let text = string_of(cand.as_slice());
                proof {
                    let t = tokens_from(s@, i as int);
                    assert(e == n ==> tokens_from(s@, e as int) =~= Seq::<Seq<char>>::empty());
                    assert(t =~= seq![tok@] + tokens_from(s@, e as int));
                    assert(done.push(tok@) + tokens_from(s@, e as int) =~= done + t);
                    assert(done.push(tok@).drop_last() =~= done);
                }
                match Url::new(text.as_str()) {
                    Ok(u) => {
                        let ghost before = out@;
                        out.push(u);
                        proof {
                            assert(crate::entities::url_texts(out@) =~= crate::entities::url_texts(before).push(cand@));
                            assert(crate::entities::url_texts(out@) =~= keep_urls(done.push(tok@)));
                        }
                    },
                    Err(_) => {
                        proof {
                            assert(keep_urls(done.push(tok@)) =~= keep_urls(done));
                        }
                    },
                }
                proof {
                    done = done.push(tok@);
                }
                i = e;
            }
        }
        proof {
            assert(tokens_from(s@, i as int) =~= Seq::<Seq<char>>::empty());
            assert(done =~= tokens_from(s@, 0));
        }
        out
    }

    /// The references written in a text, in order (repeats kept).
    pub fn extract_page_references(content: &str) -> (r: Vec<PageReference>)
        ensures
            crate::entities::ref_values(r@) == refs_in_text(content@),
    {
        let s = chars_of(content);
        let n = s.len();
        let mut out: Vec<PageReference> = Vec::new();
        let mut pos: usize = 0;
        while pos < n
            invariant
                n == s@.len(),
                s@ == content@,
                pos <= n,
                crate::entities::ref_values(out@) + refs_from(s@, pos as int) == refs_from(s@, 0),
            decreases n - pos,
        {
            let ghost before = out@;
            if pos + 1 < n && s[pos] == '[' && s[pos + 1] == '[' {
                let mut q: usize = pos + 2;
                while q < n - 1 && !(s[q] == ']' && s[q + 1] == ']')
                    invariant
                        n == s@.len(),
                        pos + 2 <= q <= n,
                        close_from(s@, pos + 2) == close_from(s@, q as int),
                    decreases n - q,
                {
                    q = q + 1;
                }
                if q < n - 1 {
                    let t = crate::text::copy_range(s.as_slice(), pos + 2, q);
                    if t.len() > 0 {
                        let title = string_of(t.as_slice());
                        match PageReference::from_brackets(title.as_str()) {
                            Ok(r) => {
                                out.push(r);
                                proof {
                                    assert(crate::entities::ref_values(out@) =~= crate::entities::ref_values(before).push((t@, false)));
                                }
                            },
                            Err(_) => {},
                        }
                    }
                    proof {
                        let t0 = s@.subrange(pos + 2, q as int);
                        let head: Seq<(Seq<char>, bool)> = if t0.len() > 0 { seq![(t0, false)] } else { Seq::empty() };
                        assert(refs_from(s@, pos as int) == head + refs_from(s@, q + 2));
                        assert(crate::entities::ref_values(out@) =~= crate::entities::ref_values(before) + head);
                        assert(crate::entities::ref_values(out@) + refs_from(s@, q + 2) =~= crate::entities::ref_values(before) + refs_from(s@, pos as int));
                    }
                    pos = q + 2;
                } else {
                    proof {
                        assert(close_from(s@, q as int) == -1);
                        assert(refs_from(s@, pos as int) =~= Seq::<(Seq<char>, bool)>::empty());
                        assert(crate::entities::ref_values(out@) + refs_from(s@, n as int) =~= crate::entities::ref_values(before) + refs_from(s@, pos as int));
                    }
                    pos = n;
                }
            } else if s[pos] == '#' && (pos == 0 || is_whitespace(s[pos - 1])) && pos + 1 < n {
                let mut e: usize = pos + 1;
                while e < n && !is_whitespace(s[e]) && !is_ascii_punctuation(s[e])
                    invariant
                        n == s@.len(),
                        pos + 1 <= e <= n,
                        tag_end(s@, pos + 1) == tag_end(s@, e as int),
                    decreases n - e,
                {
                    e = e + 1;
                }
                proof {
                    lemma_tag_end(s@, pos + 1);
                }
                if e > pos + 1 {
                    let t = crate::text::copy_range(s.as_slice(), pos + 1, e);
                    let title = string_of(t.as_slice());
                    match PageReference::from_tag(title.as_str()) {
                        Ok(r) => {
                            out.push(r);
                            proof {
                                assert(crate::entities::ref_values(out@) =~= crate::entities::ref_values(before).push((t@, true)));
                            }
                        },
                        Err(_) => {},
                    }
                    proof {
                        assert(refs_from(s@, pos as int) == seq![(t@, true)] + refs_from(s@, e as int));
                        assert(crate::entities::ref_values(out@) + refs_from(s@, e as int) =~= crate::entities::ref_values(before) + refs_from(s@, pos as int));
                    }
                    pos = e;
                } else {
                    pos = pos + 1;
                }
            } else {
                pos = pos + 1;
            }
        }
        proof {
            assert(crate::entities::ref_values(out@) + Seq::<(Seq<char>, bool)>::empty() =~= crate::entities::ref_values(out@));
        }
        out
    }

    /// Splits a text into lines at `\n`, dropping the `\r` of `\r\n`.
    pub fn split_lines(s: &[char]) -> (r: Vec<Vec<char>>)
        ensures
            r@.map_values(|l: Vec<char>| l@) == lines_from(s@, 0),
    {
        let n = s.len();
        let mut out: Vec<Vec<char>> = Vec::new();
        let mut i: usize = 0;
        while i < n
            invariant
                n == s@.len(),
                i <= n,
                out@.map_values(|l: Vec<char>| l@) + lines_from(s@, i as int) == lines_from(s@, 0),
            decreases n - i,
        {
            let mut e: usize = i;
            while e < n && s[e] != '\n'
                invariant
                    n == s@.len(),
                    i <= e <= n,
                    line_end(s@, i as int) == line_end(s@, e as int),
                decreases n - e,
            {
                e = e + 1;
            }
            proof {
                lemma_line_end_bounds(s@, i as int);
            }
            let stop = if e < n && e > i && s[e - 1] == '\r' {
                e - 1
            } else {
                e
            };
            let line = crate::text::copy_range(s, i, stop);
            let ghost before = out@;
            out.push(line);
            proof {
                assert(line@ == line_text(s@, i as int, e as int));
                assert(e == n ==> lines_from(s@, e + 1) =~= Seq::<Seq<char>>::empty());
                assert(lines_from(s@, i as int) =~= seq![line_text(s@, i as int, e as int)] + lines_from(s@, e + 1));
                assert(out@.map_values(|l: Vec<char>| l@) =~= before.map_values(|l: Vec<char>| l@).push(line@));
                assert(out@.map_values(|l: Vec<char>| l@) + lines_from(s@, e + 1) =~= before.map_values(|l: Vec<char>| l@) + lines_from(s@, i as int));
            }
            if e >= n {
                proof {
                    assert(lines_from(s@, e + 1) =~= Seq::<Seq<char>>::empty());
                }
                i = n;
            } else {
                i = e + 1;
            }
        }
        proof {
            assert(lines_from(s@, i as int) =~= Seq::<Seq<char>>::empty());
            assert(out@.map_values(|l: Vec<char>| l@) + Seq::<Seq<char>>::empty() =~= out@.map_values(|l: Vec<char>| l@));
        }
        out
    }

    /// The indent level of a line.
    pub fn calculate_indent_level(line: &str) -> (r: usize)
        ensures
            r == indent_from(line@, 0),
    {
        let s = chars_of(line);
        Self::indent_of_chars(s.as_slice())
    }

    pub fn indent_of_chars(s: &[char]) -> (r: usize)
        ensures
            r == indent_from(s@, 0),
    {
        let n = s.len();
        let mut i: usize = 0;
        let mut level: usize = 0;
        let mut done = false;
        while !done && i < n
            invariant
                n == s@.len(),
                i <= n,
                level <= i,
                !done ==> level + indent_from(s@, i as int) == indent_from(s@, 0),
                done ==> level == indent_from(s@, 0),
            decreases n - i + (if done { 0int } else { 1int }),
        {
            if s[i] == '\t' {
                level = level + 1;
                i = i + 1;
            } else if s[i] == ' ' {
                if i + 1 < n && s[i + 1] == ' ' {
                    level = level + 1;
                    i = i + 2;
                } else {
                    i = i + 1;
                }
            } else {
                done = true;
            }
        }
        level
    }

    /// The content of a line, without leading whitespace and bullet marker.
    pub fn extract_content(line: &str) -> (r: String)
        ensures
            r@ == content_of(line@),
    {
        let s = chars_of(line);
        let v = Self::content_chars(s.as_slice());
        string_of(v.as_slice())
    }

    #[verifier::rlimit(40)]
    pub fn content_chars(s: &[char]) -> (r: Vec<char>)
        ensures
            r@ == content_of(s@),
    {
        let n = s.len();
        let start = skip_whitespace(s, 0);
        proof {
            assert(s@.subrange(0, n as int) =~= s@);
        }
        let ghost t = s@.subrange(start as int, n as int);
        if n - start >= 2 && (s[start] == '-' || s[start] == '*' || s[start] == '+') && s[start + 1] == ' ' {
            let r = crate::text::copy_range(s, start + 2, n);
            proof {
                assert(r@ =~= t.subrange(2, t.len() as int));
            }
            r
        } else if n - start >= 1 && (s[start] == '-' || s[start] == '*' || s[start] == '+') {
            let k = skip_whitespace(s, start + 1);
            proof {
                assert(t.subrange(1, t.len() as int) =~= s@.subrange(start + 1, n as int));
            }
            crate::text::copy_range(s, k, n)
        } else {
            crate::text::copy_range(s, start, n)
        }
    }

    /// The (level, content) entries of the lines that hold something, in order.
    pub fn parse_lines(lines: &Vec<Vec<char>>) -> (r: Vec<(usize, String)>)
        ensures
            entry_views(r@) == entries_of(lines@.map_values(|l: Vec<char>| l@)),
    {
        let ghost ls = lines@.map_values(|l: Vec<char>| l@);
        let mut out: Vec<(usize, String)> = Vec::new();
        let mut i: usize = 0;
        while i < lines.len()
            invariant
                i <= lines@.len(),
                ls == lines@.map_values(|l: Vec<char>| l@),
                entry_views(out@) == entries_of(ls.take(i as int)),
            decreases lines.len() - i,
        {
            let line = lines[i].as_slice();
            proof {
                assert(ls.take(i + 1).drop_last() =~= ls.take(i as int));
                assert(ls.take(i + 1).last() == line@);
            }
            if !blank(line) {
                let content = Self::content_chars(line);
                if !blank(content.as_slice()) {
                    let level = Self::indent_of_chars(line);
                    let ghost before = out@;
                    out.push((level, string_of(content.as_slice())));
                    proof {
                        assert(entry_views(out@) =~= entry_views(before).push((level as nat, content@)));
                    }
                }
            }
            i = i + 1;
        }
        proof {
            assert(ls.take(lines@.len() as int) =~= ls);
        }
        out
    }

    /// The position of the entry that entry `t` hangs from, when it has one.
    fn find_parent(entries: &Vec<(usize, String)>, t: usize) -> (r: Option<usize>)
        requires
            t < entries@.len(),
        ensures
            r is Some <==> entries@[t as int].0 > 0 && placeable(entry_views(entries@), t as int),
            r matches Some(s) ==> s == parent_entry(entry_views(entries@), t as int),
    {
        let ghost es = entry_views(entries@);
        let level = entries[t].0;
        if level == 0 {
            return None;
        }
        let mut s: usize = t;
        while s > 0 && entries[s - 1].0 > level - 1
            invariant
                s <= t < entries@.len(),
                es == entry_views(entries@),
                level == es[t as int].0,
                level > 0,
                nearest_at_most(es, t as int, (level - 1) as nat) == nearest_at_most(es, s as int, (level - 1) as nat),
            decreases s,
        {
            s = s - 1;
        }
        if s == 0 {
            return None;
        }
        if entries[s - 1].0 + 1 == level {
            Some(s - 1)
        } else {
            None
        }
    }

    /// The block of entry `t`, hanging from entry `parent`.
    fn entry_block(entries: &Vec<(usize, String)>, ids: &Vec<BlockId>, t: usize, parent: Option<usize>) -> (r: Block)
        requires
            ids@.len() == entries@.len(),
            t < entries@.len(),
            parent matches Some(p) ==> p == parent_entry(entry_views(entries@), t as int) && entry_views(entries@)[t as int].0 > 0 && placeable(entry_views(entries@), t as int),
            parent is None ==> entry_views(entries@)[t as int].0 == 0,
        ensures
            r@ == parsed_block(entry_views(entries@), block_id_views(ids@), t as int),
    {
        let ghost es = entry_views(entries@);
        let ghost idv = block_id_views(ids@);
            let (level, text) = (entries[t].0, &entries[t].1);
            let content = BlockContent::from_string(text.clone());
            let mut block = match parent {
                None => Block::new_root(ids[t].clone(), content),
                Some(p) => {
                    proof {
                        assert(placeable(es, t as int));
                        lemma_nearest_bounds(es, t as int, (es[t as int].0 - 1) as nat);
                    }
                    Block::new_child(ids[t].clone(), content, ids[p].clone(), IndentLevel::new(level))
                },
            };
            let urls = Self::extract_urls(text.as_str());
            let ghost uv = crate::entities::url_texts(urls@);
            let mut k: usize = 0;
            while k < urls.len()
                invariant
                    k <= urls@.len(),
                    uv == crate::entities::url_texts(urls@),
                    block@.urls == dedup(uv.take(k as int)),
                    block@.id == idv[t as int],
                    block@.content == es[t as int].1,
                    block@.parent == parsed_block(es, idv, t as int).parent,
                    block@.indent == es[t as int].0,
                    block@.children == Seq::<Seq<char>>::empty(),
                    block@.refs == Seq::<(Seq<char>, bool)>::empty(),
                decreases urls.len() - k,
            {
                proof {
                    lemma_add_url_dedup(uv, k as int);
                }
                block.add_url(urls[k].clone());
                k = k + 1;
            }
            proof {
                assert(uv.take(urls@.len() as int) =~= uv);
            }
            let refs = Self::extract_page_references(text.as_str());
            let ghost rv = crate::entities::ref_values(refs@);
            let mut k: usize = 0;
            while k < refs.len()
                invariant
                    k <= refs@.len(),
                    rv == crate::entities::ref_values(refs@),
                    block@.refs == dedup(rv.take(k as int)),
                    block@.urls == dedup(uv),
                    block@.id == idv[t as int],
                    block@.content == es[t as int].1,
                    block@.parent == parsed_block(es, idv, t as int).parent,
                    block@.indent == es[t as int].0,
                    block@.children == Seq::<Seq<char>>::empty(),
                decreases refs.len() - k,
            {
                proof {
                    assert(rv.take(k + 1).drop_last() =~= rv.take(k as int));
                }
                block.add_page_reference(refs[k].clone());
                k = k + 1;
            }
        proof {
            assert(rv.take(refs@.len() as int) =~= rv);
            assert(block@.children =~= parsed_block(es, idv, t as int).children);
        }
        block
    }

    /// Builds the page of the entries, block `t` taking identifier `ids[t]`.
    ///
    /// Fails with `InvalidMarkdown` when an indented entry has no block one level up, and
    /// otherwise with a domain error when two identifiers coincide.
    pub fn assemble(page_id: PageId, title: String, entries: &Vec<(usize, String)>, ids: &Vec<BlockId>) -> (r: ParseResult<Page>)
        requires
            ids@.len() == entries@.len(),
        ensures
            (r matches Err(ParseError::InvalidMarkdown(_))) <==> !well_nested(entry_views(entries@)),
            r matches Err(ParseError::Domain(e)) ==> e is InvalidOperation,
            (r matches Err(e) && e is Domain) <==> (well_nested(entry_views(entries@)) && !distinct(
                block_id_views(ids@),
            )),
            !(r matches Err(ParseError::Io(_))),
            r matches Ok(page) ==> {
                &&& page.wf()
                &&& page.id_view() == page_id@
                &&& page.title_view() == title@
                &&& parsed_as(page.blocks_view(), entry_views(entries@))
                &&& ids_of(page.blocks_view()) == block_id_views(ids@)
            },
    {
        let ghost es = entry_views(entries@);
        let ghost idv = block_id_views(ids@);
        let n = entries.len();
        let mut parents: Vec<Option<usize>> = Vec::new();
        let mut t: usize = 0;
        while t < n
            invariant
                n == entries@.len(),
                es == entry_views(entries@),
                t <= n,
                parents@.len() == t,
                forall|m: int| 0 <= m < t ==> #[trigger] placeable(es, m),
                forall|m: int| 0 <= m < t ==> (#[trigger] parents@[m] matches Some(p) ==> p == parent_entry(es, m) && es[m].0 > 0) && (parents@[m] is None ==> es[m].0 == 0),
            decreases n - t,
        {
            let p = Self::find_parent(entries, t);
            if entries[t].0 > 0 && p.is_none() {
                return Err(ParseError::InvalidMarkdown("No parent block found for indent level".to_string()));
            }
            parents.push(p);
            t = t + 1;
        }
        let mut a: usize = 0;
        while a < n
            invariant
                n == ids@.len(),
                n == entries@.len(),
                es == entry_views(entries@),
                well_nested(es),
                idv == block_id_views(ids@),
                a <= n,
                forall|x: int, y: int| 0 <= x < a && 0 <= y < n && x != y ==> idv[x] != idv[y],
            decreases n - a,
        {
            let mut b: usize = 0;
            while b < n
                invariant
                    n == ids@.len(),
                    n == entries@.len(),
                    es == entry_views(entries@),
                    well_nested(es),
                    idv == block_id_views(ids@),
                    a < n,
                    b <= n,
                    forall|x: int, y: int| 0 <= x < a && 0 <= y < n && x != y ==> idv[x] != idv[y],
                    forall|y: int| 0 <= y < b && a != y ==> idv[a as int] != idv[y],
                decreases n - b,
            {
                if a != b && ids[a].same(&ids[b]) {
                    proof {
                        assert(idv[a as int] == idv[b as int]);
                        assert(!distinct(idv));
                    }
                    return Err(ParseError::Domain(DomainError::InvalidOperation("Duplicate block identifier".to_string())));
                }
                b = b + 1;
            }
            a = a + 1;
        }
        let mut page = Page::new(page_id, title);
        let mut t: usize = 0;
        while t < n
            invariant
                n == entries@.len(),
                n == ids@.len(),
                es == entry_views(entries@),
                idv == block_id_views(ids@),
                distinct(idv),
                well_nested(es),
                parents@.len() == n,
                forall|m: int| 0 <= m < n ==> (#[trigger] parents@[m] matches Some(p) ==> p == parent_entry(es, m) && es[m].0 > 0) && (parents@[m] is None ==> es[m].0 == 0),
                t <= n,
                page.wf(),
                page.id_view() == page_id@,
                page.title_view() == title@,
                page.blocks_view().len() == t,
                forall|m: int| 0 <= m < t ==> crate::aggregates::as_stored(#[trigger] page.blocks_view()[m]) == parsed_block(es, idv, m),
            decreases n - t,
        {
            let ghost bs = page.blocks_view();
            let block = Self::entry_block(entries, ids, t, parents[t]);
            proof {
                assert(crate::aggregates::as_stored(block@) == parsed_block(es, idv, t as int));
                if has_id(bs, idv[t as int]) {
                    let m = choose|m: int| 0 <= m < bs.len() && (#[trigger] bs[m]).id == idv[t as int];
                    assert(crate::aggregates::as_stored(bs[m]) == parsed_block(es, idv, m));
                    assert(false);
                }
                if let Some(p) = parsed_block(es, idv, t as int).parent {
                    let s = parent_entry(es, t as int);
                    assert(placeable(es, t as int));
                    assert(0 <= s < t) by {
                        lemma_nearest_bounds(es, t as int, (es[t as int].0 - 1) as nat);
                    }
                    assert(crate::aggregates::as_stored(bs[s]) == parsed_block(es, idv, s));
                    assert(bs[s].id == p);
                }
            }
            let added = page.add_block(block);
            if added.is_err() {
                proof {
                    assert(false);
                }
                return Err(ParseError::Domain(DomainError::InvalidOperation("Block could not be added".to_string())));
            }
            proof {
                let nbs = page.blocks_view();
                assert forall|m: int| 0 <= m < t + 1 implies crate::aggregates::as_stored(#[trigger] nbs[m]) == parsed_block(es, idv, m) by {
                    if m < t {
                        assert(crate::aggregates::as_stored(nbs[m]) == crate::aggregates::as_stored(bs[m]));
                    }
                }
            }
            t = t + 1;
        }
        proof {
            let bs = page.blocks_view();
            assert(ids_of(bs) =~= idv) by {
                assert forall|m: int| 0 <= m < n implies ids_of(bs)[m] == idv[m] by {
                    assert(crate::aggregates::as_stored(bs[m]) == parsed_block(es, idv, m));
                }
            }
        }
        Ok(page)
    }

    /// Parses a text into a page with the given identifier and title. The blocks get
    /// identifiers from `block_ids`, distinct by construction, so the parse succeeds exactly
    /// when the lines are well nested.
    pub fn parse_content(content: &str, page_id: PageId, title: String) -> (r: ParseResult<Page>)
        ensures
            (r matches Err(ParseError::InvalidMarkdown(_))) <==> !well_nested(entries_of_text(content@)),
            well_nested(entries_of_text(content@)) <==> r is Ok,
            r matches Ok(page) ==> {
                &&& page.wf()
                &&& page.id_view() == page_id@
                &&& page.title_view() == title@
                &&& parsed_as(page.blocks_view(), entries_of_text(content@))
            },
    {
        let entries = Self::parse_blocks(content);
        let ids = block_ids(entries.len());
        Self::assemble(page_id, title, &entries, &ids)
    }

    /// The (level, content) entries of a text.
    pub fn parse_blocks(content: &str) -> (r: Vec<(usize, String)>)
        ensures
            entry_views(r@) == entries_of_text(content@),
    {
        let s = chars_of(content);
        let lines = Self::split_lines(s.as_slice());
        Self::parse_lines(&lines)
    }
}

} // verus!

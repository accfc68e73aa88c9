//! CSS selectors: parsing a selector text into simple selectors joined by
//! combinators, and matching a selector against a node of the tree.

use vstd::prelude::*;
use crate::domnode::{DomNode, NodeView, attrs_view};
use crate::tree::Tree;
use crate::lca::{LcaBinaryLifting, spec_build};
use crate::text::{
    is_ws, trim, trim_lo, trim_hi, eq_ignore_case, lemma_trim_lo_bounds, chars_of, string_of,
    is_whitespace, trim_range, range_eq, range_eq_ignore_case, eq_ignore_ascii_case, str_eq,
    find_from, word_end, lemma_word_end,
};

verus! {

#[derive(Debug, Clone, Copy, PartialEq, Eq, Structural)]
pub enum Combinator {
    Child,
    Descendant,
    AdjacentSibling,
    GeneralSibling,
}

#[derive(Debug, Clone, PartialEq, Eq)]
pub enum SimpleSelector {
    Universal,
    Tag(String),
    Class(String),
    Id(String),
    AttrEq { key: String, value: String },
}

#[derive(Debug, Clone)]
pub struct SelectorPart {
    pub selector: SimpleSelector,
    pub relation_to_left: Option<Combinator>,
}

#[derive(Debug, Clone)]
pub struct SelectorQuery {
    pub parts_right_to_left: Vec<SelectorPart>,
}

/// The content of a `SimpleSelector`.
pub enum SimpleSel {
    Universal,
    Tag(Seq<char>),
    Class(Seq<char>),
    Id(Seq<char>),
    AttrEq(Seq<char>, Seq<char>),
}

/// The content of a `SelectorPart`.
pub struct PartView {
    pub sel: SimpleSel,
    pub rel: Option<Combinator>,
}

impl View for SimpleSelector {
    type V = SimpleSel;

    open spec fn view(&self) -> SimpleSel {
        match self {
            SimpleSelector::Universal => SimpleSel::Universal,
            SimpleSelector::Tag(t) => SimpleSel::Tag(t@),
            SimpleSelector::Class(c) => SimpleSel::Class(c@),
            SimpleSelector::Id(i) => SimpleSel::Id(i@),
            SimpleSelector::AttrEq { key, value } => SimpleSel::AttrEq(key@, value@),
        }
    }
}

impl View for SelectorPart {
    type V = PartView;

    open spec fn view(&self) -> PartView {
        PartView { sel: self.selector@, rel: self.relation_to_left }
    }
}

impl View for SelectorQuery {
    type V = Seq<PartView>;

    open spec fn view(&self) -> Seq<PartView> {
        self.parts_right_to_left@.map_values(|p: SelectorPart| p@)
    }
}

/// The ways a selector text can be refused.
#[derive(Debug, Clone, Copy, PartialEq, Eq, Structural)]
pub enum SelectorError {
    BracketMismatch,
    InvalidCombinatorPlacement,
    Empty,
    InvalidChain,
    EmptyClass,
    EmptyId,
    AttributeFormat,
}

/// The message each refusal carries.
pub open spec fn message(e: SelectorError) -> Seq<char> {
    match e {
        SelectorError::BracketMismatch => "Selector bracket mismatch"@,
        SelectorError::InvalidCombinatorPlacement => "Invalid combinator placement"@,
        SelectorError::Empty => "Empty selector"@,
        SelectorError::InvalidChain => "Invalid selector chain"@,
        SelectorError::EmptyClass => "Class selector cannot be empty"@,
        SelectorError::EmptyId => "ID selector cannot be empty"@,
        SelectorError::AttributeFormat => "Attribute selector must be in [key=value] format"@,
    }
}

/// The message of a refusal, as a `String`.
pub fn error_message(e: SelectorError) -> (r: String)
    ensures
        r@ == message(e),
{
    match e {
        SelectorError::BracketMismatch => String::from_str("Selector bracket mismatch"),
        SelectorError::InvalidCombinatorPlacement => String::from_str("Invalid combinator placement"),
        SelectorError::Empty => String::from_str("Empty selector"),
        SelectorError::InvalidChain => String::from_str("Invalid selector chain"),
        SelectorError::EmptyClass => String::from_str("Class selector cannot be empty"),
        SelectorError::EmptyId => String::from_str("ID selector cannot be empty"),
        SelectorError::AttributeFormat => String::from_str(
            "Attribute selector must be in [key=value] format",
        ),
    }
}

// ---------------------------------------------------------------------
// Simple selectors

/// First position at or after `lo` (below `hi`) that does not hold `c`.
pub open spec fn strip_lo(s: Seq<char>, c: char, lo: int, hi: int) -> int
    decreases hi - lo,
{
    if lo < hi && s[lo] == c {
        strip_lo(s, c, lo + 1, hi)
    } else {
        lo
    }
}

/// End of `lo..hi` once trailing `c`s are dropped.
pub open spec fn strip_hi(s: Seq<char>, c: char, lo: int, hi: int) -> int
    decreases hi - lo,
{
    if lo < hi && s[hi - 1] == c {
        strip_hi(s, c, lo, hi - 1)
    } else {
        hi
    }
}

/// `s` with every leading and trailing `c` removed (`str::trim_matches`).
pub open spec fn strip_char(s: Seq<char>, c: char) -> Seq<char> {
    let a = strip_lo(s, c, 0, s.len() as int);
    s.subrange(a, strip_hi(s, c, a, s.len() as int))
}

/// What `parse_simple_selector` makes of one token.
pub open spec fn spec_simple(t: Seq<char>) -> Result<SimpleSel, SelectorError> {
    if t == seq!['*'] {
        Ok(SimpleSel::Universal)
    } else if t.len() > 0 && t[0] == '.' {
        if t.len() == 1 {
            Err(SelectorError::EmptyClass)
        } else {
            Ok(SimpleSel::Class(t.drop_first()))
        }
    } else if t.len() > 0 && t[0] == '#' {
        if t.len() == 1 {
            Err(SelectorError::EmptyId)
        } else {
            Ok(SimpleSel::Id(t.drop_first()))
        }
    } else if t.len() > 0 && t[0] == '[' && t.last() == ']' {
        let content = t.subrange(1, t.len() - 1);
        let key = match find_from(content, '=', 0) {
            Some(e) => trim(content.take(e)),
            None => trim(content),
        };
        let value = match find_from(content, '=', 0) {
            Some(e) => trim(content.skip(e + 1)),
            None => Seq::empty(),
        };
        if key.len() == 0 || value.len() == 0 {
            Err(SelectorError::AttributeFormat)
        } else {
            Ok(SimpleSel::AttrEq(key, strip_char(strip_char(value, '"'), '\'')))
        }
    } else {
        Ok(SimpleSel::Tag(t))
    }
}

/// Bounds of `v[lo..hi]` without leading and trailing `c`s.
fn strip_range(v: &Vec<char>, c: char, lo: usize, hi: usize) -> (r: (usize, usize))
    requires
        lo <= hi <= v@.len(),
    ensures
        r.0 == strip_lo(v@, c, lo as int, hi as int),
        r.1 == strip_hi(v@, c, r.0 as int, hi as int),
        lo <= r.0 <= r.1 <= hi,
{
    let mut a = lo;
    while a < hi && v[a] == c
        invariant
            lo <= a <= hi <= v@.len(),
            strip_lo(v@, c, a as int, hi as int) == strip_lo(v@, c, lo as int, hi as int),
        decreases hi - a,
    {
        a += 1;
    }
    let mut b = hi;
    while b > a && v[b - 1] == c
        invariant
            lo <= a <= b <= hi <= v@.len(),
            a == strip_lo(v@, c, lo as int, hi as int),
            strip_hi(v@, c, a as int, b as int) == strip_hi(v@, c, a as int, hi as int),
        decreases b - a,
    {
        b -= 1;
    }
    (a, b)
}

/// Reads one simple selector: `*`, `.class`, `#id`, `[key=value]` (quotes
/// around the value dropped), or a tag name.
fn parse_simple_selector(token: &str) -> (r: Result<SimpleSelector, String>)
    ensures
        match spec_simple(token@) {
            Ok(sel) => r matches Ok(s) && s@ == sel,
            Err(e) => r matches Err(m) && m@ == message(e),
        },
{
    let v = chars_of(token);
    let n = v.len();
    let ghost t = token@;
    if n == 1 && v[0] == '*' {
        assert(t =~= seq!['*']);
        return Ok(SimpleSelector::Universal);
    }
    assert(t != seq!['*']) by {
        if t == seq!['*'] {
            assert(t.len() == 1 && t[0] == '*');
        }
    }
    if n > 0 && v[0] == '.' {
        if n == 1 {
            return Err(error_message(SelectorError::EmptyClass));
        }
        let rest = string_of(&v, 1, n);
        assert(rest@ =~= t.drop_first());
        return Ok(SimpleSelector::Class(rest));
    }
    if n > 0 && v[0] == '#' {
        if n == 1 {
            return Err(error_message(SelectorError::EmptyId));
        }
        let rest = string_of(&v, 1, n);
        assert(rest@ =~= t.drop_first());
        return Ok(SimpleSelector::Id(rest));
    }
    if n > 0 && v[0] == '[' && v[n - 1] == ']' {
        let ghost content = t.subrange(1, t.len() - 1);
        // position of the first '=' inside the brackets
        let mut e: usize = 1;
        while e < n - 1 && v[e] != '='
            invariant
                1 <= e <= n - 1,
                n == v@.len(),
                v@ == t,
                content == t.subrange(1, t.len() - 1),
                find_from(content, '=', (e - 1) as int) == find_from(content, '=', 0),
            decreases n - 1 - e,
        {
            e += 1;
        }
        let (klo, khi, vlo, vhi) = if e < n - 1 {
            assert(find_from(content, '=', 0) == Some((e - 1) as int));
            let (a, b) = trim_range(&v, 1, e);
            let (c, d) = trim_range(&v, e + 1, n - 1);
            proof {
                let key_src = content.take(e - 1);
                assert(key_src =~= v@.subrange(1, e as int));
                lemma_trim_sub(v@, 1, e as int);
                let val_src = content.skip(e as int);
                assert(val_src =~= v@.subrange(e + 1, n - 1));
                lemma_trim_sub(v@, e + 1, n - 1);
            }
            (a, b, c, d)
        } else {
            assert(find_from(content, '=', 0) is None);
            let (a, b) = trim_range(&v, 1, n - 1);
            proof {
                assert(content =~= v@.subrange(1, n - 1));
                lemma_trim_sub(v@, 1, n - 1);
            }
            (a, b, n - 1, n - 1)
        };
        if khi == klo || vhi == vlo {
            return Err(error_message(SelectorError::AttributeFormat));
        }
        let key = string_of(&v, klo, khi);
        let (q1, q2) = strip_range(&v, '"', vlo, vhi);
        let (s1, s2) = strip_range(&v, '\'', q1, q2);
        let value = string_of(&v, s1, s2);
        proof {
            let val = v@.subrange(vlo as int, vhi as int);
            lemma_strip_sub(v@, '"', vlo as int, vhi as int);
            let once = v@.subrange(q1 as int, q2 as int);
            assert(strip_char(val, '"') == once);
            lemma_strip_sub(v@, '\'', q1 as int, q2 as int);
            assert(strip_char(once, '\'') == v@.subrange(s1 as int, s2 as int));
        }
        return Ok(SimpleSelector::AttrEq { key, value });
    }
    let tag = string_of(&v, 0, n);
    assert(tag@ =~= t);
    Ok(SimpleSelector::Tag(tag))
}

/// Trimming a range of `s` is trimming the sub-sequence.
pub proof fn lemma_trim_sub(s: Seq<char>, lo: int, hi: int)
    requires
        0 <= lo <= hi <= s.len(),
    ensures
        trim(s.subrange(lo, hi)) == s.subrange(
            trim_lo(s, lo, hi),
            trim_hi(s, trim_lo(s, lo, hi), hi),
        ),
{
    let w = s.subrange(lo, hi);
    lemma_trim_lo_shift(s, lo, hi, lo);
    let a = trim_lo(s, lo, hi);
    lemma_trim_lo_bounds(s, lo, hi);
    lemma_trim_hi_shift_in(s, lo, a, hi, hi);
    crate::text::lemma_trim_hi_bounds(s, a, hi);
    assert(w.subrange(a - lo, trim_hi(w, a - lo, hi - lo)) =~= s.subrange(a, trim_hi(s, a, hi)));
}

pub proof fn lemma_trim_lo_shift(s: Seq<char>, lo: int, hi: int, i: int)
    requires
        0 <= lo <= i <= hi <= s.len(),
    ensures
        trim_lo(s.subrange(lo, hi), i - lo, hi - lo) == trim_lo(s, i, hi) - lo,
    decreases hi - i,
{
    if i < hi && is_ws(s[i]) {
        lemma_trim_lo_shift(s, lo, hi, i + 1);
    }
}

pub proof fn lemma_trim_hi_shift_in(s: Seq<char>, lo: int, a: int, hi: int, j: int)
    requires
        0 <= lo <= a <= j <= hi <= s.len(),
    ensures
        trim_hi(s.subrange(lo, hi), a - lo, j - lo) == trim_hi(s, a, j) - lo,
    decreases j - a,
{
    if a < j && is_ws(s[j - 1]) {
        lemma_trim_hi_shift_in(s, lo, a, hi, j - 1);
    }
}

/// Stripping a character from a range of `s` is stripping it from the
/// sub-sequence.
pub proof fn lemma_strip_sub(s: Seq<char>, c: char, lo: int, hi: int)
    requires
        0 <= lo <= hi <= s.len(),
    ensures
        strip_char(s.subrange(lo, hi), c) == s.subrange(
            strip_lo(s, c, lo, hi),
            strip_hi(s, c, strip_lo(s, c, lo, hi), hi),
        ),
{
    let w = s.subrange(lo, hi);
    lemma_strip_lo_shift(s, c, lo, hi, lo);
    let a = strip_lo(s, c, lo, hi);
    lemma_strip_lo_bounds(s, c, lo, hi);
    lemma_strip_hi_shift(s, c, lo, a, hi, hi);
    lemma_strip_hi_bounds(s, c, a, hi);
    assert(w.subrange(a - lo, strip_hi(w, c, a - lo, hi - lo)) =~= s.subrange(a, strip_hi(s, c, a, hi)));
}

pub proof fn lemma_strip_lo_bounds(s: Seq<char>, c: char, lo: int, hi: int)
    requires
        lo <= hi,
    ensures
        lo <= strip_lo(s, c, lo, hi) <= hi,
    decreases hi - lo,
{
    if lo < hi && s[lo] == c {
        lemma_strip_lo_bounds(s, c, lo + 1, hi);
    }
}

pub proof fn lemma_strip_hi_bounds(s: Seq<char>, c: char, lo: int, hi: int)
    requires
        lo <= hi,
    ensures
        lo <= strip_hi(s, c, lo, hi) <= hi,
    decreases hi - lo,
{
    if lo < hi && s[hi - 1] == c {
        lemma_strip_hi_bounds(s, c, lo, hi - 1);
    }
}

pub proof fn lemma_strip_lo_shift(s: Seq<char>, c: char, lo: int, hi: int, i: int)
    requires
        0 <= lo <= i <= hi <= s.len(),
    ensures
        strip_lo(s.subrange(lo, hi), c, i - lo, hi - lo) == strip_lo(s, c, i, hi) - lo,
    decreases hi - i,
{
    if i < hi && s[i] == c {
        lemma_strip_lo_shift(s, c, lo, hi, i + 1);
    }
}

pub proof fn lemma_strip_hi_shift(s: Seq<char>, c: char, lo: int, a: int, hi: int, j: int)
    requires
        0 <= lo <= a <= j <= hi <= s.len(),
    ensures
        strip_hi(s.subrange(lo, hi), c, a - lo, j - lo) == strip_hi(s, c, a, j) - lo,
    decreases j - a,
{
    if a < j && s[j - 1] == c {
        lemma_strip_hi_shift(s, c, lo, a, hi, j - 1);
    }
}

// ---------------------------------------------------------------------
// Selector texts

/// The state of the scan over a selector text: the pending token, the
/// bracket depth, whether a descendant combinator is pending, whether the
/// last thing read was a selector, and the selectors and combinators so far.
pub struct ScanState {
    pub buffer: Seq<char>,
    pub depth: nat,
    pub pending: bool,
    pub last_sel: bool,
    pub selectors: Seq<Seq<char>>,
    pub combinators: Seq<Combinator>,
}

pub open spec fn scan_init() -> ScanState {
    ScanState {
        buffer: Seq::empty(),
        depth: 0,
        pending: false,
        last_sel: false,
        selectors: Seq::empty(),
        combinators: Seq::empty(),
    }
}

/// Ends the pending token: a non-blank token becomes a selector, preceded by
/// a descendant combinator if whitespace separated it from the last one.
pub open spec fn flush(st: ScanState) -> ScanState {
    let tok = trim(st.buffer);
    if tok.len() == 0 {
        ScanState { buffer: Seq::empty(), ..st }
    } else {
        ScanState {
            buffer: Seq::empty(),
            combinators: if st.pending && st.last_sel {
                st.combinators.push(Combinator::Descendant)
            } else {
                st.combinators
            },
            selectors: st.selectors.push(tok),
            last_sel: true,
            pending: false,
            ..st
        }
    }
}

pub open spec fn combinator_of(c: char) -> Combinator {
    if c == '>' {
        Combinator::Child
    } else if c == '+' {
        Combinator::AdjacentSibling
    } else {
        Combinator::GeneralSibling
    }
}

/// One character of the scan.
pub open spec fn scan_char(st: ScanState, c: char) -> Result<ScanState, SelectorError> {
    if c == '[' {
        Ok(ScanState { depth: st.depth + 1, buffer: st.buffer.push(c), ..st })
    } else if c == ']' {
        if st.depth == 0 {
            Err(SelectorError::BracketMismatch)
        } else {
            Ok(ScanState { depth: (st.depth - 1) as nat, buffer: st.buffer.push(c), ..st })
        }
    } else if (c == '>' || c == '+' || c == '~') && st.depth == 0 {
        let f = flush(st);
        if !f.last_sel {
            Err(SelectorError::InvalidCombinatorPlacement)
        } else {
            Ok(
                ScanState {
                    combinators: f.combinators.push(combinator_of(c)),
                    last_sel: false,
                    pending: false,
                    ..f
                },
            )
        }
    } else if is_ws(c) && st.depth == 0 {
        let f = flush(st);
        if f.last_sel {
            Ok(ScanState { pending: true, ..f })
        } else {
            Ok(f)
        }
    } else {
        Ok(ScanState { buffer: st.buffer.push(c), ..st })
    }
}

/// The scan of `s` from position `i`.
pub open spec fn scan(s: Seq<char>, i: int, st: ScanState) -> Result<ScanState, SelectorError>
    decreases s.len() - i,
{
    if i >= s.len() || i < 0 {
        Ok(st)
    } else {
        match scan_char(st, s[i]) {
            Err(e) => Err(e),
            Ok(st2) => scan(s, i + 1, st2),
        }
    }
}

/// The parts for selectors `k-1 .. 0`, rightmost first, each with the
/// combinator to its left; the first refusal met, from the right, wins.
pub open spec fn build_parts(sels: Seq<Seq<char>>, combs: Seq<Combinator>, k: int) -> Result<
    Seq<PartView>,
    SelectorError,
>
    decreases k,
{
    if k <= 0 {
        Ok(Seq::empty())
    } else {
        match spec_simple(sels[k - 1]) {
            Err(e) => Err(e),
            Ok(sel) => match build_parts(sels, combs, k - 1) {
                Err(e) => Err(e),
                Ok(rest) => Ok(
                    seq![
                        PartView {
                            sel,
                            rel: if k - 1 > 0 {
                                Some(combs[k - 2])
                            } else {
                                None
                            },
                        },
                    ] + rest,
                ),
            },
        }
    }
}

/// What `parse_selector` makes of a selector text.
pub open spec fn spec_parse_selector(s: Seq<char>) -> Result<Seq<PartView>, SelectorError> {
    match scan(s, 0, scan_init()) {
        Err(e) => Err(e),
        Ok(st) => {
            let f = flush(st);
            if f.depth != 0 {
                Err(SelectorError::BracketMismatch)
            } else if f.selectors.len() == 0 {
                Err(SelectorError::Empty)
            } else if f.combinators.len() + 1 != f.selectors.len() {
                Err(SelectorError::InvalidChain)
            } else {
                build_parts(f.selectors, f.combinators, f.selectors.len() as int)
            }
        },
    }
}

/// The parts built from `k` selectors: one per selector, each with the
/// combinator on its left, the leftmost without one.
pub proof fn lemma_build_parts_shape(sels: Seq<Seq<char>>, combs: Seq<Combinator>, k: int)
    requires
        k >= 0,
    ensures
        build_parts(sels, combs, k) matches Ok(ps) ==> {
            &&& ps.len() == k
            &&& forall|i: int|
                0 <= i < k ==> (#[trigger] ps[i]).rel == if i < k - 1 {
                    Some(combs[k - 2 - i])
                } else {
                    None::<Combinator>
                }
        },
    decreases k,
{
    if k > 0 {
        lemma_build_parts_shape(sels, combs, k - 1);
        if let Ok(ps) = build_parts(sels, combs, k) {
            let rest = build_parts(sels, combs, k - 1)->Ok_0;
            assert forall|i: int| 0 <= i < k implies (#[trigger] ps[i]).rel == if i < k - 1 {
                Some(combs[k - 2 - i])
            } else {
                None::<Combinator>
            } by {
                if i > 0 {
                    assert(ps[i] == rest[i - 1]);
                }
            }
        }
    }
}

/// A selector text that parses gives at least one part; the leftmost part,
/// last in right-to-left order, has no combinator, and every other part has
/// one.
pub proof fn lemma_parsed_shape(s: Seq<char>)
    ensures
        spec_parse_selector(s) matches Ok(parts) ==> {
            &&& parts.len() >= 1
            &&& parts.last().rel is None
            &&& forall|i: int| 0 <= i < parts.len() - 1 ==> (#[trigger] parts[i]).rel is Some
        },
{
    if let Ok(st) = scan(s, 0, scan_init()) {
        let f = flush(st);
        lemma_build_parts_shape(f.selectors, f.combinators, f.selectors.len() as int);
    }
}

proof fn lemma_find_first(s: Seq<char>, c: char, i: int, e: int)
    requires
        0 <= i <= e < s.len(),
        s[e] == c,
        forall|j: int| i <= j < e ==> s[j] != c,
    ensures
        find_from(s, c, i) == Some(e),
    decreases e - i,
{
    if i < e {
        lemma_find_first(s, c, i + 1, e);
    }
}

/// An attribute selector `[k=v]` whose key has no `=` takes the key trimmed
/// and, as the value, the whole text after the first `=`, trimmed and with
/// surrounding quotes removed, whatever `=` it holds; a blank key or value
/// is refused.
pub proof fn lemma_attr_value_whole_rest(k: Seq<char>, v: Seq<char>)
    requires
        forall|i: int| 0 <= i < k.len() ==> k[i] != '=',
    ensures
        spec_simple(seq!['['] + k + seq!['='] + v + seq![']']) == if trim(k).len() == 0 || trim(v).len() == 0 {
            Err::<SimpleSel, SelectorError>(SelectorError::AttributeFormat)
        } else {
            Ok(SimpleSel::AttrEq(trim(k), strip_char(strip_char(trim(v), '"'), '\'')))
        },
{
    let tok = seq!['['] + k + seq!['='] + v + seq![']'];
    let content = tok.subrange(1, tok.len() - 1);
    assert(content =~= k + seq!['='] + v);
    assert(tok[0] == '[');
    assert(tok.last() == ']');
    assert(tok != seq!['*']) by {
        assert(tok[0] != seq!['*'][0]);
    }
    assert forall|j: int| 0 <= j < k.len() implies content[j] != '=' by {
        assert(content[j] == k[j]);
    }
    assert(content[k.len() as int] == '=');
    lemma_find_first(content, '=', 0, k.len() as int);
    assert(content.take(k.len() as int) =~= k);
    assert(content.skip(k.len() + 1 as int) =~= v);
}

/// Inside brackets every character other than a bracket only fills the
/// buffer.
proof fn lemma_scan_in_brackets(w: Seq<char>, i: int, st: ScanState)
    requires
        0 <= i <= w.len(),
        st.depth >= 1,
        forall|k: int| 0 <= k < w.len() ==> w[k] != '[' && w[k] != ']',
    ensures
        scan(w, i, st) == Ok::<ScanState, SelectorError>(ScanState { buffer: st.buffer + w.subrange(i, w.len() as int), ..st }),
    decreases w.len() - i,
{
    if i < w.len() {
        let st2 = ScanState { buffer: st.buffer.push(w[i]), ..st };
        lemma_scan_in_brackets(w, i + 1, st2);
        assert(st2.buffer + w.subrange(i + 1, w.len() as int) =~= st.buffer + w.subrange(i, w.len() as int));
    } else {
        assert(st.buffer + w.subrange(i, w.len() as int) =~= st.buffer);
    }
}

/// The selector text `[k=v]`, with no brackets in `k` or `v` and no `=` in
/// `k`, parses as one attribute selector whose value is the whole text
/// after the first `=`, trimmed and without surrounding quotes; a blank key
/// or value is refused.
pub proof fn lemma_attr_selector_value(k: Seq<char>, v: Seq<char>)
    requires
        forall|i: int| 0 <= i < k.len() ==> k[i] != '=' && k[i] != '[' && k[i] != ']',
        forall|i: int| 0 <= i < v.len() ==> v[i] != '[' && v[i] != ']',
    ensures
        spec_parse_selector(seq!['['] + k + seq!['='] + v + seq![']']) == if trim(k).len() == 0 || trim(v).len()
            == 0 {
            Err::<Seq<PartView>, SelectorError>(SelectorError::AttributeFormat)
        } else {
            Ok(seq![PartView { sel: SimpleSel::AttrEq(trim(k), strip_char(strip_char(trim(v), '"'), '\'')), rel: None }])
        },
{
    let mid = k + seq!['='] + v;
    let tok = seq!['['] + mid + seq![']'];
    assert(tok =~= seq!['['] + k + seq!['='] + v + seq![']']);
    let init = scan_init();
    let s1 = ScanState { depth: 1, buffer: seq!['['], ..init };
    assert(scan(seq!['['], 0, init) == Ok::<ScanState, SelectorError>(s1)) by {
        assert(scan(seq!['['], 1, s1) == Ok::<ScanState, SelectorError>(s1));
        assert(init.buffer.push('[') =~= seq!['[']);
    }
    assert forall|i: int| 0 <= i < mid.len() implies mid[i] != '[' && mid[i] != ']' by {
        if i < k.len() {
            assert(mid[i] == k[i]);
        } else if i > k.len() {
            assert(mid[i] == v[i - k.len() - 1]);
        }
    }
    lemma_scan_in_brackets(mid, 0, s1);
    let s2 = ScanState { buffer: seq!['['] + mid, ..s1 };
    assert(s1.buffer + mid.subrange(0, mid.len() as int) =~= seq!['['] + mid);
    lemma_scan_split(seq!['['], mid, init);
    let s3 = ScanState { depth: 0, buffer: tok, ..init };
    assert(scan(seq![']'], 0, s2) == Ok::<ScanState, SelectorError>(s3)) by {
        assert(s2.buffer.push(']') =~= tok);
        assert(scan(seq![']'], 1, s3) == Ok::<ScanState, SelectorError>(s3));
    }
    lemma_scan_split(seq!['['] + mid, seq![']'], init);
    assert(trim_lo(tok, 0, tok.len() as int) == 0);
    assert(trim_hi(tok, 0, tok.len() as int) == tok.len());
    assert(trim(tok) =~= tok);
    let f = flush(s3);
    assert(f.selectors =~= seq![tok]);
    assert(f.combinators =~= Seq::<Combinator>::empty());
    lemma_attr_value_whole_rest(k, v);
    assert(build_parts(f.selectors, f.combinators, 0) == Ok::<Seq<PartView>, SelectorError>(Seq::empty()));
    if let Ok(sel) = spec_simple(tok) {
        assert(seq![PartView { sel, rel: None }] + Seq::<PartView>::empty() =~= seq![PartView { sel, rel: None }]);
    }
}

/// A character that is neither whitespace, a bracket nor a combinator.
pub open spec fn plain_char(c: char) -> bool {
    !is_ws(c) && c != '[' && c != ']' && c != '>' && c != '+' && c != '~'
}

/// A combinator character.
pub open spec fn combinator_char(c: char) -> bool {
    c == '>' || c == '+' || c == '~'
}

proof fn lemma_scan_shift(x: Seq<char>, b: Seq<char>, j: int, st: ScanState)
    requires
        0 <= j,
    ensures
        scan(x + b, x.len() + j, st) == scan(b, j, st),
    decreases b.len() - j,
{
    if j < b.len() {
        assert((x + b)[x.len() + j] == b[j]);
        if let Ok(st2) = scan_char(st, b[j]) {
            lemma_scan_shift(x, b, j + 1, st2);
        }
    }
}

proof fn lemma_scan_split_from(a: Seq<char>, b: Seq<char>, i: int, st: ScanState)
    requires
        0 <= i <= a.len(),
    ensures
        scan(a + b, i, st) == match scan(a, i, st) {
            Err(e) => Err(e),
            Ok(s2) => scan(a + b, a.len() as int, s2),
        },
    decreases a.len() - i,
{
    if i < a.len() {
        assert((a + b)[i] == a[i]);
        if let Ok(st2) = scan_char(st, a[i]) {
            lemma_scan_split_from(a, b, i + 1, st2);
        }
    }
}

/// Scanning `a + b` scans `a`, then `b` from where `a` left off.
proof fn lemma_scan_split(a: Seq<char>, b: Seq<char>, st: ScanState)
    ensures
        scan(a + b, 0, st) == match scan(a, 0, st) {
            Err(e) => Err(e),
            Ok(s2) => scan(b, 0, s2),
        },
{
    lemma_scan_split_from(a, b, 0, st);
    if let Ok(s2) = scan(a, 0, st) {
        lemma_scan_shift(a, b, 0, s2);
    }
}

/// Scanning plain characters outside brackets only fills the buffer.
proof fn lemma_scan_plain(w: Seq<char>, i: int, st: ScanState)
    requires
        0 <= i <= w.len(),
        st.depth == 0,
        forall|k: int| 0 <= k < w.len() ==> plain_char(#[trigger] w[k]),
    ensures
        scan(w, i, st) == Ok::<ScanState, SelectorError>(ScanState { buffer: st.buffer + w.subrange(i, w.len() as int), ..st }),
    decreases w.len() - i,
{
    if i < w.len() {
        assert(plain_char(w[i]));
        let st2 = ScanState { buffer: st.buffer.push(w[i]), ..st };
        lemma_scan_plain(w, i + 1, st2);
        assert(st2.buffer + w.subrange(i + 1, w.len() as int) =~= st.buffer + w.subrange(i, w.len() as int));
    } else {
        assert(st.buffer + w.subrange(i, w.len() as int) =~= st.buffer);
    }
}

/// Whitespace outside brackets with nothing pending in the buffer changes
/// nothing, except that after a selector it marks a descendant as pending.
proof fn lemma_scan_blanks(s: Seq<char>, i: int, st: ScanState)
    requires
        0 <= i <= s.len(),
        st.depth == 0,
        st.buffer.len() == 0,
        forall|k: int| 0 <= k < s.len() ==> is_ws(#[trigger] s[k]),
    ensures
        scan(s, i, st) == Ok::<ScanState, SelectorError>(if st.last_sel && i < s.len() {
            ScanState { pending: true, ..st }
        } else {
            st
        }),
    decreases s.len() - i,
{
    if i < s.len() {
        assert(is_ws(s[i]));
        assert(trim(st.buffer).len() == 0);
        assert(st.buffer =~= Seq::<char>::empty());
        assert(flush(st) == st);
        let st2 = if st.last_sel {
            ScanState { pending: true, ..st }
        } else {
            st
        };
        lemma_scan_blanks(s, i + 1, st2);
    }
}

/// A text without whitespace is its own trim.
proof fn lemma_trim_plain(w: Seq<char>)
    requires
        w.len() > 0,
        forall|k: int| 0 <= k < w.len() ==> !is_ws(#[trigger] w[k]),
    ensures
        trim(w) == w,
{
    assert(trim_lo(w, 0, w.len() as int) == 0);
    assert(trim_hi(w, 0, w.len() as int) == w.len());
    assert(w.subrange(0, w.len() as int) =~= w);
}

/// Blanks around a combinator, before the first selector and after the
/// last, change nothing: the selector parses as it does without them.
pub proof fn lemma_blanks_around_combinator(
    w1: Seq<char>,
    w2: Seq<char>,
    c: char,
    a: Seq<char>,
    b: Seq<char>,
    m: Seq<char>,
    d: Seq<char>,
)
    requires
        w1.len() > 0,
        w2.len() > 0,
        forall|k: int| 0 <= k < w1.len() ==> plain_char(#[trigger] w1[k]),
        forall|k: int| 0 <= k < w2.len() ==> plain_char(#[trigger] w2[k]),
        combinator_char(c),
        forall|k: int| 0 <= k < a.len() ==> is_ws(#[trigger] a[k]),
        forall|k: int| 0 <= k < b.len() ==> is_ws(#[trigger] b[k]),
        forall|k: int| 0 <= k < m.len() ==> is_ws(#[trigger] m[k]),
        forall|k: int| 0 <= k < d.len() ==> is_ws(#[trigger] d[k]),
    ensures
        spec_parse_selector(a + w1 + b + seq![c] + m + w2 + d) == spec_parse_selector(w1 + seq![c] + w2),
{
    assert forall|k: int| 0 <= k < w1.len() implies !is_ws(#[trigger] w1[k]) by {
        assert(plain_char(w1[k]));
    }
    assert forall|k: int| 0 <= k < w2.len() implies !is_ws(#[trigger] w2[k]) by {
        assert(plain_char(w2[k]));
    }
    lemma_trim_plain(w1);
    lemma_trim_plain(w2);
    let init = scan_init();
    let comb = combinator_of(c);
    // the states after the first selector, after the combinator, after the
    // second selector
    let s1 = ScanState { buffer: w1, ..init };
    let s3 = ScanState { selectors: seq![w1], combinators: seq![comb], ..init };
    let s4 = ScanState { buffer: w2, ..s3 };
    let fin = ScanState { buffer: Seq::empty(), selectors: seq![w1, w2], last_sel: true, pending: false, ..s3 };
    // without blanks
    lemma_scan_plain(w1, 0, init);
    assert(init.buffer + w1.subrange(0, w1.len() as int) =~= w1);
    lemma_scan_split(w1, seq![c], init);
    assert(scan(seq![c], 1, s3) == Ok::<ScanState, SelectorError>(s3));
    assert(scan(seq![c], 0, s1) == Ok::<ScanState, SelectorError>(s3)) by {
        assert(flush(s1).selectors =~= seq![w1]);
    }
    lemma_scan_split(w1 + seq![c], w2, init);
    lemma_scan_plain(w2, 0, s3);
    assert(s3.buffer + w2.subrange(0, w2.len() as int) =~= w2);
    assert(flush(s4) == fin) by {
        assert(flush(s4).selectors =~= seq![w1, w2]);
    }
    // with blanks
    lemma_scan_blanks(a, 0, init);
    lemma_scan_split(a, w1, init);
    let s1b = if b.len() > 0 {
        ScanState { selectors: seq![w1], last_sel: true, pending: true, ..init }
    } else {
        s1
    };
    lemma_scan_split(a + w1, b, init);
    if b.len() > 0 {
        let b0 = ScanState { selectors: seq![w1], last_sel: true, pending: false, ..init };
        assert(flush(s1) == b0) by {
            assert(flush(s1).selectors =~= seq![w1]);
        }
        assert(scan_char(s1, b[0]) == Ok::<ScanState, SelectorError>(ScanState { pending: true, ..b0 }));
        lemma_scan_blanks(b, 1, ScanState { pending: true, ..b0 });
        assert(scan(b, 0, s1) == Ok::<ScanState, SelectorError>(s1b));
    } else {
        assert(scan(b, 0, s1) == Ok::<ScanState, SelectorError>(s1));
    }
    lemma_scan_split(a + w1 + b, seq![c], init);
    assert(scan(seq![c], 0, s1b) == Ok::<ScanState, SelectorError>(s3)) by {
        if b.len() > 0 {
            assert(flush(s1b) == s1b);
        } else {
            assert(flush(s1b).selectors =~= seq![w1]);
        }
    }
    lemma_scan_split(a + w1 + b + seq![c], m, init);
    lemma_scan_blanks(m, 0, s3);
    lemma_scan_split(a + w1 + b + seq![c] + m, w2, init);
    lemma_scan_split(a + w1 + b + seq![c] + m + w2, d, init);
    if d.len() > 0 {
        assert(scan_char(s4, d[0]) == Ok::<ScanState, SelectorError>(ScanState { pending: true, ..fin }));
        lemma_scan_blanks(d, 1, ScanState { pending: true, ..fin });
        assert(flush(ScanState { pending: true, ..fin }).selectors == fin.selectors);
    }
}

pub open spec fn strings_view(v: Seq<String>) -> Seq<Seq<char>> {
    v.map_values(|s: String| s@)
}

/// The scan state held by the executable variables.
pub open spec fn exec_state(
    buffer: Seq<char>,
    depth: usize,
    pending: bool,
    last_sel: bool,
    selectors: Seq<String>,
    combinators: Seq<Combinator>,
) -> ScanState {
    ScanState {
        buffer,
        depth: depth as nat,
        pending,
        last_sel,
        selectors: strings_view(selectors),
        combinators,
    }
}

/// Ends the pending token (see `flush`).
fn flush_selector(
    buffer: &mut Vec<char>,
    pending_descendant: &mut bool,
    last_was_selector: &mut bool,
    selectors: &mut Vec<String>,
    combinators: &mut Vec<Combinator>,
)
    ensures
        ({
            let before = exec_state(
                old(buffer)@,
                0,
                *old(pending_descendant),
                *old(last_was_selector),
                old(selectors)@,
                old(combinators)@,
            );
            let after = exec_state(
                final(buffer)@,
                0,
                *final(pending_descendant),
                *final(last_was_selector),
                final(selectors)@,
                final(combinators)@,
            );
            after == flush(before)
        }),
{
    let (a, b) = trim_range(buffer, 0, buffer.len());
    proof {
        assert(old(buffer)@.subrange(0, old(buffer)@.len() as int) == old(buffer)@);
    }
    if a == b {
        *buffer = Vec::new();
        return;
    }
    if *pending_descendant && *last_was_selector {
        combinators.push(Combinator::Descendant);
    }
    let token = string_of(buffer, a, b);
    selectors.push(token);
    *last_was_selector = true;
    *pending_descendant = false;
    *buffer = Vec::new();
    proof {
        assert(strings_view(selectors@) =~= strings_view(old(selectors)@).push(token@));
    }
}

/// Parses a selector such as `div > p.note ~ [data-x=1]` into simple
/// selectors joined by combinators, listed right to left.
pub fn parse_selector(input: &str) -> (r: Result<SelectorQuery, String>)
    ensures
        match spec_parse_selector(input@) {
            Ok(parts) => r matches Ok(q) && q@ == parts,
            Err(e) => r matches Err(m) && m@ == message(e),
        },
{
    let chars = chars_of(input);
    let ghost s = input@;
    let mut selectors: Vec<String> = Vec::new();
    let mut combinators: Vec<Combinator> = Vec::new();
    let mut buffer: Vec<char> = Vec::new();
    let mut bracket_depth: usize = 0;
    let mut pending_descendant = false;
    let mut last_was_selector = false;
    let mut i: usize = 0;
    proof {
        assert(strings_view(selectors@) =~= Seq::<Seq<char>>::empty());
        assert(exec_state(buffer@, bracket_depth, pending_descendant, last_was_selector, selectors@, combinators@) == scan_init());
    }
    while i < chars.len()
        invariant
            chars@ == s,
            s == input@,
            0 <= i <= s.len(),
            bracket_depth <= i,
            scan(s, 0, scan_init()) == scan(
                s,
                i as int,
                exec_state(buffer@, bracket_depth, pending_descendant, last_was_selector, selectors@, combinators@),
            ),
        decreases s.len() - i,
    {
        let ch = chars[i];
        let ghost st = exec_state(buffer@, bracket_depth, pending_descendant, last_was_selector, selectors@, combinators@);
        if ch == '[' {
            bracket_depth += 1;
            buffer.push(ch);
        } else if ch == ']' {
            if bracket_depth == 0 {
                proof {
                    assert(scan_char(st, s[i as int]) == Err::<ScanState, SelectorError>(SelectorError::BracketMismatch));
                    assert(scan(s, i as int, st) == Err::<ScanState, SelectorError>(SelectorError::BracketMismatch));
                }
                return Err(error_message(SelectorError::BracketMismatch));
            }
            bracket_depth -= 1;
            buffer.push(ch);
        } else if (ch == '>' || ch == '+' || ch == '~') && bracket_depth == 0 {
            flush_selector(
                &mut buffer,
                &mut pending_descendant,
                &mut last_was_selector,
                &mut selectors,
                &mut combinators,
            );
            proof {
                let fl = exec_state(buffer@, bracket_depth, pending_descendant, last_was_selector, selectors@, combinators@);
                assert(fl == flush(st));
            }
            if !last_was_selector {
                proof {
                    assert(scan_char(st, s[i as int]) == Err::<ScanState, SelectorError>(SelectorError::InvalidCombinatorPlacement));
                    assert(scan(s, i as int, st) == Err::<ScanState, SelectorError>(SelectorError::InvalidCombinatorPlacement));
                }
                return Err(error_message(SelectorError::InvalidCombinatorPlacement));
            }
            let combinator = if ch == '>' {
                Combinator::Child
            } else if ch == '+' {
                Combinator::AdjacentSibling
            } else {
                Combinator::GeneralSibling
            };
            combinators.push(combinator);
            last_was_selector = false;
            pending_descendant = false;
        } else if is_whitespace(ch) && bracket_depth == 0 {
            flush_selector(
                &mut buffer,
                &mut pending_descendant,
                &mut last_was_selector,
                &mut selectors,
                &mut combinators,
            );
            proof {
                let fl = exec_state(buffer@, bracket_depth, pending_descendant, last_was_selector, selectors@, combinators@);
                assert(fl == flush(st));
            }
            if last_was_selector {
                pending_descendant = true;
            }
        } else {
            buffer.push(ch);
        }
        proof {
            let st2 = exec_state(buffer@, bracket_depth, pending_descendant, last_was_selector, selectors@, combinators@);
            assert(scan_char(st, s[i as int]) == Ok::<ScanState, SelectorError>(st2));
        }
        i += 1;
    }
    let ghost st_end = exec_state(buffer@, bracket_depth, pending_descendant, last_was_selector, selectors@, combinators@);
    assert(scan(s, 0, scan_init()) == Ok::<ScanState, SelectorError>(st_end));
    flush_selector(
        &mut buffer,
        &mut pending_descendant,
        &mut last_was_selector,
        &mut selectors,
        &mut combinators,
    );
    let ghost f = exec_state(buffer@, bracket_depth, pending_descendant, last_was_selector, selectors@, combinators@);
    assert(f == flush(st_end));
    if bracket_depth != 0 {
        return Err(error_message(SelectorError::BracketMismatch));
    }
    if selectors.len() == 0 {
        return Err(error_message(SelectorError::Empty));
    }
    if combinators.len() != selectors.len() - 1 {
        return Err(error_message(SelectorError::InvalidChain));
    }
    let mut parts_right_to_left: Vec<SelectorPart> = Vec::new();
    let mut k = selectors.len();
    while k > 0
        invariant
            0 <= k <= selectors@.len(),
            spec_parse_selector(input@) == build_parts(f.selectors, f.combinators, f.selectors.len() as int),
            combinators@.len() + 1 == selectors@.len(),
            f.selectors == strings_view(selectors@),
            f.combinators == combinators@,
            build_parts(f.selectors, f.combinators, f.selectors.len() as int) == match build_parts(
                f.selectors,
                f.combinators,
                k as int,
            ) {
                Err(e) => Err(e),
                Ok(rest) => Ok(parts_right_to_left@.map_values(|p: SelectorPart| p@) + rest),
            },
        decreases k,
    {
        let selector_idx = k - 1;
        assert(selectors@[selector_idx as int]@ == f.selectors[selector_idx as int]);
        let selector = match parse_simple_selector(selectors[selector_idx].as_str()) {
            Ok(sel) => sel,
            Err(e) => {
                proof {
                    let tok = f.selectors[selector_idx as int];
                    assert(spec_simple(tok) is Err);
                    let e2 = spec_simple(tok)->Err_0;
                    assert(build_parts(f.selectors, f.combinators, k as int) == Err::<Seq<PartView>, SelectorError>(e2));
                }
                return Err(e);
            },
        };
        let relation_to_left = if selector_idx > 0 {
            Some(combinators[selector_idx - 1])
        } else {
            None
        };
        let ghost before = parts_right_to_left@.map_values(|p: SelectorPart| p@);
        let part = SelectorPart { selector, relation_to_left };
        parts_right_to_left.push(part);
        proof {
            assert(parts_right_to_left@.map_values(|p: SelectorPart| p@) =~= before.push(part@));
            match build_parts(f.selectors, f.combinators, (k - 1) as int) {
                Err(e) => {},
                Ok(rest) => {
                    assert(before.push(part@) + rest =~= before + (seq![part@] + rest));
                },
            }
        }
        k -= 1;
    }
    let q = SelectorQuery { parts_right_to_left };
    proof {
        assert(q@ =~= q@ + Seq::<PartView>::empty());
    }
    Ok(q)
}

// ---------------------------------------------------------------------
// Matching

/// Position of the first attribute at or after `i` whose key equals `key`
/// up to ASCII case.
pub open spec fn first_attr_from(attrs: Seq<(Seq<char>, Seq<char>)>, key: Seq<char>, i: int) -> Option<
    int,
>
    decreases attrs.len() - i,
{
    if i >= attrs.len() || i < 0 {
        None
    } else if eq_ignore_case(attrs[i].0, key) {
        Some(i)
    } else {
        first_attr_from(attrs, key, i + 1)
    }
}

/// Some whitespace-separated word of `s`, from position `i` on, equals `w`
/// up to ASCII case.
pub open spec fn has_word_from(s: Seq<char>, i: int, w: Seq<char>) -> bool
    decreases s.len() - i,
{
    if i < 0 || i >= s.len() {
        false
    } else {
        let a = trim_lo(s, i, s.len() as int);
        if a >= s.len() {
            false
        } else {
            let e = word_end(s, a);
            proof {
                lemma_trim_lo_bounds(s, i, s.len() as int);
                lemma_word_end(s, a);
            }
            eq_ignore_case(s.subrange(a, e), w) || has_word_from(s, e, w)
        }
    }
}

/// Whether node `n` satisfies simple selector `sel`: tag names and
/// attribute keys compare up to ASCII case; the `class` attribute (the first
/// one) must hold the class among its words; the first `id` attribute must
/// equal the id; `[key=value]` needs some attribute with that key and value.
pub open spec fn simple_matches(n: NodeView, sel: SimpleSel) -> bool {
    match sel {
        SimpleSel::Universal => true,
        SimpleSel::Tag(t) => eq_ignore_case(n.tag, t),
        SimpleSel::Class(c) => match first_attr_from(n.attrs, "class"@, 0) {
            Some(i) => has_word_from(n.attrs[i].1, 0, c),
            None => false,
        },
        SimpleSel::Id(v) => match first_attr_from(n.attrs, "id"@, 0) {
            Some(i) => n.attrs[i].1 == v,
            None => false,
        },
        SimpleSel::AttrEq(k, v) => exists|i: int|
            0 <= i < n.attrs.len() && eq_ignore_case(#[trigger] n.attrs[i].0, k) && n.attrs[i].1 == v,
    }
}

/// Position of the first attribute whose key equals `key` up to ASCII case.
pub(crate) fn find_attr(attrs: &Vec<(String, String)>, key: &str) -> (r: Option<usize>)
    ensures
        r matches Some(i) ==> first_attr_from(attrs_view(attrs@), key@, 0) == Some(i as int) && i < attrs@.len(),
        r is None ==> first_attr_from(attrs_view(attrs@), key@, 0) is None,
{
    let ghost av = attrs_view(attrs@);
    let mut i: usize = 0;
    while i < attrs.len()
        invariant
            0 <= i <= attrs@.len(),
            av == attrs_view(attrs@),
            first_attr_from(av, key@, 0) == first_attr_from(av, key@, i as int),
        decreases attrs@.len() - i,
    {
        assert(attrs@[i as int].0@ == av[i as int].0);
        if eq_ignore_ascii_case(attrs[i].0.as_str(), key) {
            return Some(i);
        }
        i += 1;
    }
    None
}

/// Whether some whitespace-separated word of `value` equals `w` up to ASCII
/// case.
fn has_word_ignore_case(value: &str, w: &str) -> (r: bool)
    ensures
        r == has_word_from(value@, 0, w@),
{
    let v = chars_of(value);
    let wv = chars_of(w);
    let n = v.len();
    let ghost s = value@;
    assert(wv@.subrange(0, wv@.len() as int) == w@);
    let mut i: usize = 0;
    while i < n
        invariant
            v@ == s,
            s == value@,
            n == s.len(),
            wv@ == w@,
            wv@.subrange(0, wv@.len() as int) == w@,
            0 <= i <= n,
            has_word_from(s, 0, w@) == has_word_from(s, i as int, w@),
        decreases n - i,
    {
        let (a, _b) = trim_range(&v, i, n);
        proof {
            lemma_trim_lo_bounds(s, i as int, n as int);
        }
        if a >= n {
            return false;
        }
        let mut e = a;
        while e < n && !is_whitespace(v[e])
            invariant
                v@ == s,
                n == s.len(),
                a <= e <= n,
                word_end(s, e as int) == word_end(s, a as int),
            decreases n - e,
        {
            e += 1;
        }
        proof {
            lemma_word_end(s, a as int);
            assert(word_end(s, e as int) == e);
            assert(has_word_from(s, i as int, w@) == (eq_ignore_case(s.subrange(a as int, e as int), w@) || has_word_from(s, e as int, w@)));
        }
        if range_eq_ignore_case(&v, a, e, &wv, 0, wv.len()) {
            return true;
        }
        i = e;
    }
    false
}

/// Whether `node` satisfies `selector` (see `simple_matches`).
fn matches_simple_selector(node: &DomNode, selector: &SimpleSelector) -> (r: bool)
    ensures
        r == simple_matches(node@, selector@),
{
    match selector {
        SimpleSelector::Universal => {
            assert(selector@ == SimpleSel::Universal);
            assert(simple_matches(node@, SimpleSel::Universal));
            true
        },
        SimpleSelector::Tag(tag) => eq_ignore_ascii_case(node.tag(), tag.as_str()),
        SimpleSelector::Class(class_name) => {
            let attrs = node.attrs();
            let r = match find_attr(attrs, "class") {
                Some(i) => {
                    assert(attrs@[i as int].1@ == node@.attrs[i as int].1);
                    has_word_ignore_case(attrs[i].1.as_str(), class_name.as_str())
                },
                None => false,
            };
            assert(r == simple_matches(node@, selector@));
            r
        },
        SimpleSelector::Id(id_value) => {
            let attrs = node.attrs();
            let r = match find_attr(attrs, "id") {
                Some(i) => {
                    assert(attrs@[i as int].1@ == node@.attrs[i as int].1);
                    str_eq(attrs[i].1.as_str(), id_value.as_str())
                },
                None => false,
            };
            assert(r == simple_matches(node@, selector@));
            r
        },
        SimpleSelector::AttrEq { key, value } => {
            let attrs = node.attrs();
            let ghost av = node@.attrs;
            let mut i: usize = 0;
            while i < attrs.len()
                invariant
                    0 <= i <= attrs@.len(),
                    av == attrs_view(attrs@),
                    av == node@.attrs,
                    selector@ == SimpleSel::AttrEq(key@, value@),
                    forall|j: int| 0 <= j < i ==> !(eq_ignore_case(#[trigger] av[j].0, key@) && av[j].1 == value@),
                decreases attrs@.len() - i,
            {
                assert(attrs@[i as int].0@ == av[i as int].0 && attrs@[i as int].1@ == av[i as int].1);
                if eq_ignore_ascii_case(attrs[i].0.as_str(), key.as_str()) && str_eq(
                    attrs[i].1.as_str(),
                    value.as_str(),
                ) {
                    assert(eq_ignore_case(av[i as int].0, key@) && av[i as int].1 == value@);
                    return true;
                }
                i += 1;
            }
            false
        },
    }
}

/// The node with id `id`, if it is in the tree.
pub open spec fn node_at(t: &Tree, id: usize) -> Option<NodeView> {
    if t.has_id(id) && t.pos(id) < t.nodes@.len() {
        Some(t.node_of(id))
    } else {
        None
    }
}

/// The node with id `node_id`, if it is in the tree.
fn get_node(tree: &Tree, node_id: usize) -> (r: Option<&DomNode>)
    ensures
        match node_at(tree, node_id) {
            Some(n) => r matches Some(d) && d@ == n,
            None => r is None,
        },
{
    match tree.find_index_from_id(node_id) {
        Some(index) => if index < tree.nodes.len() {
            Some(&tree.nodes[index])
        } else {
            None
        },
        None => None,
    }
}

/// First position of `x` in `s` at or after `i`.
pub open spec fn position_from(s: Seq<usize>, x: usize, i: int) -> Option<int>
    decreases s.len() - i,
{
    if i < 0 || i >= s.len() {
        None
    } else if s[i] == x {
        Some(i)
    } else {
        position_from(s, x, i + 1)
    }
}

pub proof fn lemma_position_from(s: Seq<usize>, x: usize, i: int)
    requires
        0 <= i,
    ensures
        position_from(s, x, i) matches Some(k) ==> i <= k < s.len(),
    decreases s.len() - i,
{
    if i < s.len() && s[i] != x {
        lemma_position_from(s, x, i + 1);
    }
}

/// Some part of the selector is joined to the next by a descendant
/// combinator, so that matching walks up parent links.
pub open spec fn uses_descendant(parts: Seq<PartView>) -> bool {
    exists|i: int| 0 <= i < parts.len() && (#[trigger] parts[i]).rel == Some(Combinator::Descendant)
}

/// A bound on the walk up from `id`.
pub open spec fn chain_fuel(t: &Tree, id: usize) -> nat {
    choose|k: nat| t.chain_ends(id, k)
}

/// Node `cur` matches the parts `i..` of a selector, read right to left: it
/// is a node of the tree that matches part `i`, and, through part `i`'s
/// combinator, some node to its left matches the parts from `i + 1` on: its
/// parent (`>`), some node on the walk up from its parent (blank), the
/// sibling just before it (`+`) or some earlier sibling (`~`).  A part
/// without a combinator hands the same node to the next part.
pub open spec fn match_from(t: &Tree, parts: Seq<PartView>, i: int, cur: usize) -> bool
    decreases parts.len() - i, 1nat, 0nat,
{
    if i < 0 || i >= parts.len() {
        true
    } else {
        match node_at(t, cur) {
            None => false,
            Some(n) => if !simple_matches(n, parts[i].sel) {
                false
            } else {
                match parts[i].rel {
                    None => if i + 1 < parts.len() {
                        match_from(t, parts, i + 1, cur)
                    } else {
                        true
                    },
                    Some(rel) => if i + 1 >= parts.len() {
                        false
                    } else {
                        match n.parent {
                            None => false,
                            Some(p) => match rel {
                                Combinator::Child => match_from(t, parts, i + 1, p),
                                Combinator::Descendant => desc_any(t, parts, i, Some(p), chain_fuel(t, p)),
                                _ => match node_at(t, p) {
                                    None => false,
                                    Some(pn) => match position_from(pn.children, cur, 0) {
                                        None => false,
                                        Some(pos) => match rel {
                                            Combinator::AdjacentSibling => if pos > 0 {
                                                match_from(t, parts, i + 1, pn.children[pos - 1])
                                            } else {
                                                false
                                            },
                                            _ => sib_any(t, parts, i, pn.children, pos as nat),
                                        },
                                    },
                                },
                            },
                        }
                    },
                }
            },
        }
    }
}

/// Some node on the walk up from `cur` (at most `fuel` ids, stopping at an
/// id without a node) matches the parts from `i + 1` on.
pub open spec fn desc_any(t: &Tree, parts: Seq<PartView>, i: int, cur: Option<usize>, fuel: nat) -> bool
    decreases parts.len() - i, 0nat, fuel,
{
    if fuel == 0 || i < 0 || i + 1 >= parts.len() {
        false
    } else {
        match cur {
            None => false,
            Some(a) => match node_at(t, a) {
                None => false,
                Some(an) => match_from(t, parts, i + 1, a) || desc_any(t, parts, i, an.parent, (fuel - 1) as nat),
            },
        }
    }
}

/// Some sibling among the first `j` of `sibs` matches the parts from
/// `i + 1` on.
pub open spec fn sib_any(t: &Tree, parts: Seq<PartView>, i: int, sibs: Seq<usize>, j: nat) -> bool
    decreases parts.len() - i, 0nat, j,
{
    if j == 0 || j > sibs.len() || i < 0 || i + 1 >= parts.len() {
        false
    } else {
        match_from(t, parts, i + 1, sibs[j - 1]) || sib_any(t, parts, i, sibs, (j - 1) as nat)
    }
}

/// Whether the node with id `node_id` matches the selector `parts`.
pub open spec fn query_holds(t: &Tree, parts: Seq<PartView>, node_id: usize) -> bool {
    parts.len() > 0 && match_from(t, parts, 0, node_id)
}

/// The ids of the nodes, in tree order.
pub open spec fn node_ids(t: &Tree) -> Seq<usize> {
    t.nodes@.map_values(|n: DomNode| n@.id)
}

impl SelectorQuery {
    /// Parses a selector text (see `parse_selector`).
    pub fn parse(input: &str) -> (r: Result<Self, String>)
        ensures
            match spec_parse_selector(input@) {
                Ok(parts) => r matches Ok(q) && q@ == parts,
                Err(e) => r matches Err(m) && m@ == message(e),
            },
    {
        parse_selector(input)
    }
}

/// The id `j` parent links above `id` (`id` itself for `j == 0`), as long
/// as the walk stays on nodes of the tree.
pub open spec fn up(t: &Tree, id: usize, j: nat) -> Option<usize>
    decreases j,
{
    if j == 0 {
        Some(id)
    } else {
        match node_at(t, id) {
            None => None,
            Some(n) => match n.parent {
                None => None,
                Some(p) => up(t, p, (j - 1) as nat),
            },
        }
    }
}

proof fn lemma_desc_any_witness(t: &Tree, parts: Seq<PartView>, i: int, a: usize, fuel: nat)
    requires
        desc_any(t, parts, i, Some(a), fuel),
    ensures
        exists|j: nat| #[trigger] up(t, a, j) matches Some(b) && match_from(t, parts, i + 1, b),
    decreases fuel,
{
    let an = node_at(t, a)->0;
    if match_from(t, parts, i + 1, a) {
        assert(up(t, a, 0) == Some(a));
    } else {
        assert(desc_any(t, parts, i, an.parent, (fuel - 1) as nat));
        let p = an.parent->0;
        lemma_desc_any_witness(t, parts, i, p, (fuel - 1) as nat);
        let j = choose|j: nat| #[trigger] up(t, p, j) matches Some(b) && match_from(t, parts, i + 1, b);
        assert(((j + 1) - 1) as nat == j);
        assert(up(t, a, (j + 1) as nat) == up(t, p, j));
    }
}

proof fn lemma_desc_any_complete(t: &Tree, parts: Seq<PartView>, i: int, a: usize, fuel: nat, j: nat, b: usize)
    requires
        t.wf(),
        0 <= i,
        i + 1 < parts.len(),
        t.chain_ends(a, fuel),
        up(t, a, j) == Some(b),
        match_from(t, parts, i + 1, b),
    ensures
        desc_any(t, parts, i, Some(a), fuel),
    decreases j,
{
    if j == 0 {
        assert(node_at(t, a) is Some);
    } else {
        let an = node_at(t, a)->0;
        let p = an.parent->0;
        assert(t.has_id(a));
        lemma_desc_any_complete(t, parts, i, p, (fuel - 1) as nat, (j - 1) as nat, b);
    }
}

/// A descendant selector `X Y` matches a node exactly when the node matches
/// `Y` and some proper ancestor of it, one or more parent links up, matches
/// `X`; the node never stands for its own ancestor.
pub proof fn lemma_descendant_proper_ancestor(t: &Tree, parts: Seq<PartView>, id: usize)
    requires
        t.wf(),
        t.parents_acyclic(),
        parts.len() == 2,
        parts[0].rel == Some(Combinator::Descendant),
        parts[1].rel is None,
    ensures
        query_holds(t, parts, id) <==> {
            &&& node_at(t, id) matches Some(n) && simple_matches(n, parts[0].sel)
            &&& exists|j: nat|
                j >= 1 && (#[trigger] up(t, id, j) matches Some(a) && (node_at(t, a) matches Some(an)
                    && simple_matches(an, parts[1].sel)))
        },
{
    if let Some(n) = node_at(t, id) {
        if let Some(p) = n.parent {
            let fuel = chain_fuel(t, p);
            assert(t.chain_finite(p));
            if query_holds(t, parts, id) {
                assert(match_from(t, parts, 0, id));
                assert(desc_any(t, parts, 0, Some(p), fuel));
                lemma_desc_any_witness(t, parts, 0, p, fuel);
                let j = choose|j: nat| #[trigger] up(t, p, j) matches Some(b) && match_from(t, parts, 1, b);
                let b = up(t, p, j)->0;
                assert(((j + 1) - 1) as nat == j);
                assert(up(t, id, (j + 1) as nat) == up(t, p, j));
                assert(node_at(t, b) is Some);
            }
            if simple_matches(n, parts[0].sel) && exists|j: nat|
                j >= 1 && (#[trigger] up(t, id, j) matches Some(a) && (node_at(t, a) matches Some(an)
                    && simple_matches(an, parts[1].sel))) {
                let j = choose|j: nat|
                    j >= 1 && (#[trigger] up(t, id, j) matches Some(a) && (node_at(t, a) matches Some(an)
                        && simple_matches(an, parts[1].sel)));
                let b = up(t, id, j)->0;
                assert(up(t, id, j) == up(t, p, (j - 1) as nat));
                assert(match_from(t, parts, 1, b));
                lemma_desc_any_complete(t, parts, 0, p, fuel, (j - 1) as nat, b);
            }
        } else {
            assert forall|j: nat| j >= 1 implies #[trigger] up(t, id, j) is None by {}
        }
    }
}

/// Whether node `cur` matches the parts `i..` (see `match_from`): every
/// candidate to the left is tried until one leads to a match.
fn match_from_exec(
    tree: &Tree,
    parts: &Vec<SelectorPart>,
    Ghost(pv): Ghost<Seq<PartView>>,
    i: usize,
    cur: usize,
) -> (r: bool)
    requires
        tree.wf(),
        uses_descendant(pv) ==> tree.parents_acyclic(),
        pv == parts@.map_values(|p: SelectorPart| p@),
        i < pv.len(),
    ensures
        r == match_from(tree, pv, i as int, cur),
    decreases pv.len() - i, 1nat, 0nat,
{
    let _n = parts.len();
    assert(pv.len() == parts@.len());
    let node = match get_node(tree, cur) {
        Some(n) => n,
        None => return false,
    };
    let part = &parts[i];
    assert(part@ == pv[i as int]);
    if !matches_simple_selector(node, &part.selector) {
        return false;
    }
    match part.relation_to_left {
        None => {
            if i + 1 < parts.len() {
                match_from_exec(tree, parts, Ghost(pv), i + 1, cur)
            } else {
                true
            }
        },
        Some(relation) => {
            if i + 1 >= parts.len() {
                return false;
            }
            let parent_id = match node.parent() {
                Some(p) => p,
                None => return false,
            };
            match relation {
                Combinator::Child => match_from_exec(tree, parts, Ghost(pv), i + 1, parent_id),
                Combinator::Descendant => {
                    assert(pv[i as int].rel == Some(Combinator::Descendant));
                    let ghost fuel = chain_fuel(tree, parent_id);
                    assert(tree.chain_finite(parent_id));
                    desc_any_exec(tree, parts, Ghost(pv), i, Some(parent_id), Ghost(fuel))
                },
                _ => {
                    let parent_node = match get_node(tree, parent_id) {
                        Some(n) => n,
                        None => return false,
                    };
                    let siblings = parent_node.children();
                    let ghost sibs = siblings@;
                    let mut right_pos: usize = 0;
                    while right_pos < siblings.len() && siblings[right_pos] != cur
                        invariant
                            0 <= right_pos <= sibs.len(),
                            sibs == siblings@,
                            position_from(sibs, cur, 0) == position_from(sibs, cur, right_pos as int),
                        decreases sibs.len() - right_pos,
                    {
                        right_pos += 1;
                    }
                    if right_pos == siblings.len() {
                        return false;
                    }
                    assert(position_from(sibs, cur, 0) == Some(right_pos as int));
                    match relation {
                        Combinator::AdjacentSibling => {
                            if right_pos == 0 {
                                false
                            } else {
                                match_from_exec(tree, parts, Ghost(pv), i + 1, siblings[right_pos - 1])
                            }
                        },
                        _ => sib_any_exec(tree, parts, Ghost(pv), i, siblings, right_pos),
                    }
                },
            }
        },
    }
}

/// Whether some node on the walk up from `cur` matches the parts from
/// `i + 1` on (see `desc_any`).
fn desc_any_exec(
    tree: &Tree,
    parts: &Vec<SelectorPart>,
    Ghost(pv): Ghost<Seq<PartView>>,
    i: usize,
    cur: Option<usize>,
    Ghost(fuel): Ghost<nat>,
) -> (r: bool)
    requires
        tree.wf(),
        uses_descendant(pv) ==> tree.parents_acyclic(),
        pv == parts@.map_values(|p: SelectorPart| p@),
        i + 1 < pv.len(),
        cur matches Some(a) ==> tree.chain_ends(a, fuel),
    ensures
        r == desc_any(tree, pv, i as int, cur, fuel),
    decreases pv.len() - i, 0nat, fuel,
{
    let _n = parts.len();
    assert(pv.len() == parts@.len());
    let a = match cur {
        Some(a) => a,
        None => return false,
    };
    assert(fuel > 0);
    let an = match get_node(tree, a) {
        Some(n) => n,
        None => return false,
    };
    if match_from_exec(tree, parts, Ghost(pv), i + 1, a) {
        return true;
    }
    desc_any_exec(tree, parts, Ghost(pv), i, an.parent(), Ghost((fuel - 1) as nat))
}

/// Whether some sibling among the first `j` of `sibs` matches the parts
/// from `i + 1` on (see `sib_any`).
fn sib_any_exec(
    tree: &Tree,
    parts: &Vec<SelectorPart>,
    Ghost(pv): Ghost<Seq<PartView>>,
    i: usize,
    sibs: &Vec<usize>,
    j: usize,
) -> (r: bool)
    requires
        tree.wf(),
        uses_descendant(pv) ==> tree.parents_acyclic(),
        pv == parts@.map_values(|p: SelectorPart| p@),
        i + 1 < pv.len(),
        j <= sibs@.len(),
    ensures
        r == sib_any(tree, pv, i as int, sibs@, j as nat),
    decreases pv.len() - i, 0nat, j,
{
    let _n = parts.len();
    assert(pv.len() == parts@.len());
    if j == 0 {
        return false;
    }
    if match_from_exec(tree, parts, Ghost(pv), i + 1, sibs[j - 1]) {
        return true;
    }
    sib_any_exec(tree, parts, Ghost(pv), i, sibs, j - 1)
}

/// Whether the node with id `node_id` matches `query`, read right to left
/// from that node, trying every candidate for each combinator.  The index
/// is not consulted: the walk goes by the parent and sibling links.
pub fn query_matches_node(
    tree: &Tree,
    _lca: &LcaBinaryLifting,
    node_id: usize,
    query: &SelectorQuery,
) -> (r: bool)
    requires
        tree.wf(),
        uses_descendant(query@) ==> tree.parents_acyclic(),
    ensures
        r == query_holds(tree, query@, node_id),
{
    let parts = &query.parts_right_to_left;
    if parts.len() == 0 {
        return false;
    }
    match_from_exec(tree, parts, Ghost(query@), 0, node_id)
}

/// The ids, in tree order, of the nodes that match `query`.
pub fn find_matching_nodes(tree: &Tree, query: &SelectorQuery) -> (r: Vec<usize>)
    requires
        tree.wf(),
        uses_descendant(query@) ==> tree.parents_acyclic(),
        tree.nodes@.len() <= isize::MAX,
    ensures
        r@ == node_ids(tree).filter(|id: usize| query_holds(tree, query@, id)),
{
    let lca = tree.build_lca_index();
    let ghost pred = |id: usize| query_holds(tree, query@, id);
    let ghost ids = node_ids(tree);
    let mut r: Vec<usize> = Vec::new();
    let mut i: usize = 0;
    proof {
        crate::lca::lemma_build_size(tree, lca@);
    }
    while i < tree.nodes.len()
        invariant
            tree.wf(),
            uses_descendant(query@) ==> tree.parents_acyclic(),
            lca@ == spec_build(tree),
            lca@.up.len() <= tree.nodes@.len(),
            ids == node_ids(tree),
            pred == (|id: usize| query_holds(tree, query@, id)),
            0 <= i <= tree.nodes@.len(),
            r@ == ids.take(i as int).filter(pred),
        decreases tree.nodes@.len() - i,
    {
        let id = tree.nodes[i].id();
        proof {
            assert(ids.take(i + 1).drop_last() =~= ids.take(i as int));
            assert(ids.take(i + 1).last() == id);
            reveal_with_fuel(Seq::<usize>::filter, 1);
        }
        if query_matches_node(tree, &lca, id, query) {
            r.push(id);
        }
        i += 1;
    }
    proof {
        assert(ids.take(i as int) =~= ids);
    }
    r
}

} // verus!

//! Reading free text into the concept phrases and the words it is made of.
use vstd::prelude::*;
use crate::text::{chars_of, is_alphabetic, is_whitespace, string_of, unicode_alphabetic, unicode_whitespace};

verus! {

/// What `str::to_lowercase` makes of a text: each character replaced by its
/// Unicode lower-case mapping.
pub uninterp spec fn lowercase(s: Seq<char>) -> Seq<char>;

/// Calls `str::to_lowercase`.  The Unicode case tables are not written out:
/// the result is only named, as a function of the text alone.
#[verifier::external_body]
fn to_lowercase(s: &str) -> (r: String)
    ensures
        r@ == lowercase(s@),
{
    s.to_lowercase()
}

/// A piece of ingested text: a concept phrase found at that point, or a
/// word, cleaned and lower-cased.
#[derive(Clone, Debug)]
pub enum IngestPiece {
    Phrase(String),
    Word(String),
}

/// The value of a piece.
pub enum PieceView {
    Phrase(Seq<char>),
    Word(Seq<char>),
}

impl DeepView for IngestPiece {
    type V = PieceView;

    open spec fn deep_view(&self) -> PieceView {
        match self {
            IngestPiece::Phrase(p) => PieceView::Phrase(p@),
            IngestPiece::Word(w) => PieceView::Word(w@),
        }
    }
}

/// Whether `s` shows `p` at index `i`.
pub open spec fn matches_at(s: Seq<char>, i: int, p: Seq<char>) -> bool {
    0 <= i && i + p.len() <= s.len() && s.subrange(i, i + p.len()) == p
}

/// The longest of the first `k` phrases that `s` shows at `i`; empty where
/// none does.
pub open spec fn longest_match(s: Seq<char>, i: int, phrases: Seq<Seq<char>>, k: int) -> Seq<char>
    decreases k,
{
    if k <= 0 {
        Seq::empty()
    } else {
        let b = longest_match(s, i, phrases, k - 1);
        let p = phrases[k - 1];
        if matches_at(s, i, p) && p.len() > b.len() {
            p
        } else {
            b
        }
    }
}

/// The end of the word from `i`: the first white space from there, or the
/// end of the text.
pub open spec fn word_end(s: Seq<char>, i: int) -> int
    decreases s.len() - i,
{
    if i < 0 || i >= s.len() || unicode_whitespace(s[i]) {
        i
    } else {
        word_end(s, i + 1)
    }
}

/// A word without its leading non-alphabetic characters.
pub open spec fn trim_front(w: Seq<char>) -> Seq<char>
    decreases w.len(),
{
    if w.len() > 0 && !unicode_alphabetic(w[0]) {
        trim_front(w.drop_first())
    } else {
        w
    }
}

/// A word without its trailing non-alphabetic characters.
pub open spec fn trim_back(w: Seq<char>) -> Seq<char>
    decreases w.len(),
{
    if w.len() > 0 && !unicode_alphabetic(w.last()) {
        trim_back(w.drop_last())
    } else {
        w
    }
}

/// A word without the non-alphabetic characters at either end.
pub open spec fn trim_non_alphabetic(w: Seq<char>) -> Seq<char> {
    trim_back(trim_front(w))
}

/// `rest` with `prefix` in front, where there is a `rest`.
pub open spec fn glue(prefix: Seq<PieceView>, rest: Option<Seq<PieceView>>) -> Option<Seq<PieceView>> {
    match rest {
        Some(r) => Some(prefix + r),
        None => None,
    }
}

proof fn lemma_glue_push(prefix: Seq<PieceView>, x: PieceView, rest: Option<Seq<PieceView>>)
    ensures
        glue(prefix, glue(seq![x], rest)) == glue(prefix.push(x), rest),
{
    match rest {
        Some(r) => assert(prefix + (seq![x] + r) =~= prefix.push(x) + r),
        None => {},
    }
}

pub proof fn lemma_word_end_bounds(s: Seq<char>, i: int)
    requires
        0 <= i <= s.len(),
    ensures
        i <= word_end(s, i) <= s.len(),
    decreases s.len() - i,
{
    if i < s.len() && !unicode_whitespace(s[i]) {
        lemma_word_end_bounds(s, i + 1);
    }
}

pub proof fn lemma_longest_match(s: Seq<char>, i: int, phrases: Seq<Seq<char>>, k: int)
    requires
        k <= phrases.len(),
    ensures
        longest_match(s, i, phrases, k).len() == 0 || matches_at(s, i, longest_match(s, i, phrases, k)),
        forall|j: int| 0 <= j < k && #[trigger] matches_at(s, i, phrases[j])
            ==> phrases[j].len() <= longest_match(s, i, phrases, k).len(),
        longest_match(s, i, phrases, k).len() > 0 ==> exists|j: int|
            0 <= j < k && #[trigger] phrases[j] == longest_match(s, i, phrases, k),
    decreases k,
{
    if k > 0 {
        lemma_longest_match(s, i, phrases, k - 1);
        if longest_match(s, i, phrases, k) == phrases[k - 1] {
            assert(phrases[k - 1] == longest_match(s, i, phrases, k));
        }
    }
}

/// The pieces of `s` from `i` on, or nothing where reading them would cut a
/// character in two.  At each point the longest concept phrase found there
/// is a piece; else white space is skipped, one byte at a time, so a white
/// space character of more than one byte cannot be skipped; else the word
/// up to the next white space is a piece once its non-alphabetic ends are
/// trimmed and it is lower-cased, where anything is left of it.
pub open spec fn ingest_from(s: Seq<char>, i: int, phrases: Seq<Seq<char>>) -> Option<Seq<PieceView>>
    decreases s.len() - i,
{
    if i < 0 || i >= s.len() {
        Some(Seq::empty())
    } else {
        let p = longest_match(s, i, phrases, phrases.len() as int);
        if p.len() > 0 {
            proof {
                lemma_longest_match(s, i, phrases, phrases.len() as int);
            }
            glue(seq![PieceView::Phrase(p)], ingest_from(s, i + p.len(), phrases))
        } else if unicode_whitespace(s[i]) {
            if (s[i] as u32) < 0x80 {
                ingest_from(s, i + 1, phrases)
            } else {
                None
            }
        } else {
            proof {
                lemma_word_end_bounds(s, i + 1);
            }
            let e = word_end(s, i);
            let w = lowercase(trim_non_alphabetic(s.subrange(i, e)));
            if w.len() > 0 {
                glue(seq![PieceView::Word(w)], ingest_from(s, e, phrases))
            } else {
                ingest_from(s, e, phrases)
            }
        }
    }
}

/// The word end from `i` is the first white space from there.
proof fn lemma_word_end_at(s: Seq<char>, i: int, e: int)
    requires
        0 <= i <= e <= s.len(),
        forall|m: int| i <= m < e ==> !unicode_whitespace(s[m]),
        e == s.len() || unicode_whitespace(s[e]),
    ensures
        word_end(s, i) == e,
    decreases e - i,
{
    if i < e {
        lemma_word_end_at(s, i + 1, e);
    }
}

/// Where no non-empty concept phrase starts at `i` and `s[i..e]` is a run
/// of characters that are not white space, ended by white space or by the
/// end of the text, that run is one word: trimmed of its non-alphabetic
/// ends and lower-cased it is the next piece where anything is left of it,
/// and reading goes on at `e`.  A word never runs over white space.
pub proof fn lemma_ingest_word(s: Seq<char>, i: int, e: int, phrases: Seq<Seq<char>>)
    requires
        0 <= i < e <= s.len(),
        forall|m: int| i <= m < e ==> !unicode_whitespace(#[trigger] s[m]),
        e == s.len() || unicode_whitespace(s[e]),
        forall|j: int| 0 <= j < phrases.len() && (#[trigger] phrases[j]).len() > 0 ==> !(i + phrases[j].len()
            <= s.len() && s.subrange(i, i + phrases[j].len()) == phrases[j]),
    ensures
        ingest_from(s, i, phrases) == {
            let w = lowercase(trim_non_alphabetic(s.subrange(i, e)));
            if w.len() > 0 {
                glue(seq![PieceView::Word(w)], ingest_from(s, e, phrases))
            } else {
                ingest_from(s, e, phrases)
            }
        },
{
    lemma_longest_match(s, i, phrases, phrases.len() as int);
    let p = longest_match(s, i, phrases, phrases.len() as int);
    if p.len() > 0 {
        let j = choose|j: int| 0 <= j < phrases.len() && #[trigger] phrases[j] == p;
        assert(phrases[j].len() > 0);
    }
    assert(!unicode_whitespace(s[i]));
    lemma_word_end_at(s, i, e);
}

/// Where the phrase `p` from the list starts at `i` and no longer phrase
/// from the list does, `p` is the next piece and reading goes on after it.
pub proof fn lemma_ingest_phrase(s: Seq<char>, i: int, phrases: Seq<Seq<char>>, j: int)
    requires
        0 <= i < s.len(),
        0 <= j < phrases.len(),
        phrases[j].len() > 0,
        i + phrases[j].len() <= s.len(),
        s.subrange(i, i + phrases[j].len()) == phrases[j],
        forall|k: int| 0 <= k < phrases.len() && i + (#[trigger] phrases[k]).len() <= s.len() && s.subrange(
            i,
            i + phrases[k].len(),
        ) == phrases[k] ==> phrases[k].len() <= phrases[j].len(),
    ensures
        ingest_from(s, i, phrases) == glue(
            seq![PieceView::Phrase(phrases[j])],
            ingest_from(s, i + phrases[j].len(), phrases),
        ),
{
    lemma_longest_match(s, i, phrases, phrases.len() as int);
    let p = longest_match(s, i, phrases, phrases.len() as int);
    assert(matches_at(s, i, phrases[j]));
    assert(p.len() >= phrases[j].len());
    let k = choose|k: int| 0 <= k < phrases.len() && #[trigger] phrases[k] == p;
    assert(matches_at(s, i, p));
    assert(p.len() <= phrases[j].len());
    assert(p =~= phrases[j]) by {
        assert(p == s.subrange(i, i + p.len()));
        assert(phrases[j] == s.subrange(i, i + phrases[j].len()));
    }
}

/// Single-byte white space where no phrase starts is skipped.
pub proof fn lemma_ingest_skips_space(s: Seq<char>, i: int, phrases: Seq<Seq<char>>)
    requires
        0 <= i < s.len(),
        unicode_whitespace(s[i]),
        (s[i] as u32) < 0x80,
        forall|j: int| 0 <= j < phrases.len() && (#[trigger] phrases[j]).len() > 0 ==> !(i + phrases[j].len()
            <= s.len() && s.subrange(i, i + phrases[j].len()) == phrases[j]),
    ensures
        ingest_from(s, i, phrases) == ingest_from(s, i + 1, phrases),
{
    lemma_longest_match(s, i, phrases, phrases.len() as int);
    let p = longest_match(s, i, phrases, phrases.len() as int);
    if p.len() > 0 {
        let j = choose|j: int| 0 <= j < phrases.len() && #[trigger] phrases[j] == p;
        assert(phrases[j].len() > 0);
    }
}

/// Every piece read from a text is one of the concept phrases, or a
/// non-empty word.
pub proof fn lemma_ingest_pieces(s: Seq<char>, i: int, phrases: Seq<Seq<char>>)
    ensures
        ingest_from(s, i, phrases) matches Some(v) ==> forall|k: int|
            0 <= k < v.len() ==> match #[trigger] v[k] {
                PieceView::Phrase(p) => phrases.contains(p),
                PieceView::Word(w) => w.len() > 0,
            },
    decreases s.len() - i,
{
    if 0 <= i < s.len() {
        let p = longest_match(s, i, phrases, phrases.len() as int);
        lemma_longest_match(s, i, phrases, phrases.len() as int);
        if p.len() > 0 {
            lemma_ingest_pieces(s, i + p.len(), phrases);
            if let Some(v) = ingest_from(s, i, phrases) {
                let rest = ingest_from(s, i + p.len(), phrases)->0;
                assert(v == seq![PieceView::Phrase(p)] + rest);
                let j = choose|j: int| 0 <= j < phrases.len() && #[trigger] phrases[j] == p;
                assert(phrases.contains(p));
                assert forall|k: int| 0 <= k < v.len() implies match #[trigger] v[k] {
                    PieceView::Phrase(q) => phrases.contains(q),
                    PieceView::Word(w) => w.len() > 0,
                } by {
                    if k > 0 {
                        assert(v[k] == rest[k - 1]);
                    }
                }
            }
        } else if unicode_whitespace(s[i]) {
            if (s[i] as u32) < 0x80 {
                lemma_ingest_pieces(s, i + 1, phrases);
            }
        } else {
            lemma_word_end_bounds(s, i + 1);
            let e = word_end(s, i);
            lemma_ingest_pieces(s, e, phrases);
            let w = lowercase(trim_non_alphabetic(s.subrange(i, e)));
            if let Some(v) = ingest_from(s, i, phrases) {
                let rest = ingest_from(s, e, phrases)->0;
                if w.len() > 0 {
                    assert(v == seq![PieceView::Word(w)] + rest);
                    assert forall|k: int| 0 <= k < v.len() implies match #[trigger] v[k] {
                        PieceView::Phrase(q) => phrases.contains(q),
                        PieceView::Word(x) => x.len() > 0,
                    } by {
                        if k > 0 {
                            assert(v[k] == rest[k - 1]);
                        }
                    }
                }
            }
        }
    }
}

/// Whether `s` shows `p` at `i`.
fn matches_at_exec(s: &Vec<char>, i: usize, p: &Vec<char>) -> (r: bool)
    ensures
        r == matches_at(s@, i as int, p@),
{
    if i > s.len() || p.len() > s.len() - i {
        return false;
    }
    let mut k: usize = 0;
    while k < p.len()
        invariant
            i + p@.len() <= s@.len(),
            s@.len() <= usize::MAX,
            k <= p@.len(),
            forall|j: int| 0 <= j < k ==> s@[i + j] == p@[j],
        decreases p.len() - k,
    {
        if s[i + k] != p[k] {
            assert(s@.subrange(i as int, i + p@.len())[k as int] != p@[k as int]);
            return false;
        }
        k += 1;
    }
    assert(s@.subrange(i as int, i + p@.len()) =~= p@);
    true
}

/// The index of the longest phrase shown at `i`, if any is.
fn longest_match_exec(s: &Vec<char>, i: usize, ps: &Vec<Vec<char>>) -> (r: Option<usize>)
    ensures
        match r {
            Some(b) => b < ps@.len() && ps@[b as int]@ == longest_match(s@, i as int, ps.deep_view(), ps@.len() as int)
                && ps@[b as int]@.len() > 0,
            None => longest_match(s@, i as int, ps.deep_view(), ps@.len() as int).len() == 0,
        },
{
    let ghost pv = ps.deep_view();
    let mut best: Option<usize> = None;
    let mut best_len: usize = 0;
    let mut k: usize = 0;
    while k < ps.len()
        invariant
            k <= ps@.len(),
            pv == ps.deep_view(),
            match best {
                Some(b) => b < ps@.len() && ps@[b as int]@ == longest_match(s@, i as int, pv, k as int)
                    && best_len == ps@[b as int]@.len() && best_len > 0,
                None => longest_match(s@, i as int, pv, k as int).len() == 0 && best_len == 0,
            },
        decreases ps.len() - k,
    {
        assert(pv[k as int] == ps@[k as int]@);
        if ps[k].len() > best_len && matches_at_exec(s, i, &ps[k]) {
            best = Some(k);
            best_len = ps[k].len();
        }
        k += 1;
    }
    best
}

/// The characters `s[a..b]`.
fn slice_chars(s: &Vec<char>, a: usize, b: usize) -> (r: Vec<char>)
    requires
        a <= b <= s@.len(),
    ensures
        r@ == s@.subrange(a as int, b as int),
{
    let mut r: Vec<char> = Vec::new();
    let mut k = a;
    while k < b
        invariant
            a <= k <= b <= s@.len(),
            r@ == s@.subrange(a as int, k as int),
        decreases b - k,
    {
        r.push(s[k]);
        assert(s@.subrange(a as int, k + 1) =~= s@.subrange(a as int, k as int).push(s@[k as int]));
        k += 1;
    }
    r
}

/// The word of `s` from `i` to `e`, trimmed and lower-cased.
fn clean_word(s: &Vec<char>, i: usize, e: usize) -> (r: String)
    requires
        i <= e <= s@.len(),
    ensures
        r@ == lowercase(trim_non_alphabetic(s@.subrange(i as int, e as int))),
{
    let mut a = i;
    while a < e && !is_alphabetic(s[a])
        invariant
            i <= a <= e <= s@.len(),
            trim_front(s@.subrange(i as int, e as int)) == trim_front(s@.subrange(a as int, e as int)),
        decreases e - a,
    {
        assert(s@.subrange(a as int, e as int).drop_first() =~= s@.subrange(a + 1, e as int));
        a += 1;
    }
    let ghost front = s@.subrange(a as int, e as int);
    assert(trim_front(front) == front);
    let mut b = e;
    while b > a && !is_alphabetic(s[b - 1])
        invariant
            i <= a <= b <= e <= s@.len(),
            trim_back(front) == trim_back(s@.subrange(a as int, b as int)),
        decreases b - a,
    {
        assert(s@.subrange(a as int, b as int).drop_last() =~= s@.subrange(a as int, b - 1));
        b -= 1;
    }
    assert(trim_back(s@.subrange(a as int, b as int)) == s@.subrange(a as int, b as int));
    let t = string_of(&slice_chars(s, a, b));
    to_lowercase(t.as_str())
}

/// Reads `text` into its pieces, with `phrases` the concept phrases; nothing
/// where reading would cut a white space character of more than one byte.
pub fn ingest_pieces(text: &str, phrases: &Vec<String>) -> (r: Option<Vec<IngestPiece>>)
    ensures
        match r {
            Some(v) => ingest_from(text@, 0, phrases.deep_view()) == Some(v.deep_view()),
            None => ingest_from(text@, 0, phrases.deep_view()) is None,
        },
{
    let s = chars_of(text);
    let mut ps: Vec<Vec<char>> = Vec::new();
    let mut k: usize = 0;
    while k < phrases.len()
        invariant
            k <= phrases@.len(),
            ps@.len() == k,
            forall|j: int| 0 <= j < k ==> (#[trigger] ps@[j])@ == phrases@[j]@,
        decreases phrases.len() - k,
    {
        ps.push(chars_of(phrases[k].as_str()));
        k += 1;
    }
    let ghost pv = phrases.deep_view();
    assert(ps.deep_view() =~= pv) by {
        assert forall|j: int| 0 <= j < pv.len() implies ps.deep_view()[j] == pv[j] by {
            assert(ps@[j]@ == phrases@[j]@);
        }
    }
    let mut out: Vec<IngestPiece> = Vec::new();
    let mut i: usize = 0;
    assert(out.deep_view() + Seq::<PieceView>::empty() =~= out.deep_view());
    assert(glue(out.deep_view(), ingest_from(s@, 0, pv)) =~= ingest_from(s@, 0, pv)) by {
        match ingest_from(s@, 0, pv) {
            Some(r) => assert(out.deep_view() + r =~= r),
            None => {},
        }
    }
    while i < s.len()
        invariant
            i <= s@.len(),
            s@ == text@,
            ps.deep_view() == pv,
            pv == phrases.deep_view(),
            ingest_from(s@, 0, pv) == glue(out.deep_view(), ingest_from(s@, i as int, pv)),
        decreases s.len() - i,
    {
        let ghost v0 = out;
        match longest_match_exec(&s, i, &ps) {
            Some(b) => {
                proof {
                    lemma_longest_match(s@, i as int, pv, pv.len() as int);
                }
                let piece = IngestPiece::Phrase(string_of(&ps[b]));
                let n = ps[b].len();
                let ghost gp = piece;
                out.push(piece);
                proof {
                    crate::ast::lemma_push_deep_view(v0, out, gp);
                    lemma_glue_push(v0.deep_view(), gp.deep_view(), ingest_from(s@, i + n, pv));
                }
                i = i + n;
            },
            None => {
                let c = s[i];
                if is_whitespace(c) {
                    if (c as u32) < 0x80 {
                        i = i + 1;
                    } else {
                        assert(ingest_from(s@, i as int, pv) is None);
                        return None;
                    }
                } else {
                    let mut e = i + 1;
                    proof {
                        lemma_word_end_bounds(s@, i + 1);
                    }
                    while e < s.len() && !is_whitespace(s[e])
                        invariant
                            i < e <= s@.len(),
                            word_end(s@, e as int) == word_end(s@, i as int),
                        decreases s.len() - e,
                    {
                        e = e + 1;
                    }
                    let w = clean_word(&s, i, e);
                    if !w.as_str().is_empty() {
                        let piece = IngestPiece::Word(w);
                        let ghost gp = piece;
                        out.push(piece);
                        proof {
                            crate::ast::lemma_push_deep_view(v0, out, gp);
                            lemma_glue_push(v0.deep_view(), gp.deep_view(), ingest_from(s@, e as int, pv));
                        }
                    }
                    i = e;
                }
            },
        }
    }
    Some(out)
}

} // verus!

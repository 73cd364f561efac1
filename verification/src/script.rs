//! Script-aware segmentation for comparison keys.
//!
//! Splitting on non-alphanumeric characters finds word boundaries only in
//! scripts that mark them. Han, Kana, Hangul, Bopomofo, Arabic, Khmer, Thai,
//! Lao and Myanmar attach words (or morphology) without a delimiter, so a
//! whole clause would collapse into a single token there. Runs in those
//! scripts are segmented into character bigrams, symmetrically for queries
//! and documents, plus unigrams only where a character is itself a word
//! (Han). Runs are split by script first, and delimiting scripts are left
//! untouched.

use vstd::prelude::*;
use crate::script_laws::{is_alphanumeric_text, lemma_tokens_are_alphanumeric};
use crate::text::{char_is_alphanumeric, chars_of, is_alphanumeric, string_of};

verus! {

/// The scripts this module treats specially, plus `Other` for everything
/// that already marks its own word boundaries.
#[derive(Debug, Clone, Copy, PartialEq, Eq, Structural)]
pub enum Script {
    Han,
    Hiragana,
    Katakana,
    Hangul,
    Bopomofo,
    Arabic,
    Khmer,
    Thai,
    Lao,
    Myanmar,
    /// Any script that delimits its words: Latin, Cyrillic, Greek,
    /// Georgian, Tibetan, Devanagari, digits, and everything else.
    Other,
}

impl Script {
    /// True when the script attaches words or morphology without a delimiter.
    pub open spec fn spec_attaches_without_delimiter(self) -> bool {
        self != Script::Other
    }

    /// True when a single character of the script is itself a word.
    pub open spec fn spec_is_logographic(self) -> bool {
        self == Script::Han
    }

    /// True when the script attaches words or morphology without a
    /// delimiter, so a boundary split cannot find word edges inside it.
    ///
    /// Arabic is included even though it spaces its words: the definite
    /// article and the proclitics attach with no delimiter.
    pub fn attaches_without_delimiter(self) -> (r: bool)
        ensures
            r == self.spec_attaches_without_delimiter(),
    {
        !matches!(self, Script::Other)
    }

    /// True when a single character is itself a unit of meaning, so
    /// emitting it alone is evidence rather than noise. Only Han.
    pub fn is_logographic(self) -> (r: bool)
        ensures
            r == self.spec_is_logographic(),
    {
        matches!(self, Script::Han)
    }
}

/// The script of a code point, by explicit ranges.
pub open spec fn script_of_code(u: u32) -> Script {
    if u == 0x3005 || u == 0x303B
        || (0x3400 <= u <= 0x4DBF) || (0x4E00 <= u <= 0x9FFF) || (0xF900 <= u <= 0xFAFF)
        || (0x20000 <= u <= 0x2A6DF) || (0x2A700 <= u <= 0x2EBEF) || (0x2F800 <= u <= 0x2FA1F) {
        Script::Han
    } else if 0x3040 <= u <= 0x309F {
        Script::Hiragana
    } else if (0x30A0 <= u <= 0x30FF) || (0x31F0 <= u <= 0x31FF) || (0xFF66 <= u <= 0xFF9F) {
        Script::Katakana
    } else if (0x1100 <= u <= 0x11FF) || (0x3130 <= u <= 0x318F) || (0xA960 <= u <= 0xA97F)
        || (0xAC00 <= u <= 0xD7A3) || (0xD7B0 <= u <= 0xD7FF) {
        Script::Hangul
    } else if (0x3105 <= u <= 0x312F) || (0x31A0 <= u <= 0x31BF) {
        Script::Bopomofo
    } else if (0x0600 <= u <= 0x06FF) || (0x0750 <= u <= 0x077F) || (0x08A0 <= u <= 0x08FF)
        || (0xFB50 <= u <= 0xFDFF) || (0xFE70 <= u <= 0xFEFF) {
        Script::Arabic
    } else if (0x1780 <= u <= 0x17FF) || (0x19E0 <= u <= 0x19FF) {
        Script::Khmer
    } else if 0x0E00 <= u <= 0x0E7F {
        Script::Thai
    } else if 0x0E80 <= u <= 0x0EFF {
        Script::Lao
    } else if (0x1000 <= u <= 0x109F) || (0xA9E0 <= u <= 0xA9FF) || (0xAA60 <= u <= 0xAA7F) {
        Script::Myanmar
    } else {
        Script::Other
    }
}

/// The script of a character.
pub open spec fn spec_script_of(c: char) -> Script {
    script_of_code(c as u32)
}

/// Classify a character by script.
///
/// Explicit ranges rather than a Unicode Script table: the set treated
/// specially is small and fixed. Everything unlisted is `Other`, which
/// means "leave this alone".
pub fn script_of(c: char) -> (s: Script)
    ensures
        s == spec_script_of(c),
{
    match c as u32 {
        // Han, with the iteration marks that repeat the preceding ideograph.
        0x3005 | 0x303B => Script::Han,
        0x3400..=0x4DBF        // Extension A
        | 0x4E00..=0x9FFF      // Unified Ideographs
        | 0xF900..=0xFAFF      // Compatibility Ideographs
        | 0x20000..=0x2A6DF    // Extension B
        | 0x2A700..=0x2EBEF    // Extensions C-F
        | 0x2F800..=0x2FA1F => Script::Han,
        0x3040..=0x309F => Script::Hiragana,
        // Katakana, phonetic extensions, and halfwidth forms.
        0x30A0..=0x30FF | 0x31F0..=0x31FF | 0xFF66..=0xFF9F => Script::Katakana,
        0x1100..=0x11FF        // Jamo
        | 0x3130..=0x318F      // Compatibility Jamo
        | 0xA960..=0xA97F      // Jamo Extended-A
        | 0xAC00..=0xD7A3      // Syllables
        | 0xD7B0..=0xD7FF => Script::Hangul,
        0x3105..=0x312F | 0x31A0..=0x31BF => Script::Bopomofo,
        0x0600..=0x06FF        // Arabic
        | 0x0750..=0x077F      // Supplement
        | 0x08A0..=0x08FF      // Extended-A
        | 0xFB50..=0xFDFF      // Presentation Forms-A
        | 0xFE70..=0xFEFF => Script::Arabic,
        0x1780..=0x17FF | 0x19E0..=0x19FF => Script::Khmer,
        0x0E00..=0x0E7F => Script::Thai,
        0x0E80..=0x0EFF => Script::Lao,
        0x1000..=0x109F | 0xA9E0..=0xA9FF | 0xAA60..=0xAA7F => Script::Myanmar,
        _ => Script::Other,
    }
}


/// The result of segmenting a text into comparison tokens.
pub struct Segmented {
    /// Every token, unfiltered, in order. Query and document sides both go
    /// through segmentation, so matching stays symmetric; callers apply
    /// their own minimum-length rule.
    pub tokens: Vec<String>,
    /// Content units: one per token of a delimiting script, one per
    /// character of a segmented run (not one per emitted n-gram).
    pub len: usize,
}

impl Segmented {
    /// The tokens as character sequences.
    pub open spec fn tokens_view(&self) -> Seq<Seq<char>> {
        self.tokens@.map_values(|t: String| t@)
    }
}

/// The bigrams of `sub`, left to right.
pub open spec fn bigrams(sub: Seq<char>) -> Seq<Seq<char>>
    recommends
        sub.len() >= 2,
{
    Seq::new((sub.len() - 1) as nat, |k: int| sub.subrange(k, k + 2))
}

/// The one-character tokens of `sub`, left to right.
pub open spec fn unigrams(sub: Seq<char>) -> Seq<Seq<char>> {
    Seq::new(sub.len(), |k: int| seq![sub[k]])
}

/// The tokens that one same-script subrun emits; `delimited` tells whether
/// the subrun is a whole run between delimiters (or the ends of the text).
///
/// A delimiting script emits the subrun whole. A script that attaches
/// without a delimiter emits its unigrams (logographic scripts only), then
/// its bigrams, then the whole subrun when it is longer than a bigram. A
/// lone character of a non-logographic script is a word only when
/// delimiters bound it, and is emitted as itself only then.
pub open spec fn emit_tokens(sub: Seq<char>, script: Script, delimited: bool) -> Seq<Seq<char>> {
    if sub.len() == 0 {
        seq![]
    } else if !script.spec_attaches_without_delimiter() {
        seq![sub]
    } else {
        (if script.spec_is_logographic() { unigrams(sub) } else { seq![] }) + (if sub.len() < 2 {
            if script.spec_is_logographic() || !delimited { seq![] } else { seq![sub] }
        } else {
            bigrams(sub) + (if sub.len() > 2 { seq![sub] } else { seq![] })
        })
    }
}

/// The content units one same-script subrun counts for.
pub open spec fn emit_units(sub: Seq<char>, script: Script) -> nat {
    if sub.len() == 0 {
        0
    } else if !script.spec_attaches_without_delimiter() {
        1
    } else {
        sub.len()
    }
}

/// Where the run of word characters of script `sc` that reaches position
/// `i` of `s` ends: the first position at or after `i` that is past the
/// end, not a word character (per `word`), or of another script.
pub open spec fn run_end(s: Seq<char>, word: Seq<bool>, i: int, sc: Script) -> int
    decreases s.len() - i,
{
    if i < 0 || i >= s.len() || i >= word.len() || !word[i] || spec_script_of(s[i]) != sc {
        i
    } else {
        run_end(s, word, i + 1, sc)
    }
}

/// The maximal same-script runs of word characters of `s` that start at
/// or after position `i`, in order.
pub open spec fn pieces_from(s: Seq<char>, word: Seq<bool>, i: int) -> Seq<Seq<char>>
    decreases s.len() - i,
{
    if i < 0 || i >= s.len() || i >= word.len() {
        seq![]
    } else if !word[i] {
        pieces_from(s, word, i + 1)
    } else {
        let e = run_end(s, word, i + 1, spec_script_of(s[i]));
        proof {
            lemma_run_end_bounds(s, word, i + 1, spec_script_of(s[i]));
        }
        seq![s.subrange(i, e)] + pieces_from(s, word, e)
    }
}

/// The maximal same-script runs of word characters of `s`, where
/// `word[i]` tells whether `s[i]` is a word character.
pub open spec fn spec_pieces(s: Seq<char>, word: Seq<bool>) -> Seq<Seq<char>> {
    pieces_from(s, word, 0)
}

/// Whether characters `st..en` of a text with word flags `word` are bounded
/// by delimiters (or the ends of the text) on both sides.
pub open spec fn delimited_at(word: Seq<bool>, st: int, en: int) -> bool {
    (st <= 0 || !word[st - 1]) && (en >= word.len() || !word[en])
}

/// For each piece from position `i` on, whether delimiters bound it.
pub open spec fn piece_delimited_from(s: Seq<char>, word: Seq<bool>, i: int) -> Seq<bool>
    decreases s.len() - i,
{
    if i < 0 || i >= s.len() || i >= word.len() {
        seq![]
    } else if !word[i] {
        piece_delimited_from(s, word, i + 1)
    } else {
        let e = run_end(s, word, i + 1, spec_script_of(s[i]));
        proof {
            lemma_run_end_bounds(s, word, i + 1, spec_script_of(s[i]));
        }
        seq![delimited_at(word, i, e)] + piece_delimited_from(s, word, e)
    }
}

/// For each piece of `s`, whether delimiters bound it.
pub open spec fn spec_piece_delimited(s: Seq<char>, word: Seq<bool>) -> Seq<bool> {
    piece_delimited_from(s, word, 0)
}

/// The script of a (non-empty) piece.
pub open spec fn piece_script(p: Seq<char>) -> Script {
    spec_script_of(p[0])
}

/// The tokens emitted for a sequence of pieces, in order, where `ds[k]`
/// tells whether delimiters bound piece `k`.
pub open spec fn tokens_of(ps: Seq<Seq<char>>, ds: Seq<bool>) -> Seq<Seq<char>>
    decreases ps.len(),
{
    if ps.len() == 0 {
        seq![]
    } else {
        emit_tokens(ps[0], piece_script(ps[0]), ds[0]) + tokens_of(ps.drop_first(), ds.drop_first())
    }
}

/// The content units counted for a sequence of pieces.
pub open spec fn units_of(ps: Seq<Seq<char>>) -> nat
    decreases ps.len(),
{
    if ps.len() == 0 {
        0
    } else {
        emit_units(ps[0], piece_script(ps[0])) + units_of(ps.drop_first())
    }
}

/// The tokens of a text `s` with word flags `word`.
pub open spec fn spec_segment_tokens(s: Seq<char>, word: Seq<bool>) -> Seq<Seq<char>> {
    tokens_of(spec_pieces(s, word), spec_piece_delimited(s, word))
}

/// The content units of a text `s` with word flags `word`.
pub open spec fn spec_segment_units(s: Seq<char>, word: Seq<bool>) -> nat {
    units_of(spec_pieces(s, word))
}

/// Which characters of `s` are alphanumeric.
pub open spec fn alnum_flags(s: Seq<char>) -> Seq<bool> {
    Seq::new(s.len(), |i: int| char_is_alphanumeric(s[i]))
}

/// A run end lies between its start and the end of the text.
pub proof fn lemma_run_end_bounds(s: Seq<char>, word: Seq<bool>, i: int, sc: Script)
    requires
        0 <= i,
    ensures
        i <= run_end(s, word, i, sc),
        run_end(s, word, i, sc) <= if i <= s.len() { s.len() as int } else { i },
    decreases s.len() - i,
{
    if i < s.len() && i < word.len() && word[i] && spec_script_of(s[i]) == sc {
        lemma_run_end_bounds(s, word, i + 1, sc);
    }
}

/// Append one token.
fn push_token(out: &mut Segmented, t: String)
    ensures
        final(out).tokens_view() == old(out).tokens_view().push(t@),
        final(out).len == old(out).len,
{
    let ghost before = out.tokens@;
    out.tokens.push(t);
    assert(out.tokens@ == before.push(t));
    assert(out.tokens_view() =~= old(out).tokens_view().push(t@));
}

/// Emit one same-script subrun.
fn emit(out: &mut Segmented, sub: &[char], script: Script, delimited: bool)
    requires
        old(out).len + sub@.len() <= usize::MAX,
    ensures
        final(out).tokens_view() == old(out).tokens_view() + emit_tokens(sub@, script, delimited),
        final(out).len == old(out).len + emit_units(sub@, script),
{
    let n = sub.len();
    if n == 0 {
        assert(out.tokens_view() =~= old(out).tokens_view() + emit_tokens(sub@, script, delimited));
        return;
    }
    if !script.attaches_without_delimiter() {
        out.len = out.len + 1;
        push_token(out, string_of(sub));
        assert(out.tokens_view() =~= old(out).tokens_view() + emit_tokens(sub@, script, delimited));
        return;
    }
    out.len = out.len + n;
    let ghost base = out.tokens_view();
    let logographic = script.is_logographic();
    // Unigrams only where a character is a word.
    if logographic {
        for k in 0..n
            invariant
                n == sub@.len(),
                out.len == old(out).len + n,
                out.tokens_view() =~= base + unigrams(sub@).take(k as int),
        {
            push_token(out, string_of(&sub[k..k + 1]));
            assert(unigrams(sub@).take(k + 1) =~= unigrams(sub@).take(k as int).push(seq![sub@[k as int]]));
            assert(sub@.subrange(k as int, k + 1) =~= seq![sub@[k as int]]);
        }
        assert(unigrams(sub@).take(n as int) =~= unigrams(sub@));
    }
    let ghost after_uni = out.tokens_view();
    assert(after_uni =~= base + (if logographic { unigrams(sub@) } else { seq![] }));
    if n < 2 {
        // A one-character subrun bounded by delimiters is a real token in
        // any script; one that only a script change bounds is not a word.
        if !logographic && delimited {
            push_token(out, string_of(sub));
        }
        assert(out.tokens_view() =~= old(out).tokens_view() + emit_tokens(sub@, script, delimited));
        return;
    }
    for k in 0..n - 1
        invariant
            n == sub@.len(),
            n >= 2,
            out.len == old(out).len + n,
            out.tokens_view() =~= after_uni + bigrams(sub@).take(k as int),
    {
        push_token(out, string_of(&sub[k..k + 2]));
        assert(bigrams(sub@).take(k + 1) =~= bigrams(sub@).take(k as int).push(sub@.subrange(k as int, k + 2)));
    }
    assert(bigrams(sub@).take(n - 1) =~= bigrams(sub@));
    // The whole unit, when it is longer than the bigrams already emitted.
    if n > 2 {
        push_token(out, string_of(sub));
    }
    assert(out.tokens_view() =~= old(out).tokens_view() + emit_tokens(sub@, script, delimited));
}

/// Segment a text given as characters, where `word[i]` tells whether
/// `chars[i]` is a word character (alphanumeric). Delimiters separate
/// runs; each run is split where its script changes, and each same-script
/// subrun is emitted in turn.
pub fn segment_chars(chars: &[char], word: &[bool]) -> (out: Segmented)
    requires
        chars@.len() == word@.len(),
    ensures
        out.tokens_view() == spec_segment_tokens(chars@, word@),
        out.len == spec_segment_units(chars@, word@),
{
    let ghost s = chars@;
    let ghost w = word@;
    let n = chars.len();
    let mut out = Segmented { tokens: Vec::new(), len: 0 };
    assert(out.tokens_view() =~= Seq::<Seq<char>>::empty());
    let mut i: usize = 0;
    while i < n
        invariant
            n == s.len(),
            s == chars@,
            w == word@,
            s.len() == w.len(),
            i <= n,
            out.len <= i,
            out.tokens_view() + tokens_of(pieces_from(s, w, i as int), piece_delimited_from(s, w, i as int))
                == tokens_of(pieces_from(s, w, 0), piece_delimited_from(s, w, 0)),
            out.len + units_of(pieces_from(s, w, i as int)) == units_of(pieces_from(s, w, 0)),
        decreases n - i,
    {
        if !word[i] {
            i = i + 1;
        } else {
            let script = script_of(chars[i]);
            let start = i;
            i = i + 1;
            while i < n && word[i] && script_of(chars[i]) == script
                invariant
                    n == s.len(),
                    s == chars@,
                    w == word@,
                    s.len() == w.len(),
                    start < i <= n,
                    run_end(s, w, start + 1, script) == run_end(s, w, i as int, script),
                decreases n - i,
            {
                i = i + 1;
            }
            // Delimiters (or the ends of the text) bound the subrun on
            // both sides, rather than a change of script.
            let delimited = (start == 0 || !word[start - 1]) && (i == n || !word[i]);
            let ghost p = s.subrange(start as int, i as int);
            let ghost rest = pieces_from(s, w, i as int);
            let ghost drest = piece_delimited_from(s, w, i as int);
            assert(pieces_from(s, w, start as int) == seq![p] + rest);
            assert(piece_delimited_from(s, w, start as int) == seq![delimited] + drest);
            assert((seq![p] + rest).drop_first() =~= rest);
            assert((seq![delimited] + drest).drop_first() =~= drest);
            assert(p[0] == s[start as int]);
            let ghost before = out.tokens_view();
            emit(&mut out, &chars[start..i], script, delimited);
            assert(before + tokens_of(seq![p] + rest, seq![delimited] + drest) =~= out.tokens_view()
                + tokens_of(rest, drest));
        }
    }
    out
}

/// Segment `text` into comparison tokens.
///
/// `text` is expected to be already canonicalized and lowercased by the
/// caller: this decides boundaries, not encoding. A character is a word
/// character when `char::is_alphanumeric` says so.
pub fn segment(text: &str) -> (out: Segmented)
    ensures
        out.tokens_view() == spec_segment_tokens(text@, alnum_flags(text@)),
        out.len == spec_segment_units(text@, alnum_flags(text@)),
        // Only alphanumeric characters make up tokens; every other
        // character separates them.
        forall|m: int|
            0 <= m < out.tokens_view().len() ==> is_alphanumeric_text(#[trigger] out.tokens_view()[m]),
{
    let chars = chars_of(text);
    let n = chars.len();
    let mut word: Vec<bool> = Vec::new();
    for i in 0..n
        invariant
            n == chars@.len(),
            chars@ == text@,
            word@ =~= alnum_flags(text@).take(i as int),
    {
        word.push(is_alphanumeric(chars[i]));
    }
    assert(word@ =~= alnum_flags(text@));
    proof {
        lemma_tokens_are_alphanumeric(text@);
    }
    segment_chars(chars.as_slice(), word.as_slice())
}

} // verus!

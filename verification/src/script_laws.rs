//! Laws of script-aware segmentation, proved over the specification of
//! `segment` in `script`.

use vstd::prelude::*;
use crate::text::char_is_alphanumeric;
use crate::script::{
    alnum_flags,
    bigrams, delimited_at, emit_tokens, emit_units, lemma_run_end_bounds, piece_delimited_from,
    piece_script, pieces_from, run_end, spec_piece_delimited, spec_pieces, spec_script_of,
    spec_segment_tokens, spec_segment_units, tokens_of, unigrams, units_of, Script,
};

verus! {

/// Characters `st..st + p.len()` of `s` are `p`, all of them word
/// characters of the script of `s[st]`.
pub open spec fn is_run_at(s: Seq<char>, word: Seq<bool>, p: Seq<char>, st: int) -> bool {
    &&& 0 <= st
    &&& p.len() > 0
    &&& st + p.len() <= s.len()
    &&& p == s.subrange(st, st + p.len())
    &&& forall|j: int| st <= j < st + p.len() ==> #[trigger] is_word_of(s, word, j, spec_script_of(s[st]))
}

/// No run of the same script continues across position `i`: it is the
/// start or end of the text, or one side of it is a delimiter, or the
/// scripts on the two sides differ.
pub open spec fn is_boundary(s: Seq<char>, word: Seq<bool>, i: int) -> bool {
    ||| i <= 0
    ||| i >= s.len()
    ||| !word[i - 1]
    ||| !word[i]
    ||| spec_script_of(s[i - 1]) != spec_script_of(s[i])
}

/// Position `j` of `s` holds a word character of script `sc`.
pub open spec fn is_word_of(s: Seq<char>, word: Seq<bool>, j: int, sc: Script) -> bool {
    word[j] && spec_script_of(s[j]) == sc
}

/// Within a run end, every character is a word character of the script.
proof fn lemma_run_end_props(s: Seq<char>, word: Seq<bool>, i: int, sc: Script)
    requires
        0 <= i,
        s.len() == word.len(),
    ensures
        i <= run_end(s, word, i, sc),
        run_end(s, word, i, sc) <= if i <= s.len() { s.len() as int } else { i },
        forall|j: int| i <= j < run_end(s, word, i, sc) ==> #[trigger] is_word_of(s, word, j, sc),
        run_end(s, word, i, sc) < s.len() ==> !word[run_end(s, word, i, sc)] || spec_script_of(
            s[run_end(s, word, i, sc)],
        ) != sc,
    decreases s.len() - i,
{
    if i < s.len() && i < word.len() && word[i] && spec_script_of(s[i]) == sc {
        lemma_run_end_props(s, word, i + 1, sc);
        assert(run_end(s, word, i, sc) == run_end(s, word, i + 1, sc));
        assert forall|j: int| i <= j < run_end(s, word, i, sc) implies #[trigger] is_word_of(s, word, j, sc) by {
            if j > i {
                assert(i + 1 <= j < run_end(s, word, i + 1, sc));
            }
        }
    }
}

/// Where each piece from position `i` on starts in the text.
pub open spec fn piece_starts_from(s: Seq<char>, word: Seq<bool>, i: int) -> Seq<int>
    decreases s.len() - i,
{
    if i < 0 || i >= s.len() || i >= word.len() {
        seq![]
    } else if !word[i] {
        piece_starts_from(s, word, i + 1)
    } else {
        let e = run_end(s, word, i + 1, spec_script_of(s[i]));
        proof {
            lemma_run_end_bounds(s, word, i + 1, spec_script_of(s[i]));
        }
        seq![i] + piece_starts_from(s, word, e)
    }
}

/// Where each piece of the text starts.
pub open spec fn piece_starts(s: Seq<char>, word: Seq<bool>) -> Seq<int> {
    piece_starts_from(s, word, 0)
}

/// Piece `k` of `ps`, starting at `starts[k]`, is a maximal same-script
/// run of word characters of `s`, and `ds[k]` tells whether delimiters
/// bound it.
pub open spec fn is_maximal_run(
    s: Seq<char>,
    word: Seq<bool>,
    ps: Seq<Seq<char>>,
    starts: Seq<int>,
    ds: Seq<bool>,
    k: int,
) -> bool {
    &&& is_run_at(s, word, ps[k], starts[k])
    &&& ds[k] == delimited_at(word, starts[k], starts[k] + ps[k].len())
    &&& is_boundary(s, word, starts[k])
    &&& is_boundary(s, word, starts[k] + ps[k].len())
}

/// Each piece from position `i` on is a maximal same-script run of word
/// characters, and the pieces appear in text order without overlap.
proof fn lemma_pieces_from_runs(s: Seq<char>, word: Seq<bool>, i: int)
    requires
        0 <= i,
        s.len() == word.len(),
        is_boundary(s, word, i),
    ensures
        piece_starts_from(s, word, i).len() == pieces_from(s, word, i).len(),
        piece_delimited_from(s, word, i).len() == pieces_from(s, word, i).len(),
        forall|k: int|
            0 <= k < pieces_from(s, word, i).len() ==> i <= #[trigger] piece_starts_from(s, word, i)[k]
                && is_maximal_run(
                s,
                word,
                pieces_from(s, word, i),
                piece_starts_from(s, word, i),
                piece_delimited_from(s, word, i),
                k,
            ),
        forall|k1: int, k2: int|
            0 <= k1 < k2 < pieces_from(s, word, i).len() ==> #[trigger] piece_starts_from(s, word, i)[k1]
                + pieces_from(s, word, i)[k1].len() <= #[trigger] piece_starts_from(s, word, i)[k2],
    decreases s.len() - i,
{
    let ps = pieces_from(s, word, i);
    let sts = piece_starts_from(s, word, i);
    let ds = piece_delimited_from(s, word, i);
    if i >= s.len() {
    } else if !word[i] {
        lemma_pieces_from_runs(s, word, i + 1);
        assert(ps == pieces_from(s, word, i + 1));
        assert(sts == piece_starts_from(s, word, i + 1));
        assert(ds == piece_delimited_from(s, word, i + 1));
    } else {
        let sc = spec_script_of(s[i]);
        let e = run_end(s, word, i + 1, sc);
        lemma_run_end_props(s, word, i + 1, sc);
        let p = s.subrange(i, e);
        let rest = pieces_from(s, word, e);
        let rest_st = piece_starts_from(s, word, e);
        let rest_ds = piece_delimited_from(s, word, e);
        if e > i + 1 {
            assert(is_word_of(s, word, e - 1, sc));
        }
        assert(is_boundary(s, word, e));
        lemma_pieces_from_runs(s, word, e);
        assert(ps == seq![p] + rest);
        assert(sts == seq![i] + rest_st);
        assert(ds == seq![delimited_at(word, i, e)] + rest_ds);
        assert forall|j: int| i <= j < i + p.len() implies #[trigger] is_word_of(s, word, j, sc) by {
            if j > i {
                assert(i + 1 <= j < e);
            }
        }
        assert(is_maximal_run(s, word, ps, sts, ds, 0));
        assert forall|k: int| 0 <= k < ps.len() implies i <= #[trigger] sts[k] && is_maximal_run(
            s,
            word,
            ps,
            sts,
            ds,
            k,
        ) by {
            if k > 0 {
                assert(ps[k] == rest[k - 1]);
                assert(sts[k] == rest_st[k - 1]);
                assert(ds[k] == rest_ds[k - 1]);
                assert(is_maximal_run(s, word, rest, rest_st, rest_ds, k - 1));
            }
        }
        assert forall|k1: int, k2: int| 0 <= k1 < k2 < ps.len() implies #[trigger] sts[k1] + ps[k1].len()
            <= #[trigger] sts[k2] by {
            assert(sts[k2] == rest_st[k2 - 1]);
            assert(ps[k2] == rest[k2 - 1]);
            if k1 > 0 {
                assert(sts[k1] == rest_st[k1 - 1]);
                assert(ps[k1] == rest[k1 - 1]);
            } else {
                assert(e <= rest_st[k2 - 1]);
            }
        }
    }
}

/// Every piece of a text is a maximal run of word characters of a single
/// script: piece `k` stands at `piece_starts(s, word)[k]`, all its
/// characters are word characters of one script, the run can be extended
/// on neither side (a delimiter, a script change or the end of the text
/// lies there), `spec_piece_delimited(s, word)[k]` tells whether
/// delimiters bound it, and the pieces follow each other in text order.
pub proof fn lemma_pieces_are_maximal_script_runs(s: Seq<char>, word: Seq<bool>)
    requires
        s.len() == word.len(),
    ensures
        piece_starts(s, word).len() == spec_pieces(s, word).len(),
        spec_piece_delimited(s, word).len() == spec_pieces(s, word).len(),
        forall|k: int|
            0 <= k < spec_pieces(s, word).len() ==> #[trigger] is_maximal_run(
                s,
                word,
                spec_pieces(s, word),
                piece_starts(s, word),
                spec_piece_delimited(s, word),
                k,
            ),
        forall|k1: int, k2: int|
            0 <= k1 < k2 < spec_pieces(s, word).len() ==> #[trigger] piece_starts(s, word)[k1]
                + spec_pieces(s, word)[k1].len() <= #[trigger] piece_starts(s, word)[k2],
{
    lemma_pieces_from_runs(s, word, 0);
    assert forall|k: int| 0 <= k < spec_pieces(s, word).len() implies #[trigger] is_maximal_run(
        s,
        word,
        spec_pieces(s, word),
        piece_starts(s, word),
        spec_piece_delimited(s, word),
        k,
    ) by {
        assert(0 <= piece_starts_from(s, word, 0)[k]);
    }
}

/// Where token `m` of a subrun's emission lies within the subrun.
pub open spec fn emitted_span(sub: Seq<char>, script: Script, m: int) -> (int, int) {
    let u = if script.spec_attaches_without_delimiter() && script.spec_is_logographic() {
        sub.len() as int
    } else {
        0
    };
    if !script.spec_attaches_without_delimiter() || sub.len() < 2 && m >= u {
        (0, sub.len() as int)
    } else if m < u {
        (m, m + 1)
    } else if m - u < sub.len() - 1 {
        (m - u, m - u + 2)
    } else {
        (0, sub.len() as int)
    }
}

/// Every token a subrun emits is a non-empty contiguous part of it, at
/// `emitted_span`: no token reaches across the subrun's edges.
pub proof fn lemma_emitted_tokens_are_parts(sub: Seq<char>, script: Script, delimited: bool)
    ensures
        forall|m: int|
            #![trigger emit_tokens(sub, script, delimited)[m]]
            0 <= m < emit_tokens(sub, script, delimited).len() ==> {
                let (a, b) = emitted_span(sub, script, m);
                &&& 0 <= a < b <= sub.len()
                &&& emit_tokens(sub, script, delimited)[m] == sub.subrange(a, b)
            },
{
    let toks = emit_tokens(sub, script, delimited);
    assert forall|m: int| #![trigger toks[m]] 0 <= m < toks.len() implies {
        let (a, b) = emitted_span(sub, script, m);
        &&& 0 <= a < b <= sub.len()
        &&& toks[m] == sub.subrange(a, b)
    } by {
        if !script.spec_attaches_without_delimiter() {
            assert(toks[m] =~= sub.subrange(0, sub.len() as int));
        } else {
            let uni = if script.spec_is_logographic() { unigrams(sub) } else { seq![] };
            if m < uni.len() {
                assert(toks[m] =~= sub.subrange(m, m + 1));
            } else {
                let r = m - uni.len();
                if sub.len() < 2 {
                    assert(toks[m] =~= sub.subrange(0, sub.len() as int));
                } else if r < sub.len() - 1 {
                    assert(toks[m] == bigrams(sub)[r]);
                    assert(toks[m] =~= sub.subrange(r, r + 2));
                } else {
                    assert(toks[m] =~= sub.subrange(0, sub.len() as int));
                }
            }
        }
    }
}

/// A non-empty subrun is among its own tokens, so the whole unit (the
/// clause, the word, the delimited lone character) stays matchable; the one
/// exception is a single character of an alphabetic script that attaches
/// without a delimiter and that only script changes bound, which is no word.
pub proof fn lemma_subrun_is_its_own_token(sub: Seq<char>, script: Script, delimited: bool)
    requires
        sub.len() > 0,
        delimited || sub.len() > 1 || script.spec_is_logographic() || !script.spec_attaches_without_delimiter(),
    ensures
        emit_tokens(sub, script, delimited).contains(sub),
{
    let toks = emit_tokens(sub, script, delimited);
    if !script.spec_attaches_without_delimiter() {
        assert(toks[0] == sub);
    } else {
        let uni = if script.spec_is_logographic() { unigrams(sub) } else { seq![] };
        if sub.len() < 2 {
            if script.spec_is_logographic() {
                assert(toks[0] =~= sub);
            } else {
                assert(toks[uni.len() as int] == sub);
            }
        } else if sub.len() == 2 {
            assert(toks[uni.len() as int] == bigrams(sub)[0]);
            assert(toks[uni.len() as int] =~= sub);
        } else {
            assert(toks[uni.len() + sub.len() - 1] == sub);
        }
    }
}

/// No alphabetic script that attaches without a delimiter emits a bare
/// character out of a longer subrun: every token is at least a bigram.
/// Only a logographic script (Han) emits single characters from longer runs.
pub proof fn lemma_only_logographic_scripts_emit_single_characters(
    sub: Seq<char>,
    script: Script,
    delimited: bool,
)
    requires
        script.spec_attaches_without_delimiter(),
        !script.spec_is_logographic(),
        sub.len() >= 2,
    ensures
        forall|m: int| 0 <= m < emit_tokens(sub, script, delimited).len() ==> #[trigger] emit_tokens(sub, script, delimited)[m].len() >= 2,
{
    let toks = emit_tokens(sub, script, delimited);
    assert forall|m: int| 0 <= m < toks.len() implies #[trigger] toks[m].len() >= 2 by {
        if m < sub.len() - 1 {
            assert(toks[m] == bigrams(sub)[m]);
        } else {
            assert(toks[m] == sub);
        }
    }
}

/// Every bigram of any part of a subrun in a script that attaches without a
/// delimiter is one of the subrun's tokens: a word matches wherever it sits
/// inside a longer run, at the start, the end or the middle.
pub proof fn lemma_bigrams_of_any_part_are_tokens(
    sub: Seq<char>,
    script: Script,
    delimited: bool,
    a: int,
    b: int,
)
    requires
        script.spec_attaches_without_delimiter(),
        0 <= a,
        a + 2 <= b <= sub.len(),
    ensures
        forall|k: int|
            0 <= k < b - a - 1 ==> emit_tokens(sub, script, delimited).contains(
                #[trigger] sub.subrange(a, b).subrange(k, k + 2),
            ),
{
    let toks = emit_tokens(sub, script, delimited);
    let uni = if script.spec_is_logographic() { unigrams(sub) } else { seq![] };
    assert forall|k: int| 0 <= k < b - a - 1 implies toks.contains(
        #[trigger] sub.subrange(a, b).subrange(k, k + 2),
    ) by {
        assert(sub.subrange(a, b).subrange(k, k + 2) =~= bigrams(sub)[a + k]);
        assert(toks[uni.len() + a + k] == bigrams(sub)[a + k]);
    }
}

/// A subrun of a delimiting script is left untouched: one token, itself,
/// counting as one unit.
pub proof fn lemma_delimiting_subrun_is_untouched(sub: Seq<char>, script: Script, delimited: bool)
    requires
        !script.spec_attaches_without_delimiter(),
        sub.len() > 0,
    ensures
        emit_tokens(sub, script, delimited) == seq![sub],
        emit_units(sub, script) == 1,
{
}

/// The tokens of a sequence of pieces are the tokens of its first part
/// followed by those of the rest.
pub proof fn lemma_tokens_of_append(ps1: Seq<Seq<char>>, ds1: Seq<bool>, ps2: Seq<Seq<char>>, ds2: Seq<bool>)
    requires
        ds1.len() == ps1.len(),
    ensures
        tokens_of(ps1 + ps2, ds1 + ds2) == tokens_of(ps1, ds1) + tokens_of(ps2, ds2),
        units_of(ps1 + ps2) == units_of(ps1) + units_of(ps2),
    decreases ps1.len(),
{
    if ps1.len() == 0 {
        assert(ps1 + ps2 =~= ps2);
        assert(ds1 + ds2 =~= ds2);
    } else {
        lemma_tokens_of_append(ps1.drop_first(), ds1.drop_first(), ps2, ds2);
        assert((ps1 + ps2).drop_first() =~= ps1.drop_first() + ps2);
        assert((ds1 + ds2).drop_first() =~= ds1.drop_first() + ds2);
        assert((ds1 + ds2)[0] == ds1[0]);
        assert(tokens_of(ps1 + ps2, ds1 + ds2) =~= tokens_of(ps1, ds1) + tokens_of(ps2, ds2));
    }
}

/// What a subrun emits: nothing exactly when it is empty or a lone
/// character of an alphabetic script that attaches without a delimiter and
/// that delimiters do not bound; it counts for at least one unit exactly
/// when it is non-empty, and never for more units than characters.
pub proof fn lemma_emit_grows(sub: Seq<char>, script: Script, delimited: bool)
    ensures
        emit_units(sub, script) > 0 <==> sub.len() > 0,
        emit_units(sub, script) <= sub.len(),
        emit_tokens(sub, script, delimited).len() > 0 <==> sub.len() > 0 && !(sub.len() == 1
            && script.spec_attaches_without_delimiter() && !script.spec_is_logographic()
            && !delimited),
{
}

/// Which piece, and which token of that piece's emission, token `m` of
/// `tokens_of(ps, ds)` is.
pub open spec fn token_origin(ps: Seq<Seq<char>>, ds: Seq<bool>, m: int) -> (int, int)
    decreases ps.len(),
{
    if ps.len() == 0 {
        (0, m)
    } else if m < emit_tokens(ps[0], piece_script(ps[0]), ds[0]).len() {
        (0, m)
    } else {
        let (k, j) = token_origin(
            ps.drop_first(),
            ds.drop_first(),
            m - emit_tokens(ps[0], piece_script(ps[0]), ds[0]).len(),
        );
        (k + 1, j)
    }
}

/// Token `m` of `tokens_of(ps, ds)` is token `o.1` of piece `o.0`'s
/// emission.
pub open spec fn is_origin_of(ps: Seq<Seq<char>>, ds: Seq<bool>, m: int, o: (int, int)) -> bool {
    &&& 0 <= o.0 < ps.len()
    &&& 0 <= o.1 < emit_tokens(ps[o.0], piece_script(ps[o.0]), ds[o.0]).len()
    &&& tokens_of(ps, ds)[m] == emit_tokens(ps[o.0], piece_script(ps[o.0]), ds[o.0])[o.1]
}

/// Token `m` of a sequence of pieces is token `j` of piece `k`'s emission,
/// where `(k, j)` is its origin.
proof fn lemma_token_origin(ps: Seq<Seq<char>>, ds: Seq<bool>)
    requires
        ds.len() == ps.len(),
    ensures
        forall|m: int|
            0 <= m < tokens_of(ps, ds).len() ==> is_origin_of(ps, ds, m, #[trigger] token_origin(ps, ds, m)),
    decreases ps.len(),
{
    if ps.len() > 0 {
        let rest = ps.drop_first();
        let drest = ds.drop_first();
        let head = emit_tokens(ps[0], piece_script(ps[0]), ds[0]);
        lemma_token_origin(rest, drest);
        assert forall|m: int| 0 <= m < tokens_of(ps, ds).len() implies is_origin_of(
            ps,
            ds,
            m,
            #[trigger] token_origin(ps, ds, m),
        ) by {
            if m >= head.len() {
                let o = token_origin(rest, drest, m - head.len());
                assert(token_origin(ps, ds, m) == (o.0 + 1, o.1));
                assert(tokens_of(ps, ds)[m] == tokens_of(rest, drest)[m - head.len()]);
                assert(is_origin_of(rest, drest, m - head.len(), o));
                assert(ps[o.0 + 1] == rest[o.0]);
                assert(ds[o.0 + 1] == drest[o.0]);
            } else {
                assert(tokens_of(ps, ds)[m] == head[m]);
            }
        }
    } else {
        assert(tokens_of(ps, ds).len() == 0);
    }
}

/// Where token `m` of the segmentation of `s` lies in `s`.
pub open spec fn token_span(s: Seq<char>, word: Seq<bool>, m: int) -> (int, int) {
    let ps = spec_pieces(s, word);
    let o = token_origin(ps, spec_piece_delimited(s, word), m);
    let sp = emitted_span(ps[o.0], piece_script(ps[o.0]), o.1);
    let st = piece_starts(s, word)[o.0];
    (st + sp.0, st + sp.1)
}

/// Characters `span.0..span.1` of `s` are `t`, non-empty, and all word
/// characters of a single script.
pub open spec fn is_single_script_span(s: Seq<char>, word: Seq<bool>, t: Seq<char>, span: (int, int)) -> bool {
    &&& 0 <= span.0 < span.1 <= s.len()
    &&& t == s.subrange(span.0, span.1)
    &&& forall|j: int| span.0 <= j < span.1 ==> #[trigger] is_word_of(s, word, j, spec_script_of(s[span.0]))
}

/// Every token of a text is a contiguous span of it, at `token_span`,
/// made of word characters of a single script: no token reaches across a
/// delimiter or a script boundary (a Latin brand name inside CJK is never
/// cut into bigrams with its neighbours, and no bigram straddles kanji and
/// kana). A token of one character is Han, of a delimiting script, or
/// bounded on both sides by delimiters or the ends of the text: no other
/// script emits a bare character.
pub proof fn lemma_tokens_are_single_script_spans(s: Seq<char>, word: Seq<bool>)
    requires
        s.len() == word.len(),
    ensures
        forall|m: int|
            0 <= m < spec_segment_tokens(s, word).len() ==> is_single_script_span(
                s,
                word,
                spec_segment_tokens(s, word)[m],
                #[trigger] token_span(s, word, m),
            ) && (spec_segment_tokens(s, word)[m].len() == 1 ==> {
                ||| spec_script_of(s[token_span(s, word, m).0]) == Script::Han
                ||| spec_script_of(s[token_span(s, word, m).0]) == Script::Other
                ||| delimited_at(word, token_span(s, word, m).0, token_span(s, word, m).1)
            }),
{
    let ps = spec_pieces(s, word);
    let ds = spec_piece_delimited(s, word);
    let sts = piece_starts(s, word);
    lemma_pieces_are_maximal_script_runs(s, word);
    lemma_token_origin(ps, ds);
    assert forall|m: int| 0 <= m < tokens_of(ps, ds).len() implies is_single_script_span(
        s,
        word,
        tokens_of(ps, ds)[m],
        #[trigger] token_span(s, word, m),
    ) && (tokens_of(ps, ds)[m].len() == 1 ==> {
        ||| spec_script_of(s[token_span(s, word, m).0]) == Script::Han
        ||| spec_script_of(s[token_span(s, word, m).0]) == Script::Other
        ||| delimited_at(word, token_span(s, word, m).0, token_span(s, word, m).1)
    }) by {
        let o = token_origin(ps, ds, m);
        assert(is_origin_of(ps, ds, m, o));
        let k = o.0;
        let p = ps[k];
        let sc = piece_script(p);
        lemma_emitted_tokens_are_parts(p, sc, ds[k]);
        let sp = emitted_span(p, sc, o.1);
        assert(is_maximal_run(s, word, ps, sts, ds, k));
        let st = sts[k];
        let lo = st + sp.0;
        let hi = st + sp.1;
        assert(token_span(s, word, m) == (lo, hi));
        assert(tokens_of(ps, ds)[m] == p.subrange(sp.0, sp.1));
        assert(p.subrange(sp.0, sp.1) =~= s.subrange(lo, hi));
        assert(is_word_of(s, word, lo, spec_script_of(s[st])));
        assert forall|i: int| lo <= i < hi implies #[trigger] is_word_of(s, word, i, spec_script_of(s[lo])) by {
            assert(is_word_of(s, word, i, spec_script_of(s[st])));
        }
        assert(p[0] == s[st]);
        if tokens_of(ps, ds)[m].len() == 1 && sc.spec_attaches_without_delimiter() && !sc.spec_is_logographic() {
            if p.len() >= 2 {
                lemma_only_logographic_scripts_emit_single_characters(p, sc, ds[k]);
                assert(emit_tokens(p, sc, ds[k])[o.1].len() >= 2);
            } else {
                assert(ds[k]);
                assert(sp == (0int, 1int));
            }
        }
    }
}

/// Each token a piece emits is among the tokens of the sequence.
proof fn lemma_emitted_in_tokens(ps: Seq<Seq<char>>, ds: Seq<bool>, k: int)
    requires
        0 <= k < ps.len(),
        ds.len() == ps.len(),
    ensures
        forall|j: int|
            0 <= j < emit_tokens(ps[k], piece_script(ps[k]), ds[k]).len() ==> tokens_of(ps, ds).contains(
                #[trigger] emit_tokens(ps[k], piece_script(ps[k]), ds[k])[j],
            ),
    decreases ps.len(),
{
    let head = emit_tokens(ps[0], piece_script(ps[0]), ds[0]);
    let rest = ps.drop_first();
    let drest = ds.drop_first();
    if k == 0 {
        assert forall|j: int| 0 <= j < head.len() implies tokens_of(ps, ds).contains(#[trigger] head[j]) by {
            assert(tokens_of(ps, ds)[j] == head[j]);
        }
    } else {
        lemma_emitted_in_tokens(rest, drest, k - 1);
        assert(rest[k - 1] == ps[k]);
        assert(drest[k - 1] == ds[k]);
        let em = emit_tokens(ps[k], piece_script(ps[k]), ds[k]);
        assert forall|j: int| 0 <= j < em.len() implies tokens_of(ps, ds).contains(#[trigger] em[j]) by {
            assert(tokens_of(rest, drest).contains(em[j]));
            let i = choose|i: int| 0 <= i < tokens_of(rest, drest).len() && tokens_of(rest, drest)[i] == em[j];
            assert(tokens_of(ps, ds)[head.len() + i] == tokens_of(rest, drest)[i]);
        }
    }
}

/// Every maximal same-script run of word characters of a text is one of
/// its tokens, so whatever the old whole-run tokenizer matched within one
/// script still matches, except a lone character of an alphabetic script
/// that attaches without a delimiter and that only script changes bound
/// (such as a kana particle between kanji), which is no word.
pub proof fn lemma_every_piece_is_a_token(s: Seq<char>, word: Seq<bool>)
    requires
        s.len() == word.len(),
    ensures
        forall|k: int|
            0 <= k < spec_pieces(s, word).len() && (spec_piece_delimited(s, word)[k]
                || spec_pieces(s, word)[k].len() > 1 || piece_script(spec_pieces(s, word)[k]).spec_is_logographic()
                || !piece_script(spec_pieces(s, word)[k]).spec_attaches_without_delimiter())
                ==> spec_segment_tokens(s, word).contains(#[trigger] spec_pieces(s, word)[k]),
{
    let ps = spec_pieces(s, word);
    let ds = spec_piece_delimited(s, word);
    lemma_pieces_are_maximal_script_runs(s, word);
    assert forall|k: int|
        0 <= k < ps.len() && (ds[k] || ps[k].len() > 1 || piece_script(ps[k]).spec_is_logographic()
            || !piece_script(ps[k]).spec_attaches_without_delimiter()) implies tokens_of(ps, ds).contains(
        #[trigger] ps[k],
    ) by {
        assert(is_maximal_run(s, word, ps, piece_starts(s, word), ds, k));
        lemma_subrun_is_its_own_token(ps[k], piece_script(ps[k]), ds[k]);
        lemma_emitted_in_tokens(ps, ds, k);
        let em = emit_tokens(ps[k], piece_script(ps[k]), ds[k]);
        let j = choose|j: int| 0 <= j < em.len() && em[j] == ps[k];
        assert(tokens_of(ps, ds).contains(em[j]));
    }
}

/// Pieces that all belong to delimiting scripts are their own tokens, one
/// unit each.
proof fn lemma_delimiting_pieces_untouched(ps: Seq<Seq<char>>, ds: Seq<bool>)
    requires
        forall|k: int|
            0 <= k < ps.len() ==> #[trigger] ps[k].len() > 0 && !piece_script(
                ps[k],
            ).spec_attaches_without_delimiter(),
    ensures
        tokens_of(ps, ds) == ps,
        units_of(ps) == ps.len(),
    decreases ps.len(),
{
    if ps.len() > 0 {
        let rest = ps.drop_first();
        assert forall|k: int| 0 <= k < rest.len() implies #[trigger] rest[k].len() > 0 && !piece_script(
            rest[k],
        ).spec_attaches_without_delimiter() by {
            assert(rest[k] == ps[k + 1]);
        }
        lemma_delimiting_pieces_untouched(rest, ds.drop_first());
        assert(ps[0].len() > 0);
        assert(tokens_of(ps, ds) =~= seq![ps[0]] + rest);
        assert(seq![ps[0]] + rest =~= ps);
    }
}

/// A text whose word characters all belong to delimiting scripts (Latin,
/// Cyrillic, Georgian, Greek, Tibetan, digits, ...) tokenizes exactly as a
/// split on non-word characters did: every piece is a maximal run of word
/// characters bounded by delimiters or the ends of the text, its tokens are
/// those runs, whole and in order, and each counts as one unit.
pub proof fn lemma_delimiting_text_splits_on_delimiters_only(s: Seq<char>, word: Seq<bool>)
    requires
        s.len() == word.len(),
        forall|i: int| 0 <= i < s.len() && #[trigger] word[i] ==> spec_script_of(s[i]) == Script::Other,
    ensures
        spec_segment_tokens(s, word) == spec_pieces(s, word),
        spec_segment_units(s, word) == spec_pieces(s, word).len(),
        forall|k: int| 0 <= k < spec_pieces(s, word).len() ==> #[trigger] spec_piece_delimited(s, word)[k],
{
    let ps = spec_pieces(s, word);
    let ds = spec_piece_delimited(s, word);
    let sts = piece_starts(s, word);
    lemma_pieces_are_maximal_script_runs(s, word);
    assert forall|k: int| 0 <= k < ps.len() implies #[trigger] ps[k].len() > 0 && !piece_script(
        ps[k],
    ).spec_attaches_without_delimiter() by {
        assert(is_maximal_run(s, word, ps, sts, ds, k));
        assert(ps[k][0] == s[sts[k]]);
        assert(is_word_of(s, word, sts[k], spec_script_of(s[sts[k]])));
    }
    assert forall|k: int| 0 <= k < ps.len() implies #[trigger] ds[k] by {
        assert(is_maximal_run(s, word, ps, sts, ds, k));
        let st = sts[k];
        let en = st + ps[k].len();
        assert(is_word_of(s, word, st, spec_script_of(s[st])));
        assert(is_word_of(s, word, en - 1, spec_script_of(s[st])));
        if st > 0 && word[st - 1] {
            assert(spec_script_of(s[st - 1]) == Script::Other);
        }
        if en < s.len() && word[en] {
            assert(spec_script_of(s[en]) == Script::Other);
        }
    }
    lemma_delimiting_pieces_untouched(ps, ds);
}

/// A run that starts past a prefix ends at the same place, shifted.
proof fn lemma_run_end_past_prefix(p: Seq<char>, wp: Seq<bool>, t: Seq<char>, wt: Seq<bool>, j: int, sc: Script)
    requires
        p.len() == wp.len(),
        t.len() == wt.len(),
        0 <= j,
    ensures
        run_end(p + t, wp + wt, p.len() + j, sc) == p.len() + run_end(t, wt, j, sc),
    decreases t.len() - j,
{
    let n = p.len() as int;
    if j < t.len() {
        assert((p + t)[n + j] == t[j]);
        assert((wp + wt)[n + j] == wt[j]);
        lemma_run_end_past_prefix(p, wp, t, wt, j + 1, sc);
    }
}

/// Pieces past a prefix do not depend on the prefix; whether delimiters
/// bound them does not either, once no run continues across the join.
proof fn lemma_pieces_past_prefix(p: Seq<char>, wp: Seq<bool>, t: Seq<char>, wt: Seq<bool>, j: int)
    requires
        p.len() == wp.len(),
        t.len() == wt.len(),
        0 <= j,
    ensures
        pieces_from(p + t, wp + wt, p.len() + j) == pieces_from(t, wt, j),
        j > 0 || p.len() == 0 || !wp[p.len() - 1] || t.len() == 0 || !wt[0] ==> piece_delimited_from(
            p + t,
            wp + wt,
            p.len() + j,
        ) == piece_delimited_from(t, wt, j),
    decreases t.len() - j,
{
    let s = p + t;
    let w = wp + wt;
    let n = p.len() as int;
    if j < t.len() {
        assert(s[n + j] == t[j]);
        assert(w[n + j] == wt[j]);
        if !wt[j] {
            lemma_pieces_past_prefix(p, wp, t, wt, j + 1);
        } else {
            let sc = spec_script_of(t[j]);
            lemma_run_end_past_prefix(p, wp, t, wt, j + 1, sc);
            let e = run_end(t, wt, j + 1, sc);
            lemma_run_end_bounds(t, wt, j + 1, sc);
            lemma_pieces_past_prefix(p, wp, t, wt, e);
            assert(s.subrange(n + j, n + e) =~= t.subrange(j, e));
            if j > 0 {
                assert(w[n + j - 1] == wt[j - 1]);
            }
            if e < t.len() {
                assert(w[n + e] == wt[e]);
            }
            if j > 0 || p.len() == 0 || !wp[p.len() - 1] || t.len() == 0 || !wt[0] {
                if j == 0 && n > 0 {
                    assert(w[n - 1] == wp[n - 1]);
                }
                assert(delimited_at(w, n + j, n + e) == delimited_at(wt, j, e));
            }
        }
    }
}

/// A run that starts before a boundary ends at the latest at it, as it
/// would in the text before the boundary alone.
proof fn lemma_run_end_before_boundary(a: Seq<char>, wa: Seq<bool>, b: Seq<char>, wb: Seq<bool>, j: int, sc: Script)
    requires
        a.len() == wa.len(),
        b.len() == wb.len(),
        a.len() > 0,
        is_boundary(a + b, wa + wb, a.len() as int),
        0 <= j <= a.len(),
        j == a.len() ==> wa[j - 1] && spec_script_of(a[j - 1]) == sc,
    ensures
        run_end(a + b, wa + wb, j, sc) == run_end(a, wa, j, sc),
    decreases a.len() - j,
{
    let s = a + b;
    let w = wa + wb;
    if j < a.len() {
        assert(s[j] == a[j]);
        assert(w[j] == wa[j]);
        if wa[j] && spec_script_of(a[j]) == sc {
            lemma_run_end_before_boundary(a, wa, b, wb, j + 1, sc);
        }
    } else {
        assert(s[j - 1] == a[j - 1]);
        assert(w[j - 1] == wa[j - 1]);
        if j < s.len() {
            assert(s[j] == b[0]);
            assert(w[j] == wb[0]);
        }
    }
}

/// Pieces starting before a boundary are the pieces of the text before it,
/// followed by the pieces from the boundary on; so is whether delimiters
/// bound them, when the boundary is a delimiter.
proof fn lemma_pieces_before_boundary(a: Seq<char>, wa: Seq<bool>, b: Seq<char>, wb: Seq<bool>, i: int)
    requires
        a.len() == wa.len(),
        b.len() == wb.len(),
        a.len() > 0,
        is_boundary(a + b, wa + wb, a.len() as int),
        0 <= i <= a.len(),
    ensures
        pieces_from(a + b, wa + wb, i) == pieces_from(a, wa, i) + pieces_from(a + b, wa + wb, a.len() as int),
        b.len() == 0 || !wa[a.len() - 1] || !wb[0] ==> piece_delimited_from(a + b, wa + wb, i)
            == piece_delimited_from(a, wa, i) + piece_delimited_from(a + b, wa + wb, a.len() as int),
    decreases a.len() - i,
{
    let s = a + b;
    let w = wa + wb;
    let n = a.len() as int;
    let rest = pieces_from(s, w, n);
    let drest = piece_delimited_from(s, w, n);
    if i == n {
        assert(pieces_from(a, wa, i) + rest =~= rest);
        assert(piece_delimited_from(a, wa, i) + drest =~= drest);
    } else {
        assert(s[i] == a[i]);
        assert(w[i] == wa[i]);
        if i > 0 {
            assert(w[i - 1] == wa[i - 1]);
        }
        if !wa[i] {
            lemma_pieces_before_boundary(a, wa, b, wb, i + 1);
        } else {
            let sc = spec_script_of(a[i]);
            lemma_run_end_before_boundary(a, wa, b, wb, i + 1, sc);
            let e = run_end(a, wa, i + 1, sc);
            lemma_run_end_bounds(a, wa, i + 1, sc);
            lemma_run_end_props(a, wa, i + 1, sc);
            lemma_pieces_before_boundary(a, wa, b, wb, e);
            let p = a.subrange(i, e);
            assert(s.subrange(i, e) =~= p);
            assert(pieces_from(s, w, i) == seq![p] + pieces_from(s, w, e));
            assert(pieces_from(a, wa, i) == seq![p] + pieces_from(a, wa, e));
            assert(seq![p] + (pieces_from(a, wa, e) + rest) =~= (seq![p] + pieces_from(a, wa, e)) + rest);
            if b.len() == 0 || !wa[n - 1] || !wb[0] {
                if e < n {
                    assert(w[e] == wa[e]);
                } else if e < s.len() {
                    if e > i + 1 {
                        assert(is_word_of(a, wa, e - 1, sc));
                    }
                    assert(w[e] == wb[0]);
                }
                assert(delimited_at(w, i, e) == delimited_at(wa, i, e));
                let dl = delimited_at(wa, i, e);
                assert(piece_delimited_from(s, w, i) == seq![dl] + piece_delimited_from(s, w, e));
                assert(piece_delimited_from(a, wa, i) == seq![dl] + piece_delimited_from(a, wa, e));
                assert(seq![dl] + (piece_delimited_from(a, wa, e) + drest) =~= (seq![dl]
                    + piece_delimited_from(a, wa, e)) + drest);
            }
        }
    }
}

/// Segmentation is local to the text on either side of a boundary (a
/// delimiter on either side of the join, or a change of script): the
/// pieces and units of two joined texts are those of the first followed by
/// those of the second. Where the join is a delimiter, so are the tokens:
/// a word yields the same tokens in a query as wherever it stands,
/// delimited, in a document. At a change of script the tokens can differ,
/// since a lone character that a delimiter bounded may now border another
/// script.
pub proof fn lemma_segmentation_splits_at_boundaries(a: Seq<char>, wa: Seq<bool>, b: Seq<char>, wb: Seq<bool>)
    requires
        a.len() == wa.len(),
        b.len() == wb.len(),
        is_boundary(a + b, wa + wb, a.len() as int),
    ensures
        spec_pieces(a + b, wa + wb) == spec_pieces(a, wa) + spec_pieces(b, wb),
        spec_segment_units(a + b, wa + wb) == spec_segment_units(a, wa) + spec_segment_units(b, wb),
        a.len() == 0 || b.len() == 0 || !wa[a.len() - 1] || !wb[0] ==> {
            &&& spec_piece_delimited(a + b, wa + wb) == spec_piece_delimited(a, wa) + spec_piece_delimited(b, wb)
            &&& spec_segment_tokens(a + b, wa + wb) == spec_segment_tokens(a, wa) + spec_segment_tokens(b, wb)
        },
{
    lemma_pieces_are_maximal_script_runs(a, wa);
    if a.len() == 0 {
        assert(a + b =~= b);
        assert(wa + wb =~= wb);
        assert(spec_pieces(a, wa) =~= Seq::<Seq<char>>::empty());
        assert(spec_piece_delimited(a, wa) =~= Seq::<bool>::empty());
        assert(spec_pieces(a, wa) + spec_pieces(b, wb) =~= spec_pieces(b, wb));
        assert(spec_piece_delimited(a, wa) + spec_piece_delimited(b, wb) =~= spec_piece_delimited(b, wb));
    } else {
        lemma_pieces_before_boundary(a, wa, b, wb, 0);
        lemma_pieces_past_prefix(a, wa, b, wb, 0);
        assert(a.len() + 0int == a.len());
    }
    lemma_tokens_of_append(
        spec_pieces(a, wa),
        spec_piece_delimited(a, wa),
        spec_pieces(b, wb),
        spec_piece_delimited(b, wb),
    );
}

/// The units counted for the pieces from position `i` on never exceed the
/// characters left.
proof fn lemma_units_from_bounded(s: Seq<char>, word: Seq<bool>, i: int)
    requires
        0 <= i <= s.len(),
        s.len() == word.len(),
    ensures
        units_of(pieces_from(s, word, i)) <= s.len() - i,
    decreases s.len() - i,
{
    if i < s.len() {
        if !word[i] {
            lemma_units_from_bounded(s, word, i + 1);
        } else {
            let sc = spec_script_of(s[i]);
            let e = run_end(s, word, i + 1, sc);
            lemma_run_end_bounds(s, word, i + 1, sc);
            lemma_units_from_bounded(s, word, e);
            let ps = pieces_from(s, word, i);
            assert(ps == seq![s.subrange(i, e)] + pieces_from(s, word, e));
            assert(ps.drop_first() =~= pieces_from(s, word, e));
        }
    }
}

/// The length a text is counted for is at most its number of characters:
/// a segmented run counts once per character, never once per n-gram, and
/// a delimited word counts once.
pub proof fn lemma_units_never_exceed_characters(s: Seq<char>, word: Seq<bool>)
    requires
        s.len() == word.len(),
    ensures
        spec_segment_units(s, word) <= s.len(),
{
    lemma_units_from_bounded(s, word, 0);
}

/// Only Han is logographic, and a logographic script attaches words
/// without a delimiter; every script but `Other` does.
pub proof fn lemma_logographic_scripts_attach(sc: Script)
    ensures
        sc.spec_is_logographic() <==> sc == Script::Han,
        sc.spec_is_logographic() ==> sc.spec_attaches_without_delimiter(),
        sc.spec_attaches_without_delimiter() <==> sc != Script::Other,
{
}

/// Which piece from position `i` on holds position `x`.
pub open spec fn piece_index_from(s: Seq<char>, word: Seq<bool>, i: int, x: int) -> int
    decreases s.len() - i,
{
    if i < 0 || i >= s.len() || i >= word.len() {
        0
    } else if !word[i] {
        piece_index_from(s, word, i + 1, x)
    } else {
        let e = run_end(s, word, i + 1, spec_script_of(s[i]));
        proof {
            lemma_run_end_bounds(s, word, i + 1, spec_script_of(s[i]));
        }
        if x < e {
            0
        } else {
            1 + piece_index_from(s, word, e, x)
        }
    }
}

/// There is one start per piece.
proof fn lemma_starts_match_pieces(s: Seq<char>, word: Seq<bool>, i: int)
    ensures
        piece_starts_from(s, word, i).len() == pieces_from(s, word, i).len(),
    decreases s.len() - i,
{
    if 0 <= i < s.len() && i < word.len() {
        if !word[i] {
            lemma_starts_match_pieces(s, word, i + 1);
        } else {
            let e = run_end(s, word, i + 1, spec_script_of(s[i]));
            lemma_run_end_bounds(s, word, i + 1, spec_script_of(s[i]));
            lemma_starts_match_pieces(s, word, e);
        }
    }
}

/// Every word character from position `i` on lies in one of the pieces.
proof fn lemma_word_characters_are_covered(s: Seq<char>, word: Seq<bool>, i: int, x: int)
    requires
        s.len() == word.len(),
        0 <= i <= x < s.len(),
        word[x],
    ensures
        ({
            let k = piece_index_from(s, word, i, x);
            &&& 0 <= k < pieces_from(s, word, i).len()
            &&& piece_starts_from(s, word, i)[k] <= x < piece_starts_from(s, word, i)[k] + pieces_from(
                s,
                word,
                i,
            )[k].len()
        }),
    decreases s.len() - i,
{
    if !word[i] {
        lemma_word_characters_are_covered(s, word, i + 1, x);
    } else {
        let sc = spec_script_of(s[i]);
        let e = run_end(s, word, i + 1, sc);
        lemma_run_end_bounds(s, word, i + 1, sc);
        let ps = pieces_from(s, word, i);
        let sts = piece_starts_from(s, word, i);
        assert(ps == seq![s.subrange(i, e)] + pieces_from(s, word, e));
        assert(sts == seq![i] + piece_starts_from(s, word, e));
        if x >= e {
            lemma_word_characters_are_covered(s, word, e, x);
            lemma_starts_match_pieces(s, word, e);
            let k = piece_index_from(s, word, e, x);
            assert(ps[k + 1] == pieces_from(s, word, e)[k]);
            assert(sts[k + 1] == piece_starts_from(s, word, e)[k]);
        }
    }
}

/// A run of one script reaches to the end of a text written in it.
proof fn lemma_run_end_of_single_script(q: Seq<char>, qw: Seq<bool>, j: int, sc: Script)
    requires
        q.len() == qw.len(),
        0 <= j <= q.len(),
        forall|i: int| 0 <= i < q.len() ==> #[trigger] is_word_of(q, qw, i, sc),
    ensures
        run_end(q, qw, j, sc) == q.len(),
    decreases q.len() - j,
{
    if j < q.len() {
        assert(is_word_of(q, qw, j, sc));
        lemma_run_end_of_single_script(q, qw, j + 1, sc);
    }
}

/// A text of word characters of a single script is one piece, bounded by
/// the ends of the text.
pub proof fn lemma_single_script_word_is_one_piece(q: Seq<char>, qw: Seq<bool>)
    requires
        q.len() == qw.len(),
        q.len() > 0,
        forall|i: int| 0 <= i < q.len() ==> #[trigger] is_word_of(q, qw, i, spec_script_of(q[0])),
    ensures
        spec_pieces(q, qw) == seq![q],
        spec_piece_delimited(q, qw) == seq![true],
        spec_segment_tokens(q, qw) == emit_tokens(q, piece_script(q), true),
{
    let sc = spec_script_of(q[0]);
    assert(is_word_of(q, qw, 0, sc));
    lemma_run_end_of_single_script(q, qw, 1, sc);
    assert(q.subrange(0, q.len() as int) =~= q);
    assert(pieces_from(q, qw, q.len() as int) =~= Seq::<Seq<char>>::empty());
    assert(piece_delimited_from(q, qw, q.len() as int) =~= Seq::<bool>::empty());
    assert(spec_pieces(q, qw) =~= seq![q]);
    assert(spec_piece_delimited(q, qw) =~= seq![true]);
    assert(seq![q].drop_first() =~= Seq::<Seq<char>>::empty());
    assert(seq![true].drop_first() =~= Seq::<bool>::empty());
    assert(seq![q][0] == q);
    assert(tokens_of(seq![q], seq![true]) =~= emit_tokens(q, piece_script(q), true) + tokens_of(
        Seq::<Seq<char>>::empty(),
        Seq::<bool>::empty(),
    ));
    assert(spec_segment_tokens(q, qw) =~= emit_tokens(q, piece_script(q), true));
}

/// A query written in one script that attaches words without a delimiter
/// matches wherever it sits in a document: every token of the query of at
/// most two characters (its unigrams in Han, its bigrams) is a token of any
/// document that contains the query, at the start, the middle or the end
/// of a longer run.
pub proof fn lemma_query_matches_inside_document(
    d: Seq<char>,
    dw: Seq<bool>,
    q: Seq<char>,
    qw: Seq<bool>,
    o: int,
)
    requires
        d.len() == dw.len(),
        q.len() == qw.len(),
        q.len() >= 2,
        spec_script_of(q[0]) != Script::Other,
        forall|i: int| 0 <= i < q.len() ==> #[trigger] is_word_of(q, qw, i, spec_script_of(q[0])),
        0 <= o,
        o + q.len() <= d.len(),
        d.subrange(o, o + q.len()) == q,
        forall|i: int| 0 <= i < q.len() ==> #[trigger] dw[o + i],
    ensures
        forall|t: Seq<char>|
            #[trigger] spec_segment_tokens(q, qw).contains(t) && t.len() <= 2 ==> spec_segment_tokens(
                d,
                dw,
            ).contains(t),
{
    let sc = spec_script_of(q[0]);
    let n = q.len() as int;
    lemma_single_script_word_is_one_piece(q, qw);
    let qt = emit_tokens(q, sc, true);
    let ps = spec_pieces(d, dw);
    let ds = spec_piece_delimited(d, dw);
    let sts = piece_starts(d, dw);
    lemma_pieces_are_maximal_script_runs(d, dw);
    assert(dw[o + 0]);
    lemma_word_characters_are_covered(d, dw, 0, o);
    let k = piece_index_from(d, dw, 0, o);
    let p = ps[k];
    let st = sts[k];
    assert(is_maximal_run(d, dw, ps, sts, ds, k));
    assert(d[o] == q[0]);
    assert(is_word_of(d, dw, o, spec_script_of(d[st])));
    assert(spec_script_of(d[st]) == sc);
    let en = st + p.len();
    if en < o + n {
        assert(is_word_of(d, dw, en - 1, sc));
        assert(dw[o + (en - o)]);
        assert(d[en] == q[en - o]);
        assert(is_word_of(q, qw, en - o, sc));
        assert(!is_boundary(d, dw, en));
        assert(false);
    }
    let a = o - st;
    assert(p.subrange(a, a + n) =~= q);
    assert(p[0] == d[st]);
    lemma_emitted_in_tokens(ps, ds, k);
    let pe = emit_tokens(p, sc, ds[k]);
    assert forall|t: Seq<char>| #[trigger] spec_segment_tokens(q, qw).contains(t) && t.len() <= 2 implies spec_segment_tokens(
        d,
        dw,
    ).contains(t) by {
        let m = choose|m: int| 0 <= m < qt.len() && qt[m] == t;
        let u = if sc.spec_is_logographic() { n } else { 0 };
        if sc.spec_is_logographic() && m < n {
            assert(t == seq![q[m]]);
            assert(pe[a + m] == seq![p[a + m]]);
            assert(p[a + m] == q[m]);
            assert(pe[a + m] =~= t);
        } else {
            let r = m - u;
            if r < n - 1 {
                assert(t == bigrams(q)[r]);
                assert(t =~= p.subrange(a, a + n).subrange(r, r + 2));
                lemma_bigrams_of_any_part_are_tokens(p, sc, ds[k], a, a + n);
                assert(pe.contains(p.subrange(a, a + n).subrange(r, r + 2)));
            } else {
                assert(t == q);
            }
        }
        assert(pe.contains(t));
        let j = choose|j: int| 0 <= j < pe.len() && pe[j] == t;
        assert(tokens_of(ps, ds).contains(pe[j]));
    }
}

/// Every character of `t` is alphanumeric, as `char::is_alphanumeric`
/// decides.
pub open spec fn is_alphanumeric_text(t: Seq<char>) -> bool {
    forall|j: int| 0 <= j < t.len() ==> char_is_alphanumeric(#[trigger] t[j])
}

/// The word characters `segment` splits on are exactly the alphanumeric
/// characters, so every token is made of alphanumeric characters only:
/// every other character (a space, a line break, punctuation) separates
/// tokens and is in none of them.
pub proof fn lemma_tokens_are_alphanumeric(s: Seq<char>)
    ensures
        alnum_flags(s).len() == s.len(),
        forall|i: int| 0 <= i < s.len() ==> #[trigger] alnum_flags(s)[i] == char_is_alphanumeric(s[i]),
        forall|m: int|
            0 <= m < spec_segment_tokens(s, alnum_flags(s)).len() ==> is_alphanumeric_text(
                #[trigger] spec_segment_tokens(s, alnum_flags(s))[m],
            ),
{
    let w = alnum_flags(s);
    let toks = spec_segment_tokens(s, w);
    lemma_tokens_are_single_script_spans(s, w);
    assert forall|m: int| 0 <= m < toks.len() implies is_alphanumeric_text(#[trigger] toks[m]) by {
        let sp = token_span(s, w, m);
        assert(is_single_script_span(s, w, toks[m], sp));
        assert forall|j: int| 0 <= j < toks[m].len() implies char_is_alphanumeric(#[trigger] toks[m][j]) by {
            assert(toks[m][j] == s[sp.0 + j]);
            assert(is_word_of(s, w, sp.0 + j, spec_script_of(s[sp.0])));
        }
    }
}

/// Each code point range the classification lists belongs to its script,
/// and every other code point is `Other`.
pub proof fn lemma_script_ranges(c: char)
    ensures
        (c as u32 == 0x3005 || c as u32 == 0x303B || 0x3400 <= c as u32 <= 0x4DBF || 0x4E00 <= c as u32
            <= 0x9FFF || 0xF900 <= c as u32 <= 0xFAFF || 0x20000 <= c as u32 <= 0x2A6DF || 0x2A700
            <= c as u32 <= 0x2EBEF || 0x2F800 <= c as u32 <= 0x2FA1F) ==> spec_script_of(c) == Script::Han,
        0x3040 <= c as u32 <= 0x309F ==> spec_script_of(c) == Script::Hiragana,
        (0x30A0 <= c as u32 <= 0x30FF || 0x31F0 <= c as u32 <= 0x31FF || 0xFF66 <= c as u32 <= 0xFF9F)
            ==> spec_script_of(c) == Script::Katakana,
        (0x1100 <= c as u32 <= 0x11FF || 0x3130 <= c as u32 <= 0x318F || 0xA960 <= c as u32 <= 0xA97F
            || 0xAC00 <= c as u32 <= 0xD7A3 || 0xD7B0 <= c as u32 <= 0xD7FF) ==> spec_script_of(c)
            == Script::Hangul,
        (0x3105 <= c as u32 <= 0x312F || 0x31A0 <= c as u32 <= 0x31BF) ==> spec_script_of(c)
            == Script::Bopomofo,
        (0x0600 <= c as u32 <= 0x06FF || 0x0750 <= c as u32 <= 0x077F || 0x08A0 <= c as u32 <= 0x08FF
            || 0xFB50 <= c as u32 <= 0xFDFF || 0xFE70 <= c as u32 <= 0xFEFF) ==> spec_script_of(c)
            == Script::Arabic,
        (0x1780 <= c as u32 <= 0x17FF || 0x19E0 <= c as u32 <= 0x19FF) ==> spec_script_of(c) == Script::Khmer,
        0x0E00 <= c as u32 <= 0x0E7F ==> spec_script_of(c) == Script::Thai,
        0x0E80 <= c as u32 <= 0x0EFF ==> spec_script_of(c) == Script::Lao,
        (0x1000 <= c as u32 <= 0x109F || 0xA9E0 <= c as u32 <= 0xA9FF || 0xAA60 <= c as u32 <= 0xAA7F)
            ==> spec_script_of(c) == Script::Myanmar,
        (c as u32) < 0x0600 || (0x0F00 <= c as u32 && (c as u32) < 0x1000) ==> spec_script_of(c)
            == Script::Other,
{
}

/// Length counts content: a non-empty subrun of a script that attaches
/// without a delimiter counts once per character, whatever the script, and
/// one of a delimiting script counts once.
pub proof fn lemma_units_count_characters(sub: Seq<char>, script: Script)
    ensures
        script.spec_attaches_without_delimiter() && sub.len() > 0 ==> emit_units(sub, script) == sub.len(),
        !script.spec_attaches_without_delimiter() && sub.len() > 0 ==> emit_units(sub, script) == 1,
        sub.len() == 0 ==> emit_units(sub, script) == 0,
{
}

/// A text of word characters of one script that attaches without a
/// delimiter counts for exactly its number of characters, however many
/// n-grams it emits.
pub proof fn lemma_attaching_text_length_is_its_characters(q: Seq<char>, qw: Seq<bool>)
    requires
        q.len() == qw.len(),
        q.len() > 0,
        spec_script_of(q[0]) != Script::Other,
        forall|i: int| 0 <= i < q.len() ==> #[trigger] is_word_of(q, qw, i, spec_script_of(q[0])),
    ensures
        spec_segment_units(q, qw) == q.len(),
{
    lemma_single_script_word_is_one_piece(q, qw);
    assert(spec_pieces(q, qw).drop_first() =~= Seq::<Seq<char>>::empty());
    assert(spec_pieces(q, qw)[0] == q);
    assert(units_of(seq![q]) == emit_units(q, piece_script(q)) + units_of(Seq::<Seq<char>>::empty()));
    assert(piece_script(q).spec_attaches_without_delimiter());
}

} // verus!

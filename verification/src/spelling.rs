//! What tokens spell: merging keeps it, and decoding gives it back.
use vstd::prelude::*;

use crate::float::Float32;
use crate::tokenizer::{
    best_merge, byte_piece, byte_token, char_tokens, decoded, decoded_text, encodable, encoded,
    in_range, lookup, merge_all, merge_at, mergeable, merged_id, merged_score, piece, printable,
    safe_piece, shown, spelled, start_tokens, upper_digit, BOS, BYTE_OFFSET, EOS,
};

verus! {

/// A text that is found has the id of its last occurrence, and a text that is not found is not in
/// the vocabulary, where the ids of all texts fit.
pub proof fn law_lookup_is_exact(texts: Seq<Seq<char>>, s: Seq<char>)
    requires
        texts.len() <= u32::MAX + 1,
    ensures
        match lookup(texts, s) {
            Some(id) => {
                &&& id < texts.len()
                &&& texts[id as int] == s
                &&& forall|j: int| id < j < texts.len() ==> #[trigger] texts[j] != s
            },
            None => !texts.contains(s),
        },
    decreases texts.len(),
{
    if texts.len() > 0 && texts.last() != s {
        law_lookup_is_exact(texts.drop_last(), s);
        if let Some(id) = lookup(texts, s) {
            assert forall|j: int| id < j < texts.len() implies #[trigger] texts[j] != s by {
                if j < texts.len() - 1 {
                    assert(texts.drop_last()[j] != s);
                }
            }
        } else if texts.contains(s) {
            let j = choose|j: int| 0 <= j < texts.len() && texts[j] == s;
            assert(texts.drop_last()[j] == s);
        }
    }
}

/// The texts of tokens, one after the other.
pub open spec fn spelling(texts: Seq<Seq<char>>, tokens: Seq<u32>) -> Seq<char>
    decreases tokens.len(),
{
    if tokens.len() == 0 {
        seq![]
    } else {
        spelling(texts, tokens.drop_last()) + texts[tokens.last() as int]
    }
}

proof fn lemma_spelling_joins(texts: Seq<Seq<char>>, a: Seq<u32>, b: Seq<u32>)
    ensures
        spelling(texts, a + b) == spelling(texts, a) + spelling(texts, b),
    decreases b.len(),
{
    if b.len() == 0 {
        assert(a + b =~= a);
        assert(spelling(texts, a) + spelling(texts, b) =~= spelling(texts, a));
    } else {
        lemma_spelling_joins(texts, a, b.drop_last());
        assert((a + b).drop_last() =~= a + b.drop_last());
        assert((a + b).last() == b.last());
        assert(spelling(texts, a + b) =~= spelling(texts, a) + spelling(texts, b));
    }
}

proof fn lemma_spelling_of_one(texts: Seq<Seq<char>>, token: u32)
    ensures
        spelling(texts, seq![token]) == texts[token as int],
{
    reveal_with_fuel(spelling, 2);
    assert(seq![token].drop_last() =~= Seq::<u32>::empty());
    assert(Seq::<char>::empty() + texts[token as int] =~= texts[token as int]);
}

/// Merging two tokens keeps what the tokens spell, and every token has a text.
pub proof fn law_merge_keeps_spelling(texts: Seq<Seq<char>>, tokens: Seq<u32>, i: int)
    requires
        texts.len() <= u32::MAX + 1,
        in_range(texts, tokens),
        0 <= i < tokens.len() - 1,
        merged_id(texts, tokens, i) is Some,
    ensures
        spelling(texts, merge_at(texts, tokens, i)) == spelling(texts, tokens),
        in_range(texts, merge_at(texts, tokens, i)),
        merge_at(texts, tokens, i).len() == tokens.len() - 1,
{
    let id = merged_id(texts, tokens, i)->0;
    let front = tokens.take(i);
    let back = tokens.skip(i + 2);
    let pair = seq![tokens[i]] + seq![tokens[i + 1]];
    law_lookup_is_exact(texts, texts[tokens[i] as int] + texts[tokens[i + 1] as int]);
    assert(tokens =~= front + pair + back);
    assert(merge_at(texts, tokens, i) =~= front + seq![id] + back);
    lemma_spelling_joins(texts, front + pair, back);
    lemma_spelling_joins(texts, front, pair);
    lemma_spelling_joins(texts, seq![tokens[i]], seq![tokens[i + 1]]);
    lemma_spelling_joins(texts, front + seq![id], back);
    lemma_spelling_joins(texts, front, seq![id]);
    lemma_spelling_of_one(texts, tokens[i]);
    lemma_spelling_of_one(texts, tokens[i + 1]);
    lemma_spelling_of_one(texts, id);
}

/// Merging until no pair can keeps what the tokens spell, leaves every token a text, and never
/// makes the tokens more.
pub proof fn law_merging_keeps_spelling(
    texts: Seq<Seq<char>>,
    scores: Seq<Float32>,
    tokens: Seq<u32>,
)
    requires
        texts.len() <= u32::MAX + 1,
        in_range(texts, tokens),
    ensures
        spelling(texts, merge_all(texts, scores, tokens)) == spelling(texts, tokens),
        in_range(texts, merge_all(texts, scores, tokens)),
        merge_all(texts, scores, tokens).len() <= tokens.len(),
    decreases tokens.len(),
{
    if exists|i: int| best_merge(texts, scores, tokens, i) {
        let i = choose|i: int| best_merge(texts, scores, tokens, i);
        law_merge_keeps_spelling(texts, tokens, i);
        law_merging_keeps_spelling(texts, scores, merge_at(texts, tokens, i));
    }
}

/// Of the pairs before `n`, if any can merge, one is the best.
proof fn lemma_best_exists(
    texts: Seq<Seq<char>>,
    scores: Seq<Float32>,
    tokens: Seq<u32>,
    n: int,
) -> (best: int)
    requires
        exists|i: int| i < n && mergeable(texts, scores, tokens, i),
        0 <= n,
    ensures
        best < n,
        mergeable(texts, scores, tokens, best),
        forall|j: int| #[trigger]
            mergeable(texts, scores, tokens, j) && j < n ==> {
                let a = merged_score(texts, scores, tokens, best);
                let b = merged_score(texts, scores, tokens, j);
                if j < best {
                    b.lt(a)
                } else {
                    b.le(a)
                }
            },
    decreases n,
{
    let last = n - 1;
    if exists|i: int| i < last && mergeable(texts, scores, tokens, i) {
        let best = lemma_best_exists(texts, scores, tokens, last);
        let a = merged_score(texts, scores, tokens, best);
        let b = merged_score(texts, scores, tokens, last);
        if mergeable(texts, scores, tokens, last) && a.lt(b) {
            last
        } else {
            best
        }
    } else {
        last
    }
}

/// After merging no pair can merge.
pub proof fn law_merging_is_complete(
    texts: Seq<Seq<char>>,
    scores: Seq<Float32>,
    tokens: Seq<u32>,
    i: int,
)
    ensures
        !mergeable(texts, scores, merge_all(texts, scores, tokens), i),
    decreases tokens.len(),
{
    if exists|k: int| best_merge(texts, scores, tokens, k) {
        let k = choose|k: int| best_merge(texts, scores, tokens, k);
        law_merging_is_complete(texts, scores, merge_at(texts, tokens, k), i);
    } else if mergeable(texts, scores, tokens, i) {
        let best = lemma_best_exists(texts, scores, tokens, tokens.len() as int);
        assert(best_merge(texts, scores, tokens, best));
    }
}

/// Every character of the text is a text of the vocabulary.
pub open spec fn spellable(texts: Seq<Seq<char>>, text: Seq<char>) -> bool {
    forall|i: int| 0 <= i < text.len() ==> texts.contains(seq![#[trigger] text[i]])
}

/// The space before a text that is not empty, where the vocabulary has one.
pub open spec fn leading_space(texts: Seq<Seq<char>>, text: Seq<char>) -> Seq<char> {
    if text.len() > 0 && texts.contains(seq![' ']) {
        seq![' ']
    } else {
        seq![]
    }
}

proof fn lemma_spelled_spells(texts: Seq<Seq<char>>, text: Seq<char>)
    requires
        texts.len() <= u32::MAX + 1,
        spellable(texts, text),
    ensures
        in_range(texts, spelled(texts, text)),
        spelling(texts, spelled(texts, text)) == text,
    decreases text.len(),
{
    if text.len() == 0 {
        assert(text =~= seq![]);
    } else {
        let rest = text.drop_first();
        assert forall|i: int| 0 <= i < rest.len() implies texts.contains(
            seq![#[trigger] rest[i]],
        ) by {
            assert(texts.contains(seq![text[i + 1]]));
        }
        lemma_spelled_spells(texts, rest);
        law_lookup_is_exact(texts, seq![text[0]]);
        let id = lookup(texts, seq![text[0]])->0;
        lemma_spelling_joins(texts, seq![id], spelled(texts, rest));
        lemma_spelling_of_one(texts, id);
        assert(seq![text[0]] + rest =~= text);
    }
}

proof fn lemma_start_spells(texts: Seq<Seq<char>>, text: Seq<char>, bos: bool)
    requires
        texts.len() <= u32::MAX + 1,
        spellable(texts, text),
        bos ==> BOS < texts.len(),
    ensures
        in_range(texts, start_tokens(texts, text, bos)),
        spelling(texts, start_tokens(texts, text, bos)) == (if bos {
            texts[BOS as int]
        } else {
            seq![]
        }) + leading_space(texts, text) + text,
{
    let mark = if bos {
        seq![BOS]
    } else {
        Seq::<u32>::empty()
    };
    let space = match lookup(texts, seq![' ']) {
        Some(id) => if text.len() > 0 {
            seq![id]
        } else {
            seq![]
        },
        None => Seq::<u32>::empty(),
    };
    law_lookup_is_exact(texts, seq![' ']);
    lemma_spelled_spells(texts, text);
    lemma_spelling_joins(texts, mark + space, spelled(texts, text));
    lemma_spelling_joins(texts, mark, space);
    lemma_spelling_of_one(texts, BOS);
    if space.len() > 0 {
        lemma_spelling_of_one(texts, space[0]);
        assert(space =~= seq![space[0]]);
    }
}

/// The tokens of a text whose characters the vocabulary has spell the text, after a space, between
/// the marks that are asked for.
pub proof fn law_encoding_spells_text(
    texts: Seq<Seq<char>>,
    scores: Seq<Float32>,
    text: Seq<char>,
    bos: bool,
    eos: bool,
)
    requires
        texts.len() <= u32::MAX + 1,
        spellable(texts, text),
        bos ==> BOS < texts.len(),
        eos ==> EOS < texts.len(),
    ensures
        encodable(texts, text, bos),
        in_range(texts, encoded(texts, scores, text, bos, eos)),
        spelling(texts, encoded(texts, scores, text, bos, eos)) == (if bos {
            texts[BOS as int]
        } else {
            seq![]
        }) + leading_space(texts, text) + text + (if eos {
            texts[EOS as int]
        } else {
            seq![]
        }),
{
    let start = start_tokens(texts, text, bos);
    lemma_start_spells(texts, text, bos);
    law_merging_keeps_spelling(texts, scores, start);
    let body = merge_all(texts, scores, start);
    if eos {
        assert(body.push(EOS).drop_last() =~= body);
    } else {
        assert(spelling(texts, body) + Seq::<char>::empty() =~= spelling(texts, body));
    }
}

proof fn lemma_merging_leaves_some(
    texts: Seq<Seq<char>>,
    scores: Seq<Float32>,
    tokens: Seq<u32>,
)
    requires
        tokens.len() > 0,
    ensures
        merge_all(texts, scores, tokens).len() > 0,
    decreases tokens.len(),
{
    if exists|i: int| best_merge(texts, scores, tokens, i) {
        let i = choose|i: int| best_merge(texts, scores, tokens, i);
        assert(mergeable(texts, scores, tokens, i));
        lemma_merging_leaves_some(texts, scores, merge_at(texts, tokens, i));
    }
}

/// There are tokens wherever there is a text or a mark, and only there.
pub proof fn law_encoding_is_empty_only_for_nothing(
    texts: Seq<Seq<char>>,
    scores: Seq<Float32>,
    text: Seq<char>,
    bos: bool,
    eos: bool,
)
    ensures
        encoded(texts, scores, text, bos, eos).len() == 0 <==> text.len() == 0 && !bos && !eos,
{
    let start = start_tokens(texts, text, bos);
    if text.len() > 0 {
        assert(char_tokens(texts, text[0]).len() > 0);
    }
    if start.len() > 0 {
        lemma_merging_leaves_some(texts, scores, start);
    } else {
        assert forall|i: int| !best_merge(texts, scores, start, i) by {
            assert(!mergeable(texts, scores, start, i));
        }
    }
}

/// Every token is shown as its text: none marks a beginning, names a byte or cannot be shown, and
/// the text of the first one names no byte without the space in front of it either.
pub open spec fn plain(texts: Seq<Seq<char>>, tokens: Seq<u32>) -> bool {
    &&& forall|i: int|
        0 <= i < tokens.len() ==> {
            &&& #[trigger] tokens[i] != BOS
            &&& byte_token(texts[tokens[i] as int]) is None
            &&& safe_piece(texts[tokens[i] as int])
        }
    &&& tokens.len() > 0 ==> {
        let first = piece(texts, BOS, tokens[0]);
        &&& byte_token(first) is None
        &&& first.len() == 0 || safe_piece(first)
    }
}

proof fn lemma_plain_tokens_show_their_spelling(texts: Seq<Seq<char>>, tokens: Seq<u32>)
    requires
        plain(texts, tokens),
        tokens.len() > 0,
    ensures
        decoded_text(texts, tokens) == piece(texts, BOS, tokens[0]) + spelling(
            texts,
            tokens.drop_first(),
        ),
    decreases tokens.len(),
{
    let front = tokens.drop_last();
    let t = tokens.last();
    assert(tokens[tokens.len() - 1] == t);
    if tokens.len() == 1 {
        assert(front =~= seq![]);
        assert(tokens.drop_first() =~= seq![]);
        let first = piece(texts, BOS, t);
        assert(shown(first) =~= first);
        assert(decoded_text(texts, front) =~= seq![]);
        assert(spelling(texts, tokens.drop_first()) =~= seq![]);
        assert(decoded_text(texts, tokens) =~= first + spelling(texts, tokens.drop_first()));
    } else {
        assert(plain(texts, front)) by {
            assert(front[0] == tokens[0]);
            assert forall|i: int| 0 <= i < front.len() implies {
                &&& #[trigger] front[i] != BOS
                &&& byte_token(texts[front[i] as int]) is None
                &&& safe_piece(texts[front[i] as int])
            } by {
                assert(front[i] == tokens[i]);
            }
        }
        lemma_plain_tokens_show_their_spelling(texts, front);
        assert(tokens[tokens.len() - 2] != BOS);
        assert(tokens.drop_first().drop_last() =~= front.drop_first());
        assert(tokens.drop_first().last() == t);
        assert(decoded_text(texts, tokens) =~= piece(texts, BOS, tokens[0]) + spelling(
            texts,
            tokens.drop_first(),
        ));
    }
}

/// What plain tokens are shown as is what they spell, without the space in front.
pub proof fn law_plain_tokens_decode_to_their_spelling(
    texts: Seq<Seq<char>>,
    tokens: Seq<u32>,
    text: Seq<char>,
)
    requires
        plain(texts, tokens),
        spelling(texts, tokens) == seq![' '] + text,
    ensures
        decoded_text(texts, tokens) == text,
{
    if tokens.len() > 0 {
        let first = texts[tokens[0] as int];
        let rest = tokens.drop_first();
        lemma_plain_tokens_show_their_spelling(texts, tokens);
        assert(tokens =~= seq![tokens[0]] + rest);
        lemma_spelling_joins(texts, seq![tokens[0]], rest);
        lemma_spelling_of_one(texts, tokens[0]);
        let whole = first + spelling(texts, rest);
        assert(safe_piece(first));
        assert(whole[0] == ' ');
        assert(first[0] == ' ');
        assert(text =~= whole.drop_first());
        assert(whole.drop_first() =~= first.drop_first() + spelling(texts, rest));
    }
}

/// Decoding gives back a text that was encoded without marks, where the vocabulary has its
/// characters and the space, and the tokens are plain.
pub proof fn law_decoding_gives_text_back(
    texts: Seq<Seq<char>>,
    scores: Seq<Float32>,
    text: Seq<char>,
)
    requires
        texts.len() <= u32::MAX + 1,
        spellable(texts, text),
        texts.contains(seq![' ']),
        plain(texts, encoded(texts, scores, text, false, false)),
    ensures
        decoded_text(texts, encoded(texts, scores, text, false, false)) == text,
{
    let tokens = encoded(texts, scores, text, false, false);
    law_encoding_spells_text(texts, scores, text, false, false);
    law_encoding_is_empty_only_for_nothing(texts, scores, text, false, false);
    if text.len() > 0 {
        assert(spelling(texts, tokens) =~= seq![' '] + text);
        law_plain_tokens_decode_to_their_spelling(texts, tokens, text);
    } else {
        assert(text =~= seq![]);
    }
}

/// Decoding what follows the mark of the beginning gives back the text, where the vocabulary has
/// its characters and the space, the mark has stayed a token of its own and the tokens after it are
/// plain.
pub proof fn law_decoding_after_mark_gives_text_back(
    texts: Seq<Seq<char>>,
    scores: Seq<Float32>,
    text: Seq<char>,
)
    requires
        BOS < texts.len() <= u32::MAX + 1,
        spellable(texts, text),
        texts.contains(seq![' ']),
        encoded(texts, scores, text, true, false)[0] == BOS,
        plain(texts, encoded(texts, scores, text, true, false).drop_first()),
    ensures
        decoded_text(texts, encoded(texts, scores, text, true, false).drop_first()) == text,
{
    let tokens = encoded(texts, scores, text, true, false);
    let rest = tokens.drop_first();
    law_encoding_spells_text(texts, scores, text, true, false);
    law_encoding_is_empty_only_for_nothing(texts, scores, text, true, false);
    assert(tokens =~= seq![BOS] + rest);
    lemma_spelling_joins(texts, seq![BOS], rest);
    lemma_spelling_of_one(texts, BOS);
    let mark = texts[BOS as int];
    let tail = leading_space(texts, text) + text;
    assert(mark + spelling(texts, rest) =~= mark + tail);
    assert(spelling(texts, rest) =~= (mark + spelling(texts, rest)).skip(mark.len() as int));
    assert(tail =~= (mark + tail).skip(mark.len() as int));
    if text.len() > 0 {
        law_plain_tokens_decode_to_their_spelling(texts, rest, text);
    } else {
        assert(text =~= seq![]);
        assert(tail =~= seq![]);
        if rest.len() > 0 {
            assert(rest =~= seq![rest[0]] + rest.drop_first());
            lemma_spelling_joins(texts, seq![rest[0]], rest.drop_first());
            lemma_spelling_of_one(texts, rest[0]);
            assert(safe_piece(texts[rest[0] as int]));
            assert(spelling(texts, rest).len() > 0);
        }
    }
}

/// A byte that a character fell back to is shown as that byte, where the vocabulary names the byte
/// under its token.
pub proof fn law_byte_token_shows_its_byte(texts: Seq<Seq<char>>, prev: u32, b: int)
    requires
        0 <= b < 0x100,
        b + BYTE_OFFSET < texts.len(),
        texts[b + BYTE_OFFSET] == seq![
            '<',
            '0',
            'x',
            upper_digit(b / 16),
            upper_digit(b % 16),
            '>',
        ],
    ensures
        decoded(texts, prev, (b + BYTE_OFFSET) as u32) == byte_piece(b),
{
}

/// `s` stands somewhere in `t`, in one piece.
pub open spec fn part_of(s: Seq<char>, t: Seq<char>) -> bool {
    exists|k: int|
        0 <= k && k + s.len() <= t.len() && s == #[trigger] t.subrange(k, k + s.len())
}

/// Every character of the text that is ASCII can be shown.
pub open spec fn all_printable(text: Seq<char>) -> bool {
    forall|i: int|
        0 <= i < text.len() && (#[trigger] text[i] as int) < 0x80 ==> printable(text[i])
}

/// Every token has a text that is not empty.
spec fn none_empty(texts: Seq<Seq<char>>, tokens: Seq<u32>) -> bool {
    forall|i: int| 0 <= i < tokens.len() ==> texts[#[trigger] tokens[i] as int].len() > 0
}

proof fn lemma_part_of_part(r: Seq<char>, s: Seq<char>, t: Seq<char>)
    requires
        part_of(r, s),
        part_of(s, t),
    ensures
        part_of(r, t),
{
    let j = choose|j: int|
        0 <= j && j + r.len() <= s.len() && r == #[trigger] s.subrange(j, j + r.len());
    let k = choose|k: int|
        0 <= k && k + s.len() <= t.len() && s == #[trigger] t.subrange(k, k + s.len());
    assert(r =~= t.subrange(k + j, k + j + r.len()));
}

/// The text of a token stands in what the tokens spell.
proof fn lemma_token_is_part(texts: Seq<Seq<char>>, tokens: Seq<u32>, i: int)
    requires
        0 <= i < tokens.len(),
    ensures
        part_of(texts[tokens[i] as int], spelling(texts, tokens)),
{
    let front = tokens.take(i);
    let one = seq![tokens[i]];
    let back = tokens.skip(i + 1);
    assert(tokens =~= front + one + back);
    lemma_spelling_joins(texts, front + one, back);
    lemma_spelling_joins(texts, front, one);
    lemma_spelling_of_one(texts, tokens[i]);
    let s = texts[tokens[i] as int];
    let k = spelling(texts, front).len() as int;
    assert(s =~= spelling(texts, tokens).subrange(k, k + s.len()));
}

proof fn lemma_merging_leaves_none_empty(
    texts: Seq<Seq<char>>,
    scores: Seq<Float32>,
    tokens: Seq<u32>,
)
    requires
        texts.len() <= u32::MAX + 1,
        none_empty(texts, tokens),
    ensures
        none_empty(texts, merge_all(texts, scores, tokens)),
    decreases tokens.len(),
{
    if exists|i: int| best_merge(texts, scores, tokens, i) {
        let i = choose|i: int| best_merge(texts, scores, tokens, i);
        assert(mergeable(texts, scores, tokens, i));
        law_lookup_is_exact(texts, texts[tokens[i] as int] + texts[tokens[i + 1] as int]);
        let merged = merge_at(texts, tokens, i);
        assert forall|j: int| 0 <= j < merged.len() implies texts[#[trigger] merged[j] as int].len()
            > 0 by {
            if j < i {
                assert(merged[j] == tokens[j]);
            } else if j > i {
                assert(merged[j] == tokens[j + 1]);
            } else {
                assert(texts[tokens[i] as int].len() > 0);
            }
        }
        lemma_merging_leaves_none_empty(texts, scores, merged);
    }
}

proof fn lemma_spelled_leaves_none_empty(texts: Seq<Seq<char>>, text: Seq<char>)
    requires
        texts.len() <= u32::MAX + 1,
        spellable(texts, text),
    ensures
        none_empty(texts, spelled(texts, text)),
    decreases text.len(),
{
    if text.len() > 0 {
        let rest = text.drop_first();
        assert forall|i: int| 0 <= i < rest.len() implies texts.contains(
            seq![#[trigger] rest[i]],
        ) by {
            assert(texts.contains(seq![text[i + 1]]));
        }
        lemma_spelled_leaves_none_empty(texts, rest);
        law_lookup_is_exact(texts, seq![text[0]]);
    }
}

/// A part of ` text` that is not empty is no byte's name and can be shown.
proof fn lemma_part_is_plain(s: Seq<char>, text: Seq<char>)
    requires
        part_of(s, seq![' '] + text),
        all_printable(text),
        !part_of(seq!['<', '0', 'x'], text),
    ensures
        byte_token(s) is None,
        s.len() > 0 ==> safe_piece(s),
{
    let whole = seq![' '] + text;
    let k = choose|k: int|
        0 <= k && k + s.len() <= whole.len() && s == #[trigger] whole.subrange(k, k + s.len());
    if s.len() > 0 {
        assert(s[0] == whole[k]);
        if k > 0 {
            assert(whole[k] == text[k - 1]);
        }
    }
    if byte_token(s) is Some {
        assert(s[0] == whole[k] && s[1] == whole[k + 1] && s[2] == whole[k + 2]);
        let name = seq!['<', '0', 'x'];
        assert(name =~= text.subrange(k - 1, k - 1 + name.len()));
    }
}

/// Decoding gives back a text that was encoded without marks, where the vocabulary has its
/// characters and the space, the characters can be shown, and the text holds neither the beginning
/// of a byte's name nor, after its space, the text of the mark of the beginning.
pub proof fn law_plain_text_survives(
    texts: Seq<Seq<char>>,
    scores: Seq<Float32>,
    text: Seq<char>,
)
    requires
        texts.len() <= u32::MAX + 1,
        spellable(texts, text),
        texts.contains(seq![' ']),
        all_printable(text),
        !part_of(seq!['<', '0', 'x'], text),
        BOS < texts.len() ==> !part_of(texts[BOS as int], seq![' '] + text),
    ensures
        decoded_text(texts, encoded(texts, scores, text, false, false)) == text,
{
    let tokens = encoded(texts, scores, text, false, false);
    let start = start_tokens(texts, text, false);
    law_encoding_spells_text(texts, scores, text, false, false);
    law_encoding_is_empty_only_for_nothing(texts, scores, text, false, false);
    if text.len() > 0 {
        let whole = seq![' '] + text;
        assert(spelling(texts, tokens) =~= whole);
        law_lookup_is_exact(texts, seq![' ']);
        lemma_spelled_leaves_none_empty(texts, text);
        let space = lookup(texts, seq![' '])->0;
        assert(start =~= seq![space] + spelled(texts, text));
        assert(none_empty(texts, start)) by {
            assert forall|i: int| 0 <= i < start.len() implies
                texts[#[trigger] start[i] as int].len() > 0 by {
                if i > 0 {
                    assert(start[i] == spelled(texts, text)[i - 1]);
                }
            }
        }
        lemma_merging_leaves_none_empty(texts, scores, start);
        assert forall|i: int| 0 <= i < tokens.len() implies {
            &&& #[trigger] tokens[i] != BOS
            &&& byte_token(texts[tokens[i] as int]) is None
            &&& safe_piece(texts[tokens[i] as int])
        } by {
            assert(tokens[i] < texts.len());
            lemma_token_is_part(texts, tokens, i);
            lemma_part_is_plain(texts[tokens[i] as int], text);
        }
        let first = texts[tokens[0] as int];
        let shown_first = piece(texts, BOS, tokens[0]);
        lemma_token_is_part(texts, tokens, 0);
        assert(part_of(shown_first, first)) by {
            let k = first.len() - shown_first.len();
            assert(shown_first =~= first.subrange(k, k + shown_first.len()));
        }
        lemma_part_of_part(shown_first, first, whole);
        lemma_part_is_plain(shown_first, text);
        assert(plain(texts, tokens));
    }
    law_decoding_gives_text_back(texts, scores, text);
}

} // verus!

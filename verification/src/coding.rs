//! How texts become tokens, and what tokens are shown as.
use vstd::prelude::*;
use vstd::utf8::{encode_scalar, encode_utf8};

use crate::float::Float32;
use crate::spelling::{law_lookup_is_exact, law_plain_text_survives, part_of, spellable};
use crate::tokenizer::{
    best_merge, byte_token, char_tokens, decoded, decoded_text, encodable, encoded, in_range,
    lookup, merge_all, merge_at, mergeable, merged_id, merged_score, piece, safe_piece, shown,
    spelled, start_tokens,
};

verus! {

/// The pair whose merged text has the highest score merges first, and of equal scores the first
/// pair does. A score that is no number, or is negative infinity, does not count.
pub proof fn law_highest_score_merges_first(
    texts: Seq<Seq<char>>,
    scores: Seq<Float32>,
    tokens: Seq<u32>,
    i: int,
    id: u32,
)
    requires
        0 <= i < tokens.len() - 1,
        lookup(texts, texts[tokens[i] as int] + texts[tokens[i + 1] as int]) == Some(id),
        (Float32 { bits: 0xff80_0000 }).lt(scores[id as int]),
        forall|j: int, other: u32|
            #![trigger tokens[j], scores[other as int]]
            0 <= j < tokens.len() - 1 && j != i && lookup(
                texts,
                texts[tokens[j] as int] + texts[tokens[j + 1] as int],
            ) == Some(other) && (Float32 { bits: 0xff80_0000 }).lt(scores[other as int]) ==> (if j
                < i {
                scores[other as int].lt(scores[id as int])
            } else {
                !scores[id as int].lt(scores[other as int])
            }),
    ensures
        merge_all(texts, scores, tokens) == merge_all(
            texts,
            scores,
            tokens.take(i) + seq![id] + tokens.skip(i + 2),
        ),
{
    assert(mergeable(texts, scores, tokens, i));
    assert forall|j: int| #[trigger] mergeable(texts, scores, tokens, j) implies {
        let a = merged_score(texts, scores, tokens, i);
        let b = merged_score(texts, scores, tokens, j);
        if j < i {
            b.lt(a)
        } else {
            b.le(a)
        }
    } by {
        if j != i {
            let other = merged_id(texts, tokens, j)->0;
            assert(tokens[j] == tokens[j] && scores[other as int] == scores[other as int]);
        }
    }
    assert(best_merge(texts, scores, tokens, i));
    let k = choose|k: int| best_merge(texts, scores, tokens, k);
    assert(mergeable(texts, scores, tokens, k));
    assert(k == i);
    assert(merge_at(texts, tokens, i) =~= tokens.take(i) + seq![id] + tokens.skip(i + 2));
}

/// Where no two neighbours have a merged text whose score counts, nothing merges.
pub proof fn law_nothing_merges_without_a_score(
    texts: Seq<Seq<char>>,
    scores: Seq<Float32>,
    tokens: Seq<u32>,
)
    requires
        forall|j: int, other: u32|
            #![trigger tokens[j], scores[other as int]]
            0 <= j < tokens.len() - 1 && lookup(
                texts,
                texts[tokens[j] as int] + texts[tokens[j + 1] as int],
            ) == Some(other) ==> !(Float32 { bits: 0xff80_0000 }).lt(scores[other as int]),
    ensures
        merge_all(texts, scores, tokens) == tokens,
{
    assert forall|j: int| !#[trigger] mergeable(texts, scores, tokens, j) by {
        if mergeable(texts, scores, tokens, j) {
            let other = merged_id(texts, tokens, j)->0;
            assert(tokens[j] == tokens[j] && scores[other as int] == scores[other as int]);
        }
    }
    assert forall|j: int| !#[trigger] best_merge(texts, scores, tokens, j) by {
        assert(!mergeable(texts, scores, tokens, j));
    }
}

/// A text is spelled character by character: as the character's own token, or as those of the bytes
/// of its encoding, which come after the first three.
pub proof fn law_text_is_spelled_by_characters(
    texts: Seq<Seq<char>>,
    c: char,
    rest: Seq<char>,
)
    ensures
        spelled(texts, Seq::<char>::empty()) == Seq::<u32>::empty(),
        lookup(texts, seq![c]) matches Some(id) ==> spelled(texts, seq![c] + rest) == seq![id]
            + spelled(texts, rest),
        lookup(texts, seq![c]) is None ==> {
            let b = encode_scalar(c as u32);
            &&& spelled(texts, seq![c] + rest).len() == b.len() + spelled(texts, rest).len()
            &&& forall|i: int|
                0 <= i < b.len() ==> #[trigger] spelled(texts, seq![c] + rest)[i] == b[i] + 3
            &&& spelled(texts, seq![c] + rest).skip(b.len() as int) == spelled(texts, rest)
        },
{
    let whole = seq![c] + rest;
    assert(whole.drop_first() =~= rest);
    assert(whole[0] == c);
    let b = encode_scalar(c as u32);
    assert(spelled(texts, whole) == char_tokens(texts, c) + spelled(texts, rest));
    if lookup(texts, seq![c]) is None {
        assert(spelled(texts, whole).skip(b.len() as int) =~= spelled(texts, rest));
    }
}

/// A text none of whose characters the vocabulary has becomes its bytes, each moved up by three.
pub proof fn law_unknown_text_becomes_bytes(texts: Seq<Seq<char>>, text: Seq<char>)
    requires
        forall|i: int| 0 <= i < text.len() ==> lookup(texts, seq![#[trigger] text[i]]) is None,
    ensures
        spelled(texts, text).len() == encode_utf8(text).len(),
        forall|i: int|
            0 <= i < encode_utf8(text).len() ==> #[trigger] spelled(texts, text)[i] == encode_utf8(
                text,
            )[i] + 3,
    decreases text.len(),
{
    if text.len() > 0 {
        let c = text[0];
        let rest = text.drop_first();
        assert(seq![c] + rest =~= text);
        assert forall|i: int| 0 <= i < rest.len() implies lookup(
            texts,
            seq![#[trigger] rest[i]],
        ) is None by {
            assert(lookup(texts, seq![text[i + 1]]) is None);
        }
        law_unknown_text_becomes_bytes(texts, rest);
        law_text_is_spelled_by_characters(texts, c, rest);
        let b = encode_scalar(c as u32);
        assert(encode_utf8(text) == b + encode_utf8(rest));
        assert forall|i: int| 0 <= i < encode_utf8(text).len() implies #[trigger] spelled(
            texts,
            text,
        )[i] == encode_utf8(text)[i] + 3 by {
            if i >= b.len() {
                assert(spelled(texts, text).skip(b.len() as int)[i - b.len()] == spelled(
                    texts,
                    text,
                )[i]);
                assert(spelled(texts, rest)[i - b.len()] == encode_utf8(rest)[i - b.len()] + 3);
            }
        }
    }
}

/// What goes into merging: token 1 where the beginning is to be marked, a space before a text that
/// is not empty, and the text's characters. What comes out is followed by token 2 where the end is
/// to be marked.
pub proof fn law_encoding_merges_the_spelled_text(
    texts: Seq<Seq<char>>,
    scores: Seq<Float32>,
    text: Seq<char>,
    space: u32,
)
    requires
        text.len() > 0,
        lookup(texts, seq![' ']) == Some(space),
    ensures
        encoded(texts, scores, text, false, false) == merge_all(
            texts,
            scores,
            seq![space] + spelled(texts, text),
        ),
        encoded(texts, scores, text, true, false) == merge_all(
            texts,
            scores,
            seq![1u32, space] + spelled(texts, text),
        ),
        encoded(texts, scores, text, false, true) == encoded(
            texts,
            scores,
            text,
            false,
            false,
        ).push(2u32),
        encoded(texts, scores, text, true, true) == encoded(
            texts,
            scores,
            text,
            true,
            false,
        ).push(2u32),
{
    assert(start_tokens(texts, text, false) =~= seq![space] + spelled(texts, text));
    assert(start_tokens(texts, text, true) =~= seq![1u32, space] + spelled(texts, text));
}

/// An empty text becomes the marks alone, and a vocabulary without a space puts none in front.
pub proof fn law_encoding_without_space(
    texts: Seq<Seq<char>>,
    scores: Seq<Float32>,
    text: Seq<char>,
    bos: bool,
)
    requires
        text.len() == 0 || lookup(texts, seq![' ']) is None,
    ensures
        encoded(texts, scores, text, bos, false) == merge_all(
            texts,
            scores,
            if bos {
                seq![1u32] + spelled(texts, text)
            } else {
                spelled(texts, text)
            },
        ),
        text.len() == 0 && bos ==> encoded(texts, scores, text, bos, false) == seq![1u32],
        encoded(texts, scores, text, bos, true) == encoded(texts, scores, text, bos, false).push(
            2u32,
        ),
{
    if bos {
        assert(start_tokens(texts, text, bos) =~= seq![1u32] + spelled(texts, text));
    } else {
        assert(start_tokens(texts, text, bos) =~= spelled(texts, text));
    }
    if text.len() == 0 && bos {
        assert(seq![1u32] + spelled(texts, text) =~= seq![1u32]);
        law_nothing_merges_without_a_score(texts, scores, seq![1u32]);
    }
}

/// A single character is shown where it is one of the 94 visible ones of ASCII, from `!` to `~`, a
/// space, a tab, a line feed, a form feed, a carriage return, or beyond ASCII. Every longer piece
/// is shown, and an empty one is not.
pub proof fn law_what_is_shown(c: char, s: Seq<char>)
    ensures
        safe_piece(seq![c]) <==> {
            ||| 0x21 <= c as int <= 0x7e
            ||| c as int == 0x20
            ||| c as int == 0x09
            ||| c as int == 0x0a
            ||| c as int == 0x0c
            ||| c as int == 0x0d
            ||| c as int >= 0x80
        },
        !safe_piece(Seq::<char>::empty()),
        s.len() >= 2 ==> safe_piece(s),
{
}

/// Decoding gives back every text of visible characters, spaces, tabs, line feeds, form feeds and
/// carriage returns whose characters and space the vocabulary has, unless it holds the beginning of
/// a byte's name or, after its space, the text of token 1.
pub proof fn law_visible_text_survives(
    texts: Seq<Seq<char>>,
    scores: Seq<Float32>,
    text: Seq<char>,
)
    requires
        texts.len() <= u32::MAX + 1,
        texts.contains(seq![' ']),
        forall|i: int| 0 <= i < text.len() ==> texts.contains(seq![#[trigger] text[i]]),
        forall|i: int|
            #![trigger text[i]]
            0 <= i < text.len() ==> {
                ||| 0x21 <= text[i] as int <= 0x7e
                ||| text[i] as int == 0x20
                ||| text[i] as int == 0x09
                ||| text[i] as int == 0x0a
                ||| text[i] as int == 0x0c
                ||| text[i] as int == 0x0d
                ||| text[i] as int >= 0x80
            },
        !part_of(seq!['<', '0', 'x'], text),
        1 < texts.len() ==> !part_of(texts[1], seq![' '] + text),
    ensures
        decoded_text(texts, encoded(texts, scores, text, false, false)) == text,
{
    assert(spellable(texts, text));
    law_plain_text_survives(texts, scores, text);
}

/// The sixteen digits, in upper and in lower case.
pub open spec fn digit_pair(n: int) -> (char, char) {
    let upper = seq![
        '0',
        '1',
        '2',
        '3',
        '4',
        '5',
        '6',
        '7',
        '8',
        '9',
        'A',
        'B',
        'C',
        'D',
        'E',
        'F',
    ];
    let lower = seq![
        '0',
        '1',
        '2',
        '3',
        '4',
        '5',
        '6',
        '7',
        '8',
        '9',
        'a',
        'b',
        'c',
        'd',
        'e',
        'f',
    ];
    (upper[n], lower[n])
}

/// The name of a byte is read back, in either case of its digits, and nothing else is a name.
pub proof fn law_byte_names(s: Seq<char>, b: int)
    requires
        0 <= b < 0x100,
    ensures
        byte_token(s) == Some(b) <==> {
            let high = digit_pair(b / 16);
            let low = digit_pair(b % 16);
            &&& s.len() == 6
            &&& s[0] == '<'
            &&& s[1] == '0'
            &&& s[2] == 'x'
            &&& s[3] == high.0 || s[3] == high.1
            &&& s[4] == low.0 || s[4] == low.1
            &&& s[5] == '>'
        },
        byte_token(s) matches Some(n) ==> 0 <= n < 0x100,
{
}

/// A text is shown as it is, without the space in front of it after token 1, unless it names a
/// byte.
pub proof fn law_text_is_shown_as_it_is(texts: Seq<Seq<char>>, prev: u32, token: u32)
    requires
        token < texts.len(),
    ensures
        ({
            let s = texts[token as int];
            &&& (prev != 1 || s.len() == 0 || s[0] != ' ') && byte_token(s) is None ==> decoded(
                texts,
                prev,
                token,
            ) == s
            &&& prev == 1 && s.len() > 0 && s[0] == ' ' && byte_token(s.drop_first()) is None
                ==> decoded(texts, prev, token) == s.drop_first()
        }),
{
}

/// A token whose text names a byte is shown as the character of that byte where it is ASCII, and
/// else as the byte's name with the digits in upper case.
pub proof fn law_named_byte_is_shown(texts: Seq<Seq<char>>, prev: u32, token: u32, b: int)
    requires
        token < texts.len(),
        byte_token(texts[token as int]) == Some(b),
    ensures
        0 <= b < 0x80 ==> decoded(texts, prev, token) == seq![b as char],
        0x80 <= b < 0x100 ==> decoded(texts, prev, token) == seq![
            '<',
            '0',
            'x',
            digit_pair(b / 16).0,
            digit_pair(b % 16).0,
            '>',
        ],
{
    assert(texts[token as int][0] == '<');
    assert(piece(texts, prev, token) == texts[token as int]);
}

/// Tokens are shown one after the other: each as it is after the one before, the first one as after
/// token 1, and what cannot be shown is left out.
pub proof fn law_tokens_are_shown_in_order(texts: Seq<Seq<char>>, tokens: Seq<u32>, token: u32)
    ensures
        decoded_text(texts, Seq::<u32>::empty()) == Seq::<char>::empty(),
        ({
            let prev = if tokens.len() == 0 {
                1u32
            } else {
                tokens.last()
            };
            let s = decoded(texts, prev, token);
            decoded_text(texts, tokens.push(token)) == if safe_piece(s) {
                decoded_text(texts, tokens) + s
            } else {
                decoded_text(texts, tokens)
            }
        }),
{
    let more = tokens.push(token);
    assert(more.drop_last() =~= tokens);
    let prev = if tokens.len() == 0 {
        1u32
    } else {
        tokens.last()
    };
    let s = decoded(texts, prev, token);
    assert(decoded_text(texts, more) == decoded_text(texts, tokens) + shown(s));
    if !safe_piece(s) {
        assert(decoded_text(texts, tokens) + shown(s) =~= decoded_text(texts, tokens));
    }
}

/// A vocabulary that has a text for every byte can encode every text.
pub proof fn law_byte_vocabulary_encodes_everything(
    texts: Seq<Seq<char>>,
    text: Seq<char>,
    bos: bool,
)
    requires
        259 <= texts.len() <= u32::MAX + 1,
    ensures
        encodable(texts, text, bos),
{
    law_lookup_is_exact(texts, seq![' ']);
    lemma_spelled_in_range(texts, text);
}

/// Of the tokens that are to be merged, none may be missing from the vocabulary.
pub proof fn law_missing_token_cannot_be_merged(
    texts: Seq<Seq<char>>,
    text: Seq<char>,
    bos: bool,
    i: int,
)
    requires
        start_tokens(texts, text, bos).len() >= 2,
        0 <= i < start_tokens(texts, text, bos).len(),
        start_tokens(texts, text, bos)[i] >= texts.len(),
    ensures
        !encodable(texts, text, bos),
{
}

proof fn lemma_spelled_in_range(texts: Seq<Seq<char>>, text: Seq<char>)
    requires
        259 <= texts.len() <= u32::MAX + 1,
    ensures
        in_range(texts, spelled(texts, text)),
    decreases text.len(),
{
    if text.len() > 0 {
        law_lookup_is_exact(texts, seq![text[0]]);
        lemma_spelled_in_range(texts, text.drop_first());
    }
}

} // verus!

//! Laws the cipher obeys, proved over the same specification functions its
//! executable contracts use: the encode/decode round trip, and the grid
//! file round trip.
use crate::cipher::decode_pairs;
use crate::cipher::decode_word;
use crate::cipher::decode_words;
use crate::cipher::encode_char;
use crate::cipher::encode_chars;
use crate::cipher::find_in_cells;
use crate::cipher::lemma_encode_chars_concat;
use crate::cipher::marks;
use crate::cipher::spec_decode;
use crate::cipher::spec_encode;
use crate::cipher::Tapcode;
use crate::cipher::TapcodeError;
use crate::text::first_index;
use crate::text::is_blank;
use crate::text::is_ws_char;
use crate::text::lemma_first_index_props;
use crate::text::lemma_split_tokens_leading;
use crate::text::lemma_split_tokens_push_ws;
use crate::text::lemma_split_words_bar_free;
use crate::text::lemma_split_words_concat;
use crate::text::lemma_split_words_len;
use crate::text::lemma_split_words_push;
use crate::text::lemma_trim_end_id;
use crate::text::lemma_trim_end_push_ws;
use crate::text::lower_char;
use crate::text::lower_seq;
use crate::text::split_tokens;
use crate::text::split_words;
use crate::text::trim_end;
use vstd::prelude::*;

verus! {

/// A character that can stand in a message word: not whitespace, and
/// present somewhere in the grid.
pub open spec fn word_char(cells: Seq<char>, c: char) -> bool {
    !is_ws_char(c) && find_in_cells(cells, c) is Some
}

/// A message in canonical shape: nonempty, every character a grid
/// character or a space, with no leading, trailing or doubled spaces.
pub open spec fn simple_message(cells: Seq<char>, m: Seq<char>) -> bool {
    &&& m.len() > 0
    &&& (forall|i: int| 0 <= i < m.len() ==> (#[trigger] m[i]) == ' ' || word_char(cells, m[i]))
    &&& m[0] != ' '
    &&& m[m.len() - 1] != ' '
    &&& (forall|i: int| 0 <= i < m.len() - 1 ==> !((#[trigger] m[i]) == ' ' && m[i + 1] == ' '))
}

/// A grid and marker under which encoded text survives decoding: a
/// well-formed grid (25 cells, fixed under lower-casing) and a marker that
/// is neither whitespace nor the word separator.
pub open spec fn round_trip_grid(cells: Seq<char>, tap: char) -> bool {
    &&& cells.len() == 25
    &&& (forall|i: int| 0 <= i < 25 ==> lower_char(#[trigger] cells[i]) == cells[i])
    &&& !is_ws_char(tap)
    &&& tap != '|'
}

/// The tap text a word of grid characters encodes to: for each character
/// its row taps, a space, its column taps, and a space.
pub open spec fn word_taps(cells: Seq<char>, tap: char, w: Seq<char>) -> Seq<char>
    decreases w.len(),
{
    if w.len() == 0 {
        Seq::<char>::empty()
    } else {
        (match encode_char(cells, tap, w[0]) {
            Ok(t) => t,
            Err(_) => Seq::<char>::empty(),
        }) + word_taps(cells, tap, w.drop_first())
    }
}

/// The tokens that a word's tap text tokenizes back to: for each character
/// of the word, its row-tap token and its column-tap token.
pub open spec fn pair_tokens(cells: Seq<char>, tap: char, w: Seq<char>) -> Seq<Seq<char>>
    decreases w.len(),
{
    if w.len() == 0 {
        Seq::<Seq<char>>::empty()
    } else {
        (match find_in_cells(cells, w[0]) {
            Some(rc) => seq![marks(tap, rc.0 + 1), marks(tap, rc.1 + 1)],
            None => Seq::<Seq<char>>::empty(),
        }) + pair_tokens(cells, tap, w.drop_first())
    }
}

/// A found position is inside the 5×5 grid and its cell holds the sought
/// character; `None` means no cell holds it.
pub proof fn lemma_find_props(cells: Seq<char>, ch: char)
    requires
        cells.len() == 25,
    ensures
        match find_in_cells(cells, ch) {
            Some(rc) => 0 <= rc.0 < 5 && 0 <= rc.1 < 5 && cells[5 * rc.0 + rc.1] == ch,
            None => forall|k: int| 0 <= k < 25 ==> cells[k] != ch,
        },
{
    lemma_first_index_props(cells, ch);
    match first_index(cells, ch) {
        Some(i) => {
            assert(5 * (i / 5) + (i % 5) == i) by (nonlinear_arith)
                requires 0 <= i < 25;
        },
        None => {},
    }
}

/// A word of grid characters encodes without error, to its tap text.
pub proof fn lemma_word_encode(cells: Seq<char>, tap: char, w: Seq<char>)
    requires
        forall|i: int| 0 <= i < w.len() ==> word_char(cells, #[trigger] w[i]),
    ensures
        encode_chars(cells, tap, w) == Ok::<Seq<char>, TapcodeError>(word_taps(cells, tap, w)),
    decreases w.len(),
{
    if w.len() == 0 {
        assert(word_taps(cells, tap, w) == Seq::<char>::empty());
    } else {
        assert(word_char(cells, w[0]));
        assert forall|i: int| 0 <= i < w.drop_first().len() implies word_char(
            cells,
            #[trigger] w.drop_first()[i],
        ) by {
            assert(w.drop_first()[i] == w[i + 1]);
        }
        lemma_word_encode(cells, tap, w.drop_first());
    }
}

/// The shape of a nonempty word's tap text: it starts with a tap mark, ends
/// with a tap mark then a space, and holds no `|`.
pub proof fn lemma_word_taps_shape(cells: Seq<char>, tap: char, w: Seq<char>)
    requires
        round_trip_grid(cells, tap),
        w.len() >= 1,
        forall|i: int| 0 <= i < w.len() ==> word_char(cells, #[trigger] w[i]),
    ensures
        ({
            let e = word_taps(cells, tap, w);
            &&& e.len() >= 2
            &&& e[0] == tap
            &&& e[e.len() - 1] == ' '
            &&& e[e.len() - 2] == tap
            &&& forall|k: int| 0 <= k < e.len() ==> e[k] != '|'
        }),
    decreases w.len(),
{
    lemma_find_props(cells, w[0]);
    let rc = find_in_cells(cells, w[0])->Some_0;
    let t = marks(tap, rc.0 + 1) + seq![' '] + marks(tap, rc.1 + 1) + seq![' '];
    assert(encode_char(cells, tap, w[0]) == Ok::<Seq<char>, TapcodeError>(t));
    assert(t.len() == rc.0 + rc.1 + 4);
    assert(t[0] == tap);
    assert(t[t.len() - 1] == ' ');
    assert(t[t.len() - 2] == marks(tap, rc.1 + 1)[rc.1]);
    assert(t[t.len() - 2] == tap);
    assert forall|k: int| 0 <= k < t.len() implies t[k] != '|' by {
        if k < rc.0 + 1 {
            assert(t[k] == marks(tap, rc.0 + 1)[k]);
        } else if k == rc.0 + 1 {
            assert(t[k] == ' ');
        } else if k < rc.0 + rc.1 + 3 {
            assert(t[k] == marks(tap, rc.1 + 1)[k - rc.0 - 2]);
        } else {
            assert(t[k] == ' ');
        }
    }
    if w.len() == 1 {
        assert(w.drop_first().len() == 0);
        assert(word_taps(cells, tap, w.drop_first()) == Seq::<char>::empty());
        assert(word_taps(cells, tap, w) =~= t);
    } else {
        assert forall|i: int| 0 <= i < w.drop_first().len() implies word_char(
            cells,
            #[trigger] w.drop_first()[i],
        ) by {
            assert(w.drop_first()[i] == w[i + 1]);
        }
        lemma_word_taps_shape(cells, tap, w.drop_first());
        let e2 = word_taps(cells, tap, w.drop_first());
        let e = word_taps(cells, tap, w);
        assert(e == t + e2);
        assert(e[e.len() - 1] == e2[e2.len() - 1]);
        assert(e[e.len() - 2] == e2[e2.len() - 2]);
        assert forall|k: int| 0 <= k < e.len() implies e[k] != '|' by {
            if k < t.len() {
                assert(e[k] == t[k]);
            } else {
                assert(e[k] == e2[k - t.len()]);
            }
        }
    }
}

/// A word's tap text, followed by anything, tokenizes to the word's pair
/// tokens followed by the tokens of what follows: every token inside the
/// tap text is closed off by its own trailing space.
pub proof fn lemma_word_taps_tokens(cells: Seq<char>, tap: char, w: Seq<char>, r: Seq<char>)
    requires
        round_trip_grid(cells, tap),
        forall|i: int| 0 <= i < w.len() ==> word_char(cells, #[trigger] w[i]),
    ensures
        split_tokens(word_taps(cells, tap, w) + r) == pair_tokens(cells, tap, w) + split_tokens(r),
    decreases w.len(),
{
    if w.len() == 0 {
        assert(word_taps(cells, tap, w) + r =~= r);
        assert(pair_tokens(cells, tap, w) + split_tokens(r) =~= split_tokens(r));
    } else {
        lemma_find_props(cells, w[0]);
        let rc = find_in_cells(cells, w[0])->Some_0;
        let t1 = marks(tap, rc.0 + 1);
        let t2 = marks(tap, rc.1 + 1);
        assert forall|i: int| 0 <= i < w.drop_first().len() implies word_char(
            cells,
            #[trigger] w.drop_first()[i],
        ) by {
            assert(w.drop_first()[i] == w[i + 1]);
        }
        lemma_word_taps_tokens(cells, tap, w.drop_first(), r);
        let wt2 = word_taps(cells, tap, w.drop_first());
        let s = word_taps(cells, tap, w) + r;
        assert(word_taps(cells, tap, w) == (t1 + seq![' '] + t2 + seq![' ']) + wt2);
        let rest1 = seq![' '] + (t2 + (seq![' '] + (wt2 + r)));
        assert(s =~= t1 + rest1);
        assert forall|k: int| 0 <= k < t1.len() implies !is_ws_char(#[trigger] t1[k]) by {
            assert(t1[k] == tap);
        }
        assert(rest1[0] == ' ');
        lemma_split_tokens_leading(t1, rest1);
        assert(rest1.drop_first() =~= t2 + (seq![' '] + (wt2 + r)));
        assert(split_tokens(rest1) == split_tokens(rest1.drop_first()));
        let rest2 = seq![' '] + (wt2 + r);
        assert forall|k: int| 0 <= k < t2.len() implies !is_ws_char(#[trigger] t2[k]) by {
            assert(t2[k] == tap);
        }
        assert(rest2[0] == ' ');
        lemma_split_tokens_leading(t2, rest2);
        assert(rest2.drop_first() =~= wt2 + r);
        assert(split_tokens(rest2) == split_tokens(rest2.drop_first()));
        assert(split_tokens(s) == seq![t1] + (seq![t2] + (pair_tokens(cells, tap, w.drop_first())
            + split_tokens(r))));
        assert(pair_tokens(cells, tap, w) == seq![t1, t2] + pair_tokens(
            cells,
            tap,
            w.drop_first(),
        ));
        assert(split_tokens(s) =~~= pair_tokens(cells, tap, w) + split_tokens(r));
    }
}

/// A word's pair tokens decode back to exactly that word: the token
/// lengths name the cell each character was found in.
pub proof fn lemma_decode_pair_tokens(cells: Seq<char>, tap: char, w: Seq<char>)
    requires
        round_trip_grid(cells, tap),
        forall|i: int| 0 <= i < w.len() ==> word_char(cells, #[trigger] w[i]),
    ensures
        pair_tokens(cells, tap, w).len() == 2 * w.len(),
        decode_pairs(cells, pair_tokens(cells, tap, w)) == Ok::<Seq<char>, TapcodeError>(w),
    decreases w.len(),
{
    if w.len() == 0 {
        assert(decode_pairs(cells, pair_tokens(cells, tap, w)) == Ok::<Seq<char>, TapcodeError>(
            Seq::<char>::empty(),
        ));
        assert(w =~= Seq::<char>::empty());
    } else {
        lemma_find_props(cells, w[0]);
        let rc = find_in_cells(cells, w[0])->Some_0;
        assert forall|i: int| 0 <= i < w.drop_first().len() implies word_char(
            cells,
            #[trigger] w.drop_first()[i],
        ) by {
            assert(w.drop_first()[i] == w[i + 1]);
        }
        lemma_decode_pair_tokens(cells, tap, w.drop_first());
        let toks = pair_tokens(cells, tap, w);
        let tail = pair_tokens(cells, tap, w.drop_first());
        assert(toks == seq![marks(tap, rc.0 + 1), marks(tap, rc.1 + 1)] + tail);
        assert(toks.len() == 2 + tail.len());
        assert(toks[0] == marks(tap, rc.0 + 1));
        assert(toks[1] == marks(tap, rc.1 + 1));
        assert(toks[0].len() as int - 1 == rc.0);
        assert(toks[1].len() as int - 1 == rc.1);
        assert(toks.skip(2) =~= tail);
        assert(cells[5 * rc.0 + rc.1] == w[0]);
        assert(seq![w[0]] + w.drop_first() =~= w);
    }
}

/// Decoding a word list only reads each word's tokens: replacing the last
/// word by one with the same tokens leaves the result unchanged.
pub proof fn lemma_decode_words_last_tokens(cells: Seq<char>, ws: Seq<Seq<char>>, w2: Seq<char>)
    requires
        ws.len() >= 1,
        split_tokens(w2) == split_tokens(ws.last()),
    ensures
        decode_words(cells, ws.drop_last().push(w2)) == decode_words(cells, ws),
    decreases ws.len(),
{
    let ws2 = ws.drop_last().push(w2);
    assert(ws2.len() == ws.len());
    if ws.len() == 1 {
        assert(ws2 =~~= seq![w2]);
        assert(ws.last() == ws[0]);
        assert(decode_word(cells, w2) == decode_word(cells, ws[0]));
        assert(ws2[0] == w2);
        assert(ws2.drop_first() =~= Seq::<Seq<char>>::empty());
        assert(ws.drop_first() =~= Seq::<Seq<char>>::empty());
    } else {
        assert(ws2[0] == ws[0]);
        assert(ws2.drop_first() =~~= ws.drop_first().drop_last().push(w2));
        assert(ws.drop_first().last() == ws.last());
        lemma_decode_words_last_tokens(cells, ws.drop_first(), w2);
        assert(decode_words(cells, ws2.drop_first()) == decode_words(cells, ws.drop_first()));
    }
}

/// The heart of the round trip: a canonical message encodes without error
/// to text that starts with a tap mark and ends with a tap mark then a
/// space, and whose words decode back to the message plus one trailing
/// space.
#[verifier::rlimit(50)]
pub proof fn lemma_round_trip_words(cells: Seq<char>, tap: char, m: Seq<char>)
    requires
        round_trip_grid(cells, tap),
        simple_message(cells, m),
    ensures
        encode_chars(cells, tap, m) is Ok,
        ({
            let e = encode_chars(cells, tap, m)->Ok_0;
            &&& e.len() >= 2
            &&& e[0] == tap
            &&& e[e.len() - 1] == ' '
            &&& e[e.len() - 2] == tap
            &&& decode_words(cells, split_words(e)) == Ok::<Seq<char>, TapcodeError>(m.push(' '))
        }),
    decreases m.len(),
{
    lemma_first_index_props(m, ' ');
    match first_index(m, ' ') {
        None => {
            assert forall|i: int| 0 <= i < m.len() implies word_char(cells, #[trigger] m[i]) by {
                assert(m[i] != ' ');
            }
            lemma_word_encode(cells, tap, m);
            lemma_word_taps_shape(cells, tap, m);
            let e = word_taps(cells, tap, m);
            lemma_split_words_bar_free(e);
            assert(e + Seq::<char>::empty() =~= e);
            lemma_word_taps_tokens(cells, tap, m, Seq::<char>::empty());
            assert(split_tokens(Seq::<char>::empty()) == Seq::<Seq<char>>::empty());
            assert(pair_tokens(cells, tap, m) + Seq::<Seq<char>>::empty() =~= pair_tokens(
                cells,
                tap,
                m,
            ));
            assert(split_tokens(e) == pair_tokens(cells, tap, m));
            lemma_decode_pair_tokens(cells, tap, m);
            assert(decode_word(cells, e) == Ok::<Seq<char>, TapcodeError>(m));
            assert(seq![e][0] == e);
            assert(seq![e].drop_first() =~= Seq::<Seq<char>>::empty());
            assert(decode_words(cells, Seq::<Seq<char>>::empty()) == Ok::<Seq<char>, TapcodeError>(
                Seq::<char>::empty(),
            ));
            assert(m + seq![' '] + Seq::<char>::empty() =~= m.push(' '));
            assert(decode_words(cells, seq![e]) == Ok::<Seq<char>, TapcodeError>(m.push(' ')));
        },
        Some(k) => {
            assert(m[k] == ' ');
            assert(k >= 1) by {
                assert(m[0] != ' ');
            }
            assert(k < m.len() - 1) by {
                assert(m[m.len() - 1] != ' ');
            }
            let w = m.subrange(0, k);
            let rest = m.skip(k + 1);
            assert forall|i: int| 0 <= i < w.len() implies word_char(cells, #[trigger] w[i]) by {
                assert(w[i] == m[i]);
                assert(m[i] != ' ');
            }
            assert(rest.len() >= 1);
            assert forall|i: int| 0 <= i < rest.len() implies (#[trigger] rest[i]) == ' '
                || word_char(cells, rest[i]) by {
                assert(rest[i] == m[k + 1 + i]);
            }
            assert(rest[0] == m[k + 1]);
            assert(rest[0] != ' ') by {
                assert(!(m[k] == ' ' && m[k + 1] == ' '));
            }
            assert(rest[rest.len() - 1] == m[m.len() - 1]);
            assert forall|i: int| 0 <= i < rest.len() - 1 implies !((#[trigger] rest[i]) == ' '
                && rest[i + 1] == ' ') by {
                assert(rest[i] == m[k + 1 + i]);
                assert(rest[i + 1] == m[k + 1 + i + 1]);
            }
            assert(simple_message(cells, rest));
            lemma_round_trip_words(cells, tap, rest);
            let e2 = encode_chars(cells, tap, rest)->Ok_0;
            lemma_word_encode(cells, tap, w);
            lemma_word_taps_shape(cells, tap, w);
            let wt = word_taps(cells, tap, w);

            let b = seq![' '] + rest;
            assert(m =~= w + b);
            lemma_encode_chars_concat(cells, tap, w, b);
            assert(b[0] == ' ');
            assert(encode_char(cells, tap, ' ') == Ok::<Seq<char>, TapcodeError>(seq!['|']));
            assert(b.drop_first() =~= rest);
            assert(encode_chars(cells, tap, b) == Ok::<Seq<char>, TapcodeError>(seq!['|'] + e2));
            let e = encode_chars(cells, tap, m)->Ok_0;
            assert(e == wt + (seq!['|'] + e2));
            assert(e =~= wt + seq!['|'] + e2);

            assert(e[0] == wt[0]);
            assert(e[e.len() - 1] == e2[e2.len() - 1]);
            assert(e[e.len() - 2] == e2[e2.len() - 2]);

            lemma_split_words_concat(wt, e2);
            assert(split_words(e) == seq![wt] + split_words(e2));
            assert(wt + Seq::<char>::empty() =~= wt);
            lemma_word_taps_tokens(cells, tap, w, Seq::<char>::empty());
            assert(split_tokens(Seq::<char>::empty()) == Seq::<Seq<char>>::empty());
            assert(pair_tokens(cells, tap, w) + Seq::<Seq<char>>::empty() =~= pair_tokens(
                cells,
                tap,
                w,
            ));
            assert(split_tokens(wt) == pair_tokens(cells, tap, w));
            lemma_decode_pair_tokens(cells, tap, w);
            assert(decode_word(cells, wt) == Ok::<Seq<char>, TapcodeError>(w));
            let ws = split_words(e);
            assert(ws[0] == wt);
            assert(ws.drop_first() =~= split_words(e2));
            assert(decode_words(cells, split_words(e2)) == Ok::<Seq<char>, TapcodeError>(
                rest.push(' '),
            ));
            assert(decode_words(cells, ws) == Ok::<Seq<char>, TapcodeError>(
                w + seq![' '] + rest.push(' '),
            ));
            assert(w + seq![' '] + rest.push(' ') =~= m.push(' '));
        },
    }
}

/// Law: under a well-formed grid whose tap marker is neither whitespace
/// nor the word separator `|`, every message of grid characters with
/// single spaces between words encodes successfully, and decoding the
/// encoded text gives back exactly the message.
pub proof fn lemma_encode_decode_round_trip(cells: Seq<char>, tap: char, m: Seq<char>)
    requires
        round_trip_grid(cells, tap),
        simple_message(cells, m),
    ensures
        spec_encode(cells, tap, m) is Ok,
        spec_decode(cells, spec_encode(cells, tap, m)->Ok_0) == Ok::<Seq<char>, TapcodeError>(m),
{
    assert forall|i: int| 0 <= i < m.len() implies lower_char(#[trigger] m[i]) == m[i] by {
        if m[i] == ' ' {
        } else {
            lemma_find_props(cells, m[i]);
            let rc = find_in_cells(cells, m[i])->Some_0;
            assert(cells[5 * rc.0 + rc.1] == m[i]);
        }
    }
    assert(lower_seq(m) =~= m);
    assert(!is_ws_char(m[0]));
    assert(!is_blank(m));
    lemma_round_trip_words(cells, tap, m);
    let e = encode_chars(cells, tap, m)->Ok_0;
    assert(is_ws_char(e[e.len() - 1]));
    let t = e.drop_last();
    assert(trim_end(e) == trim_end(t));
    assert(t.len() == e.len() - 1 >= 1);
    assert(t[t.len() - 1] == e[e.len() - 2]);
    lemma_trim_end_id(t);
    assert(spec_encode(cells, tap, m) == Ok::<Seq<char>, TapcodeError>(t));

    assert(t[0] == e[0] && e[0] == tap);
    assert(!is_blank(t));
    assert(t.push(' ') =~= e);
    lemma_split_words_push(t, ' ');
    lemma_split_words_len(t);
    let tw = split_words(t);
    assert(split_words(e) == tw.drop_last().push(tw.last().push(' ')));
    lemma_split_tokens_push_ws(tw.last(), ' ');
    lemma_decode_words_last_tokens(cells, tw, tw.last().push(' '));
    assert(decode_words(cells, tw) == decode_words(cells, split_words(e)));
    assert(decode_words(cells, tw) == Ok::<Seq<char>, TapcodeError>(m.push(' ')));
    assert(!is_ws_char(m[m.len() - 1]));
    lemma_trim_end_push_ws(m, ' ');
    assert(spec_decode(cells, t) == Ok::<Seq<char>, TapcodeError>(m));
}

/// Law: saving a grid writes its 25 cells as one string, and loading feeds
/// that string back through construction, which lower-cases it. A
/// well-formed grid's cells are already fixed under lower-casing, so the
/// grid constructed from its own cell string has exactly the same
/// cells — and, the cipher's behaviour being a function of the cells and
/// the marker alone, the same encode and decode behaviour.
pub proof fn lemma_grid_file_round_trip(g: Tapcode)
    requires
        g.wf(),
    ensures
        g.cell_seq().len() == 25,
        lower_seq(g.cell_seq()) == g.cell_seq(),
{
    assert(lower_seq(g.cell_seq()) =~= g.cell_seq());
}

} // verus!

//! The tap-code cipher: a 5×5 character grid with a configurable tap
//! marker, and the encode and decode operations over it, each specified in
//! full against the grammar in `text`.
use crate::text::all_whitespace;
use crate::text::copy_range;
use crate::text::first_index;
use crate::text::lemma_split_tokens_all_nonempty;
use crate::text::lemma_split_words_bar_free;
use crate::text::lemma_split_words_concat;
use crate::text::token_lengths;
use crate::text::is_blank;
use crate::text::is_ws_char;
use crate::text::is_whitespace_char;
use crate::text::lemma_first_index_at;
use crate::text::lemma_lower_char_idempotent;
use crate::text::lower_char;
use crate::text::lower_seq;
use crate::text::lower_vec;
use crate::text::split_tokens;
use crate::text::split_words;
use crate::text::str_to_chars;
use crate::text::trim_end;
use crate::text::trim_end_vec;
use vstd::prelude::*;
use vstd::string::StrSliceExecFns;

verus! {

/// Why a cipher operation was rejected.
#[derive(Clone, Copy, Debug, PartialEq, Eq)]
pub enum TapcodeError {
    /// Grid construction was given an alphabet whose length is not 25.
    InvalidAlphabetLength,
    /// Encode was given a blank message.
    EmptyMessage,
    /// Decode was given blank input.
    EmptyInput,
    /// Encode met a non-whitespace character that the grid does not hold.
    CharacterNotInGrid,
    /// Decode met a word with an odd number of tap tokens.
    MalformedTapSequence,
    /// Decode met a tap count outside the 5×5 grid.
    InvalidCoordinates,
    /// A grid file did not hold exactly 25 characters.
    InvalidGridFileLength,
    /// A grid file could not be read at all.
    GridFileUnreadable,
}

impl TapcodeError {
    /// The human-readable text for this error.
    pub fn message(&self) -> (m: &'static str)
        ensures
            m@ == match *self {
                TapcodeError::InvalidAlphabetLength => "Alphabet must contain exactly 25 characters."@,
                TapcodeError::EmptyMessage => "Message cannot be empty."@,
                TapcodeError::EmptyInput => "Tapcode input cannot be empty."@,
                TapcodeError::CharacterNotInGrid => "Message contains characters not in the grid."@,
                TapcodeError::MalformedTapSequence => "Invalid Tapcode input."@,
                TapcodeError::InvalidCoordinates => "Invalid Tapcode coordinates."@,
                TapcodeError::InvalidGridFileLength => "Grid file must contain exactly 25 characters."@,
                TapcodeError::GridFileUnreadable => "Could not read grid file. Ensure it exists and is accessible."@,
            },
    {
        match self {
            TapcodeError::InvalidAlphabetLength => "Alphabet must contain exactly 25 characters.",
            TapcodeError::EmptyMessage => "Message cannot be empty.",
            TapcodeError::EmptyInput => "Tapcode input cannot be empty.",
            TapcodeError::CharacterNotInGrid => "Message contains characters not in the grid.",
            TapcodeError::MalformedTapSequence => "Invalid Tapcode input.",
            TapcodeError::InvalidCoordinates => "Invalid Tapcode coordinates.",
            TapcodeError::InvalidGridFileLength => "Grid file must contain exactly 25 characters.",
            TapcodeError::GridFileUnreadable => "Could not read grid file. Ensure it exists and is accessible.",
        }
    }
}

/// `n` repetitions of the tap marker.
pub open spec fn marks(tap: char, n: int) -> Seq<char> {
    Seq::new(n as nat, |i: int| tap)
}

/// The first grid position holding `ch`, scanning cells in row-major order,
/// as 0-indexed (row, column) coordinates.
pub open spec fn find_in_cells(cells: Seq<char>, ch: char) -> Option<(int, int)> {
    match first_index(cells, ch) {
        Some(i) => Some((i / 5, i % 5)),
        None => None,
    }
}

/// What one message character contributes to the encoded text: whitespace
/// becomes the word separator `|` (whatever the grid holds); any other
/// character is looked up in the grid and becomes `row+1` tap marks, a
/// space, `col+1` tap marks and a space; a character found nowhere is the
/// error.
pub open spec fn encode_char(cells: Seq<char>, tap: char, c: char) -> Result<
    Seq<char>,
    TapcodeError,
> {
    if is_ws_char(c) {
        Ok(seq!['|'])
    } else {
        match find_in_cells(cells, c) {
            Some(rc) => Ok(marks(tap, rc.0 + 1) + seq![' '] + marks(tap, rc.1 + 1) + seq![' ']),
            None => Err(TapcodeError::CharacterNotInGrid),
        }
    }
}

/// The encoded text for a character sequence: each character's contribution
/// in order, stopping at the first character that fails.
pub open spec fn encode_chars(cells: Seq<char>, tap: char, s: Seq<char>) -> Result<
    Seq<char>,
    TapcodeError,
>
    decreases s.len(),
{
    if s.len() == 0 {
        Ok(Seq::<char>::empty())
    } else {
        match encode_char(cells, tap, s[0]) {
            Ok(t) => match encode_chars(cells, tap, s.drop_first()) {
                Ok(r) => Ok(t + r),
                Err(e) => Err(e),
            },
            Err(e) => Err(e),
        }
    }
}

/// What `encode` returns: a blank message is rejected as empty; otherwise
/// the lower-cased message is encoded and trailing whitespace trimmed.
pub open spec fn spec_encode(cells: Seq<char>, tap: char, m: Seq<char>) -> Result<
    Seq<char>,
    TapcodeError,
> {
    if is_blank(m) {
        Err(TapcodeError::EmptyMessage)
    } else {
        match encode_chars(cells, tap, lower_seq(m)) {
            Ok(s) => Ok(trim_end(s)),
            Err(e) => Err(e),
        }
    }
}

/// The characters a word's tokens decode to, taking tokens pairwise: each
/// pair's lengths, less one, are the row and column looked up in the grid;
/// coordinates outside the 5×5 grid fail.
pub open spec fn decode_pairs(cells: Seq<char>, toks: Seq<Seq<char>>) -> Result<
    Seq<char>,
    TapcodeError,
>
    decreases toks.len(),
{
    if toks.len() == 0 {
        Ok(Seq::<char>::empty())
    } else if toks.len() == 1 {
        Err(TapcodeError::InvalidCoordinates)
    } else {
        let row = toks[0].len() as int - 1;
        let col = toks[1].len() as int - 1;
        if 0 <= row < 5 && 0 <= col < 5 {
            match decode_pairs(cells, toks.skip(2)) {
                Ok(r) => Ok(seq![cells[5 * row + col]] + r),
                Err(e) => Err(e),
            }
        } else {
            Err(TapcodeError::InvalidCoordinates)
        }
    }
}

/// What one `|`-delimited word decodes to: its whitespace-separated tokens
/// must pair up evenly, and each pair names a grid cell.
pub open spec fn decode_word(cells: Seq<char>, w: Seq<char>) -> Result<Seq<char>, TapcodeError> {
    let toks = split_tokens(w);
    if toks.len() % 2 != 0 {
        Err(TapcodeError::MalformedTapSequence)
    } else {
        decode_pairs(cells, toks)
    }
}

/// What a sequence of words decodes to: each word's characters followed by
/// one space, stopping at the first word that fails.
pub open spec fn decode_words(cells: Seq<char>, ws: Seq<Seq<char>>) -> Result<
    Seq<char>,
    TapcodeError,
>
    decreases ws.len(),
{
    if ws.len() == 0 {
        Ok(Seq::<char>::empty())
    } else {
        match decode_word(cells, ws[0]) {
            Ok(d) => match decode_words(cells, ws.drop_first()) {
                Ok(r) => Ok(d + seq![' '] + r),
                Err(e) => Err(e),
            },
            Err(e) => Err(e),
        }
    }
}

/// What `decode` returns: blank input is rejected as empty; otherwise the
/// input is split on `|` into words, each word is decoded, and trailing
/// whitespace is trimmed from the result.
pub open spec fn spec_decode(cells: Seq<char>, code: Seq<char>) -> Result<
    Seq<char>,
    TapcodeError,
> {
    if is_blank(code) {
        Err(TapcodeError::EmptyInput)
    } else {
        match decode_words(cells, split_words(code)) {
            Ok(s) => Ok(trim_end(s)),
            Err(e) => Err(e),
        }
    }
}

/// Splitting a message splits its encoding: the encoding of `a + b` is the
/// encoding of `a` followed by that of `b`, failing where either fails.
pub proof fn lemma_encode_chars_concat(cells: Seq<char>, tap: char, a: Seq<char>, b: Seq<char>)
    ensures
        encode_chars(cells, tap, a + b) == match encode_chars(cells, tap, a) {
            Ok(ea) => match encode_chars(cells, tap, b) {
                Ok(eb) => Ok::<Seq<char>, TapcodeError>(ea + eb),
                Err(e) => Err(e),
            },
            Err(e) => Err(e),
        },
    decreases a.len(),
{
    if a.len() == 0 {
        assert(a + b =~= b);
        if encode_chars(cells, tap, b) is Ok {
            assert(Seq::<char>::empty() + encode_chars(cells, tap, b)->Ok_0 =~= encode_chars(
                cells,
                tap,
                b,
            )->Ok_0);
        }
    } else {
        assert((a + b)[0] == a[0]);
        assert((a + b).drop_first() =~= a.drop_first() + b);
        lemma_encode_chars_concat(cells, tap, a.drop_first(), b);
        if encode_char(cells, tap, a[0]) is Ok && encode_chars(cells, tap, a.drop_first()) is Ok
            && encode_chars(cells, tap, b) is Ok {
            let t = encode_char(cells, tap, a[0])->Ok_0;
            let ra = encode_chars(cells, tap, a.drop_first())->Ok_0;
            let eb = encode_chars(cells, tap, b)->Ok_0;
            assert(t + (ra + eb) =~= (t + ra) + eb);
        }
    }
}

/// Relies on `String::push`: it appends exactly one character.
#[verifier::external_body]
fn push_char(s: &mut String, c: char)
    ensures
        final(s)@ == old(s)@.push(c),
{
    s.push(c);
}

/// The characters of the vector, as one string.
fn chars_to_string(v: &Vec<char>) -> (s: String)
    ensures
        s@ == v@,
{
    let mut s = String::new();
    assert(s@ =~= v@.take(0));
    let mut i: usize = 0;
    while i < v.len()
        invariant
            i <= v@.len(),
            s@ == v@.take(i as int),
        decreases v@.len() - i,
    {
        push_char(&mut s, v[i]);
        assert(v@.take(i as int).push(v@[i as int]) =~= v@.take((i + 1) as int));
        i += 1;
    }
    assert(v@.take(v@.len() as int) =~= v@);
    s
}

/// Appends `n` copies of the tap marker to the output.
fn push_marks(out: &mut Vec<char>, tap: char, n: usize)
    ensures
        final(out)@ == old(out)@ + marks(tap, n as int),
{
    let mut j: usize = 0;
    while j < n
        invariant
            j <= n,
            out@ == old(out)@ + marks(tap, j as int),
        decreases n - j,
    {
        out.push(tap);
        assert(old(out)@ + marks(tap, (j + 1) as int) =~= (old(out)@ + marks(tap, j as int)).push(
            tap,
        ));
        j += 1;
    }
}

/// Checks loaded grid-file content: it must hold exactly 25 characters.
/// The length is counted in characters; on the ASCII grids the cipher is
/// meant for this equals the byte count of the file.
pub fn check_grid_file_content(content: &str) -> (r: Result<(), TapcodeError>)
    ensures
        r is Ok <==> content@.len() == 25,
        r is Err ==> r == Err::<(), TapcodeError>(TapcodeError::InvalidGridFileLength),
{
    if content.unicode_len() == 25 {
        Ok(())
    } else {
        Err(TapcodeError::InvalidGridFileLength)
    }
}

/// A tap-code cipher: a 5×5 grid of characters, stored row-major, and the
/// tap marker symbol used to render tap counts.
pub struct Tapcode {
    cells: Vec<char>,
    tap_symbol: char,
}

impl Tapcode {
    /// The grid's 25 cells in row-major order.
    pub closed spec fn cell_seq(self) -> Seq<char> {
        self.cells@
    }

    /// The configured tap marker.
    pub closed spec fn spec_tap_symbol(self) -> char {
        self.tap_symbol
    }

    /// A well-formed grid: exactly 25 cells, each fixed under lower-casing
    /// (construction lower-cases the alphabet, so this always holds).
    pub open spec fn wf(self) -> bool {
        &&& self.cell_seq().len() == 25
        &&& forall|i: int|
            0 <= i < 25 ==> lower_char(#[trigger] self.cell_seq()[i]) == self.cell_seq()[i]
    }

    /// Builds a grid from an alphabet of exactly 25 characters, lower-cased,
    /// chunked row-major into 5 rows of 5; any other length is rejected.
    /// The length is counted in characters, which on the ASCII alphabets
    /// the cipher is meant for equals the byte count; counting characters
    /// is what keeps the grid exactly 5×5. The tap marker is stored as
    /// given, without validation.
    pub fn new(alphabet: &str, tap_symbol: char) -> (r: Result<Tapcode, TapcodeError>)
        ensures
            match r {
                Ok(t) => alphabet@.len() == 25 && t.wf() && t.cell_seq() == lower_seq(alphabet@)
                    && t.spec_tap_symbol() == tap_symbol,
                Err(e) => alphabet@.len() != 25 && e == TapcodeError::InvalidAlphabetLength,
            },
    {
        let n: usize = alphabet.unicode_len();
        if n != 25 {
            return Err(TapcodeError::InvalidAlphabetLength);
        }
        let chars = str_to_chars(alphabet);
        let cells = lower_vec(&chars);
        proof {
            assert forall|i: int| 0 <= i < 25 implies lower_char(cells@[i]) == cells@[i] by {
                assert(cells@[i] == lower_char(alphabet@[i]));
                lemma_lower_char_idempotent(alphabet@[i]);
            }
        }
        Ok(Tapcode { cells, tap_symbol })
    }

    /// The first grid position holding `ch`, scanning rows then columns.
    pub fn find_char(&self, ch: char) -> (r: Option<(usize, usize)>)
        requires
            self.wf(),
        ensures
            match r {
                Some(rc) => rc.0 < 5 && rc.1 < 5 && find_in_cells(self.cell_seq(), ch) == Some(
                    (rc.0 as int, rc.1 as int),
                ),
                None => find_in_cells(self.cell_seq(), ch) is None,
            },
    {
        let mut i: usize = 0;
        while i < self.cells.len()
            invariant
                self.wf(),
                i <= 25,
                self.cells@.len() == 25,
                forall|k: int| 0 <= k < i ==> self.cells@[k] != ch,
            decreases 25 - i,
        {
            if self.cells[i] == ch {
                proof {
                    lemma_first_index_at(self.cells@, ch, i as int);
                }
                return Some((i / 5, i % 5));
            }
            i += 1;
        }
        proof {
            lemma_first_index_at(self.cells@, ch, 25);
        }
        None
    }

    /// Encodes a message. In the lower-cased message, each whitespace
    /// character becomes the word separator `|`, and every other character
    /// becomes `row+1` tap marks, a space, `col+1` tap marks and a space;
    /// trailing whitespace is trimmed from the result. A blank message is
    /// rejected, as is one holding a non-whitespace character absent from
    /// the grid.
    pub fn encode(&self, message: &str) -> (r: Result<String, TapcodeError>)
        requires
            self.wf(),
        ensures
            match r {
                Ok(s) => spec_encode(self.cell_seq(), self.spec_tap_symbol(), message@) == Ok::<
                    Seq<char>,
                    TapcodeError,
                >(s@),
                Err(e) => spec_encode(self.cell_seq(), self.spec_tap_symbol(), message@) == Err::<
                    Seq<char>,
                    TapcodeError,
                >(e),
            },
    {
        let chars = str_to_chars(message);
        if all_whitespace(&chars) {
            return Err(TapcodeError::EmptyMessage);
        }
        let low = lower_vec(&chars);
        let ghost cs = self.cell_seq();
        let ghost tap = self.spec_tap_symbol();
        let ghost lm = lower_seq(message@);
        let mut out: Vec<char> = Vec::new();
        let mut i: usize = 0;
        while i < low.len()
            invariant
                self.wf(),
                cs == self.cell_seq(),
                tap == self.spec_tap_symbol(),
                low@ == lm,
                lm == lower_seq(message@),
                !is_blank(message@),
                i <= lm.len(),
                encode_chars(cs, tap, lm.take(i as int)) == Ok::<Seq<char>, TapcodeError>(out@),
            decreases low@.len() - i,
        {
            let c = low[i];
            let ghost prev = out@;
            let ghost step = encode_char(cs, tap, c);
            if is_whitespace_char(c) {
                out.push('|');
                proof {
                    assert(step == Ok::<Seq<char>, TapcodeError>(seq!['|']));
                    assert(out@ =~= prev + step->Ok_0);
                }
            } else {
                match self.find_char(c) {
                    Some((row, col)) => {
                        push_marks(&mut out, self.tap_symbol, row + 1);
                        out.push(' ');
                        push_marks(&mut out, self.tap_symbol, col + 1);
                        out.push(' ');
                        proof {
                            assert(step == Ok::<Seq<char>, TapcodeError>(
                                marks(tap, row as int + 1) + seq![' '] + marks(tap, col as int + 1)
                                    + seq![' '],
                            ));
                            assert(out@ =~= prev + step->Ok_0);
                        }
                    },
                    None => {
                        proof {
                            assert(step == Err::<Seq<char>, TapcodeError>(
                                TapcodeError::CharacterNotInGrid,
                            ));
                            lemma_encode_chars_concat(cs, tap, lm.take(i as int), lm.skip(i as int));
                            assert(lm.take(i as int) + lm.skip(i as int) =~= lm);
                            assert(lm.skip(i as int)[0] == lm[i as int]);
                            assert(encode_chars(cs, tap, lm.skip(i as int)) == Err::<
                                Seq<char>,
                                TapcodeError,
                            >(TapcodeError::CharacterNotInGrid));
                            assert(encode_chars(cs, tap, lm) == Err::<Seq<char>, TapcodeError>(
                                TapcodeError::CharacterNotInGrid,
                            ));
                            assert(!is_blank(message@));
                            assert(spec_encode(cs, tap, message@) == Err::<Seq<char>, TapcodeError>(
                                TapcodeError::CharacterNotInGrid,
                            ));
                        }
                        return Err(TapcodeError::CharacterNotInGrid);
                    },
                }
            }
            proof {
                lemma_encode_chars_concat(cs, tap, lm.take(i as int), seq![lm[i as int]]);
                assert(lm.take(i as int) + seq![lm[i as int]] =~= lm.take((i + 1) as int));
                assert(seq![lm[i as int]].drop_first() =~= Seq::<char>::empty());
                assert(encode_chars(cs, tap, Seq::<char>::empty()) == Ok::<Seq<char>, TapcodeError>(
                    Seq::<char>::empty(),
                ));
                assert(seq![lm[i as int]][0] == lm[i as int]);
                assert(encode_chars(cs, tap, seq![lm[i as int]]) == match step {
                    Ok(t) => Ok::<Seq<char>, TapcodeError>(t + Seq::<char>::empty()),
                    Err(e) => Err(e),
                });
                assert(step->Ok_0 + Seq::<char>::empty() =~= step->Ok_0);
                assert(encode_chars(cs, tap, lm.take((i + 1) as int)) == Ok::<
                    Seq<char>,
                    TapcodeError,
                >(out@));
            }
            i += 1;
        }
        proof {
            assert(lm.take(low@.len() as int) =~= lm);
        }
        trim_end_vec(&mut out);
        let s = chars_to_string(&out);
        Ok(s)
    }

    /// Decodes tapcode text. The input splits on `|` into words; each word's
    /// whitespace-separated tokens pair up as (row+1, col+1) tap counts,
    /// each naming one grid character; decoded words are joined by single
    /// spaces and trailing whitespace is trimmed. Blank input, a word with
    /// an odd token count, and a tap count outside the grid are rejected.
    pub fn decode(&self, code: &str) -> (r: Result<String, TapcodeError>)
        requires
            self.wf(),
        ensures
            match r {
                Ok(s) => spec_decode(self.cell_seq(), code@) == Ok::<Seq<char>, TapcodeError>(s@),
                Err(e) => spec_decode(self.cell_seq(), code@) == Err::<Seq<char>, TapcodeError>(e),
            },
    {
        let chars = str_to_chars(code);
        if all_whitespace(&chars) {
            return Err(TapcodeError::EmptyInput);
        }
        let ghost cs = self.cell_seq();
        let n = chars.len();
        let mut out: Vec<char> = Vec::new();
        let mut start: usize = 0;
        proof {
            assert(code@.skip(0) =~= code@);
            if decode_words(cs, split_words(code@)) is Ok {
                assert(Seq::<char>::empty() + decode_words(cs, split_words(code@))->Ok_0
                    =~= decode_words(cs, split_words(code@))->Ok_0);
            }
        }
        loop
            invariant_except_break
                self.wf(),
                cs == self.cell_seq(),
                chars@ == code@,
                !is_blank(code@),
                start <= n,
                n == chars@.len(),
                decode_words(cs, split_words(code@)) == match decode_words(
                    cs,
                    split_words(code@.skip(start as int)),
                ) {
                    Ok(rest) => Ok::<Seq<char>, TapcodeError>(out@ + rest),
                    Err(e) => Err::<Seq<char>, TapcodeError>(e),
                },
            ensures
                decode_words(cs, split_words(code@)) == Ok::<Seq<char>, TapcodeError>(out@),
            decreases n - start,
        {
            let mut j = start;
            while j < n && chars[j] != '|'
                invariant
                    start <= j <= n,
                    n == chars@.len(),
                    chars@ == code@,
                    forall|k: int| start <= k < j ==> code@[k] != '|',
                decreases n - j,
            {
                j += 1;
            }
            let chunk = copy_range(&chars, start, j);
            let lens = token_lengths(&chunk);
            let ghost wseq = code@.subrange(start as int, j as int);
            let ghost toks = split_tokens(wseq);
            let ghost words_here = split_words(code@.skip(start as int));
            proof {
                assert forall|q: int| 0 <= q < wseq.len() implies wseq[q] != '|' by {
                    assert(wseq[q] == code@[start + q]);
                }
                if j < n {
                    assert(code@[j as int] == '|');
                    assert(code@.skip(start as int) =~= wseq + seq!['|'] + code@.skip(
                        (j + 1) as int,
                    ));
                    lemma_split_words_concat(wseq, code@.skip((j + 1) as int));
                    assert(words_here == seq![wseq] + split_words(code@.skip((j + 1) as int)));
                    assert(words_here[0] == wseq);
                    assert(words_here.drop_first() =~= split_words(code@.skip((j + 1) as int)));
                } else {
                    assert(code@.skip(start as int) =~= wseq);
                    lemma_split_words_bar_free(wseq);
                    assert(words_here == seq![wseq]);
                    assert(words_here[0] == wseq);
                    assert(words_here.drop_first() =~= Seq::<Seq<char>>::empty());
                }
            }
            if lens.len() % 2 != 0 {
                proof {
                    assert(decode_word(cs, wseq) == Err::<Seq<char>, TapcodeError>(
                        TapcodeError::MalformedTapSequence,
                    ));
                    assert(decode_words(cs, words_here) == Err::<Seq<char>, TapcodeError>(
                        TapcodeError::MalformedTapSequence,
                    ));
                }
                return Err(TapcodeError::MalformedTapSequence);
            }
            let ghost wbase = out@;
            proof {
                assert(toks.skip(0) =~= toks);
                assert(out@.skip(wbase.len() as int) =~= Seq::<char>::empty());
                if decode_pairs(cs, toks) is Ok {
                    assert(Seq::<char>::empty() + decode_pairs(cs, toks)->Ok_0 =~= decode_pairs(
                        cs,
                        toks,
                    )->Ok_0);
                }
            }
            let mut p: usize = 0;
            while p < lens.len()
                invariant
                    self.wf(),
                    cs == self.cell_seq(),
                    !is_blank(code@),
                    p <= lens@.len(),
                    p % 2 == 0,
                    lens@.len() % 2 == 0,
                    toks == split_tokens(wseq),
                    lens@.len() == toks.len(),
                    words_here.len() >= 1,
                    words_here[0] == wseq,
                    decode_words(cs, split_words(code@)) == match decode_words(cs, words_here) {
                        Ok(rest) => Ok::<Seq<char>, TapcodeError>(wbase + rest),
                        Err(e) => Err::<Seq<char>, TapcodeError>(e),
                    },
                    forall|q: int| 0 <= q < lens@.len() ==> #[trigger] lens@[q] as int
                        == toks[q].len(),
                    out@.len() >= wbase.len(),
                    out@.take(wbase.len() as int) == wbase,
                    decode_pairs(cs, toks) == match decode_pairs(cs, toks.skip(p as int)) {
                        Ok(rest) => Ok::<Seq<char>, TapcodeError>(
                            out@.skip(wbase.len() as int) + rest,
                        ),
                        Err(e) => Err::<Seq<char>, TapcodeError>(e),
                    },
                decreases lens@.len() - p,
            {
                proof {
                    lemma_split_tokens_all_nonempty(wseq);
                    assert(p + 1 < lens@.len());
                    assert(lens@[p as int] >= 1 && lens@[p as int + 1] >= 1);
                }
                let row = lens[p] - 1;
                let col = lens[p + 1] - 1;
                let ghost prest = toks.skip(p as int);
                proof {
                    assert(prest.len() == toks.len() - p >= 2);
                    assert(prest[0] == toks[p as int]);
                    assert(prest[1] == toks[p as int + 1]);
                    assert(prest[0].len() as int - 1 == row as int);
                    assert(prest[1].len() as int - 1 == col as int);
                }
                if row < 5 && col < 5 {
                    let ch = self.cells[5 * row + col];
                    let ghost prev = out@;
                    out.push(ch);
                    proof {
                        assert(toks.skip(p as int).skip(2) =~= toks.skip(p as int + 2));
                        assert(decode_pairs(cs, prest) == match decode_pairs(
                            cs,
                            toks.skip(p as int + 2),
                        ) {
                            Ok(rest) => Ok::<Seq<char>, TapcodeError>(
                                seq![cs[5 * (row as int) + col as int]] + rest,
                            ),
                            Err(e) => Err::<Seq<char>, TapcodeError>(e),
                        });
                        if decode_pairs(cs, toks.skip(p as int + 2)) is Ok {
                            assert(out@.skip(wbase.len() as int) =~= prev.skip(wbase.len() as int)
                                + seq![cs[5 * (row as int) + col as int]]);
                            assert(prev.skip(wbase.len() as int) + (seq![
                                cs[5 * (row as int) + col as int],
                            ] + decode_pairs(cs, toks.skip(p as int + 2))->Ok_0) =~= out@.skip(
                                wbase.len() as int,
                            ) + decode_pairs(cs, toks.skip(p as int + 2))->Ok_0);
                        }
                        assert(out@.take(wbase.len() as int) =~= wbase);
                    }
                } else {
                    proof {
                        assert(decode_pairs(cs, prest) == Err::<Seq<char>, TapcodeError>(
                            TapcodeError::InvalidCoordinates,
                        ));
                        assert(decode_pairs(cs, toks) == Err::<Seq<char>, TapcodeError>(
                            TapcodeError::InvalidCoordinates,
                        ));
                        assert(decode_word(cs, wseq) == Err::<Seq<char>, TapcodeError>(
                            TapcodeError::InvalidCoordinates,
                        ));
                        assert(decode_words(cs, words_here) == Err::<Seq<char>, TapcodeError>(
                            TapcodeError::InvalidCoordinates,
                        ));
                    }
                    return Err(TapcodeError::InvalidCoordinates);
                }
                p += 2;
            }
            let ghost wdec = out@.skip(wbase.len() as int);
            proof {
                assert(toks.skip(lens@.len() as int) =~= Seq::<Seq<char>>::empty());
                assert(decode_pairs(cs, Seq::<Seq<char>>::empty()) == Ok::<Seq<char>, TapcodeError>(
                    Seq::<char>::empty(),
                ));
                assert(wdec + Seq::<char>::empty() =~= wdec);
                assert(decode_pairs(cs, toks) == Ok::<Seq<char>, TapcodeError>(wdec));
                assert(decode_word(cs, wseq) == Ok::<Seq<char>, TapcodeError>(wdec));
            }
            out.push(' ');
            proof {
                assert(out@ =~= wbase + (wdec + seq![' ']));
                assert(decode_words(cs, words_here) == match decode_words(
                    cs,
                    words_here.drop_first(),
                ) {
                    Ok(rest) => Ok::<Seq<char>, TapcodeError>(wdec + seq![' '] + rest),
                    Err(e) => Err::<Seq<char>, TapcodeError>(e),
                });
            }
            if j < n {
                proof {
                    let tail = split_words(code@.skip((j + 1) as int));
                    if decode_words(cs, tail) is Ok {
                        assert(wbase + (wdec + seq![' '] + decode_words(cs, tail)->Ok_0) =~= out@
                            + decode_words(cs, tail)->Ok_0);
                    }
                }
                start = j + 1;
            } else {
                proof {
                    assert(decode_words(cs, Seq::<Seq<char>>::empty()) == Ok::<
                        Seq<char>,
                        TapcodeError,
                    >(Seq::<char>::empty()));
                    assert(wdec + seq![' '] + Seq::<char>::empty() =~= wdec + seq![' ']);
                    assert(decode_words(cs, words_here) == Ok::<Seq<char>, TapcodeError>(
                        wdec + seq![' '],
                    ));
                    assert(wbase + (wdec + seq![' ']) =~= out@);
                }
                break;
            }
        }
        trim_end_vec(&mut out);
        let s = chars_to_string(&out);
        Ok(s)
    }

    /// The configured tap marker.
    pub fn tap_symbol(&self) -> (c: char)
        ensures
            c == self.spec_tap_symbol(),
    {
        self.tap_symbol
    }

    /// The grid's characters, row-major, as one string with no separators —
    /// the persisted grid-file format.
    pub fn grid_string(&self) -> (s: String)
        ensures
            s@ == self.cell_seq(),
    {
        chars_to_string(&self.cells)
    }
}

} // verus!

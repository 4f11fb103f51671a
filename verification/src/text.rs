//! Characters and text sequences: whitespace classification, ASCII
//! lower-casing, trimming, and the two splitting grammars the cipher uses
//! (words separated by `|`, tokens separated by runs of whitespace).
use vstd::prelude::*;
use vstd::string::StrSliceExecFns;

verus! {

/// True exactly when `c` is a whitespace character, by the Unicode
/// `White_Space` property (the classification `char::is_whitespace` uses).
pub open spec fn is_ws_char(c: char) -> bool {
    ||| c == '\u{0009}'
    ||| c == '\u{000A}'
    ||| c == '\u{000B}'
    ||| c == '\u{000C}'
    ||| c == '\u{000D}'
    ||| c == ' '
    ||| c == '\u{0085}'
    ||| c == '\u{00A0}'
    ||| c == '\u{1680}'
    ||| ('\u{2000}' <= c && c <= '\u{200A}')
    ||| c == '\u{2028}'
    ||| c == '\u{2029}'
    ||| c == '\u{202F}'
    ||| c == '\u{205F}'
    ||| c == '\u{3000}'
}

/// Executable whitespace test matching `is_ws_char`.
pub fn is_whitespace_char(c: char) -> (r: bool)
    ensures
        r == is_ws_char(c),
{
    c == '\u{0009}' || c == '\u{000A}' || c == '\u{000B}' || c == '\u{000C}' || c == '\u{000D}'
        || c == ' ' || c == '\u{0085}' || c == '\u{00A0}' || c == '\u{1680}' || ('\u{2000}' <= c
        && c <= '\u{200A}') || c == '\u{2028}' || c == '\u{2029}' || c == '\u{202F}' || c
        == '\u{205F}' || c == '\u{3000}'
}

/// ASCII lower-casing of one character: upper-case letters map down, all
/// other characters are unchanged.
pub open spec fn lower_char(c: char) -> char {
    if 'A' <= c && c <= 'Z' {
        ((c as u32) + 32) as char
    } else {
        c
    }
}

/// Executable ASCII lower-casing matching `lower_char`.
pub fn to_lower_char(c: char) -> (r: char)
    ensures
        r == lower_char(c),
{
    match c {
        'A' => 'a',
        'B' => 'b',
        'C' => 'c',
        'D' => 'd',
        'E' => 'e',
        'F' => 'f',
        'G' => 'g',
        'H' => 'h',
        'I' => 'i',
        'J' => 'j',
        'K' => 'k',
        'L' => 'l',
        'M' => 'm',
        'N' => 'n',
        'O' => 'o',
        'P' => 'p',
        'Q' => 'q',
        'R' => 'r',
        'S' => 's',
        'T' => 't',
        'U' => 'u',
        'V' => 'v',
        'W' => 'w',
        'X' => 'x',
        'Y' => 'y',
        'Z' => 'z',
        _ => c,
    }
}

/// A sequence, lower-cased character by character.
pub open spec fn lower_seq(s: Seq<char>) -> Seq<char> {
    s.map_values(|c: char| lower_char(c))
}

/// Lower-casing is idempotent: lowering an already lowered character
/// changes nothing.
pub proof fn lemma_lower_char_idempotent(c: char)
    ensures
        lower_char(lower_char(c)) == lower_char(c),
{
}

/// True when the text has no visible character, i.e. trimming it would
/// leave it empty.
pub open spec fn is_blank(s: Seq<char>) -> bool {
    forall|i: int| 0 <= i < s.len() ==> is_ws_char(#[trigger] s[i])
}

/// The text with its trailing whitespace removed.
pub open spec fn trim_end(s: Seq<char>) -> Seq<char>
    decreases s.len(),
{
    if s.len() > 0 && is_ws_char(s[s.len() - 1]) {
        trim_end(s.drop_last())
    } else {
        s
    }
}

/// The position of the first occurrence of `c` in `s`, if any.
pub open spec fn first_index(s: Seq<char>, c: char) -> Option<int>
    decreases s.len(),
{
    if s.len() == 0 {
        None
    } else if s[0] == c {
        Some(0int)
    } else {
        match first_index(s.drop_first(), c) {
            Some(i) => Some(i + 1),
            None => None,
        }
    }
}

/// The words of the text, split on `|`; empty pieces are kept, so there is
/// always at least one word.
pub open spec fn split_words(s: Seq<char>) -> Seq<Seq<char>>
    decreases s.len(),
{
    if s.len() == 0 {
        seq![Seq::<char>::empty()]
    } else if s[0] == '|' {
        seq![Seq::<char>::empty()] + split_words(s.drop_first())
    } else {
        let rest = split_words(s.drop_first());
        seq![seq![s[0]] + rest[0]] + rest.drop_first()
    }
}

/// The tokens of the text: its maximal runs of non-whitespace characters,
/// in order. Whitespace only separates; it never appears in a token.
pub open spec fn split_tokens(s: Seq<char>) -> Seq<Seq<char>>
    decreases s.len(),
{
    if s.len() == 0 {
        Seq::<Seq<char>>::empty()
    } else if is_ws_char(s[0]) {
        split_tokens(s.drop_first())
    } else if s.len() > 1 && !is_ws_char(s[1]) {
        let rest = split_tokens(s.drop_first());
        seq![seq![s[0]] + rest[0]] + rest.drop_first()
    } else {
        seq![seq![s[0]]] + split_tokens(s.drop_first())
    }
}

/// The characters of a string slice, collected into a vector.
pub fn str_to_chars(s: &str) -> (v: Vec<char>)
    ensures
        v@ == s@,
{
    let n: usize = s.unicode_len();
    let mut v: Vec<char> = Vec::new();
    let mut i: usize = 0;
    while i < n
        invariant
            i <= n,
            n == s@.len(),
            v@ == s@.take(i as int),
        decreases n - i,
    {
        let c = s.get_char(i);
        v.push(c);
        assert(s@.take(i as int).push(s@[i as int]) =~= s@.take((i + 1) as int));
        i += 1;
    }
    assert(s@.take(n as int) =~= s@);
    v
}

/// Whether every character of the vector is whitespace (true of the empty
/// vector), i.e. whether the text is blank.
pub fn all_whitespace(v: &Vec<char>) -> (r: bool)
    ensures
        r == is_blank(v@),
{
    let mut i: usize = 0;
    while i < v.len()
        invariant
            i <= v@.len(),
            forall|k: int| 0 <= k < i ==> is_ws_char(#[trigger] v@[k]),
        decreases v@.len() - i,
    {
        if !is_whitespace_char(v[i]) {
            return false;
        }
        i += 1;
    }
    true
}

/// The vector, lower-cased character by character.
pub fn lower_vec(v: &Vec<char>) -> (r: Vec<char>)
    ensures
        r@ == lower_seq(v@),
{
    let mut r: Vec<char> = Vec::new();
    let mut i: usize = 0;
    while i < v.len()
        invariant
            i <= v@.len(),
            r@.len() == i,
            forall|k: int| 0 <= k < i ==> #[trigger] r@[k] == lower_char(v@[k]),
        decreases v@.len() - i,
    {
        r.push(to_lower_char(v[i]));
        i += 1;
    }
    assert(r@ =~= lower_seq(v@));
    r
}

/// Removes trailing whitespace characters from the vector.
pub fn trim_end_vec(v: &mut Vec<char>)
    ensures
        final(v)@ == trim_end(old(v)@),
{
    while v.len() > 0 && is_whitespace_char(v[v.len() - 1])
        invariant
            trim_end(v@) == trim_end(old(v)@),
        decreases v@.len(),
    {
        let ghost before = v@;
        v.pop();
        assert(v@ =~= before.drop_last());
    }
    assert(trim_end(v@) == v@);
}

/// A copy of the characters in positions `[lo, hi)` of the vector.
pub fn copy_range(v: &Vec<char>, lo: usize, hi: usize) -> (r: Vec<char>)
    requires
        lo <= hi <= v@.len(),
    ensures
        r@ == v@.subrange(lo as int, hi as int),
{
    let mut r: Vec<char> = Vec::new();
    let mut i: usize = lo;
    assert(v@.subrange(lo as int, lo as int) =~= Seq::<char>::empty());
    while i < hi
        invariant
            lo <= i <= hi <= v@.len(),
            r@ == v@.subrange(lo as int, i as int),
        decreases hi - i,
    {
        r.push(v[i]);
        assert(v@.subrange(lo as int, i as int).push(v@[i as int]) =~= v@.subrange(
            lo as int,
            (i + 1) as int,
        ));
        i += 1;
    }
    r
}

/// The lengths of the text's whitespace-separated tokens, in order.
pub fn token_lengths(w: &Vec<char>) -> (lens: Vec<usize>)
    ensures
        lens@.len() == split_tokens(w@).len(),
        forall|j: int| 0 <= j < lens@.len() ==> #[trigger] lens@[j] as int == split_tokens(
            w@,
        )[j].len(),
{
    let mut lens: Vec<usize> = Vec::new();
    let mut pos: usize = 0;
    proof {
        assert(w@.skip(0) =~= w@);
    }
    while pos < w.len()
        invariant
            pos <= w@.len(),
            lens@.len() <= split_tokens(w@).len(),
            split_tokens(w@).skip(lens@.len() as int) == split_tokens(w@.skip(pos as int)),
            forall|j: int| 0 <= j < lens@.len() ==> #[trigger] lens@[j] as int == split_tokens(
                w@,
            )[j].len(),
        decreases w@.len() - pos,
    {
        let ghost k = lens@.len() as int;
        if is_whitespace_char(w[pos]) {
            proof {
                assert(w@.skip(pos as int)[0] == w@[pos as int]);
                assert(w@.skip(pos as int).drop_first() =~= w@.skip((pos + 1) as int));
                assert(split_tokens(w@.skip(pos as int)) == split_tokens(
                    w@.skip(pos as int).drop_first(),
                ));
            }
            pos += 1;
        } else {
            let start = pos;
            let mut end: usize = pos + 1;
            while end < w.len() && !is_whitespace_char(w[end])
                invariant
                    start < end <= w@.len(),
                    forall|q: int| start <= q < end ==> !is_ws_char(#[trigger] w@[q]),
                decreases w@.len() - end,
            {
                end += 1;
            }
            proof {
                let t = w@.subrange(start as int, end as int);
                let r = w@.skip(end as int);
                assert(w@.skip(start as int) =~= t + r);
                assert forall|q: int| 0 <= q < t.len() implies !is_ws_char(#[trigger] t[q]) by {
                    assert(t[q] == w@[start + q]);
                }
                if end < w@.len() {
                    assert(r[0] == w@[end as int]);
                }
                lemma_split_tokens_leading(t, r);
                assert(split_tokens(w@.skip(start as int)) == seq![t] + split_tokens(r));
                assert(split_tokens(w@).skip(k)[0] == split_tokens(w@)[k]);
                assert(split_tokens(w@)[k] == t);
                assert(split_tokens(w@).skip(k).drop_first() =~= split_tokens(w@).skip(k + 1));
                assert((seq![t] + split_tokens(r)).drop_first() =~= split_tokens(r));
            }
            lens.push(end - start);
            pos = end;
        }
    }
    proof {
        assert(w@.skip(pos as int) =~= Seq::<char>::empty());
        assert(split_tokens(Seq::<char>::empty()) == Seq::<Seq<char>>::empty());
        assert(split_tokens(w@).skip(lens@.len() as int).len() == 0);
    }
    lens
}

/// Whatever `first_index` returns is correct: a returned position holds `c`
/// and nothing before it does; `None` means `c` does not occur at all.
pub proof fn lemma_first_index_props(s: Seq<char>, c: char)
    ensures
        match first_index(s, c) {
            Some(i) => 0 <= i < s.len() && s[i] == c && (forall|k: int| 0 <= k < i ==> s[k] != c),
            None => forall|k: int| 0 <= k < s.len() ==> s[k] != c,
        },
    decreases s.len(),
{
    if s.len() == 0 {
    } else if s[0] == c {
    } else {
        lemma_first_index_props(s.drop_first(), c);
        match first_index(s.drop_first(), c) {
            Some(i) => {
                assert(s.drop_first()[i] == s[i + 1]);
                assert forall|k: int| 0 <= k < i + 1 implies s[k] != c by {
                    if k > 0 {
                        assert(s.drop_first()[k - 1] == s[k]);
                    }
                }
            },
            None => {
                assert forall|k: int| 0 <= k < s.len() implies s[k] != c by {
                    if k > 0 {
                        assert(s.drop_first()[k - 1] == s[k]);
                    }
                }
            },
        }
    }
}

/// A scan that saw no `c` before position `i` pins `first_index` down: it is
/// `i` if the scan stopped on `c`, and `None` if the scan ran off the end.
pub proof fn lemma_first_index_at(s: Seq<char>, c: char, i: int)
    requires
        0 <= i <= s.len(),
        forall|k: int| 0 <= k < i ==> s[k] != c,
        i < s.len() ==> s[i] == c,
    ensures
        first_index(s, c) == if i < s.len() {
            Some(i)
        } else {
            None::<int>
        },
    decreases s.len(),
{
    if i == 0 {
    } else {
        assert(s[0] != c);
        assert forall|k: int| 0 <= k < i - 1 implies s.drop_first()[k] != c by {
            assert(s.drop_first()[k] == s[k + 1]);
        }
        lemma_first_index_at(s.drop_first(), c, i - 1);
    }
}

/// A text whose last character is not whitespace (or which is empty) is
/// already trimmed.
pub proof fn lemma_trim_end_id(s: Seq<char>)
    requires
        s.len() == 0 || !is_ws_char(s[s.len() - 1]),
    ensures
        trim_end(s) == s,
{
}

/// Appending one whitespace character to a trimmed text trims right back off.
pub proof fn lemma_trim_end_push_ws(s: Seq<char>, c: char)
    requires
        is_ws_char(c),
        s.len() == 0 || !is_ws_char(s[s.len() - 1]),
    ensures
        trim_end(s.push(c)) == s,
{
    assert(s.push(c).drop_last() =~= s);
    assert(trim_end(s.push(c)) == trim_end(s));
    lemma_trim_end_id(s);
}

/// Splitting on `|` always yields at least one word.
pub proof fn lemma_split_words_len(s: Seq<char>)
    ensures
        split_words(s).len() >= 1,
    decreases s.len(),
{
    if s.len() == 0 {
    } else if s[0] == '|' {
        lemma_split_words_len(s.drop_first());
    } else {
        lemma_split_words_len(s.drop_first());
    }
}

/// A text without `|` is one single word.
pub proof fn lemma_split_words_bar_free(s: Seq<char>)
    requires
        forall|k: int| 0 <= k < s.len() ==> s[k] != '|',
    ensures
        split_words(s) == seq![s],
    decreases s.len(),
{
    if s.len() == 0 {
        assert(split_words(s) =~~= seq![s]);
    } else {
        assert forall|k: int| 0 <= k < s.drop_first().len() implies s.drop_first()[k] != '|' by {
            assert(s.drop_first()[k] == s[k + 1]);
        }
        lemma_split_words_bar_free(s.drop_first());
        assert(seq![s[0]] + s.drop_first() =~= s);
        assert(split_words(s) =~~= seq![s]);
    }
}

/// The first `|` ends the first word: a bar-free prefix, a `|`, and a rest
/// split as that prefix followed by the words of the rest.
pub proof fn lemma_split_words_concat(a: Seq<char>, b: Seq<char>)
    requires
        forall|k: int| 0 <= k < a.len() ==> a[k] != '|',
    ensures
        split_words(a + seq!['|'] + b) == seq![a] + split_words(b),
    decreases a.len(),
{
    let s = a + seq!['|'] + b;
    if a.len() == 0 {
        assert(s[0] == '|');
        assert(s.drop_first() =~= b);
        assert(split_words(s) =~~= seq![a] + split_words(b));
    } else {
        assert(s[0] == a[0]);
        assert forall|k: int| 0 <= k < a.drop_first().len() implies a.drop_first()[k] != '|' by {
            assert(a.drop_first()[k] == a[k + 1]);
        }
        lemma_split_words_concat(a.drop_first(), b);
        assert(s.drop_first() =~= a.drop_first() + seq!['|'] + b);
        let rest = split_words(s.drop_first());
        assert(rest == seq![a.drop_first()] + split_words(b));
        assert(rest[0] == a.drop_first());
        assert(seq![s[0]] + a.drop_first() =~= a);
        assert(rest.drop_first() =~= split_words(b));
        assert(split_words(s) =~~= seq![a] + split_words(b));
    }
}

/// Appending a non-`|` character extends the last word and nothing else.
pub proof fn lemma_split_words_push(s: Seq<char>, c: char)
    requires
        c != '|',
    ensures
        split_words(s.push(c)) == split_words(s).drop_last().push(
            split_words(s).last().push(c),
        ),
    decreases s.len(),
{
    lemma_split_words_len(s);
    if s.len() == 0 {
        let p = s.push(c);
        assert(p[0] == c);
        assert(p.drop_first() =~= Seq::<char>::empty());
        assert(split_words(Seq::<char>::empty()) == seq![Seq::<char>::empty()]);
        let rest = split_words(p.drop_first());
        assert(rest == seq![Seq::<char>::empty()]);
        assert(split_words(p) == seq![seq![p[0]] + rest[0]] + rest.drop_first());
        assert(seq![p[0]] + rest[0] =~= seq![c]);
        assert(rest.drop_first() =~= Seq::<Seq<char>>::empty());
        assert(split_words(s) == seq![Seq::<char>::empty()]);
        assert(split_words(s).last().push(c) =~= seq![c]);
        assert(split_words(p) =~~= split_words(s).drop_last().push(split_words(s).last().push(c)));
    } else if s[0] == '|' {
        lemma_split_words_len(s.drop_first());
        lemma_split_words_push(s.drop_first(), c);
        let p = s.push(c);
        let w = split_words(s.drop_first());
        assert(p[0] == s[0]);
        assert(p.drop_first() =~= s.drop_first().push(c));
        assert(split_words(p) == seq![Seq::<char>::empty()] + split_words(p.drop_first()));
        assert(split_words(s) == seq![Seq::<char>::empty()] + w);
        assert(split_words(p.drop_first()) == w.drop_last().push(w.last().push(c)));
        assert(split_words(s).last() == w.last());
        assert(split_words(s).drop_last() =~~= seq![Seq::<char>::empty()] + w.drop_last());
        assert(split_words(p) =~~= split_words(s).drop_last().push(split_words(s).last().push(c)));
    } else {
        lemma_split_words_len(s.drop_first());
        lemma_split_words_push(s.drop_first(), c);
        assert(s.push(c).drop_first() =~= s.drop_first().push(c));
        let w = split_words(s.drop_first());
        if w.len() == 1 {
            assert(seq![s[0]] + w[0].push(c) =~= (seq![s[0]] + w[0]).push(c));
            assert(split_words(s.push(c)) =~~= split_words(s).drop_last().push(
                split_words(s).last().push(c),
            ));
        } else {
            let p = s.push(c);
            let rest_p = split_words(p.drop_first());
            assert(p[0] == s[0]);
            assert(split_words(p) == seq![seq![p[0]] + rest_p[0]] + rest_p.drop_first());
            assert(split_words(s) == seq![seq![s[0]] + w[0]] + w.drop_first());
            assert(rest_p == w.drop_last().push(w.last().push(c)));
            assert(rest_p[0] == w.drop_last()[0]);
            assert(w.drop_last()[0] == w[0]);
            assert(rest_p.drop_first() =~~= w.drop_first().drop_last().push(w.last().push(c)));
            assert(split_words(s).last() == w.drop_first().last());
            assert(w.drop_first().last() == w.last());
            assert(split_words(s).drop_last() =~~= seq![seq![s[0]] + w[0]]
                + w.drop_first().drop_last());
            assert(split_words(s.push(c)) =~~= split_words(s).drop_last().push(
                split_words(s).last().push(c),
            ));
        }
    }
}

/// Every token is a nonempty run of characters.
pub proof fn lemma_split_tokens_all_nonempty(s: Seq<char>)
    ensures
        forall|j: int| 0 <= j < split_tokens(s).len() ==> #[trigger] split_tokens(s)[j].len() >= 1,
    decreases s.len(),
{
    if s.len() == 0 {
    } else if is_ws_char(s[0]) {
        lemma_split_tokens_all_nonempty(s.drop_first());
    } else if s.len() > 1 && !is_ws_char(s[1]) {
        lemma_split_tokens_all_nonempty(s.drop_first());
        let rest = split_tokens(s.drop_first());
        assert(split_tokens(s) == seq![seq![s[0]] + rest[0]] + rest.drop_first());
        assert forall|j: int| 0 <= j < split_tokens(s).len() implies #[trigger] split_tokens(
            s,
        )[j].len() >= 1 by {
            if j == 0 {
                assert(split_tokens(s)[0] == seq![s[0]] + rest[0]);
            } else {
                assert(split_tokens(s)[j] == rest[j]);
            }
        }
    } else {
        lemma_split_tokens_all_nonempty(s.drop_first());
        let rest = split_tokens(s.drop_first());
        assert(split_tokens(s) == seq![seq![s[0]]] + rest);
        assert forall|j: int| 0 <= j < split_tokens(s).len() implies #[trigger] split_tokens(
            s,
        )[j].len() >= 1 by {
            if j == 0 {
                assert(split_tokens(s)[0] == seq![s[0]]);
            } else {
                assert(split_tokens(s)[j] == rest[j - 1]);
            }
        }
    }
}

/// A nonempty run of non-whitespace characters, followed by nothing or by
/// whitespace, is the first token; what follows tokenizes on its own.
pub proof fn lemma_split_tokens_leading(t: Seq<char>, r: Seq<char>)
    requires
        t.len() >= 1,
        forall|k: int| 0 <= k < t.len() ==> !is_ws_char(#[trigger] t[k]),
        r.len() == 0 || is_ws_char(r[0]),
    ensures
        split_tokens(t + r) == seq![t] + split_tokens(r),
    decreases t.len(),
{
    let s = t + r;
    assert(s[0] == t[0]);
    if t.len() == 1 {
        assert(s.drop_first() =~= r);
        if r.len() == 0 {
            assert(split_tokens(s) =~~= seq![t] + split_tokens(r));
        } else {
            assert(s.len() > 1 && is_ws_char(s[1]));
            assert(seq![seq![s[0]]] =~~= seq![t]);
            assert(split_tokens(s) =~~= seq![t] + split_tokens(r));
        }
    } else {
        assert(s.len() > 1 && s[1] == t[1] && !is_ws_char(s[1]));
        assert forall|k: int| 0 <= k < t.drop_first().len() implies !is_ws_char(
            #[trigger] t.drop_first()[k],
        ) by {
            assert(t.drop_first()[k] == t[k + 1]);
        }
        lemma_split_tokens_leading(t.drop_first(), r);
        assert(s.drop_first() =~= t.drop_first() + r);
        let rest = split_tokens(s.drop_first());
        assert(rest == seq![t.drop_first()] + split_tokens(r));
        assert(rest[0] == t.drop_first());
        assert(seq![s[0]] + t.drop_first() =~= t);
        assert(rest.drop_first() =~= split_tokens(r));
        assert(split_tokens(s) =~~= seq![t] + split_tokens(r));
    }
}

/// Appending one whitespace character leaves the tokens unchanged.
pub proof fn lemma_split_tokens_push_ws(s: Seq<char>, c: char)
    requires
        is_ws_char(c),
    ensures
        split_tokens(s.push(c)) == split_tokens(s),
    decreases s.len(),
{
    let p = s.push(c);
    if s.len() == 0 {
        assert(p[0] == c);
        assert(p.drop_first() =~= Seq::<char>::empty());
        assert(split_tokens(p) == split_tokens(p.drop_first()));
        assert(split_tokens(Seq::<char>::empty()) == Seq::<Seq<char>>::empty());
        assert(split_tokens(p) =~~= split_tokens(s));
    } else {
        assert(p[0] == s[0]);
        assert(p.drop_first() =~= s.drop_first().push(c));
        lemma_split_tokens_push_ws(s.drop_first(), c);
        assert(split_tokens(p.drop_first()) == split_tokens(s.drop_first()));
        let rest = split_tokens(s.drop_first());
        if is_ws_char(s[0]) {
            assert(split_tokens(p) == split_tokens(p.drop_first()));
            assert(split_tokens(s) == rest);
        } else if s.len() > 1 && !is_ws_char(s[1]) {
            assert(p[1] == s[1]);
            assert(split_tokens(p) == seq![seq![p[0]] + rest[0]] + rest.drop_first());
            assert(split_tokens(s) == seq![seq![s[0]] + rest[0]] + rest.drop_first());
        } else if s.len() > 1 {
            assert(p[1] == s[1]);
            assert(split_tokens(p) == seq![seq![p[0]]] + rest);
            assert(split_tokens(s) == seq![seq![s[0]]] + rest);
        } else {
            assert(p.len() == 2 && p[1] == c && is_ws_char(p[1]));
            assert(split_tokens(p) == seq![seq![p[0]]] + rest);
            assert(split_tokens(s) == seq![seq![s[0]]] + rest);
        }
    }
}

} // verus!

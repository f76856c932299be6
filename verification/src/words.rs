//! The word source: turns whitespace-tokenized input lines into an
//! ordered list of lowercase words, under a configurable mode that says
//! which token of a line is the word, whether duplicates are dropped,
//! and whether a numeric length prefix must validate the word.

use vstd::prelude::*;
use vstd::string::StrSliceExecFns;

verus! {

/// ASCII whitespace, the token separators recognised in a line.
pub open spec fn is_space(c: char) -> bool {
    c == ' ' || c == '\t' || c == '\r' || c == '\n'
}

/// ASCII lowercasing of one character: 'A' to 'Z' map to 'a' to 'z',
/// every other character is unchanged.
pub open spec fn lower_char(c: char) -> char {
    match c {
        'A' => 'a',
        'B' => 'b',
        'C' => 'c',
        'D' => 'd',
        'E' => 'e',
        'F' => 'f',
        'G' => 'g',
        'H' => 'h',
        'I' => 'i',
        'J' => 'j',
        'K' => 'k',
        'L' => 'l',
        'M' => 'm',
        'N' => 'n',
        'O' => 'o',
        'P' => 'p',
        'Q' => 'q',
        'R' => 'r',
        'S' => 's',
        'T' => 't',
        'U' => 'u',
        'V' => 'v',
        'W' => 'w',
        'X' => 'x',
        'Y' => 'y',
        'Z' => 'z',
        _ => c,
    }
}

/// ASCII lowercasing of a whole character sequence.
pub open spec fn lower_seq(s: Seq<char>) -> Seq<char> {
    s.map(|_i: int, c: char| lower_char(c))
}

/// Relies on `str::to_ascii_lowercase`: ASCII uppercase letters are
/// mapped to their lowercase equivalents and every other character is
/// returned unchanged.
#[verifier::external_body]
fn ascii_lower(s: &str) -> (r: String)
    ensures
        r@ == lower_seq(s@),
{
    s.to_ascii_lowercase()
}

/// Left fold of the tokenizer over a line prefix: the completed tokens
/// so far, and the partial token the scan currently stands in.
pub open spec fn tokens_fold(s: Seq<char>) -> (Seq<Seq<char>>, Seq<char>)
    decreases s.len(),
{
    if s.len() == 0 {
        (Seq::empty(), Seq::empty())
    } else {
        let (ts, cur) = tokens_fold(s.drop_last());
        let c = s.last();
        if is_space(c) {
            if cur.len() > 0 {
                (ts.push(cur), Seq::empty())
            } else {
                (ts, Seq::empty())
            }
        } else {
            (ts, cur.push(c))
        }
    }
}

/// The whitespace-separated tokens of a line, in order, each non-empty.
pub open spec fn tokens_of(s: Seq<char>) -> Seq<Seq<char>> {
    let (ts, cur) = tokens_fold(s);
    if cur.len() > 0 {
        ts.push(cur)
    } else {
        ts
    }
}

/// Whether one character is ASCII whitespace.
fn is_space_char(c: char) -> (b: bool)
    ensures
        b == is_space(c),
{
    c == ' ' || c == '\t' || c == '\r' || c == '\n'
}

/// Splits a line into its whitespace-separated tokens.
pub fn tokenize(line: &str) -> (tokens: Vec<String>)
    ensures
        tokens.deep_view() == tokens_of(line@),
{
    let len = line.unicode_len();
    let mut tokens: Vec<String> = Vec::new();
    let mut start: usize = 0;
    let mut i: usize = 0;
    while i < len
        invariant
            len == line@.len(),
            start <= i <= len,
            tokens.deep_view() == tokens_fold(line@.take(i as int)).0,
            line@.subrange(start as int, i as int) == tokens_fold(line@.take(i as int)).1,
        decreases len - i,
    {
        let ghost prefix = line@.take(i as int);
        let c = line.get_char(i);
        proof {
            assert(line@.take(i as int + 1).drop_last() =~= prefix);
            assert(line@.take(i as int + 1).last() == line@[i as int]);
        }
        if is_space_char(c) {
            if start < i {
                let tok = line.substring_char(start, i).to_owned();
                let ghost dv = tokens.deep_view();
                tokens.push(tok);
                proof {
                    assert(tokens.deep_view() =~= dv.push(tok@));
                }
            }
            start = i + 1;
            proof {
                assert(line@.subrange(start as int, i as int + 1) =~= Seq::<char>::empty());
            }
        } else {
            proof {
                assert(line@.subrange(start as int, i as int + 1) =~= line@.subrange(
                    start as int,
                    i as int,
                ).push(line@[i as int]));
            }
        }
        i += 1;
    }
    proof {
        assert(line@.take(len as int) =~= line@);
    }
    if start < len {
        let tok = line.substring_char(start, len).to_owned();
        let ghost dv = tokens.deep_view();
        tokens.push(tok);
        proof {
            assert(tokens.deep_view() =~= dv.push(tok@));
        }
    }
    tokens
}

/// Whether a character is a decimal digit.
pub open spec fn is_digit(c: char) -> bool {
    48 <= c as u32 <= 57
}

/// The numeric value of a decimal digit.
pub open spec fn digit_val(c: char) -> int {
    c as u32 - 48
}

/// Every character of the sequence is a decimal digit.
pub open spec fn all_digits(s: Seq<char>) -> bool {
    forall|i: int| 0 <= i < s.len() ==> #[trigger] is_digit(s[i])
}

/// The value of a digit sequence read as a decimal numeral.
pub open spec fn digits_val(s: Seq<char>) -> int
    decreases s.len(),
{
    if s.len() == 0 {
        0
    } else {
        digits_val(s.drop_last()) * 10 + digit_val(s.last())
    }
}

/// The numeric reading of a length-prefix token: its decimal value when
/// it is a non-empty, all-digit numeral that fits the machine word, and
/// 0 for any token that does not parse.
pub open spec fn parse_spec(s: Seq<char>) -> int {
    if s.len() > 0 && all_digits(s) && digits_val(s) <= usize::MAX {
        digits_val(s)
    } else {
        0
    }
}

/// The value of an all-digit numeral is non-negative.
pub proof fn lemma_digits_val_nonneg(s: Seq<char>)
    requires
        all_digits(s),
    ensures
        digits_val(s) >= 0,
    decreases s.len(),
{
    if s.len() > 0 {
        assert(all_digits(s.drop_last()));
        lemma_digits_val_nonneg(s.drop_last());
        assert(is_digit(s.last()));
    }
}

/// A prefix of an all-digit numeral never exceeds its value.
pub proof fn lemma_digits_val_mono(s: Seq<char>, k: int)
    requires
        all_digits(s),
        0 <= k <= s.len(),
    ensures
        digits_val(s.take(k)) <= digits_val(s),
    decreases s.len() - k,
{
    if k < s.len() {
        assert(all_digits(s.take(k)));
        lemma_digits_val_nonneg(s.take(k));
        assert(s.take(k + 1).drop_last() =~= s.take(k));
        assert(s.take(k + 1).last() == s[k]);
        assert(is_digit(s[k]));
        assert(digits_val(s.take(k + 1)) >= digits_val(s.take(k))) by (nonlinear_arith)
            requires
                digits_val(s.take(k + 1)) == digits_val(s.take(k)) * 10 + digit_val(s[k]),
                digits_val(s.take(k)) >= 0,
                digit_val(s[k]) >= 0,
        ;
        lemma_digits_val_mono(s, k + 1);
    } else {
        assert(s.take(k) =~= s);
    }
}

/// Reads a length-prefix token as a decimal number, yielding 0 for a
/// token that is empty, holds a non-digit, or overflows the machine
/// word.
pub fn parse_token(t: &str) -> (v: usize)
    ensures
        v as int == parse_spec(t@),
{
    let len = t.unicode_len();
    if len == 0 {
        return 0;
    }
    let mut v: usize = 0;
    let mut i: usize = 0;
    while i < len
        invariant
            len == t@.len(),
            len > 0,
            i <= len,
            all_digits(t@.take(i as int)),
            v as int == digits_val(t@.take(i as int)),
        decreases len - i,
    {
        let c = t.get_char(i);
        let u = c as u32;
        proof {
            assert(t@.take(i as int + 1).drop_last() =~= t@.take(i as int));
            assert(t@.take(i as int + 1).last() == t@[i as int]);
        }
        if u < 48 || u > 57 {
            proof {
                assert(!is_digit(t@[i as int]));
                assert(!all_digits(t@));
            }
            return 0;
        }
        let d = (u - 48) as usize;
        assert(all_digits(t@.take(i as int + 1)));
        if v > (usize::MAX - d) / 10 {
            proof {
                assert(digits_val(t@.take(i as int + 1)) > usize::MAX) by (nonlinear_arith)
                    requires
                        digits_val(t@.take(i as int + 1)) == digits_val(t@.take(i as int)) * 10
                            + digit_val(t@[i as int]),
                        v as int == digits_val(t@.take(i as int)),
                        digit_val(t@[i as int]) == d,
                        0 <= d <= 9,
                        v > (usize::MAX - d) / 10,
                ;
                if all_digits(t@) {
                    lemma_digits_val_mono(t@, i as int + 1);
                }
            }
            return 0;
        }
        assert(v * 10 + d <= usize::MAX) by (nonlinear_arith)
            requires
                0 <= d <= 9,
                0 <= v <= (usize::MAX - d) / 10,
        ;
        v = v * 10 + d;
        i += 1;
    }
    proof {
        assert(t@.take(len as int) =~= t@);
    }
    v
}

/// Which token of a line is the word, and how the list is filtered.
#[derive(Clone, Copy, Debug, PartialEq, Eq)]
pub enum SourceMode {
    /// The first token of each non-empty line, repeats kept.
    FirstToken,
    /// The second token of each line with at least two tokens, repeats
    /// kept.
    SecondToken,
    /// The second token of each line with at least two tokens, keeping
    /// only the first arrival of each distinct word.
    SecondTokenDedup,
    /// The second token of each exactly-two-token line, kept only when
    /// the first token reads as the word's character length.
    LengthPrefixed,
}

/// Whether the mode drops repeated words.
pub open spec fn dedup_mode(mode: SourceMode) -> bool {
    mode is SecondTokenDedup
}

/// The word one line contributes, already lowercased, or `None` when
/// the line is filtered out.
pub open spec fn line_word(line: Seq<char>, mode: SourceMode) -> Option<Seq<char>> {
    let ts = tokens_of(line);
    match mode {
        SourceMode::FirstToken => if ts.len() >= 1 {
            Some(lower_seq(ts[0]))
        } else {
            None
        },
        SourceMode::SecondToken => if ts.len() >= 2 {
            Some(lower_seq(ts[1]))
        } else {
            None
        },
        SourceMode::SecondTokenDedup => if ts.len() >= 2 {
            Some(lower_seq(ts[1]))
        } else {
            None
        },
        SourceMode::LengthPrefixed => if ts.len() == 2 && ts[1].len() == parse_spec(ts[0]) {
            Some(lower_seq(ts[1]))
        } else {
            None
        },
    }
}

/// The words the whole input contributes, in arrival order, with
/// repeats dropped (keeping the first arrival) in the de-duplicating
/// mode.
pub open spec fn extract_spec(lines: Seq<Seq<char>>, mode: SourceMode) -> Seq<Seq<char>>
    decreases lines.len(),
{
    if lines.len() == 0 {
        Seq::empty()
    } else {
        let prev = extract_spec(lines.drop_last(), mode);
        match line_word(lines.last(), mode) {
            Some(w) => if dedup_mode(mode) && prev.contains(w) {
                prev
            } else {
                prev.push(w)
            },
            None => prev,
        }
    }
}

/// The word source's data error: no line yielded a valid word.
#[derive(Clone, Copy, Debug, PartialEq, Eq)]
pub enum SourceError {
    NoValidWords,
}

/// Character-by-character string equality.
fn str_eq(a: &str, b: &str) -> (r: bool)
    ensures
        r == (a@ == b@),
{
    let la = a.unicode_len();
    let lb = b.unicode_len();
    if la != lb {
        return false;
    }
    let mut i: usize = 0;
    while i < la
        invariant
            la == a@.len(),
            la == b@.len(),
            i <= la,
            forall|j: int| 0 <= j < i ==> a@[j] == b@[j],
        decreases la - i,
    {
        if a.get_char(i) != b.get_char(i) {
            return false;
        }
        i += 1;
    }
    proof {
        assert(a@ =~= b@);
    }
    true
}

/// Whether the list already holds this word.
fn contains_word(ws: &Vec<String>, w: &str) -> (b: bool)
    ensures
        b == ws.deep_view().contains(w@),
{
    let mut j: usize = 0;
    while j < ws.len()
        invariant
            j <= ws@.len(),
            forall|k: int| 0 <= k < j ==> ws.deep_view()[k] != w@,
        decreases ws@.len() - j,
    {
        if str_eq(ws[j].as_str(), w) {
            assert(ws.deep_view()[j as int] == w@);
            return true;
        }
        j += 1;
    }
    false
}

/// Extracts the ordered list of lowercase words that the input lines
/// yield under the given mode; fails exactly when, after filtering, no
/// valid word remains.
pub fn extract_words(lines: &Vec<String>, mode: SourceMode) -> (res: Result<
    Vec<String>,
    SourceError,
>)
    ensures
        match res {
            Ok(ws) => ws.deep_view() == extract_spec(lines.deep_view(), mode) && ws@.len() > 0,
            Err(e) => extract_spec(lines.deep_view(), mode).len() == 0 && e
                == SourceError::NoValidWords,
        },
{
    let ghost lv = lines.deep_view();
    let mut ws: Vec<String> = Vec::new();
    let mut i: usize = 0;
    while i < lines.len()
        invariant
            lv == lines.deep_view(),
            lv.len() == lines@.len(),
            i <= lines@.len(),
            ws.deep_view() == extract_spec(lv.take(i as int), mode),
        decreases lines@.len() - i,
    {
        proof {
            assert(lv[i as int] == lines@[i as int]@);
            assert(lv.take(i as int + 1).drop_last() =~= lv.take(i as int));
            assert(lv.take(i as int + 1).last() == lv[i as int]);
        }
        let line = lines[i].as_str();
        let toks = tokenize(line);
        let ghost ts = tokens_of(line@);
        let cand: Option<String> = match mode {
            SourceMode::FirstToken => {
                if toks.len() >= 1 {
                    proof {
                        assert(toks.deep_view()[0] == toks@[0]@);
                    }
                    Some(ascii_lower(toks[0].as_str()))
                } else {
                    None
                }
            },
            SourceMode::SecondToken | SourceMode::SecondTokenDedup => {
                if toks.len() >= 2 {
                    proof {
                        assert(toks.deep_view()[1] == toks@[1]@);
                    }
                    Some(ascii_lower(toks[1].as_str()))
                } else {
                    None
                }
            },
            SourceMode::LengthPrefixed => {
                if toks.len() == 2 {
                    proof {
                        assert(toks.deep_view()[0] == toks@[0]@);
                        assert(toks.deep_view()[1] == toks@[1]@);
                    }
                    let expected = parse_token(toks[0].as_str());
                    let wlen = toks[1].as_str().unicode_len();
                    if wlen == expected {
                        Some(ascii_lower(toks[1].as_str()))
                    } else {
                        None
                    }
                } else {
                    None
                }
            },
        };
        match cand {
            Some(w) => {
                assert(line_word(lv[i as int], mode) == Some(w@));
                let dup = match mode {
                    SourceMode::SecondTokenDedup => contains_word(&ws, w.as_str()),
                    _ => false,
                };
                if !dup {
                    let ghost dv = ws.deep_view();
                    let ghost wword = w@;
                    ws.push(w);
                    proof {
                        assert(ws.deep_view() =~= dv.push(wword));
                    }
                }
            },
            None => {
                assert(line_word(lv[i as int], mode) is None);
            },
        }
        i += 1;
    }
    proof {
        assert(lv.take(lv.len() as int) =~= lv);
    }
    if ws.len() == 0 {
        proof {
            assert(ws.deep_view().len() == 0);
        }
        Err(SourceError::NoValidWords)
    } else {
        Ok(ws)
    }
}

} // verus!

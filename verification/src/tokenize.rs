//! The word-character class and the decomposition of a line into words.
//!
//! A word is a maximal run of word characters; a word character is a
//! Unicode letter or digit, or the underscore.  Characters outside that
//! class separate words and are never part of one.

use crate::options::CountOption;
use vstd::prelude::*;
use vstd::string::StrSliceExecFns;

verus! {

/// Whether a character is alphanumeric under Unicode rules: a letter or a
/// digit of any script.  Defined by `char::is_alphanumeric`.
pub uninterp spec fn unicode_alphanumeric(c: char) -> bool;

/// A word character: a Unicode letter or digit, or the underscore.
pub open spec fn is_word_char(c: char) -> bool {
    unicode_alphanumeric(c) || c == '_'
}

/// Relies on `char::is_alphanumeric`: true exactly of Unicode letters and
/// digits, which on the ASCII range are a-z, A-Z and 0-9.
#[verifier::external_body]
fn alphanumeric(c: char) -> (r: bool)
    ensures
        r == unicode_alphanumeric(c),
        (c as u32) < 128 ==> r == (97 <= c as u32 <= 122 || 65 <= c as u32 <= 90 || 48 <= c as u32
            <= 57),
{
    c.is_alphanumeric()
}

/// Whether `c` is a word character.
pub fn word_char(c: char) -> (r: bool)
    ensures
        r == is_word_char(c),
{
    alphanumeric(c) || c == '_'
}

/// The words yielded by the rest `s` of a line when the partial word `cur`
/// has been read immediately before it: `cur` grows while word characters
/// follow and is emitted at the first separator or at the end of the line.
pub open spec fn words_from(s: Seq<char>, cur: Seq<char>) -> Seq<Seq<char>>
    decreases s.len(),
{
    if s.len() == 0 {
        if cur.len() == 0 {
            Seq::empty()
        } else {
            seq![cur]
        }
    } else if is_word_char(s[0]) {
        words_from(s.drop_first(), cur.push(s[0]))
    } else if cur.len() == 0 {
        words_from(s.drop_first(), Seq::empty())
    } else {
        seq![cur] + words_from(s.drop_first(), Seq::empty())
    }
}

/// The maximal runs of word characters in `s`, in order of appearance.
pub open spec fn words_of(s: Seq<char>) -> Seq<Seq<char>> {
    words_from(s, Seq::empty())
}

/// No more words remain than characters, counting a started word as one more.
proof fn lemma_words_from_len(s: Seq<char>, cur: Seq<char>)
    ensures
        words_from(s, cur).len() <= s.len() + if cur.len() == 0 {
            0int
        } else {
            1int
        },
    decreases s.len(),
{
    if s.len() > 0 {
        if is_word_char(s[0]) {
            lemma_words_from_len(s.drop_first(), cur.push(s[0]));
        } else {
            lemma_words_from_len(s.drop_first(), Seq::empty());
        }
    }
}

/// A line never holds more words than characters.
pub proof fn lemma_words_len(s: Seq<char>)
    ensures
        words_of(s).len() <= s.len(),
{
    lemma_words_from_len(s, Seq::empty());
}

/// Each character of a line as a token of its own.
pub open spec fn char_tokens(line: Seq<char>) -> Seq<Seq<char>> {
    line.map_values(|c: char| seq![c])
}

/// The tokens of one decoded line under the given mode: each character,
/// each word, or the whole line itself.
pub open spec fn line_tokens(line: Seq<char>, mode: CountOption) -> Seq<Seq<char>> {
    match mode {
        CountOption::Char => char_tokens(line),
        CountOption::Word => words_of(line),
        CountOption::Line => seq![line],
    }
}

/// The views of a vector of owned tokens.
pub open spec fn token_views(ts: Seq<String>) -> Seq<Seq<char>> {
    ts.map_values(|t: String| t@)
}

/// The tokens of one decoded line, as owned strings, in reading order.
pub fn tokenize_line(line: &str, option: CountOption) -> (r: Vec<String>)
    ensures
        token_views(r@) == line_tokens(line@, option),
{
    let mut out: Vec<String> = Vec::new();
    match option {
        CountOption::Char => {
            let n = line.unicode_len();
            let mut i: usize = 0;
            proof {
                assert(token_views(out@) =~= char_tokens(line@.take(0)));
            }
            while i < n
                invariant
                    0 <= i <= n == line@.len(),
                    token_views(out@) == char_tokens(line@.take(i as int)),
                decreases n - i,
            {
                let t = line.substring_char(i, i + 1).to_owned();
                proof {
                    assert(line@.subrange(i as int, i + 1) =~= seq![line@[i as int]]);
                }
                let ghost before = out@;
                out.push(t);
                proof {
                    assert(out@ == before.push(t));
                    assert(token_views(before).len() == before.len());
                    assert(char_tokens(line@.take(i as int)).len() == i);
                    assert(before.len() == i);
                    assert forall|k: int| 0 <= k < i + 1 implies token_views(out@)[k]
                        == char_tokens(line@.take(i + 1))[k] by {
                        assert(char_tokens(line@.take(i + 1))[k] == seq![line@.take(i + 1)[k]]);
                        if k < i {
                            assert(out@[k] == before[k]);
                            assert(token_views(before)[k] == char_tokens(line@.take(i as int))[k]);
                            assert(char_tokens(line@.take(i as int))[k] == seq![
                                line@.take(i as int)[k],
                            ]);
                        } else {
                            assert(out@[k] == t);
                        }
                    }
                    assert(token_views(out@) =~= char_tokens(line@.take(i + 1)));
                }
                i += 1;
            }
            proof {
                assert(line@.take(n as int) =~= line@);
            }
        },
        CountOption::Word => {
            let n = line.unicode_len();
            let mut start: usize = 0;
            let mut i: usize = 0;
            proof {
                assert(line@.skip(0) =~= line@);
                assert(line@.subrange(0, 0) =~= Seq::<char>::empty());
                assert(token_views(out@) + words_from(line@, Seq::empty()) =~= words_from(
                    line@,
                    Seq::empty(),
                ));
            }
            while i < n
                invariant
                    0 <= start <= i <= n == line@.len(),
                    forall|k: int| start <= k < i ==> is_word_char(#[trigger] line@[k]),
                    words_of(line@) == token_views(out@) + words_from(
                        line@.skip(i as int),
                        line@.subrange(start as int, i as int),
                    ),
                decreases n - i,
            {
                let ghost cur = line@.subrange(start as int, i as int);
                proof {
                    assert(line@.skip(i as int)[0] == line@[i as int]);
                    assert(line@.skip(i as int).drop_first() =~= line@.skip(i + 1));
                }
                let c = line.get_char(i);
                if word_char(c) {
                    proof {
                        assert(cur.push(line@[i as int]) =~= line@.subrange(start as int, i + 1));
                    }
                    i += 1;
                } else {
                    if start < i {
                        let t = line.substring_char(start, i).to_owned();
                        out.push(t);
                        proof {
                            assert(token_views(out@) =~= token_views(out@.drop_last()).push(cur));
                            assert((token_views(out@.drop_last()) + (seq![cur] + words_from(
                                line@.skip(i + 1),
                                Seq::empty(),
                            ))) =~= token_views(out@) + words_from(line@.skip(i + 1), Seq::empty()));
                        }
                    }
                    proof {
                        assert(line@.subrange(i + 1, i + 1) =~= Seq::<char>::empty());
                    }
                    i += 1;
                    start = i;
                }
            }
            proof {
                assert(line@.skip(n as int).len() == 0);
            }
            if start < n {
                let ghost cur = line@.subrange(start as int, n as int);
                let t = line.substring_char(start, n).to_owned();
                out.push(t);
                proof {
                    assert(token_views(out@) =~= token_views(out@.drop_last()).push(cur));
                    assert((token_views(out@.drop_last()) + seq![cur]) =~= token_views(out@));
                }
            }
        },
        CountOption::Line => {
            out.push(line.to_owned());
            proof {
                assert(token_views(out@) =~= seq![line@]);
            }
        },
    }
    out
}

proof fn lemma_words_from_runs(s: Seq<char>, cur: Seq<char>)
    requires
        forall|j: int| 0 <= j < cur.len() ==> is_word_char(#[trigger] cur[j]),
    ensures
        forall|i: int|
            0 <= i < words_from(s, cur).len() ==> #[trigger] words_from(s, cur)[i].len() > 0,
        forall|i: int, j: int|
            0 <= i < words_from(s, cur).len() && 0 <= j < words_from(s, cur)[i].len()
                ==> is_word_char(#[trigger] words_from(s, cur)[i][j]),
    decreases s.len(),
{
    let ws = words_from(s, cur);
    if s.len() == 0 {
        if cur.len() > 0 {
            assert forall|i: int| 0 <= i < ws.len() implies #[trigger] ws[i].len() > 0 by {
                assert(ws[i] == cur);
            }
            assert forall|i: int, j: int|
                0 <= i < ws.len() && 0 <= j < ws[i].len() implies is_word_char(
                #[trigger] ws[i][j],
            ) by {
                assert(ws[i] == cur);
            }
        }
    } else if is_word_char(s[0]) {
        assert forall|j: int| 0 <= j < cur.push(s[0]).len() implies is_word_char(
            #[trigger] cur.push(s[0])[j],
        ) by {
            if j < cur.len() {
                assert(cur.push(s[0])[j] == cur[j]);
            }
        }
        lemma_words_from_runs(s.drop_first(), cur.push(s[0]));
        let rec = words_from(s.drop_first(), cur.push(s[0]));
        assert forall|i: int| 0 <= i < ws.len() implies #[trigger] ws[i].len() > 0 by {
            assert(rec[i].len() > 0);
        }
        assert forall|i: int, j: int|
            0 <= i < ws.len() && 0 <= j < ws[i].len() implies is_word_char(
            #[trigger] ws[i][j],
        ) by {
            assert(is_word_char(rec[i][j]));
        }
    } else if cur.len() == 0 {
        lemma_words_from_runs(s.drop_first(), Seq::empty());
        let rec = words_from(s.drop_first(), Seq::empty());
        assert forall|i: int| 0 <= i < ws.len() implies #[trigger] ws[i].len() > 0 by {
            assert(rec[i].len() > 0);
        }
        assert forall|i: int, j: int|
            0 <= i < ws.len() && 0 <= j < ws[i].len() implies is_word_char(
            #[trigger] ws[i][j],
        ) by {
            assert(is_word_char(rec[i][j]));
        }
    } else {
        lemma_words_from_runs(s.drop_first(), Seq::empty());
        let rec = words_from(s.drop_first(), Seq::empty());
        assert forall|i: int| 0 <= i < ws.len() implies #[trigger] ws[i].len() > 0 by {
            if i > 0 {
                assert(ws[i] == rec[i - 1]);
                assert(rec[i - 1].len() > 0);
            } else {
                assert(ws[i] == cur);
            }
        }
        assert forall|i: int, j: int|
            0 <= i < ws.len() && 0 <= j < ws[i].len() implies is_word_char(
            #[trigger] ws[i][j],
        ) by {
            if i > 0 {
                assert(ws[i] == rec[i - 1]);
                assert(is_word_char(rec[i - 1][j]));
            } else {
                assert(ws[i] == cur);
            }
        }
    }
}

/// Every word of a line is nonempty and consists of word characters alone:
/// separators never appear in a word, and the empty string is never one.
pub proof fn lemma_words_are_word_runs(s: Seq<char>)
    ensures
        forall|i: int| 0 <= i < words_of(s).len() ==> #[trigger] words_of(s)[i].len() > 0,
        forall|i: int, j: int|
            0 <= i < words_of(s).len() && 0 <= j < words_of(s)[i].len() ==> is_word_char(
                #[trigger] words_of(s)[i][j],
            ),
{
    lemma_words_from_runs(s, Seq::empty());
}

/// A line of separator characters alone contains no words at all.
pub proof fn lemma_no_word_chars_no_words(s: Seq<char>)
    requires
        forall|i: int| 0 <= i < s.len() ==> !is_word_char(#[trigger] s[i]),
    ensures
        words_of(s) == Seq::<Seq<char>>::empty(),
    decreases s.len(),
{
    if s.len() > 0 {
        assert(forall|i: int|
            0 <= i < s.drop_first().len() ==> !is_word_char(#[trigger] s.drop_first()[i]));
        lemma_no_word_chars_no_words(s.drop_first());
    }
}

} // verus!

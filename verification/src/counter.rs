//! The counting pass: a byte buffer in, a completed frequency table out.
//!
//! The buffer is read line by line; each line is decoded as UTF-8 and its
//! tokens (characters, words, or the line itself) are added to the table.
//! A line that is not valid UTF-8 aborts the whole pass: no table is
//! returned.

use crate::lines::bytes_to_str;
use crate::lines::find_line_break;
use crate::lines::lemma_decode_le_bytes;
use crate::lines::lemma_line_break_at;
use crate::lines::spec_lines;
use crate::lines::strip_cr;
use crate::options::CountOption;
use crate::table::count_in;
use crate::table::FreqTable;
use crate::tokenize::is_word_char;
use crate::tokenize::lemma_no_word_chars_no_words;
use crate::tokenize::lemma_words_len;
use crate::tokenize::line_tokens;
use crate::tokenize::token_views;
use crate::tokenize::tokenize_line;
use vstd::prelude::*;
use vstd::utf8::decode_utf8;
use vstd::utf8::valid_utf8;

verus! {

/// The tokens of a sequence of raw lines, in reading order.
pub open spec fn tokens_of_lines(ls: Seq<Seq<u8>>, mode: CountOption) -> Seq<Seq<char>>
    decreases ls.len(),
{
    if ls.len() == 0 {
        Seq::empty()
    } else {
        line_tokens(decode_utf8(ls[0]), mode) + tokens_of_lines(ls.drop_first(), mode)
    }
}

/// All tokens of a byte buffer: the tokens of its lines, line by line.
pub open spec fn spec_tokens(bytes: Seq<u8>, mode: CountOption) -> Seq<Seq<char>> {
    tokens_of_lines(spec_lines(bytes), mode)
}

/// Whether every line of the buffer is valid UTF-8.
pub open spec fn all_lines_utf8(bytes: Seq<u8>) -> bool {
    forall|i: int|
        0 <= i < spec_lines(bytes).len() ==> valid_utf8(#[trigger] spec_lines(bytes)[i])
}

/// The frequency table of a token stream: each distinct token mapped to the
/// number of its occurrences.
pub open spec fn freq_of(toks: Seq<Seq<char>>) -> Map<Seq<char>, nat>
    decreases toks.len(),
{
    if toks.len() == 0 {
        Map::empty()
    } else {
        let m = freq_of(toks.drop_last());
        m.insert(toks.last(), (count_in(m, toks.last()) + 1) as nat)
    }
}

/// The sum of the values of a finite mapping from token to count.
pub open spec fn map_sum(m: Map<Seq<char>, nat>) -> nat
    decreases m.dom().len(),
    when m.dom().finite()
{
    if m.dom().len() == 0 {
        0
    } else {
        let k = m.dom().choose();
        m[k] + map_sum(m.remove(k))
    }
}

/// `map_sum` can be peeled off at any key, not only the chosen one.
proof fn lemma_map_sum_remove(m: Map<Seq<char>, nat>, x: Seq<char>)
    requires
        m.dom().finite(),
        m.dom().contains(x),
    ensures
        map_sum(m) == m[x] + map_sum(m.remove(x)),
    decreases m.dom().len(),
{
    broadcast use vstd::set_lib::group_set_lib_default;

    let c = m.dom().choose();
    assert(m.dom().contains(c));
    if c != x {
        lemma_map_sum_remove(m.remove(c), x);
        lemma_map_sum_remove(m.remove(x), c);
        assert(m.remove(c).remove(x) =~= m.remove(x).remove(c));
    }
}

/// Inserting a fresh key adds exactly its value to the sum.
proof fn lemma_map_sum_insert(m: Map<Seq<char>, nat>, k: Seq<char>, v: nat)
    requires
        m.dom().finite(),
        !m.dom().contains(k),
    ensures
        map_sum(m.insert(k, v)) == map_sum(m) + v,
{
    broadcast use vstd::set_lib::group_set_lib_default;

    lemma_map_sum_remove(m.insert(k, v), k);
    assert(m.insert(k, v).remove(k) =~= m);
}

/// Overwriting a present key moves the sum by the difference.
proof fn lemma_map_sum_overwrite(m: Map<Seq<char>, nat>, k: Seq<char>, v: nat)
    requires
        m.dom().finite(),
        m.dom().contains(k),
    ensures
        map_sum(m.insert(k, v)) == map_sum(m) - m[k] + v,
{
    broadcast use vstd::set_lib::group_set_lib_default;

    lemma_map_sum_remove(m.insert(k, v), k);
    lemma_map_sum_remove(m, k);
    assert(m.insert(k, v).remove(k) =~= m.remove(k));
}

/// The sum of all counts of a token stream's frequency table is the length
/// of the stream: every token occurrence is counted exactly once.
pub proof fn lemma_freq_of_sum(toks: Seq<Seq<char>>)
    ensures
        freq_of(toks).dom().finite(),
        map_sum(freq_of(toks)) == toks.len(),
    decreases toks.len(),
{
    if toks.len() > 0 {
        lemma_freq_of_sum(toks.drop_last());
        let m = freq_of(toks.drop_last());
        let t = toks.last();
        if m.dom().contains(t) {
            lemma_map_sum_overwrite(m, t, (count_in(m, t) + 1) as nat);
        } else {
            lemma_map_sum_insert(m, t, (count_in(m, t) + 1) as nat);
        }
    }
}

/// Appending one token to the stream inserts it with its count raised by one.
pub proof fn lemma_freq_push(toks: Seq<Seq<char>>, t: Seq<char>)
    ensures
        freq_of(toks.push(t)) == freq_of(toks).insert(t, (count_in(freq_of(toks), t) + 1) as nat),
{
    assert(toks.push(t).drop_last() =~= toks);
    assert(toks.push(t).last() == t);
}

/// Reading one more line appends that line's tokens to the stream.
proof fn lemma_tokens_of_lines_push(ls: Seq<Seq<u8>>, l: Seq<u8>, mode: CountOption)
    ensures
        tokens_of_lines(ls.push(l), mode) == tokens_of_lines(ls, mode) + line_tokens(
            decode_utf8(l),
            mode,
        ),
    decreases ls.len(),
{
    if ls.len() == 0 {
        assert(ls.push(l)[0] == l);
        assert(ls.push(l).drop_first() =~= Seq::<Seq<u8>>::empty());
        assert(tokens_of_lines(Seq::<Seq<u8>>::empty(), mode) == Seq::<Seq<char>>::empty());
        assert(tokens_of_lines(ls.push(l), mode) == line_tokens(decode_utf8(l), mode)
            + tokens_of_lines(Seq::<Seq<u8>>::empty(), mode));
        assert(tokens_of_lines(ls.push(l), mode) =~= tokens_of_lines(ls, mode) + line_tokens(
            decode_utf8(l),
            mode,
        ));
    } else {
        assert(ls.push(l)[0] == ls[0]);
        assert(ls.push(l).drop_first() =~= ls.drop_first().push(l));
        lemma_tokens_of_lines_push(ls.drop_first(), l, mode);
        assert(tokens_of_lines(ls.push(l), mode) =~= tokens_of_lines(ls, mode) + line_tokens(
            decode_utf8(l),
            mode,
        ));
    }
}

/// The single failure of counting: some line's bytes are not valid UTF-8.
#[derive(Debug, Clone, Copy, PartialEq, Eq, Structural)]
pub struct DecodeError {
    /// The index of the first line that failed to decode.
    pub line: usize,
}

/// Count the tokens of every line of `input` at the granularity selected
/// by `option`.
///
/// On success the table maps each distinct token to its number of
/// occurrences over the whole input, and the sum of all counts equals the
/// total number of tokens read.  When some line is not valid UTF-8 the
/// whole pass fails with the index of the first such line and no table is
/// returned.
pub fn count(input: &[u8], option: CountOption) -> (r: Result<FreqTable, DecodeError>)
    ensures
        match r {
            Ok(table) => {
                &&& all_lines_utf8(input@)
                &&& table.wf()
                &&& table@ == freq_of(spec_tokens(input@, option))
                &&& table.total() == spec_tokens(input@, option).len()
            },
            Err(e) => {
                &&& !all_lines_utf8(input@)
                &&& e.line < spec_lines(input@).len()
                &&& !valid_utf8(spec_lines(input@)[e.line as int])
                &&& forall|i: int|
                    0 <= i < e.line ==> valid_utf8(#[trigger] spec_lines(input@)[i])
            },
        },
{
    let n = input.len();
    let mut table = FreqTable::new();
    let mut pos: usize = 0;
    let mut lineno: usize = 0;
    let ghost mut done: Seq<Seq<u8>> = Seq::empty();
    proof {
        assert(input@.skip(0) =~= input@);
        assert(done + spec_lines(input@) =~= spec_lines(input@));
    }
    while pos < n
        invariant
            n == input@.len(),
            0 <= pos <= n,
            lineno == done.len(),
            lineno <= pos,
            table.wf(),
            spec_lines(input@) == done + spec_lines(input@.skip(pos as int)),
            forall|i: int| 0 <= i < done.len() ==> valid_utf8(#[trigger] done[i]),
            table@ == freq_of(tokens_of_lines(done, option)),
            table.total() == tokens_of_lines(done, option).len(),
            table.total() <= pos,
        decreases n - pos,
    {
        let nl = find_line_break(input, pos);
        let terminated = nl < n;
        let next_pos = if terminated {
            nl + 1
        } else {
            n
        };
        let mut end = nl;
        if terminated && end > pos && input[end - 1] == 0x0du8 {
            end = end - 1;
        }
        let line_slice = &input[pos..end];
        let ghost content = line_slice@;
        let ghost sk = input@.skip(pos as int);
        proof {
            assert forall|k2: int| 0 <= k2 < nl - pos implies sk[k2] != 0x0au8 by {
                assert(sk[k2] == input@[pos + k2]);
            }
            if nl < n {
                assert(sk[nl - pos] == input@[nl as int]);
            }
            lemma_line_break_at(sk, nl - pos);
            if terminated {
                assert(sk.take(nl - pos) =~= input@.subrange(pos as int, nl as int));
                assert(strip_cr(input@.subrange(pos as int, nl as int)) =~= content);
                assert(sk.skip(nl - pos + 1) =~= input@.skip(next_pos as int));
            } else {
                assert(sk =~= content);
                assert(input@.skip(next_pos as int).len() == 0);
            }
            assert(spec_lines(sk) =~= seq![content] + spec_lines(input@.skip(next_pos as int)));
            assert(spec_lines(input@)[lineno as int] == content);
        }
        match bytes_to_str(line_slice) {
            None => {
                proof {
                    assert forall|i: int| 0 <= i < lineno implies valid_utf8(
                        #[trigger] spec_lines(input@)[i],
                    ) by {
                        assert(spec_lines(input@)[i] == done[i]);
                    }
                }
                return Err(DecodeError { line: lineno });
            },
            Some(s) => {
                let toks = tokenize_line(s, option);
                let ghost base = tokens_of_lines(done, option);
                let ghost tvs = token_views(toks@);
                proof {
                    lemma_decode_le_bytes(content);
                    match option {
                        CountOption::Char => {
                            assert(tvs.len() == decode_utf8(content).len());
                        },
                        CountOption::Word => {
                            lemma_words_len(decode_utf8(content));
                        },
                        CountOption::Line => {},
                    }
                    assert(content.len() <= next_pos - pos);
                    assert(base.len() + tvs.len() <= next_pos);
                    assert(base + tvs.take(0) =~= base);
                }
                let mut ti: usize = 0;
                while ti < toks.len()
                    invariant
                        table.wf(),
                        0 <= ti <= toks@.len(),
                        tvs == token_views(toks@),
                        tvs.len() == toks@.len(),
                        base.len() + tvs.len() <= next_pos <= n == input@.len(),
                        table@ == freq_of(base + tvs.take(ti as int)),
                        table.total() == base.len() + ti,
                    decreases toks@.len() - ti,
                {
                    let t = toks[ti].clone();
                    proof {
                        assert(t@ == tvs[ti as int]);
                        assert((base + tvs.take(ti as int)).push(tvs[ti as int]) =~= base
                            + tvs.take(ti + 1));
                        lemma_freq_push(base + tvs.take(ti as int), tvs[ti as int]);
                    }
                    table.increment(t);
                    ti += 1;
                }
                proof {
                    assert(tvs.take(toks@.len() as int) =~= tvs);
                    lemma_tokens_of_lines_push(done, content, option);
                    assert(tokens_of_lines(done.push(content), option) =~= base + tvs);
                    assert(spec_lines(input@) =~= done.push(content) + spec_lines(
                        input@.skip(next_pos as int),
                    ));
                    done = done.push(content);
                }
                pos = next_pos;
                lineno = lineno + 1;
            },
        }
    }
    proof {
        assert(input@.skip(pos as int).len() == 0);
        assert(spec_lines(input@) =~= done);
        assert forall|i: int| 0 <= i < spec_lines(input@).len() implies valid_utf8(
            #[trigger] spec_lines(input@)[i],
        ) by {
            assert(spec_lines(input@)[i] == done[i]);
        }
    }
    Ok(table)
}

/// The sum of the values in a counting pass's table equals the number of
/// tokens of the chosen granularity found in the input.
pub proof fn lemma_sum_is_token_count(bytes: Seq<u8>, mode: CountOption)
    ensures
        map_sum(freq_of(spec_tokens(bytes, mode))) == spec_tokens(bytes, mode).len(),
{
    lemma_freq_of_sum(spec_tokens(bytes, mode));
}

/// Counting is a function of the bytes and the mode alone: two passes over
/// byte-identical inputs yield tables with identical key sets and identical
/// counts.
pub proof fn lemma_count_deterministic(
    t1: FreqTable,
    t2: FreqTable,
    a: Seq<u8>,
    b: Seq<u8>,
    mode: CountOption,
)
    requires
        a == b,
        t1@ == freq_of(spec_tokens(a, mode)),
        t2@ == freq_of(spec_tokens(b, mode)),
    ensures
        t1@.dom() == t2@.dom(),
        forall|k: Seq<char>| #[trigger] t1@.dom().contains(k) ==> t1@[k] == t2@[k],
{
}

/// Empty input holds no lines and no tokens: the table is empty, in every mode.
pub proof fn lemma_empty_input(mode: CountOption)
    ensures
        spec_tokens(Seq::empty(), mode) == Seq::<Seq<char>>::empty(),
        freq_of(spec_tokens(Seq::empty(), mode)) == Map::<Seq<char>, nat>::empty(),
{
}

/// Each token occurrence raises exactly its own count by one, and no other:
/// counts never decrease as the token stream grows.
pub proof fn lemma_counts_monotonic(toks: Seq<Seq<char>>, t: Seq<char>)
    ensures
        count_in(freq_of(toks.push(t)), t) == count_in(freq_of(toks), t) + 1,
        forall|u: Seq<char>|
            u != t ==> count_in(freq_of(toks.push(t)), u) == count_in(freq_of(toks), u),
{
    lemma_freq_push(toks, t);
}

/// A line of only separator characters contributes no entries in word mode.
pub proof fn lemma_separator_line_no_words(line: Seq<char>)
    requires
        forall|i: int| 0 <= i < line.len() ==> !is_word_char(#[trigger] line[i]),
    ensures
        line_tokens(line, CountOption::Word) == Seq::<Seq<char>>::empty(),
{
    lemma_no_word_chars_no_words(line);
}

} // verus!


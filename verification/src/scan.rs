use vstd::prelude::*;
use vstd::string::*;
use crate::strutil::views_of;

verus! {

/// An identifier character: an ASCII letter, an ASCII digit, or an underscore.
pub open spec fn is_word_char(c: char) -> bool {
    ||| 'a' as u32 <= c as u32 && c as u32 <= 'z' as u32
    ||| 'A' as u32 <= c as u32 && c as u32 <= 'Z' as u32
    ||| '0' as u32 <= c as u32 && c as u32 <= '9' as u32
    ||| c == '_'
}

/// An uppercase ASCII letter.
pub open spec fn is_upper_char(c: char) -> bool {
    'A' as u32 <= c as u32 && c as u32 <= 'Z' as u32
}

/// The position at which the identifier run beginning at `i` ends: the
/// first position at or after `i` that holds no identifier character.
pub open spec fn run_end(s: Seq<char>, i: int) -> int
    decreases s.len() - i,
{
    if i < 0 || i >= s.len() || !is_word_char(s[i]) {
        i
    } else {
        run_end(s, i + 1)
    }
}

pub proof fn lemma_run_end(s: Seq<char>, i: int)
    requires
        0 <= i <= s.len(),
    ensures
        i <= run_end(s, i) <= s.len(),
        forall|j: int| i <= j < run_end(s, i) ==> is_word_char(s[j]),
        run_end(s, i) < s.len() ==> !is_word_char(s[run_end(s, i)]),
    decreases s.len() - i,
{
    if i < s.len() && is_word_char(s[i]) {
        lemma_run_end(s, i + 1);
    }
}

/// A run of identifier characters over `[i, j)` that stops at `j` ends
/// exactly at `j`.
proof fn lemma_run_end_at(s: Seq<char>, i: int, j: int)
    requires
        0 <= i <= j <= s.len(),
        forall|k: int| i <= k < j ==> is_word_char(s[k]),
        j == s.len() || !is_word_char(s[j]),
    ensures
        run_end(s, i) == j,
    decreases j - i,
{
    if i < j {
        lemma_run_end_at(s, i + 1, j);
    }
}

/// The identifier tokens found from position `i` on: every maximal run of
/// identifier characters that begins, at a run boundary, with an uppercase
/// letter, in order of appearance. This is the lexical reference heuristic:
/// it does not exclude string literals or comments.
pub open spec fn tokens_from(s: Seq<char>, i: int) -> Seq<Seq<char>>
    decreases s.len() - i,
    via tokens_from_decreases
{
    if i < 0 || i >= s.len() {
        Seq::empty()
    } else if is_word_char(s[i]) && (i == 0 || !is_word_char(s[i - 1])) && is_upper_char(s[i]) {
        seq![s.subrange(i, run_end(s, i))] + tokens_from(s, run_end(s, i))
    } else {
        tokens_from(s, i + 1)
    }
}

#[via_fn]
proof fn tokens_from_decreases(s: Seq<char>, i: int) {
    if 0 <= i < s.len() {
        lemma_run_end(s, i);
    }
}

/// All identifier tokens of a unit's contents, leftmost first.
pub open spec fn tokens_of(s: Seq<char>) -> Seq<Seq<char>> {
    tokens_from(s, 0)
}

fn word_char(c: char) -> (b: bool)
    ensures
        b == is_word_char(c),
{
    let u = c as u32;
    ('a' as u32 <= u && u <= 'z' as u32) || ('A' as u32 <= u && u <= 'Z' as u32) || ('0' as u32 <= u
        && u <= '9' as u32) || c == '_'
}

fn upper_char(c: char) -> (b: bool)
    ensures
        b == is_upper_char(c),
{
    let u = c as u32;
    'A' as u32 <= u && u <= 'Z' as u32
}

/// Scans a unit's textual contents and returns every maximal identifier
/// token that starts with an uppercase letter, in order of appearance.
/// A lexical heuristic, not a parse: tokens inside string literals or
/// comments are reported too.
pub fn get_classes(contents: &str) -> (r: Vec<String>)
    ensures
        views_of(r@) == tokens_of(contents@),
{
    let n = contents.unicode_len();
    let mut out: Vec<String> = Vec::new();
    let mut i: usize = 0;
    while i < n
        invariant
            n == contents@.len(),
            i <= n,
            views_of(out@) + tokens_from(contents@, i as int) =~~= tokens_of(contents@),
        decreases n - i,
    {
        let c = contents.get_char(i);
        let start_ok = i == 0 || !word_char(contents.get_char(i - 1));
        if word_char(c) && start_ok && upper_char(c) {
            let mut j = i + 1;
            while j < n
                invariant
                    n == contents@.len(),
                    i < j <= n,
                    forall|k: int| i <= k < j ==> is_word_char(contents@[k]),
                ensures
                    i < j <= n,
                    forall|k: int| i <= k < j ==> is_word_char(contents@[k]),
                    j == n || !is_word_char(contents@[j as int]),
                decreases n - j,
            {
                if word_char(contents.get_char(j)) {
                    j += 1;
                } else {
                    break ;
                }
            }
            proof {
                lemma_run_end_at(contents@, i as int, j as int);
            }
            let tok = contents.substring_char(i, j).to_owned();
            let ghost old_out = out@;
            out.push(tok);
            proof {
                assert(views_of(out@) =~~= views_of(old_out).push(
                    contents@.subrange(i as int, j as int),
                ));
                assert(views_of(out@) + tokens_from(contents@, j as int) =~~= tokens_of(
                    contents@,
                ));
            }
            i = j;
        } else {
            proof {
                assert(tokens_from(contents@, i as int) =~~= tokens_from(contents@, i + 1));
            }
            i += 1;
        }
    }
    proof {
        assert(views_of(out@) =~~= tokens_of(contents@));
    }
    out
}

} // verus!

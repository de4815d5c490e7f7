use vstd::prelude::*;
use vstd::string::*;

verus! {

/// View of a list of strings as a list of character sequences.
pub open spec fn views_of(v: Seq<String>) -> Seq<Seq<char>> {
    v.map_values(|s: String| s@)
}

/// Index of the last occurrence of `c` in `s`, or -1 when `c` does not occur.
pub open spec fn last_pos(s: Seq<char>, c: char) -> int
    decreases s.len(),
{
    if s.len() == 0 {
        -1
    } else if s[s.len() - 1] == c {
        s.len() - 1
    } else {
        last_pos(s.drop_last(), c)
    }
}

pub proof fn lemma_last_pos(s: Seq<char>, c: char)
    ensures
        -1 <= last_pos(s, c) < s.len(),
        last_pos(s, c) >= 0 ==> s[last_pos(s, c)] == c,
        forall|j: int| last_pos(s, c) < j < s.len() ==> s[j] != c,
    decreases s.len(),
{
    if s.len() > 0 && s[s.len() - 1] != c {
        lemma_last_pos(s.drop_last(), c);
        assert forall|j: int| last_pos(s, c) < j < s.len() implies s[j] != c by {
            if j < s.len() - 1 {
                assert(s.drop_last()[j] == s[j]);
            }
        }
    }
}

/// The unit name a path derives: the final path component without its
/// extension. A leading dot alone does not begin an extension, so the
/// stem of a dot-file is the whole component.
pub open spec fn unit_name(path: Seq<char>) -> Seq<char> {
    let comp = path.subrange(last_pos(path, '/') + 1, path.len() as int);
    let p = last_pos(comp, '.');
    if p > 0 {
        comp.subrange(0, p)
    } else {
        comp
    }
}

/// Computes the unit name (file stem) of a path.
pub fn file_stem(path: &str) -> (r: String)
    ensures
        r@ == unit_name(path@),
{
    let n = path.unicode_len();
    let mut start: usize = 0;
    let mut i: usize = 0;
    while i < n
        invariant
            n == path@.len(),
            i <= n,
            start <= i,
            start as int == last_pos(path@.subrange(0, i as int), '/') + 1,
        decreases n - i,
    {
        proof {
            assert(path@.subrange(0, i + 1).drop_last() =~= path@.subrange(0, i as int));
            assert(path@.subrange(0, i + 1)[i as int] == path@[i as int]);
        }
        if path.get_char(i) == '/' {
            start = i + 1;
        }
        i += 1;
    }
    proof {
        assert(path@.subrange(0, n as int) =~= path@);
        lemma_last_pos(path@, '/');
    }
    let ghost comp = path@.subrange(start as int, n as int);
    let mut lastdot: usize = start;
    let mut have_dot = false;
    let mut j: usize = start;
    while j < n
        invariant
            n == path@.len(),
            start <= j <= n,
            start <= lastdot,
            have_dot ==> lastdot < j,
            comp == path@.subrange(start as int, n as int),
            have_dot ==> lastdot - start == last_pos(comp.subrange(0, j - start), '.'),
            !have_dot ==> -1 == last_pos(comp.subrange(0, j - start), '.'),
        decreases n - j,
    {
        proof {
            assert(comp.subrange(0, j - start + 1).drop_last() =~= comp.subrange(0, j - start));
            assert(comp.subrange(0, j - start + 1)[j - start] == path@[j as int]);
        }
        if path.get_char(j) == '.' {
            lastdot = j;
            have_dot = true;
        }
        j += 1;
    }
    proof {
        assert(comp.subrange(0, n - start) =~= comp);
    }
    let stem_end: usize = if have_dot && lastdot > start {
        lastdot
    } else {
        n
    };
    let piece = path.substring_char(start, stem_end);
    proof {
        if have_dot && lastdot > start {
            assert(path@.subrange(start as int, lastdot as int) =~= comp.subrange(
                0,
                lastdot - start,
            ));
        } else {
            assert(path@.subrange(start as int, n as int) =~= comp);
        }
    }
    piece.to_owned()
}

/// The position in `p` of the dot that begins the extension of its final
/// component, or `p`'s length when that component has no extension (a
/// dot-file's leading dot begins none).
pub fn ext_cut(p: &str) -> (r: usize)
    ensures
        ({
            let comp_start = last_pos(p@, '/') + 1;
            let d = last_pos(p@.subrange(comp_start, p@.len() as int), '.');
            r as int == if d > 0 {
                comp_start + d
            } else {
                p@.len() as int
            }
        }),
        r <= p@.len(),
{
    let n = p.unicode_len();
    let mut start: usize = 0;
    let mut i: usize = 0;
    while i < n
        invariant
            n == p@.len(),
            i <= n,
            start <= i,
            start as int == last_pos(p@.subrange(0, i as int), '/') + 1,
        decreases n - i,
    {
        proof {
            assert(p@.subrange(0, i + 1).drop_last() =~= p@.subrange(0, i as int));
            assert(p@.subrange(0, i + 1)[i as int] == p@[i as int]);
        }
        if p.get_char(i) == '/' {
            start = i + 1;
        }
        i += 1;
    }
    proof {
        assert(p@.subrange(0, n as int) =~= p@);
        lemma_last_pos(p@, '/');
    }
    let ghost comp = p@.subrange(start as int, n as int);
    let mut lastdot: usize = start;
    let mut have_dot = false;
    let mut j: usize = start;
    while j < n
        invariant
            n == p@.len(),
            start <= j <= n,
            start <= lastdot,
            have_dot ==> lastdot < j,
            comp == p@.subrange(start as int, n as int),
            have_dot ==> lastdot - start == last_pos(comp.subrange(0, j - start), '.'),
            !have_dot ==> -1 == last_pos(comp.subrange(0, j - start), '.'),
        decreases n - j,
    {
        proof {
            assert(comp.subrange(0, j - start + 1).drop_last() =~= comp.subrange(0, j - start));
            assert(comp.subrange(0, j - start + 1)[j - start] == p@[j as int]);
        }
        if p.get_char(j) == '.' {
            lastdot = j;
            have_dot = true;
        }
        j += 1;
    }
    proof {
        assert(comp.subrange(0, n - start) =~= comp);
    }
    if have_dot && lastdot > start {
        lastdot
    } else {
        n
    }
}

/// A class of characters that a trim removes.
#[derive(Clone, Copy, PartialEq, Eq, Structural, Debug)]
pub enum TrimClass {
    Space,
    Quote,
    OpenBracket,
    CloseBracket,
}

pub open spec fn in_class(cl: TrimClass, c: char) -> bool {
    match cl {
        TrimClass::Space => c == ' ' || c == '\t' || c == '\r' || c == '\n',
        TrimClass::Quote => c == '"' || c == '\'',
        TrimClass::OpenBracket => c == '[',
        TrimClass::CloseBracket => c == ']',
    }
}

fn char_in_class(cl: TrimClass, c: char) -> (r: bool)
    ensures
        r == in_class(cl, c),
{
    match cl {
        TrimClass::Space => c == ' ' || c == '\t' || c == '\r' || c == '\n',
        TrimClass::Quote => c == '"' || c == '\'',
        TrimClass::OpenBracket => c == '[',
        TrimClass::CloseBracket => c == ']',
    }
}

/// `s` without its leading characters of the class.
pub open spec fn trim_start_spec(cl: TrimClass, s: Seq<char>) -> Seq<char>
    decreases s.len(),
{
    if s.len() > 0 && in_class(cl, s[0]) {
        trim_start_spec(cl, s.drop_first())
    } else {
        s
    }
}

/// `s` without its trailing characters of the class.
pub open spec fn trim_end_spec(cl: TrimClass, s: Seq<char>) -> Seq<char>
    decreases s.len(),
{
    if s.len() > 0 && in_class(cl, s.last()) {
        trim_end_spec(cl, s.drop_last())
    } else {
        s
    }
}

/// `s` without leading and trailing characters of the class.
pub open spec fn trim_spec(cl: TrimClass, s: Seq<char>) -> Seq<char> {
    trim_end_spec(cl, trim_start_spec(cl, s))
}

proof fn lemma_trim_start_at(cl: TrimClass, s: Seq<char>, a: int)
    requires
        0 <= a <= s.len(),
        forall|k: int| 0 <= k < a ==> in_class(cl, s[k]),
        a < s.len() ==> !in_class(cl, s[a]),
    ensures
        trim_start_spec(cl, s) == s.subrange(a, s.len() as int),
    decreases s.len(),
{
    if a == 0 {
        assert(s.subrange(0, s.len() as int) =~= s);
    } else {
        assert forall|k: int| 0 <= k < a - 1 implies in_class(cl, s.drop_first()[k]) by {
            assert(s.drop_first()[k] == s[k + 1]);
        }
        if a - 1 < s.drop_first().len() {
            assert(s.drop_first()[a - 1] == s[a]);
        }
        lemma_trim_start_at(cl, s.drop_first(), a - 1);
        assert(s.drop_first().subrange(a - 1, s.drop_first().len() as int) =~= s.subrange(
            a,
            s.len() as int,
        ));
    }
}

proof fn lemma_trim_end_at(cl: TrimClass, s: Seq<char>, b: int)
    requires
        0 <= b <= s.len(),
        forall|k: int| b <= k < s.len() ==> in_class(cl, s[k]),
        b > 0 ==> !in_class(cl, s[b - 1]),
    ensures
        trim_end_spec(cl, s) == s.subrange(0, b),
    decreases s.len(),
{
    if b == s.len() {
        assert(s.subrange(0, s.len() as int) =~= s);
    } else {
        assert forall|k: int| b <= k < s.drop_last().len() implies in_class(
            cl,
            s.drop_last()[k],
        ) by {
            assert(s.drop_last()[k] == s[k]);
        }
        if b > 0 {
            assert(s.drop_last()[b - 1] == s[b - 1]);
        }
        lemma_trim_end_at(cl, s.drop_last(), b);
        assert(s.drop_last().subrange(0, b) =~= s.subrange(0, b));
    }
}

/// Removes the class's characters from both ends of `s`.
pub fn trim_while(s: &str, cl: TrimClass) -> (r: String)
    ensures
        r@ == trim_spec(cl, s@),
{
    let n = s.unicode_len();
    let mut a: usize = 0;
    while a < n
        invariant
            n == s@.len(),
            a <= n,
            forall|k: int| 0 <= k < a ==> in_class(cl, s@[k]),
        ensures
            a <= n,
            forall|k: int| 0 <= k < a ==> in_class(cl, s@[k]),
            a < n ==> !in_class(cl, s@[a as int]),
        decreases n - a,
    {
        if char_in_class(cl, s.get_char(a)) {
            a += 1;
        } else {
            break ;
        }
    }
    proof {
        lemma_trim_start_at(cl, s@, a as int);
    }
    let mut b: usize = n;
    while b > a
        invariant
            n == s@.len(),
            a <= b <= n,
            forall|k: int| b <= k < n ==> in_class(cl, s@[k]),
        ensures
            a <= b <= n,
            forall|k: int| b <= k < n ==> in_class(cl, s@[k]),
            b > a ==> !in_class(cl, s@[b - 1]),
        decreases b,
    {
        if char_in_class(cl, s.get_char(b - 1)) {
            b -= 1;
        } else {
            break ;
        }
    }
    let ghost mid = s@.subrange(a as int, n as int);
    proof {
        assert forall|k: int| b - a <= k < mid.len() implies in_class(cl, mid[k]) by {
            assert(mid[k] == s@[a + k]);
        }
        if b > a {
            assert(mid[b - a - 1] == s@[b - 1]);
        }
        lemma_trim_end_at(cl, mid, b - a);
        assert(mid.subrange(0, b - a) =~= s@.subrange(a as int, b as int));
    }
    s.substring_char(a, b).to_owned()
}

/// Removes the class's characters from the front of `s`.
pub fn trim_start_while(s: &str, cl: TrimClass) -> (r: String)
    ensures
        r@ == trim_start_spec(cl, s@),
{
    let n = s.unicode_len();
    let mut a: usize = 0;
    while a < n
        invariant
            n == s@.len(),
            a <= n,
            forall|k: int| 0 <= k < a ==> in_class(cl, s@[k]),
        ensures
            a <= n,
            forall|k: int| 0 <= k < a ==> in_class(cl, s@[k]),
            a < n ==> !in_class(cl, s@[a as int]),
        decreases n - a,
    {
        if char_in_class(cl, s.get_char(a)) {
            a += 1;
        } else {
            break ;
        }
    }
    proof {
        lemma_trim_start_at(cl, s@, a as int);
    }
    s.substring_char(a, n).to_owned()
}

/// Removes the class's characters from the end of `s`.
pub fn trim_end_while(s: &str, cl: TrimClass) -> (r: String)
    ensures
        r@ == trim_end_spec(cl, s@),
{
    let n = s.unicode_len();
    let mut b: usize = n;
    while b > 0
        invariant
            n == s@.len(),
            b <= n,
            forall|k: int| b <= k < n ==> in_class(cl, s@[k]),
        ensures
            b <= n,
            forall|k: int| b <= k < n ==> in_class(cl, s@[k]),
            b > 0 ==> !in_class(cl, s@[b - 1]),
        decreases b,
    {
        if char_in_class(cl, s.get_char(b - 1)) {
            b -= 1;
        } else {
            break ;
        }
    }
    proof {
        lemma_trim_end_at(cl, s@, b as int);
    }
    s.substring_char(0, b).to_owned()
}

/// Decides whether two strings hold the same characters.
pub fn str_eq(a: &str, b: &str) -> (r: bool)
    ensures
        r == (a@ == b@),
{
    if a.unicode_len() != b.unicode_len() {
        return false;
    }
    let r = str_starts_with(a, b);
    proof {
        assert(a@.subrange(0, b@.len() as int) =~= a@);
    }
    r
}

/// `s` begins with `p`.
pub open spec fn has_prefix(s: Seq<char>, p: Seq<char>) -> bool {
    s.len() >= p.len() && s.subrange(0, p.len() as int) == p
}

/// `s` ends with `p`.
pub open spec fn has_suffix(s: Seq<char>, p: Seq<char>) -> bool {
    s.len() >= p.len() && s.subrange(s.len() - p.len(), s.len() as int) == p
}

/// Decides whether `s` begins with `p`.
pub fn str_starts_with(s: &str, p: &str) -> (r: bool)
    ensures
        r == has_prefix(s@, p@),
{
    let n = s.unicode_len();
    let np = p.unicode_len();
    if n < np {
        proof {
            assert(!has_prefix(s@, p@));
        }
        return false;
    }
    let mut i: usize = 0;
    while i < np
        invariant
            n == s@.len(),
            np == p@.len(),
            np <= n,
            i <= np,
            forall|j: int| 0 <= j < i ==> s@[j] == p@[j],
        decreases np - i,
    {
        if s.get_char(i) != p.get_char(i) {
            proof {
                assert(s@.subrange(0, np as int)[i as int] != p@[i as int]);
            }
            return false;
        }
        i += 1;
    }
    proof {
        assert(s@.subrange(0, np as int) =~= p@);
    }
    true
}

/// Decides whether `s` ends with `p`.
pub fn str_ends_with(s: &str, p: &str) -> (r: bool)
    ensures
        r == has_suffix(s@, p@),
{
    let n = s.unicode_len();
    let np = p.unicode_len();
    if n < np {
        proof {
            assert(!has_suffix(s@, p@));
        }
        return false;
    }
    let base = n - np;
    let mut i: usize = 0;
    while i < np
        invariant
            n == s@.len(),
            np == p@.len(),
            base == n - np,
            i <= np,
            forall|j: int| 0 <= j < i ==> s@[base + j] == p@[j],
        decreases np - i,
    {
        if s.get_char(base + i) != p.get_char(i) {
            proof {
                assert(s@.subrange(n - np, n as int)[i as int] != p@[i as int]);
            }
            return false;
        }
        i += 1;
    }
    proof {
        assert(s@.subrange(n - np, n as int) =~= p@);
    }
    true
}

/// Index of the first occurrence of `c` in `s`, or -1 when `c` does not
/// occur.
pub open spec fn first_pos(s: Seq<char>, c: char) -> int
    decreases s.len(),
{
    if s.len() == 0 {
        -1
    } else if s[0] == c {
        0
    } else {
        let r = first_pos(s.drop_first(), c);
        if r < 0 {
            -1
        } else {
            r + 1
        }
    }
}

pub proof fn lemma_first_pos(s: Seq<char>, c: char)
    ensures
        -1 <= first_pos(s, c) < s.len(),
        first_pos(s, c) >= 0 ==> s[first_pos(s, c)] == c,
        forall|j: int| 0 <= j < first_pos(s, c) ==> s[j] != c,
        first_pos(s, c) == -1 ==> (forall|j: int| 0 <= j < s.len() ==> s[j] != c),
    decreases s.len(),
{
    if s.len() > 0 && s[0] != c {
        lemma_first_pos(s.drop_first(), c);
        assert forall|j: int| 0 <= j < first_pos(s, c) implies s[j] != c by {
            if j > 0 {
                assert(s.drop_first()[j - 1] == s[j]);
            }
        }
        if first_pos(s, c) == -1 {
            assert forall|j: int| 0 <= j < s.len() implies s[j] != c by {
                if j > 0 {
                    assert(s.drop_first()[j - 1] == s[j]);
                }
            }
        }
    }
}

/// The first occurrence of `c` at or after a position every earlier
/// position of which holds no `c`.
pub proof fn lemma_first_pos_at(s: Seq<char>, c: char, j: int)
    requires
        0 <= j <= s.len(),
        forall|k: int| 0 <= k < j ==> s[k] != c,
        j < s.len() ==> s[j] == c,
    ensures
        j < s.len() ==> first_pos(s, c) == j,
        j == s.len() ==> first_pos(s, c) == -1,
    decreases s.len(),
{
    if s.len() > 0 && j > 0 {
        assert forall|k: int| 0 <= k < j - 1 implies s.drop_first()[k] != c by {
            assert(s.drop_first()[k] == s[k + 1]);
        }
        if j - 1 < s.drop_first().len() {
            assert(s.drop_first()[j - 1] == s[j]);
        }
        lemma_first_pos_at(s.drop_first(), c, j - 1);
    }
}

/// The pieces of `s` between occurrences of the separator. The empty
/// string yields one empty piece.
pub open spec fn split_by(s: Seq<char>, sep: char) -> Seq<Seq<char>>
    decreases s.len(),
    via split_by_decreases
{
    let p = first_pos(s, sep);
    if p < 0 {
        seq![s]
    } else {
        seq![s.subrange(0, p)] + split_by(s.subrange(p + 1, s.len() as int), sep)
    }
}

#[via_fn]
proof fn split_by_decreases(s: Seq<char>, sep: char) {
    lemma_first_pos(s, sep);
}

/// Splits `cp` at the separator, keeping every piece — empty pieces
/// included — in order.
pub fn split_at_char(cp: &str, sep: char) -> (r: Vec<String>)
    ensures
        views_of(r@) == split_by(cp@, sep),
{
    let n = cp.unicode_len();
    let mut out: Vec<String> = Vec::new();
    let mut seg: usize = 0;
    let mut i: usize = 0;
    proof {
        assert(cp@.subrange(0, n as int) =~= cp@);
        assert(views_of(out@) + split_by(cp@.subrange(0, n as int), sep) =~~= split_by(cp@, sep));
    }
    while i < n
        invariant
            n == cp@.len(),
            seg <= i <= n,
            forall|k: int| seg <= k < i ==> cp@[k] != sep,
            views_of(out@) + split_by(cp@.subrange(seg as int, n as int), sep) == split_by(
                cp@,
                sep,
            ),
        decreases n - i,
    {
        if cp.get_char(i) == sep {
            let ghost tail = cp@.subrange(seg as int, n as int);
            let ghost old_out = out@;
            let piece = cp.substring_char(seg, i).to_owned();
            out.push(piece);
            proof {
                assert forall|k: int| 0 <= k < i - seg implies tail[k] != sep by {
                    assert(tail[k] == cp@[seg + k]);
                }
                assert(tail[i - seg] == cp@[i as int]);
                lemma_first_pos_at(tail, sep, i - seg);
                assert(tail.subrange(0, i - seg) =~= cp@.subrange(seg as int, i as int));
                assert(tail.subrange(i - seg + 1, tail.len() as int) =~= cp@.subrange(
                    i + 1,
                    n as int,
                ));
                assert(views_of(out@) =~~= views_of(old_out).push(
                    cp@.subrange(seg as int, i as int),
                ));
                assert(views_of(out@) + split_by(cp@.subrange(i + 1, n as int), sep) =~~= split_by(
                    cp@,
                    sep,
                ));
            }
            seg = i + 1;
        }
        i += 1;
    }
    let ghost tail = cp@.subrange(seg as int, n as int);
    let last = cp.substring_char(seg, n).to_owned();
    let ghost old_out = out@;
    out.push(last);
    proof {
        assert forall|k: int| 0 <= k < tail.len() implies tail[k] != sep by {
            assert(tail[k] == cp@[seg + k]);
        }
        lemma_first_pos_at(tail, sep, tail.len() as int);
        assert(split_by(tail, sep) =~~= seq![tail]);
        assert(views_of(out@) =~~= views_of(old_out).push(tail));
        assert(views_of(out@) =~~= split_by(cp@, sep));
    }
    out
}

} // verus!

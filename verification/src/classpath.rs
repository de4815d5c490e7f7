use vstd::prelude::*;
use vstd::string::*;
use crate::strutil::{has_suffix, str_ends_with, views_of};

verus! {

/// The classpath entries joined with the separator, in order.
pub open spec fn joined_with(parts: Seq<Seq<char>>, sep: Seq<char>) -> Seq<char>
    decreases parts.len(),
{
    if parts.len() == 0 {
        Seq::empty()
    } else if parts.len() == 1 {
        parts[0]
    } else {
        joined_with(parts.drop_last(), sep) + sep + parts.last()
    }
}

/// Joins classpath entries with the separator.
pub fn join_classpath(parts: &Vec<String>, sep: &str) -> (r: String)
    ensures
        r@ == joined_with(views_of(parts@), sep@),
{
    let mut out = String::new();
    let n = parts.len();
    let mut i: usize = 0;
    proof {
        assert(views_of(parts@).subrange(0, 0) =~~= Seq::<Seq<char>>::empty());
        assert(out@ =~= joined_with(views_of(parts@).subrange(0, 0), sep@));
    }
    while i < n
        invariant
            n == parts@.len(),
            i <= n,
            out@ == joined_with(views_of(parts@).subrange(0, i as int), sep@),
        decreases n - i,
    {
        if i > 0 {
            out.append(sep);
        }
        out.append(parts[i].as_str());
        proof {
            assert(views_of(parts@).subrange(0, i + 1).drop_last() =~~= views_of(
                parts@,
            ).subrange(0, i as int));
            assert(views_of(parts@).subrange(0, i + 1).last() == parts@[i as int]@);
            assert(out@ =~= joined_with(views_of(parts@).subrange(0, i + 1), sep@));
        }
        i += 1;
    }
    proof {
        assert(views_of(parts@).subrange(0, n as int) =~~= views_of(parts@));
    }
    out
}

/// A wildcard classpath entry: one that ends in a separator and a star.
pub open spec fn wildcard_entry(e: Seq<char>) -> bool {
    has_suffix(e, "/*"@) || has_suffix(e, "\\*"@)
}

/// Decides whether a classpath entry is a wildcard entry.
pub fn is_wildcard_entry(entry: &str) -> (r: bool)
    ensures
        r == wildcard_entry(entry@),
{
    str_ends_with(entry, "/*") || str_ends_with(entry, "\\*")
}

/// The directory a wildcard entry names: the entry without its final two
/// characters.
pub fn wildcard_dir(entry: &str) -> (r: String)
    requires
        entry@.len() >= 2,
    ensures
        r@ == entry@.subrange(0, entry@.len() - 2),
{
    let n = entry.unicode_len();
    entry.substring_char(0, n - 2).to_owned()
}

/// A file name whose final component carries the archive extension.
pub open spec fn jar_file(name: Seq<char>) -> bool {
    name.len() > 4 && has_suffix(name, ".jar"@) && name[name.len() - 5] != '/'
}

/// Decides whether a directory entry names an archive to put on the
/// expanded classpath.
pub fn has_jar_ext(name: &str) -> (r: bool)
    ensures
        r == jar_file(name@),
{
    let n = name.unicode_len();
    if n <= 4 {
        return false;
    }
    str_ends_with(name, ".jar") && name.get_char(n - 5) != '/'
}

/// The names among `names` that are archives, in order.
pub open spec fn kept_jars(names: Seq<Seq<char>>) -> Seq<Seq<char>>
    decreases names.len(),
{
    if names.len() == 0 {
        Seq::empty()
    } else {
        let rest = kept_jars(names.drop_last());
        if jar_file(names.last()) {
            rest.push(names.last())
        } else {
            rest
        }
    }
}

/// Keeps, in order, the directory entries that name an archive.
pub fn filter_jar_files(names: &Vec<String>) -> (r: Vec<String>)
    ensures
        views_of(r@) == kept_jars(views_of(names@)),
{
    let n = names.len();
    let mut out: Vec<String> = Vec::new();
    let mut i: usize = 0;
    proof {
        assert(views_of(names@).subrange(0, 0) =~~= Seq::<Seq<char>>::empty());
        assert(views_of(out@) =~~= kept_jars(views_of(names@).subrange(0, 0)));
    }
    while i < n
        invariant
            n == names@.len(),
            i <= n,
            views_of(out@) == kept_jars(views_of(names@).subrange(0, i as int)),
        decreases n - i,
    {
        let ghost old_out = out@;
        if has_jar_ext(names[i].as_str()) {
            out.push(names[i].clone());
        }
        proof {
            assert(views_of(names@).subrange(0, i + 1).drop_last() =~~= views_of(
                names@,
            ).subrange(0, i as int));
            assert(views_of(names@).subrange(0, i + 1).last() == names@[i as int]@);
            if jar_file(names@[i as int]@) {
                assert(views_of(out@) =~~= views_of(old_out).push(names@[i as int]@));
            }
            assert(views_of(out@) =~~= kept_jars(views_of(names@).subrange(0, i + 1)));
        }
        i += 1;
    }
    proof {
        assert(views_of(names@).subrange(0, n as int) =~~= views_of(names@));
    }
    out
}

} // verus!

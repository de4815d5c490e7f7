use vstd::prelude::*;
use vstd::string::*;
use crate::strutil::{has_prefix, last_pos, lemma_last_pos};

verus! {

/// `file` lies inside the directory `root`: it begins with `root` and a
/// separator follows.
pub open spec fn maps_into(file: Seq<char>, root: Seq<char>) -> bool {
    file.len() > root.len() && has_prefix(file, root) && file[root.len() as int] == '/'
}

/// `p` with the extension of its final component replaced by `ext`.
/// When the component has no extension — none at all, or only a leading
/// dot — the extension is appended instead.
pub open spec fn replace_ext(p: Seq<char>, ext: Seq<char>) -> Seq<char> {
    let comp_start = last_pos(p, '/') + 1;
    let comp = p.subrange(comp_start, p.len() as int);
    let d = last_pos(comp, '.');
    if d > 0 {
        p.subrange(0, comp_start + d) + seq!['.'] + ext
    } else {
        p + seq!['.'] + ext
    }
}

/// The sequence of characters of the compiled-artifact extension.
pub open spec fn class_ext() -> Seq<char> {
    seq!['c', 'l', 'a', 's', 's']
}

/// The artifact path that belongs to a source file: the source root is
/// replaced by the artifact root (when the file lies under it; else the
/// path is kept) and the source extension by the artifact extension.
pub open spec fn artifact_path_spec(file: Seq<char>, src_root: Seq<char>, bin_root: Seq<char>) -> Seq<char> {
    let moved = if maps_into(file, src_root) {
        bin_root + file.subrange(src_root.len() as int, file.len() as int)
    } else {
        file
    };
    replace_ext(moved, class_ext())
}

/// Maps a source path into the artifact namespace.
pub fn artifact_path(file: &str, src_root: &str, bin_root: &str) -> (r: String)
    ensures
        r@ == artifact_path_spec(file@, src_root@, bin_root@),
{
    let n = file.unicode_len();
    let nr = src_root.unicode_len();
    let inside = if n > nr {
        crate::strutil::str_starts_with(file, src_root) && file.get_char(nr) == '/'
    } else {
        false
    };
    let mut moved: String = if inside {
        let mut m = bin_root.to_owned();
        let rest = file.substring_char(nr, n);
        m.append(rest);
        m
    } else {
        file.to_owned()
    };
    proof {
        assert(moved@ == (if maps_into(file@, src_root@) {
            bin_root@ + file@.subrange(src_root@.len() as int, file@.len() as int)
        } else {
            file@
        }));
    }
    let nm = moved.as_str().unicode_len();
    // locate the final component and its last dot
    let mut start: usize = 0;
    let mut i: usize = 0;
    while i < nm
        invariant
            nm == moved@.len(),
            i <= nm,
            start <= i,
            start as int == last_pos(moved@.subrange(0, i as int), '/') + 1,
        decreases nm - i,
    {
        proof {
            assert(moved@.subrange(0, i + 1).drop_last() =~= moved@.subrange(0, i as int));
            assert(moved@.subrange(0, i + 1)[i as int] == moved@[i as int]);
        }
        if moved.as_str().get_char(i) == '/' {
            start = i + 1;
        }
        i += 1;
    }
    proof {
        assert(moved@.subrange(0, nm as int) =~= moved@);
        lemma_last_pos(moved@, '/');
    }
    let ghost comp = moved@.subrange(start as int, nm as int);
    let mut lastdot: usize = start;
    let mut have_dot = false;
    let mut j: usize = start;
    while j < nm
        invariant
            nm == moved@.len(),
            start <= j <= nm,
            start <= lastdot,
            have_dot ==> lastdot < j,
            comp == moved@.subrange(start as int, nm as int),
            have_dot ==> lastdot - start == last_pos(comp.subrange(0, j - start), '.'),
            !have_dot ==> -1 == last_pos(comp.subrange(0, j - start), '.'),
        decreases nm - j,
    {
        proof {
            assert(comp.subrange(0, j - start + 1).drop_last() =~= comp.subrange(0, j - start));
            assert(comp.subrange(0, j - start + 1)[j - start] == moved@[j as int]);
        }
        if moved.as_str().get_char(j) == '.' {
            lastdot = j;
            have_dot = true;
        }
        j += 1;
    }
    proof {
        assert(comp.subrange(0, nm - start) =~= comp);
    }
    let mut out: String = if have_dot && lastdot > start {
        let kept = moved.as_str().substring_char(0, lastdot);
        proof {
            assert(moved@.subrange(0, lastdot as int) =~= moved@.subrange(
                0,
                start + (lastdot - start),
            ));
        }
        kept.to_owned()
    } else {
        moved
    };
    proof {
        reveal_strlit(".class");
        assert(".class"@ =~= seq!['.'] + class_ext());
    }
    out.append(".class");
    proof {
        assert(out@ =~= artifact_path_spec(file@, src_root@, bin_root@));
    }
    out
}

/// A unit is stale — must be rebuilt — exactly when its artifact is
/// missing, when either modification time cannot be read, or when the
/// source is strictly newer than the artifact.
pub open spec fn stale_spec(
    artifact_exists: bool,
    src_mtime: Option<u64>,
    artifact_mtime: Option<u64>,
) -> bool {
    ||| !artifact_exists
    ||| src_mtime is None
    ||| artifact_mtime is None
    ||| src_mtime->Some_0 > artifact_mtime->Some_0
}

/// Decides staleness from what the filesystem reported: whether the
/// artifact exists, and the two modification times (`None` when a time
/// could not be read).
pub fn is_stale(artifact_exists: bool, src_mtime: Option<u64>, artifact_mtime: Option<u64>) -> (r:
    bool)
    ensures
        r == stale_spec(artifact_exists, src_mtime, artifact_mtime),
{
    if !artifact_exists {
        return true;
    }
    match (src_mtime, artifact_mtime) {
        (Some(s), Some(a)) => s > a,
        _ => true,
    }
}

/// The incremental check of one source file: when checking is off every
/// file is taken, otherwise the staleness decision stands.
pub fn check_incremental(
    check: bool,
    artifact_exists: bool,
    src_mtime: Option<u64>,
    artifact_mtime: Option<u64>,
) -> (r: bool)
    ensures
        r == (!check || stale_spec(artifact_exists, src_mtime, artifact_mtime)),
{
    if !check {
        return true;
    }
    is_stale(artifact_exists, src_mtime, artifact_mtime)
}

} // verus!

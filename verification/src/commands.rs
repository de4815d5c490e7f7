use vstd::prelude::*;
use vstd::string::*;
use crate::strutil::views_of;

verus! {

/// The file arguments of a compiler invocation: each path preceded by a
/// space, in order.
pub open spec fn joined_files(files: Seq<Seq<char>>) -> Seq<char>
    decreases files.len(),
{
    if files.len() == 0 {
        Seq::empty()
    } else {
        joined_files(files.drop_last()) + seq![' '] + files.last()
    }
}

/// The compiler invocation for an ordered file list: compiler, quoted
/// classpath, output directory, configured flags, then every file. An
/// empty file list yields the empty command, which a batch skips.
pub open spec fn compile_command_spec(
    cp: Seq<char>,
    bin: Seq<char>,
    flags: Seq<char>,
    files: Seq<Seq<char>>,
) -> Seq<char> {
    if files.len() == 0 {
        Seq::empty()
    } else {
        "javac -cp \""@ + cp + "\" -d "@ + bin + seq![' '] + flags + joined_files(files)
    }
}

/// Builds the compile command for the given ordered files.
pub fn create_compile_command(classpath: &str, bin: &str, comp_flags: &str, files: &Vec<String>) -> (r:
    String)
    ensures
        r@ == compile_command_spec(classpath@, bin@, comp_flags@, views_of(files@)),
{
    if files.len() == 0 {
        proof {
            assert(views_of(files@).len() == 0);
        }
        return String::new();
    }
    proof {
        reveal_strlit("javac -cp \"");
        reveal_strlit("\" -d ");
        reveal_strlit(" ");
        assert(" "@ =~= seq![' ']);
    }
    let mut out: String = "javac -cp \"".to_owned();
    out.append(classpath);
    out.append("\" -d ");
    out.append(bin);
    out.append(" ");
    out.append(comp_flags);
    let ghost head = "javac -cp \""@ + classpath@ + "\" -d "@ + bin@ + seq![' '] + comp_flags@;
    let n = files.len();
    let mut i: usize = 0;
    proof {
        assert(views_of(files@).subrange(0, 0) =~~= Seq::<Seq<char>>::empty());
        assert(out@ =~= head + joined_files(views_of(files@).subrange(0, 0)));
    }
    while i < n
        invariant
            n == files@.len(),
            i <= n,
            out@ == head + joined_files(views_of(files@).subrange(0, i as int)),
        decreases n - i,
    {
        proof {
            reveal_strlit(" ");
            assert(" "@ =~= seq![' ']);
        }
        out.append(" ");
        out.append(files[i].as_str());
        proof {
            assert(views_of(files@).subrange(0, i + 1).drop_last() =~~= views_of(
                files@,
            ).subrange(0, i as int));
            assert(views_of(files@).subrange(0, i + 1).last() == files@[i as int]@);
            assert(out@ =~= head + joined_files(views_of(files@).subrange(0, i + 1)));
        }
        i += 1;
    }
    proof {
        assert(views_of(files@).subrange(0, n as int) =~~= views_of(files@));
    }
    out
}

/// The decimal digit of a value below ten.
pub open spec fn dec_digit(d: u64) -> char {
    seq!['0', '1', '2', '3', '4', '5', '6', '7', '8', '9'][d as int]
}

/// Decimal of `v`, most significant digit first, without leading zeroes
/// (zero itself is "0").
pub open spec fn dec_of(v: u64) -> Seq<char>
    decreases v,
{
    if v < 10 {
        seq![dec_digit(v)]
    } else {
        dec_of(v / 10).push(dec_digit(v % 10))
    }
}

fn push_dec_digit(s: &mut String, d: u64)
    requires
        d < 10,
    ensures
        final(s)@ == old(s)@.push(dec_digit(d)),
{
    let piece: &str = if d == 0 {
        "0"
    } else if d == 1 {
        "1"
    } else if d == 2 {
        "2"
    } else if d == 3 {
        "3"
    } else if d == 4 {
        "4"
    } else if d == 5 {
        "5"
    } else if d == 6 {
        "6"
    } else if d == 7 {
        "7"
    } else if d == 8 {
        "8"
    } else {
        "9"
    };
    proof {
        reveal_strlit("0");
        reveal_strlit("1");
        reveal_strlit("2");
        reveal_strlit("3");
        reveal_strlit("4");
        reveal_strlit("5");
        reveal_strlit("6");
        reveal_strlit("7");
        reveal_strlit("8");
        reveal_strlit("9");
        assert(piece@ =~= seq![dec_digit(d)]);
    }
    s.append(piece);
    proof {
        assert(s@ =~= old(s)@.push(dec_digit(d)));
    }
}

/// Formats `v` in decimal.
pub fn u64_to_dec(v: u64) -> (r: String)
    ensures
        r@ == dec_of(v),
    decreases v,
{
    if v < 10 {
        let mut r = String::new();
        push_dec_digit(&mut r, v);
        proof {
            assert(r@ =~= seq![dec_digit(v)]);
        }
        r
    } else {
        let mut r = u64_to_dec(v / 10);
        push_dec_digit(&mut r, v % 10);
        r
    }
}

/// The name of a release's cache directory: the target, a dash, the
/// decimal build time, and the fingerprint of the target's files.
pub fn release_dir_name(target: &str, time: u64, hash: &str) -> (r: String)
    ensures
        r@ == target@ + seq!['-'] + dec_of(time) + hash@,
{
    proof {
        reveal_strlit("-");
        assert("-"@ =~= seq!['-']);
    }
    let mut out: String = target.to_owned();
    out.append("-");
    let dec = u64_to_dec(time);
    out.append(dec.as_str());
    out.append(hash);
    proof {
        assert(out@ =~= target@ + seq!['-'] + dec_of(time) + hash@);
    }
    out
}

/// The file name of a target's packaged archive.
pub fn jar_file_name(target: &str) -> (r: String)
    ensures
        r@ == target@ + ".jar"@,
{
    let mut out: String = target.to_owned();
    out.append(".jar");
    out
}

} // verus!

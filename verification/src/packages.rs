use vstd::prelude::*;
use vstd::string::*;
use crate::config::CONFIG;

verus! {

/// Which of the three root directories a package path is resolved against.
#[derive(Clone, Copy, PartialEq, Eq, Structural, Debug)]
#[allow(non_camel_case_types)]
pub enum PathType {
    SRC,
    TESTS,
    CLASS,
}

/// A package name is valid when it has no leading dot, no trailing dot,
/// no space, and no two consecutive dots. The empty name (the default,
/// package-less target) is valid.
pub open spec fn valid_package_name(s: Seq<char>) -> bool {
    &&& s.len() > 0 ==> s[0] != '.'
    &&& s.len() > 0 ==> s[s.len() - 1] != '.'
    &&& forall|i: int| 0 <= i < s.len() ==> s[i] != ' '
    &&& forall|i: int| 0 <= i && i + 1 < s.len() ==> !((#[trigger] s[i]) == '.' && s[i + 1] == '.')
}

/// Decides whether `name` may be used as a package name.
pub fn validate_package(name: &str) -> (r: bool)
    ensures
        r == valid_package_name(name@),
{
    let n = name.unicode_len();
    let mut i: usize = 0;
    while i < n
        invariant
            n == name@.len(),
            i <= n,
            forall|j: int|
                0 <= j < i ==> (#[trigger] name@[j]) != ' ' && (name@[j] == '.' ==> 0 < j && j + 1
                    < n && name@[j + 1] != '.'),
        decreases n - i,
    {
        let c = name.get_char(i);
        if c == ' ' {
            return false;
        }
        if c == '.' {
            if i == 0 || i + 1 == n {
                return false;
            }
            if name.get_char(i + 1) == '.' {
                return false;
            }
        }
        i += 1;
    }
    true
}

/// The root directory that a path type selects in the configuration.
pub open spec fn root_for(t: PathType, conf: CONFIG) -> Seq<char> {
    match t {
        PathType::SRC => conf.src@,
        PathType::CLASS => conf.bin@,
        PathType::TESTS => conf.test@,
    }
}

/// A dotted target name as a relative path: every dot becomes a separator.
pub open spec fn dots_to_slashes(t: Seq<char>) -> Seq<char> {
    t.map_values(|c: char| if c == '.' { '/' } else { c })
}

/// Resolves a dotted target name to a directory path under the root that
/// `t` selects: the root, a separator, then the name with its dots
/// replaced by separators.
pub fn package_to_path(target: &str, t: PathType, conf: &CONFIG) -> (r: String)
    ensures
        r@ == root_for(t, *conf) + seq!['/'] + dots_to_slashes(target@),
{
    let mut out: String = match t {
        PathType::SRC => conf.src.clone(),
        PathType::CLASS => conf.bin.clone(),
        PathType::TESTS => conf.test.clone(),
    };
    proof {
        reveal_strlit("/");
    }
    out.append("/");
    let n = target.unicode_len();
    let mut i: usize = 0;
    while i < n
        invariant
            n == target@.len(),
            i <= n,
            out@ == root_for(t, *conf) + seq!['/'] + dots_to_slashes(target@.subrange(0, i as int)),
        decreases n - i,
    {
        let ghost prev = out@;
        let c = target.get_char(i);
        if c == '.' {
            proof {
                reveal_strlit("/");
            }
            out.append("/");
        } else {
            let piece = target.substring_char(i, i + 1);
            out.append(piece);
        }
        proof {
            assert(dots_to_slashes(target@.subrange(0, i + 1 as int)) =~= dots_to_slashes(
                target@.subrange(0, i as int),
            ).push(if target@[i as int] == '.' { '/' } else { target@[i as int] }));
            assert(out@ =~= root_for(t, *conf) + seq!['/'] + dots_to_slashes(
                target@.subrange(0, i + 1 as int),
            ));
        }
        i += 1;
    }
    proof {
        assert(target@.subrange(0, n as int) =~= target@);
    }
    out
}

/// The starter class a new package receives.
pub open spec fn starter_class() -> Seq<char> {
    "public class Main\n{\n\tpublic static void main(String[] args)\n\t{\n\t\tSystem.out.println(\"Hello from no-package\");\n\t}\n}"@
}

/// The contents of a new package's starter source file: a package
/// declaration when the package has a name, then the starter class.
pub fn init_pkg_contents(package: &str) -> (r: String)
    ensures
        package@.len() == 0 ==> r@ == starter_class(),
        package@.len() > 0 ==> r@ == "package "@ + package@ + ";\n"@ + starter_class(),
{
    if package.is_empty() {
        let t: &str =
            "public class Main\n{\n\tpublic static void main(String[] args)\n\t{\n\t\tSystem.out.println(\"Hello from no-package\");\n\t}\n}";
        t.to_owned()
    } else {
        let mut out: String = "package ".to_owned();
        out.append(package);
        out.append(";\n");
        out.append(
            "public class Main\n{\n\tpublic static void main(String[] args)\n\t{\n\t\tSystem.out.println(\"Hello from no-package\");\n\t}\n}",
        );
        out
    }
}

} // verus!

use vstd::prelude::*;
use vstd::string::*;
use crate::stale::maps_into;
use crate::strutil::{ext_cut, last_pos, str_starts_with, views_of};

verus! {

/// `p` without the extension of its final component (`p` itself when that
/// component has none).
pub open spec fn drop_ext(p: Seq<char>) -> Seq<char> {
    let comp_start = last_pos(p, '/') + 1;
    let d = last_pos(p.subrange(comp_start, p.len() as int), '.');
    if d > 0 {
        p.subrange(0, comp_start + d)
    } else {
        p
    }
}

/// The class name a compiled or source file yields: its path below the
/// root, extension dropped (separators stay, as the runtime's class
/// lookup expects). `None` when the file does not lie under the root.
pub fn class_name_of(file: &str, prefix: &str) -> (r: Option<String>)
    ensures
        r is Some <==> maps_into(file@, prefix@),
        r is Some ==> r->Some_0@ == drop_ext(
            file@.subrange(prefix@.len() as int + 1, file@.len() as int),
        ),
{
    let n = file.unicode_len();
    let np = prefix.unicode_len();
    if !(n > np && str_starts_with(file, prefix) && file.get_char(np) == '/') {
        return None;
    }
    let rel = file.substring_char(np + 1, n).to_owned();
    let cut = ext_cut(rel.as_str());
    let name = rel.as_str().substring_char(0, cut).to_owned();
    proof {
        assert(name@ =~= drop_ext(rel@));
    }
    Some(name)
}

/// The option that hands the runtime its class path.
pub open spec fn classpath_option_spec(cp: Seq<char>) -> Seq<char> {
    "-Djava.class.path="@ + cp
}

/// The initialisation options of a runtime session: the classpath option
/// first, then every configured extra option, in order. The version token
/// is passed beside them when the session is created.
pub fn build_jvm_options(classpath: &str, extra: &Vec<String>) -> (r: Vec<String>)
    ensures
        views_of(r@) == seq![classpath_option_spec(classpath@)] + views_of(extra@),
{
    let mut cp_opt: String = "-Djava.class.path=".to_owned();
    cp_opt.append(classpath);
    let mut r: Vec<String> = Vec::new();
    r.push(cp_opt);
    let n = extra.len();
    let mut i: usize = 0;
    proof {
        assert(views_of(extra@).subrange(0, 0) =~~= Seq::<Seq<char>>::empty());
        assert(views_of(r@) =~~= seq![classpath_option_spec(classpath@)] + views_of(
            extra@,
        ).subrange(0, 0));
    }
    while i < n
        invariant
            n == extra@.len(),
            i <= n,
            views_of(r@) == seq![classpath_option_spec(classpath@)] + views_of(extra@).subrange(
                0,
                i as int,
            ),
        decreases n - i,
    {
        let ghost old_r = r@;
        r.push(extra[i].clone());
        proof {
            assert(views_of(r@) =~~= views_of(old_r).push(extra@[i as int]@));
            assert(views_of(r@) =~~= seq![classpath_option_spec(classpath@)] + views_of(
                extra@,
            ).subrange(0, i + 1));
        }
        i += 1;
    }
    proof {
        assert(views_of(extra@).subrange(0, n as int) =~~= views_of(extra@));
    }
    r
}

/// How one entry-point invocation ended: the entry method returned; the
/// class or its entry method could not be found (a configuration or usage
/// error); or the method itself raised an unhandled fault in the runtime.
#[derive(Clone, Copy, PartialEq, Eq, Structural, Debug)]
pub enum InvocationOutcome {
    Success,
    LookupFault,
    InvocationFault,
}

/// What one entry-point invocation reported: the target class, how it
/// ended, the elapsed wall time, and — for a fault raised inside the
/// runtime — the drained printable fault description.
pub struct InvocationResult {
    pub class_name: String,
    pub outcome: InvocationOutcome,
    pub elapsed_ms: u64,
    pub fault: Option<String>,
}

/// The outcome the observed events yield: a failed lookup is a lookup
/// fault; a call that returned abnormally is an invocation fault.
pub open spec fn invocation_outcome_spec(lookup_ok: bool, call_ok: bool) -> InvocationOutcome {
    if !lookup_ok {
        InvocationOutcome::LookupFault
    } else if call_ok {
        InvocationOutcome::Success
    } else {
        InvocationOutcome::InvocationFault
    }
}

/// Builds the result of one invocation from what the worker observed.
/// The drained fault text is kept exactly when the entry method itself
/// raised; one class's fault never stops the others. The caller must
/// have cleared the runtime's pending-fault state after draining it, so
/// the shared session stays usable.
pub fn classify_invocation(
    class_name: String,
    lookup_ok: bool,
    call_ok: bool,
    fault: Option<String>,
    elapsed_ms: u64,
) -> (r: InvocationResult)
    ensures
        r.class_name == class_name,
        r.elapsed_ms == elapsed_ms,
        r.outcome == invocation_outcome_spec(lookup_ok, call_ok),
        r.outcome is InvocationFault ==> r.fault == fault,
        !(r.outcome is InvocationFault) ==> r.fault is None,
{
    let outcome = if !lookup_ok {
        InvocationOutcome::LookupFault
    } else if call_ok {
        InvocationOutcome::Success
    } else {
        InvocationOutcome::InvocationFault
    };
    let kept: Option<String> = match outcome {
        InvocationOutcome::InvocationFault => fault,
        _ => None,
    };
    InvocationResult { class_name, outcome, elapsed_ms, fault: kept }
}

} // verus!

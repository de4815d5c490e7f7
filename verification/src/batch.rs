use vstd::prelude::*;
use vstd::string::*;
use crate::strutil::views_of;

verus! {

/// The outcome of one command of a batch: the shell ran it and it exited
/// zero; it ran and exited non-zero; or the shell could not be launched
/// at all.
#[derive(Clone, Copy, PartialEq, Eq, Structural, Debug)]
pub enum CommandOutcome {
    Success,
    ExitFailure,
    LaunchFailure,
}

/// The outcome a worker reports, from what the process layer observed:
/// `launched` is false when the shell could not be started, otherwise
/// `exit_ok` tells whether the command exited zero.
pub open spec fn outcome_spec(launched: bool, exit_ok: bool) -> CommandOutcome {
    if !launched {
        CommandOutcome::LaunchFailure
    } else if exit_ok {
        CommandOutcome::Success
    } else {
        CommandOutcome::ExitFailure
    }
}

/// Classifies what happened to one command. Failures are reported, never
/// raised: no outcome aborts the batch.
pub fn classify_outcome(launched: bool, exit_ok: bool) -> (r: CommandOutcome)
    ensures
        r == outcome_spec(launched, exit_ok),
{
    if !launched {
        CommandOutcome::LaunchFailure
    } else if exit_ok {
        CommandOutcome::Success
    } else {
        CommandOutcome::ExitFailure
    }
}

/// The commands of one chunk that are actually run: the non-empty ones,
/// in order.
pub open spec fn non_empty(cmds: Seq<Seq<char>>) -> Seq<Seq<char>>
    decreases cmds.len(),
{
    if cmds.len() == 0 {
        Seq::empty()
    } else {
        let rest = non_empty(cmds.drop_last());
        if cmds.last().len() == 0 {
            rest
        } else {
            rest.push(cmds.last())
        }
    }
}

/// The waves of a batch: consecutive chunks of `width` commands in input
/// order (the last chunk may be shorter), each chunk with its empty
/// command strings skipped. A width below one is taken as one.
pub open spec fn waves_spec(cmds: Seq<Seq<char>>, width: int) -> Seq<Seq<Seq<char>>>
    decreases cmds.len(),
{
    if cmds.len() == 0 {
        Seq::empty()
    } else {
        let w = if width < 1 {
            1
        } else if width > cmds.len() {
            cmds.len() as int
        } else {
            width
        };
        seq![non_empty(cmds.subrange(0, w))] + waves_spec(
            cmds.subrange(w, cmds.len() as int),
            width,
        )
    }
}

/// View of a list of waves as nested character sequences.
pub open spec fn wave_views(r: Seq<Vec<String>>) -> Seq<Seq<Seq<char>>> {
    r.map_values(|v: Vec<String>| views_of(v@))
}

/// Plans the waves of a batch: the commands are cut into consecutive
/// chunks of `concurrency` (the last may be shorter), and empty command
/// strings are skipped inside each chunk. The executor runs one wave's
/// commands concurrently and joins them all before the next wave starts.
pub fn plan_waves(commands: &Vec<String>, concurrency: usize) -> (r: Vec<Vec<String>>)
    requires
        concurrency >= 1,
    ensures
        wave_views(r@) == waves_spec(views_of(commands@), concurrency as int),
{
    let ghost s = views_of(commands@);
    let n = commands.len();
    let mut r: Vec<Vec<String>> = Vec::new();
    let mut cur: Vec<String> = Vec::new();
    let mut fill: usize = 0;
    let mut t: usize = 0;
    proof {
        assert(s.subrange(0, 0) =~~= Seq::<Seq<char>>::empty());
        assert(views_of(cur@) =~~= non_empty(s.subrange(0, 0)));
        assert(wave_views(r@) + waves_spec(s.subrange(0, s.len() as int), concurrency as int)
            =~~= waves_spec(s, concurrency as int)) by {
            assert(s.subrange(0, s.len() as int) =~~= s);
        }
    }
    while t < n
        invariant
            n == commands@.len(),
            s == views_of(commands@),
            concurrency >= 1,
            fill <= t <= n,
            fill < concurrency,
            fill == t - ((t - fill) as int),
            views_of(cur@) == non_empty(s.subrange((t - fill) as int, t as int)),
            wave_views(r@) + waves_spec(s.subrange((t - fill) as int, s.len() as int), concurrency as int)
                == waves_spec(s, concurrency as int),
        decreases n - t,
    {
        let ghost base = (t - fill) as int;
        let ghost old_cur = cur@;
        let cmd = &commands[t];
        if !cmd.as_str().is_empty() {
            cur.push(cmd.clone());
        }
        proof {
            assert(s.subrange(base, t + 1).drop_last() =~~= s.subrange(base, t as int));
            assert(s.subrange(base, t + 1).last() == s[t as int]);
            assert(s[t as int] == commands@[t as int]@);
            if commands@[t as int]@.len() == 0 {
                assert(views_of(cur@) =~~= non_empty(s.subrange(base, t + 1)));
            } else {
                assert(views_of(cur@) =~~= views_of(old_cur).push(commands@[t as int]@));
                assert(views_of(cur@) =~~= non_empty(s.subrange(base, t + 1)));
            }
        }
        fill += 1;
        t += 1;
        if fill == concurrency {
            let ghost old_r = r@;
            let done = cur;
            r.push(done);
            cur = Vec::new();
            fill = 0;
            proof {
                let tail = s.subrange(base, s.len() as int);
                assert(tail.len() == s.len() - base);
                assert(tail.len() >= concurrency as int);
                assert(tail.subrange(0, concurrency as int) =~~= s.subrange(
                    base,
                    base + concurrency,
                ));
                assert(tail.subrange(concurrency as int, tail.len() as int) =~~= s.subrange(
                    base + concurrency,
                    s.len() as int,
                ));
                assert(waves_spec(tail, concurrency as int) =~~= seq![
                    non_empty(s.subrange(base, base + concurrency)),
                ] + waves_spec(s.subrange(base + concurrency, s.len() as int), concurrency as int));
                assert(wave_views(r@) =~~= wave_views(old_r).push(
                    non_empty(s.subrange(base, base + concurrency)),
                ));
                assert(views_of(cur@) =~~= non_empty(s.subrange(t as int, t as int)));
                assert(wave_views(r@) + waves_spec(
                    s.subrange(t as int, s.len() as int),
                    concurrency as int,
                ) =~~= waves_spec(s, concurrency as int));
            }
        }
    }
    if fill > 0 {
        let ghost base = (t - fill) as int;
        let ghost old_r = r@;
        r.push(cur);
        proof {
            let tail = s.subrange(base, s.len() as int);
            assert(tail.len() == fill as int);
            assert(0 < tail.len() < concurrency as int);
            assert(tail.subrange(0, tail.len() as int) =~~= tail);
            assert(tail.subrange(tail.len() as int, tail.len() as int) =~~= Seq::<
                Seq<char>,
            >::empty());
            assert(waves_spec(Seq::<Seq<char>>::empty(), concurrency as int) =~~= Seq::<
                Seq<Seq<char>>,
            >::empty());
            assert(waves_spec(tail, concurrency as int) =~~= seq![non_empty(tail)] + Seq::<
                Seq<Seq<char>>,
            >::empty());
            assert(waves_spec(tail, concurrency as int) =~~= seq![non_empty(tail)]);
            assert(tail =~~= s.subrange(base, t as int));
            assert(wave_views(r@) =~~= wave_views(old_r).push(non_empty(tail)));
            assert(wave_views(r@) =~~= waves_spec(s, concurrency as int));
        }
    } else {
        proof {
            assert(s.subrange((t - fill) as int, s.len() as int).len() == 0);
            assert(waves_spec(s.subrange((t - fill) as int, s.len() as int), concurrency as int)
                =~~= Seq::<Seq<Seq<char>>>::empty());
            assert(wave_views(r@) =~~= waves_spec(s, concurrency as int));
        }
    }
    r
}

} // verus!

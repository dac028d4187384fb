use vstd::prelude::*;

use crate::compose::{
    contributions, dispatch_spec, drain, finish_paths, reads_of, supply_spec, unit_wf, FailKind,
    ModuleText, Outcome, Unit, UnitModel, Work,
};
use crate::dialect::{dialect_spec, ext_spec, Dialect};
use crate::scan::scan_spec;
use crate::toolkit::wgsl_accepts;

verus! {

/// The order in which composition visits files when it starts from
/// `path`, over a file system that maps each path to its text: the
/// subtrees of the file's directives depth-first, left to right, and the
/// file itself last. `fuel` bounds the visit depth; the order is `None`
/// when the fuel runs out (an unboundedly deep or cyclic directive graph)
/// or a named file is missing.
pub open spec fn visit_order(fs: Map<Seq<u8>, Seq<u8>>, path: Seq<u8>, fuel: nat) -> Option<
    Seq<Seq<u8>>,
>
    decreases fuel, 0nat, 0nat,
{
    if fuel == 0 {
        None
    } else if !fs.contains_key(path) {
        None
    } else {
        match visit_list(fs, scan_spec(fs[path]), (fuel - 1) as nat) {
            Option::None => None,
            Option::Some(before) => Some(before.push(path)),
        }
    }
}

/// The visit order of a list of sibling directives, left to right.
pub open spec fn visit_list(fs: Map<Seq<u8>, Seq<u8>>, targets: Seq<Seq<u8>>, fuel: nat) -> Option<
    Seq<Seq<u8>>,
>
    decreases fuel, 1nat, targets.len(),
{
    if targets.len() == 0 {
        Some(Seq::empty())
    } else {
        match visit_order(fs, targets[0], fuel) {
            Option::None => None,
            Option::Some(head) => match visit_list(fs, targets.drop_first(), fuel) {
                Option::None => None,
                Option::Some(tail) => Some(head + tail),
            },
        }
    }
}

/// Ordering law: when a file `f` names `a` and then `b`, in that textual
/// order, composition visits all of `a`'s subtree, then all of `b`'s,
/// then `f` itself — whatever either subtree names in turn.
pub proof fn lemma_ordering(
    fs: Map<Seq<u8>, Seq<u8>>,
    f: Seq<u8>,
    a: Seq<u8>,
    b: Seq<u8>,
    fuel: nat,
    oa: Seq<Seq<u8>>,
    ob: Seq<Seq<u8>>,
)
    requires
        fuel >= 1,
        fs.contains_key(f),
        scan_spec(fs[f]) == seq![a, b],
        visit_order(fs, a, (fuel - 1) as nat) == Some(oa),
        visit_order(fs, b, (fuel - 1) as nat) == Some(ob),
    ensures
        visit_order(fs, f, fuel) == Some(oa + ob + seq![f]),
{
    let rest = (fuel - 1) as nat;
    let targets = scan_spec(fs[f]);
    assert(targets[0] == a);
    assert(targets.drop_first() =~= seq![b]);
    assert(seq![b][0] == b);
    assert(seq![b].drop_first() =~= Seq::<Seq<u8>>::empty());
    assert(visit_list(fs, Seq::<Seq<u8>>::empty(), rest) == Some(Seq::<Seq<u8>>::empty()));
    assert(visit_list(fs, seq![b], rest) == Some(ob + Seq::<Seq<u8>>::empty()));
    assert(visit_list(fs, targets, rest) == Some(oa + (ob + Seq::<Seq<u8>>::empty())));
    assert((oa + (ob + Seq::<Seq<u8>>::empty())).push(f) =~= oa + ob + seq![f]);
}

/// Transitivity law: when `a` names only `b`, `b` names only `c`, and `c`
/// names nothing, composing `a` visits `c`, then `b`, then `a` — the
/// module folds in `c`'s content, then `b`'s own, then `a`'s own.
pub proof fn lemma_transitivity(
    fs: Map<Seq<u8>, Seq<u8>>,
    a: Seq<u8>,
    b: Seq<u8>,
    c: Seq<u8>,
    fuel: nat,
)
    requires
        fuel >= 3,
        fs.contains_key(a),
        fs.contains_key(b),
        fs.contains_key(c),
        scan_spec(fs[a]) == seq![b],
        scan_spec(fs[b]) == seq![c],
        scan_spec(fs[c]) == Seq::<Seq<u8>>::empty(),
    ensures
        visit_order(fs, a, fuel) == Some(seq![c, b, a]),
{
    let f1 = (fuel - 1) as nat;
    let f2 = (fuel - 2) as nat;
    let f3 = (fuel - 3) as nat;
    assert(visit_list(fs, Seq::<Seq<u8>>::empty(), f3) == Some(Seq::<Seq<u8>>::empty()));
    assert(visit_order(fs, c, f2) == Some(Seq::<Seq<u8>>::empty().push(c)));
    assert(Seq::<Seq<u8>>::empty().push(c) =~= seq![c]);
    assert(seq![c][0] == c);
    assert(seq![c].drop_first() =~= Seq::<Seq<u8>>::empty());
    assert(visit_list(fs, Seq::<Seq<u8>>::empty(), f2) == Some(Seq::<Seq<u8>>::empty()));
    assert(visit_list(fs, seq![c], f2) == Some(seq![c] + Seq::<Seq<u8>>::empty()));
    assert(seq![c] + Seq::<Seq<u8>>::empty() =~= seq![c]);
    assert(visit_order(fs, b, f1) == Some(seq![c].push(b)));
    assert(seq![c].push(b) =~= seq![c, b]);
    assert(seq![b][0] == b);
    assert(seq![b].drop_first() =~= Seq::<Seq<u8>>::empty());
    assert(visit_list(fs, Seq::<Seq<u8>>::empty(), f1) == Some(Seq::<Seq<u8>>::empty()));
    assert(visit_list(fs, seq![b], f1) == Some(seq![c, b] + Seq::<Seq<u8>>::empty()));
    assert(seq![c, b] + Seq::<Seq<u8>>::empty() =~= seq![c, b]);
    assert(visit_order(fs, a, fuel) == Some(seq![c, b].push(a)));
    assert(seq![c, b].push(a) =~= seq![c, b, a]);
}

/// Re-inclusion law: a file named twice is visited twice — its
/// declarations enter the module once per visit, never deduplicated.
pub proof fn lemma_revisit(fs: Map<Seq<u8>, Seq<u8>>, f: Seq<u8>, g: Seq<u8>, fuel: nat)
    requires
        fuel >= 2,
        fs.contains_key(f),
        fs.contains_key(g),
        scan_spec(fs[f]) == seq![g, g],
        scan_spec(fs[g]) == Seq::<Seq<u8>>::empty(),
    ensures
        visit_order(fs, f, fuel) == Some(seq![g, g, f]),
{
    let f1 = (fuel - 1) as nat;
    let f2 = (fuel - 2) as nat;
    assert(visit_list(fs, Seq::<Seq<u8>>::empty(), f2) == Some(Seq::<Seq<u8>>::empty()));
    assert(visit_order(fs, g, f1) == Some(Seq::<Seq<u8>>::empty().push(g)));
    assert(Seq::<Seq<u8>>::empty().push(g) =~= seq![g]);
    let targets = scan_spec(fs[f]);
    assert(targets[0] == g);
    assert(targets.drop_first() =~= seq![g]);
    assert(seq![g][0] == g);
    assert(seq![g].drop_first() =~= Seq::<Seq<u8>>::empty());
    assert(visit_list(fs, Seq::<Seq<u8>>::empty(), f1) == Some(Seq::<Seq<u8>>::empty()));
    assert(visit_list(fs, seq![g], f1) == Some(seq![g] + Seq::<Seq<u8>>::empty()));
    assert(visit_list(fs, targets, f1) == Some(seq![g] + (seq![g] + Seq::<Seq<u8>>::empty())));
    assert((seq![g] + (seq![g] + Seq::<Seq<u8>>::empty())).push(f) =~= seq![g, g, f]);
}

/// Dialect-purity law: a module composed only of canonical-dialect files
/// carries exactly those files' raw texts, concatenated in visit order;
/// its text is therefore what the canonical parser alone reads when given
/// the same concatenation, and that parser accepts it.
pub proof fn lemma_dialect_purity(m: ModuleText)
    requires
        m.wf(),
        forall|i: int| 0 <= i < m.units@.len() ==> (#[trigger] m.units@[i]).dialect is Wgsl,
    ensures
        m.text@ == m.units@.map_values(|u: Unit| u.text@).flatten(),
        wgsl_accepts(m.text@),
{
    assert forall|i: int| 0 <= i < m.units@.len() implies contributions(m.units@)[i] == m.units@.map_values(
        |u: Unit| u.text@,
    )[i] by {
        assert(unit_wf(m.units@[i]));
    }
    assert(contributions(m.units@) =~= m.units@.map_values(|u: Unit| u.text@));
}

/// The outcome `Composer::start` promises: everything still to do is to
/// read the starting file.
pub open spec fn start_outcome(path: Seq<u8>) -> Outcome {
    Outcome::Reading {
        path,
        acc: Seq::empty(),
        units: Seq::empty(),
        agenda: seq![Work::Read { path }],
    }
}

/// The unit a canonical-dialect file contributes.
pub open spec fn wgsl_unit(path: Seq<u8>, text: Seq<u8>) -> UnitModel {
    UnitModel { path, dialect: Dialect::Wgsl, text, contribution: text }
}

/// Drive a composition to its end over a file system, answering each
/// requested read exactly as the composer's contract says the caller's
/// answer is treated: `supply_spec` of the file's text when the path is
/// present, the unreadable-file failure otherwise. `fuel` bounds the
/// number of reads; a run that still reads at zero fuel stands where it
/// is (a directive cycle never composes).
pub open spec fn run(fs: Map<Seq<u8>, Seq<u8>>, o: Outcome, fuel: nat) -> Outcome
    decreases fuel,
{
    match o {
        Outcome::Reading { path, acc, units, agenda } => {
            if fuel == 0 {
                o
            } else if !fs.contains_key(path) {
                Outcome::Failed {
                    kind: FailKind::Unreadable,
                    trail: seq![path] + finish_paths(agenda.drop_first()),
                }
            } else {
                run(fs, supply_spec(acc, units, agenda, fs[path]), (fuel - 1) as nat)
            }
        },
        _ => o,
    }
}

/// Transitivity law, over the composer's own model: when `a` names only
/// `b`, `b` names only `c`, `c` names nothing, all three are canonical
/// and every accumulated parse is accepted, the run composes `c`'s text,
/// then `b`'s, then `a`'s, one unit per file in that order.
pub proof fn lemma_run_transitivity(
    fs: Map<Seq<u8>, Seq<u8>>,
    a: Seq<u8>,
    b: Seq<u8>,
    c: Seq<u8>,
    fuel: nat,
)
    requires
        fuel >= 3,
        fs.contains_key(a),
        fs.contains_key(b),
        fs.contains_key(c),
        scan_spec(fs[a]) == seq![b],
        scan_spec(fs[b]) == seq![c],
        scan_spec(fs[c]) == Seq::<Seq<u8>>::empty(),
        dialect_spec(a) is Wgsl,
        dialect_spec(b) is Wgsl,
        dialect_spec(c) is Wgsl,
        wgsl_accepts(fs[c]),
        wgsl_accepts(fs[c] + fs[b]),
        wgsl_accepts(fs[c] + fs[b] + fs[a]),
    ensures
        run(fs, start_outcome(a), fuel) == (Outcome::Composed {
            acc: fs[c] + fs[b] + fs[a],
            units: seq![wgsl_unit(c, fs[c]), wgsl_unit(b, fs[b]), wgsl_unit(a, fs[a])],
        }),
{
    let e8: Seq<u8> = Seq::empty();
    let eu: Seq<UnitModel> = Seq::empty();
    let fin_a = Work::Finish { path: a, text: fs[a] };
    let fin_b = Work::Finish { path: b, text: fs[b] };
    let fin_c = Work::Finish { path: c, text: fs[c] };
    let g0 = seq![Work::Read { path: a }];
    let g1 = reads_of(seq![b]) + seq![fin_a] + g0.drop_first();
    assert(g0[0] == (Work::Read { path: a }));
    assert(reads_of(seq![b])[0] == (Work::Read { path: b }));
    assert(g1[0] == (Work::Read { path: b }));
    assert(supply_spec(e8, eu, g0, fs[a]) == drain(e8, eu, g1));
    assert(drain(e8, eu, g1) == (Outcome::Reading { path: b, acc: e8, units: eu, agenda: g1 }));
    let g2 = reads_of(seq![c]) + seq![fin_b] + g1.drop_first();
    assert(g1.drop_first() =~= seq![fin_a]);
    assert(reads_of(seq![c])[0] == (Work::Read { path: c }));
    assert(g2[0] == (Work::Read { path: c }));
    assert(supply_spec(e8, eu, g1, fs[b]) == drain(e8, eu, g2));
    assert(drain(e8, eu, g2) == (Outcome::Reading { path: c, acc: e8, units: eu, agenda: g2 }));
    let g3 = reads_of(Seq::<Seq<u8>>::empty()) + seq![fin_c] + g2.drop_first();
    assert(g2.drop_first() =~= seq![fin_b, fin_a]);
    assert(g3 =~= seq![fin_c, fin_b, fin_a]);
    assert(supply_spec(e8, eu, g2, fs[c]) == drain(e8, eu, g3));
    assert(e8 + fs[c] =~= fs[c]);
    assert(dispatch_spec(e8, c, fs[c]) == Result::<(Seq<u8>, UnitModel), FailKind>::Ok(
        ((e8 + fs[c]), wgsl_unit(c, fs[c])),
    ));
    assert(g3[0] == fin_c);
    assert(g3.drop_first() =~= seq![fin_b, fin_a]);
    let acc1 = e8 + fs[c];
    let us1 = eu.push(wgsl_unit(c, fs[c]));
    assert(drain(e8, eu, g3) == drain(acc1, us1, seq![fin_b, fin_a]));
    assert(acc1 + fs[b] =~= fs[c] + fs[b]);
    assert(dispatch_spec(acc1, b, fs[b]) == Result::<(Seq<u8>, UnitModel), FailKind>::Ok(
        ((acc1 + fs[b]), wgsl_unit(b, fs[b])),
    ));
    assert(seq![fin_b, fin_a][0] == fin_b);
    assert(seq![fin_b, fin_a].drop_first() =~= seq![fin_a]);
    let acc2 = acc1 + fs[b];
    let us2 = us1.push(wgsl_unit(b, fs[b]));
    assert(drain(acc1, us1, seq![fin_b, fin_a]) == drain(acc2, us2, seq![fin_a]));
    assert(acc2 + fs[a] =~= fs[c] + fs[b] + fs[a]);
    assert(wgsl_accepts(acc2 + fs[a]));
    assert(dispatch_spec(acc2, a, fs[a]) == Result::<(Seq<u8>, UnitModel), FailKind>::Ok(
        ((acc2 + fs[a]), wgsl_unit(a, fs[a])),
    ));
    assert(seq![fin_a][0] == fin_a);
    assert(seq![fin_a].drop_first() =~= Seq::<Work>::empty());
    let acc3 = acc2 + fs[a];
    let us3 = us2.push(wgsl_unit(a, fs[a]));
    assert(drain(acc2, us2, seq![fin_a]) == drain(acc3, us3, Seq::<Work>::empty()));
    assert(drain(acc3, us3, Seq::<Work>::empty()) == (Outcome::Composed {
        acc: acc3,
        units: us3,
    }));
    assert(acc3 =~= fs[c] + fs[b] + fs[a]);
    assert(us3 =~= seq![wgsl_unit(c, fs[c]), wgsl_unit(b, fs[b]), wgsl_unit(a, fs[a])]);
    let f1 = (fuel - 1) as nat;
    let f2 = (fuel - 2) as nat;
    let f3 = (fuel - 3) as nat;
    assert(run(fs, start_outcome(a), fuel) == run(fs, drain(e8, eu, g1), f1));
    assert(run(fs, drain(e8, eu, g1), f1) == run(fs, drain(e8, eu, g2), f2));
    assert(run(fs, drain(e8, eu, g2), f2) == run(fs, drain(e8, eu, g3), f3));
    assert(run(fs, drain(e8, eu, g3), f3) == drain(e8, eu, g3));
}

/// Re-inclusion law, over the composer's own model: a file named twice is
/// read twice and composed twice; its text enters the module once per
/// occurrence, before the naming file's own text.
pub proof fn lemma_run_revisit(fs: Map<Seq<u8>, Seq<u8>>, f: Seq<u8>, g: Seq<u8>, fuel: nat)
    requires
        fuel >= 3,
        fs.contains_key(f),
        fs.contains_key(g),
        scan_spec(fs[f]) == seq![g, g],
        scan_spec(fs[g]) == Seq::<Seq<u8>>::empty(),
        dialect_spec(f) is Wgsl,
        dialect_spec(g) is Wgsl,
        wgsl_accepts(fs[g]),
        wgsl_accepts(fs[g] + fs[g]),
        wgsl_accepts(fs[g] + fs[g] + fs[f]),
    ensures
        run(fs, start_outcome(f), fuel) == (Outcome::Composed {
            acc: fs[g] + fs[g] + fs[f],
            units: seq![wgsl_unit(g, fs[g]), wgsl_unit(g, fs[g]), wgsl_unit(f, fs[f])],
        }),
{
    let e8: Seq<u8> = Seq::empty();
    let eu: Seq<UnitModel> = Seq::empty();
    let fin_f = Work::Finish { path: f, text: fs[f] };
    let fin_g = Work::Finish { path: g, text: fs[g] };
    let g0 = seq![Work::Read { path: f }];
    let g1 = reads_of(seq![g, g]) + seq![fin_f] + g0.drop_first();
    assert(g0[0] == (Work::Read { path: f }));
    assert(reads_of(seq![g, g])[0] == (Work::Read { path: g }));
    assert(reads_of(seq![g, g])[1] == (Work::Read { path: g }));
    assert(g1[0] == (Work::Read { path: g }));
    assert(supply_spec(e8, eu, g0, fs[f]) == drain(e8, eu, g1));
    assert(drain(e8, eu, g1) == (Outcome::Reading { path: g, acc: e8, units: eu, agenda: g1 }));
    // first visit of g: its dispatch, then the second read of g surfaces
    let g2 = reads_of(Seq::<Seq<u8>>::empty()) + seq![fin_g] + g1.drop_first();
    assert(g1.drop_first() =~= seq![Work::Read { path: g }, fin_f]);
    assert(g2 =~= seq![fin_g, Work::Read { path: g }, fin_f]);
    assert(supply_spec(e8, eu, g1, fs[g]) == drain(e8, eu, g2));
    assert(e8 + fs[g] =~= fs[g]);
    assert(dispatch_spec(e8, g, fs[g]) == Result::<(Seq<u8>, UnitModel), FailKind>::Ok(
        ((e8 + fs[g]), wgsl_unit(g, fs[g])),
    ));
    assert(g2[0] == fin_g);
    assert(g2.drop_first() =~= seq![Work::Read { path: g }, fin_f]);
    let acc1 = e8 + fs[g];
    let us1 = eu.push(wgsl_unit(g, fs[g]));
    let rest1 = seq![Work::Read { path: g }, fin_f];
    assert(drain(e8, eu, g2) == drain(acc1, us1, rest1));
    assert(rest1[0] == (Work::Read { path: g }));
    assert(drain(acc1, us1, rest1) == (Outcome::Reading {
        path: g,
        acc: acc1,
        units: us1,
        agenda: rest1,
    }));
    // second visit of g: read and composed again
    let g3 = reads_of(Seq::<Seq<u8>>::empty()) + seq![fin_g] + rest1.drop_first();
    assert(rest1.drop_first() =~= seq![fin_f]);
    assert(g3 =~= seq![fin_g, fin_f]);
    assert(supply_spec(acc1, us1, rest1, fs[g]) == drain(acc1, us1, g3));
    assert(acc1 + fs[g] =~= fs[g] + fs[g]);
    assert(dispatch_spec(acc1, g, fs[g]) == Result::<(Seq<u8>, UnitModel), FailKind>::Ok(
        ((acc1 + fs[g]), wgsl_unit(g, fs[g])),
    ));
    assert(g3[0] == fin_g);
    assert(g3.drop_first() =~= seq![fin_f]);
    let acc2 = acc1 + fs[g];
    let us2 = us1.push(wgsl_unit(g, fs[g]));
    assert(drain(acc1, us1, g3) == drain(acc2, us2, seq![fin_f]));
    assert(acc2 + fs[f] =~= fs[g] + fs[g] + fs[f]);
    assert(wgsl_accepts(acc2 + fs[f]));
    assert(dispatch_spec(acc2, f, fs[f]) == Result::<(Seq<u8>, UnitModel), FailKind>::Ok(
        ((acc2 + fs[f]), wgsl_unit(f, fs[f])),
    ));
    assert(seq![fin_f][0] == fin_f);
    assert(seq![fin_f].drop_first() =~= Seq::<Work>::empty());
    let acc3 = acc2 + fs[f];
    let us3 = us2.push(wgsl_unit(f, fs[f]));
    assert(drain(acc2, us2, seq![fin_f]) == drain(acc3, us3, Seq::<Work>::empty()));
    assert(drain(acc3, us3, Seq::<Work>::empty()) == (Outcome::Composed {
        acc: acc3,
        units: us3,
    }));
    assert(acc3 =~= fs[g] + fs[g] + fs[f]);
    assert(us3 =~= seq![wgsl_unit(g, fs[g]), wgsl_unit(g, fs[g]), wgsl_unit(f, fs[f])]);
    let f1 = (fuel - 1) as nat;
    let f2 = (fuel - 2) as nat;
    let f3 = (fuel - 3) as nat;
    assert(run(fs, start_outcome(f), fuel) == run(fs, drain(e8, eu, g1), f1));
    assert(run(fs, drain(e8, eu, g1), f1) == run(fs, drain(e8, eu, g2), f2));
    assert(run(fs, drain(e8, eu, g2), f2) == run(fs, drain(acc1, us1, g3), f3));
    assert(run(fs, drain(acc1, us1, g3), f3) == drain(acc1, us1, g3));
}

/// Unknown-extension law, over the composer's own model: a file whose
/// extension selects no dialect fails with `UnknownDialect`, naming the
/// extension or its absence; nothing is composed.
pub proof fn lemma_run_unknown(fs: Map<Seq<u8>, Seq<u8>>, p: Seq<u8>, fuel: nat)
    requires
        fuel >= 1,
        fs.contains_key(p),
        scan_spec(fs[p]) == Seq::<Seq<u8>>::empty(),
        dialect_spec(p) is Unknown,
    ensures
        run(fs, start_outcome(p), fuel) == (Outcome::Failed {
            kind: FailKind::UnknownDialect { extension: ext_spec(p) },
            trail: seq![p],
        }),
{
    let e8: Seq<u8> = Seq::empty();
    let eu: Seq<UnitModel> = Seq::empty();
    let fin_p = Work::Finish { path: p, text: fs[p] };
    let g0 = seq![Work::Read { path: p }];
    assert(g0[0] == (Work::Read { path: p }));
    let g1 = reads_of(Seq::<Seq<u8>>::empty()) + seq![fin_p] + g0.drop_first();
    assert(g1 =~= seq![fin_p]);
    assert(supply_spec(e8, eu, g0, fs[p]) == drain(e8, eu, g1));
    assert(dispatch_spec(e8, p, fs[p]) == Result::<(Seq<u8>, UnitModel), FailKind>::Err(
        FailKind::UnknownDialect { extension: ext_spec(p) },
    ));
    assert(g1[0] == fin_p);
    assert(g1.drop_first() =~= Seq::<Work>::empty());
    assert(finish_paths(Seq::<Work>::empty()) =~= Seq::<Seq<u8>>::empty());
    assert(seq![p] + finish_paths(g1.drop_first()) =~= seq![p]);
    assert(drain(e8, eu, g1) == (Outcome::Failed {
        kind: FailKind::UnknownDialect { extension: ext_spec(p) },
        trail: seq![p] + finish_paths(g1.drop_first()),
    }));
    let f1 = (fuel - 1) as nat;
    assert(run(fs, start_outcome(p), fuel) == run(fs, drain(e8, eu, g1), f1));
}

} // verus!

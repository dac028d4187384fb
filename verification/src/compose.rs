use vstd::prelude::*;

use crate::dialect::{dialect_of, dialect_spec, ext_spec, extension_of, Dialect};
use crate::error::{ComposeError, ErrorReport};
use crate::scan::{scan_directives, scan_spec, subrange_vec};
use crate::toolkit;
use crate::toolkit::{
    glsl_accepts, glsl_canonical_of, glsl_emits, glsl_valid, wgsl_accepts, wgsl_canonical_of,
    wgsl_emits, wgsl_valid,
};

verus! {

/// One file's part in a composed module: the file as visited, its dialect,
/// its raw text, and the canonical-dialect text it contributed.
#[derive(Debug)]
pub struct Unit {
    pub path: Vec<u8>,
    pub dialect: Dialect,
    pub text: Vec<u8>,
    pub contribution: Vec<u8>,
}

/// A unit as the specifications see it, with its byte vectors as sequences.
pub struct UnitModel {
    pub path: Seq<u8>,
    pub dialect: Dialect,
    pub text: Seq<u8>,
    pub contribution: Seq<u8>,
}

pub open spec fn unit_model(u: Unit) -> UnitModel {
    UnitModel { path: u.path@, dialect: u.dialect, text: u.text@, contribution: u.contribution@ }
}

pub open spec fn units_model(units: Seq<Unit>) -> Seq<UnitModel> {
    units.map_values(|u: Unit| unit_model(u))
}

/// What holds of every unit a composition produces. A canonical-dialect
/// file contributes its own text verbatim; a C-style file contributes the
/// canonical re-emission of what its parser accepted and validated.
pub open spec fn unit_wf(u: Unit) -> bool {
    &&& u.dialect == dialect_spec(u.path@)
    &&& !(u.dialect is Unknown)
    &&& (u.dialect is Wgsl ==> u.contribution@ == u.text@)
    &&& (u.dialect is Glsl ==> glsl_emits(u.text@) && u.contribution@ == glsl_canonical_of(
        u.text@,
    ))
}

/// The contributed texts of a unit sequence, in order.
pub open spec fn contributions(units: Seq<Unit>) -> Seq<Seq<u8>> {
    units.map_values(|u: Unit| u.contribution@)
}

/// A composed module: the visited units in depth-first order, and the
/// accumulated canonical-dialect text, which is exactly the concatenation
/// of the units' contributions and is accepted by the canonical parser.
#[derive(Debug)]
pub struct ModuleText {
    pub units: Vec<Unit>,
    pub text: Vec<u8>,
}

impl ModuleText {
    pub open spec fn wf(self) -> bool {
        &&& self.text@ == contributions(self.units@).flatten()
        &&& forall|i: int| 0 <= i < self.units@.len() ==> unit_wf(#[trigger] self.units@[i])
        &&& self.units@.len() >= 1
        &&& wgsl_accepts(self.text@)
    }
}

/// The kind of a failure, with everything the toolkit's stage names
/// determine; the rendered strings and cause counts of `ComposeError`
/// come from the toolkit and are not modelled.
pub enum FailKind {
    Unreadable,
    UnknownDialect { extension: Option<Seq<u8>> },
    DialectAParse,
    DialectBParse,
    Validation,
    Emission,
}

pub open spec fn kind_of(e: ComposeError) -> FailKind {
    match e {
        ComposeError::Unreadable { .. } => FailKind::Unreadable,
        ComposeError::UnknownDialect { extension } => FailKind::UnknownDialect {
            extension: extension.deep_view(),
        },
        ComposeError::DialectAParse { .. } => FailKind::DialectAParse,
        ComposeError::DialectBParse { .. } => FailKind::DialectBParse,
        ComposeError::Validation { .. } => FailKind::Validation,
        ComposeError::Emission { .. } => FailKind::Emission,
    }
}

/// What dispatching one file does, as a function of the accumulated text,
/// the file's path and its text: the dialect the path selects decides the
/// pipeline, and the toolkit's stage names decide each stage's outcome.
pub open spec fn dispatch_spec(acc: Seq<u8>, path: Seq<u8>, text: Seq<u8>) -> Result<
    (Seq<u8>, UnitModel),
    FailKind,
> {
    if dialect_spec(path) is Unknown {
        Err(FailKind::UnknownDialect { extension: ext_spec(path) })
    } else if dialect_spec(path) is Wgsl {
        if wgsl_accepts(acc + text) {
            Ok(
                (
                    acc + text,
                    UnitModel { path, dialect: Dialect::Wgsl, text, contribution: text },
                ),
            )
        } else {
            Err(FailKind::DialectAParse)
        }
    } else {
        if !glsl_accepts(text) {
            Err(FailKind::DialectBParse)
        } else if !glsl_valid(text) {
            Err(FailKind::Validation)
        } else if !glsl_emits(text) {
            Err(FailKind::Emission)
        } else if wgsl_accepts(acc + glsl_canonical_of(text)) {
            Ok(
                (
                    acc + glsl_canonical_of(text),
                    UnitModel {
                        path,
                        dialect: Dialect::Glsl,
                        text,
                        contribution: glsl_canonical_of(text),
                    },
                ),
            )
        } else {
            Err(FailKind::DialectAParse)
        }
    }
}

/// One owed piece of work: a file still to be read, or a fetched file
/// whose own dispatch is owed once the files its directives name are in.
pub enum Work {
    Read { path: Seq<u8> },
    Finish { path: Seq<u8>, text: Seq<u8> },
}

pub open spec fn reads_of(paths: Seq<Seq<u8>>) -> Seq<Work> {
    paths.map_values(|p: Seq<u8>| Work::Read { path: p })
}

/// The paths of the `Finish` tasks of an agenda, in order: on a failure
/// these are the enclosing files still being processed.
pub open spec fn finish_paths(agenda: Seq<Work>) -> Seq<Seq<u8>>
    decreases agenda.len(),
{
    if agenda.len() == 0 {
        Seq::empty()
    } else {
        match agenda[0] {
            Work::Read { .. } => finish_paths(agenda.drop_first()),
            Work::Finish { path, .. } => seq![path] + finish_paths(agenda.drop_first()),
        }
    }
}

/// Where a composition stands: waiting for a file, finished, or failed.
pub enum Outcome {
    Reading { path: Seq<u8>, acc: Seq<u8>, units: Seq<UnitModel>, agenda: Seq<Work> },
    Composed { acc: Seq<u8>, units: Seq<UnitModel> },
    Failed { kind: FailKind, trail: Seq<Seq<u8>> },
}

/// Work through the agenda until a file must be read, everything is done,
/// or a dispatch fails: the one function that says what composing does.
/// Each `Finish` at the head is dispatched and its unit appended;
/// composition is `Composed` exactly when the agenda is emptied, and a
/// failure's trail is the failing file followed by every enclosing file.
pub open spec fn drain(acc: Seq<u8>, units: Seq<UnitModel>, agenda: Seq<Work>) -> Outcome
    decreases agenda.len(),
{
    if agenda.len() == 0 {
        Outcome::Composed { acc, units }
    } else {
        match agenda[0] {
            Work::Read { path } => Outcome::Reading { path, acc, units, agenda },
            Work::Finish { path, text } => match dispatch_spec(acc, path, text) {
                Ok(p) => drain(p.0, units.push(p.1), agenda.drop_first()),
                Err(kind) => Outcome::Failed {
                    kind,
                    trail: seq![path] + finish_paths(agenda.drop_first()),
                },
            },
        }
    }
}

/// What supplying the text of the file the agenda's head asks for does:
/// the text's directives become `Read` tasks, the file's own dispatch is
/// owed after them, and the agenda is worked through.
pub open spec fn supply_spec(
    acc: Seq<u8>,
    units: Seq<UnitModel>,
    agenda: Seq<Work>,
    text: Seq<u8>,
) -> Outcome {
    match agenda[0] {
        Work::Read { path } => drain(
            acc,
            units,
            reads_of(scan_spec(text)) + seq![Work::Finish { path, text }] + agenda.drop_first(),
        ),
        Work::Finish { .. } => drain(acc, units, agenda),
    }
}

/// Copy of a byte vector.
fn clone_bytes(v: &Vec<u8>) -> (r: Vec<u8>)
    ensures
        r@ == v@,
{
    let r = subrange_vec(v, 0, v.len());
    proof {
        assert(r@ =~= v@);
    }
    r
}

/// Concatenation of two byte vectors.
fn concat_bytes(a: &Vec<u8>, b: &Vec<u8>) -> (r: Vec<u8>)
    ensures
        r@ == a@ + b@,
{
    let mut r = clone_bytes(a);
    r.extend_from_slice(b.as_slice());
    proof {
        assert(r@ =~= a@ + b@);
    }
    r
}

/// Dispatch one file, whose directives are already resolved, to the
/// pipeline its dialect selects, extending the accumulated text `acc`;
/// the result is exactly what `dispatch_spec` says of it. A C-style file
/// is parsed on its own text, and a canonical-dialect diagnostic is
/// rendered against the accumulated concatenation.
fn dispatch(acc: &Vec<u8>, path: &Vec<u8>, text: Vec<u8>) -> (r: Result<
    (Vec<u8>, Unit),
    ComposeError,
>)
    ensures
        (match r {
            Result::Ok(p) => {
                &&& dispatch_spec(acc@, path@, text@) == Result::<(Seq<u8>, UnitModel), FailKind>::Ok(
                    (p.0@, unit_model(p.1)),
                )
                &&& unit_wf(p.1)
                &&& p.1.path@ == path@
                &&& p.1.text@ == text@
                &&& p.0@ == acc@ + p.1.contribution@
                &&& wgsl_accepts(p.0@)
            },
            Result::Err(e) => {
                &&& dispatch_spec(acc@, path@, text@) == Result::<
                    (Seq<u8>, UnitModel),
                    FailKind,
                >::Err(kind_of(e))
                &&& !(e is Unreadable)
            },
        }),
{
    let d = dialect_of(path);
    match d {
        Dialect::Unknown => Err(
            ComposeError::UnknownDialect { extension: extension_of(path) },
        ),
        Dialect::Wgsl => {
            let candidate = concat_bytes(acc, &text);
            match toolkit::parse_wgsl(&candidate) {
                Ok(_) => {
                    let unit = Unit {
                        path: clone_bytes(path),
                        dialect: Dialect::Wgsl,
                        contribution: clone_bytes(&text),
                        text,
                    };
                    Ok((candidate, unit))
                },
                Err(e) => {
                    let rendered = toolkit::render_wgsl_error(&e, &candidate);
                    Err(ComposeError::DialectAParse { rendered })
                },
            }
        },
        Dialect::Glsl => {
            match toolkit::glsl_to_canonical(&text) {
                Err(e) => Err(e),
                Ok(contribution) => {
                    proof {
                        assert(glsl_accepts(text@) && glsl_valid(text@) && glsl_emits(text@));
                        assert(contribution@ == glsl_canonical_of(text@));
                    }
                    let candidate = concat_bytes(acc, &contribution);
                    match toolkit::parse_wgsl(&candidate) {
                        Ok(_) => {
                            let unit = Unit {
                                path: clone_bytes(path),
                                dialect: Dialect::Glsl,
                                contribution,
                                text,
                            };
                            Ok((candidate, unit))
                        },
                        Err(e) => {
                            let rendered = toolkit::render_wgsl_error(&e, &candidate);
                            Err(ComposeError::DialectAParse { rendered })
                        },
                    }
                },
            }
        },
    }
}

/// One partially processed file: its path, its text, the paths its
/// directives name, and how many of those have already been handed on.
struct Frame {
    path: Vec<u8>,
    text: Vec<u8>,
    targets: Vec<Vec<u8>>,
    next: usize,
}

spec fn frame_wf(f: Frame) -> bool {
    &&& f.targets.deep_view() == scan_spec(f.text@)
    &&& 1 <= f.next <= f.targets@.len()
}

/// The work a frame still owes: reading the rest of its directives'
/// files, then dispatching the frame's own text.
spec fn frame_agenda(f: Frame) -> Seq<Work> {
    reads_of(f.targets.deep_view().skip(f.next as int)) + seq![
        Work::Finish { path: f.path@, text: f.text@ },
    ]
}

/// The work a stack of frames still owes, innermost frame first.
spec fn stack_agenda(stack: Seq<Frame>) -> Seq<Work>
    decreases stack.len(),
{
    if stack.len() == 0 {
        Seq::empty()
    } else {
        frame_agenda(stack.last()) + stack_agenda(stack.drop_last())
    }
}

#[derive(Clone, Copy)]
enum Tag {
    Waiting,
    Finished,
    Failed,
}

/// The composer, driven one file at a time. It asks for a file, is given
/// that file's text (or told the read failed), resolves the file's
/// directives depth-first before the file's own parse, and ends either
/// with a composed module or with the first failure and its trail.
pub struct Composer {
    tag: Tag,
    pending: Vec<u8>,
    failure: Option<ErrorReport>,
    stack: Vec<Frame>,
    acc: Vec<u8>,
    units: Vec<Unit>,
    root: Ghost<Seq<u8>>,
}

impl Composer {
    /// The path of the file the composer is waiting for, if any.
    pub closed spec fn spec_request(self) -> Option<Seq<u8>> {
        if self.tag is Waiting {
            Some(self.pending@)
        } else {
            None
        }
    }

    pub closed spec fn spec_finished(self) -> bool {
        self.tag is Finished
    }

    pub closed spec fn spec_failed(self) -> bool {
        self.tag is Failed
    }

    /// The units composed so far, in completion order.
    pub closed spec fn spec_units(self) -> Seq<Unit> {
        self.units@
    }

    /// The canonical text accumulated so far.
    pub closed spec fn spec_text(self) -> Seq<u8> {
        self.acc@
    }

    /// The path composition started from.
    pub closed spec fn spec_root(self) -> Seq<u8> {
        self.root@
    }

    pub closed spec fn spec_failure(self) -> Option<ErrorReport> {
        self.failure
    }

    /// The work still owed, headed by the read being waited for.
    pub closed spec fn spec_agenda(self) -> Seq<Work> {
        if self.tag is Waiting {
            seq![Work::Read { path: self.pending@ }] + stack_agenda(self.stack@)
        } else {
            Seq::empty()
        }
    }

    /// Where this composition stands, as `drain` and `supply_spec` see it.
    pub closed spec fn spec_outcome(self) -> Outcome {
        match self.tag {
            Tag::Waiting => Outcome::Reading {
                path: self.pending@,
                acc: self.acc@,
                units: units_model(self.units@),
                agenda: self.spec_agenda(),
            },
            Tag::Finished => Outcome::Composed {
                acc: self.acc@,
                units: units_model(self.units@),
            },
            Tag::Failed => Outcome::Failed {
                kind: kind_of(self.failure->Some_0.error),
                trail: self.failure->Some_0.trail.deep_view(),
            },
        }
    }

    pub closed spec fn inv(self) -> bool {
        &&& self.acc@ == contributions(self.units@).flatten()
        &&& (forall|i: int| 0 <= i < self.units@.len() ==> unit_wf(#[trigger] self.units@[i]))
        &&& (self.units@.len() > 0 ==> wgsl_accepts(self.acc@))
        &&& (forall|i: int| 0 <= i < self.stack@.len() ==> frame_wf(#[trigger] self.stack@[i]))
        &&& (self.stack@.len() > 0 ==> self.stack@[0].path@ == self.root@)
        &&& (self.tag is Waiting && self.stack@.len() == 0 ==> self.pending@ == self.root@)
        &&& (self.tag is Waiting && self.stack@.len() > 0 ==> {
            let top = self.stack@[self.stack@.len() - 1];
            self.pending@ == top.targets@[top.next - 1]@
        })
        &&& (self.tag is Finished ==> self.stack@.len() == 0 && self.units@.len() >= 1)
        &&& (self.tag is Failed ==> {
            &&& self.failure is Some
            &&& self.failure->Some_0.trail.deep_view().len() >= 1
            &&& self.failure->Some_0.trail.deep_view().last() == self.root@
        })
    }

    /// Begin a composition that starts from `path`: the whole agenda is
    /// to read that one file.
    pub fn start(path: Vec<u8>) -> (c: Composer)
        ensures
            c.inv(),
            c.spec_request() == Some(path@),
            c.spec_root() == path@,
            c.spec_outcome() == (Outcome::Reading {
                path: path@,
                acc: Seq::<u8>::empty(),
                units: Seq::<UnitModel>::empty(),
                agenda: seq![Work::Read { path: path@ }],
            }),
    {
        let c = Composer {
            tag: Tag::Waiting,
            root: Ghost(path@),
            pending: path,
            failure: None,
            stack: Vec::new(),
            acc: Vec::new(),
            units: Vec::new(),
        };
        proof {
            assert(contributions(c.units@) =~= Seq::<Seq<u8>>::empty());
            assert(c.acc@ =~= contributions(c.units@).flatten());
            assert(units_model(c.units@) =~= Seq::<UnitModel>::empty());
            assert(c.spec_agenda() =~= seq![Work::Read { path: c.pending@ }]);
        }
        c
    }

    /// The trail of a failure at `first`: `first` itself, then the path of
    /// every file still being processed, innermost first.
    fn make_trail(&self, first: Vec<u8>) -> (r: Vec<Vec<u8>>)
        ensures
            r.deep_view() == seq![first@] + finish_paths(stack_agenda(self.stack@)),
    {
        let mut trail: Vec<Vec<u8>> = Vec::new();
        trail.push(first);
        let mut i: usize = self.stack.len();
        while i > 0
            invariant
                0 <= i <= self.stack@.len(),
                trail@.len() == 1 + self.stack@.len() - i,
                trail.deep_view()[0] == first@,
                forall|k: int|
                    1 <= k < trail@.len() ==> trail.deep_view()[k] == self.stack@[self.stack@.len()
                        - k].path@,
            decreases i,
        {
            let p = clone_bytes(&self.stack[i - 1].path);
            let ghost before = trail.deep_view();
            let ghost snap = trail@;
            trail.push(p);
            proof {
                assert forall|k: int| 0 <= k < trail@.len() implies trail.deep_view()[k] == (
                if k < snap.len() {
                    before[k]
                } else {
                    self.stack@[i - 1].path@
                }) by {
                    if k < snap.len() {
                        assert(trail@[k] == snap[k]);
                    } else {
                        assert(trail@[k]@ == self.stack@[i - 1].path@);
                    }
                }
            }
            i = i - 1;
        }
        proof {
            lemma_stack_trail(self.stack@);
            assert(trail.deep_view() =~= seq![first@] + finish_paths(stack_agenda(self.stack@)));
        }
        trail
    }

    /// Report that the file the composer asked for could not be read.
    /// Composition fails at once; the report names the unreadable file
    /// first, then every enclosing file out to the starting one.
    pub fn supply_error(&mut self, message: String)
        requires
            old(self).inv(),
            old(self).spec_request() is Some,
        ensures
            final(self).inv(),
            final(self).spec_failed(),
            final(self).spec_root() == old(self).spec_root(),
            final(self).spec_units() == old(self).spec_units(),
            final(self).spec_failure() matches Some(rep) && rep.error matches
                ComposeError::Unreadable { message: m } && m == message,
            final(self).spec_outcome() == (Outcome::Failed {
                kind: FailKind::Unreadable,
                trail: seq![old(self).spec_request()->Some_0] + finish_paths(
                    old(self).spec_agenda().drop_first(),
                ),
            }),
    {
        let first = clone_bytes(&self.pending);
        let trail = self.make_trail(first);
        proof {
            assert(self.spec_agenda().drop_first() =~= stack_agenda(self.stack@));
            lemma_stack_trail(self.stack@);
        }
        proof {
            lemma_trail_last(self.stack@, self.pending@, self.root@);
        }
        self.failure = Some(ErrorReport { error: ComposeError::Unreadable { message }, trail });
        self.tag = Tag::Failed;
    }

    /// Hand the composer the text of the file it asked for. The outcome is
    /// exactly `supply_spec` of the state so far and the text: the text's
    /// directives are owed first, then the file's own dispatch, then the
    /// rest of the agenda, and work is drained until the next read, the
    /// finished module, or the first failure.
    pub fn supply(&mut self, text: Vec<u8>)
        requires
            old(self).inv(),
            old(self).spec_request() is Some,
        ensures
            final(self).inv(),
            final(self).spec_root() == old(self).spec_root(),
            old(self).spec_units().is_prefix_of(final(self).spec_units()),
            final(self).spec_outcome() == supply_spec(
                old(self).spec_text(),
                units_model(old(self).spec_units()),
                old(self).spec_agenda(),
                text@,
            ),
    {
        let ghost target = supply_spec(
            old(self).spec_text(),
            units_model(old(self).spec_units()),
            old(self).spec_agenda(),
            text@,
        );
        let p = clone_bytes(&self.pending);
        let targets = scan_directives(&text);
        proof {
            assert(old(self).spec_agenda()[0] == (Work::Read { path: p@ }));
            assert(old(self).spec_agenda().drop_first() =~= stack_agenda(old(self).stack@));
        }
        let ghost agenda1 = reads_of(scan_spec(text@)) + seq![
            Work::Finish { path: p@, text: text@ },
        ] + stack_agenda(old(self).stack@);
        proof {
            assert(target == drain(
                old(self).acc@,
                units_model(old(self).units@),
                agenda1,
            ));
        }
        if targets.len() > 0 {
            let first = clone_bytes(&targets[0]);
            proof {
                assert(targets.deep_view()[0] == targets@[0]@);
            }
            let frame = Frame { path: p, text, targets, next: 1 };
            self.stack.push(frame);
            self.pending = first;
            proof {
                let ts = scan_spec(text@);
                assert(agenda1[0] == reads_of(ts)[0]);
                assert(reads_of(ts)[0] == (Work::Read { path: ts[0] }));
                assert(target == (Outcome::Reading {
                    path: ts[0],
                    acc: old(self).acc@,
                    units: units_model(old(self).units@),
                    agenda: agenda1,
                }));
                assert(self.stack@.last() == frame);
                assert(self.stack@.drop_last() =~= old(self).stack@);
                assert(frame.targets.deep_view().skip(1) =~= ts.skip(1));
                assert(self.spec_agenda() =~= agenda1) by {
                    assert(self.spec_agenda() =~= seq![Work::Read { path: ts[0] }] + (reads_of(
                        ts.skip(1),
                    ) + seq![Work::Finish { path: p@, text: text@ }]) + stack_agenda(
                        old(self).stack@,
                    ));
                    assert forall|k: int| 0 <= k < agenda1.len() implies self.spec_agenda()[k]
                        == agenda1[k] by {
                        if 1 <= k < 1 + ts.skip(1).len() {
                            assert(reads_of(ts.skip(1))[k - 1] == (Work::Read {
                                path: ts.skip(1)[k - 1],
                            }));
                            assert(reads_of(ts)[k] == (Work::Read { path: ts[k] }));
                        }
                    }
                }
                assert(self.spec_outcome() == target);
            }
        } else {
            proof {
                assert(scan_spec(text@).len() == 0);
                assert(reads_of(scan_spec(text@)) =~= Seq::<Work>::empty());
                assert(agenda1 =~= seq![Work::Finish { path: p@, text: text@ }] + stack_agenda(
                    old(self).stack@,
                ));
                assert(agenda1[0] == (Work::Finish { path: p@, text: text@ }));
                assert(agenda1.drop_first() =~= stack_agenda(old(self).stack@));
            }
            match dispatch(&self.acc, &p, text) {
                Err(e) => {
                    proof {
                        lemma_trail_last(self.stack@, p@, self.root@);
                    }
                    let trail = self.make_trail(p);
                    self.failure = Some(ErrorReport { error: e, trail });
                    self.tag = Tag::Failed;
                    proof {
                        assert(self.spec_outcome() == target);
                    }
                },
                Ok(pair) => {
                    let (new_acc, unit) = pair;
                    let ghost gu = unit;
                    let ghost units_before = self.units@;
                    self.acc = new_acc;
                    self.units.push(unit);
                    proof {
                        lemma_contributions_push(units_before, gu);
                        lemma_units_model_push(units_before, gu);
                        broadcast use Seq::lemma_flatten_push;

                        assert(self.acc@ == contributions(self.units@).flatten());
                        assert(target == drain(
                            self.acc@,
                            units_model(self.units@),
                            stack_agenda(self.stack@),
                        ));
                    }
                    let ghost after_push = self.units@;
                    self.advance(Ghost(target));
                    proof {
                        assert(self.units@.subrange(0, after_push.len() as int) =~= after_push);
                        assert(units_before.is_prefix_of(self.units@)) by {
                            assert(self.units@.subrange(0, units_before.len() as int)
                                =~= after_push.subrange(0, units_before.len() as int));
                            assert(after_push.subrange(0, units_before.len() as int)
                                =~= units_before);
                        }
                    }
                },
            }
        }
    }

    /// After a successful dispatch: hand on the next unresolved directive
    /// of the innermost unfinished file, dispatching every file whose
    /// directives are exhausted along the way, so that the outcome is
    /// exactly what `drain` says of the remaining agenda.
    fn advance(&mut self, Ghost(target): Ghost<Outcome>)
        requires
            old(self).tag is Waiting,
            old(self).acc@ == contributions(old(self).units@).flatten(),
            forall|i: int|
                0 <= i < old(self).units@.len() ==> unit_wf(#[trigger] old(self).units@[i]),
            old(self).units@.len() >= 1,
            wgsl_accepts(old(self).acc@),
            forall|i: int|
                0 <= i < old(self).stack@.len() ==> frame_wf(#[trigger] old(self).stack@[i]),
            old(self).stack@.len() > 0 ==> old(self).stack@[0].path@ == old(self).root@,
            target == drain(
                old(self).acc@,
                units_model(old(self).units@),
                stack_agenda(old(self).stack@),
            ),
        ensures
            final(self).inv(),
            final(self).root == old(self).root,
            old(self).units@.is_prefix_of(final(self).units@),
            final(self).spec_outcome() == target,
    {
        loop
            invariant
                self.tag is Waiting,
                self.acc@ == contributions(self.units@).flatten(),
                forall|i: int| 0 <= i < self.units@.len() ==> unit_wf(#[trigger] self.units@[i]),
                self.units@.len() >= 1,
                wgsl_accepts(self.acc@),
                forall|i: int| 0 <= i < self.stack@.len() ==> frame_wf(#[trigger] self.stack@[i]),
                self.stack@.len() > 0 ==> self.stack@[0].path@ == self.root@,
                self.root == old(self).root,
                old(self).units@.is_prefix_of(self.units@),
                target == drain(self.acc@, units_model(self.units@), stack_agenda(self.stack@)),
            decreases self.stack@.len(),
        {
            if self.stack.len() == 0 {
                self.tag = Tag::Finished;
                proof {
                    assert(stack_agenda(self.stack@).len() == 0);
                    assert(self.spec_outcome() == target);
                }
                return ;
            }
            let ghost stack_before = self.stack@;
            let mut fr = self.stack.pop().unwrap();
            proof {
                assert(stack_before.last() == fr);
                assert(self.stack@ =~= stack_before.drop_last());
                assert(stack_agenda(stack_before) == frame_agenda(fr) + stack_agenda(self.stack@));
            }
            if fr.next < fr.targets.len() {
                let t = clone_bytes(&fr.targets[fr.next]);
                let ghost fr0 = fr;
                let ghost old_next = fr.next;
                fr.next = fr.next + 1;
                self.stack.push(fr);
                self.pending = t;
                proof {
                    let f2 = self.stack@.last();
                    let ds = f2.targets.deep_view();
                    let n0 = old_next as int;
                    assert(self.stack@.drop_last() =~= stack_before.drop_last());
                    assert(self.pending@ == ds[n0]);
                    // one read moves from the frame's agenda to the head
                    assert(frame_agenda(fr0) =~= seq![Work::Read { path: ds[n0] }]
                        + frame_agenda(f2)) by {
                        assert forall|k: int| 0 <= k < frame_agenda(fr0).len() implies frame_agenda(
                            fr0,
                        )[k] == (seq![Work::Read { path: ds[n0] }] + frame_agenda(f2))[k] by {
                            let skip_old = ds.skip(n0);
                            let skip_new = ds.skip(n0 + 1);
                            if k < skip_old.len() {
                                assert(reads_of(skip_old)[k] == (Work::Read {
                                    path: ds[n0 + k],
                                }));
                                if 1 <= k {
                                    assert(reads_of(skip_new)[k - 1] == (Work::Read {
                                        path: ds[n0 + k],
                                    }));
                                }
                            }
                        }
                    }
                    assert(stack_agenda(stack_before) =~= seq![Work::Read { path: ds[n0] }]
                        + stack_agenda(self.stack@));
                    assert(stack_agenda(stack_before)[0] == (Work::Read { path: ds[n0] }));
                    assert(self.spec_agenda() =~= stack_agenda(stack_before));
                    assert(target == (Outcome::Reading {
                        path: self.pending@,
                        acc: self.acc@,
                        units: units_model(self.units@),
                        agenda: stack_agenda(stack_before),
                    }));
                    assert(self.spec_outcome() == target);
                }
                return ;
            }
            proof {
                assert(fr.targets.deep_view().skip(fr.next as int) =~= Seq::<Seq<u8>>::empty());
                assert(reads_of(Seq::<Seq<u8>>::empty()) =~= Seq::<Work>::empty());
                assert(frame_agenda(fr) =~= seq![Work::Finish { path: fr.path@, text: fr.text@ }]);
                assert(stack_agenda(stack_before)[0] == (Work::Finish {
                    path: fr.path@,
                    text: fr.text@,
                }));
                assert(stack_agenda(stack_before).drop_first() =~= stack_agenda(self.stack@));
            }
            let fpath = fr.path;
            let ftext = fr.text;
            match dispatch(&self.acc, &fpath, ftext) {
                Err(e) => {
                    proof {
                        if self.stack@.len() == 0 {
                            assert(stack_before[0] == stack_before.last());
                        } else {
                            assert(self.stack@[0] == stack_before[0]);
                        }
                        lemma_trail_last(self.stack@, fpath@, self.root@);
                    }
                    let trail = self.make_trail(fpath);
                    self.failure = Some(ErrorReport { error: e, trail });
                    self.tag = Tag::Failed;
                    proof {
                        assert(self.spec_outcome() == target);
                    }
                    return ;
                },
                Ok(pair) => {
                    let (new_acc, unit) = pair;
                    let ghost gu = unit;
                    let ghost units_before = self.units@;
                    self.acc = new_acc;
                    self.units.push(unit);
                    proof {
                        lemma_contributions_push(units_before, gu);
                        lemma_units_model_push(units_before, gu);
                        broadcast use Seq::lemma_flatten_push;

                        assert(self.acc@ == contributions(self.units@).flatten());
                        lemma_prefix_push(old(self).units@, units_before, gu);
                        assert(target == drain(
                            self.acc@,
                            units_model(self.units@),
                            stack_agenda(self.stack@),
                        ));
                    }
                },
            }
        }
    }

    /// Take the outcome. On success the composed module; on failure the
    /// report, with its trail of files.
    pub fn take_outcome(self) -> (r: Result<ModuleText, ErrorReport>)
        requires
            self.inv(),
            self.spec_request() is None,
        ensures
            self.spec_finished() ==> (r matches Ok(m) && m.wf() && m.units@ == self.spec_units()
                && m.text@ == self.spec_text() && self.spec_outcome() == (Outcome::Composed {
                acc: m.text@,
                units: units_model(m.units@),
            })),
            self.spec_failed() ==> (r matches Err(rep) && Some(rep) == self.spec_failure()
                && self.spec_outcome() == (Outcome::Failed {
                kind: kind_of(rep.error),
                trail: rep.trail.deep_view(),
            })),
    {
        match self.tag {
            Tag::Finished => Ok(ModuleText { units: self.units, text: self.acc }),
            Tag::Failed => Err(self.failure.unwrap()),
            Tag::Waiting => vstd::pervasive::unreached(),
        }
    }

    /// The file the composer is waiting for, if any.
    pub fn request(&self) -> (r: Option<Vec<u8>>)
        ensures
            r.deep_view() == self.spec_request(),
    {
        match self.tag {
            Tag::Waiting => {
                let p = clone_bytes(&self.pending);
                proof {
                    assert(p.deep_view() =~= self.pending@);
                }
                Some(p)
            },
            _ => None,
        }
    }
}

proof fn lemma_contributions_push(units: Seq<Unit>, u: Unit)
    ensures
        contributions(units.push(u)) == contributions(units).push(u.contribution@),
{
    assert(contributions(units.push(u)) =~= contributions(units).push(u.contribution@));
}

proof fn lemma_units_model_push(units: Seq<Unit>, u: Unit)
    ensures
        units_model(units.push(u)) == units_model(units).push(unit_model(u)),
{
    assert(units_model(units.push(u)) =~= units_model(units).push(unit_model(u)));
}

proof fn lemma_prefix_push(s: Seq<Unit>, t: Seq<Unit>, x: Unit)
    requires
        s.is_prefix_of(t),
    ensures
        s.is_prefix_of(t.push(x)),
{
    assert(t.push(x).subrange(0, s.len() as int) =~= t.subrange(0, s.len() as int));
}

proof fn lemma_finish_paths_concat(a: Seq<Work>, b: Seq<Work>)
    ensures
        finish_paths(a + b) == finish_paths(a) + finish_paths(b),
    decreases a.len(),
{
    if a.len() == 0 {
        assert(a + b =~= b);
        assert(finish_paths(a) + finish_paths(b) =~= finish_paths(b));
    } else {
        assert((a + b).drop_first() =~= a.drop_first() + b);
        lemma_finish_paths_concat(a.drop_first(), b);
        assert((a + b)[0] == a[0]);
        match a[0] {
            Work::Read { .. } => {},
            Work::Finish { path, .. } => {
                assert(seq![path] + (finish_paths(a.drop_first()) + finish_paths(b)) =~= (seq![path]
                    + finish_paths(a.drop_first())) + finish_paths(b));
            },
        }
    }
}

proof fn lemma_finish_paths_reads(paths: Seq<Seq<u8>>)
    ensures
        finish_paths(reads_of(paths)) == Seq::<Seq<u8>>::empty(),
    decreases paths.len(),
{
    if paths.len() == 0 {
        assert(reads_of(paths).len() == 0);
    } else {
        assert(reads_of(paths)[0] == (Work::Read { path: paths[0] }));
        assert(reads_of(paths).drop_first() =~= reads_of(paths.drop_first()));
        lemma_finish_paths_reads(paths.drop_first());
    }
}

/// The `Finish` paths of a stack's agenda are the frames' paths,
/// innermost frame first.
proof fn lemma_stack_trail(stack: Seq<Frame>)
    ensures
        finish_paths(stack_agenda(stack)).len() == stack.len(),
        forall|k: int|
            0 <= k < stack.len() ==> finish_paths(stack_agenda(stack))[k] == stack[stack.len() - 1
                - k].path@,
    decreases stack.len(),
{
    if stack.len() == 0 {
    } else {
        let f = stack.last();
        lemma_finish_paths_concat(frame_agenda(f), stack_agenda(stack.drop_last()));
        lemma_finish_paths_concat(
            reads_of(f.targets.deep_view().skip(f.next as int)),
            seq![Work::Finish { path: f.path@, text: f.text@ }],
        );
        lemma_finish_paths_reads(f.targets.deep_view().skip(f.next as int));
        let one = seq![Work::Finish { path: f.path@, text: f.text@ }];
        assert(one.drop_first() =~= Seq::<Work>::empty());
        assert(one[0] == (Work::Finish { path: f.path@, text: f.text@ }));
        assert(finish_paths(Seq::<Work>::empty()) =~= Seq::<Seq<u8>>::empty());
        assert(finish_paths(one) == seq![f.path@] + finish_paths(one.drop_first()));
        assert(finish_paths(one) =~= seq![f.path@]);
        assert(finish_paths(frame_agenda(f)) =~= seq![f.path@]);
        lemma_stack_trail(stack.drop_last());
        assert forall|k: int| 0 <= k < stack.len() implies finish_paths(stack_agenda(stack))[k]
            == stack[stack.len() - 1 - k].path@ by {
            if k >= 1 {
                assert(finish_paths(stack_agenda(stack))[k] == finish_paths(
                    stack_agenda(stack.drop_last()),
                )[k - 1]);
                assert(stack.drop_last()[stack.drop_last().len() - 1 - (k - 1)] == stack[stack.len()
                    - 1 - k]);
            }
        }
    }
}

/// A failure trail of the shape `first` plus a stack's frame paths ends
/// at the starting file.
proof fn lemma_trail_last(stack: Seq<Frame>, first: Seq<u8>, root: Seq<u8>)
    requires
        stack.len() > 0 ==> stack[0].path@ == root,
        stack.len() == 0 ==> first == root,
    ensures
        (seq![first] + finish_paths(stack_agenda(stack))).last() == root,
        (seq![first] + finish_paths(stack_agenda(stack))).len() == 1 + stack.len(),
{
    lemma_stack_trail(stack);
    let trail = seq![first] + finish_paths(stack_agenda(stack));
    if stack.len() == 0 {
        assert(trail.last() == first);
    } else {
        assert(trail.last() == finish_paths(stack_agenda(stack))[stack.len() - 1]);
        assert(finish_paths(stack_agenda(stack))[stack.len() - 1] == stack[0].path@);
    }
}

/// Validate the composed module with the toolkit's validator and emit it
/// as canonical-dialect text: the result is owed by the toolkit's stage
/// names on the module's text — success exactly when the text validates
/// and emits, and then the canonical re-emission itself.
pub fn validate_and_emit(module: &ModuleText) -> (r: Result<Vec<u8>, ComposeError>)
    requires
        module.wf(),
    ensures
        r is Ok <==> (wgsl_valid(module.text@) && wgsl_emits(module.text@)),
        r matches Ok(o) ==> o@ == wgsl_canonical_of(module.text@),
        !wgsl_valid(module.text@) ==> (r matches Err(e) && e is Validation),
        wgsl_valid(module.text@) && !wgsl_emits(module.text@) ==> (r matches Err(e) && e
            is Emission),
{
    toolkit::emit_canonical(&module.text)
}

} // verus!

//! The plan of the whole-template check: which configurations are generated,
//! under which names, with which definitions, and what is run on each
//! generated project; plus the lines of a generated file that still hold a
//! template placeholder.

use vstd::prelude::*;
use vstd::string::StringSliceAdditionalSpecFns;
use crate::bytes::{push_all, copy_range, eq_bytes, contains_seq, contains, starts_with,
    starts_with_exec, trim, trim_seq, bytes_le, bytes_le_exec};
use crate::chipgen::{line_end, content_end};

verus! {

/// One checked configuration: a chip feature, and where one chip is checked
/// in several configurations, a suffix for its directory and extra
/// definitions for the generator.
#[derive(Clone, Debug)]
pub struct Case {
    pub chip: Vec<u8>,
    pub suffix: Option<Vec<u8>>,
    pub defines: Vec<Vec<u8>>,
}

pub struct CaseView {
    pub chip: Seq<u8>,
    pub suffix: Option<Seq<u8>>,
    pub defines: Seq<Seq<u8>>,
}

impl View for Case {
    type V = CaseView;

    open spec fn view(&self) -> CaseView {
        CaseView {
            chip: self.chip@,
            suffix: match self.suffix {
                Some(s) => Some(s@),
                None => None,
            },
            defines: self.defines.deep_view(),
        }
    }
}

impl DeepView for Case {
    type V = CaseView;

    open spec fn deep_view(&self) -> CaseView {
        self@
    }
}

/// The directory, and project, name of a case.
pub open spec fn case_name(c: CaseView) -> Seq<u8> {
    match c.suffix {
        Some(s) => "tc-".spec_bytes() + c.chip + "-".spec_bytes() + s,
        None => "tc-".spec_bytes() + c.chip,
    }
}

/// How a case is shown.
pub open spec fn case_label(c: CaseView) -> Seq<u8> {
    match c.suffix {
        Some(s) => c.chip + " (".spec_bytes() + s + ")".spec_bytes(),
        None => c.chip,
    }
}

fn copy_all(list: &[Vec<u8>]) -> (r: Vec<Vec<u8>>)
    ensures
        r.deep_view() == list.deep_view(),
{
    let ghost lv = list.deep_view();
    let mut out: Vec<Vec<u8>> = Vec::new();
    let mut i: usize = 0;
    while i < list.len()
        invariant
            0 <= i <= list@.len(),
            lv == list.deep_view(),
            out.deep_view() == lv.subrange(0, i as int),
        decreases list.len() - i,
    {
        let item = copy_range(list[i].as_slice(), 0, list[i].len());
        assert(list[i as int]@.subrange(0, list[i as int]@.len() as int) == list[i as int]@);
        let ghost before = out.deep_view();
        let ghost item_view = item@;
        out.push(item);
        assert(lv[i as int] =~= list@[i as int]@);
        assert(out.deep_view() =~~= before.push(item_view));
        assert(before.push(item_view) =~= lv.subrange(0, i + 1));
        i = i + 1;
    }
    assert(lv.subrange(0, lv.len() as int) == lv);
    out
}

impl Case {
    /// A case for a chip feature, in its plain configuration.
    pub fn new(chip: &[u8]) -> (r: Case)
        ensures
            r@ == (CaseView { chip: chip@, suffix: None, defines: Seq::empty() }),
    {
        let c = copy_range(chip, 0, chip.len());
        assert(chip@.subrange(0, chip@.len() as int) == chip@);
        let defines: Vec<Vec<u8>> = Vec::new();
        assert(defines.deep_view() =~= Seq::<Seq<u8>>::empty());
        Case { chip: c, suffix: None, defines }
    }

    /// The same chip in another configuration: a directory suffix and the
    /// definitions that make it.
    pub fn variant(self, suffix: &[u8], defines: &[Vec<u8>]) -> (r: Case)
        ensures
            r@ == (CaseView { chip: self@.chip, suffix: Some(suffix@), defines: defines.deep_view() }),
    {
        let s = copy_range(suffix, 0, suffix.len());
        assert(suffix@.subrange(0, suffix@.len() as int) == suffix@);
        Case { chip: self.chip, suffix: Some(s), defines: copy_all(defines) }
    }

    /// The name of the generated project, also its directory: `tc-` and the
    /// chip, and the suffix after a hyphen where there is one.
    pub fn name(&self) -> (r: Vec<u8>)
        ensures
            r@ == case_name(self@),
    {
        let mut out: Vec<u8> = Vec::new();
        push_all(&mut out, "tc-".as_bytes());
        push_all(&mut out, self.chip.as_slice());
        match &self.suffix {
            Some(s) => {
                push_all(&mut out, "-".as_bytes());
                push_all(&mut out, s.as_slice());
            },
            None => {},
        }
        out
    }

    /// The chip, and the suffix in brackets where there is one.
    pub fn label(&self) -> (r: Vec<u8>)
        ensures
            r@ == case_label(self@),
    {
        let mut out: Vec<u8> = Vec::new();
        push_all(&mut out, self.chip.as_slice());
        match &self.suffix {
            Some(s) => {
                push_all(&mut out, " (".as_bytes());
                push_all(&mut out, s.as_slice());
                push_all(&mut out, ")".as_bytes());
            },
            None => {},
        }
        out
    }
}

fn bytes_of(s: &str) -> (r: Vec<u8>)
    ensures
        r@ == s.spec_bytes(),
{
    let mut out: Vec<u8> = Vec::new();
    push_all(&mut out, s.as_bytes());
    out
}

/// The configurations checked when none are given: every branch of the
/// generator.
pub open spec fn default_cases_spec() -> Seq<CaseView> {
    seq![
        CaseView { chip: "stm32f407ve".spec_bytes(), suffix: None, defines: Seq::empty() },
        CaseView {
            chip: "stm32f407ve".spec_bytes(),
            suffix: Some("no-ota".spec_bytes()),
            defines: seq!["ota=no".spec_bytes()],
        },
        CaseView { chip: "stm32f429zg".spec_bytes(), suffix: None, defines: Seq::empty() },
        CaseView { chip: "stm32h723ve".spec_bytes(), suffix: None, defines: Seq::empty() },
        CaseView { chip: "stm32h745zi-cm7".spec_bytes(), suffix: None, defines: Seq::empty() },
        CaseView { chip: "stm32l011f4".spec_bytes(), suffix: None, defines: Seq::empty() },
    ]
}

/// The configurations checked when none are given: a plain single-core chip
/// with the bootloader, the same chip without it, a chip that selects a bank
/// scheme, one where the bootloader does not fit, a dual-core one and one
/// with 2 KiB of RAM.
pub fn default_cases() -> (r: Vec<Case>)
    ensures
        r.deep_view() == default_cases_spec(),
{
    let mut out: Vec<Case> = Vec::new();
    out.push(Case::new("stm32f407ve".as_bytes()));
    let mut no_ota: Vec<Vec<u8>> = Vec::new();
    no_ota.push(bytes_of("ota=no"));
    out.push(Case::new("stm32f407ve".as_bytes()).variant("no-ota".as_bytes(), no_ota.as_slice()));
    out.push(Case::new("stm32f429zg".as_bytes()));
    out.push(Case::new("stm32h723ve".as_bytes()));
    out.push(Case::new("stm32h745zi-cm7".as_bytes()));
    out.push(Case::new("stm32l011f4".as_bytes()));
    assert(no_ota.deep_view() =~~= seq!["ota=no".spec_bytes()]);
    assert(out.deep_view() =~~= default_cases_spec());
    out
}

/// The definitions handed to the generator for a case: the chip feature,
/// the CI flavour, then the case's own.
pub open spec fn generate_defines_spec(c: CaseView, ci: Seq<u8>) -> Seq<Seq<u8>> {
    seq!["chip_feature=".spec_bytes() + c.chip, "ci=".spec_bytes() + ci] + c.defines
}

/// The `--define` values for generating a case.
pub fn generate_defines(case: &Case, ci: &[u8]) -> (r: Vec<Vec<u8>>)
    ensures
        r.deep_view() == generate_defines_spec(case@, ci@),
{
    let mut out: Vec<Vec<u8>> = Vec::new();
    let mut chip: Vec<u8> = Vec::new();
    push_all(&mut chip, "chip_feature=".as_bytes());
    push_all(&mut chip, case.chip.as_slice());
    out.push(chip);
    let mut flavour: Vec<u8> = Vec::new();
    push_all(&mut flavour, "ci=".as_bytes());
    push_all(&mut flavour, ci);
    out.push(flavour);
    let ghost head = out.deep_view();
    let ghost dv = case.defines.deep_view();
    let mut i: usize = 0;
    while i < case.defines.len()
        invariant
            0 <= i <= case.defines@.len(),
            dv == case.defines.deep_view(),
            out.deep_view() == head + dv.subrange(0, i as int),
        decreases case.defines.len() - i,
    {
        let d = copy_range(case.defines[i].as_slice(), 0, case.defines[i].len());
        assert(case.defines@[i as int]@.subrange(0, case.defines@[i as int]@.len() as int)
            == case.defines@[i as int]@);
        let ghost before = out.deep_view();
        let ghost d_view = d@;
        out.push(d);
        assert(dv[i as int] =~= case.defines@[i as int]@);
        assert(out.deep_view() =~~= before.push(d_view));
        assert(before.push(d_view) =~= head + dv.subrange(0, i + 1));
        i = i + 1;
    }
    assert(dv.subrange(0, dv.len() as int) == dv);
    assert(head =~~= seq!["chip_feature=".spec_bytes() + case@.chip, "ci=".spec_bytes() + ci@]);
    out
}

/// A manifest whose dependencies are refreshed in the generated project.
#[derive(Clone, Copy, Debug, PartialEq, Eq, Structural)]
pub enum Manifest {
    Root,
    Cross,
    ChipInfo,
}

/// One step of checking a generated project.
#[derive(Clone, Copy, Debug, PartialEq, Eq, Structural)]
pub enum CheckStep {
    /// Remove what a former run left in the project's directory.
    ClearOld,
    /// Generate the project.
    Generate,
    /// Look for placeholders that survived generation.
    CheckPlaceholders,
    /// `cargo update` on a manifest of the generated project.
    Update(Manifest),
    /// Compare the lock files of the template with the generated ones.
    ReportLockDrift,
    /// Run the `i`-th of `CHECK_COMMANDS` in the project.
    Run(usize),
    KeepProject,
    RemoveProject,
}

/// How many commands a full check runs in each project.
pub const CHECK_COMMAND_COUNT: usize = 10;

/// The steps for one case: dependencies are refreshed only where `refresh`
/// (the first case), the project's commands are run unless `quick`, and the
/// project is kept only where `keep`.
pub open spec fn check_steps_spec(quick: bool, keep: bool, refresh: bool) -> Seq<CheckStep> {
    seq![CheckStep::ClearOld, CheckStep::Generate, CheckStep::CheckPlaceholders] + (if refresh {
        seq![
            CheckStep::Update(Manifest::Root),
            CheckStep::Update(Manifest::Cross),
            CheckStep::Update(Manifest::ChipInfo),
        ]
    } else {
        Seq::empty()
    }) + seq![CheckStep::ReportLockDrift] + (if quick {
        Seq::empty()
    } else {
        Seq::new(CHECK_COMMAND_COUNT as nat, |i: int| CheckStep::Run(i as usize))
    }) + seq![if keep { CheckStep::KeepProject } else { CheckStep::RemoveProject }]
}

/// The steps of checking one generated project, in order; the check stops
/// at the first step that fails.
pub fn check_steps(quick: bool, keep: bool, refresh: bool) -> (r: Vec<CheckStep>)
    ensures
        r@ == check_steps_spec(quick, keep, refresh),
{
    let mut out: Vec<CheckStep> = Vec::new();
    out.push(CheckStep::ClearOld);
    out.push(CheckStep::Generate);
    out.push(CheckStep::CheckPlaceholders);
    if refresh {
        out.push(CheckStep::Update(Manifest::Root));
        out.push(CheckStep::Update(Manifest::Cross));
        out.push(CheckStep::Update(Manifest::ChipInfo));
    }
    out.push(CheckStep::ReportLockDrift);
    let ghost head = out@;
    if !quick {
        let mut i: usize = 0;
        while i < CHECK_COMMAND_COUNT
            invariant
                0 <= i <= CHECK_COMMAND_COUNT,
                out@ == head + Seq::new(i as nat, |k: int| CheckStep::Run(k as usize)),
            decreases CHECK_COMMAND_COUNT - i,
        {
            out.push(CheckStep::Run(i));
            i = i + 1;
            assert(out@ =~= head + Seq::new(i as nat, |k: int| CheckStep::Run(k as usize)));
        }
    } else {
        assert(out@ =~= head + Seq::<CheckStep>::empty());
    }
    out.push(if keep { CheckStep::KeepProject } else { CheckStep::RemoveProject });
    assert(out@ =~= check_steps_spec(quick, keep, refresh));
    out
}

/// Whether the generated project survives its check is decided by `keep`
/// alone: the last step keeps it exactly when `keep` is set and removes it
/// otherwise, whatever `quick` and `refresh` are, and no earlier step keeps
/// or removes it. Two plans with the same `keep` end alike.
pub proof fn lemma_last_step_follows_keep(quick: bool, keep: bool, refresh: bool, quick2: bool, refresh2: bool)
    ensures
        check_steps_spec(quick, keep, refresh).len() > 0,
        keep ==> check_steps_spec(quick, keep, refresh).last() == CheckStep::KeepProject,
        !keep ==> check_steps_spec(quick, keep, refresh).last() == CheckStep::RemoveProject,
        forall|i: int|
            0 <= i < check_steps_spec(quick, keep, refresh).len() - 1 ==> {
                &&& #[trigger] check_steps_spec(quick, keep, refresh)[i] != CheckStep::KeepProject
                &&& check_steps_spec(quick, keep, refresh)[i] != CheckStep::RemoveProject
            },
        check_steps_spec(quick, keep, refresh).last() == check_steps_spec(quick2, keep, refresh2).last(),
{
    let s = check_steps_spec(quick, keep, refresh);
    let s2 = check_steps_spec(quick2, keep, refresh2);
    let head = seq![CheckStep::ClearOld, CheckStep::Generate, CheckStep::CheckPlaceholders];
    let updates = if refresh {
        seq![
            CheckStep::Update(Manifest::Root),
            CheckStep::Update(Manifest::Cross),
            CheckStep::Update(Manifest::ChipInfo),
        ]
    } else {
        Seq::empty()
    };
    let runs: Seq<CheckStep> = if quick {
        Seq::empty()
    } else {
        Seq::new(CHECK_COMMAND_COUNT as nat, |i: int| CheckStep::Run(i as usize))
    };
    let body = head + updates + seq![CheckStep::ReportLockDrift] + runs;
    let last = if keep { CheckStep::KeepProject } else { CheckStep::RemoveProject };
    assert(s == body + seq![last]);
    assert(s2.last() == last);
    assert forall|i: int| 0 <= i < s.len() - 1 implies {
        &&& #[trigger] s[i] != CheckStep::KeepProject
        &&& s[i] != CheckStep::RemoveProject
    } by {
        assert(s[i] == body[i]);
        if i < 3 {
            assert(body[i] == head[i]);
        } else if i < 3 + updates.len() {
            assert(body[i] == updates[i - 3]);
        } else if i == 3 + updates.len() {
        } else {
            assert(body[i] == runs[i - 4 - updates.len()]);
        }
    }
}

/// The plan of a case: it first clears what a former run left, generates
/// the project and looks for placeholders; it refreshes each manifest's
/// dependencies exactly when `refresh` is set; it always compares the lock
/// files; and it runs each of the check commands exactly when `quick` is not
/// set, each once and in order, and no other command.
pub proof fn lemma_plan_follows_options(quick: bool, keep: bool, refresh: bool)
    ensures
        check_steps_spec(quick, keep, refresh)[0] == CheckStep::ClearOld,
        check_steps_spec(quick, keep, refresh)[1] == CheckStep::Generate,
        check_steps_spec(quick, keep, refresh)[2] == CheckStep::CheckPlaceholders,
        check_steps_spec(quick, keep, refresh).contains(CheckStep::ReportLockDrift),
        forall|m: Manifest|
            #[trigger] check_steps_spec(quick, keep, refresh).contains(CheckStep::Update(m)) <==> refresh,
        forall|c: usize|
            #[trigger] check_steps_spec(quick, keep, refresh).contains(CheckStep::Run(c)) <==> (!quick
                && c < CHECK_COMMAND_COUNT),
        forall|i: int, j: int|
            #![trigger check_steps_spec(quick, keep, refresh)[i], check_steps_spec(quick, keep, refresh)[j]]
            0 <= i < j < check_steps_spec(quick, keep, refresh).len() ==> (check_steps_spec(
                quick,
                keep,
                refresh,
            )[i] matches CheckStep::Run(a) ==> (check_steps_spec(quick, keep, refresh)[j] matches CheckStep::Run(b)
                ==> a < b)),
{
    let s = check_steps_spec(quick, keep, refresh);
    let head = seq![CheckStep::ClearOld, CheckStep::Generate, CheckStep::CheckPlaceholders];
    let updates = if refresh {
        seq![
            CheckStep::Update(Manifest::Root),
            CheckStep::Update(Manifest::Cross),
            CheckStep::Update(Manifest::ChipInfo),
        ]
    } else {
        Seq::empty()
    };
    let runs: Seq<CheckStep> = if quick {
        Seq::empty()
    } else {
        Seq::new(CHECK_COMMAND_COUNT as nat, |i: int| CheckStep::Run(i as usize))
    };
    let last = if keep { CheckStep::KeepProject } else { CheckStep::RemoveProject };
    let u = updates.len() as int;
    assert(s == head + updates + seq![CheckStep::ReportLockDrift] + runs + seq![last]);
    assert(s[0] == head[0] && s[1] == head[1] && s[2] == head[2]);
    assert(s[3 + u] == CheckStep::ReportLockDrift);
    // where each step stands
    assert forall|i: int| 0 <= i < s.len() implies {
        &&& (#[trigger] s[i] is Update) ==> 3 <= i < 3 + u
        &&& s[i] is Run ==> 4 + u <= i < 4 + u + runs.len() && s[i] == CheckStep::Run(
            (i - 4 - u) as usize,
        )
    } by {
        if i < 3 {
            assert(s[i] == head[i]);
        } else if i < 3 + u {
        } else if i == 3 + u {
        } else if i < 4 + u + runs.len() {
            assert(s[i] == runs[i - 4 - u]);
        } else {
            assert(s[i] == last);
        }
    }
    assert forall|m: Manifest| #[trigger] s.contains(CheckStep::Update(m)) <==> refresh by {
        if refresh {
            let k: int = match m {
                Manifest::Root => 3,
                Manifest::Cross => 4,
                Manifest::ChipInfo => 5,
            };
            assert(s[k] == updates[k - 3]);
            assert(s[k] == CheckStep::Update(m));
        } else if s.contains(CheckStep::Update(m)) {
            let k = choose|k: int| 0 <= k < s.len() && s[k] == CheckStep::Update(m);
            assert(s[k] is Update);
        }
    }
    assert forall|c: usize| #[trigger] s.contains(CheckStep::Run(c)) <==> (!quick && c
        < CHECK_COMMAND_COUNT) by {
        if !quick && c < CHECK_COMMAND_COUNT {
            let k = 4 + u + c;
            assert(s[k] == runs[c as int]);
            assert(s[k] == CheckStep::Run(c));
        } else if s.contains(CheckStep::Run(c)) {
            let k = choose|k: int| 0 <= k < s.len() && s[k] == CheckStep::Run(c);
            assert(s[k] is Run);
        }
    }
}

/// Whether a line still holds a placeholder of the template.
pub open spec fn holds_placeholder(line: Seq<u8>) -> bool {
    contains_seq(line, "{{".spec_bytes()) || contains_seq(line, "{%".spec_bytes())
}

/// The lines of `t` from `i` on (line `n` first) that still hold a
/// placeholder, each with its number and its trimmed text.
pub open spec fn placeholder_lines_from(t: Seq<u8>, i: int, n: int) -> Seq<(int, Seq<u8>)>
    decreases t.len() - i,
{
    if i < 0 || i >= t.len() {
        Seq::empty()
    } else {
        let e = line_end(t, i);
        let line = t.subrange(i, content_end(t, i, e));
        let here = if holds_placeholder(line) {
            seq![(n, trim_seq(line))]
        } else {
            Seq::empty()
        };
        if e < i || e >= t.len() {
            here
        } else {
            here + placeholder_lines_from(t, e + 1, n + 1)
        }
    }
}

/// The lines of a generated file that still hold `{{` or `{%`, numbered
/// from one, with their text trimmed.
pub fn placeholder_lines(text: &[u8]) -> (r: Vec<(usize, Vec<u8>)>)
    ensures
        r@.len() == placeholder_lines_from(text@, 0, 1).len(),
        forall|k: int|
            0 <= k < r@.len() ==> (#[trigger] r@[k]).0 == placeholder_lines_from(text@, 0, 1)[k].0
                && r@[k].1@ == placeholder_lines_from(text@, 0, 1)[k].1,
{
    let t_len: usize = text.len();
    let mut out: Vec<(usize, Vec<u8>)> = Vec::new();
    let ghost mut done: Seq<(int, Seq<u8>)> = Seq::empty();
    let mut i: usize = 0;
    let mut n: usize = 0;
    while i < t_len
        invariant_except_break
            placeholder_lines_from(text@, 0, 1) == done + placeholder_lines_from(
                text@,
                i as int,
                n + 1,
            ),
        invariant
            i <= text@.len(),
            t_len == text@.len(),
            n <= i,
            out@.len() == done.len(),
            forall|k: int|
                0 <= k < out@.len() ==> (#[trigger] out@[k]).0 == done[k].0 && out@[k].1@
                    == done[k].1,
        ensures
            placeholder_lines_from(text@, 0, 1) == done,
        decreases t_len - i,
    {
        let mut e: usize = i;
        while e < t_len && text[e] != 0x0A
            invariant
                i <= e <= t_len,
                t_len == text@.len(),
                line_end(text@, i as int) == line_end(text@, e as int),
            decreases t_len - e,
        {
            e = e + 1;
        }
        let c: usize = if e > i && e < text.len() && text[e - 1] == 0x0D { e - 1 } else { e };
        let line = &text[i..c];
        let ghost here = if holds_placeholder(line@) {
            seq![(n + 1, trim_seq(line@))]
        } else {
            Seq::<(int, Seq<u8>)>::empty()
        };
        let ghost rest = if e >= t_len {
            Seq::<(int, Seq<u8>)>::empty()
        } else {
            placeholder_lines_from(text@, e + 1, n + 2)
        };
        assert(placeholder_lines_from(text@, i as int, n + 1) == here + rest);
        let ghost old_done = done;
        if contains(line, "{{".as_bytes()) || contains(line, "{%".as_bytes()) {
            let trimmed = trim(line);
            out.push((n + 1, trimmed));
            proof {
                done = done.push((n + 1, trimmed@));
                assert forall|k: int| 0 <= k < out@.len() implies (#[trigger] out@[k]).0 == done[k].0 && out@[k].1@ == done[k].1 by {
                    if k < old_done.len() {
                        assert(done[k] == old_done[k]);
                    }
                }
            }
        }
        assert(done =~= old_done + here);
        if e >= t_len {
            assert(done + rest =~= done);
            break;
        }
        i = e + 1;
        n = n + 1;
    }
    out
}

/// Whether a generated file may keep raw placeholders: one of the files
/// that the template excludes from substitution (they document the
/// placeholders as text), each given by its path relative to the project
/// with `/` between the parts.
pub fn placeholders_allowed(relative_path: &[u8], excluded: &[Vec<u8>]) -> (r: bool)
    ensures
        r == exists|i: int| 0 <= i < excluded@.len() && excluded@[i]@ == relative_path@,
{
    let mut i: usize = 0;
    while i < excluded.len()
        invariant
            i <= excluded@.len(),
            forall|j: int| 0 <= j < i ==> excluded@[j]@ != relative_path@,
        decreases excluded.len() - i,
    {
        if eq_bytes(relative_path, excluded[i].as_slice()) {
            return true;
        }
        i = i + 1;
    }
    false
}

/// What the check is asked to do.
#[derive(Debug)]
pub struct Options {
    pub cases: Vec<Case>,
    /// The CI flavour the projects are generated with.
    pub ci: Vec<u8>,
    /// Only generate, without building.
    pub quick: bool,
    /// Keep the generated projects.
    pub keep: bool,
}

/// The command line of the check, read.
#[derive(Debug)]
pub enum Command {
    Check(Options),
    /// Print the usage and stop.
    Help,
}

/// Why the command line of the check was refused.
#[derive(Debug)]
pub enum ArgsError {
    /// `--ci` is the last argument.
    MissingCiValue,
    UnknownFlag(Vec<u8>),
}

/// A read command line as a mathematical value.
pub enum ArgsOutcome {
    Check { cases: Seq<CaseView>, ci: Seq<u8>, quick: bool, keep: bool },
    Help,
    MissingCiValue,
    UnknownFlag(Seq<u8>),
}

pub open spec fn outcome_of(r: Result<Command, ArgsError>) -> ArgsOutcome {
    match r {
        Ok(Command::Check(o)) => ArgsOutcome::Check {
            cases: o.cases.deep_view(),
            ci: o.ci@,
            quick: o.quick,
            keep: o.keep,
        },
        Ok(Command::Help) => ArgsOutcome::Help,
        Err(ArgsError::MissingCiValue) => ArgsOutcome::MissingCiValue,
        Err(ArgsError::UnknownFlag(f)) => ArgsOutcome::UnknownFlag(f@),
    }
}

/// Reading the arguments from `i` on, with what was read before.
pub open spec fn parse_args_from(
    args: Seq<Seq<u8>>,
    i: int,
    cases: Seq<CaseView>,
    ci: Seq<u8>,
    quick: bool,
    keep: bool,
) -> ArgsOutcome
    decreases args.len() - i,
{
    if i < 0 || i >= args.len() {
        ArgsOutcome::Check {
            cases: if cases.len() == 0 { default_cases_spec() } else { cases },
            ci,
            quick,
            keep,
        }
    } else {
        let a = args[i];
        if a == "--quick".spec_bytes() {
            parse_args_from(args, i + 1, cases, ci, true, keep)
        } else if a == "--keep".spec_bytes() {
            parse_args_from(args, i + 1, cases, ci, quick, true)
        } else if a == "--ci".spec_bytes() {
            if i + 1 < args.len() {
                parse_args_from(args, i + 2, cases, args[i + 1], quick, keep)
            } else {
                ArgsOutcome::MissingCiValue
            }
        } else if a == "-h".spec_bytes() || a == "--help".spec_bytes() {
            ArgsOutcome::Help
        } else if a.len() > 0 && a[0] == 0x2D {
            ArgsOutcome::UnknownFlag(a)
        } else {
            parse_args_from(
                args,
                i + 1,
                cases.push(CaseView { chip: a, suffix: None, defines: Seq::empty() }),
                ci,
                quick,
                keep,
            )
        }
    }
}

/// The command line of the check: `--quick`, `--keep`, `--ci <flavour>`,
/// `-h`/`--help`, and chip features; without chip features the default
/// configurations, without `--ci` the flavour `github`.
pub open spec fn parse_args_spec(args: Seq<Seq<u8>>) -> ArgsOutcome {
    parse_args_from(args, 0, Seq::empty(), "github".spec_bytes(), false, false)
}

/// Reads the command line of the check (the arguments after the program).
pub fn parse_args(args: &[Vec<u8>]) -> (r: Result<Command, ArgsError>)
    ensures
        outcome_of(r) == parse_args_spec(args.deep_view()),
{
    let ghost av = args.deep_view();
    let mut cases: Vec<Case> = Vec::new();
    let mut ci: Vec<u8> = bytes_of("github");
    let mut quick = false;
    let mut keep = false;
    let mut i: usize = 0;
    assert(cases.deep_view() =~= Seq::<CaseView>::empty());
    while i < args.len()
        invariant
            0 <= i <= args@.len(),
            av == args.deep_view(),
            parse_args_spec(av) == parse_args_from(av, i as int, cases.deep_view(), ci@, quick, keep),
        decreases args.len() - i,
    {
        let a = args[i].as_slice();
        assert(av[i as int] =~= a@);
        if eq_bytes(a, "--quick".as_bytes()) {
            quick = true;
            i = i + 1;
        } else if eq_bytes(a, "--keep".as_bytes()) {
            keep = true;
            i = i + 1;
        } else if eq_bytes(a, "--ci".as_bytes()) {
            if i + 1 < args.len() {
                let v = args[i + 1].as_slice();
                assert(av[i + 1] =~= v@);
                ci = copy_range(v, 0, v.len());
                assert(v@.subrange(0, v@.len() as int) == v@);
                i = i + 2;
            } else {
                return Err(ArgsError::MissingCiValue);
            }
        } else if eq_bytes(a, "-h".as_bytes()) || eq_bytes(a, "--help".as_bytes()) {
            return Ok(Command::Help);
        } else if a.len() > 0 && a[0] == 0x2D {
            let flag = copy_range(a, 0, a.len());
            assert(a@.subrange(0, a@.len() as int) == a@);
            return Err(ArgsError::UnknownFlag(flag));
        } else {
            let ghost before = cases.deep_view();
            let c = Case::new(a);
            let ghost cv = c@;
            cases.push(c);
            assert(cases.deep_view() =~= before.push(cv));
            i = i + 1;
        }
    }
    if cases.len() == 0 {
        cases = default_cases();
    }
    Ok(Command::Check(Options { cases, ci, quick, keep }))
}


/// Strict lexicographic order of byte strings.
pub open spec fn bytes_lt(a: Seq<u8>, b: Seq<u8>) -> bool {
    bytes_le(a, b) && a != b
}

/// Any two byte strings are ordered one way or the other.
pub proof fn lemma_bytes_le_total(a: Seq<u8>, b: Seq<u8>)
    ensures
        bytes_le(a, b) || bytes_le(b, a),
    decreases a.len(),
{
    if a.len() > 0 && b.len() > 0 && a[0] == b[0] {
        lemma_bytes_le_total(a.drop_first(), b.drop_first());
    }
}

/// Byte strings ordered both ways are equal.
pub proof fn lemma_bytes_le_antisymmetric(a: Seq<u8>, b: Seq<u8>)
    requires
        bytes_le(a, b),
        bytes_le(b, a),
    ensures
        a == b,
    decreases a.len(),
{
    if a.len() == 0 {
        assert(b.len() == 0);
        assert(a =~= b);
    } else {
        assert(b.len() > 0);
        assert(a[0] == b[0]);
        lemma_bytes_le_antisymmetric(a.drop_first(), b.drop_first());
        assert(a =~= seq![a[0]] + a.drop_first());
        assert(b =~= seq![b[0]] + b.drop_first());
    }
}

/// The order of byte strings is transitive.
pub proof fn lemma_bytes_le_transitive(a: Seq<u8>, b: Seq<u8>, c: Seq<u8>)
    requires
        bytes_le(a, b),
        bytes_le(b, c),
    ensures
        bytes_le(a, c),
    decreases a.len(),
{
    if a.len() > 0 && b.len() > 0 && c.len() > 0 && a[0] == b[0] && b[0] == c[0] {
        lemma_bytes_le_transitive(a.drop_first(), b.drop_first(), c.drop_first());
    }
}

/// Every element comes strictly before every later one.
pub open spec fn strictly_sorted(s: Seq<Seq<u8>>) -> bool {
    forall|i: int, j: int| 0 <= i < j < s.len() ==> bytes_lt(#[trigger] s[i], #[trigger] s[j])
}

/// Whether `names` come in strictly ascending byte order, as the keys of an
/// ordered map do.
pub fn names_strictly_ascending(names: &[Vec<u8>]) -> (r: bool)
    ensures
        r == strictly_sorted(names.deep_view()),
{
    let ghost s = names.deep_view();
    let mut k: usize = 1;
    if names.len() == 0 {
        return true;
    }
    while k < names.len()
        invariant
            1 <= k <= names@.len(),
            s == names.deep_view(),
            forall|i: int, j: int| 0 <= i < j < k ==> bytes_lt(#[trigger] s[i], #[trigger] s[j]),
        decreases names.len() - k,
    {
        assert(s[k - 1] =~= names@[k - 1]@);
        assert(s[k as int] =~= names@[k as int]@);
        let le = bytes_le_exec(names[k - 1].as_slice(), names[k].as_slice());
        let same = eq_bytes(names[k - 1].as_slice(), names[k].as_slice());
        if !le || same {
            assert(!bytes_lt(s[k - 1], s[k as int]));
            return false;
        }
        assert forall|i: int, j: int| 0 <= i < j < k + 1 implies bytes_lt(#[trigger] s[i], #[trigger] s[j]) by {
            if j == k && i < k - 1 {
                assert(bytes_lt(s[i], s[k - 1]));
                lemma_bytes_le_transitive(s[i], s[k - 1], s[j]);
                if s[i] == s[j] {
                    lemma_bytes_le_antisymmetric(s[k - 1], s[j]);
                }
            }
        }
        k = k + 1;
    }
    true
}

/// Removes from `line` the prefix `prefix` and a closing quote; `None`
/// unless it has both.
pub open spec fn quoted_value(line: Seq<u8>, prefix: Seq<u8>) -> Option<Seq<u8>> {
    let rest = line.subrange(prefix.len() as int, line.len() as int);
    if rest.len() > 0 && rest.last() == 0x22 {
        Some(rest.drop_last())
    } else {
        None
    }
}

pub open spec fn name_prefix() -> Seq<u8> {
    "name = \"".spec_bytes()
}

pub open spec fn version_prefix() -> Seq<u8> {
    "version = \"".spec_bytes()
}

/// The `name version` entries of a lock file from line `i` on, in order,
/// with `name` the package name read last and not yet used.
pub open spec fn lock_entries_from(t: Seq<u8>, i: int, name: Option<Seq<u8>>) -> Seq<Seq<u8>>
    decreases t.len() - i,
{
    if i < 0 || i >= t.len() {
        Seq::empty()
    } else {
        let e = line_end(t, i);
        let line = t.subrange(i, content_end(t, i, e));
        let here: Seq<Seq<u8>> = if !starts_with(line, name_prefix()) && starts_with(
            line,
            version_prefix(),
        ) {
            match (name, quoted_value(line, version_prefix())) {
                (Some(n), Some(v)) => seq![n + " ".spec_bytes() + v],
                _ => Seq::empty(),
            }
        } else {
            Seq::empty()
        };
        let next_name = if starts_with(line, name_prefix()) {
            quoted_value(line, name_prefix())
        } else if starts_with(line, version_prefix()) {
            None
        } else {
            name
        };
        if e < i || e >= t.len() {
            here
        } else {
            here + lock_entries_from(t, e + 1, next_name)
        }
    }
}

/// The `name version` entries of a lock file, in order.
pub open spec fn lock_entries(t: Seq<u8>) -> Seq<Seq<u8>> {
    lock_entries_from(t, 0, None)
}

pub open spec fn opt_bytes(o: &Option<Vec<u8>>) -> Option<Seq<u8>> {
    match o {
        Some(v) => Some(v@),
        None => None,
    }
}

/// Puts `x` into the strictly sorted `s`, unless it is there.
pub(crate) fn insert_sorted_unique(s: &mut Vec<Vec<u8>>, x: Vec<u8>)
    requires
        strictly_sorted(old(s).deep_view()),
    ensures
        strictly_sorted(final(s).deep_view()),
        final(s).deep_view().to_set() == old(s).deep_view().to_set().insert(x@),
{
    let ghost sv = s.deep_view();
    let mut p: usize = 0;
    while p < s.len() && !bytes_le_exec(x.as_slice(), s[p].as_slice())
        invariant
            0 <= p <= s@.len(),
            sv == s.deep_view(),
            forall|k: int| 0 <= k < p ==> bytes_lt(#[trigger] sv[k], x@),
        decreases s.len() - p,
    {
        assert(sv[p as int] =~= s@[p as int]@);
        proof {
            lemma_bytes_le_total(x@, sv[p as int]);
            if sv[p as int] == x@ {
                assert(bytes_le(x@, x@)) by {
                    lemma_bytes_le_total(x@, x@);
                }
            }
        }
        p = p + 1;
    }
    if p < s.len() && eq_bytes(s[p].as_slice(), x.as_slice()) {
        assert(sv[p as int] =~= s@[p as int]@);
        assert(sv.to_set().insert(x@) =~= sv.to_set()) by {
            assert(sv.contains(sv[p as int]));
        }
        return;
    }
    proof {
        if p < sv.len() {
            assert(sv[p as int] =~= s@[p as int]@);
            assert(bytes_lt(x@, sv[p as int]));
        }
    }
    let ghost xv = x@;
    s.insert(p, x);
    let ghost nv = s.deep_view();
    assert(nv =~~= sv.insert(p as int, xv));
    assert forall|i: int, j: int| 0 <= i < j < nv.len() implies bytes_lt(#[trigger] nv[i], #[trigger] nv[j]) by {
        if j < p {
            assert(nv[i] == sv[i] && nv[j] == sv[j]);
        } else if j == p {
            assert(nv[i] == sv[i]);
        } else if i < p {
            assert(nv[i] == sv[i] && nv[j] == sv[j - 1]);
            lemma_bytes_le_transitive(sv[i], xv, sv[p as int]);
            if p < j - 1 {
                lemma_bytes_le_transitive(sv[i], sv[p as int], sv[j - 1]);
                if sv[i] == sv[j - 1] {
                    lemma_bytes_le_antisymmetric(sv[i], sv[p as int]);
                }
            }
            if sv[i] == sv[p as int] {
                lemma_bytes_le_antisymmetric(sv[i], xv);
            }
        } else if i == p {
            assert(nv[j] == sv[j - 1]);
            if p < j - 1 {
                lemma_bytes_le_transitive(xv, sv[p as int], sv[j - 1]);
                if xv == sv[j - 1] {
                    lemma_bytes_le_antisymmetric(xv, sv[p as int]);
                }
            }
        } else {
            assert(nv[i] == sv[i - 1] && nv[j] == sv[j - 1]);
        }
    }
    assert(nv.to_set() =~= sv.to_set().insert(xv)) by {
        assert forall|e: Seq<u8>| nv.to_set().contains(e) implies sv.to_set().insert(xv).contains(e) by {
            let k = choose|k: int| 0 <= k < nv.len() && nv[k] == e;
            if k < p {
                assert(sv[k] == e);
            } else if k > p {
                assert(sv[k - 1] == e);
            }
        }
        assert forall|e: Seq<u8>| sv.to_set().insert(xv).contains(e) implies nv.to_set().contains(e) by {
            if e == xv {
                assert(nv[p as int] == xv);
            } else {
                let k = choose|k: int| 0 <= k < sv.len() && sv[k] == e;
                if k < p {
                    assert(nv[k] == e);
                } else {
                    assert(nv[k + 1] == e);
                }
            }
        }
    }
}

/// The packages of a lock file as `name version`, each once, sorted: every
/// `version = "..."` line that follows a `name = "..."` line gives one.
pub fn lock_package_names(text: &[u8]) -> (r: Vec<Vec<u8>>)
    ensures
        strictly_sorted(r.deep_view()),
        r.deep_view().to_set() == lock_entries(text@).to_set(),
{
    let t_len: usize = text.len();
    let name_pfx = "name = \"".as_bytes();
    let version_pfx = "version = \"".as_bytes();
    let mut out: Vec<Vec<u8>> = Vec::new();
    let mut name: Option<Vec<u8>> = None;
    let ghost mut done: Seq<Seq<u8>> = Seq::empty();
    let mut i: usize = 0;
    assert(out.deep_view().to_set() =~= done.to_set());
    while i < t_len
        invariant_except_break
            lock_entries(text@) == done + lock_entries_from(
                text@,
                i as int,
                opt_bytes(&name),
            ),
        invariant
            i <= text@.len(),
            t_len == text@.len(),
            name_pfx@ == name_prefix(),
            version_pfx@ == version_prefix(),
            strictly_sorted(out.deep_view()),
            out.deep_view().to_set() == done.to_set(),
        ensures
            lock_entries(text@) == done,
        decreases t_len - i,
    {
        let mut e: usize = i;
        while e < t_len && text[e] != 0x0A
            invariant
                i <= e <= t_len,
                t_len == text@.len(),
                line_end(text@, i as int) == line_end(text@, e as int),
            decreases t_len - e,
        {
            e = e + 1;
        }
        let c: usize = if e > i && e < text.len() && text[e - 1] == 0x0D { e - 1 } else { e };
        let line = &text[i..c];
        let ghost name_view = opt_bytes(&name);
        let ghost here: Seq<Seq<u8>> = if !starts_with(line@, name_prefix()) && starts_with(
            line@,
            version_prefix(),
        ) {
            match (name_view, quoted_value(line@, version_prefix())) {
                (Some(n), Some(v)) => seq![n + " ".spec_bytes() + v],
                _ => Seq::empty(),
            }
        } else {
            Seq::empty()
        };
        let ghost next_name = if starts_with(line@, name_prefix()) {
            quoted_value(line@, name_prefix())
        } else if starts_with(line@, version_prefix()) {
            None
        } else {
            name_view
        };
        let ghost rest = if e >= t_len {
            Seq::<Seq<u8>>::empty()
        } else {
            lock_entries_from(text@, e + 1, next_name)
        };
        assert(lock_entries_from(text@, i as int, name_view) == here + rest);
        let ghost old_done = done;
        if starts_with_exec(line, name_pfx) {
            let rest_len = line.len() - name_pfx.len();
            if rest_len > 0 && line[line.len() - 1] == 0x22 {
                name = Some(copy_range(line, name_pfx.len(), line.len() - 1));
                assert(line@.subrange(name_pfx@.len() as int, line@.len() as int).drop_last()
                    =~= line@.subrange(name_pfx@.len() as int, line@.len() - 1));
            } else {
                name = None;
            }
            assert(here =~= Seq::<Seq<u8>>::empty());
        } else if starts_with_exec(line, version_pfx) {
            let taken = name;
            name = None;
            let rest_len = line.len() - version_pfx.len();
            if rest_len > 0 && line[line.len() - 1] == 0x22 {
                if let Some(n) = taken {
                    let mut entry: Vec<u8> = Vec::new();
                    push_all(&mut entry, n.as_slice());
                    push_all(&mut entry, " ".as_bytes());
                    push_all(&mut entry, &line[version_pfx.len()..line.len() - 1]);
                    assert(line@.subrange(version_pfx@.len() as int, line@.len() as int).drop_last()
                        =~= line@.subrange(version_pfx@.len() as int, line@.len() - 1));
                    let ghost ev = entry@;
                    insert_sorted_unique(&mut out, entry);
                    proof {
                        old_done.lemma_push_to_set_commute(ev);
                        done = done.push(ev);
                        assert(here =~= seq![ev]);
                        assert(done.to_set() =~= old_done.to_set().insert(ev));
                    }
                } else {
                    assert(here =~= Seq::<Seq<u8>>::empty());
                }
            } else {
                assert(here =~= Seq::<Seq<u8>>::empty());
            }
        } else {
            assert(here =~= Seq::<Seq<u8>>::empty());
        }
        assert(done =~= old_done + here);
        if e >= t_len {
            assert(done + rest =~= done);
            break;
        }
        i = e + 1;
    }
    out
}

/// The entries of `a` that `b` lacks, in the order of `a`.
pub open spec fn missing_from(a: Seq<Seq<u8>>, b: Seq<Seq<u8>>) -> Seq<Seq<u8>> {
    a.filter(|x: Seq<u8>| !b.contains(x))
}

/// The entries of `a` that `b` lacks, in the order of `a`: with both sorted
/// lists of packages, what one lock file has and the other lacks.
pub fn lock_difference(a: &[Vec<u8>], b: &[Vec<u8>]) -> (r: Vec<Vec<u8>>)
    ensures
        r.deep_view() == missing_from(a.deep_view(), b.deep_view()),
{
    let ghost av = a.deep_view();
    let ghost bv = b.deep_view();
    let ghost pick = |x: Seq<u8>| !bv.contains(x);
    let mut out: Vec<Vec<u8>> = Vec::new();
    let mut i: usize = 0;
    while i < a.len()
        invariant
            0 <= i <= a@.len(),
            av == a.deep_view(),
            bv == b.deep_view(),
            pick == (|x: Seq<u8>| !bv.contains(x)),
            out.deep_view() == av.subrange(0, i as int).filter(pick),
        decreases a.len() - i,
    {
        let item = a[i].as_slice();
        assert(av[i as int] =~= item@);
        let mut found = false;
        let mut j: usize = 0;
        while j < b.len()
            invariant
                0 <= j <= b@.len(),
                bv == b.deep_view(),
                found <==> exists|k: int| 0 <= k < j && bv[k] == item@,
            decreases b.len() - j,
        {
            assert(bv[j as int] =~= b@[j as int]@);
            if eq_bytes(b[j].as_slice(), item) {
                found = true;
            }
            j = j + 1;
        }
        proof {
            assert(av.subrange(0, i + 1).drop_last() =~= av.subrange(0, i as int));
            av.subrange(0, i as int).lemma_filter_push(av[i as int], pick);
            assert(av.subrange(0, i as int).push(av[i as int]) =~= av.subrange(0, i + 1));
            if found {
                let k = choose|k: int| 0 <= k < j && bv[k] == item@;
                assert(bv.contains(item@));
            } else {
                assert(!bv.contains(item@));
            }
        }
        if !found {
            let ghost before = out.deep_view();
            let copy = copy_range(item, 0, item.len());
            assert(item@.subrange(0, item@.len() as int) == item@);
            out.push(copy);
            assert(out.deep_view() =~~= before.push(item@));
        }
        i = i + 1;
    }
    assert(av.subrange(0, av.len() as int) == av);
    out
}


/// The arguments of `cargo` for the `i`-th command run in a generated
/// project: exactly the commands that the README promises the user of the
/// template, and the only way `chip-info` gets checked at all (its manifest
/// resolves only after generation). `I2C1` is on every chip of the default
/// set and has two different interrupt handlers; `--check` must pass on the
/// untouched pin assignment.
pub open spec fn check_command_spec(i: int) -> Seq<Seq<u8>> {
    if i == 0 {
        seq!["xtask".spec_bytes(), "lint".spec_bytes()]
    } else if i == 1 {
        seq!["xtask".spec_bytes(), "test".spec_bytes(), "host".spec_bytes()]
    } else if i == 2 {
        seq!["xtask".spec_bytes(), "lint".spec_bytes(), "cross".spec_bytes()]
    } else if i == 3 {
        seq!["xtask".spec_bytes(), "build".spec_bytes()]
    } else if i == 4 {
        seq!["xtask".spec_bytes(), "pins".spec_bytes()]
    } else if i == 5 {
        seq!["xtask".spec_bytes(), "pins".spec_bytes(), "RCC".spec_bytes()]
    } else if i == 6 {
        seq!["xtask".spec_bytes(), "pins".spec_bytes(), "I2C1".spec_bytes(), "--snippet".spec_bytes()]
    } else if i == 7 {
        seq!["xtask".spec_bytes(), "pins".spec_bytes(), "--check".spec_bytes()]
    } else if i == 8 {
        seq!["fmt".spec_bytes(), "--manifest-path".spec_bytes(), "chip-info/Cargo.toml".spec_bytes(), "--check".spec_bytes()]
    } else {
        seq!["clippy".spec_bytes(), "--manifest-path".spec_bytes(), "chip-info/Cargo.toml".spec_bytes(), "--all-targets".spec_bytes(), "--".spec_bytes(), "-D".spec_bytes(), "warnings".spec_bytes()]
    }
}

fn check_command_words(i: usize) -> (r: &'static [&'static str])
    requires
        i < CHECK_COMMAND_COUNT,
    ensures
        r@.len() == check_command_spec(i as int).len(),
        forall|k: int| 0 <= k < r@.len() ==> (#[trigger] r@[k]).spec_bytes() == check_command_spec(i as int)[k],
{
    if i == 0 {
        &["xtask", "lint"]
    } else if i == 1 {
        &["xtask", "test", "host"]
    } else if i == 2 {
        &["xtask", "lint", "cross"]
    } else if i == 3 {
        &["xtask", "build"]
    } else if i == 4 {
        &["xtask", "pins"]
    } else if i == 5 {
        &["xtask", "pins", "RCC"]
    } else if i == 6 {
        &["xtask", "pins", "I2C1", "--snippet"]
    } else if i == 7 {
        &["xtask", "pins", "--check"]
    } else if i == 8 {
        &["fmt", "--manifest-path", "chip-info/Cargo.toml", "--check"]
    } else {
        &["clippy", "--manifest-path", "chip-info/Cargo.toml", "--all-targets", "--", "-D", "warnings"]
    }
}

/// The arguments of `cargo` for the `i`-th command run in a generated project.
pub fn check_command(i: usize) -> (r: Vec<Vec<u8>>)
    requires
        i < CHECK_COMMAND_COUNT,
    ensures
        r.deep_view() == check_command_spec(i as int),
{
    let words = check_command_words(i);
    let ghost want = check_command_spec(i as int);
    let mut out: Vec<Vec<u8>> = Vec::new();
    let mut k: usize = 0;
    while k < words.len()
        invariant
            k <= words@.len(),
            words@.len() == want.len(),
            forall|j: int| 0 <= j < words@.len() ==> (#[trigger] words@[j]).spec_bytes() == want[j],
            out.deep_view() == want.subrange(0, k as int),
        decreases words.len() - k,
    {
        let ghost before = out.deep_view();
        let w = words[k].as_bytes_vec();
        let ghost wv = w@;
        out.push(w);
        assert(out.deep_view() =~~= before.push(wv));
        assert(before.push(wv) =~= want.subrange(0, k + 1));
        k = k + 1;
    }
    assert(want.subrange(0, want.len() as int) =~= want);
    out
}

/// The manifest path that `cargo update` is given for a manifest of the
/// generated project; none for the root one.
pub fn manifest_path(m: Manifest) -> (r: Option<&'static str>)
    ensures
        match m {
            Manifest::Root => r is None,
            Manifest::Cross => r matches Some(p) && p@ == "cross/Cargo.toml"@,
            Manifest::ChipInfo => r matches Some(p) && p@ == "chip-info/Cargo.toml"@,
        },
{
    match m {
        Manifest::Root => None,
        Manifest::Cross => Some("cross/Cargo.toml"),
        Manifest::ChipInfo => Some("chip-info/Cargo.toml"),
    }
}


/// The quoted strings of `s` from `i` on, `open` the start of one whose
/// closing quote is still to come.
pub open spec fn quoted_strings(s: Seq<u8>, i: int, open: Option<int>) -> Seq<Seq<u8>>
    decreases s.len() - i,
{
    if i < 0 || i >= s.len() {
        Seq::empty()
    } else if s[i] == 0x22 {
        match open {
            None => quoted_strings(s, i + 1, Some(i + 1)),
            Some(a) => seq![s.subrange(a, i)] + quoted_strings(s, i + 1, None),
        }
    } else {
        quoted_strings(s, i + 1, open)
    }
}

/// The files that the template's generator configuration excludes from
/// substitution, from its lines from `i` on: the quoted names on the first
/// line that starts with `exclude`.
pub open spec fn excludes_from(t: Seq<u8>, i: int) -> Seq<Seq<u8>>
    decreases t.len() - i,
{
    if i < 0 || i >= t.len() {
        Seq::empty()
    } else {
        let e = line_end(t, i);
        let line = t.subrange(i, content_end(t, i, e));
        let a = crate::bytes::trim_start_at(line, 0, line.len() as int);
        if starts_with(line.subrange(a, line.len() as int), "exclude".spec_bytes()) {
            quoted_strings(line, 0, None)
        } else if e < i || e >= t.len() {
            Seq::empty()
        } else {
            excludes_from(t, e + 1)
        }
    }
}

/// The files that the template's generator configuration (its
/// `exclude = [...]` line) keeps from substitution: they document the
/// placeholders as text and keep them raw on purpose.
pub fn substitution_excludes(config: &[u8]) -> (r: Vec<Vec<u8>>)
    ensures
        r.deep_view() == excludes_from(config@, 0),
{
    let t_len: usize = config.len();
    let mut i: usize = 0;
    while i < t_len
        invariant
            i <= t_len,
            t_len == config@.len(),
            excludes_from(config@, 0) == excludes_from(config@, i as int),
        decreases t_len - i,
    {
        let mut e: usize = i;
        while e < t_len && config[e] != 0x0A
            invariant
                i <= e <= t_len,
                t_len == config@.len(),
                line_end(config@, i as int) == line_end(config@, e as int),
            decreases t_len - e,
        {
            e = e + 1;
        }
        let c: usize = if e > i && e < t_len && config[e - 1] == 0x0D { e - 1 } else { e };
        let line = copy_range(config, i, c);
        let (a, _) = crate::bytes::trim_range(line.as_slice(), 0, line.len());
        let rest = copy_range(line.as_slice(), a, line.len());
        if starts_with_exec(rest.as_slice(), "exclude".as_bytes()) {
            return quoted_in(line.as_slice());
        }
        if e >= t_len {
            return Vec::new();
        }
        i = e + 1;
    }
    Vec::new()
}

fn quoted_in(s: &[u8]) -> (r: Vec<Vec<u8>>)
    ensures
        r.deep_view() == quoted_strings(s@, 0, None),
{
    let mut out: Vec<Vec<u8>> = Vec::new();
    let mut open: Option<usize> = None;
    let mut i: usize = 0;
    while i < s.len()
        invariant
            i <= s@.len(),
            open matches Some(a) ==> a <= i,
            quoted_strings(s@, 0, None) == out.deep_view() + quoted_strings(
                s@,
                i as int,
                match open {
                    Some(a) => Some(a as int),
                    None => None,
                },
            ),
        decreases s.len() - i,
    {
        if s[i] == 0x22 {
            match open {
                None => {
                    open = Some(i + 1);
                },
                Some(a) => {
                    let ghost before = out.deep_view();
                    let q = copy_range(s, a, i);
                    let ghost qv = q@;
                    out.push(q);
                    assert(out.deep_view() =~~= before.push(qv));
                    assert(quoted_strings(s@, 0, None) =~= out.deep_view() + quoted_strings(
                        s@,
                        i + 1,
                        None,
                    ));
                    open = None;
                },
            }
        }
        i = i + 1;
    }
    assert(out.deep_view() + Seq::<Seq<u8>>::empty() =~= out.deep_view());
    out
}

} // verus!

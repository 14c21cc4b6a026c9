use vstd::prelude::*;
use vstd::string::*;

use crate::text::str_equals;

verus! {

/// Inertial reference frames.
#[derive(Clone, Copy, Debug, PartialEq, Eq, Structural)]
pub enum InertialFrames {
    Local,
    Global,
    Unconstrained,
}

/// Temporal reference frames.
#[derive(Clone, Copy, Debug, PartialEq, Eq, Structural)]
pub enum TemporalFrames {
    Boot,
    Epoch,
    Unconstrained,
}

/// The frame conversions an assignment may apply.
#[derive(Clone, Copy, Debug, PartialEq, Eq, Structural)]
pub enum Conversions {
    NoOp,
    LocalToGlobal,
    GlobalToLocal,
    BootToEpoch,
    EpochToBoot,
}

/// How many inertial frames the encoding distinguishes.
pub const INERTIAL_FRAMES_COUNT: i64 = 3;

impl InertialFrames {
    pub open spec fn code(self) -> int {
        match self {
            InertialFrames::Local => 0,
            InertialFrames::Global => 1,
            InertialFrames::Unconstrained => 2,
        }
    }

    /// The number of the frame in the encoding.
    pub fn number(&self) -> (r: i64)
        ensures
            r == self.code(),
    {
        match self {
            InertialFrames::Local => 0,
            InertialFrames::Global => 1,
            InertialFrames::Unconstrained => 2,
        }
    }

    /// The frame of a number of the encoding.
    pub fn from_number(value: i64) -> (r: InertialFrames)
        requires
            0 <= value < 3,
        ensures
            r.code() == value,
    {
        if value == 0 {
            InertialFrames::Local
        } else if value == 1 {
            InertialFrames::Global
        } else {
            InertialFrames::Unconstrained
        }
    }

    /// The frame of an annotation word: `local`, `global` or `_`.
    pub fn from_name(name: &str) -> (r: Option<InertialFrames>)
        ensures
            r == inertial_named(name@),
    {
        if str_equals(name, "local") {
            Some(InertialFrames::Local)
        } else if str_equals(name, "global") {
            Some(InertialFrames::Global)
        } else if str_equals(name, "_") {
            Some(InertialFrames::Unconstrained)
        } else {
            None
        }
    }
}

impl TemporalFrames {
    pub open spec fn code(self) -> int {
        match self {
            TemporalFrames::Boot => 0,
            TemporalFrames::Epoch => 1,
            TemporalFrames::Unconstrained => 2,
        }
    }

    /// The number of the frame in the encoding.
    pub fn number(&self) -> (r: i64)
        ensures
            r == self.code(),
    {
        match self {
            TemporalFrames::Boot => 0,
            TemporalFrames::Epoch => 1,
            TemporalFrames::Unconstrained => 2,
        }
    }

    /// The frame of a number of the encoding.
    pub fn from_number(value: i64) -> (r: TemporalFrames)
        requires
            0 <= value < 3,
        ensures
            r.code() == value,
    {
        if value == 0 {
            TemporalFrames::Boot
        } else if value == 1 {
            TemporalFrames::Epoch
        } else {
            TemporalFrames::Unconstrained
        }
    }

    /// The frame of an annotation word: `boot`, `epoch` or `_`.
    pub fn from_name(name: &str) -> (r: Option<TemporalFrames>)
        ensures
            r == temporal_named(name@),
    {
        if str_equals(name, "boot") {
            Some(TemporalFrames::Boot)
        } else if str_equals(name, "epoch") {
            Some(TemporalFrames::Epoch)
        } else if str_equals(name, "_") {
            Some(TemporalFrames::Unconstrained)
        } else {
            None
        }
    }
}

impl Conversions {
    pub open spec fn code(self) -> int {
        match self {
            Conversions::NoOp => 0,
            Conversions::LocalToGlobal => 1,
            Conversions::GlobalToLocal => 2,
            Conversions::BootToEpoch => 3,
            Conversions::EpochToBoot => 4,
        }
    }

    /// The number of the conversion in the encoding.
    pub fn number(&self) -> (r: i64)
        ensures
            r == self.code(),
    {
        match self {
            Conversions::NoOp => 0,
            Conversions::LocalToGlobal => 1,
            Conversions::GlobalToLocal => 2,
            Conversions::BootToEpoch => 3,
            Conversions::EpochToBoot => 4,
        }
    }

    /// The conversion of a number of the encoding.
    pub fn from_number(value: i64) -> (r: Conversions)
        requires
            0 <= value < 5,
        ensures
            r.code() == value,
    {
        if value == 0 {
            Conversions::NoOp
        } else if value == 1 {
            Conversions::LocalToGlobal
        } else if value == 2 {
            Conversions::GlobalToLocal
        } else if value == 3 {
            Conversions::BootToEpoch
        } else {
            Conversions::EpochToBoot
        }
    }
}

pub open spec fn inertial_named(s: Seq<char>) -> Option<InertialFrames> {
    if s == "local"@ {
        Some(InertialFrames::Local)
    } else if s == "global"@ {
        Some(InertialFrames::Global)
    } else if s == "_"@ {
        Some(InertialFrames::Unconstrained)
    } else {
        None
    }
}

pub open spec fn temporal_named(s: Seq<char>) -> Option<TemporalFrames> {
    if s == "boot"@ {
        Some(TemporalFrames::Boot)
    } else if s == "epoch"@ {
        Some(TemporalFrames::Epoch)
    } else if s == "_"@ {
        Some(TemporalFrames::Unconstrained)
    } else {
        None
    }
}

/// The code of a frame pair: `inertial * 3 + temporal`, in `0..9`.
pub open spec fn frame_code(iframe: InertialFrames, tframe: TemporalFrames) -> int {
    iframe.code() * 3 + tframe.code()
}

/// The code of a frame pair.
pub fn frame_number(frame: (InertialFrames, TemporalFrames)) -> (r: i64)
    ensures
        r == frame_code(frame.0, frame.1),
{
    frame.0.number() * INERTIAL_FRAMES_COUNT + frame.1.number()
}

/// The frame pair of a code.
pub fn frame_from_number(frame_no: i64) -> (r: (InertialFrames, TemporalFrames))
    requires
        0 <= frame_no < 9,
    ensures
        frame_code(r.0, r.1) == frame_no,
{
    (InertialFrames::from_number(frame_no / INERTIAL_FRAMES_COUNT), TemporalFrames::from_number(
        frame_no % INERTIAL_FRAMES_COUNT,
    ))
}

/// The (variable, inertial, temporal) groups of the first frame annotation
/// of a comment.
pub uninterp spec fn frame_annotation_match(text: Seq<char>) -> Option<(Seq<char>, Seq<char>, Seq<char>)>;

/// Relies on regex's `Regex::captures` and `Captures::extract`: the first
/// match of the frame-annotation pattern, with its three groups.
#[verifier::external_body]
fn frame_annotation_groups(text: &str) -> (r: Option<(String, String, String)>)
    ensures
        r.is_some() == frame_annotation_match(text@).is_some(),
        r.is_some() ==> frame_annotation_match(text@).unwrap() == (r.unwrap().0@, r.unwrap().1@, r.unwrap().2@),
{
    let re = regex::Regex::new(
        r"frame\(([A-Za-z_][A-Za-z0-9_]*)\)\s*=\s*\((local|global|_),\s*(boot|epoch|_)\)",
    ).unwrap();
    re.captures(text).map(|c| {
        let (_, [name, iframe, tframe]) = c.extract();
        (name.to_string(), iframe.to_string(), tframe.to_string())
    })
}

/// What a frame annotation with these groups declares, if both frame words
/// are known.
pub open spec fn frame_of_groups(groups: (Seq<char>, Seq<char>, Seq<char>)) -> Option<
    (Seq<char>, InertialFrames, TemporalFrames),
> {
    if inertial_named(groups.1).is_some() && temporal_named(groups.2).is_some() {
        Some((groups.0, inertial_named(groups.1).unwrap(), temporal_named(groups.2).unwrap()))
    } else {
        None
    }
}

/// Reads the frames named by the groups of a frame annotation.
pub fn frame_from_groups(name: String, iframe: &str, tframe: &str) -> (r: Option<
    (String, InertialFrames, TemporalFrames),
>)
    ensures
        r.is_some() == frame_of_groups((name@, iframe@, tframe@)).is_some(),
        r.is_some() ==> frame_of_groups((name@, iframe@, tframe@)).unwrap() == (r.unwrap().0@, r.unwrap().1, r.unwrap().2),
{
    match (InertialFrames::from_name(iframe), TemporalFrames::from_name(tframe)) {
        (Some(i), Some(t)) => Some((name, i, t)),
        _ => None,
    }
}

/// Finds the first frame annotation of a comment.
pub fn parse_human_frame(text: &str) -> (r: Option<(String, InertialFrames, TemporalFrames)>)
    ensures
        r.is_some() == (frame_annotation_match(text@).is_some() && frame_of_groups(
            frame_annotation_match(text@).unwrap(),
        ).is_some()),
        r.is_some() ==> frame_of_groups(frame_annotation_match(text@).unwrap()).unwrap() == (
            r.unwrap().0@,
            r.unwrap().1,
            r.unwrap().2,
        ),
{
    match frame_annotation_groups(text) {
        Some((name, iframe, tframe)) => frame_from_groups(name, iframe.as_str(), tframe.as_str()),
        None => None,
    }
}

/// The name of the frame variable of an object.
pub fn get_frame_var_name(object_name: &str) -> (r: String)
    ensures
        r@ == object_name@ + "_frame"@,
{
    object_name.to_owned().concat("_frame")
}

/// One branch of the disjunction of an assignment `lhs <- rhs`: either both
/// frames agree (`same_frame`), or they are the given pre- and post-frames;
/// the branch fixes the conversion and the repair count.
#[derive(Clone, Copy, Debug, PartialEq, Eq, Structural)]
pub struct FrameCase {
    pub conversion: Conversions,
    pub same_frame: bool,
    pub lhs_frame: i64,
    pub rhs_frame: i64,
    pub repair: i64,
}

/// The branch of a one-step conversion between two frame codes.
pub open spec fn conversion_case(conversion: Conversions, lhs: int, rhs: int) -> FrameCase {
    FrameCase { conversion, same_frame: false, lhs_frame: lhs as i64, rhs_frame: rhs as i64, repair: 1 }
}

/// The branches every assignment may take: no conversion between equal
/// frames, or one conversion along one axis, the other axis unconstrained.
pub open spec fn conversion_cases() -> Seq<FrameCase> {
    seq![
        FrameCase { conversion: Conversions::NoOp, same_frame: true, lhs_frame: 0, rhs_frame: 0, repair: 0 },
        conversion_case(
            Conversions::LocalToGlobal,
            frame_code(InertialFrames::Global, TemporalFrames::Unconstrained),
            frame_code(InertialFrames::Local, TemporalFrames::Unconstrained),
        ),
        conversion_case(
            Conversions::GlobalToLocal,
            frame_code(InertialFrames::Local, TemporalFrames::Unconstrained),
            frame_code(InertialFrames::Global, TemporalFrames::Unconstrained),
        ),
        conversion_case(
            Conversions::BootToEpoch,
            frame_code(InertialFrames::Unconstrained, TemporalFrames::Epoch),
            frame_code(InertialFrames::Unconstrained, TemporalFrames::Boot),
        ),
        conversion_case(
            Conversions::EpochToBoot,
            frame_code(InertialFrames::Unconstrained, TemporalFrames::Boot),
            frame_code(InertialFrames::Unconstrained, TemporalFrames::Epoch),
        ),
    ]
}

/// Whether a branch admits the frame codes `lhs` and `rhs`.
pub open spec fn case_allows(c: FrameCase, lhs: int, rhs: int) -> bool {
    if c.same_frame {
        lhs == rhs
    } else {
        lhs == c.lhs_frame && rhs == c.rhs_frame
    }
}

/// The branches of an assignment, in the order of [`conversion_cases`].
pub fn frame_cases() -> (r: Vec<FrameCase>)
    ensures
        r@ == conversion_cases(),
{
    let global_any = frame_number((InertialFrames::Global, TemporalFrames::Unconstrained));
    let local_any = frame_number((InertialFrames::Local, TemporalFrames::Unconstrained));
    let any_epoch = frame_number((InertialFrames::Unconstrained, TemporalFrames::Epoch));
    let any_boot = frame_number((InertialFrames::Unconstrained, TemporalFrames::Boot));
    let r = vec![
        FrameCase { conversion: Conversions::NoOp, same_frame: true, lhs_frame: 0, rhs_frame: 0, repair: 0 },
        FrameCase { conversion: Conversions::LocalToGlobal, same_frame: false, lhs_frame: global_any, rhs_frame: local_any, repair: 1 },
        FrameCase { conversion: Conversions::GlobalToLocal, same_frame: false, lhs_frame: local_any, rhs_frame: global_any, repair: 1 },
        FrameCase { conversion: Conversions::BootToEpoch, same_frame: false, lhs_frame: any_epoch, rhs_frame: any_boot, repair: 1 },
        FrameCase { conversion: Conversions::EpochToBoot, same_frame: false, lhs_frame: any_boot, rhs_frame: any_epoch, repair: 1 },
    ];
    assert(r@ =~= conversion_cases());
    r
}

/// The conversion, and its repair count, of the cheapest branch that admits
/// an assignment from frame code `rhs` to frame code `lhs`; `None` when no
/// branch admits it.
pub fn cheapest_conversion(lhs: i64, rhs: i64) -> (r: Option<(Conversions, i64)>)
    ensures
        r.is_none() <==> forall|k: int| 0 <= k < 5 ==> !case_allows(#[trigger] conversion_cases()[k], lhs as int, rhs as int),
        r.is_some() ==> exists|k: int|
            0 <= k < 5 && case_allows(#[trigger] conversion_cases()[k], lhs as int, rhs as int)
                && conversion_cases()[k].conversion == r.unwrap().0 && conversion_cases()[k].repair == r.unwrap().1,
        r.is_some() ==> forall|k: int|
            0 <= k < 5 && case_allows(#[trigger] conversion_cases()[k], lhs as int, rhs as int) ==> r.unwrap().1
                <= conversion_cases()[k].repair,
{
    let cases = frame_cases();
    let mut best: Option<(Conversions, i64)> = None;
    let mut k: usize = 0;
    while k < cases.len()
        invariant
            k <= cases.len(),
            cases@ == conversion_cases(),
            best.is_none() <==> forall|q: int| 0 <= q < k ==> !case_allows(#[trigger] conversion_cases()[q], lhs as int, rhs as int),
            best.is_some() ==> exists|q: int|
                0 <= q < k && case_allows(#[trigger] conversion_cases()[q], lhs as int, rhs as int)
                    && conversion_cases()[q].conversion == best.unwrap().0 && conversion_cases()[q].repair == best.unwrap().1,
            best.is_some() ==> forall|q: int|
                0 <= q < k && case_allows(#[trigger] conversion_cases()[q], lhs as int, rhs as int) ==> best.unwrap().1
                    <= conversion_cases()[q].repair,
        decreases cases.len() - k,
    {
        let c = cases[k];
        let allows = if c.same_frame { lhs == rhs } else { lhs == c.lhs_frame && rhs == c.rhs_frame };
        if allows {
            let better = match best {
                None => true,
                Some((_, rep)) => c.repair < rep,
            };
            if better {
                best = Some((c.conversion, c.repair));
            }
        }
        k = k + 1;
    }
    best
}

/// One assignment `lhs <- rhs` of the frame problem, by the names of its
/// frame variables, of its conversion variable and of its repair variable.
#[derive(Debug)]
pub struct FrameAssignment {
    pub lhs_var: String,
    pub rhs_var: String,
    pub conversion: String,
    pub repair: String,
}

/// A frame problem: the frames that annotations declare, by frame variable,
/// and the assignments whose repairs are to be minimized.
#[derive(Debug)]
pub struct FrameSystem {
    pub declared: Vec<(String, i64)>,
    pub assignments: Vec<FrameAssignment>,
}

impl FrameSystem {
    pub fn new() -> (r: FrameSystem)
        ensures
            r.declared@.len() == 0,
            r.assignments@.len() == 0,
    {
        FrameSystem { declared: Vec::new(), assignments: Vec::new() }
    }
}

/// Declares the frame of an object; returns the name of its frame variable.
pub fn frame_assert(var_name: &str, frame: (InertialFrames, TemporalFrames), system: &mut FrameSystem) -> (r: String)
    ensures
        r@ == var_name@ + "_frame"@,
        final(system).declared@.len() == old(system).declared@.len() + 1,
        forall|k: int| 0 <= k < old(system).declared@.len() ==> #[trigger] final(system).declared@[k] == old(system).declared@[k],
        final(system).declared@.last().0@ == r@,
        final(system).declared@.last().1 == frame_code(frame.0, frame.1),
        final(system).assignments == old(system).assignments,
{
    let var = get_frame_var_name(var_name);
    let code = frame_number(frame);
    system.declared.push((var.clone(), code));
    var
}

/// Records the assignment `lhs <- rhs` under the given conversion name;
/// returns that name. Its repair variable is named after it.
pub fn on_frame_assignment(lhs_name: &str, rhs_name: &str, system: &mut FrameSystem, conversion_name: String) -> (r: String)
    ensures
        r@ == conversion_name@,
        final(system).declared == old(system).declared,
        final(system).assignments@.len() == old(system).assignments@.len() + 1,
        forall|k: int| 0 <= k < old(system).assignments@.len() ==> #[trigger] final(system).assignments@[k] == old(system).assignments@[k],
        final(system).assignments@.last().lhs_var@ == lhs_name@ + "_frame"@,
        final(system).assignments@.last().rhs_var@ == rhs_name@ + "_frame"@,
        final(system).assignments@.last().conversion@ == conversion_name@,
        final(system).assignments@.last().repair@ == conversion_name@ + "_repair_const"@,
{
    let repair = conversion_name.clone().concat("_repair_const");
    system.assignments.push(FrameAssignment {
        lhs_var: get_frame_var_name(lhs_name),
        rhs_var: get_frame_var_name(rhs_name),
        conversion: conversion_name.clone(),
        repair,
    });
    conversion_name
}

} // verus!

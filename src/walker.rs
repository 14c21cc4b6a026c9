use std::rc::Rc;
use vstd::prelude::*;

use crate::constraints::{
    assert_literal, assert_repairable, create_division_type, create_multiplicative_type, label_views,
    type_to_constraint, divides, literal_vector, multiplies, pins_vector, repairable, Constraint, Object,
};
use crate::frames::{
    frame_annotation_match, frame_assert, frame_code, frame_of_groups, on_frame_assignment, parse_human_frame,
    FrameAssignment, FrameSystem,
};
use crate::text::{decimal, decimal_string, joined, str_equals};
use crate::types::{first_known, parse_type_comment, type_annotation_matches, type_vector};

verus! {

/// The kinds of syntax node that the walk tells apart.
#[derive(Clone, Copy, Debug, PartialEq, Eq, Structural)]
pub enum NodeKind {
    ClassDecl,
    ClassTemplate,
    FunctionDecl,
    Method,
    FunctionTemplate,
    Namespace,
    DeclRefExpr,
    FloatingLiteral,
    BinaryOperator,
    Other,
}

impl NodeKind {
    /// Kinds whose definitions open a named scope.
    pub open spec fn introduces_context(self) -> bool {
        match self {
            NodeKind::ClassDecl | NodeKind::ClassTemplate | NodeKind::FunctionDecl | NodeKind::Method
            | NodeKind::FunctionTemplate | NodeKind::Namespace => true,
            _ => false,
        }
    }

    pub fn is_context_introducer(&self) -> (r: bool)
        ensures
            r == self.introduces_context(),
    {
        match self {
            NodeKind::ClassDecl | NodeKind::ClassTemplate | NodeKind::FunctionDecl | NodeKind::Method
            | NodeKind::FunctionTemplate | NodeKind::Namespace => true,
            _ => false,
        }
    }
}

/// An evaluated floating-point literal: its object label and the fixed-point
/// decimal logarithm of its value.
#[derive(Debug)]
pub struct LiteralValue {
    pub label: String,
    pub log_value: i64,
}

/// A syntax node, with what the walk reads of it.
#[derive(Debug)]
pub struct AstNode {
    pub kind: NodeKind,
    /// The entity's name, if it has one.
    pub name: Option<String>,
    /// The text of the entity's documentation comment.
    pub comment: Option<String>,
    pub is_definition: bool,
    pub is_unexposed: bool,
    pub mangled_name: Option<String>,
    /// The spelled source location.
    pub location: String,
    /// The source text of the entity.
    pub spelling: Option<String>,
    /// For a floating-point literal that could be evaluated.
    pub literal: Option<LiteralValue>,
    /// For a binary operator whose spelling could be recovered.
    pub operator: Option<String>,
    pub children: Vec<AstNode>,
}

/// Where a repair belongs and what it scales.
#[derive(Debug)]
pub struct RepairContext {
    pub source_location: String,
    pub original_expression: String,
}

/// Whether the walk descends into a node's children after visiting it.
#[derive(Clone, Copy, Debug, PartialEq, Eq, Structural)]
pub enum VisitResult {
    Continue,
    Recurse,
}

/// The state of a walk over one translation unit.
pub struct WalkContext {
    /// The enclosing named scopes, outermost first.
    pub context: Vec<String>,
    pub constraints: Vec<Rc<Constraint>>,
    /// The object that the last visited operand denotes.
    pub object_name: Option<String>,
    pub fresh_count: u64,
    pub tmp_terms_to_repair_contexts: Vec<(String, RepairContext)>,
    pub frames: FrameSystem,
    pub frame_conversion_name_to_repair_context: Vec<(String, RepairContext)>,
    pub warnings: Vec<String>,
    /// What each constraint of `constraints` states, in the same order.
    pub emitted: Ghost<Seq<Emission>>,
}

/// What one constraint of a walk states.
pub enum Emission {
    /// Every component of the labelled object is pinned to the vector.
    Pin(Seq<char>, Seq<int>),
    /// `Repair(lhs, rhs, rep)`: `rhs` is repairable into `lhs` through `rep`.
    Repair(Seq<char>, Seq<char>, Seq<char>),
    /// `Product(res, a, b, divide)`: `res` is the product (or quotient) type of `a` and `b`.
    Product(Seq<char>, Seq<char>, Seq<char>, bool),
}

/// Whether a constraint states what an emission describes.
pub open spec fn emission_holds(c: Constraint, e: Emission) -> bool {
    match e {
        Emission::Pin(o, v) => pins_vector(c, v, o),
        Emission::Repair(l, r, t) => repairable(c, l, r, t),
        Emission::Product(t, a, b, divide) => if divide {
            divides(c, t, a, b)
        } else {
            multiplies(c, t, a, b)
        },
    }
}

/// The constraints of a walk state what its log of emissions says.
pub open spec fn walk_wf(w: WalkContext) -> bool {
    &&& w.emitted@.len() == w.constraints@.len()
    &&& forall|k: int| 0 <= k < w.constraints@.len() ==> #[trigger] emission_holds(*w.constraints@[k], w.emitted@[k])
    &&& forall|k: int|
        0 <= k < w.emitted@.len() && #[trigger] w.emitted@[k] is Repair ==> has_repair_context(
            w.tmp_terms_to_repair_contexts@,
            w.emitted@[k]->Repair_2,
        )
    &&& names_fresh_and_distinct(w)
}

/// The synthetic object an emission introduces, if any.
pub open spec fn minted_name(e: Emission) -> Option<Seq<char>> {
    match e {
        Emission::Pin(_, _) => None,
        Emission::Repair(_, _, t) => Some(t),
        Emission::Product(t, _, _, _) => Some(t),
    }
}

/// Every synthetic name that a walk state holds, of a repair object, of a
/// product or quotient object, or of a frame conversion, was taken from the
/// counter below its current value, and no two of them are equal.
pub open spec fn names_fresh_and_distinct(w: WalkContext) -> bool {
    let e = w.emitted@;
    let c = w.frame_conversion_name_to_repair_context@;
    &&& forall|k: int|
        0 <= k < e.len() && #[trigger] minted_name(e[k]) is Some ==> fresh_between(
            minted_name(e[k]).unwrap(),
            0,
            w.fresh_count as nat,
        )
    &&& forall|k: int| 0 <= k < c.len() ==> fresh_between(#[trigger] c[k].0@, 0, w.fresh_count as nat)
    &&& forall|j: int, k: int|
        0 <= j < k < e.len() && #[trigger] minted_name(e[j]) is Some && #[trigger] minted_name(e[k]) is Some
            ==> minted_name(e[j]) != minted_name(e[k])
    &&& forall|j: int, k: int| 0 <= j < k < c.len() ==> #[trigger] c[j].0@ != #[trigger] c[k].0@
    &&& forall|j: int, k: int|
        0 <= j < e.len() && 0 <= k < c.len() && #[trigger] minted_name(e[j]) is Some ==> minted_name(e[j]).unwrap()
            != #[trigger] c[k].0@
}

proof fn lemma_fresh_below(x: Seq<char>, f: nat)
    requires
        fresh_between(x, 0, f),
    ensures
        x != fresh_name(f),
        fresh_between(x, 0, f + 1),
{
    let n = choose|n: nat| 0 <= n < f && #[trigger] fresh_name(n) == x;
    lemma_fresh_names_distinct(n, f);
    assert(fresh_name(n) == x);
}

proof fn lemma_mint_emission(a: WalkContext, b: WalkContext, e: Emission)
    requires
        names_fresh_and_distinct(a),
        a.fresh_count < u64::MAX,
        b.fresh_count == a.fresh_count + 1,
        b.emitted@ == a.emitted@.push(e),
        minted_name(e) == Some(fresh_name(a.fresh_count as nat)),
        b.frame_conversion_name_to_repair_context@ == a.frame_conversion_name_to_repair_context@,
    ensures
        names_fresh_and_distinct(b),
{
    let f = a.fresh_count as nat;
    let ae = a.emitted@;
    let be = b.emitted@;
    let c = a.frame_conversion_name_to_repair_context@;
    assert(fresh_between(fresh_name(f), 0, f + 1));
    assert forall|k: int| 0 <= k < be.len() && #[trigger] minted_name(be[k]) is Some implies fresh_between(
        minted_name(be[k]).unwrap(),
        0,
        f + 1,
    ) by {
        if k < ae.len() {
            assert(be[k] == ae[k]);
            lemma_fresh_below(minted_name(ae[k]).unwrap(), f);
        }
    }
    assert forall|k: int| 0 <= k < c.len() implies fresh_between(#[trigger] c[k].0@, 0, f + 1) by {
        lemma_fresh_below(c[k].0@, f);
    }
    assert forall|j: int, k: int|
        0 <= j < k < be.len() && #[trigger] minted_name(be[j]) is Some && #[trigger] minted_name(be[k]) is Some
        implies minted_name(be[j]) != minted_name(be[k]) by {
        assert(be[j] == ae[j]);
        if k < ae.len() {
            assert(be[k] == ae[k]);
        } else {
            lemma_fresh_below(minted_name(ae[j]).unwrap(), f);
        }
    }
    assert forall|j: int, k: int|
        0 <= j < be.len() && 0 <= k < c.len() && #[trigger] minted_name(be[j]) is Some implies minted_name(
        be[j],
    ).unwrap() != #[trigger] c[k].0@ by {
        if j < ae.len() {
            assert(be[j] == ae[j]);
        } else {
            lemma_fresh_below(c[k].0@, f);
        }
    }
}

proof fn lemma_mint_conversion(a: WalkContext, b: WalkContext, entry: (String, RepairContext))
    requires
        names_fresh_and_distinct(a),
        a.fresh_count < u64::MAX,
        b.fresh_count == a.fresh_count + 1,
        b.emitted@ == a.emitted@,
        b.frame_conversion_name_to_repair_context@ == a.frame_conversion_name_to_repair_context@.push(entry),
        entry.0@ == fresh_name(a.fresh_count as nat),
    ensures
        names_fresh_and_distinct(b),
{
    let f = a.fresh_count as nat;
    let e = a.emitted@;
    let ac = a.frame_conversion_name_to_repair_context@;
    let bc = b.frame_conversion_name_to_repair_context@;
    assert(fresh_between(fresh_name(f), 0, f + 1));
    assert forall|k: int| 0 <= k < e.len() && #[trigger] minted_name(e[k]) is Some implies fresh_between(
        minted_name(e[k]).unwrap(),
        0,
        f + 1,
    ) by {
        lemma_fresh_below(minted_name(e[k]).unwrap(), f);
    }
    assert forall|k: int| 0 <= k < bc.len() implies fresh_between(#[trigger] bc[k].0@, 0, f + 1) by {
        if k < ac.len() {
            assert(bc[k] == ac[k]);
            lemma_fresh_below(ac[k].0@, f);
        }
    }
    assert forall|j: int, k: int| 0 <= j < k < bc.len() implies #[trigger] bc[j].0@ != #[trigger] bc[k].0@ by {
        assert(bc[j] == ac[j]);
        if k < ac.len() {
            assert(bc[k] == ac[k]);
        } else {
            lemma_fresh_below(ac[j].0@, f);
        }
    }
    assert forall|j: int, k: int|
        0 <= j < e.len() && 0 <= k < bc.len() && #[trigger] minted_name(e[j]) is Some implies minted_name(
        e[j],
    ).unwrap() != #[trigger] bc[k].0@ by {
        if k < ac.len() {
            assert(bc[k] == ac[k]);
        } else {
            lemma_fresh_below(minted_name(e[j]).unwrap(), f);
        }
    }
}

/// Some repair context is registered for the repair object `t`.
pub open spec fn has_repair_context(v: Seq<(String, RepairContext)>, t: Seq<char>) -> bool {
    exists|j: int| 0 <= j < v.len() && #[trigger] v[j].0@ == t
}

/// The state of a walk as mathematical values.
pub struct WalkModel {
    pub context: Seq<Seq<char>>,
    pub object_name: Option<Seq<char>>,
    pub fresh: int,
    pub emitted: Seq<Emission>,
    /// (repair object, source location, original expression)
    pub repairs: Seq<(Seq<char>, Seq<char>, Seq<char>)>,
    /// (frame variable, frame code)
    pub declared: Seq<(Seq<char>, int)>,
    /// (lhs frame variable, rhs frame variable, conversion, repair variable)
    pub assignments: Seq<(Seq<char>, Seq<char>, Seq<char>, Seq<char>)>,
    /// (conversion, source location, original expression)
    pub conversions: Seq<(Seq<char>, Seq<char>, Seq<char>)>,
    pub warnings: Seq<Seq<char>>,
}

pub open spec fn context_views(v: Seq<(String, RepairContext)>) -> Seq<(Seq<char>, Seq<char>, Seq<char>)> {
    v.map_values(|p: (String, RepairContext)| (p.0@, p.1.source_location@, p.1.original_expression@))
}

pub open spec fn option_view(o: Option<String>) -> Option<Seq<char>> {
    match o {
        Some(s) => Some(s@),
        None => None,
    }
}

/// The mathematical value of a walk state.
pub open spec fn model_of(w: WalkContext) -> WalkModel {
    WalkModel {
        context: label_views(w.context@),
        object_name: option_view(w.object_name),
        fresh: w.fresh_count as int,
        emitted: w.emitted@,
        repairs: context_views(w.tmp_terms_to_repair_contexts@),
        declared: w.frames.declared@.map_values(|p: (String, i64)| (p.0@, p.1 as int)),
        assignments: w.frames.assignments@.map_values(
            |a: FrameAssignment| (a.lhs_var@, a.rhs_var@, a.conversion@, a.repair@),
        ),
        conversions: context_views(w.frame_conversion_name_to_repair_context@),
        warnings: w.warnings@.map_values(|s: String| s@),
    }
}

/// The state before a walk: no scope, no object, nothing emitted.
pub open spec fn empty_model() -> WalkModel {
    WalkModel {
        context: seq![],
        object_name: None,
        fresh: 0,
        emitted: seq![],
        repairs: seq![],
        declared: seq![],
        assignments: seq![],
        conversions: seq![],
        warnings: seq![],
    }
}

/// The spelling of a node, or `Unknown spelling`.
pub open spec fn spelling_or_unknown(node: AstNode) -> Seq<char> {
    match node.spelling {
        Some(s) => s@,
        None => "Unknown spelling"@,
    }
}

/// The spelling of a node's first child.
pub open spec fn rhs_spelling(node: AstNode) -> Seq<char> {
    if node.children@.len() > 0 {
        spelling_or_unknown(node.children@[0])
    } else {
        "Unknown spelling"@
    }
}

/// Appends the warning `w`.
pub open spec fn warn(m: WalkModel, w: Seq<char>) -> WalkModel {
    WalkModel { warnings: m.warnings.push(w), ..m }
}

/// Emits `rhs` repairable into `lhs` through the next synthetic name, and
/// registers the repair's context; nothing once names are exhausted.
pub open spec fn model_emit_repair(m: WalkModel, lhs: Seq<char>, rhs: Seq<char>, loc: Seq<char>, expr: Seq<char>) -> WalkModel {
    if m.fresh < u64::MAX {
        let t = fresh_name(m.fresh as nat);
        WalkModel {
            fresh: m.fresh + 1,
            emitted: m.emitted.push(Emission::Repair(lhs, rhs, t)),
            repairs: m.repairs.push((t, loc, expr)),
            ..m
        }
    } else {
        m
    }
}

/// The annotations of a named node's comment: a frame annotation declares
/// the frame of the qualified name, a known type annotation pins it.
pub open spec fn annotate(m: WalkModel, node: AstNode) -> WalkModel {
    match (node.name, node.comment) {
        (Some(n), Some(text)) => {
            let q = qualified(m.context, n@);
            let m1 = match frame_annotation_match(text@) {
                Some(groups) => match frame_of_groups(groups) {
                    Some((_, i, t)) => WalkModel { declared: m.declared.push((q + "_frame"@, frame_code(i, t))), ..m },
                    None => m,
                },
                None => m,
            };
            match first_known(type_annotation_matches(text@)) {
                Some((_, v)) => WalkModel { emitted: m1.emitted.push(Emission::Pin(q, v)), ..m1 },
                None => m1,
            }
        },
        _ => m,
    }
}

/// Visits the children of `node` from index `i` on, descending into those
/// whose visit asks for it.
pub open spec fn walk_children(m: WalkModel, node: AstNode, i: int) -> WalkModel
    decreases node, 1int, node.children@.len() - i,
{
    if i < 0 || i >= node.children@.len() {
        m
    } else {
        let child = node.children@[i];
        let (m1, r) = walk_node(m, child);
        let m2 = if r == VisitResult::Recurse { walk_children(m1, child, 0) } else { m1 };
        walk_children(m2, node, i + 1)
    }
}

/// Visits the operands of a binary operator from index `i` on; the object
/// current when the second child is reached is the left operand's.
pub open spec fn walk_operands(m: WalkModel, node: AstNode, i: int, lhs: Option<Seq<char>>) -> (WalkModel, Option<Seq<char>>)
    decreases node, 1int, node.children@.len() - i,
{
    if i < 0 || i >= node.children@.len() {
        (m, lhs)
    } else {
        let lhs1 = if i > 0 && lhs.is_none() { m.object_name } else { lhs };
        let child = node.children@[i];
        let (m1, r) = walk_node(m, child);
        let m2 = if r == VisitResult::Recurse { walk_children(m1, child, 0) } else { m1 };
        walk_operands(m2, node, i + 1, lhs1)
    }
}

/// Relates the left operand's object to the current one, by operator.
pub open spec fn relate(m: WalkModel, node: AstNode, lhs: Option<Seq<char>>) -> (WalkModel, VisitResult) {
    if lhs.is_none() || node.operator.is_none() || m.object_name.is_none() {
        (m, VisitResult::Continue)
    } else {
        let l = lhs.unwrap();
        let r = m.object_name.unwrap();
        let op = node.operator.unwrap()@;
        if repairable_operator(op) {
            let loc = if node.children@.len() > 1 { node.children@[1].location@ } else { node.location@ };
            let expr = if node.children@.len() > 1 { spelling_or_unknown(node.children@[1]) } else { "Unknown spelling"@ };
            (WalkModel { object_name: Some(l), ..model_emit_repair(m, l, r, loc, expr) }, VisitResult::Continue)
        } else if op == "*"@ || op == "/"@ {
            if m.fresh < u64::MAX {
                let t = fresh_name(m.fresh as nat);
                (
                    WalkModel {
                        fresh: m.fresh + 1,
                        emitted: m.emitted.push(Emission::Product(t, l, r, op == "/"@)),
                        object_name: Some(t),
                        ..m
                    },
                    VisitResult::Continue,
                )
            } else {
                (m, VisitResult::Continue)
            }
        } else {
            (m, VisitResult::Recurse)
        }
    }
}

/// A definition with an initializer: the initializer's object is made
/// repairable into the defined one, and the assignment is recorded for the
/// frame problem under the synthetic name taken just before the repair's.
pub open spec fn walk_initializer(m: WalkModel, node: AstNode) -> WalkModel
    decreases node, 2int, 0int,
{
    let m1 = walk_children(WalkModel { object_name: None, ..m }, node, 0);
    match m1.object_name {
        None => warn(m1, "Warning: has a RHS with an unknown object name in "@ + node.location@ + "."@),
        Some(rhs) => {
            let lhs = defined_name(m1.context, node);
            let expr = rhs_spelling(node);
            if m1.fresh < u64::MAX {
                let conv = fresh_name(m1.fresh as nat);
                let m2 = WalkModel {
                    fresh: m1.fresh + 1,
                    assignments: m1.assignments.push((lhs + "_frame"@, rhs + "_frame"@, conv, conv + "_repair_const"@)),
                    conversions: m1.conversions.push((conv, node.location@, expr)),
                    ..m1
                };
                model_emit_repair(m2, lhs, rhs, node.location@, expr)
            } else {
                warn(m1, "Warning: no fresh name left at "@ + node.location@)
            }
        },
    }
}

/// A binary operator: its operands are visited, then related.
pub open spec fn walk_binary(m: WalkModel, node: AstNode) -> (WalkModel, VisitResult)
    decreases node, 2int, 0int,
{
    let (m1, lhs) = walk_operands(m, node, 0, None);
    relate(m1, node, lhs)
}

/// One visit of a node, by the dispatch of the walk: annotations first, then
/// scopes, transparent nodes, initializers, references, literals and binary
/// operators; any other node asks for its children to be visited.
pub open spec fn walk_node(m: WalkModel, node: AstNode) -> (WalkModel, VisitResult)
    decreases node, 3int, 0int,
{
    let m1 = annotate(m, node);
    if opens_scope(node) {
        let inner = walk_children(WalkModel { context: m1.context.push(node.mangled_name.unwrap()@), ..m1 }, node, 0);
        (WalkModel { context: m1.context, ..inner }, VisitResult::Continue)
    } else if node.is_unexposed {
        (walk_children(m1, node, 0), VisitResult::Continue)
    } else if initializes(node) {
        (walk_initializer(m1, node), VisitResult::Continue)
    } else if node.kind == NodeKind::DeclRefExpr {
        (WalkModel { object_name: Some(qualified(m1.context, referent_name(node))), ..m1 }, VisitResult::Continue)
    } else if node.kind == NodeKind::FloatingLiteral {
        match node.literal {
            Some(lit) => (
                WalkModel {
                    emitted: m1.emitted.push(Emission::Pin(lit.label@, literal_vector(lit.log_value as int))),
                    object_name: Some(lit.label@),
                    ..m1
                },
                VisitResult::Continue,
            ),
            None => (
                WalkModel { object_name: None, ..warn(m1, "Warning: Could not evaluate node at "@ + node.location@) },
                VisitResult::Continue,
            ),
        }
    } else if node.kind == NodeKind::BinaryOperator {
        walk_binary(m1, node)
    } else {
        (m1, VisitResult::Recurse)
    }
}

/// The scopes joined by `::`.
pub open spec fn joined_scopes(ctx: Seq<Seq<char>>) -> Seq<char>
    decreases ctx.len(),
{
    if ctx.len() <= 1 {
        if ctx.len() == 0 {
            seq![]
        } else {
            ctx[0]
        }
    } else {
        joined_scopes(ctx.drop_last()) + "::"@ + ctx.last()
    }
}

/// A name qualified by the enclosing scopes.
pub open spec fn qualified(ctx: Seq<Seq<char>>, name: Seq<char>) -> Seq<char> {
    if ctx.len() == 0 {
        name
    } else {
        joined_scopes(ctx) + "::"@ + name
    }
}

/// The synthetic name numbered `n`.
pub open spec fn fresh_name(n: nat) -> Seq<char> {
    "T"@ + decimal(n)
}

/// Distinct numbers give distinct synthetic names, so names taken from a
/// counter that only grows are never reused.
pub proof fn lemma_fresh_names_distinct(a: nat, b: nat)
    requires
        a != b,
    ensures
        fresh_name(a) != fresh_name(b),
{
    if fresh_name(a) == fresh_name(b) {
        reveal_strlit("T");
        assert(decimal(a) =~= fresh_name(a).skip(1));
        assert(decimal(b) =~= fresh_name(b).skip(1));
        crate::text::lemma_decimal_injective(a, b);
    }
}

/// `key` is the synthetic name of a number in `lo..hi`.
pub open spec fn fresh_between(key: Seq<char>, lo: nat, hi: nat) -> bool {
    exists|n: nat| lo <= n < hi && #[trigger] fresh_name(n) == key
}

/// The synthetic object an emission introduces, if any, is named by a number
/// in `lo..hi`.
pub open spec fn minted_between(e: Emission, lo: nat, hi: nat) -> bool {
    match e {
        Emission::Pin(_, _) => true,
        Emission::Repair(_, _, t) => fresh_between(t, lo, hi),
        Emission::Product(t, _, _, _) => fresh_between(t, lo, hi),
    }
}

proof fn lemma_fresh_widen(key: Seq<char>, lo: nat, hi: nat, lo2: nat, hi2: nat)
    requires
        fresh_between(key, lo, hi),
        lo2 <= lo,
        hi <= hi2,
    ensures
        fresh_between(key, lo2, hi2),
{
    let n = choose|n: nat| lo <= n < hi && #[trigger] fresh_name(n) == key;
    assert(fresh_name(n) == key);
}

proof fn lemma_minted_widen(e: Emission, lo: nat, hi: nat, lo2: nat, hi2: nat)
    requires
        minted_between(e, lo, hi),
        lo2 <= lo,
        hi <= hi2,
    ensures
        minted_between(e, lo2, hi2),
{
    match e {
        Emission::Pin(_, _) => {},
        Emission::Repair(_, _, t) => lemma_fresh_widen(t, lo, hi, lo2, hi2),
        Emission::Product(t, _, _, _) => lemma_fresh_widen(t, lo, hi, lo2, hi2),
    }
}

/// `b` is `a` after a walk: the scopes are as they were, and constraints,
/// repair contexts and frame facts were only appended to; every repair context
/// added is keyed by a synthetic name numbered from the counter's old value up.
pub open spec fn walk_extends(a: WalkContext, b: WalkContext) -> bool {
    &&& label_views(b.context@) == label_views(a.context@)
    &&& a.constraints@.len() <= b.constraints@.len()
    &&& forall|k: int| 0 <= k < a.constraints@.len() ==> #[trigger] b.constraints@[k] == a.constraints@[k]
    &&& a.fresh_count <= b.fresh_count
    &&& a.tmp_terms_to_repair_contexts@.len() <= b.tmp_terms_to_repair_contexts@.len()
    &&& forall|k: int|
        0 <= k < a.tmp_terms_to_repair_contexts@.len() ==> #[trigger] b.tmp_terms_to_repair_contexts@[k]
            == a.tmp_terms_to_repair_contexts@[k]
    &&& forall|k: int|
        a.tmp_terms_to_repair_contexts@.len() <= k < b.tmp_terms_to_repair_contexts@.len() ==> fresh_between(
            #[trigger] b.tmp_terms_to_repair_contexts@[k].0@,
            a.fresh_count as nat,
            b.fresh_count as nat,
        )
    &&& a.frame_conversion_name_to_repair_context@.len() <= b.frame_conversion_name_to_repair_context@.len()
    &&& forall|k: int|
        0 <= k < a.frame_conversion_name_to_repair_context@.len() ==> #[trigger] b.frame_conversion_name_to_repair_context@[k]
            == a.frame_conversion_name_to_repair_context@[k]
    &&& forall|k: int|
        a.frame_conversion_name_to_repair_context@.len() <= k < b.frame_conversion_name_to_repair_context@.len()
            ==> fresh_between(
            #[trigger] b.frame_conversion_name_to_repair_context@[k].0@,
            a.fresh_count as nat,
            b.fresh_count as nat,
        )
    &&& a.emitted@.len() <= b.emitted@.len()
    &&& forall|k: int| 0 <= k < a.emitted@.len() ==> #[trigger] b.emitted@[k] == a.emitted@[k]
    &&& forall|k: int|
        a.emitted@.len() <= k < b.emitted@.len() ==> minted_between(
            #[trigger] b.emitted@[k],
            a.fresh_count as nat,
            b.fresh_count as nat,
        )
    &&& a.frames.declared@.len() <= b.frames.declared@.len()
    &&& forall|k: int| 0 <= k < a.frames.declared@.len() ==> #[trigger] b.frames.declared@[k] == a.frames.declared@[k]
    &&& a.frames.assignments@.len() <= b.frames.assignments@.len()
    &&& forall|k: int|
        0 <= k < a.frames.assignments@.len() ==> #[trigger] b.frames.assignments@[k] == a.frames.assignments@[k]
}

pub proof fn lemma_walk_extends_trans(a: WalkContext, b: WalkContext, c: WalkContext)
    requires
        walk_extends(a, b),
        walk_extends(b, c),
    ensures
        walk_extends(a, c),
{
    assert forall|k: int|
        a.tmp_terms_to_repair_contexts@.len() <= k < c.tmp_terms_to_repair_contexts@.len() implies fresh_between(
        #[trigger] c.tmp_terms_to_repair_contexts@[k].0@,
        a.fresh_count as nat,
        c.fresh_count as nat,
    ) by {
        let key = c.tmp_terms_to_repair_contexts@[k].0@;
        if k < b.tmp_terms_to_repair_contexts@.len() {
            assert(c.tmp_terms_to_repair_contexts@[k] == b.tmp_terms_to_repair_contexts@[k]);
            let n = choose|n: nat| a.fresh_count <= n < b.fresh_count && fresh_name(n) == key;
            assert(fresh_name(n) == key);
        } else {
            let n = choose|n: nat| b.fresh_count <= n < c.fresh_count && fresh_name(n) == key;
            assert(fresh_name(n) == key);
        }
    }
    assert forall|k: int|
        a.frame_conversion_name_to_repair_context@.len() <= k < c.frame_conversion_name_to_repair_context@.len()
        implies fresh_between(
        #[trigger] c.frame_conversion_name_to_repair_context@[k].0@,
        a.fresh_count as nat,
        c.fresh_count as nat,
    ) by {
        if k < b.frame_conversion_name_to_repair_context@.len() {
            assert(c.frame_conversion_name_to_repair_context@[k] == b.frame_conversion_name_to_repair_context@[k]);
            lemma_fresh_widen(b.frame_conversion_name_to_repair_context@[k].0@, a.fresh_count as nat, b.fresh_count as nat, a.fresh_count as nat, c.fresh_count as nat);
        } else {
            lemma_fresh_widen(c.frame_conversion_name_to_repair_context@[k].0@, b.fresh_count as nat, c.fresh_count as nat, a.fresh_count as nat, c.fresh_count as nat);
        }
    }
    assert forall|k: int| a.emitted@.len() <= k < c.emitted@.len() implies minted_between(
        #[trigger] c.emitted@[k],
        a.fresh_count as nat,
        c.fresh_count as nat,
    ) by {
        if k < b.emitted@.len() {
            assert(c.emitted@[k] == b.emitted@[k]);
            lemma_minted_widen(b.emitted@[k], a.fresh_count as nat, b.fresh_count as nat, a.fresh_count as nat, c.fresh_count as nat);
        } else {
            lemma_minted_widen(c.emitted@[k], b.fresh_count as nat, c.fresh_count as nat, a.fresh_count as nat, c.fresh_count as nat);
        }
    }
    assert forall|k: int| 0 <= k < a.emitted@.len() implies #[trigger] c.emitted@[k] == a.emitted@[k] by {
        assert(b.emitted@[k] == a.emitted@[k]);
    }
    assert forall|k: int| 0 <= k < a.frame_conversion_name_to_repair_context@.len() implies #[trigger] c.frame_conversion_name_to_repair_context@[k]
        == a.frame_conversion_name_to_repair_context@[k] by {
        assert(b.frame_conversion_name_to_repair_context@[k] == a.frame_conversion_name_to_repair_context@[k]);
    }
    assert forall|k: int| 0 <= k < a.constraints@.len() implies #[trigger] c.constraints@[k] == a.constraints@[k] by {
        assert(b.constraints@[k] == a.constraints@[k]);
    }
    assert forall|k: int| 0 <= k < a.tmp_terms_to_repair_contexts@.len() implies #[trigger] c.tmp_terms_to_repair_contexts@[k]
        == a.tmp_terms_to_repair_contexts@[k] by {
        assert(b.tmp_terms_to_repair_contexts@[k] == a.tmp_terms_to_repair_contexts@[k]);
    }
    assert forall|k: int| 0 <= k < a.frames.declared@.len() implies #[trigger] c.frames.declared@[k] == a.frames.declared@[k] by {
        assert(b.frames.declared@[k] == a.frames.declared@[k]);
    }
    assert forall|k: int| 0 <= k < a.frames.assignments@.len() implies #[trigger] c.frames.assignments@[k]
        == a.frames.assignments@[k] by {
        assert(b.frames.assignments@[k] == a.frames.assignments@[k]);
    }
}

/// A definition that opens a named scope.
pub open spec fn opens_scope(node: AstNode) -> bool {
    node.is_definition && node.kind.introduces_context() && node.mangled_name.is_some()
}

/// A definition with an initializer: its only child.
pub open spec fn initializes(node: AstNode) -> bool {
    node.is_definition && node.children.len() == 1
}

/// A node that the walk handles by its kind alone.
pub open spec fn is_leaf_visit(node: AstNode) -> bool {
    !opens_scope(node) && !node.is_unexposed && !initializes(node)
}

/// The name under which a reference refers to its object.
pub open spec fn referent_name(node: AstNode) -> Seq<char> {
    match node.name {
        Some(n) => n@,
        None => "Unknown object"@,
    }
}

/// The label of the object a definition defines.
pub open spec fn defined_name(ctx: Seq<Seq<char>>, node: AstNode) -> Seq<char> {
    match node.name {
        Some(n) => qualified(ctx, n@),
        None => "Unknown object in "@ + node.location@,
    }
}

/// What visiting a definition with an initializer leaves last in `w`: when
/// the initializer resolved to an object and synthetic names were left, the
/// constraint that this object can be repaired into the defined one with the
/// newest synthetic repair object, that repair's context, and the frame
/// assignment under the name taken just before it.
pub open spec fn records_initializer(ctx: Seq<Seq<char>>, node: AstNode, w: WalkContext) -> bool {
    w.object_name.is_some() && w.fresh_count < u64::MAX ==> {
        let lhs = defined_name(ctx, node);
        let rhs = w.object_name.unwrap()@;
        let repair = fresh_name((w.fresh_count - 1) as nat);
        &&& w.fresh_count >= 2
        &&& w.constraints@.len() > 0
        &&& repairable(*w.constraints@.last(), lhs, rhs, repair)
        &&& w.tmp_terms_to_repair_contexts@.len() > 0
        &&& w.tmp_terms_to_repair_contexts@.last().0@ == repair
        &&& w.tmp_terms_to_repair_contexts@.last().1.source_location@ == node.location@
        &&& w.frames.assignments@.len() > 0
        &&& w.frames.assignments@.last().lhs_var@ == lhs + "_frame"@
        &&& w.frames.assignments@.last().rhs_var@ == rhs + "_frame"@
        &&& w.frames.assignments@.last().conversion@ == fresh_name((w.fresh_count - 2) as nat)
    }
}

/// Whether a node is a definition with an initializer.
pub fn has_initialization(node: &AstNode) -> (r: bool)
    ensures
        r == initializes(*node),
{
    node.is_definition && node.children.len() == 1
}

/// The initializer of a definition, if it has one.
pub fn get_initialization(node: &AstNode) -> (r: Option<&AstNode>)
    ensures
        r.is_some() == initializes(*node),
        r.is_some() ==> *r.unwrap() == node.children@[0],
{
    if has_initialization(node) {
        Some(&node.children[0])
    } else {
        None
    }
}

/// The right-hand side of a definition: its first child.
pub fn get_rhs(node: &AstNode) -> (r: Option<&AstNode>)
    ensures
        r.is_some() == (node.children.len() > 0),
        r.is_some() ==> *r.unwrap() == node.children@[0],
{
    if node.children.len() > 0 {
        Some(&node.children[0])
    } else {
        None
    }
}

/// A shared object with the given label.
fn object(label: &str) -> (r: Rc<Object>)
    ensures
        r.label@ == label@,
{
    Rc::new(Object::new(label))
}

fn unknown_or(text: &Option<String>) -> (r: String)
    ensures
        text.is_some() ==> r@ == text.unwrap()@,
        text.is_none() ==> r@ == "Unknown spelling"@,
{
    match text {
        Some(t) => t.clone(),
        None => "Unknown spelling".to_owned(),
    }
}

impl WalkContext {
    pub fn new() -> (r: WalkContext)
        ensures
            r.context@.len() == 0,
            r.constraints@.len() == 0,
            r.object_name.is_none(),
            r.fresh_count == 0,
            r.tmp_terms_to_repair_contexts@.len() == 0,
            r.frames.declared@.len() == 0,
            r.frames.assignments@.len() == 0,
            r.frame_conversion_name_to_repair_context@.len() == 0,
            r.warnings@.len() == 0,
            r.emitted@ == Seq::<Emission>::empty(),
            walk_wf(r),
    {
        WalkContext {
            context: Vec::new(),
            constraints: Vec::new(),
            object_name: None,
            fresh_count: 0,
            tmp_terms_to_repair_contexts: Vec::new(),
            frames: FrameSystem::new(),
            frame_conversion_name_to_repair_context: Vec::new(),
            warnings: Vec::new(),
            emitted: Ghost(Seq::empty()),
        }
    }

    /// The name qualified by the current scopes, joined by `::`.
    pub fn qualify_name(&self, name: &str) -> (r: String)
        ensures
            r@ == qualified(label_views(self.context@), name@),
    {
        let ghost ctx = label_views(self.context@);
        if self.context.len() == 0 {
            return name.to_owned();
        }
        let mut acc = self.context[0].clone();
        let mut i: usize = 1;
        assert(ctx.take(1).drop_last() =~= Seq::<Seq<char>>::empty());
        while i < self.context.len()
            invariant
                1 <= i <= self.context.len(),
                ctx == label_views(self.context@),
                acc@ == joined_scopes(ctx.take(i as int)),
            decreases self.context.len() - i,
        {
            acc = acc.concat("::").concat(self.context[i].as_str());
            assert(ctx.take(i + 1).drop_last() =~= ctx.take(i as int));
            i = i + 1;
        }
        assert(ctx.take(self.context.len() as int) =~= ctx);
        acc.concat("::").concat(name)
    }

    /// The next synthetic name, `T<n>`; `None` once the counter is exhausted.
    pub fn fresh_variable(&mut self) -> (r: Option<String>)
        ensures
            r.is_some() == (old(self).fresh_count < u64::MAX),
            r.is_some() ==> r.unwrap()@ == fresh_name(old(self).fresh_count as nat) && final(self).fresh_count
                == old(self).fresh_count + 1,
            r.is_none() ==> final(self).fresh_count == old(self).fresh_count,
            final(self).context == old(self).context,
            final(self).constraints == old(self).constraints,
            final(self).object_name == old(self).object_name,
            final(self).tmp_terms_to_repair_contexts == old(self).tmp_terms_to_repair_contexts,
            final(self).frames == old(self).frames,
            final(self).frame_conversion_name_to_repair_context == old(self).frame_conversion_name_to_repair_context,
            final(self).warnings == old(self).warnings,
            final(self).emitted == old(self).emitted,
    {
        if self.fresh_count == u64::MAX {
            return None;
        }
        let varname = joined("T", decimal_string(self.fresh_count).as_str());
        self.fresh_count = self.fresh_count + 1;
        Some(varname)
    }

    /// Emits `assert_repairable(lhs, rhs, T)` for a fresh repair object `T`
    /// and registers where the repair belongs; `false` when no fresh name is
    /// left, and then nothing is emitted.
    pub fn emit_repairable(&mut self, lhs: &str, rhs: &str, source_location: String, original_expression: String) -> (r: bool)
        requires
            walk_wf(*old(self)),
        ensures
            walk_wf(*final(self)),
            model_of(*final(self)) == model_emit_repair(
                model_of(*old(self)),
                lhs@,
                rhs@,
                source_location@,
                original_expression@,
            ),
            r == (old(self).fresh_count < u64::MAX),
            walk_extends(*old(self), *final(self)),
            final(self).object_name == old(self).object_name,
            final(self).frames == old(self).frames,
            r ==> final(self).fresh_count == old(self).fresh_count + 1,
            r ==> final(self).constraints@.len() == old(self).constraints@.len() + 1 && repairable(
                *final(self).constraints@.last(),
                lhs@,
                rhs@,
                fresh_name(old(self).fresh_count as nat),
            ) && final(self).tmp_terms_to_repair_contexts@.len() == old(self).tmp_terms_to_repair_contexts@.len() + 1
                && final(self).tmp_terms_to_repair_contexts@.last().0@ == fresh_name(old(self).fresh_count as nat)
                && final(self).tmp_terms_to_repair_contexts@.last().1.source_location@ == source_location@
                && final(self).tmp_terms_to_repair_contexts@.last().1.original_expression@ == original_expression@,
            !r ==> final(self).constraints == old(self).constraints,
    {
        let repair_term = match self.fresh_variable() {
            Some(t) => t,
            None => {
                return false;
            },
        };
        let key = repair_term.clone();
        let ghost entry = (repair_term@, source_location@, original_expression@);
        self.tmp_terms_to_repair_contexts.push((key, RepairContext { source_location, original_expression }));
        let constraint = assert_repairable(object(lhs), object(rhs), object(repair_term.as_str()));
        self.constraints.push(constraint);
        self.emitted = Ghost(self.emitted@.push(Emission::Repair(lhs@, rhs@, repair_term@)));
        let ghost n = old(self).fresh_count as nat;
        proof {
            lemma_mint_emission(*old(self), *self, Emission::Repair(lhs@, rhs@, repair_term@));
            assert(self.tmp_terms_to_repair_contexts@[old(self).tmp_terms_to_repair_contexts@.len() as int].0@ == fresh_name(n));
            assert(fresh_between(fresh_name(n), n, n + 1));
            assert(context_views(self.tmp_terms_to_repair_contexts@) =~= context_views(old(self).tmp_terms_to_repair_contexts@).push(entry));
            assert(emission_holds(*self.constraints@.last(), self.emitted@.last()));
            let v = self.tmp_terms_to_repair_contexts@;
            let ov = old(self).tmp_terms_to_repair_contexts@;
            assert forall|k: int| 0 <= k < self.emitted@.len() && #[trigger] self.emitted@[k] is Repair implies has_repair_context(
                v,
                self.emitted@[k]->Repair_2,
            ) by {
                if k < old(self).emitted@.len() {
                    assert(self.emitted@[k] == old(self).emitted@[k]);
                    let j = choose|j: int| 0 <= j < ov.len() && #[trigger] ov[j].0@ == old(self).emitted@[k]->Repair_2;
                    assert(v[j] == ov[j]);
                } else {
                    assert(v[ov.len() as int].0@ == repair_term@);
                }
            }
        }
        true
    }

    /// Emits the product (or, with `divide`, the quotient) type of `lhs` and
    /// `rhs` as a fresh object, and returns its name; `None` when no fresh
    /// name is left, and then nothing is emitted.
    pub fn emit_product(&mut self, lhs: &str, rhs: &str, divide: bool) -> (r: Option<String>)
        requires
            walk_wf(*old(self)),
        ensures
            walk_wf(*final(self)),
            r.is_some() ==> model_of(*final(self)) == (WalkModel {
                fresh: old(self).fresh_count + 1,
                emitted: old(self).emitted@.push(Emission::Product(r.unwrap()@, lhs@, rhs@, divide)),
                ..model_of(*old(self))
            }),
            r.is_none() ==> *final(self) == *old(self),
            r.is_some() == (old(self).fresh_count < u64::MAX),
            walk_extends(*old(self), *final(self)),
            final(self).object_name == old(self).object_name,
            final(self).tmp_terms_to_repair_contexts == old(self).tmp_terms_to_repair_contexts,
            r.is_some() ==> r.unwrap()@ == fresh_name(old(self).fresh_count as nat) && final(self).constraints@.len()
                == old(self).constraints@.len() + 1 && if divide {
                divides(*final(self).constraints@.last(), r.unwrap()@, lhs@, rhs@)
            } else {
                multiplies(*final(self).constraints@.last(), r.unwrap()@, lhs@, rhs@)
            },
            r.is_none() ==> final(self).constraints == old(self).constraints,
    {
        let type_term = match self.fresh_variable() {
            Some(t) => t,
            None => {
                return None;
            },
        };
        let constraint = if divide {
            create_division_type(object(type_term.as_str()), object(lhs), object(rhs))
        } else {
            create_multiplicative_type(object(type_term.as_str()), object(lhs), object(rhs))
        };
        self.constraints.push(constraint);
        self.emitted = Ghost(self.emitted@.push(Emission::Product(type_term@, lhs@, rhs@, divide)));
        proof {
            lemma_mint_emission(*old(self), *self, Emission::Product(type_term@, lhs@, rhs@, divide));
        }
        assert(emission_holds(*self.constraints@.last(), self.emitted@.last()));
        Some(type_term)
    }

    /// Records the frame and type annotations of a named node's comment.
    fn record_annotations(&mut self, node: &AstNode)
        requires
            walk_wf(*old(self)),
        ensures
            walk_wf(*final(self)),
            model_of(*final(self)) == annotate(model_of(*old(self)), *node),
            walk_extends(*old(self), *final(self)),
            final(self).object_name == old(self).object_name,
    {
        if let Some(name) = &node.name {
            let qname = self.qualify_name(name.as_str());
            if let Some(text) = &node.comment {
                let ghost m0 = model_of(*self);
                if let Some((_, iframe, tframe)) = parse_human_frame(text.as_str()) {
                    let _ = frame_assert(qname.as_str(), (iframe, tframe), &mut self.frames);
                    assert(model_of(*self).declared =~= m0.declared.push((qname@ + "_frame"@, frame_code(iframe, tframe))));
                }
                let ghost m1 = model_of(*self);
                if let Some((_, type_info)) = parse_type_comment(text.as_str()) {
                    let constraint = type_to_constraint(&type_info, object(qname.as_str()));
                    self.constraints.push(constraint);
                    self.emitted = Ghost(self.emitted@.push(Emission::Pin(qname@, type_vector(type_info))));
                    assert(emission_holds(*self.constraints@.last(), self.emitted@.last()));
                }
            }
        }
    }

    /// Visits every child of a node, and the children of each child whose
    /// visit asks for it.
    pub fn visit_children(&mut self, node: &AstNode)
        requires
            walk_wf(*old(self)),
        ensures
            walk_wf(*final(self)),
            model_of(*final(self)) == walk_children(model_of(*old(self)), *node, 0),
            walk_extends(*old(self), *final(self)),
        decreases node, 0nat,
    {
        let mut i: usize = 0;
        while i < node.children.len()
            invariant
                i <= node.children.len(),
                walk_wf(*self),
                walk_children(model_of(*self), *node, i as int) == walk_children(model_of(*old(self)), *node, 0),
                walk_extends(*old(self), *self),
            decreases node.children.len() - i,
        {
            let ghost before = *self;
            let child = &node.children[i];
            assert(*child == node.children@[i as int]);
            if self.analyze_entity(child) == VisitResult::Recurse {
                let ghost mid = *self;
                self.visit_children(child);
                proof {
                    lemma_walk_extends_trans(before, mid, *self);
                }
            }
            proof {
                lemma_walk_extends_trans(*old(self), before, *self);
            }
            i = i + 1;
        }
    }

    /// A definition with an initializer: the initializer's object must be
    /// repairable into the defined one, and the assignment is recorded for
    /// the frame problem.
    fn analyze_initializer(&mut self, node: &AstNode) -> (r: VisitResult)
        requires
            node.children.len() == 1,
            walk_wf(*old(self)),
        ensures
            walk_wf(*final(self)),
            model_of(*final(self)) == walk_initializer(model_of(*old(self)), *node),
            walk_extends(*old(self), *final(self)),
            r == VisitResult::Continue,
            records_initializer(label_views(old(self).context@), *node, *final(self)),
        decreases node, 1nat,
    {
        self.object_name = None;
        let ghost reset = *self;
        assert(model_of(reset) == WalkModel { object_name: None, ..model_of(*old(self)) });
        self.visit_children(node);
        proof {
            lemma_walk_extends_trans(*old(self), reset, *self);
        }
        let ghost m1 = model_of(*self);
        let rhs = match &self.object_name {
            Some(n) => n.clone(),
            None => {
                let w = joined(joined("Warning: has a RHS with an unknown object name in ", node.location.as_str()).as_str(), ".");
                self.warnings.push(w);
                assert(model_of(*self).warnings =~= m1.warnings.push(
                    "Warning: has a RHS with an unknown object name in "@ + node.location@ + "."@,
                ));
                return VisitResult::Continue;
            },
        };
        let lhs = match &node.name {
            Some(n) => self.qualify_name(n.as_str()),
            None => joined("Unknown object in ", node.location.as_str()),
        };
        let ghost conversion = fresh_name(self.fresh_count as nat);
        let expression = match get_rhs(node) {
            Some(rhs_node) => unknown_or(&rhs_node.spelling),
            None => "Unknown spelling".to_owned(),
        };
        let ghost s1 = *self;
        let conversion = match self.fresh_variable() {
            Some(c) => c,
            None => {
                self.warnings.push(joined("Warning: no fresh name left at ", node.location.as_str()));
                assert(model_of(*self).warnings =~= m1.warnings.push("Warning: no fresh name left at "@ + node.location@));
                return VisitResult::Continue;
            },
        };
        let _ = on_frame_assignment(lhs.as_str(), rhs.as_str(), &mut self.frames, conversion.clone());
        let entry = (conversion, RepairContext { source_location: node.location.clone(), original_expression: expression.clone() });
        let ghost entry_view = entry;
        self.frame_conversion_name_to_repair_context.push(entry);
        proof {
            lemma_mint_conversion(s1, *self, entry_view);
        }
        let ghost s2 = *self;
        assert(walk_extends(s1, s2));
        assert(expression@ == rhs_spelling(*node));
        assert(model_of(s2).assignments =~= m1.assignments.push(
            (lhs@ + "_frame"@, rhs@ + "_frame"@, conversion@, conversion@ + "_repair_const"@),
        ));
        assert(model_of(s2).conversions =~= m1.conversions.push((conversion@, node.location@, expression@)));
        assert(lhs@ == defined_name(label_views(old(self).context@), *node));
        let emitted = self.emit_repairable(lhs.as_str(), rhs.as_str(), node.location.clone(), expression);
        assert(self.object_name.unwrap()@ == rhs@);
        assert(emitted ==> self.fresh_count == s1.fresh_count + 2);
        proof {
            lemma_walk_extends_trans(s1, s2, *self);
            lemma_walk_extends_trans(*old(self), s1, *self);
        }
        VisitResult::Continue
    }

    /// A binary operator: relates the object of its first operand to the
    /// object of the rest.
    fn analyze_binary_operator(&mut self, node: &AstNode) -> (r: VisitResult)
        requires
            walk_wf(*old(self)),
        ensures
            walk_wf(*final(self)),
            (model_of(*final(self)), r) == walk_binary(model_of(*old(self)), *node),
            walk_extends(*old(self), *final(self)),
        decreases node, 1nat,
    {
        let mut lhs_object: Option<String> = None;
        let mut i: usize = 0;
        while i < node.children.len()
            invariant
                i <= node.children.len(),
                walk_wf(*self),
                walk_operands(model_of(*self), *node, i as int, option_view(lhs_object)) == walk_operands(
                    model_of(*old(self)),
                    *node,
                    0,
                    None,
                ),
                walk_extends(*old(self), *self),
            decreases node.children.len() - i,
        {
            if i > 0 && lhs_object.is_none() {
                lhs_object = self.object_name.clone();
            }
            let ghost before = *self;
            let child = &node.children[i];
            assert(*child == node.children@[i as int]);
            if self.analyze_entity(child) == VisitResult::Recurse {
                let ghost mid = *self;
                self.visit_children(child);
                proof {
                    lemma_walk_extends_trans(before, mid, *self);
                }
            }
            proof {
                lemma_walk_extends_trans(*old(self), before, *self);
            }
            i = i + 1;
        }
        let ghost walked = *self;
        let r = self.relate_operands(node, lhs_object);
        proof {
            lemma_walk_extends_trans(*old(self), walked, *self);
        }
        r
    }

    /// Relates the object `lhs_object` of the first operand of a binary
    /// operator to the current object, the one of the rest: an assignment,
    /// sum, difference or comparison makes the latter repairable into the
    /// former, which becomes current; a product or quotient becomes a fresh
    /// current object. Any other operator asks for the operands to be visited.
    pub fn relate_operands(&mut self, node: &AstNode, lhs_object: Option<String>) -> (r: VisitResult)
        requires
            walk_wf(*old(self)),
        ensures
            walk_wf(*final(self)),
            (model_of(*final(self)), r) == relate(model_of(*old(self)), *node, option_view(lhs_object)),
            walk_extends(*old(self), *final(self)),
            lhs_object.is_none() || node.operator.is_none() || old(self).object_name.is_none() ==> r
                == VisitResult::Continue && *final(self) == *old(self),
            ({
                let lhs = lhs_object.unwrap()@;
                let rhs = old(self).object_name.unwrap()@;
                let op = node.operator.unwrap()@;
                let name = fresh_name(old(self).fresh_count as nat);
                let fresh = old(self).fresh_count < u64::MAX;
                lhs_object.is_some() && node.operator.is_some() && old(self).object_name.is_some() ==> {
                    &&& repairable_operator(op) ==> r == VisitResult::Continue && final(self).object_name.is_some()
                        && final(self).object_name.unwrap()@ == lhs && (fresh ==> repairable(
                        *final(self).constraints@.last(),
                        lhs,
                        rhs,
                        name,
                    ) && final(self).tmp_terms_to_repair_contexts@.last().0@ == name)
                    &&& (op == "*"@ || op == "/"@) ==> r == VisitResult::Continue && (fresh ==> final(self).object_name.is_some() && final(self).object_name.unwrap()@ == name && if op == "/"@ {
                        divides(*final(self).constraints@.last(), name, lhs, rhs)
                    } else {
                        multiplies(*final(self).constraints@.last(), name, lhs, rhs)
                    }) && (!fresh ==> final(self).object_name == old(self).object_name)
                    &&& !repairable_operator(op) && op != "*"@ && op != "/"@ ==> r == VisitResult::Recurse
                        && *final(self) == *old(self)
                }
            }),
    {
        proof {
            lemma_arithmetic_operators_not_repairable();
        }
        let lhs = match lhs_object {
            Some(l) => l,
            None => {
                return VisitResult::Continue;
            },
        };
        let operator = match &node.operator {
            Some(o) => o.as_str(),
            None => {
                return VisitResult::Continue;
            },
        };
        let rhs = match &self.object_name {
            Some(r) => r.clone(),
            None => {
                return VisitResult::Continue;
            },
        };
        if is_repairable_operator(operator) {
            let (location, expression) = if node.children.len() > 1 {
                (node.children[1].location.clone(), unknown_or(&node.children[1].spelling))
            } else {
                (node.location.clone(), "Unknown spelling".to_owned())
            };
            let _ = self.emit_repairable(lhs.as_str(), rhs.as_str(), location, expression);
            self.object_name = Some(lhs);
            VisitResult::Continue
        } else if str_equals(operator, "*") || str_equals(operator, "/") {
            let divide = str_equals(operator, "/");
            if let Some(t) = self.emit_product(lhs.as_str(), rhs.as_str(), divide) {
                self.object_name = Some(t);
            }
            VisitResult::Continue
        } else {
            VisitResult::Recurse
        }
    }

    /// Visits one node: records its annotations, then handles it by kind.
    pub fn analyze_entity(&mut self, node: &AstNode) -> (r: VisitResult)
        requires
            walk_wf(*old(self)),
        ensures
            walk_wf(*final(self)),
            (model_of(*final(self)), r) == walk_node(model_of(*old(self)), *node),
            walk_extends(*old(self), *final(self)),
            opens_scope(*node) || node.is_unexposed || initializes(*node) ==> r == VisitResult::Continue,
            !opens_scope(*node) && !node.is_unexposed && initializes(*node) ==> records_initializer(
                label_views(old(self).context@),
                *node,
                *final(self),
            ),
            is_leaf_visit(*node) && node.kind == NodeKind::DeclRefExpr ==> r == VisitResult::Continue
                && final(self).object_name.is_some() && final(self).object_name.unwrap()@ == qualified(
                label_views(old(self).context@),
                referent_name(*node),
            ),
            is_leaf_visit(*node) && node.kind == NodeKind::FloatingLiteral ==> r == VisitResult::Continue && (
            match node.literal {
                Some(lit) => final(self).object_name.is_some() && final(self).object_name.unwrap()@ == lit.label@
                    && final(self).constraints@.len() > 0 && pins_vector(
                    *final(self).constraints@.last(),
                    literal_vector(lit.log_value as int),
                    lit.label@,
                ),
                None => final(self).object_name.is_none(),
            }),
            is_leaf_visit(*node) && node.kind != NodeKind::DeclRefExpr && node.kind != NodeKind::FloatingLiteral
                && node.kind != NodeKind::BinaryOperator ==> r == VisitResult::Recurse && final(self).object_name
                == old(self).object_name,
        decreases node, 2nat,
    {
        self.record_annotations(node);
        let ghost s1 = *self;
        let ghost m1 = model_of(s1);
        let introduces = node.kind.is_context_introducer();
        if node.is_definition && introduces && node.mangled_name.is_some() {
            let name = match &node.mangled_name {
                Some(m) => m.clone(),
                None => {
                    return VisitResult::Continue;
                },
            };
            let ghost nv = name@;
            self.context.push(name);
            let ghost pushed = *self;
            assert(label_views(pushed.context@) =~= label_views(s1.context@).push(nv));
            assert(model_of(pushed) == WalkModel { context: m1.context.push(node.mangled_name.unwrap()@), ..m1 });
            self.visit_children(node);
            let ghost visited = *self;
            let _ = self.context.pop();
            proof {
                assert(self.context@ == visited.context@.drop_last());
                assert(label_views(self.context@) =~= label_views(visited.context@).drop_last());
                assert(label_views(self.context@) =~= label_views(s1.context@));
                assert(model_of(*self) == WalkModel { context: m1.context, ..model_of(visited) });
                assert(walk_extends(s1, *self));
                lemma_walk_extends_trans(*old(self), s1, *self);
            }
            return VisitResult::Continue;
        } else if node.is_unexposed {
            self.visit_children(node);
            proof {
                lemma_walk_extends_trans(*old(self), s1, *self);
            }
            return VisitResult::Continue;
        }
        let r = if has_initialization(node) {
            self.analyze_initializer(node)
        } else if node.kind == NodeKind::DeclRefExpr {
            let name = match &node.name {
                Some(n) => n.clone(),
                None => "Unknown object".to_owned(),
            };
            self.object_name = Some(self.qualify_name(name.as_str()));
            VisitResult::Continue
        } else if node.kind == NodeKind::FloatingLiteral {
            match &node.literal {
                Some(lit) => {
                    self.constraints.push(assert_literal(lit.log_value, lit.label.as_str()));
                    self.emitted = Ghost(
                        self.emitted@.push(Emission::Pin(lit.label@, literal_vector(lit.log_value as int))),
                    );
                    assert(emission_holds(*self.constraints@.last(), self.emitted@.last()));
                    self.object_name = Some(lit.label.clone());
                },
                None => {
                    self.warnings.push(joined("Warning: Could not evaluate node at ", node.location.as_str()));
                    self.object_name = None;
                    assert(model_of(*self).warnings =~= m1.warnings.push(
                        "Warning: Could not evaluate node at "@ + node.location@,
                    ));
                },
            }
            VisitResult::Continue
        } else if node.kind == NodeKind::BinaryOperator {
            self.analyze_binary_operator(node)
        } else {
            VisitResult::Recurse
        };
        proof {
            lemma_walk_extends_trans(*old(self), s1, *self);
        }
        r
    }
}

/// The operators whose operands must agree up to a scalar repair.
pub open spec fn repairable_operator(op: Seq<char>) -> bool {
    op == "="@ || op == "+"@ || op == "-"@ || op == "<"@ || op == "<="@ || op == ">"@ || op == ">="@
}

proof fn lemma_arithmetic_operators_not_repairable()
    ensures
        !repairable_operator("*"@),
        !repairable_operator("/"@),
        "*"@ != "/"@,
{
    reveal_strlit("*");
    reveal_strlit("/");
    reveal_strlit("=");
    reveal_strlit("+");
    reveal_strlit("-");
    reveal_strlit("<");
    reveal_strlit("<=");
    reveal_strlit(">");
    reveal_strlit(">=");
    assert("*"@[0] == '*' && "/"@[0] == '/' && "="@[0] == '=' && "+"@[0] == '+' && "-"@[0] == '-');
    assert("<"@[0] == '<' && ">"@[0] == '>' && "*"@.len() == 1 && "/"@.len() == 1);
    assert("<="@.len() == 2 && ">="@.len() == 2);
}

/// Whether the operands of `op` must agree up to a scalar repair.
pub fn is_repairable_operator(op: &str) -> (r: bool)
    ensures
        r == repairable_operator(op@),
{
    str_equals(op, "=") || str_equals(op, "+") || str_equals(op, "-") || str_equals(op, "<") || str_equals(op, "<=")
        || str_equals(op, ">") || str_equals(op, ">=")
}

/// The spelling of a binary operator: among the tokens of the whole
/// expression, the one that follows the `left_tokens` tokens of its left
/// operand; `None` when that count is unknown or no such token exists.
pub fn get_binary_operator(left_tokens: Option<usize>, tokens: &Vec<String>) -> (r: Option<String>)
    ensures
        r.is_some() == (left_tokens.is_some() && left_tokens.unwrap() < tokens.len()),
        r.is_some() ==> r.unwrap()@ == tokens@[left_tokens.unwrap() as int]@,
{
    match left_tokens {
        Some(offset) => {
            if offset < tokens.len() {
                Some(tokens[offset].clone())
            } else {
                None
            }
        },
        None => None,
    }
}

/// Walks the children of a translation unit's root node.
pub fn extract_types(root: &AstNode) -> (r: WalkContext)
    ensures
        walk_wf(r),
        model_of(r) == walk_children(empty_model(), *root, 0),
        r.context@.len() == 0,
        forall|k: int|
            0 <= k < r.tmp_terms_to_repair_contexts@.len() ==> fresh_between(
                #[trigger] r.tmp_terms_to_repair_contexts@[k].0@,
                0,
                r.fresh_count as nat,
            ),
{
    let mut w = WalkContext::new();
    let ghost w0 = w;
    assert(model_of(w0).context =~= empty_model().context);
    assert(model_of(w0).emitted =~= empty_model().emitted);
    assert(model_of(w0).repairs =~= empty_model().repairs);
    assert(model_of(w0).declared =~= empty_model().declared);
    assert(model_of(w0).assignments =~= empty_model().assignments);
    assert(model_of(w0).conversions =~= empty_model().conversions);
    assert(model_of(w0).warnings =~= empty_model().warnings);
    w.visit_children(root);
    assert(walk_extends(w0, w));
    assert(label_views(w.context@).len() == w.context@.len());
    w
}

} // verus!

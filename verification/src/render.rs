//! Rendering a plan as a document: the default Markdown, or a MiniJinja
//! template over the read-only `plan` object.
//!
//! A template sees `plan.root_target` (the qualified name of the requested
//! target) and `plan.stages`; each stage has `index` (from one) and
//! `targets`; each target has `id`, `name`, `dependencies` (qualified
//! names), `description` and `specifications`. Undefined values are errors,
//! and a template cannot load other templates. The library writes this
//! object as JSON text, which the engine reads.

use vstd::prelude::*;
use minijinja::{Environment, UndefinedBehavior, Value};
use crate::compiler::{CompilationPlan, DefaultMarkdownRenderer, PlanView, PlannedTarget, PlannedView, StageView};
use crate::model::{id_text, IdView};
use crate::text::{decimal, digit_char, join, owned, push_decimal, push_str};

verus! {

/// The view of a rendering error: the line and the byte where it starts,
/// where the engine knows them, its kind and its detail.
pub type RenderErrorView = (Option<usize>, Option<usize>, Seq<char>, Option<Seq<char>>);

/// Why a template could not be rendered: the line and the byte where the
/// problem starts, where the engine knows them, the kind of problem and its
/// detail.
pub type RenderError = (Option<usize>, Option<usize>, String, Option<String>);

/// The hexadecimal digit `d`.
pub open spec fn hex_char(d: nat) -> char {
    if d < 10 {
        digit_char(d)
    } else if d == 10 {
        'a'
    } else if d == 11 {
        'b'
    } else if d == 12 {
        'c'
    } else if d == 13 {
        'd'
    } else if d == 14 {
        'e'
    } else {
        'f'
    }
}

/// A character inside a JSON string: quotes and backslashes escaped, control
/// characters as `\u00XX`.
pub open spec fn json_char(c: char) -> Seq<char> {
    if c == '"' {
        "\\\""@
    } else if c == '\\' {
        "\\\\"@
    } else if (c as u32) < 0x20 {
        "\\u00"@ + seq![hex_char((c as u32 / 16) as nat), hex_char((c as u32 % 16) as nat)]
    } else {
        seq![c]
    }
}

/// The characters of `s` inside a JSON string.
pub open spec fn json_chars(s: Seq<char>) -> Seq<char>
    decreases s.len(),
{
    if s.len() == 0 {
        seq![]
    } else {
        json_chars(s.drop_last()) + json_char(s.last())
    }
}

/// `s` as a JSON string.
pub open spec fn json_string(s: Seq<char>) -> Seq<char> {
    "\""@ + json_chars(s) + "\""@
}

/// A JSON array of the JSON values `items`.
pub open spec fn json_array(items: Seq<Seq<char>>) -> Seq<char> {
    "["@ + join(items, ","@) + "]"@
}

/// A JSON array of the strings `ss`.
pub open spec fn json_strings(ss: Seq<Seq<char>>) -> Seq<char> {
    json_array(ss.map_values(|s: Seq<char>| json_string(s)))
}

/// What a template sees of a planned target: its qualified name `id`, its
/// `name`, the qualified names of its `dependencies`, its `description` and
/// its `specifications`.
#[verifier::opaque]
pub open spec fn target_json(t: PlannedView) -> Seq<char> {
    "{\"id\":"@ + json_string(id_text(t.id)) + ",\"name\":"@ + json_string(t.id.1) + ",\"dependencies\":"@
        + json_strings(t.dependencies.map_values(|d: IdView| id_text(d))) + ",\"description\":"@ + json_string(t.description)
        + ",\"specifications\":"@ + json_strings(t.specifications) + "}"@
}

/// What a template sees of a stage: its `index` and its `targets`.
pub open spec fn stage_json(s: StageView) -> Seq<char> {
    "{\"index\":"@ + decimal(s.index) + ",\"targets\":"@ + json_array(s.targets.map_values(|t: PlannedView| target_json(t))) + "}"@
}

/// The context a template is rendered in: the `plan` object, with the
/// qualified name of the requested target as `root_target` and the
/// `stages`.
pub open spec fn plan_json(plan: PlanView) -> Seq<char> {
    "{\"plan\":{\"root_target\":"@ + json_string(id_text(plan.root_target)) + ",\"stages\":"@
        + json_array(plan.stages.map_values(|s: StageView| stage_json(s))) + "}}"@
}

/// The instructions a template may run before its rendering fails.
pub const TEMPLATE_FUEL: u64 = 1_000_000;

/// The result of rendering the template `source` in the context that the
/// JSON text `context` describes, with `fuel` instructions to run.
pub uninterp spec fn template_render(source: Seq<char>, context: Seq<char>, fuel: u64) -> Result<Seq<char>, RenderErrorView>;

/// Reads the JSON text `context` with `serde_json::from_str` and renders
/// the template `source` in it with MiniJinja (`template_from_str`, then
/// `render`), undefined values being errors, no other template being
/// loadable, and at most `fuel` instructions run (`set_fuel`). The contract
/// only names the result, a function of the three arguments.
#[verifier::external_body]
fn render_with_template(source: &str, context: &str, fuel: u64) -> (r: Result<String, RenderError>)
    ensures
        match r {
            Ok(s) => template_render(source@, context@, fuel) == Ok::<Seq<char>, RenderErrorView>(s@),
            Err(e) => template_render(source@, context@, fuel) == Err::<Seq<char>, RenderErrorView>((e.0, e.1, e.2@, match e.3 {
                Some(d) => Some(d@),
                None => None,
            })),
        },
{
    let mut environment = Environment::new();
    environment.set_undefined_behavior(UndefinedBehavior::Strict);
    environment.set_fuel(Some(fuel));
    let context: serde_json::Value = serde_json::from_str(context).map_err(|e| (None, None, e.to_string(), None))?;
    let rendered = environment.template_from_str(source).and_then(|t| t.render(Value::from_serialize(&context)));
    rendered.map_err(|e| (e.line(), e.range().map(|r| r.start), e.kind().to_string(), e.detail().map(String::from)))
}

/// The hexadecimal digit `d`.
fn hex(d: u32) -> (r: char)
    requires
        d < 16,
    ensures
        r == hex_char(d as nat),
{
    if d == 0 { '0' } else if d == 1 { '1' } else if d == 2 { '2' } else if d == 3 { '3' }
    else if d == 4 { '4' } else if d == 5 { '5' } else if d == 6 { '6' } else if d == 7 { '7' }
    else if d == 8 { '8' } else if d == 9 { '9' } else if d == 10 { 'a' } else if d == 11 { 'b' }
    else if d == 12 { 'c' } else if d == 13 { 'd' } else if d == 14 { 'e' } else { 'f' }
}

/// Appends `s` as a JSON string.
fn push_json_string(out: &mut String, s: &str)
    ensures
        final(out)@ == old(out)@ + json_string(s@),
{
    let ghost o = out@;
    let chars = crate::text::chars_of(s);
    push_str(out, "\"");
    let mut i: usize = 0;
    assert(chars@.take(0) =~= Seq::<char>::empty());
    while i < chars.len()
        invariant
            i <= chars.len(),
            chars@ == s@,
            out@ == o + "\""@ + json_chars(chars@.take(i as int)),
        decreases chars.len() - i,
    {
        let c = chars[i];
        let ghost before = out@;
        if c == '"' {
            push_str(out, "\\\"");
        } else if c == '\\' {
            push_str(out, "\\\\");
        } else if (c as u32) < 0x20 {
            push_str(out, "\\u00");
            out.push(hex(c as u32 / 16));
            out.push(hex(c as u32 % 16));
        } else {
            out.push(c);
        }
        proof {
            assert(out@ =~= before + json_char(c));
            assert(chars@.take(i + 1).drop_last() =~= chars@.take(i as int));
            assert(chars@.take(i + 1).last() == c);
        }
        i = i + 1;
    }
    assert(chars@.take(i as int) =~= s@);
    push_str(out, "\"");
}

/// Appends the strings `ss` as a JSON array.
fn push_json_strings(out: &mut String, ss: &[String])
    ensures
        final(out)@ == old(out)@ + json_strings(crate::text::texts(ss@)),
{
    let ghost o = out@;
    let ghost items = crate::text::texts(ss@).map_values(|s: Seq<char>| json_string(s));
    push_str(out, "[");
    let mut i: usize = 0;
    while i < ss.len()
        invariant
            i <= ss.len(),
            items == crate::text::texts(ss@).map_values(|s: Seq<char>| json_string(s)),
            out@ == o + "["@ + join(items.take(i as int), ","@),
        decreases ss.len() - i,
    {
        if i > 0 {
            push_str(out, ",");
        }
        push_json_string(out, ss[i].as_str());
        proof {
            assert(items[i as int] == json_string(ss@[i as int]@));
            assert(items.take(i + 1).drop_last() =~= items.take(i as int));
            assert(items.take(i + 1).last() == items[i as int]);
            if i == 0 {
                assert(items.take(1) =~= seq![items[0]]);
            }
        }
        i = i + 1;
    }
    assert(items.take(i as int) =~= items);
    push_str(out, "]");
}

/// Appends what a template sees of a planned target.
fn push_target_json(out: &mut String, t: &PlannedTarget)
    ensures
        final(out)@ == old(out)@ + target_json(t@),
{
    reveal(target_json);
    let ghost o = out@;
    push_str(out, "{\"id\":");
    let id = t.id().to_string();
    push_json_string(out, id.as_str());
    push_str(out, ",\"name\":");
    push_json_string(out, t.id().name());
    push_str(out, ",\"dependencies\":");
    let deps = t.dependencies();
    let mut names: Vec<String> = Vec::new();
    let mut i: usize = 0;
    while i < deps.len()
        invariant
            i <= deps.len(),
            crate::model::ids(deps@) == t@.dependencies,
            crate::text::texts(names@) == t@.dependencies.take(i as int).map_values(|d: IdView| id_text(d)),
        decreases deps.len() - i,
    {
        let ghost before = crate::text::texts(names@);
        names.push(deps[i].to_string());
        proof {
            assert(crate::model::ids(deps@)[i as int] == deps@[i as int]@);
            assert(crate::text::texts(names@) =~= before.push(id_text(t@.dependencies[i as int])));
            assert(t@.dependencies.take(i + 1).map_values(|d: IdView| id_text(d)) =~= t@.dependencies.take(i as int).map_values(
                |d: IdView| id_text(d),
            ).push(id_text(t@.dependencies[i as int])));
        }
        i = i + 1;
    }
    assert(t@.dependencies.take(i as int) =~= t@.dependencies);
    push_json_strings(out, names.as_slice());
    push_str(out, ",\"description\":");
    push_json_string(out, t.description());
    push_str(out, ",\"specifications\":");
    push_json_strings(out, t.specifications());
    push_str(out, "}");
}

/// Appends what a template sees of a stage.
fn push_stage_json(out: &mut String, stage: &crate::compiler::CompilationStage)
    ensures
        final(out)@ == old(out)@ + stage_json(stage@),
{
    let ghost o = out@;
    push_str(out, "{\"index\":");
    push_decimal(out, stage.index());
    push_str(out, ",\"targets\":[");
    let ghost o2 = out@;
    let targets = stage.targets();
    let ghost tv = stage@.targets;
    let ghost items = tv.map_values(|t: PlannedView| target_json(t));
    let mut i: usize = 0;
    while i < targets.len()
        invariant
            i <= targets.len(),
            crate::compiler::planned_views(targets@) == tv,
            items == tv.map_values(|t: PlannedView| target_json(t)),
            out@ == o2 + join(items.take(i as int), ","@),
        decreases targets.len() - i,
    {
        if i > 0 {
            push_str(out, ",");
        }
        push_target_json(out, &targets[i]);
        proof {
            assert(tv[i as int] == targets@[i as int]@);
            assert(items.take(i + 1).drop_last() =~= items.take(i as int));
            assert(items.take(i + 1).last() == items[i as int]);
            if i == 0 {
                assert(items.take(1) =~= seq![items[0]]);
            }
        }
        i = i + 1;
    }
    assert(items.take(i as int) =~= items);
    push_str(out, "]}");
    proof {
        reveal_strlit(",\"targets\":[");
        reveal_strlit(",\"targets\":");
        reveal_strlit("[");
        reveal_strlit("]}");
        reveal_strlit("]");
        reveal_strlit("}");
        assert(out@ =~= o + stage_json(stage@));
    }
}

/// The context a template is rendered in, as JSON text.
pub fn render_context(plan: &CompilationPlan) -> (r: String)
    ensures
        r@ == plan_json(plan@),
{
    let mut out = owned("{\"plan\":{\"root_target\":");
    let root = plan.root_target().to_string();
    push_json_string(&mut out, root.as_str());
    push_str(&mut out, ",\"stages\":[");
    let ghost o2 = out@;
    let stages = plan.stages();
    let ghost sv = plan@.stages;
    let ghost items = sv.map_values(|s: StageView| stage_json(s));
    let mut j: usize = 0;
    while j < stages.len()
        invariant
            j <= stages.len(),
            crate::compiler::stage_views(stages@) == sv,
            items == sv.map_values(|s: StageView| stage_json(s)),
            out@ == o2 + join(items.take(j as int), ","@),
        decreases stages.len() - j,
    {
        if j > 0 {
            push_str(&mut out, ",");
        }
        push_stage_json(&mut out, &stages[j]);
        proof {
            assert(sv[j as int] == stages@[j as int]@);
            assert(items.take(j + 1).drop_last() =~= items.take(j as int));
            assert(items.take(j + 1).last() == items[j as int]);
            if j == 0 {
                assert(items.take(1) =~= seq![items[0]]);
            }
        }
        j = j + 1;
    }
    assert(items.take(j as int) =~= items);
    push_str(&mut out, "]}}");
    proof {
        reveal_strlit(",\"stages\":[");
        reveal_strlit(",\"stages\":");
        reveal_strlit("[");
        reveal_strlit("]}}");
        reveal_strlit("]");
        reveal_strlit("}}");
        assert(out@ =~= plan_json(plan@));
    }
    out
}

/// The document of a plan: the default Markdown without a template, else
/// the template rendered in the plan's context, within `TEMPLATE_FUEL`
/// instructions.
pub fn render_plan(plan: &CompilationPlan, template: Option<&str>) -> (r: Result<String, RenderError>)
    ensures
        match template {
            None => r matches Ok(s) && s@ == crate::compiler::rendered(plan@),
            Some(t) => match template_render(t@, plan_json(plan@), TEMPLATE_FUEL) {
                Ok(s) => r matches Ok(x) && x@ == s,
                Err(e) => r matches Err(x) && e == (x.0, x.1, x.2@, match x.3 {
                    Some(d) => Some(d@),
                    None => None,
                }),
            },
        },
{
    match template {
        None => Ok(DefaultMarkdownRenderer::new().render(plan)),
        Some(t) => {
            let context = render_context(plan);
            render_with_template(t, context.as_str(), TEMPLATE_FUEL)
        },
    }
}


/// Every string of a list appears, written as a JSON string, in the JSON
/// array written for the list, and in the list's order: no item is dropped
/// or moved.
pub proof fn lemma_json_strings_hold_every_item(ss: Seq<Seq<char>>, i: int, j: int)
    requires
        0 <= i < ss.len(),
    ensures
        exists|k: int| crate::text::occurs_at(json_strings(ss), json_string(ss[i]), k),
        i < j < ss.len() ==> exists|k1: int, k2: int|
            crate::text::occurs_at(json_strings(ss), json_string(ss[i]), k1)
                && crate::text::occurs_at(json_strings(ss), json_string(ss[j]), k2) && k1 + json_string(ss[i]).len() <= k2,
{
    reveal_strlit("[");
    reveal_strlit("]");
    let items = ss.map_values(|s: Seq<char>| json_string(s));
    let body = join(items, ","@);
    let whole = "["@ + body + "]"@;
    assert(json_strings(ss) == whole);
    assert(items[i] == json_string(ss[i]));
    crate::text::lemma_join_part_at(items, ","@, i);
    let ki = crate::text::join_offset(items, ","@, i);
    crate::text::lemma_occurs_in_concat("["@, body, items[i], ki);
    crate::text::lemma_occurs_in_concat("["@ + body, "]"@, items[i], 1 + ki);
    if i < j < ss.len() {
        assert(items[j] == json_string(ss[j]));
        crate::text::lemma_join_part_at(items, ","@, j);
        let kj = crate::text::join_offset(items, ","@, j);
        crate::text::lemma_occurs_in_concat("["@, body, items[j], kj);
        crate::text::lemma_occurs_in_concat("["@ + body, "]"@, items[j], 1 + kj);
        crate::text::lemma_join_offsets_increase(items, ","@, i, j);
        assert(crate::text::occurs_at(json_strings(ss), json_string(ss[i]), 1 + ki));
        assert(crate::text::occurs_at(json_strings(ss), json_string(ss[j]), 1 + kj));
    }
}

/// A template sees every specification and every direct dependency of a
/// target: each appears, as a JSON string, in the target's object.
pub proof fn lemma_target_json_holds_lists(t: PlannedView, i: int, j: int)
    ensures
        0 <= i < t.specifications.len() ==> exists|k: int| crate::text::occurs_at(target_json(t), json_string(t.specifications[i]), k),
        0 <= j < t.dependencies.len() ==> exists|k: int| crate::text::occurs_at(target_json(t), json_string(id_text(t.dependencies[j])), k),
{
    reveal(target_json);
    let dn = t.dependencies.map_values(|d: IdView| id_text(d));
    let pre = "{\"id\":"@ + json_string(id_text(t.id)) + ",\"name\":"@ + json_string(t.id.1) + ",\"dependencies\":"@;
    let mid = ",\"description\":"@ + json_string(t.description) + ",\"specifications\":"@;
    let tail = "}"@;
    assert(target_json(t) =~= pre + json_strings(dn) + (mid + json_strings(t.specifications) + tail));
    assert(target_json(t) =~= (pre + json_strings(dn) + mid) + json_strings(t.specifications) + tail);
    if 0 <= i < t.specifications.len() {
        lemma_json_strings_hold_every_item(t.specifications, i, i);
        let k = choose|k: int| crate::text::occurs_at(json_strings(t.specifications), json_string(t.specifications[i]), k);
        crate::text::lemma_occurs_in_concat(pre + json_strings(dn) + mid, json_strings(t.specifications), json_string(t.specifications[i]), k);
        crate::text::lemma_occurs_in_concat(pre + json_strings(dn) + mid + json_strings(t.specifications), tail, json_string(t.specifications[i]),
            (pre + json_strings(dn) + mid).len() + k);
    }
    if 0 <= j < t.dependencies.len() {
        assert(dn[j] == id_text(t.dependencies[j]));
        lemma_json_strings_hold_every_item(dn, j, j);
        let k = choose|k: int| crate::text::occurs_at(json_strings(dn), json_string(dn[j]), k);
        crate::text::lemma_occurs_in_concat(pre, json_strings(dn), json_string(dn[j]), k);
        crate::text::lemma_occurs_in_concat(pre + json_strings(dn), mid + json_strings(t.specifications) + tail, json_string(dn[j]), pre.len() + k);
    }
}


/// Each item of a JSON array occurs in the array's text.
proof fn lemma_json_array_holds_item(items: Seq<Seq<char>>, i: int) -> (k: int)
    requires
        0 <= i < items.len(),
    ensures
        crate::text::occurs_at(json_array(items), items[i], k),
{
    reveal_strlit("[");
    reveal_strlit("]");
    let body = join(items, ","@);
    crate::text::lemma_join_part_at(items, ","@, i);
    let ki = crate::text::join_offset(items, ","@, i);
    crate::text::lemma_occurs_in_concat("["@, body, items[i], ki);
    crate::text::lemma_occurs_in_concat("["@ + body, "]"@, items[i], 1 + ki);
    1 + ki
}

/// A template sees every planned target: the JSON object of each target of
/// each stage occurs in the context.
pub proof fn lemma_plan_json_holds_every_target(plan: PlanView, k: int, j: int)
    requires
        0 <= k < plan.stages.len(),
        0 <= j < plan.stages[k].targets.len(),
    ensures
        exists|pos: int| crate::text::occurs_at(plan_json(plan), target_json(plan.stages[k].targets[j]), pos),
{
    let st = plan.stages[k];
    let tj = st.targets.map_values(|t: PlannedView| target_json(t));
    assert(tj[j] == target_json(st.targets[j]));
    let a = lemma_json_array_holds_item(tj, j);
    let pre_s = "{\"index\":"@ + decimal(st.index) + ",\"targets\":"@;
    assert(stage_json(st) =~= pre_s + json_array(tj) + "}"@);
    crate::text::lemma_occurs_in_concat(pre_s, json_array(tj), tj[j], a);
    crate::text::lemma_occurs_in_concat(pre_s + json_array(tj), "}"@, tj[j], pre_s.len() + a);
    let sj = plan.stages.map_values(|s: StageView| stage_json(s));
    assert(sj[k] == stage_json(st));
    let b = lemma_json_array_holds_item(sj, k);
    crate::text::lemma_occurs_within(json_array(sj), stage_json(st), tj[j], b, pre_s.len() + a);
    let pre_p = "{\"plan\":{\"root_target\":"@ + json_string(id_text(plan.root_target)) + ",\"stages\":"@;
    assert(plan_json(plan) =~= pre_p + json_array(sj) + "}}"@);
    crate::text::lemma_occurs_in_concat(pre_p, json_array(sj), tj[j], b + pre_s.len() + a);
    crate::text::lemma_occurs_in_concat(pre_p + json_array(sj), "}}"@, tj[j], pre_p.len() + b + pre_s.len() + a);
}

} // verus!

//! Compatibility of two schema versions, and the migration plan between them.
use crate::chars::{decimal_text, u64_to_decimal};
use crate::copy::copy_value;
use crate::keys::str_equal;
use crate::schema::{
    field_view, fields_view, types_equal, CompatibilityReport, FieldV, MigrationStep, Schema, SchemaField,
};
use crate::sorted_set::{
    fold_unique, id_order, insert_id, lemma_fold_push, lemma_fold_unique_contains, sorted_by, sorted_distinct,
};
use crate::value::{dv, V};
use vstd::prelude::*;

verus! {

/// View of a migration step.
pub enum StepV {
    Copy { id: u32, name: Seq<char> },
    Rename { from: Seq<char>, to: Seq<char> },
    AddOptional { id: u32, name: Seq<char> },
    AddDefault { id: u32, name: Seq<char>, default: V },
    Incompatible { reason: Seq<char> },
}

pub open spec fn step_view(s: MigrationStep) -> StepV {
    match s {
        MigrationStep::CopyField { id, name } => StepV::Copy { id, name: name@ },
        MigrationStep::RenameField { from, to } => StepV::Rename { from: from@, to: to@ },
        MigrationStep::AddOptionalField { id, name } => StepV::AddOptional { id, name: name@ },
        MigrationStep::AddDefaultField { id, name, default } => StepV::AddDefault {
            id,
            name: name@,
            default: dv(default),
        },
        MigrationStep::IncompatibleChange { reason } => StepV::Incompatible { reason: reason@ },
    }
}

pub open spec fn steps_view(s: Seq<MigrationStep>) -> Seq<StepV> {
    s.map_values(|m: MigrationStep| step_view(m))
}

/// The field an id stands for: when several fields share an id, the last.
pub open spec fn by_id(fs: Seq<FieldV>, id: u32) -> Option<FieldV>
    decreases fs.len(),
{
    if fs.len() == 0 {
        None
    } else if fs.last().id == id {
        Some(fs.last())
    } else {
        by_id(fs.drop_last(), id)
    }
}

pub open spec fn ids(fs: Seq<FieldV>) -> Seq<u32> {
    fs.map_values(|f: FieldV| f.id)
}

/// The distinct ids of a field list, ascending.
pub open spec fn id_set(fs: Seq<FieldV>) -> Seq<u32> {
    sorted_distinct(ids(fs), id_order())
}

pub open spec fn id_reason(prefix: Seq<char>, id: u32, suffix: Seq<char>) -> Seq<char> {
    prefix + decimal_text(id as nat) + suffix
}

/// The step for an id of the old schema: kept (same type, same name),
/// renamed (same type), or an incompatible change.
pub open spec fn old_step(o: Seq<FieldV>, n: Seq<FieldV>, id: u32) -> StepV {
    match (by_id(o, id), by_id(n, id)) {
        (Some(of), Some(nf)) => if of.ty == nf.ty {
            if of.name == nf.name {
                StepV::Copy { id, name: nf.name }
            } else {
                StepV::Rename { from: of.name, to: nf.name }
            }
        } else {
            StepV::Incompatible { reason: id_reason("field "@, id, " type changed"@) }
        },
        _ => StepV::Incompatible { reason: id_reason("field "@, id, " removed"@) },
    }
}

/// The step for a field whose id only the new schema has.
pub open spec fn new_step(nf: FieldV) -> StepV {
    if nf.optional {
        StepV::AddOptional { id: nf.id, name: nf.name }
    } else {
        match nf.default {
            Some(d) => StepV::AddDefault { id: nf.id, name: nf.name, default: d },
            None => StepV::Incompatible { reason: id_reason("new required field "@, nf.id, " without default"@) },
        }
    }
}

/// Steps for the ids `ks` of the new schema that the old one lacks, in order.
pub open spec fn added_steps(o: Seq<FieldV>, n: Seq<FieldV>, ks: Seq<u32>) -> Seq<StepV>
    decreases ks.len(),
{
    if ks.len() == 0 {
        Seq::empty()
    } else {
        let rest = added_steps(o, n, ks.drop_last());
        match (by_id(o, ks.last()), by_id(n, ks.last())) {
            (None, Some(nf)) => rest.push(new_step(nf)),
            _ => rest,
        }
    }
}

pub open spec fn kept_steps(o: Seq<FieldV>, n: Seq<FieldV>, ks: Seq<u32>) -> Seq<StepV> {
    ks.map_values(|id: u32| old_step(o, n, id))
}

/// The migration plan: one step per old id in ascending order, then one
/// step per id that only the new schema has, in ascending order.
pub open spec fn plan(o: Seq<FieldV>, n: Seq<FieldV>) -> Seq<StepV> {
    kept_steps(o, n, id_set(o)) + added_steps(o, n, id_set(n))
}

pub open spec fn no_incompatible(s: Seq<StepV>) -> bool {
    forall|i: int| 0 <= i < s.len() ==> !(#[trigger] s[i] is Incompatible)
}

proof fn lemma_no_incompatible_push(s: Seq<StepV>, x: StepV)
    ensures
        no_incompatible(s.push(x)) == (no_incompatible(s) && !(x is Incompatible)),
{
    if no_incompatible(s) && !(x is Incompatible) {
        assert forall|i: int| 0 <= i < s.push(x).len() implies !(#[trigger] s.push(x)[i] is Incompatible) by {
            if i < s.len() {
                assert(s.push(x)[i] == s[i]);
            }
        }
    }
    if no_incompatible(s.push(x)) {
        assert(s.push(x)[s.len() as int] == x);
        assert forall|i: int| 0 <= i < s.len() implies !(#[trigger] s[i] is Incompatible) by {
            assert(s.push(x)[i] == s[i]);
        }
    }
}

proof fn lemma_by_id_some(fs: Seq<FieldV>, j: int)
    requires
        0 <= j < fs.len(),
    ensures
        by_id(fs, fs[j].id) is Some,
    decreases fs.len(),
{
    if j < fs.len() - 1 && fs.last().id != fs[j].id {
        lemma_by_id_some(fs.drop_last(), j);
    }
}

/// Every id of `id_set(fs)` stands for a field.
proof fn lemma_id_set_has_field(fs: Seq<FieldV>, id: u32, k: int)
    requires
        0 <= k < id_set(fs).len(),
        id_set(fs)[k] == id,
    ensures
        by_id(fs, id) is Some,
{
    assert(id_set(fs).contains(id));
    lemma_fold_unique_contains(Seq::empty(), ids(fs), id_order(), id);
    let j = choose|j: int| 0 <= j < ids(fs).len() && ids(fs)[j] == id;
    lemma_by_id_some(fs, j);
}

proof fn lemma_added_none(o: Seq<FieldV>, n: Seq<FieldV>, ks: Seq<u32>)
    requires
        forall|i: int| 0 <= i < ks.len() ==> by_id(o, #[trigger] ks[i]) is Some,
    ensures
        added_steps(o, n, ks) == Seq::<StepV>::empty(),
    decreases ks.len(),
{
    if ks.len() > 0 {
        assert(by_id(o, ks[ks.len() - 1]) is Some);
        lemma_added_none(o, n, ks.drop_last());
    }
}

/// A schema is compatible with itself: its plan against itself has one
/// step per distinct id, each a plain copy, and no incompatible change.
pub proof fn law_self_compatible(fs: Seq<FieldV>)
    ensures
        plan(fs, fs) == kept_steps(fs, fs, id_set(fs)),
        forall|i: int| 0 <= i < id_set(fs).len() ==> (#[trigger] plan(fs, fs)[i]) is Copy,
        no_incompatible(plan(fs, fs)),
{
    let ks = id_set(fs);
    assert forall|i: int| 0 <= i < ks.len() implies by_id(fs, #[trigger] ks[i]) is Some by {
        lemma_id_set_has_field(fs, ks[i], i);
    }
    lemma_added_none(fs, fs, ks);
    assert(plan(fs, fs) =~= kept_steps(fs, fs, ks));
    assert forall|i: int| 0 <= i < ks.len() implies (#[trigger] plan(fs, fs)[i]) is Copy by {
        assert(by_id(fs, ks[i]) is Some);
        assert(plan(fs, fs)[i] == old_step(fs, fs, ks[i]));
    }
}

/// The distinct ids of the fields, ascending.
fn collect_ids(fields: &Vec<SchemaField>) -> (r: Vec<u32>)
    ensures
        r@ == id_set(fields_view(fields@)),
        sorted_by(r@, id_order()),
{
    let ghost fv = fields_view(fields@);
    let mut out: Vec<u32> = Vec::new();
    let mut i: usize = 0;
    while i < fields.len()
        invariant
            i <= fields@.len(),
            fv == fields_view(fields@),
            out@ == fold_unique(Seq::empty(), ids(fv).subrange(0, i as int), id_order()),
            sorted_by(out@, id_order()),
        decreases fields.len() - i,
    {
        let id = fields[i].id;
        proof {
            assert(ids(fv)[i as int] == id);
            assert(ids(fv).subrange(0, i + 1) =~= ids(fv).subrange(0, i as int).push(id));
            lemma_fold_push(Seq::empty(), ids(fv).subrange(0, i as int), id, id_order());
        }
        insert_id(&mut out, id);
        i += 1;
    }
    proof {
        assert(ids(fv).subrange(0, fields@.len() as int) =~= ids(fv));
    }
    out
}

/// The position of the field an id stands for.
fn find_by_id(fields: &Vec<SchemaField>, id: u32) -> (r: Option<usize>)
    ensures
        match r {
            Some(j) => j < fields@.len() && by_id(fields_view(fields@), id) == Some(field_view(fields@[j as int])),
            None => by_id(fields_view(fields@), id) is None,
        },
{
    let ghost fv = fields_view(fields@);
    let mut j: usize = fields.len();
    assert(fv.subrange(0, j as int) =~= fv);
    while j > 0
        invariant
            j <= fields@.len(),
            fv == fields_view(fields@),
            by_id(fv, id) == by_id(fv.subrange(0, j as int), id),
        decreases j,
    {
        let ghost sub = fv.subrange(0, j as int);
        assert(sub.last() == field_view(fields@[j - 1]));
        if fields[j - 1].id == id {
            return Some(j - 1);
        }
        assert(sub.drop_last() =~= fv.subrange(0, j - 1));
        j -= 1;
    }
    None
}

fn id_message(prefix: &str, id: u32, suffix: &str) -> (r: String)
    ensures
        r@ == id_reason(prefix@, id, suffix@),
{
    let mut m = prefix.to_owned();
    let d = u64_to_decimal(id as u64);
    m.append(d.as_str());
    m.append(suffix);
    m
}

/// The step for an id of the old schema, given the positions of its field in
/// both schemas.
fn kept_step(old: &Vec<SchemaField>, new: &Vec<SchemaField>, id: u32, oi: usize) -> (r: MigrationStep)
    requires
        oi < old@.len(),
        by_id(fields_view(old@), id) == Some(field_view(old@[oi as int])),
    ensures
        step_view(r) == old_step(fields_view(old@), fields_view(new@), id),
{
    let oldf = &old[oi];
    match find_by_id(new, id) {
        Some(ni) => {
            let newf = &new[ni];
            if types_equal(&oldf.ty, &newf.ty) {
                if str_equal(oldf.name.as_str(), newf.name.as_str()) {
                    MigrationStep::CopyField { id, name: newf.name.clone() }
                } else {
                    MigrationStep::RenameField { from: oldf.name.clone(), to: newf.name.clone() }
                }
            } else {
                MigrationStep::IncompatibleChange { reason: id_message("field ", id, " type changed") }
            }
        },
        None => MigrationStep::IncompatibleChange { reason: id_message("field ", id, " removed") },
    }
}

/// The step for a field of the new schema whose id the old one lacks.
fn added_step(newf: &SchemaField) -> (r: MigrationStep)
    ensures
        step_view(r) == new_step(field_view(*newf)),
{
    if newf.optional {
        MigrationStep::AddOptionalField { id: newf.id, name: newf.name.clone() }
    } else {
        match &newf.default {
            Some(d) => MigrationStep::AddDefaultField { id: newf.id, name: newf.name.clone(), default: copy_value(d) },
            None => MigrationStep::IncompatibleChange {
                reason: id_message("new required field ", newf.id, " without default"),
            },
        }
    }
}

/// Computes the compatibility report and migration plan between two schema
/// versions: the plan is `plan` of the two field lists, and the versions are
/// compatible exactly when no step of the plan is an incompatible change.
pub fn check_compatibility(old: &Schema, new: &Schema) -> (r: CompatibilityReport)
    ensures
        steps_view(r.steps@) == plan(fields_view(old.fields@), fields_view(new.fields@)),
        r.compatible == no_incompatible(steps_view(r.steps@)),
{
    let ghost o = fields_view(old.fields@);
    let ghost n = fields_view(new.fields@);
    let old_ids = collect_ids(&old.fields);
    let new_ids = collect_ids(&new.fields);
    let mut steps: Vec<MigrationStep> = Vec::new();
    let mut compatible = true;
    let mut k: usize = 0;
    while k < old_ids.len()
        invariant
            k <= old_ids@.len(),
            o == fields_view(old.fields@),
            n == fields_view(new.fields@),
            old_ids@ == id_set(o),
            steps_view(steps@) == kept_steps(o, n, old_ids@.subrange(0, k as int)),
            compatible == no_incompatible(steps_view(steps@)),
        decreases old_ids.len() - k,
    {
        let id = old_ids[k];
        let oi = match find_by_id(&old.fields, id) {
            Some(j) => j,
            None => {
                proof {
                    lemma_id_set_has_field(o, id, k as int);
                }
                return CompatibilityReport { compatible, steps };
            },
        };
        let step = kept_step(&old.fields, &new.fields, id, oi);
        proof {
            lemma_no_incompatible_push(steps_view(steps@), step_view(step));
            assert(steps_view(steps@.push(step)) =~= steps_view(steps@).push(step_view(step)));
            assert(kept_steps(o, n, old_ids@.subrange(0, k + 1)) =~= kept_steps(
                o,
                n,
                old_ids@.subrange(0, k as int),
            ).push(old_step(o, n, id)));
        }
        compatible = compatible && !matches!(step, MigrationStep::IncompatibleChange { .. });
        steps.push(step);
        k += 1;
    }
    let ghost kept = steps_view(steps@);
    proof {
        assert(old_ids@.subrange(0, old_ids@.len() as int) =~= old_ids@);
        assert(kept + added_steps(o, n, new_ids@.subrange(0, 0)) =~= kept);
    }
    let mut k: usize = 0;
    while k < new_ids.len()
        invariant
            k <= new_ids@.len(),
            o == fields_view(old.fields@),
            n == fields_view(new.fields@),
            new_ids@ == id_set(n),
            kept == kept_steps(o, n, id_set(o)),
            steps_view(steps@) == kept + added_steps(o, n, new_ids@.subrange(0, k as int)),
            compatible == no_incompatible(steps_view(steps@)),
        decreases new_ids.len() - k,
    {
        let id = new_ids[k];
        let ghost before = steps_view(steps@);
        proof {
            assert(new_ids@.subrange(0, k + 1).drop_last() =~= new_ids@.subrange(0, k as int));
            assert(new_ids@.subrange(0, k + 1).last() == id);
        }
        if find_by_id(&old.fields, id).is_none() {
            match find_by_id(&new.fields, id) {
                Some(ni) => {
                    let step = added_step(&new.fields[ni]);
                    proof {
                        lemma_no_incompatible_push(before, step_view(step));
                        assert(steps_view(steps@.push(step)) =~= before.push(step_view(step)));
                        assert(kept + added_steps(o, n, new_ids@.subrange(0, k + 1)) =~= before.push(
                            step_view(step),
                        ));
                    }
                    compatible = compatible && !matches!(step, MigrationStep::IncompatibleChange { .. });
                    steps.push(step);
                },
                None => {},
            }
        }
        k += 1;
    }
    proof {
        assert(new_ids@.subrange(0, new_ids@.len() as int) =~= new_ids@);
    }
    CompatibilityReport { compatible, steps }
}

} // verus!

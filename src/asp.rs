use vstd::prelude::*;

use crate::error::IlnlpError;
use crate::literal::{valid_lit, Lit, LitBuilder, Literal, LiteralView};
use crate::set::{set_of, SortedSet};

verus! {

/// The ids of the literals of `atoms` in the registry `m`.
pub open spec fn ids_of_atoms(m: Seq<LiteralView>, atoms: Seq<Literal>) -> Set<usize> {
    Set::new(
        |id: usize|
            valid_lit(m.len(), id) && exists|k: int|
                0 <= k < atoms.len() && (#[trigger] atoms[k])@ == m[id - 1],
    )
}

/// Interns the atoms that the grounder proved as facts and appends their
/// ids, in the order given, to `result`.
pub fn ground_literals(atoms: &Vec<Literal>, builder: &mut LitBuilder, result: &mut Vec<Lit>)
    requires
        old(builder).wf(),
        old(builder).model().len() + atoms@.len() < usize::MAX,
    ensures
        final(builder).wf(),
        old(builder).model().len() <= final(builder).model().len() <= old(builder).model().len()
            + atoms@.len(),
        final(builder).model().subrange(0, old(builder).model().len() as int) == old(
            builder,
        ).model(),
        final(result)@.len() == old(result)@.len() + atoms@.len(),
        final(result)@.subrange(0, old(result)@.len() as int) == old(result)@,
        forall|k: int|
            0 <= k < atoms@.len() ==> valid_lit(
                final(builder).model().len(),
                #[trigger] final(result)@[old(result)@.len() + k],
            ) && final(builder).model()[final(result)@[old(result)@.len() + k] - 1]
                == atoms@[k]@,
{
    let ghost m0 = builder.model();
    let ghost r0 = result@;
    let mut i: usize = 0;
    while i < atoms.len()
        invariant
            i <= atoms@.len(),
            builder.wf(),
            m0 == old(builder).model(),
            r0 == old(result)@,
            m0.len() <= builder.model().len() <= m0.len() + i,
            m0.len() + atoms@.len() < usize::MAX,
            builder.model().subrange(0, m0.len() as int) == m0,
            result@.len() == r0.len() + i,
            result@.subrange(0, r0.len() as int) == r0,
            forall|k: int|
                0 <= k < i ==> valid_lit(builder.model().len(), #[trigger] result@[r0.len() + k])
                    && builder.model()[result@[r0.len() + k] - 1] == atoms@[k]@,
        decreases atoms@.len() - i,
    {
        let ghost before = builder.model();
        let ghost rb = result@;
        let id = builder.create_literal(atoms[i].clone());
        assert(builder.model().subrange(0, m0.len() as int) =~= before.subrange(0, m0.len() as int));
        result.push(id);
        assert(result@.subrange(0, r0.len() as int) =~= rb.subrange(0, r0.len() as int));
        assert forall|k: int| 0 <= k < i + 1 implies valid_lit(
            builder.model().len(),
            #[trigger] result@[r0.len() + k],
        ) && builder.model()[result@[r0.len() + k] - 1] == atoms@[k]@ by {
            if k < i {
                assert(result@[r0.len() + k] == rb[r0.len() + k]);
                assert(builder.model()[rb[r0.len() + k] - 1] == before[rb[r0.len() + k] - 1]);
            }
        }
        i = i + 1;
    }
}

/// The number of atoms over all of `models`.
pub open spec fn total_atoms(models: Seq<Vec<Literal>>) -> nat
    decreases models.len(),
{
    if models.len() == 0 {
        0
    } else {
        total_atoms(models.drop_last()) + models.last()@.len()
    }
}

/// Each `ids[t]` names `atoms[t]` in `m`.
pub open spec fn names_each(m: Seq<LiteralView>, ids: Seq<usize>, atoms: Seq<Literal>) -> bool {
    &&& ids.len() == atoms.len()
    &&& forall|t: int|
        0 <= t < ids.len() ==> valid_lit(m.len(), #[trigger] ids[t]) && m[ids[t] - 1] == atoms[t]@
}

proof fn lemma_names_extend(m0: Seq<LiteralView>, m1: Seq<LiteralView>, ids: Seq<usize>, atoms: Seq<Literal>)
    requires
        m0.len() <= m1.len(),
        m1.subrange(0, m0.len() as int) == m0,
        names_each(m0, ids, atoms),
    ensures
        names_each(m1, ids, atoms),
{
    assert forall|t: int| 0 <= t < ids.len() implies valid_lit(m1.len(), #[trigger] ids[t]) && m1[ids[t] - 1]
        == atoms[t]@ by {
        assert(m1.subrange(0, m0.len() as int)[ids[t] - 1] == m1[ids[t] - 1]);
    }
}

proof fn lemma_names_exact(b: LitBuilder, ids: Seq<usize>, atoms: Seq<Literal>)
    requires
        b.wf(),
        names_each(b.model(), ids, atoms),
    ensures
        set_of(ids) == ids_of_atoms(b.model(), atoms),
{
    let m = b.model();
    assert forall|id: usize| set_of(ids).contains(id) == ids_of_atoms(m, atoms).contains(id) by {
        if set_of(ids).contains(id) {
            let t = choose|t: int| 0 <= t < ids.len() && ids[t] == id;
            assert(atoms[t]@ == m[id - 1]);
        }
        if ids_of_atoms(m, atoms).contains(id) {
            let t = choose|t: int| 0 <= t < atoms.len() && (#[trigger] atoms[t])@ == m[id - 1];
            assert(m[ids[t] - 1] == m[id - 1]);
            assert(ids[t] == id);
            assert(ids.contains(id));
        }
    }
    assert(set_of(ids) =~= ids_of_atoms(m, atoms));
}

/// Turns the models that the solver enumerated (each as its shown atoms)
/// into sets of ids, taking at most `limit` of them; `NoModel` when that
/// leaves none.
pub fn compute_models(models: &Vec<Vec<Literal>>, builder: &mut LitBuilder, limit: usize) -> (r:
    Result<Vec<SortedSet>, IlnlpError>)
    requires
        old(builder).wf(),
        old(builder).model().len() + total_atoms(models@) < usize::MAX,
    ensures
        final(builder).wf(),
        final(builder).model().subrange(0, old(builder).model().len() as int) == old(
            builder,
        ).model(),
        (models@.len() == 0 || limit == 0) <==> r == Err::<Vec<SortedSet>, IlnlpError>(
            IlnlpError::NoModel,
        ),
        (models@.len() > 0 && limit > 0) ==> r is Ok,
        forall|k: int, t: int|
            0 <= k < models@.len() && k < limit && 0 <= t < models@[k]@.len() ==> final(builder).model().contains(#[trigger] models@[k]@[t]@),
        r is Ok ==> {
            let v = r->Ok_0;
            &&& v@.len() == if models@.len() < limit {
                models@.len()
            } else {
                limit as nat
            }
            &&& forall|k: int|
                0 <= k < v@.len() ==> (#[trigger] v@[k]).wf() && v@[k].elems() == ids_of_atoms(
                    final(builder).model(),
                    models@[k]@,
                )
        },
{
    let ghost m0 = builder.model();
    let ghost mut idvs: Seq<Seq<usize>> = Seq::empty();
    let mut v: Vec<SortedSet> = Vec::new();
    let mut k: usize = 0;
    while k < models.len() && k < limit
        invariant
            k <= models@.len(),
            k <= limit,
            v@.len() == k,
            idvs.len() == k,
            builder.wf(),
            m0 == old(builder).model(),
            m0.len() + total_atoms(models@) < usize::MAX,
            m0.len() <= builder.model().len() <= m0.len() + total_atoms(models@.subrange(0, k as int)),
            builder.model().subrange(0, m0.len() as int) == m0,
            forall|q: int|
                0 <= q < k ==> (#[trigger] v@[q]).wf() && v@[q].elems() == set_of(idvs[q])
                    && names_each(builder.model(), idvs[q], models@[q]@),
        decreases models@.len() - k,
    {
        proof {
            lemma_total_prefix(models@, k as int);
            lemma_total_prefix_le(models@, k + 1);
        }
        let ghost before = builder.model();
        let mut ids: Vec<Lit> = Vec::new();
        ground_literals(&models[k], builder, &mut ids);
        let ghost idv = ids@;
        let s = SortedSet::new(ids);
        proof {
            let m = builder.model();
            assert(m.subrange(0, m0.len() as int) =~= before.subrange(0, m0.len() as int));
            let atoms = models@[k as int]@;
            assert forall|t: int| 0 <= t < idv.len() implies valid_lit(m.len(), #[trigger] idv[t]) && m[idv[t] - 1]
                == atoms[t]@ by {
                assert(idv[0 + t] == idv[t]);
            }
            assert forall|q: int| 0 <= q < k implies (#[trigger] v@[q]).wf() && v@[q].elems() == set_of(idvs[q])
                && names_each(m, idvs[q], models@[q]@) by {
                assert(v@[q].wf());
                assert(v@[q].elems() == set_of(idvs[q]));
                assert(names_each(before, idvs[q], models@[q]@));
                lemma_names_extend(before, m, idvs[q], models@[q]@);
            }
            idvs = idvs.push(idv);
        }
        v.push(s);
        k = k + 1;
    }
    proof {
        assert forall|q: int, t: int|
            0 <= q < models@.len() && q < limit && 0 <= t < models@[q]@.len() implies builder.model().contains(
                #[trigger] models@[q]@[t]@,
            ) by {
            assert(v@[q].wf());
            assert(names_each(builder.model(), idvs[q], models@[q]@));
            let id = idvs[q][t];
            assert(builder.model()[id - 1] == models@[q]@[t]@);
        }
    }
    if v.len() == 0 {
        return Err(IlnlpError::NoModel);
    }
    proof {
        assert forall|q: int| 0 <= q < v@.len() implies (#[trigger] v@[q]).wf() && v@[q].elems() == ids_of_atoms(
            builder.model(),
            models@[q]@,
        ) by {
            assert(v@[q].wf());
            assert(v@[q].elems() == set_of(idvs[q]));
            assert(names_each(builder.model(), idvs[q], models@[q]@));
            lemma_names_exact(*builder, idvs[q], models@[q]@);
        }
    }
    Ok(v)
}

proof fn lemma_total_prefix(models: Seq<Vec<Literal>>, k: int)
    requires
        0 <= k < models.len(),
    ensures
        total_atoms(models.subrange(0, k + 1)) == total_atoms(models.subrange(0, k)) + models[k]@.len(),
{
    assert(models.subrange(0, k + 1).drop_last() == models.subrange(0, k));
}

proof fn lemma_total_prefix_le(models: Seq<Vec<Literal>>, k: int)
    requires
        0 <= k <= models.len(),
    ensures
        total_atoms(models.subrange(0, k)) <= total_atoms(models),
    decreases models.len() - k,
{
    if k < models.len() {
        lemma_total_prefix(models, k);
        lemma_total_prefix_le(models, k + 1);
    } else {
        assert(models.subrange(0, k) == models);
    }
}

} // verus!

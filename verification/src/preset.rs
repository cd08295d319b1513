//! Saved parameter presets of the tools: filtering by tool and deleting by id.
use vstd::prelude::*;
use vstd::string::*;
use crate::text::str_eq;

verus! {

/// A named set of parameters saved for one tool.
pub struct Preset {
    pub id: String,
    pub name: String,
    pub feature: String,
    pub params: serde_json::Value,
    pub created_at: String,
    pub updated_at: String,
}

/// The presets of `ps[..n]` saved for `feature`, in order.
pub open spec fn presets_for(ps: Seq<Preset>, feature: Seq<char>, n: int) -> Seq<Preset>
    decreases n,
{
    if n <= 0 || n > ps.len() {
        Seq::empty()
    } else {
        presets_for(ps, feature, n - 1) + if ps[n - 1].feature@ == feature { seq![ps[n - 1]] } else { Seq::empty() }
    }
}

/// The presets of `ps[..n]` whose id is not `id`, in order.
pub open spec fn presets_without(ps: Seq<Preset>, id: Seq<char>, n: int) -> Seq<Preset>
    decreases n,
{
    if n <= 0 || n > ps.len() {
        Seq::empty()
    } else {
        presets_without(ps, id, n - 1) + if ps[n - 1].id@ != id { seq![ps[n - 1]] } else { Seq::empty() }
    }
}

/// The presets saved for `feature` (all of them when no tool is given), in order.
pub fn load_presets(feature: Option<String>, presets: Vec<Preset>) -> (r: Vec<Preset>)
    ensures
        match feature {
            Some(f) => r@ == presets_for(presets@, f@, presets@.len() as int),
            None => r@ == presets@,
        },
{
    match feature {
        None => presets,
        Some(f) => {
            let ghost all = presets@;
            let mut out: Vec<Preset> = Vec::new();
            let mut rest = presets;
            assert(rest@ =~= all.subrange(0, all.len() as int));
            let mut i: usize = 0;
            let n = rest.len();
            while i < n
                invariant
                    i <= n,
                    n == all.len(),
                    rest@ == all.subrange(i as int, n as int),
                    out@ == presets_for(all, f@, i as int),
                decreases n - i,
            {
                let p = rest.remove(0);
                assert(p == all[i as int]);
                if str_eq(p.feature.as_str(), f.as_str()) {
                    out.push(p);
                }
                i = i + 1;
                assert(rest@ =~= all.subrange(i as int, n as int));
                assert(out@ =~= presets_for(all, f@, i as int));
            }
            out
        },
    }
}

/// Deletes the preset with `id`: the presets without it, or an error when
/// none has that id.
pub fn delete_preset(id: String, presets: Vec<Preset>) -> (r: Result<Vec<Preset>, String>)
    ensures
        match r {
            Ok(rest) => rest@ == presets_without(presets@, id@, presets@.len() as int)
                && rest@.len() < presets@.len(),
            Err(e) => presets_without(presets@, id@, presets@.len() as int).len() == presets@.len()
                && e@ == "Preset with id '"@ + id@ + "' not found"@,
        },
{
    let ghost all = presets@;
    let n = presets.len();
    let mut out: Vec<Preset> = Vec::new();
    let mut rest = presets;
    assert(rest@ =~= all.subrange(0, all.len() as int));
    let mut dropped: usize = 0;
    let mut i: usize = 0;
    while i < n
        invariant
            i <= n,
            n == all.len(),
            rest@ == all.subrange(i as int, n as int),
            out@ == presets_without(all, id@, i as int),
            out@.len() + dropped == i,
        decreases n - i,
    {
        let p = rest.remove(0);
        assert(p == all[i as int]);
        if str_eq(p.id.as_str(), id.as_str()) {
            dropped = dropped + 1;
        } else {
            out.push(p);
        }
        i = i + 1;
        assert(rest@ =~= all.subrange(i as int, n as int));
        assert(out@ =~= presets_without(all, id@, i as int));
    }
    if dropped == 0 {
        let mut m = String::from_str("Preset with id '");
        crate::text::push_str(&mut m, id.as_str());
        crate::text::push_str(&mut m, "' not found");
        return Err(m);
    }
    Ok(out)
}


/// Loading by tool keeps exactly the presets of that tool: each one loaded
/// is saved for the tool, and each preset saved for it is loaded.
pub proof fn law_load_keeps_the_tools_presets(ps: Seq<Preset>, feature: Seq<char>, n: int)
    requires
        0 <= n <= ps.len(),
    ensures
        forall|k: int| 0 <= k < presets_for(ps, feature, n).len() ==> (#[trigger] presets_for(ps, feature, n)[k]).feature@ == feature,
        forall|i: int| 0 <= i < n && (#[trigger] ps[i]).feature@ == feature ==> presets_for(ps, feature, n).contains(ps[i]),
    decreases n,
{
    if n > 0 {
        law_load_keeps_the_tools_presets(ps, feature, n - 1);
        let prev = presets_for(ps, feature, n - 1);
        let cur = presets_for(ps, feature, n);
        assert forall|k: int| 0 <= k < cur.len() implies (#[trigger] cur[k]).feature@ == feature by {
            if k < prev.len() {
                assert(cur[k] == prev[k]);
            }
        }
        assert forall|i: int| 0 <= i < n && (#[trigger] ps[i]).feature@ == feature implies cur.contains(ps[i]) by {
            if i < n - 1 {
                let j = choose|j: int| 0 <= j < prev.len() && prev[j] == ps[i];
                assert(cur[j] == prev[j]);
            } else {
                assert(cur[prev.len() as int] == ps[i]);
            }
        }
    }
}

/// Deleting by id removes every preset with that id and keeps all others;
/// nothing is removed exactly when no preset has the id.
pub proof fn law_delete_removes_only_that_id(ps: Seq<Preset>, id: Seq<char>, n: int)
    requires
        0 <= n <= ps.len(),
    ensures
        forall|k: int| 0 <= k < presets_without(ps, id, n).len() ==> (#[trigger] presets_without(ps, id, n)[k]).id@ != id,
        forall|i: int| 0 <= i < n && (#[trigger] ps[i]).id@ != id ==> presets_without(ps, id, n).contains(ps[i]),
        presets_without(ps, id, n).len() == n <==> forall|i: int| 0 <= i < n ==> (#[trigger] ps[i]).id@ != id,
        presets_without(ps, id, n).len() <= n,
    decreases n,
{
    if n > 0 {
        law_delete_removes_only_that_id(ps, id, n - 1);
        let prev = presets_without(ps, id, n - 1);
        let cur = presets_without(ps, id, n);
        assert forall|k: int| 0 <= k < cur.len() implies (#[trigger] cur[k]).id@ != id by {
            if k < prev.len() {
                assert(cur[k] == prev[k]);
            }
        }
        assert forall|i: int| 0 <= i < n && (#[trigger] ps[i]).id@ != id implies cur.contains(ps[i]) by {
            if i < n - 1 {
                let j = choose|j: int| 0 <= j < prev.len() && prev[j] == ps[i];
                assert(cur[j] == prev[j]);
            } else {
                assert(cur[prev.len() as int] == ps[i]);
            }
        }
        if cur.len() == n {
            assert forall|i: int| 0 <= i < n implies (#[trigger] ps[i]).id@ != id by {
                if i == n - 1 {
                } else {
                    assert(prev.len() == n - 1);
                }
            }
        }
        if forall|i: int| 0 <= i < n ==> (#[trigger] ps[i]).id@ != id {
            assert(forall|i: int| 0 <= i < n - 1 ==> (#[trigger] ps[i]).id@ != id);
            assert(ps[n - 1].id@ != id);
        }
    }
}

} // verus!

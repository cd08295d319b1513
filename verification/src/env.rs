//! Environments of the API tester: named sets of variables, and replacing
//! `{{name}}` placeholders with their values.
use vstd::prelude::*;
use vstd::string::*;
use crate::text::{replace_all, replace_chars, str_chars, str_eq, string_from_chars};

verus! {

/// A named set of variables, each a `[name, value]` pair.
pub struct Environment {
    pub id: String,
    pub name: String,
    pub variables: Vec<Vec<String>>,
}

/// Mathematical form of an environment: id, name, variables.
pub type EnvView = (Seq<char>, Seq<char>, Seq<Seq<Seq<char>>>);

impl Environment {
    pub open spec fn view(&self) -> EnvView {
        (self.id@, self.name@, Seq::new(self.variables@.len(), |i: int| Seq::new(self.variables@[i]@.len(), |j: int| self.variables@[i]@[j]@)))
    }
}

/// A copy of a list of strings.
fn clone_strings(v: &Vec<String>) -> (r: Vec<String>)
    ensures
        Seq::new(r@.len(), |j: int| r@[j]@) == Seq::new(v@.len(), |j: int| v@[j]@),
{
    let mut r: Vec<String> = Vec::new();
    let mut j: usize = 0;
    while j < v.len()
        invariant
            j <= v@.len(),
            r@.len() == j,
            forall|k: int| 0 <= k < j ==> #[trigger] r@[k]@ == v@[k]@,
        decreases v@.len() - j,
    {
        r.push(v[j].clone());
        j = j + 1;
    }
    assert(Seq::new(r@.len(), |j: int| r@[j]@) =~= Seq::new(v@.len(), |j: int| v@[j]@));
    r
}

/// A copy of an environment.
pub fn clone_environment(e: &Environment) -> (r: Environment)
    ensures
        r.view() == e.view(),
{
    let mut vars: Vec<Vec<String>> = Vec::new();
    let mut i: usize = 0;
    while i < e.variables.len()
        invariant
            i <= e.variables@.len(),
            vars@.len() == i,
            forall|k: int| 0 <= k < i ==> Seq::new(#[trigger] vars@[k]@.len(), |j: int| vars@[k]@[j]@)
                == Seq::new(e.variables@[k]@.len(), |j: int| e.variables@[k]@[j]@),
        decreases e.variables@.len() - i,
    {
        vars.push(clone_strings(&e.variables[i]));
        i = i + 1;
    }
    let r = Environment { id: e.id.clone(), name: e.name.clone(), variables: vars };
    assert(r.view().2 =~= e.view().2);
    r
}

/// The environments the tester starts with when none were saved: one
/// empty environment with id `default`.
pub fn default_environments() -> (r: Vec<Environment>)
    ensures
        r@.len() == 1,
        r@[0].view() == ("default"@, "默认环境"@, Seq::<Seq<Seq<char>>>::empty()),
{
    let e = Environment { id: String::from_str("default"), name: String::from_str("默认环境"), variables: Vec::new() };
    assert(e.view().2 =~= Seq::<Seq<Seq<char>>>::empty());
    vec![e]
}

/// The position of the first environment of `envs[i..]` with id `id`.
pub open spec fn index_of_id(envs: Seq<EnvView>, id: Seq<char>, i: int) -> Option<int>
    decreases envs.len() - i,
{
    if i < 0 || i >= envs.len() {
        None
    } else if envs[i].0 == id {
        Some(i)
    } else {
        index_of_id(envs, id, i + 1)
    }
}

/// The environments of `envs[..n]` whose id is not `id`, in order.
pub open spec fn envs_without(envs: Seq<EnvView>, id: Seq<char>, n: int) -> Seq<EnvView>
    decreases n,
{
    if n <= 0 || n > envs.len() {
        Seq::empty()
    } else {
        envs_without(envs, id, n - 1) + if envs[n - 1].0 != id { seq![envs[n - 1]] } else { Seq::empty() }
    }
}

/// The text `{{name}}` stands for in `text` once each `[name, value]` pair
/// of `vars[..n]` is applied in turn (pairs of another length are skipped).
pub open spec fn substituted(text: Seq<char>, vars: Seq<Seq<Seq<char>>>, n: int) -> Seq<char>
    decreases n,
{
    if n <= 0 || n > vars.len() {
        text
    } else {
        let t = substituted(text, vars, n - 1);
        let pair = vars[n - 1];
        if pair.len() == 2 { replace_all(t, "{{"@ + pair[0] + "}}"@, pair[1]) } else { t }
    }
}

/// The environments of the API tester.
pub struct EnvironmentManager {
    envs: Vec<Environment>,
}

impl EnvironmentManager {
    /// The environments, in order.
    pub closed spec fn view(&self) -> Seq<EnvView> {
        Seq::new(self.envs@.len(), |i: int| self.envs@[i].view())
    }

    /// A manager holding `envs`.
    pub fn new(envs: Vec<Environment>) -> (r: Self)
        ensures
            r.view() == Seq::new(envs@.len(), |i: int| envs@[i].view()),
    {
        EnvironmentManager { envs }
    }

    /// A copy of the environments.
    pub fn list(&self) -> (r: Vec<Environment>)
        ensures
            Seq::new(r@.len(), |i: int| r@[i].view()) == self.view(),
    {
        let mut out: Vec<Environment> = Vec::new();
        let mut i: usize = 0;
        while i < self.envs.len()
            invariant
                i <= self.envs@.len(),
                out@.len() == i,
                forall|k: int| 0 <= k < i ==> #[trigger] out@[k].view() == self.envs@[k].view(),
            decreases self.envs@.len() - i,
        {
            out.push(clone_environment(&self.envs[i]));
            i = i + 1;
        }
        assert(Seq::new(out@.len(), |i: int| out@[i].view()) =~= self.view());
        out
    }

    /// Saves `env`: replaces the name and variables of the first environment
    /// with its id, or adds it at the end; returns it.
    pub fn save(&mut self, env: Environment) -> (r: Environment)
        ensures
            r.view() == env.view(),
            final(self).view() == match index_of_id(old(self).view(), env.view().0, 0) {
                Some(k) => old(self).view().update(k, env.view()),
                None => old(self).view().push(env.view()),
            },
    {
        let ghost before = self.view();
        assert(before == old(self).view());
        let mut i: usize = 0;
        while i < self.envs.len()
            invariant
                i <= self.envs@.len(),
                before == self.view(),
                before == old(self).view(),
                index_of_id(before, env.view().0, 0) == index_of_id(before, env.view().0, i as int),
            decreases self.envs@.len() - i,
        {
            assert(before[i as int].0 == self.envs@[i as int].id@);
            if str_eq(self.envs[i].id.as_str(), env.id.as_str()) {
                assert(index_of_id(before, env.view().0, i as int) == Some(i as int));
                let copy = clone_environment(&env);
                self.envs.set(i, copy);
                assert(self.view() =~= before.update(i as int, env.view()));
                return env;
            }
            i = i + 1;
        }
        let copy = clone_environment(&env);
        self.envs.push(copy);
        assert(self.view() =~= before.push(env.view()));
        env
    }

    /// Removes every environment with id `id`.
    pub fn delete(&mut self, id: &str)
        ensures
            final(self).view() == envs_without(old(self).view(), id@, old(self).view().len() as int),
    {
        let ghost before = self.view();
        let mut kept: Vec<Environment> = Vec::new();
        let mut i: usize = 0;
        while i < self.envs.len()
            invariant
                i <= self.envs@.len(),
                before == self.view(),
                Seq::new(kept@.len(), |k: int| kept@[k].view()) == envs_without(before, id@, i as int),
            decreases self.envs@.len() - i,
        {
            let ghost prev = Seq::new(kept@.len(), |k: int| kept@[k].view());
            if !str_eq(self.envs[i].id.as_str(), id) {
                kept.push(clone_environment(&self.envs[i]));
                assert(Seq::new(kept@.len(), |k: int| kept@[k].view()) =~= prev.push(before[i as int]));
            }
            i = i + 1;
            assert(Seq::new(kept@.len(), |k: int| kept@[k].view()) =~= envs_without(before, id@, i as int));
        }
        self.envs = kept;
    }

    /// Replaces `{{name}}` placeholders in `input` with the values of the
    /// `[name, value]` pairs, one pair after the other.
    pub fn substitute(input: &str, variables: &[Vec<String>]) -> (r: String)
        ensures
            r@ == substituted(input@, Seq::new(variables@.len(), |i: int| Seq::new(variables@[i]@.len(), |j: int| variables@[i]@[j]@)), variables@.len() as int),
    {
        let ghost vars = Seq::new(variables@.len(), |i: int| Seq::new(variables@[i]@.len(), |j: int| variables@[i]@[j]@));
        let mut result = str_chars(input);
        let mut i: usize = 0;
        while i < variables.len()
            invariant
                i <= variables@.len(),
                vars == Seq::new(variables@.len(), |i: int| Seq::new(variables@[i]@.len(), |j: int| variables@[i]@[j]@)),
                result@ == substituted(input@, vars, i as int),
            decreases variables@.len() - i,
        {
            let pair = &variables[i];
            if pair.len() == 2 {
                let mut pat = str_chars("{{");
                let name = str_chars(pair[0].as_str());
                let mut k: usize = 0;
                let ghost p0 = pat@;
                while k < name.len()
                    invariant
                        k <= name@.len(),
                        pat@ == p0 + name@.subrange(0, k as int),
                    decreases name@.len() - k,
                {
                    pat.push(name[k]);
                    k = k + 1;
                    assert(pat@ =~= p0 + name@.subrange(0, k as int));
                }
                pat.push('}');
                pat.push('}');
                proof {
                    reveal_strlit("{{");
                    reveal_strlit("}}");
                    assert(name@.subrange(0, name@.len() as int) =~= name@);
                    assert(pat@ =~= "{{"@ + vars[i as int][0] + "}}"@);
                }
                let rep = str_chars(pair[1].as_str());
                result = replace_chars(&result, &pat, &rep);
            }
            i = i + 1;
        }
        string_from_chars(&result)
    }
}


/// After deleting an id, no environment has that id, and every other
/// environment is kept.
pub proof fn law_delete_removes_id(envs: Seq<EnvView>, id: Seq<char>, n: int)
    requires
        0 <= n <= envs.len(),
    ensures
        forall|k: int| 0 <= k < envs_without(envs, id, n).len() ==> #[trigger] envs_without(envs, id, n)[k].0 != id,
        forall|k: int| 0 <= k < n && envs[k].0 != id ==> envs_without(envs, id, n).contains(#[trigger] envs[k]),
    decreases n,
{
    if n > 0 {
        law_delete_removes_id(envs, id, n - 1);
        let prev = envs_without(envs, id, n - 1);
        assert forall|k: int| 0 <= k < n && envs[k].0 != id implies envs_without(envs, id, n).contains(#[trigger] envs[k]) by {
            if k < n - 1 {
                let j = choose|j: int| 0 <= j < prev.len() && prev[j] == envs[k];
                assert(envs_without(envs, id, n)[j] == envs[k]);
            } else {
                assert(envs_without(envs, id, n)[prev.len() as int] == envs[k]);
            }
        }
    }
}

/// After saving an environment, it can be found by its id, holding what was saved.
pub proof fn law_saved_environment_found(envs: Seq<EnvView>, env: EnvView)
    ensures
        ({
            let after = match index_of_id(envs, env.0, 0) {
                Some(k) => envs.update(k, env),
                None => envs.push(env),
            };
            index_of_id(after, env.0, 0) matches Some(j) && after[j] == env
        }),
{
    lemma_index_of_id_found(envs, env.0, 0);
    match index_of_id(envs, env.0, 0) {
        Some(k) => {
            lemma_index_of_id_update(envs, env.0, 0, k, env);
        },
        None => {
            lemma_index_of_id_push(envs, env.0, 0, env);
        },
    }
}

proof fn lemma_index_of_id_found(envs: Seq<EnvView>, id: Seq<char>, i: int)
    requires
        0 <= i,
    ensures
        index_of_id(envs, id, i) matches Some(k) ==> i <= k < envs.len() && envs[k].0 == id
            && forall|j: int| i <= j < k ==> envs[j].0 != id,
        index_of_id(envs, id, i) is None ==> forall|j: int| i <= j < envs.len() ==> envs[j].0 != id,
    decreases envs.len() - i,
{
    if i < envs.len() && envs[i].0 != id {
        lemma_index_of_id_found(envs, id, i + 1);
    }
}

proof fn lemma_index_of_id_update(envs: Seq<EnvView>, id: Seq<char>, i: int, k: int, env: EnvView)
    requires
        0 <= i <= k < envs.len(),
        env.0 == id,
        forall|j: int| i <= j < k ==> envs[j].0 != id,
    ensures
        index_of_id(envs.update(k, env), id, i) == Some(k),
    decreases k - i,
{
    if i < k {
        lemma_index_of_id_update(envs, id, i + 1, k, env);
    }
}

proof fn lemma_index_of_id_push(envs: Seq<EnvView>, id: Seq<char>, i: int, env: EnvView)
    requires
        0 <= i <= envs.len(),
        env.0 == id,
        forall|j: int| i <= j < envs.len() ==> envs[j].0 != id,
    ensures
        index_of_id(envs.push(env), id, i) == Some(envs.len() as int),
    decreases envs.len() - i,
{
    if i < envs.len() {
        lemma_index_of_id_push(envs, id, i + 1, env);
    }
}

} // verus!

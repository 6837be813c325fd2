//! What the interpreter keeps while it runs: the variables of the environment,
//! by namespace, and the attributes given to the next request.
use vstd::prelude::*;

use crate::locations::Location;
use crate::names::{
    find_name, index_of, lemma_index_of, lemma_index_of_range, lemma_same_names, lookup, set_name,
    unique_names,
};
use crate::parser::ast::{Expression, Identifier};
use crate::text::str_eq;

verus! {

/// The namespaces that the text of an environment file holds, each a map from
/// variable names to values; none when the text is not a JSON object of such
/// objects of strings.
pub uninterp spec fn env_file_namespaces(text: Seq<char>) -> Option<Map<Seq<char>, Map<Seq<char>, Seq<char>>>>;

/// The variables of a namespace as a map from names to values.
pub open spec fn vars_map(vars: Seq<(String, String)>) -> Map<Seq<char>, Seq<char>> {
    Map::new(|k: Seq<char>| index_of(vars, k) >= 0, |k: Seq<char>| vars[index_of(vars, k)].1@)
}

/// The namespaces as a map from names to their variables.
pub open spec fn namespaces_map(nss: Seq<(String, Vec<(String, String)>)>) -> Map<
    Seq<char>,
    Map<Seq<char>, Seq<char>>,
> {
    Map::new(|k: Seq<char>| index_of(nss, k) >= 0, |k: Seq<char>| vars_map(nss[index_of(nss, k)].1@))
}

/// `serde_json::from_str` into a `HashMap` of namespaces, each a `HashMap` of
/// variables, handed out as lists. The lists hold what the maps hold, each name
/// once; their order is the maps' own and is not stated.
#[verifier::external_body]
fn parse_env_file(text: &str) -> (r: Option<Vec<(String, Vec<(String, String)>)>>)
    ensures
        match r {
            Some(v) => unique_names(v@) && (forall|i: int|
                0 <= i < v@.len() ==> unique_names((#[trigger] v@[i]).1@)) && env_file_namespaces(text@)
                == Some(namespaces_map(v@)),
            None => env_file_namespaces(text@) is None,
        },
{
    let parsed: Option<std::collections::HashMap<String, std::collections::HashMap<String, String>>> =
        serde_json::from_str(text).ok();
    parsed.map(|m| m.into_iter().map(|(ns, vars)| (ns, vars.into_iter().collect())).collect())
}

/// The variables of the environment, grouped in namespaces, and the namespace
/// that is read and written.
pub struct Environment {
    pub env_file_name: String,
    pub namespaced_variables: Vec<(String, Vec<(String, String)>)>,
    pub selected_namespace: Option<String>,
}

/// The namespace used when none is selected.
pub open spec fn default_namespace() -> Seq<char> {
    "default"@
}

impl Environment {
    /// Each namespace occurs once, and each variable once in its namespace.
    pub open spec fn wf(&self) -> bool {
        &&& unique_names(self.namespaced_variables@)
        &&& forall|i: int|
            0 <= i < self.namespaced_variables@.len() ==> unique_names(
                (#[trigger] self.namespaced_variables@[i]).1@,
            )
    }

    /// The namespace that is read and written.
    pub closed spec fn selected(&self) -> Seq<char> {
        match self.selected_namespace {
            Some(ns) => ns@,
            None => default_namespace(),
        }
    }

    /// The namespace `ns` exists.
    pub open spec fn has_namespace(&self, ns: Seq<char>) -> bool {
        index_of(self.namespaced_variables@, ns) >= 0
    }

    /// The value of the variable `name` in the namespace `ns`.
    pub open spec fn value_in(&self, ns: Seq<char>, name: Seq<char>) -> Option<Seq<char>> {
        let i = index_of(self.namespaced_variables@, ns);
        if i < 0 {
            None
        } else {
            lookup(self.namespaced_variables@[i].1@, name)
        }
    }

    /// The value of the variable `name` in the selected namespace.
    pub open spec fn value_of(&self, name: Seq<char>) -> Option<Seq<char>> {
        self.value_in(self.selected(), name)
    }

    /// An environment kept in the file `file_name`, with the variables read from
    /// it; when they could not be read, one empty namespace named `default`.
    pub fn new(
        file_name: String,
        loaded: Option<Vec<(String, Vec<(String, String)>)>>,
    ) -> (r: Environment)
        requires
            loaded matches Some(v) ==> unique_names(v@) && forall|i: int|
                0 <= i < v@.len() ==> unique_names((#[trigger] v@[i]).1@),
        ensures
            r.wf(),
            r.env_file_name == file_name,
            r.selected() == default_namespace(),
            loaded matches Some(v) ==> r.namespaced_variables == v,
            loaded is None ==> r.namespaced_variables@.len() == 1
                && r.namespaced_variables@[0].0@ == default_namespace()
                && r.namespaced_variables@[0].1@.len() == 0,
    {
        let namespaced_variables = match loaded {
            Some(v) => v,
            None => {
                let mut v: Vec<(String, Vec<(String, String)>)> = Vec::new();
                v.push((String::from_str("default"), Vec::new()));
                v
            },
        };
        Self { env_file_name: file_name, namespaced_variables, selected_namespace: None }
    }

    /// The environment kept in the file `file_name` whose text is `text`: the
    /// namespaces the text holds, or one empty `default` namespace when it holds
    /// none.
    pub fn from_file_text(file_name: String, text: &str) -> (r: Environment)
        ensures
            r.wf(),
            r.env_file_name == file_name,
            r.selected() == default_namespace(),
            match env_file_namespaces(text@) {
                Some(m) => namespaces_map(r.namespaced_variables@) == m,
                None => r.namespaced_variables@.len() == 1 && r.namespaced_variables@[0].0@
                    == default_namespace() && r.namespaced_variables@[0].1@.len() == 0,
            },
    {
        let loaded = parse_env_file(text);
        Environment::new(file_name, loaded)
    }

    /// Reads and writes the namespace `ns` from now on.
    pub fn select_variables_namespace(&mut self, ns: String)
        ensures
            final(self).selected() == ns@,
            final(self).namespaced_variables == old(self).namespaced_variables,
            final(self).env_file_name == old(self).env_file_name,
    {
        self.selected_namespace = Some(ns);
    }

    /// The name of the namespace that is read and written.
    pub fn selected_namespace(&self) -> (r: String)
        ensures
            r@ == self.selected(),
    {
        match &self.selected_namespace {
            Some(ns) => ns.clone(),
            None => String::from_str("default"),
        }
    }

    /// The value of the variable `name` in the selected namespace; none when that
    /// namespace or the variable does not exist.
    pub fn get_variable_value(&self, name: String) -> (r: Option<&String>)
        requires
            self.wf(),
        ensures
            match r {
                Some(v) => self.value_of(name@) == Some(v@),
                None => self.value_of(name@) is None,
            },
    {
        let ns = self.selected_namespace();
        let i = match find_name(&self.namespaced_variables, ns.as_str()) {
            Some(i) => i,
            None => return None,
        };
        let vars = &self.namespaced_variables[i].1;
        match find_name(vars, name.as_str()) {
            Some(j) => Some(&vars[j].1),
            None => None,
        }
    }

    /// Gives the variable `name` of the selected namespace the value `value`; an
    /// error names the namespace when it does not exist. Nothing else changes.
    pub fn set_variable(&mut self, name: String, value: String) -> (r: Result<(), String>)
        requires
            old(self).wf(),
        ensures
            final(self).wf(),
            final(self).selected() == old(self).selected(),
            final(self).env_file_name == old(self).env_file_name,
            r is Ok <==> old(self).has_namespace(old(self).selected()),
            r matches Err(e) ==> e@ == "undefined namespace '"@ + old(self).selected() + "'"@,
            r is Ok ==> final(self).value_of(name@) == Some(value@),
            forall|ns: Seq<char>|
                #![trigger final(self).has_namespace(ns)]
                final(self).has_namespace(ns) == old(self).has_namespace(ns),
            forall|ns: Seq<char>, n: Seq<char>|
                !(ns == old(self).selected() && n == name@) ==> final(self).value_in(ns, n)
                    == old(self).value_in(ns, n),
    {
        let ns = self.selected_namespace();
        match find_name(&self.namespaced_variables, ns.as_str()) {
            None => {
                let mut e = String::from_str("undefined namespace '");
                e.append(ns.as_str());
                e.append("'");
                Err(e)
            },
            Some(i) => {
                let ghost before = self.namespaced_variables@;
                let mut entry = self.namespaced_variables.remove(i);
                let ghost old_vars = entry.1@;
                set_name(&mut entry.1, name, value);
                self.namespaced_variables.insert(i, entry);
                proof {
                    let after = self.namespaced_variables@;
                    assert(after =~= before.update(i as int, after[i as int]));
                    assert forall|j: int| 0 <= j < before.len() implies (#[trigger] before[j]).0@
                        == after[j].0@ by {}
                    assert forall|ns2: Seq<char>| #[trigger]
                        index_of(after, ns2) == index_of(before, ns2) by {
                        lemma_same_names(before, after, ns2);
                    }
                    lemma_same_names(before, after, ns@);
                    assert forall|j: int| 0 <= j < after.len() implies unique_names(
                        (#[trigger] after[j]).1@,
                    ) by {
                        if j != i {
                            assert(after[j] == before[j]);
                        }
                    }
                    assert forall|ns2: Seq<char>, n: Seq<char>|
                        !(ns2 == ns@ && n == name@) implies self.value_in(ns2, n) == old(
                        self,
                    ).value_in(ns2, n) by {
                        lemma_same_names(before, after, ns2);
                        lemma_index_of_range(before, ns2);
                        if index_of(before, ns2) >= 0 && index_of(before, ns2) != i {
                            assert(after[index_of(before, ns2)] == before[index_of(before, ns2)]);
                        }
                    }
                }
                Ok(())
            },
        }
    }
}

impl Environment {
    /// The selected namespace exists, as reading a variable needs.
    pub fn has_selected_namespace(&self) -> (r: bool)
        requires
            self.wf(),
        ensures
            r == self.has_namespace(self.selected()),
    {
        let ns = self.selected_namespace();
        find_name(&self.namespaced_variables, ns.as_str()).is_some()
    }

    /// Makes `name` an empty namespace, in place of one of that name if there was one.
    pub fn add_namespace(&mut self, name: String)
        requires
            old(self).wf(),
        ensures
            final(self).wf(),
            final(self).selected() == old(self).selected(),
            final(self).has_namespace(name@),
            forall|n: Seq<char>| #[trigger] final(self).value_in(name@, n) is None,
            forall|ns: Seq<char>|
                ns != name@ ==> #[trigger] final(self).has_namespace(ns) == old(self).has_namespace(ns),
            forall|ns: Seq<char>, n: Seq<char>|
                ns != name@ ==> #[trigger] final(self).value_in(ns, n) == old(self).value_in(ns, n),
    {
        let ghost before = self.namespaced_variables@;
        match find_name(&self.namespaced_variables, name.as_str()) {
            Some(i) => {
                self.namespaced_variables.set(i, (name, Vec::new()));
                proof {
                    let after = self.namespaced_variables@;
                    assert forall|j: int| 0 <= j < before.len() implies (#[trigger] before[j]).0@
                        == after[j].0@ by {}
                    assert forall|ns: Seq<char>| #[trigger] index_of(after, ns) == index_of(before, ns) by {
                        lemma_same_names(before, after, ns);
                    }
                    lemma_same_names(before, after, name@);
                    assert forall|j: int| 0 <= j < after.len() implies unique_names(
                        (#[trigger] after[j]).1@,
                    ) by {
                        if j != i {
                            assert(after[j] == before[j]);
                        }
                    }
                    assert forall|ns: Seq<char>, n: Seq<char>| ns != name@ implies #[trigger] self.value_in(ns, n)
                        == old(self).value_in(ns, n) by {
                        lemma_index_of_range(before, ns);
                        if index_of(before, ns) >= 0 {
                            assert(index_of(before, ns) != i);
                            assert(after[index_of(before, ns)] == before[index_of(before, ns)]);
                        }
                    }
                }
            },
            None => {
                self.namespaced_variables.push((name, Vec::new()));
                proof {
                    let after = self.namespaced_variables@;
                    lemma_index_of_range(before, name@);
                    assert forall|a: int, b: int| 0 <= a < b < after.len() implies (
                    #[trigger] after[a]).0@ != (#[trigger] after[b]).0@ by {
                        if b == before.len() {
                            assert(after[a] == before[a]);
                        } else {
                            assert(after[a] == before[a] && after[b] == before[b]);
                        }
                    }
                    lemma_index_of(after, before.len() as int);
                    assert forall|j: int| 0 <= j < after.len() implies unique_names(
                        (#[trigger] after[j]).1@,
                    ) by {
                        if j < before.len() {
                            assert(after[j] == before[j]);
                        }
                    }
                    assert forall|ns: Seq<char>| ns != name@ implies #[trigger] index_of(after, ns)
                        == index_of(before, ns) by {
                        lemma_index_of_range(before, ns);
                        lemma_index_of_range(after, ns);
                        if index_of(before, ns) >= 0 {
                            let j = index_of(before, ns);
                            assert(after[j] == before[j]);
                            lemma_index_of(after, j);
                        } else if index_of(after, ns) >= 0 {
                            let j = index_of(after, ns);
                            if j < before.len() {
                                assert(after[j] == before[j]);
                            }
                        }
                    }
                    assert forall|ns: Seq<char>, n: Seq<char>| ns != name@ implies #[trigger] self.value_in(ns, n)
                        == old(self).value_in(ns, n) by {
                        lemma_index_of_range(before, ns);
                        if index_of(before, ns) >= 0 {
                            assert(after[index_of(before, ns)] == before[index_of(before, ns)]);
                        }
                    }
                }
            },
        }
    }

    /// Drops the namespace `name`, if there is one.
    pub fn remove_namespace(&mut self, name: &str)
        requires
            old(self).wf(),
        ensures
            final(self).wf(),
            final(self).selected() == old(self).selected(),
            !final(self).has_namespace(name@),
            forall|ns: Seq<char>|
                ns != name@ ==> #[trigger] final(self).has_namespace(ns) == old(self).has_namespace(ns),
            forall|ns: Seq<char>, n: Seq<char>|
                ns != name@ ==> #[trigger] final(self).value_in(ns, n) == old(self).value_in(ns, n),
    {
        let ghost before = self.namespaced_variables@;
        match find_name(&self.namespaced_variables, name) {
            Some(i) => {
                self.namespaced_variables.remove(i);
                proof {
                    let after = self.namespaced_variables@;
                    assert forall|a: int, b: int| 0 <= a < b < after.len() implies (
                    #[trigger] after[a]).0@ != (#[trigger] after[b]).0@ by {
                        let a0 = if a < i { a } else { a + 1 };
                        let b0 = if b < i { b } else { b + 1 };
                        assert(after[a] == before[a0] && after[b] == before[b0]);
                    }
                    assert forall|j: int| 0 <= j < after.len() implies unique_names(
                        (#[trigger] after[j]).1@,
                    ) by {
                        let j0 = if j < i { j } else { j + 1 };
                        assert(after[j] == before[j0]);
                    }
                    assert forall|ns: Seq<char>| #[trigger] index_of(after, ns) >= 0 <==> (
                    index_of(before, ns) >= 0 && ns != name@) by {
                        lemma_index_of_range(before, ns);
                        lemma_index_of_range(after, ns);
                        if index_of(after, ns) >= 0 {
                            let j = index_of(after, ns);
                            let j0 = if j < i { j } else { j + 1 };
                            assert(after[j] == before[j0]);
                            lemma_index_of(before, j0);
                        }
                        if index_of(before, ns) >= 0 && ns != name@ {
                            let j0 = index_of(before, ns);
                            assert(j0 != i);
                            let j = if j0 < i { j0 } else { j0 - 1 };
                            assert(after[j] == before[j0]);
                        }
                    }
                    assert forall|ns: Seq<char>, n: Seq<char>| ns != name@ implies #[trigger] self.value_in(ns, n)
                        == old(self).value_in(ns, n) by {
                        lemma_index_of_range(before, ns);
                        lemma_index_of_range(after, ns);
                        if index_of(before, ns) >= 0 {
                            let j0 = index_of(before, ns);
                            assert(j0 != i);
                            let j = if j0 < i { j0 } else { j0 - 1 };
                            assert(after[j] == before[j0]);
                            lemma_index_of(after, j);
                        }
                    }
                }
            },
            None => {},
        }
    }
}

/// An attribute given to the next request: its name, where it stands, and its
/// parameters.
pub struct Attribute<'source> {
    pub name: &'source str,
    pub location: Location,
    pub params: Vec<Expression<'source>>,
}

impl<'source> Attribute<'source> {
    /// The first parameter, if there is one.
    pub fn first_params(&self) -> (r: Option<&Expression<'source>>)
        ensures
            match r {
                Some(e) => self.params@.len() > 0 && *e == self.params@[0],
                None => self.params@.len() == 0,
            },
    {
        if self.params.len() > 0 {
            Some(&self.params[0])
        } else {
            None
        }
    }
}

/// The attributes given to the next request, each name once, in the order
/// they were given.
pub struct AttributeStore<'source> {
    inner: Vec<Attribute<'source>>,
}

/// The index of the first attribute named `name`, or -1.
pub open spec fn attribute_index(attrs: Seq<Attribute>, name: Seq<char>) -> int {
    if exists|i: int| 0 <= i < attrs.len() && (#[trigger] attrs[i]).name@ == name {
        choose|i: int| 0 <= i < attrs.len() && (#[trigger] attrs[i]).name@ == name
    } else {
        -1
    }
}

impl<'source> AttributeStore<'source> {
    /// The attributes held, in order.
    pub closed spec fn attributes(&self) -> Seq<Attribute<'source>> {
        self.inner@
    }

    /// No name is held twice.
    pub open spec fn wf(&self) -> bool {
        forall|i: int, j: int|
            0 <= i < j < self.attributes().len() ==> (#[trigger] self.attributes()[i]).name@ != (
            #[trigger] self.attributes()[j]).name@
    }

    /// An attribute named `name` is held.
    pub open spec fn holds(&self, name: Seq<char>) -> bool {
        exists|i: int| 0 <= i < self.attributes().len() && (#[trigger] self.attributes()[i]).name@ == name
    }

    pub fn new() -> (r: AttributeStore<'source>)
        ensures
            r.wf(),
            r.attributes().len() == 0,
    {
        Self { inner: Vec::new() }
    }

    /// Adds the attribute `id` with its parameters, unless one of that name is
    /// held already.
    pub fn add(&mut self, id: Identifier<'source>, params: Vec<Expression<'source>>)
        requires
            old(self).wf(),
        ensures
            final(self).wf(),
            old(self).holds(id.name@) ==> final(self).attributes() == old(self).attributes(),
            !old(self).holds(id.name@) ==> final(self).attributes() == old(self).attributes().push(
                Attribute { name: id.name, location: id.span.start, params },
            ),
    {
        if self.has(id.name) {
            return;
        }
        let ghost before = self.attributes();
        self.inner.push(Attribute { name: id.name, location: id.span.start, params });
        proof {
            let after = self.attributes();
            assert forall|i: int, j: int| 0 <= i < j < after.len() implies (#[trigger] after[i]).name@
                != (#[trigger] after[j]).name@ by {
                assert(after[i] == before[i]);
                if j == before.len() {
                    assert(!(0 <= i < before.len() && (#[trigger] before[i]).name@ == id.name@));
                } else {
                    assert(after[j] == before[j]);
                }
            }
        }
    }

    /// The attribute named `name`, if one is held.
    pub fn get(&self, name: &str) -> (r: Option<&Attribute<'source>>)
        requires
            self.wf(),
        ensures
            match r {
                Some(a) => self.holds(name@) && *a == self.attributes()[attribute_index(
                    self.attributes(),
                    name@,
                )] && a.name@ == name@,
                None => !self.holds(name@),
            },
    {
        let mut i: usize = 0;
        while i < self.inner.len()
            invariant
                self.wf(),
                0 <= i <= self.inner@.len(),
                forall|j: int| 0 <= j < i ==> (#[trigger] self.inner@[j]).name@ != name@,
            decreases self.inner@.len() - i,
        {
            if str_eq(self.inner[i].name, name) {
                proof {
                    let attrs = self.attributes();
                    assert(attrs[i as int].name@ == name@);
                    let k = attribute_index(attrs, name@);
                    assert(0 <= k < attrs.len() && attrs[k].name@ == name@);
                    if k != i {
                        if k < i {
                            assert(self.inner@[k].name@ != name@);
                        } else {
                            assert(attrs[i as int].name@ != attrs[k].name@);
                        }
                    }
                }
                return Some(&self.inner[i]);
            }
            i = i + 1;
        }
        None
    }

    /// An attribute named `name` is held.
    pub fn has(&self, name: &str) -> (r: bool)
        requires
            self.wf(),
        ensures
            r == self.holds(name@),
    {
        self.get(name).is_some()
    }

    /// Drops all the attributes.
    pub fn clear(&mut self)
        ensures
            final(self).wf(),
            final(self).attributes().len() == 0,
    {
        self.inner.clear();
    }
}

} // verus!

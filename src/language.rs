use vstd::prelude::*;
use vstd::string::StrSliceExecFns;

verus! {

/// The shape of a construct's children, naming the sorts they must have.
#[derive(Debug)]
pub enum AritySpec {
    /// A text leaf.
    Texty,
    /// One child per slot, of the slot's sort.
    Fixed(Vec<String>),
    /// Any number of children, all of this sort.
    Listy(String),
}

/// A kind of node.
#[derive(Debug)]
pub struct ConstructSpec {
    pub name: String,
    pub arity: AritySpec,
    /// The key that stands for the construct in key hints.
    pub key: Option<char>,
}

/// A named set of constructs and other sorts.
#[derive(Debug)]
pub struct SortSpec {
    pub name: String,
    pub members: Vec<String>,
}

/// The constructs and sorts of a language.
#[derive(Debug)]
pub struct GrammarSpec {
    pub constructs: Vec<ConstructSpec>,
    pub sorts: Vec<SortSpec>,
}

/// What is wrong with a grammar or a set of languages.
#[derive(Debug)]
pub enum LanguageError {
    DuplicateKey(char, String, String),
    DuplicateConstruct(String),
    DuplicateSort(String),
    DuplicateConstructAndSort(String),
    UndefinedConstructOrSort(String),
    DuplicateLanguage(String),
    UndefinedLanguage(String),
}

pub open spec fn construct_names(g: GrammarSpec) -> Seq<Seq<char>> {
    g.constructs@.map_values(|c: ConstructSpec| c.name@)
}

pub open spec fn sort_names(g: GrammarSpec) -> Seq<Seq<char>> {
    g.sorts@.map_values(|s: SortSpec| s.name@)
}

/// Some name occurs twice.
pub open spec fn has_duplicate(s: Seq<Seq<char>>) -> bool {
    exists|i: int, j: int| 0 <= i < j < s.len() && s[i] == s[j]
}

/// The universal sort, which every grammar has.
pub open spec fn any_sort() -> Seq<char> {
    seq!['A', 'n', 'y']
}

/// `n` names a construct, a sort, or the universal sort.
pub open spec fn is_defined(g: GrammarSpec, n: Seq<char>) -> bool {
    n == any_sort() || construct_names(g).contains(n) || sort_names(g).contains(n)
}

/// The sorts that a construct's arity names.
pub open spec fn arity_refs(a: AritySpec) -> Seq<Seq<char>> {
    match a {
        AritySpec::Texty => Seq::empty(),
        AritySpec::Fixed(v) => v@.map_values(|s: String| s@),
        AritySpec::Listy(s) => seq![s@],
    }
}

/// Every name that the grammar's arities and sorts refer to is defined.
pub open spec fn refs_defined(g: GrammarSpec) -> bool {
    &&& forall|i: int, k: int|
        0 <= i < g.constructs@.len() && 0 <= k < arity_refs(g.constructs@[i].arity).len()
            ==> is_defined(g, #[trigger] arity_refs(g.constructs@[i].arity)[k])
    &&& forall|i: int, k: int|
        0 <= i < g.sorts@.len() && 0 <= k < g.sorts@[i].members@.len() ==> is_defined(
            g,
            (#[trigger] g.sorts@[i].members@[k])@,
        )
}

/// Two constructs share a key.
pub open spec fn has_duplicate_key(g: GrammarSpec) -> bool {
    exists|i: int, j: int|
        0 <= i < j < g.constructs@.len() && g.constructs@[i].key is Some && g.constructs@[i].key
            == g.constructs@[j].key
}

/// A grammar that can be loaded.
pub open spec fn grammar_ok(g: GrammarSpec) -> bool {
    &&& !has_duplicate(construct_names(g))
    &&& !has_duplicate(sort_names(g))
    &&& !(exists|n: Seq<char>| construct_names(g).contains(n) && sort_names(g).contains(n))
    &&& refs_defined(g)
    &&& !has_duplicate_key(g)
}

/// Whether `n` is in `names`.
fn contains_name(names: &Vec<&String>, n: &String) -> (r: bool)
    ensures
        r == names@.map_values(|s: &String| s@).contains(n@),
{
    let ghost s = names@.map_values(|s: &String| s@);
    let mut i: usize = 0;
    while i < names.len()
        invariant
            0 <= i <= names.len(),
            s == names@.map_values(|s: &String| s@),
            forall|k: int| 0 <= k < i ==> s[k] != n@,
        decreases names.len() - i,
    {
        if *names[i] == *n {
            proof {
                assert(s[i as int] == n@);
            }
            return true;
        }
        i = i + 1;
    }
    false
}

/// A name that occurs twice in `names`, if any.
fn find_duplicate(names: &Vec<&String>) -> (r: Option<usize>)
    ensures
        r is None <==> !has_duplicate(names@.map_values(|s: &String| s@)),
        r matches Some(j) ==> j < names.len() && exists|i: int| 0 <= i < j && names@[i]@ == names@[j as int]@,
{
    let ghost s = names@.map_values(|s: &String| s@);
    let mut j: usize = 0;
    while j < names.len()
        invariant
            0 <= j <= names.len(),
            s == names@.map_values(|s: &String| s@),
            forall|a: int, b: int| 0 <= a < b < j ==> s[a] != s[b],
        decreases names.len() - j,
    {
        let mut i: usize = 0;
        while i < j
            invariant
                0 <= i <= j < names.len(),
                s == names@.map_values(|s: &String| s@),
                forall|a: int| 0 <= a < i ==> s[a] != s[j as int],
            decreases j - i,
        {
            if *names[i] == *names[j] {
                proof {
                    assert(s[i as int] == s[j as int]);
                }
                return Some(j);
            }
            i = i + 1;
        }
        j = j + 1;
    }
    None
}

/// Whether `n` is the universal sort's name.
pub(crate) fn is_any(n: &String) -> (r: bool)
    ensures
        r == (n@ == any_sort()),
{
    let s = n.as_str();
    if s.unicode_len() != 3 {
        return false;
    }
    let r = s.get_char(0) == 'A' && s.get_char(1) == 'n' && s.get_char(2) == 'y';
    proof {
        if r {
            assert(n@ =~= any_sort());
        }
    }
    r
}

/// Whether a name is defined: the universal sort, a construct or a sort.
fn defined(cnames: &Vec<&String>, snames: &Vec<&String>, n: &String) -> (r: bool)
    ensures
        r == (n@ == any_sort() || cnames@.map_values(|s: &String| s@).contains(n@)
            || snames@.map_values(|s: &String| s@).contains(n@)),
{
    is_any(n) || contains_name(cnames, n) || contains_name(snames, n)
}

/// Check a grammar before it is loaded: names of constructs and sorts are
/// unique and distinct from each other, every sort that is named is
/// defined, and no two constructs share a key. `Ok` exactly for a grammar
/// that passes; an error names one thing that is wrong.
pub fn validate_grammar(g: &GrammarSpec) -> (r: Result<(), LanguageError>)
    ensures
        r is Ok <==> grammar_ok(*g),
        r matches Err(LanguageError::DuplicateConstruct(n)) ==> has_duplicate(construct_names(*g))
            && construct_names(*g).contains(n@),
        r matches Err(LanguageError::DuplicateSort(n)) ==> has_duplicate(sort_names(*g))
            && sort_names(*g).contains(n@),
        r matches Err(LanguageError::DuplicateConstructAndSort(n)) ==> construct_names(*g).contains(
            n@,
        ) && sort_names(*g).contains(n@),
        r matches Err(LanguageError::UndefinedConstructOrSort(n)) ==> !is_defined(*g, n@),
        r matches Err(e) ==> !(e is DuplicateLanguage) && !(e is UndefinedLanguage),
{
    let ghost cn = construct_names(*g);
    let ghost sn = sort_names(*g);
    let mut cnames: Vec<&String> = Vec::new();
    let mut i: usize = 0;
    while i < g.constructs.len()
        invariant
            0 <= i <= g.constructs.len(),
            cnames.len() == i,
            forall|k: int| 0 <= k < i ==> (#[trigger] cnames@[k])@ == g.constructs@[k].name@,
        decreases g.constructs.len() - i,
    {
        cnames.push(&g.constructs[i].name);
        i = i + 1;
    }
    proof {
        assert(cnames@.map_values(|s: &String| s@) =~= cn);
    }
    let mut snames: Vec<&String> = Vec::new();
    i = 0;
    while i < g.sorts.len()
        invariant
            0 <= i <= g.sorts.len(),
            snames.len() == i,
            forall|k: int| 0 <= k < i ==> (#[trigger] snames@[k])@ == g.sorts@[k].name@,
        decreases g.sorts.len() - i,
    {
        snames.push(&g.sorts[i].name);
        i = i + 1;
    }
    proof {
        assert(snames@.map_values(|s: &String| s@) =~= sn);
    }
    match find_duplicate(&cnames) {
        Some(j) => {
            proof {
                assert(cn[j as int] == cnames@[j as int]@);
            }
            return Err(LanguageError::DuplicateConstruct(cnames[j].clone()));
        },
        None => {},
    }
    match find_duplicate(&snames) {
        Some(j) => {
            proof {
                assert(sn[j as int] == snames@[j as int]@);
            }
            return Err(LanguageError::DuplicateSort(snames[j].clone()));
        },
        None => {},
    }
    i = 0;
    while i < snames.len()
        invariant
            0 <= i <= snames.len(),
            cn == construct_names(*g),
            sn == sort_names(*g),
            cnames@.map_values(|s: &String| s@) == cn,
            snames@.map_values(|s: &String| s@) == sn,
            forall|k: int| 0 <= k < i ==> !cn.contains(#[trigger] sn[k]),
        decreases snames.len() - i,
    {
        if contains_name(&cnames, snames[i]) {
            proof {
                assert(sn[i as int] == snames@[i as int]@);
                assert(sn.contains(sn[i as int]));
                assert(cn.contains(sn[i as int]) && sn.contains(sn[i as int]));
            }
            return Err(LanguageError::DuplicateConstructAndSort(snames[i].clone()));
        }
        proof {
            assert(sn[i as int] == snames@[i as int]@);
        }
        i = i + 1;
    }
    proof {
        assert forall|n: Seq<char>| !(cn.contains(n) && sn.contains(n)) by {
            if sn.contains(n) {
                let k = choose|k: int| 0 <= k < sn.len() && sn[k] == n;
                assert(!cn.contains(sn[k]));
            }
        }
    }
    i = 0;
    while i < g.constructs.len()
        invariant
            0 <= i <= g.constructs.len(),
            cnames@.map_values(|s: &String| s@) == cn,
            snames@.map_values(|s: &String| s@) == sn,
            cn == construct_names(*g),
            sn == sort_names(*g),
            forall|a: int, k: int|
                0 <= a < i && 0 <= k < arity_refs(g.constructs@[a].arity).len() ==> is_defined(
                    *g,
                    #[trigger] arity_refs(g.constructs@[a].arity)[k],
                ),
        decreases g.constructs.len() - i,
    {
        match &g.constructs[i].arity {
            AritySpec::Texty => {},
            AritySpec::Fixed(slots) => {
                let mut k: usize = 0;
                while k < slots.len()
                    invariant
                        0 <= k <= slots.len(),
                        i < g.constructs.len(),
                        g.constructs@[i as int].arity == AritySpec::Fixed(*slots),
                        cnames@.map_values(|s: &String| s@) == cn,
                        snames@.map_values(|s: &String| s@) == sn,
                        cn == construct_names(*g),
                        sn == sort_names(*g),
                        forall|q: int| 0 <= q < k ==> is_defined(*g, (#[trigger] slots@[q])@),
                    decreases slots.len() - k,
                {
                    if !defined(&cnames, &snames, &slots[k]) {
                        proof {
                            let refs = arity_refs(g.constructs@[i as int].arity);
                            assert(refs[k as int] == slots@[k as int]@);
                            assert(!is_defined(*g, refs[k as int]));
                        }
                        return Err(LanguageError::UndefinedConstructOrSort(slots[k].clone()));
                    }
                    k = k + 1;
                }
                proof {
                    let refs = arity_refs(g.constructs@[i as int].arity);
                    assert forall|q: int| 0 <= q < refs.len() implies is_defined(*g, #[trigger] refs[q]) by {
                        assert(refs[q] == slots@[q]@);
                    }
                }
            },
            AritySpec::Listy(sort) => {
                if !defined(&cnames, &snames, sort) {
                    proof {
                        let refs = arity_refs(g.constructs@[i as int].arity);
                        assert(refs[0] == sort@);
                    }
                    return Err(LanguageError::UndefinedConstructOrSort(sort.clone()));
                }
                proof {
                    let refs = arity_refs(g.constructs@[i as int].arity);
                    assert(refs =~= seq![sort@]);
                }
            },
        }
        i = i + 1;
    }
    i = 0;
    while i < g.sorts.len()
        invariant
            0 <= i <= g.sorts.len(),
            cnames@.map_values(|s: &String| s@) == cn,
            snames@.map_values(|s: &String| s@) == sn,
            cn == construct_names(*g),
            sn == sort_names(*g),
            forall|a: int, k: int|
                0 <= a < i && 0 <= k < g.sorts@[a].members@.len() ==> is_defined(
                    *g,
                    (#[trigger] g.sorts@[a].members@[k])@,
                ),
        decreases g.sorts.len() - i,
    {
        let members = &g.sorts[i].members;
        let mut k: usize = 0;
        while k < members.len()
            invariant
                0 <= k <= members.len(),
                i < g.sorts.len(),
                *members == g.sorts@[i as int].members,
                cnames@.map_values(|s: &String| s@) == cn,
                snames@.map_values(|s: &String| s@) == sn,
                cn == construct_names(*g),
                sn == sort_names(*g),
                forall|q: int| 0 <= q < k ==> is_defined(*g, (#[trigger] members@[q])@),
            decreases members.len() - k,
        {
            if !defined(&cnames, &snames, &members[k]) {
                proof {
                    assert(!is_defined(*g, g.sorts@[i as int].members@[k as int]@));
                }
                return Err(LanguageError::UndefinedConstructOrSort(members[k].clone()));
            }
            k = k + 1;
        }
        i = i + 1;
    }
    let mut j: usize = 0;
    while j < g.constructs.len()
        invariant
            0 <= j <= g.constructs.len(),
            forall|a: int, b: int|
                0 <= a < b < j ==> !(g.constructs@[a].key is Some && g.constructs@[a].key
                    == g.constructs@[b].key),
        decreases g.constructs.len() - j,
    {
        let mut a: usize = 0;
        while a < j
            invariant
                0 <= a <= j < g.constructs.len(),
                forall|q: int|
                    0 <= q < a ==> !(g.constructs@[q].key is Some && g.constructs@[q].key
                        == g.constructs@[j as int].key),
            decreases j - a,
        {
            match (g.constructs[a].key, g.constructs[j].key) {
                (Some(x), Some(y)) => {
                    if x == y {
                        return Err(
                            LanguageError::DuplicateKey(
                                x,
                                g.constructs[a].name.clone(),
                                g.constructs[j].name.clone(),
                            ),
                        );
                    }
                },
                _ => {},
            }
            a = a + 1;
        }
        j = j + 1;
    }
    Ok(())
}

/// The languages that have been loaded, by name.
pub struct LanguageSet {
    pub languages: Vec<(String, GrammarSpec)>,
}

impl LanguageSet {
    /// The names of the loaded languages, in loading order.
    pub open spec fn names(&self) -> Seq<Seq<char>> {
        self.languages@.map_values(|e: (String, GrammarSpec)| e.0@)
    }

    pub fn new() -> (r: LanguageSet)
        ensures
            r.names().len() == 0,
    {
        LanguageSet { languages: Vec::new() }
    }

    /// The position of the language called `name`, if loaded.
    fn position(&self, name: &String) -> (r: Option<usize>)
        ensures
            r is None <==> !self.names().contains(name@),
            r matches Some(i) ==> i < self.languages.len() && self.names()[i as int] == name@,
    {
        let ghost s = self.names();
        let mut i: usize = 0;
        while i < self.languages.len()
            invariant
                0 <= i <= self.languages.len(),
                s == self.names(),
                forall|k: int| 0 <= k < i ==> s[k] != name@,
            decreases self.languages.len() - i,
        {
            if self.languages[i].0 == *name {
                proof {
                    assert(s[i as int] == name@);
                }
                return Some(i);
            }
            i = i + 1;
        }
        None
    }

    /// Load a language under `name`, after checking its grammar. Fails,
    /// changing nothing, when the name is taken or the grammar is invalid.
    pub fn insert(&mut self, name: String, grammar: GrammarSpec) -> (r: Result<(), LanguageError>)
        ensures
            r is Ok <==> !old(self).names().contains(name@) && grammar_ok(grammar),
            r matches Err(LanguageError::DuplicateLanguage(n)) ==> n@ == name@ && old(
                self,
            ).names().contains(name@),
            r is Ok ==> final(self).names() == old(self).names().push(name@),
            r is Err ==> final(self).names() == old(self).names(),
    {
        match self.position(&name) {
            Some(_) => {
                return Err(LanguageError::DuplicateLanguage(name));
            },
            None => {},
        }
        validate_grammar(&grammar)?;
        let ghost before = self.languages@;
        self.languages.push((name, grammar));
        proof {
            assert(self.names() =~= before.map_values(|e: (String, GrammarSpec)| e.0@).push(
                self.languages@.last().0@,
            ));
        }
        Ok(())
    }

    /// The grammar of the language called `name`.
    pub fn get(&self, name: &String) -> (r: Result<&GrammarSpec, LanguageError>)
        ensures
            r is Ok <==> self.names().contains(name@),
            r matches Err(LanguageError::UndefinedLanguage(n)) ==> n@ == name@,
    {
        match self.position(name) {
            Some(i) => Ok(&self.languages[i].1),
            None => Err(LanguageError::UndefinedLanguage(name.clone())),
        }
    }
}

} // verus!

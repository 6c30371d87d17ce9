//! The resolvable set of log sources, built once and then only read.

use vstd::prelude::*;

verus! {

/// Everything a connector needs to pull one log source.
pub struct PullContext {
    pub credential_ref: String,
    pub connector_type: String,
    pub properties: Vec<(String, String)>,
}

/// One log source as a catalog declares it; any part may be missing.
pub struct SourceDecl {
    pub name: Option<String>,
    pub connector_type: Option<String>,
    pub properties: Option<Vec<(String, String)>>,
}

/// Index of the last entry of `s` whose key is `key`; later entries win.
pub open spec fn last_key_index<V>(s: Seq<(String, V)>, key: Seq<char>) -> Option<int>
    decreases s.len(),
{
    if s.len() == 0 {
        None
    } else if s.last().0@ == key {
        Some(s.len() - 1)
    } else {
        last_key_index(s.drop_last(), key)
    }
}

pub proof fn lemma_last_key_index_in_range<V>(s: Seq<(String, V)>, key: Seq<char>)
    ensures
        match last_key_index(s, key) {
            Some(i) => 0 <= i < s.len() && s[i].0@ == key,
            None => forall|j: int| 0 <= j < s.len() ==> s[j].0@ != key,
        },
    decreases s.len(),
{
    if s.len() > 0 && s.last().0@ != key {
        let t = s.drop_last();
        lemma_last_key_index_in_range(t, key);
        assert forall|j: int| 0 <= j < t.len() implies #[trigger] s[j] == t[j] by {}
    }
}

pub open spec fn contains_name(s: Seq<String>, name: Seq<char>) -> bool {
    exists|i: int| 0 <= i < s.len() && #[trigger] s[i]@ == name
}

/// The catalog entry that a declaration gives, if it gives one.
pub open spec fn entry_of(
    d: SourceDecl,
    accepted: Seq<String>,
    credentials: Seq<(String, String)>,
) -> Option<(String, PullContext)> {
    match (d.name, d.connector_type, d.properties) {
        (Some(name), Some(ty), Some(props)) => {
            match last_key_index(credentials, name@) {
                Some(ci) => if contains_name(accepted, ty@) {
                    Some((name, PullContext {
                        credential_ref: credentials[ci].1,
                        connector_type: ty,
                        properties: props,
                    }))
                } else {
                    None
                },
                None => None,
            }
        },
        _ => None,
    }
}

/// The entries that a list of declarations gives, in declaration order.
pub open spec fn entries_of(
    decls: Seq<SourceDecl>,
    accepted: Seq<String>,
    credentials: Seq<(String, String)>,
) -> Seq<(String, PullContext)>
    decreases decls.len(),
{
    if decls.len() == 0 {
        Seq::empty()
    } else {
        let rest = entries_of(decls.drop_last(), accepted, credentials);
        match entry_of(decls.last(), accepted, credentials) {
            Some(e) => rest.push(e),
            None => rest,
        }
    }
}

/// Read-only lookup from source name to pull context.
pub struct Catalog {
    pub entries: Vec<(String, PullContext)>,
}

impl Catalog {
    pub open spec fn view(&self) -> Seq<(String, PullContext)> {
        self.entries@
    }

    /// Index of the entry that resolves `name`, if any.
    pub open spec fn spec_resolve(&self, name: Seq<char>) -> Option<int> {
        last_key_index(self.entries@, name)
    }

    pub fn new() -> (r: Catalog)
        ensures
            r@.len() == 0,
    {
        Catalog { entries: Vec::new() }
    }

    /// Keeps each declaration that has a name, an accepted connector type,
    /// properties and a credential reference; drops the others silently.
    /// Where a name is declared twice, the later declaration wins.
    pub fn build(
        decls: Vec<SourceDecl>,
        accepted: &Vec<String>,
        credentials: &Vec<(String, String)>,
    ) -> (r: Catalog)
        ensures
            r@ == entries_of(decls@, accepted@, credentials@),
    {
        let mut decls = decls;
        let ghost all = decls@;
        let mut entries: Vec<(String, PullContext)> = Vec::new();
        let total: usize = decls.len();
        let mut k: usize = 0;
        while decls.len() > 0
            invariant
                all.len() == total,
                k + decls@.len() == all.len(),
                decls@ == all.subrange(k as int, all.len() as int),
                entries@ == entries_of(all.subrange(0, k as int), accepted@, credentials@),
            decreases decls.len(),
        {
            let d = decls.remove(0);
            proof {
                assert(all.subrange(0, k + 1).drop_last() == all.subrange(0, k as int));
                assert(all.subrange(0, k + 1).last() == d);
            }
            let e = Self::entry_from(d, accepted, credentials);
            match e {
                Some(e) => entries.push(e),
                None => {},
            }
            k = k + 1;
        }
        proof {
            assert(all.subrange(0, k as int) == all);
        }
        Catalog { entries }
    }

    fn entry_from(
        d: SourceDecl,
        accepted: &Vec<String>,
        credentials: &Vec<(String, String)>,
    ) -> (r: Option<(String, PullContext)>)
        ensures
            r == entry_of(d, accepted@, credentials@),
    {
        match (d.name, d.connector_type, d.properties) {
            (Some(name), Some(ty), Some(props)) => {
                match find_last(credentials, &name) {
                    Some(ci) => {
                        proof {
                            lemma_last_key_index_in_range(credentials@, name@);
                        }
                        if contains(accepted, &ty) {
                            let credential_ref = credentials[ci].1.clone();
                            Some((name, PullContext { credential_ref, connector_type: ty, properties: props }))
                        } else {
                            None
                        }
                    },
                    None => None,
                }
            },
            _ => None,
        }
    }

    /// Looks up the pull context of a source by name.
    pub fn resolve(&self, name: &String) -> (r: Option<usize>)
        ensures
            match r {
                Some(i) => self.spec_resolve(name@) == Some(i as int),
                None => self.spec_resolve(name@) is None,
            },
    {
        find_last(&self.entries, name)
    }

    /// The context held at an index that `resolve` returned.
    pub fn context_at(&self, i: usize) -> (r: &PullContext)
        requires
            i < self@.len(),
        ensures
            *r == self@[i as int].1,
    {
        &self.entries[i].1
    }

    pub fn len(&self) -> (r: usize)
        ensures
            r == self@.len(),
    {
        self.entries.len()
    }
}

/// Exec form of `last_key_index`.
pub fn find_last<V>(s: &Vec<(String, V)>, key: &String) -> (r: Option<usize>)
    ensures
        match r {
            Some(i) => last_key_index(s@, key@) == Some(i as int),
            None => last_key_index(s@, key@) is None,
        },
{
    let mut n: usize = s.len();
    proof {
        assert(s@.subrange(0, n as int) == s@);
    }
    while n > 0
        invariant
            n <= s@.len(),
            last_key_index(s@, key@) == last_key_index(s@.subrange(0, n as int), key@),
        decreases n,
    {
        let ghost pre = s@.subrange(0, n as int);
        if s[n - 1].0 == *key {
            return Some(n - 1);
        }
        proof {
            assert(pre.drop_last() == s@.subrange(0, n - 1));
        }
        n = n - 1;
    }
    None
}

/// Whether some element of `s` equals `name`.
pub fn contains(s: &Vec<String>, name: &String) -> (r: bool)
    ensures
        r == contains_name(s@, name@),
{
    let mut i: usize = 0;
    while i < s.len()
        invariant
            i <= s@.len(),
            forall|j: int| 0 <= j < i ==> s@[j]@ != name@,
        decreases s@.len() - i,
    {
        if s[i] == *name {
            return true;
        }
        i = i + 1;
    }
    false
}

} // verus!

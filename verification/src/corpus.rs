//! Routing among several corpora, each with its own engine: registration by name, the
//! default corpus (the first registered, or one chosen), and lookup by an optional name.
use vstd::prelude::*;

use crate::text::{str_chars, string_from_chars};

verus! {

/// A failed corpus lookup.
#[derive(Debug, Clone, PartialEq, Eq)]
pub enum CorpusError {
    /// No corpus answers the request; the message says which.
    NotFound(String),
}

/// The engines of several corpora, keyed by corpus name, with a default corpus.
pub struct CorpusManager<E> {
    names: Vec<String>,
    engines: Vec<E>,
    default_corpus: Option<String>,
}

/// The map from the first `n` names to their engines.
pub open spec fn map_of<E>(ns: Seq<Seq<char>>, es: Seq<E>, n: nat) -> Map<Seq<char>, E>
    decreases n,
{
    if n == 0 {
        Map::empty()
    } else {
        map_of(ns, es, (n - 1) as nat).insert(ns[n - 1], es[n - 1])
    }
}

/// No name occurs twice.
pub open spec fn distinct_names(ns: Seq<Seq<char>>) -> bool {
    forall|a: int, b: int| 0 <= a < b < ns.len() ==> ns[a] != ns[b]
}

proof fn lemma_map_of<E>(ns: Seq<Seq<char>>, es: Seq<E>, n: nat)
    requires
        n <= ns.len(),
        n <= es.len(),
        distinct_names(ns),
    ensures
        forall|k: Seq<char>| #[trigger] map_of(ns, es, n).contains_key(k) <==> exists|i: int| 0 <= i < n && ns[i] == k,
        forall|i: int| 0 <= i < n ==> #[trigger] map_of(ns, es, n)[ns[i]] == es[i],
    decreases n,
{
    if n > 0 {
        let prev = map_of(ns, es, (n - 1) as nat);
        lemma_map_of(ns, es, (n - 1) as nat);
        assert forall|k: Seq<char>| #[trigger] map_of(ns, es, n).contains_key(k) <==> exists|i: int| 0 <= i < n && ns[i] == k by {
            if map_of(ns, es, n).contains_key(k) {
                if k == ns[n - 1] {
                    assert(0 <= n - 1 < n && ns[n - 1] == k);
                } else {
                    assert(prev.contains_key(k));
                    let i = choose|i: int| 0 <= i < n - 1 && ns[i] == k;
                    assert(0 <= i < n && ns[i] == k);
                }
            }
            if exists|i: int| 0 <= i < n && ns[i] == k {
                let i = choose|i: int| 0 <= i < n && ns[i] == k;
                if i < n - 1 {
                    assert(prev.contains_key(k));
                }
            }
        }
        assert forall|i: int| 0 <= i < n implies #[trigger] map_of(ns, es, n)[ns[i]] == es[i] by {
            if i < n - 1 {
                assert(ns[i] != ns[n - 1]);
                assert(prev[ns[i]] == es[i]);
            }
        }
    }
}

/// The map with one engine replaced.
proof fn lemma_map_of_update<E>(ns: Seq<Seq<char>>, es: Seq<E>, n: nat, i: int, e: E)
    requires
        n <= ns.len(),
        n <= es.len(),
        0 <= i < n,
        distinct_names(ns),
    ensures
        map_of(ns, es.update(i, e), n) == map_of(ns, es, n).insert(ns[i], e),
    decreases n,
{
    if n - 1 == i {
        assert(map_of(ns, es.update(i, e), (n - 1) as nat) =~= map_of(ns, es, (n - 1) as nat)) by {
            lemma_map_of_prefix_same(ns, es, es.update(i, e), (n - 1) as nat);
        }
        assert(map_of(ns, es.update(i, e), n) =~= map_of(ns, es, n).insert(ns[i], e));
    } else {
        lemma_map_of_update(ns, es, (n - 1) as nat, i, e);
        lemma_map_of(ns, es, (n - 1) as nat);
        assert(ns[i] != ns[n - 1]);
        assert(map_of(ns, es.update(i, e), n) =~= map_of(ns, es, n).insert(ns[i], e));
    }
}

proof fn lemma_map_of_prefix_same<E>(ns: Seq<Seq<char>>, es1: Seq<E>, es2: Seq<E>, n: nat)
    requires
        n <= es1.len(),
        n <= es2.len(),
        forall|j: int| 0 <= j < n ==> es1[j] == es2[j],
    ensures
        map_of(ns, es1, n) == map_of(ns, es2, n),
    decreases n,
{
    if n > 0 {
        lemma_map_of_prefix_same(ns, es1, es2, (n - 1) as nat);
    }
}

proof fn lemma_map_of_push<E>(ns: Seq<Seq<char>>, es: Seq<E>, k: Seq<char>, e: E, n: nat)
    requires
        n == ns.len(),
        n == es.len(),
    ensures
        map_of(ns.push(k), es.push(e), n + 1) == map_of(ns, es, n).insert(k, e),
{
    assert forall|j: int| 0 <= j < n implies ns[j] == ns.push(k)[j] && es[j] == es.push(e)[j] by {}
    lemma_map_of_prefix_same_names(ns, ns.push(k), es, es.push(e), n);
    assert(ns.push(k)[n as int] == k && es.push(e)[n as int] == e);
}

proof fn lemma_map_of_prefix_same_names<E>(ns1: Seq<Seq<char>>, ns2: Seq<Seq<char>>, es1: Seq<E>, es2: Seq<E>, n: nat)
    requires
        n <= ns1.len(),
        n <= ns2.len(),
        n <= es1.len(),
        n <= es2.len(),
        forall|j: int| 0 <= j < n ==> ns1[j] == ns2[j] && es1[j] == es2[j],
    ensures
        map_of(ns1, es1, n) == map_of(ns2, es2, n),
    decreases n,
{
    if n > 0 {
        assert forall|j: int| 0 <= j < n - 1 implies ns1[j] == ns2[j] && es1[j] == es2[j] by {
            assert(0 <= j < n);
        }
        lemma_map_of_prefix_same_names(ns1, ns2, es1, es2, (n - 1) as nat);
        assert(ns1[n - 1] == ns2[n - 1] && es1[n - 1] == es2[n - 1]);
    }
}

impl<E> CorpusManager<E> {
    /// The names, as characters.
    pub closed spec fn name_seq(&self) -> Seq<Seq<char>> {
        self.names@.map_values(|s: String| s@)
    }

    /// The engines by corpus name.
    pub closed spec fn corpora(&self) -> Map<Seq<char>, E> {
        map_of(self.name_seq(), self.engines@, self.names@.len())
    }

    /// The default corpus's name.
    pub closed spec fn default_name(&self) -> Option<Seq<char>> {
        match self.default_corpus {
            Some(d) => Some(d@),
            None => None,
        }
    }

    /// Names and engines pair up, no name twice, and the default names a corpus exactly
    /// when there is one.
    pub closed spec fn wf(&self) -> bool {
        &&& self.names.len() == self.engines.len()
        &&& distinct_names(self.name_seq())
        &&& match self.default_corpus {
            Some(d) => self.name_seq().contains(d@),
            None => self.names.len() == 0,
        }
    }

    /// A manager has a default corpus exactly when it has a corpus, and the default is
    /// always one of its corpora; it has finitely many.
    pub proof fn lemma_corpora(&self)
        requires
            self.wf(),
        ensures
            self.default_name() is None <==> self.corpora().dom().is_empty(),
            self.default_name() matches Some(d) ==> self.corpora().contains_key(d),
            self.corpora().dom().finite(),
    {
        lemma_map_of(self.name_seq(), self.engines@, self.names@.len());
        if let Some(d) = &self.default_corpus {
            let i = choose|i: int| 0 <= i < self.names.len() && #[trigger] self.name_seq()[i] == d@;
            assert(self.corpora().contains_key(d@));
            assert(self.corpora().dom().contains(d@));
            assert(!self.corpora().dom().is_empty());
        } else {
            assert(self.corpora().dom() =~= Set::<Seq<char>>::empty());
        }
        if !self.corpora().dom().is_empty() {
            let k = self.corpora().dom().choose();
            assert(self.corpora().contains_key(k));
        }
        lemma_map_of_finite(self.name_seq(), self.engines@, self.names@.len());
    }

    /// An empty manager.
    pub fn new() -> (r: Self)
        ensures
            r.wf(),
            r.corpora() == Map::<Seq<char>, E>::empty(),
            r.default_name() is None,
    {
        CorpusManager { names: Vec::new(), engines: Vec::new(), default_corpus: None }
    }

    /// Position of a corpus name.
    fn position(&self, name: &str) -> (r: Option<usize>)
        requires
            self.wf(),
        ensures
            match r {
                Some(i) => i < self.names.len() && self.names[i as int]@ == name@,
                None => forall|i: int| 0 <= i < self.names.len() ==> self.names[i]@ != name@,
            },
    {
        let mut i: usize = 0;
        while i < self.names.len()
            invariant
                i <= self.names.len(),
                forall|j: int| 0 <= j < i ==> self.names[j]@ != name@,
            decreases self.names.len() - i,
        {
            if crate::text::str_eq(self.names[i].as_str(), name) {
                return Some(i);
            }
            i += 1;
        }
        None
    }

    /// Registers `engine` as the corpus `name`, replacing an engine of the same name. The
    /// first corpus registered becomes the default.
    pub fn add_corpus(&mut self, name: String, engine: E)
        requires
            old(self).wf(),
        ensures
            final(self).wf(),
            final(self).corpora() == old(self).corpora().insert(name@, engine),
            final(self).default_name() == match old(self).default_name() {
                Some(d) => Some(d),
                None => Some(name@),
            },
    {
        proof {
            lemma_map_of(self.name_seq(), self.engines@, self.names@.len());
        }
        let ghost ns0 = self.name_seq();
        let ghost es0 = self.engines@;
        let ghost nv = name@;
        let ghost d0 = self.default_name();
        let pos = self.position(name.as_str());
        if self.default_corpus.is_none() {
            self.default_corpus = Some(name.clone());
        }
        match pos {
            Some(i) => {
                self.engines.set(i, engine);
                proof {
                    assert(ns0[i as int] == nv);
                    lemma_map_of_update(ns0, es0, ns0.len(), i as int, engine);
                    assert(self.name_seq() == ns0);
                    if let Some(d) = d0 {
                        let j = choose|j: int| 0 <= j < ns0.len() && #[trigger] ns0[j] == d;
                        assert(self.names[j]@ == d);
                    }
                }
            },
            None => {
                self.names.push(name);
                self.engines.push(engine);
                proof {
                    assert(self.name_seq() =~= ns0.push(nv));
                    lemma_map_of_push(ns0, es0, nv, engine, es0.len());
                    assert forall|a: int, b: int| 0 <= a < b < self.name_seq().len() implies self.name_seq()[a] != self.name_seq()[b] by {
                        if b == ns0.len() {
                            assert(ns0[a] != nv);
                        } else {
                            assert(self.name_seq()[a] == ns0[a] && self.name_seq()[b] == ns0[b]);
                        }
                    }
                    match d0 {
                        Some(d) => {
                            let j = choose|j: int| 0 <= j < ns0.len() && #[trigger] ns0[j] == d;
                            assert(self.name_seq()[j] == d);
                            assert(self.names[j]@ == d);
                        },
                        None => {
                            assert(self.names[ns0.len() as int]@ == nv);
                        },
                    }
                }
            },
        }
    }

    /// Makes `name` the default corpus; an error, with nothing changed, when no corpus has
    /// that name.
    pub fn set_default(&mut self, name: &str) -> (r: Result<(), CorpusError>)
        requires
            old(self).wf(),
        ensures
            final(self).wf(),
            final(self).corpora() == old(self).corpora(),
            r is Ok <==> old(self).corpora().contains_key(name@),
            r is Ok ==> final(self).default_name() == Some(name@),
            r is Err ==> final(self).default_name() == old(self).default_name(),
            r matches Err(CorpusError::NotFound(m)) ==> m@ == "corpus not found: "@ + name@,
    {
        proof {
            lemma_map_of(self.name_seq(), self.engines@, self.names@.len());
        }
        match self.position(name) {
            Some(i) => {
                proof {
                    assert(self.name_seq()[i as int] == name@);
                }
                self.default_corpus = Some(String::from_str(name));
                proof {
                    assert(self.name_seq()[i as int] == name@);
                }
                Ok(())
            },
            None => {
                proof {
                    assert forall|i: int| 0 <= i < self.names@.len() implies self.name_seq()[i] != name@ by {
                        assert(self.names[i]@ != name@);
                    }
                }
                Err(CorpusError::NotFound(not_found_message(name)))
            },
        }
    }

    /// The default corpus's name.
    pub fn default_corpus_name(&self) -> (r: Option<&str>)
        ensures
            match r {
                Some(s) => self.default_name() == Some(s@),
                None => self.default_name() is None,
            },
    {
        match &self.default_corpus {
            Some(d) => Some(d.as_str()),
            None => None,
        }
    }

    /// The engine of corpus `name`; an error when there is none.
    pub fn get_engine(&self, name: &str) -> (r: Result<&E, CorpusError>)
        requires
            self.wf(),
        ensures
            r is Ok <==> self.corpora().contains_key(name@),
            r matches Ok(e) ==> *e == self.corpora()[name@],
            r matches Err(CorpusError::NotFound(m)) ==> m@ == "corpus not found: "@ + name@,
    {
        proof {
            lemma_map_of(self.name_seq(), self.engines@, self.names@.len());
        }
        match self.position(name) {
            Some(i) => {
                proof {
                    assert(self.name_seq()[i as int] == name@);
                }
                Ok(&self.engines[i])
            },
            None => {
                proof {
                    assert forall|i: int| 0 <= i < self.names@.len() implies self.name_seq()[i] != name@ by {
                        assert(self.names[i]@ != name@);
                    }
                }
                Err(CorpusError::NotFound(not_found_message(name)))
            },
        }
    }

    /// The engine of corpus `name`, to change in place; an error when there is none.
    pub fn get_engine_mut(&mut self, name: &str) -> (r: Result<&mut E, CorpusError>)
        requires
            old(self).wf(),
        ensures
            r is Ok <==> old(self).corpora().contains_key(name@),
            r matches Ok(e) ==> *e == old(self).corpora()[name@],
            r matches Ok(e) ==> final(self).corpora() == old(self).corpora().insert(name@, *final(e)),
            final(self).wf(),
            final(self).default_name() == old(self).default_name(),
            r is Err ==> final(self).corpora() == old(self).corpora(),
            r matches Err(CorpusError::NotFound(m)) ==> m@ == "corpus not found: "@ + name@,
    {
        proof {
            lemma_map_of(self.name_seq(), self.engines@, self.names@.len());
        }
        match self.position(name) {
            Some(i) => {
                let ghost ns0 = self.name_seq();
                let ghost es0 = self.engines@;
                proof {
                    assert(ns0[i as int] == name@);
                }
                let e = &mut self.engines[i];
                proof {
                    lemma_map_of_update(ns0, es0, ns0.len(), i as int, *final(e));
                }
                Ok(e)
            },
            None => {
                proof {
                    assert forall|i: int| 0 <= i < self.names@.len() implies self.name_seq()[i] != name@ by {
                        assert(self.names[i]@ != name@);
                    }
                }
                Err(CorpusError::NotFound(not_found_message(name)))
            },
        }
    }

    /// The engine of the default corpus; an error when no corpus is registered.
    pub fn default_engine(&self) -> (r: Result<&E, CorpusError>)
        requires
            self.wf(),
        ensures
            r is Ok <==> self.default_name() is Some,
            r matches Ok(e) ==> *e == self.corpora()[self.default_name()->0],
            r matches Err(CorpusError::NotFound(m)) ==> m@ == "no default corpus configured"@,
    {
        proof {
            self.lemma_corpora();
        }
        match &self.default_corpus {
            Some(d) => self.get_engine(d.as_str()),
            None => {
                let m = String::from_str("no default corpus configured");
                proof {
                    reveal_strlit("no default corpus configured");
                }
                Err(CorpusError::NotFound(m))
            },
        }
    }

    /// The engine of the default corpus, to change in place; an error when no corpus is
    /// registered.
    pub fn default_engine_mut(&mut self) -> (r: Result<&mut E, CorpusError>)
        requires
            old(self).wf(),
        ensures
            r is Ok <==> old(self).default_name() is Some,
            r matches Ok(e) ==> *e == old(self).corpora()[old(self).default_name()->0],
            r matches Ok(e) ==> final(self).corpora() == old(self).corpora().insert(old(self).default_name()->0, *final(e)),
            final(self).wf(),
            final(self).default_name() == old(self).default_name(),
            r is Err ==> final(self).corpora() == old(self).corpora(),
            r matches Err(CorpusError::NotFound(m)) ==> m@ == "no default corpus configured"@,
    {
        proof {
            self.lemma_corpora();
        }
        match &self.default_corpus {
            Some(d) => {
                let name = d.clone();
                self.get_engine_mut(name.as_str())
            },
            None => {
                let m = String::from_str("no default corpus configured");
                proof {
                    reveal_strlit("no default corpus configured");
                }
                Err(CorpusError::NotFound(m))
            },
        }
    }

    /// The engine of the named corpus, or of the default corpus when no name is given, to
    /// change in place.
    pub fn resolve_engine_mut(&mut self, corpus: Option<&str>) -> (r: Result<&mut E, CorpusError>)
        requires
            old(self).wf(),
        ensures
            ({
                let key = match corpus {
                    Some(name) => name@,
                    None => old(self).default_name()->0,
                };
                let known = match corpus {
                    Some(name) => old(self).corpora().contains_key(name@),
                    None => old(self).default_name() is Some,
                };
                &&& r is Ok <==> known
                &&& r matches Ok(e) ==> *e == old(self).corpora()[key]
                &&& r matches Ok(e) ==> final(self).corpora() == old(self).corpora().insert(key, *final(e))
                &&& r is Err ==> final(self).corpora() == old(self).corpora()
            }),
            final(self).wf(),
            final(self).default_name() == old(self).default_name(),
    {
        match corpus {
            Some(name) => self.get_engine_mut(name),
            None => self.default_engine_mut(),
        }
    }

    /// The engine of the named corpus, or of the default corpus when no name is given.
    pub fn resolve_engine(&self, corpus: Option<&str>) -> (r: Result<&E, CorpusError>)
        requires
            self.wf(),
        ensures
            match corpus {
                Some(name) => {
                    &&& r is Ok <==> self.corpora().contains_key(name@)
                    &&& r matches Ok(e) ==> *e == self.corpora()[name@]
                },
                None => {
                    &&& r is Ok <==> self.default_name() is Some
                    &&& r matches Ok(e) ==> *e == self.corpora()[self.default_name()->0]
                },
            },
    {
        match corpus {
            Some(name) => self.get_engine(name),
            None => self.default_engine(),
        }
    }

    /// Number of corpora.
    pub fn corpus_count(&self) -> (r: usize)
        requires
            self.wf(),
        ensures
            r == self.corpora().len(),
    {
        proof {
            lemma_map_of_len(self.name_seq(), self.engines@, self.names@.len());
        }
        self.names.len()
    }

    /// Whether a corpus has the name.
    pub fn has_corpus(&self, name: &str) -> (r: bool)
        requires
            self.wf(),
        ensures
            r == self.corpora().contains_key(name@),
    {
        proof {
            lemma_map_of(self.name_seq(), self.engines@, self.names@.len());
        }
        match self.position(name) {
            Some(i) => {
                proof {
                    assert(self.name_seq()[i as int] == name@);
                }
                true
            },
            None => {
                proof {
                    assert forall|i: int| 0 <= i < self.names@.len() implies self.name_seq()[i] != name@ by {
                        assert(self.names[i]@ != name@);
                    }
                }
                false
            },
        }
    }

    /// The corpus names, each once, in order of registration.
    pub fn corpus_names(&self) -> (r: Vec<&str>)
        requires
            self.wf(),
        ensures
            str_views(r@).to_set() == self.corpora().dom(),
            r.len() == self.corpora().len(),
    {
        proof {
            lemma_map_of(self.name_seq(), self.engines@, self.names@.len());
            lemma_map_of_len(self.name_seq(), self.engines@, self.names@.len());
        }
        let mut out: Vec<&str> = Vec::new();
        let mut i: usize = 0;
        while i < self.names.len()
            invariant
                i <= self.names.len(),
                out.len() == i,
                str_views(out@) == self.name_seq().take(i as int),
            decreases self.names.len() - i,
        {
            let ghost prev = out@;
            let nm = self.names[i].as_str();
            out.push(nm);
            proof {
                assert(out@ == prev.push(nm));
                assert(nm@ == self.name_seq()[i as int]);
                assert forall|j: int| 0 <= j < i + 1 implies #[trigger] str_views(out@)[j] == self.name_seq().take(i + 1)[j] by {
                    if j < i {
                        assert(out@[j] == prev[j]);
                        assert(str_views(prev)[j] == self.name_seq().take(i as int)[j]);
                    }
                }
            }
            i += 1;
            assert(str_views(out@) =~= self.name_seq().take(i as int));
        }
        proof {
            assert(self.name_seq().take(self.names.len() as int) =~= self.name_seq());
            assert(self.name_seq().to_set() =~= self.corpora().dom()) by {
                assert forall|k: Seq<char>| self.name_seq().to_set().contains(k) implies self.corpora().dom().contains(k) by {
                    let i = choose|i: int| 0 <= i < self.name_seq().len() && self.name_seq()[i] == k;
                }
            }
        }
        out
    }
}

impl<E> Default for CorpusManager<E> {
    /// An empty manager.
    fn default() -> (r: Self)
        ensures
            r.wf(),
            r.corpora() == Map::<Seq<char>, E>::empty(),
            r.default_name() is None,
    {
        Self::new()
    }
}

proof fn lemma_map_of_finite<E>(ns: Seq<Seq<char>>, es: Seq<E>, n: nat)
    ensures
        map_of(ns, es, n).dom().finite(),
    decreases n,
{
    if n > 0 {
        lemma_map_of_finite(ns, es, (n - 1) as nat);
    }
}

proof fn lemma_map_of_len<E>(ns: Seq<Seq<char>>, es: Seq<E>, n: nat)
    requires
        n <= ns.len(),
        n <= es.len(),
        distinct_names(ns),
    ensures
        map_of(ns, es, n).len() == n,
    decreases n,
{
    if n > 0 {
        lemma_map_of_len(ns, es, (n - 1) as nat);
        lemma_map_of(ns, es, (n - 1) as nat);
        lemma_map_of_finite(ns, es, (n - 1) as nat);
        assert(!map_of(ns, es, (n - 1) as nat).contains_key(ns[n - 1]));
    }
}

/// The characters of string slices.
pub open spec fn str_views(v: Seq<&str>) -> Seq<Seq<char>> {
    v.map_values(|s: &str| s@)
}

/// `corpus not found: <name>`.
fn not_found_message(name: &str) -> (r: String)
    ensures
        r@ == "corpus not found: "@ + name@,
{
    let mut v = str_chars("corpus not found: ");
    let mut w = str_chars(name);
    v.append(&mut w);
    proof {
        reveal_strlit("corpus not found: ");
    }
    string_from_chars(v.as_slice())
}

} // verus!

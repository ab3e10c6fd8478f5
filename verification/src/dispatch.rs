//! Request dispatch: path to namespace, routing component, rewritten path,
//! and the process-wide routing table.

use vstd::prelude::*;
use crate::namespace::{Namespace, NamespaceError};
use crate::split::{
    split_at_sep, find_pair, find_elem, lemma_find_pair_at, lemma_find_pair_none,
    lemma_find_pair_props, lemma_find_elem_at, lemma_find_elem_none,
};

verus! {

/// The routing component after the namespace: the `tree` or `tag` service.
#[derive(Clone, Copy, Debug, PartialEq, Eq, Structural, Hash)]
pub enum Component {
    Tree,
    Tag,
}

/// What a request path maps to.
#[derive(Debug)]
pub enum Dispatch {
    /// No `/_` marker, or an unrecognized component token.
    NotFound,
    /// The namespace prefix is invalid; carries the parse failure.
    BadRequest(NamespaceError),
    /// Forward to the component's service with the rewritten path.
    Forward { namespace: Namespace, component: Component, rewritten: String },
}

/// The first position where the `/_` marker starts.
fn find_marker(s: &str) -> (r: Option<usize>)
    ensures
        match r {
            Some(k) => find_pair(s@, '/', '_') == k as int,
            None => find_pair(s@, '/', '_') == -1,
        },
{
    let n = s.unicode_len();
    if n < 2 {
        proof {
            lemma_find_pair_none(s@, '/', '_');
        }
        return None;
    }
    let mut i: usize = 0;
    while i <= n - 2
        invariant
            0 <= i as int <= n as int,
            n as int == s@.len(),
            n >= 2,
            forall|j: int| 0 <= j < i ==> !(#[trigger] s@[j] == '/' && s@[j + 1] == '_'),
        decreases n - i,
    {
        if s.get_char(i) == '/' && s.get_char(i + 1) == '_' {
            proof {
                lemma_find_pair_at(s@, '/', '_', i as int);
            }
            return Some(i);
        }
        i = i + 1;
    }
    proof {
        lemma_find_pair_none(s@, '/', '_');
    }
    None
}

/// The first position of `c` in `s`.
fn find_char(s: &str, c: char) -> (r: Option<usize>)
    ensures
        match r {
            Some(k) => find_elem(s@, c) == k as int,
            None => find_elem(s@, c) == -1,
        },
{
    let n = s.unicode_len();
    let mut i: usize = 0;
    while i < n
        invariant
            0 <= i as int <= n as int,
            n as int == s@.len(),
            forall|j: int| 0 <= j < i ==> #[trigger] s@[j] != c,
        decreases n - i,
    {
        if s.get_char(i) == c {
            proof {
                lemma_find_elem_at(s@, c, i as int);
            }
            return Some(i);
        }
        i = i + 1;
    }
    proof {
        lemma_find_elem_none(s@, c);
    }
    None
}

/// Maps a request path to its routing decision.
///
/// The path before the first `/_` is the namespace; the token after the
/// marker picks the component; the remainder becomes the rewritten path
/// `/_<rest>` that the component's service sees.
pub fn dispatch(path: &str) -> (r: Dispatch)
    requires
        path@.len() >= 1,
        path@[0] == '/',
    ensures
        ({
            let m = find_pair(path@, '/', '_');
            let ns_text = path@.subrange(1, if m == 0 { 1 } else { m });
            &&& m < 0 ==> r is NotFound
            &&& m >= 0 ==> {
                let ps = split_at_sep(ns_text, '/');
                let rest = path@.skip(m + 2);
                let k = find_elem(rest, '/');
                let comp = if k < 0 {
                    rest
                } else {
                    rest.take(k)
                };
                let tail = if k < 0 {
                    Seq::<char>::empty()
                } else {
                    rest.skip(k + 1)
                };
                &&& !Namespace::spec_valid_text(ns_text) ==> (r matches Dispatch::BadRequest(
                    e,
                ) && (e == NamespaceError::MissingName <==> ps.len() < 2))
                &&& Namespace::spec_valid_text(ns_text) ==> {
                    &&& comp == "tree"@ ==> (r matches Dispatch::Forward {
                        namespace,
                        component,
                        rewritten,
                    } && component == Component::Tree && namespace.parts() == ps && rewritten@
                        == seq!['/', '_'] + tail)
                    &&& comp == "tag"@ ==> (r matches Dispatch::Forward {
                        namespace,
                        component,
                        rewritten,
                    } && component == Component::Tag && namespace.parts() == ps && rewritten@
                        == seq!['/', '_'] + tail)
                    &&& comp != "tree"@ && comp != "tag"@ ==> r is NotFound
                }
            }
        }),
{
    let n = path.unicode_len();
    let m = match find_marker(path) {
        Option::None => {
            return Dispatch::NotFound;
        },
        Option::Some(m) => m,
    };
    proof {
        lemma_find_pair_props(path@, '/', '_');
    }
    let ns_end = if m == 0 { 1 } else { m };
    let ns_text = path.substring_char(1, ns_end);
    proof {
        assert(ns_text@ =~= path@.subrange(1, if m as int == 0 { 1int } else { m as int }));
    }
    let ns = match Namespace::from_str(ns_text) {
        Err(e) => {
            return Dispatch::BadRequest(e);
        },
        Ok(ns) => ns,
    };
    let rest = path.substring_char(m + 2, n);
    proof {
        assert(rest@ =~= path@.skip(m as int + 2));
    }
    let rl = rest.unicode_len();
    let (comp, tail) = match find_char(rest, '/') {
        Option::Some(k) => {
            proof {
                crate::split::lemma_find_elem_props(rest@, '/');
            }
            let c = rest.substring_char(0, k);
            let t = rest.substring_char(k + 1, rl);
            proof {
                assert(c@ =~= rest@.take(k as int));
                assert(t@ =~= rest@.skip(k as int + 1));
            }
            (c, t)
        },
        Option::None => {
            let t = rest.substring_char(rl, rl);
            proof {
                assert(t@ =~= Seq::<char>::empty());
            }
            (rest, t)
        },
    };
    let mut rewritten = String::from_str("/_");
    rewritten.append(tail);
    proof {
        reveal_strlit("/_");
        assert(rewritten@ =~= seq!['/', '_'] + tail@);
        reveal_strlit("tree");
        reveal_strlit("tag");
        assert("tree"@.len() == 4 && "tag"@.len() == 3);
        assert("tree"@ != "tag"@);
    }
    let comp_string = String::from_str(comp);
    if comp_string == String::from_str("tree") {
        Dispatch::Forward { namespace: ns, component: Component::Tree, rewritten }
    } else if comp_string == String::from_str("tag") {
        Dispatch::Forward { namespace: ns, component: Component::Tag, rewritten }
    } else {
        Dispatch::NotFound
    }
}

/// The view of a namespace: its owner, groups, and name.
pub open spec fn ns_view(ns: Namespace) -> (Seq<char>, Seq<Seq<char>>, Seq<char>) {
    (ns.spec_owner(), ns.spec_groups(), ns.spec_name())
}

/// The spec-level effect of one lookup-or-create step.
pub open spec fn spec_get_or_create<K>(t: Seq<K>, key: K) -> (Seq<K>, int) {
    let f = find_elem(t, key);
    if f >= 0 {
        (t, f)
    } else {
        (t.push(key), t.len() as int)
    }
}

/// The process-wide routing table: one store handle index per
/// (namespace, component) pair, created on first use.
///
/// A handle is a small index; the surrounding program keeps the actual
/// store instances in a sequence addressed by these indices and serializes
/// calls into the table, so at most one handle is ever created per key.
pub struct RoutingTable {
    keys: Vec<(Namespace, Component)>,
}

impl RoutingTable {
    /// The keys in creation order.
    pub closed spec fn table_view(self) -> Seq<((Seq<char>, Seq<Seq<char>>, Seq<char>), Component)> {
        self.keys@.map_values(|k: (Namespace, Component)| (ns_view(k.0), k.1))
    }

    /// No key occurs twice.
    pub open spec fn wf(self) -> bool {
        forall|i: int, j: int|
            #![trigger self.table_view()[i], self.table_view()[j]]
            0 <= i < j < self.table_view().len() ==> self.table_view()[i] != self.table_view()[j]
    }

    /// An empty table.
    pub fn new() -> (r: RoutingTable)
        ensures
            r.table_view() == Seq::<((Seq<char>, Seq<Seq<char>>, Seq<char>), Component)>::empty(),
            r.wf(),
    {
        let r = RoutingTable { keys: Vec::new() };
        proof {
            assert(r.table_view() =~= Seq::<
                ((Seq<char>, Seq<Seq<char>>, Seq<char>), Component),
            >::empty());
        }
        r
    }

    /// The handle for `(ns, comp)`, creating it on first use.
    ///
    /// The first lookup of a key appends it and returns the fresh index;
    /// every later lookup returns that same index and changes nothing.
    pub fn get_or_create(&mut self, ns: Namespace, comp: Component) -> (h: usize)
        requires
            old(self).wf(),
        ensures
            final(self).wf(),
            ({
                let key = (ns_view(ns), comp);
                let step = spec_get_or_create(old(self).table_view(), key);
                final(self).table_view() == step.0 && h as int == step.1
            }),
    {
        let ghost t0 = self.table_view();
        let ghost key = (ns_view(ns), comp);
        let n = self.keys.len();
        let mut i: usize = 0;
        while i < n
            invariant
                0 <= i as int <= n as int,
                n as int == self.keys@.len(),
                t0 == self.table_view(),
                self.wf(),
                key == (ns_view(ns), comp),
                forall|j: int| 0 <= j < i ==> #[trigger] t0[j] != key,
            decreases n - i,
        {
            proof {
                assert(t0[i as int] == (ns_view(self.keys@[i as int].0), self.keys@[i as int].1));
            }
            if self.keys[i].0 == ns && self.keys[i].1 == comp {
                proof {
                    lemma_find_elem_at(t0, key, i as int);
                }
                return i;
            }
            i = i + 1;
        }
        proof {
            lemma_find_elem_none(t0, key);
        }
        self.keys.push((ns, comp));
        proof {
            assert(self.table_view() =~= t0.push(key));
            let nt = self.table_view();
            assert forall|a: int, b: int|
                #![trigger nt[a], nt[b]]
                0 <= a < b < nt.len() implies nt[a] != nt[b] by {
                if b < t0.len() {
                    assert(nt[a] == t0[a] && nt[b] == t0[b]);
                } else {
                    assert(nt[b] == key);
                    assert(nt[a] == t0[a]);
                }
            }
        }
        n
    }
}

/// At most one handle per key: after a key has been looked up once, a
/// second lookup of the same key returns the same handle and leaves the
/// table unchanged — concurrent first-time lookups, serialized by the
/// table's lock, therefore share one store instance.
pub proof fn lemma_get_or_create_once<K>(t: Seq<K>, key: K)
    ensures
        ({
            let step = spec_get_or_create(t, key);
            spec_get_or_create(step.0, key) == (step.0, step.1)
        }),
{
    let f = find_elem(t, key);
    crate::split::lemma_find_elem_props(t, key);
    if f >= 0 {
    } else {
        let t1 = t.push(key);
        assert(t1[t.len() as int] == key);
        assert forall|j: int| 0 <= j < t.len() implies #[trigger] t1[j] != key by {
            assert(t1[j] == t[j]);
        }
        lemma_find_elem_at(t1, key, t.len() as int);
    }
}

} // verus!

//! Hierarchical repository identifiers: `owner/group.../name`.

use vstd::prelude::*;
use crate::name::{is_valid_token, is_token_char, validate_token};
use crate::split::{split_at_sep, join_with_sep, split_str, lemma_join_split, lemma_split_join};

verus! {

/// Why a path prefix is not a valid namespace.
#[derive(Clone, Copy, Debug, PartialEq, Eq, Structural)]
pub enum NamespaceError {
    /// Fewer than two `/`-separated segments: no name token.
    MissingName,
    /// A segment is empty or holds a character outside the token alphabet.
    InvalidToken,
}

impl NamespaceError {
    /// A human-readable reason.
    pub fn message(&self) -> (r: String)
        ensures
            *self == NamespaceError::MissingName ==> r@ == "Repository name must be specified"@,
            *self == NamespaceError::InvalidToken ==> r@ == "Invalid namespace"@,
    {
        match self {
            NamespaceError::MissingName => String::from_str("Repository name must be specified"),
            NamespaceError::InvalidToken => String::from_str("Invalid namespace"),
        }
    }
}

/// A validated hierarchical repository identifier: an owner token, zero or
/// more group tokens, and a name token.
#[derive(Debug, Clone, Hash)]
pub struct Namespace {
    owner: String,
    groups: Vec<String>,
    name: String,
}

impl Namespace {
    pub closed spec fn spec_owner(self) -> Seq<char> {
        self.owner@
    }

    pub closed spec fn spec_groups(self) -> Seq<Seq<char>> {
        self.groups@.map_values(|g: String| g@)
    }

    pub closed spec fn spec_name(self) -> Seq<char> {
        self.name@
    }

    /// All tokens, in path order: owner, groups, name.
    pub open spec fn parts(self) -> Seq<Seq<char>> {
        seq![self.spec_owner()] + self.spec_groups() + seq![self.spec_name()]
    }

    /// Every token is non-empty and drawn from the token alphabet.
    pub open spec fn wf(self) -> bool {
        &&& is_valid_token(self.spec_owner())
        &&& forall|i: int|
            0 <= i < self.spec_groups().len() ==> is_valid_token(#[trigger] self.spec_groups()[i])
        &&& is_valid_token(self.spec_name())
    }

    /// Whether the `/`-separated segments of `s` form a valid namespace.
    pub open spec fn spec_valid_text(s: Seq<char>) -> bool {
        let ps = split_at_sep(s, '/');
        ps.len() >= 2 && forall|i: int| 0 <= i < ps.len() ==> is_valid_token(#[trigger] ps[i])
    }

    /// Parses `owner/group.../name`.
    ///
    /// Succeeds exactly on texts with at least two `/`-separated segments,
    /// each a valid token, and then recovers exactly those segments.
    pub fn from_str(s: &str) -> (r: Result<Namespace, NamespaceError>)
        ensures
            ({
                let ps = split_at_sep(s@, '/');
                match r {
                    Ok(ns) => Self::spec_valid_text(s@) && ns.parts() == ps && ns.wf(),
                    Err(e) => !Self::spec_valid_text(s@) && (e == NamespaceError::MissingName
                        <==> ps.len() < 2),
                }
            }),
    {
        let ghost ps = split_at_sep(s@, '/');
        let mut tokens = split_str(s, '/');
        if tokens.len() < 2 {
            return Err(NamespaceError::MissingName);
        }
        let mut i: usize = 0;
        while i < tokens.len()
            invariant
                0 <= i as int <= tokens@.len(),
                ps == split_at_sep(s@, '/'),
                tokens@.map_values(|t: String| t@) == ps,
                ps.len() >= 2,
                forall|j: int| 0 <= j < i ==> is_valid_token(#[trigger] ps[j]),
            decreases tokens@.len() - i,
        {
            if !validate_token(tokens[i].as_str()) {
                proof {
                    assert(tokens@.map_values(|t: String| t@).len() == tokens@.len());
                    assert(ps[i as int] == tokens@.map_values(|t: String| t@)[i as int]);
                    assert(!is_valid_token(ps[i as int]));
                    assert(split_at_sep(s@, '/')[i as int] == ps[i as int]);
                    assert(!is_valid_token(split_at_sep(s@, '/')[i as int]));
                    assert(!Self::spec_valid_text(s@));
                }
                return Err(NamespaceError::InvalidToken);
            }
            i = i + 1;
        }
        let ghost toks0 = tokens@;
        let name = match tokens.pop() {
            Some(t) => t,
            None => {
                proof {
                    assert(toks0.map_values(|t: String| t@).len() == toks0.len());
                    assert(false);
                }
                String::new()
            },
        };
        let owner = tokens.remove(0);
        let groups = tokens;
        let ns = Namespace { owner, groups, name };
        proof {
            assert forall|j: int| 0 <= j < ps.len() implies ps[j] == toks0[j]@ by {
                assert(ps[j] == toks0.map_values(|t: String| t@)[j]);
            }
            assert(ns.spec_name() == ps[ps.len() - 1]);
            assert(ns.spec_owner() == ps[0]);
            assert forall|j: int| 0 <= j < ns.spec_groups().len() implies ns.spec_groups()[j]
                == ps[j + 1] by {
                assert(ns.spec_groups()[j] == ns.groups@[j]@);
            }
            assert(ns.parts() =~= ps);
            assert forall|j: int|
                0 <= j < ns.spec_groups().len() implies is_valid_token(
                #[trigger] ns.spec_groups()[j],
            ) by {
                assert(ns.spec_groups()[j] == ps[j + 1]);
            }
        }
        Ok(ns)
    }

    /// Builds a namespace from its tokens, validating each.
    pub fn new(owner: String, groups: Vec<String>, name: String) -> (r: Result<
        Namespace,
        NamespaceError,
    >)
        ensures
            ({
                let ok = is_valid_token(owner@) && is_valid_token(name@) && forall|i: int|
                    0 <= i < groups@.len() ==> is_valid_token(#[trigger] groups@[i]@);
                match r {
                    Ok(ns) => ok && ns.spec_owner() == owner@ && ns.spec_groups()
                        == groups@.map_values(|g: String| g@) && ns.spec_name() == name@
                        && ns.wf(),
                    Err(e) => !ok && e == NamespaceError::InvalidToken,
                }
            }),
    {
        if !validate_token(owner.as_str()) {
            return Err(NamespaceError::InvalidToken);
        }
        if !validate_token(name.as_str()) {
            return Err(NamespaceError::InvalidToken);
        }
        let mut i: usize = 0;
        while i < groups.len()
            invariant
                0 <= i as int <= groups@.len(),
                forall|j: int| 0 <= j < i ==> is_valid_token(#[trigger] groups@[j]@),
            decreases groups@.len() - i,
        {
            if !validate_token(groups[i].as_str()) {
                return Err(NamespaceError::InvalidToken);
            }
            i = i + 1;
        }
        let ns = Namespace { owner, groups, name };
        proof {
            assert(ns.spec_groups() =~= ns.spec_groups());
        }
        Ok(ns)
    }

    /// The owner token.
    pub fn owner(&self) -> (r: &String)
        ensures
            r@ == self.spec_owner(),
    {
        &self.owner
    }

    /// The group tokens, outermost first.
    pub fn groups(&self) -> (r: &Vec<String>)
        ensures
            r@.map_values(|g: String| g@) == self.spec_groups(),
    {
        &self.groups
    }

    /// The name token.
    pub fn name(&self) -> (r: &String)
        ensures
            r@ == self.spec_name(),
    {
        &self.name
    }
}

impl PartialEq for Namespace {
    fn eq(&self, other: &Namespace) -> bool {
        if !(self.owner == other.owner && self.name == other.name) {
            return false;
        }
        if self.groups.len() != other.groups.len() {
            proof {
                assert(self.spec_groups().len() != other.spec_groups().len());
            }
            return false;
        }
        let mut i: usize = 0;
        while i < self.groups.len()
            invariant
                0 <= i as int <= self.groups@.len(),
                self.groups@.len() == other.groups@.len(),
                self.spec_owner() == other.spec_owner(),
                self.spec_name() == other.spec_name(),
                forall|j: int|
                    0 <= j < i ==> #[trigger] self.spec_groups()[j] == other.spec_groups()[j],
            decreases self.groups@.len() - i,
        {
            if !(self.groups[i] == other.groups[i]) {
                proof {
                    assert(self.spec_groups()[i as int] == self.groups@[i as int]@);
                    assert(other.spec_groups()[i as int] == other.groups@[i as int]@);
                }
                return false;
            }
            i = i + 1;
        }
        proof {
            assert(self.spec_groups() =~= other.spec_groups());
        }
        true
    }
}

impl vstd::std_specs::cmp::PartialEqSpecImpl for Namespace {
    open spec fn obeys_eq_spec() -> bool {
        true
    }

    open spec fn eq_spec(&self, other: &Namespace) -> bool {
        self.spec_owner() == other.spec_owner() && self.spec_groups() == other.spec_groups()
            && self.spec_name() == other.spec_name()
    }
}

/// A token character is never the separator.
pub proof fn lemma_token_char_not_slash(c: char)
    requires
        is_token_char(c),
    ensures
        c != '/',
{
    assert('/' as u32 == 47);
}

/// Any sequence of valid tokens, written `owner/group.../name`, parses back
/// to exactly those tokens: namespace texts round-trip.
pub proof fn lemma_namespace_round_trip(parts: Seq<Seq<char>>)
    requires
        parts.len() >= 2,
        forall|i: int| 0 <= i < parts.len() ==> is_valid_token(#[trigger] parts[i]),
    ensures
        split_at_sep(join_with_sep(parts, '/'), '/') == parts,
        Namespace::spec_valid_text(join_with_sep(parts, '/')),
{
    assert forall|i: int, j: int|
        0 <= i < parts.len() && 0 <= j < parts[i].len() implies #[trigger] parts[i][j]
        != '/' by {
        assert(is_valid_token(parts[i]));
        assert(is_token_char(parts[i][j]));
        lemma_token_char_not_slash(parts[i][j]);
    }
    lemma_split_join(parts, '/');
}

/// Two distinct namespace texts never collapse to the same token sequence:
/// grouping is significant.
pub proof fn lemma_namespace_no_collapsing(s1: Seq<char>, s2: Seq<char>)
    requires
        s1 != s2,
    ensures
        split_at_sep(s1, '/') != split_at_sep(s2, '/'),
{
    if split_at_sep(s1, '/') == split_at_sep(s2, '/') {
        lemma_join_split(s1, '/');
        lemma_join_split(s2, '/');
    }
}

} // verus!

//! The configuration data model: named scopes, each holding an ordered list
//! of cyclic word groups and an ordered list of parent scope names.

use vstd::prelude::*;

verus! {

/// One configuration scope: its parent scope names, in the order they are
/// declared, and its word groups, in the order they are declared.
pub struct Scope {
    pub extends: Vec<String>,
    pub toggles: Vec<Vec<String>>,
}

/// The mathematical value of a [`Scope`].
pub struct ScopeV {
    pub extends: Seq<Seq<char>>,
    pub toggles: Seq<Seq<Seq<char>>>,
}

impl View for Scope {
    type V = ScopeV;

    open spec fn view(&self) -> ScopeV {
        ScopeV { extends: self.extends.deep_view(), toggles: self.toggles.deep_view() }
    }
}

impl DeepView for Scope {
    type V = ScopeV;

    open spec fn deep_view(&self) -> ScopeV {
        self.view()
    }
}

/// A whole configuration: scope names paired with their scopes. Names are
/// meant to be unique; when a name repeats, the earliest entry decides.
pub struct Config {
    pub entries: Vec<(String, Scope)>,
}

impl View for Config {
    type V = Seq<(Seq<char>, ScopeV)>;

    open spec fn view(&self) -> Seq<(Seq<char>, ScopeV)> {
        self.entries.deep_view()
    }
}

/// The scope under `name`, taken from the earliest entry carrying it, or
/// `None` when no entry does.
pub open spec fn cfg_lookup(cfg: Seq<(Seq<char>, ScopeV)>, name: Seq<char>) -> Option<ScopeV>
    decreases cfg.len(),
{
    if cfg.len() == 0 {
        None
    } else if cfg[0].0 == name {
        Some(cfg[0].1)
    } else {
        cfg_lookup(cfg.drop_first(), name)
    }
}

/// A scope found under a name is the scope of one of the entries carrying
/// that name.
pub proof fn lemma_cfg_lookup_is_entry(cfg: Seq<(Seq<char>, ScopeV)>, name: Seq<char>)
    requires
        cfg_lookup(cfg, name) is Some,
    ensures
        exists|j: int|
            0 <= j < cfg.len() && cfg[j].0 == name && cfg_lookup(cfg, name) == Some(cfg[j].1),
    decreases cfg.len(),
{
    if cfg.len() > 0 && cfg[0].0 != name {
        lemma_cfg_lookup_is_entry(cfg.drop_first(), name);
        let j = choose|j: int|
            0 <= j < cfg.drop_first().len() && cfg.drop_first()[j].0 == name && cfg_lookup(
                cfg.drop_first(),
                name,
            ) == Some(cfg.drop_first()[j].1);
        assert(cfg[j + 1] == cfg.drop_first()[j]);
    }
}

impl Config {
    /// The scope registered under `name`, if any; the earliest entry with
    /// that name decides.
    pub fn lookup<'a>(&'a self, name: &String) -> (r: Option<&'a Scope>)
        ensures
            r.deep_view() == cfg_lookup(self@, name@),
    {
        let ghost cfg = self@;
        proof {
            assert(cfg.skip(0) =~= cfg);
        }
        let n = self.entries.len();
        let mut i: usize = 0;
        while i < n
            invariant
                i <= n,
                n == self.entries.len(),
                cfg == self@,
                cfg_lookup(cfg.skip(i as int), name@) == cfg_lookup(cfg, name@),
            decreases n - i,
        {
            proof {
                assert(cfg.skip(i as int)[0] == cfg[i as int]);
                assert(cfg.skip(i as int).drop_first() =~= cfg.skip(i as int + 1));
            }
            if self.entries[i].0 == *name {
                return Some(&self.entries[i].1);
            }
            i = i + 1;
        }
        proof {
            assert(cfg.skip(n as int) =~= Seq::<(Seq<char>, ScopeV)>::empty());
        }
        None
    }
}

} // verus!

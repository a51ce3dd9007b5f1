//! Per-module configuration and the symbol table: module name, explicit
//! exclude rules, manual renames, and the identity keys of known classes
//! and enums. Consulted read-only during classification and resolution.
use vstd::prelude::*;

use crate::bytes_eq;

verus! {

/// One known class or enum: its source name and its stable identity key.
/// Type references hold the key, never an inlined copy of the type — the
/// indirection that keeps self-referential declarations finite.
pub struct SymbolEntry {
    pub name: Vec<u8>,
    pub key: u64,
    pub is_enum: bool,
}

/// Explicit per-module export rules: which declarations are excluded, and
/// which carry a manual rename.
pub struct ExportConfig {
    pub module: Vec<u8>,
    pub excluded: Vec<Vec<u8>>,
    pub renames: Vec<(Vec<u8>, Vec<u8>)>,
}

/// The environment one module's generation runs in.
pub struct GeneratorEnv {
    pub config: ExportConfig,
    pub symbols: Vec<SymbolEntry>,
}

/// First symbol of that name, searched front to back.
pub open spec fn spec_lookup_symbol(syms: Seq<SymbolEntry>, name: Seq<u8>) -> Option<(u64, bool)>
    decreases syms.len(),
{
    if syms.len() == 0 {
        None
    } else if syms[0].name@ == name {
        Some((syms[0].key, syms[0].is_enum))
    } else {
        spec_lookup_symbol(syms.drop_first(), name)
    }
}

/// Whether the configuration explicitly excludes a declaration name.
pub open spec fn spec_is_excluded(excluded: Seq<Vec<u8>>, name: Seq<u8>) -> bool {
    exists|i: int| 0 <= i < excluded.len() && (#[trigger] excluded[i])@ == name
}

/// The manual rename for a name, if the table has one (first match wins).
pub open spec fn spec_rename_of(renames: Seq<(Vec<u8>, Vec<u8>)>, name: Seq<u8>) -> Option<Seq<u8>>
    decreases renames.len(),
{
    if renames.len() == 0 {
        None
    } else if renames[0].0@ == name {
        Some(renames[0].1@)
    } else {
        spec_rename_of(renames.drop_first(), name)
    }
}

impl GeneratorEnv {
    /// Looks a class or enum up by name; the answer carries its identity
    /// key and whether it is an enum.
    pub fn lookup_symbol(&self, name: &[u8]) -> (r: Option<(u64, bool)>)
        ensures
            r == spec_lookup_symbol(self.symbols@, name@),
    {
        let ghost all = self.symbols@;
        let n = self.symbols.len();
        let mut i: usize = 0;
        proof {
            assert(all.skip(0) =~= all);
        }
        while i < n
            invariant
                0 <= i <= n,
                n == all.len(),
                all == self.symbols@,
                spec_lookup_symbol(all, name@) == spec_lookup_symbol(all.skip(i as int), name@),
            decreases n - i,
        {
            proof {
                assert(all.skip(i as int)[0] == all[i as int]);
                assert(all.skip(i as int).drop_first() =~= all.skip(i as int + 1));
            }
            if bytes_eq(self.symbols[i].name.as_slice(), name) {
                return Some((self.symbols[i].key, self.symbols[i].is_enum));
            }
            i += 1;
        }
        proof {
            assert(all.skip(n as int).len() == 0);
        }
        None
    }

    /// Whether the module's configuration excludes this declaration.
    pub fn is_excluded(&self, name: &[u8]) -> (r: bool)
        ensures
            r == spec_is_excluded(self.config.excluded@, name@),
    {
        let n = self.config.excluded.len();
        let mut i: usize = 0;
        while i < n
            invariant
                0 <= i <= n,
                n == self.config.excluded@.len(),
                forall|j: int| 0 <= j < i ==> (#[trigger] self.config.excluded@[j])@ != name@,
            decreases n - i,
        {
            if bytes_eq(self.config.excluded[i].as_slice(), name) {
                return true;
            }
            i += 1;
        }
        false
    }

    /// The name a declaration is emitted under: its manual rename if the
    /// table has one, else its own name.
    pub fn effective_name(&self, name: &[u8]) -> (r: Vec<u8>)
        ensures
            r@ == match spec_rename_of(self.config.renames@, name@) {
                Some(t) => t,
                None => name@,
            },
    {
        let ghost all = self.config.renames@;
        let n = self.config.renames.len();
        let mut i: usize = 0;
        proof {
            assert(all.skip(0) =~= all);
        }
        while i < n
            invariant
                0 <= i <= n,
                n == all.len(),
                all == self.config.renames@,
                spec_rename_of(all, name@) == spec_rename_of(all.skip(i as int), name@),
            decreases n - i,
        {
            proof {
                assert(all.skip(i as int)[0] == all[i as int]);
                assert(all.skip(i as int).drop_first() =~= all.skip(i as int + 1));
            }
            if bytes_eq(self.config.renames[i].0.as_slice(), name) {
                return crate::bytes_from_slice(self.config.renames[i].1.as_slice());
            }
            i += 1;
        }
        proof {
            assert(all.skip(n as int).len() == 0);
        }
        crate::bytes_from_slice(name)
    }
}

} // verus!

//! The assembler's symbol table: function labels and their addresses.

use vstd::prelude::*;

use crate::text::str_eq;

verus! {

/// A function's label and the address its body starts at.
pub struct Function {
    pub label: String,
    pub address: u8,
}

impl Function {
    pub fn new(label: String, address: u8) -> (f: Self)
        ensures
            f.label == label,
            f.address == address,
    {
        Self { label, address }
    }
}

/// Address of the first entry whose label reads `t`, scanning in order.
pub open spec fn lookup_spec(entries: Seq<(Seq<char>, u8)>, t: Seq<char>) -> Option<u8>
    decreases entries.len(),
{
    if entries.len() == 0 {
        None
    } else if entries[0].0 == t {
        Some(entries[0].1)
    } else {
        lookup_spec(entries.drop_first(), t)
    }
}

/// The symbol table: labels in the order they were declared.
pub struct SymTab {
    pub table: Vec<Function>,
}

impl SymTab {
    /// The table's contents: each entry's label and address, in order.
    pub open spec fn entries(&self) -> Seq<(Seq<char>, u8)> {
        self.table@.map_values(|f: Function| (f.label@, f.address))
    }

    /// An empty table.
    pub fn new() -> (r: Self)
        ensures
            r.entries() == Seq::<(Seq<char>, u8)>::empty(),
    {
        let r = Self { table: Vec::with_capacity(10) };
        proof {
            assert(r.entries() =~= Seq::<(Seq<char>, u8)>::empty());
        }
        r
    }

    /// Finds the address filed under `target`: the first entry with that
    /// label, or an error when no entry carries it.
    pub fn symtab_lookup(&self, target: &str) -> (r: Result<u8, &'static str>)
        ensures
            match lookup_spec(self.entries(), target@) {
                Some(a) => r == Ok::<u8, &'static str>(a),
                None => r is Err,
            },
    {
        let ghost es = self.entries();
        proof {
            assert(es.skip(0) =~= es);
        }
        let mut i: usize = 0;
        while i < self.table.len()
            invariant
                i <= self.table@.len(),
                es == self.entries(),
                es.len() == self.table@.len(),
                lookup_spec(es.skip(i as int), target@) == lookup_spec(es, target@),
            decreases self.table@.len() - i,
        {
            if str_eq(self.table[i].label.as_str(), target) {
                proof {
                    assert(es.skip(i as int)[0] == es[i as int]);
                }
                return Ok(self.table[i].address);
            }
            proof {
                assert(es.skip(i as int).drop_first() =~= es.skip(i + 1));
            }
            i += 1;
        }
        proof {
            assert(es.skip(i as int) =~= Seq::<(Seq<char>, u8)>::empty());
        }
        Err("Error: Could not find the target function.")
    }

    /// Adds a function to the table; a label declared twice is refused and
    /// leaves the table unchanged.
    pub fn symtab_insert(&mut self, f: Function) -> (r: Result<(), &'static str>)
        ensures
            r is Ok <==> lookup_spec(old(self).entries(), f.label@) is None,
            r is Err ==> *final(self) == *old(self),
            r is Ok ==> final(self).entries() == old(self).entries().push((f.label@, f.address)),
    {
        let ghost es = self.entries();
        proof {
            assert(es.skip(0) =~= es);
        }
        // Refuse a label that already exists.
        let mut i: usize = 0;
        while i < self.table.len()
            invariant
                i <= self.table@.len(),
                es == self.entries(),
                es.len() == self.table@.len(),
                lookup_spec(es.skip(i as int), f.label@) == lookup_spec(es, f.label@),
            decreases self.table@.len() - i,
        {
            if str_eq(self.table[i].label.as_str(), f.label.as_str()) {
                proof {
                    assert(es.skip(i as int)[0] == es[i as int]);
                }
                return Err("Error: Function declared twice.");
            }
            proof {
                assert(es.skip(i as int).drop_first() =~= es.skip(i + 1));
            }
            i += 1;
        }
        proof {
            assert(es.skip(i as int) =~= Seq::<(Seq<char>, u8)>::empty());
        }
        let ghost lab = f.label@;
        let ghost addr = f.address;
        self.table.push(f);
        proof {
            assert(self.entries() =~= es.push((lab, addr)));
        }
        Ok(())
    }
}

} // verus!

//! The modules of a program, and their symbols.

use vstd::prelude::*;
use vstd::string::*;

use crate::symbols::{SymbolMap, SymbolView};
use crate::text::{decimal, push_decimal};

verus! {

/// A block of code or data that is loaded along with the main module.
#[derive(Clone, Copy, Debug, PartialEq, Eq, Structural)]
pub enum AutoloadKind {
    /// Instruction TCM (Tightly Coupled Memory).
    Itcm,
    /// Data TCM (Tightly Coupled Memory).
    Dtcm,
    /// A block of unknown purpose.
    Unknown(u32),
}

#[derive(Clone, Copy, Debug, PartialEq, Eq, Structural)]
pub enum ModuleKind {
    /// The main module.
    Arm9,
    Overlay(u16),
    Autoload(AutoloadKind),
}

impl ModuleKind {
    /// What a module is called.
    pub open spec fn spec_name(self) -> Seq<char> {
        match self {
            ModuleKind::Arm9 => "ARM9 main"@,
            ModuleKind::Overlay(id) => "overlay "@ + decimal(id as nat),
            ModuleKind::Autoload(AutoloadKind::Itcm) => "autoload ITCM"@,
            ModuleKind::Autoload(AutoloadKind::Dtcm) => "autoload DTCM"@,
            ModuleKind::Autoload(AutoloadKind::Unknown(index)) => "autoload Unknown("@ + decimal(
                index as nat,
            ) + ")"@,
        }
    }

    pub fn name(self) -> (res: String)
        ensures
            res@ == self.spec_name(),
    {
        let mut res = String::new();
        match self {
            ModuleKind::Arm9 => {
                res.append("ARM9 main");
            },
            ModuleKind::Overlay(id) => {
                res.append("overlay ");
                push_decimal(&mut res, id as u32);
            },
            ModuleKind::Autoload(AutoloadKind::Itcm) => {
                res.append("autoload ITCM");
            },
            ModuleKind::Autoload(AutoloadKind::Dtcm) => {
                res.append("autoload DTCM");
            },
            ModuleKind::Autoload(AutoloadKind::Unknown(index)) => {
                res.append("autoload Unknown(");
                push_decimal(&mut res, index);
                res.append(")");
            },
        }
        assert(res@ =~= self.spec_name());
        res
    }
}

/// The symbols of one module.
#[derive(Debug)]
pub struct ModuleSymbols {
    pub module: ModuleKind,
    pub symbols: SymbolMap,
}

/// The symbols of all modules.
#[derive(Debug)]
pub struct SymbolMaps {
    pub maps: Vec<ModuleSymbols>,
}

/// The symbols of the first of `maps` that is for `module`; none, if there is no
/// such map.
pub open spec fn symbols_in(maps: Seq<ModuleSymbols>, module: ModuleKind) -> Seq<SymbolView>
    decreases maps.len(),
{
    if maps.len() == 0 {
        seq![]
    } else if maps[0].module == module {
        maps[0].symbols@
    } else {
        symbols_in(maps.drop_first(), module)
    }
}

/// Whether the map at place `i` is the first that is for `module`.
pub open spec fn is_first(maps: Seq<ModuleSymbols>, module: ModuleKind, i: int) -> bool {
    &&& 0 <= i < maps.len()
    &&& maps[i].module == module
    &&& forall|j: int| 0 <= j < i ==> (#[trigger] maps[j]).module != module
}

proof fn lemma_symbols_in_first(maps: Seq<ModuleSymbols>, module: ModuleKind, i: int)
    requires
        is_first(maps, module, i),
    ensures
        symbols_in(maps, module) == maps[i].symbols@,
    decreases i,
{
    if i > 0 {
        assert(maps[0].module != module);
        assert forall|j: int| 0 <= j < i - 1 implies (#[trigger] maps.drop_first()[j]).module
            != module by {
            assert(maps[j + 1].module != module);
        }
        lemma_symbols_in_first(maps.drop_first(), module, i - 1);
    }
}

proof fn lemma_symbols_in_others(
    before: Seq<ModuleSymbols>,
    after: Seq<ModuleSymbols>,
    i: int,
    module: ModuleKind,
)
    requires
        before.len() == after.len(),
        0 <= i < before.len(),
        before[i].module != module,
        after[i].module != module,
        forall|j: int| 0 <= j < before.len() && j != i ==> before[j] == after[j],
    ensures
        symbols_in(before, module) == symbols_in(after, module),
    decreases before.len(),
{
    if i == 0 {
        assert(before.drop_first() =~= after.drop_first());
    } else {
        assert(before[0] == after[0]);
        lemma_symbols_in_others(before.drop_first(), after.drop_first(), i - 1, module);
    }
}

/// To change the first map that is for a module is to change the symbols of that
/// module, and of no other.
pub proof fn lemma_symbols_in_update(
    before: Seq<ModuleSymbols>,
    after: Seq<ModuleSymbols>,
    i: int,
    module: ModuleKind,
)
    requires
        is_first(before, module, i),
        before.len() == after.len(),
        after[i].module == module,
        forall|j: int| 0 <= j < before.len() && j != i ==> before[j] == after[j],
    ensures
        symbols_in(before, module) == before[i].symbols@,
        symbols_in(after, module) == after[i].symbols@,
        forall|other: ModuleKind|
            other != module ==> #[trigger] symbols_in(after, other) == symbols_in(before, other),
{
    lemma_symbols_in_first(before, module, i);
    assert(is_first(after, module, i)) by {
        assert forall|j: int| 0 <= j < i implies (#[trigger] after[j]).module != module by {
            assert(before[j] == after[j]);
        }
    }
    lemma_symbols_in_first(after, module, i);
    assert forall|other: ModuleKind| other != module implies #[trigger] symbols_in(after, other)
        == symbols_in(before, other) by {
        lemma_symbols_in_others(before, after, i, other);
    }
}

proof fn lemma_symbols_in_push(maps: Seq<ModuleSymbols>, map: ModuleSymbols, module: ModuleKind)
    requires
        map.symbols@ == Seq::<SymbolView>::empty(),
    ensures
        symbols_in(maps.push(map), module) == symbols_in(maps, module),
    decreases maps.len(),
{
    if maps.len() > 0 {
        assert(maps.push(map)[0] == maps[0]);
        assert(maps.push(map).drop_first() =~= maps.drop_first().push(map));
        lemma_symbols_in_push(maps.drop_first(), map, module);
    } else {
        assert(maps.push(map)[0] == map);
        assert(symbols_in(maps.push(map).drop_first(), module) =~= seq![]);
        assert(symbols_in(maps.push(map), module) =~= seq![]);
    }
}

impl SymbolMaps {
    /// The symbols of a module.
    pub open spec fn symbols_of(&self, module: ModuleKind) -> Seq<SymbolView> {
        symbols_in(self.maps@, module)
    }

    /// The place of the symbol map of a module, which is made if there is none.
    pub fn place_of(&mut self, module: ModuleKind) -> (res: usize)
        ensures
            is_first(final(self).maps@, module, res as int),
            forall|any: ModuleKind| #[trigger]
                final(self).symbols_of(any) == old(self).symbols_of(any),
    {
        let mut i: usize = 0;
        while i < self.maps.len()
            invariant
                i <= self.maps.len(),
                self.maps@ == old(self).maps@,
                forall|j: int| 0 <= j < i ==> (#[trigger] self.maps@[j]).module != module,
            decreases self.maps.len() - i,
        {
            if self.maps[i].module == module {
                return i;
            }
            i += 1;
        }
        let made = ModuleSymbols { module, symbols: SymbolMap::new() };
        self.maps.push(made);
        proof {
            assert forall|any: ModuleKind| #[trigger] self.symbols_of(any) == old(self).symbols_of(
                any,
            ) by {
                lemma_symbols_in_push(old(self).maps@, made, any);
            }
        }
        i
    }
}

/// A program, as far as its symbols go.
#[derive(Debug)]
pub struct Program {
    pub symbol_maps: SymbolMaps,
}

} // verus!

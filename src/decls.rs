use vstd::prelude::*;

verus! {

/// The names declared for one kind of entity; a name's item reference is
/// its position.
#[derive(Debug)]
pub struct SymbolManager {
    pub names: Vec<String>,
}

pub open spec fn names_view(names: Seq<String>) -> Seq<Seq<char>> {
    names.map_values(|s: String| s@)
}

pub open spec fn unique_names(names: Seq<Seq<char>>) -> bool {
    forall|a: int, b: int| 0 <= a < b < names.len() ==> names[a] != names[b]
}

impl SymbolManager {
    pub open spec fn view(&self) -> Seq<Seq<char>> {
        names_view(self.names@)
    }

    pub fn new() -> (r: SymbolManager)
        ensures
            r.view() == Seq::<Seq<char>>::empty(),
    {
        let r = SymbolManager { names: Vec::new() };
        assert(r.view() =~= Seq::<Seq<char>>::empty());
        r
    }

    /// The item reference of `name`, if it is declared.
    pub fn get(&self, name: &String) -> (r: Option<usize>)
        ensures
            r matches Some(k) ==> k < self.view().len() && self.view()[k as int] == name@,
            r is None ==> forall|k: int| 0 <= k < self.view().len() ==> self.view()[k] != name@,
    {
        let mut k: usize = 0;
        while k < self.names.len()
            invariant
                k <= self.names@.len(),
                forall|j: int| 0 <= j < k ==> self.view()[j] != name@,
            decreases self.names@.len() - k,
        {
            if self.names[k] == *name {
                return Some(k);
            }
            k += 1;
        }
        None
    }

    /// Declares `name` with the next item reference; a name that is already
    /// declared is refused and the manager is left as it was.
    pub fn declare(&mut self, name: String) -> (r: Option<usize>)
        ensures
            r matches Some(k) ==> {
                &&& k == old(self).view().len()
                &&& final(self).view() == old(self).view().push(name@)
                &&& forall|j: int| 0 <= j < old(self).view().len() ==> old(self).view()[j] != name@
            },
            r is None ==> {
                &&& final(self).view() == old(self).view()
                &&& exists|j: int| 0 <= j < old(self).view().len() && old(self).view()[j] == name@
            },
    {
        match self.get(&name) {
            Some(_) => None,
            None => {
                let k = self.names.len();
                let ghost before = self.names@;
                self.names.push(name);
                assert(names_view(self.names@) =~= names_view(before).push(name@));
                Some(k)
            },
        }
    }
}

#[derive(Debug, Copy, Clone, PartialEq, Eq, Structural)]
pub enum DeclKind {
    Bankdef,
    Ruledef,
    Symbol,
}

/// A top-level declaration of the program: the kind of entity and its name.
#[derive(Debug)]
pub struct Declaration {
    pub kind: DeclKind,
    pub name: String,
}

/// The declared names of a program, one namespace per kind of entity.
#[derive(Debug)]
pub struct ItemDecls {
    pub bankdefs: SymbolManager,
    pub ruledefs: SymbolManager,
    pub symbols: SymbolManager,
}

#[derive(Debug, Copy, Clone, PartialEq, Eq, Structural)]
pub enum DeclError {
    /// The declaration at `index` reuses a name of its kind.
    Duplicate { index: usize },
}

impl ItemDecls {
    pub open spec fn namespace(&self, kind: DeclKind) -> Seq<Seq<char>> {
        match kind {
            DeclKind::Bankdef => self.bankdefs.view(),
            DeclKind::Ruledef => self.ruledefs.view(),
            DeclKind::Symbol => self.symbols.view(),
        }
    }
}

/// The names of the declarations of `kind` among the first `n`, in order.
pub open spec fn names_of(decls: Seq<Declaration>, kind: DeclKind, n: int) -> Seq<Seq<char>>
    decreases n,
{
    if n <= 0 || n > decls.len() {
        Seq::empty()
    } else if decls[n - 1].kind == kind {
        names_of(decls, kind, n - 1).push(decls[n - 1].name@)
    } else {
        names_of(decls, kind, n - 1)
    }
}

/// Whether declaration `j` reuses the name of an earlier declaration of its
/// kind.
pub open spec fn is_duplicate(decls: Seq<Declaration>, j: int) -> bool {
    names_of(decls, decls[j].kind, j).contains(decls[j].name@)
}

/// Gathers the declarations into one namespace per kind, in declaration
/// order; the first declaration that reuses a name of its kind is an error.
pub fn collect(decls: &[Declaration]) -> (r: Result<ItemDecls, DeclError>)
    ensures
        r matches Ok(d) ==> {
            &&& forall|j: int| 0 <= j < decls@.len() ==> !#[trigger] is_duplicate(decls@, j)
            &&& d.bankdefs.view() == names_of(decls@, DeclKind::Bankdef, decls@.len() as int)
            &&& d.ruledefs.view() == names_of(decls@, DeclKind::Ruledef, decls@.len() as int)
            &&& d.symbols.view() == names_of(decls@, DeclKind::Symbol, decls@.len() as int)
        },
        r matches Err(DeclError::Duplicate { index }) ==> {
            &&& index < decls@.len()
            &&& is_duplicate(decls@, index as int)
            &&& forall|j: int| 0 <= j < index ==> !#[trigger] is_duplicate(decls@, j)
        },
{
    let mut d = ItemDecls {
        bankdefs: SymbolManager::new(),
        ruledefs: SymbolManager::new(),
        symbols: SymbolManager::new(),
    };
    let mut i: usize = 0;
    while i < decls.len()
        invariant
            i <= decls@.len(),
            forall|j: int| 0 <= j < i ==> !#[trigger] is_duplicate(decls@, j),
            d.bankdefs.view() == names_of(decls@, DeclKind::Bankdef, i as int),
            d.ruledefs.view() == names_of(decls@, DeclKind::Ruledef, i as int),
            d.symbols.view() == names_of(decls@, DeclKind::Symbol, i as int),
        decreases decls@.len() - i,
    {
        let decl = &decls[i];
        let name = decl.name.clone();
        let declared = match decl.kind {
            DeclKind::Bankdef => d.bankdefs.declare(name),
            DeclKind::Ruledef => d.ruledefs.declare(name),
            DeclKind::Symbol => d.symbols.declare(name),
        };
        if declared.is_none() {
            return Err(DeclError::Duplicate { index: i });
        }
        i += 1;
    }
    Ok(d)
}

} // verus!

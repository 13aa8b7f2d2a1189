use vstd::prelude::*;

verus! {

/// The layout of one addressable memory region. `size` is its capacity in
/// bits, when it has one.
#[derive(Debug, Copy, Clone, PartialEq, Eq, Structural)]
pub struct Bankdef {
    pub item_ref: usize,
    pub addr_unit: usize,
    pub label_align: Option<usize>,
    pub addr_start: i128,
    pub size: Option<usize>,
    pub output_offset: Option<usize>,
    pub fill: bool,
}

/// A bank declaration whose fields have been evaluated; `None` is a field
/// that the declaration leaves out.
#[derive(Debug, Copy, Clone, PartialEq, Eq, Structural)]
pub struct BankdefDecl {
    pub item_ref: usize,
    pub addr_unit: Option<usize>,
    pub label_align: Option<usize>,
    pub addr_start: Option<i128>,
    pub addr_size: Option<usize>,
    pub addr_end: Option<i128>,
    pub output_offset: Option<usize>,
    pub fill: bool,
}

#[derive(Debug, Copy, Clone, PartialEq, Eq, Structural)]
pub enum BankdefError {
    /// Both `addr_end` and `size` are given.
    BothEndAndSize { item_ref: usize },
    /// `addr_end - addr_start` is negative or does not fit a `usize`.
    EndOutOfRange { item_ref: usize },
    /// The size in bits does not fit a `usize`.
    SizeOverflow { item_ref: usize },
}

/// The bank that always exists: byte-addressed, from address zero, written
/// at the start of the output, unbounded.
pub open spec fn spec_initial_bankdef() -> Bankdef {
    Bankdef {
        item_ref: 0,
        addr_unit: 8,
        label_align: None,
        addr_start: 0,
        size: None,
        output_offset: Some(0),
        fill: false,
    }
}

/// The size of a declared bank in address units, from `size` or from
/// `addr_end - addr_start`.
pub open spec fn spec_addr_size(d: BankdefDecl) -> Result<Option<int>, BankdefError> {
    let start: int = match d.addr_start {
        Some(s) => s as int,
        None => 0,
    };
    match (d.addr_size, d.addr_end) {
        (None, None) => Ok(None),
        (Some(s), None) => Ok(Some(s as int)),
        (None, Some(e)) => if 0 <= e - start <= usize::MAX {
            Ok(Some(e - start))
        } else {
            Err(BankdefError::EndOutOfRange { item_ref: d.item_ref })
        },
        (Some(_), Some(_)) => Err(BankdefError::BothEndAndSize { item_ref: d.item_ref }),
    }
}

pub open spec fn spec_bankdef(d: BankdefDecl) -> Result<Bankdef, BankdefError> {
    let unit: int = match d.addr_unit {
        Some(u) => u as int,
        None => 8,
    };
    match spec_addr_size(d) {
        Err(e) => Err(e),
        Ok(sz) => if sz matches Some(s) && s * unit > usize::MAX {
            Err(BankdefError::SizeOverflow { item_ref: d.item_ref })
        } else {
            Ok(
                Bankdef {
                    item_ref: d.item_ref,
                    addr_unit: unit as usize,
                    label_align: d.label_align,
                    addr_start: match d.addr_start {
                        Some(s) => s,
                        None => 0,
                    },
                    size: match sz {
                        Some(s) => Some((s * unit) as usize),
                        None => None,
                    },
                    output_offset: d.output_offset,
                    fill: d.fill,
                },
            )
        },
    }
}

pub fn initial_bankdef() -> (r: Bankdef)
    ensures
        r == spec_initial_bankdef(),
{
    Bankdef {
        item_ref: 0,
        addr_unit: 8,
        label_align: None,
        addr_start: 0,
        size: None,
        output_offset: Some(0),
        fill: false,
    }
}

/// Builds the layout of one declared bank.
pub fn define_one(d: &BankdefDecl) -> (r: Result<Bankdef, BankdefError>)
    ensures
        r == spec_bankdef(*d),
{
    let addr_unit: usize = match d.addr_unit {
        None => 8,
        Some(u) => u,
    };
    let addr_start: i128 = match d.addr_start {
        None => 0,
        Some(s) => s,
    };
    let addr_size: Option<usize> = match (d.addr_size, d.addr_end) {
        (None, None) => None,
        (Some(size), None) => Some(size),
        (None, Some(end)) => {
            match end.checked_sub(addr_start) {
                Some(diff) => {
                    if diff < 0 || diff > usize::MAX as i128 {
                        return Err(BankdefError::EndOutOfRange { item_ref: d.item_ref });
                    }
                    Some(diff as usize)
                },
                None => {
                    return Err(BankdefError::EndOutOfRange { item_ref: d.item_ref });
                },
            }
        },
        (Some(_), Some(_)) => {
            return Err(BankdefError::BothEndAndSize { item_ref: d.item_ref });
        },
    };
    let size: Option<usize> = match addr_size {
        None => None,
        Some(s) => match s.checked_mul(addr_unit) {
            Some(bits) => Some(bits),
            None => {
                return Err(BankdefError::SizeOverflow { item_ref: d.item_ref });
            },
        },
    };
    Ok(
        Bankdef {
            item_ref: d.item_ref,
            addr_unit,
            label_align: d.label_align,
            addr_start,
            size,
            output_offset: d.output_offset,
            fill: d.fill,
        },
    )
}

/// The bank layouts of a program: the initial bank first, then one for each
/// declaration in order; or the error of the first declaration that has one.
pub fn define(decls: &[BankdefDecl]) -> (r: Result<Vec<Bankdef>, BankdefError>)
    ensures
        r is Ok <==> forall|i: int| 0 <= i < decls@.len() ==> (#[trigger] spec_bankdef(decls@[i])) is Ok,
        r matches Ok(v) ==> {
            &&& v@.len() == decls@.len() + 1
            &&& v@[0] == spec_initial_bankdef()
            &&& forall|i: int|
                0 <= i < decls@.len() ==> Ok::<Bankdef, BankdefError>(#[trigger] v@[i + 1]) == spec_bankdef(decls@[i])
        },
        r matches Err(e) ==> exists|j: int|
            0 <= j < decls@.len() && spec_bankdef(decls@[j]) == Err::<Bankdef, BankdefError>(e)
                && forall|i: int| 0 <= i < j ==> (#[trigger] spec_bankdef(decls@[i])) is Ok,
{
    let mut defs: Vec<Bankdef> = Vec::new();
    defs.push(initial_bankdef());
    let mut i: usize = 0;
    while i < decls.len()
        invariant
            i <= decls@.len(),
            defs@.len() == i + 1,
            defs@[0] == spec_initial_bankdef(),
            forall|k: int| 0 <= k < i ==> Ok::<Bankdef, BankdefError>(#[trigger] defs@[k + 1]) == spec_bankdef(decls@[k]),
        decreases decls@.len() - i,
    {
        match define_one(&decls[i]) {
            Ok(b) => {
                defs.push(b);
            },
            Err(e) => {
                proof {
                    assert forall|k: int| 0 <= k < i implies (#[trigger] spec_bankdef(decls@[k])) is Ok by {
                        assert(Ok::<Bankdef, BankdefError>(defs@[k + 1]) == spec_bankdef(decls@[k]));
                    }
                }
                return Err(e);
            },
        }
        i += 1;
    }
    proof {
        assert forall|k: int| 0 <= k < decls@.len() implies (#[trigger] spec_bankdef(decls@[k])) is Ok by {
            assert(Ok::<Bankdef, BankdefError>(defs@[k + 1]) == spec_bankdef(decls@[k]));
        }
    }
    Ok(defs)
}

} // verus!

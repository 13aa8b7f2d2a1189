use vstd::prelude::*;
use crate::output::{spec_units, units_of};

verus! {

/// An argument or size expression over the program's symbols.
#[derive(Debug)]
pub enum Expr {
    Literal(i128),
    Symbol(usize),
    Add(Box<Expr>, Box<Expr>),
    Sub(Box<Expr>, Box<Expr>),
}

/// What is known of a symbol's value.
#[derive(Debug, Copy, Clone, PartialEq, Eq, Structural)]
pub enum ResolutionState {
    Unresolved,
    Resolved(i128),
}

/// The outcome of evaluating an expression with what is known so far: a
/// value, "not yet known", or a genuine error.
#[derive(Debug, Copy, Clone, PartialEq, Eq, Structural)]
pub enum Eval {
    Resolved(i128),
    Deferred,
    Failed,
}

pub open spec fn combine(a: Eval, b: Eval, v: int) -> Eval {
    if a is Failed || b is Failed {
        Eval::Failed
    } else if a is Deferred || b is Deferred {
        Eval::Deferred
    } else if i128::MIN <= v <= i128::MAX {
        Eval::Resolved(v as i128)
    } else {
        Eval::Failed
    }
}

pub open spec fn eval_value(e: Eval) -> int {
    match e {
        Eval::Resolved(v) => v as int,
        _ => 0,
    }
}

pub open spec fn spec_eval(e: Expr, syms: Seq<ResolutionState>) -> Eval
    decreases e,
{
    match e {
        Expr::Literal(v) => Eval::Resolved(v),
        Expr::Symbol(i) => if i < syms.len() {
            match syms[i as int] {
                ResolutionState::Unresolved => Eval::Deferred,
                ResolutionState::Resolved(v) => Eval::Resolved(v),
            }
        } else {
            Eval::Failed
        },
        Expr::Add(a, b) => {
            let x = spec_eval(*a, syms);
            let y = spec_eval(*b, syms);
            combine(x, y, eval_value(x) + eval_value(y))
        },
        Expr::Sub(a, b) => {
            let x = spec_eval(*a, syms);
            let y = spec_eval(*b, syms);
            combine(x, y, eval_value(x) - eval_value(y))
        },
    }
}

/// Evaluates `e`, looking symbols up in `syms`; a symbol outside `syms` is an
/// error, an unresolved one defers, and overflow is an error.
pub fn eval(e: &Expr, syms: &Vec<ResolutionState>) -> (r: Eval)
    ensures
        r == spec_eval(*e, syms@),
    decreases e,
{
    match e {
        Expr::Literal(v) => Eval::Resolved(*v),
        Expr::Symbol(i) => {
            if *i < syms.len() {
                match syms[*i] {
                    ResolutionState::Unresolved => Eval::Deferred,
                    ResolutionState::Resolved(v) => Eval::Resolved(v),
                }
            } else {
                Eval::Failed
            }
        },
        Expr::Add(a, b) => {
            let x = eval(a, syms);
            let y = eval(b, syms);
            match (x, y) {
                (Eval::Failed, _) | (_, Eval::Failed) => Eval::Failed,
                (Eval::Deferred, _) | (_, Eval::Deferred) => Eval::Deferred,
                (Eval::Resolved(p), Eval::Resolved(q)) => match p.checked_add(q) {
                    Some(v) => Eval::Resolved(v),
                    None => Eval::Failed,
                },
            }
        },
        Expr::Sub(a, b) => {
            let x = eval(a, syms);
            let y = eval(b, syms);
            match (x, y) {
                (Eval::Failed, _) | (_, Eval::Failed) => Eval::Failed,
                (Eval::Deferred, _) | (_, Eval::Deferred) => Eval::Deferred,
                (Eval::Resolved(p), Eval::Resolved(q)) => match p.checked_sub(q) {
                    Some(v) => Eval::Resolved(v),
                    None => Eval::Failed,
                },
            }
        },
    }
}

pub open spec fn two_pow(n: nat) -> int
    decreases n,
{
    if n == 0 {
        1
    } else {
        2 * two_pow((n - 1) as nat)
    }
}

proof fn lemma_two_pow_bound(n: nat)
    requires
        n <= 64,
    ensures
        1 <= two_pow(n) <= two_pow(64),
        two_pow(64) == 0x1_0000_0000_0000_0000,
    decreases 64 - n,
{
    if n < 64 {
        lemma_two_pow_bound(n + 1);
    }
    reveal_with_fuel(two_pow, 65);
    assert(two_pow(64) == 0x1_0000_0000_0000_0000);
}

pub proof fn lemma_two_pow_le_64(n: nat)
    requires
        n <= 64,
    ensures
        1 <= two_pow(n) <= 0x1_0000_0000_0000_0000,
{
    lemma_two_pow_bound(n);
}

/// Whether `v` can be written in `width` bits, as a two's-complement number
/// when `signed`.
pub open spec fn spec_fits(v: int, width: nat, signed: bool) -> bool {
    if signed {
        width > 0 && -two_pow((width - 1) as nat) <= v < two_pow((width - 1) as nat)
    } else {
        0 <= v < two_pow(width)
    }
}

pub fn fits(v: i128, width: u32, signed: bool) -> (r: bool)
    requires
        width <= 64,
    ensures
        r == spec_fits(v as int, width as nat, signed),
{
    let n: u32 = if signed {
        if width == 0 {
            return false;
        }
        width - 1
    } else {
        width
    };
    let mut p: u128 = 1;
    let mut i: u32 = 0;
    while i < n
        invariant
            i <= n <= 64,
            p == two_pow(i as nat),
        decreases n - i,
    {
        proof {
            lemma_two_pow_bound((i + 1) as nat);
        }
        p = p * 2;
        i += 1;
    }
    proof {
        lemma_two_pow_bound(n as nat);
    }
    let bound = p as i128;
    if signed {
        -bound <= v as i128 && (v as i128) < bound
    } else {
        0 <= v as i128 && (v as i128) < bound
    }
}

/// One rule of a ruledef that matched an instruction's shape: the rule's
/// encoded size, the bound argument with its declared width and kind, and the
/// range `[min, max)` that the rule's asserts demand of it.
#[derive(Debug)]
pub struct Candidate {
    pub size_bits: usize,
    pub arg: Expr,
    pub width: u32,
    pub signed: bool,
    pub min: Option<i128>,
    pub max: Option<i128>,
}

pub open spec fn spec_asserts_hold(c: Candidate, v: int) -> bool {
    (c.min matches Some(lo) ==> lo <= v) && (c.max matches Some(hi) ==> v < hi)
}

/// What a candidate's argument tells with current knowledge.
#[derive(Debug, Copy, Clone, PartialEq, Eq, Structural)]
pub enum CandidateCheck {
    /// Not yet known.
    Keep,
    /// Known, fitting, and its asserts hold.
    Pass(i128),
    /// Known, and it does not fit or an assert is false.
    Prune,
    /// The argument cannot be evaluated.
    Fail,
}

pub open spec fn spec_check(c: Candidate, syms: Seq<ResolutionState>) -> CandidateCheck {
    match spec_eval(c.arg, syms) {
        Eval::Failed => CandidateCheck::Fail,
        Eval::Deferred => CandidateCheck::Keep,
        Eval::Resolved(v) => if spec_fits(v as int, c.width as nat, c.signed) && spec_asserts_hold(
            c,
            v as int,
        ) {
            CandidateCheck::Pass(v)
        } else {
            CandidateCheck::Prune
        },
    }
}

pub fn check_candidate(c: &Candidate, syms: &Vec<ResolutionState>) -> (r: CandidateCheck)
    requires
        c.width <= 64,
    ensures
        r == spec_check(*c, syms@),
{
    match eval(&c.arg, syms) {
        Eval::Failed => CandidateCheck::Fail,
        Eval::Deferred => CandidateCheck::Keep,
        Eval::Resolved(v) => {
            let lo_ok = match c.min {
                Some(lo) => lo <= v,
                None => true,
            };
            let hi_ok = match c.max {
                Some(hi) => v < hi,
                None => true,
            };
            if fits(v, c.width, c.signed) && lo_ok && hi_ok {
                CandidateCheck::Pass(v)
            } else {
                CandidateCheck::Prune
            }
        },
    }
}

/// A bit-width that does not hold the argument's known value always prunes
/// the candidate.
pub proof fn lemma_misfit_pruned(c: Candidate, syms: Seq<ResolutionState>, v: i128)
    requires
        spec_eval(c.arg, syms) == Eval::Resolved(v),
        !spec_fits(v as int, c.width as nat, c.signed),
    ensures
        spec_check(c, syms) == CandidateCheck::Prune,
{
}

#[derive(Debug, Copy, Clone, PartialEq, Eq, Structural)]
pub enum ResolveError {
    /// An expression cannot be evaluated (an unknown symbol, an overflow).
    EvalFailed { item: usize },
    /// No candidate of the instruction fits its arguments.
    NoMatch { item: usize },
    /// More than one candidate of the instruction fits its fully known
    /// arguments.
    Ambiguous { item: usize },
    /// A reservation of a negative size, or one whose bits overflow.
    BadSize { item: usize },
    /// An address left the range of the bank's addresses.
    AddressOverflow { item: usize },
    /// A symbol index outside the program's symbols.
    BadSymbol { item: usize },
    /// A candidate's parameter is wider than 64 bits.
    BadWidth { item: usize },
    /// The bank's address unit is zero bits.
    BadUnit,
    /// A symbol is given a value by a second item.
    DuplicateSymbol { item: usize },
    /// A full pass made no progress, or the pass limit was reached, with
    /// items still unresolved.
    Unresolved,
}

pub open spec fn survives(cands: Seq<Candidate>, alive: Seq<bool>, syms: Seq<ResolutionState>, k: int) -> bool {
    alive[k] && spec_check(cands[k], syms) != CandidateCheck::Prune
}

pub open spec fn any_fails(cands: Seq<Candidate>, alive: Seq<bool>, syms: Seq<ResolutionState>) -> bool {
    exists|k: int| 0 <= k < cands.len() && alive[k] && #[trigger] spec_check(cands[k], syms) == CandidateCheck::Fail
}

pub open spec fn no_survivor(cands: Seq<Candidate>, alive: Seq<bool>, syms: Seq<ResolutionState>) -> bool {
    forall|k: int| 0 <= k < cands.len() ==> !#[trigger] survives(cands, alive, syms, k)
}

/// At least two candidates survive, and every survivor is fully known and
/// passes: nothing that later passes learn can decide between them.
pub open spec fn ambiguous(cands: Seq<Candidate>, alive: Seq<bool>, syms: Seq<ResolutionState>) -> bool {
    &&& exists|k1: int, k2: int|
        0 <= k1 < k2 < cands.len() && #[trigger] survives(cands, alive, syms, k1) && #[trigger] survives(
            cands,
            alive,
            syms,
            k2,
        )
    &&& forall|k: int|
        0 <= k < cands.len() && #[trigger] survives(cands, alive, syms, k) ==> spec_check(cands[k], syms) is Pass
}

/// `k` is the one survivor.
pub open spec fn sole_survivor(cands: Seq<Candidate>, alive: Seq<bool>, syms: Seq<ResolutionState>, k: int) -> bool {
    0 <= k < cands.len() && survives(cands, alive, syms, k) && forall|j: int|
        0 <= j < cands.len() && j != k ==> !#[trigger] survives(cands, alive, syms, j)
}

/// All survivors have size `b`, and there is one.
pub open spec fn survivors_size(cands: Seq<Candidate>, alive: Seq<bool>, syms: Seq<ResolutionState>, b: usize) -> bool {
    &&& exists|k: int| 0 <= k < cands.len() && #[trigger] survives(cands, alive, syms, k)
    &&& forall|k: int| 0 <= k < cands.len() && #[trigger] survives(cands, alive, syms, k) ==> cands[k].size_bits == b
}

pub open spec fn candidates_wf(cands: Seq<Candidate>) -> bool {
    forall|k: int| 0 <= k < cands.len() ==> (#[trigger] cands[k]).width <= 64
}

/// The candidates still alive after a step.
pub open spec fn spec_alive_after(cands: Seq<Candidate>, alive: Seq<bool>, syms: Seq<ResolutionState>) -> Seq<bool> {
    Seq::new(alive.len(), |k: int| survives(cands, alive, syms, k))
}

pub open spec fn spec_pruned(cands: Seq<Candidate>, alive: Seq<bool>, syms: Seq<ResolutionState>) -> bool {
    exists|k: int| 0 <= k < alive.len() && alive[k] && !#[trigger] survives(cands, alive, syms, k)
}

pub open spec fn chosen_by(cands: Seq<Candidate>, alive: Seq<bool>, syms: Seq<ResolutionState>, kv: (usize, i128)) -> bool {
    sole_survivor(cands, alive, syms, kv.0 as int) && spec_check(cands[kv.0 as int], syms) == CandidateCheck::Pass(kv.1)
}

/// The sole survivor and its value, when it passes.
pub open spec fn spec_chosen(cands: Seq<Candidate>, alive: Seq<bool>, syms: Seq<ResolutionState>) -> Option<(usize, i128)> {
    if exists|kv: (usize, i128)| #[trigger] chosen_by(cands, alive, syms, kv) {
        Some(choose|kv: (usize, i128)| #[trigger] chosen_by(cands, alive, syms, kv))
    } else {
        None
    }
}

/// The size on which all survivors agree, if they do.
pub open spec fn spec_size_after(cands: Seq<Candidate>, alive: Seq<bool>, syms: Seq<ResolutionState>) -> Option<usize> {
    if exists|b: usize| #[trigger] survivors_size(cands, alive, syms, b) {
        Some(choose|b: usize| #[trigger] survivors_size(cands, alive, syms, b))
    } else {
        None
    }
}

proof fn lemma_step_unique(cands: Seq<Candidate>, alive: Seq<bool>, syms: Seq<ResolutionState>, o_chosen: Option<(usize, i128)>, o_size: Option<usize>)
    requires
        forall|k: usize, v: i128| o_chosen == Some((k, v)) <==> sole_survivor(cands, alive, syms, k as int)
            && spec_check(cands[k as int], syms) == CandidateCheck::Pass(v),
        forall|b: usize| o_size == Some(b) <==> survivors_size(cands, alive, syms, b),
    ensures
        o_chosen == spec_chosen(cands, alive, syms),
        o_size == spec_size_after(cands, alive, syms),
{
    if let Some((k, v)) = o_chosen {
        assert(chosen_by(cands, alive, syms, (k, v)));
        let kv = choose|kv: (usize, i128)| #[trigger] chosen_by(cands, alive, syms, kv);
        assert(o_chosen == Some((kv.0, kv.1)));
    } else {
        assert forall|kv: (usize, i128)| !#[trigger] chosen_by(cands, alive, syms, kv) by {
            assert(o_chosen != Some((kv.0, kv.1)));
        }
    }
    if let Some(b) = o_size {
        assert(survivors_size(cands, alive, syms, b));
        let c = choose|c: usize| #[trigger] survivors_size(cands, alive, syms, c);
        assert(o_size == Some(c));
    } else {
        assert forall|b: usize| !#[trigger] survivors_size(cands, alive, syms, b) by {
            assert(o_size != Some(b));
        }
    }
}

/// What one pass learns of an instruction.
#[derive(Debug)]
pub struct StepOutcome {
    pub pruned: bool,
    pub alive: Vec<bool>,
    pub chosen: Option<(usize, i128)>,
    pub size_bits: Option<usize>,
}

/// Checks every live candidate of instruction `item` with current
/// knowledge: a candidate whose argument is known and does not fit, or fails
/// an assert, is pruned; an error in an argument, no survivor, or several
/// survivors that all pass are errors; a sole survivor that passes is chosen;
/// and the size is known once all survivors agree on it.
pub fn step_instruction(item: usize, cands: &Vec<Candidate>, alive: &Vec<bool>, syms: &Vec<ResolutionState>) -> (r: Result<StepOutcome, ResolveError>)
    requires
        candidates_wf(cands@),
        alive@.len() == cands@.len(),
    ensures
        any_fails(cands@, alive@, syms@) <==> r == Err::<StepOutcome, ResolveError>(ResolveError::EvalFailed { item }),
        !any_fails(cands@, alive@, syms@) ==> {
            &&& no_survivor(cands@, alive@, syms@) <==> r == Err::<StepOutcome, ResolveError>(ResolveError::NoMatch { item })
            &&& !no_survivor(cands@, alive@, syms@) && ambiguous(cands@, alive@, syms@) <==> r == Err::<StepOutcome, ResolveError>(ResolveError::Ambiguous { item })
        },
        !any_fails(cands@, alive@, syms@) && !no_survivor(cands@, alive@, syms@) && !ambiguous(cands@, alive@, syms@) ==> r is Ok,
        r matches Ok(o) ==> {
            &&& o.alive@ == spec_alive_after(cands@, alive@, syms@)
            &&& o.chosen == spec_chosen(cands@, alive@, syms@)
            &&& o.size_bits == spec_size_after(cands@, alive@, syms@)
            &&& o.pruned == spec_pruned(cands@, alive@, syms@)
        },
        r matches Ok(o) ==> {
            &&& o.alive@.len() == alive@.len()
            &&& o.pruned == exists|k: int| 0 <= k < alive@.len() && alive@[k] && !#[trigger] survives(cands@, alive@, syms@, k)
            &&& forall|k: int| 0 <= k < alive@.len() ==> #[trigger] o.alive@[k] == survives(cands@, alive@, syms@, k)
            &&& forall|k: usize, v: i128| o.chosen == Some((k, v)) <==> sole_survivor(cands@, alive@, syms@, k as int)
                && spec_check(cands@[k as int], syms@) == CandidateCheck::Pass(v)
            &&& forall|b: usize| o.size_bits == Some(b) <==> survivors_size(cands@, alive@, syms@, b)
        },
{
    let mut out: Vec<bool> = Vec::new();
    let mut first: Option<(usize, CandidateCheck)> = None;
    let mut second: Option<usize> = None;
    let mut all_pass = true;
    let mut size_agree = true;
    let mut pruned = false;
    let mut k: usize = 0;
    while k < cands.len()
        invariant
            k <= cands@.len(),
            alive@.len() == cands@.len(),
            candidates_wf(cands@),
            out@.len() == k,
            forall|j: int| 0 <= j < k ==> #[trigger] out@[j] == survives(cands@, alive@, syms@, j),
            forall|j: int| 0 <= j < k ==> !(alive@[j] && #[trigger] spec_check(cands@[j], syms@) == CandidateCheck::Fail),
            first is None ==> forall|j: int| 0 <= j < k ==> !#[trigger] survives(cands@, alive@, syms@, j),
            first matches Some((f, c)) ==> {
                &&& f < k
                &&& survives(cands@, alive@, syms@, f as int)
                &&& c == spec_check(cands@[f as int], syms@)
                &&& forall|j: int| 0 <= j < f ==> !#[trigger] survives(cands@, alive@, syms@, j)
                &&& (second is None ==> forall|j: int| f < j < k ==> !#[trigger] survives(cands@, alive@, syms@, j))
                &&& (second matches Some(s) ==> f < s < k && survives(cands@, alive@, syms@, s as int))
                &&& size_agree == forall|j: int| 0 <= j < k && #[trigger] survives(cands@, alive@, syms@, j) ==> cands@[j].size_bits == cands@[f as int].size_bits
            },
            first is None ==> second is None && size_agree,
            pruned == exists|j: int| 0 <= j < k && alive@[j] && !#[trigger] survives(cands@, alive@, syms@, j),
            all_pass == forall|j: int| 0 <= j < k && #[trigger] survives(cands@, alive@, syms@, j) ==> spec_check(cands@[j], syms@) is Pass,
        decreases cands@.len() - k,
    {
        let mut keep = false;
        if alive[k] {
            let c = check_candidate(&cands[k], syms);
            match c {
                CandidateCheck::Fail => {
                    return Err(ResolveError::EvalFailed { item });
                },
                CandidateCheck::Prune => {
                    pruned = true;
                },
                _ => {
                    keep = true;
                    if let CandidateCheck::Keep = c {
                        all_pass = false;
                    }
                    match first {
                        None => {
                            first = Some((k, c));
                        },
                        Some((f, _)) => {
                            if second.is_none() {
                                second = Some(k);
                            }
                            if cands[k].size_bits != cands[f].size_bits {
                                size_agree = false;
                            }
                        },
                    }
                },
            }
        }
        proof {
            let kk = k as int;
            assert(survives(cands@, alive@, syms@, kk) == keep);
            assert(pruned == exists|j: int| 0 <= j < kk + 1 && alive@[j] && !#[trigger] survives(cands@, alive@, syms@, j));
            assert(keep ==> (spec_check(cands@[kk], syms@) is Pass || spec_check(cands@[kk], syms@) is Keep));
            assert(all_pass == forall|j: int| 0 <= j < kk + 1 && #[trigger] survives(cands@, alive@, syms@, j) ==> spec_check(cands@[j], syms@) is Pass);
            if let Some((f, _)) = first {
                assert(size_agree == forall|j: int| 0 <= j < kk + 1 && #[trigger] survives(cands@, alive@, syms@, j) ==> cands@[j].size_bits == cands@[f as int].size_bits);
            }
        }
        out.push(keep);
        k += 1;
    }
    match first {
        None => Err(ResolveError::NoMatch { item }),
        Some((f, c)) => {
            if second.is_some() && all_pass {
                return Err(ResolveError::Ambiguous { item });
            }
            let chosen = match (second, c) {
                (None, CandidateCheck::Pass(v)) => Some((f, v)),
                _ => None,
            };
            let size_bits = if size_agree {
                Some(cands[f].size_bits)
            } else {
                None
            };
            proof {
                lemma_step_unique(cands@, alive@, syms@, chosen, size_bits);
                assert(out@ =~= spec_alive_after(cands@, alive@, syms@));
            }
            Ok(StepOutcome { pruned, alive: out, chosen, size_bits })
        },
    }
}

/// A sole surviving candidate that passes is never reported ambiguous, and
/// two candidates that both pass with everything known are never settled by
/// their order: the step reports them ambiguous.
pub proof fn lemma_ambiguous_not_chosen(cands: Seq<Candidate>, alive: Seq<bool>, syms: Seq<ResolutionState>, k: int)
    requires
        ambiguous(cands, alive, syms),
    ensures
        !sole_survivor(cands, alive, syms, k),
{
    let (k1, k2) = choose|k1: int, k2: int|
        0 <= k1 < k2 < cands.len() && #[trigger] survives(cands, alive, syms, k1) && #[trigger] survives(
            cands,
            alive,
            syms,
            k2,
        );
    if sole_survivor(cands, alive, syms, k) {
        if k == k1 {
            assert(!survives(cands, alive, syms, k2));
        } else {
            assert(!survives(cands, alive, syms, k1));
        }
    }
}

/// One top-level item of a bank, in declaration order.
#[derive(Debug)]
pub enum Item {
    /// A label: its symbol takes the address at which it stands.
    Label { symbol: usize },
    /// A constant: its symbol takes the value of the expression.
    Constant { symbol: usize, value: Expr },
    /// An instruction with the candidates that matched its shape, in rule
    /// order.
    Instruction { candidates: Vec<Candidate> },
    /// A reservation of a number of address units.
    Res { units: Expr },
}

/// A bank's items, with the bank's address unit and start address, over
/// `n_symbols` symbols.
#[derive(Debug)]
pub struct Program {
    pub addr_unit: usize,
    pub addr_start: i128,
    pub n_symbols: usize,
    pub items: Vec<Item>,
}

/// What is known so far, item by item: its size in bits, its address, the
/// live candidates and the chosen one with its value.
#[derive(Debug)]
pub struct Resolution {
    pub symbols: Vec<ResolutionState>,
    pub sizes: Vec<Option<usize>>,
    pub addresses: Vec<Option<i128>>,
    pub alive: Vec<Vec<bool>>,
    pub chosen: Vec<Option<(usize, i128)>>,
}

/// The knowledge in a `Resolution`, as mathematical sequences.
pub struct ResModel {
    pub symbols: Seq<ResolutionState>,
    pub sizes: Seq<Option<usize>>,
    pub addresses: Seq<Option<i128>>,
    pub alive: Seq<Seq<bool>>,
    pub chosen: Seq<Option<(usize, i128)>>,
}

impl Resolution {
    pub open spec fn view(&self) -> ResModel {
        ResModel {
            symbols: self.symbols@,
            sizes: self.sizes@,
            addresses: self.addresses@,
            alive: self.alive@.map_values(|v: Vec<bool>| v@),
            chosen: self.chosen@,
        }
    }
}

/// Item `i` takes the address `cursor` if it has none.
pub open spec fn spec_settle(m: ResModel, i: int, cursor: Option<i128>) -> (ResModel, bool) {
    if m.addresses[i] is None && cursor is Some {
        (ResModel { addresses: m.addresses.update(i, cursor), ..m }, true)
    } else {
        (m, false)
    }
}

/// What the pass learns of item `i` besides its address, and whether it
/// learns anything.
pub open spec fn spec_item(p: Program, m: ResModel, i: int) -> Result<(ResModel, bool), ResolveError> {
    match p.items@[i] {
        Item::Label { symbol } => if m.symbols[symbol as int] is Unresolved && m.addresses[i] is Some {
            Ok((ResModel { symbols: m.symbols.update(symbol as int, ResolutionState::Resolved(m.addresses[i]->Some_0)), ..m }, true))
        } else {
            Ok((m, false))
        },
        Item::Constant { symbol, value } => if m.symbols[symbol as int] is Unresolved {
            match spec_eval(value, m.symbols) {
                Eval::Resolved(v) => Ok((ResModel { symbols: m.symbols.update(symbol as int, ResolutionState::Resolved(v)), ..m }, true)),
                Eval::Failed => Err(ResolveError::EvalFailed { item: i as usize }),
                Eval::Deferred => Ok((m, false)),
            }
        } else {
            Ok((m, false))
        },
        Item::Instruction { candidates } => if m.chosen[i] is None {
            let cs = candidates@;
            let al = m.alive[i];
            if any_fails(cs, al, m.symbols) {
                Err(ResolveError::EvalFailed { item: i as usize })
            } else if no_survivor(cs, al, m.symbols) {
                Err(ResolveError::NoMatch { item: i as usize })
            } else if ambiguous(cs, al, m.symbols) {
                Err(ResolveError::Ambiguous { item: i as usize })
            } else {
                let chosen = spec_chosen(cs, al, m.symbols);
                let size = spec_size_after(cs, al, m.symbols);
                let set_size = m.sizes[i] is None && size is Some;
                Ok((
                    ResModel {
                        alive: m.alive.update(i, spec_alive_after(cs, al, m.symbols)),
                        chosen: m.chosen.update(i, chosen),
                        sizes: if set_size { m.sizes.update(i, size) } else { m.sizes },
                        ..m
                    },
                    spec_pruned(cs, al, m.symbols) || chosen is Some || set_size,
                ))
            }
        } else {
            Ok((m, false))
        },
        Item::Res { units } => if m.sizes[i] is None {
            match spec_eval(units, m.symbols) {
                Eval::Resolved(v) => if v < 0 || v * p.addr_unit > usize::MAX {
                    Err(ResolveError::BadSize { item: i as usize })
                } else {
                    Ok((ResModel { sizes: m.sizes.update(i, Some((v * p.addr_unit) as usize)), ..m }, true))
                },
                Eval::Failed => Err(ResolveError::EvalFailed { item: i as usize }),
                Eval::Deferred => Ok((m, false)),
            }
        } else {
            Ok((m, false))
        },
    }
}

/// The address right after item `i`, where its address and size are known.
pub open spec fn spec_next_cursor(p: Program, m: ResModel, i: int) -> Result<Option<i128>, ResolveError> {
    if m.addresses[i] is Some && m.sizes[i] is Some {
        let next = m.addresses[i]->Some_0 + spec_units(m.sizes[i]->Some_0 as nat, p.addr_unit as nat);
        if next > i128::MAX {
            Err(ResolveError::AddressOverflow { item: i as usize })
        } else {
            Ok(Some(next as i128))
        }
    } else {
        Ok(None)
    }
}

/// The rest of a pass from item `i` on, with the address `cursor` and the
/// progress made so far.
pub open spec fn spec_pass_from(p: Program, m: ResModel, i: int, cursor: Option<i128>, progress: bool) -> Result<(ResModel, bool), ResolveError>
    decreases p.items@.len() - i,
{
    if i < 0 || i >= p.items@.len() {
        Ok((m, progress))
    } else {
        match spec_pass_item(p, m, i, cursor) {
            Err(e) => Err(e),
            Ok((m2, changed, next)) => spec_pass_from(p, m2, i + 1, next, progress || changed),
        }
    }
}

/// Item `i` within a pass: its address, what else is learned of it, and the
/// address right after it.
pub open spec fn spec_pass_item(p: Program, m: ResModel, i: int, cursor: Option<i128>) -> Result<(ResModel, bool, Option<i128>), ResolveError> {
    let (m1, c1) = spec_settle(m, i, cursor);
    match spec_item(p, m1, i) {
        Err(e) => Err(e),
        Ok((m2, c2)) => match spec_next_cursor(p, m2, i) {
            Err(e) => Err(e),
            Ok(next) => Ok((m2, c1 || c2, next)),
        },
    }
}

/// One pass over the items, from the bank's start address: the new
/// knowledge and whether anything was learned, or the first error met.
pub open spec fn spec_pass(p: Program, m: ResModel) -> Result<(ResModel, bool), ResolveError> {
    spec_pass_from(p, m, 0, Some(p.addr_start), false)
}

pub open spec fn item_wf(item: Item, n_symbols: nat) -> bool {
    match item {
        Item::Label { symbol } => symbol < n_symbols,
        Item::Constant { symbol, .. } => symbol < n_symbols,
        Item::Instruction { candidates } => candidates_wf(candidates@),
        Item::Res { .. } => true,
    }
}

pub open spec fn program_wf(p: Program) -> bool {
    &&& p.addr_unit > 0
    &&& forall|i: int| 0 <= i < p.items@.len() ==> item_wf(#[trigger] p.items@[i], p.n_symbols as nat)
    &&& unique_definitions(p)
}

/// The symbol that an item gives a value to, if any.
pub open spec fn defines(item: Item) -> Option<usize> {
    match item {
        Item::Label { symbol } => Some(symbol),
        Item::Constant { symbol, .. } => Some(symbol),
        _ => None,
    }
}

pub open spec fn defined_in_range(item: Item, n: usize) -> bool {
    defines(item) is Some ==> defines(item)->Some_0 < n
}

/// No symbol is given a value by two items.
pub open spec fn unique_definitions(p: Program) -> bool {
    forall|i: int, j: int|
        0 <= i < j < p.items@.len() && (#[trigger] defines(p.items@[i])) is Some ==> #[trigger] defines(p.items@[j]) != defines(p.items@[i])
}

/// Whether every item names a symbol below `n_symbols` and none is given a
/// value twice.
fn check_definitions(p: &Program) -> (r: Option<usize>)
    ensures
        r is None <==> (forall|i: int| 0 <= i < p.items@.len() ==> #[trigger] defined_in_range(p.items@[i], p.n_symbols)) && unique_definitions(*p),
{
    let mut seen: Vec<bool> = Vec::new();
    let mut s: usize = 0;
    while s < p.n_symbols
        invariant
            s <= p.n_symbols,
            seen@ == Seq::new(s as nat, |t: int| false),
        decreases p.n_symbols - s,
    {
        seen.push(false);
        s += 1;
        assert(seen@ =~= Seq::new(s as nat, |t: int| false));
    }
    let mut i: usize = 0;
    while i < p.items.len()
        invariant
            i <= p.items@.len(),
            seen@.len() == p.n_symbols,
            forall|j: int| 0 <= j < i ==> #[trigger] defined_in_range(p.items@[j], p.n_symbols),
            forall|t: int| 0 <= t < seen@.len() ==> (#[trigger] seen@[t] <==> exists|j: int| 0 <= j < i && #[trigger] defines(p.items@[j]) == Some(t as usize)),
            forall|a: int, b: int|
                0 <= a < b < i && (#[trigger] defines(p.items@[a])) is Some ==> #[trigger] defines(p.items@[b]) != defines(p.items@[a]),
        decreases p.items@.len() - i,
    {
        let d: Option<usize> = match &p.items[i] {
            Item::Label { symbol } => Some(*symbol),
            Item::Constant { symbol, .. } => Some(*symbol),
            _ => None,
        };
        assert(d == defines(p.items@[i as int]));
        if let Some(t) = d {
            if t >= p.n_symbols {
                assert(!defined_in_range(p.items@[i as int], p.n_symbols));
                return Some(i);
            }
            if seen[t] {
                proof {
                    let j = choose|j: int| 0 <= j < i && #[trigger] defines(p.items@[j]) == Some(t);
                    assert(defines(p.items@[j]) is Some && defines(p.items@[i as int]) == defines(p.items@[j]));
                }
                return Some(i);
            }
            seen.set(t, true);
        }
        proof {
            assert forall|tt: int| 0 <= tt < seen@.len() implies (#[trigger] seen@[tt] <==> exists|j: int| 0 <= j < i + 1 && #[trigger] defines(p.items@[j]) == Some(tt as usize)) by {
                if seen@[tt] && !(d == Some(tt as usize)) {
                    let j = choose|j: int| 0 <= j < i && #[trigger] defines(p.items@[j]) == Some(tt as usize);
                    assert(0 <= j < i + 1);
                }
                if exists|j: int| 0 <= j < i + 1 && #[trigger] defines(p.items@[j]) == Some(tt as usize) {
                    let j = choose|j: int| 0 <= j < i + 1 && #[trigger] defines(p.items@[j]) == Some(tt as usize);
                    if j < i {
                        assert(exists|j2: int| 0 <= j2 < i && #[trigger] defines(p.items@[j2]) == Some(tt as usize));
                    }
                }
            }
            assert forall|a: int, b: int|
                0 <= a < b < i + 1 && (#[trigger] defines(p.items@[a])) is Some implies #[trigger] defines(p.items@[b]) != defines(p.items@[a]) by {
                if b == i && d is Some {
                    let t = d->Some_0;
                    if defines(p.items@[a]) == d {
                        assert(exists|j: int| 0 <= j < i && #[trigger] defines(p.items@[j]) == Some(t));
                    }
                }
            }
        }
        i += 1;
    }
    None
}

pub open spec fn spec_n_candidates(item: Item) -> nat {
    match item {
        Item::Instruction { candidates } => candidates@.len(),
        _ => 0,
    }
}

/// Each item's address, where known, is its predecessor's address plus the
/// predecessor's size in address units; the first item stands at the bank's
/// start.
pub open spec fn addresses_consistent(p: Program, st: Resolution) -> bool {
    &&& (st.addresses@.len() > 0 && st.addresses@[0] is Some ==> st.addresses@[0]->Some_0 == p.addr_start)
    &&& forall|i: int|
        0 < i < st.addresses@.len() && (#[trigger] st.addresses@[i]) is Some ==> {
            &&& st.addresses@[i - 1] is Some
            &&& st.sizes@[i - 1] is Some
            &&& st.addresses@[i]->Some_0 == st.addresses@[i - 1]->Some_0 + spec_units(
                st.sizes@[i - 1]->Some_0 as nat,
                p.addr_unit as nat,
            )
        }
}

pub open spec fn state_wf(p: Program, st: Resolution) -> bool {
    &&& st.symbols@.len() == p.n_symbols
    &&& st.sizes@.len() == p.items@.len()
    &&& st.addresses@.len() == p.items@.len()
    &&& st.alive@.len() == p.items@.len()
    &&& st.chosen@.len() == p.items@.len()
    &&& forall|i: int| 0 <= i < p.items@.len() ==> (#[trigger] st.alive@[i])@.len() == spec_n_candidates(p.items@[i])
    &&& addresses_consistent(p, st)
}

/// Knowledge only grows: resolved symbols keep their values, pruned
/// candidates stay pruned, and known sizes, addresses and choices stay.
pub open spec fn grows(a: Resolution, b: Resolution) -> bool {
    &&& a.symbols@.len() == b.symbols@.len()
    &&& a.sizes@.len() == b.sizes@.len()
    &&& a.addresses@.len() == b.addresses@.len()
    &&& a.chosen@.len() == b.chosen@.len()
    &&& a.alive@.len() == b.alive@.len()
    &&& forall|s: int| 0 <= s < a.symbols@.len() && (#[trigger] a.symbols@[s]) is Resolved ==> b.symbols@[s] == a.symbols@[s]
    &&& forall|i: int| 0 <= i < a.sizes@.len() && (#[trigger] a.sizes@[i]) is Some ==> b.sizes@[i] == a.sizes@[i]
    &&& forall|i: int| 0 <= i < a.addresses@.len() && (#[trigger] a.addresses@[i]) is Some ==> b.addresses@[i] == a.addresses@[i]
    &&& forall|i: int| 0 <= i < a.chosen@.len() && (#[trigger] a.chosen@[i]) is Some ==> b.chosen@[i] == a.chosen@[i]
    &&& forall|i: int, k: int|
        0 <= i < a.alive@.len() && 0 <= k < a.alive@[i]@.len() && !(#[trigger] a.alive@[i]@[k]) ==> b.alive@[i]@.len() == a.alive@[i]@.len() && !b.alive@[i]@[k]
}

/// Monotonicity composes over passes.
pub proof fn lemma_grows_trans(a: Resolution, b: Resolution, c: Resolution)
    requires
        grows(a, b),
        grows(b, c),
    ensures
        grows(a, c),
{
    assert forall|i: int, k: int|
        0 <= i < a.alive@.len() && 0 <= k < a.alive@[i]@.len() && !(#[trigger] a.alive@[i]@[k]) implies c.alive@[i]@.len() == a.alive@[i]@.len() && !c.alive@[i]@[k] by {
        assert(!b.alive@[i]@[k]);
    }
}

/// The errors that a malformed program gives before any pass.
pub open spec fn malformed(e: ResolveError) -> bool {
    e is BadUnit || e is BadSymbol || e is BadWidth || e is DuplicateSymbol
}

pub open spec fn spec_initial_alive(item: Item) -> Seq<bool> {
    Seq::new(spec_n_candidates(item), |k: int| true)
}

pub open spec fn spec_initial_size(item: Item) -> Option<usize> {
    match item {
        Item::Label { .. } => Some(0),
        Item::Constant { .. } => Some(0),
        _ => None,
    }
}

/// Where nothing is known yet: no symbol resolved, no address, every
/// candidate alive; labels and constants take no room.
pub open spec fn is_initial(p: Program, st: Resolution) -> bool {
    &&& st.symbols@ == Seq::new(p.n_symbols as nat, |s: int| ResolutionState::Unresolved)
    &&& st.sizes@ == Seq::new(p.items@.len(), |i: int| spec_initial_size(p.items@[i]))
    &&& st.addresses@ == Seq::new(p.items@.len(), |i: int| None::<i128>)
    &&& st.chosen@ == Seq::new(p.items@.len(), |i: int| None::<(usize, i128)>)
    &&& forall|i: int| 0 <= i < p.items@.len() ==> (#[trigger] st.alive@[i])@ == spec_initial_alive(p.items@[i])
}

fn all_alive(n: usize) -> (r: Vec<bool>)
    ensures
        r@ == Seq::new(n as nat, |k: int| true),
{
    let mut v: Vec<bool> = Vec::new();
    let mut k: usize = 0;
    while k < n
        invariant
            k <= n,
            v@ == Seq::new(k as nat, |j: int| true),
        decreases n - k,
    {
        v.push(true);
        k += 1;
        assert(v@ =~= Seq::new(k as nat, |j: int| true));
    }
    v
}

/// The state before the first pass, once the program is checked: symbol
/// indices in range, parameter widths of at most 64 bits, a nonzero
/// address unit.
pub fn initial_state(p: &Program) -> (r: Result<Resolution, ResolveError>)
    ensures
        r is Ok <==> program_wf(*p),
        r matches Ok(st) ==> state_wf(*p, st) && is_initial(*p, st) && values_ok(*p, st),
        r matches Err(e) ==> malformed(e),
{
    if p.addr_unit == 0 {
        return Err(ResolveError::BadUnit);
    }
    let mut symbols: Vec<ResolutionState> = Vec::new();
    let mut s: usize = 0;
    while s < p.n_symbols
        invariant
            s <= p.n_symbols,
            symbols@ == Seq::new(s as nat, |j: int| ResolutionState::Unresolved),
        decreases p.n_symbols - s,
    {
        symbols.push(ResolutionState::Unresolved);
        s += 1;
        assert(symbols@ =~= Seq::new(s as nat, |j: int| ResolutionState::Unresolved));
    }
    let mut sizes: Vec<Option<usize>> = Vec::new();
    let mut addresses: Vec<Option<i128>> = Vec::new();
    let mut alive: Vec<Vec<bool>> = Vec::new();
    let mut chosen: Vec<Option<(usize, i128)>> = Vec::new();
    let mut i: usize = 0;
    while i < p.items.len()
        invariant
            i <= p.items@.len(),
            p.addr_unit > 0,
            forall|j: int| 0 <= j < i ==> item_wf(#[trigger] p.items@[j], p.n_symbols as nat),
            sizes@ == Seq::new(i as nat, |j: int| spec_initial_size(p.items@[j])),
            addresses@ == Seq::new(i as nat, |j: int| None::<i128>),
            chosen@ == Seq::new(i as nat, |j: int| None::<(usize, i128)>),
            alive@.len() == i,
            forall|j: int| 0 <= j < i ==> (#[trigger] alive@[j])@ == spec_initial_alive(p.items@[j]),
        decreases p.items@.len() - i,
    {
        let (size, n_cands): (Option<usize>, usize) = match &p.items[i] {
            Item::Label { symbol } => {
                if *symbol >= p.n_symbols {
                    return Err(ResolveError::BadSymbol { item: i });
                }
                (Some(0), 0)
            },
            Item::Constant { symbol, .. } => {
                if *symbol >= p.n_symbols {
                    return Err(ResolveError::BadSymbol { item: i });
                }
                (Some(0), 0)
            },
            Item::Instruction { candidates } => {
                let mut k: usize = 0;
                let ghost it = p.items@[i as int];
                assert(it is Instruction && it->candidates == *candidates);
                while k < candidates.len()
                    invariant
                        k <= candidates@.len(),
                        i < p.items@.len(),
                        it == p.items@[i as int],
                        it is Instruction && it->candidates == *candidates,
                        forall|j: int| 0 <= j < k ==> (#[trigger] candidates@[j]).width <= 64,
                    decreases candidates@.len() - k,
                {
                    if candidates[k].width > 64 {
                        proof {
                            assert(!candidates_wf(candidates@));
                            assert(!item_wf(p.items@[i as int], p.n_symbols as nat));
                        }
                        return Err(ResolveError::BadWidth { item: i });
                    }
                    k += 1;
                }
                (None, candidates.len())
            },
            Item::Res { .. } => (None, 0),
        };
        sizes.push(size);
        addresses.push(None);
        chosen.push(None);
        alive.push(all_alive(n_cands));
        i += 1;
        assert(sizes@ =~= Seq::new(i as nat, |j: int| spec_initial_size(p.items@[j])));
        assert(addresses@ =~= Seq::new(i as nat, |j: int| None::<i128>));
        assert(chosen@ =~= Seq::new(i as nat, |j: int| None::<(usize, i128)>));
        assert(alive@[i - 1]@ =~= spec_initial_alive(p.items@[i - 1]));
    }
    if let Some(item) = check_definitions(p) {
        proof {
            if unique_definitions(*p) {
                let i = choose|i: int| 0 <= i < p.items@.len() && !#[trigger] defined_in_range(p.items@[i], p.n_symbols);
                assert(item_wf(p.items@[i], p.n_symbols as nat));
            }
        }
        return Err(ResolveError::DuplicateSymbol { item });
    }
    let st = Resolution { symbols, sizes, addresses, alive, chosen };
    assert forall|j: int| 0 <= j < p.items@.len() implies #[trigger] item_value_ok(*p, st, j) by {
        assert(item_wf(p.items@[j], p.n_symbols as nat));
    }
    Ok(st)
}

pub open spec fn cursor_ok(p: Program, st: Resolution, i: int, cursor: Option<i128>) -> bool {
    cursor matches Some(c) ==> {
        &&& i == 0 ==> c == p.addr_start
        &&& i > 0 ==> {
            &&& st.addresses@[i - 1] is Some
            &&& st.sizes@[i - 1] is Some
            &&& c == st.addresses@[i - 1]->Some_0 + spec_units(st.sizes@[i - 1]->Some_0 as nat, p.addr_unit as nat)
        }
    }
}

/// Gives item `i` the address `cursor`, where it has none yet.
fn settle_address(p: &Program, st: &mut Resolution, i: usize, cursor: Option<i128>) -> (r: bool)
    requires
        i < p.items@.len(),
        state_wf(*p, *old(st)),
        cursor_ok(*p, *old(st), i as int, cursor),
        program_wf(*p),
        values_ok(*p, *old(st)),
    ensures
        state_wf(*p, *final(st)),
        grows(*old(st), *final(st)),
        values_ok(*p, *final(st)),
        final(st).symbols == old(st).symbols,
        final(st).sizes == old(st).sizes,
        final(st).alive == old(st).alive,
        final(st).chosen == old(st).chosen,
        forall|j: int| 0 <= j < i ==> #[trigger] final(st).addresses@[j] == old(st).addresses@[j],
        cursor is Some ==> final(st).addresses@[i as int] is Some,
        (final(st)@, r) == spec_settle(old(st)@, i as int, cursor),
{
    let ghost before = *st;
    if st.addresses[i].is_none() {
        if let Some(c) = cursor {
            st.addresses.set(i, Some(c));
            proof {
                assert forall|j: int|
                    0 < j < st.addresses@.len() && (#[trigger] st.addresses@[j]) is Some implies {
                        &&& st.addresses@[j - 1] is Some
                        &&& st.sizes@[j - 1] is Some
                        &&& st.addresses@[j]->Some_0 == st.addresses@[j - 1]->Some_0 + spec_units(
                            st.sizes@[j - 1]->Some_0 as nat,
                            p.addr_unit as nat,
                        )
                    } by {
                    if j != i {
                        assert(before.addresses@[j] is Some);
                    }
                }
                assert(st.addresses@ =~= before.addresses@.update(i as int, cursor));
                assert forall|j: int| 0 <= j < p.items@.len() implies #[trigger] item_value_ok(*p, *st, j) by {
                    assert(item_value_ok(*p, before, j));
                    lemma_item_value_kept(*p, before, *st, j);
                }
            }
            return true;
        }
    }
    false
}

/// A label with a known address has a value.
pub open spec fn label_settled(p: Program, st: Resolution, i: int) -> bool {
    p.items@[i] matches Item::Label { symbol } ==> (st.addresses@[i] is Some
        ==> st.symbols@[symbol as int] is Resolved)
}

/// A constant has a value unless its expression was still waiting on an
/// unresolved symbol.
pub open spec fn constant_settled(p: Program, before: Resolution, after: Resolution, i: int) -> bool {
    p.items@[i] matches Item::Constant { symbol, value } ==> (after.symbols@[symbol as int] is Resolved
        || spec_eval(value, before.symbols@) is Deferred)
}

/// A reservation has a size unless its count was still waiting on an
/// unresolved symbol.
pub open spec fn res_settled(p: Program, before: Resolution, after: Resolution, i: int) -> bool {
    p.items@[i] matches Item::Res { units } ==> (after.sizes@[i] is Some || spec_eval(units, before.symbols@) is Deferred)
}

/// Settles what can be settled of item `i` other than its address.
#[verifier::rlimit(40)]
fn resolve_item(p: &Program, st: &mut Resolution, i: usize) -> (r: Result<bool, ResolveError>)
    requires
        i < p.items@.len(),
        program_wf(*p),
        state_wf(*p, *old(st)),
        values_ok(*p, *old(st)),
    ensures
        state_wf(*p, *final(st)),
        grows(*old(st), *final(st)),
        values_ok(*p, *final(st)),
        final(st).addresses == old(st).addresses,
        forall|j: int| 0 <= j < p.items@.len() && j != i ==> #[trigger] final(st).sizes@[j] == old(st).sizes@[j],
        r is Ok ==> label_settled(*p, *final(st), i as int),
        r is Ok ==> constant_settled(*p, *old(st), *final(st), i as int),
        r is Ok ==> res_settled(*p, *old(st), *final(st), i as int),
        match spec_item(*p, old(st)@, i as int) {
            Ok((m, c)) => r == Ok::<bool, ResolveError>(c) && final(st)@ == m,
            Err(e) => r == Err::<bool, ResolveError>(e),
        },
{
    let ghost mid = *st;
    let unit = p.addr_unit;
    let mut progress = false;
    assert(item_wf(p.items@[i as int], p.n_symbols as nat));
    match &p.items[i] {
        Item::Label { symbol } => {
            if let ResolutionState::Unresolved = st.symbols[*symbol] {
                if let Some(a) = st.addresses[i] {
                    st.symbols.set(*symbol, ResolutionState::Resolved(a));
                    progress = true;
                    assert(st.symbols@ =~= mid.symbols@.update(*symbol as int, ResolutionState::Resolved(a)));
                    assert(st.alive@.map_values(|v: Vec<bool>| v@) =~= mid@.alive);
                }
            }
        },
        Item::Constant { symbol, value } => {
            if let ResolutionState::Unresolved = st.symbols[*symbol] {
                match eval(value, &st.symbols) {
                    Eval::Resolved(v) => {
                        st.symbols.set(*symbol, ResolutionState::Resolved(v));
                        progress = true;
                        assert(st.symbols@ =~= mid.symbols@.update(*symbol as int, ResolutionState::Resolved(v)));
                        assert(st.alive@.map_values(|v: Vec<bool>| v@) =~= mid@.alive);
                    },
                    Eval::Failed => {
                        return Err(ResolveError::EvalFailed { item: i });
                    },
                    Eval::Deferred => {},
                }
            }
        },
        Item::Instruction { candidates } => {
            if st.chosen[i].is_none() {
                let o = step_instruction(i, candidates, &st.alive[i], &st.symbols)?;
                if o.pruned || o.chosen.is_some() {
                    progress = true;
                }
                st.alive.set(i, o.alive);
                st.chosen.set(i, o.chosen);
                if st.sizes[i].is_none() {
                    if let Some(b) = o.size_bits {
                        st.sizes.set(i, Some(b));
                        progress = true;
                    }
                }
                proof {
                    assert(st.alive@.map_values(|v: Vec<bool>| v@) =~= mid@.alive.update(i as int, spec_alive_after(candidates@, mid@.alive[i as int], mid.symbols@)));
                    assert(st.chosen@ =~= mid.chosen@.update(i as int, spec_chosen(candidates@, mid@.alive[i as int], mid.symbols@)));
                    assert forall|ii: int, k: int|
                        0 <= ii < mid.alive@.len() && 0 <= k < mid.alive@[ii]@.len() && !(#[trigger] mid.alive@[ii]@[k]) implies st.alive@[ii]@.len() == mid.alive@[ii]@.len() && !st.alive@[ii]@[k] by {
                        if ii == i {
                            assert(!survives(candidates@, mid.alive@[ii]@, mid.symbols@, k));
                        }
                    }
                }
            }
        },
        Item::Res { units } => {
            if st.sizes[i].is_none() {
                match eval(units, &st.symbols) {
                    Eval::Resolved(v) => {
                        if v < 0 {
                            return Err(ResolveError::BadSize { item: i });
                        }
                        let wide = match (v as u128).checked_mul(unit as u128) {
                            Some(b) => b,
                            None => {
                                return Err(ResolveError::BadSize { item: i });
                            },
                        };
                        if wide > usize::MAX as u128 {
                            return Err(ResolveError::BadSize { item: i });
                        }
                        let bits = wide as usize;
                        st.sizes.set(i, Some(bits));
                        progress = true;
                        assert(st.sizes@ =~= mid.sizes@.update(i as int, Some(bits)));
                        assert(st.alive@.map_values(|v: Vec<bool>| v@) =~= mid@.alive);
                    },
                    Eval::Failed => {
                        return Err(ResolveError::EvalFailed { item: i });
                    },
                    Eval::Deferred => {},
                }
            }
        },
    }
    proof {
        assert forall|j: int|
            0 < j < st.addresses@.len() && (#[trigger] st.addresses@[j]) is Some implies {
                &&& st.addresses@[j - 1] is Some
                &&& st.sizes@[j - 1] is Some
                &&& st.addresses@[j]->Some_0 == st.addresses@[j - 1]->Some_0 + spec_units(
                    st.sizes@[j - 1]->Some_0 as nat,
                    p.addr_unit as nat,
                )
            } by {
            assert(mid.addresses@[j] is Some);
        }
        assert(state_wf(*p, *st));
        assert(grows(mid, *st));
        assert(syms_grow(mid.symbols@, st.symbols@));
        assert forall|j: int| 0 <= j < p.items@.len() implies #[trigger] item_value_ok(*p, *st, j) by {
            assert(item_value_ok(*p, mid, j));
            assert(item_wf(p.items@[j], p.n_symbols as nat));
            if j != i {
                if defines(p.items@[j]) is Some && defines(p.items@[i as int]) is Some {
                    if j < i {
                        assert(defines(p.items@[i as int]) != defines(p.items@[j]));
                    } else {
                        assert(defines(p.items@[j]) != defines(p.items@[i as int]));
                    }
                }
                lemma_item_value_kept(*p, mid, *st, j);
            } else {
                match p.items@[j] {
                    Item::Constant { symbol, value } => {
                        if spec_eval(value, mid.symbols@) is Resolved {
                            lemma_eval_stable(value, mid.symbols@, st.symbols@);
                        }
                    },
                    Item::Res { units } => {
                        if spec_eval(units, mid.symbols@) is Resolved {
                            lemma_eval_stable(units, mid.symbols@, st.symbols@);
                        }
                    },
                    Item::Instruction { candidates } => {
                        if mid.chosen@[j] is None && st.chosen@[j] is Some {
                            let cs = candidates@;
                            let al = mid.alive@[j]@;
                            let kv = st.chosen@[j]->Some_0;
                            assert(chosen_by(cs, al, mid.symbols@, kv));
                            assert(st.alive@[j]@ == spec_alive_after(cs, al, mid.symbols@));
                            assert(survives(cs, al, mid.symbols@, kv.0 as int));
                            assert(survives(cs, st.alive@[j]@, st.symbols@, kv.0 as int));
                            assert forall|m: int| 0 <= m < cs.len() && m != kv.0 implies !#[trigger] survives(cs, st.alive@[j]@, st.symbols@, m) by {
                                assert(!survives(cs, al, mid.symbols@, m));
                            }
                            if mid.sizes@[j] is None {
                                assert(survivors_size(cs, al, mid.symbols@, cs[kv.0 as int].size_bits));
                                assert(spec_size_after(cs, al, mid.symbols@) is Some);
                            }
                        }
                        if st.sizes@[j] is Some && mid.chosen@[j] is None {
                            let cs = candidates@;
                            let al = mid.alive@[j]@;
                            assert forall|k: int| 0 <= k < cs.len() && #[trigger] st.alive@[j]@[k] implies cs[k].size_bits == st.sizes@[j]->Some_0 by {
                                assert(survives(cs, al, mid.symbols@, k));
                                if mid.sizes@[j] is Some {
                                    assert(al[k]);
                                } else {
                                    let b = choose|b: usize| #[trigger] survivors_size(cs, al, mid.symbols@, b);
                                }
                            }
                        }
                    },
                    _ => {},
                }
            }
        }
    }
    Ok(progress)
}

/// The address right after item `i`, where its address and size are known.
fn next_cursor(p: &Program, st: &Resolution, i: usize) -> (r: Result<Option<i128>, ResolveError>)
    requires
        i < p.items@.len(),
        p.addr_unit > 0,
        state_wf(*p, *st),
    ensures
        r matches Ok(c) ==> cursor_ok(*p, *st, i + 1, c),
        r matches Ok(c) ==> (c is Some <==> st.addresses@[i as int] is Some && st.sizes@[i as int] is Some),
        r == spec_next_cursor(*p, st@, i as int),
{
    match (st.addresses[i], st.sizes[i]) {
        (Some(a), Some(b)) => {
            let u = units_of(b, p.addr_unit);
            match a.checked_add(u as i128) {
                Some(next) => Ok(Some(next)),
                None => Err(ResolveError::AddressOverflow { item: i }),
            }
        },
        _ => Ok(None),
    }
}

/// What every pass leaves behind: the first item has the bank's start
/// address, an item whose predecessor has an address and a size has an
/// address, and every label with an address has a value.
pub open spec fn pass_settled(p: Program, st: Resolution) -> bool {
    &&& p.items@.len() > 0 ==> st.addresses@[0] is Some
    &&& forall|j: int|
        0 < j < p.items@.len() && st.addresses@[j - 1] is Some && st.sizes@[j - 1] is Some
            ==> (#[trigger] st.addresses@[j]) is Some
    &&& forall|j: int| 0 <= j < p.items@.len() ==> #[trigger] label_settled(p, st, j)
}

/// `b` knows something that `a` does not: a symbol's value, an item's
/// address, size or chosen candidate, or that a candidate is pruned.
pub open spec fn gained(a: ResModel, b: ResModel) -> bool {
    ||| exists|s: int| 0 <= s < a.symbols.len() && (#[trigger] a.symbols[s]) is Unresolved && b.symbols[s] is Resolved
    ||| exists|i: int| 0 <= i < a.addresses.len() && (#[trigger] a.addresses[i]) is None && b.addresses[i] is Some
    ||| exists|i: int| 0 <= i < a.sizes.len() && (#[trigger] a.sizes[i]) is None && b.sizes[i] is Some
    ||| exists|i: int| 0 <= i < a.chosen.len() && (#[trigger] a.chosen[i]) is None && b.chosen[i] is Some
    ||| exists|i: int, k: int| 0 <= i < a.alive.len() && 0 <= k < a.alive[i].len() && #[trigger] a.alive[i][k] && !b.alive[i][k]
}

proof fn lemma_gained_differs(a: ResModel, b: ResModel)
    requires
        gained(a, b),
    ensures
        a != b,
{
}

proof fn lemma_gained_left(p: Program, x: Resolution, y: Resolution, z: Resolution)
    requires
        state_wf(p, x),
        state_wf(p, y),
        state_wf(p, z),
        grows(x, y),
        gained(y@, z@),
    ensures
        gained(x@, z@),
{
    if exists|s: int| 0 <= s < y@.symbols.len() && (#[trigger] y@.symbols[s]) is Unresolved && z@.symbols[s] is Resolved {
        let s = choose|s: int| 0 <= s < y@.symbols.len() && (#[trigger] y@.symbols[s]) is Unresolved && z@.symbols[s] is Resolved;
        assert(x@.symbols[s] is Unresolved);
    } else if exists|i: int| 0 <= i < y@.addresses.len() && (#[trigger] y@.addresses[i]) is None && z@.addresses[i] is Some {
        let i = choose|i: int| 0 <= i < y@.addresses.len() && (#[trigger] y@.addresses[i]) is None && z@.addresses[i] is Some;
        assert(x@.addresses[i] is None);
    } else if exists|i: int| 0 <= i < y@.sizes.len() && (#[trigger] y@.sizes[i]) is None && z@.sizes[i] is Some {
        let i = choose|i: int| 0 <= i < y@.sizes.len() && (#[trigger] y@.sizes[i]) is None && z@.sizes[i] is Some;
        assert(x@.sizes[i] is None);
    } else if exists|i: int| 0 <= i < y@.chosen.len() && (#[trigger] y@.chosen[i]) is None && z@.chosen[i] is Some {
        let i = choose|i: int| 0 <= i < y@.chosen.len() && (#[trigger] y@.chosen[i]) is None && z@.chosen[i] is Some;
        assert(x@.chosen[i] is None);
    } else {
        let (i, k) = choose|i: int, k: int| 0 <= i < y@.alive.len() && 0 <= k < y@.alive[i].len() && #[trigger] y@.alive[i][k] && !z@.alive[i][k];
        assert(x.alive@[i]@.len() == y.alive@[i]@.len());
        assert(x.alive@[i]@[k]);
        assert(x@.alive[i][k]);
    }
}

proof fn lemma_gained_right(p: Program, x: Resolution, y: Resolution, z: Resolution)
    requires
        state_wf(p, x),
        state_wf(p, y),
        state_wf(p, z),
        gained(x@, y@),
        grows(y, z),
    ensures
        gained(x@, z@),
{
    if exists|s: int| 0 <= s < x@.symbols.len() && (#[trigger] x@.symbols[s]) is Unresolved && y@.symbols[s] is Resolved {
        let s = choose|s: int| 0 <= s < x@.symbols.len() && (#[trigger] x@.symbols[s]) is Unresolved && y@.symbols[s] is Resolved;
        assert(z@.symbols[s] is Resolved);
    } else if exists|i: int| 0 <= i < x@.addresses.len() && (#[trigger] x@.addresses[i]) is None && y@.addresses[i] is Some {
        let i = choose|i: int| 0 <= i < x@.addresses.len() && (#[trigger] x@.addresses[i]) is None && y@.addresses[i] is Some;
        assert(z@.addresses[i] is Some);
    } else if exists|i: int| 0 <= i < x@.sizes.len() && (#[trigger] x@.sizes[i]) is None && y@.sizes[i] is Some {
        let i = choose|i: int| 0 <= i < x@.sizes.len() && (#[trigger] x@.sizes[i]) is None && y@.sizes[i] is Some;
        assert(z@.sizes[i] is Some);
    } else if exists|i: int| 0 <= i < x@.chosen.len() && (#[trigger] x@.chosen[i]) is None && y@.chosen[i] is Some {
        let i = choose|i: int| 0 <= i < x@.chosen.len() && (#[trigger] x@.chosen[i]) is None && y@.chosen[i] is Some;
        assert(z@.chosen[i] is Some);
    } else {
        let (i, k) = choose|i: int, k: int| 0 <= i < x@.alive.len() && 0 <= k < x@.alive[i].len() && #[trigger] x@.alive[i][k] && !y@.alive[i][k];
        assert(!y.alive@[i]@[k]);
        assert(!z.alive@[i]@[k]);
        assert(!z@.alive[i][k]);
    }
}

/// A step of item `i` reports a change exactly when it learns something.
proof fn lemma_item_flag(p: Program, st: Resolution, i: int)
    requires
        0 <= i < p.items@.len(),
        program_wf(p),
        state_wf(p, st),
    ensures
        spec_item(p, st@, i) matches Ok((m2, c)) ==> (c ==> gained(st@, m2)) && (!c ==> m2 == st@),
{
    let m = st@;
    assert(item_wf(p.items@[i], p.n_symbols as nat));
    if let Ok((m2, c)) = spec_item(p, m, i) {
        match p.items@[i] {
            Item::Label { symbol } => {
                if c {
                    assert(m.symbols[symbol as int] is Unresolved && m2.symbols[symbol as int] is Resolved);
                }
            },
            Item::Constant { symbol, value } => {
                if c {
                    assert(m.symbols[symbol as int] is Unresolved && m2.symbols[symbol as int] is Resolved);
                }
            },
            Item::Instruction { candidates } => {
                if m.chosen[i] is None {
                    let cs = candidates@;
                    let al = m.alive[i];
                    assert(st.alive@[i]@.len() == cs.len());
                    if spec_pruned(cs, al, m.symbols) {
                        let k = choose|k: int| 0 <= k < al.len() && al[k] && !#[trigger] survives(cs, al, m.symbols, k);
                        assert(m.alive[i][k] && !m2.alive[i][k]);
                    } else if spec_chosen(cs, al, m.symbols) is Some {
                        assert(m.chosen[i] is None && m2.chosen[i] is Some);
                    } else if m.sizes[i] is None && spec_size_after(cs, al, m.symbols) is Some {
                        assert(m.sizes[i] is None && m2.sizes[i] is Some);
                    } else {
                        assert(spec_alive_after(cs, al, m.symbols) =~= al);
                        assert(m2.alive =~= m.alive);
                        assert(m2.chosen =~= m.chosen);
                    }
                }
            },
            Item::Res { units } => {
                if c {
                    assert(m.sizes[i] is None && m2.sizes[i] is Some);
                }
            },
        }
    }
}

/// Symbols that have a value keep it in a larger state.
pub open spec fn syms_grow(a: Seq<ResolutionState>, b: Seq<ResolutionState>) -> bool {
    a.len() == b.len() && forall|s: int| 0 <= s < a.len() && (#[trigger] a[s]) is Resolved ==> b[s] == a[s]
}

/// A value, once an expression has one, stays as symbols gain values.
pub proof fn lemma_eval_stable(e: Expr, a: Seq<ResolutionState>, b: Seq<ResolutionState>)
    requires
        syms_grow(a, b),
        spec_eval(e, a) is Resolved,
    ensures
        spec_eval(e, b) == spec_eval(e, a),
    decreases e,
{
    match e {
        Expr::Add(x, y) => {
            lemma_eval_stable(*x, a, b);
            lemma_eval_stable(*y, a, b);
        },
        Expr::Sub(x, y) => {
            lemma_eval_stable(*x, a, b);
            lemma_eval_stable(*y, a, b);
        },
        _ => {},
    }
}

/// The values found agree with the items: a label's symbol holds the
/// label's address, a constant's symbol the value of its expression, and a
/// reservation's size is its count times the address unit.
pub open spec fn values_ok(p: Program, st: Resolution) -> bool {
    forall|i: int| 0 <= i < p.items@.len() ==> #[trigger] item_value_ok(p, st, i)
}

pub open spec fn item_value_ok(p: Program, st: Resolution, i: int) -> bool {
    match p.items@[i] {
        Item::Label { symbol } => st.symbols@[symbol as int] is Resolved ==> st.addresses@[i] is Some
            && st.symbols@[symbol as int] == ResolutionState::Resolved(st.addresses@[i]->Some_0),
        Item::Constant { symbol, value } => st.symbols@[symbol as int] is Resolved ==> spec_eval(value, st.symbols@)
            == Eval::Resolved(st.symbols@[symbol as int]->Resolved_0),
        Item::Res { units } => st.sizes@[i] is Some ==> spec_eval(units, st.symbols@) is Resolved
            && st.sizes@[i]->Some_0 == eval_value(spec_eval(units, st.symbols@)) * p.addr_unit,
        Item::Instruction { candidates } => {
            &&& (st.sizes@[i] is Some ==> forall|k: int|
                0 <= k < candidates@.len() && #[trigger] st.alive@[i]@[k] ==> candidates@[k].size_bits == st.sizes@[i]->Some_0)
            &&& (st.chosen@[i] is Some ==> chosen_by(candidates@, st.alive@[i]@, st.symbols@, st.chosen@[i]->Some_0)
                && st.sizes@[i] == Some(candidates@[st.chosen@[i]->Some_0.0 as int].size_bits))
        },
    }
}

/// A candidate's verdict, once its argument is known, stays as symbols gain
/// values.
proof fn lemma_check_stable(c: Candidate, a: Seq<ResolutionState>, b: Seq<ResolutionState>)
    requires
        syms_grow(a, b),
        spec_check(c, a) is Pass || spec_check(c, a) is Prune,
    ensures
        spec_check(c, b) == spec_check(c, a),
{
    lemma_eval_stable(c.arg, a, b);
}

proof fn lemma_chosen_stable(cands: Seq<Candidate>, alive: Seq<bool>, a: Seq<ResolutionState>, b: Seq<ResolutionState>, kv: (usize, i128))
    requires
        syms_grow(a, b),
        alive.len() == cands.len(),
        chosen_by(cands, alive, a, kv),
    ensures
        chosen_by(cands, alive, b, kv),
{
    lemma_check_stable(cands[kv.0 as int], a, b);
    assert forall|j: int| 0 <= j < cands.len() && j != kv.0 implies !#[trigger] survives(cands, alive, b, j) by {
        assert(!survives(cands, alive, a, j));
        if alive[j] {
            lemma_check_stable(cands[j], a, b);
        }
    }
}

/// Item `j`'s agreement survives a change that gives no new value to its
/// symbol, keeps its address, keeps a reservation's size, and only adds
/// symbol values.
proof fn lemma_item_value_kept(p: Program, a: Resolution, b: Resolution, j: int)
    requires
        program_wf(p),
        0 <= j < p.items@.len(),
        state_wf(p, a),
        state_wf(p, b),
        item_value_ok(p, a, j),
        syms_grow(a.symbols@, b.symbols@),
        defines(p.items@[j]) is Some ==> b.symbols@[defines(p.items@[j])->Some_0 as int] == a.symbols@[defines(p.items@[j])->Some_0 as int],
        a.addresses@[j] is Some ==> b.addresses@[j] == a.addresses@[j],
        p.items@[j] is Res ==> b.sizes@[j] == a.sizes@[j],
        p.items@[j] is Instruction ==> b.alive@[j]@ == a.alive@[j]@ && b.chosen@[j] == a.chosen@[j] && b.sizes@[j] == a.sizes@[j],
    ensures
        item_value_ok(p, b, j),
{
    assert(item_wf(p.items@[j], p.n_symbols as nat));
    match p.items@[j] {
        Item::Constant { symbol, value } => {
            if a.symbols@[symbol as int] is Resolved {
                lemma_eval_stable(value, a.symbols@, b.symbols@);
            }
        },
        Item::Res { units } => {
            if a.sizes@[j] is Some {
                lemma_eval_stable(units, a.symbols@, b.symbols@);
            }
        },
        Item::Instruction { candidates } => {
            if a.chosen@[j] is Some {
                lemma_chosen_stable(candidates@, a.alive@[j]@, a.symbols@, b.symbols@, a.chosen@[j]->Some_0);
            }
        },
        _ => {},
    }
}

/// Handles item `i` within a pass: gives it its address, settles what can
/// be settled of it, and returns whether anything changed and the address
/// right after it.
#[verifier::rlimit(40)]
fn pass_item(p: &Program, st: &mut Resolution, i: usize, cursor: Option<i128>) -> (r: Result<(bool, Option<i128>), ResolveError>)
    requires
        i < p.items@.len(),
        program_wf(*p),
        state_wf(*p, *old(st)),
        cursor_ok(*p, *old(st), i as int, cursor),
        i == 0 ==> cursor is Some,
        i > 0 ==> (cursor is Some <==> old(st).addresses@[i - 1] is Some && old(st).sizes@[i - 1] is Some),
        prefix_settled(*p, *old(st), i as int),
        values_ok(*p, *old(st)),
    ensures
        state_wf(*p, *final(st)),
        grows(*old(st), *final(st)),
        values_ok(*p, *final(st)),
        r matches Ok((_, c)) ==> {
            &&& cursor_ok(*p, *final(st), i + 1, c)
            &&& (c is Some <==> final(st).addresses@[i as int] is Some && final(st).sizes@[i as int] is Some)
            &&& prefix_settled(*p, *final(st), i + 1)
        },
        match spec_pass_item(*p, old(st)@, i as int, cursor) {
            Ok((m, c, next)) => r == Ok::<(bool, Option<i128>), ResolveError>((c, next)) && final(st)@ == m,
            Err(e) => r == Err::<(bool, Option<i128>), ResolveError>(e),
        },
        r matches Ok((c, _)) ==> (c ==> gained(old(st)@, final(st)@)) && (!c ==> final(st)@ == old(st)@),
{
    let mut progress = false;
        let ghost s1 = *st;
        if settle_address(p, st, i, cursor) {
            progress = true;
        }
        let ghost s2 = *st;
        let item_result = resolve_item(p, st, i);
        proof {
            lemma_grows_trans(s1, s2, *st);
        }
        proof {
            lemma_item_flag(*p, s2, i as int);
            if s1@ != s2@ {
                assert(s1@.addresses[i as int] is None && s2@.addresses[i as int] is Some);
                if item_result is Ok {
                    lemma_gained_right(*p, s1, s2, *st);
                }
            }
            if item_result matches Ok(true) {
                lemma_gained_left(*p, s1, s2, *st);
            }
        }
        let changed = item_result?;
        proof {
            lemma_prefix_step(*p, s1, *st, i as int);
        }
        if changed {
            progress = true;
        }
        let c = next_cursor(p, st, i)?;
        Ok((progress, c))
}

/// What the pass has settled of the items before `i`.
#[verifier::opaque]
pub open spec fn prefix_settled(p: Program, st: Resolution, i: int) -> bool {
    &&& i > 0 ==> st.addresses@[0] is Some
    &&& forall|j: int|
        0 < j < i && st.addresses@[j - 1] is Some && st.sizes@[j - 1] is Some ==> (#[trigger] st.addresses@[j]) is Some
    &&& forall|j: int| 0 <= j < i ==> #[trigger] label_settled(p, st, j)
}

proof fn lemma_prefix_step(p: Program, s1: Resolution, s3: Resolution, i: int)
    requires
        0 <= i < p.items@.len(),
        program_wf(p),
        s1.symbols@.len() == p.n_symbols,
        s1.addresses@.len() == p.items@.len(),
        s1.sizes@.len() == p.items@.len(),
        prefix_settled(p, s1, i),
        s1.symbols@.len() == s3.symbols@.len(),
        forall|t: int| 0 <= t < s1.symbols@.len() && (#[trigger] s1.symbols@[t]) is Resolved ==> s3.symbols@[t] == s1.symbols@[t],
        forall|j: int| 0 <= j < i ==> #[trigger] s3.addresses@[j] == s1.addresses@[j],
        forall|j: int| 0 <= j < p.items@.len() && j != i ==> #[trigger] s3.sizes@[j] == s1.sizes@[j],
        label_settled(p, s3, i),
        i == 0 ==> s3.addresses@[0] is Some,
        i > 0 && s1.addresses@[i - 1] is Some && s1.sizes@[i - 1] is Some ==> s3.addresses@[i] is Some,
    ensures
        prefix_settled(p, s3, i + 1),
{
    reveal(prefix_settled);
    assert forall|j: int| 0 <= j < i + 1 implies #[trigger] label_settled(p, s3, j) by {
        if j < i {
            assert(label_settled(p, s1, j));
            assert(item_wf(p.items@[j], p.n_symbols as nat));
        }
    }
    assert forall|j: int|
        0 < j < i + 1 && s3.addresses@[j - 1] is Some && s3.sizes@[j - 1] is Some implies (#[trigger] s3.addresses@[j]) is Some by {
        assert(s3.sizes@[j - 1] == s1.sizes@[j - 1]);
        assert(s3.addresses@[j - 1] == s1.addresses@[j - 1]);
        if j < i {
            assert(s1.addresses@[j] is Some);
        }
    }
    if i > 0 {
        assert(s3.addresses@[0] == s1.addresses@[0]);
    }
}

proof fn lemma_prefix_whole(p: Program, st: Resolution)
    requires
        prefix_settled(p, st, p.items@.len() as int),
    ensures
        pass_settled(p, st),
{
    reveal(prefix_settled);
}

/// One pass over the items in order. A label takes the address at which it
/// stands once every item before it has a size; a constant takes its value
/// once it can be evaluated; an instruction prunes and maybe settles its
/// candidates; a reservation takes its size once its count is known. Returns
/// whether anything was learned. Knowledge only grows, and addresses stay
/// consistent with sizes.
#[verifier::rlimit(80)]
pub fn resolve_pass(p: &Program, st: &mut Resolution) -> (r: Result<bool, ResolveError>)
    requires
        program_wf(*p),
        state_wf(*p, *old(st)),
        values_ok(*p, *old(st)),
    ensures
        state_wf(*p, *final(st)),
        grows(*old(st), *final(st)),
        values_ok(*p, *final(st)),
        r is Ok ==> pass_settled(*p, *final(st)),
        match spec_pass(*p, old(st)@) {
            Ok((m, changed)) => r == Ok::<bool, ResolveError>(changed) && final(st)@ == m,
            Err(e) => r == Err::<bool, ResolveError>(e),
        },
        r matches Ok(changed) ==> (changed <==> final(st)@ != old(st)@),
{
    let ghost st0 = *st;
    let n = p.items.len();
    let unit = p.addr_unit;
    let mut cursor: Option<i128> = Some(p.addr_start);
    let mut progress = false;
    let mut i: usize = 0;
    proof {
        reveal(prefix_settled);
    }
    while i < n
        invariant
            n == p.items@.len(),
            unit == p.addr_unit,
            i <= n,
            program_wf(*p),
            state_wf(*p, *st),
            st0 == *old(st),
            grows(st0, *st),
            spec_pass_from(*p, st@, i as int, cursor, progress) == spec_pass(*p, st0@),
            state_wf(*p, st0),
            values_ok(*p, *st),
            progress ==> gained(st0@, st@),
            !progress ==> st@ == st0@,
            cursor_ok(*p, *st, i as int, cursor),
            i == 0 ==> cursor is Some,
            i > 0 ==> (cursor is Some <==> st.addresses@[i - 1] is Some && st.sizes@[i - 1] is Some),
            prefix_settled(*p, *st, i as int),
        decreases n - i,
    {
        let ghost s0 = *st;
        let (changed, c) = pass_item(p, st, i, cursor)?;
        proof {
            lemma_grows_trans(st0, s0, *st);
            if changed {
                lemma_gained_left(*p, st0, s0, *st);
            } else if progress {
                lemma_gained_right(*p, st0, s0, *st);
            }
        }
        if changed {
            progress = true;
        }
        cursor = c;
        i += 1;
    }
    proof {
        lemma_prefix_whole(*p, *st);
        if progress {
            lemma_gained_differs(st0@, st@);
        }
    }
    Ok(progress)
}

/// Every symbol has a value, every item a size and an address, and every
/// instruction a chosen candidate.
pub open spec fn fully_resolved(p: Program, st: Resolution) -> bool {
    model_resolved(p, st@)
}

pub open spec fn model_resolved(p: Program, m: ResModel) -> bool {
    &&& forall|s: int| 0 <= s < m.symbols.len() ==> (#[trigger] m.symbols[s]) is Resolved
    &&& forall|i: int| 0 <= i < m.sizes.len() ==> (#[trigger] m.sizes[i]) is Some
    &&& forall|i: int| 0 <= i < m.addresses.len() ==> (#[trigger] m.addresses[i]) is Some
    &&& forall|i: int|
        0 <= i < p.items@.len() && (#[trigger] p.items@[i]) is Instruction ==> m.chosen[i] is Some
}

/// The knowledge before the first pass.
pub open spec fn spec_initial_model(p: Program) -> ResModel {
    ResModel {
        symbols: Seq::new(p.n_symbols as nat, |s: int| ResolutionState::Unresolved),
        sizes: Seq::new(p.items@.len(), |i: int| spec_initial_size(p.items@[i])),
        addresses: Seq::new(p.items@.len(), |i: int| None::<i128>),
        alive: Seq::new(p.items@.len(), |i: int| spec_initial_alive(p.items@[i])),
        chosen: Seq::new(p.items@.len(), |i: int| None::<(usize, i128)>),
    }
}

proof fn lemma_initial_model(p: Program, st: Resolution)
    requires
        state_wf(p, st),
        is_initial(p, st),
    ensures
        st@ == spec_initial_model(p),
{
    assert(st@.alive =~= spec_initial_model(p).alive);
}

/// Passes from the `done`-th on: success with the pass count once everything
/// is resolved; `Unresolved` after a pass that learned nothing, or once
/// `max` passes are used; the first error of a pass otherwise.
pub open spec fn spec_iterate(p: Program, m: ResModel, done: nat, max: nat) -> Result<(ResModel, nat), ResolveError>
    decreases max - done,
{
    if done >= max {
        Err(ResolveError::Unresolved)
    } else {
        match spec_pass(p, m) {
            Err(e) => Err(e),
            Ok((m2, changed)) => if model_resolved(p, m2) {
                Ok((m2, done + 1))
            } else if !changed {
                Err(ResolveError::Unresolved)
            } else {
                spec_iterate(p, m2, done + 1, max)
            },
        }
    }
}

pub fn is_fully_resolved(p: &Program, st: &Resolution) -> (r: bool)
    requires
        state_wf(*p, *st),
    ensures
        r == fully_resolved(*p, *st),
{
    let mut s: usize = 0;
    while s < st.symbols.len()
        invariant
            s <= st.symbols@.len(),
            forall|j: int| 0 <= j < s ==> (#[trigger] st.symbols@[j]) is Resolved,
        decreases st.symbols@.len() - s,
    {
        if let ResolutionState::Unresolved = st.symbols[s] {
            return false;
        }
        s += 1;
    }
    let mut i: usize = 0;
    while i < p.items.len()
        invariant
            state_wf(*p, *st),
            i <= p.items@.len(),
            forall|j: int| 0 <= j < i ==> (#[trigger] st.sizes@[j]) is Some,
            forall|j: int| 0 <= j < i ==> (#[trigger] st.addresses@[j]) is Some,
            forall|j: int| 0 <= j < i && (#[trigger] p.items@[j]) is Instruction ==> st.chosen@[j] is Some,
        decreases p.items@.len() - i,
    {
        if st.sizes[i].is_none() || st.addresses[i].is_none() {
            return false;
        }
        if let Item::Instruction { .. } = &p.items[i] {
            if st.chosen[i].is_none() {
                return false;
            }
        }
        i += 1;
    }
    true
}

/// Runs passes until everything is resolved, returning the final state and
/// the number of passes used. A pass that learns nothing while items remain
/// unresolved, or reaching `max_iters` passes, is an `Unresolved` error; an
/// error of a pass ends the run.
pub fn resolve_iteratively(p: &Program, max_iters: usize) -> (r: Result<(Resolution, usize), ResolveError>)
    ensures
        r is Ok ==> program_wf(*p),
        r matches Ok((st, n)) ==> {
            &&& 1 <= n <= max_iters
            &&& state_wf(*p, st)
            &&& fully_resolved(*p, st)
            &&& values_ok(*p, st)
        },
        !program_wf(*p) ==> (r matches Err(e) && malformed(e)),
        program_wf(*p) ==> match spec_iterate(*p, spec_initial_model(*p), 0, max_iters as nat) {
            Ok((m, n)) => r matches Ok((st, k)) && st@ == m && k == n,
            Err(e) => r == Err::<(Resolution, usize), ResolveError>(e),
        },
{
    let mut st = initial_state(p)?;
    proof {
        lemma_initial_model(*p, st);
    }
    let mut iters: usize = 0;
    while iters < max_iters
        invariant
            program_wf(*p),
            state_wf(*p, st),
            values_ok(*p, st),
            iters <= max_iters,
            spec_iterate(*p, st@, iters as nat, max_iters as nat) == spec_iterate(*p, spec_initial_model(*p), 0, max_iters as nat),
        decreases max_iters - iters,
    {
        iters += 1;
        let progress = resolve_pass(p, &mut st)?;
        if is_fully_resolved(p, &st) {
            return Ok((st, iters));
        }
        if !progress {
            return Err(ResolveError::Unresolved);
        }
    }
    Err(ResolveError::Unresolved)
}

/// Within the bank, once an item has an address every item before it has
/// one; each item ends where the next begins, and addresses do not decrease
/// in declaration order.
pub proof fn lemma_resolved_addresses_ordered(p: Program, st: Resolution, a: int, b: int)
    requires
        state_wf(p, st),
        0 <= a <= b < p.items@.len(),
        st.addresses@[b] is Some,
    ensures
        st.addresses@[a] is Some,
        st.addresses@[a]->Some_0 <= st.addresses@[b]->Some_0,
        b == a + 1 ==> st.sizes@[a] is Some && st.addresses@[a]->Some_0 + spec_units(
            st.sizes@[a]->Some_0 as nat,
            p.addr_unit as nat,
        ) == st.addresses@[b]->Some_0,
    decreases b - a,
{
    if a < b {
        assert(st.addresses@[b] is Some);
        lemma_resolved_addresses_ordered(p, st, a, b - 1);
    }
}

} // verus!

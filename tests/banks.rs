use customasm::bankdef::{define, define_one, BankdefDecl, BankdefError};
use customasm::output::{check_bank_overlap, layout, overlap, units_of, BankExtent};

fn decl(item_ref: usize) -> BankdefDecl {
    BankdefDecl {
        item_ref,
        addr_unit: None,
        label_align: None,
        addr_start: None,
        addr_size: None,
        addr_end: None,
        output_offset: None,
        fill: false,
    }
}

#[test]
fn define_adds_initial_bank_first() {
    let mut d = decl(1);
    d.addr_start = Some(0x8000);
    d.addr_end = Some(0x8010);
    d.output_offset = Some(0x10);
    d.fill = true;
    let defs = define(&[d]).unwrap();
    assert_eq!(defs.len(), 2);
    assert_eq!(defs[0].addr_unit, 8);
    assert_eq!(defs[0].output_offset, Some(0));
    assert_eq!(defs[0].size, None);
    assert_eq!(defs[1].item_ref, 1);
    assert_eq!(defs[1].addr_start, 0x8000);
    assert_eq!(defs[1].size, Some(0x10 * 8));
    assert_eq!(defs[1].output_offset, Some(0x10));
    assert!(defs[1].fill);
}

#[test]
fn define_size_in_bits_uses_unit() {
    let mut d = decl(2);
    d.addr_unit = Some(16);
    d.addr_size = Some(4);
    assert_eq!(define_one(&d).unwrap().size, Some(64));
}

#[test]
fn define_rejects_both_end_and_size() {
    let mut d = decl(3);
    d.addr_size = Some(4);
    d.addr_end = Some(4);
    assert_eq!(define(&[decl(1), d]), Err(BankdefError::BothEndAndSize { item_ref: 3 }));
}

#[test]
fn define_rejects_end_before_start() {
    let mut d = decl(4);
    d.addr_start = Some(10);
    d.addr_end = Some(5);
    assert_eq!(define_one(&d), Err(BankdefError::EndOutOfRange { item_ref: 4 }));
}

#[test]
fn define_rejects_size_overflow() {
    let mut d = decl(5);
    d.addr_size = Some(usize::MAX);
    assert_eq!(define_one(&d), Err(BankdefError::SizeOverflow { item_ref: 5 }));
}

#[test]
fn two_banks_at_offset_zero_overlap_once() {
    let banks = [
        BankExtent { output_offset: Some(0), len: 4 },
        BankExtent { output_offset: Some(0), len: 2 },
    ];
    assert_eq!(check_bank_overlap(&banks), vec![(0, 1)]);
}

#[test]
fn overlap_is_symmetric_and_disjoint_banks_pass() {
    let a = BankExtent { output_offset: Some(0), len: 4 };
    let b = BankExtent { output_offset: Some(3), len: 4 };
    let c = BankExtent { output_offset: Some(4), len: 4 };
    let d = BankExtent { output_offset: None, len: 100 };
    let e = BankExtent { output_offset: Some(1), len: 0 };
    assert!(overlap(&a, &b) && overlap(&b, &a));
    assert!(!overlap(&a, &c) && !overlap(&c, &a));
    assert!(!overlap(&a, &d) && !overlap(&d, &a));
    assert!(!overlap(&a, &e) && !overlap(&e, &a));
    assert!(check_bank_overlap(&[a, c, d, e]).is_empty());
    assert_eq!(check_bank_overlap(&[a, b, c]), vec![(0, 1), (1, 2)]);
}

#[test]
fn layout_places_items_back_to_back() {
    assert_eq!(layout(0x100, 8, &[16, 24, 0, 1]), Some(vec![0x100, 0x102, 0x105, 0x105, 0x106]));
    assert_eq!(layout(0, 16, &[24]), Some(vec![0, 2]));
    assert_eq!(layout(i128::MAX, 8, &[8]), None);
    assert_eq!(units_of(9, 8), 2);
    assert_eq!(units_of(0, 8), 0);
}

use customasm::decls::{collect, DeclError, DeclKind, Declaration, SymbolManager};

fn d(kind: DeclKind, name: &str) -> Declaration {
    Declaration { kind, name: name.to_string() }
}

#[test]
fn collect_keeps_one_namespace_per_kind() {
    let decls = [
        d(DeclKind::Bankdef, "rom"),
        d(DeclKind::Symbol, "loop"),
        d(DeclKind::Ruledef, "cpu"),
        d(DeclKind::Symbol, "end"),
        d(DeclKind::Bankdef, "ram"),
        d(DeclKind::Symbol, "rom"),
    ];
    let c = collect(&decls).unwrap();
    assert_eq!(c.bankdefs.names, vec!["rom".to_string(), "ram".to_string()]);
    assert_eq!(c.ruledefs.names, vec!["cpu".to_string()]);
    assert_eq!(c.symbols.names, vec!["loop".to_string(), "end".to_string(), "rom".to_string()]);
    assert_eq!(c.symbols.get(&"end".to_string()), Some(1));
    assert_eq!(c.symbols.get(&"nope".to_string()), None);
}

#[test]
fn collect_refuses_duplicate_name() {
    let decls = [d(DeclKind::Symbol, "a"), d(DeclKind::Bankdef, "a"), d(DeclKind::Symbol, "a")];
    assert_eq!(collect(&decls).err(), Some(DeclError::Duplicate { index: 2 }));
}

#[test]
fn declare_assigns_next_reference() {
    let mut m = SymbolManager::new();
    assert_eq!(m.declare("x".to_string()), Some(0));
    assert_eq!(m.declare("y".to_string()), Some(1));
    assert_eq!(m.declare("x".to_string()), None);
    assert_eq!(m.names.len(), 2);
}

#[test]
fn bank_extent_counts_bytes() {
    let mut d = decl(1);
    d.addr_size = Some(16);
    d.output_offset = Some(4);
    let mut b = define_one(&d).unwrap();
    let e = customasm::output::bank_extent(&b, 20);
    assert_eq!(e, BankExtent { output_offset: Some(4), len: 3 });
    b.fill = true;
    assert_eq!(customasm::output::bank_extent(&b, 20).len, 16);
    b.output_offset = None;
    assert_eq!(customasm::output::bank_extent(&b, 20).output_offset, None);
}

#[test]
fn emit_units_most_significant_first() {
    let bits: Vec<bool> = "1010101100000001".chars().map(|c| c == '1').collect();
    assert_eq!(customasm::output::emit_units(&bits, 8), vec![0xab, 0x01]);
    assert_eq!(customasm::output::emit_units(&bits, 16), vec![0xab01]);
    let odd: Vec<bool> = "101".chars().map(|c| c == '1').collect();
    assert_eq!(customasm::output::emit_units(&odd, 2), vec![0b10, 0b10]);
    assert!(customasm::output::emit_units(&[], 8).is_empty());
}

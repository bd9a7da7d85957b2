use move_api::bundle::{sort_module_bundle, sort_order, BundleError, ModuleId, ModuleInfo};

fn id(addr: u8, name: &str) -> ModuleId {
    let mut address = vec![0u8; 31];
    address.push(addr);
    ModuleId {
        address,
        name: name.to_string(),
    }
}

fn module(addr: u8, name: &str, deps: &[(u8, &str)]) -> ModuleInfo {
    ModuleInfo {
        id: id(addr, name),
        deps: deps.iter().map(|(a, n)| id(*a, n)).collect(),
    }
}

fn order_of(mods: &Vec<ModuleInfo>) -> Vec<usize> {
    match sort_order(mods) {
        Ok(o) => o,
        Err(_) => panic!("bundle should sort"),
    }
}

#[test]
fn chain_submitted_out_of_order_is_sorted() {
    // C depends on B, B on A, submitted as [C, A, B].
    let mods = vec![
        module(1, "C", &[(1, "B")]),
        module(1, "A", &[]),
        module(1, "B", &[(1, "A")]),
    ];
    assert_eq!(order_of(&mods), vec![1, 2, 0]);
    let codes = vec![b"code-c".to_vec(), b"code-a".to_vec(), b"code-b".to_vec()];
    match sort_module_bundle(&codes, &mods) {
        Ok(out) => assert_eq!(
            out,
            vec![b"code-a".to_vec(), b"code-b".to_vec(), b"code-c".to_vec()]
        ),
        Err(_) => panic!("bundle should sort"),
    }
}

#[test]
fn independent_modules_keep_input_order() {
    let mods = vec![
        module(2, "Z", &[]),
        module(1, "M", &[]),
        module(3, "A", &[]),
        module(1, "B", &[]),
    ];
    assert_eq!(order_of(&mods), vec![0, 1, 2, 3]);
    let codes = vec![vec![4u8], vec![3u8], vec![2u8], vec![1u8]];
    let first = match sort_module_bundle(&codes, &mods) {
        Ok(out) => out,
        Err(_) => panic!("bundle should sort"),
    };
    assert_eq!(first, codes);
    match sort_module_bundle(&first, &mods) {
        Ok(again) => assert_eq!(again, first),
        Err(_) => panic!("bundle should sort"),
    }
}

#[test]
fn every_dependency_comes_first() {
    // A diamond: D uses B and C, both use A; E is independent.
    let mods = vec![
        module(1, "D", &[(1, "B"), (1, "C")]),
        module(1, "E", &[]),
        module(1, "C", &[(1, "A")]),
        module(1, "B", &[(1, "A")]),
        module(1, "A", &[]),
    ];
    let order = order_of(&mods);
    assert_eq!(order, vec![1, 4, 2, 3, 0]);
    let pos = |i: usize| order.iter().position(|x| *x == i).unwrap();
    for (a, m) in mods.iter().enumerate() {
        for d in &m.deps {
            let b = mods.iter().position(|x| x.id.name == d.name).unwrap();
            assert!(pos(b) < pos(a));
        }
    }
}

#[test]
fn references_outside_the_bundle_are_ignored() {
    let mods = vec![
        module(1, "B", &[(1, "A"), (0, "std")]),
        module(1, "A", &[(0, "std"), (2, "A")]),
    ];
    assert_eq!(order_of(&mods), vec![1, 0]);
}

#[test]
fn mutual_dependency_is_rejected() {
    let mods = vec![module(1, "M1", &[(1, "M2")]), module(1, "M2", &[(1, "M1")])];
    match sort_order(&mods) {
        Err(BundleError::CyclicModuleDependency { module }) => assert!(module < 2),
        _ => panic!("a cycle must be rejected"),
    }
    let codes = vec![vec![1u8], vec![2u8]];
    assert!(matches!(
        sort_module_bundle(&codes, &mods),
        Err(BundleError::CyclicModuleDependency { .. })
    ));
}

#[test]
fn module_waiting_on_a_cycle_is_rejected() {
    let mods = vec![
        module(1, "A", &[]),
        module(1, "X", &[(1, "Y")]),
        module(1, "Y", &[(1, "Z")]),
        module(1, "Z", &[(1, "Y")]),
    ];
    match sort_order(&mods) {
        // X only waits on the cycle; the member named lies on it.
        Err(BundleError::CyclicModuleDependency { module }) => assert_eq!(module, 2),
        _ => panic!("a cycle must be rejected"),
    }
}

#[test]
fn self_reference_is_a_cycle() {
    let mods = vec![module(1, "S", &[(1, "S")])];
    assert!(matches!(
        sort_order(&mods),
        Err(BundleError::CyclicModuleDependency { module: 0 })
    ));
}

#[test]
fn duplicate_identity_is_rejected() {
    let mods = vec![
        module(1, "Other", &[]),
        module(1, "Coin", &[]),
        module(1, "Coin", &[(1, "Other")]),
    ];
    match sort_order(&mods) {
        Err(BundleError::DuplicateModuleInBundle { first, second }) => {
            assert_eq!((first, second), (1, 2))
        }
        _ => panic!("a duplicate must be rejected"),
    }
}

#[test]
fn duplicate_is_reported_before_a_cycle() {
    let mods = vec![
        module(1, "Coin", &[(1, "Coin")]),
        module(1, "Coin", &[]),
    ];
    assert!(matches!(
        sort_order(&mods),
        Err(BundleError::DuplicateModuleInBundle { first: 0, second: 1 })
    ));
}

#[test]
fn same_name_at_other_address_is_no_duplicate() {
    let mods = vec![module(1, "Coin", &[]), module(2, "Coin", &[(1, "Coin")])];
    assert_eq!(order_of(&mods), vec![0, 1]);
}

#[test]
fn empty_bundle_sorts_to_empty() {
    let mods: Vec<ModuleInfo> = vec![];
    assert_eq!(order_of(&mods), Vec::<usize>::new());
    match sort_module_bundle(&vec![], &mods) {
        Ok(out) => assert!(out.is_empty()),
        Err(_) => panic!("empty bundle should sort"),
    }
}

#[test]
fn identity_comparison_looks_at_address_and_name() {
    assert!(id(1, "Coin").same_as(&id(1, "Coin")));
    assert!(!id(1, "Coin").same_as(&id(2, "Coin")));
    assert!(!id(1, "Coin").same_as(&id(1, "Coins")));
}

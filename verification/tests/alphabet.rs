use unifier::subst::{Cell, Substitution};
use unifier::term::{copy_term, max_unif_vars, Language, TermData, TermNode, UnifTerm};
use unifier::unify::unify;

/* Basic yes/no test to see check if two terms unify or don't */
fn expect_unify(t1: &UnifTerm, t2: &UnifTerm, unifies: bool) {
    match unify(t1, t2) {
        Ok(_) => assert!(unifies, "Expected terms to unify"),
        Err(_) => assert!(!unifies, "Expected terms to not unify"),
    }
}

/* Structural equality on terms, for inspecting rewrite results */
fn term_eq(a: &UnifTerm, b: &UnifTerm) -> bool {
    match (a, b) {
        (UnifTerm::Var { value: x }, UnifTerm::Var { value: y }) => x == y,
        (UnifTerm::Val { value: na }, UnifTerm::Val { value: nb }) => {
            na.data == nb.data && na.children.len() == nb.children.len()
                && na.children.iter().zip(nb.children.iter()).all(|(c, d)| term_eq(c, d))
        }
        _ => false,
    }
}

fn atom(data: char) -> UnifTerm {
    UnifTerm::Val {
        value: TermNode {
            data,
            children: vec![],
        },
    }
}

fn val(data: char, children: Vec<UnifTerm>) -> UnifTerm {
    UnifTerm::Val {
        value: TermNode {
            data,
            children: children.into_iter().map(Box::new).collect(),
        },
    }
}

fn var(value: usize) -> UnifTerm {
    UnifTerm::Var { value }
}

#[test]
fn alphabet_tests() {
    /*
     * ALPHABET LANGAUGE SYNTAX
     *  Char = 'a'..'z'
     *  Var = Char\{a,b,c,d}
     * '1', '2', '3' are metavariables
     *
     * Statics:
     *              1        1  2  3
     * ---  ---  -------- ------------
     *  a    b     c(1)     d(1,2,3)
     *
     * --- z in Var
     *  z
     *
     * A *normalized* alphabet language term
     * has the following:
     *  - All Variables have been turned into UnifVars
     *  - UnifVars are usize
     *  - UnifVars are sequential, starting at 1.
     */
    let alphabet_lang: Language<char> = Language {
        syntax: vec![
            TermData {
                arity: 0,
                data: 'a',
            },
            TermData {
                arity: 0,
                data: 'b',
            },
            TermData {
                arity: 1,
                data: 'c',
            },
            TermData {
                arity: 3,
                data: 'd',
            },
        ],
    };
    assert_eq!(alphabet_lang.syntax.len(), 4);

    type ALProgram = UnifTerm;

    let al1: ALProgram = UnifTerm::Var { value: 1 };
    let al2: ALProgram = UnifTerm::Val {
        value: TermNode {
            data: 'a',
            children: vec![],
        },
    };
    let al3: ALProgram = UnifTerm::Val {
        value: TermNode {
            data: 'b',
            children: vec![],
        },
    };
    let al4: ALProgram = UnifTerm::Val {
        value: TermNode {
            data: 'c',
            children: vec![Box::new(UnifTerm::Var { value: 1 })],
        },
    };
    let al5: ALProgram = UnifTerm::Val {
        value: TermNode {
            data: 'd',
            children: vec![
                Box::new(UnifTerm::Var { value: 1 }),
                Box::new(UnifTerm::Var { value: 1 }),
                Box::new(UnifTerm::Var { value: 1 }),
            ],
        },
    };
    let al6: ALProgram = UnifTerm::Val {
        value: TermNode {
            data: 'd',
            children: vec![
                Box::new(UnifTerm::Var { value: 1 }),
                Box::new(UnifTerm::Var { value: 2 }),
                Box::new(UnifTerm::Var { value: 4 }),
            ],
        },
    };

    /* Test: Finding the max of unification variables */
    assert_eq!(max_unif_vars(&al1), 1);
    assert_eq!(max_unif_vars(&al2), 0);
    assert_eq!(max_unif_vars(&al3), 0);
    assert_eq!(max_unif_vars(&al4), 1);
    assert_eq!(max_unif_vars(&al5), 1);
    assert_eq!(max_unif_vars(&al6), 4);

    /* Single variable should unify with everything */
    expect_unify(&al1, &al1, true);
    expect_unify(&al1, &al2, true);
    expect_unify(&al1, &al3, true);
    expect_unify(&al1, &al4, true);
    expect_unify(&al1, &al5, true);
    expect_unify(&al1, &al6, true);

    /* Simple atom comparison should inly unify with itself */
    expect_unify(&al2, &al2, true);
    expect_unify(&al2, &al3, false);
    expect_unify(&al2, &al4, false);
    expect_unify(&al2, &al5, false);
    expect_unify(&al2, &al6, false);

    /* Self-unification for deeper terms */
    expect_unify(&al4, &al4, true);
    expect_unify(&al5, &al5, true);
    expect_unify(&al6, &al6, true);

    /* Unification with differing variables */
    expect_unify(&al5, &al6, true);

    /* Deeper substitutions */
    let al7: ALProgram = UnifTerm::Val {
        value: TermNode {
            data: 'd',
            children: vec![
                Box::new(UnifTerm::Val {
                    value: (TermNode {
                        data: 'c',
                        children: vec![Box::new(UnifTerm::Var { value: 1 })],
                    }),
                }),
                Box::new(UnifTerm::Var { value: 2 }),
                Box::new(UnifTerm::Var { value: 1 }),
            ],
        },
    };

    let al8: ALProgram = UnifTerm::Val {
        value: TermNode {
            data: 'd',
            children: vec![
                Box::new(UnifTerm::Var { value: 3 }),
                Box::new(UnifTerm::Var { value: 1 }),
                Box::new(UnifTerm::Val {
                    value: (TermNode {
                        data: 'a',
                        children: vec![],
                    }),
                }),
            ],
        },
    };
    // AL7 = d(c(1), 2, 1)
    // AL8 = d(3, 1, a)
    // MGU should be d(c(a), a, a)
    expect_unify(&al7, &al8, true);

    let al9: ALProgram = UnifTerm::Val {
        value: TermNode {
            data: 'd',
            children: vec![
                Box::new(UnifTerm::Val {
                    value: (TermNode {
                        data: 'c',
                        children: vec![Box::new(UnifTerm::Var { value: 1 })],
                    }),
                }),
                Box::new(UnifTerm::Var { value: 3 }),
                Box::new(UnifTerm::Var { value: 1 }),
            ],
        },
    };

    // AL9 = d(c(1), 3, 1)
    // AL8 = d(3, 1, a)
    // Should not unify, since c(1) = 3 = 1 = a
    expect_unify(&al9, &al8, false);
}

#[test]
fn reflexivity_all_shapes() {
    // A term unifies with itself: a bare variable, an atom, a nested value.
    let v = var(7);
    expect_unify(&v, &copy_term(&v), true);
    let a = atom('a');
    expect_unify(&a, &copy_term(&a), true);
    let deep = val('d', vec![val('c', vec![var(1)]), var(2), atom('b')]);
    expect_unify(&deep, &copy_term(&deep), true);
}

#[test]
fn variable_absorbs_any_term() {
    // A bare variable unifies with any term, in either position.
    let v = var(1);
    let deep = val('d', vec![val('c', vec![val('c', vec![var(2)])]), atom('a'), var(3)]);
    expect_unify(&v, &deep, true);
    expect_unify(&deep, &v, true);
    expect_unify(&var(2), &var(5), true);
}

#[test]
fn mismatched_values_never_unify() {
    // Distinct atoms; same tag with different arity; different tags with children.
    expect_unify(&atom('a'), &atom('b'), false);
    expect_unify(&val('c', vec![var(1)]), &atom('c'), false);
    expect_unify(&val('c', vec![var(1)]), &val('d', vec![var(1)]), false);
    expect_unify(
        &val('d', vec![atom('a'), atom('a'), atom('a')]),
        &val('d', vec![atom('a'), atom('a'), atom('b')]),
        false,
    );
}

#[test]
fn variable_renaming_unifies() {
    // d(X, X, X) unifies with d(X, Y, Z): the MGU ties the classes together.
    let xxx = val('d', vec![var(1), var(1), var(1)]);
    let xyz = val('d', vec![var(1), var(2), var(3)]);
    expect_unify(&xxx, &xyz, true);
}

#[test]
fn transitive_conflict_fails() {
    // d(c(1), 3, 1) vs d(3, 1, a) forces c(1) = 3 = 1 = a: conflict.
    let lhs = val('d', vec![val('c', vec![var(1)]), var(3), var(1)]);
    let rhs = val('d', vec![var(3), var(1), atom('a')]);
    expect_unify(&lhs, &rhs, false);
    // Without the shared third variable there is no forced collision.
    let lhs2 = val('d', vec![val('c', vec![var(1)]), var(2), var(1)]);
    expect_unify(&lhs2, &rhs, true);
}

#[test]
fn max_var_deep_and_absent() {
    // No variables: maximum is 0; deepest reference k: maximum is exactly k.
    let ground = val('d', vec![atom('a'), val('c', vec![atom('b')]), atom('a')]);
    assert_eq!(max_unif_vars(&ground), 0);
    let deep = val('c', vec![val('c', vec![val('c', vec![var(5)])])]);
    assert_eq!(max_unif_vars(&deep), 5);
    let wide = val('d', vec![var(4), val('c', vec![var(9)]), var(2)]);
    assert_eq!(max_unif_vars(&wide), 9);
}

#[test]
fn mgu_of_deeper_substitution() {
    // Unifying d(c(1), 2, 1) with d(3, 1, a) binds every class to 'a' or c(..):
    // rewriting the first term under the result yields d(c(a), a, a).
    let al7 = val('d', vec![val('c', vec![var(1)]), var(2), var(1)]);
    let al8 = val('d', vec![var(3), var(1), atom('a')]);
    let mut sigma = unify(&al7, &al8).unwrap();

    match sigma.lookup(&var(1)) {
        Cell::Bound(node) => {
            assert_eq!(node.data, 'a');
            assert_eq!(node.children.len(), 0);
        }
        Cell::Link(_) => panic!("variable 1 should be bound"),
    }
    match sigma.lookup(&var(2)) {
        Cell::Bound(node) => assert_eq!(node.data, 'a'),
        Cell::Link(_) => panic!("variable 2 should be bound"),
    }
    match sigma.lookup(&var(3)) {
        Cell::Bound(node) => {
            assert_eq!(node.data, 'c');
            assert_eq!(node.children.len(), 1);
        }
        Cell::Link(_) => panic!("variable 3 should be bound"),
    }

    let rewritten = sigma.rewrite_term(&al7);
    let expected = val('d', vec![val('c', vec![atom('a')]), atom('a'), atom('a')]);
    assert!(term_eq(&rewritten, &expected));
}

#[test]
fn substitution_operations() {
    // Fresh cells are unbound self-links; binding and merging behave as stated.
    let mut sigma = Substitution::new(3);
    match sigma.find(2) {
        Cell::Link(x) => assert_eq!(x, 2),
        Cell::Bound(_) => panic!("fresh cell should be unbound"),
    }
    // Merge classes 0 and 2, then bind the merged class through member 2.
    sigma.binding_eq(0, 2);
    let node = TermNode {
        data: 'b',
        children: vec![],
    };
    sigma.binding_set(2, &node);
    match sigma.find(0) {
        Cell::Bound(n) => assert_eq!(n.data, 'b'),
        Cell::Link(_) => panic!("class of 0 should be bound after the merge"),
    }
    match sigma.find(1) {
        Cell::Link(x) => assert_eq!(x, 1),
        Cell::Bound(_) => panic!("class of 1 is untouched"),
    }
}

#[test]
fn rewrite_renames_unbound_variables() {
    // An unbound variable rewrites to its class representative's index.
    let mut sigma = Substitution::new(3);
    let t = var(2);
    let r = sigma.rewrite_term(&t);
    assert!(term_eq(&r, &var(2)));
    // After merging classes 1 and 2 (0-based cells 0 and 1), both rewrite to
    // the representative with the smaller index.
    sigma.binding_eq(0, 1);
    let r1 = sigma.rewrite_term(&var(1));
    let r2 = sigma.rewrite_term(&var(2));
    assert!(term_eq(&r1, &var(1)));
    assert!(term_eq(&r2, &var(1)));
}

#[test]
fn rewrite_splices_bound_nodes_verbatim() {
    // Bound nodes are spliced in as stored, not dereferenced further: after
    // unifying d(c(1), 2, 1) with d(3, 1, a), variable 3 is bound to the node
    // c(1) itself, so rewriting d(3, 1, a) yields d(c(1), a, a).
    let al7 = val('d', vec![val('c', vec![var(1)]), var(2), var(1)]);
    let al8 = val('d', vec![var(3), var(1), atom('a')]);
    let mut sigma = unify(&al7, &al8).unwrap();
    let rewritten = sigma.rewrite_term(&al8);
    let expected = val('d', vec![val('c', vec![var(1)]), atom('a'), atom('a')]);
    assert!(term_eq(&rewritten, &expected));
}

#[test]
fn error_is_atom_comparison() {
    // A structural clash reports the atom-comparison error.
    match unify(&atom('a'), &atom('b')) {
        Err(e) => assert!(matches!(
            e,
            unifier::unify::SubstitutionError::ErrAtomComparison
        )),
        Ok(_) => panic!("distinct atoms must not unify"),
    }
}

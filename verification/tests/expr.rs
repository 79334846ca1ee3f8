use probabilistic_circuits::wfol::expr::{
    all, and, any, equivalent, imply, not, or, predicate, var, Expression,
};
use probabilistic_circuits::wfol::nnf::to_nnf;

#[test]
fn test_var() {
    assert_eq!(
        Expression::Variable {
            name: "A".to_string()
        },
        Expression::Variable {
            name: "A".to_string()
        }
    );
    assert_ne!(
        Expression::Variable {
            name: "A".to_string()
        },
        Expression::Variable {
            name: "B".to_string()
        }
    );
    assert_ne!(
        Expression::Variable {
            name: "A".to_string()
        },
        Expression::Not {
            expr: Box::new(Expression::Variable {
                name: "A".to_string()
            })
        }
    );
}

#[test]
fn test_pred() {
    assert_eq!(
        Expression::Predicate {
            name: "test".to_string(),
            vars: vec!["A".to_string(), "B".to_string()]
        },
        Expression::Predicate {
            name: "test".to_string(),
            vars: vec!["A".to_string(), "B".to_string()]
        },
    );
    assert_ne!(
        Expression::Predicate {
            name: "test".to_string(),
            vars: vec!["A".to_string(), "B".to_string()]
        },
        Expression::Predicate {
            name: "test2".to_string(),
            vars: vec!["A".to_string(), "B".to_string()]
        },
    );
    assert_ne!(
        Expression::Predicate {
            name: "test".to_string(),
            vars: vec!["A".to_string(), "B".to_string()]
        },
        Expression::Predicate {
            name: "test".to_string(),
            vars: vec!["A".to_string()]
        },
    );
    assert_ne!(
        Expression::Predicate {
            name: "test".to_string(),
            vars: vec!["A".to_string(), "B".to_string()]
        },
        Expression::Predicate {
            name: "test".to_string(),
            vars: vec!["B".to_string(), "A".to_string()]
        },
    );
}

#[test]
fn test_not() {
    assert_eq!(
        Expression::Not {
            expr: Box::new(Expression::Variable {
                name: "A".to_string()
            })
        },
        Expression::Not {
            expr: Box::new(Expression::Variable {
                name: "A".to_string()
            })
        }
    );
    assert_ne!(
        Expression::Not {
            expr: Box::new(Expression::Variable {
                name: "A".to_string()
            })
        },
        Expression::Not {
            expr: Box::new(Expression::Variable {
                name: "B".to_string()
            })
        }
    );
}

#[test]
fn test_and() {
    assert_eq!(
        Expression::And {
            left: Box::new(Expression::Variable {
                name: "A".to_string()
            }),
            right: Box::new(Expression::Variable {
                name: "B".to_string()
            })
        },
        Expression::And {
            left: Box::new(Expression::Variable {
                name: "A".to_string()
            }),
            right: Box::new(Expression::Variable {
                name: "B".to_string()
            })
        }
    );
    assert_ne!(
        Expression::And {
            left: Box::new(Expression::Variable {
                name: "A".to_string()
            }),
            right: Box::new(Expression::Variable {
                name: "B".to_string()
            })
        },
        Expression::And {
            left: Box::new(Expression::Variable {
                name: "B".to_string()
            }),
            right: Box::new(Expression::Variable {
                name: "A".to_string()
            })
        }
    );
    assert_ne!(
        Expression::And {
            left: Box::new(Expression::Variable {
                name: "A".to_string()
            }),
            right: Box::new(Expression::Variable {
                name: "B".to_string()
            })
        },
        Expression::Or {
            left: Box::new(Expression::Variable {
                name: "B".to_string()
            }),
            right: Box::new(Expression::Variable {
                name: "A".to_string()
            })
        }
    );
}

#[test]
fn test_or() {
    assert_eq!(
        Expression::Or {
            left: Box::new(Expression::Variable {
                name: "A".to_string()
            }),
            right: Box::new(Expression::Variable {
                name: "B".to_string()
            })
        },
        Expression::Or {
            left: Box::new(Expression::Variable {
                name: "A".to_string()
            }),
            right: Box::new(Expression::Variable {
                name: "B".to_string()
            })
        }
    );
    assert_ne!(
        Expression::Or {
            left: Box::new(Expression::Variable {
                name: "A".to_string()
            }),
            right: Box::new(Expression::Variable {
                name: "B".to_string()
            })
        },
        Expression::Or {
            left: Box::new(Expression::Variable {
                name: "B".to_string()
            }),
            right: Box::new(Expression::Variable {
                name: "A".to_string()
            })
        }
    );
    assert_ne!(
        Expression::Or {
            left: Box::new(Expression::Variable {
                name: "A".to_string()
            }),
            right: Box::new(Expression::Variable {
                name: "B".to_string()
            })
        },
        Expression::And {
            left: Box::new(Expression::Variable {
                name: "A".to_string()
            }),
            right: Box::new(Expression::Variable {
                name: "B".to_string()
            })
        }
    );
}

#[test]
fn test_all() {
    assert_eq!(
        Expression::All {
            var: "x".to_string(),
            expr: Box::new(Expression::Variable {
                name: "x".to_string()
            })
        },
        Expression::All {
            var: "x".to_string(),
            expr: Box::new(Expression::Variable {
                name: "x".to_string()
            })
        }
    );
    assert_ne!(
        Expression::All {
            var: "x".to_string(),
            expr: Box::new(Expression::Variable {
                name: "x".to_string()
            })
        },
        Expression::All {
            var: "y".to_string(),
            expr: Box::new(Expression::Variable {
                name: "x".to_string()
            })
        }
    );
    assert_ne!(
        Expression::All {
            var: "x".to_string(),
            expr: Box::new(Expression::Variable {
                name: "x".to_string()
            })
        },
        Expression::All {
            var: "x".to_string(),
            expr: Box::new(Expression::Variable {
                name: "y".to_string()
            })
        }
    );
}

#[test]
fn test_any() {
    assert_eq!(
        Expression::Any {
            var: "x".to_string(),
            expr: Box::new(Expression::Variable {
                name: "x".to_string()
            })
        },
        Expression::Any {
            var: "x".to_string(),
            expr: Box::new(Expression::Variable {
                name: "x".to_string()
            })
        }
    );
    assert_ne!(
        Expression::Any {
            var: "x".to_string(),
            expr: Box::new(Expression::Variable {
                name: "x".to_string()
            })
        },
        Expression::Any {
            var: "y".to_string(),
            expr: Box::new(Expression::Variable {
                name: "x".to_string()
            })
        }
    );
    assert_ne!(
        Expression::Any {
            var: "x".to_string(),
            expr: Box::new(Expression::Variable {
                name: "x".to_string()
            })
        },
        Expression::Any {
            var: "x".to_string(),
            expr: Box::new(Expression::Variable {
                name: "y".to_string()
            })
        }
    );
}

#[test]
fn test_api() {
    assert_eq!(
        var("A"),
        Expression::Variable {
            name: "A".to_string()
        }
    );

    assert_eq!(
        not(var("A")),
        Expression::Not {
            expr: Box::new(Expression::Variable {
                name: "A".to_string()
            })
        }
    );

    assert_eq!(
        imply(var("A"), var("B")),
        Expression::Or {
            left: Box::new(Expression::Not {
                expr: Box::new(Expression::Variable {
                    name: "A".to_string()
                })
            }),
            right: Box::new(Expression::Variable {
                name: "B".to_string()
            })
        }
    );

    assert_eq!(
        equivalent(var("A"), var("B")),
        Expression::And {
            left: Box::new(Expression::Or {
                left: Box::new(Expression::Not {
                    expr: Box::new(Expression::Variable {
                        name: "A".to_string()
                    })
                }),
                right: Box::new(Expression::Variable {
                    name: "B".to_string()
                })
            }),
            right: Box::new(Expression::Or {
                left: Box::new(Expression::Variable {
                    name: "A".to_string()
                }),
                right: Box::new(Expression::Not {
                    expr: Box::new(Expression::Variable {
                        name: "B".to_string()
                    })
                })
            })
        }
    );

    assert_eq!(
        any("y", all("x", or(and(not(var("y")), var("x")), var("A")))),
        Expression::Any {
            var: "y".to_string(),
            expr: Box::new(Expression::All {
                var: "x".to_string(),
                expr: Box::new(Expression::Or {
                    left: Box::new(Expression::And {
                        left: Box::new(Expression::Not {
                            expr: Box::new(Expression::Variable {
                                name: "y".to_string()
                            })
                        }),
                        right: Box::new(Expression::Variable {
                            name: "x".to_string()
                        })
                    }),
                    right: Box::new(Expression::Variable {
                        name: "A".to_string()
                    })
                })
            })
        }
    );
}

#[test]
fn predicate_holds_its_arguments_in_order() {
    assert_eq!(
        predicate("test", &["x", "y"]),
        Expression::Predicate {
            name: "test".to_string(),
            vars: vec!["x".to_string(), "y".to_string()]
        }
    );
    assert_eq!(
        predicate("empty", &[]),
        Expression::Predicate {
            name: "empty".to_string(),
            vars: vec![]
        }
    );
    assert_eq!(predicate("p", &["x"]).clone(), predicate("p", &["x"]));
}

#[test]
fn expression_nnf_pushes_negations_down() {
    // ¬∀x:∃y:((¬(¬A∧B)∨C) → test(x, y))
    let input = not(all(
        "x",
        any(
            "y",
            imply(
                or(not(and(not(var("A")), var("B"))), var("C")),
                predicate("test", &["x", "y"]),
            ),
        ),
    ));
    let expected = any(
        "x",
        all(
            "y",
            and(
                or(or(var("A"), not(var("B"))), var("C")),
                not(predicate("test", &["x", "y"])),
            ),
        ),
    );
    let nnf = to_nnf(&input);
    assert_eq!(nnf, expected);
    assert_eq!(to_nnf(&nnf), nnf);
    assert_eq!(to_nnf(&not(not(var("A")))), var("A"));
}

#[test]
fn fmt_test_fmt() {
    let tree = all("x", any("y", and(or(not(var("A")), var("x")), var("y"))));
    assert_eq!(tree.to_string(), "∀x:(∃y:(((¬A∨x)∧y)))");
    let tree = all(
        "x",
        any(
            "y",
            and(predicate("pred_x", &["x"]), predicate("pred_xy", &["x", "y"])),
        ),
    );
    assert_eq!(tree.to_string(), "∀x:(∃y:((pred_x(x)∧pred_xy(x, y))))");
    assert_eq!(predicate("p", &[]).to_string(), "p()");
}

#[test]
fn test_to_nnf() {
    let tree = not(all(
        "x",
        any(
            "y",
            imply(
                or(not(and(not(var("A")), var("B"))), var("C")),
                predicate("test", &["x", "y"]),
            ),
        ),
    ));
    assert_eq!(
        to_nnf(&tree).to_string(),
        "∃x:(∀y:((((A∨¬B)∨C)∧¬test(x, y))))"
    );
}

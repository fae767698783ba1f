//! Operation costs: combinators, sums and worst cases.
use grovedb::costs::{CostContext, CostResult, CostsExt, OperationCost};

#[test]
fn test_map() {
    let initial = CostContext {
        value: 75,
        cost: OperationCost {
            loaded_bytes: 3,
            ..Default::default()
        },
    };

    let mapped = initial.map(|x| x + 25);
    assert_eq!(
        mapped,
        CostContext {
            value: 100,
            cost: OperationCost {
                loaded_bytes: 3,
                ..Default::default()
            },
        }
    );
}

#[test]
fn test_flat_map() {
    let initial = CostContext {
        value: 75,
        cost: OperationCost {
            loaded_bytes: 3,
            ..Default::default()
        },
    };

    let mapped = initial.flat_map(|x| CostContext {
        value: x + 25,
        cost: OperationCost {
            loaded_bytes: 7,
            ..Default::default()
        },
    });
    assert_eq!(
        mapped,
        CostContext {
            value: 100,
            cost: OperationCost {
                loaded_bytes: 10,
                ..Default::default()
            },
        }
    );
}

#[test]
fn test_map_ok() {
    let initial: CostResult<usize, ()> = CostContext {
        value: Ok(75),
        cost: OperationCost {
            loaded_bytes: 3,
            ..Default::default()
        },
    };

    let mapped = initial.map_ok(|x| x + 25);
    assert_eq!(
        mapped,
        CostContext {
            value: Ok(100),
            cost: OperationCost {
                loaded_bytes: 3,
                ..Default::default()
            },
        }
    );
}

#[test]
fn test_map_ok_err() {
    let initial: CostResult<usize, ()> = CostContext {
        value: Err(()),
        cost: OperationCost {
            loaded_bytes: 3,
            ..Default::default()
        },
    };

    let mapped = initial.map_ok(|x| x + 25);
    assert_eq!(
        mapped,
        CostContext {
            value: Err(()),
            cost: OperationCost {
                loaded_bytes: 3,
                ..Default::default()
            },
        }
    );
}

#[test]
fn test_flat_map_ok() {
    let initial: CostResult<usize, ()> = CostContext {
        value: Ok(75),
        cost: OperationCost {
            loaded_bytes: 3,
            ..Default::default()
        },
    };

    let mapped = initial.flat_map_ok(|x| CostContext {
        value: Ok(x + 25),
        cost: OperationCost {
            loaded_bytes: 7,
            ..Default::default()
        },
    });
    assert_eq!(
        mapped,
        CostContext {
            value: Ok(100),
            cost: OperationCost {
                loaded_bytes: 10,
                ..Default::default()
            },
        }
    );
}

#[test]
fn test_flat_map_err_first() {
    let initial: CostResult<usize, ()> = CostContext {
        value: Err(()),
        cost: OperationCost {
            loaded_bytes: 3,
            ..Default::default()
        },
    };
    let mut executed = false;
    let mapped = initial.flat_map_ok(|x| {
        executed = true;
        CostContext {
            value: Ok(x + 25),
            cost: OperationCost {
                loaded_bytes: 7,
                ..Default::default()
            },
        }
    });

    // Second function won't be executed and thus no costs added.
    assert!(!executed);
    assert_eq!(
        mapped,
        CostContext {
            value: Err(()),
            cost: OperationCost {
                loaded_bytes: 3,
                ..Default::default()
            },
        }
    );
}

#[test]
fn test_flat_map_err_second() {
    let initial: CostResult<usize, ()> = CostContext {
        value: Ok(75),
        cost: OperationCost {
            loaded_bytes: 3,
            ..Default::default()
        },
    };
    let mut executed = false;
    let mapped: CostResult<usize, ()> = initial.flat_map_ok(|_| {
        executed = true;
        CostContext {
            value: Err(()),
            cost: OperationCost {
                loaded_bytes: 7,
                ..Default::default()
            },
        }
    });

    // Second function should be executed and costs should increase. Result is error
    // though.
    assert!(executed);
    assert_eq!(
        mapped,
        CostContext {
            value: Err(()),
            cost: OperationCost {
                loaded_bytes: 10,
                ..Default::default()
            },
        }
    );
}

#[test]
fn test_flatten_nested_errors() {
    let initial: CostResult<usize, &str> = CostContext {
        value: Ok(75),
        cost: OperationCost {
            loaded_bytes: 3,
            ..Default::default()
        },
    };
    // We use function that has nothing to do with costs but returns a result, we're
    // trying to flatten nested errors inside CostContext.
    let ok = initial.map_ok(|x| Ok(x + 25));
    assert_eq!(ok.flatten().unwrap(), Ok(100));

    let initial: CostResult<usize, &str> = CostContext {
        value: Ok(75),
        cost: OperationCost {
            loaded_bytes: 3,
            ..Default::default()
        },
    };
    let error_inner: CostResult<Result<usize, &str>, &str> = initial.map_ok(|_| Err("latter"));
    assert_eq!(error_inner.flatten().unwrap(), Err("latter"));

    let initial: CostResult<usize, &str> = CostContext {
        value: Err("inner"),
        cost: OperationCost {
            loaded_bytes: 3,
            ..Default::default()
        },
    };
    let error_inner: CostResult<Result<usize, &str>, &str> = initial.map_ok(|x| Ok(x + 25));
    assert_eq!(error_inner.flatten().unwrap(), Err("inner"));
}

#[test]
fn test_wrap_fn_cost() {
    // Imagine this one is loaded from storage.
    let loaded_value = b"ayylmao";
    let costs_ctx = loaded_value.wrap_fn_cost(|x| OperationCost {
        seek_count: 1,
        loaded_bytes: x.len() as u32,
        ..Default::default()
    });
    assert_eq!(
        costs_ctx,
        CostContext {
            value: loaded_value,
            cost: OperationCost {
                seek_count: 1,
                loaded_bytes: 7,
                ..Default::default()
            }
        }
    )
}

#[test]
fn test_map_err() {
    let initial: CostResult<usize, ()> = CostContext {
        value: Err(()),
        cost: OperationCost {
            loaded_bytes: 3,
            ..Default::default()
        },
    };

    let mapped = initial.map_err(|_| "ayyerror");
    assert_eq!(
        mapped,
        CostContext {
            value: Err("ayyerror"),
            cost: OperationCost {
                loaded_bytes: 3,
                ..Default::default()
            },
        }
    );
}

fn cost(n: u16) -> OperationCost {
    OperationCost {
        seek_count: n,
        storage_written_bytes: n as u32 * 2,
        storage_loaded_bytes: n as u32 * 3,
        loaded_bytes: n as u32 * 4,
        hash_byte_calls: n as u32 * 5,
        hash_node_calls: n * 6,
    }
}

#[test]
fn default_cost_is_zero() {
    let zero = OperationCost::default();
    assert_eq!(
        zero,
        OperationCost {
            seek_count: 0,
            storage_written_bytes: 0,
            storage_loaded_bytes: 0,
            loaded_bytes: 0,
            hash_byte_calls: 0,
            hash_node_calls: 0,
        }
    );
}

#[test]
fn sums_add_every_counter() {
    assert_eq!(cost(1) + cost(2), cost(3));
    let mut total = cost(4);
    total.add_assign(cost(5));
    assert_eq!(total, cost(9));
}

#[test]
fn room_is_counted_per_counter() {
    let full = OperationCost {
        seek_count: u16::MAX,
        ..Default::default()
    };
    assert!(full.has_room_for(&OperationCost::default()));
    assert!(!full.has_room_for(&cost(1)));
    assert!(cost(1).has_room_for(&cost(2)));
    let full = OperationCost {
        loaded_bytes: u32::MAX - 3,
        ..Default::default()
    };
    assert!(!full.has_room_for(&cost(1)));
}

#[test]
fn sums_commute_and_associate() {
    assert_eq!(cost(1) + cost(7), cost(7) + cost(1));
    assert_eq!((cost(1) + cost(2)) + cost(3), cost(1) + (cost(2) + cost(3)));
    assert_eq!(cost(8) + OperationCost::default(), cost(8));
}

#[test]
fn accumulated_cost_is_not_lost() {
    let mut total = cost(3);
    let value = 5u8.wrap_with_cost(cost(4)).unwrap_add_cost(&mut total);
    assert_eq!(value, 5);
    assert_eq!(total, cost(7));
}

#[test]
fn value_and_cost_can_be_borrowed() {
    let wrapped = "value".wrap_with_cost(cost(2));
    assert_eq!(*wrapped.value(), "value");
    assert_eq!(*wrapped.cost(), cost(2));
    assert_eq!(wrapped.add_cost(cost(3)).cost, cost(5));
}

#[test]
fn nested_contexts_flatten_with_both_costs() {
    let nested = 9u8.wrap_with_cost(cost(1)).wrap_with_cost(cost(2));
    let flat = nested.flatten();
    assert_eq!(flat.value, 9);
    assert_eq!(flat.cost, cost(3));
}

#[test]
fn map_err_leaves_ok_alone() {
    let initial: CostResult<usize, ()> = Ok(75).wrap_with_cost(cost(1));
    let mapped = initial.map_err(|_| "ayyerror");
    assert_eq!(mapped.value, Ok(75));
    assert_eq!(mapped.cost, cost(1));
}

#[test]
fn worst_case_of_getting_a_merk() {
    let mut total = OperationCost::default();
    total.add_worst_case_get_merk(3);
    assert_eq!(
        total,
        OperationCost {
            seek_count: 1,
            hash_byte_calls: 3,
            ..Default::default()
        }
    );
}

#[test]
fn worst_case_of_looking_for_an_element() {
    let mut total = cost(1);
    total.add_worst_case_merk_has_element(b"four");
    assert_eq!(
        total,
        OperationCost {
            seek_count: 2,
            loaded_bytes: 8,
            ..cost(1)
        }
    );
}

#[test]
fn worst_cases_that_charge_nothing() {
    let mut total = cost(1);
    total.add_worst_case_merk_root_hash();
    total.add_worst_case_open_root_meta_storage();
    total.add_worst_case_save_root_leaves();
    total.add_worst_case_load_root_leaves();
    assert_eq!(total, cost(1));
}

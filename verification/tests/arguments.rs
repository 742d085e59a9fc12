use hashcodecs::arguments::{
    bind_arguments, bytes_equal, parse_hash_arguments, seed_u32, seed_u64, BindError, HashArguments,
    HashArgumentsError, SeedArgument, SeedError,
};

fn names(list: &[&str]) -> Vec<Vec<u8>> {
    list.iter().map(|name| name.as_bytes().to_vec()).collect()
}

#[test]
fn raw_arguments_bind_by_position_and_keyword() {
    let parameters = names(&["s", "altchars", "validate"]);
    assert_eq!(
        bind_arguments(1, &names(&["validate"]), &parameters, 2, 1),
        Ok(vec![Some(0), None, Some(1)])
    );
    assert_eq!(
        bind_arguments(2, &names(&[]), &parameters, 2, 1),
        Ok(vec![Some(0), Some(1), None])
    );
    assert_eq!(
        bind_arguments(0, &names(&["altchars", "s"]), &parameters, 2, 1),
        Ok(vec![Some(1), Some(0), None])
    );
    assert_eq!(
        bind_arguments(3, &names(&[]), &parameters, 2, 1),
        Err(BindError::TooManyPositional { given: 3 })
    );
    assert_eq!(
        bind_arguments(1, &names(&["strict"]), &parameters, 2, 1),
        Err(BindError::UnexpectedKeyword { keyword: 0 })
    );
    assert_eq!(
        bind_arguments(1, &names(&["s"]), &parameters, 2, 1),
        Err(BindError::MultipleValues { parameter: 0 })
    );
    assert_eq!(
        bind_arguments(0, &names(&["validate"]), &parameters, 2, 1),
        Err(BindError::MissingRequired { parameter: 0 })
    );
}

#[test]
fn hash_arguments_take_input_and_optional_seed() {
    assert_eq!(parse_hash_arguments(1, &names(&[])), Ok(HashArguments { input: 0, seed: None }));
    assert_eq!(parse_hash_arguments(2, &names(&[])), Ok(HashArguments { input: 0, seed: Some(1) }));
    assert_eq!(parse_hash_arguments(1, &names(&["seed"])), Ok(HashArguments { input: 0, seed: Some(1) }));
    assert_eq!(parse_hash_arguments(0, &names(&["seed", "s"])), Ok(HashArguments { input: 1, seed: Some(0) }));
    assert_eq!(parse_hash_arguments(3, &names(&[])), Err(HashArgumentsError::TakesAtMostTwo));
    assert_eq!(parse_hash_arguments(2, &names(&["seed"])), Err(HashArgumentsError::TooMany));
    assert_eq!(parse_hash_arguments(1, &names(&["s"])), Err(HashArgumentsError::MultipleInputs));
    assert_eq!(parse_hash_arguments(0, &names(&["seed", "seed"])), Err(HashArgumentsError::MultipleSeeds));
    assert_eq!(parse_hash_arguments(0, &names(&["data"])), Err(HashArgumentsError::UnexpectedKeyword));
    assert_eq!(parse_hash_arguments(0, &names(&["seed"])), Err(HashArgumentsError::MissingInput));
    assert_eq!(parse_hash_arguments(0, &names(&[])), Err(HashArgumentsError::MissingInput));
    assert!(bytes_equal(b"seed", b"seed"));
    assert!(!bytes_equal(b"seed", b"see"));
}

#[test]
fn seeds_default_to_zero_and_narrow_to_32_bits() {
    assert_eq!(seed_u32(SeedArgument::Absent), Ok(0));
    assert_eq!(seed_u32(SeedArgument::Converted(7)), Ok(7));
    assert_eq!(seed_u32(SeedArgument::Converted(u64::from(u32::MAX))), Ok(u32::MAX));
    assert_eq!(seed_u32(SeedArgument::Converted(u64::from(u32::MAX) + 1)), Err(SeedError::TooLarge));
    assert_eq!(seed_u32(SeedArgument::Unconvertible), Err(SeedError::Unconvertible));
    assert_eq!(seed_u64(SeedArgument::Absent), Ok(0));
    assert_eq!(seed_u64(SeedArgument::Converted(u64::MAX)), Ok(u64::MAX));
    assert_eq!(seed_u64(SeedArgument::Unconvertible), Err(SeedError::Unconvertible));
}

#[test]
fn binding_succeeds_exactly_when_every_slot_is_filled_once() {
    let parameters = names(&["s", "altchars", "padded"]);
    assert_eq!(bind_arguments(1, &names(&["padded"]), &parameters, 2, 1), Ok(vec![Some(0), None, Some(1)]));
    assert_eq!(bind_arguments(0, &names(&["altchars", "s"]), &parameters, 2, 1), Ok(vec![Some(1), Some(0), None]));
    assert_eq!(
        bind_arguments(1, &names(&["s"]), &parameters, 2, 1),
        Err(BindError::MultipleValues { parameter: 0 })
    );
    assert_eq!(
        bind_arguments(0, &names(&["padded", "padded"]), &parameters, 2, 1),
        Err(BindError::MultipleValues { parameter: 2 })
    );
    assert_eq!(
        bind_arguments(0, &names(&["padded"]), &parameters, 2, 1),
        Err(BindError::MissingRequired { parameter: 0 })
    );
}

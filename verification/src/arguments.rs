//! Binding the positional and keyword arguments of a fast call to named
//! parameters.

use vstd::prelude::*;

verus! {

/// Why a call's arguments could not be bound.
#[derive(Clone, Copy, Debug, PartialEq, Eq, Structural)]
pub enum BindError {
    /// More positional arguments than the function takes.
    TooManyPositional { given: usize },
    /// The keyword at this position names no parameter.
    UnexpectedKeyword { keyword: usize },
    /// The parameter at this index got two values.
    MultipleValues { parameter: usize },
    /// The required parameter at this index got no value.
    MissingRequired { parameter: usize },
}

/// The first parameter named `name` among the first `n` parameters.
pub open spec fn first_named(parameters: Seq<Vec<u8>>, name: Seq<u8>, n: int) -> Option<int>
    decreases n,
{
    if n <= 0 {
        None
    } else {
        match first_named(parameters, name, n - 1) {
            Some(p) => Some(p),
            None => if parameters[n - 1]@ == name {
                Some(n - 1)
            } else {
                None
            },
        }
    }
}

/// The slots after binding the first `k` keywords: each positional argument
/// fills its own slot, and each keyword the slot of the first parameter of
/// its name, which must still be empty. A slot holds the index of its value
/// in the argument array, where keyword values follow the positional ones.
pub open spec fn bind_keywords(
    nargs: int,
    keywords: Seq<Vec<u8>>,
    parameters: Seq<Vec<u8>>,
    k: int,
) -> Result<Seq<Option<usize>>, BindError>
    decreases k,
{
    if k <= 0 {
        Ok(Seq::new(parameters.len(), |i: int| if i < nargs { Some(i as usize) } else { None }))
    } else {
        match bind_keywords(nargs, keywords, parameters, k - 1) {
            Err(e) => Err(e),
            Ok(slots) => match first_named(parameters, keywords[k - 1]@, parameters.len() as int) {
                None => Err(BindError::UnexpectedKeyword { keyword: (k - 1) as usize }),
                Some(p) => if slots[p] is Some {
                    Err(BindError::MultipleValues { parameter: p as usize })
                } else {
                    Ok(slots.update(p, Some((nargs + k - 1) as usize)))
                },
            },
        }
    }
}

/// The first of the first `n` slots that is empty.
pub open spec fn first_missing(slots: Seq<Option<usize>>, n: int) -> Option<int>
    decreases n,
{
    if n <= 0 {
        None
    } else {
        match first_missing(slots, n - 1) {
            Some(r) => Some(r),
            None => if slots[n - 1] is None {
                Some(n - 1)
            } else {
                None
            },
        }
    }
}

/// The binding of a call with `nargs` positional arguments and the named
/// keywords.
pub open spec fn bind_spec(
    nargs: int,
    keywords: Seq<Vec<u8>>,
    parameters: Seq<Vec<u8>>,
    max_positional: int,
    required: int,
) -> Result<Seq<Option<usize>>, BindError> {
    if nargs > max_positional {
        Err(BindError::TooManyPositional { given: nargs as usize })
    } else {
        match bind_keywords(nargs, keywords, parameters, keywords.len() as int) {
            Err(e) => Err(e),
            Ok(slots) => match first_missing(slots, required) {
                Some(r) => Err(BindError::MissingRequired { parameter: r as usize }),
                None => Ok(slots),
            },
        }
    }
}

/// Whether two byte strings are equal.
pub fn bytes_equal(a: &[u8], b: &[u8]) -> (equal: bool)
    ensures
        equal == (a@ == b@),
{
    if a.len() != b.len() {
        return false;
    }
    let mut i: usize = 0;
    while i < a.len()
        invariant
            i <= a@.len(),
            a@.len() == a.len(),
            b@.len() == a@.len(),
            forall|j: int| 0 <= j < i ==> a@[j] == b@[j],
        decreases a@.len() - i,
    {
        if a[i] != b[i] {
            return false;
        }
        i = i + 1;
    }
    assert(a@ =~= b@);
    true
}

/// The index of the first parameter named `name`.
fn find_parameter(parameters: &Vec<Vec<u8>>, name: &[u8]) -> (index: Option<usize>)
    ensures
        index matches Some(i) ==> i < parameters@.len(),
        match first_named(parameters@, name@, parameters@.len() as int) {
            Some(p) => index == Some(p as usize),
            None => index is None,
        },
{
    let mut i: usize = 0;
    while i < parameters.len()
        invariant
            i <= parameters@.len(),
            first_named(parameters@, name@, i as int) is None,
        decreases parameters@.len() - i,
    {
        if bytes_equal(parameters[i].as_slice(), name) {
            proof {
                lemma_first_named_stable(parameters@, name@, i + 1, parameters@.len() as int);
            }
            return Some(i);
        }
        i = i + 1;
    }
    None
}

/// A first match is one of the parameters searched.
proof fn lemma_first_named_range(parameters: Seq<Vec<u8>>, name: Seq<u8>, n: int)
    ensures
        first_named(parameters, name, n) matches Some(p) ==> 0 <= p < n,
    decreases n,
{
    if n > 0 {
        lemma_first_named_range(parameters, name, n - 1);
    }
}

/// A binding error after some keywords is the error after all of them.
proof fn lemma_bind_error_stable(
    nargs: int,
    keywords: Seq<Vec<u8>>,
    parameters: Seq<Vec<u8>>,
    m: int,
    n: int,
)
    requires
        0 <= m <= n,
        bind_keywords(nargs, keywords, parameters, m) is Err,
    ensures
        bind_keywords(nargs, keywords, parameters, n) == bind_keywords(nargs, keywords, parameters, m),
    decreases n - m,
{
    if m < n {
        lemma_bind_error_stable(nargs, keywords, parameters, m, n - 1);
    }
}

/// A hash binding error after some keywords is the error after all of them.
proof fn lemma_hash_error_stable(nargs: int, keywords: Seq<Vec<u8>>, m: int, n: int)
    requires
        0 <= m <= n,
        hash_keywords(nargs, keywords, m) is Err,
    ensures
        hash_keywords(nargs, keywords, n) == hash_keywords(nargs, keywords, m),
    decreases n - m,
{
    if m < n {
        lemma_hash_error_stable(nargs, keywords, m, n - 1);
    }
}

/// A first match among a prefix stays the first match among longer ones.
proof fn lemma_first_named_stable(parameters: Seq<Vec<u8>>, name: Seq<u8>, m: int, n: int)
    requires
        0 <= m <= n,
        first_named(parameters, name, m) is Some,
    ensures
        first_named(parameters, name, n) == first_named(parameters, name, m),
    decreases n - m,
{
    if m < n {
        lemma_first_named_stable(parameters, name, m, n - 1);
    }
}

/// Bind a call's arguments to parameters by position and by keyword.
pub fn bind_arguments(
    nargs: usize,
    keywords: &Vec<Vec<u8>>,
    parameters: &Vec<Vec<u8>>,
    max_positional: usize,
    required: usize,
) -> (slots: Result<Vec<Option<usize>>, BindError>)
    requires
        max_positional <= parameters@.len(),
        required <= parameters@.len(),
        nargs + keywords@.len() <= usize::MAX,
    ensures
        match bind_spec(
            nargs as int,
            keywords@,
            parameters@,
            max_positional as int,
            required as int,
        ) {
            Ok(expected) => slots matches Ok(v) && v@ == expected,
            Err(e) => slots == Err::<Vec<Option<usize>>, BindError>(e),
        },
{
    if nargs > max_positional {
        return Err(BindError::TooManyPositional { given: nargs });
    }
    let mut values: Vec<Option<usize>> = Vec::new();
    let mut i: usize = 0;
    while i < parameters.len()
        invariant
            i <= parameters@.len(),
            nargs <= max_positional <= parameters@.len(),
            values@.len() == i,
            forall|j: int| 0 <= j < i ==> values@[j] == if j < nargs {
                Some(j as usize)
            } else {
                None::<usize>
            },
        decreases parameters@.len() - i,
    {
        if i < nargs {
            values.push(Some(i));
        } else {
            values.push(None);
        }
        i = i + 1;
    }
    proof {
        assert(values@ =~= Seq::new(
            parameters@.len(),
            |i: int|
                if i < nargs {
                    Some(i as usize)
                } else {
                    None
                },
        ));
    }
    let mut k: usize = 0;
    while k < keywords.len()
        invariant
            k <= keywords@.len(),
            nargs <= max_positional,
            nargs + keywords@.len() <= usize::MAX,
            values@.len() == parameters@.len(),
            bind_keywords(nargs as int, keywords@, parameters@, k as int) == Ok::<
                Seq<Option<usize>>,
                BindError,
            >(values@),
        decreases keywords@.len() - k,
    {
        let name = keywords[k].as_slice();
        proof {
            assert(name@ == keywords@[k as int]@);
            lemma_first_named_range(parameters@, name@, parameters@.len() as int);
        }
        match find_parameter(parameters, name) {
            None => {
                proof {
                    lemma_bind_error_stable(nargs as int, keywords@, parameters@, k + 1, keywords@.len() as int);
                }
                return Err(BindError::UnexpectedKeyword { keyword: k });
            },
            Some(p) => {
                if values[p].is_some() {
                    proof {
                        lemma_bind_error_stable(nargs as int, keywords@, parameters@, k + 1, keywords@.len() as int);
                    }
                    return Err(BindError::MultipleValues { parameter: p });
                }
                values.set(p, Some(nargs + k));
            },
        }
        k = k + 1;
    }
    let mut r: usize = 0;
    while r < required
        invariant
            r <= required <= parameters@.len(),
            nargs <= max_positional,
            values@.len() == parameters@.len(),
            bind_keywords(nargs as int, keywords@, parameters@, keywords@.len() as int) == Ok::<
                Seq<Option<usize>>,
                BindError,
            >(values@),
            first_missing(values@, r as int) is None,
        decreases required - r,
    {
        if values[r].is_none() {
            proof {
                lemma_first_missing_stable(values@, r + 1, required as int);
            }
            return Err(BindError::MissingRequired { parameter: r });
        }
        r = r + 1;
    }
    Ok(values)
}

proof fn lemma_first_missing_stable(slots: Seq<Option<usize>>, m: int, n: int)
    requires
        0 <= m <= n,
        first_missing(slots, m) is Some,
    ensures
        first_missing(slots, n) == first_missing(slots, m),
    decreases n - m,
{
    if m < n {
        lemma_first_missing_stable(slots, m, n - 1);
    }
}

/// Why the arguments of a hash call could not be bound.
#[derive(Clone, Copy, Debug, PartialEq, Eq, Structural)]
pub enum HashArgumentsError {
    /// "takes at most 2 arguments"
    TakesAtMostTwo,
    /// "got too many arguments"
    TooMany,
    /// "got multiple values for argument 's'"
    MultipleInputs,
    /// "got multiple values for argument 'seed'"
    MultipleSeeds,
    /// "got an unexpected keyword argument"
    UnexpectedKeyword,
    /// "missing required argument 's'"
    MissingInput,
}

/// The argument indices of a hash call's input and seed.
#[derive(Clone, Copy, Debug, PartialEq, Eq, Structural)]
pub struct HashArguments {
    pub input: usize,
    pub seed: Option<usize>,
}

/// The bytes of the keyword `s`.
pub open spec fn is_input_keyword(name: Seq<u8>) -> bool {
    name == seq![115u8]
}

/// The bytes of the keyword `seed`.
pub open spec fn is_seed_keyword(name: Seq<u8>) -> bool {
    name == seq![115u8, 101u8, 101u8, 100u8]
}

/// The binding state of a hash call after the first `k` keywords.
pub open spec fn hash_keywords(nargs: int, keywords: Seq<Vec<u8>>, k: int) -> Result<
    (Option<usize>, Option<usize>),
    HashArgumentsError,
>
    decreases k,
{
    if k <= 0 {
        Ok(
            (
                if nargs >= 1 {
                    Some(0usize)
                } else {
                    None
                },
                if nargs >= 2 {
                    Some(1usize)
                } else {
                    None
                },
            ),
        )
    } else {
        match hash_keywords(nargs, keywords, k - 1) {
            Err(e) => Err(e),
            Ok((input, seed)) => {
                let name = keywords[k - 1]@;
                let index = (nargs + k - 1) as usize;
                if is_input_keyword(name) {
                    if input is Some {
                        Err(HashArgumentsError::MultipleInputs)
                    } else {
                        Ok((Some(index), seed))
                    }
                } else if is_seed_keyword(name) {
                    if seed is Some {
                        Err(HashArgumentsError::MultipleSeeds)
                    } else {
                        Ok((input, Some(index)))
                    }
                } else {
                    Err(HashArgumentsError::UnexpectedKeyword)
                }
            },
        }
    }
}

/// The binding of a hash call `(s, seed=0)`.
pub open spec fn hash_arguments_spec(nargs: int, keywords: Seq<Vec<u8>>) -> Result<
    HashArguments,
    HashArgumentsError,
> {
    if nargs > 2 {
        Err(HashArgumentsError::TakesAtMostTwo)
    } else if nargs + keywords.len() > 2 {
        Err(HashArgumentsError::TooMany)
    } else {
        match hash_keywords(nargs, keywords, keywords.len() as int) {
            Err(e) => Err(e),
            Ok((None, _)) => Err(HashArgumentsError::MissingInput),
            Ok((Some(input), seed)) => Ok(HashArguments { input, seed }),
        }
    }
}

/// Bind the arguments of a hash call `(s, seed=0)`: at most two in all, by
/// position or by keyword, each at most once, and `s` required.
pub fn parse_hash_arguments(nargs: usize, keywords: &Vec<Vec<u8>>) -> (bound: Result<
    HashArguments,
    HashArgumentsError,
>)
    ensures
        bound == hash_arguments_spec(nargs as int, keywords@),
{
    if nargs > 2 {
        return Err(HashArgumentsError::TakesAtMostTwo);
    }
    if keywords.len() > 2 - nargs {
        return Err(HashArgumentsError::TooMany);
    }
    let mut input: Option<usize> = if nargs >= 1 {
        Some(0)
    } else {
        None
    };
    let mut seed: Option<usize> = if nargs >= 2 {
        Some(1)
    } else {
        None
    };
    let input_name: [u8; 1] = [115];
    let seed_name: [u8; 4] = [115, 101, 101, 100];
    proof {
        assert(input_name@ =~= seq![115u8]);
        assert(seed_name@ =~= seq![115u8, 101u8, 101u8, 100u8]);
    }
    let mut k: usize = 0;
    while k < keywords.len()
        invariant
            k <= keywords@.len(),
            nargs + keywords@.len() <= 2,
            input_name@ == seq![115u8],
            seed_name@ == seq![115u8, 101u8, 101u8, 100u8],
            hash_keywords(nargs as int, keywords@, k as int) == Ok::<
                (Option<usize>, Option<usize>),
                HashArgumentsError,
            >((input, seed)),
        decreases keywords@.len() - k,
    {
        let name = keywords[k].as_slice();
        if bytes_equal(name, input_name.as_slice()) {
            if input.is_some() {
                proof {
                    lemma_hash_error_stable(nargs as int, keywords@, k + 1, keywords@.len() as int);
                }
                return Err(HashArgumentsError::MultipleInputs);
            }
            input = Some(nargs + k);
        } else if bytes_equal(name, seed_name.as_slice()) {
            if seed.is_some() {
                proof {
                    lemma_hash_error_stable(nargs as int, keywords@, k + 1, keywords@.len() as int);
                }
                return Err(HashArgumentsError::MultipleSeeds);
            }
            seed = Some(nargs + k);
        } else {
            proof {
                lemma_hash_error_stable(nargs as int, keywords@, k + 1, keywords@.len() as int);
            }
            return Err(HashArgumentsError::UnexpectedKeyword);
        }
        k = k + 1;
    }
    match input {
        None => Err(HashArgumentsError::MissingInput),
        Some(input) => Ok(HashArguments { input, seed }),
    }
}

/// A seed argument as the interpreter converted it to an unsigned 64-bit
/// integer.
#[derive(Clone, Copy, Debug, PartialEq, Eq, Structural)]
pub enum SeedArgument {
    /// No seed was given.
    Absent,
    /// The seed converted to this value.
    Converted(u64),
    /// The conversion failed (a negative or oversized integer, or no
    /// integer); the interpreter has set its error.
    Unconvertible,
}

/// Why a seed was refused.
#[derive(Clone, Copy, Debug, PartialEq, Eq, Structural)]
pub enum SeedError {
    /// The interpreter's conversion error stands.
    Unconvertible,
    /// "seed does not fit in uint32"
    TooLarge,
}

/// A 32-bit seed: zero when absent.
pub fn seed_u32(seed: SeedArgument) -> (value: Result<u32, SeedError>)
    ensures
        value == match seed {
            SeedArgument::Absent => Ok::<u32, SeedError>(0),
            SeedArgument::Converted(v) => if v <= u32::MAX {
                Ok(v as u32)
            } else {
                Err(SeedError::TooLarge)
            },
            SeedArgument::Unconvertible => Err(SeedError::Unconvertible),
        },
{
    match seed {
        SeedArgument::Absent => Ok(0),
        SeedArgument::Converted(v) => if v <= 0xffff_ffffu64 {
            Ok(v as u32)
        } else {
            Err(SeedError::TooLarge)
        },
        SeedArgument::Unconvertible => Err(SeedError::Unconvertible),
    }
}

/// A 64-bit seed: zero when absent.
pub fn seed_u64(seed: SeedArgument) -> (value: Result<u64, SeedError>)
    ensures
        value == match seed {
            SeedArgument::Absent => Ok::<u64, SeedError>(0),
            SeedArgument::Converted(v) => Ok(v),
            SeedArgument::Unconvertible => Err(SeedError::Unconvertible),
        },
{
    match seed {
        SeedArgument::Absent => Ok(0),
        SeedArgument::Converted(v) => Ok(v),
        SeedArgument::Unconvertible => Err(SeedError::Unconvertible),
    }
}

/// The parameter that keyword `k` names.
pub open spec fn keyword_slot(keywords: Seq<Vec<u8>>, parameters: Seq<Vec<u8>>, k: int) -> Option<
    int,
> {
    first_named(parameters, keywords[k]@, parameters.len() as int)
}

/// The first `k` keywords each name a parameter that no positional
/// argument and no other of them fills.
pub open spec fn keywords_bind(
    nargs: int,
    keywords: Seq<Vec<u8>>,
    parameters: Seq<Vec<u8>>,
    k: int,
) -> bool {
    &&& forall|j: int|
        0 <= j < k ==> (#[trigger] keyword_slot(keywords, parameters, j) matches Some(p) && p
            >= nargs)
    &&& forall|j1: int, j2: int|
        0 <= j1 < j2 < k ==> #[trigger] keyword_slot(keywords, parameters, j1)
            != #[trigger] keyword_slot(keywords, parameters, j2)
}

/// Whether one of the first `k` keywords fills parameter `i`.
pub open spec fn filled_by_keyword(
    keywords: Seq<Vec<u8>>,
    parameters: Seq<Vec<u8>>,
    k: int,
    i: int,
) -> bool {
    exists|j: int| 0 <= j < k && keyword_slot(keywords, parameters, j) == Some(i)
}

/// The slots that binding the first `k` keywords gives: positional values
/// in their own slots, each keyword's value in the slot of its parameter,
/// and nothing elsewhere.
pub open spec fn expected_slots(
    nargs: int,
    keywords: Seq<Vec<u8>>,
    parameters: Seq<Vec<u8>>,
    k: int,
) -> Seq<Option<usize>> {
    Seq::new(
        parameters.len(),
        |i: int|
            if i < nargs {
                Some(i as usize)
            } else if filled_by_keyword(keywords, parameters, k, i) {
                Some(
                    (nargs + choose|j: int|
                        0 <= j < k && keyword_slot(keywords, parameters, j) == Some(i)) as usize,
                )
            } else {
                None
            },
    )
}

proof fn lemma_bind_keywords_form(
    nargs: int,
    keywords: Seq<Vec<u8>>,
    parameters: Seq<Vec<u8>>,
    k: int,
)
    requires
        0 <= nargs <= parameters.len(),
        0 <= k <= keywords.len(),
    ensures
        bind_keywords(nargs, keywords, parameters, k) is Ok <==> keywords_bind(
            nargs,
            keywords,
            parameters,
            k,
        ),
        bind_keywords(nargs, keywords, parameters, k) is Ok ==> bind_keywords(
            nargs,
            keywords,
            parameters,
            k,
        )->Ok_0 == expected_slots(nargs, keywords, parameters, k),
    decreases k,
{
    if k == 0 {
        assert(bind_keywords(nargs, keywords, parameters, 0)->Ok_0 =~= expected_slots(
            nargs,
            keywords,
            parameters,
            0,
        ));
    } else {
        lemma_bind_keywords_form(nargs, keywords, parameters, k - 1);
        let last = k - 1;
        let slot = keyword_slot(keywords, parameters, last);
        lemma_first_named_range(parameters, keywords[last]@, parameters.len() as int);
        if bind_keywords(nargs, keywords, parameters, k - 1) is Ok {
            let slots = bind_keywords(nargs, keywords, parameters, k - 1)->Ok_0;
            match slot {
                None => {
                    assert(!(keyword_slot(keywords, parameters, last) matches Some(p) && p
                        >= nargs));
                },
                Some(p) => {
                    if slots[p] is Some {
                        if p >= nargs {
                            let j = choose|j: int|
                                0 <= j < k - 1 && keyword_slot(keywords, parameters, j) == Some(p);
                            assert(keyword_slot(keywords, parameters, j) == keyword_slot(
                                keywords,
                                parameters,
                                last,
                            ));
                        }
                    } else {
                        assert(p >= nargs);
                        assert forall|j: int| 0 <= j < k - 1 implies keyword_slot(
                            keywords,
                            parameters,
                            j,
                        ) != Some(p) by {
                            if keyword_slot(keywords, parameters, j) == Some(p) {
                                assert(filled_by_keyword(keywords, parameters, k - 1, p));
                            }
                        }
                        assert(keywords_bind(nargs, keywords, parameters, k));
                        let next = slots.update(p, Some((nargs + k - 1) as usize));
                        let expected = expected_slots(nargs, keywords, parameters, k);
                        assert forall|i: int| 0 <= i < parameters.len() implies next[i]
                            == expected[i] by {
                            if i >= nargs {
                                if i == p {
                                    let j = choose|j: int|
                                        0 <= j < k && keyword_slot(keywords, parameters, j)
                                            == Some(i);
                                    assert(keyword_slot(keywords, parameters, last) == Some(i));
                                    if j != last {
                                        assert(keyword_slot(keywords, parameters, j) != Some(p));
                                    }
                                } else {
                                    if filled_by_keyword(keywords, parameters, k, i) {
                                        let j = choose|j: int|
                                            0 <= j < k && keyword_slot(keywords, parameters, j)
                                                == Some(i);
                                        assert(j != last);
                                        assert(filled_by_keyword(keywords, parameters, k - 1, i));
                                        let j0 = choose|j: int|
                                            0 <= j < k - 1 && keyword_slot(keywords, parameters, j)
                                                == Some(i);
                                        if j0 != j {
                                            if j0 < j {
                                                assert(keyword_slot(keywords, parameters, j0)
                                                    != keyword_slot(keywords, parameters, j));
                                            } else {
                                                assert(keyword_slot(keywords, parameters, j)
                                                    != keyword_slot(keywords, parameters, j0));
                                            }
                                        }
                                    } else {
                                        assert(!filled_by_keyword(keywords, parameters, k - 1, i));
                                    }
                                }
                            }
                        }
                        assert(next =~= expected);
                    }
                },
            }
        } else {
            assert(!keywords_bind(nargs, keywords, parameters, k - 1));
        }
    }
}

proof fn lemma_first_missing_none(slots: Seq<Option<usize>>, n: int)
    requires
        0 <= n <= slots.len(),
    ensures
        first_missing(slots, n) is None <==> forall|i: int| 0 <= i < n ==> #[trigger] slots[i] is Some,
    decreases n,
{
    if n > 0 {
        lemma_first_missing_none(slots, n - 1);
    }
}

/// Binding succeeds exactly when the positional arguments are few enough,
/// every keyword names a parameter that nothing else fills, and every
/// required parameter is filled; the slots then hold each positional value
/// in its own slot, each keyword's value in the slot of its parameter, and
/// nothing elsewhere.
pub proof fn lemma_binding_succeeds_exactly(
    nargs: int,
    keywords: Seq<Vec<u8>>,
    parameters: Seq<Vec<u8>>,
    max_positional: int,
    required: int,
)
    requires
        0 <= nargs,
        0 <= max_positional <= parameters.len(),
        0 <= required <= parameters.len(),
    ensures
        bind_spec(nargs, keywords, parameters, max_positional, required) is Ok <==> {
            &&& nargs <= max_positional
            &&& keywords_bind(nargs, keywords, parameters, keywords.len() as int)
            &&& forall|i: int|
                0 <= i < required ==> i < nargs || #[trigger] filled_by_keyword(
                    keywords,
                    parameters,
                    keywords.len() as int,
                    i,
                )
        },
        bind_spec(nargs, keywords, parameters, max_positional, required) is Ok ==> bind_spec(
            nargs,
            keywords,
            parameters,
            max_positional,
            required,
        )->Ok_0 == expected_slots(nargs, keywords, parameters, keywords.len() as int),
{
    if nargs <= max_positional {
        let k = keywords.len() as int;
        lemma_bind_keywords_form(nargs, keywords, parameters, k);
        if bind_keywords(nargs, keywords, parameters, k) is Ok {
            let slots = bind_keywords(nargs, keywords, parameters, k)->Ok_0;
            lemma_first_missing_none(slots, required);
            assert forall|i: int| 0 <= i < required implies (#[trigger] slots[i] is Some <==> (i
                < nargs || filled_by_keyword(keywords, parameters, k, i))) by {}
            let all_filled = forall|i: int|
                0 <= i < required ==> i < nargs || #[trigger] filled_by_keyword(
                    keywords,
                    parameters,
                    k,
                    i,
                );
            if all_filled {
                assert forall|i: int| 0 <= i < required implies #[trigger] slots[i] is Some by {
                    assert(i < nargs || filled_by_keyword(keywords, parameters, k, i));
                }
            } else {
                let i = choose|i: int|
                    !(0 <= i < required ==> i < nargs || #[trigger] filled_by_keyword(
                        keywords,
                        parameters,
                        k,
                        i,
                    ));
                assert(slots[i] is None);
            }
        }
    }
}

} // verus!

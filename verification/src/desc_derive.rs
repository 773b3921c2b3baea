use vstd::prelude::*;

verus! {

/// The kind of a generic parameter of a struct.
#[derive(Copy, Clone, Debug, PartialEq, Eq, Structural)]
pub enum GenericKind {
    Lifetime,
    Type,
    Const,
}

/// The kinds of the generic parameters of a struct, in order, for its source text; `None` when the text does not
/// parse as a struct.
pub uninterp spec fn parsed_struct_generics(text: Seq<char>) -> Option<Seq<GenericKind>>;

/// Parses the source text of a struct into the kinds of its generic parameters.
///
/// Calls `syn::parse_str::<syn::ItemStruct>`, which parses the text as a struct item or fails; the result is a
/// function of the text alone.
#[verifier::external_body]
fn parse_struct_generics(text: &str) -> (r: Option<Vec<GenericKind>>)
    ensures
        r is None ==> parsed_struct_generics(text@) is None,
        r matches Some(k) ==> parsed_struct_generics(text@) == Some(k@),
{
    let item = syn::parse_str::<syn::ItemStruct>(text).ok()?;
    Some(item.generics.params.iter().map(|g| match g {
        syn::GenericParam::Lifetime(_) => GenericKind::Lifetime,
        syn::GenericParam::Type(_) => GenericKind::Type,
        syn::GenericParam::Const(_) => GenericKind::Const,
    }).collect())
}

/// Why a struct cannot be a descriptor buffer.
#[derive(Copy, Clone, Debug, PartialEq, Eq, Structural)]
pub enum DescBufferError {
    /// The source text is not a struct.
    NotAStruct,
    /// A descriptor buffer must have at most one lifetime.
    TooManyLifetimes,
}

/// The indices of the lifetime parameters among the first `n` generic parameters, in order.
pub open spec fn lifetimes(kinds: Seq<GenericKind>, n: int) -> Seq<int>
    decreases n,
{
    if n <= 0 {
        Seq::empty()
    } else if kinds[n - 1] == GenericKind::Lifetime {
        lifetimes(kinds, n - 1).push(n - 1)
    } else {
        lifetimes(kinds, n - 1)
    }
}

proof fn lemma_lifetimes_bounded(kinds: Seq<GenericKind>, n: int)
    ensures
        lifetimes(kinds, n).len() <= if n < 0 { 0 } else { n },
        forall|k: int| 0 <= k < lifetimes(kinds, n).len() ==> 0 <= #[trigger] lifetimes(kinds, n)[k] < n,
    decreases n,
{
    if n > 0 {
        lemma_lifetimes_bounded(kinds, n - 1);
    }
}

/// The lifetime a descriptor buffer is generic over, as the index of that generic parameter: none, or the one
/// lifetime; a struct with more is refused.
pub open spec fn desc_buffer_outcome(kinds: Seq<GenericKind>) -> Result<Option<usize>, DescBufferError> {
    let l = lifetimes(kinds, kinds.len() as int);
    if l.len() == 0 {
        Ok(None)
    } else if l.len() == 1 {
        Ok(Some(l[0] as usize))
    } else {
        Err(DescBufferError::TooManyLifetimes)
    }
}

/// A descriptor buffer may have at most one lifetime.
pub fn check_lifetimes(n: usize) -> (r: Result<(), DescBufferError>)
    ensures
        r is Ok <==> n <= 1,
        r is Err ==> r == Err::<(), DescBufferError>(DescBufferError::TooManyLifetimes),
{
    if n <= 1 {
        Ok(())
    } else {
        Err(DescBufferError::TooManyLifetimes)
    }
}

/// The lifetime a descriptor buffer with these generic parameters is generic over, by index.
pub fn desc_buffer_lifetime(kinds: &Vec<GenericKind>) -> (r: Result<Option<usize>, DescBufferError>)
    ensures
        r == desc_buffer_outcome(kinds@),
{
    let mut first: Option<usize> = None;
    let mut count: usize = 0;
    let mut i: usize = 0;
    while i < kinds.len()
        invariant
            i <= kinds@.len(),
            count == lifetimes(kinds@, i as int).len(),
            count == 0 <==> first is None,
            first matches Some(f) ==> f == lifetimes(kinds@, i as int)[0],
        decreases kinds@.len() - i,
    {
        proof {
            lemma_lifetimes_bounded(kinds@, i as int);
        }
        if kinds[i] == GenericKind::Lifetime {
            if first.is_none() {
                first = Some(i);
            }
            count = count + 1;
        }
        i = i + 1;
    }
    proof {
        lemma_lifetimes_bounded(kinds@, kinds@.len() as int);
    }
    match check_lifetimes(count) {
        Err(e) => Err(e),
        Ok(()) => Ok(first),
    }
}

/// What a struct's source text gives as a descriptor buffer: the index of its lifetime, if it has one.
pub open spec fn desc_buffer_text_outcome(text: Seq<char>) -> Result<Option<usize>, DescBufferError> {
    match parsed_struct_generics(text) {
        None => Err(DescBufferError::NotAStruct),
        Some(kinds) => desc_buffer_outcome(kinds),
    }
}

/// Checks the source text of a struct as a descriptor buffer and finds its lifetime.
pub fn desc_buffer(text: &str) -> (r: Result<Option<usize>, DescBufferError>)
    ensures
        r == desc_buffer_text_outcome(text@),
{
    match parse_struct_generics(text) {
        None => Err(DescBufferError::NotAStruct),
        Some(kinds) => desc_buffer_lifetime(&kinds),
    }
}

/// How a field of a descriptor struct is carried in its transfer struct: by a fresh generic parameter `T{k}` when
/// its type mentions a generic parameter of the struct, else converted by the field type's own transfer type.
#[derive(Copy, Clone, Debug, PartialEq, Eq, Structural)]
pub enum TransferField {
    Generic(usize),
    Converted,
}

/// How many of the first `n` fields mention a generic parameter.
pub open spec fn generic_fields_before(mentions_generic: Seq<bool>, n: int) -> nat
    decreases n,
{
    if n <= 0 {
        0
    } else if mentions_generic[n - 1] {
        generic_fields_before(mentions_generic, n - 1) + 1
    } else {
        generic_fields_before(mentions_generic, n - 1)
    }
}

proof fn lemma_generic_fields_bounded(mentions_generic: Seq<bool>, n: int)
    ensures
        generic_fields_before(mentions_generic, n) <= if n < 0 { 0 } else { n },
    decreases n,
{
    if n > 0 {
        lemma_generic_fields_bounded(mentions_generic, n - 1);
    }
}

/// How the transfer struct carries each field, given whether each field's type mentions a generic parameter of the
/// struct: the generic ones are numbered in order, from `T0`.
pub fn transfer_fields(mentions_generic: &Vec<bool>) -> (r: Vec<TransferField>)
    ensures
        r@.len() == mentions_generic@.len(),
        forall|i: int| 0 <= i < r@.len() ==> #[trigger] r@[i] == if mentions_generic@[i] {
            TransferField::Generic(generic_fields_before(mentions_generic@, i) as usize)
        } else {
            TransferField::Converted
        },
{
    let mut r: Vec<TransferField> = Vec::new();
    let mut next: usize = 0;
    let mut i: usize = 0;
    while i < mentions_generic.len()
        invariant
            i <= mentions_generic@.len(),
            r@.len() == i,
            next == generic_fields_before(mentions_generic@, i as int),
            forall|j: int| 0 <= j < i ==> #[trigger] r@[j] == if mentions_generic@[j] {
                TransferField::Generic(generic_fields_before(mentions_generic@, j) as usize)
            } else {
                TransferField::Converted
            },
        decreases mentions_generic@.len() - i,
    {
        proof {
            lemma_generic_fields_bounded(mentions_generic@, i as int);
        }
        if mentions_generic[i] {
            r.push(TransferField::Generic(next));
            next = next + 1;
        } else {
            r.push(TransferField::Converted);
        }
        i = i + 1;
    }
    r
}

} // verus!

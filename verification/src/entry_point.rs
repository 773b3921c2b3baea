use vstd::prelude::*;
use syn::{parse_str, FnArg, ItemFn, MetaList, ReturnType, Type};

verus! {

/// An attribute of an entry point argument: its name when its path is a single identifier, and the tokens of its
/// argument list when it has one.
pub struct EntryAttr {
    pub ident: Option<String>,
    pub list: Option<String>,
}

/// An argument of an entry point: whether it is a receiver (such as `self`), whether its type is a shared reference
/// (`&T`), and its attributes.
pub struct EntryArg {
    pub is_receiver: bool,
    pub by_shared_ref: bool,
    pub attrs: Vec<EntryAttr>,
}

/// A parsed function: whether it returns a value, and its arguments.
pub type ParsedFn = (bool, Vec<EntryArg>);

/// An attribute as plain values: its name and its argument list.
pub type AttrView = (Option<Seq<char>>, Option<Seq<char>>);

/// An argument as plain values: whether it is a receiver, whether it is taken by shared reference, and its
/// attributes.
pub type ArgView = (bool, bool, Seq<AttrView>);

/// An optional string as an optional sequence of characters.
pub open spec fn opt_view(o: Option<String>) -> Option<Seq<char>> {
    match o {
        Some(s) => Some(s@),
        None => None,
    }
}

/// An attribute as plain values.
pub open spec fn attr_view(a: EntryAttr) -> AttrView {
    (opt_view(a.ident), opt_view(a.list))
}

/// An argument as plain values.
pub open spec fn arg_view(a: EntryArg) -> ArgView {
    (a.is_receiver, a.by_shared_ref, a.attrs@.map_values(|x: EntryAttr| attr_view(x)))
}

/// Arguments as plain values.
pub open spec fn args_view(args: Seq<EntryArg>) -> Seq<ArgView> {
    args.map_values(|a: EntryArg| arg_view(a))
}

/// Whether a function returns a value, and its arguments, for the source text of a function; `None` when the text
/// does not parse as a function.
pub uninterp spec fn parsed_entry_point(text: Seq<char>) -> Option<(bool, Seq<(bool, bool, Seq<(Option<Seq<char>>, Option<Seq<char>>)>)>)>;

/// Parses the source text of a function into whether it returns a value and its arguments.
///
/// Calls `syn::parse_str::<syn::ItemFn>`, which parses the text as a function item or fails; its result is a
/// function of the text alone. A function returns a value when its return type is not the default one; an argument
/// is a receiver when it is `FnArg::Receiver`, and is taken by shared reference when its type is a
/// `Type::Reference` without `mut`. An attribute's name is given by `Path::get_ident`, which names a path made of a
/// single identifier, and its list by `Meta::require_list`, whose tokens are printed as text.
#[verifier::external_body]
fn parse_entry_point(text: &str) -> (r: Option<ParsedFn>)
    ensures
        r is None ==> parsed_entry_point(text@) is None,
        r matches Some(p) ==> parsed_entry_point(text@) == Some((p.0, args_view(p.1@))),
{
    let item = parse_str::<ItemFn>(text).ok()?;
    Some((matches!(item.sig.output, ReturnType::Type(..)), item.sig.inputs.iter().map(|a| match a {
        FnArg::Receiver(_) => EntryArg { is_receiver: true, by_shared_ref: false, attrs: vec![] },
        FnArg::Typed(t) => EntryArg { is_receiver: false,
            by_shared_ref: matches!(&*t.ty, Type::Reference(r) if r.mutability.is_none()),
            attrs: t.attrs.iter().map(|x| EntryAttr { ident: x.path().get_ident().map(ToString::to_string),
                list: x.meta.require_list().ok().map(|l| l.tokens.to_string()) }).collect() },
    }).collect()))
}

/// The name of the shader type in an entry point attribute such as `fragment` or `compute(threads(64))`: `None` when
/// the text does not parse as such an attribute, `Some(None)` when its path is not a single identifier.
pub uninterp spec fn parsed_shader_attr(text: Seq<char>) -> Option<Option<Seq<char>>>;

/// Parses an entry point attribute.
///
/// Calls `syn::parse_str::<syn::MetaList>`, which parses a path followed by a delimited token list, or fails; the
/// result is a function of the text alone. The path's name is given by `Path::get_ident`.
#[verifier::external_body]
fn parse_shader_attr(text: &str) -> (r: Option<Option<String>>)
    ensures
        r is None ==> parsed_shader_attr(text@) is None,
        r matches Some(n) ==> parsed_shader_attr(text@) == Some(opt_view(n)),
{
    let attr = parse_str::<MetaList>(text).ok()?;
    Some(attr.path.get_ident().map(ToString::to_string))
}

/// The kind of shader an entry point is.
#[derive(Copy, Clone, Debug, PartialEq, Eq, Structural)]
pub enum ShaderType {
    Vertex,
    TessellationControl,
    TessellationEvaluation,
    Geometry,
    Fragment,
    Compute,
    Task,
    Mesh,
}

/// The shader type an entry point attribute names.
pub open spec fn shader_type_of(name: Seq<char>) -> Option<ShaderType> {
    if name == "vertex"@ {
        Some(ShaderType::Vertex)
    } else if name == "tessellation_control"@ {
        Some(ShaderType::TessellationControl)
    } else if name == "tessellation_evaluation"@ {
        Some(ShaderType::TessellationEvaluation)
    } else if name == "geometry"@ {
        Some(ShaderType::Geometry)
    } else if name == "fragment"@ {
        Some(ShaderType::Fragment)
    } else if name == "compute"@ {
        Some(ShaderType::Compute)
    } else if name == "task_ext"@ {
        Some(ShaderType::Task)
    } else if name == "mesh_ext"@ {
        Some(ShaderType::Mesh)
    } else {
        None
    }
}

/// What an entry point does with an argument, or why it refuses it.
#[derive(Copy, Clone, Debug, PartialEq, Eq, Structural)]
pub enum ArgRole {
    /// A receiver such as `self`.
    Receiver,
    /// More than one `#[bindless(..)]` attribute.
    MultipleBindless,
    /// A `bindless` attribute without an argument list.
    NotAList,
    /// A `bindless` attribute with an argument other than `param_constants` or `descriptors`.
    Unknown,
    /// The argument marked `#[bindless(param_constants)]`.
    ParamConstants,
    /// The argument marked `#[bindless(descriptors)]`.
    Descriptors,
    /// An argument without a `bindless` attribute, forwarded as it is.
    Forward,
}

/// Why a function cannot be a bindless entry point; an index is that of the offending argument.
#[derive(Copy, Clone, Debug, PartialEq, Eq, Structural)]
pub enum EntryPointError {
    /// The source text is not a function.
    NotAFunction,
    /// The attribute is not a path followed by a delimited list.
    NotAnAttribute,
    /// Entry points must not return anything.
    ReturnsValue,
    /// Entry points may not take a receiver (such as `self`).
    Receiver(usize),
    /// An argument must have at most one bindless attribute.
    MultipleBindless(usize),
    /// A bindless attribute must have an argument list.
    NotAList(usize),
    /// A bindless attribute names an unknown parameter.
    UnknownParameter(usize),
    /// A second argument with the same bindless parameter.
    DuplicateParameter(usize),
    /// The param constants must be taken by shared reference.
    ParamNotReference(usize),
    /// The entry point type is not a single identifier.
    NotAnIdent,
    /// The entry point type is none of the shader types.
    UnknownShaderType,
}

/// The arguments of an entry point: the one with the param constants, the one with the descriptors, and the others,
/// which are forwarded, by index.
#[derive(Debug)]
pub struct EntryPointArgs {
    pub param_constants: Option<usize>,
    pub descriptors: Option<usize>,
    pub forward: Vec<usize>,
}

/// The attribute is a `bindless` attribute.
pub open spec fn is_bindless(a: AttrView) -> bool {
    a.0 == Some("bindless"@)
}

/// The `j`th attribute is the first `bindless` attribute of the argument.
pub open spec fn first_bindless(arg: ArgView, j: int) -> bool {
    &&& 0 <= j < arg.2.len()
    &&& is_bindless(arg.2[j])
    &&& forall|k: int| 0 <= k < j ==> !is_bindless(#[trigger] arg.2[k])
}

/// The argument has two `bindless` attributes or more.
pub open spec fn two_bindless(arg: ArgView) -> bool {
    exists|j1: int, j2: int| 0 <= j1 < j2 < arg.2.len() && is_bindless(#[trigger] arg.2[j1]) && is_bindless(#[trigger] arg.2[j2])
}

/// What an entry point does with the argument.
pub open spec fn arg_role(arg: ArgView) -> ArgRole {
    if arg.0 {
        ArgRole::Receiver
    } else if !(exists|j: int| first_bindless(arg, j)) {
        ArgRole::Forward
    } else if two_bindless(arg) {
        ArgRole::MultipleBindless
    } else {
        let j = choose|j: int| first_bindless(arg, j);
        match arg.2[j].1 {
            None => ArgRole::NotAList,
            Some(s) => if s == "param_constants"@ {
                ArgRole::ParamConstants
            } else if s == "descriptors"@ {
                ArgRole::Descriptors
            } else {
                ArgRole::Unknown
            },
        }
    }
}

/// The error the argument at `i` raises, given the arguments before it.
pub open spec fn arg_error(args: Seq<ArgView>, i: int) -> Option<EntryPointError> {
    match arg_role(args[i]) {
        ArgRole::Receiver => Some(EntryPointError::Receiver(i as usize)),
        ArgRole::MultipleBindless => Some(EntryPointError::MultipleBindless(i as usize)),
        ArgRole::NotAList => Some(EntryPointError::NotAList(i as usize)),
        ArgRole::Unknown => Some(EntryPointError::UnknownParameter(i as usize)),
        ArgRole::ParamConstants => if exists|j: int| 0 <= j < i && arg_role(args[j]) == ArgRole::ParamConstants {
            Some(EntryPointError::DuplicateParameter(i as usize))
        } else {
            None
        },
        ArgRole::Descriptors => if exists|j: int| 0 <= j < i && arg_role(args[j]) == ArgRole::Descriptors {
            Some(EntryPointError::DuplicateParameter(i as usize))
        } else {
            None
        },
        ArgRole::Forward => None,
    }
}

/// The argument at `i` is the first that raises an error.
pub open spec fn first_error(args: Seq<ArgView>, i: int) -> bool {
    &&& 0 <= i < args.len()
    &&& arg_error(args, i) is Some
    &&& forall|j: int| 0 <= j < i ==> arg_error(args, j) is None
}

/// No argument raises an error.
pub open spec fn no_arg_error(args: Seq<ArgView>) -> bool {
    forall|i: int| 0 <= i < args.len() ==> arg_error(args, i) is None
}

/// The indices of the arguments before `n` that are forwarded as they are, in order.
pub open spec fn forwarded(args: Seq<ArgView>, n: int) -> Seq<usize>
    decreases n,
{
    if n <= 0 {
        Seq::empty()
    } else if arg_role(args[n - 1]) == ArgRole::Forward {
        forwarded(args, n - 1).push((n - 1) as usize)
    } else {
        forwarded(args, n - 1)
    }
}

/// `index` is the argument with the role, if one has it, and `None` if none has.
pub open spec fn the_one_with(args: Seq<ArgView>, role: ArgRole, index: Option<usize>) -> bool {
    &&& forall|i: int| 0 <= i < args.len() ==> (index == Some(i as usize) <==> arg_role(#[trigger] args[i]) == role)
    &&& index is None <==> forall|i: int| 0 <= i < args.len() ==> arg_role(#[trigger] args[i]) != role
}

/// The arguments are what an entry point with these arguments takes: the param constants and the descriptors are
/// the arguments with that role, if there is one, and the forwarded ones are the others, in order.
pub open spec fn classifies(r: EntryPointArgs, args: Seq<ArgView>) -> bool {
    &&& the_one_with(args, ArgRole::ParamConstants, r.param_constants)
    &&& the_one_with(args, ArgRole::Descriptors, r.descriptors)
    &&& r.forward@ == forwarded(args, args.len() as int)
}

/// The param constants argument is not taken by shared reference.
pub open spec fn param_not_reference(args: Seq<ArgView>, p: int) -> bool {
    &&& 0 <= p < args.len()
    &&& arg_role(args[p]) == ArgRole::ParamConstants
    &&& !args[p].1
}

/// What checking an entry point's signature gives: the first error, in the order in which the arguments are
/// checked, or the arguments by role.
pub open spec fn classify_outcome(returns_value: bool, args: Seq<ArgView>, r: Result<EntryPointArgs, EntryPointError>) -> bool {
    &&& returns_value ==> r == Err::<EntryPointArgs, EntryPointError>(EntryPointError::ReturnsValue)
    &&& !returns_value ==> forall|i: int| first_error(args, i) ==> r == Err::<EntryPointArgs, EntryPointError>(arg_error(args, i)->0)
    &&& !returns_value && no_arg_error(args) ==> forall|p: int| param_not_reference(args, p)
        ==> r == Err::<EntryPointArgs, EntryPointError>(EntryPointError::ParamNotReference(p as usize))
    &&& r is Ok <==> !returns_value && no_arg_error(args) && !(exists|p: int| param_not_reference(args, p))
    &&& r matches Ok(c) ==> classifies(c, args)
}

/// The shader type an entry point attribute's name gives, or why it gives none.
pub open spec fn shader_outcome(name: Option<Seq<char>>) -> Result<ShaderType, EntryPointError> {
    match name {
        None => Err(EntryPointError::NotAnIdent),
        Some(n) => match shader_type_of(n) {
            Some(t) => Ok(t),
            None => Err(EntryPointError::UnknownShaderType),
        },
    }
}

/// The role of one argument, by scanning its attributes for `bindless` ones.
fn role_of(arg: &EntryArg) -> (r: ArgRole)
    ensures
        r == arg_role(arg_view(*arg)),
{
    let ghost v = arg_view(*arg);
    if arg.is_receiver {
        return ArgRole::Receiver;
    }
    let bindless = "bindless".to_owned();
    let mut first: Option<usize> = None;
    let mut j: usize = 0;
    while j < arg.attrs.len()
        invariant
            j <= arg.attrs@.len(),
            v == arg_view(*arg),
            !v.0,
            bindless@ == "bindless"@,
            first is None ==> forall|k: int| 0 <= k < j ==> !is_bindless(#[trigger] v.2[k]),
            first matches Some(f) ==> f < j && first_bindless(v, f as int),
            first matches Some(f) ==> forall|k: int| f < k < j ==> !is_bindless(#[trigger] v.2[k]),
        decreases arg.attrs@.len() - j,
    {
        let attr = &arg.attrs[j];
        proof {
            assert(v.2[j as int] == attr_view(*attr));
        }
        let hit = match &attr.ident {
            Some(ident) => *ident == bindless,
            None => false,
        };
        if hit {
            match first {
                Some(f) => {
                    proof {
                        assert(is_bindless(v.2[f as int]));
                        assert(is_bindless(v.2[j as int]));
                        assert(two_bindless(v));
                        assert(exists|k: int| first_bindless(v, k));
                    }
                    return ArgRole::MultipleBindless;
                },
                None => {
                    first = Some(j);
                },
            }
        }
        j = j + 1;
    }
    match first {
        None => {
            proof {
                assert forall|k: int| !first_bindless(v, k) by {
                    if first_bindless(v, k) {
                        assert(!is_bindless(v.2[k]));
                    }
                }
            }
            ArgRole::Forward
        },
        Some(f) => {
            proof {
                assert(!two_bindless(v)) by {
                    if two_bindless(v) {
                        let (j1, j2) = choose|j1: int, j2: int|
                            0 <= j1 < j2 < v.2.len() && is_bindless(#[trigger] v.2[j1]) && is_bindless(#[trigger] v.2[j2]);
                        assert(j1 >= f);
                    }
                }
                let c = choose|c: int| first_bindless(v, c);
                assert(c == f) by {
                    if c < f {
                        assert(!is_bindless(v.2[c]));
                    }
                    if c > f {
                        assert(!is_bindless(v.2[f as int]));
                    }
                }
                assert(v.2[f as int] == attr_view(arg.attrs@[f as int]));
            }
            let attr = &arg.attrs[f];
            match &attr.list {
                None => ArgRole::NotAList,
                Some(list) => {
                    let param_constants = "param_constants".to_owned();
                    let descriptors = "descriptors".to_owned();
                    if *list == param_constants {
                        ArgRole::ParamConstants
                    } else if *list == descriptors {
                        ArgRole::Descriptors
                    } else {
                        ArgRole::Unknown
                    }
                },
            }
        },
    }
}

/// Checks the signature of a bindless entry point and sorts its arguments by role.
///
/// An entry point returns nothing; no argument is a receiver; an argument has at most one `#[bindless(..)]`
/// attribute, whose list is `param_constants` or `descriptors`; at most one argument has each; and the param
/// constants are taken by shared reference. The arguments are checked in order and the first broken rule is
/// reported; the others are forwarded as they are.
pub fn classify_entry_point(returns_value: bool, args: &Vec<EntryArg>) -> (r: Result<EntryPointArgs, EntryPointError>)
    ensures
        classify_outcome(returns_value, args_view(args@), r),
{
    let ghost v = args_view(args@);
    if returns_value {
        return Err(EntryPointError::ReturnsValue);
    }
    let mut param: Option<usize> = None;
    let mut desc: Option<usize> = None;
    let mut forward: Vec<usize> = Vec::new();
    let mut i: usize = 0;
    while i < args.len()
        invariant
            i <= args@.len(),
            v == args_view(args@),
            !returns_value,
            forall|j: int| 0 <= j < i ==> arg_error(v, j) is None,
            forall|j: int| 0 <= j < i ==> (param == Some(j as usize) <==> arg_role(#[trigger] v[j]) == ArgRole::ParamConstants),
            param is None <==> forall|j: int| 0 <= j < i ==> arg_role(#[trigger] v[j]) != ArgRole::ParamConstants,
            param matches Some(p) ==> p < i,
            forall|j: int| 0 <= j < i ==> (desc == Some(j as usize) <==> arg_role(#[trigger] v[j]) == ArgRole::Descriptors),
            desc is None <==> forall|j: int| 0 <= j < i ==> arg_role(#[trigger] v[j]) != ArgRole::Descriptors,
            desc matches Some(d) ==> d < i,
            forward@ == forwarded(v, i as int),
        decreases args@.len() - i,
    {
        let role = role_of(&args[i]);
        proof {
            assert(v[i as int] == arg_view(args@[i as int]));
            assert forall|k: int| first_error(v, k) && arg_error(v, i as int) is Some implies k == i by {
                if k > i {
                    assert(arg_error(v, i as int) is None);
                }
            }
        }
        match role {
            ArgRole::Receiver => {
                return Err(EntryPointError::Receiver(i));
            },
            ArgRole::MultipleBindless => {
                return Err(EntryPointError::MultipleBindless(i));
            },
            ArgRole::NotAList => {
                return Err(EntryPointError::NotAList(i));
            },
            ArgRole::Unknown => {
                return Err(EntryPointError::UnknownParameter(i));
            },
            ArgRole::ParamConstants => {
                if let Some(p) = param {
                    proof {
                        assert(arg_role(v[p as int]) == ArgRole::ParamConstants);
                    }
                    return Err(EntryPointError::DuplicateParameter(i));
                }
                param = Some(i);
            },
            ArgRole::Descriptors => {
                if let Some(d) = desc {
                    proof {
                        assert(arg_role(v[d as int]) == ArgRole::Descriptors);
                    }
                    return Err(EntryPointError::DuplicateParameter(i));
                }
                desc = Some(i);
            },
            ArgRole::Forward => {
                forward.push(i);
            },
        }
        i = i + 1;
    }
    if let Some(p) = param {
        proof {
            assert(v[p as int] == arg_view(args@[p as int]));
            assert forall|q: int| param_not_reference(v, q) implies q == p by {
                assert(arg_role(v[q]) == ArgRole::ParamConstants);
            }
        }
        if !args[p].by_shared_ref {
            proof {
                assert(param_not_reference(v, p as int));
            }
            return Err(EntryPointError::ParamNotReference(p));
        }
    }
    proof {
        assert forall|q: int| !param_not_reference(v, q) by {
            if param_not_reference(v, q) {
                assert(arg_role(v[q]) == ArgRole::ParamConstants);
            }
        }
    }
    Ok(EntryPointArgs { param_constants: param, descriptors: desc, forward })
}

/// The shader type an entry point attribute names, or why it names none.
pub fn entry_shader_type(name: &Option<String>) -> (r: Result<ShaderType, EntryPointError>)
    ensures
        r == shader_outcome(opt_view(*name)),
{
    match name {
        None => Err(EntryPointError::NotAnIdent),
        Some(n) => {
            if *n == "vertex".to_owned() {
                Ok(ShaderType::Vertex)
            } else if *n == "tessellation_control".to_owned() {
                Ok(ShaderType::TessellationControl)
            } else if *n == "tessellation_evaluation".to_owned() {
                Ok(ShaderType::TessellationEvaluation)
            } else if *n == "geometry".to_owned() {
                Ok(ShaderType::Geometry)
            } else if *n == "fragment".to_owned() {
                Ok(ShaderType::Fragment)
            } else if *n == "compute".to_owned() {
                Ok(ShaderType::Compute)
            } else if *n == "task_ext".to_owned() {
                Ok(ShaderType::Task)
            } else if *n == "mesh_ext".to_owned() {
                Ok(ShaderType::Mesh)
            } else {
                Err(EntryPointError::UnknownShaderType)
            }
        },
    }
}

/// A checked bindless entry point: its shader type and its arguments by role.
#[derive(Debug)]
pub struct EntryPoint {
    pub shader_type: ShaderType,
    pub args: EntryPointArgs,
}

/// The signature breaks none of the rules of an entry point.
pub open spec fn signature_ok(returns_value: bool, args: Seq<ArgView>) -> bool {
    !returns_value && no_arg_error(args) && !(exists|p: int| param_not_reference(args, p))
}

/// What turning an attribute and a function into a bindless entry point gives, over what the two parse into: the
/// function is parsed first, then the attribute, then the signature is checked, then the shader type.
pub open spec fn entry_point_outcome(attr: Seq<char>, item: Seq<char>, r: Result<EntryPoint, EntryPointError>) -> bool {
    match parsed_entry_point(item) {
        None => r == Err::<EntryPoint, EntryPointError>(EntryPointError::NotAFunction),
        Some(f) => match parsed_shader_attr(attr) {
            None => r == Err::<EntryPoint, EntryPointError>(EntryPointError::NotAnAttribute),
            Some(name) => if !signature_ok(f.0, f.1) {
                r matches Err(e) && classify_outcome(f.0, f.1, Err::<EntryPointArgs, EntryPointError>(e))
            } else {
                match shader_outcome(name) {
                    Err(e) => r == Err::<EntryPoint, EntryPointError>(e),
                    Ok(t) => r matches Ok(ep) && ep.shader_type == t && classifies(ep.args, f.1),
                }
            },
        },
    }
}

/// Turns the source text of an entry point attribute (such as `fragment()`) and of a function into a bindless
/// entry point, or says why they are none.
pub fn bindless_entry_point(attr: &str, item: &str) -> (r: Result<EntryPoint, EntryPointError>)
    ensures
        entry_point_outcome(attr@, item@, r),
{
    let (returns_value, args) = match parse_entry_point(item) {
        None => return Err(EntryPointError::NotAFunction),
        Some(f) => f,
    };
    let name = match parse_shader_attr(attr) {
        None => return Err(EntryPointError::NotAnAttribute),
        Some(n) => n,
    };
    let classified = classify_entry_point(returns_value, &args);
    match classified {
        Err(e) => Err(e),
        Ok(c) => match entry_shader_type(&name) {
            Err(e) => Err(e),
            Ok(t) => Ok(EntryPoint { shader_type: t, args: c }),
        },
    }
}

} // verus!

use vulkano_bindless::desc_derive::{check_lifetimes, desc_buffer, desc_buffer_lifetime, transfer_fields};
use vulkano_bindless::desc_derive::{DescBufferError, GenericKind, TransferField};
use vulkano_bindless::entry_point::{bindless_entry_point, classify_entry_point, entry_shader_type};
use vulkano_bindless::entry_point::{EntryArg, EntryAttr, EntryPointError, ShaderType};

fn error_of(attr: &str, item: &str) -> EntryPointError {
    match bindless_entry_point(attr, item) {
        Ok(e) => panic!("expected an error, got {:?}", e),
        Err(e) => e,
    }
}

#[test]
fn entry_point_sorts_arguments_by_role() {
    let e = bindless_entry_point(
        "fragment()",
        "fn main(#[bindless(param_constants)] p: &Param, #[bindless(descriptors)] d: &Descriptors, x: u32) {}",
    )
    .unwrap();
    assert_eq!(e.shader_type, ShaderType::Fragment);
    assert_eq!(e.args.param_constants, Some(0));
    assert_eq!(e.args.descriptors, Some(1));
    assert_eq!(e.args.forward, vec![2]);
}

#[test]
fn entry_point_forwards_unmarked_arguments_in_order() {
    let e = bindless_entry_point(
        "compute(threads(64))",
        "fn main(#[spirv(global_invocation_id)] id: UVec3, #[bindless(descriptors)] d: &Descriptors, #[allow(unused)] y: u32) {}",
    )
    .unwrap();
    assert_eq!(e.shader_type, ShaderType::Compute);
    assert_eq!(e.args.param_constants, None);
    assert_eq!(e.args.descriptors, Some(1));
    assert_eq!(e.args.forward, vec![0, 2]);
}

#[test]
fn entry_point_without_arguments() {
    let e = bindless_entry_point("vertex()", "fn main() {}").unwrap();
    assert_eq!(e.shader_type, ShaderType::Vertex);
    assert_eq!(e.args.param_constants, None);
    assert_eq!(e.args.descriptors, None);
    assert!(e.args.forward.is_empty());
}

#[test]
fn entry_point_must_not_return() {
    assert_eq!(error_of("fragment()", "fn main() -> u32 { 0 }"), EntryPointError::ReturnsValue);
}

#[test]
fn entry_point_return_is_checked_before_arguments() {
    assert_eq!(error_of("fragment()", "fn main(&self) -> u32 { 0 }"), EntryPointError::ReturnsValue);
}

#[test]
fn entry_point_refuses_receiver() {
    assert_eq!(error_of("fragment()", "fn main(&self, x: u32) {}"), EntryPointError::Receiver(0));
    assert_eq!(error_of("fragment()", "fn main(self) {}"), EntryPointError::Receiver(0));
    // a receiver after the first argument does not parse as a function
    assert_eq!(error_of("fragment()", "fn main(x: u32, &self) {}"), EntryPointError::NotAFunction);
}

#[test]
fn entry_point_refuses_two_bindless_attributes() {
    assert_eq!(
        error_of("fragment()", "fn main(#[bindless(descriptors)] #[bindless(descriptors)] d: &D) {}"),
        EntryPointError::MultipleBindless(0)
    );
}

#[test]
fn entry_point_refuses_bindless_without_list() {
    assert_eq!(error_of("fragment()", "fn main(x: u32, #[bindless] d: &D) {}"), EntryPointError::NotAList(1));
}

#[test]
fn entry_point_refuses_unknown_parameter() {
    assert_eq!(
        error_of("fragment()", "fn main(#[bindless(push_constants)] p: &P) {}"),
        EntryPointError::UnknownParameter(0)
    );
}

#[test]
fn entry_point_refuses_duplicate_parameter() {
    assert_eq!(
        error_of(
            "fragment()",
            "fn main(#[bindless(param_constants)] a: &P, x: u32, #[bindless(param_constants)] b: &P) {}"
        ),
        EntryPointError::DuplicateParameter(2)
    );
    assert_eq!(
        error_of("fragment()", "fn main(#[bindless(descriptors)] a: &D, #[bindless(descriptors)] b: &D) {}"),
        EntryPointError::DuplicateParameter(1)
    );
}

#[test]
fn entry_point_reports_first_failing_argument() {
    assert_eq!(
        error_of("fragment()", "fn main(x: u32, #[bindless(foo)] a: &P, #[bindless] b: &P) {}"),
        EntryPointError::UnknownParameter(1)
    );
}

#[test]
fn entry_point_param_constants_by_shared_reference() {
    assert_eq!(
        error_of("fragment()", "fn main(#[bindless(param_constants)] p: Param) {}"),
        EntryPointError::ParamNotReference(0)
    );
    assert_eq!(
        error_of("fragment()", "fn main(x: u32, #[bindless(param_constants)] p: &mut Param) {}"),
        EntryPointError::ParamNotReference(1)
    );
}

#[test]
fn entry_point_argument_errors_come_before_reference_check() {
    assert_eq!(
        error_of("fragment()", "fn main(#[bindless(param_constants)] p: Param, #[bindless] d: &D) {}"),
        EntryPointError::NotAList(1)
    );
}

#[test]
fn entry_point_refuses_text_that_is_no_function() {
    assert_eq!(error_of("fragment()", "struct A;"), EntryPointError::NotAFunction);
    assert_eq!(error_of("fragment", "struct A;"), EntryPointError::NotAFunction);
}

#[test]
fn entry_point_refuses_attribute_that_is_no_list() {
    assert_eq!(error_of("fragment", "fn main() {}"), EntryPointError::NotAnAttribute);
}

#[test]
fn entry_point_shader_type_errors() {
    assert_eq!(error_of("a::b()", "fn main() {}"), EntryPointError::NotAnIdent);
    assert_eq!(error_of("pixel()", "fn main() {}"), EntryPointError::UnknownShaderType);
}

#[test]
fn entry_point_signature_is_checked_before_shader_type() {
    assert_eq!(error_of("pixel()", "fn main() -> u32 { 0 }"), EntryPointError::ReturnsValue);
}

#[test]
fn shader_type_names() {
    let names = [
        ("vertex", ShaderType::Vertex),
        ("tessellation_control", ShaderType::TessellationControl),
        ("tessellation_evaluation", ShaderType::TessellationEvaluation),
        ("geometry", ShaderType::Geometry),
        ("fragment", ShaderType::Fragment),
        ("compute", ShaderType::Compute),
        ("task_ext", ShaderType::Task),
        ("mesh_ext", ShaderType::Mesh),
    ];
    for (name, ty) in names {
        assert_eq!(entry_shader_type(&Some(name.to_string())), Ok(ty));
    }
    assert_eq!(entry_shader_type(&Some("task".to_string())), Err(EntryPointError::UnknownShaderType));
    assert_eq!(entry_shader_type(&None), Err(EntryPointError::NotAnIdent));
}

fn plain(by_shared_ref: bool) -> EntryArg {
    EntryArg { is_receiver: false, by_shared_ref, attrs: Vec::new() }
}

fn marked(list: &str) -> EntryArg {
    EntryArg {
        is_receiver: false,
        by_shared_ref: true,
        attrs: vec![EntryAttr { ident: Some("bindless".to_string()), list: Some(list.to_string()) }],
    }
}

#[test]
fn classify_entry_point_on_values() {
    let args = vec![plain(false), marked("descriptors"), marked("param_constants"), plain(true)];
    let c = classify_entry_point(false, &args).unwrap();
    assert_eq!(c.param_constants, Some(2));
    assert_eq!(c.descriptors, Some(1));
    assert_eq!(c.forward, vec![0, 3]);
    assert_eq!(classify_entry_point(true, &args).unwrap_err(), EntryPointError::ReturnsValue);
}

#[test]
fn classify_entry_point_ignores_other_attributes() {
    let other = EntryArg {
        is_receiver: false,
        by_shared_ref: false,
        attrs: vec![
            EntryAttr { ident: None, list: Some("bindless".to_string()) },
            EntryAttr { ident: Some("spirv".to_string()), list: Some("param_constants".to_string()) },
        ],
    };
    let c = classify_entry_point(false, &vec![other]).unwrap();
    assert_eq!(c.param_constants, None);
    assert_eq!(c.forward, vec![0]);
}

#[test]
fn desc_buffer_finds_its_lifetime() {
    assert_eq!(desc_buffer("struct A<'a, T> { a: &'a T }"), Ok(Some(0)));
    assert_eq!(desc_buffer("struct A<T, const N: usize, 'a>(&'a [T; N]);"), Ok(Some(2)));
    assert_eq!(desc_buffer("struct A { a: u32 }"), Ok(None));
    assert_eq!(desc_buffer("struct A;"), Ok(None));
}

#[test]
fn desc_buffer_refuses_two_lifetimes() {
    assert_eq!(desc_buffer("struct A<'a, 'b> { a: &'a u32, b: &'b u32 }"), Err(DescBufferError::TooManyLifetimes));
}

#[test]
fn desc_buffer_refuses_text_that_is_no_struct() {
    assert_eq!(desc_buffer("fn main() {}"), Err(DescBufferError::NotAStruct));
}

#[test]
fn desc_buffer_lifetime_on_kinds() {
    assert_eq!(desc_buffer_lifetime(&vec![GenericKind::Type, GenericKind::Const, GenericKind::Lifetime]), Ok(Some(2)));
    assert_eq!(desc_buffer_lifetime(&vec![GenericKind::Lifetime, GenericKind::Type, GenericKind::Lifetime]), Err(DescBufferError::TooManyLifetimes));
    assert_eq!(desc_buffer_lifetime(&vec![]), Ok(None));
}

#[test]
fn check_lifetimes_allows_at_most_one() {
    assert_eq!(check_lifetimes(0), Ok(()));
    assert_eq!(check_lifetimes(1), Ok(()));
    assert_eq!(check_lifetimes(2), Err(DescBufferError::TooManyLifetimes));
}

#[test]
fn transfer_fields_number_generic_fields() {
    assert_eq!(
        transfer_fields(&vec![true, false, true, true]),
        vec![TransferField::Generic(0), TransferField::Converted, TransferField::Generic(1), TransferField::Generic(2)]
    );
    assert_eq!(transfer_fields(&vec![false, false]), vec![TransferField::Converted, TransferField::Converted]);
    assert!(transfer_fields(&vec![]).is_empty());
}

use lib::ast::{Ast, IdentId};
use lib::parser::parse;
use lib::typecheck::{check, checkable, ty_id, Bindings, Type, TypeEnv, TypeId, Typechecker};
use std::collections::HashMap;

fn parsed_ok(src: &[u8]) -> Ast {
    match parse(src) {
        Ok((ast, errors)) => {
            assert!(errors.is_empty(), "unexpected parse errors: {:?}", errors);
            ast
        }
        Err(e) => panic!("unexpected parse failure: {:?}", e),
    }
}

fn checked(src: &[u8]) -> (Typechecker, TypeEnv) {
    let mut ast = parsed_ok(src);
    assert!(checkable(&ast));
    check(&mut ast)
}

fn messages(checker: &Typechecker) -> Vec<String> {
    checker.errors.iter().map(|e| e.msg.clone()).collect()
}

#[test]
fn check_accepts_annotated_declaration() {
    let (checker, types) = checked(b"let x: int = 5;");
    assert!(checker.errors.is_empty());
    assert_eq!(types.types_pool.len(), 5);
}

#[test]
fn check_reports_mismatched_annotation() {
    let (checker, _) = checked(b"let x: bool = 5;");
    assert_eq!(messages(&checker), vec!["different types provided in declaration"]);
    assert_eq!(checker.errors[0].str, b"x".to_vec());
    assert_eq!(checker.errors[0].column, 4);
}

#[test]
fn check_reports_undeclared_variable() {
    let (checker, _) = checked(b"let x = y;");
    assert_eq!(messages(&checker), vec!["undeclared variable"]);
    assert_eq!(checker.errors[0].str, b"y".to_vec());
}

#[test]
fn check_function_call() {
    let (checker, types) = checked(b"fn f(a: int) -> int { a } let r: int = f(1);");
    assert!(checker.errors.is_empty());
    assert_eq!(types.types_pool.len(), 6);
    match &types.types_pool[5] {
        Type::Func { params, ret, is_generic } => {
            assert_eq!(params, &vec![TypeId(ty_id::INT)]);
            assert_eq!(*ret, TypeId(ty_id::INT));
            assert!(!is_generic);
        }
        other => panic!("expected a function type, got {:?}", other),
    }
}

#[test]
fn check_wrong_argument_count() {
    let (checker, _) = checked(b"fn f(a: int) -> int { a } let r = f(1, 2);");
    assert_eq!(messages(&checker), vec!["wrong arguments count in function call"]);
    assert_eq!(checker.errors[0].str, b"(".to_vec());
}

#[test]
fn check_invalid_argument() {
    let (checker, _) = checked(b"fn f(a: int) -> int { a } let r = f(true);");
    assert_eq!(messages(&checker), vec!["invalid arguments in function call"]);
}

#[test]
fn check_call_on_non_function() {
    let (checker, _) = checked(b"let x = 1; let y = x(2);");
    assert_eq!(messages(&checker), vec!["can't do function call on non function type"]);
}

#[test]
fn check_generic_call_infers_result() {
    let (checker, types) = checked(b"fn id<T>(x: T) -> T { x } let r: int = id(3);");
    assert!(checker.errors.is_empty());
    // T, T, the generic signature, its instance, and T again for the body
    assert_eq!(types.types_pool.len(), 10);
    assert!(matches!(types.types_pool[5], Type::Generic(_)));
    assert!(matches!(types.types_pool[7], Type::Func { is_generic: true, .. }));
    match &types.types_pool[8] {
        Type::Func { params, ret, is_generic } => {
            assert_eq!(params, &vec![TypeId(ty_id::INT)]);
            assert_eq!(*ret, TypeId(ty_id::INT));
            assert!(!is_generic);
        }
        other => panic!("expected the instance, got {:?}", other),
    }
}

#[test]
fn check_generic_call_mismatch() {
    let (checker, _) = checked(b"fn same<T>(a: T, b: T) -> T { a } let r = same(1, true);");
    assert_eq!(messages(&checker), vec!["impossible to instantiate generic function"]);
}

#[test]
fn check_generic_function_cannot_be_assigned() {
    let (checker, _) = checked(b"fn id<T>(x: T) -> T { x } let g = id;");
    assert_eq!(messages(&checker), vec!["can't assign generic function"]);
}

#[test]
fn check_uninferable_return_type() {
    let (checker, _) = checked(b"fn mk<T>() -> T { } let v = mk();");
    assert_eq!(messages(&checker), vec!["impossible to infer function return type"]);
}

#[test]
fn check_struct_literal() {
    let (checker, _) =
        checked(b"struct P { a: int, b: bool } let p = P { 1, true }; let q: P = p;");
    assert!(checker.errors.is_empty());
}

#[test]
fn check_struct_literal_field_count() {
    let (checker, _) = checked(b"struct P { a: int } let p = P { 1, 2 };");
    assert_eq!(messages(&checker), vec!["wrong fields count in struct literal"]);
}

#[test]
fn check_struct_literal_invalid_member() {
    let (checker, _) = checked(b"struct P { a: int } let p = P { true };");
    assert_eq!(messages(&checker), vec!["invalid members in struct literal"]);
}

#[test]
fn check_undeclared_struct_name() {
    let (checker, _) = checked(b"let p = Q { 1 };");
    assert_eq!(messages(&checker), vec!["undeclared struct name"]);
}

#[test]
fn check_generic_struct_literal_is_instantiated() {
    let (checker, types) = checked(b"struct B<T> { v: T } let b = B { 1 };");
    assert!(checker.errors.is_empty());
    let last = types.types_pool.len() - 1;
    match &types.types_pool[last] {
        Type::Struct { fields, is_generic, .. } => {
            assert!(!is_generic);
            assert_eq!(fields.len(), 1);
            assert_eq!(fields[0].1, TypeId(ty_id::INT));
        }
        other => panic!("expected the instance, got {:?}", other),
    }
}

#[test]
fn check_generic_struct_cannot_be_assigned() {
    let (checker, _) = checked(b"struct B<T> { v: T } fn f(b: B) { let c = b; }");
    assert_eq!(messages(&checker), vec!["can't assign generic struct"]);
}

#[test]
fn check_duplicate_struct() {
    let (checker, _) = checked(b"struct P { a: int } struct P { b: int }");
    assert_eq!(messages(&checker), vec!["already declared struct"]);
}

#[test]
fn check_block_scopes_and_shadowing() {
    let (checker, _) = checked(
        b"fn f() { let a = 5; { let a = true; let b = 2; let c: bool = a; } let d: int = a; let e = b; }",
    );
    assert_eq!(messages(&checker), vec!["undeclared variable"]);
    assert_eq!(checker.errors[0].str, b"b".to_vec());
}

#[test]
fn check_parameters_are_scoped_to_their_function() {
    let (checker, _) = checked(b"fn f(p: int) { } fn g() { let q = p; }");
    assert_eq!(messages(&checker), vec!["undeclared variable"]);
}

#[test]
fn check_assignment_mismatch() {
    let (checker, _) = checked(b"fn f() { let a = 5; a = true; a = 6; }");
    assert_eq!(messages(&checker), vec!["assigning value of different type"]);
}

#[test]
fn check_errors_in_pass_order() {
    let (checker, _) = checked(b"fn f() { d; } let a: bool = 1; let b = c;");
    assert_eq!(
        messages(&checker),
        vec!["different types provided in declaration", "undeclared variable", "undeclared variable"]
    );
    assert_eq!(checker.errors[2].str, b"d".to_vec());
}

#[test]
fn check_functions_see_globals_and_each_other() {
    let (checker, _) =
        checked(b"fn f() -> int { let x: int = g; let y: int = h(); } let g = 1; fn h() -> int { }");
    assert!(checker.errors.is_empty());
}

#[test]
fn checkable_rejects_what_is_not_checked() {
    assert!(checkable(&parsed_ok(b"let x = 1;")));
    assert!(!checkable(&parsed_ok(b"let x = -1;")));
    assert!(!checkable(&parsed_ok(b"let x = 1 + 2;")));
    assert!(!checkable(&parsed_ok(b"let x = [1];")));
    assert!(!checkable(&parsed_ok(b"let p: Q = 1;")));
    assert!(!checkable(&parsed_ok(b"fn f() { return 1; }")));
    assert!(checkable(&parsed_ok(b"struct Q { a: int } let p: Q = 1;")));
}

#[test]
fn type_equality() {
    let mut env = TypeEnv::default();
    assert_eq!(env.types_pool.len(), 5);
    let int2 = env.add_ty(Type::Int);
    assert_eq!(int2, TypeId(5));
    assert!(env.ty_eq(TypeId(ty_id::INT), int2));
    assert!(!env.ty_eq(TypeId(ty_id::INT), TypeId(ty_id::BOOL)));
    let a = env.add_ty(Type::Array { inner: TypeId(ty_id::INT), len: 2 });
    let b = env.add_ty(Type::Array { inner: int2, len: 2 });
    let c = env.add_ty(Type::Array { inner: TypeId(ty_id::INT), len: 3 });
    assert!(env.ty_eq(a, b));
    assert!(env.ty_eq(b, a));
    assert!(!env.ty_eq(a, c));
    let f1 = env.add_ty(Type::Func {
        params: vec![TypeId(ty_id::INT)],
        ret: TypeId(ty_id::BOOL),
        is_generic: false,
    });
    let f2 = env.add_ty(Type::Func { params: vec![int2], ret: TypeId(ty_id::BOOL), is_generic: false });
    assert!(env.ty_eq(f1, f2));
    // results are compared by id, parameters by structure
    let bool2 = env.add_ty(Type::Bool);
    let f3 = env.add_ty(Type::Func { params: vec![int2], ret: bool2, is_generic: false });
    assert!(!env.ty_eq(f1, f3));
    let f4 = env.add_ty(Type::Func { params: vec![int2], ret: int2, is_generic: false });
    assert!(!env.ty_eq(f1, f4));
    assert!(matches!(env.get(bool2), Type::Bool));
}

#[test]
fn user_defined_types() {
    let mut env = TypeEnv::default();
    let name = IdentId(7);
    let s = Type::Struct { name, fields: Vec::new(), is_generic: false };
    assert_eq!(env.add_userdef(name, s), Some(TypeId(5)));
    assert_eq!(env.lookup_id(name), Some(TypeId(5)));
    let again = Type::Struct { name, fields: vec![(IdentId(1), TypeId(ty_id::INT))], is_generic: false };
    assert_eq!(env.add_userdef(name, again), None);
    assert_eq!(env.lookup_id(name), Some(TypeId(6)));
    match env.lookup_ty(name) {
        Some(Type::Struct { fields, .. }) => assert_eq!(fields.len(), 1),
        _ => panic!("expected the struct"),
    }
    assert_eq!(env.lookup_id(IdentId(8)), None);
    assert!(env.lookup_ty(IdentId(8)).is_none());
    if let Some(t) = env.lookup_ty_mut(name) {
        *t = Type::Struct { name, fields: Vec::new(), is_generic: true };
    }
    assert!(matches!(env.get(TypeId(6)), Type::Struct { is_generic: true, .. }));
    *env.get_mut(TypeId(5)) = Type::Float;
    assert!(matches!(env.get(TypeId(5)), Type::Float));
}

#[test]
fn generic_matching() {
    let mut env = TypeEnv::default();
    let t = env.add_ty(Type::Generic(IdentId(0)));
    let mut map: HashMap<u32, TypeId> = HashMap::new();
    assert_eq!(env.generic_eq(t, TypeId(ty_id::INT), &mut map), Some(TypeId(ty_id::INT)));
    assert_eq!(map.get(&0), Some(&TypeId(ty_id::INT)));
    assert_eq!(env.generic_eq(t, TypeId(ty_id::BOOL), &mut map), None);
    assert_eq!(env.generic_eq(t, TypeId(ty_id::INT), &mut map), Some(TypeId(ty_id::INT)));
    let arr = env.add_ty(Type::Array { inner: t, len: 0 });
    let arr_int = env.add_ty(Type::Array { inner: TypeId(ty_id::INT), len: 4 });
    assert_eq!(env.generic_eq(arr, arr_int, &mut map), Some(arr));
    assert_eq!(
        env.generic_eq(TypeId(ty_id::INT), TypeId(ty_id::FLOAT), &mut HashMap::new()),
        None
    );
}

#[test]
fn bindings_shadow_and_unwind() {
    let mut b = Bindings::default();
    let x = IdentId(1);
    assert_eq!(b.get(x), None);
    assert!(b.add(x, TypeId(ty_id::INT)));
    assert!(b.add(IdentId(2), TypeId(ty_id::FLOAT)));
    assert!(!b.add(x, TypeId(ty_id::BOOL)));
    assert_eq!(b.get(x), Some(TypeId(ty_id::BOOL)));
    b.unwind(2);
    assert_eq!(b.get(x), Some(TypeId(ty_id::INT)));
    assert_eq!(b.get(IdentId(2)), Some(TypeId(ty_id::FLOAT)));
    b.unwind(5);
    assert_eq!(b.get(x), Some(TypeId(ty_id::INT)));
    b.unwind(0);
    assert_eq!(b.get(x), None);
    assert_eq!(b.get(IdentId(2)), None);
}

#[test]
fn check_stops_before_what_an_error_cuts_off() {
    // the call fails on its callee, so its argument, an operator the
    // checker does not handle, is never reached
    let mut ast = parsed_ok(b"let x = g(1 + 2); let y: bool = 3;");
    assert!(!checkable(&ast));
    let (checker, _) = check(&mut ast);
    assert_eq!(
        messages(&checker),
        vec!["undeclared variable", "different types provided in declaration"]
    );
}

#[test]
fn generic_matching_keeps_bindings_made_before_a_failure() {
    let mut env = TypeEnv::default();
    let g = env.add_ty(Type::Generic(IdentId(7)));
    let mut m: HashMap<u32, TypeId> = HashMap::new();
    assert_eq!(env.generic_eq(g, TypeId(ty_id::INT), &mut m), Some(TypeId(ty_id::INT)));
    assert_eq!(env.generic_eq(g, TypeId(ty_id::BOOL), &mut m), None);
    assert_eq!(m.len(), 1);
    assert_eq!(m.get(&7), Some(&TypeId(ty_id::INT)));
    let gf = env.add_ty(Type::Func { params: vec![g, g], ret: TypeId(ty_id::VOID), is_generic: true });
    let cf = env.add_ty(Type::Func {
        params: vec![TypeId(ty_id::INT), TypeId(ty_id::BOOL)],
        ret: TypeId(ty_id::VOID),
        is_generic: false,
    });
    let mut m2: HashMap<u32, TypeId> = HashMap::new();
    assert_eq!(env.generic_eq(gf, cf, &mut m2), None);
    assert_eq!(m2.len(), 1);
    assert_eq!(m2.get(&7), Some(&TypeId(ty_id::INT)));
}

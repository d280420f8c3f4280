use rinterop::Character;
use rinterop::Env;
use rinterop::Expr;
use rinterop::Heap;
use rinterop::Lang;
use rinterop::List;
use rinterop::Pairlist;
use rinterop::Primitive;
use rinterop::Raw;
use rinterop::Robj;
use rinterop::SexpType;
use rinterop::Symbol;
use rinterop::env_round_trip;
use rinterop::lang_round_trip;
use rinterop::new_sys;
use std::collections::HashMap;

#[test]
fn symbol_round_trips() {
    let mut h = Heap::new();
    let sym = Robj::from_symbol(&mut h, &Symbol(b"xyz".to_vec()));
    assert!(sym.is_symbol(&h));
    assert_eq!(sym.sexptype(&h), SexpType::Sym);
    assert_eq!(sym.as_symbol(&h), Some(Symbol(b"xyz".to_vec())));
    assert_eq!(sym.as_character(&h), None);
}

#[test]
fn symbol_interning_is_idempotent() {
    let mut h = Heap::new();
    let a = Robj::from_symbol(&mut h, &Symbol(b"fred".to_vec()));
    let b = Robj::from_symbol(&mut h, &Symbol(b"fred".to_vec()));
    let c = Robj::from_symbol(&mut h, &Symbol(b"other".to_vec()));
    assert_eq!(a.get(), b.get());
    assert_ne!(a.get(), c.get());
}

#[test]
fn character_round_trips() {
    let mut h = Heap::new();
    let chr = Robj::from_character(&mut h, &Character(b"xyz".to_vec()));
    assert_eq!(chr.sexptype(&h), SexpType::Char);
    assert_eq!(chr.as_character(&h), Some(Character(b"xyz".to_vec())));
    assert_eq!(chr.length(&h), 3);
}

#[test]
fn raw_round_trips() {
    let mut h = Heap::new();
    let bytes = Robj::from_raw(&mut h, &Raw(vec![1, 2, 3]));
    assert_eq!(bytes.length(&h), 3);
    assert_eq!(bytes.as_raw(&h), Some(Raw(vec![1, 2, 3])));
    assert_eq!(bytes.as_lang(&h), None);
}

#[test]
fn call_expression_scenario() {
    let mut h = Heap::new();
    let xyz = Robj::from_symbol(&mut h, &Symbol(b"xyz".to_vec()));
    let one = h.alloc_int(1);
    let two = h.alloc_int(2);
    let call = Robj::from_lang(&mut h, &Lang(vec![xyz, one, two]));
    assert!(call.is_language(&h));
    assert_eq!(call.length(&h), 3);
    let back = call.as_lang(&h).unwrap();
    assert_eq!(back.0.len(), 3);
    assert_eq!(back.0[0].get(), xyz.get());
    assert_eq!(back.0[1].get(), one.get());
    assert_eq!(back.0[2].get(), two.get());
    assert_eq!(back.0[0].as_symbol(&h), Some(Symbol(b"xyz".to_vec())));
}

#[test]
fn lang_round_trip_law_holds_at_runtime() {
    let mut h = Heap::new();
    let a = h.alloc_int(10);
    let b = h.alloc_int(20);
    let r = lang_round_trip(&mut h, &Lang(vec![a, b])).unwrap();
    assert_eq!(r.0.len(), 2);
    assert_eq!(r.0[0].get(), a.get());
    assert_eq!(r.0[1].get(), b.get());
}

#[test]
fn empty_sequences_materialize_to_empty_containers() {
    let mut h = Heap::new();
    let lang = Robj::from_lang(&mut h, &Lang(Vec::new()));
    assert_eq!(lang.sexptype(&h), SexpType::Nil);
    assert_eq!(lang.length(&h), 0);
    assert_eq!(lang.as_lang(&h), None);

    let pl = Robj::from_pairlist(&mut h, &Pairlist { names_and_values: Vec::new() });
    assert_eq!(pl.sexptype(&h), SexpType::Nil);
    assert_eq!(pl.length(&h), 0);

    let list = Robj::from_list(&mut h, &List(Vec::new()));
    assert_eq!(list.sexptype(&h), SexpType::VecList);
    assert_eq!(list.length(&h), 0);

    let expr = Robj::from_expr(&mut h, &Expr(Vec::new()));
    assert_eq!(expr.sexptype(&h), SexpType::ExprList);
    assert_eq!(expr.length(&h), 0);
}

#[test]
fn pairlist_keeps_names_and_order() {
    let mut h = Heap::new();
    let one = h.alloc_int(1);
    let two = h.alloc_int(2);
    let three = h.alloc_int(3);
    let pl = Pairlist {
        names_and_values: vec![
            (Some(b"a".to_vec()), one),
            (Some(b"b".to_vec()), two),
            (None, three),
        ],
    };
    let robj = Robj::from_pairlist(&mut h, &pl);
    assert_eq!(robj.sexptype(&h), SexpType::PairList);
    assert_eq!(robj.length(&h), 3);
    let back = robj.as_pairlist(&h).unwrap();
    assert_eq!(back.names_and_values.len(), 3);
    assert_eq!(back.names_and_values[0].0, Some(b"a".to_vec()));
    assert_eq!(back.names_and_values[1].0, Some(b"b".to_vec()));
    assert_eq!(back.names_and_values[2].0, None);
    assert_eq!(back.names_and_values[0].1.get(), one.get());
    assert_eq!(back.names_and_values[2].1.get(), three.get());
}

#[test]
fn list_and_expr_round_trip() {
    let mut h = Heap::new();
    let a = h.alloc_int(0);
    let b = h.alloc_int(1);
    let list = Robj::from_list(&mut h, &List(vec![a, b]));
    assert!(list.is_list(&h));
    assert_eq!(list.as_list(&h), Some(List(vec![a, b])));
    assert_eq!(list.as_expr(&h), None);
    let expr = Robj::from_expr(&mut h, &Expr(vec![b, a]));
    assert!(expr.is_expr(&h));
    assert_eq!(expr.as_expr(&h), Some(Expr(vec![b, a])));
    assert_eq!(expr.as_list(&h), None);
}

#[test]
fn protection_stack_is_balanced() {
    let mut h = Heap::new();
    let before = h.prot_depth();
    let a = h.alloc_int(1);
    let b = h.alloc_int(2);
    let call = Robj::from_lang(&mut h, &Lang(vec![a, b]));
    assert_eq!(h.prot_depth(), before);
    let pl = Pairlist { names_and_values: vec![(Some(b"x".to_vec()), call)] };
    Robj::from_pairlist(&mut h, &pl);
    assert_eq!(h.prot_depth(), before);
}

#[test]
fn environment_entry_round_trip_scenario() {
    let mut h = Heap::new();
    let global = h.global_env();
    let mut entries: Vec<(Vec<u8>, Robj)> = Vec::new();
    let mut expected: HashMap<Vec<u8>, usize> = HashMap::new();
    for i in 0..100i64 {
        let name = format!("n{}", i).into_bytes();
        let value = h.alloc_int(i);
        expected.insert(name.clone(), value.get());
        entries.push((name, value));
    }
    // a deleted-but-not-compacted slot: bound to the unbound sentinel
    let unbound = h.unbound_value();
    entries.push((b"gone".to_vec(), unbound));
    let env = Robj::from_env(&mut h, &Env { parent: global, names_and_values: entries });
    assert_eq!(env.sexptype(&h), SexpType::Environment);
    assert_eq!(env.length(&h), 100);
    let back = env.as_environment(&h).unwrap();
    assert_eq!(back.parent.get(), global.get());
    assert_eq!(back.names_and_values.len(), 100);
    let got: HashMap<Vec<u8>, usize> =
        back.names_and_values.iter().map(|(n, v)| (n.clone(), v.get())).collect();
    assert_eq!(got, expected);
}

#[test]
fn environment_round_trip_law_holds_at_runtime() {
    let mut h = Heap::new();
    let global = h.global_env();
    let v = h.alloc_int(7);
    let env = Env { parent: global, names_and_values: vec![(b"x".to_vec(), v)] };
    let back = env_round_trip(&mut h, &env).unwrap();
    assert_eq!(back.names_and_values.len(), 1);
    assert_eq!(back.names_and_values[0].0, b"x".to_vec());
    assert_eq!(back.names_and_values[0].1.get(), v.get());
}

#[test]
fn unhashed_environment_uses_the_direct_frame() {
    let mut h = Heap::new();
    let global = h.global_env();
    let e = h.new_env(global, false);
    let v = h.alloc_int(42);
    let s = h.install(&b"answer".to_vec());
    h.define_var(new_sys(s), v, e);
    assert_eq!(e.length(&h), 1);
    let back = e.as_environment(&h).unwrap();
    assert_eq!(back.names_and_values.len(), 1);
    assert_eq!(back.names_and_values[0].0, b"answer".to_vec());
    assert_eq!(back.names_and_values[0].1.get(), v.get());
}

#[test]
fn primitive_resolves_bound_builtins() {
    let mut h = Heap::new();
    h.bind_builtin(&b"+".to_vec(), false);
    h.bind_builtin(&b"if".to_vec(), true);
    let plus = Robj::from_primitive(&mut h, &Primitive(b"+".to_vec()));
    assert!(plus.is_primitive(&h));
    assert_eq!(plus.sexptype(&h), SexpType::Builtin);
    let iff = Robj::from_primitive(&mut h, &Primitive(b"if".to_vec()));
    assert_eq!(iff.sexptype(&h), SexpType::Special);
}

#[test]
fn primitive_falls_back_to_null() {
    let mut h = Heap::new();
    let not_one = Robj::from_primitive(&mut h, &Primitive(b"not_a_primitive".to_vec()));
    assert!(not_one.is_null(&h));
    assert!(!not_one.is_primitive(&h));
}

#[test]
fn narrowing_mismatches_return_none() {
    let mut h = Heap::new();
    let one = h.alloc_int(1);
    let list = Robj::from_list(&mut h, &List(vec![one]));
    assert_eq!(list.as_lang(&h), None);
    assert_eq!(list.as_pairlist(&h), None);
    assert_eq!(list.as_environment(&h), None);
    assert_eq!(list.as_symbol(&h), None);
    assert_eq!(list.as_raw(&h), None);
    assert_eq!(list.as_func(&h), None);
    assert_eq!(list.as_promise(&h), None);
}

#[test]
fn closure_projections_round_trip() {
    let mut h = Heap::new();
    let global = h.global_env();
    let one = h.alloc_int(1);
    let formals = Robj::from_pairlist(
        &mut h,
        &Pairlist { names_and_values: vec![(Some(b"a".to_vec()), one)] },
    );
    let body = Robj::from_lang(&mut h, &Lang(vec![one]));
    let clo = h.alloc_closure(formals, body, global);
    assert_eq!(clo.sexptype(&h), SexpType::Closure);
    let func = clo.as_func(&h).unwrap();
    assert_eq!(func.formals.get(), formals.get());
    assert_eq!(func.body.get(), body.get());
    assert_eq!(func.env.get(), global.get());
}

#[test]
fn promise_projections_round_trip() {
    let mut h = Heap::new();
    let global = h.global_env();
    let five = h.alloc_int(5);
    let code = Robj::from_lang(&mut h, &Lang(vec![five]));
    let value = h.unbound_value();
    let prom = h.alloc_promise(code, global, value, false);
    assert!(prom.is_promise(&h));
    let back = prom.as_promise(&h).unwrap();
    assert_eq!(back.code.get(), code.get());
    assert_eq!(back.env.get(), global.get());
    assert_eq!(back.value.get(), value.get());
    assert!(!back.seen);
    let forced = h.alloc_promise(code, global, code, true);
    assert!(forced.as_promise(&h).unwrap().seen);
}

#[test]
fn owned_and_borrowed_handles_keep_their_tag() {
    let mut h = Heap::new();
    let owned = h.alloc_int(3);
    assert!(owned.owned());
    let borrowed = h.global_env();
    assert!(!borrowed.owned());
    let null = Robj::from_primitive(&mut h, &Primitive(b"nothing_bound".to_vec()));
    assert!(!null.owned());
}

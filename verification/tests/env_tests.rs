use rusche::env::gc_mark;

#[test]
fn test_gc_mark_follows_references() {
    // 0 -> 1 -> 2, 3 -> 0, 4 alone
    let refs = vec![vec![1], vec![2], vec![], vec![0], vec![]];
    let marks = gc_mark(&refs, 0);
    assert_eq!(marks, vec![true, true, true, false, false]);
}

#[test]
fn test_gc_mark_cycles() {
    let refs = vec![vec![1], vec![2, 0], vec![1, 2], vec![3]];
    let marks = gc_mark(&refs, 0);
    assert_eq!(marks, vec![true, true, true, false]);
    let marks = gc_mark(&refs, 3);
    assert_eq!(marks, vec![false, false, false, true]);
}

#[test]
fn test_gc_sweep_keeps_reachable() {
    // 0 -> 2, 1 -> 0 (1 unreachable, but it references 0), 3 -> 3
    let refs = vec![vec![2], vec![0], vec![], vec![3]];
    let marks = gc_mark(&refs, 0);
    assert_eq!(marks, vec![true, false, true, false]);
    let swept: Vec<Vec<usize>> =
        refs.iter().zip(&marks).map(|(r, m)| if *m { r.clone() } else { vec![] }).collect();
    assert_eq!(gc_mark(&swept, 0), marks);
}

use rusche::env::{Envs, ROOT_ENV};
use rusche::expr::{ClosureKey, Expr, Handle};

fn num(v: i32) -> Expr {
    Expr::from_i32(v)
}

#[test]
fn env_test_set() {
    let mut envs = Envs::new();
    assert_eq!(envs.lookup(ROOT_ENV, "one"), None);
    envs.define(ROOT_ENV, "one", num(1));
    assert_eq!(envs.lookup(ROOT_ENV, "one"), Some(num(1)));
}

#[test]
fn test_update() {
    let mut envs = Envs::new();
    assert!(!envs.update(ROOT_ENV, "name", num(1)));
    envs.define(ROOT_ENV, "name", num(0));
    assert!(envs.update(ROOT_ENV, "name", num(1)));
    assert_eq!(envs.lookup(ROOT_ENV, "name"), Some(num(1)));
}

#[test]
fn test_lookup() {
    let mut envs = Envs::new();
    assert_eq!(envs.lookup(ROOT_ENV, "one"), None);
    envs.define(ROOT_ENV, "one", num(1));
    assert_eq!(envs.lookup(ROOT_ENV, "one"), Some(num(1)));
}

#[test]
fn test_derive_update() {
    let mut envs = Envs::new();
    let base = ROOT_ENV;
    let derived = envs.derive(base);

    envs.define(base, "one", num(1));
    envs.define(derived, "two", num(2));

    assert!(envs.update(derived, "one", Expr::from_str("uno")));
    assert!(envs.update(derived, "two", Expr::from_str("dos")));

    assert_eq!(envs.lookup(base, "one"), Some(Expr::from_str("uno")));
    assert_eq!(envs.lookup(base, "two"), None);
    assert_eq!(envs.lookup(derived, "two"), Some(Expr::from_str("dos")));
}

#[test]
fn test_derive_lookup() {
    let mut envs = Envs::new();
    let base = ROOT_ENV;
    let derived = envs.derive(base);

    assert_eq!(envs.lookup(derived, "two"), None);
    envs.define(base, "two", num(2));
    assert_eq!(envs.lookup(derived, "two"), Some(num(2)));

    envs.define(derived, "three", num(3));
    assert_eq!(envs.lookup(base, "three"), None);
    assert_eq!(envs.lookup(derived, "three"), Some(num(3)));
}

#[test]
fn test_clone() {
    // an environment is named by its index: a copy of the index is the same environment
    let mut envs = Envs::new();
    let original = ROOT_ENV;
    let cloned = original;
    envs.define(original, "one", num(1));
    assert_eq!(envs.lookup(cloned, "one"), Some(num(1)));
}

#[test]
fn test_define_shadows_and_replaces() {
    let mut envs = Envs::new();
    let d = envs.derive(ROOT_ENV);
    envs.define(ROOT_ENV, "x", num(1));
    envs.define(d, "x", num(2));
    assert_eq!(envs.lookup(d, "x"), Some(num(2)));
    assert_eq!(envs.lookup(ROOT_ENV, "x"), Some(num(1)));
    envs.define(d, "x", num(3));
    assert_eq!(envs.lookup(d, "x"), Some(num(3)));
    assert_eq!(envs.len(), 2);
}

fn closure(id: u64, env: usize) -> Expr {
    let key = ClosureKey { name: None, formals: vec![], body: format!("(body {id})") };
    Expr::Proc(Handle { id, label: format!("<closure {id}>"), env: Some(env), closure: Some(key) }, None)
}

#[test]
fn test_gc_unreachable_envs() {
    // (define (f) (define (g) '()) g): each call of f makes an environment whose
    // closure g captures it; once g is dropped, nothing reaches that environment.
    let mut envs = Envs::new();
    envs.define(ROOT_ENV, "f", closure(0, ROOT_ENV));
    assert_eq!(envs.count_unreachable(), 0);

    let call = envs.derive(ROOT_ENV);
    envs.define(call, "g", closure(1, call));
    assert_eq!(envs.count_unreachable(), 1);

    for id in 2..5 {
        let call = envs.derive(ROOT_ENV);
        envs.define(call, "g", closure(id, call));
    }
    assert_eq!(envs.count_unreachable(), 4);

    // an environment that a closure bound in the root captures is reachable
    let kept = envs.derive(ROOT_ENV);
    envs.define(ROOT_ENV, "h", closure(9, kept));
    assert_eq!(envs.count_unreachable(), 4);

    envs.collect();
    assert_eq!(envs.count_unreachable(), 0);
    assert_eq!(envs.lookup(call, "g"), None);
    assert!(envs.lookup(ROOT_ENV, "h").is_some());
}
